use sprite_sheets::matching::match_pairs;
use sprite_sheets::paths::normalize_path;
use sprite_sheets::sheets::create_sprite_sheets;
use sprite_sheets::sheets::SpriteSheet;
use sprite_sheets::sheets::SpriteSheets;
use sprite_sheets::DescriptorResource;
use sprite_sheets::ImageResource;
use sprite_sheets::PixelBuffer;
use sprite_sheets::Rect;

fn image_resource(path: Option<&str>, width: usize, height: usize, data: Vec<u8>) -> ImageResource {
    ImageResource {
        path: path.map(|p| p.to_string()),
        image: PixelBuffer::new(width, height, 1, 1, data),
    }
}

fn descriptor_resource(path: Option<&str>, rects: Vec<Rect>) -> DescriptorResource {
    DescriptorResource { path: path.map(|p| p.to_string()), rects }
}

#[test]
fn normalization_unifies_separators_and_strips_suffixes() {
    assert_eq!(normalize_path("a/b.aseprite.json"), "a/b");
    assert_eq!(normalize_path("a\\b.aseprite.json"), "a/b");
    assert_eq!(normalize_path("a/b.png"), "a/b");
    assert_eq!(normalize_path("a\\b"), "a/b");
    assert_eq!(normalize_path("sprites/hero"), "sprites/hero");
    assert_eq!(normalize_path(""), "");
    assert_eq!(normalize_path(".hidden"), "");
}

#[test]
fn matching_is_invariant_to_separator_and_suffix() {
    let descriptors = vec![descriptor_resource(
        Some("a\\b.aseprite.json"),
        vec![Rect::new(0, 0, 1, 1)],
    )];
    let images = vec![image_resource(Some("a/b.png"), 1, 1, vec![7])];
    let triples = match_pairs(&descriptors, &images);
    assert_eq!(triples.len(), 1);
    assert_eq!(triples[0].path, "a/b");

    // A different metadata-suffix on the descriptor side matches just the same.
    let descriptors = vec![descriptor_resource(
        Some("a/b.sheet.json"),
        vec![Rect::new(0, 0, 1, 1)],
    )];
    let triples = match_pairs(&descriptors, &images);
    assert_eq!(triples.len(), 1);
    assert_eq!(triples[0].path, "a/b");
}

#[test]
fn unmatched_and_pathless_resources_are_excluded_without_error() {
    let descriptors = vec![
        descriptor_resource(Some("present.aseprite.json"), vec![Rect::new(0, 0, 1, 1)]),
        descriptor_resource(Some("missing.aseprite.json"), vec![Rect::new(0, 0, 1, 1)]),
        descriptor_resource(None, vec![Rect::new(0, 0, 1, 1)]),
    ];
    let images = vec![
        image_resource(None, 1, 1, vec![1]),
        image_resource(Some("present.png"), 1, 1, vec![2]),
        image_resource(Some("unrelated.png"), 1, 1, vec![3]),
    ];
    let registry = create_sprite_sheets(&descriptors, &images).unwrap();
    let sheet = registry.get_sheet("present");
    assert_eq!(sheet.textures.len(), 1);
    assert_eq!(sheet.textures[0].data, vec![2]);
}

#[test]
fn first_matching_image_wins() {
    let descriptors = vec![descriptor_resource(
        Some("dup.aseprite.json"),
        vec![Rect::new(0, 0, 1, 1)],
    )];
    let images = vec![
        image_resource(Some("dup.png"), 1, 1, vec![10]),
        image_resource(Some("dup.jpg"), 1, 1, vec![20]),
    ];
    let triples = match_pairs(&descriptors, &images);
    assert_eq!(triples.len(), 1);
    assert_eq!(triples[0].image.data, vec![10]);
}

#[test]
fn end_to_end_scenario() {
    let descriptors = vec![descriptor_resource(
        Some("sprites/hero.aseprite.json"),
        vec![Rect::new(0, 0, 2, 2)],
    )];
    let images = vec![image_resource(
        Some("sprites/hero.png"),
        4,
        2,
        vec![0, 1, 2, 3, 4, 5, 6, 7],
    )];
    let registry = create_sprite_sheets(&descriptors, &images).unwrap();
    let sheet = registry.get_sheet("sprites/hero");
    assert_eq!(sheet.textures.len(), 1);
    let frame = sheet.image_at(0);
    assert_eq!(frame.width, 2);
    assert_eq!(frame.height, 2);
    assert_eq!(frame.data, vec![0, 1, 4, 5]);
}

#[test]
fn duplicate_path_rejection() {
    // Two descriptors normalizing to the same path, both matched.
    let descriptors = vec![
        descriptor_resource(Some("sprites/hero.aseprite.json"), vec![Rect::new(0, 0, 1, 1)]),
        descriptor_resource(Some("sprites\\hero.json"), vec![Rect::new(1, 0, 1, 1)]),
    ];
    let images = vec![image_resource(Some("sprites/hero.png"), 2, 1, vec![8, 9])];
    let err = create_sprite_sheets(&descriptors, &images).unwrap_err();
    assert_eq!(err.path, "sprites/hero");
}

#[test]
fn registry_construction_rejects_duplicate_keys() {
    let entries = vec![
        ("sprites/hero".to_string(), SpriteSheet::new(Vec::new())),
        ("other".to_string(), SpriteSheet::new(Vec::new())),
        ("sprites/hero".to_string(), SpriteSheet::new(Vec::new())),
    ];
    let err = SpriteSheets::new(entries).unwrap_err();
    assert_eq!(err.path, "sprites/hero");

    let entries = vec![
        ("a".to_string(), SpriteSheet::new(Vec::new())),
        ("b".to_string(), SpriteSheet::new(Vec::new())),
    ];
    assert!(SpriteSheets::new(entries).is_ok());
}

#[test]
fn get_sheet_finds_each_key() {
    let descriptors = vec![
        descriptor_resource(Some("one.aseprite.json"), vec![Rect::new(0, 0, 1, 1)]),
        descriptor_resource(Some("two.aseprite.json"), vec![Rect::new(1, 0, 1, 1)]),
    ];
    let images = vec![
        image_resource(Some("one.png"), 2, 1, vec![1, 2]),
        image_resource(Some("two.png"), 2, 1, vec![3, 4]),
    ];
    let registry = create_sprite_sheets(&descriptors, &images).unwrap();
    assert_eq!(registry.get_sheet("one").textures[0].data, vec![1]);
    assert_eq!(registry.get_sheet("two").textures[0].data, vec![4]);
}

#[test]
fn images_at_supports_repeated_and_noncontiguous_indices() {
    let source = PixelBuffer::new(4, 1, 1, 1, vec![0, 1, 2, 3]);
    let rects = vec![
        Rect::new(0, 0, 1, 1),
        Rect::new(1, 0, 1, 1),
        Rect::new(2, 0, 1, 1),
        Rect::new(3, 0, 1, 1),
    ];
    let sheet = SpriteSheet::new(sprite_sheets::image::split_image_by_rectangles(
        &source, &rects,
    ));
    let frames = sheet.images_at(&vec![3, 0, 3, 1]);
    assert_eq!(frames.len(), 4);
    assert_eq!(frames[0].data, vec![3]);
    assert_eq!(frames[1].data, vec![0]);
    assert_eq!(frames[2].data, vec![3]);
    assert_eq!(frames[3].data, vec![1]);
}

#[test]
fn sheet_frames_follow_descriptor_order() {
    let descriptors = vec![descriptor_resource(
        Some("strip.aseprite.json"),
        vec![Rect::new(2, 0, 1, 1), Rect::new(0, 0, 1, 1), Rect::new(1, 0, 1, 1)],
    )];
    let images = vec![image_resource(Some("strip.png"), 3, 1, vec![10, 11, 12])];
    let registry = create_sprite_sheets(&descriptors, &images).unwrap();
    let sheet = registry.get_sheet("strip");
    assert_eq!(sheet.image_at(0).data, vec![12]);
    assert_eq!(sheet.image_at(1).data, vec![10]);
    assert_eq!(sheet.image_at(2).data, vec![11]);
}
