//! Sheets of sliced sub-images and the path-keyed registry that holds them.
//!
//! A [`SpriteSheet`] is the ordered collection of sub-images cut out of one
//! atlas, one per rectangle of the originating descriptor and in the same
//! order. A [`SpriteSheets`] registry maps each normalized logical path to
//! its sheet; its keys are unique, and constructing it from two entries with
//! the same path is an error. Once constructed it is immutable and only
//! queried.

use vstd::prelude::*;
use crate::image::extract_view;
use crate::image::split_image_by_rectangles;
use crate::image::PixelBuffer;
use crate::image::PixelBufferView;
use crate::matching::descriptor_views;
use crate::matching::image_views;
use crate::matching::match_pairs;
use crate::matching::matches_of;
use crate::matching::triple_views;
use crate::matching::DescriptorResource;
use crate::matching::ImageResource;
use crate::matching::lemma_matches_of_triples;
use crate::matching::resource_matches;
use crate::matching::triple_of;
use crate::matching::DescriptorResourceView;
use crate::matching::ImageResourceView;
use crate::matching::MatchedTriple;
use crate::matching::MatchedTripleView;
use crate::paths::normalized_path;
use crate::rect::Rect;

verus! {

/// The views of a sequence of pixel buffers.
pub open spec fn buffer_views(s: Seq<PixelBuffer>) -> Seq<PixelBufferView> {
    s.map_values(|b: PixelBuffer| b@)
}

/// The sheet an image and a rectangle list produce: one extracted sub-image
/// per rectangle, in rectangle order.
pub open spec fn sheet_of_image(im: PixelBufferView, rects: Seq<Rect>) -> Seq<PixelBufferView> {
    rects.map_values(|r: Rect| extract_view(im, r))
}

/// The sheet a matched triple produces.
pub open spec fn sheet_of_triple(t: MatchedTripleView) -> Seq<PixelBufferView> {
    sheet_of_image(t.image, t.rects)
}

/// The ordered sub-images sliced out of one atlas image, indexed by frame
/// number.
#[derive(Debug)]
pub struct SpriteSheet {
    pub textures: Vec<PixelBuffer>,
}

impl View for SpriteSheet {
    type V = Seq<PixelBufferView>;

    open spec fn view(&self) -> Seq<PixelBufferView> {
        buffer_views(self.textures@)
    }
}

impl SpriteSheet {
    pub fn new(textures: Vec<PixelBuffer>) -> (sheet: SpriteSheet)
        ensures
            sheet@ == buffer_views(textures@),
    {
        SpriteSheet { textures }
    }

    /// The sub-image at the given 0-based frame index. An out-of-range index
    /// is a caller error, ruled out here rather than failed at run time.
    pub fn image_at(&self, index: usize) -> (image: PixelBuffer)
        requires
            index < self@.len(),
        ensures
            image@ == self@[index as int],
    {
        self.textures[index].clone()
    }

    /// The sub-images at the given frame indices, in the order the indices
    /// are given; indices may repeat and need not be contiguous. Every index
    /// must be in range.
    pub fn images_at(&self, indexes: &Vec<usize>) -> (images: Vec<PixelBuffer>)
        requires
            forall|k: int| 0 <= k < indexes@.len() ==> #[trigger] indexes@[k] < self@.len(),
        ensures
            images@.len() == indexes@.len(),
            forall|k: int|
                0 <= k < indexes@.len() ==> (#[trigger] images@[k])@ == self@[indexes@[k] as int],
    {
        let mut images: Vec<PixelBuffer> = Vec::new();
        let mut k: usize = 0;
        while k < indexes.len()
            invariant
                k <= indexes@.len(),
                forall|m: int| 0 <= m < indexes@.len() ==> #[trigger] indexes@[m] < self@.len(),
                images@.len() == k,
                forall|m: int|
                    0 <= m < k ==> (#[trigger] images@[m])@ == self@[indexes@[m] as int],
            decreases indexes@.len() - k,
        {
            images.push(self.image_at(indexes[k]));
            k = k + 1;
        }
        images
    }
}

/// Constructing a registry from two entries with the same normalized path.
/// The offending path is named.
#[derive(Debug)]
pub struct DuplicatePathError {
    pub path: String,
}

/// No two entries share a path.
pub open spec fn unique_paths(s: Seq<(String, SpriteSheet)>) -> bool {
    forall|i: int, j: int| 0 <= i < j < s.len() ==> (#[trigger] s[i]).0@ != (#[trigger] s[j]).0@
}

/// The mapping a list of entries denotes: each path to its sheet's view.
pub open spec fn entries_map(s: Seq<(String, SpriteSheet)>) -> Map<Seq<char>, Seq<PixelBufferView>>
    decreases s.len(),
{
    if s.len() == 0 {
        Map::empty()
    } else {
        entries_map(s.drop_last()).insert(s.last().0@, s.last().1@)
    }
}

/// A key is in the mapping exactly when some entry carries it.
pub proof fn lemma_entries_map_contains(s: Seq<(String, SpriteSheet)>, p: Seq<char>)
    ensures
        entries_map(s).contains_key(p) <==> exists|i: int|
            0 <= i < s.len() && (#[trigger] s[i]).0@ == p,
    decreases s.len(),
{
    if s.len() == 0 {
    } else {
        lemma_entries_map_contains(s.drop_last(), p);
        if entries_map(s).contains_key(p) {
            if s.last().0@ != p {
                let i = choose|i: int| 0 <= i < s.drop_last().len() && (#[trigger] s.drop_last()[i]).0@ == p;
                assert(s[i].0@ == p);
            } else {
                assert(s[s.len() - 1].0@ == p);
            }
        }
        if exists|i: int| 0 <= i < s.len() && (#[trigger] s[i]).0@ == p {
            let i = choose|i: int| 0 <= i < s.len() && (#[trigger] s[i]).0@ == p;
            if i < s.len() - 1 {
                assert(s.drop_last()[i].0@ == p);
            }
        }
    }
}

/// An entry whose path no later entry repeats gives the mapping's value at
/// that path.
pub proof fn lemma_entries_map_at(s: Seq<(String, SpriteSheet)>, i: int)
    requires
        0 <= i < s.len(),
        forall|j: int| i < j < s.len() ==> (#[trigger] s[j]).0@ != s[i].0@,
    ensures
        entries_map(s).contains_key(s[i].0@),
        entries_map(s)[s[i].0@] == s[i].1@,
    decreases s.len(),
{
    if i == s.len() - 1 {
    } else {
        assert(forall|j: int|
            i < j < s.drop_last().len() ==> (#[trigger] s.drop_last()[j]).0@ != s.drop_last()[i].0@);
        lemma_entries_map_at(s.drop_last(), i);
        assert(s.last().0@ != s[i].0@);
    }
}

/// The registry of all built sheets, keyed by normalized logical path.
/// Immutable once constructed; keys are unique.
#[derive(Debug)]
pub struct SpriteSheets {
    entries: Vec<(String, SpriteSheet)>,
}

impl View for SpriteSheets {
    type V = Map<Seq<char>, Seq<PixelBufferView>>;

    closed spec fn view(&self) -> Map<Seq<char>, Seq<PixelBufferView>> {
        entries_map(self.entries@)
    }
}

impl SpriteSheets {
    /// No two entries of the registry share a path.
    pub closed spec fn wf(self) -> bool {
        unique_paths(self.entries@)
    }

    /// Build a registry from `(path, sheet)` entries. Two entries with the
    /// same path are a construction-time error naming that path; otherwise
    /// the registry maps each given path to its sheet.
    pub fn new(entries: Vec<(String, SpriteSheet)>) -> (result: Result<
        SpriteSheets,
        DuplicatePathError,
    >)
        ensures
            match result {
                Ok(registry) => {
                    &&& unique_paths(entries@)
                    &&& registry.wf()
                    &&& registry@ == entries_map(entries@)
                },
                Err(e) => {
                    &&& !unique_paths(entries@)
                    &&& exists|i: int, j: int|
                        0 <= i < j < entries@.len() && (#[trigger] entries@[i]).0@ == (
                        #[trigger] entries@[j]).0@ && e.path@ == entries@[i].0@
                },
            },
    {
        let n = entries.len();
        let mut i: usize = 0;
        while i < n
            invariant
                i <= n,
                n == entries@.len(),
                forall|a: int, b: int|
                    0 <= a < b < n && a < i ==> (#[trigger] entries@[a]).0@ != (
                    #[trigger] entries@[b]).0@,
            decreases n - i,
        {
            let mut j: usize = i + 1;
            while j < n
                invariant
                    i < j <= n,
                    n == entries@.len(),
                    forall|b: int| i < b < j ==> (#[trigger] entries@[b]).0@ != entries@[i as int].0@,
                decreases n - j,
            {
                if entries[i].0 == entries[j].0 {
                    let path = entries[i].0.clone();
                    return Err(DuplicatePathError { path });
                }
                j = j + 1;
            }
            i = i + 1;
        }
        Ok(SpriteSheets { entries })
    }

    /// The sheet at the given normalized path. The path must be one the
    /// registry holds: querying a path that was never loaded is a caller
    /// error, ruled out here rather than failed at run time.
    pub fn get_sheet(&self, path: &str) -> (sheet: &SpriteSheet)
        requires
            self.wf(),
            self@.contains_key(path@),
        ensures
            sheet@ == self@[path@],
    {
        let wanted: String = path.to_owned();
        let mut i: usize = 0;
        while i < self.entries.len()
            invariant
                i <= self.entries@.len(),
                wanted@ == path@,
                self.wf(),
                self@.contains_key(path@),
                forall|k: int| 0 <= k < i ==> (#[trigger] self.entries@[k]).0@ != path@,
            decreases self.entries@.len() - i,
        {
            if self.entries[i].0 == wanted {
                proof {
                    lemma_entries_map_at(self.entries@, i as int);
                }
                return &self.entries[i].1;
            }
            i = i + 1;
        }
        proof {
            lemma_entries_map_contains(self.entries@, path@);
            assert(false);
        }
        vstd::pervasive::unreached()
    }
}

/// Every rectangle of the triple can be cut out of its image: the image is
/// well formed and single-layer, its row stride fits the machine, and each
/// rectangle lies within its extent.
pub open spec fn triple_sliceable(t: MatchedTripleView) -> bool {
    &&& t.image.wf()
    &&& t.image.depth == 1
    &&& t.image.width * t.image.pixel_size <= usize::MAX
    &&& forall|i: int|
        0 <= i < t.rects.len() ==> (#[trigger] t.rects[i]).in_bounds(t.image.width, t.image.height)
}

/// No two triples share a path.
pub open spec fn duplicate_free(ts: Seq<MatchedTripleView>) -> bool {
    forall|i: int, j: int|
        0 <= i < j < ts.len() ==> (#[trigger] ts[i]).path != (#[trigger] ts[j]).path
}

/// The registry a list of triples denotes: each path to the sheet its
/// triple produces.
pub open spec fn registry_of(ts: Seq<MatchedTripleView>) -> Map<Seq<char>, Seq<PixelBufferView>>
    decreases ts.len(),
{
    if ts.len() == 0 {
        Map::empty()
    } else {
        registry_of(ts.drop_last()).insert(ts.last().path, sheet_of_triple(ts.last()))
    }
}

/// A key is in the registry exactly when some triple carries it.
pub proof fn lemma_registry_of_contains(ts: Seq<MatchedTripleView>, p: Seq<char>)
    ensures
        registry_of(ts).contains_key(p) <==> exists|i: int|
            0 <= i < ts.len() && (#[trigger] ts[i]).path == p,
    decreases ts.len(),
{
    if ts.len() == 0 {
    } else {
        lemma_registry_of_contains(ts.drop_last(), p);
        if registry_of(ts).contains_key(p) {
            if ts.last().path != p {
                let i = choose|i: int|
                    0 <= i < ts.drop_last().len() && (#[trigger] ts.drop_last()[i]).path == p;
                assert(ts[i].path == p);
            } else {
                assert(ts[ts.len() - 1].path == p);
            }
        }
        if exists|i: int| 0 <= i < ts.len() && (#[trigger] ts[i]).path == p {
            let i = choose|i: int| 0 <= i < ts.len() && (#[trigger] ts[i]).path == p;
            if i < ts.len() - 1 {
                assert(ts.drop_last()[i].path == p);
            }
        }
    }
}

/// Entries whose paths and sheets agree pointwise with a triple list denote
/// the triples' registry.
proof fn lemma_entries_map_matches_registry(s: Seq<(String, SpriteSheet)>, ts: Seq<MatchedTripleView>)
    requires
        s.len() == ts.len(),
        forall|k: int|
            0 <= k < s.len() ==> (#[trigger] s[k]).0@ == ts[k].path && s[k].1@ == sheet_of_triple(
                ts[k],
            ),
    ensures
        entries_map(s) == registry_of(ts),
    decreases s.len(),
{
    if s.len() == 0 {
    } else {
        assert(forall|k: int|
            0 <= k < s.drop_last().len() ==> #[trigger] s.drop_last()[k] == s[k]
                && ts.drop_last()[k] == ts[k]);
        lemma_entries_map_matches_registry(s.drop_last(), ts.drop_last());
        assert(s[s.len() - 1].0@ == ts[ts.len() - 1].path);
        assert(s[s.len() - 1].1@ == sheet_of_triple(ts[ts.len() - 1]));
    }
}

/// Build one sheet per triple, in triple order, and collect them into a
/// registry keyed by the triples' paths. Two triples with the same path are
/// a construction-time error naming that path.
pub fn build_registry(triples: &Vec<MatchedTriple>) -> (result: Result<
    SpriteSheets,
    DuplicatePathError,
>)
    requires
        forall|k: int|
            0 <= k < triples@.len() ==> triple_sliceable((#[trigger] triples@[k])@),
    ensures
        match result {
            Ok(registry) => {
                &&& duplicate_free(triple_views(triples@))
                &&& registry.wf()
                &&& registry@ == registry_of(triple_views(triples@))
            },
            Err(e) => {
                &&& !duplicate_free(triple_views(triples@))
                &&& exists|i: int, j: int|
                    0 <= i < j < triples@.len() && (#[trigger] triples@[i])@.path == (
                    #[trigger] triples@[j])@.path && e.path@ == triples@[i]@.path
            },
        },
{
    let ghost ts = triple_views(triples@);
    let mut entries: Vec<(String, SpriteSheet)> = Vec::new();
    let mut k: usize = 0;
    while k < triples.len()
        invariant
            k <= triples@.len(),
            ts == triple_views(triples@),
            forall|m: int| 0 <= m < triples@.len() ==> triple_sliceable((#[trigger] triples@[m])@),
            entries@.len() == k,
            forall|m: int|
                0 <= m < k ==> (#[trigger] entries@[m]).0@ == ts[m].path && entries@[m].1@
                    == sheet_of_triple(ts[m]),
        decreases triples@.len() - k,
    {
        let triple = &triples[k];
        proof {
            assert(ts[k as int] == triple@);
            assert(triple_sliceable(triple@));
            assert forall|i: int| 0 <= i < triple.rects@.len() implies (
            #[trigger] triple.rects@[i]).in_bounds(triple.image@.width, triple.image@.height) by {
                assert(triple@.rects[i] == triple.rects@[i]);
            }
        }
        let sub_images = split_image_by_rectangles(&triple.image, &triple.rects);
        let sheet = SpriteSheet::new(sub_images);
        proof {
            assert(sheet@ =~= sheet_of_triple(ts[k as int]));
        }
        let path = triple.path.clone();
        entries.push((path, sheet));
        k = k + 1;
    }
    let ghost entry_seq = entries@;
    let result = SpriteSheets::new(entries);
    match result {
        Ok(registry) => {
            proof {
                lemma_entries_map_matches_registry(entry_seq, ts);
                assert forall|i: int, j: int| 0 <= i < j < ts.len() implies (
                #[trigger] ts[i]).path != (#[trigger] ts[j]).path by {
                    assert(entry_seq[i].0@ == ts[i].path);
                    assert(entry_seq[j].0@ == ts[j].path);
                }
            }
            Ok(registry)
        },
        Err(e) => {
            proof {
                let (i, j) = choose|i: int, j: int|
                    0 <= i < j < entry_seq.len() && (#[trigger] entry_seq[i]).0@ == (
                    #[trigger] entry_seq[j]).0@ && e.path@ == entry_seq[i].0@;
                assert(ts[i].path == ts[j].path && e.path@ == ts[i].path);
            }
            Err(e)
        },
    }
}

/// Frame order follows rectangle order: wherever two rectangle lists hold
/// the same rectangle, the sheets they produce from the same image hold the
/// same sub-image. In particular, reordering a descriptor's rectangles
/// reorders its sheet's frames identically.
pub proof fn lemma_sheet_order_preservation(
    im: PixelBufferView,
    rects_a: Seq<Rect>,
    rects_b: Seq<Rect>,
    i: int,
    j: int,
)
    requires
        0 <= i < rects_a.len(),
        0 <= j < rects_b.len(),
        rects_a[i] == rects_b[j],
    ensures
        sheet_of_image(im, rects_a)[i] == sheet_of_image(im, rects_b)[j],
{
}

/// A descriptor no image matches contributes no registry entry: its
/// normalized path is not a key of the registry the pipeline builds.
pub proof fn lemma_unmatched_descriptor_excluded(
    ds: Seq<DescriptorResourceView>,
    ims: Seq<ImageResourceView>,
    d: DescriptorResourceView,
)
    requires
        d.path is Some,
        forall|j: int| 0 <= j < ims.len() ==> !resource_matches(d, #[trigger] ims[j]),
    ensures
        !registry_of(matches_of(ds, ims)).contains_key(normalized_path(d.path->0)),
{
    let ts = matches_of(ds, ims);
    let p = normalized_path(d.path->0);
    lemma_registry_of_contains(ts, p);
    if registry_of(ts).contains_key(p) {
        let k = choose|k: int| 0 <= k < ts.len() && (#[trigger] ts[k]).path == p;
        lemma_matches_of_triples(ds, ims);
        let (i, j) = choose|i: int, j: int|
            {
                &&& 0 <= i < ds.len()
                &&& 0 <= j < ims.len()
                &&& resource_matches(#[trigger] ds[i], #[trigger] ims[j])
                &&& #[trigger] ts[k] == triple_of(ds[i], ims[j])
            };
        assert(normalized_path(ims[j].path->0) == p);
        assert(resource_matches(d, ims[j]));
    }
}

/// An image no descriptor matches contributes no registry entry: its
/// normalized path is not a key of the registry the pipeline builds.
pub proof fn lemma_unmatched_image_excluded(
    ds: Seq<DescriptorResourceView>,
    ims: Seq<ImageResourceView>,
    im: ImageResourceView,
)
    requires
        im.path is Some,
        forall|i: int| 0 <= i < ds.len() ==> !resource_matches(#[trigger] ds[i], im),
    ensures
        !registry_of(matches_of(ds, ims)).contains_key(normalized_path(im.path->0)),
{
    let ts = matches_of(ds, ims);
    let p = normalized_path(im.path->0);
    lemma_registry_of_contains(ts, p);
    if registry_of(ts).contains_key(p) {
        let k = choose|k: int| 0 <= k < ts.len() && (#[trigger] ts[k]).path == p;
        lemma_matches_of_triples(ds, ims);
        let (i, j) = choose|i: int, j: int|
            {
                &&& 0 <= i < ds.len()
                &&& 0 <= j < ims.len()
                &&& resource_matches(#[trigger] ds[i], #[trigger] ims[j])
                &&& #[trigger] ts[k] == triple_of(ds[i], ims[j])
            };
        assert(normalized_path(ds[i].path->0) == p);
        assert(resource_matches(ds[i], im));
    }
}

/// Run the whole pipeline: pair descriptors with images by normalized path,
/// slice each matched image by its descriptor's rectangles, and collect the
/// sheets into one registry. Descriptors that normalize to the same path
/// are a construction-time error naming that path; no partial registry is
/// produced.
pub fn create_sprite_sheets(
    descriptors: &Vec<DescriptorResource>,
    images: &Vec<ImageResource>,
) -> (result: Result<SpriteSheets, DuplicatePathError>)
    requires
        forall|k: int|
            0 <= k < matches_of(descriptor_views(descriptors@), image_views(images@)).len()
                ==> triple_sliceable(
                #[trigger] matches_of(descriptor_views(descriptors@), image_views(images@))[k],
            ),
    ensures
        match result {
            Ok(registry) => {
                &&& duplicate_free(matches_of(descriptor_views(descriptors@), image_views(images@)))
                &&& registry.wf()
                &&& registry@ == registry_of(
                    matches_of(descriptor_views(descriptors@), image_views(images@)),
                )
            },
            Err(e) => {
                &&& !duplicate_free(
                    matches_of(descriptor_views(descriptors@), image_views(images@)),
                )
                &&& exists|i: int, j: int|
                    0 <= i < j < matches_of(
                        descriptor_views(descriptors@),
                        image_views(images@),
                    ).len() && (#[trigger] matches_of(
                        descriptor_views(descriptors@),
                        image_views(images@),
                    )[i]).path == (#[trigger] matches_of(
                        descriptor_views(descriptors@),
                        image_views(images@),
                    )[j]).path && e.path@ == matches_of(
                        descriptor_views(descriptors@),
                        image_views(images@),
                    )[i].path
            },
        },
{
    let ghost ms = matches_of(descriptor_views(descriptors@), image_views(images@));
    let triples = match_pairs(descriptors, images);
    proof {
        assert(forall|k: int|
            0 <= k < triples@.len() ==> (#[trigger] triples@[k])@ == triple_views(triples@)[k]);
    }
    let result = build_registry(&triples);
    proof {
        match &result {
            Ok(registry) => {},
            Err(e) => {
                let (i, j) = choose|i: int, j: int|
                    0 <= i < j < triples@.len() && (#[trigger] triples@[i])@.path == (
                    #[trigger] triples@[j])@.path && e.path@ == triples@[i]@.path;
                assert(ms[i].path == ms[j].path && e.path@ == ms[i].path);
            },
        }
    }
    result
}

} // verus!
