//! Pairing descriptor resources with the image resources they describe.
//!
//! Each descriptor and each image carries the logical path it was loaded
//! from, when one is resolvable. A descriptor matches the image whose
//! normalized path (see [`crate::paths`]) equals its own; the first such
//! image in the image collection wins, which makes matching deterministic.
//! Resources with no resolvable path, descriptors no image matches and
//! images no descriptor matches are silently excluded — unrelated or
//! malformed entries never fail the pipeline.

use vstd::prelude::*;
use crate::image::PixelBuffer;
use crate::image::PixelBufferView;
use crate::paths::normalize_path;
use crate::paths::normalized_path;
use crate::rect::Rect;

verus! {

/// One loaded frame-rectangle descriptor: the ordered rectangles it lists,
/// tagged with the source path it came from, if that path is resolvable.
#[derive(Debug)]
pub struct DescriptorResource {
    pub path: Option<String>,
    pub rects: Vec<Rect>,
}

/// Mathematical model of a [`DescriptorResource`].
pub ghost struct DescriptorResourceView {
    pub path: Option<Seq<char>>,
    pub rects: Seq<Rect>,
}

impl View for DescriptorResource {
    type V = DescriptorResourceView;

    open spec fn view(&self) -> DescriptorResourceView {
        DescriptorResourceView {
            path: match self.path {
                Some(p) => Some(p@),
                None => None,
            },
            rects: self.rects@,
        }
    }
}

/// One loaded atlas image, tagged with the source path it came from, if that
/// path is resolvable.
#[derive(Debug)]
pub struct ImageResource {
    pub path: Option<String>,
    pub image: PixelBuffer,
}

/// Mathematical model of an [`ImageResource`].
pub ghost struct ImageResourceView {
    pub path: Option<Seq<char>>,
    pub image: PixelBufferView,
}

impl View for ImageResource {
    type V = ImageResourceView;

    open spec fn view(&self) -> ImageResourceView {
        ImageResourceView {
            path: match self.path {
                Some(p) => Some(p@),
                None => None,
            },
            image: self.image@,
        }
    }
}

/// One matched pair, keyed by the normalized path both sides share: the
/// descriptor's rectangles, in the order the descriptor lists them, and the image they
/// slice.
#[derive(Debug)]
pub struct MatchedTriple {
    pub path: String,
    pub rects: Vec<Rect>,
    pub image: PixelBuffer,
}

/// Mathematical model of a [`MatchedTriple`].
pub ghost struct MatchedTripleView {
    pub path: Seq<char>,
    pub rects: Seq<Rect>,
    pub image: PixelBufferView,
}

impl View for MatchedTriple {
    type V = MatchedTripleView;

    open spec fn view(&self) -> MatchedTripleView {
        MatchedTripleView { path: self.path@, rects: self.rects@, image: self.image@ }
    }
}

/// The views of a sequence of descriptors.
pub open spec fn descriptor_views(s: Seq<DescriptorResource>) -> Seq<DescriptorResourceView> {
    s.map_values(|d: DescriptorResource| d@)
}

/// The views of a sequence of images.
pub open spec fn image_views(s: Seq<ImageResource>) -> Seq<ImageResourceView> {
    s.map_values(|im: ImageResource| im@)
}

/// The views of a sequence of matched triples.
pub open spec fn triple_views(s: Seq<MatchedTriple>) -> Seq<MatchedTripleView> {
    s.map_values(|t: MatchedTriple| t@)
}

/// Both resources have a resolvable path and the two paths normalize to the
/// same logical path.
pub open spec fn resource_matches(d: DescriptorResourceView, im: ImageResourceView) -> bool {
    &&& d.path is Some
    &&& im.path is Some
    &&& normalized_path(d.path->0) == normalized_path(im.path->0)
}

/// The triple a matched descriptor and image produce.
pub open spec fn triple_of(d: DescriptorResourceView, im: ImageResourceView) -> MatchedTripleView {
    MatchedTripleView { path: normalized_path(d.path->0), rects: d.rects, image: im.image }
}

/// Index of the first image in `ims` that `d` matches, if any.
pub open spec fn first_image_match(d: DescriptorResourceView, ims: Seq<ImageResourceView>) -> Option<
    int,
>
    decreases ims.len(),
{
    if ims.len() == 0 {
        None
    } else if resource_matches(d, ims[0]) {
        Some(0int)
    } else {
        match first_image_match(d, ims.subrange(1, ims.len() as int)) {
            Some(j) => Some(1 + j),
            None => None,
        }
    }
}

/// Any index with no match before it, and a match (or the end) at it,
/// determines `first_image_match`.
pub proof fn lemma_first_image_match_at(
    d: DescriptorResourceView,
    ims: Seq<ImageResourceView>,
    j: int,
)
    requires
        0 <= j <= ims.len(),
        forall|k: int| 0 <= k < j ==> !resource_matches(d, #[trigger] ims[k]),
        j < ims.len() ==> resource_matches(d, ims[j]),
    ensures
        first_image_match(d, ims) == if j < ims.len() {
            Some(j)
        } else {
            None::<int>
        },
    decreases ims.len(),
{
    if ims.len() == 0 {
    } else if resource_matches(d, ims[0]) {
        assert(j == 0);
    } else {
        let t = ims.subrange(1, ims.len() as int);
        assert(forall|k: int| 0 <= k < t.len() ==> t[k] == ims[k + 1]);
        lemma_first_image_match_at(d, t, j - 1);
    }
}

/// What a `first_image_match` result means: the matched index is in range,
/// matches, and nothing before it does; `None` means nothing matches.
pub proof fn lemma_first_image_match(d: DescriptorResourceView, ims: Seq<ImageResourceView>)
    ensures
        match first_image_match(d, ims) {
            Some(j) => 0 <= j < ims.len() && resource_matches(d, ims[j]) && forall|k: int|
                0 <= k < j ==> !resource_matches(d, #[trigger] ims[k]),
            None => forall|k: int| 0 <= k < ims.len() ==> !resource_matches(d, #[trigger] ims[k]),
        },
    decreases ims.len(),
{
    if ims.len() == 0 {
    } else if resource_matches(d, ims[0]) {
    } else {
        let t = ims.subrange(1, ims.len() as int);
        assert(forall|k: int| 0 <= k < t.len() ==> t[k] == ims[k + 1]);
        lemma_first_image_match(d, t);
        match first_image_match(d, t) {
            Some(j) => {
                assert(first_image_match(d, ims) == Some(1 + j));
                assert(resource_matches(d, ims[1 + j]));
                assert forall|k: int| 0 <= k < 1 + j implies !resource_matches(
                    d,
                    #[trigger] ims[k],
                ) by {
                    if k > 0 {
                        assert(t[k - 1] == ims[k]);
                        assert(!resource_matches(d, t[k - 1]));
                    }
                }
            },
            None => {
                assert forall|k: int| 0 <= k < ims.len() implies !resource_matches(
                    d,
                    #[trigger] ims[k],
                ) by {
                    if k > 0 {
                        assert(t[k - 1] == ims[k]);
                        assert(!resource_matches(d, t[k - 1]));
                    }
                }
            },
        }
    }
}

/// The matched triples of `ds` against `ims`, one per descriptor that
/// matches some image, in descriptor order.
pub open spec fn matches_of(
    ds: Seq<DescriptorResourceView>,
    ims: Seq<ImageResourceView>,
) -> Seq<MatchedTripleView>
    decreases ds.len(),
{
    if ds.len() == 0 {
        Seq::empty()
    } else {
        let rest = matches_of(ds.drop_last(), ims);
        match first_image_match(ds.last(), ims) {
            Some(j) => rest.push(triple_of(ds.last(), ims[j])),
            None => rest,
        }
    }
}

/// Every matched triple comes from a descriptor and an image that match:
/// its path is the shared normalized path, its rectangles the descriptor's,
/// its image the matched image's.
pub proof fn lemma_matches_of_triples(ds: Seq<DescriptorResourceView>, ims: Seq<ImageResourceView>)
    ensures
        forall|k: int|
            0 <= k < matches_of(ds, ims).len() ==> exists|i: int, j: int|
                {
                    &&& 0 <= i < ds.len()
                    &&& 0 <= j < ims.len()
                    &&& resource_matches(#[trigger] ds[i], #[trigger] ims[j])
                    &&& #[trigger] matches_of(ds, ims)[k] == triple_of(ds[i], ims[j])
                },
    decreases ds.len(),
{
    if ds.len() == 0 {
    } else {
        let rest = matches_of(ds.drop_last(), ims);
        lemma_matches_of_triples(ds.drop_last(), ims);
        lemma_first_image_match(ds.last(), ims);
        assert forall|k: int| 0 <= k < matches_of(ds, ims).len() implies exists|i: int, j: int|
            {
                &&& 0 <= i < ds.len()
                &&& 0 <= j < ims.len()
                &&& resource_matches(#[trigger] ds[i], #[trigger] ims[j])
                &&& #[trigger] matches_of(ds, ims)[k] == triple_of(ds[i], ims[j])
            } by {
            if k < rest.len() {
                let (i, j) = choose|i: int, j: int|
                    {
                        &&& 0 <= i < ds.drop_last().len()
                        &&& 0 <= j < ims.len()
                        &&& resource_matches(#[trigger] ds.drop_last()[i], #[trigger] ims[j])
                        &&& rest[k] == triple_of(ds.drop_last()[i], ims[j])
                    };
                assert(ds.drop_last()[i] == ds[i]);
                assert(resource_matches(ds[i], ims[j]) && matches_of(ds, ims)[k] == triple_of(
                    ds[i],
                    ims[j],
                ));
            } else {
                let j = first_image_match(ds.last(), ims)->0;
                assert(ds[ds.len() - 1] == ds.last());
                assert(resource_matches(ds[ds.len() - 1], ims[j]) && matches_of(ds, ims)[k]
                    == triple_of(ds[ds.len() - 1], ims[j]));
            }
        }
    }
}

/// An independent copy of a rectangle list.
fn copy_rects(v: &Vec<Rect>) -> (r: Vec<Rect>)
    ensures
        r@ == v@,
{
    let mut r: Vec<Rect> = Vec::new();
    let mut i: usize = 0;
    while i < v.len()
        invariant
            i <= v@.len(),
            r@ == v@.take(i as int),
        decreases v@.len() - i,
    {
        r.push(v[i]);
        proof {
            assert(r@ =~= v@.take(i + 1));
        }
        i = i + 1;
    }
    proof {
        assert(v@.take(v@.len() as int) =~= v@);
    }
    r
}

/// Find the first image in `images` that `descriptor` matches.
fn find_matching_image(descriptor: &DescriptorResource, images: &Vec<ImageResource>) -> (found:
    Option<usize>)
    requires
        descriptor@.path is Some,
    ensures
        match found {
            Some(ii) => ii < images@.len() && first_image_match(
                descriptor@,
                image_views(images@),
            ) == Some(ii as int),
            None => first_image_match(descriptor@, image_views(images@)) is None,
        },
{
    let ghost ims = image_views(images@);
    let dpath = match &descriptor.path {
        Some(p) => p,
        None => {
            proof {
                assert(false);
            }
            return None;
        },
    };
    let dnorm = normalize_path(dpath.as_str());
    let mut ii: usize = 0;
    while ii < images.len()
        invariant
            ii <= images@.len(),
            ims == image_views(images@),
            descriptor@.path is Some,
            dnorm@ == normalized_path(descriptor@.path->0),
            forall|k: int| 0 <= k < ii ==> !resource_matches(descriptor@, #[trigger] ims[k]),
        decreases images@.len() - ii,
    {
        let im = &images[ii];
        proof {
            assert(ims[ii as int] == im@);
        }
        match &im.path {
            Some(ipath) => {
                let inorm = normalize_path(ipath.as_str());
                if dnorm == inorm {
                    proof {
                        lemma_first_image_match_at(descriptor@, ims, ii as int);
                    }
                    return Some(ii);
                }
            },
            None => {},
        }
        ii = ii + 1;
    }
    proof {
        lemma_first_image_match_at(descriptor@, ims, images@.len() as int);
    }
    None
}

/// Pair each descriptor with the first image whose normalized path equals
/// its own, producing one triple per matched descriptor, in descriptor
/// order. Pathless resources and resources with no counterpart are silently
/// left out.
pub fn match_pairs(descriptors: &Vec<DescriptorResource>, images: &Vec<ImageResource>) -> (triples:
    Vec<MatchedTriple>)
    ensures
        triple_views(triples@) == matches_of(descriptor_views(descriptors@), image_views(images@)),
{
    let ghost dvs = descriptor_views(descriptors@);
    let ghost ims = image_views(images@);
    let mut triples: Vec<MatchedTriple> = Vec::new();
    let mut di: usize = 0;
    while di < descriptors.len()
        invariant
            di <= descriptors@.len(),
            dvs == descriptor_views(descriptors@),
            ims == image_views(images@),
            triple_views(triples@) == matches_of(dvs.take(di as int), ims),
        decreases descriptors@.len() - di,
    {
        let descriptor = &descriptors[di];
        proof {
            assert(dvs[di as int] == descriptor@);
            assert(dvs.take(di + 1).drop_last() =~= dvs.take(di as int));
            assert(dvs.take(di + 1).last() == dvs[di as int]);
        }
        match &descriptor.path {
            Some(dpath) => {
                let found = find_matching_image(descriptor, images);
                match found {
                    Some(ii) => {
                        let dnorm = normalize_path(dpath.as_str());
                        let image = images[ii].image.clone();
                        let rects = copy_rects(&descriptor.rects);
                        let triple = MatchedTriple { path: dnorm, rects, image };
                        proof {
                            assert(ims[ii as int] == images@[ii as int]@);
                            assert(triple@ == triple_of(dvs[di as int], ims[ii as int]));
                            assert(triple_views(triples@.push(triple)) =~= triple_views(
                                triples@,
                            ).push(triple@));
                        }
                        triples.push(triple);
                    },
                    None => {},
                }
            },
            None => {
                proof {
                    assert(forall|k: int|
                        0 <= k < ims.len() ==> !resource_matches(
                            descriptor@,
                            #[trigger] ims[k],
                        ));
                    lemma_first_image_match_at(descriptor@, ims, ims.len() as int);
                }
            },
        }
        di = di + 1;
    }
    proof {
        assert(dvs.take(descriptors@.len() as int) =~= dvs);
    }
    triples
}

} // verus!
