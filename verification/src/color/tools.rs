//! Collecting the colours of an image and repainting an image with the
//! colours of a palette.

use super::color::{lemma_packed_injective, Color};
use super::palette::{nearest_of, pairs, pure_metric, shorter, Closest, Exact, Metric};
use crate::distinct::{lemma_take_push, lemma_unique_no_duplicates, push_unique, unique};
use crate::im::codec::{decode_png, decoded, encode_png, png_decoded, png_encoded};
use crate::im::image::{rgb_of, Format, Image, ImageModel};
use std::collections::HashSet;
use vstd::prelude::*;

verus! {

/// Why an image could not be worked on.
#[derive(Debug)]
pub enum Error {
    /// The image could not be read or written.
    Image(crate::im::Error),
    /// The palette has no colour.
    EmptyPalette,
    /// The palette has no colour for this one.
    TranferFailed(Color),
    /// The image has more pixels than can be held in RGB.
    TooLarge,
}

/// How to repaint an image.
#[derive(Clone, Copy, Debug)]
pub enum RepaintMode<'palette> {
    /// Every colour gives way to the nearest colour of the palette.
    Closest { colors: &'palette [Color] },
    /// The colour `from[i]` gives way to `to[i]`; no other colour may occur.
    Exact { from: &'palette [Color], to: &'palette [Color] },
}

/// The colours of the pixels of an image, row after row, as packed numbers.
pub open spec fn pixel_keys(im: ImageModel) -> Seq<u32> {
    Seq::new((im.width * im.height) as nat, |p: int| Color(rgb_of(im, p)).packed())
}

/// The packed numbers of a run of colours.
pub open spec fn packs(colors: Seq<Color>) -> Seq<u32> {
    colors.map_values(|c: Color| c.packed())
}

/// The numbers do not fall.
pub open spec fn ascending(keys: Seq<u32>) -> bool {
    forall|i: int, j: int| 0 <= i <= j < keys.len() ==> keys[i] <= keys[j]
}

/// `colors` is the palette of an image: each of its colours once, in the
/// order in which they first occur or, if `sort` is set, in the order of
/// their red, then green, then blue.
pub open spec fn is_palette_of(im: ImageModel, sort: bool, colors: Seq<Color>) -> bool {
    if sort {
        ascending(packs(colors)) && packs(colors).to_multiset() == unique(
            pixel_keys(im),
        ).to_multiset()
    } else {
        packs(colors) == unique(pixel_keys(im))
    }
}

/// `[T]::sort_unstable` for numbers: the same numbers in ascending order.
#[verifier::external_body]
fn sort_keys(keys: &mut Vec<u32>)
    ensures
        ascending(final(keys)@),
        final(keys)@.to_multiset() == old(keys)@.to_multiset(),
{
    keys.sort_unstable()
}

/// Collects the palette of an image.
pub fn collect_from(im: &Image, sort: bool) -> (r: Vec<Color>)
    ensures
        is_palette_of(im@, sort, r@),
{
    broadcast use vstd::std_specs::hash::group_hash_axioms;

    let count = im.pixels();
    let ghost all = pixel_keys(im@);
    let mut seen: HashSet<u32> = HashSet::new();
    let mut keys: Vec<u32> = Vec::new();
    let mut p: usize = 0;
    proof {
        assert(all.take(0) =~= Seq::empty());
    }
    while p < count
        invariant
            0 <= p <= count,
            count == im@.width * im@.height,
            all == pixel_keys(im@),
            all.len() == count,
            keys@ == unique(all.take(p as int)),
            forall|k: u32| seen@.contains(k) <==> keys@.contains(k),
            forall|i: int| 0 <= i < keys@.len() ==> keys@[i] < 0x100_0000,
        decreases count - p,
    {
        let key = Color(im.rgb_at(p)).pack();
        proof {
            lemma_take_push(all, p as int);
        }
        let ghost before = keys@;
        if seen.insert(key) {
            keys.push(key);
            proof {
                assert forall|k: u32| seen@.contains(k) <==> keys@.contains(k) by {
                    if before.contains(k) {
                        let i = choose|i: int| 0 <= i < before.len() && before[i] == k;
                        assert(keys@[i] == k);
                    }
                    if k == key {
                        assert(keys@[before.len() as int] == k);
                    }
                }
            }
        }
        p = p + 1;
    }
    proof {
        assert(all.take(p as int) =~= all);
    }
    let ghost found = keys@;
    if sort {
        sort_keys(&mut keys);
        proof {
            assert forall|i: int| 0 <= i < keys@.len() implies keys@[i] < 0x100_0000 by {
                assert(keys@.to_multiset().count(keys@[i]) > 0) by {
                    keys@.to_multiset_ensures();
                    assert(keys@.contains(keys@[i]));
                }
                found.to_multiset_ensures();
                assert(found.contains(keys@[i]));
            }
        }
    }
    let mut out: Vec<Color> = Vec::new();
    let mut i: usize = 0;
    while i < keys.len()
        invariant
            0 <= i <= keys@.len(),
            forall|j: int| 0 <= j < keys@.len() ==> keys@[j] < 0x100_0000,
            out@.len() == i,
            forall|j: int| 0 <= j < i ==> (#[trigger] out@[j]).packed() == keys@[j],
        decreases keys@.len() - i,
    {
        out.push(Color::unpack(keys[i]));
        i = i + 1;
    }
    proof {
        assert(packs(out@) =~= keys@);
    }
    out
}

/// Collects color palette from the png image.
///
/// The palette is that of the image that the file holds; a file that cannot
/// be decoded, or holds an image in another format than 8-bit grey, RGB or
/// RGBA, is refused.
pub fn collect(data: &[u8], sort: bool) -> (r: Result<Vec<Color>, Error>)
    ensures
        match decoded(data@) {
            Some(im) => r is Ok && is_palette_of(im, sort, r->Ok_0@),
            None => r is Err && r->Err_0 is Image,
        },
{
    let im = match decode_png(data) {
        Ok(im) => im,
        Err(e) => {
            return Err(Error::Image(e));
        },
    };
    Ok(collect_from(&im, sort))
}

impl<'palette> RepaintMode<'palette> {
    /// Whether the palette lacks what the mode needs: the colours for the
    /// closest match, a source or a destination for the exact one.
    pub open spec fn lacks_colors(self) -> bool {
        match self {
            RepaintMode::Closest { colors } => colors@.len() == 0,
            RepaintMode::Exact { from, to } => from@.len() == 0 || to@.len() == 0,
        }
    }

    /// The colour that takes the place of `color`; none where the exact
    /// palette does not know `color`.
    pub open spec fn replaced<M: Metric>(self, m: &M, color: Color) -> Option<Color> {
        match self {
            RepaintMode::Closest { colors } => Some(nearest_of(m, colors@, color)),
            RepaintMode::Exact { from, to } => {
                let known = pairs(from@, to@, shorter(from@.len(), to@.len()));
                if known.dom().contains(color.packed()) {
                    Some(known[color.packed()])
                } else {
                    None
                }
            },
        }
    }

    /// The RGB samples of the first `count` pixels of `im` after repainting,
    /// or the colour of the first pixel that cannot be replaced.
    pub open spec fn repainted<M: Metric>(self, m: &M, im: ImageModel, count: nat) -> Result<
        Seq<u8>,
        Color,
    >
        decreases count,
    {
        if count == 0 {
            Ok(Seq::empty())
        } else {
            match self.repainted(m, im, (count - 1) as nat) {
                Err(color) => Err(color),
                Ok(head) => {
                    let color = Color(rgb_of(im, count - 1));
                    match self.replaced(m, color) {
                        Some(new) => Ok(head.push(new.0[0]).push(new.0[1]).push(new.0[2])),
                        None => Err(color),
                    }
                },
            }
        }
    }
}

/// The samples after repainting have three for each pixel.
proof fn lemma_repainted_len<M: Metric>(mode: RepaintMode<'_>, m: &M, im: ImageModel, count: nat)
    ensures
        mode.repainted(m, im, count) is Ok ==> mode.repainted(m, im, count)->Ok_0.len() == 3
            * count,
    decreases count,
{
    if count > 0 {
        lemma_repainted_len(mode, m, im, (count - 1) as nat);
    }
}

/// A failure among the first pixels is the failure of the whole.
proof fn lemma_repainted_fails<M: Metric>(
    mode: RepaintMode<'_>,
    m: &M,
    im: ImageModel,
    count: nat,
    all: nat,
)
    requires
        count <= all,
        mode.repainted(m, im, count) is Err,
    ensures
        mode.repainted(m, im, all) == mode.repainted(m, im, count),
    decreases all - count,
{
    if count < all {
        lemma_repainted_fails(mode, m, im, count + 1, all);
    }
}

/// What `repaint_image` gives for an image.
pub open spec fn repaint_outcome<M: Metric>(
    mode: RepaintMode<'_>,
    m: &M,
    im: ImageModel,
    r: Result<Image, Error>,
) -> bool {
    let count = (im.width * im.height) as nat;
    if mode.lacks_colors() {
        r is Err && r->Err_0 is EmptyPalette
    } else if 3 * count > usize::MAX {
        r is Err && r->Err_0 is TooLarge
    } else {
        match mode.repainted(m, im, count) {
            Err(color) => r is Err && r->Err_0 is TranferFailed && r->Err_0->TranferFailed_0
                == color,
            Ok(samples) => r is Ok && r->Ok_0@ == (ImageModel {
                format: Format::Rgb,
                width: im.width,
                height: im.height,
                samples,
            }),
        }
    }
}

/// Repaints an image with the colours of a palette. The result is in RGB.
pub fn repaint_image<M: Metric>(im: &Image, mode: RepaintMode<'_>, metric: &M) -> (r: Result<
    Image,
    Error,
>)
    requires
        pure_metric(metric),
    ensures
        repaint_outcome(mode, metric, im@, r),
{
    let count = im.pixels();
    let (width, height) = im.dimensions();
    let mut exact: Option<Exact> = None;
    let mut closest: Option<Closest<'_, M>> = None;
    match mode {
        RepaintMode::Closest { colors } => {
            if colors.len() == 0 {
                return Err(Error::EmptyPalette);
            }
            closest = Some(Closest::new(colors, metric));
        },
        RepaintMode::Exact { from, to } => {
            if from.len() == 0 || to.len() == 0 {
                return Err(Error::EmptyPalette);
            }
            exact = Some(Exact::new(from, to));
        },
    }
    if count > usize::MAX / 3 {
        return Err(Error::TooLarge);
    }
    let mut samples: Vec<u8> = Vec::new();
    let mut p: usize = 0;
    while p < count
        invariant
            0 <= p <= count,
            3 * count <= usize::MAX,
            count == im@.width * im@.height,
            pure_metric(metric),
            !mode.lacks_colors(),
            match mode {
                RepaintMode::Closest { colors } => closest is Some && exact is None
                    && closest->Some_0.wf() && closest->Some_0.palette() == colors@
                    && closest->Some_0.metric() == metric,
                RepaintMode::Exact { from, to } => exact is Some && closest is None
                    && exact->Some_0@ == pairs(from@, to@, shorter(from@.len(), to@.len())),
            },
            mode.repainted(metric, im@, p as nat) == Ok::<Seq<u8>, Color>(samples@),
        decreases count - p,
    {
        let color = Color(im.rgb_at(p));
        let new = match (&mut closest, &mut exact) {
            (Some(palette), _) => Some(palette.transfer(color)),
            (None, Some(palette)) => palette.transfer(color),
            (None, None) => None,
        };
        match new {
            Some(new) => {
                samples.push(new.0[0]);
                samples.push(new.0[1]);
                samples.push(new.0[2]);
            },
            None => {
                proof {
                    assert(mode.repainted(metric, im@, (p + 1) as nat) is Err);
                    lemma_repainted_fails(mode, metric, im@, (p + 1) as nat, count as nat);
                }
                return Err(Error::TranferFailed(color));
            },
        }
        p = p + 1;
    }
    proof {
        lemma_repainted_len(mode, metric, im@, count as nat);
    }
    match Image::from_raw((width, height), Format::Rgb, samples) {
        Some(out) => Ok(out),
        None => Err(Error::TooLarge),
    }
}

/// Repaints the png image with given palette colors.
///
/// A palette that lacks colours is refused before the image is looked at.
/// Else the image that the file holds is repainted as `repaint_image` says
/// and written as a PNG file again.
pub fn repaint<M: Metric>(data: &[u8], mode: RepaintMode<'_>, metric: &M) -> (r: Result<
    Vec<u8>,
    Error,
>)
    requires
        pure_metric(metric),
    ensures
        mode.lacks_colors() ==> r is Err && r->Err_0 is EmptyPalette,
        !mode.lacks_colors() ==> match decoded(data@) {
            None => r is Err && r->Err_0 is Image,
            Some(im) => {
                let count = (im.width * im.height) as nat;
                if 3 * count > usize::MAX {
                    r is Err && r->Err_0 is TooLarge
                } else {
                    match mode.repainted(metric, im, count) {
                        Err(color) => r is Err && r->Err_0 is TranferFailed
                            && r->Err_0->TranferFailed_0 == color,
                        Ok(samples) => match png_encoded(samples, im.width, im.height, 3) {
                            Some(png) => r is Ok && r->Ok_0@ == png,
                            None => r is Err && r->Err_0 is Image,
                        },
                    }
                }
            },
        },
{
    let lacks = match mode {
        RepaintMode::Closest { colors } => colors.len() == 0,
        RepaintMode::Exact { from, to } => from.len() == 0 || to.len() == 0,
    };
    if lacks {
        return Err(Error::EmptyPalette);
    }
    let im = match decode_png(data) {
        Ok(im) => im,
        Err(e) => {
            return Err(Error::Image(e));
        },
    };
    let out = repaint_image(&im, mode, metric)?;
    match encode_png(&out) {
        Ok(png) => Ok(png),
        Err(e) => Err(Error::Image(e)),
    }
}

} // verus!
