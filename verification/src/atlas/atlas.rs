//! Making an atlas: the sprites are decoded, sorted by name, packed into a
//! square and painted onto one image.

use super::indent::Indent;
use super::pack::{
    gaps_of, lemma_packed_within, pack, packed, packing, pure_root, Gaps, Pack, Rect, Root,
};
use super::sprites::{
    insert_sorted, lemma_sprites_fail, rename, sprite_models, sprites_of, ImageData, Sprite,
    SpriteModel,
};
use crate::convert::strings::same;
use crate::im::codec::{decode_png, encode_png, png_encoded};
use crate::im::image::{converted, copied, lemma_converted_same, Format, Image, ImageModel};
use vstd::prelude::*;

verus! {

/// How to make an atlas.
pub struct Parameters {
    /// New names for sprites: pairs of an old and a new name.
    pub names: Vec<(String, String)>,
    /// The space between a sprite and what is painted around it.
    pub padding: Indent,
    /// The space between two sprites.
    pub margin: Indent,
}

/// Where each sprite lies: pairs of a name and a rectangle, in the order of
/// the names, each name once.
#[derive(Debug)]
pub struct SpriteMap(pub Vec<(String, Rect)>);

/// An atlas: the image as a PNG file, and where each sprite lies in it.
#[derive(Debug)]
pub struct Atlas {
    pub png: Vec<u8>,
    pub map: SpriteMap,
}

/// Why no atlas could be made.
#[derive(Debug)]
pub enum Error {
    /// An image could not be read or written; `name` is that of the sprite,
    /// or empty where the atlas itself could not be written.
    Image { err: crate::im::Error, name: String },
    /// The sprites need a larger atlas than can be made.
    TooLarge,
}

/// The place of a format among the formats: grey, then RGB, then RGBA.
pub open spec fn rank(format: Format) -> int {
    match format {
        Format::Gray => 0,
        Format::Rgb => 1,
        Format::Rgba => 2,
    }
}

/// The richest format among the first `count` sprites; grey where there is
/// no sprite.
pub open spec fn richest(sprites: Seq<SpriteModel>, count: nat) -> Format
    decreases count,
{
    if count == 0 {
        Format::Gray
    } else {
        let rest = richest(sprites, (count - 1) as nat);
        if rank(sprites[count - 1].image.format) > rank(rest) {
            sprites[count - 1].image.format
        } else {
            rest
        }
    }
}

/// The sizes of the sprites.
pub open spec fn sizes(sprites: Seq<SpriteModel>) -> Seq<(u32, u32)> {
    Seq::new(sprites.len(), |i: int| (sprites[i].image.width, sprites[i].image.height))
}

/// Whether one of the first `count` sprites has more samples in the format
/// `format` than can be held.
pub open spec fn oversized(sprites: Seq<SpriteModel>, format: Format, count: nat) -> bool
    decreases count,
{
    if count == 0 {
        false
    } else {
        oversized(sprites, format, (count - 1) as nat) || sprites[count - 1].image.width
            * sprites[count - 1].image.height * format.samples() > usize::MAX
    }
}

/// The square image of the given side in which every sample is zero.
pub open spec fn blank(side: u32, format: Format) -> ImageModel {
    ImageModel {
        format,
        width: side,
        height: side,
        samples: Seq::new((side * side * format.samples()) as nat, |i: int| 0u8),
    }
}

/// `canvas` after the first `count` sprites have been painted onto it, each
/// in the format of the canvas and at the corner of its rectangle.
pub open spec fn pasted(
    canvas: ImageModel,
    sprites: Seq<SpriteModel>,
    rects: Seq<Rect>,
    count: nat,
) -> ImageModel
    decreases count,
{
    if count == 0 {
        canvas
    } else {
        copied(
            pasted(canvas, sprites, rects, (count - 1) as nat),
            converted(sprites[count - 1].image, canvas.format),
            rects[count - 1].point.0 as int,
            rects[count - 1].point.1 as int,
        )
    }
}

/// The names of the first `count` sprites with their rectangles. Of sprites
/// of one name, which stand side by side, the last one counts.
pub open spec fn regions(sprites: Seq<SpriteModel>, rects: Seq<Rect>, count: nat) -> Seq<
    (Seq<char>, Rect),
>
    decreases count,
{
    if count == 0 {
        Seq::empty()
    } else {
        let rest = regions(sprites, rects, (count - 1) as nat);
        if count < sprites.len() && sprites[count - 1].name == sprites[count as int].name {
            rest
        } else {
            rest.push((sprites[count - 1].name, rects[count - 1]))
        }
    }
}

/// What an atlas holds.
pub struct AtlasModel {
    pub png: Seq<u8>,
    pub map: Seq<(Seq<char>, Rect)>,
}

/// What making an atlas can fail with.
pub enum Failure {
    /// The file at this index holds no image.
    Sprite(int),
    /// The atlas could not be written.
    Encoding,
    /// The atlas would be too large.
    TooLarge,
}

impl View for Atlas {
    type V = AtlasModel;

    open spec fn view(&self) -> AtlasModel {
        AtlasModel {
            png: self.png@,
            map: self.map.0@.map_values(|e: (String, Rect)| (e.0@, e.1)),
        }
    }
}

/// The atlas of sorted sprites.
pub open spec fn atlas_of<R: Root>(root: &R, gaps: Gaps, sprites: Seq<SpriteModel>) -> Result<
    AtlasModel,
    Failure,
> {
    let format = richest(sprites, sprites.len());
    if oversized(sprites, format, sprites.len()) {
        Err(Failure::TooLarge)
    } else {
        match packing(root, gaps, sizes(sprites)) {
            None => Err(Failure::TooLarge),
            Some((side, rects)) => if side * side * format.samples() > usize::MAX {
                Err(Failure::TooLarge)
            } else {
                let canvas = pasted(blank(side as u32, format), sprites, rects, sprites.len());
                match png_encoded(canvas.samples, side as u32, side as u32, format.samples()) {
                    None => Err(Failure::Encoding),
                    Some(png) => Ok(
                        AtlasModel { png, map: regions(sprites, rects, sprites.len()) },
                    ),
                }
            },
        }
    }
}

/// `r` is the outcome `want` of making an atlas from the files `data`.
pub open spec fn is_outcome(
    data: Seq<ImageData>,
    want: Result<AtlasModel, Failure>,
    r: Result<Atlas, Error>,
) -> bool {
    match want {
        Ok(atlas) => r is Ok && r->Ok_0@ == atlas,
        Err(Failure::Sprite(i)) => r is Err && r->Err_0 is Image && r->Err_0->name@
            == data[i].name@,
        Err(Failure::Encoding) => r is Err && r->Err_0 is Image && r->Err_0->name@
            == Seq::<char>::empty(),
        Err(Failure::TooLarge) => r is Err && r->Err_0 is TooLarge,
    }
}

/// Tells which of two formats is the richer one.
fn richer(a: Format, b: Format) -> (r: bool)
    ensures
        r == (rank(a) > rank(b)),
{
    match (a, b) {
        (Format::Rgb, Format::Gray) => true,
        (Format::Rgba, Format::Gray) => true,
        (Format::Rgba, Format::Rgb) => true,
        _ => false,
    }
}

/// Decodes the sprites, gives them their new names and sorts them by name.
pub fn decode_sprites(data: &Vec<ImageData>, names: &Vec<(String, String)>) -> (r: Result<
    Vec<Sprite>,
    Error,
>)
    ensures
        match sprites_of(data@, names@, data@.len()) {
            Ok(sprites) => r is Ok && sprite_models(r->Ok_0@) == sprites,
            Err(i) => 0 <= i < data@.len() && is_outcome(data@, Err(Failure::Sprite(i)), Err(r->Err_0))
                && r is Err,
        },
{
    let mut sprites: Vec<Sprite> = Vec::new();
    let mut i: usize = 0;
    proof {
        assert(sprite_models(sprites@) =~= Seq::empty());
    }
    while i < data.len()
        invariant
            0 <= i <= data@.len(),
            sprites_of(data@, names@, i as nat) == Ok::<Seq<SpriteModel>, int>(
                sprite_models(sprites@),
            ),
        decreases data@.len() - i,
    {
        let image = match decode_png(data[i].data.as_slice()) {
            Ok(image) => image,
            Err(err) => {
                proof {
                    assert(sprites_of(data@, names@, (i + 1) as nat) == Err::<
                        Seq<SpriteModel>,
                        int,
                    >(i as int));
                    lemma_sprites_fail(data@, names@, (i + 1) as nat, data@.len());
                }
                return Err(Error::Image { err, name: data[i].name.clone() });
            },
        };
        let name = rename(names, data[i].name.as_str());
        insert_sorted(&mut sprites, Sprite { image, name });
        i = i + 1;
    }
    Ok(sprites)
}

impl Atlas {
    /// Packs sorted sprites into an atlas.
    ///
    /// The atlas has the richest format of its sprites. It is a square whose
    /// side the packing finds; every sprite is painted at the corner of its
    /// rectangle, and what no sprite covers is zero.
    pub fn pack<R: Root>(sprites: &Vec<Sprite>, padding: Indent, margin: Indent, root: &R) -> (r:
        Result<Atlas, Error>)
        requires
            pure_root(root),
        ensures
            match atlas_of(root, gaps_of(padding, margin), sprite_models(sprites@)) {
                Ok(atlas) => r is Ok && r->Ok_0@ == atlas,
                Err(Failure::Encoding) => r is Err && r->Err_0 is Image && r->Err_0->name@
                    == Seq::<char>::empty(),
                Err(_) => r is Err && r->Err_0 is TooLarge,
            },
    {
        let ghost gaps = gaps_of(padding, margin);
        let ghost models = sprite_models(sprites@);
        let mut format = Format::Gray;
        let mut entries: Vec<(u32, u32)> = Vec::new();
        let mut i: usize = 0;
        while i < sprites.len()
            invariant
                0 <= i <= sprites@.len(),
                models == sprite_models(sprites@),
                format == richest(models, i as nat),
                entries@ == sizes(models).take(i as int),
            decreases sprites@.len() - i,
        {
            let image = &sprites[i].image;
            if richer(image.format(), format) {
                format = image.format();
            }
            entries.push(image.dimensions());
            proof {
                assert(entries@ =~= sizes(models).take(i + 1));
            }
            i = i + 1;
        }
        proof {
            assert(sizes(models).take(i as int) =~= sizes(models));
        }
        let mut k: usize = 0;
        while k < sprites.len()
            invariant
                0 <= k <= sprites@.len(),
                models == sprite_models(sprites@),
                format == richest(models, models.len()),
                entries@ == sizes(models),
                !oversized(models, format, k as nat),
            decreases sprites@.len() - k,
        {
            let (width, height) = sprites[k].image.dimensions();
            if Image::size_of(width, height, format).is_none() {
                proof {
                    assert(oversized(models, format, (k + 1) as nat));
                    lemma_oversized_stays(models, format, (k + 1) as nat, models.len());
                }
                return Err(Error::TooLarge);
            }
            k = k + 1;
        }
        let Pack { rects, side } = match pack(entries.as_slice(), padding, margin, root) {
            Some(found) => found,
            None => {
                return Err(Error::TooLarge);
            },
        };
        if Image::size_of(side, side, format).is_none() {
            return Err(Error::TooLarge);
        }
        proof {
            lemma_first_fit_packs(gaps, sizes(models), packing(root, gaps, sizes(models))->Some_0.0);
            lemma_packed_within(gaps, side as int, sizes(models), models.len());
        }
        let mut canvas = Image::empty((side, side), format);
        proof {
            assert(canvas@.samples =~= blank(side, format).samples);
        }
        let mut map: Vec<(String, Rect)> = Vec::new();
        let mut j: usize = 0;
        proof {
            assert(map@.map_values(|e: (String, Rect)| (e.0@, e.1)) =~= regions(models, rects@, 0));
        }
        while j < sprites.len()
            invariant
                0 <= j <= sprites@.len(),
                models == sprite_models(sprites@),
                gaps == gaps_of(padding, margin),
                format == richest(models, models.len()),
                packing(root, gaps, sizes(models)) == Some((side as int, rects@)),
                side * side * format.samples() <= usize::MAX,
                rects@.len() == models.len(),
                !oversized(models, format, models.len()),
                packed(gaps, side as int, sizes(models), models.len()) is Some,
                packed(gaps, side as int, sizes(models), models.len())->Some_0.0 == rects@,
                forall|i: int|
                    0 <= i < models.len() ==> {
                        let r = #[trigger] rects@[i];
                        &&& r.size == sizes(models)[i]
                        &&& r.point.0 + r.size.0 + gaps.xoffset <= side
                        &&& r.point.1 + r.size.1 + gaps.yoffset <= side
                    },
                canvas@ == pasted(blank(side, format), models, rects@, j as nat),
                map@.map_values(|e: (String, Rect)| (e.0@, e.1)) == regions(
                    models,
                    rects@,
                    j as nat,
                ),
            decreases sprites@.len() - j,
        {
            let sprite = &sprites[j];
            let rect = rects[j];
            proof {
                assert(models[j as int] == sprite@);
                assert(rects@[j as int].size == sizes(models)[j as int]);
                lemma_not_oversized(models, format, models.len(), j as int);
                lemma_pasted_shape(blank(side, format), models, rects@, j as nat);
            }
            if sprite.image.format().same(format) {
                // the samples are asked for to learn that the image is well formed
                let _samples = sprite.image.as_bytes();
                proof {
                    lemma_converted_same(sprite.image@);
                }
                canvas.copy_from(&sprite.image, rect.point());
            } else {
                let image = sprite.image.to_format(format);
                canvas.copy_from(&image, rect.point());
            }
            let ghost before = map@.map_values(|e: (String, Rect)| (e.0@, e.1));
            let repeated = j + 1 < sprites.len() && same(
                sprite.name.as_str(),
                sprites[j + 1].name.as_str(),
            );
            if !repeated {
                map.push((sprite.name.clone(), rect));
                proof {
                    assert(map@.map_values(|e: (String, Rect)| (e.0@, e.1)) =~= before.push(
                        (sprite@.name, rect),
                    ));
                }
            }
            proof {
                if j + 1 < models.len() {
                    assert(models[j + 1] == sprites@[j + 1]@);
                }
            }
            j = j + 1;
        }
        proof {
            lemma_pasted_shape(blank(side, format), models, rects@, models.len());
        }
        match encode_png(&canvas) {
            Ok(png) => Ok(Atlas { png, map: SpriteMap(map) }),
            Err(err) => Err(Error::Image { err, name: String::new() }),
        }
    }
}

/// Once a sprite is too large, the sprites are.
proof fn lemma_oversized_stays(sprites: Seq<SpriteModel>, format: Format, count: nat, all: nat)
    requires
        count <= all,
        oversized(sprites, format, count),
    ensures
        oversized(sprites, format, all),
    decreases all - count,
{
    if count < all {
        lemma_oversized_stays(sprites, format, count + 1, all);
    }
}

/// Where no sprite is too large, each of them can be held.
proof fn lemma_not_oversized(sprites: Seq<SpriteModel>, format: Format, count: nat, i: int)
    requires
        0 <= i < count,
        !oversized(sprites, format, count),
    ensures
        sprites[i].image.width * sprites[i].image.height * format.samples() <= usize::MAX,
    decreases count,
{
    if i < count - 1 {
        lemma_not_oversized(sprites, format, (count - 1) as nat, i);
    }
}

/// The side that the packing finds is one at which the sprites fit.
proof fn lemma_first_fit_packs(gaps: Gaps, entries: Seq<(u32, u32)>, side: int)
    ensures
        forall|from: int| #[trigger]
            super::pack::first_fit(gaps, entries, from) == Some(side) ==> packed(
                gaps,
                side,
                entries,
                entries.len(),
            ) is Some,
{
    assert forall|from: int| #[trigger]
        super::pack::first_fit(gaps, entries, from) == Some(side) implies packed(
        gaps,
        side,
        entries,
        entries.len(),
    ) is Some by {
        lemma_first_fit_from(gaps, entries, from, side);
    }
}

/// As `lemma_first_fit_packs`, for one start.
proof fn lemma_first_fit_from(gaps: Gaps, entries: Seq<(u32, u32)>, from: int, side: int)
    requires
        super::pack::first_fit(gaps, entries, from) == Some(side),
    ensures
        packed(gaps, side, entries, entries.len()) is Some,
    decreases super::pack::MAX_SIDE - from,
{
    if packed(gaps, from, entries, entries.len()) is Some {
    } else {
        lemma_first_fit_from(gaps, entries, 2 * from, side);
    }
}

/// Painting sprites onto a canvas keeps its format and its size.
proof fn lemma_pasted_shape(
    canvas: ImageModel,
    sprites: Seq<SpriteModel>,
    rects: Seq<Rect>,
    count: nat,
)
    ensures
        pasted(canvas, sprites, rects, count).format == canvas.format,
        pasted(canvas, sprites, rects, count).width == canvas.width,
        pasted(canvas, sprites, rects, count).height == canvas.height,
    decreases count,
{
    if count > 0 {
        lemma_pasted_shape(canvas, sprites, rects, (count - 1) as nat);
    }
}

/// Make an atlas from images.
///
/// Every file is decoded and its sprite renamed; a file that holds no image
/// fails with the name that it was given under. The sprites are sorted by
/// name and packed as `Atlas::pack` says.
pub fn make<R: Root>(data: Vec<ImageData>, params: &Parameters, root: &R) -> (r: Result<
    Atlas,
    Error,
>)
    requires
        pure_root(root),
    ensures
        match sprites_of(data@, params.names@, data@.len()) {
            Err(i) => is_outcome(data@, Err(Failure::Sprite(i)), r),
            Ok(sprites) => is_outcome(
                data@,
                atlas_of(root, gaps_of(params.padding, params.margin), sprites),
                r,
            ),
        },
{
    let sprites = match decode_sprites(&data, &params.names) {
        Ok(sprites) => sprites,
        Err(e) => {
            return Err(e);
        },
    };
    Atlas::pack(&sprites, params.padding, params.margin, root)
}

} // verus!
