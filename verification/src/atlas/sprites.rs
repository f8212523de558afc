//! The sprites of an atlas: decoded, renamed and kept in the order of their
//! names.

use crate::convert::strings::same;
use crate::im::codec::{decode_png, decoded};
use crate::im::image::{Image, ImageModel};
use vstd::prelude::*;
use vstd::string::StringSliceAdditionalSpecFns;
use vstd::utf8::encode_utf8;

verus! {

/// A PNG file and the name of the sprite that it holds.
#[derive(Debug)]
pub struct ImageData {
    pub name: String,
    pub data: Vec<u8>,
}

/// A sprite: an image under a name.
#[derive(Debug)]
pub struct Sprite {
    pub image: Image,
    pub name: String,
}

pub struct SpriteModel {
    pub image: ImageModel,
    pub name: Seq<char>,
}

impl View for Sprite {
    type V = SpriteModel;

    open spec fn view(&self) -> SpriteModel {
        SpriteModel { image: self.image@, name: self.name@ }
    }
}

/// The views of a run of sprites.
pub open spec fn sprite_models(sprites: Seq<Sprite>) -> Seq<SpriteModel> {
    sprites.map_values(|s: Sprite| s@)
}

/// Whether `a` comes before `b` when the two are compared byte by byte.
pub open spec fn lex_lt(a: Seq<u8>, b: Seq<u8>) -> bool
    decreases a.len(),
{
    if b.len() == 0 {
        false
    } else if a.len() == 0 {
        true
    } else if a[0] != b[0] {
        a[0] < b[0]
    } else {
        lex_lt(a.skip(1), b.skip(1))
    }
}

/// Whether the name `a` comes before the name `b`: names are ordered by the
/// bytes of their UTF-8 encoding.
pub open spec fn name_lt(a: Seq<char>, b: Seq<char>) -> bool {
    lex_lt(encode_utf8(a), encode_utf8(b))
}

/// Tells whether the name `a` comes before the name `b`.
pub fn precedes(a: &str, b: &str) -> (r: bool)
    ensures
        r == name_lt(a@, b@),
{
    let x = a.as_bytes();
    let y = b.as_bytes();
    let mut i: usize = 0;
    proof {
        assert(x@.skip(0) =~= x@);
        assert(y@.skip(0) =~= y@);
    }
    while i < x.len() && i < y.len()
        invariant
            0 <= i <= x@.len(),
            i <= y@.len(),
            x@ == encode_utf8(a@),
            y@ == encode_utf8(b@),
            lex_lt(x@, y@) == lex_lt(x@.skip(i as int), y@.skip(i as int)),
        decreases x@.len() - i,
    {
        proof {
            assert(x@.skip(i as int)[0] == x@[i as int]);
            assert(y@.skip(i as int)[0] == y@[i as int]);
        }
        if x[i] != y[i] {
            return x[i] < y[i];
        }
        proof {
            assert(x@.skip(i as int).skip(1) =~= x@.skip(i + 1));
            assert(y@.skip(i as int).skip(1) =~= y@.skip(i + 1));
        }
        i = i + 1;
    }
    i < y.len()
}

/// The new name of a sprite: that of the last pair whose first member is
/// the old name, or the old name where there is no such pair.
pub open spec fn renamed(names: Seq<(String, String)>, name: Seq<char>) -> Seq<char>
    decreases names.len(),
{
    if names.len() == 0 {
        name
    } else if names.last().0@ == name {
        names.last().1@
    } else {
        renamed(names.drop_last(), name)
    }
}

/// Sorted sprites with one more: it goes before the first sprite whose name
/// comes after its own.
pub open spec fn inserted(sprites: Seq<SpriteModel>, sprite: SpriteModel) -> Seq<SpriteModel>
    decreases sprites.len(),
{
    if sprites.len() > 0 && name_lt(sprite.name, sprites.last().name) {
        inserted(sprites.drop_last(), sprite).push(sprites.last())
    } else {
        sprites.push(sprite)
    }
}

/// The sprites of the first `count` files in the order of their names, or
/// the index of the first file that holds no image.
pub open spec fn sprites_of(
    data: Seq<ImageData>,
    names: Seq<(String, String)>,
    count: nat,
) -> Result<Seq<SpriteModel>, int>
    decreases count,
{
    if count == 0 {
        Ok(Seq::empty())
    } else {
        match sprites_of(data, names, (count - 1) as nat) {
            Err(i) => Err(i),
            Ok(sprites) => match decoded(data[count - 1].data@) {
                None => Err(count - 1),
                Some(image) => Ok(
                    inserted(
                        sprites,
                        SpriteModel { image, name: renamed(names, data[count - 1].name@) },
                    ),
                ),
            },
        }
    }
}

/// A failure among the first files is the failure of all of them.
pub proof fn lemma_sprites_fail(
    data: Seq<ImageData>,
    names: Seq<(String, String)>,
    count: nat,
    all: nat,
)
    requires
        count <= all,
        sprites_of(data, names, count) is Err,
    ensures
        sprites_of(data, names, all) == sprites_of(data, names, count),
    decreases all - count,
{
    if count < all {
        lemma_sprites_fail(data, names, count + 1, all);
    }
}

/// A sprite that goes to the place `at`, after which all names come after
/// its own and before which the next name does not, is inserted there.
proof fn lemma_inserted_at(sprites: Seq<SpriteModel>, sprite: SpriteModel, at: int)
    requires
        0 <= at <= sprites.len(),
        forall|j: int| at <= j < sprites.len() ==> name_lt(sprite.name, #[trigger] sprites[j].name),
        at > 0 ==> !name_lt(sprite.name, sprites[at - 1].name),
    ensures
        inserted(sprites, sprite) == sprites.insert(at, sprite),
    decreases sprites.len(),
{
    if at == sprites.len() {
        assert(sprites.insert(at, sprite) =~= sprites.push(sprite));
    } else {
        lemma_inserted_at(sprites.drop_last(), sprite, at);
        assert(sprites.drop_last().insert(at, sprite).push(sprites.last()) =~= sprites.insert(
            at,
            sprite,
        ));
    }
}

/// Looks up the new name of a sprite.
pub fn rename(names: &Vec<(String, String)>, name: &str) -> (r: String)
    ensures
        r@ == renamed(names@, name@),
{
    let mut i: usize = names.len();
    proof {
        assert(names@.take(i as int) =~= names@);
    }
    while i > 0
        invariant
            0 <= i <= names@.len(),
            renamed(names@, name@) == renamed(names@.take(i as int), name@),
        decreases i,
    {
        proof {
            assert(names@.take(i as int).drop_last() =~= names@.take(i - 1));
        }
        if same(names[i - 1].0.as_str(), name) {
            return names[i - 1].1.clone();
        }
        i = i - 1;
    }
    name.to_owned()
}

/// Puts a sprite among sorted sprites.
pub fn insert_sorted(sprites: &mut Vec<Sprite>, sprite: Sprite)
    ensures
        sprite_models(final(sprites)@) == inserted(sprite_models(old(sprites)@), sprite@),
{
    let ghost before = sprite_models(sprites@);
    let mut at: usize = sprites.len();
    let mut found = false;
    while at > 0 && !found
        invariant
            0 <= at <= sprites@.len(),
            *sprites == *old(sprites),
            before == sprite_models(sprites@),
            forall|j: int| at <= j < before.len() ==> name_lt(sprite@.name, #[trigger] before[j].name),
            found ==> at > 0 && !name_lt(sprite@.name, before[at - 1].name),
        decreases at + if found { 0int } else { 1int },
    {
        if precedes(sprite.name.as_str(), sprites[at - 1].name.as_str()) {
            at = at - 1;
        } else {
            found = true;
        }
    }
    proof {
        lemma_inserted_at(before, sprite@, at as int);
    }
    let ghost model = sprite@;
    sprites.insert(at, sprite);
    proof {
        assert(sprite_models(sprites@) =~= before.insert(at as int, model));
    }
}

} // verus!
