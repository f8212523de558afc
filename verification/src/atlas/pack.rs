//! Packing rectangles into a square, shelf by shelf.
//!
//! The sprites are laid out from left to right in rows. A sprite that does
//! not fit into what is left of its row starts a new row below. The side of
//! the square starts at a power of two that could hold the sprites by their
//! area, and doubles until all of them fit.

use super::indent::Indent;
use vstd::prelude::*;

verus! {

/// The smallest side that a packing starts with.
pub const MIN_INITIAL_SIDE: u32 = 64;

/// The largest side that a packing is tried with.
pub const MAX_SIDE: u32 = 0x8000_0000;

/// Where a sprite lies in the atlas.
#[derive(Clone, Copy, Debug)]
pub struct Rect {
    pub size: (u32, u32),
    pub point: (u32, u32),
}

impl Rect {
    /// The top left corner.
    pub fn point(self) -> (r: (u32, u32))
        ensures
            r == self.point,
    {
        self.point
    }

    /// The rectangle as `[x, y, width, height]`.
    pub fn to_array(self) -> (r: [u32; 4])
        ensures
            r@ == seq![self.point.0, self.point.1, self.size.0, self.size.1],
    {
        [self.point.0, self.point.1, self.size.0, self.size.1]
    }
}

/// The rectangles of a packing, in the order of the sprites, and the side of
/// the square that holds them.
#[derive(Debug)]
pub struct Pack {
    pub rects: Vec<Rect>,
    pub side: u32,
}

/// The integer square root that the packing starts from. It is computed on
/// real numbers, so the caller supplies it.
pub trait Root {
    /// The square root of `area`, rounded up.
    fn ceil_sqrt(&self, area: u32) -> u32;
}

/// `r` gives one root for one area.
pub open spec fn pure_root<R: Root>(r: &R) -> bool {
    forall|area: u32, a: u32, b: u32|
        #[trigger] call_ensures(R::ceil_sqrt, (r, area), a) && #[trigger] call_ensures(
            R::ceil_sqrt,
            (r, area),
            b,
        ) ==> a == b
}

/// The root that `r` gives for `area`.
pub open spec fn root_of<R: Root>(r: &R, area: u32) -> u32 {
    choose|root: u32| call_ensures(R::ceil_sqrt, (r, area), root)
}

/// The distances that a packing keeps.
pub struct Gaps {
    /// Between the border of the atlas and a sprite, horizontally.
    pub xoffset: int,
    /// Between the border of the atlas and a sprite, vertically.
    pub yoffset: int,
    /// Between two sprites of a row.
    pub across: int,
    /// Between two rows.
    pub down: int,
}

/// The distances that padding and margin ask for.
pub open spec fn gaps_of(padding: Indent, margin: Indent) -> Gaps {
    Gaps {
        xoffset: padding.across() + margin.across(),
        yoffset: padding.down() + margin.down(),
        across: margin.across() as int,
        down: margin.down() as int,
    }
}

/// Where the next sprite would go.
pub struct Cursor {
    pub x: int,
    pub y: int,
    /// The height of the row so far. The sprite that starts a row does not
    /// count for it.
    pub max_height: int,
}

/// The cursor before the first sprite.
pub open spec fn start(gaps: Gaps) -> Cursor {
    Cursor { x: gaps.xoffset, y: gaps.yoffset, max_height: 0 }
}

/// The cursor at which the sprite of the size `size` is placed: where the
/// cursor is, or at the start of a new row if the row has no room for it.
pub open spec fn seat(gaps: Gaps, side: int, at: Cursor, size: (u32, u32)) -> Cursor {
    let height = if at.max_height > size.1 {
        at.max_height
    } else {
        size.1 as int
    };
    if at.x + size.0 + gaps.xoffset > side {
        Cursor { x: gaps.xoffset, y: at.y + height + gaps.down, max_height: 0 }
    } else {
        Cursor { max_height: height, ..at }
    }
}

/// Whether a sprite of the size `size` lies within the square when it is
/// placed at `at`.
pub open spec fn fits(gaps: Gaps, side: int, at: Cursor, size: (u32, u32)) -> bool {
    at.x + size.0 + gaps.xoffset <= side && at.y + size.1 + gaps.yoffset <= side
}

/// The rectangles of the first `count` sprites and the cursor after them;
/// `None` where one of them does not fit into the square.
pub open spec fn packed(gaps: Gaps, side: int, entries: Seq<(u32, u32)>, count: nat) -> Option<
    (Seq<Rect>, Cursor),
>
    decreases count,
{
    if count == 0 {
        Some((Seq::empty(), start(gaps)))
    } else {
        match packed(gaps, side, entries, (count - 1) as nat) {
            None => None,
            Some((rects, at)) => {
                let size = entries[count - 1];
                let here = seat(gaps, side, at, size);
                if fits(gaps, side, here, size) {
                    Some(
                        (
                            rects.push(Rect { size, point: (here.x as u32, here.y as u32) }),
                            Cursor { x: here.x + size.0 + gaps.across, ..here },
                        ),
                    )
                } else {
                    None
                }
            },
        }
    }
}

/// A packing that fails for some sprites fails for all of them.
proof fn lemma_packed_fails(
    gaps: Gaps,
    side: int,
    entries: Seq<(u32, u32)>,
    count: nat,
    all: nat,
)
    requires
        count <= all,
        packed(gaps, side, entries, count) is None,
    ensures
        packed(gaps, side, entries, all) is None,
    decreases all - count,
{
    if count < all {
        lemma_packed_fails(gaps, side, entries, count + 1, all);
    }
}

/// Every rectangle of a packing keeps its sprite's size and lies within
/// the square, the offsets kept free at its right and lower border.
pub proof fn lemma_packed_within(gaps: Gaps, side: int, entries: Seq<(u32, u32)>, count: nat)
    requires
        count <= entries.len(),
        0 <= gaps.xoffset,
        0 <= gaps.yoffset,
        0 <= gaps.across,
        0 <= gaps.down,
        side <= u32::MAX,
        packed(gaps, side, entries, count) is Some,
    ensures
        packed(gaps, side, entries, count)->Some_0.0.len() == count,
        packed(gaps, side, entries, count)->Some_0.1.x >= gaps.xoffset,
        packed(gaps, side, entries, count)->Some_0.1.y >= gaps.yoffset,
        packed(gaps, side, entries, count)->Some_0.1.max_height >= 0,
        forall|i: int|
            0 <= i < count ==> {
                let r = #[trigger] packed(gaps, side, entries, count)->Some_0.0[i];
                &&& r.size == entries[i]
                &&& r.point.0 + r.size.0 + gaps.xoffset <= side
                &&& r.point.1 + r.size.1 + gaps.yoffset <= side
            },
    decreases count,
{
    if count > 0 {
        lemma_packed_within(gaps, side, entries, (count - 1) as nat);
        let before = packed(gaps, side, entries, (count - 1) as nat)->Some_0;
        let after = packed(gaps, side, entries, count)->Some_0;
        assert forall|i: int| 0 <= i < count implies {
            let r = #[trigger] after.0[i];
            &&& r.size == entries[i]
            &&& r.point.0 + r.size.0 + gaps.xoffset <= side
            &&& r.point.1 + r.size.1 + gaps.yoffset <= side
        } by {
            if i < count - 1 {
                assert(after.0[i] == before.0[i]);
            }
        }
    }
}

/// Lays the sprites out in a square of the given side; `None` where they do
/// not fit.
pub fn try_pack(entries: &[(u32, u32)], side: u32, padding: Indent, margin: Indent) -> (r: Option<
    Vec<Rect>,
>)
    ensures
        match packed(gaps_of(padding, margin), side as int, entries@, entries@.len()) {
            Some((rects, _)) => r is Some && r->Some_0@ == rects,
            None => r is None,
        },
{
    let ghost gaps = gaps_of(padding, margin);
    let xoffset: u64 = padding.horizontal() as u64 + margin.horizontal() as u64;
    let yoffset: u64 = padding.vertical() as u64 + margin.vertical() as u64;
    let across: u64 = margin.horizontal() as u64;
    let down: u64 = margin.vertical() as u64;
    let limit: u64 = side as u64;
    let mut x: u64 = xoffset;
    let mut y: u64 = yoffset;
    let mut max_height: u64 = 0;
    let mut rects: Vec<Rect> = Vec::new();
    let mut i: usize = 0;
    while i < entries.len()
        invariant
            0 <= i <= entries@.len(),
            gaps == gaps_of(padding, margin),
            xoffset == gaps.xoffset,
            yoffset == gaps.yoffset,
            across == gaps.across,
            down == gaps.down,
            xoffset <= 8,
            yoffset <= 8,
            limit == side,
            x <= limit + 8,
            y <= limit + 8,
            max_height <= u32::MAX,
            packed(gaps, side as int, entries@, i as nat) == Some(
                (rects@, Cursor { x: x as int, y: y as int, max_height: max_height as int }),
            ),
        decreases entries@.len() - i,
    {
        let (width, height) = entries[i];
        let (width, height) = (width as u64, height as u64);
        if height > max_height {
            max_height = height;
        }
        if x + width + xoffset > limit {
            x = xoffset;
            y = y + max_height + down;
            max_height = 0;
        }
        if x + width + xoffset > limit || y + height + yoffset > limit {
            proof {
                assert(packed(gaps, side as int, entries@, (i + 1) as nat) is None);
                lemma_packed_fails(gaps, side as int, entries@, (i + 1) as nat, entries@.len());
            }
            return None;
        }
        rects.push(Rect { size: entries[i], point: (x as u32, y as u32) });
        x = x + width + across;
        i = i + 1;
    }
    Some(rects)
}

/// The larger side of the largest of the first `count` sprites.
pub open spec fn max_size_of(entries: Seq<(u32, u32)>, count: nat) -> int
    decreases count,
{
    if count == 0 {
        0
    } else {
        let rest = max_size_of(entries, (count - 1) as nat);
        let (width, height) = entries[count - 1];
        let larger = if width > height {
            width
        } else {
            height
        };
        if larger > rest {
            larger as int
        } else {
            rest
        }
    }
}

/// The area of the first `count` sprites together.
pub open spec fn area_of(entries: Seq<(u32, u32)>, count: nat) -> int
    decreases count,
{
    if count == 0 {
        0
    } else {
        area_of(entries, (count - 1) as nat) + entries[count - 1].0 * entries[count - 1].1
    }
}

/// The area that the root is taken of: that of all sprites, or the largest
/// number that 32 bits hold where it is more.
pub open spec fn capped_area(entries: Seq<(u32, u32)>) -> u32 {
    if area_of(entries, entries.len()) > u32::MAX {
        u32::MAX
    } else {
        area_of(entries, entries.len()) as u32
    }
}

/// The side that a square needs at least: the larger side of the largest
/// sprite, or the root of the area where that is more.
pub open spec fn needed_side<R: Root>(root: &R, entries: Seq<(u32, u32)>) -> int {
    let size = max_size_of(entries, entries.len());
    let by_area = root_of(root, capped_area(entries));
    if size > by_area {
        size
    } else {
        by_area as int
    }
}

/// The first side that is at least `need` when `from` is doubled again and
/// again; `None` where that would be more than `MAX_SIDE`.
pub open spec fn doubled_to(need: int, from: int) -> Option<int>
    decreases MAX_SIDE - from,
{
    if from >= need {
        Some(from)
    } else if 2 * from > MAX_SIDE || from <= 0 {
        None
    } else {
        doubled_to(need, 2 * from)
    }
}

/// The first side at which the sprites fit when `from` is doubled again and
/// again; `None` where that would be more than `MAX_SIDE`.
pub open spec fn first_fit(gaps: Gaps, entries: Seq<(u32, u32)>, from: int) -> Option<int>
    decreases MAX_SIDE - from,
{
    if packed(gaps, from, entries, entries.len()) is Some {
        Some(from)
    } else if 2 * from > MAX_SIDE || from <= 0 {
        None
    } else {
        first_fit(gaps, entries, 2 * from)
    }
}

/// The side and the rectangles of the packing of the sprites; `None` where
/// no side up to `MAX_SIDE` holds them.
pub open spec fn packing<R: Root>(root: &R, gaps: Gaps, entries: Seq<(u32, u32)>) -> Option<
    (int, Seq<Rect>),
> {
    match doubled_to(needed_side(root, entries), MIN_INITIAL_SIDE as int) {
        None => None,
        Some(from) => match first_fit(gaps, entries, from) {
            None => None,
            Some(side) => Some((side, packed(gaps, side, entries, entries.len())->Some_0.0)),
        },
    }
}

/// Asks `root` for the root of an area.
fn ceil_sqrt<R: Root>(root: &R, area: u32) -> (r: u32)
    requires
        pure_root(root),
    ensures
        r == root_of(root, area),
{
    root.ceil_sqrt(area)
}

/// Finds the side that the packing starts with.
pub fn initial_side<R: Root>(entries: &[(u32, u32)], root: &R) -> (r: Option<u32>)
    requires
        pure_root(root),
    ensures
        match doubled_to(needed_side(root, entries@), MIN_INITIAL_SIDE as int) {
            Some(side) => r is Some && r->Some_0 == side && MIN_INITIAL_SIDE <= side <= MAX_SIDE,
            None => r is None,
        },
{
    let mut max_size: u32 = 0;
    let mut area: u64 = 0;
    let mut i: usize = 0;
    while i < entries.len()
        invariant
            0 <= i <= entries@.len(),
            max_size == max_size_of(entries@, i as nat),
            0 <= area_of(entries@, i as nat),
            area == (if area_of(entries@, i as nat) > u32::MAX {
                u32::MAX as int
            } else {
                area_of(entries@, i as nat)
            }),
        decreases entries@.len() - i,
    {
        let (width, height) = entries[i];
        let larger = if width > height {
            width
        } else {
            height
        };
        if larger > max_size {
            max_size = larger;
        }
        assert(0 <= width * height <= 0xFFFF_FFFF * 0xFFFF_FFFF) by (nonlinear_arith)
            requires
                0 <= width <= 0xFFFF_FFFF,
                0 <= height <= 0xFFFF_FFFF,
        ;
        let sum = area + (width as u64) * (height as u64);
        area = if sum > u32::MAX as u64 {
            u32::MAX as u64
        } else {
            sum
        };
        i = i + 1;
    }
    let by_area = ceil_sqrt(root, area as u32);
    let need = if max_size > by_area {
        max_size
    } else {
        by_area
    };
    let mut side: u32 = MIN_INITIAL_SIDE;
    while side < need
        invariant
            MIN_INITIAL_SIDE <= side <= MAX_SIDE,
            need == needed_side(root, entries@),
            doubled_to(need as int, MIN_INITIAL_SIDE as int) == doubled_to(need as int, side as int),
        decreases MAX_SIDE - side,
    {
        if side > MAX_SIDE / 2 {
            return None;
        }
        side = side * 2;
    }
    Some(side)
}

/// Packs the sprites of the given sizes into the smallest square whose side
/// is a power of two, at least `MIN_INITIAL_SIDE` and at least what the
/// sprites need by their largest side and by their area.
pub fn pack<R: Root>(entries: &[(u32, u32)], padding: Indent, margin: Indent, root: &R) -> (r:
    Option<Pack>)
    requires
        pure_root(root),
    ensures
        match packing(root, gaps_of(padding, margin), entries@) {
            Some((side, rects)) => r is Some && r->Some_0.side == side && r->Some_0.rects@
                == rects,
            None => r is None,
        },
{
    let ghost gaps = gaps_of(padding, margin);
    let mut side = match initial_side(entries, root) {
        Some(side) => side,
        None => {
            return None;
        },
    };
    let ghost from = side as int;
    loop
        invariant
            MIN_INITIAL_SIDE <= side <= MAX_SIDE,
            gaps == gaps_of(padding, margin),
            doubled_to(needed_side(root, entries@), MIN_INITIAL_SIDE as int) == Some(from),
            first_fit(gaps, entries@, from) == first_fit(gaps, entries@, side as int),
        decreases MAX_SIDE - side,
    {
        match try_pack(entries, side, padding, margin) {
            Some(rects) => {
                return Some(Pack { rects, side });
            },
            None => {
                if side > MAX_SIDE / 2 {
                    return None;
                }
                side = side * 2;
            },
        }
    }
}

} // verus!
