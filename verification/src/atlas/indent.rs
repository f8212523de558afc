//! The space around the sprites of an atlas.

use vstd::prelude::*;

verus! {

/// The largest horizontal indent.
pub const MAX_HORIZONTAL: u32 = 4;

/// The largest vertical indent.
pub const MAX_VERTICAL: u32 = 4;

/// A horizontal and a vertical distance in pixels, neither larger than its
/// maximum.
#[derive(Clone, Copy, Debug)]
pub struct Indent {
    horizontal: u32,
    vertical: u32,
}

/// The indent that was asked for is too large.
#[derive(Clone, Copy, Debug)]
pub enum TooLarge {
    Horizontal(u32),
    Vertical(u32),
}

impl Indent {
    #[verifier::type_invariant]
    spec fn within_limits(self) -> bool {
        self.horizontal <= MAX_HORIZONTAL && self.vertical <= MAX_VERTICAL
    }

    /// The horizontal distance.
    pub closed spec fn across(self) -> u32 {
        self.horizontal
    }

    /// The vertical distance.
    pub closed spec fn down(self) -> u32 {
        self.vertical
    }

    /// Creates a new indent.
    ///
    /// An indent that is too large horizontally is refused with the
    /// horizontal value, else one that is too large vertically with the
    /// vertical value.
    pub fn new(horizontal: u32, vertical: u32) -> (r: Result<Indent, TooLarge>)
        ensures
            match r {
                Ok(indent) => {
                    &&& horizontal <= MAX_HORIZONTAL
                    &&& vertical <= MAX_VERTICAL
                    &&& indent.across() == horizontal
                    &&& indent.down() == vertical
                },
                Err(TooLarge::Horizontal(value)) => horizontal > MAX_HORIZONTAL && value
                    == horizontal,
                Err(TooLarge::Vertical(value)) => horizontal <= MAX_HORIZONTAL && vertical
                    > MAX_VERTICAL && value == vertical,
            },
    {
        if horizontal > MAX_HORIZONTAL {
            return Err(TooLarge::Horizontal(horizontal));
        }
        if vertical > MAX_VERTICAL {
            return Err(TooLarge::Vertical(vertical));
        }
        Ok(Indent { horizontal, vertical })
    }

    /// The horizontal distance.
    pub fn horizontal(&self) -> (r: u32)
        ensures
            r == self.across(),
            r <= MAX_HORIZONTAL,
    {
        proof {
            use_type_invariant(self);
        }
        self.horizontal
    }

    /// The vertical distance.
    pub fn vertical(&self) -> (r: u32)
        ensures
            r == self.down(),
            r <= MAX_VERTICAL,
    {
        proof {
            use_type_invariant(self);
        }
        self.vertical
    }
}

} // verus!
