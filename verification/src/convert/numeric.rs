//! The numeric surface of the pipeline.
//!
//! A real number is held as the bit pattern of a 32-bit float. Whatever has to
//! be computed on such numbers is asked of a [`Numerics`] value that the caller
//! supplies. The pipeline expects each operation to be a function of its
//! arguments alone; [`pure_numerics`] says so, and the spec functions below
//! then name the result of each operation.

use vstd::prelude::*;

verus! {

/// Translation and rotation (a quaternion) taken out of a 4x4 transform.
#[derive(Clone, Copy, Debug)]
pub struct Pose {
    pub position: [u32; 3],
    pub rotation: [u32; 4],
}

/// Operations on real numbers that the pipeline invokes but does not define.
pub trait Numerics {
    /// Reads a decimal token; `None` when the token is no number.
    fn parse(&self, token: &str) -> Option<u32>;

    /// Converts an angle in degrees to radians.
    fn radians(&self, degrees: u32) -> u32;

    /// Computes `a - b`.
    fn difference(&self, a: u32, b: u32) -> u32;

    /// Splits a 4x4 transform, given column after column, into translation
    /// and rotation; `None` when its determinant is zero.
    fn decompose(&self, matrix: [u32; 16]) -> Option<Pose>;

    /// Post-processes a position.
    fn position(&self, p: [u32; 3]) -> [u32; 3];

    /// Post-processes a texture coordinate.
    fn texture(&self, uv: [u32; 2]) -> [u32; 2];

    /// Post-processes a rotation quaternion.
    fn rotation(&self, q: [u32; 4]) -> [u32; 4];

    /// Post-processes an animation point `(time, angle)`.
    fn action(&self, point: [u32; 2]) -> [u32; 2];

    /// Post-processes the four tangent offsets of a Bezier key.
    fn bezier(&self, offsets: [u32; 4]) -> [u32; 4];
}

/// `n` may answer `r` for a token that reads `chars`.
pub open spec fn reads<N: Numerics>(n: &N, chars: Seq<char>, r: Option<u32>) -> bool {
    exists|t: &str| t@ == chars && #[trigger] call_ensures(N::parse, (n, t), r)
}

/// Every operation of `n` gives one result per argument.
pub open spec fn pure_numerics<N: Numerics>(n: &N) -> bool {
    &&& forall|s: &str, t: &str, a: Option<u32>, b: Option<u32>|
        s@ == t@ && #[trigger] call_ensures(N::parse, (n, s), a) && #[trigger] call_ensures(
            N::parse,
            (n, t),
            b,
        ) ==> a == b
    &&& forall|degrees: u32, r1: u32, r2: u32|
        #[trigger] call_ensures(N::radians, (n, degrees), r1) && #[trigger] call_ensures(
            N::radians,
            (n, degrees),
            r2,
        ) ==> r1 == r2
    &&& forall|a: u32, b: u32, r1: u32, r2: u32|
        #[trigger] call_ensures(N::difference, (n, a, b), r1) && #[trigger] call_ensures(
            N::difference,
            (n, a, b),
            r2,
        ) ==> r1 == r2
    &&& forall|matrix: [u32; 16], r1: Option<Pose>, r2: Option<Pose>|
        #[trigger] call_ensures(N::decompose, (n, matrix), r1) && #[trigger] call_ensures(
            N::decompose,
            (n, matrix),
            r2,
        ) ==> r1 == r2
    &&& forall|p: [u32; 3], r1: [u32; 3], r2: [u32; 3]|
        #[trigger] call_ensures(N::position, (n, p), r1) && #[trigger] call_ensures(
            N::position,
            (n, p),
            r2,
        ) ==> r1 == r2
    &&& forall|uv: [u32; 2], r1: [u32; 2], r2: [u32; 2]|
        #[trigger] call_ensures(N::texture, (n, uv), r1) && #[trigger] call_ensures(
            N::texture,
            (n, uv),
            r2,
        ) ==> r1 == r2
    &&& forall|q: [u32; 4], r1: [u32; 4], r2: [u32; 4]|
        #[trigger] call_ensures(N::rotation, (n, q), r1) && #[trigger] call_ensures(
            N::rotation,
            (n, q),
            r2,
        ) ==> r1 == r2
    &&& forall|point: [u32; 2], r1: [u32; 2], r2: [u32; 2]|
        #[trigger] call_ensures(N::action, (n, point), r1) && #[trigger] call_ensures(
            N::action,
            (n, point),
            r2,
        ) ==> r1 == r2
    &&& forall|offsets: [u32; 4], r1: [u32; 4], r2: [u32; 4]|
        #[trigger] call_ensures(N::bezier, (n, offsets), r1) && #[trigger] call_ensures(
            N::bezier,
            (n, offsets),
            r2,
        ) ==> r1 == r2
}

/// The number that `n` reads from the token `chars`.
pub open spec fn parsed<N: Numerics>(n: &N, chars: Seq<char>) -> Option<u32> {
    choose|r: Option<u32>| reads(n, chars, r)
}

/// The angle `degrees` in radians, as `n` computes it.
pub open spec fn radians_of<N: Numerics>(n: &N, degrees: u32) -> u32 {
    choose|r: u32| call_ensures(N::radians, (n, degrees), r)
}

/// The difference `a - b`, as `n` computes it.
pub open spec fn difference_of<N: Numerics>(n: &N, a: u32, b: u32) -> u32 {
    choose|r: u32| call_ensures(N::difference, (n, a, b), r)
}

/// Translation and rotation of `matrix`, as `n` computes them.
pub open spec fn decomposed<N: Numerics>(n: &N, matrix: [u32; 16]) -> Option<Pose> {
    choose|r: Option<Pose>| call_ensures(N::decompose, (n, matrix), r)
}

/// The position `p` after `n` has post-processed it.
pub open spec fn position_of<N: Numerics>(n: &N, p: [u32; 3]) -> [u32; 3] {
    choose|r: [u32; 3]| call_ensures(N::position, (n, p), r)
}

/// The texture coordinate `uv` after `n` has post-processed it.
pub open spec fn texture_of<N: Numerics>(n: &N, uv: [u32; 2]) -> [u32; 2] {
    choose|r: [u32; 2]| call_ensures(N::texture, (n, uv), r)
}

/// The quaternion `q` after `n` has post-processed it.
pub open spec fn rotation_of<N: Numerics>(n: &N, q: [u32; 4]) -> [u32; 4] {
    choose|r: [u32; 4]| call_ensures(N::rotation, (n, q), r)
}

/// The animation point after `n` has post-processed it.
pub open spec fn action_of<N: Numerics>(n: &N, point: [u32; 2]) -> [u32; 2] {
    choose|r: [u32; 2]| call_ensures(N::action, (n, point), r)
}

/// The tangent offsets after `n` has post-processed them.
pub open spec fn bezier_of<N: Numerics>(n: &N, offsets: [u32; 4]) -> [u32; 4] {
    choose|r: [u32; 4]| call_ensures(N::bezier, (n, offsets), r)
}

/// Reads `token` with `n`.
pub fn parse<N: Numerics>(n: &N, token: &str) -> (r: Option<u32>)
    requires
        pure_numerics(n),
    ensures
        r == parsed(n, token@),
{
    let r = n.parse(token);
    proof {
        assert(reads(n, token@, r));
        let other = parsed(n, token@);
        assert(reads(n, token@, other));
        let t = choose|t: &str| t@ == token@ && #[trigger] call_ensures(N::parse, (n, t), other);
        assert(call_ensures(N::parse, (n, token), r) && call_ensures(N::parse, (n, t), other));
    }
    r
}

/// Converts `degrees` to radians with `n`.
pub fn radians<N: Numerics>(n: &N, degrees: u32) -> (r: u32)
    requires
        pure_numerics(n),
    ensures
        r == radians_of(n, degrees),
{
    n.radians(degrees)
}

/// Computes `a - b` with `n`.
pub fn difference<N: Numerics>(n: &N, a: u32, b: u32) -> (r: u32)
    requires
        pure_numerics(n),
    ensures
        r == difference_of(n, a, b),
{
    n.difference(a, b)
}

/// Splits `matrix` with `n`.
pub fn decompose<N: Numerics>(n: &N, matrix: [u32; 16]) -> (r: Option<Pose>)
    requires
        pure_numerics(n),
    ensures
        r == decomposed(n, matrix),
{
    n.decompose(matrix)
}

/// Post-processes the position `p` with `n`.
pub fn position<N: Numerics>(n: &N, p: [u32; 3]) -> (r: [u32; 3])
    requires
        pure_numerics(n),
    ensures
        r == position_of(n, p),
{
    n.position(p)
}

/// Post-processes the texture coordinate `uv` with `n`.
pub fn texture<N: Numerics>(n: &N, uv: [u32; 2]) -> (r: [u32; 2])
    requires
        pure_numerics(n),
    ensures
        r == texture_of(n, uv),
{
    n.texture(uv)
}

/// Post-processes the quaternion `q` with `n`.
pub fn rotation<N: Numerics>(n: &N, q: [u32; 4]) -> (r: [u32; 4])
    requires
        pure_numerics(n),
    ensures
        r == rotation_of(n, q),
{
    n.rotation(q)
}

/// Post-processes the animation point with `n`.
pub fn action<N: Numerics>(n: &N, point: [u32; 2]) -> (r: [u32; 2])
    requires
        pure_numerics(n),
    ensures
        r == action_of(n, point),
{
    n.action(point)
}

/// Post-processes the tangent offsets with `n`.
pub fn bezier<N: Numerics>(n: &N, offsets: [u32; 4]) -> (r: [u32; 4])
    requires
        pure_numerics(n),
    ensures
        r == bezier_of(n, offsets),
{
    n.bezier(offsets)
}

} // verus!
