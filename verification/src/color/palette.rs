//! Palettes that tell for a colour which colour takes its place.

use super::color::Color;
use std::collections::HashMap;
use vstd::prelude::*;

verus! {

/// The pairs `from[i] -> to[i]` as a map; of two pairs with one source the
/// later one counts, and what one list has beyond the other is left out.
pub open spec fn pairs(from: Seq<Color>, to: Seq<Color>, count: nat) -> Map<u32, Color>
    decreases count,
{
    if count == 0 || count > from.len() || count > to.len() {
        Map::empty()
    } else {
        pairs(from, to, (count - 1) as nat).insert(from[count - 1].packed(), to[count - 1])
    }
}

/// The smaller of two lengths.
pub open spec fn shorter(a: nat, b: nat) -> nat {
    if a <= b {
        a
    } else {
        b
    }
}

/// A palette that replaces the colours that it knows and no others.
pub struct Exact {
    transfer: HashMap<u32, Color>,
}

impl View for Exact {
    type V = Map<u32, Color>;

    closed spec fn view(&self) -> Map<u32, Color> {
        self.transfer@
    }
}

impl Exact {
    /// The palette that replaces `from[i]` by `to[i]`.
    pub fn new(from: &[Color], to: &[Color]) -> (r: Exact)
        ensures
            r@ == pairs(from@, to@, shorter(from@.len(), to@.len())),
    {
        broadcast use vstd::std_specs::hash::group_hash_axioms;

        let mut transfer: HashMap<u32, Color> = HashMap::new();
        let count = if from.len() <= to.len() {
            from.len()
        } else {
            to.len()
        };
        let mut i: usize = 0;
        while i < count
            invariant
                0 <= i <= count,
                count == shorter(from@.len(), to@.len()),
                transfer@ == pairs(from@, to@, i as nat),
            decreases count - i,
        {
            transfer.insert(from[i].pack(), to[i]);
            i = i + 1;
        }
        Exact { transfer }
    }

    /// The colour that takes the place of `target`, if the palette knows
    /// `target`.
    pub fn transfer(&mut self, target: Color) -> (r: Option<Color>)
        ensures
            final(self)@ == old(self)@,
            r == (if old(self)@.dom().contains(target.packed()) {
                Some(old(self)@[target.packed()])
            } else {
                None
            }),
    {
        broadcast use vstd::std_specs::hash::group_hash_axioms;

        let key = target.pack();
        match self.transfer.get(&key) {
            Some(color) => Some(*color),
            None => None,
        }
    }
}

/// The measure by which one colour is closer to another than a third is.
/// It works on real numbers, so the caller supplies it.
pub trait Metric {
    /// The colour that the palette offers in place of `target`: the member
    /// nearest to it, the first of several that are equally near.
    fn nearest(&self, palette: &[Color], target: Color) -> Color;
}

/// `m` may answer `r` for the palette `palette` and the colour `target`.
pub open spec fn picks<M: Metric>(m: &M, palette: Seq<Color>, target: Color, r: Color) -> bool {
    exists|p: &[Color]| p@ == palette && #[trigger] call_ensures(M::nearest, (m, p, target), r)
}

/// `m` gives one answer for one palette and one colour.
pub open spec fn pure_metric<M: Metric>(m: &M) -> bool {
    forall|p: &[Color], q: &[Color], target: Color, a: Color, b: Color|
        p@ == q@ && #[trigger] call_ensures(M::nearest, (m, p, target), a) && #[trigger] call_ensures(
            M::nearest,
            (m, q, target),
            b,
        ) ==> a == b
}

/// The colour that `m` finds nearest to `target` in `palette`.
pub open spec fn nearest_of<M: Metric>(m: &M, palette: Seq<Color>, target: Color) -> Color {
    choose|r: Color| picks(m, palette, target, r)
}

/// Asks `m` for the colour nearest to `target`.
pub fn nearest<M: Metric>(m: &M, palette: &[Color], target: Color) -> (r: Color)
    requires
        pure_metric(m),
    ensures
        r == nearest_of(m, palette@, target),
{
    let r = m.nearest(palette, target);
    proof {
        assert(picks(m, palette@, target, r));
        let other = nearest_of(m, palette@, target);
        assert(picks(m, palette@, target, other));
        let p = choose|p: &[Color]|
            p@ == palette@ && #[trigger] call_ensures(M::nearest, (m, p, target), other);
        assert(call_ensures(M::nearest, (m, palette, target), r) && call_ensures(
            M::nearest,
            (m, p, target),
            other,
        ));
    }
    r
}

/// A palette that replaces every colour by the nearest of its own, and
/// remembers what it has answered.
pub struct Closest<'m, M: Metric> {
    colors: Vec<Color>,
    cache: HashMap<u32, Color>,
    metric: &'m M,
}

impl<'m, M: Metric> Closest<'m, M> {
    /// The colours of the palette.
    pub closed spec fn palette(&self) -> Seq<Color> {
        self.colors@
    }

    /// The measure of the palette.
    pub closed spec fn metric(&self) -> &M {
        self.metric
    }

    /// The palette has a colour, its measure is pure, and what it remembers
    /// is what the measure answers.
    pub closed spec fn wf(&self) -> bool {
        &&& self.colors@.len() > 0
        &&& pure_metric(self.metric)
        &&& forall|t: Color| #[trigger]
            self.cache@.dom().contains(t.packed()) ==> self.cache@[t.packed()] == nearest_of(
                self.metric,
                self.colors@,
                t,
            )
    }

    /// The palette of the given colours.
    pub fn new(colors: &[Color], metric: &'m M) -> (r: Closest<'m, M>)
        requires
            colors@.len() > 0,
            pure_metric(metric),
        ensures
            r.wf(),
            r.palette() == colors@,
            r.metric() == metric,
    {
        broadcast use vstd::std_specs::hash::group_hash_axioms;

        let mut own: Vec<Color> = Vec::new();
        let mut i: usize = 0;
        while i < colors.len()
            invariant
                0 <= i <= colors@.len(),
                own@ == colors@.take(i as int),
            decreases colors@.len() - i,
        {
            own.push(colors[i]);
            proof {
                assert(own@ =~= colors@.take(i + 1));
            }
            i = i + 1;
        }
        proof {
            assert(colors@.take(i as int) =~= colors@);
        }
        Closest { colors: own, cache: HashMap::new(), metric }
    }

    /// The colour of the palette that takes the place of `target`.
    pub fn transfer(&mut self, target: Color) -> (r: Color)
        requires
            old(self).wf(),
        ensures
            final(self).wf(),
            final(self).palette() == old(self).palette(),
            final(self).metric() == old(self).metric(),
            r == nearest_of(old(self).metric(), old(self).palette(), target),
    {
        broadcast use vstd::std_specs::hash::group_hash_axioms;

        let key = target.pack();
        match self.cache.get(&key) {
            Some(color) => {
                return *color;
            },
            None => {},
        }
        let found = nearest(self.metric, self.colors.as_slice(), target);
        self.cache.insert(key, found);
        proof {
            assert forall|t: Color| #[trigger]
                self.cache@.dom().contains(t.packed()) implies self.cache@[t.packed()]
                == nearest_of(self.metric, self.colors@, t) by {
                if t.packed() == key {
                    super::color::lemma_packed_injective(t, target);
                    assert(t.0 =~= target.0);
                    assert(t == target);
                }
            }
        }
        found
    }
}

} // verus!
