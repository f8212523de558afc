//! From animations to one action.
//!
//! An animation moves one channel of one bone; its id names both, the bone
//! before the last `___` and the channel after it. Its sources give, key by
//! key, a time, an angle in degrees, the name of an interpolation and, for a
//! Bezier key, two tangent points. Every key sets its channel in the track
//! of the bone at its time.

use super::{Element, Error, ErrorModel, Value};
use crate::convert::action::{
    merged, track_of, Action, Channel, Interpolation, Keyframe, Rotation,
};
use crate::convert::format::document::{
    views, Animation, AnimationModel, Document, Name, Source, SourceModel,
};
use crate::convert::numeric::{
    action, action_of, bezier, bezier_of, difference, difference_of, pure_numerics, radians,
    radians_of, Numerics,
};
use crate::distinct::push_unique;
use crate::convert::strings::{
    ends_with, is_suffix, last_occurrence, occurs_at, rsplit_once, same,
};
use vstd::prelude::*;

verus! {

/// One of the three axes of rotation.
#[derive(Clone, Copy, Debug)]
pub enum Axis {
    X,
    Y,
    Z,
}

impl Axis {
    /// The rotation `rot` about this axis.
    pub open spec fn channel(self, rot: Rotation) -> Channel {
        match self {
            Axis::X => Channel::RotationX(rot),
            Axis::Y => Channel::RotationY(rot),
            Axis::Z => Channel::RotationZ(rot),
        }
    }

    /// The rotation `rot` about this axis.
    pub fn with(self, rot: Rotation) -> (r: Channel)
        ensures
            r == self.channel(rot),
    {
        match self {
            Axis::X => Channel::RotationX(rot),
            Axis::Y => Channel::RotationY(rot),
            Axis::Z => Channel::RotationZ(rot),
        }
    }
}

/// The axis that the name of a channel stands for.
pub open spec fn axis_of(name: Seq<char>) -> Option<Axis> {
    if name == "rotation_euler_X"@ {
        Some(Axis::X)
    } else if name == "rotation_euler_Y"@ {
        Some(Axis::Y)
    } else if name == "rotation_euler_Z"@ {
        Some(Axis::Z)
    } else {
        None
    }
}

/// The parts of an id before and after the last `___`.
pub open spec fn split_id(id: Seq<char>) -> Option<(Seq<char>, Seq<char>)> {
    if exists|at: int| last_occurrence("___"@, id, at) {
        let at = choose|at: int| last_occurrence("___"@, id, at);
        Some((id.take(at), id.skip(at + "___"@.len())))
    } else {
        None
    }
}

/// The bone and the axis that the id of an animation names.
pub open spec fn target_of(id: Seq<char>) -> Option<(Seq<char>, Axis)> {
    match split_id(id) {
        Some((bone, name)) => match axis_of(name) {
            Some(axis) => Some((bone, axis)),
            None => None,
        },
        None => None,
    }
}

/// What a source of an animation holds, by the end of its id.
#[derive(Clone, Copy, Debug)]
pub enum Kind {
    Input,
    Output,
    Interpolation,
    InTangent,
    OutTangent,
    Other,
}

/// The kind of the source with the id `id`.
pub open spec fn kind_of(id: Seq<char>) -> Kind {
    if is_suffix("-input"@, id) {
        Kind::Input
    } else if is_suffix("-output"@, id) {
        Kind::Output
    } else if is_suffix("-interpolation"@, id) {
        Kind::Interpolation
    } else if is_suffix("-intangent"@, id) {
        Kind::InTangent
    } else if is_suffix("-outtangent"@, id) {
        Kind::OutTangent
    } else {
        Kind::Other
    }
}

/// The last source of the kind `kind`.
pub open spec fn source_of(sources: Seq<SourceModel>, kind: Kind) -> Option<SourceModel>
    decreases sources.len(),
{
    if sources.len() == 0 {
        None
    } else if kind_of(sources.last().id) == kind {
        Some(sources.last())
    } else {
        source_of(sources.drop_last(), kind)
    }
}

/// The numbers of the last source of the kind `kind`; none where there is
/// no such source.
pub open spec fn floats_of_kind(sources: Seq<SourceModel>, kind: Kind) -> Seq<u32> {
    match source_of(sources, kind) {
        Some(source) => source.floats,
        None => Seq::empty(),
    }
}

/// The interpolation names of an animation.
pub open spec fn names_of_kind(sources: Seq<SourceModel>) -> Seq<Name> {
    match source_of(sources, Kind::Interpolation) {
        Some(source) => source.names,
        None => Seq::empty(),
    }
}

/// The parallel arrays of an animation.
pub struct Arrays {
    pub inputs: Seq<u32>,
    pub outputs: Seq<u32>,
    pub names: Seq<Name>,
    pub intangent: Seq<u32>,
    pub outtangent: Seq<u32>,
}

/// The arrays that the sources of an animation hold.
pub open spec fn arrays_of(sources: Seq<SourceModel>) -> Arrays {
    Arrays {
        inputs: floats_of_kind(sources, Kind::Input),
        outputs: floats_of_kind(sources, Kind::Output),
        names: names_of_kind(sources),
        intangent: floats_of_kind(sources, Kind::InTangent),
        outtangent: floats_of_kind(sources, Kind::OutTangent),
    }
}

impl Arrays {
    /// The time and the rotation of the key `idx`: the angle is turned into
    /// radians, the point `(time, angle)` is post-processed, and a Bezier key
    /// gets the offsets of its two tangent points from the point as it was
    /// before post-processing. A Bezier key without tangent points fails.
    pub open spec fn key<N: Numerics>(self, n: &N, idx: int) -> Option<(u32, Rotation)> {
        let x = self.inputs[idx];
        let y = radians_of(n, self.outputs[idx]);
        let point = action_of(n, [x, y]);
        match self.names[idx] {
            Name::Linear => Some((point[0], Rotation { output: point[1], int: Interpolation::Linear })),
            Name::Bezier => if 2 * idx + 1 < self.intangent.len() && 2 * idx + 1
                < self.outtangent.len() {
                let offsets = [
                    difference_of(n, self.intangent[2 * idx], x),
                    difference_of(n, self.intangent[2 * idx + 1], y),
                    difference_of(n, self.outtangent[2 * idx], x),
                    difference_of(n, self.outtangent[2 * idx + 1], y),
                ];
                Some(
                    (
                        point[0],
                        Rotation { output: point[1], int: Interpolation::Bezier(bezier_of(n, offsets)) },
                    ),
                )
            } else {
                None
            },
        }
    }

    /// The first `count` keys; `None` where one of them fails.
    pub open spec fn keys<N: Numerics>(self, n: &N, count: nat) -> Option<Seq<(u32, Rotation)>>
        decreases count,
    {
        if count == 0 {
            Some(Seq::empty())
        } else {
            match (self.keys(n, (count - 1) as nat), self.key(n, count - 1)) {
                (Some(head), Some(key)) => Some(head.push(key)),
                _ => None,
            }
        }
    }
}

/// What one animation asks for: nothing where it has no source, else the
/// keys of one channel of one bone.
pub open spec fn animation_keys<N: Numerics>(n: &N, a: AnimationModel) -> Result<
    Option<(Seq<char>, Axis, Seq<(u32, Rotation)>)>,
    ErrorModel,
> {
    let arrays = arrays_of(a.sources);
    if a.sources.len() == 0 {
        Ok(None)
    } else {
        match target_of(a.id) {
            None => Err(ErrorModel::AnimationId),
            Some((bone, axis)) => if arrays.inputs.len() != arrays.outputs.len()
                || arrays.inputs.len() != arrays.names.len() {
                Err(ErrorModel::ArrayLen)
            } else {
                match arrays.keys(n, arrays.inputs.len()) {
                    None => Err(ErrorModel::Index),
                    Some(keys) => Ok(Some((bone, axis, keys))),
                }
            },
        }
    }
}

/// The tracks after the keys of one channel of one bone have been set, one
/// after the other.
pub open spec fn inserted(
    tracks: Map<Seq<char>, Seq<Keyframe>>,
    bone: Seq<char>,
    axis: Axis,
    keys: Seq<(u32, Rotation)>,
) -> Map<Seq<char>, Seq<Keyframe>>
    decreases keys.len(),
{
    if keys.len() == 0 {
        tracks
    } else {
        let before = inserted(tracks, bone, axis, keys.drop_last());
        before.insert(
            bone,
            merged(track_of(before, bone), keys.last().0, axis.channel(keys.last().1)),
        )
    }
}

/// The tracks that the animations of a document make; the first animation
/// that fails makes the whole fail.
pub open spec fn actions_of<N: Numerics>(n: &N, animations: Seq<AnimationModel>) -> Result<
    Map<Seq<char>, Seq<Keyframe>>,
    ErrorModel,
>
    decreases animations.len(),
{
    if animations.len() == 0 {
        Ok(Map::empty())
    } else {
        match actions_of(n, animations.drop_last()) {
            Err(e) => Err(e),
            Ok(tracks) => match animation_keys(n, animations.last()) {
                Err(e) => Err(e),
                Ok(None) => Ok(tracks),
                Ok(Some((bone, axis, keys))) => Ok(inserted(tracks, bone, axis, keys)),
            },
        }
    }
}

/// The order of the tracks after one animation has been taken in: a bone
/// that is new and gets a key goes last.
pub open spec fn order_after<N: Numerics>(n: &N, order: Seq<Seq<char>>, a: AnimationModel) -> Seq<
    Seq<char>,
> {
    match animation_keys(n, a) {
        Ok(Some((bone, _, keys))) => if keys.len() > 0 {
            push_unique(order, bone)
        } else {
            order
        },
        _ => order,
    }
}

/// The order of the tracks that the animations of a document make: that in
/// which their bones are first named.
pub open spec fn tracks_order<N: Numerics>(n: &N, animations: Seq<AnimationModel>) -> Seq<
    Seq<char>,
>
    decreases animations.len(),
{
    if animations.len() == 0 {
        Seq::empty()
    } else {
        order_after(n, tracks_order(n, animations.drop_last()), animations.last())
    }
}

/// The last place of a separator is one place.
proof fn lemma_last_occurrence_unique(sep: Seq<char>, s: Seq<char>, a: int, b: int)
    requires
        last_occurrence(sep, s, a),
        last_occurrence(sep, s, b),
    ensures
        a == b,
{
    if a < b {
        assert(!occurs_at(sep, s, b));
    }
    if b < a {
        assert(!occurs_at(sep, s, a));
    }
}

/// Finds the bone and the axis that an id names.
fn target(id: &str) -> (r: Option<(String, Axis)>)
    ensures
        match r {
            Some((bone, axis)) => target_of(id@) == Some((bone@, axis)),
            None => target_of(id@).is_none(),
        },
{
    proof {
        reveal_strlit("___");
    }
    match rsplit_once(id, "___") {
        None => {
            proof {
                assert(split_id(id@).is_none());
            }
            None
        },
        Some((bone, name)) => {
            proof {
                let at = bone@.len() as int;
                assert(last_occurrence("___"@, id@, at));
                let chosen = choose|at: int| last_occurrence("___"@, id@, at);
                lemma_last_occurrence_unique("___"@, id@, at, chosen);
                assert(id@.take(at) =~= bone@);
                assert(id@.skip(at + "___"@.len()) =~= name@);
                assert(split_id(id@) == Some((bone@, name@)));
            }
            let name = name.as_str();
            if same(name, "rotation_euler_X") {
                Some((bone, Axis::X))
            } else if same(name, "rotation_euler_Y") {
                Some((bone, Axis::Y))
            } else if same(name, "rotation_euler_Z") {
                Some((bone, Axis::Z))
            } else {
                None
            }
        },
    }
}

/// Tells the kind of a source.
fn kind(id: &str) -> (r: Kind)
    ensures
        r == kind_of(id@),
{
    if ends_with(id, "-input") {
        Kind::Input
    } else if ends_with(id, "-output") {
        Kind::Output
    } else if ends_with(id, "-interpolation") {
        Kind::Interpolation
    } else if ends_with(id, "-intangent") {
        Kind::InTangent
    } else if ends_with(id, "-outtangent") {
        Kind::OutTangent
    } else {
        Kind::Other
    }
}

/// The places of the last source of each kind.
struct Places {
    input: Option<usize>,
    output: Option<usize>,
    interpolation: Option<usize>,
    intangent: Option<usize>,
    outtangent: Option<usize>,
}

/// `at` is the place of the last source of the kind `kind`.
spec fn is_place(sources: Seq<Source>, upto: int, kind: Kind, at: Option<usize>) -> bool {
    match at {
        Some(i) => i < upto && source_of(views(sources).take(upto), kind) == Some(sources[i as int]@),
        None => source_of(views(sources).take(upto), kind).is_none(),
    }
}

/// Finds the last source of each kind.
fn select(sources: &Vec<Source>) -> (r: Places)
    ensures
        is_place(sources@, sources@.len() as int, Kind::Input, r.input),
        is_place(sources@, sources@.len() as int, Kind::Output, r.output),
        is_place(sources@, sources@.len() as int, Kind::Interpolation, r.interpolation),
        is_place(sources@, sources@.len() as int, Kind::InTangent, r.intangent),
        is_place(sources@, sources@.len() as int, Kind::OutTangent, r.outtangent),
{
    let mut places = Places {
        input: None,
        output: None,
        interpolation: None,
        intangent: None,
        outtangent: None,
    };
    let mut i: usize = 0;
    let ghost all = views(sources@);
    proof {
        assert(all.take(0) =~= Seq::empty());
    }
    while i < sources.len()
        invariant
            0 <= i <= sources@.len(),
            all == views(sources@),
            is_place(sources@, i as int, Kind::Input, places.input),
            is_place(sources@, i as int, Kind::Output, places.output),
            is_place(sources@, i as int, Kind::Interpolation, places.interpolation),
            is_place(sources@, i as int, Kind::InTangent, places.intangent),
            is_place(sources@, i as int, Kind::OutTangent, places.outtangent),
        decreases sources@.len() - i,
    {
        proof {
            assert(all.take(i + 1).drop_last() =~= all.take(i as int));
            assert(all.take(i + 1).last() == sources@[i as int]@);
        }
        match kind(sources[i].id.as_str()) {
            Kind::Input => {
                places.input = Some(i);
            },
            Kind::Output => {
                places.output = Some(i);
            },
            Kind::Interpolation => {
                places.interpolation = Some(i);
            },
            Kind::InTangent => {
                places.intangent = Some(i);
            },
            Kind::OutTangent => {
                places.outtangent = Some(i);
            },
            Kind::Other => {},
        }
        i = i + 1;
    }
    places
}

/// The numbers of the source at `at`, or `none`.
fn floats_at<'a>(sources: &'a Vec<Source>, at: Option<usize>, none: &'a Vec<u32>) -> (r: &'a [u32])
    requires
        none@.len() == 0,
        match at {
            Some(i) => i < sources@.len(),
            None => true,
        },
    ensures
        r@ == (match at {
            Some(i) => sources@[i as int].floats@,
            None => Seq::<u32>::empty(),
        }),
{
    match at {
        Some(i) => sources[i].floats.as_slice(),
        None => none.as_slice(),
    }
}

/// Computes the time and the rotation of the key `idx`.
fn key_at<N: Numerics>(
    n: &N,
    inputs: &[u32],
    outputs: &[u32],
    names: &[Name],
    intangent: &[u32],
    outtangent: &[u32],
    idx: usize,
) -> (r: Option<(u32, Rotation)>)
    requires
        pure_numerics(n),
        idx < inputs@.len(),
        inputs@.len() == outputs@.len(),
        inputs@.len() == names@.len(),
    ensures
        r == (Arrays {
            inputs: inputs@,
            outputs: outputs@,
            names: names@,
            intangent: intangent@,
            outtangent: outtangent@,
        }).key(n, idx as int),
{
    let x = inputs[idx];
    let y = radians(n, outputs[idx]);
    let point = action(n, [x, y]);
    match names[idx] {
        Name::Linear => Some((point[0], Rotation { output: point[1], int: Interpolation::Linear })),
        Name::Bezier => {
            if idx >= intangent.len() / 2 || idx >= outtangent.len() / 2 {
                return None;
            }
            let at = 2 * idx;
            let offsets = [
                difference(n, intangent[at], x),
                difference(n, intangent[at + 1], y),
                difference(n, outtangent[at], x),
                difference(n, outtangent[at + 1], y),
            ];
            let curve = Interpolation::Bezier(bezier(n, offsets));
            Some((point[0], Rotation { output: point[1], int: curve }))
        },
    }
}

/// Takes one animation into the action.
pub fn animation_into<N: Numerics>(a: &Animation, n: &N, act: &mut Action) -> (r: Result<
    (),
    Error,
>)
    requires
        pure_numerics(n),
    ensures
        match animation_keys(n, a@) {
            Err(e) => r is Err && r->Err_0.is_model(e),
            Ok(None) => r is Ok && final(act)@ == old(act)@,
            Ok(Some((bone, axis, keys))) => r is Ok && final(act)@ == inserted(
                old(act)@,
                bone,
                axis,
                keys,
            ),
        },
        r is Ok ==> final(act).order() == order_after(n, old(act).order(), a@),
{
    if a.sources.len() == 0 {
        proof {
            assert(a@.sources.len() == 0);
        }
        return Ok(());
    }
    let (bone, axis) = match target(a.id.as_str()) {
        Some(found) => found,
        None => {
            return Err(Error::AnimationId);
        },
    };
    let places = select(&a.sources);
    let none: Vec<u32> = Vec::new();
    let no_names: Vec<Name> = Vec::new();
    let ghost all = views(a.sources@);
    proof {
        assert(all.take(a.sources@.len() as int) =~= all);
    }
    let inputs = floats_at(&a.sources, places.input, &none);
    let outputs = floats_at(&a.sources, places.output, &none);
    let intangent = floats_at(&a.sources, places.intangent, &none);
    let outtangent = floats_at(&a.sources, places.outtangent, &none);
    let names: &[Name] = match places.interpolation {
        Some(i) => a.sources[i].names.as_slice(),
        None => no_names.as_slice(),
    };
    let ghost arrays = arrays_of(a@.sources);
    proof {
        assert(arrays == Arrays {
            inputs: inputs@,
            outputs: outputs@,
            names: names@,
            intangent: intangent@,
            outtangent: outtangent@,
        });
    }
    if inputs.len() != outputs.len() || inputs.len() != names.len() {
        return Err(Error::ArrayLen);
    }
    let mut keys: Vec<(u32, Rotation)> = Vec::new();
    let mut idx: usize = 0;
    while idx < inputs.len()
        invariant
            pure_numerics(n),
            0 <= idx <= inputs@.len(),
            inputs@.len() == outputs@.len(),
            inputs@.len() == names@.len(),
            a@.sources.len() > 0,
            target_of(a@.id) == Some((bone@, axis)),
            arrays == arrays_of(a@.sources),
            arrays == (Arrays {
                inputs: inputs@,
                outputs: outputs@,
                names: names@,
                intangent: intangent@,
                outtangent: outtangent@,
            }),
            arrays.keys(n, idx as nat) == Some(keys@),
        decreases inputs@.len() - idx,
    {
        match key_at(n, inputs, outputs, names, intangent, outtangent, idx) {
            Some(key) => {
                keys.push(key);
            },
            None => {
                proof {
                    assert(arrays.keys(n, (idx + 1) as nat) is None);
                    lemma_keys_fail(n, arrays, (idx + 1) as nat, inputs@.len());
                }
                return Err(Error::Index);
            },
        }
        idx = idx + 1;
    }
    let mut k: usize = 0;
    proof {
        assert(keys@.take(0) =~= Seq::empty());
        assert(animation_keys(n, a@) == Ok::<
            Option<(Seq<char>, Axis, Seq<(u32, Rotation)>)>,
            ErrorModel,
        >(Some((bone@, axis, keys@))));
    }
    while k < keys.len()
        invariant
            0 <= k <= keys@.len(),
            animation_keys(n, a@) == Ok::<
                Option<(Seq<char>, Axis, Seq<(u32, Rotation)>)>,
                ErrorModel,
            >(Some((bone@, axis, keys@))),
            act@ == inserted(old(act)@, bone@, axis, keys@.take(k as int)),
            act.order() == (if k > 0 {
                push_unique(old(act).order(), bone@)
            } else {
                old(act).order()
            }),
        decreases keys@.len() - k,
    {
        proof {
            assert(keys@.take(k + 1).drop_last() =~= keys@.take(k as int));
        }
        let (time, rot) = keys[k];
        proof {
            let order = old(act).order();
            if !order.contains(bone@) {
                assert(order.push(bone@)[order.len() as int] == bone@);
            }
        }
        act.insert_channel(bone.clone(), time, axis.with(rot));
        k = k + 1;
    }
    proof {
        assert(keys@.take(k as int) =~= keys@);
    }
    Ok(())
}

/// A failure among the first keys is the failure of all of them.
proof fn lemma_keys_fail<N: Numerics>(n: &N, arrays: Arrays, count: nat, all: nat)
    requires
        count <= all,
        arrays.keys(n, count) is None,
    ensures
        arrays.keys(n, all) is None,
    decreases all - count,
{
    if count < all {
        lemma_keys_fail(n, arrays, count + 1, all);
    }
}

/// `r` is what the animations give: one element named `action` with the
/// tracks that they make, or the first failure among them.
pub open spec fn actions_result<N: Numerics>(
    n: &N,
    animations: Seq<AnimationModel>,
    r: Result<Vec<Element>, Error>,
) -> bool {
    match actions_of(n, animations) {
        Ok(tracks) => {
            &&& r is Ok
            &&& r->Ok_0@.len() == 1
            &&& r->Ok_0@[0].name@ == "action"@
            &&& r->Ok_0@[0].val is Action
            &&& r->Ok_0@[0].val->Action_0@ == tracks
            &&& r->Ok_0@[0].val->Action_0.order() == tracks_order(n, animations)
        },
        Err(e) => r is Err && r->Err_0.is_model(e),
    }
}

/// Assembles the one action of a document from its animations. The action
/// is returned under the name `action`, also where no animation moved it.
pub fn parse_actions<N: Numerics>(doc: &Document, n: &N) -> (r: Result<Vec<Element>, Error>)
    requires
        pure_numerics(n),
    ensures
        actions_result(n, doc@.animations, r),
{
    let mut act = Action::default();
    let mut i: usize = 0;
    let ghost all = doc@.animations;
    proof {
        assert(all.take(0) =~= Seq::empty());
    }
    while i < doc.animations.len()
        invariant
            pure_numerics(n),
            0 <= i <= doc.animations@.len(),
            all == views(doc.animations@),
            actions_of(n, all.take(i as int)) == Ok::<Map<Seq<char>, Seq<Keyframe>>, ErrorModel>(
                act@,
            ),
            act.order() == tracks_order(n, all.take(i as int)),
        decreases doc.animations@.len() - i,
    {
        proof {
            assert(all.take(i + 1).drop_last() =~= all.take(i as int));
            assert(all.take(i + 1).last() == doc.animations@[i as int]@);
        }
        match animation_into(&doc.animations[i], n, &mut act) {
            Ok(()) => {},
            Err(e) => {
                proof {
                    lemma_actions_fail(n, all, i + 1);
                }
                return Err(e);
            },
        }
        i = i + 1;
    }
    proof {
        assert(all.take(i as int) =~= all);
    }
    let mut out: Vec<Element> = Vec::new();
    out.push(Element { name: "action".to_owned(), val: Value::Action(act) });
    Ok(out)
}

/// A failure among the first animations is the failure of all of them.
proof fn lemma_actions_fail<N: Numerics>(n: &N, animations: Seq<AnimationModel>, k: int)
    requires
        0 <= k <= animations.len(),
        actions_of(n, animations.take(k)) is Err,
    ensures
        actions_of(n, animations) == actions_of(n, animations.take(k)),
    decreases animations.len() - k,
{
    if k == animations.len() {
        assert(animations.take(k) =~= animations);
    } else {
        assert(animations.take(k + 1).drop_last() =~= animations.take(k));
        lemma_actions_fail(n, animations, k + 1);
    }
}

} // verus!
