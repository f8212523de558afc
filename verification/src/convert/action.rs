//! Rotation tracks: for each bone a list of keyframes, sorted by time, in
//! which the three rotation channels of one instant share one keyframe.
//!
//! Times are ordered as the bit patterns of 32-bit floats are ordered in the
//! total order of IEEE 754; two times are the same when their bits are.

use crate::distinct::push_unique;
use vstd::prelude::*;

verus! {

/// How a channel moves from one key to the next.
#[derive(Clone, Copy, Debug)]
pub enum Interpolation {
    Linear,
    /// The offsets of the two control points from the key: `lx, ly, rx, ry`.
    Bezier([u32; 4]),
}

/// The angle of one channel at one key, in radians, and its interpolation.
#[derive(Clone, Copy, Debug)]
pub struct Rotation {
    pub output: u32,
    pub int: Interpolation,
}

/// A rotation about one of the three axes.
#[derive(Clone, Copy, Debug)]
pub enum Channel {
    RotationX(Rotation),
    RotationY(Rotation),
    RotationZ(Rotation),
}

/// The three channels of one keyframe.
#[derive(Clone, Copy, Debug)]
pub struct Value {
    pub rx: Rotation,
    pub ry: Rotation,
    pub rz: Rotation,
}

/// The channels of a bone at one instant.
#[derive(Clone, Copy, Debug)]
pub struct Keyframe {
    pub input: u32,
    pub val: Value,
}

/// The keyframes of one bone.
#[derive(Debug)]
pub struct Track {
    pub bone: String,
    pub keys: Vec<Keyframe>,
}

/// The tracks of an animation, one for each bone that it moves.
pub struct Action {
    tracks: Vec<Track>,
}

impl Rotation {
    /// The rotation of a channel that no source has set: angle zero, linear.
    pub open spec fn unset() -> Rotation {
        Rotation { output: 0, int: Interpolation::Linear }
    }
}

impl Default for Rotation {
    fn default() -> (r: Rotation)
        ensures
            r == Rotation::unset(),
    {
        Rotation { output: 0, int: Interpolation::Linear }
    }
}

impl Value {
    /// The value in which no channel is set.
    pub open spec fn unset() -> Value {
        Value { rx: Rotation::unset(), ry: Rotation::unset(), rz: Rotation::unset() }
    }

    /// This value with one channel replaced.
    pub open spec fn with_spec(self, chan: Channel) -> Value {
        match chan {
            Channel::RotationX(rx) => Value { rx, ..self },
            Channel::RotationY(ry) => Value { ry, ..self },
            Channel::RotationZ(rz) => Value { rz, ..self },
        }
    }

    /// This value with one channel replaced.
    pub fn with(self, chan: Channel) -> (r: Value)
        ensures
            r == self.with_spec(chan),
    {
        match chan {
            Channel::RotationX(rx) => Value { rx, ry: self.ry, rz: self.rz },
            Channel::RotationY(ry) => Value { rx: self.rx, ry, rz: self.rz },
            Channel::RotationZ(rz) => Value { rx: self.rx, ry: self.ry, rz },
        }
    }
}

impl Default for Value {
    fn default() -> (r: Value)
        ensures
            r == Value::unset(),
    {
        Value { rx: Rotation::default(), ry: Rotation::default(), rz: Rotation::default() }
    }
}

/// The place of a time in the total order of 32-bit floats: a smaller number
/// for an earlier time.
pub open spec fn time_key(bits: u32) -> int {
    if bits < 0x8000_0000 {
        bits as int
    } else {
        0x7FFF_FFFF - bits
    }
}

/// Computes `time_key`.
pub fn order_key(bits: u32) -> (r: i64)
    ensures
        r == time_key(bits),
{
    if bits < 0x8000_0000 {
        bits as i64
    } else {
        0x7FFF_FFFF - (bits as i64)
    }
}

/// Two times have the same place only when they are the same bits.
pub proof fn lemma_time_key_injective(a: u32, b: u32)
    ensures
        time_key(a) == time_key(b) <==> a == b,
{
}

/// The keyframes stand in strictly ascending order of time.
pub open spec fn sorted(keys: Seq<Keyframe>) -> bool {
    forall|i: int, j: int|
        0 <= i < j < keys.len() ==> time_key(#[trigger] keys[i].input) < time_key(
            #[trigger] keys[j].input,
        )
}

/// The number of keyframes that are earlier than `input`.
pub open spec fn rank(keys: Seq<Keyframe>, input: u32) -> int
    decreases keys.len(),
{
    if keys.len() == 0 {
        0
    } else {
        rank(keys.drop_last(), input) + if time_key(keys.last().input) < time_key(input) {
            1int
        } else {
            0int
        }
    }
}

/// Whether a keyframe of `keys` stands at the time `input`.
pub open spec fn has_time(keys: Seq<Keyframe>, input: u32) -> bool {
    exists|i: int| 0 <= i < keys.len() && (#[trigger] keys[i]).input == input
}

/// `keys` after a channel has been set at the time `input`: the keyframe of
/// that time takes the channel and keeps its others; where there is none, a
/// keyframe with only this channel set enters at its place in time.
pub open spec fn merged(keys: Seq<Keyframe>, input: u32, chan: Channel) -> Seq<Keyframe> {
    let at = rank(keys, input);
    if at < keys.len() && keys[at].input == input {
        keys.update(at, Keyframe { input, val: keys[at].val.with_spec(chan) })
    } else {
        keys.insert(at, Keyframe { input, val: Value::unset().with_spec(chan) })
    }
}

/// In a sorted sequence the rank of a time is the index from which on no
/// keyframe is earlier.
pub proof fn lemma_rank_is_boundary(keys: Seq<Keyframe>, input: u32, at: int)
    requires
        0 <= at <= keys.len(),
        forall|i: int| 0 <= i < at ==> time_key(#[trigger] keys[i].input) < time_key(input),
        forall|i: int|
            at <= i < keys.len() ==> time_key(#[trigger] keys[i].input) >= time_key(input),
    ensures
        rank(keys, input) == at,
    decreases keys.len(),
{
    if keys.len() > 0 {
        let head = keys.drop_last();
        if at == keys.len() {
            lemma_rank_is_boundary(head, input, at - 1);
        } else {
            lemma_rank_is_boundary(head, input, at);
        }
    }
}

/// The rank lies within the sequence; in a sorted one, all keyframes before
/// it are earlier and none from it on is.
pub proof fn lemma_rank_splits(keys: Seq<Keyframe>, input: u32)
    requires
        sorted(keys),
    ensures
        0 <= rank(keys, input) <= keys.len(),
        forall|i: int|
            0 <= i < rank(keys, input) ==> time_key(#[trigger] keys[i].input) < time_key(input),
        forall|i: int|
            rank(keys, input) <= i < keys.len() ==> time_key(#[trigger] keys[i].input)
                >= time_key(input),
    decreases keys.len(),
{
    if keys.len() > 0 {
        let head = keys.drop_last();
        assert(sorted(head)) by {
            assert forall|i: int, j: int| 0 <= i < j < head.len() implies time_key(
                #[trigger] head[i].input,
            ) < time_key(#[trigger] head[j].input) by {
                assert(head[i] == keys[i] && head[j] == keys[j]);
            }
        }
        lemma_rank_splits(head, input);
        let r = rank(head, input);
        assert forall|i: int| 0 <= i < rank(keys, input) implies time_key(
            #[trigger] keys[i].input,
        ) < time_key(input) by {
            if i < head.len() {
                assert(head[i] == keys[i]);
                if i >= r {
                    // then the last keyframe is earlier than `input`, and `i` before it
                    assert(time_key(keys[i].input) <= time_key(keys[keys.len() - 1].input));
                }
            }
        }
        assert forall|i: int| rank(keys, input) <= i < keys.len() implies time_key(
            #[trigger] keys[i].input,
        ) >= time_key(input) by {
            if i < head.len() {
                assert(head[i] == keys[i]);
            }
        }
    }
}

/// Setting a channel keeps the keyframes sorted. At a time that is there it
/// changes one keyframe and adds none; at a new time it adds one keyframe, in
/// which the other two channels are unset.
pub proof fn lemma_merged(keys: Seq<Keyframe>, input: u32, chan: Channel)
    requires
        sorted(keys),
    ensures
        sorted(merged(keys, input, chan)),
        has_time(merged(keys, input, chan), input),
        has_time(keys, input) ==> merged(keys, input, chan).len() == keys.len(),
        !has_time(keys, input) ==> merged(keys, input, chan).len() == keys.len() + 1,
        has_time(keys, input) ==> merged(keys, input, chan) == keys.update(
            rank(keys, input),
            Keyframe { input, val: keys[rank(keys, input)].val.with_spec(chan) },
        ),
        !has_time(keys, input) ==> merged(keys, input, chan) == keys.insert(
            rank(keys, input),
            Keyframe { input, val: Value::unset().with_spec(chan) },
        ),
{
    lemma_rank_splits(keys, input);
    let at = rank(keys, input);
    let out = merged(keys, input, chan);
    if at < keys.len() && keys[at].input == input {
        assert(has_time(keys, input));
        assert(out[at].input == input);
        assert forall|i: int, j: int| 0 <= i < j < out.len() implies time_key(
            #[trigger] out[i].input,
        ) < time_key(#[trigger] out[j].input) by {
            assert(out[i].input == keys[i].input && out[j].input == keys[j].input);
        }
    } else {
        assert(!has_time(keys, input)) by {
            if has_time(keys, input) {
                let i = choose|i: int| 0 <= i < keys.len() && (#[trigger] keys[i]).input == input;
                if i < at {
                    assert(time_key(keys[i].input) < time_key(input));
                } else {
                    assert(time_key(keys[at].input) <= time_key(keys[i].input));
                    lemma_time_key_injective(keys[at].input, input);
                }
            }
        }
        assert(out[at].input == input);
        assert forall|i: int, j: int| 0 <= i < j < out.len() implies time_key(
            #[trigger] out[i].input,
        ) < time_key(#[trigger] out[j].input) by {
            let a = if i < at { i } else { i - 1 };
            let b = if j < at { j } else { j - 1 };
            if i != at {
                assert(out[i] == keys[a]);
            }
            if j != at {
                assert(out[j] == keys[b]);
            }
            if i == at {
                lemma_time_key_injective(keys[b].input, input);
            }
        }
    }
}

/// Two channels set at one time make one keyframe that holds both; the third
/// channel stays unset.
pub proof fn lemma_same_time_shares_keyframe(input: u32, first: Channel, second: Channel)
    ensures
        merged(merged(Seq::empty(), input, first), input, second) == seq![
            Keyframe { input, val: Value::unset().with_spec(first).with_spec(second) },
        ],
{
    let one = merged(Seq::<Keyframe>::empty(), input, first);
    assert(rank(Seq::<Keyframe>::empty(), input) == 0);
    let k = Keyframe { input, val: Value::unset().with_spec(first) };
    assert(one =~= seq![k]);
    assert(sorted(one));
    lemma_rank_is_boundary(one, input, 0);
    assert(merged(one, input, second) =~= seq![
        Keyframe { input, val: Value::unset().with_spec(first).with_spec(second) },
    ]);
}

/// Two channels set at different times make two keyframes, the earlier one
/// first, each with its own channel set and the other two unset.
pub proof fn lemma_other_time_adds_keyframe(a: u32, first: Channel, b: u32, second: Channel)
    requires
        a != b,
    ensures
        ({
            let ka = Keyframe { input: a, val: Value::unset().with_spec(first) };
            let kb = Keyframe { input: b, val: Value::unset().with_spec(second) };
            merged(merged(Seq::empty(), a, first), b, second) == if time_key(a) < time_key(b) {
                seq![ka, kb]
            } else {
                seq![kb, ka]
            }
        }),
{
    let ka = Keyframe { input: a, val: Value::unset().with_spec(first) };
    let kb = Keyframe { input: b, val: Value::unset().with_spec(second) };
    let one = merged(Seq::<Keyframe>::empty(), a, first);
    assert(rank(Seq::<Keyframe>::empty(), a) == 0);
    assert(one =~= seq![ka]);
    lemma_time_key_injective(a, b);
    if time_key(a) < time_key(b) {
        lemma_rank_is_boundary(one, b, 1);
        assert(merged(one, b, second) =~= seq![ka, kb]);
    } else {
        lemma_rank_is_boundary(one, b, 0);
        assert(merged(one, b, second) =~= seq![kb, ka]);
    }
}

/// Sets a channel among sorted keyframes at the time `input`.
pub fn insert_key(keys: &mut Vec<Keyframe>, input: u32, chan: Channel)
    requires
        sorted(old(keys)@),
    ensures
        final(keys)@ == merged(old(keys)@, input, chan),
        sorted(final(keys)@),
{
    let target = order_key(input);
    let mut lo: usize = 0;
    let mut hi: usize = keys.len();
    while lo < hi
        invariant
            0 <= lo <= hi <= keys@.len(),
            *keys == *old(keys),
            sorted(keys@),
            target == time_key(input),
            forall|i: int| 0 <= i < lo ==> time_key(#[trigger] keys@[i].input) < target,
            forall|i: int| hi <= i < keys@.len() ==> time_key(#[trigger] keys@[i].input) >= target,
        decreases hi - lo,
    {
        let mid = lo + (hi - lo) / 2;
        if order_key(keys[mid].input) < target {
            proof {
                assert forall|i: int| 0 <= i < mid + 1 implies time_key(
                    #[trigger] keys@[i].input,
                ) < target by {
                    if i < mid {
                        assert(time_key(keys@[i].input) < time_key(keys@[mid as int].input));
                    }
                }
            }
            lo = mid + 1;
        } else {
            proof {
                assert forall|i: int| mid <= i < keys@.len() implies time_key(
                    #[trigger] keys@[i].input,
                ) >= target by {
                    if i > mid {
                        assert(time_key(keys@[mid as int].input) < time_key(keys@[i].input));
                    }
                }
            }
            hi = mid;
        }
    }
    proof {
        lemma_rank_is_boundary(keys@, input, lo as int);
        lemma_merged(keys@, input, chan);
    }
    if lo < keys.len() && keys[lo].input == input {
        let val = keys[lo].val.with(chan);
        keys[lo] = Keyframe { input, val };
    } else {
        let val = Value::default().with(chan);
        keys.insert(lo, Keyframe { input, val });
    }
}

/// No two tracks bear the same name.
pub open spec fn distinct_names(tracks: Seq<Track>) -> bool {
    forall|i: int, j: int|
        0 <= i < j < tracks.len() ==> (#[trigger] tracks[i]).bone@ != (#[trigger] tracks[j]).bone@
}

/// The keyframes of every track are sorted.
pub open spec fn all_sorted(tracks: Seq<Track>) -> bool {
    forall|i: int| 0 <= i < tracks.len() ==> sorted((#[trigger] tracks[i]).keys@)
}

/// `tracks` holds a track of the bone `name`.
pub open spec fn names(tracks: Seq<Track>, name: Seq<char>) -> bool {
    exists|i: int| 0 <= i < tracks.len() && (#[trigger] tracks[i]).bone@ == name
}

/// The index of the track of the bone `name`.
pub open spec fn index_of(tracks: Seq<Track>, name: Seq<char>) -> int {
    choose|i: int| 0 <= i < tracks.len() && (#[trigger] tracks[i]).bone@ == name
}

/// The names of the bones of a run of tracks, in their order.
pub open spec fn names_of(tracks: Seq<Track>) -> Seq<Seq<char>> {
    Seq::new(tracks.len(), |i: int| tracks[i].bone@)
}

/// The keyframes of each bone that has a track.
pub open spec fn tracks_map(tracks: Seq<Track>) -> Map<Seq<char>, Seq<Keyframe>> {
    Map::new(
        |name: Seq<char>| names(tracks, name),
        |name: Seq<char>| tracks[index_of(tracks, name)].keys@,
    )
}

/// The keyframes that `tracks` holds for the bone `name`; none where the
/// bone has no track.
pub open spec fn track_of(tracks: Map<Seq<char>, Seq<Keyframe>>, name: Seq<char>) -> Seq<
    Keyframe,
> {
    if tracks.dom().contains(name) {
        tracks[name]
    } else {
        Seq::empty()
    }
}

impl View for Action {
    type V = Map<Seq<char>, Seq<Keyframe>>;

    closed spec fn view(&self) -> Map<Seq<char>, Seq<Keyframe>> {
        tracks_map(self.tracks@)
    }
}

impl Default for Action {
    fn default() -> (r: Action)
        ensures
            r@ == Map::<Seq<char>, Seq<Keyframe>>::empty(),
            r.order() == Seq::<Seq<char>>::empty(),
    {
        let r = Action { tracks: Vec::new() };
        proof {
            assert(r@ =~= Map::<Seq<char>, Seq<Keyframe>>::empty());
            assert(r.order() =~= Seq::<Seq<char>>::empty());
        }
        r
    }
}

impl Action {
    /// The bones that have a track, in the order in which they were first
    /// named.
    pub closed spec fn order(&self) -> Seq<Seq<char>> {
        names_of(self.tracks@)
    }

    #[verifier::type_invariant]
    spec fn well_formed(&self) -> bool {
        distinct_names(self.tracks@) && all_sorted(self.tracks@)
    }

    /// Sets one channel of the bone `bone` at the time `input`.
    ///
    /// The track of the bone, which is made where there is none, takes the
    /// channel as `merged` says; the other tracks stay as they are.
    pub fn insert_channel(&mut self, bone: String, input: u32, chan: Channel)
        ensures
            final(self)@ == old(self)@.insert(
                bone@,
                merged(track_of(old(self)@, bone@), input, chan),
            ),
            sorted(final(self)@[bone@]),
            final(self).order() == push_unique(old(self).order(), bone@),
    {
        proof {
            use_type_invariant(&*self);
        }
        let mut tracks = self.take();
        let ghost before = tracks@;
        let mut i: usize = 0;
        let mut found = false;
        while i < tracks.len() && !found
            invariant
                0 <= i <= tracks@.len(),
                tracks@ == before,
                forall|j: int| 0 <= j < i ==> (#[trigger] tracks@[j]).bone@ != bone@,
                found ==> i < tracks@.len() && tracks@[i as int].bone@ == bone@,
            decreases tracks@.len() - i + if found { 0int } else { 1int },
        {
            if crate::convert::strings::same(tracks[i].bone.as_str(), bone.as_str()) {
                found = true;
            } else {
                i = i + 1;
            }
        }
        if found {
            let mut track = tracks.remove(i);
            proof {
                assert(track == before[i as int]);
                assert(names(before, bone@));
                lemma_index_of(before, i as int);
            }
            insert_key(&mut track.keys, input, chan);
            tracks.insert(i, track);
            proof {
                let after = tracks@;
                assert(after.len() == before.len());
                assert forall|j: int| 0 <= j < after.len() implies (#[trigger] after[j]).bone@
                    == before[j].bone@ && (j != i ==> after[j] == before[j]) by {}
                assert(distinct_names(after)) by {
                    assert forall|a: int, b: int| 0 <= a < b < after.len() implies (
                    #[trigger] after[a]).bone@ != (#[trigger] after[b]).bone@ by {
                        assert(before[a].bone@ != before[b].bone@);
                    }
                }
                assert(all_sorted(after)) by {
                    assert forall|j: int| 0 <= j < after.len() implies sorted(
                        (#[trigger] after[j]).keys@,
                    ) by {
                        if j != i {
                            assert(sorted(before[j].keys@));
                        }
                    }
                }
                lemma_tracks_map_update(before, after, i as int);
                assert(names_of(after) =~= names_of(before));
                assert(names_of(before)[i as int] == bone@);
            }
        } else {
            let mut keys: Vec<Keyframe> = Vec::new();
            proof {
                assert(!names(before, bone@));
            }
            insert_key(&mut keys, input, chan);
            let ghost name = bone@;
            let ghost frames = keys@;
            tracks.push(Track { bone, keys });
            proof {
                let after = tracks@;
                assert(distinct_names(after)) by {
                    assert forall|a: int, b: int| 0 <= a < b < after.len() implies (
                    #[trigger] after[a]).bone@ != (#[trigger] after[b]).bone@ by {
                        if b < before.len() {
                            assert(before[a].bone@ != before[b].bone@);
                        } else {
                            assert(after[a] == before[a]);
                        }
                    }
                }
                assert(all_sorted(after)) by {
                    assert forall|j: int| 0 <= j < after.len() implies sorted(
                        (#[trigger] after[j]).keys@,
                    ) by {
                        if j < before.len() {
                            assert(after[j] == before[j]);
                        }
                    }
                }
                assert(after.drop_last() =~= before);
                lemma_tracks_map_push(before, after);
                assert(names_of(after) =~= names_of(before).push(name));
                assert(!names_of(before).contains(name)) by {
                    if names_of(before).contains(name) {
                        let j = choose|j: int|
                            0 <= j < names_of(before).len() && names_of(before)[j] == name;
                        assert(before[j].bone@ == name);
                    }
                }
            }
        }
        *self = Action { tracks };
    }

    /// Moves the tracks out and leaves the action empty.
    fn take(&mut self) -> (r: Vec<Track>)
        ensures
            r == old(self).tracks,
            final(self).tracks@.len() == 0,
    {
        let mut rest = Action { tracks: Vec::new() };
        core::mem::swap(self, &mut rest);
        rest.tracks
    }

    /// Whether no bone has a track.
    pub fn is_empty(&self) -> (r: bool)
        ensures
            r == (self@.dom() =~= Set::<Seq<char>>::empty()),
    {
        let r = self.tracks.len() == 0;
        proof {
            if !r {
                assert(names(self.tracks@, self.tracks@[0].bone@));
                assert(self@.dom().contains(self.tracks@[0].bone@));
            }
        }
        r
    }

    /// The tracks, in the order in which their bones were first named: no
    /// two of one bone, and each sorted by time.
    pub fn keyframes(&self) -> (r: &[Track])
        ensures
            tracks_map(r@) == self@,
            names_of(r@) == self.order(),
            distinct_names(r@),
            all_sorted(r@),
    {
        proof {
            use_type_invariant(self);
        }
        self.tracks.as_slice()
    }
}

/// A track that changes its keyframes changes the map at its name alone.
proof fn lemma_tracks_map_update(before: Seq<Track>, after: Seq<Track>, at: int)
    requires
        0 <= at < before.len(),
        after.len() == before.len(),
        distinct_names(before),
        forall|j: int|
            0 <= j < after.len() ==> (#[trigger] after[j]).bone@ == before[j].bone@ && (j != at
                ==> after[j] == before[j]),
    ensures
        tracks_map(after) == tracks_map(before).insert(before[at].bone@, after[at].keys@),
{
    let name = before[at].bone@;
    let want = tracks_map(before).insert(name, after[at].keys@);
    assert forall|k: Seq<char>| tracks_map(after).dom().contains(k) <==> want.dom().contains(
        k,
    ) by {
        if names(after, k) {
            let j = index_of(after, k);
            assert(before[j].bone@ == k);
        }
        if names(before, k) {
            let j = index_of(before, k);
            assert(after[j].bone@ == k);
        }
        assert(after[at].bone@ == name);
    }
    assert forall|k: Seq<char>| tracks_map(after).dom().contains(k) implies tracks_map(after)[k]
        == want[k] by {
        let j = index_of(after, k);
        assert(before[j].bone@ == k);
        lemma_index_of(before, j);
        if k != name {
            assert(j != at);
        } else {
            lemma_index_of(before, at);
        }
    }
    assert(tracks_map(after) =~= want);
}

/// A new track adds its name to the map.
proof fn lemma_tracks_map_push(before: Seq<Track>, after: Seq<Track>)
    requires
        after.len() == before.len() + 1,
        after.drop_last() == before,
        distinct_names(after),
    ensures
        tracks_map(after) == tracks_map(before).insert(after.last().bone@, after.last().keys@),
{
    let name = after.last().bone@;
    let want = tracks_map(before).insert(name, after.last().keys@);
    assert forall|k: Seq<char>| tracks_map(after).dom().contains(k) <==> want.dom().contains(
        k,
    ) by {
        if names(after, k) {
            let j = index_of(after, k);
            if j < before.len() {
                assert(before[j].bone@ == k);
            }
        }
        if names(before, k) {
            let j = index_of(before, k);
            assert(after[j].bone@ == k);
        }
        assert(after[after.len() - 1].bone@ == name);
    }
    assert forall|k: Seq<char>| tracks_map(after).dom().contains(k) implies tracks_map(after)[k]
        == want[k] by {
        let j = index_of(after, k);
        lemma_index_of(after, j);
        if k != name {
            assert(j < before.len());
            assert(before[j].bone@ == k);
            let b = index_of(before, k);
            assert(after[b].bone@ == k);
            lemma_index_of(after, b);
        } else {
            lemma_index_of(after, after.len() - 1);
        }
    }
    assert(tracks_map(after) =~= want);
}

/// Among distinct names, the index of a name is the one place where it is.
proof fn lemma_index_of(tracks: Seq<Track>, at: int)
    requires
        0 <= at < tracks.len(),
        distinct_names(tracks),
    ensures
        index_of(tracks, tracks[at].bone@) == at,
{
    let j = index_of(tracks, tracks[at].bone@);
    assert(0 <= j < tracks.len() && tracks[j].bone@ == tracks[at].bone@);
    if j < at {
        assert(tracks[j].bone@ != tracks[at].bone@);
    }
    if at < j {
        assert(tracks[at].bone@ != tracks[j].bone@);
    }
}

} // verus!
