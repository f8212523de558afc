//! Bone skeletons: a flat list of bones in which every parent comes before
//! its children.

use vstd::prelude::*;

verus! {

/// The largest number of bones that a skeleton can hold.
pub const MAX_BONES: usize = 65535;

/// One bone: its name, its position and rotation (a quaternion) by their
/// bits, and the index of its parent, if it has one.
#[derive(Debug)]
pub struct Bone {
    pub name: String,
    pub pos: [u32; 3],
    pub rot: [u32; 4],
    pub parent: Option<u16>,
}

/// What a bone holds, the name by its characters.
pub struct BoneModel {
    pub name: Seq<char>,
    pub pos: [u32; 3],
    pub rot: [u32; 4],
    pub parent: Option<u16>,
}

impl View for Bone {
    type V = BoneModel;

    open spec fn view(&self) -> BoneModel {
        BoneModel { name: self.name@, pos: self.pos, rot: self.rot, parent: self.parent }
    }
}

/// The models of a sequence of bones.
pub open spec fn models(bones: Seq<Bone>) -> Seq<BoneModel> {
    Seq::new(bones.len(), |i: int| bones[i]@)
}

/// Every bone that has a parent stands after it.
pub open spec fn parents_precede(bones: Seq<BoneModel>) -> bool {
    forall|i: int|
        0 <= i < bones.len() ==> match (#[trigger] bones[i]).parent {
            Some(p) => p < i,
            None => true,
        }
}

/// The index that a name stands for: that of the last bone so named.
pub open spec fn lookup(bones: Seq<BoneModel>, name: Seq<char>) -> Option<u16>
    decreases bones.len(),
{
    if bones.len() == 0 {
        None
    } else if bones.last().name == name {
        Some((bones.len() - 1) as u16)
    } else {
        lookup(bones.drop_last(), name)
    }
}

/// A name is looked up to the index of a bone that bears it.
pub proof fn lemma_lookup_finds(bones: Seq<BoneModel>, name: Seq<char>)
    requires
        bones.len() <= MAX_BONES,
    ensures
        match lookup(bones, name) {
            Some(i) => i < bones.len() && bones[i as int].name == name,
            None => forall|j: int| 0 <= j < bones.len() ==> bones[j].name != name,
        },
    decreases bones.len(),
{
    if bones.len() > 0 && bones.last().name != name {
        lemma_lookup_finds(bones.drop_last(), name);
        match lookup(bones, name) {
            Some(i) => {
                assert(bones.drop_last()[i as int] == bones[i as int]);
            },
            None => {
                assert forall|j: int| 0 <= j < bones.len() implies bones[j].name != name by {
                    if j < bones.len() - 1 {
                        assert(bones.drop_last()[j] == bones[j]);
                    }
                }
            },
        }
    }
}

/// The bones of one hierarchy, parents first.
pub struct Skeleton {
    bones: Vec<Bone>,
}

/// A skeleton would need more bones than a 16-bit index can tell apart.
#[derive(Clone, Copy, Debug)]
pub struct ToManyBones;

impl View for Skeleton {
    type V = Seq<BoneModel>;

    closed spec fn view(&self) -> Seq<BoneModel> {
        models(self.bones@)
    }
}

impl Default for Skeleton {
    fn default() -> (r: Skeleton)
        ensures
            r@ == Seq::<BoneModel>::empty(),
    {
        let r = Skeleton { bones: Vec::new() };
        proof {
            assert(r@ =~= Seq::<BoneModel>::empty());
        }
        r
    }
}

impl Skeleton {
    #[verifier::type_invariant]
    spec fn well_formed(&self) -> bool {
        self.bones@.len() <= MAX_BONES && parents_precede(models(self.bones@))
    }

    /// Adds a bone at the end, unless the skeleton is full.
    ///
    /// The parent of the bone, if it has one, must be in the skeleton already.
    pub fn push(&mut self, bone: Bone) -> (r: Result<(), ToManyBones>)
        requires
            match bone.parent {
                Some(p) => p < old(self)@.len(),
                None => true,
            },
        ensures
            r is Err <==> old(self)@.len() >= MAX_BONES,
            match r {
                Ok(_) => final(self)@ == old(self)@.push(bone@),
                Err(_) => final(self)@ == old(self)@,
            },
            final(self)@.len() <= MAX_BONES,
            parents_precede(final(self)@),
    {
        proof {
            use_type_invariant(&*self);
        }
        if self.bones.len() >= MAX_BONES {
            return Err(ToManyBones);
        }
        let ghost model = bone@;
        let mut bones = self.take();
        bones.push(bone);
        proof {
            assert(models(bones@) =~= models(old(self).bones@).push(model));
        }
        *self = Skeleton { bones };
        Ok(())
    }

    /// Moves the bones out and leaves the skeleton empty.
    fn take(&mut self) -> (r: Vec<Bone>)
        ensures
            r == old(self).bones,
            final(self).bones@.len() == 0,
    {
        let mut rest = Skeleton { bones: Vec::new() };
        core::mem::swap(self, &mut rest);
        rest.bones
    }

    /// Whether the skeleton holds no bone.
    pub fn is_empty(&self) -> (r: bool)
        ensures
            r == (self@.len() == 0),
    {
        self.bones.len() == 0
    }

    /// The index of the last bone that bears `name`.
    pub fn get(&self, name: &str) -> (r: Option<u16>)
        ensures
            r == lookup(self@, name@),
            match r {
                Some(i) => i < self@.len() && self@[i as int].name == name@,
                None => forall|j: int| 0 <= j < self@.len() ==> self@[j].name != name@,
            },
    {
        proof {
            use_type_invariant(self);
            lemma_lookup_finds(self@, name@);
        }
        let mut i: usize = self.bones.len();
        proof {
            assert(self@.take(i as int) =~= self@);
        }
        while i > 0
            invariant
                0 <= i <= self.bones@.len(),
                self.bones@.len() <= MAX_BONES,
                lookup(self@, name@) == lookup(self@.take(i as int), name@),
            decreases i,
        {
            proof {
                assert(self@.take(i as int).drop_last() =~= self@.take(i - 1));
            }
            if crate::convert::strings::same(self.bones[i - 1].name.as_str(), name) {
                return Some((i - 1) as u16);
            }
            i = i - 1;
        }
        None
    }

    /// The bones, in order.
    pub fn bones(&self) -> (r: &[Bone])
        ensures
            models(r@) == self@,
            r@.len() <= MAX_BONES,
            parents_precede(self@),
    {
        proof {
            use_type_invariant(self);
        }
        self.bones.as_slice()
    }

    /// The number of bones.
    pub fn len(&self) -> (r: usize)
        ensures
            r == self@.len(),
            r <= MAX_BONES,
    {
        proof {
            use_type_invariant(self);
        }
        self.bones.len()
    }
}

} // verus!
