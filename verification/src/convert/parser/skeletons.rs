//! From the node forest to skeletons.
//!
//! Each tree of the forest is walked depth first, a node before the nodes
//! below it, and every joint met on the way becomes a bone. A bone refers to
//! its parent by the name of the node right above it; a name that no bone
//! bears yet makes the bone a root.

use super::{Element, Error, ErrorModel, Value};
use crate::convert::format::document::{lemma_node_children, views, Document, Node, NodeModel};
use crate::convert::numeric::{
    decompose, decomposed, position, position_of, pure_numerics, rotation, rotation_of, Numerics,
};
use crate::convert::skeleton::{
    lemma_lookup_finds, lookup, parents_precede, Bone, BoneModel, Skeleton, ToManyBones,
    MAX_BONES,
};
use crate::convert::strings::same;
use vstd::prelude::*;

verus! {

/// The sixteen numbers of a matrix as the document gives them: column
/// after column.
pub open spec fn matrix_of(mat: Seq<u32>) -> [u32; 16] {
    [
        mat[0],
        mat[1],
        mat[2],
        mat[3],
        mat[4],
        mat[5],
        mat[6],
        mat[7],
        mat[8],
        mat[9],
        mat[10],
        mat[11],
        mat[12],
        mat[13],
        mat[14],
        mat[15],
    ]
}

/// The index of the parent that a bone right below `parent` gets.
pub open spec fn parent_index(bones: Seq<BoneModel>, parent: Option<Seq<char>>) -> Option<u16> {
    match parent {
        Some(name) => lookup(bones, name),
        None => None,
    }
}

/// Whether a node is a joint whose matrix cannot be split into translation
/// and rotation. Such a joint gives no bone.
pub open spec fn degenerate<N: Numerics>(n: &N, node: NodeModel) -> bool {
    &&& node.ty != "NODE"@
    &&& node.ty == "JOINT"@
    &&& node.mat.len() == 16
    &&& decomposed(n, matrix_of(node.mat)) is None
}

/// The bones after the node itself has been looked at: a plain node adds
/// nothing, a joint adds its bone unless its matrix cannot be split, and
/// any other type is refused.
pub open spec fn entered<N: Numerics>(
    n: &N,
    node: NodeModel,
    parent: Option<Seq<char>>,
    bones: Seq<BoneModel>,
) -> Result<Seq<BoneModel>, ErrorModel> {
    if node.ty == "NODE"@ {
        Ok(bones)
    } else if node.ty == "JOINT"@ {
        if node.mat.len() != 16 {
            Err(ErrorModel::MatSize)
        } else {
            match decomposed(n, matrix_of(node.mat)) {
                None => Ok(bones),
                Some(pose) => if bones.len() >= MAX_BONES {
                    Err(ErrorModel::ToManyBones)
                } else {
                    Ok(
                        bones.push(
                            BoneModel {
                                name: node.name,
                                pos: position_of(n, pose.position),
                                rot: rotation_of(n, pose.rotation),
                                parent: parent_index(bones, parent),
                            },
                        ),
                    )
                },
            }
        }
    } else {
        Err(ErrorModel::UndefinedNode(node.ty))
    }
}

/// The bones after the walk through `node` and all below it.
pub open spec fn visited<N: Numerics>(
    n: &N,
    node: NodeModel,
    parent: Option<Seq<char>>,
    bones: Seq<BoneModel>,
) -> Result<Seq<BoneModel>, ErrorModel>
    decreases node, node.children.len() + 1,
{
    match entered(n, node, parent, bones) {
        Ok(own) => visited_children(n, node, node.children.len(), own),
        Err(e) => Err(e),
    }
}

/// The bones after the walk through the first `count` children of `node`.
pub open spec fn visited_children<N: Numerics>(
    n: &N,
    node: NodeModel,
    count: nat,
    bones: Seq<BoneModel>,
) -> Result<Seq<BoneModel>, ErrorModel>
    decreases node, count,
{
    if count == 0 || count > node.children.len() {
        Ok(bones)
    } else {
        match visited_children(n, node, (count - 1) as nat, bones) {
            Ok(before) => visited(n, node.children[count - 1], Some(node.name), before),
            Err(e) => Err(e),
        }
    }
}

/// A joint whose matrix cannot be split gives no bone, and the walk goes on
/// through its children as if it had.
pub proof fn lemma_degenerate_joint_is_skipped<N: Numerics>(
    n: &N,
    node: NodeModel,
    parent: Option<Seq<char>>,
    bones: Seq<BoneModel>,
)
    requires
        degenerate(n, node),
    ensures
        entered(n, node, parent, bones) == Ok::<Seq<BoneModel>, ErrorModel>(bones),
        visited(n, node, parent, bones) == visited_children(
            n,
            node,
            node.children.len(),
            bones,
        ),
{
}

/// The walk keeps the bones that were there, keeps every parent before its
/// children, and never holds more than `MAX_BONES`.
pub proof fn lemma_visited_parents_precede<N: Numerics>(
    n: &N,
    node: NodeModel,
    parent: Option<Seq<char>>,
    bones: Seq<BoneModel>,
)
    requires
        bones.len() <= MAX_BONES,
        parents_precede(bones),
        visited(n, node, parent, bones) is Ok,
    ensures
        parents_precede(visited(n, node, parent, bones)->Ok_0),
        visited(n, node, parent, bones)->Ok_0.len() <= MAX_BONES,
        bones.len() <= visited(n, node, parent, bones)->Ok_0.len(),
    decreases node, node.children.len() + 1,
{
    let own = entered(n, node, parent, bones)->Ok_0;
    lemma_entered_parents_precede(n, node, parent, bones);
    lemma_children_parents_precede(n, node, node.children.len(), own);
}

/// The bone of the node itself comes after its parent.
pub proof fn lemma_entered_parents_precede<N: Numerics>(
    n: &N,
    node: NodeModel,
    parent: Option<Seq<char>>,
    bones: Seq<BoneModel>,
)
    requires
        bones.len() <= MAX_BONES,
        parents_precede(bones),
        entered(n, node, parent, bones) is Ok,
    ensures
        parents_precede(entered(n, node, parent, bones)->Ok_0),
        entered(n, node, parent, bones)->Ok_0.len() <= MAX_BONES,
        bones.len() <= entered(n, node, parent, bones)->Ok_0.len(),
{
    let own = entered(n, node, parent, bones)->Ok_0;
    if own != bones {
        match parent {
            Some(name) => {
                lemma_lookup_finds(bones, name);
            },
            None => {},
        }
        assert forall|i: int| 0 <= i < own.len() implies match (#[trigger] own[i]).parent {
            Some(p) => p < i,
            None => true,
        } by {
            if i < bones.len() {
                assert(own[i] == bones[i]);
            }
        }
    }
}

/// As `lemma_visited_parents_precede`, for the first `count` children.
pub proof fn lemma_children_parents_precede<N: Numerics>(
    n: &N,
    node: NodeModel,
    count: nat,
    bones: Seq<BoneModel>,
)
    requires
        bones.len() <= MAX_BONES,
        parents_precede(bones),
        visited_children(n, node, count, bones) is Ok,
    ensures
        parents_precede(visited_children(n, node, count, bones)->Ok_0),
        visited_children(n, node, count, bones)->Ok_0.len() <= MAX_BONES,
        bones.len() <= visited_children(n, node, count, bones)->Ok_0.len(),
    decreases node, count,
{
    if count == 0 || count > node.children.len() {
    } else {
        lemma_children_parents_precede(n, node, (count - 1) as nat, bones);
        let before = visited_children(n, node, (count - 1) as nat, bones)->Ok_0;
        lemma_visited_parents_precede(n, node.children[count - 1], Some(node.name), before);
    }
}

/// Walks through `node` and all below it.
pub fn visit_node<N: Numerics>(node: &Node, parent: Option<&str>, sk: &mut Skeleton, n: &N) -> (r:
    Result<(), Error>)
    requires
        pure_numerics(n),
    ensures
        match visited(
            n,
            node@,
            match parent {
                Some(name) => Some(name@),
                None => None,
            },
            old(sk)@,
        ) {
            Ok(bones) => r is Ok && final(sk)@ == bones,
            Err(e) => r is Err && r->Err_0.is_model(e),
        },
    decreases node,
{
    let ghost above: Option<Seq<char>> = match parent {
        Some(name) => Some(name@),
        None => None,
    };
    let ghost start = sk@;
    enter_node(node, parent, sk, n)?;
    let ghost own = sk@;
    let mut i: usize = 0;
    proof {
        lemma_node_children(*node);
    }
    while i < node.children.len()
        invariant
            pure_numerics(n),
            0 <= i <= node.children@.len(),
            node@.children == views(node.children@),
            entered(n, node@, above, start) == Ok::<Seq<BoneModel>, ErrorModel>(own),
            above == (match parent {
                Some(name) => Some(name@),
                None => None,
            }),
            start == old(sk)@,
            visited_children(n, node@, i as nat, own) == Ok::<Seq<BoneModel>, ErrorModel>(sk@),
        decreases node.children@.len() - i,
    {
        let child = &node.children[i];
        proof {
            assert(node@.children[i as int] == child@);
        }
        match visit_node(child, Some(node.name.as_str()), sk, n) {
            Ok(()) => {},
            Err(e) => {
                proof {
                    assert(visited_children(n, node@, (i + 1) as nat, own) is Err);
                    lemma_children_fail(n, node@, i as nat + 1, own);
                }
                return Err(e);
            },
        }
        i = i + 1;
    }
    Ok(())
}

/// A failure among the first children is the failure of all of them.
proof fn lemma_children_fail<N: Numerics>(
    n: &N,
    node: NodeModel,
    count: nat,
    bones: Seq<BoneModel>,
)
    requires
        count <= node.children.len(),
        visited_children(n, node, count, bones) is Err,
    ensures
        visited_children(n, node, node.children.len(), bones) == visited_children(
            n,
            node,
            count,
            bones,
        ),
    decreases node.children.len() - count,
{
    if count < node.children.len() {
        lemma_children_fail(n, node, count + 1, bones);
    }
}

/// The sixteen numbers of a matrix as an array.
fn matrix_array(m: &Vec<u32>) -> (r: [u32; 16])
    requires
        m@.len() == 16,
    ensures
        r == matrix_of(m@),
{
    [
        m[0],
        m[1],
        m[2],
        m[3],
        m[4],
        m[5],
        m[6],
        m[7],
        m[8],
        m[9],
        m[10],
        m[11],
        m[12],
        m[13],
        m[14],
        m[15],
    ]
}

/// Tells whether a node is a joint that gives no bone because its matrix
/// cannot be split. The node itself is looked at, not the nodes below it.
pub fn is_degenerate<N: Numerics>(node: &Node, n: &N) -> (r: bool)
    requires
        pure_numerics(n),
    ensures
        r == degenerate(n, node@),
{
    if same(node.ty.as_str(), "NODE") || !same(node.ty.as_str(), "JOINT") || node.mat.len()
        != 16 {
        return false;
    }
    decompose(n, matrix_array(&node.mat)).is_none()
}

/// Looks at the node itself.
fn enter_node<N: Numerics>(node: &Node, parent: Option<&str>, sk: &mut Skeleton, n: &N) -> (r:
    Result<(), Error>)
    requires
        pure_numerics(n),
    ensures
        match entered(
            n,
            node@,
            match parent {
                Some(name) => Some(name@),
                None => None,
            },
            old(sk)@,
        ) {
            Ok(bones) => r is Ok && final(sk)@ == bones,
            Err(e) => r is Err && r->Err_0.is_model(e) && final(sk)@ == old(sk)@,
        },
{
    if same(node.ty.as_str(), "NODE") {
        return Ok(());
    }
    if !same(node.ty.as_str(), "JOINT") {
        return Err(Error::UndefinedNode(node.ty.clone()));
    }
    if node.mat.len() != 16 {
        return Err(Error::MatSize);
    }
    let matrix = matrix_array(&node.mat);
    let pose = match decompose(n, matrix) {
        Some(pose) => pose,
        None => {
            return Ok(());
        },
    };
    let above = match parent {
        Some(name) => sk.get(name),
        None => None,
    };
    let bone = Bone {
        name: node.name.clone(),
        pos: position(n, pose.position),
        rot: rotation(n, pose.rotation),
        parent: above,
    };
    match sk.push(bone) {
        Ok(()) => Ok(()),
        Err(e) => Err(Error::ToManyBones(e)),
    }
}

/// The skeletons of a forest, each with the name of the tree that it comes
/// from; a tree without bones gives none. The first tree that fails makes
/// the whole fail.
pub open spec fn skeletons_of<N: Numerics>(n: &N, nodes: Seq<NodeModel>) -> Result<
    Seq<(Seq<char>, Seq<BoneModel>)>,
    ErrorModel,
>
    decreases nodes.len(),
{
    if nodes.len() == 0 {
        Ok(Seq::empty())
    } else {
        match skeletons_of(n, nodes.drop_last()) {
            Err(e) => Err(e),
            Ok(head) => match visited(n, nodes.last(), None, Seq::empty()) {
                Err(e) => Err(e),
                Ok(bones) => if bones.len() == 0 {
                    Ok(head)
                } else {
                    Ok(head.push((nodes.last().name, bones)))
                },
            },
        }
    }
}

/// `el` is the skeleton `bones` under the name `name`.
pub open spec fn is_skeleton(el: Element, named: (Seq<char>, Seq<BoneModel>)) -> bool {
    &&& el.name@ == named.0
    &&& el.val is Skeleton
    &&& el.val->Skeleton_0@ == named.1
    &&& parents_precede(named.1)
}

/// `r` is what the forest `nodes` gives: its skeletons, each under the name
/// of its tree and with every parent before its children, or the first
/// failure among the trees.
pub open spec fn skeletons_result<N: Numerics>(
    n: &N,
    nodes: Seq<NodeModel>,
    r: Result<Vec<Element>, Error>,
) -> bool {
    match skeletons_of(n, nodes) {
        Ok(list) => {
            &&& r is Ok
            &&& r->Ok_0@.len() == list.len()
            &&& forall|i: int| 0 <= i < list.len() ==> is_skeleton(#[trigger] r->Ok_0@[i], list[i])
        },
        Err(e) => r is Err && r->Err_0.is_model(e),
    }
}

/// Assembles the skeletons of the node forest of a document.
pub fn parse_skeletons<N: Numerics>(doc: &Document, n: &N) -> (r: Result<Vec<Element>, Error>)
    requires
        pure_numerics(n),
    ensures
        skeletons_result(n, doc@.nodes, r),
{
    let mut out: Vec<Element> = Vec::new();
    let mut i: usize = 0;
    let ghost all = doc@.nodes;
    proof {
        assert(all.take(0) =~= Seq::empty());
    }
    while i < doc.nodes.len()
        invariant
            pure_numerics(n),
            0 <= i <= doc.nodes@.len(),
            all == views(doc.nodes@),
            skeletons_of(n, all.take(i as int)) is Ok,
            out@.len() == skeletons_of(n, all.take(i as int))->Ok_0.len(),
            forall|j: int|
                0 <= j < out@.len() ==> is_skeleton(
                    #[trigger] out@[j],
                    skeletons_of(n, all.take(i as int))->Ok_0[j],
                ),
        decreases doc.nodes@.len() - i,
    {
        proof {
            assert(all.take(i + 1).drop_last() =~= all.take(i as int));
            assert(all.take(i + 1).last() == doc.nodes@[i as int]@);
        }
        let node = &doc.nodes[i];
        let mut sk = Skeleton::default();
        match visit_node(node, None, &mut sk, n) {
            Ok(()) => {},
            Err(e) => {
                proof {
                    lemma_skeletons_fail(n, all, i + 1);
                }
                return Err(e);
            },
        }
        if !sk.is_empty() {
            let ghost head = skeletons_of(n, all.take(i as int))->Ok_0;
            let ghost bones = sk@;
            proof {
                lemma_visited_parents_precede(n, node@, None, Seq::empty());
            }
            out.push(Element { name: node.name.clone(), val: Value::Skeleton(sk) });
            proof {
                assert forall|j: int| 0 <= j < out@.len() implies is_skeleton(
                    #[trigger] out@[j],
                    head.push((node@.name, bones))[j],
                ) by {
                    if j < head.len() {
                        assert(is_skeleton(out@[j], head[j]));
                    }
                }
            }
        }
        i = i + 1;
    }
    proof {
        assert(all.take(i as int) =~= all);
    }
    Ok(out)
}

/// A failure among the first trees is the failure of the forest.
proof fn lemma_skeletons_fail<N: Numerics>(n: &N, nodes: Seq<NodeModel>, k: int)
    requires
        0 <= k <= nodes.len(),
        skeletons_of(n, nodes.take(k)) is Err,
    ensures
        skeletons_of(n, nodes) == skeletons_of(n, nodes.take(k)),
    decreases nodes.len() - k,
{
    if k == nodes.len() {
        assert(nodes.take(k) =~= nodes);
    } else {
        assert(nodes.take(k + 1).drop_last() =~= nodes.take(k));
        lemma_skeletons_fail(n, nodes, k + 1);
    }
}

} // verus!
