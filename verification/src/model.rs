//! The trie as a mathematical value, and what a write does to it.
//!
//! The executable nodes carry commitments and caches; what they store is a
//! [`NodeModel`]. The contracts of the executable trie are stated over the
//! functions of this module, and the laws at its end hold of every
//! well-formed trie.
use vstd::prelude::*;

verus! {

/// What a leaf stores: its stem and its 256 value slots.
pub struct LeafModel {
    pub stem: Seq<u8>,
    pub values: Seq<Option<Seq<u8>>>,
}

/// What a node stores. A branch is the sequence of its 256 children.
pub enum NodeModel {
    Empty,
    Leaf(LeafModel),
    Branch(Seq<NodeModel>),
}

/// The children of a branch that holds nothing.
pub open spec fn empty_branch() -> Seq<NodeModel> {
    Seq::new(256, |i: int| NodeModel::Empty)
}

/// The value slots of a leaf that holds nothing.
pub open spec fn empty_values() -> Seq<Option<Seq<u8>>> {
    Seq::new(256, |i: int| None)
}

/// The value slots after `writes` went to them: a written suffix holds the
/// written value, every other slot is as before.
pub open spec fn apply_writes(values: Seq<Option<Seq<u8>>>, writes: Map<u8, Seq<u8>>) -> Seq<
    Option<Seq<u8>>,
> {
    Seq::new(
        256,
        |i: int|
            if writes.contains_key(i as u8) {
                Some(writes[i as u8])
            } else {
                values[i]
            },
    )
}

/// The writes that set one suffix.
pub open spec fn single_write(suffix: u8, value: Seq<u8>) -> Map<u8, Seq<u8>> {
    Map::empty().insert(suffix, value)
}

/// The leaf has a stem of 31 bytes and 256 slots, and every value in a slot is 32 bytes long.
pub open spec fn leaf_wf(leaf: LeafModel) -> bool {
    &&& leaf.stem.len() == 31
    &&& leaf.values.len() == 256
    &&& forall|i: int|
        0 <= i < 256 ==> (#[trigger] leaf.values[i] matches Some(v) ==> v.len() == 32)
}

/// Every value written is 32 bytes long.
pub open spec fn writes_wf(writes: Map<u8, Seq<u8>>) -> bool {
    forall|k: u8| writes.contains_key(k) ==> (#[trigger] writes[k]).len() == 32
}

/// Well-formedness of the children of a branch that is reached from the root
/// by the stem bytes `path`: the branch is no deeper than 30, it has 256
/// children, every leaf below it has a stem that continues the path to its
/// slot, and every branch below it is well-formed in turn.
pub open spec fn wf(children: Seq<NodeModel>, path: Seq<u8>) -> bool
    decreases 31 - path.len(),
{
    if path.len() > 30 {
        false
    } else {
        &&& children.len() == 256
        &&& forall|i: int|
            0 <= i < 256 ==> match #[trigger] children[i] {
                NodeModel::Empty => true,
                NodeModel::Leaf(leaf) => leaf_wf(leaf) && leaf.stem.subrange(0, path.len() as int + 1)
                    == path.push(i as u8),
                NodeModel::Branch(below) => wf(below, path.push(i as u8)),
            }
    }
}

/// The leaf for `stem` below a branch at `depth`, if there is one.
pub open spec fn find_leaf(children: Seq<NodeModel>, depth: int, stem: Seq<u8>) -> Option<
    LeafModel,
>
    decreases 31 - depth,
{
    if depth < 0 || depth >= 31 {
        None
    } else {
        match children[stem[depth] as int] {
            NodeModel::Empty => None,
            NodeModel::Leaf(leaf) => if leaf.stem == stem {
                Some(leaf)
            } else {
                None
            },
            NodeModel::Branch(below) => find_leaf(below, depth + 1, stem),
        }
    }
}

/// The value slots stored for `stem`: those of its leaf, or 256 empty slots.
pub open spec fn stem_values(children: Seq<NodeModel>, depth: int, stem: Seq<u8>) -> Seq<
    Option<Seq<u8>>,
> {
    match find_leaf(children, depth, stem) {
        Some(leaf) => leaf.values,
        None => empty_values(),
    }
}

/// The value stored under a 32-byte key in the trie with root children `root`.
pub open spec fn lookup(root: Seq<NodeModel>, key: Seq<u8>) -> Option<Seq<u8>> {
    stem_values(root, 0, key.subrange(0, 31))[key[31] as int]
}

/// The children of a branch at `depth` after `writes` went to `stem`.
pub open spec fn write_stem(
    children: Seq<NodeModel>,
    depth: int,
    stem: Seq<u8>,
    writes: Map<u8, Seq<u8>>,
) -> Seq<NodeModel>
    decreases 31 - depth, 1nat,
{
    if depth < 0 || depth >= 31 {
        children
    } else {
        let index = stem[depth] as int;
        children.update(index, written_child(children[index], depth, stem, writes))
    }
}

/// What the child in the slot of `stem` becomes when `writes` go to `stem`
/// in a branch at `depth`:
/// an empty slot becomes a leaf; a leaf of the same stem takes the writes; a
/// leaf of another stem moves one level down into a new branch, which then
/// takes the writes; a branch takes them itself.
pub open spec fn written_child(
    child: NodeModel,
    depth: int,
    stem: Seq<u8>,
    writes: Map<u8, Seq<u8>>,
) -> NodeModel
    decreases 31 - depth, 0nat,
{
    if depth < 0 || depth >= 31 {
        child
    } else {
        match child {
            NodeModel::Empty => NodeModel::Leaf(
                LeafModel { stem, values: apply_writes(empty_values(), writes) },
            ),
            NodeModel::Leaf(leaf) => if leaf.stem == stem {
                NodeModel::Leaf(LeafModel { stem, values: apply_writes(leaf.values, writes) })
            } else {
                NodeModel::Branch(write_stem(split_leaf(leaf, depth), depth + 1, stem, writes))
            },
            NodeModel::Branch(below) => NodeModel::Branch(
                write_stem(below, depth + 1, stem, writes),
            ),
        }
    }
}

/// The children of the new branch at `depth + 1` that takes the place of
/// `leaf`: `leaf` alone, in the slot of its next stem byte.
pub open spec fn split_leaf(leaf: LeafModel, depth: int) -> Seq<NodeModel> {
    empty_branch().update(leaf.stem[depth + 1] as int, NodeModel::Leaf(leaf))
}

/// The path of the branch that a write to `stem` creates below a branch at
/// `depth`, if it creates one: the first `depth + 1` bytes of the stem, where
/// `depth` is that of the branch whose slot held a leaf of another stem.
pub open spec fn created_branch(children: Seq<NodeModel>, depth: int, stem: Seq<u8>) -> Option<
    Seq<u8>,
>
    decreases 31 - depth,
{
    if depth < 0 || depth >= 31 {
        None
    } else {
        match children[stem[depth] as int] {
            NodeModel::Empty => None,
            NodeModel::Leaf(leaf) => if leaf.stem == stem {
                None
            } else {
                Some(stem.subrange(0, depth + 1))
            },
            NodeModel::Branch(below) => created_branch(below, depth + 1, stem),
        }
    }
}

/// A branch without children is well-formed at every path of up to 30 bytes.
pub proof fn lemma_empty_branch_wf(path: Seq<u8>)
    requires
        path.len() <= 30,
    ensures
        wf(empty_branch(), path),
{
}

/// A leaf that takes writes of 32-byte values stays well-formed.
pub proof fn lemma_apply_writes_wf(stem: Seq<u8>, values: Seq<Option<Seq<u8>>>, writes: Map<u8, Seq<u8>>)
    requires
        leaf_wf(LeafModel { stem, values }),
        writes_wf(writes),
    ensures
        leaf_wf(LeafModel { stem, values: apply_writes(values, writes) }),
{
    let after = apply_writes(values, writes);
    assert forall|i: int| 0 <= i < 256 implies (#[trigger] after[i] matches Some(v) ==> v.len()
        == 32) by {
        if writes.contains_key(i as u8) {
            assert(writes[i as u8].len() == 32);
        } else {
            assert(after[i] == values[i]);
        }
    }
}

/// A leaf whose stem continues `path` through slot `index`, and another stem
/// that does so too, differ only if the branch is above depth 30.
pub proof fn lemma_split_has_room(leaf_stem: Seq<u8>, stem: Seq<u8>, path: Seq<u8>, index: int)
    requires
        leaf_stem.len() == 31,
        stem.len() == 31,
        path.len() <= 30,
        0 <= index < 256,
        stem.subrange(0, path.len() as int) == path,
        stem[path.len() as int] == index,
        leaf_stem.subrange(0, path.len() as int + 1) == path.push(index as u8),
        leaf_stem != stem,
    ensures
        path.len() < 30,
{
    if path.len() == 30 {
        let left = leaf_stem.subrange(0, 31);
        let right = stem.subrange(0, 30);
        assert forall|k: int| 0 <= k < 31 implies leaf_stem[k] == stem[k] by {
            assert(left[k] == path.push(index as u8)[k]);
            if k < 30 {
                assert(right[k] == path[k]);
            }
        }
        assert(leaf_stem =~= stem);
    }
}

/// The branch that takes the place of a leaf is well-formed one level down.
pub proof fn lemma_split_leaf_wf(leaf: LeafModel, path: Seq<u8>, index: int)
    requires
        leaf_wf(leaf),
        path.len() < 30,
        0 <= index < 256,
        leaf.stem.subrange(0, path.len() as int + 1) == path.push(index as u8),
    ensures
        wf(split_leaf(leaf, path.len() as int), path.push(index as u8)),
{
    let below = path.push(index as u8);
    let next = leaf.stem[path.len() as int + 1] as int;
    let children = split_leaf(leaf, path.len() as int);
    assert forall|i: int| 0 <= i < 256 implies match #[trigger] children[i] {
        NodeModel::Empty => true,
        NodeModel::Leaf(l) => leaf_wf(l) && l.stem.subrange(0, below.len() as int + 1) == below.push(
            i as u8,
        ),
        NodeModel::Branch(b) => wf(b, below.push(i as u8)),
    } by {
        if i == next {
            assert(children[i] == NodeModel::Leaf(leaf));
            let left = leaf.stem.subrange(0, below.len() as int + 1);
            let shorter = leaf.stem.subrange(0, path.len() as int + 1);
            let right = below.push(i as u8);
            assert forall|k: int| 0 <= k < left.len() implies left[k] == right[k] by {
                if k < below.len() {
                    assert(shorter[k] == below[k]);
                }
            }
            assert(left =~= right);
        } else {
            assert(children[i] == NodeModel::Empty);
        }
    }
}

/// A stem that continues `path` also continues the path to its own slot.
pub proof fn lemma_stem_extends_path(stem: Seq<u8>, path: Seq<u8>)
    requires
        stem.len() == 31,
        path.len() <= 30,
        stem.subrange(0, path.len() as int) == path,
    ensures
        stem.subrange(0, path.len() as int + 1) == path.push(stem[path.len() as int]),
{
    let left = stem.subrange(0, path.len() as int + 1);
    let shorter = stem.subrange(0, path.len() as int);
    let right = path.push(stem[path.len() as int]);
    assert forall|k: int| 0 <= k < left.len() implies left[k] == right[k] by {
        if k < path.len() {
            assert(shorter[k] == path[k]);
        }
    }
    assert(left =~= right);
}

/// A write keeps a well-formed trie well-formed.
pub proof fn lemma_write_keeps_wf(
    children: Seq<NodeModel>,
    path: Seq<u8>,
    stem: Seq<u8>,
    writes: Map<u8, Seq<u8>>,
)
    requires
        wf(children, path),
        stem.len() == 31,
        stem.subrange(0, path.len() as int) == path,
        writes_wf(writes),
    ensures
        wf(write_stem(children, path.len() as int, stem, writes), path),
    decreases 31 - path.len(),
{
    let depth = path.len() as int;
    let index = stem[depth] as int;
    let below = path.push(index as u8);
    let after = write_stem(children, depth, stem, writes);
    lemma_stem_extends_path(stem, path);
    assert(children[index] == children[index]);
    match children[index] {
        NodeModel::Empty => {
            lemma_apply_writes_wf(stem, empty_values(), writes);
        },
        NodeModel::Leaf(leaf) => {
            if leaf.stem == stem {
                lemma_apply_writes_wf(stem, leaf.values, writes);
            } else {
                lemma_split_has_room(leaf.stem, stem, path, index);
                lemma_split_leaf_wf(leaf, path, index);
                lemma_write_keeps_wf(split_leaf(leaf, depth), below, stem, writes);
            }
        },
        NodeModel::Branch(b) => {
            lemma_write_keeps_wf(b, below, stem, writes);
        },
    }
    assert forall|i: int| 0 <= i < 256 implies match #[trigger] after[i] {
        NodeModel::Empty => true,
        NodeModel::Leaf(l) => leaf_wf(l) && l.stem.subrange(0, path.len() as int + 1) == path.push(
            i as u8,
        ),
        NodeModel::Branch(b) => wf(b, path.push(i as u8)),
    } by {
        if i != index {
            assert(after[i] == children[i]);
        }
    }
}

/// After a write to `stem`, the leaf of `stem` holds the old slots with the
/// writes applied, and the leaf of every other stem is as before.
pub proof fn lemma_find_after_write(
    children: Seq<NodeModel>,
    path: Seq<u8>,
    stem: Seq<u8>,
    writes: Map<u8, Seq<u8>>,
    other: Seq<u8>,
)
    requires
        wf(children, path),
        stem.len() == 31,
        other.len() == 31,
        stem.subrange(0, path.len() as int) == path,
    ensures
        find_leaf(write_stem(children, path.len() as int, stem, writes), path.len() as int, other)
            == if other == stem {
            Some(
                LeafModel {
                    stem,
                    values: apply_writes(stem_values(children, path.len() as int, stem), writes),
                },
            )
        } else {
            find_leaf(children, path.len() as int, other)
        },
    decreases 31 - path.len(),
{
    let depth = path.len() as int;
    let index = stem[depth] as int;
    let below = path.push(index as u8);
    let after = write_stem(children, depth, stem, writes);
    lemma_stem_extends_path(stem, path);
    assert(children[index] == children[index]);
    if other[depth] as int != index {
        assert(after[other[depth] as int] == children[other[depth] as int]);
    } else {
        match children[index] {
            NodeModel::Empty => {},
            NodeModel::Leaf(leaf) => {
                if leaf.stem != stem {
                    lemma_split_has_room(leaf.stem, stem, path, index);
                    lemma_split_leaf_wf(leaf, path, index);
                    let moved = split_leaf(leaf, depth);
                    lemma_find_after_write(moved, below, stem, writes, other);
                    assert(moved[leaf.stem[depth + 1] as int] == NodeModel::Leaf(leaf));
                    if stem[depth + 1] != leaf.stem[depth + 1] {
                        assert(moved[stem[depth + 1] as int] == NodeModel::Empty);
                    }
                    if other[depth + 1] != leaf.stem[depth + 1] {
                        assert(moved[other[depth + 1] as int] == NodeModel::Empty);
                    }
                }
            },
            NodeModel::Branch(b) => {
                lemma_find_after_write(b, below, stem, writes, other);
            },
        }
    }
}

/// Reading a key after a write: a written suffix of the written stem holds
/// the written value, every other key holds what it held.
pub proof fn lemma_lookup_after_write(
    root: Seq<NodeModel>,
    stem: Seq<u8>,
    writes: Map<u8, Seq<u8>>,
    key: Seq<u8>,
)
    requires
        wf(root, Seq::empty()),
        stem.len() == 31,
        key.len() == 32,
    ensures
        lookup(write_stem(root, 0, stem, writes), key) == if key.subrange(0, 31) == stem
            && writes.contains_key(key[31]) {
            Some(writes[key[31]])
        } else {
            lookup(root, key)
        },
{
    assert(stem.subrange(0, 0) =~= Seq::<u8>::empty());
    lemma_find_after_write(root, Seq::empty(), stem, writes, key.subrange(0, 31));
}

/// Applying the same writes a second time changes nothing.
pub proof fn lemma_apply_writes_twice(values: Seq<Option<Seq<u8>>>, writes: Map<u8, Seq<u8>>)
    ensures
        apply_writes(apply_writes(values, writes), writes) == apply_writes(values, writes),
{
    assert(apply_writes(apply_writes(values, writes), writes) =~= apply_writes(values, writes));
}

/// Writing the same values to the same stem a second time changes nothing.
pub proof fn lemma_write_idempotent(
    children: Seq<NodeModel>,
    path: Seq<u8>,
    stem: Seq<u8>,
    writes: Map<u8, Seq<u8>>,
)
    requires
        wf(children, path),
        stem.len() == 31,
        stem.subrange(0, path.len() as int) == path,
    ensures
        write_stem(
            write_stem(children, path.len() as int, stem, writes),
            path.len() as int,
            stem,
            writes,
        ) == write_stem(children, path.len() as int, stem, writes),
    decreases 31 - path.len(),
{
    let depth = path.len() as int;
    let index = stem[depth] as int;
    let below = path.push(index as u8);
    let once = write_stem(children, depth, stem, writes);
    let twice = write_stem(once, depth, stem, writes);
    lemma_stem_extends_path(stem, path);
    assert(children[index] == children[index]);
    assert(once[index] == written_child(children[index], depth, stem, writes));
    match children[index] {
        NodeModel::Empty => {
            lemma_apply_writes_twice(empty_values(), writes);
        },
        NodeModel::Leaf(leaf) => {
            if leaf.stem == stem {
                lemma_apply_writes_twice(leaf.values, writes);
            } else {
                lemma_split_has_room(leaf.stem, stem, path, index);
                lemma_split_leaf_wf(leaf, path, index);
                lemma_write_idempotent(split_leaf(leaf, depth), below, stem, writes);
            }
        },
        NodeModel::Branch(b) => {
            lemma_write_idempotent(b, below, stem, writes);
        },
    }
    assert(twice =~= once);
}

/// Writes to two different stems give the same trie in either order.
pub proof fn lemma_writes_commute(
    children: Seq<NodeModel>,
    path: Seq<u8>,
    first: Seq<u8>,
    first_writes: Map<u8, Seq<u8>>,
    second: Seq<u8>,
    second_writes: Map<u8, Seq<u8>>,
)
    requires
        wf(children, path),
        first.len() == 31,
        second.len() == 31,
        first != second,
        first.subrange(0, path.len() as int) == path,
        second.subrange(0, path.len() as int) == path,
        writes_wf(first_writes),
        writes_wf(second_writes),
    ensures
        write_stem(
            write_stem(children, path.len() as int, first, first_writes),
            path.len() as int,
            second,
            second_writes,
        ) == write_stem(
            write_stem(children, path.len() as int, second, second_writes),
            path.len() as int,
            first,
            first_writes,
        ),
    decreases 31 - path.len(), 1nat,
{
    let depth = path.len() as int;
    let i = first[depth] as int;
    let j = second[depth] as int;
    let one = write_stem(children, depth, first, first_writes);
    let one_two = write_stem(one, depth, second, second_writes);
    let two = write_stem(children, depth, second, second_writes);
    let two_one = write_stem(two, depth, first, first_writes);
    if i != j {
        assert(one[j] == children[j]);
        assert(two[i] == children[i]);
        assert(one_two =~= two_one);
    } else {
        assert(children[i] == children[i]);
        lemma_stem_extends_path(first, path);
        lemma_stem_extends_path(second, path);
        lemma_child_writes_commute(
            children[i],
            path,
            i,
            first,
            first_writes,
            second,
            second_writes,
        );
        assert(one_two =~= two_one);
    }
}

/// The step of `lemma_writes_commute` for the one child that both stems lead to.
proof fn lemma_child_writes_commute(
    child: NodeModel,
    path: Seq<u8>,
    index: int,
    first: Seq<u8>,
    first_writes: Map<u8, Seq<u8>>,
    second: Seq<u8>,
    second_writes: Map<u8, Seq<u8>>,
)
    requires
        path.len() <= 30,
        0 <= index < 256,
        match child {
            NodeModel::Empty => true,
            NodeModel::Leaf(leaf) => leaf_wf(leaf) && leaf.stem.subrange(
                0,
                path.len() as int + 1,
            ) == path.push(index as u8),
            NodeModel::Branch(below) => wf(below, path.push(index as u8)),
        },
        first.len() == 31,
        second.len() == 31,
        first != second,
        first.subrange(0, path.len() as int + 1) == path.push(index as u8),
        second.subrange(0, path.len() as int + 1) == path.push(index as u8),
        writes_wf(first_writes),
        writes_wf(second_writes),
    ensures
        written_child(
            written_child(child, path.len() as int, first, first_writes),
            path.len() as int,
            second,
            second_writes,
        ) == written_child(
            written_child(child, path.len() as int, second, second_writes),
            path.len() as int,
            first,
            first_writes,
        ),
    decreases 31 - path.len(), 0nat,
{
    let depth = path.len() as int;
    let below = path.push(index as u8);
    // two different stems that share the path through `index` leave room below
    if path.len() == 30 {
        let a = first.subrange(0, 31);
        let b = second.subrange(0, 31);
        assert forall|k: int| 0 <= k < 31 implies first[k] == second[k] by {
            assert(a[k] == b[k]);
        }
        assert(first =~= second);
    }
    assert(first.subrange(0, below.len() as int) =~= below);
    assert(second.subrange(0, below.len() as int) =~= below);
    lemma_empty_branch_wf(below);
    let nothing = empty_branch();
    match child {
        NodeModel::Empty => {
            let first_leaf = LeafModel {
                stem: first,
                values: apply_writes(empty_values(), first_writes),
            };
            let second_leaf = LeafModel {
                stem: second,
                values: apply_writes(empty_values(), second_writes),
            };
            assert(nothing[first[depth + 1] as int] == NodeModel::Empty);
            assert(nothing[second[depth + 1] as int] == NodeModel::Empty);
            assert(split_leaf(first_leaf, depth) =~= write_stem(
                nothing,
                depth + 1,
                first,
                first_writes,
            ));
            assert(split_leaf(second_leaf, depth) =~= write_stem(
                nothing,
                depth + 1,
                second,
                second_writes,
            ));
            lemma_writes_commute(nothing, below, first, first_writes, second, second_writes);
        },
        NodeModel::Leaf(leaf) => {
            lemma_split_leaf_wf(leaf, path, index);
            let moved = split_leaf(leaf, depth);
            assert(moved[leaf.stem[depth + 1] as int] == NodeModel::Leaf(leaf));
            lemma_writes_commute(moved, below, first, first_writes, second, second_writes);
            if leaf.stem == first {
                let written = LeafModel {
                    stem: first,
                    values: apply_writes(leaf.values, first_writes),
                };
                assert(split_leaf(written, depth) =~= write_stem(
                    moved,
                    depth + 1,
                    first,
                    first_writes,
                ));
            } else if leaf.stem == second {
                let written = LeafModel {
                    stem: second,
                    values: apply_writes(leaf.values, second_writes),
                };
                assert(split_leaf(written, depth) =~= write_stem(
                    moved,
                    depth + 1,
                    second,
                    second_writes,
                ));
            }
        },
        NodeModel::Branch(b) => {
            lemma_writes_commute(b, below, first, first_writes, second, second_writes);
        },
    }
}

/// Whether `path` leads from a branch with the given children to a branch.
pub open spec fn leads_to_branch(children: Seq<NodeModel>, path: Seq<u8>) -> bool
    decreases path.len(),
{
    if path.len() == 0 {
        true
    } else {
        children[path[0] as int] matches NodeModel::Branch(below) && leads_to_branch(
            below,
            path.drop_first(),
        )
    }
}

/// A write takes no branch away: where a path led to a branch before the
/// write, it leads to a branch after it.
pub proof fn lemma_branches_stay(
    children: Seq<NodeModel>,
    at: Seq<u8>,
    stem: Seq<u8>,
    writes: Map<u8, Seq<u8>>,
    path: Seq<u8>,
)
    requires
        wf(children, at),
        stem.len() == 31,
        stem.subrange(0, at.len() as int) == at,
        leads_to_branch(children, path),
    ensures
        leads_to_branch(write_stem(children, at.len() as int, stem, writes), path),
    decreases path.len(),
{
    if path.len() > 0 {
        let depth = at.len() as int;
        let index = stem[depth] as int;
        let after = write_stem(children, depth, stem, writes);
        let taken = path[0] as int;
        assert(children[taken] == children[taken]);
        if taken == index {
            match children[index] {
                NodeModel::Branch(below) => {
                    lemma_stem_extends_path(stem, at);
                    lemma_branches_stay(
                        below,
                        at.push(index as u8),
                        stem,
                        writes,
                        path.drop_first(),
                    );
                },
                _ => {},
            }
        } else {
            assert(after[taken] == children[taken]);
        }
    }
}

} // verus!
