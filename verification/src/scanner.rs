//! The file-system tree and its invariant.
//!
//! A scan of a directory produces a tree of [`FileSystemNode`]s. The walk
//! itself is I/O and lives with the caller; this module provides the verified
//! construction steps: making a leaf for a file, and assembling a directory
//! node from its already-built children, which sorts the children by name and
//! sets the directory's size to the exact sum of the children's sizes.

use vstd::prelude::*;
use vstd::string::*;

verus! {

/// One entry of the scanned file-system tree: a file (no children) or a
/// directory (its children, with `size` aggregated over them).
#[derive(Debug, PartialEq)]
pub struct FileSystemNode {
    /// Display label: the final path component of the scanned entry.
    pub name: String,
    /// Byte count: a file's length, or the sum of the children's sizes.
    pub size: u64,
    /// Child entries, owned by this node; empty for files.
    pub children: Vec<FileSystemNode>,
}

/// Sum of the `size` fields of a group of sibling nodes.
pub open spec fn sum_sizes(nodes: Seq<FileSystemNode>) -> int
    decreases nodes.len(),
{
    if nodes.len() == 0 {
        0
    } else {
        sum_sizes(nodes.drop_last()) + nodes.last().size
    }
}

/// Lexicographic comparison of two names, position by position from `i` on:
/// a shorter name precedes every longer name it is a prefix of, and the first
/// differing character decides by Unicode scalar value.
pub open spec fn lex_le_from(a: Seq<char>, b: Seq<char>, i: int) -> bool
    decreases a.len() - i,
{
    if i < 0 || i >= a.len() {
        true
    } else if i >= b.len() {
        false
    } else if a[i] == b[i] {
        lex_le_from(a, b, i + 1)
    } else {
        a[i] < b[i]
    }
}

/// `a` is lexicographically at most `b`.
pub open spec fn lex_le(a: Seq<char>, b: Seq<char>) -> bool {
    lex_le_from(a, b, 0)
}

/// The sibling group is sorted by name in ascending order.
pub open spec fn sorted_by_name(nodes: Seq<FileSystemNode>) -> bool {
    forall|i: int, j: int|
        0 <= i < j < nodes.len() ==> lex_le(#[trigger] nodes[i].name@, #[trigger] nodes[j].name@)
}

/// The tree invariant that every successfully built tree satisfies: each
/// directory's size is the exact sum of its children's sizes, and each
/// sibling group is sorted by name.
pub open spec fn well_formed(node: FileSystemNode) -> bool
    decreases node,
{
    &&& (node.children.len() > 0 ==> node.size == sum_sizes(node.children@))
    &&& sorted_by_name(node.children@)
    &&& (forall|i: int|
        0 <= i < node.children@.len() ==> well_formed(#[trigger] node.children@[i]))
}

/// Sum of the sizes of the first `i` nodes of a sibling group.
pub open spec fn prefix_total(nodes: Seq<FileSystemNode>, i: int) -> int {
    sum_sizes(nodes.subrange(0, i))
}

/// Sibling sums are never negative (sizes are byte counts).
pub proof fn lemma_sum_nonneg(nodes: Seq<FileSystemNode>)
    ensures
        sum_sizes(nodes) >= 0,
    decreases nodes.len(),
{
    if nodes.len() > 0 {
        lemma_sum_nonneg(nodes.drop_last());
    }
}

/// Extending a prefix by one node adds that node's size to the prefix sum.
pub proof fn lemma_prefix_total_step(nodes: Seq<FileSystemNode>, i: int)
    requires
        0 <= i < nodes.len(),
    ensures
        prefix_total(nodes, i + 1) == prefix_total(nodes, i) + nodes[i].size,
{
    assert(nodes.subrange(0, i + 1).drop_last() =~= nodes.subrange(0, i));
    assert(nodes.subrange(0, i + 1).last() == nodes[i]);
}

/// A prefix sum never exceeds the sum of the whole group.
pub proof fn lemma_prefix_total_le(nodes: Seq<FileSystemNode>, i: int)
    requires
        0 <= i <= nodes.len(),
    ensures
        prefix_total(nodes, i) <= sum_sizes(nodes),
    decreases nodes.len() - i,
{
    if i == nodes.len() {
        assert(nodes.subrange(0, i) =~= nodes);
    } else {
        lemma_prefix_total_step(nodes, i);
        lemma_prefix_total_le(nodes, i + 1);
    }
}

/// Taking one node out of a group lowers the group's sum by that node's size.
pub proof fn lemma_sum_remove(nodes: Seq<FileSystemNode>, j: int)
    requires
        0 <= j < nodes.len(),
    ensures
        sum_sizes(nodes) == sum_sizes(nodes.remove(j)) + nodes[j].size,
    decreases nodes.len(),
{
    if j == nodes.len() - 1 {
        assert(nodes.remove(j) =~= nodes.drop_last());
    } else {
        lemma_sum_remove(nodes.drop_last(), j);
        assert(nodes.remove(j).drop_last() =~= nodes.drop_last().remove(j));
        assert(nodes.remove(j).last() == nodes.last());
    }
}

/// Two groups holding the same nodes (in any order) have the same sum.
pub proof fn lemma_sum_permutation(s1: Seq<FileSystemNode>, s2: Seq<FileSystemNode>)
    requires
        s1.to_multiset() == s2.to_multiset(),
    ensures
        sum_sizes(s1) == sum_sizes(s2),
    decreases s1.len(),
{
    broadcast use vstd::seq_lib::group_to_multiset_ensures;

    if s1.len() > 0 {
        let x = s1.last();
        assert(s1.contains(x));
        assert(s2.to_multiset().count(x) > 0);
        assert(s2.contains(x));
        let j: int = choose|j: int| 0 <= j < s2.len() && s2[j] == x;
        lemma_sum_remove(s2, j);
        lemma_sum_remove(s1, s1.len() - 1);
        assert(s1.remove(s1.len() - 1) =~= s1.drop_last());
        assert(s1.drop_last().to_multiset() =~= s2.remove(j).to_multiset()) by {
            assert(s1.drop_last().to_multiset() =~= s1.to_multiset().remove(x));
            assert(s2.remove(j).to_multiset() =~= s2.to_multiset().remove(x));
        }
        lemma_sum_permutation(s1.drop_last(), s2.remove(j));
    } else {
        assert(s2.to_multiset().len() == 0);
        assert(s2.len() == 0);
    }
}

/// Computes the total size of a sibling group.
pub fn total_size(nodes: &Vec<FileSystemNode>) -> (total: u64)
    requires
        sum_sizes(nodes@) <= u64::MAX,
    ensures
        total == sum_sizes(nodes@),
{
    let mut total: u64 = 0;
    let mut i: usize = 0;
    proof {
        assert(nodes@.subrange(0, 0) =~= Seq::<FileSystemNode>::empty());
    }
    while i < nodes.len()
        invariant
            0 <= i <= nodes@.len(),
            total == prefix_total(nodes@, i as int),
            sum_sizes(nodes@) <= u64::MAX,
        decreases nodes@.len() - i,
    {
        proof {
            lemma_prefix_total_step(nodes@, i as int);
            lemma_prefix_total_le(nodes@, i as int + 1);
        }
        total = total + nodes[i].size;
        i = i + 1;
    }
    proof {
        assert(nodes@.subrange(0, nodes@.len() as int) =~= nodes@);
    }
    total
}

/// The lexicographic order is reflexive.
pub proof fn lemma_lex_refl(a: Seq<char>)
    ensures
        lex_le(a, a),
{
    lemma_lex_total_from(a, a, 0);
}

/// The lexicographic order is total: of any two names, one is at most the
/// other.
pub proof fn lemma_lex_total(a: Seq<char>, b: Seq<char>)
    ensures
        lex_le(a, b) || lex_le(b, a),
{
    lemma_lex_total_from(a, b, 0);
}

proof fn lemma_lex_total_from(a: Seq<char>, b: Seq<char>, i: int)
    ensures
        lex_le_from(a, b, i) || lex_le_from(b, a, i),
    decreases a.len() - i,
{
    if 0 <= i && i < a.len() && i < b.len() && a[i] == b[i] {
        lemma_lex_total_from(a, b, i + 1);
    }
}

/// The lexicographic order is transitive.
pub proof fn lemma_lex_trans(a: Seq<char>, b: Seq<char>, c: Seq<char>)
    requires
        lex_le(a, b),
        lex_le(b, c),
    ensures
        lex_le(a, c),
{
    lemma_lex_trans_from(a, b, c, 0);
}

proof fn lemma_lex_trans_from(a: Seq<char>, b: Seq<char>, c: Seq<char>, i: int)
    ensures
        lex_le_from(a, b, i) && lex_le_from(b, c, i) ==> lex_le_from(a, c, i),
    decreases a.len() - i,
{
    if 0 <= i && i < a.len() && i < b.len() && i < c.len() && a[i] == b[i] && b[i] == c[i] {
        lemma_lex_trans_from(a, b, c, i + 1);
    }
}

/// Compares two names lexicographically by Unicode scalar value, the order
/// directory children are sorted in.
pub fn name_le(a: &str, b: &str) -> (r: bool)
    ensures
        r == lex_le(a@, b@),
{
    let alen: usize = a.unicode_len();
    let blen: usize = b.unicode_len();
    let mut i: usize = 0;
    loop
        invariant
            alen == a@.len(),
            blen == b@.len(),
            0 <= i <= alen,
            i <= blen,
            lex_le(a@, b@) == lex_le_from(a@, b@, i as int),
        decreases alen - i,
    {
        if i >= alen {
            return true;
        }
        if i >= blen {
            return false;
        }
        let ca = a.get_char(i);
        let cb = b.get_char(i);
        if ca != cb {
            return ca < cb;
        }
        i = i + 1;
    }
}

/// Builds the leaf node for a regular file (or any non-directory entry).
pub fn file_node(name: String, size: u64) -> (node: FileSystemNode)
    ensures
        node.name == name,
        node.size == size,
        node.children@.len() == 0,
        well_formed(node),
{
    FileSystemNode { name, size, children: Vec::new() }
}

/// Sorts a sibling group by name in ascending order, keeping exactly the
/// nodes it was given.
pub fn sort_by_name(nodes: Vec<FileSystemNode>) -> (sorted: Vec<FileSystemNode>)
    ensures
        sorted_by_name(sorted@),
        sorted@.to_multiset() == nodes@.to_multiset(),
{
    broadcast use vstd::seq_lib::group_to_multiset_ensures;

    let mut rest = nodes;
    let mut out: Vec<FileSystemNode> = Vec::new();
    proof {
        assert(out@.to_multiset().add(rest@.to_multiset()) =~= nodes@.to_multiset());
    }
    while rest.len() > 0
        invariant
            out@.to_multiset().add(rest@.to_multiset()) == nodes@.to_multiset(),
            sorted_by_name(out@),
            forall|i: int, j: int|
                0 <= i < out@.len() && 0 <= j < rest@.len() ==> lex_le(
                    #[trigger] out@[i].name@,
                    #[trigger] rest@[j].name@,
                ),
        decreases rest@.len(),
    {
        let mut m: usize = 0;
        let mut k: usize = 1;
        proof {
            lemma_lex_refl(rest@[0].name@);
        }
        while k < rest.len()
            invariant
                0 < rest@.len(),
                0 <= m < k <= rest@.len(),
                forall|t: int| 0 <= t < k ==> lex_le(rest@[m as int].name@, #[trigger] rest@[t].name@),
            decreases rest@.len() - k,
        {
            // Move the marker only on a strictly smaller name, so the first
            // of equally named entries keeps its place.
            if !name_le(rest[m].name.as_str(), rest[k].name.as_str()) {
                proof {
                    lemma_lex_total(rest@[m as int].name@, rest@[k as int].name@);
                    assert forall|t: int| 0 <= t < k + 1 implies lex_le(
                        rest@[k as int].name@,
                        #[trigger] rest@[t].name@,
                    ) by {
                        if t < k {
                            lemma_lex_trans(rest@[k as int].name@, rest@[m as int].name@, rest@[t].name@);
                        } else {
                            lemma_lex_refl(rest@[k as int].name@);
                        }
                    }
                }
                m = k;
            }
            k = k + 1;
        }
        let ghost old_out = out@;
        let ghost old_rest = rest@;
        let x = rest.remove(m);
        out.push(x);
        proof {
            broadcast use vstd::seq_lib::group_to_multiset_ensures;

            assert(old_rest.contains(x));
            assert(old_rest.to_multiset().count(x) > 0);
            assert(out@.to_multiset().add(rest@.to_multiset()) =~= nodes@.to_multiset()) by {
                assert(out@.to_multiset() =~= old_out.to_multiset().insert(x));
                assert(rest@.to_multiset() =~= old_rest.to_multiset().remove(x));
            }
            assert forall|i: int, j: int|
                0 <= i < out@.len() && 0 <= j < rest@.len() implies lex_le(
                #[trigger] out@[i].name@,
                #[trigger] rest@[j].name@,
            ) by {
                let jj = if j < m { j } else { j + 1 };
                assert(rest@[j] == old_rest[jj]);
                if i < old_out.len() {
                    assert(out@[i] == old_out[i]);
                } else {
                    assert(out@[i] == x);
                }
            }
            assert(sorted_by_name(out@)) by {
                assert forall|i: int, j: int| 0 <= i < j < out@.len() implies lex_le(
                    #[trigger] out@[i].name@,
                    #[trigger] out@[j].name@,
                ) by {
                    if j == out@.len() - 1 {
                        assert(out@[j] == x);
                        assert(out@[i] == old_out[i]);
                        assert(old_rest[m as int] == x);
                    }
                }
            }
        }
    }
    out
}

/// Assembles the directory node over an already-built group of children:
/// the children end up sorted by name, and the directory's size is the exact
/// sum of the children's sizes.
pub fn directory_node(name: String, children: Vec<FileSystemNode>) -> (node: FileSystemNode)
    requires
        sum_sizes(children@) <= u64::MAX,
        forall|i: int| 0 <= i < children@.len() ==> well_formed(#[trigger] children@[i]),
    ensures
        node.name == name,
        node.children@.to_multiset() == children@.to_multiset(),
        node.children@.len() == children@.len(),
        node.size == sum_sizes(node.children@),
        node.size == sum_sizes(children@),
        sorted_by_name(node.children@),
        well_formed(node),
{
    let ghost input = children@;
    let sorted = sort_by_name(children);
    proof {
        broadcast use vstd::seq_lib::group_to_multiset_ensures;

        assert(sorted@.len() == sorted@.to_multiset().len());
        assert(input.len() == input.to_multiset().len());
        lemma_sum_permutation(sorted@, input);
        assert forall|i: int| 0 <= i < sorted@.len() implies well_formed(
            #[trigger] sorted@[i],
        ) by {
            assert(sorted@.contains(sorted@[i]));
            assert(input.to_multiset().count(sorted@[i]) > 0);
            assert(input.contains(sorted@[i]));
            let j: int = choose|j: int| 0 <= j < input.len() && input[j] == sorted@[i];
            assert(well_formed(input[j]));
        }
    }
    let total: u64 = total_size(&sorted);
    FileSystemNode { name, size: total, children: sorted }
}

/// Total size of the files reachable in a subtree: a childless node counts
/// its own size, a node with children counts its descendants' leaves.
pub open spec fn leaf_total(node: FileSystemNode) -> int
    decreases node, 0int,
{
    if node.children.len() == 0 {
        node.size as int
    } else {
        group_leaf_total(node.children@)
    }
}

/// Total size of the files reachable under a sibling group.
pub open spec fn group_leaf_total(nodes: Seq<FileSystemNode>) -> int
    decreases nodes, 1int,
{
    if nodes.len() == 0 {
        0
    } else {
        group_leaf_total(nodes.drop_last()) + leaf_total(nodes.last())
    }
}

/// In a well-formed tree, every node's size is the exact sum of the leaf
/// sizes reachable under it; in particular the root's size is the sum of all
/// scanned file sizes.
pub proof fn lemma_size_is_leaf_total(node: FileSystemNode)
    requires
        well_formed(node),
    ensures
        node.size == leaf_total(node),
    decreases node, 0int,
{
    if node.children.len() > 0 {
        lemma_group_sum_is_leaf_total(node.children@);
    }
}

/// In a group of well-formed siblings, the sum of the siblings' sizes is the
/// exact sum of the leaf sizes reachable under them.
pub proof fn lemma_group_sum_is_leaf_total(nodes: Seq<FileSystemNode>)
    requires
        forall|i: int| 0 <= i < nodes.len() ==> well_formed(#[trigger] nodes[i]),
    ensures
        sum_sizes(nodes) == group_leaf_total(nodes),
    decreases nodes, 1int,
{
    if nodes.len() > 0 {
        lemma_group_sum_is_leaf_total(nodes.drop_last());
        lemma_size_is_leaf_total(nodes.last());
    }
}

} // verus!
