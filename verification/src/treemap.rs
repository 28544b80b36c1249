//! Slice-and-dice treemap layout.
//!
//! The layout consumes a [`FileSystemNode`] tree and emits one
//! [`TreemapNode`] per descendant of the root, in depth-first order: a node,
//! then its descendants, then its next sibling. The root itself is not
//! emitted; its rectangle is the drawing area.
//!
//! Each emitted node carries its geometry in exact proportional form instead
//! of coordinates: the slicing axis of its sibling group, the group's total
//! size, the sum of the sizes of the siblings laid out before it, and the
//! index of its parent in the emitted sequence (`None` for children of the
//! root). A renderer recovers the rectangle of an emitted node from its
//! parent's rectangle: slicing vertically, the strip starts at the fraction
//! `offset / total` of the parent's width and spans `size / total` of it at
//! full height; slicing horizontally the same holds of the height. Because
//! the offsets are exact prefix sums, the strips of a group partition the
//! parent's extent exactly.

use vstd::prelude::*;
use crate::scanner::FileSystemNode;
use crate::scanner::lemma_prefix_total_le;
use crate::scanner::lemma_prefix_total_step;
use crate::scanner::lemma_sum_nonneg;
use crate::scanner::prefix_total;
use crate::scanner::sum_sizes;
use crate::scanner::total_size;
use crate::scanner::well_formed;

verus! {

/// One drawable unit of the layout, in exact proportional geometry.
#[derive(Debug, Clone, PartialEq)]
pub struct TreemapNode {
    /// Copy of the source node's name.
    pub name: String,
    /// Copy of the source node's size in bytes.
    pub size: u64,
    /// Nesting level: 1 for direct children of the scanned root, growing by
    /// 1 per level.
    pub depth: usize,
    /// Axis along which this node's sibling group was sliced: `true` for
    /// vertical slicing (strips side by side), `false` for horizontal.
    pub vertical: bool,
    /// Sum of the sizes of this node's sibling group; always positive.
    pub total: u64,
    /// Sum of the sizes of the siblings laid out before this node.
    pub offset: u64,
    /// Index, in the emitted sequence, of the node whose rectangle this
    /// node's sibling group subdivides; `None` when the group subdivides the
    /// drawing area itself.
    pub parent: Option<usize>,
}

/// The mathematical image of a [`TreemapNode`].
pub ghost struct TreemapNodeModel {
    pub name: Seq<char>,
    pub size: int,
    pub depth: int,
    pub vertical: bool,
    pub total: int,
    pub offset: int,
    pub parent: Option<int>,
}

/// Widens an emitted-sequence index.
pub open spec fn opt_view(p: Option<usize>) -> Option<int> {
    match p {
        Option::None => Option::None,
        Option::Some(j) => Option::Some(j as int),
    }
}

impl View for TreemapNode {
    type V = TreemapNodeModel;

    open spec fn view(&self) -> TreemapNodeModel {
        TreemapNodeModel {
            name: self.name@,
            size: self.size as int,
            depth: self.depth as int,
            vertical: self.vertical,
            total: self.total as int,
            offset: self.offset as int,
            parent: opt_view(self.parent),
        }
    }
}

/// The models of a sequence of emitted nodes.
pub open spec fn views(items: Seq<TreemapNode>) -> Seq<TreemapNodeModel> {
    items.map_values(|t: TreemapNode| t@)
}

/// The model of the node emitted for one tree node laid out in a group
/// sliced along `vertical` with total size `total`, after siblings summing to
/// `offset`.
pub open spec fn node_model(
    n: FileSystemNode,
    vertical: bool,
    depth: int,
    parent: Option<int>,
    total: int,
    offset: int,
) -> TreemapNodeModel {
    TreemapNodeModel { name: n.name@, size: n.size as int, depth, vertical, total, offset, parent }
}

/// The emission of the siblings `nodes[i..]` of a group sliced along
/// `vertical` at `depth`, whose group has parent `parent` and total size
/// `total`, where the siblings before `nodes[i]` sum to `offset` and `base`
/// nodes were emitted before `nodes[i]`. Each sibling is emitted, then its
/// descendants (only when it has children of positive total size, the
/// opposite axis, one level deeper, with the sibling itself as parent), then
/// the next sibling.
pub open spec fn emit_from(
    nodes: Seq<FileSystemNode>,
    i: int,
    vertical: bool,
    depth: int,
    parent: Option<int>,
    total: int,
    offset: int,
    base: int,
) -> Seq<TreemapNodeModel>
    decreases nodes, nodes.len() - i,
{
    if i < 0 || i >= nodes.len() {
        Seq::empty()
    } else {
        let item = node_model(nodes[i], vertical, depth, parent, total, offset);
        let sub = if nodes[i].children.len() > 0 && sum_sizes(nodes[i].children@) > 0 {
            emit_from(
                nodes[i].children@,
                0,
                !vertical,
                depth + 1,
                Option::Some(base),
                sum_sizes(nodes[i].children@),
                0,
                base + 1,
            )
        } else {
            Seq::empty()
        };
        seq![item] + sub + emit_from(
            nodes,
            i + 1,
            vertical,
            depth,
            parent,
            total,
            offset + nodes[i].size,
            base + 1 + sub.len(),
        )
    }
}

/// The full layout of a tree: the depth-first emission of the root's
/// children, sliced vertically at depth 1, or nothing when the root is
/// childless or its children's total size is 0.
pub open spec fn treemap_items(node: FileSystemNode) -> Seq<TreemapNodeModel> {
    if node.children.len() == 0 || sum_sizes(node.children@) <= 0 {
        Seq::empty()
    } else {
        emit_from(node.children@, 0, true, 1, Option::None, sum_sizes(node.children@), 0, 0)
    }
}

/// Every sibling group in the forest has a total size that a byte counter
/// can hold (a machine limit, not a property of the layout).
pub open spec fn sizes_ok(nodes: Seq<FileSystemNode>) -> bool
    decreases nodes,
{
    &&& sum_sizes(nodes) <= u64::MAX
    &&& (forall|i: int| 0 <= i < nodes.len() ==> sizes_ok(#[trigger] nodes[i].children@))
}

/// Nesting height of a forest: 0 when empty, else one more than the highest
/// child forest.
pub open spec fn group_height(nodes: Seq<FileSystemNode>) -> nat
    decreases nodes,
{
    if nodes.len() == 0 {
        0
    } else {
        let rest_h = group_height(nodes.drop_last());
        let last_h = 1 + group_height(nodes.last().children@);
        if last_h > rest_h {
            last_h
        } else {
            rest_h
        }
    }
}

/// A member's child forest sits strictly below its group's height.
pub proof fn lemma_group_height_member(nodes: Seq<FileSystemNode>, i: int)
    requires
        0 <= i < nodes.len(),
    ensures
        1 + group_height(nodes[i].children@) <= group_height(nodes),
    decreases nodes.len(),
{
    if i < nodes.len() - 1 {
        lemma_group_height_member(nodes.drop_last(), i);
        assert(nodes.drop_last()[i] == nodes[i]);
    }
}

/// A well-formed tree respects the machine limit on group totals: every
/// directory's total is its own size field.
pub proof fn lemma_well_formed_sizes_ok(node: FileSystemNode)
    requires
        well_formed(node),
    ensures
        sizes_ok(node.children@),
    decreases node,
{
    if node.children.len() > 0 {
        lemma_sum_nonneg(node.children@);
    }
    assert forall|i: int| 0 <= i < node.children@.len() implies sizes_ok(
        #[trigger] node.children@[i].children@,
    ) by {
        lemma_well_formed_sizes_ok(node.children@[i]);
    }
}

/// The emitted-sequence index `p` points below `base`, or at the drawing
/// area.
pub open spec fn parent_before(p: Option<int>, base: int) -> bool {
    match p {
        Option::Some(q) => q < base,
        Option::None => true,
    }
}

/// The emitted-sequence index `p` points at or above `base`.
pub open spec fn parent_at_or_after(p: Option<int>, base: int) -> bool {
    match p {
        Option::Some(q) => q >= base,
        Option::None => false,
    }
}

/// The emitted node `s[k]` is linked consistently into an emission that
/// started as a group sliced along `vertical` at `depth` under `parent`, with
/// `base` nodes emitted before it: either it belongs to that starting group,
/// or its parent is emitted before it within `s`, one level shallower and
/// sliced along the opposite axis.
pub open spec fn links_at(
    s: Seq<TreemapNodeModel>,
    k: int,
    vertical: bool,
    depth: int,
    parent: Option<int>,
    base: int,
) -> bool {
    ||| (s[k].parent == parent && s[k].depth == depth && s[k].vertical == vertical)
    ||| (exists|j: int|
        0 <= j < k && (#[trigger] s[j]).depth + 1 == s[k].depth && s[k].parent == Option::Some(
            base + j,
        ) && s[k].vertical == !s[j].vertical)
}

/// Every node of an emission is linked consistently: axis alternates and
/// depth grows by exactly 1 from a node to the nodes laid out inside its
/// rectangle, and nodes of the starting group carry the starting axis and
/// depth. Parents never point at or past the node itself.
pub proof fn lemma_emit_from_links(
    nodes: Seq<FileSystemNode>,
    i: int,
    vertical: bool,
    depth: int,
    parent: Option<int>,
    total: int,
    offset: int,
    base: int,
)
    ensures
        forall|k: int|
            0 <= k < emit_from(nodes, i, vertical, depth, parent, total, offset, base).len()
                ==> links_at(
                emit_from(nodes, i, vertical, depth, parent, total, offset, base),
                k,
                vertical,
                depth,
                parent,
                base,
            ),
        forall|k: int|
            0 <= k < emit_from(nodes, i, vertical, depth, parent, total, offset, base).len() ==> (
            #[trigger] emit_from(nodes, i, vertical, depth, parent, total, offset, base)[k]).parent
                == parent || parent_at_or_after(
                emit_from(nodes, i, vertical, depth, parent, total, offset, base)[k].parent,
                base,
            ),
    decreases nodes, nodes.len() - i,
{
    let s = emit_from(nodes, i, vertical, depth, parent, total, offset, base);
    if 0 <= i && i < nodes.len() {
        let item = node_model(nodes[i], vertical, depth, parent, total, offset);
        let children = nodes[i].children@;
        let has_sub = nodes[i].children.len() > 0 && sum_sizes(children) > 0;
        let ct = sum_sizes(children);
        let sub = if has_sub {
            emit_from(children, 0, !vertical, depth + 1, Option::Some(base), ct, 0, base + 1)
        } else {
            Seq::<TreemapNodeModel>::empty()
        };
        let rest = emit_from(
            nodes,
            i + 1,
            vertical,
            depth,
            parent,
            total,
            offset + nodes[i].size,
            base + 1 + sub.len(),
        );
        assert(s == seq![item] + sub + rest);
        if has_sub {
            lemma_emit_from_links(
                children,
                0,
                !vertical,
                depth + 1,
                Option::Some(base),
                ct,
                0,
                base + 1,
            );
        }
        lemma_emit_from_links(
            nodes,
            i + 1,
            vertical,
            depth,
            parent,
            total,
            offset + nodes[i].size,
            base + 1 + sub.len(),
        );
        assert forall|k: int| 0 <= k < s.len() implies links_at(s, k, vertical, depth, parent, base)
            && (s[k].parent == parent || parent_at_or_after(s[k].parent, base)) by {
            if k == 0 {
                assert(s[0] == item);
            } else if k < 1 + sub.len() {
                let k2: int = k - 1;
                assert(s[k] == sub[k2]);
                assert(links_at(sub, k2, !vertical, depth + 1, Option::Some(base), base + 1));
                if sub[k2].parent == Option::Some(base) && sub[k2].depth == depth + 1
                    && sub[k2].vertical == !vertical {
                    assert(s[0] == item);
                    assert(0 <= 0 < k && s[0].depth + 1 == s[k].depth && s[k].parent
                        == Option::Some(base + 0) && s[k].vertical == !s[0].vertical);
                } else {
                    let j2: int = choose|j2: int|
                        0 <= j2 < k2 && (#[trigger] sub[j2]).depth + 1 == sub[k2].depth
                            && sub[k2].parent == Option::Some(base + 1 + j2) && sub[k2].vertical
                            == !sub[j2].vertical;
                    assert(s[1 + j2] == sub[j2]);
                    assert(0 <= 1 + j2 < k && s[1 + j2].depth + 1 == s[k].depth && s[k].parent
                        == Option::Some(base + (1 + j2)) && s[k].vertical == !s[1 + j2].vertical);
                }
            } else {
                let k2: int = k - 1 - sub.len();
                assert(s[k] == rest[k2]);
                assert(links_at(rest, k2, vertical, depth, parent, base + 1 + sub.len()));
                if !(rest[k2].parent == parent && rest[k2].depth == depth && rest[k2].vertical
                    == vertical) {
                    let j2: int = choose|j2: int|
                        0 <= j2 < k2 && (#[trigger] rest[j2]).depth + 1 == rest[k2].depth
                            && rest[k2].parent == Option::Some(base + 1 + sub.len() + j2)
                            && rest[k2].vertical == !rest[j2].vertical;
                    assert(s[1 + sub.len() + j2] == rest[j2]);
                    assert(0 <= 1 + sub.len() + j2 < k && s[1 + sub.len() + j2].depth + 1
                        == s[k].depth && s[k].parent == Option::Some(base + (1 + sub.len() + j2))
                        && s[k].vertical == !s[1 + sub.len() + j2].vertical);
                }
            }
        }
    }
}

/// Axis alternation, over the whole layout of a tree: a node at depth 1 sits
/// in a vertically sliced group under the drawing area; any other node's
/// parent is emitted before it, one level shallower, and the node's group is
/// sliced along the opposite axis to its parent's.
pub proof fn lemma_axis_alternation(node: FileSystemNode)
    ensures
        forall|k: int|
            0 <= k < treemap_items(node).len() ==> links_at(
                treemap_items(node),
                k,
                true,
                1,
                Option::None,
                0,
            ),
{
    if !(node.children.len() == 0 || sum_sizes(node.children@) <= 0) {
        lemma_emit_from_links(
            node.children@,
            0,
            true,
            1,
            Option::None,
            sum_sizes(node.children@),
            0,
            0,
        );
    }
}

/// The subsequence of emitted nodes whose sibling group subdivides `parent`,
/// in emission order.
pub open spec fn parent_items(s: Seq<TreemapNodeModel>, parent: Option<int>) -> Seq<
    TreemapNodeModel,
>
    decreases s.len(),
{
    if s.len() == 0 {
        Seq::empty()
    } else {
        let rest = parent_items(s.drop_first(), parent);
        if s.first().parent == parent {
            seq![s.first()] + rest
        } else {
            rest
        }
    }
}

proof fn lemma_parent_items_add(a: Seq<TreemapNodeModel>, b: Seq<TreemapNodeModel>, parent: Option<
    int,
>)
    ensures
        parent_items(a + b, parent) == parent_items(a, parent) + parent_items(b, parent),
    decreases a.len(),
{
    if a.len() == 0 {
        assert(a + b =~= b);
        assert(parent_items(a, parent) + parent_items(b, parent) =~= parent_items(b, parent));
    } else {
        assert((a + b).drop_first() =~= a.drop_first() + b);
        assert((a + b).first() == a.first());
        lemma_parent_items_add(a.drop_first(), b, parent);
        if a.first().parent == parent {
            assert(seq![a.first()] + (parent_items(a.drop_first(), parent) + parent_items(
                b,
                parent,
            )) =~= (seq![a.first()] + parent_items(a.drop_first(), parent)) + parent_items(
                b,
                parent,
            ));
        }
    }
}

proof fn lemma_parent_items_none(s: Seq<TreemapNodeModel>, parent: Option<int>)
    requires
        forall|k: int| 0 <= k < s.len() ==> (#[trigger] s[k]).parent != parent,
    ensures
        parent_items(s, parent) == Seq::<TreemapNodeModel>::empty(),
    decreases s.len(),
{
    if s.len() > 0 {
        assert(s[0].parent != parent);
        lemma_parent_items_none(s.drop_first(), parent);
    }
}

/// The group laid out directly under one parent, sibling by sibling from
/// `nodes[i]` on: each sibling's model, with the offsets accumulating the
/// sizes.
pub open spec fn group_models(
    nodes: Seq<FileSystemNode>,
    i: int,
    vertical: bool,
    depth: int,
    parent: Option<int>,
    total: int,
    offset: int,
) -> Seq<TreemapNodeModel>
    decreases nodes.len() - i,
{
    if i < 0 || i >= nodes.len() {
        Seq::empty()
    } else {
        seq![node_model(nodes[i], vertical, depth, parent, total, offset)] + group_models(
            nodes,
            i + 1,
            vertical,
            depth,
            parent,
            total,
            offset + nodes[i].size,
        )
    }
}

/// Within an emission, the nodes that subdivide the emission's own parent
/// are exactly the group's siblings, in order, with the group's axis, depth,
/// total, and prefix-sum offsets: nothing emitted for a deeper level leaks
/// into the group.
pub proof fn lemma_emit_group(
    nodes: Seq<FileSystemNode>,
    i: int,
    vertical: bool,
    depth: int,
    parent: Option<int>,
    total: int,
    offset: int,
    base: int,
)
    requires
        parent_before(parent, base),
    ensures
        parent_items(emit_from(nodes, i, vertical, depth, parent, total, offset, base), parent)
            == group_models(nodes, i, vertical, depth, parent, total, offset),
    decreases nodes, nodes.len() - i,
{
    let s = emit_from(nodes, i, vertical, depth, parent, total, offset, base);
    if 0 <= i && i < nodes.len() {
        let item = node_model(nodes[i], vertical, depth, parent, total, offset);
        let children = nodes[i].children@;
        let has_sub = nodes[i].children.len() > 0 && sum_sizes(children) > 0;
        let ct = sum_sizes(children);
        let sub = if has_sub {
            emit_from(children, 0, !vertical, depth + 1, Option::Some(base), ct, 0, base + 1)
        } else {
            Seq::<TreemapNodeModel>::empty()
        };
        let rest = emit_from(
            nodes,
            i + 1,
            vertical,
            depth,
            parent,
            total,
            offset + nodes[i].size,
            base + 1 + sub.len(),
        );
        assert(s == seq![item] + sub + rest);
        lemma_parent_items_add(seq![item], sub, parent);
        lemma_parent_items_add(seq![item] + sub, rest, parent);
        assert(parent_items(seq![item], parent) =~= seq![item]) by {
            let single = seq![item];
            assert(single.len() == 1);
            assert(single.first() == item);
            assert(single.drop_first() =~= Seq::<TreemapNodeModel>::empty());
            assert(parent_items(Seq::<TreemapNodeModel>::empty(), parent)
                == Seq::<TreemapNodeModel>::empty());
            assert(item.parent == parent);
        }
        if has_sub {
            lemma_emit_from_links(
                children,
                0,
                !vertical,
                depth + 1,
                Option::Some(base),
                ct,
                0,
                base + 1,
            );
            assert forall|k: int| 0 <= k < sub.len() implies (#[trigger] sub[k]).parent
                != parent by {
                assert(sub[k].parent == Option::Some(base) || parent_at_or_after(
                    sub[k].parent,
                    base + 1,
                ));
            }
            lemma_parent_items_none(sub, parent);
        }
        lemma_emit_group(
            nodes,
            i + 1,
            vertical,
            depth,
            parent,
            total,
            offset + nodes[i].size,
            base + 1 + sub.len(),
        );
        assert(parent_items(s, parent) =~= seq![item] + group_models(
            nodes,
            i + 1,
            vertical,
            depth,
            parent,
            total,
            offset + nodes[i].size,
        ));
    }
}

/// The offsets of a group are the prefix sums of its sizes when the group is
/// laid out from its start.
pub proof fn lemma_group_models_index(
    nodes: Seq<FileSystemNode>,
    i: int,
    vertical: bool,
    depth: int,
    parent: Option<int>,
    total: int,
)
    requires
        0 <= i <= nodes.len(),
    ensures
        group_models(nodes, i, vertical, depth, parent, total, prefix_total(nodes, i)).len()
            == nodes.len() - i,
        forall|k: int|
            i <= k < nodes.len() ==> group_models(
                nodes,
                i,
                vertical,
                depth,
                parent,
                total,
                prefix_total(nodes, i),
            )[k - i] == node_model(
                #[trigger] nodes[k],
                vertical,
                depth,
                parent,
                total,
                prefix_total(nodes, k),
            ),
    decreases nodes.len() - i,
{
    if i < nodes.len() {
        lemma_prefix_total_step(nodes, i);
        lemma_group_models_index(nodes, i + 1, vertical, depth, parent, total);
    }
}

/// The direct children of the scanned root partition the drawing area
/// exactly: in the emitted layout, the nodes under the drawing area itself
/// are the root's children in order, at depth 1, sliced vertically, each
/// spanning the fraction `size / total` of the area's extent starting at
/// `offset / total`, where the offsets are the prefix sums of the children's
/// sizes and the sizes sum to exactly `total` (so the strips fill the whole
/// extent with nothing left over).
pub proof fn lemma_depth1_partition(node: FileSystemNode)
    requires
        node.children.len() > 0,
        sum_sizes(node.children@) > 0,
    ensures
        parent_items(treemap_items(node), Option::None).len() == node.children@.len(),
        forall|k: int|
            0 <= k < node.children@.len() ==> parent_items(treemap_items(node), Option::None)[k]
                == node_model(
                #[trigger] node.children@[k],
                true,
                1,
                Option::None,
                sum_sizes(node.children@),
                prefix_total(node.children@, k),
            ),
        prefix_total(node.children@, node.children@.len() as int) == sum_sizes(node.children@),
{
    let children = node.children@;
    let total: int = sum_sizes(children);
    assert(prefix_total(children, 0) == 0) by {
        assert(children.subrange(0, 0) =~= Seq::<FileSystemNode>::empty());
    }
    lemma_emit_group(children, 0, true, 1, Option::None, total, 0, 0);
    lemma_group_models_index(children, 0, true, 1, Option::None, total);
    assert(children.subrange(0, children.len() as int) =~= children);
}

proof fn lemma_views_push(items: Seq<TreemapNode>, t: TreemapNode)
    ensures
        views(items.push(t)) == views(items).push(t@),
{
    assert(views(items.push(t)) =~= views(items).push(t@));
}

proof fn lemma_views_add(a: Seq<TreemapNode>, b: Seq<TreemapNode>)
    ensures
        views(a + b) == views(a) + views(b),
{
    assert(views(a + b) =~= views(a) + views(b));
}

/// Lays out the sibling group `nodes`, sliced along `vertical` at `depth`,
/// into the rectangle of the already-emitted node `parent` (`None` for the
/// drawing area), appending the group's emission to `out`.
fn layout_from(
    nodes: &Vec<FileSystemNode>,
    vertical: bool,
    depth: usize,
    parent: Option<usize>,
    total: u64,
    out: &mut Vec<TreemapNode>,
)
    requires
        nodes@.len() > 0,
        total == sum_sizes(nodes@),
        sizes_ok(nodes@),
        depth >= 1,
        depth + group_height(nodes@) <= usize::MAX,
    ensures
        views(final(out)@) == views(old(out)@) + emit_from(
            nodes@,
            0,
            vertical,
            depth as int,
            opt_view(parent),
            total as int,
            0,
            old(out)@.len() as int,
        ),
    decreases nodes@,
{
    let ghost base0: int = out@.len() as int;
    let mut offset: u64 = 0;
    let mut i: usize = 0;
    proof {
        assert(nodes@.subrange(0, 0) =~= Seq::<FileSystemNode>::empty());
    }
    while i < nodes.len()
        invariant
            0 <= i <= nodes@.len(),
            total == sum_sizes(nodes@),
            sizes_ok(nodes@),
            depth >= 1,
            depth + group_height(nodes@) <= usize::MAX,
            offset == prefix_total(nodes@, i as int),
            views(out@) + emit_from(
                nodes@,
                i as int,
                vertical,
                depth as int,
                opt_view(parent),
                total as int,
                offset as int,
                out@.len() as int,
            ) == views(old(out)@) + emit_from(
                nodes@,
                0,
                vertical,
                depth as int,
                opt_view(parent),
                total as int,
                0,
                base0,
            ),
        decreases nodes@.len() - i,
    {
        proof {
            lemma_prefix_total_step(nodes@, i as int);
            lemma_prefix_total_le(nodes@, i as int + 1);
        }
        let ghost out_b = out@;
        let ghost b: int = out@.len() as int;
        let ghost m_item = node_model(
            nodes@[i as int],
            vertical,
            depth as int,
            opt_view(parent),
            total as int,
            offset as int,
        );
        let ghost m_sub = (if nodes@[i as int].children.len() > 0 && sum_sizes(
            nodes@[i as int].children@,
        ) > 0 {
            emit_from(
                nodes@[i as int].children@,
                0,
                !vertical,
                depth as int + 1,
                Option::Some(b),
                sum_sizes(nodes@[i as int].children@),
                0,
                b + 1,
            )
        } else {
            Seq::<TreemapNodeModel>::empty()
        });
        let idx: usize = out.len();
        let item = TreemapNode {
            name: nodes[i].name.clone(),
            size: nodes[i].size,
            depth,
            vertical,
            total,
            offset,
            parent,
        };
        proof {
            assert(item@ == m_item);
            lemma_views_push(out_b, item);
            assert(views(out_b).push(m_item) =~= views(out_b) + seq![m_item]);
        }
        out.push(item);
        if nodes[i].children.len() > 0 {
            proof {
                assert(sizes_ok(nodes@[i as int].children@));
            }
            let child_total: u64 = total_size(&nodes[i].children);
            if child_total > 0 {
                proof {
                    lemma_group_height_member(nodes@, i as int);
                }
                layout_from(&nodes[i].children, !vertical, depth + 1, Some(idx), child_total, out);
            }
        }
        proof {
            assert(views(out@) =~= views(out_b) + seq![m_item] + m_sub);
            assert(out@.len() as int == b + 1 + m_sub.len()) by {
                assert(views(out@).len() == out@.len());
                assert(views(out_b).len() == out_b.len());
            }
            assert(emit_from(
                nodes@,
                i as int,
                vertical,
                depth as int,
                opt_view(parent),
                total as int,
                offset as int,
                b,
            ) == seq![m_item] + m_sub + emit_from(
                nodes@,
                i as int + 1,
                vertical,
                depth as int,
                opt_view(parent),
                total as int,
                offset as int + nodes@[i as int].size,
                b + 1 + m_sub.len(),
            ));
            assert(views(out@) + emit_from(
                nodes@,
                i as int + 1,
                vertical,
                depth as int,
                opt_view(parent),
                total as int,
                offset as int + nodes@[i as int].size,
                out@.len() as int,
            ) =~= views(out_b) + emit_from(
                nodes@,
                i as int,
                vertical,
                depth as int,
                opt_view(parent),
                total as int,
                offset as int,
                b,
            ));
        }
        offset = offset + nodes[i].size;
        i = i + 1;
    }
    proof {
        lemma_views_add(old(out)@, out@);
    }
}

/// Generates the treemap layout of a tree: the flat, depth-first sequence of
/// drawable nodes described by [`treemap_items`]. The root itself is not
/// emitted; a childless root, or one whose children's total size is 0,
/// yields the empty layout.
pub fn generate_treemap(node: &FileSystemNode) -> (result: Vec<TreemapNode>)
    requires
        sizes_ok(node.children@),
        1 + group_height(node.children@) <= usize::MAX,
    ensures
        views(result@) == treemap_items(*node),
        node.children@.len() == 0 ==> result@.len() == 0,
        sum_sizes(node.children@) == 0 ==> result@.len() == 0,
        node.children@.len() > 0 && sum_sizes(node.children@) > 0 ==> result@.len() > 0,
{
    let mut out: Vec<TreemapNode> = Vec::new();
    proof {
        assert(views(out@) =~= Seq::<TreemapNodeModel>::empty());
    }
    if node.children.len() == 0 {
        return out;
    }
    let total: u64 = total_size(&node.children);
    if total == 0 {
        return out;
    }
    layout_from(&node.children, true, 1, None, total, &mut out);
    proof {
        assert(views(out@).len() == out@.len());
        assert(views(out@) =~= treemap_items(*node));
    }
    out
}

} // verus!
