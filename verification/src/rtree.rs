//! The index over sections: an R-tree, built bottom-up.
//!
//! The leaves are the sections in file order. Every `block_size` neighbours of a level
//! share a parent in the level above, whose interval spans theirs; levels are added until
//! one fits in a single block, which is the root.

use vstd::prelude::*;
use crate::bbi::BigWigWriteOptions;
use crate::bbi::Section;
use crate::encode::chunks;
use crate::encode::copy_range;
use crate::encode::lemma_chunks_next;

verus! {

/// What a node points at.
#[derive(Clone, Copy, Debug, PartialEq, Eq, Structural)]
pub enum RTreeNodeType {
    /// A section of the file.
    Leaf { offset: u64, size: u64 },
    /// A block of nodes one level down.
    NonLeaf,
}

/// A node of the index: the interval it spans, from a base of one chromosome to a base of
/// the same or a later one.
#[derive(Clone, Copy, Debug, PartialEq, Eq, Structural)]
pub struct RTreeNode {
    pub start_chrom_idx: u32,
    pub start_base: u32,
    pub end_chrom_idx: u32,
    pub end_base: u32,
    pub kind: RTreeNodeType,
}

/// The index, level by level: the leaves first, the root block last.
pub struct RTreeIndex {
    pub levels: Vec<Vec<RTreeNode>>,
}

/// The leaf that stands for a section.
pub open spec fn leaf_node(s: Section) -> RTreeNode {
    RTreeNode {
        start_chrom_idx: s.chrom,
        start_base: s.start,
        end_chrom_idx: s.chrom,
        end_base: s.end,
        kind: RTreeNodeType::Leaf { offset: s.offset, size: s.size },
    }
}

/// The leaves of sections, in their order.
pub open spec fn leaf_nodes(sections: Seq<Section>) -> Seq<RTreeNode> {
    sections.map_values(|s: Section| leaf_node(s))
}

/// The interval of `acc` widened to span `n` too: the least chromosome and the least base
/// at the start, the greatest chromosome at the end, and the greatest end base among the
/// nodes that end on that chromosome.
pub open spec fn widen(acc: RTreeNode, n: RTreeNode) -> RTreeNode {
    RTreeNode {
        start_chrom_idx: if n.start_chrom_idx < acc.start_chrom_idx {
            n.start_chrom_idx
        } else {
            acc.start_chrom_idx
        },
        start_base: if n.start_base < acc.start_base {
            n.start_base
        } else {
            acc.start_base
        },
        end_chrom_idx: if n.end_chrom_idx > acc.end_chrom_idx {
            n.end_chrom_idx
        } else {
            acc.end_chrom_idx
        },
        end_base: if n.end_chrom_idx > acc.end_chrom_idx {
            n.end_base
        } else if n.end_chrom_idx == acc.end_chrom_idx && n.end_base > acc.end_base {
            n.end_base
        } else {
            acc.end_base
        },
        kind: RTreeNodeType::NonLeaf,
    }
}

/// A node that spans nothing.
pub open spec fn empty_node() -> RTreeNode {
    RTreeNode {
        start_chrom_idx: 0,
        start_base: 0,
        end_chrom_idx: 0,
        end_base: 0,
        kind: RTreeNodeType::NonLeaf,
    }
}

/// The parent of `nodes`: a node whose interval spans theirs.
pub open spec fn aggregate(nodes: Seq<RTreeNode>) -> RTreeNode
    decreases nodes.len(),
{
    if nodes.len() == 0 {
        empty_node()
    } else if nodes.len() == 1 {
        RTreeNode {
            start_chrom_idx: nodes[0].start_chrom_idx,
            start_base: nodes[0].start_base,
            end_chrom_idx: nodes[0].end_chrom_idx,
            end_base: nodes[0].end_base,
            kind: RTreeNodeType::NonLeaf,
        }
    } else {
        widen(aggregate(nodes.drop_last()), nodes.last())
    }
}

/// The level above `nodes`: one parent for every `block_size` neighbours.
pub open spec fn next_level(nodes: Seq<RTreeNode>, block_size: int) -> Seq<RTreeNode> {
    chunks(nodes, block_size).map_values(|c: Seq<RTreeNode>| aggregate(c))
}

/// Cutting more than `size` items into batches gives fewer batches than items.
pub proof fn lemma_chunks_fewer<T>(s: Seq<T>, size: int)
    requires
        2 <= size,
    ensures
        chunks(s, size).len() <= s.len(),
        s.len() >= 2 ==> chunks(s, size).len() < s.len(),
    decreases s.len(),
{
    if s.len() > size {
        lemma_chunks_fewer(s.skip(size), size);
    }
}

/// The levels of the tree over `nodes`, from `nodes` up to the first level that fits in
/// one block.
pub open spec fn tree_levels(nodes: Seq<RTreeNode>, block_size: int) -> Seq<Seq<RTreeNode>>
    decreases nodes.len(),
{
    if nodes.len() <= block_size || block_size < 2 {
        seq![nodes]
    } else {
        proof {
            lemma_chunks_fewer(nodes, block_size);
        }
        seq![nodes] + tree_levels(next_level(nodes, block_size), block_size)
    }
}

/// Whether `a` is at or before `b` in the order of positions: by chromosome, then by base.
pub open spec fn position_le(a_chrom: u32, a_base: u32, b_chrom: u32, b_base: u32) -> bool {
    a_chrom < b_chrom || (a_chrom == b_chrom && a_base <= b_base)
}

/// Whether the interval of `outer` spans that of `inner`.
pub open spec fn covers(outer: RTreeNode, inner: RTreeNode) -> bool {
    &&& position_le(
        outer.start_chrom_idx,
        outer.start_base,
        inner.start_chrom_idx,
        inner.start_base,
    )
    &&& position_le(inner.end_chrom_idx, inner.end_base, outer.end_chrom_idx, outer.end_base)
}

/// A parent spans each of its children.
pub proof fn lemma_aggregate_covers(nodes: Seq<RTreeNode>, i: int)
    requires
        0 <= i < nodes.len(),
    ensures
        covers(aggregate(nodes), nodes[i]),
    decreases nodes.len(),
{
    if nodes.len() > 1 {
        if i < nodes.len() - 1 {
            lemma_aggregate_covers(nodes.drop_last(), i);
            assert(nodes.drop_last()[i] == nodes[i]);
        }
    }
}

/// What spans a node spans all that the node spans.
pub proof fn lemma_covers_transitive(a: RTreeNode, b: RTreeNode, c: RTreeNode)
    requires
        covers(a, b),
        covers(b, c),
    ensures
        covers(a, c),
{
}

/// Every item lies in one of the batches.
pub proof fn lemma_chunks_member<T>(s: Seq<T>, size: int, i: int)
    requires
        1 <= size,
        0 <= i < s.len(),
    ensures
        exists|k: int, j: int|
            0 <= k < chunks(s, size).len() && 0 <= j < chunks(s, size)[k].len() && (
            #[trigger] chunks(s, size)[k][j]) == s[i],
    decreases s.len(),
{
    if s.len() <= size {
        assert(chunks(s, size)[0][i] == s[i]);
    } else if i < size {
        assert(chunks(s, size)[0][i] == s[i]);
    } else {
        lemma_chunks_member(s.skip(size), size, i - size);
        let rest = chunks(s.skip(size), size);
        let (k, j) = choose|k: int, j: int|
            0 <= k < rest.len() && 0 <= j < rest[k].len() && (#[trigger] rest[k][j]) == s.skip(
                size,
            )[i - size];
        assert(chunks(s, size)[k + 1][j] == s[i]);
    }
}

/// Every node of a level is spanned by a node of the level above.
pub proof fn lemma_next_level_covers(nodes: Seq<RTreeNode>, block_size: int, i: int)
    requires
        1 <= block_size,
        0 <= i < nodes.len(),
    ensures
        exists|k: int|
            0 <= k < next_level(nodes, block_size).len() && covers(
                #[trigger] next_level(nodes, block_size)[k],
                nodes[i],
            ),
{
    lemma_chunks_member(nodes, block_size, i);
    let batches = chunks(nodes, block_size);
    let (k, j) = choose|k: int, j: int|
        0 <= k < batches.len() && 0 <= j < batches[k].len() && (#[trigger] batches[k][j])
            == nodes[i];
    lemma_aggregate_covers(batches[k], j);
    assert(next_level(nodes, block_size)[k] == aggregate(batches[k]));
}

/// The root block of the tree over `nodes`.
pub open spec fn root_nodes(nodes: Seq<RTreeNode>, block_size: int) -> Seq<RTreeNode> {
    tree_levels(nodes, block_size).last()
}

/// Every node is spanned by a node of the root block.
pub proof fn lemma_root_block_covers(nodes: Seq<RTreeNode>, block_size: int, i: int)
    requires
        2 <= block_size,
        0 <= i < nodes.len(),
    ensures
        exists|k: int|
            0 <= k < root_nodes(nodes, block_size).len() && covers(
                #[trigger] root_nodes(nodes, block_size)[k],
                nodes[i],
            ),
    decreases nodes.len(),
{
    if nodes.len() <= block_size {
        assert(root_nodes(nodes, block_size) == nodes);
        assert(covers(root_nodes(nodes, block_size)[i], nodes[i]));
    } else {
        let above = next_level(nodes, block_size);
        lemma_chunks_fewer(nodes, block_size);
        lemma_next_level_covers(nodes, block_size, i);
        let k = choose|k: int| 0 <= k < above.len() && covers(#[trigger] above[k], nodes[i]);
        lemma_root_block_covers(above, block_size, k);
        let top = root_nodes(above, block_size);
        let m = choose|m: int| 0 <= m < top.len() && covers(#[trigger] top[m], above[k]);
        lemma_covers_transitive(top[m], above[k], nodes[i]);
        assert(tree_levels(nodes, block_size).last() == tree_levels(above, block_size).last());
        assert(covers(root_nodes(nodes, block_size)[m], nodes[i]));
    }
}

/// The interval that the index header gives: that of the whole root block.
pub open spec fn root_interval(sections: Seq<Section>, block_size: int) -> RTreeNode {
    aggregate(root_nodes(leaf_nodes(sections), block_size))
}

/// The interval in the index header spans every section of the index.
pub proof fn lemma_root_covers(sections: Seq<Section>, block_size: int, i: int)
    requires
        2 <= block_size,
        0 <= i < sections.len(),
    ensures
        covers(root_interval(sections, block_size), leaf_node(sections[i])),
{
    let leaves = leaf_nodes(sections);
    lemma_root_block_covers(leaves, block_size, i);
    let top = root_nodes(leaves, block_size);
    let k = choose|k: int| 0 <= k < top.len() && covers(#[trigger] top[k], leaves[i]);
    lemma_aggregate_covers(top, k);
    lemma_covers_transitive(aggregate(top), top[k], leaves[i]);
}

impl RTreeIndex {
    /// The levels as plain sequences.
    pub open spec fn view(&self) -> Seq<Seq<RTreeNode>> {
        self.levels@.map_values(|level: Vec<RTreeNode>| level@)
    }

    /// Whether the levels are those of a tree over the lowest one.
    pub open spec fn wf(&self, block_size: int) -> bool {
        &&& self@.len() >= 1
        &&& self@ == tree_levels(self@[0], block_size)
    }
}

/// The shape of a tree: it has a lowest level, which is the nodes it was built over; each
/// level above is the parents of the one below; only the top level fits in one block.
pub proof fn lemma_tree_levels_shape(nodes: Seq<RTreeNode>, block_size: int)
    requires
        2 <= block_size,
    ensures
        tree_levels(nodes, block_size).len() >= 1,
        tree_levels(nodes, block_size)[0] == nodes,
        tree_levels(nodes, block_size).last().len() <= block_size,
        forall|l: int|
            0 <= l < tree_levels(nodes, block_size).len() - 1 ==> {
                &&& (#[trigger] tree_levels(nodes, block_size)[l]).len() > block_size
                &&& tree_levels(nodes, block_size)[l + 1] == next_level(
                    tree_levels(nodes, block_size)[l],
                    block_size,
                )
            },
    decreases nodes.len(),
{
    if nodes.len() > block_size {
        let above = next_level(nodes, block_size);
        lemma_chunks_fewer(nodes, block_size);
        lemma_tree_levels_shape(above, block_size);
        let all = tree_levels(nodes, block_size);
        let rest = tree_levels(above, block_size);
        assert(all == seq![nodes] + rest);
        assert forall|l: int| 0 <= l < all.len() - 1 implies {
            &&& (#[trigger] all[l]).len() > block_size
            &&& all[l + 1] == next_level(all[l], block_size)
        } by {
            if l > 0 {
                assert(all[l] == rest[l - 1]);
                assert(all[l + 1] == rest[l - 1 + 1]);
            } else {
                assert(all[1] == rest[0]);
            }
        }
        assert(all.last() == rest.last());
    }
}

/// Computes the parent of `nodes`.
pub fn aggregate_nodes(nodes: &Vec<RTreeNode>) -> (parent: RTreeNode)
    ensures
        parent == aggregate(nodes@),
{
    let n = nodes.len();
    if n == 0 {
        return RTreeNode {
            start_chrom_idx: 0,
            start_base: 0,
            end_chrom_idx: 0,
            end_base: 0,
            kind: RTreeNodeType::NonLeaf,
        };
    }
    let mut parent = RTreeNode {
        start_chrom_idx: nodes[0].start_chrom_idx,
        start_base: nodes[0].start_base,
        end_chrom_idx: nodes[0].end_chrom_idx,
        end_base: nodes[0].end_base,
        kind: RTreeNodeType::NonLeaf,
    };
    let mut i: usize = 1;
    assert(nodes@.take(1).len() == 1);
    while i < n
        invariant
            1 <= i <= n,
            n == nodes.len(),
            parent == aggregate(nodes@.take(i as int)),
        decreases n - i,
    {
        let node = nodes[i];
        proof {
            assert(nodes@.take(i + 1).drop_last() =~= nodes@.take(i as int));
        }
        if node.start_chrom_idx < parent.start_chrom_idx {
            parent.start_chrom_idx = node.start_chrom_idx;
        }
        if node.start_base < parent.start_base {
            parent.start_base = node.start_base;
        }
        if node.end_chrom_idx > parent.end_chrom_idx {
            parent.end_chrom_idx = node.end_chrom_idx;
            parent.end_base = node.end_base;
        } else if node.end_chrom_idx == parent.end_chrom_idx && node.end_base > parent.end_base {
            parent.end_base = node.end_base;
        }
        i = i + 1;
    }
    assert(nodes@.take(n as int) =~= nodes@);
    parent
}

/// Builds the level above `nodes`.
pub fn group_nodes(nodes: &Vec<RTreeNode>, block_size: u32) -> (above: Vec<RTreeNode>)
    requires
        1 <= block_size,
    ensures
        above@ == next_level(nodes@, block_size as int),
{
    let n = nodes.len();
    let mut above: Vec<RTreeNode> = Vec::new();
    let mut start: usize = 0;
    let ghost size = block_size as int;
    let ghost mut done: Seq<Seq<RTreeNode>> = Seq::empty();
    assert(nodes@.skip(0) =~= nodes@);
    while start < n
        invariant
            start <= n,
            n == nodes.len(),
            size == block_size as int,
            1 <= block_size,
            chunks(nodes@, size) == done + chunks(nodes@.skip(start as int), size),
            above@ == done.map_values(|c: Seq<RTreeNode>| aggregate(c)),
        decreases n - start,
    {
        let end: usize = if n - start > block_size as usize {
            start + block_size as usize
        } else {
            n
        };
        let children = copy_range(nodes, start, end);
        proof {
            lemma_chunks_next(nodes@, size, start as int);
            assert(done + (seq![children@] + chunks(nodes@.skip(end as int), size))
                =~= done.push(children@) + chunks(nodes@.skip(end as int), size));
        }
        let parent = aggregate_nodes(&children);
        above.push(parent);
        proof {
            assert(done.push(children@).map_values(|c: Seq<RTreeNode>| aggregate(c))
                =~= done.map_values(|c: Seq<RTreeNode>| aggregate(c)).push(aggregate(children@)));
            done = done.push(children@);
        }
        start = end;
    }
    proof {
        assert(chunks(nodes@.skip(n as int), size) =~= Seq::<Seq<RTreeNode>>::empty());
        assert(done + Seq::<Seq<RTreeNode>>::empty() =~= done);
    }
    above
}

/// Builds the index over `sections`, which are in file order.
pub fn get_rtreeindex(sections: &Vec<Section>, options: BigWigWriteOptions) -> (index:
    RTreeIndex)
    requires
        2 <= options.block_size,
    ensures
        index@ == tree_levels(leaf_nodes(sections@), options.block_size as int),
        index.wf(options.block_size as int),
{
    let block_size = options.block_size;
    let n = sections.len();
    let mut current: Vec<RTreeNode> = Vec::new();
    let mut i: usize = 0;
    while i < n
        invariant
            i <= n,
            n == sections.len(),
            current@ == leaf_nodes(sections@.take(i as int)),
        decreases n - i,
    {
        let s = sections[i];
        current.push(
            RTreeNode {
                start_chrom_idx: s.chrom,
                start_base: s.start,
                end_chrom_idx: s.chrom,
                end_base: s.end,
                kind: RTreeNodeType::Leaf { offset: s.offset, size: s.size },
            },
        );
        assert(current@ =~= leaf_nodes(sections@.take(i + 1)));
        i = i + 1;
    }
    assert(sections@.take(n as int) =~= sections@);
    let mut levels: Vec<Vec<RTreeNode>> = Vec::new();
    let ghost leaves = current@;
    let ghost size = block_size as int;
    while current.len() > block_size as usize
        invariant
            2 <= block_size,
            size == block_size as int,
            tree_levels(leaves, size) == levels@.map_values(|level: Vec<RTreeNode>| level@)
                + tree_levels(current@, size),
        decreases current.len(),
    {
        let above = group_nodes(&current, block_size);
        proof {
            lemma_chunks_fewer(current@, size);
            assert(levels@.map_values(|level: Vec<RTreeNode>| level@) + (seq![current@]
                + tree_levels(above@, size)) =~= levels@.push(current).map_values(
                |level: Vec<RTreeNode>| level@,
            ) + tree_levels(above@, size));
        }
        levels.push(current);
        current = above;
    }
    proof {
        assert(levels@.map_values(|level: Vec<RTreeNode>| level@) + seq![current@]
            =~= levels@.push(current).map_values(|level: Vec<RTreeNode>| level@));
    }
    levels.push(current);
    let index = RTreeIndex { levels };
    proof {
        lemma_tree_levels_shape(leaves, size);
    }
    index
}

} // verus!
