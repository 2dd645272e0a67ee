//! The index as bytes: a 48-byte header, then the blocks of each level, root first.
//!
//! A node above the leaves holds the file offset of its block of children. That offset is
//! not looked up: the `i`-th node of a level owns the `i`-th block of the level below, and
//! every block before the last of a level is full, so the offset is the start of the level
//! below plus `i` times the size of a full block.

use vstd::prelude::*;
use crate::bbi::BigWigWriteOptions;
use crate::bytes::lemma_le_lens;
use crate::bytes::put_u16;
use crate::bytes::put_u32;
use crate::bytes::put_u64;
use crate::bytes::u16_le;
use crate::bytes::u32_le;
use crate::bytes::u64_le;
use crate::encode::chunks;
use crate::encode::lemma_chunks;
use crate::rtree::aggregate;
use crate::rtree::aggregate_nodes;
use crate::rtree::lemma_chunks_fewer;
use crate::rtree::lemma_tree_levels_shape;
use crate::rtree::next_level;
use crate::rtree::RTreeIndex;
use crate::rtree::RTreeNode;
use crate::rtree::RTreeNodeType;
use crate::rtree::tree_levels;

verus! {

/// The first four bytes of an index, as a number.
pub const CIR_TREE_MAGIC: u32 = 0x2468_ACE0;

/// The size of an index header.
pub const CIR_TREE_HEADER_SIZE: u64 = 48;

/// The size of a block header.
pub const NODE_HEADER_SIZE: u64 = 4;

/// The size of an entry that points at a block.
pub const NON_LEAF_ENTRY_SIZE: u64 = 24;

/// The size of an entry that points at a section.
pub const LEAF_ENTRY_SIZE: u64 = 32;

/// The size of one entry of a block of level `level`.
pub open spec fn entry_size(level: int) -> int {
    if level == 0 {
        32
    } else {
        24
    }
}

/// The size of a block of level `level` that holds `block_size` entries.
pub open spec fn full_block_size(level: int, block_size: int) -> int {
    4 + block_size * entry_size(level)
}

/// The offset that node `i` of level `level` holds, where the level below starts at
/// `child_base`. Leaves hold none.
pub open spec fn child_pointer(level: int, i: int, child_base: int, block_size: int) -> int {
    if level >= 1 {
        child_base + i * full_block_size(level - 1, block_size)
    } else {
        0
    }
}

/// The 16 bytes of a node's interval.
pub open spec fn interval_bytes(n: RTreeNode) -> Seq<u8> {
    u32_le(n.start_chrom_idx) + u32_le(n.start_base) + u32_le(n.end_chrom_idx) + u32_le(
        n.end_base,
    )
}

/// The bytes of one entry: the interval, then a section's offset and size, or the offset
/// of a block.
pub open spec fn entry_bytes(n: RTreeNode, pointer: int) -> Seq<u8> {
    interval_bytes(n) + match n.kind {
        RTreeNodeType::Leaf { offset, size } => u64_le(offset) + u64_le(size),
        RTreeNodeType::NonLeaf => u64_le(pointer as u64),
    }
}

/// The bytes of the entries of `nodes`, which are the nodes from `first` on of level
/// `level`.
pub open spec fn entries_bytes(
    nodes: Seq<RTreeNode>,
    first: int,
    level: int,
    child_base: int,
    block_size: int,
) -> Seq<u8>
    decreases nodes.len(),
{
    if nodes.len() == 0 {
        Seq::empty()
    } else {
        entries_bytes(nodes.drop_last(), first, level, child_base, block_size) + entry_bytes(
            nodes.last(),
            child_pointer(level, first + nodes.len() - 1, child_base, block_size),
        )
    }
}

/// The flag that opens a block: whether its entries point at sections.
pub open spec fn leaf_flag(nodes: Seq<RTreeNode>) -> u8 {
    if nodes.len() > 0 && nodes[0].kind is Leaf {
        1
    } else {
        0
    }
}

/// The bytes of one block: the flag, a reserved byte, the count, the entries.
pub open spec fn block_bytes(
    nodes: Seq<RTreeNode>,
    first: int,
    level: int,
    child_base: int,
    block_size: int,
) -> Seq<u8> {
    seq![leaf_flag(nodes), 0u8] + u16_le(nodes.len() as u16) + entries_bytes(
        nodes,
        first,
        level,
        child_base,
        block_size,
    )
}

/// The end of the block that starts at node `start` of a level of `len` nodes.
pub open spec fn block_end(start: int, len: int, block_size: int) -> int {
    if start + block_size < len {
        start + block_size
    } else {
        len
    }
}

/// The bytes of the blocks of a level from node `start` on.
pub open spec fn blocks_bytes(
    nodes: Seq<RTreeNode>,
    start: int,
    level: int,
    child_base: int,
    block_size: int,
) -> Seq<u8>
    decreases nodes.len() - start,
{
    if start < 0 || start >= nodes.len() || block_size < 1 {
        Seq::empty()
    } else {
        let end = block_end(start, nodes.len() as int, block_size);
        block_bytes(nodes.subrange(start, end), start, level, child_base, block_size)
            + blocks_bytes(nodes, end, level, child_base, block_size)
    }
}

/// The bytes of a level: its blocks, or one empty block where the level has no node.
pub open spec fn level_bytes(
    nodes: Seq<RTreeNode>,
    level: int,
    child_base: int,
    block_size: int,
) -> Seq<u8> {
    if nodes.len() == 0 {
        block_bytes(nodes, 0, level, child_base, block_size)
    } else {
        blocks_bytes(nodes, 0, level, child_base, block_size)
    }
}

/// How many blocks level `level` has: one for each node of the level above, and one for
/// the top level.
pub open spec fn level_blocks(levels: Seq<Seq<RTreeNode>>, level: int) -> int {
    if level + 1 < levels.len() {
        levels[level + 1].len() as int
    } else {
        1
    }
}

/// The size of level `level` in the file.
pub open spec fn level_size(levels: Seq<Seq<RTreeNode>>, level: int) -> int {
    4 * level_blocks(levels, level) + levels[level].len() * entry_size(level)
}

/// The size of the levels `0..=upto` in the file.
pub open spec fn levels_size(levels: Seq<Seq<RTreeNode>>, upto: int) -> int
    decreases upto + 1,
{
    if upto < 0 {
        0
    } else {
        level_size(levels, upto) + levels_size(levels, upto - 1)
    }
}

/// The size of the whole index in the file.
pub open spec fn index_size(levels: Seq<Seq<RTreeNode>>) -> int {
    48 + levels_size(levels, levels.len() - 1)
}

/// The bytes of the levels `upto`, `upto - 1`, ..., `0`, where level `upto` starts at the
/// file offset `at`.
pub open spec fn levels_bytes(
    levels: Seq<Seq<RTreeNode>>,
    upto: int,
    at: int,
    block_size: int,
) -> Seq<u8>
    decreases upto + 1,
{
    if upto < 0 {
        Seq::empty()
    } else {
        let below = at + level_size(levels, upto);
        level_bytes(levels[upto], upto, below, block_size) + levels_bytes(
            levels,
            upto - 1,
            below,
            block_size,
        )
    }
}

/// The 48 bytes that open an index: the magic number, the block size, the count of
/// sections, the interval of the root, the offset at which the index starts, the records
/// per section, and a reserved word.
pub open spec fn index_header_bytes(
    root: RTreeNode,
    at: u64,
    section_count: u64,
    options: BigWigWriteOptions,
) -> Seq<u8> {
    u32_le(CIR_TREE_MAGIC) + u32_le(options.block_size) + u64_le(section_count)
        + interval_bytes(root) + u64_le(at) + u32_le(options.items_per_slot) + u32_le(0)
}

/// The bytes of an index that is written at the file offset `at`.
pub open spec fn index_bytes(
    levels: Seq<Seq<RTreeNode>>,
    at: u64,
    section_count: u64,
    options: BigWigWriteOptions,
) -> Seq<u8> {
    index_header_bytes(aggregate(levels.last()), at, section_count, options) + levels_bytes(
        levels,
        levels.len() - 1,
        at + 48,
        options.block_size as int,
    )
}

/// Cutting a sequence into batches leaves less than a batch for the last: all batches but
/// the last are full.
pub proof fn lemma_chunks_count<T>(s: Seq<T>, size: int)
    requires
        1 <= size,
        s.len() > 0,
    ensures
        chunks(s, size).len() >= 1,
        (chunks(s, size).len() - 1) * size < s.len() <= chunks(s, size).len() * size,
    decreases s.len(),
{
    if s.len() > size {
        lemma_chunks_count(s.skip(size), size);
        let k = chunks(s.skip(size), size).len() as int;
        assert(chunks(s, size).len() == k + 1);
        assert((k + 1 - 1) * size == (k - 1) * size + size) by (nonlinear_arith);
        assert((k + 1) * size == k * size + size) by (nonlinear_arith);
    } else {
        assert(chunks(s, size).len() == 1);
        assert((1 - 1) * size == 0);
        assert(1 * size == size);
    }
}

/// No level has a negative size.
pub proof fn lemma_levels_size_nonnegative(levels: Seq<Seq<RTreeNode>>, upto: int)
    requires
        upto < levels.len(),
    ensures
        0 <= levels_size(levels, upto),
        upto >= 0 ==> 0 <= level_size(levels, upto) <= levels_size(levels, upto),
    decreases upto + 1,
{
    if upto >= 0 {
        lemma_levels_size_nonnegative(levels, upto - 1);
    }
}

/// The offsets that the nodes of a level hold lie within the level below: the last of
/// them is no more than the size of that level past its start.
pub proof fn lemma_pointers_within(levels: Seq<Seq<RTreeNode>>, level: int, block_size: int)
    requires
        2 <= block_size,
        levels.len() >= 1,
        levels == tree_levels_of(levels, block_size),
        1 <= level < levels.len(),
    ensures
        levels[level].len() >= 1,
        (levels[level].len() - 1) * full_block_size(level - 1, block_size) <= level_size(
            levels,
            level - 1,
        ),
{
    lemma_tree_levels_shape(levels[0], block_size);
    let below = levels[level - 1];
    let here = levels[level];
    assert(levels[level - 1 + 1] == next_level(levels[level - 1], block_size));
    assert(below.len() > block_size);
    lemma_chunks_count(below, block_size);
    let n = here.len() as int;
    let m = below.len() as int;
    let e = entry_size(level - 1);
    assert(n == chunks(below, block_size).len());
    assert((n - 1) * block_size < m);
    assert((n - 1) * (4 + block_size * e) <= 4 * n + m * e) by (nonlinear_arith)
        requires
            (n - 1) * block_size < m,
            n >= 1,
            e == 24 || e == 32,
            block_size >= 2,
    ;
}

/// The tree over the lowest of `levels`.
pub open spec fn tree_levels_of(levels: Seq<Seq<RTreeNode>>, block_size: int) -> Seq<
    Seq<RTreeNode>,
> {
    crate::rtree::tree_levels(levels[0], block_size)
}

/// Appends one block: the nodes `start..end` of a level.
fn write_block(
    file: &mut Vec<u8>,
    nodes: &Vec<RTreeNode>,
    start: usize,
    end: usize,
    level: usize,
    child_base: u64,
    block_size: u32,
)
    requires
        start <= end <= nodes.len(),
        end - start <= u16::MAX,
        1 <= block_size <= u16::MAX,
        level >= 1 && end > 0 ==> child_base + (end - 1) * full_block_size(
            level - 1,
            block_size as int,
        ) <= u64::MAX,
    ensures
        final(file)@ == old(file)@ + block_bytes(
            nodes@.subrange(start as int, end as int),
            start as int,
            level as int,
            child_base as int,
            block_size as int,
        ),
{
    let ghost block = nodes@.subrange(start as int, end as int);
    let flag: u8 = if end > start {
        match nodes[start].kind {
            RTreeNodeType::Leaf { .. } => 1,
            RTreeNodeType::NonLeaf => 0,
        }
    } else {
        0
    };
    file.push(flag);
    file.push(0);
    put_u16(file, (end - start) as u16);
    let ghost opened = file@;
    assert(opened =~= old(file)@ + (seq![leaf_flag(block), 0u8] + u16_le(block.len() as u16)));
    let child_block: u64 = if level == 1 {
        NODE_HEADER_SIZE + block_size as u64 * LEAF_ENTRY_SIZE
    } else {
        NODE_HEADER_SIZE + block_size as u64 * NON_LEAF_ENTRY_SIZE
    };
    let mut i: usize = start;
    while i < end
        invariant
            start <= i <= end <= nodes.len(),
            block == nodes@.subrange(start as int, end as int),
            1 <= block_size <= u16::MAX,
            level >= 1 ==> child_block == full_block_size(level - 1, block_size as int),
            level >= 1 && end > 0 ==> child_base + (end - 1) * full_block_size(
                level - 1,
                block_size as int,
            ) <= u64::MAX,
            file@ == opened + entries_bytes(
                nodes@.subrange(start as int, i as int),
                start as int,
                level as int,
                child_base as int,
                block_size as int,
            ),
        decreases end - i,
    {
        let node = nodes[i];
        let ghost before = file@;
        put_u32(file, node.start_chrom_idx);
        put_u32(file, node.start_base);
        put_u32(file, node.end_chrom_idx);
        put_u32(file, node.end_base);
        match node.kind {
            RTreeNodeType::Leaf { offset, size } => {
                put_u64(file, offset);
                put_u64(file, size);
            },
            RTreeNodeType::NonLeaf => {
                let pointer: u64 = if level >= 1 {
                    assert(i * child_block <= (end - 1) * child_block) by (nonlinear_arith)
                        requires
                            i <= end - 1,
                            child_block >= 0,
                    ;
                    child_base + i as u64 * child_block
                } else {
                    0
                };
                put_u64(file, pointer);
            },
        }
        proof {
            let taken = nodes@.subrange(start as int, i + 1);
            assert(taken.drop_last() =~= nodes@.subrange(start as int, i as int));
            assert(taken.last() == node);
            assert(file@ =~= before + entry_bytes(
                node,
                child_pointer(level as int, i as int, child_base as int, block_size as int),
            ));
        }
        i = i + 1;
    }
    assert(file@ =~= old(file)@ + block_bytes(
        block,
        start as int,
        level as int,
        child_base as int,
        block_size as int,
    ));
}

/// Appends the blocks of one level.
fn write_level(
    file: &mut Vec<u8>,
    nodes: &Vec<RTreeNode>,
    level: usize,
    child_base: u64,
    block_size: u32,
)
    requires
        1 <= block_size <= u16::MAX,
        level >= 1 && nodes.len() > 0 ==> child_base + (nodes.len() - 1) * full_block_size(
            level - 1,
            block_size as int,
        ) <= u64::MAX,
    ensures
        final(file)@ == old(file)@ + level_bytes(
            nodes@,
            level as int,
            child_base as int,
            block_size as int,
        ),
{
    let n = nodes.len();
    if n == 0 {
        write_block(file, nodes, 0, 0, level, child_base, block_size);
        assert(nodes@.subrange(0, 0) =~= nodes@);
        return ;
    }
    let mut start: usize = 0;
    while start < n
        invariant
            start <= n,
            n == nodes.len(),
            1 <= block_size <= u16::MAX,
            level >= 1 && nodes.len() > 0 ==> child_base + (nodes.len() - 1) * full_block_size(
                level - 1,
                block_size as int,
            ) <= u64::MAX,
            old(file)@ + blocks_bytes(
                nodes@,
                0,
                level as int,
                child_base as int,
                block_size as int,
            ) == file@ + blocks_bytes(
                nodes@,
                start as int,
                level as int,
                child_base as int,
                block_size as int,
            ),
        decreases n - start,
    {
        let end: usize = if n - start > block_size as usize {
            start + block_size as usize
        } else {
            n
        };
        let ghost before = file@;
        proof {
            if level >= 1 {
                let full = full_block_size(level - 1, block_size as int);
                assert((end - 1) * full <= (n - 1) * full) by (nonlinear_arith)
                    requires
                        end <= n,
                        full >= 0,
                ;
            }
        }
        write_block(file, nodes, start, end, level, child_base, block_size);
        proof {
            let rest = blocks_bytes(
                nodes@,
                end as int,
                level as int,
                child_base as int,
                block_size as int,
            );
            let block = block_bytes(
                nodes@.subrange(start as int, end as int),
                start as int,
                level as int,
                child_base as int,
                block_size as int,
            );
            assert(before + (block + rest) =~= (before + block) + rest);
        }
        start = end;
    }
    assert(file@ + Seq::<u8>::empty() =~= file@);
}

/// Appends the index to `file`. The offsets in it are those of a file that holds the
/// index where `file` ended.
pub fn write_rtreeindex(
    file: &mut Vec<u8>,
    index: &RTreeIndex,
    section_count: u64,
    options: BigWigWriteOptions,
)
    requires
        2 <= options.block_size <= u16::MAX,
        index.wf(options.block_size as int),
        old(file)@.len() + index_size(index@) <= u64::MAX,
    ensures
        final(file)@ == old(file)@ + index_bytes(
            index@,
            old(file)@.len() as u64,
            section_count,
            options,
        ),
{
    let ghost levels = index@;
    let ghost size = options.block_size as int;
    let count = index.levels.len();
    let at: u64 = file.len() as u64;
    proof {
        lemma_tree_levels_shape(levels[0], size);
        lemma_levels_size_nonnegative(levels, count - 1);
        assert(levels[count - 1] == index.levels@[count - 1]@);
    }
    let root = aggregate_nodes(&index.levels[count - 1]);
    put_u32(file, CIR_TREE_MAGIC);
    put_u32(file, options.block_size);
    put_u64(file, section_count);
    put_u32(file, root.start_chrom_idx);
    put_u32(file, root.start_base);
    put_u32(file, root.end_chrom_idx);
    put_u32(file, root.end_base);
    put_u64(file, at);
    put_u32(file, options.items_per_slot);
    put_u32(file, 0);
    assert(file@ =~= old(file)@ + index_header_bytes(root, at, section_count, options));
    let mut position: u64 = at + CIR_TREE_HEADER_SIZE;
    let mut remaining: usize = count;
    while remaining > 0
        invariant
            remaining <= count,
            count == index.levels.len(),
            levels == index@,
            size == options.block_size as int,
            2 <= options.block_size <= u16::MAX,
            index.wf(size),
            position + levels_size(levels, remaining - 1) <= u64::MAX,
            old(file)@ + index_bytes(levels, at, section_count, options) == file@ + levels_bytes(
                levels,
                remaining - 1,
                position as int,
                size,
            ),
        decreases remaining,
    {
        let level: usize = remaining - 1;
        let nodes = &index.levels[level];
        proof {
            assert(levels[level as int] == nodes@);
            lemma_levels_size_nonnegative(levels, level as int);
            lemma_levels_size_nonnegative(levels, level - 1);
            if level + 1 < count {
                assert(levels[level + 1] == index.levels@[level + 1]@);
            }
        }
        let blocks: u64 = if level + 1 < count {
            index.levels[level + 1].len() as u64
        } else {
            1
        };
        let entry: u64 = if level == 0 {
            LEAF_ENTRY_SIZE
        } else {
            NON_LEAF_ENTRY_SIZE
        };
        let below: u64 = position + (NODE_HEADER_SIZE * blocks + nodes.len() as u64 * entry);
        proof {
            if level >= 1 {
                lemma_pointers_within(levels, level as int, size);
            }
        }
        let ghost before = file@;
        write_level(file, nodes, level, below, options.block_size);
        proof {
            let here = level_bytes(nodes@, level as int, below as int, size);
            let rest = levels_bytes(levels, level - 1, below as int, size);
            assert(before + (here + rest) =~= (before + here) + rest);
        }
        position = below;
        remaining = level;
    }
    assert(file@ + Seq::<u8>::empty() =~= file@);
}

/// Whether the nodes of a level are of the kind of the level: leaves at the bottom,
/// nodes that point at blocks above it.
pub open spec fn kinds_match(nodes: Seq<RTreeNode>, level: int) -> bool {
    forall|j: int| 0 <= j < nodes.len() ==> ((#[trigger] nodes[j]).kind is Leaf <==> level == 0)
}

/// Entries take 32 bytes each at the bottom, and 24 above it.
pub proof fn lemma_entries_len(
    nodes: Seq<RTreeNode>,
    first: int,
    level: int,
    child_base: int,
    block_size: int,
)
    requires
        kinds_match(nodes, level),
    ensures
        entries_bytes(nodes, first, level, child_base, block_size).len() == nodes.len()
            * entry_size(level),
        block_bytes(nodes, first, level, child_base, block_size).len() == 4 + nodes.len()
            * entry_size(level),
    decreases nodes.len(),
{
    lemma_le_lens();
    let each = entry_size(level);
    if nodes.len() > 0 {
        let before = nodes.drop_last();
        assert forall|j: int| 0 <= j < before.len() implies ((#[trigger] before[j]).kind is Leaf
            <==> level == 0) by {
            assert(before[j] == nodes[j]);
        }
        lemma_entries_len(before, first, level, child_base, block_size);
        assert(nodes.last() == nodes[nodes.len() - 1]);
        let entry = entry_bytes(
            nodes.last(),
            child_pointer(level, first + nodes.len() - 1, child_base, block_size),
        );
        assert(interval_bytes(nodes.last()).len() == 16);
        assert(entry.len() == each);
        assert(before.len() * each + each == nodes.len() * each) by (nonlinear_arith)
            requires
                before.len() + 1 == nodes.len(),
        ;
        assert(entries_bytes(nodes, first, level, child_base, block_size).len()
            == entries_bytes(before, first, level, child_base, block_size).len() + entry.len());
    } else {
        assert(nodes.len() * each == 0) by (nonlinear_arith)
            requires
                nodes.len() == 0,
        ;
    }
}

/// The nodes of a block are of the kind of their level.
pub proof fn lemma_kinds_of_block(nodes: Seq<RTreeNode>, level: int, from: int, to: int)
    requires
        kinds_match(nodes, level),
        0 <= from <= to <= nodes.len(),
    ensures
        kinds_match(nodes.subrange(from, to), level),
{
    assert forall|j: int| 0 <= j < to - from implies ((#[trigger] nodes.subrange(
        from,
        to,
    )[j]).kind is Leaf <==> level == 0) by {
        assert(nodes.subrange(from, to)[j] == nodes[from + j]);
    }
}

/// Before the block that starts `k` blocks after node `start`, the blocks from `start`
/// on take `k` times the size of a full block.
pub proof fn lemma_blocks_prefix(
    nodes: Seq<RTreeNode>,
    start: int,
    level: int,
    child_base: int,
    block_size: int,
    k: int,
)
    requires
        kinds_match(nodes, level),
        1 <= block_size,
        0 <= start,
        0 <= k,
        start + k * block_size < nodes.len(),
    ensures
        ({
            let all = blocks_bytes(nodes, start, level, child_base, block_size);
            let rest = blocks_bytes(
                nodes,
                start + k * block_size,
                level,
                child_base,
                block_size,
            );
            &&& all.len() == k * full_block_size(level, block_size) + rest.len()
            &&& all.subrange(k * full_block_size(level, block_size), all.len() as int) == rest
        }),
    decreases k,
{
    let all = blocks_bytes(nodes, start, level, child_base, block_size);
    let full = full_block_size(level, block_size);
    if k == 0 {
        assert(k * block_size == 0 && k * full == 0) by (nonlinear_arith)
            requires
                k == 0,
        ;
        assert(all.subrange(0, all.len() as int) =~= all);
    } else {
        assert(k * block_size == (k - 1) * block_size + block_size) by (nonlinear_arith);
        assert(k * full == (k - 1) * full + full) by (nonlinear_arith);
        assert((k - 1) * block_size >= 0) by (nonlinear_arith)
            requires
                k >= 1,
                block_size >= 1,
        ;
        let end = start + block_size;
        assert(block_end(start, nodes.len() as int, block_size) == end);
        let block = block_bytes(nodes.subrange(start, end), start, level, child_base, block_size);
        lemma_kinds_of_block(nodes, level, start, end);
        lemma_entries_len(nodes.subrange(start, end), start, level, child_base, block_size);
        assert(block.len() == full);
        let after = blocks_bytes(nodes, end, level, child_base, block_size);
        assert(all == block + after);
        lemma_blocks_prefix(nodes, end, level, child_base, block_size, k - 1);
        let rest = blocks_bytes(nodes, start + k * block_size, level, child_base, block_size);
        assert(all.subrange(k * full, all.len() as int) =~= after.subrange(
            (k - 1) * full,
            after.len() as int,
        ));
    }
}

/// Block `i` of a level lies `i` times the size of a full block after the start of the
/// level.
pub proof fn lemma_block_at(
    nodes: Seq<RTreeNode>,
    level: int,
    child_base: int,
    block_size: int,
    i: int,
)
    requires
        kinds_match(nodes, level),
        1 <= block_size,
        0 <= i,
        i * block_size < nodes.len(),
    ensures
        ({
            let all = level_bytes(nodes, level, child_base, block_size);
            let from = i * block_size;
            let block = block_bytes(
                nodes.subrange(from, block_end(from, nodes.len() as int, block_size)),
                from,
                level,
                child_base,
                block_size,
            );
            let at = i * full_block_size(level, block_size);
            &&& 0 <= at
            &&& at + block.len() <= all.len()
            &&& all.subrange(at, at + block.len()) == block
        }),
{
    let all = blocks_bytes(nodes, 0, level, child_base, block_size);
    let from = i * block_size;
    let full = full_block_size(level, block_size);
    assert(from >= 0) by (nonlinear_arith)
        requires
            from == i * block_size,
            i >= 0,
            block_size >= 1,
    ;
    assert(i * full >= 0) by (nonlinear_arith)
        requires
            i >= 0,
            full >= 0,
    ;
    lemma_blocks_prefix(nodes, 0, level, child_base, block_size, i);
    let rest = blocks_bytes(nodes, from, level, child_base, block_size);
    let end = block_end(from, nodes.len() as int, block_size);
    let block = block_bytes(nodes.subrange(from, end), from, level, child_base, block_size);
    let after = blocks_bytes(nodes, end, level, child_base, block_size);
    assert(rest == block + after);
    assert(all.subrange(i * full, i * full + block.len()) =~= rest.subrange(
        0,
        block.len() as int,
    ));
    assert(rest.subrange(0, block.len() as int) =~= block);
}

/// The blocks of a level from node `start` on take four bytes for each block and the
/// size of an entry for each node.
pub proof fn lemma_blocks_len(
    nodes: Seq<RTreeNode>,
    start: int,
    level: int,
    child_base: int,
    block_size: int,
)
    requires
        kinds_match(nodes, level),
        1 <= block_size,
        0 <= start <= nodes.len(),
    ensures
        blocks_bytes(nodes, start, level, child_base, block_size).len() == 4 * chunks(
            nodes.skip(start),
            block_size,
        ).len() + (nodes.len() - start) * entry_size(level),
    decreases nodes.len() - start,
{
    let rest = nodes.skip(start);
    if start < nodes.len() {
        let end = block_end(start, nodes.len() as int, block_size);
        lemma_kinds_of_block(nodes, level, start, end);
        lemma_entries_len(nodes.subrange(start, end), start, level, child_base, block_size);
        lemma_blocks_len(nodes, end, level, child_base, block_size);
        if rest.len() <= block_size {
            assert(nodes.skip(end).len() == 0);
        } else {
            assert(rest.skip(block_size) =~= nodes.skip(end));
        }
    }
}

/// In a tree over leaves, the nodes of every level are of the kind of the level.
pub proof fn lemma_tree_kinds(leaves: Seq<RTreeNode>, block_size: int, level: int)
    requires
        2 <= block_size,
        0 <= level < tree_levels(leaves, block_size).len(),
        level == 0 ==> kinds_match(leaves, 0),
    ensures
        kinds_match(tree_levels(leaves, block_size)[level], level),
    decreases leaves.len(),
{
    if level > 0 {
        let above = next_level(leaves, block_size);
        lemma_chunks_fewer(leaves, block_size);
        assert(tree_levels(leaves, block_size)[level] == tree_levels(above, block_size)[level
            - 1]);
        if level == 1 {
            lemma_chunks(leaves, block_size);
            lemma_tree_levels_shape(above, block_size);
            assert forall|j: int| 0 <= j < above.len() implies !((#[trigger] above[j]).kind
                is Leaf) by {
                assert(above[j] == aggregate(chunks(leaves, block_size)[j]));
                assert(chunks(leaves, block_size)[j].len() >= 1);
            }
        } else {
            lemma_tree_kinds(above, block_size, level - 1);
        }
    }
}

/// Every level takes the room that is reckoned for it.
pub proof fn lemma_level_len(leaves: Seq<RTreeNode>, block_size: int, level: int, child_base: int)
    requires
        2 <= block_size,
        kinds_match(leaves, 0),
        0 <= level < tree_levels(leaves, block_size).len(),
    ensures
        level_bytes(
            tree_levels(leaves, block_size)[level],
            level,
            child_base,
            block_size,
        ).len() == level_size(tree_levels(leaves, block_size), level),
{
    let levels = tree_levels(leaves, block_size);
    let nodes = levels[level];
    lemma_tree_levels_shape(leaves, block_size);
    lemma_tree_kinds(leaves, block_size, level);
    lemma_entries_len(nodes, 0, level, child_base, block_size);
    if nodes.len() > 0 {
        lemma_blocks_len(nodes, 0, level, child_base, block_size);
        assert(nodes.skip(0) =~= nodes);
        if level + 1 < levels.len() {
            assert(levels[level + 1] == next_level(levels[level], block_size));
        } else {
            assert(levels.last() == nodes);
            assert(chunks(nodes, block_size).len() == 1);
        }
    } else {
        assert(level + 1 == levels.len()) by {
            if level + 1 < levels.len() {
                assert(levels[level].len() > block_size);
            }
        }
    }
}

/// Where level `level` starts in a file that holds the top level at `at`.
pub open spec fn level_start(levels: Seq<Seq<RTreeNode>>, level: int, at: int) -> int {
    at + levels_size(levels, levels.len() - 1) - levels_size(levels, level)
}

/// Level `level` lies in the bytes of the levels from `upto` down where the levels
/// above it end.
pub proof fn lemma_level_at(
    leaves: Seq<RTreeNode>,
    block_size: int,
    upto: int,
    at: int,
    level: int,
)
    requires
        2 <= block_size,
        kinds_match(leaves, 0),
        0 <= level <= upto < tree_levels(leaves, block_size).len(),
    ensures
        ({
            let levels = tree_levels(leaves, block_size);
            let all = levels_bytes(levels, upto, at, block_size);
            let off = levels_size(levels, upto) - levels_size(levels, level);
            let size = level_size(levels, level);
            &&& 0 <= off
            &&& off + size <= all.len()
            &&& all.subrange(off, off + size) == level_bytes(
                levels[level],
                level,
                at + off + size,
                block_size,
            )
        }),
    decreases upto - level,
{
    let levels = tree_levels(leaves, block_size);
    let all = levels_bytes(levels, upto, at, block_size);
    let below = at + level_size(levels, upto);
    let first = level_bytes(levels[upto], upto, below, block_size);
    let rest = levels_bytes(levels, upto - 1, below, block_size);
    lemma_level_len(leaves, block_size, upto, below);
    lemma_levels_size_nonnegative(levels, upto);
    lemma_levels_size_nonnegative(levels, upto - 1);
    assert(all == first + rest);
    if level == upto {
        assert(all.subrange(0, first.len() as int) =~= first);
    } else {
        lemma_level_at(leaves, block_size, upto - 1, below, level);
        let off = levels_size(levels, upto - 1) - levels_size(levels, level);
        let size = level_size(levels, level);
        assert(all.subrange(first.len() + off, first.len() + off + size) =~= rest.subrange(
            off,
            off + size,
        ));
    }
}

/// Every node above the leaves holds the offset of its block of children: in a file that
/// holds the levels of a tree from `at` on, the bytes at the offset that node `i` of a
/// level holds are the block of the nodes below it.
pub proof fn lemma_child_pointers(
    leaves: Seq<RTreeNode>,
    block_size: int,
    at: int,
    level: int,
    i: int,
)
    requires
        2 <= block_size,
        kinds_match(leaves, 0),
        1 <= level < tree_levels(leaves, block_size).len(),
        0 <= i < tree_levels(leaves, block_size)[level].len(),
    ensures
        ({
            let levels = tree_levels(leaves, block_size);
            let all = levels_bytes(levels, levels.len() - 1, at, block_size);
            let below = levels[level - 1];
            let pointer = child_pointer(level, i, level_start(levels, level - 1, at), block_size);
            let from = i * block_size;
            let children = below.subrange(from, block_end(from, below.len() as int, block_size));
            let block = block_bytes(
                children,
                from,
                level - 1,
                level_start(levels, level - 1, at) + level_size(levels, level - 1),
                block_size,
            );
            &&& 0 <= from < below.len()
            &&& children.len() >= 1
            &&& at <= pointer
            &&& pointer - at + block.len() <= all.len()
            &&& all.subrange(pointer - at, pointer - at + block.len()) == block
        }),
{
    let levels = tree_levels(leaves, block_size);
    let top = levels.len() - 1;
    let all = levels_bytes(levels, top, at, block_size);
    let below = levels[level - 1];
    lemma_tree_levels_shape(leaves, block_size);
    assert(levels[level - 1 + 1] == next_level(levels[level - 1], block_size));
    assert(below.len() > block_size);
    lemma_chunks_count(below, block_size);
    let count = levels[level].len() as int;
    assert(count == chunks(below, block_size).len());
    let from = i * block_size;
    assert(0 <= from && from <= (count - 1) * block_size) by (nonlinear_arith)
        requires
            from == i * block_size,
            0 <= i <= count - 1,
            block_size >= 1,
    ;
    lemma_tree_kinds(leaves, block_size, level - 1);
    lemma_level_at(leaves, block_size, top, at, level - 1);
    let off = levels_size(levels, top) - levels_size(levels, level - 1);
    let size = level_size(levels, level - 1);
    let child_base = at + off + size;
    let here = level_bytes(below, level - 1, child_base, block_size);
    lemma_block_at(below, level - 1, child_base, block_size, i);
    let full = full_block_size(level - 1, block_size);
    let block = block_bytes(
        below.subrange(from, block_end(from, below.len() as int, block_size)),
        from,
        level - 1,
        child_base,
        block_size,
    );
    assert(all.subrange(off + i * full, off + i * full + block.len()) =~= here.subrange(
        i * full,
        i * full + block.len(),
    ));
}

/// The levels of a tree over leaves, from any of them down, take the room that is
/// reckoned for them.
pub proof fn lemma_levels_bytes_len(leaves: Seq<RTreeNode>, block_size: int, upto: int, at: int)
    requires
        2 <= block_size,
        kinds_match(leaves, 0),
        -1 <= upto < tree_levels(leaves, block_size).len(),
    ensures
        levels_bytes(tree_levels(leaves, block_size), upto, at, block_size).len() == levels_size(
            tree_levels(leaves, block_size),
            upto,
        ),
    decreases upto + 1,
{
    if upto >= 0 {
        let levels = tree_levels(leaves, block_size);
        let below = at + level_size(levels, upto);
        lemma_level_len(leaves, block_size, upto, below);
        lemma_levels_bytes_len(leaves, block_size, upto - 1, below);
    }
}

/// An index over leaves takes the room that is reckoned for it.
pub proof fn lemma_index_bytes_len(
    leaves: Seq<RTreeNode>,
    at: u64,
    section_count: u64,
    options: BigWigWriteOptions,
)
    requires
        2 <= options.block_size,
        kinds_match(leaves, 0),
    ensures
        index_bytes(
            tree_levels(leaves, options.block_size as int),
            at,
            section_count,
            options,
        ).len() == index_size(tree_levels(leaves, options.block_size as int)),
{
    let levels = tree_levels(leaves, options.block_size as int);
    lemma_le_lens();
    lemma_tree_levels_shape(leaves, options.block_size as int);
    lemma_levels_bytes_len(leaves, options.block_size as int, levels.len() - 1, at + 48);
}

} // verus!
