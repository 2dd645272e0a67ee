//! The chromosome index: a B+ tree from a chromosome's name to its id and length, written
//! as one leaf block with the names in order.

use vstd::prelude::*;
use vstd::utf8::encode_utf8;
use crate::bbi::chrom_views;
use crate::bbi::ChromInfo;
use crate::bbi::ChromView;
use crate::bytes::put_u16;
use crate::bytes::put_u32;
use crate::bytes::put_u64;
use crate::bytes::u16_le;
use crate::bytes::u32_le;
use crate::bytes::u64_le;

verus! {

/// The first four bytes of a chromosome index, as a number.
pub const CHROM_TREE_MAGIC: u32 = 0x78CA_8C91;

/// The least block size that a chromosome index declares.
pub const CHROM_TREE_BLOCK_SIZE: u32 = 256;

/// Whether `a` comes before `b` in the order of names: byte by byte, a name before those
/// that it starts.
pub open spec fn lex_lt(a: Seq<u8>, b: Seq<u8>) -> bool
    decreases a.len(),
{
    if b.len() == 0 {
        false
    } else if a.len() == 0 {
        true
    } else if a[0] != b[0] {
        a[0] < b[0]
    } else {
        lex_lt(a.skip(1), b.skip(1))
    }
}

/// The bytes of a name.
pub open spec fn name_bytes(name: Seq<char>) -> Seq<u8> {
    encode_utf8(name)
}

/// Whether the name `a` comes before the name `b`.
pub open spec fn name_lt(a: Seq<char>, b: Seq<char>) -> bool {
    lex_lt(name_bytes(a), name_bytes(b))
}

/// Of two names, one comes before the other, or they are the same.
pub proof fn lemma_lex_total(a: Seq<u8>, b: Seq<u8>)
    ensures
        lex_lt(a, b) || lex_lt(b, a) || a == b,
        !(lex_lt(a, b) && lex_lt(b, a)),
        !lex_lt(a, a),
    decreases a.len(),
{
    if a.len() > 0 && b.len() > 0 && a[0] == b[0] {
        lemma_lex_total(a.skip(1), b.skip(1));
        if a.skip(1) == b.skip(1) {
            assert(a =~= seq![a[0]] + a.skip(1));
            assert(b =~= seq![b[0]] + b.skip(1));
        }
    } else if a.len() == 0 && b.len() == 0 {
        assert(a =~= b);
    }
    if a.len() > 0 {
        lemma_lex_total(a.skip(1), a.skip(1));
    }
}

/// The order of names passes on: what comes before a name comes before all after it.
pub proof fn lemma_lex_transitive(a: Seq<u8>, b: Seq<u8>, c: Seq<u8>)
    requires
        lex_lt(a, b),
        lex_lt(b, c),
    ensures
        lex_lt(a, c),
    decreases a.len(),
{
    if a.len() > 0 && a[0] == b[0] && b[0] == c[0] {
        lemma_lex_transitive(a.skip(1), b.skip(1), c.skip(1));
    }
}

/// Whether `a` comes before `b` in the order of names.
pub fn bytes_lt(a: &[u8], b: &[u8]) -> (r: bool)
    ensures
        r == lex_lt(a@, b@),
{
    let mut i: usize = 0;
    assert(a@.skip(0) =~= a@);
    assert(b@.skip(0) =~= b@);
    while i < a.len() && i < b.len()
        invariant
            i <= a.len(),
            i <= b.len(),
            lex_lt(a@, b@) == lex_lt(a@.skip(i as int), b@.skip(i as int)),
        decreases a.len() - i,
    {
        if a[i] != b[i] {
            return a[i] < b[i];
        }
        proof {
            assert(a@.skip(i as int).skip(1) =~= a@.skip(i + 1));
            assert(b@.skip(i as int).skip(1) =~= b@.skip(i + 1));
        }
        i = i + 1;
    }
    i < b.len()
}

/// Whether the name `a` comes before the name `b`.
pub fn str_lt(a: &str, b: &str) -> (r: bool)
    ensures
        r == name_lt(a@, b@),
{
    bytes_lt(a.as_bytes(), b.as_bytes())
}

/// The names of chromosomes, in the order given.
pub open spec fn chrom_names(chroms: Seq<ChromView>) -> Seq<Seq<char>> {
    chroms.map_values(|c: ChromView| c.name)
}

/// The places of `order` with `x` put in: after the last place whose name does not come
/// after that of `x`.
pub open spec fn insert_sorted(order: Seq<int>, names: Seq<Seq<char>>, x: int) -> Seq<int>
    decreases order.len(),
{
    if order.len() == 0 {
        seq![x]
    } else if !name_lt(names[x], names[order.last()]) {
        order.push(x)
    } else {
        insert_sorted(order.drop_last(), names, x).push(order.last())
    }
}

/// The first `n` places of `names` in the order of their names; places with the same name
/// keep their order.
pub open spec fn sorted_order(names: Seq<Seq<char>>, n: nat) -> Seq<int>
    decreases n,
{
    if n == 0 {
        Seq::empty()
    } else {
        insert_sorted(sorted_order(names, (n - 1) as nat), names, n - 1)
    }
}

/// Whether `order` lists places of `names` with no name before the one it follows.
pub open spec fn is_sorted(order: Seq<int>, names: Seq<Seq<char>>) -> bool {
    forall|i: int|
        0 <= i < order.len() - 1 ==> !name_lt(
            names[#[trigger] order[i + 1]],
            names[order[i]],
        )
}

/// How often the place `x` occurs in `order`.
pub open spec fn occurrences(order: Seq<int>, x: int) -> nat
    decreases order.len(),
{
    if order.len() == 0 {
        0
    } else {
        occurrences(order.drop_last(), x) + if order.last() == x {
            1nat
        } else {
            0nat
        }
    }
}

/// Putting a place in keeps the order sorted, adds that place once, and leaves every
/// other place as often as it was.
pub proof fn lemma_insert_sorted(order: Seq<int>, names: Seq<Seq<char>>, x: int)
    requires
        is_sorted(order, names),
    ensures
        is_sorted(insert_sorted(order, names, x), names),
        insert_sorted(order, names, x).len() == order.len() + 1,
        insert_sorted(order, names, x).last() == x || (order.len() > 0 && insert_sorted(
            order,
            names,
            x,
        ).last() == order.last()),
        forall|y: int|
            occurrences(insert_sorted(order, names, x), y) == occurrences(order, y) + if y == x {
                1nat
            } else {
                0nat
            },
    decreases order.len(),
{
    let out = insert_sorted(order, names, x);
    if order.len() == 0 {
        assert(out.drop_last() =~= order);
    } else if !name_lt(names[x], names[order.last()]) {
        assert(out.drop_last() =~= order);
        assert forall|i: int| 0 <= i < out.len() - 1 implies !name_lt(
            names[#[trigger] out[i + 1]],
            names[out[i]],
        ) by {
            if i < order.len() - 1 {
                assert(out[i + 1] == order[i + 1]);
            }
        }
    } else {
        let before = order.drop_last();
        assert forall|i: int| 0 <= i < before.len() - 1 implies !name_lt(
            names[#[trigger] before[i + 1]],
            names[before[i]],
        ) by {
            assert(before[i + 1] == order[i + 1]);
        }
        lemma_insert_sorted(before, names, x);
        let inner = insert_sorted(before, names, x);
        assert(out.drop_last() =~= inner);
        lemma_lex_total(name_bytes(names[x]), name_bytes(names[order.last()]));
        assert forall|i: int| 0 <= i < out.len() - 1 implies !name_lt(
            names[#[trigger] out[i + 1]],
            names[out[i]],
        ) by {
            if i < inner.len() - 1 {
                assert(out[i + 1] == inner[i + 1]);
                assert(out[i] == inner[i]);
            } else {
                assert(out[i] == inner.last());
                assert(out[i + 1] == order.last());
                if inner.last() != x {
                    assert(before.last() == order[order.len() - 2]);
                    assert(order[order.len() - 2 + 1] == order.last());
                }
            }
        }
    }
    assert forall|y: int|
        occurrences(out, y) == occurrences(order, y) + if y == x {
            1nat
        } else {
            0nat
        } by {
        if order.len() == 0 || !name_lt(names[x], names[order.last()]) {
            assert(out.last() == x);
            assert(occurrences(out, y) == occurrences(out.drop_last(), y) + if out.last() == y {
                1nat
            } else {
                0nat
            });
        } else {
            assert(out.last() == order.last());
            assert(occurrences(out, y) == occurrences(out.drop_last(), y) + if out.last() == y {
                1nat
            } else {
                0nat
            });
        }
    }
}

/// The places in the order of their names are sorted, and each of the first `n` places
/// occurs among them once, and no other.
pub proof fn lemma_sorted_order(names: Seq<Seq<char>>, n: nat)
    ensures
        is_sorted(sorted_order(names, n), names),
        sorted_order(names, n).len() == n,
        forall|y: int|
            occurrences(sorted_order(names, n), y) == if 0 <= y < n {
                1nat
            } else {
                0nat
            },
    decreases n,
{
    if n > 0 {
        lemma_sorted_order(names, (n - 1) as nat);
        lemma_insert_sorted(sorted_order(names, (n - 1) as nat), names, n - 1);
    }
}

/// A place that occurs in `order` is one of its items, and an item occurs.
pub proof fn lemma_occurs(order: Seq<int>, i: int)
    requires
        0 <= i < order.len(),
    ensures
        occurrences(order, order[i]) >= 1,
    decreases order.len(),
{
    if i < order.len() - 1 {
        lemma_occurs(order.drop_last(), i);
    }
}

/// Putting a place in is putting it at the first position from which on every name comes
/// after its own.
pub proof fn lemma_insert_at(order: Seq<int>, names: Seq<Seq<char>>, x: int, p: int)
    requires
        0 <= p <= order.len(),
        forall|k: int| p <= k < order.len() ==> name_lt(names[x], names[#[trigger] order[k]]),
        p > 0 ==> !name_lt(names[x], names[order[p - 1]]),
    ensures
        insert_sorted(order, names, x) == order.insert(p, x),
    decreases order.len() - p,
{
    if p == order.len() {
        assert(order.push(x) =~= order.insert(p, x));
        assert(seq![x] =~= Seq::<int>::empty().insert(0, x));
        if order.len() == 0 {
            assert(order =~= Seq::<int>::empty());
        }
    } else {
        assert(name_lt(names[x], names[order[order.len() - 1]]));
        let before = order.drop_last();
        assert forall|k: int| p <= k < before.len() implies name_lt(
            names[x],
            names[#[trigger] before[k]],
        ) by {
            assert(before[k] == order[k]);
        }
        lemma_insert_at(before, names, x, p);
        assert(before.insert(p, x).push(order.last()) =~= order.insert(p, x));
    }
}

/// The places of `order` as whole numbers.
pub open spec fn places(order: Seq<usize>) -> Seq<int> {
    order.map_values(|i: usize| i as int)
}

/// Lists the places of `chroms` in the order of their names.
pub fn sort_by_name(chroms: &Vec<ChromInfo>) -> (order: Vec<usize>)
    ensures
        places(order@) == sorted_order(chrom_names(chrom_views(chroms@)), chroms@.len()),
{
    let n = chroms.len();
    let ghost names = chrom_names(chrom_views(chroms@));
    let mut order: Vec<usize> = Vec::new();
    let mut x: usize = 0;
    assert(places(order@) =~= sorted_order(names, 0));
    while x < n
        invariant
            x <= n,
            n == chroms.len(),
            names == chrom_names(chrom_views(chroms@)),
            places(order@) == sorted_order(names, x as nat),
            order@.len() == x,
            forall|k: int| 0 <= k < order@.len() ==> 0 <= #[trigger] order@[k] < x,
        decreases n - x,
    {
        let mut p: usize = order.len();
        loop
            invariant
                p <= order.len(),
                x < n,
                n == chroms.len(),
                names == chrom_names(chrom_views(chroms@)),
                forall|k: int| 0 <= k < order@.len() ==> 0 <= #[trigger] order@[k] < x,
                forall|k: int|
                    p <= k < order@.len() ==> name_lt(
                        names[x as int],
                        names[#[trigger] places(order@)[k]],
                    ),
            ensures
                p <= order.len(),
                forall|k: int|
                    p <= k < order@.len() ==> name_lt(
                        names[x as int],
                        names[#[trigger] places(order@)[k]],
                    ),
                p > 0 ==> !name_lt(names[x as int], names[places(order@)[p - 1]]),
            decreases p,
        {
            if p == 0 {
                break ;
            }
            let other = order[p - 1];
            if !str_lt(chroms[x].name.as_str(), chroms[other].name.as_str()) {
                break ;
            }
            p = p - 1;
        }
        proof {
            lemma_insert_at(places(order@), names, x as int, p as int);
            assert(places(order@.insert(p as int, x)) =~= places(order@).insert(
                p as int,
                x as int,
            ));
        }
        order.insert(p, x);
        x = x + 1;
    }
    order
}

/// The longest name of `chroms`, in bytes.
pub open spec fn longest_name(chroms: Seq<ChromView>) -> nat
    decreases chroms.len(),
{
    if chroms.len() == 0 {
        0
    } else {
        let before = longest_name(chroms.drop_last());
        let last = name_bytes(chroms.last().name).len();
        if last > before {
            last
        } else {
            before
        }
    }
}

/// A name as a key of `key_size` bytes: its bytes, then zeros.
pub open spec fn padded_key(name: Seq<u8>, key_size: int) -> Seq<u8> {
    name + Seq::new((key_size - name.len()) as nat, |i: int| 0u8)
}

/// The bytes of one chromosome's entry: its key, its id, its length.
pub open spec fn chrom_entry_bytes(c: ChromView, key_size: int) -> Seq<u8> {
    padded_key(name_bytes(c.name), key_size) + u32_le(c.id) + u32_le(c.length)
}

/// The bytes of the entries of `chroms` at the places `order`.
pub open spec fn chrom_entries_bytes(chroms: Seq<ChromView>, order: Seq<int>, key_size: int)
    -> Seq<u8>
    decreases order.len(),
{
    if order.len() == 0 {
        Seq::empty()
    } else {
        chrom_entries_bytes(chroms, order.drop_last(), key_size) + chrom_entry_bytes(
            chroms[order.last()],
            key_size,
        )
    }
}

/// The block size that an index of `count` chromosomes declares: enough for a single
/// block.
pub open spec fn chrom_block_size(count: int) -> u32 {
    if count > 256 {
        count as u32
    } else {
        256
    }
}

/// The bytes of the chromosome index: the magic number, the block size, the key size,
/// the size of a value, the count of chromosomes and a reserved word; then one leaf block
/// with an entry for each chromosome, in the order of the names.
pub open spec fn chrom_tree_bytes(chroms: Seq<ChromView>) -> Seq<u8> {
    let key_size = longest_name(chroms) as int;
    u32_le(CHROM_TREE_MAGIC) + u32_le(chrom_block_size(chroms.len() as int)) + u32_le(
        key_size as u32,
    ) + u32_le(8) + u64_le(chroms.len() as u64) + u64_le(0) + seq![1u8, 0u8] + u16_le(
        chroms.len() as u16,
    ) + chrom_entries_bytes(chroms, sorted_order(chrom_names(chroms), chroms.len()), key_size)
}

/// Whether the chromosome index can hold `chroms`: their count fits its 16-bit field, and
/// the length of each name its 32-bit field.
pub open spec fn chroms_fit(chroms: Seq<ChromView>) -> bool {
    &&& chroms.len() <= u16::MAX
    &&& longest_name(chroms) <= u32::MAX
}

/// No name is longer than the longest.
pub proof fn lemma_longest_name(chroms: Seq<ChromView>, i: int)
    requires
        0 <= i < chroms.len(),
    ensures
        name_bytes(chroms[i].name).len() <= longest_name(chroms),
    decreases chroms.len(),
{
    if i < chroms.len() - 1 {
        lemma_longest_name(chroms.drop_last(), i);
    }
}

/// Measures the longest name of `chroms`, where it fits in 32 bits.
pub fn key_size(chroms: &Vec<ChromInfo>) -> (r: Option<u32>)
    ensures
        match r {
            Some(size) => size == longest_name(chrom_views(chroms@)),
            None => longest_name(chrom_views(chroms@)) > u32::MAX,
        },
{
    let n = chroms.len();
    let ghost views = chrom_views(chroms@);
    let mut longest: usize = 0;
    let mut i: usize = 0;
    assert(views.take(0) =~= Seq::<ChromView>::empty());
    while i < n
        invariant
            i <= n,
            n == chroms.len(),
            views == chrom_views(chroms@),
            longest == longest_name(views.take(i as int)),
        decreases n - i,
    {
        let len = chroms[i].name.as_str().as_bytes().len();
        proof {
            assert(views.take(i + 1).drop_last() =~= views.take(i as int));
            assert(views.take(i + 1).last() == chroms@[i as int]@);
        }
        if len > longest {
            longest = len;
        }
        i = i + 1;
    }
    assert(views.take(n as int) =~= views);
    if longest > u32::MAX as usize {
        None
    } else {
        Some(longest as u32)
    }
}

/// Appends the chromosome index.
pub fn write_chrom_tree(file: &mut Vec<u8>, chroms: &Vec<ChromInfo>)
    requires
        chroms_fit(chrom_views(chroms@)),
    ensures
        final(file)@ == old(file)@ + chrom_tree_bytes(chrom_views(chroms@)),
{
    let n = chroms.len();
    let ghost views = chrom_views(chroms@);
    let key_size: u32 = match key_size(chroms) {
        Some(size) => size,
        None => 0,
    };
    let block_size: u32 = if n > CHROM_TREE_BLOCK_SIZE as usize {
        n as u32
    } else {
        CHROM_TREE_BLOCK_SIZE
    };
    put_u32(file, CHROM_TREE_MAGIC);
    put_u32(file, block_size);
    put_u32(file, key_size);
    put_u32(file, 8);
    put_u64(file, n as u64);
    put_u64(file, 0);
    file.push(1);
    file.push(0);
    put_u16(file, n as u16);
    let order = sort_by_name(chroms);
    let ghost opened = file@;
    let ghost sorted = places(order@);
    proof {
        lemma_sorted_order(chrom_names(views), views.len());
    }
    assert(opened =~= old(file)@ + (u32_le(CHROM_TREE_MAGIC) + u32_le(
        chrom_block_size(chroms@.len() as int),
    ) + u32_le(key_size) + u32_le(8) + u64_le(chroms@.len() as u64) + u64_le(0) + seq![
        1u8,
        0u8,
    ] + u16_le(chroms@.len() as u16)));
    let mut i: usize = 0;
    assert(sorted.take(0) =~= Seq::<int>::empty());
    while i < n
        invariant
            i <= n,
            n == chroms.len(),
            n == order.len(),
            sorted == places(order@),
            views == chrom_views(chroms@),
            sorted == sorted_order(chrom_names(views), views.len()),
            key_size == longest_name(views),
            forall|y: int|
                occurrences(sorted, y) == if 0 <= y < n {
                    1nat
                } else {
                    0nat
                },
            file@ == opened + chrom_entries_bytes(views, sorted.take(i as int), key_size as int),
        decreases n - i,
    {
        let place = order[i];
        proof {
            lemma_occurs(sorted, i as int);
            assert(sorted[i as int] == place);
            lemma_longest_name(views, place as int);
            assert(sorted.take(i + 1).drop_last() =~= sorted.take(i as int));
        }
        let chrom = &chroms[place];
        let name = chrom.name.as_str().as_bytes();
        let ghost before = file@;
        let mut k: usize = 0;
        while k < name.len()
            invariant
                k <= name.len(),
                file@ == before + name@.take(k as int),
            decreases name.len() - k,
        {
            file.push(name[k]);
            assert(file@ =~= before + name@.take(k + 1));
            k = k + 1;
        }
        assert(name@.take(name.len() as int) =~= name@);
        let ghost named = file@;
        let pad: usize = key_size as usize - name.len();
        let mut z: usize = 0;
        while z < pad
            invariant
                z <= pad,
                file@ == named + Seq::new(z as nat, |i: int| 0u8),
            decreases pad - z,
        {
            file.push(0);
            assert(file@ =~= named + Seq::new((z + 1) as nat, |i: int| 0u8));
            z = z + 1;
        }
        put_u32(file, chrom.id);
        put_u32(file, chrom.length);
        assert(file@ =~= before + chrom_entry_bytes(views[place as int], key_size as int));
        i = i + 1;
    }
    assert(sorted.take(n as int) =~= sorted);
}

} // verus!
