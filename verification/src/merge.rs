//! Laying the records of several tracks over one another.
//!
//! The bases of a chromosome are cut at every place where a record of any of the tracks
//! starts or ends. Between two neighbouring cuts lies a window in which nothing changes:
//! a record covers all of it or none of it. For each window the values of the records that
//! cover it are gathered, one from each track that has one there, in the order of the
//! tracks. What the values of a window amount to is left to the caller.

use vstd::prelude::*;
use crate::bbi::Value;

verus! {

/// Whether the records of a track lie in order: none is empty, and none starts before an
/// earlier one ends.
pub open spec fn ordered(list: Seq<Value>) -> bool {
    &&& forall|i: int| 0 <= i < list.len() ==> (#[trigger] list[i]).start < list[i].end
    &&& forall|i: int, j: int|
        0 <= i < j < list.len() ==> (#[trigger] list[i]).end <= (#[trigger] list[j]).start
}

/// Whether each number is no less than those before it.
pub open spec fn ascending(s: Seq<u32>) -> bool {
    forall|i: int, j: int| 0 <= i < j < s.len() ==> s[i] <= s[j]
}

/// Whether each number is greater than those before it.
pub open spec fn rising(s: Seq<u32>) -> bool {
    forall|i: int, j: int| 0 <= i < j < s.len() ==> s[i] < s[j]
}

/// Whether a record of one of the tracks starts or ends at `p`.
pub open spec fn is_cut(lists: Seq<Vec<Value>>, p: u32) -> bool {
    exists|l: int, i: int|
        #![trigger lists[l]@[i]]
        0 <= l < lists.len() && 0 <= i < lists[l]@.len() && (lists[l]@[i].start == p
            || lists[l]@[i].end == p)
}

/// Whether `cuts` are the places where a record of one of the tracks starts or ends, each
/// once and in rising order.
pub open spec fn cuts_match(cuts: Seq<u32>, lists: Seq<Vec<Value>>) -> bool {
    &&& rising(cuts)
    &&& forall|p: u32| cuts.contains(p) <==> is_cut(lists, p)
}

/// Whether the record `v` covers the bases `start..end`.
pub open spec fn holds(v: Value, start: u32, end: u32) -> bool {
    v.start <= start && end <= v.end
}

/// The value of the first record of a track that covers the bases `start..end`, and none
/// where no record does.
pub open spec fn covering(list: Seq<Value>, start: u32, end: u32) -> Option<u32>
    decreases list.len(),
{
    if list.len() == 0 {
        None
    } else if holds(list.first(), start, end) {
        Some(list.first().value)
    } else {
        covering(list.drop_first(), start, end)
    }
}

/// The values that the tracks have on the bases `start..end`: one from each track that
/// covers them, in the order of the tracks.
pub open spec fn window_values(lists: Seq<Vec<Value>>, start: u32, end: u32) -> Seq<u32>
    decreases lists.len(),
{
    if lists.len() == 0 {
        Seq::empty()
    } else {
        window_values(lists.drop_last(), start, end) + match covering(
            lists.last()@,
            start,
            end,
        ) {
            Some(v) => seq![v],
            None => Seq::empty(),
        }
    }
}

/// A stretch of bases between two neighbouring cuts, with the values that lie on it.
#[derive(Debug)]
pub struct Window {
    pub start: u32,
    pub end: u32,
    /// The bits of the single-precision values of the records that cover the stretch.
    pub values: Vec<u32>,
}

/// Whether `windows` are the stretches between the neighbours of `cuts`, in order, each
/// with the values that the tracks have on it.
pub open spec fn windows_match(windows: Seq<Window>, lists: Seq<Vec<Value>>, cuts: Seq<u32>)
    -> bool {
    &&& windows.len() == if cuts.len() == 0 {
        0
    } else {
        cuts.len() - 1
    }
    &&& forall|x: int|
        0 <= x < windows.len() ==> {
            &&& (#[trigger] windows[x]).start == cuts[x]
            &&& windows[x].end == cuts[x + 1]
            &&& windows[x].values@ == window_values(lists, cuts[x], cuts[x + 1])
        }
}

/// Two rows that hold the same numbers, each in rising order, are the same row: the
/// places where the tracks are cut come in one order only.
pub proof fn lemma_rising_unique(a: Seq<u32>, b: Seq<u32>)
    requires
        rising(a),
        rising(b),
        forall|p: u32| a.contains(p) <==> b.contains(p),
    ensures
        a == b,
    decreases a.len(),
{
    if a.len() == 0 {
        if b.len() > 0 {
            assert(b.contains(b[0]));
            assert(a.contains(b[0]));
        }
        assert(a =~= b);
    } else {
        assert(a.contains(a.last()));
        assert(b.contains(a.last()));
        let y = choose|y: int| 0 <= y < b.len() && b[y] == a.last();
        assert(b.contains(b.last()));
        assert(a.contains(b.last()));
        let x = choose|x: int| 0 <= x < a.len() && a[x] == b.last();
        assert(a.last() == b.last()) by {
            if x < a.len() - 1 {
                assert(a[x] < a[a.len() - 1]);
            }
            if y < b.len() - 1 {
                assert(b[y] < b[b.len() - 1]);
            }
        }
        let short_a = a.drop_last();
        let short_b = b.drop_last();
        assert forall|p: u32| short_a.contains(p) <==> short_b.contains(p) by {
            if short_a.contains(p) {
                let i = choose|i: int| 0 <= i < short_a.len() && short_a[i] == p;
                assert(a[i] == p && a[i] < a[a.len() - 1]);
                assert(a.contains(p));
                let j = choose|j: int| 0 <= j < b.len() && b[j] == p;
                assert(short_b[j] == p);
            }
            if short_b.contains(p) {
                let j = choose|j: int| 0 <= j < short_b.len() && short_b[j] == p;
                assert(b[j] == p && b[j] < b[b.len() - 1]);
                assert(b.contains(p));
                let i = choose|i: int| 0 <= i < a.len() && a[i] == p;
                assert(short_a[i] == p);
            }
        }
        assert(rising(short_a)) by {
            assert forall|i: int, j: int| 0 <= i < j < short_a.len() implies short_a[i]
                < short_a[j] by {
                assert(a[i] < a[j]);
            }
        }
        assert(rising(short_b)) by {
            assert forall|i: int, j: int| 0 <= i < j < short_b.len() implies short_b[i]
                < short_b[j] by {
                assert(b[i] < b[j]);
            }
        }
        lemma_rising_unique(short_a, short_b);
        assert(a =~= short_a.push(a.last()));
        assert(b =~= short_b.push(b.last()));
    }
}

/// Whether `windows` are the tracks laid over one another: the stretches between the
/// places where a record of any track starts or ends, in order, each with the values
/// that the tracks have on it.
pub open spec fn laid_over(windows: Seq<Window>, lists: Seq<Vec<Value>>) -> bool {
    exists|cuts: Seq<u32>|
        cuts_match(cuts, lists) && #[trigger] windows_match(windows, lists, cuts)
}

/// The first record that covers a stretch is the one at `at` where none before it does
/// and it does, and there is none where no record does.
pub proof fn lemma_covering(list: Seq<Value>, start: u32, end: u32, at: int)
    requires
        0 <= at <= list.len(),
        forall|i: int| 0 <= i < at ==> !holds(#[trigger] list[i], start, end),
        at < list.len() ==> holds(list[at], start, end),
    ensures
        covering(list, start, end) == if at < list.len() {
            Some(list[at].value)
        } else {
            None
        },
    decreases list.len(),
{
    if list.len() > 0 && at > 0 {
        let rest = list.drop_first();
        assert(!holds(list[0], start, end));
        assert forall|i: int| 0 <= i < at - 1 implies !holds(#[trigger] rest[i], start, end) by {
            assert(rest[i] == list[i + 1]);
        }
        lemma_covering(rest, start, end, at - 1);
    }
}

/// Checks that the records of a track lie in order.
pub fn is_ordered(list: &Vec<Value>) -> (r: bool)
    ensures
        r == ordered(list@),
{
    let mut i: usize = 0;
    while i < list.len()
        invariant
            i <= list.len(),
            ordered(list@.take(i as int)),
        decreases list.len() - i,
    {
        if list[i].start >= list[i].end {
            return false;
        }
        if i > 0 && list[i - 1].end > list[i].start {
            return false;
        }
        proof {
            let before = list@.take(i as int);
            let now = list@.take(i + 1);
            assert forall|x: int, y: int| 0 <= x < y < now.len() implies (#[trigger] now[x]).end
                <= (#[trigger] now[y]).start by {
                if y < i {
                    assert(before[x] == now[x] && before[y] == now[y]);
                } else if x < i - 1 {
                    assert(before[x].end <= before[i - 1].start);
                    assert(before[i - 1].start < before[i - 1].end);
                }
            }
            assert forall|x: int| 0 <= x < now.len() implies (#[trigger] now[x]).start
                < now[x].end by {
                if x < i {
                    assert(before[x] == now[x]);
                }
            }
        }
        i += 1;
    }
    proof {
        assert(list@.take(i as int) =~= list@);
    }
    true
}

/// Joins two rows of numbers, each in order, into one row that holds every number of
/// either once, in rising order.
fn merge_sorted(a: &Vec<u32>, b: &Vec<u32>) -> (out: Vec<u32>)
    requires
        ascending(a@),
        ascending(b@),
    ensures
        rising(out@),
        forall|p: u32| out@.contains(p) <==> a@.contains(p) || b@.contains(p),
{
    let mut out: Vec<u32> = Vec::new();
    let mut i: usize = 0;
    let mut j: usize = 0;
    while i < a.len() || j < b.len()
        invariant
            i <= a.len(),
            j <= b.len(),
            ascending(a@),
            ascending(b@),
            rising(out@),
            forall|k: int|
                0 <= k < out@.len() ==> a@.contains(#[trigger] out@[k]) || b@.contains(out@[k]),
            forall|x: int| 0 <= x < i ==> out@.contains(#[trigger] a@[x]),
            forall|y: int| 0 <= y < j ==> out@.contains(#[trigger] b@[y]),
            forall|k: int| 0 <= k < out@.len() && i < a.len() ==> #[trigger] out@[k] <= a@[i as int],
            forall|k: int| 0 <= k < out@.len() && j < b.len() ==> #[trigger] out@[k] <= b@[j as int],
        decreases a.len() - i + b.len() - j,
    {
        let from_a = j >= b.len() || (i < a.len() && a[i] <= b[j]);
        let p: u32 = if from_a {
            a[i]
        } else {
            b[j]
        };
        let ghost before = out@;
        let fresh = out.len() == 0 || out[out.len() - 1] < p;
        if fresh {
            out.push(p);
        }
        proof {
            assert(out@.contains(p)) by {
                if fresh {
                    assert(out@[out@.len() - 1] == p);
                } else {
                    assert(before[before.len() - 1] <= p);
                    assert(out@[out@.len() - 1] == p);
                }
            }
            assert forall|k: int| 0 <= k < before.len() implies out@[k] == before[k] by {}
            assert forall|v: u32| before.contains(v) implies out@.contains(v) by {
                let k = choose|k: int| 0 <= k < before.len() && before[k] == v;
                assert(out@[k] == v);
            }
            assert forall|k: int| 0 <= k < out@.len() implies a@.contains(#[trigger] out@[k])
                || b@.contains(out@[k]) by {
                if k < before.len() {
                    assert(out@[k] == before[k]);
                } else if from_a {
                    assert(a@[i as int] == p);
                } else {
                    assert(b@[j as int] == p);
                }
            }
            assert forall|x: int, y: int| 0 <= x < y < out@.len() implies out@[x] < out@[y] by {
                if y < before.len() {
                    assert(before[x] < before[y]);
                } else {
                    assert(before[x] <= before[before.len() - 1]) by {
                        if x < before.len() - 1 {
                            assert(before[x] < before[before.len() - 1]);
                        }
                    }
                }
            }
            assert forall|k: int| 0 <= k < out@.len() implies #[trigger] out@[k] <= p by {
                if k < before.len() {
                    assert(out@[k] == before[k]);
                }
            }
        }
        if from_a {
            i += 1;
        } else {
            j += 1;
        }
    }
    proof {
        assert forall|p: u32| out@.contains(p) <==> a@.contains(p) || b@.contains(p) by {
            if out@.contains(p) {
                let k = choose|k: int| 0 <= k < out@.len() && out@[k] == p;
                assert(a@.contains(out@[k]) || b@.contains(out@[k]));
            }
            if a@.contains(p) {
                let x = choose|x: int| 0 <= x < a@.len() && a@[x] == p;
                assert(out@.contains(a@[x]));
            }
            if b@.contains(p) {
                let y = choose|y: int| 0 <= y < b@.len() && b@[y] == p;
                assert(out@.contains(b@[y]));
            }
        }
    }
    out
}

/// Where the records of a track start, or where they end.
fn edges(list: &Vec<Value>, ends: bool) -> (out: Vec<u32>)
    requires
        ordered(list@),
    ensures
        ascending(out@),
        out@.len() == list@.len(),
        forall|i: int|
            0 <= i < list@.len() ==> #[trigger] out@[i] == if ends {
                list@[i].end
            } else {
                list@[i].start
            },
{
    let mut out: Vec<u32> = Vec::new();
    let mut i: usize = 0;
    while i < list.len()
        invariant
            i <= list.len(),
            out@.len() == i,
            forall|k: int|
                0 <= k < i ==> #[trigger] out@[k] == if ends {
                    list@[k].end
                } else {
                    list@[k].start
                },
        decreases list.len() - i,
    {
        out.push(if ends {
            list[i].end
        } else {
            list[i].start
        });
        i += 1;
    }
    proof {
        assert forall|x: int, y: int| 0 <= x < y < out@.len() implies out@[x] <= out@[y] by {
            assert(list@[x].end <= list@[y].start);
            assert(list@[x].start < list@[x].end);
            assert(list@[y].start < list@[y].end);
        }
    }
    out
}

/// The places where a record of one of the tracks starts or ends, each once and in
/// rising order.
fn cut_points(lists: &Vec<Vec<Value>>) -> (cuts: Vec<u32>)
    requires
        forall|l: int| 0 <= l < lists@.len() ==> ordered(#[trigger] lists@[l]@),
    ensures
        cuts_match(cuts@, lists@),
{
    let mut cuts: Vec<u32> = Vec::new();
    let mut l: usize = 0;
    while l < lists.len()
        invariant
            l <= lists.len(),
            forall|l: int| 0 <= l < lists@.len() ==> ordered(#[trigger] lists@[l]@),
            cuts_match(cuts@, lists@.take(l as int)),
        decreases lists.len() - l,
    {
        let starts = edges(&lists[l], false);
        let ends = edges(&lists[l], true);
        let ghost before = cuts@;
        let with_starts = merge_sorted(&cuts, &starts);
        cuts = merge_sorted(&with_starts, &ends);
        proof {
            let list = lists@[l as int]@;
            let old_lists = lists@.take(l as int);
            let new_lists = lists@.take(l + 1);
            assert forall|p: u32| cuts@.contains(p) <==> is_cut(new_lists, p) by {
                if cuts@.contains(p) {
                    if before.contains(p) {
                        assert(is_cut(old_lists, p));
                        let (m, i) = choose|m: int, i: int|
                            #![trigger old_lists[m]@[i]]
                            0 <= m < old_lists.len() && 0 <= i < old_lists[m]@.len() && (
                            old_lists[m]@[i].start == p || old_lists[m]@[i].end == p);
                        assert(new_lists[m]@[i] == old_lists[m]@[i]);
                    } else if starts@.contains(p) {
                        let i = choose|i: int| 0 <= i < starts@.len() && starts@[i] == p;
                        assert(new_lists[l as int]@[i].start == p);
                    } else {
                        let i = choose|i: int| 0 <= i < ends@.len() && ends@[i] == p;
                        assert(new_lists[l as int]@[i].end == p);
                    }
                }
                if is_cut(new_lists, p) {
                    let (m, i) = choose|m: int, i: int|
                        #![trigger new_lists[m]@[i]]
                        0 <= m < new_lists.len() && 0 <= i < new_lists[m]@.len() && (
                        new_lists[m]@[i].start == p || new_lists[m]@[i].end == p);
                    if m < l {
                        assert(old_lists[m]@[i] == new_lists[m]@[i]);
                        assert(is_cut(old_lists, p));
                    } else if list[i].start == p {
                        assert(starts@[i] == p);
                    } else {
                        assert(ends@[i] == p);
                    }
                }
            }
        }
        l += 1;
    }
    proof {
        assert(lists@.take(l as int) =~= lists@);
    }
    cuts
}

/// Whether the sweep has left behind, in each track, only records that end at `start`
/// or before it: `next` holds for each track the record at which the sweep stands.
pub open spec fn swept(next: Seq<usize>, lists: Seq<Vec<Value>>, start: u32) -> bool {
    &&& next.len() == lists.len()
    &&& forall|l: int|
        0 <= l < lists.len() ==> {
            &&& (#[trigger] next[l]) <= lists[l]@.len()
            &&& forall|i: int| 0 <= i < next[l] ==> (#[trigger] lists[l]@[i]).end <= start
        }
}

/// The value of the record of a track that covers the bases `start..end`, looked for from
/// record `from` on, and the record at which the search came to stand.
fn find_covering(list: &Vec<Value>, from: usize, start: u32, end: u32) -> (r: (usize, Option<u32>))
    requires
        ordered(list@),
        start < end,
        from <= list@.len(),
        forall|i: int| 0 <= i < from ==> (#[trigger] list@[i]).end <= start,
    ensures
        r.0 <= list@.len(),
        forall|i: int| 0 <= i < r.0 ==> (#[trigger] list@[i]).end <= start,
        r.1 == covering(list@, start, end),
{
    let mut at = from;
    while at < list.len() && list[at].end <= start
        invariant
            at <= list.len(),
            forall|i: int| 0 <= i < at ==> (#[trigger] list@[i]).end <= start,
        decreases list.len() - at,
    {
        at += 1;
    }
    if at < list.len() && list[at].start <= start && end <= list[at].end {
        proof {
            lemma_covering(list@, start, end, at as int);
        }
        (at, Some(list[at].value))
    } else {
        proof {
            assert forall|i: int| 0 <= i < list@.len() implies !holds(
                #[trigger] list@[i],
                start,
                end,
            ) by {
                if i > at {
                    assert(list@[at as int].end <= list@[i].start);
                }
            }
            lemma_covering(list@, start, end, list@.len() as int);
        }
        (at, None)
    }
}

/// The values that the tracks have on the bases `start..end`, for a sweep that stands at
/// `next` and goes on from there.
fn window_at(lists: &Vec<Vec<Value>>, next: &mut Vec<usize>, start: u32, end: u32) -> (values:
    Vec<u32>)
    requires
        forall|l: int| 0 <= l < lists@.len() ==> ordered(#[trigger] lists@[l]@),
        start < end,
        swept(old(next)@, lists@, start),
    ensures
        swept(final(next)@, lists@, start),
        values@ == window_values(lists@, start, end),
{
    let mut values: Vec<u32> = Vec::new();
    let mut l: usize = 0;
    while l < lists.len()
        invariant
            l <= lists.len(),
            forall|l: int| 0 <= l < lists@.len() ==> ordered(#[trigger] lists@[l]@),
            start < end,
            swept(next@, lists@, start),
            values@ == window_values(lists@.take(l as int), start, end),
        decreases lists.len() - l,
    {
        let ghost before = next@;
        let found = find_covering(&lists[l], next[l], start, end);
        next.set(l, found.0);
        match found.1 {
            Some(v) => {
                values.push(v);
            },
            None => {},
        }
        proof {
            assert(lists@.take(l + 1).drop_last() =~= lists@.take(l as int));
            assert(lists@.take(l + 1).last() == lists@[l as int]);
            assert forall|m: int| 0 <= m < lists@.len() implies {
                &&& (#[trigger] next@[m]) <= lists@[m]@.len()
                &&& forall|i: int| 0 <= i < next@[m] ==> (#[trigger] lists@[m]@[i]).end <= start
            } by {
                if m != l {
                    assert(next@[m] == before[m]);
                }
            }
        }
        l += 1;
    }
    proof {
        assert(lists@.take(l as int) =~= lists@);
    }
    values
}

/// Lays the records of the tracks over one another: the stretches between the places
/// where a record of any track starts or ends, in rising order, each with the values of
/// the records that cover it. There is no result where the records of a track do not lie
/// in order.
pub fn merge_windows(lists: &Vec<Vec<Value>>) -> (r: Option<Vec<Window>>)
    ensures
        r is Some <==> forall|l: int| 0 <= l < lists@.len() ==> ordered(#[trigger] lists@[l]@),
        r matches Some(windows) ==> laid_over(windows@, lists@),
{
    let mut next: Vec<usize> = Vec::new();
    let mut l: usize = 0;
    while l < lists.len()
        invariant
            l <= lists.len(),
            next@.len() == l,
            forall|m: int| 0 <= m < l ==> ordered(#[trigger] lists@[m]@),
            forall|m: int| 0 <= m < l ==> #[trigger] next@[m] == 0,
        decreases lists.len() - l,
    {
        if !is_ordered(&lists[l]) {
            return None;
        }
        next.push(0);
        l += 1;
    }
    let cuts = cut_points(lists);
    let mut windows: Vec<Window> = Vec::new();
    let mut w: usize = 0;
    while cuts.len() > 0 && w < cuts.len() - 1
        invariant
            forall|m: int| 0 <= m < lists@.len() ==> ordered(#[trigger] lists@[m]@),
            cuts_match(cuts@, lists@),
            windows@.len() == w,
            w < cuts@.len() || (cuts@.len() == 0 && w == 0),
            w < cuts@.len() ==> swept(next@, lists@, cuts@[w as int]),
            forall|x: int|
                0 <= x < w ==> {
                    &&& (#[trigger] windows@[x]).start == cuts@[x]
                    &&& windows@[x].end == cuts@[x + 1]
                    &&& windows@[x].values@ == window_values(lists@, cuts@[x], cuts@[x + 1])
                },
        decreases cuts.len() - w,
    {
        let start = cuts[w];
        let end = cuts[w + 1];
        let values = window_at(lists, &mut next, start, end);
        let ghost before = windows@;
        windows.push(Window { start, end, values });
        proof {
            assert forall|x: int| 0 <= x < w implies windows@[x] == before[x] by {}
        }
        w += 1;
    }
    proof {
        assert(windows_match(windows@, lists@, cuts@));
    }
    Some(windows)
}

} // verus!
