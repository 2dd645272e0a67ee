//! The zoom ladder: for each resolution, the windows that summarise a chromosome.
//!
//! A window of resolution `r` opens at the first base of a record that no earlier window of
//! that resolution reaches, and takes in every base of the following records up to `r` bases
//! past its start. It closes once a record reaches that far, or when the chromosome ends.

use vstd::prelude::*;
use crate::bbi::Value;
use crate::bbi::ValueStats;
use crate::bbi::ZoomRecord;

verus! {

/// What a zoom window holds, in whole numbers.
pub struct Window {
    /// The first base of the window.
    pub start: int,
    /// The end of the last record taken in, cut at the window's width.
    pub end: int,
    /// How many times a record added to the window.
    pub total_items: int,
    /// How many bases of records lie in the window.
    pub bases_covered: int,
}

/// One resolution's windows while records are taken in.
pub struct ZoomState {
    /// The window that later records may still add to.
    pub live: Option<Window>,
    /// The windows that are full or left behind, oldest first.
    pub closed: Seq<Window>,
}

/// A window at `pos` that nothing has been added to.
pub open spec fn fresh_window(pos: int) -> Window {
    Window { start: pos, end: pos, total_items: 0, bases_covered: 0 }
}

/// The state before the first record.
pub open spec fn zoom_start() -> ZoomState {
    ZoomState { live: None, closed: Seq::empty() }
}

/// One step of a record that still has the bases `[pos, end)` to give: they go to the live
/// window, or to a fresh one at `pos`, as far as that window reaches. A window that they
/// fill, or that ends before `pos`, closes. The result is the new state and the first base
/// not yet given.
pub open spec fn zoom_step(st: ZoomState, pos: int, end: int, r: int) -> (ZoomState, int) {
    let w = match st.live {
        Some(w) => w,
        None => fresh_window(pos),
    };
    let reach = w.start + r;
    let add_end = if reach < end {
        reach
    } else {
        end
    };
    let w2 = if add_end >= pos {
        Window {
            start: w.start,
            end: add_end,
            total_items: w.total_items + 1,
            bases_covered: w.bases_covered + (add_end - pos),
        }
    } else {
        w
    };
    let st2 = if add_end == reach {
        ZoomState { live: None, closed: st.closed.push(w2) }
    } else {
        ZoomState { live: Some(w2), closed: st.closed }
    };
    (
        st2,
        if add_end > pos {
            add_end
        } else {
            pos
        },
    )
}

/// The state after a record has given its bases `[pos, end)`, step by step.
pub open spec fn zoom_walk(st: ZoomState, pos: int, end: int, r: int) -> ZoomState
    decreases end - pos, (if st.live is Some { 1int } else { 0int }),
{
    if pos >= end || r < 1 {
        st
    } else {
        let next = zoom_step(st, pos, end, r);
        zoom_walk(next.0, next.1, end, r)
    }
}

/// The state after all of `records`, in order.
pub open spec fn zoom_fold(records: Seq<Value>, r: int) -> ZoomState
    decreases records.len(),
{
    if records.len() == 0 {
        zoom_start()
    } else {
        let v = records.last();
        zoom_walk(zoom_fold(records.drop_last(), r), v.start as int, v.end as int, r)
    }
}

/// All windows of a state: the closed ones, then the live one.
pub open spec fn all_windows(st: ZoomState) -> Seq<Window> {
    match st.live {
        Some(w) => st.closed.push(w),
        None => st.closed,
    }
}

/// The windows of resolution `r` over a chromosome's records.
pub open spec fn zoom_windows(records: Seq<Value>, r: int) -> Seq<Window> {
    all_windows(zoom_fold(records, r))
}

/// The bases that `records` cover.
pub open spec fn records_bases(records: Seq<Value>) -> int
    decreases records.len(),
{
    if records.len() == 0 {
        0
    } else {
        records_bases(records.drop_last()) + (records.last().end - records.last().start)
    }
}

/// The bases that `windows` count.
pub open spec fn windows_bases(windows: Seq<Window>) -> int
    decreases windows.len(),
{
    if windows.len() == 0 {
        0
    } else {
        windows_bases(windows.drop_last()) + windows.last().bases_covered
    }
}

/// Records in order: none ends before it starts, none past `chrom_length`, and each ends
/// where the next starts or before.
pub open spec fn records_valid(records: Seq<Value>, chrom_length: int) -> bool {
    &&& forall|i: int|
        0 <= i < records.len() ==> (#[trigger] records[i]).start <= records[i].end
            <= chrom_length
    &&& forall|i: int|
        0 <= i < records.len() - 1 ==> (#[trigger] records[i]).end <= records[i + 1].start
}

/// A state that records up to the base `at` can have led to: closed windows are in order,
/// a width apart, and no window is wider than `r` or counts more than it spans.
pub open spec fn zoom_inv(st: ZoomState, r: int, at: int) -> bool {
    &&& forall|i: int|
        0 <= i < st.closed.len() ==> {
            let w = #[trigger] st.closed[i];
            &&& w.start <= w.end <= w.start + r
            &&& w.end <= at
            &&& 0 <= w.bases_covered <= w.end - w.start
            &&& 0 <= w.total_items <= w.end - w.start + 1
        }
    &&& forall|i: int, j: int|
        0 <= i < j < st.closed.len() ==> (#[trigger] st.closed[i]).start + r <= (
        #[trigger] st.closed[j]).start
    &&& st.live matches Some(w) ==> {
        &&& w.start <= w.end <= at
        &&& w.end < w.start + r
        &&& 0 <= w.bases_covered <= w.end - w.start
        &&& 0 <= w.total_items <= w.end - w.start
        &&& forall|i: int|
            0 <= i < st.closed.len() ==> (#[trigger] st.closed[i]).start + r <= w.start
    }
    &&& forall|i: int| 0 <= i < st.closed.len() ==> (#[trigger] st.closed[i]).start + r <= at
}

/// Counting one more window adds its bases.
pub proof fn lemma_windows_bases_push(windows: Seq<Window>, w: Window)
    ensures
        windows_bases(windows.push(w)) == windows_bases(windows) + w.bases_covered,
{
    assert(windows.push(w).drop_last() =~= windows);
}

/// A step keeps the state in order and counts exactly the bases it passes.
pub proof fn lemma_zoom_step(st: ZoomState, pos: int, end: int, r: int)
    requires
        zoom_inv(st, r, pos),
        pos < end,
        1 <= r,
    ensures
        zoom_inv(zoom_step(st, pos, end, r).0, r, zoom_step(st, pos, end, r).1),
        pos <= zoom_step(st, pos, end, r).1 <= end,
        windows_bases(all_windows(zoom_step(st, pos, end, r).0)) == windows_bases(
            all_windows(st),
        ) + zoom_step(st, pos, end, r).1 - pos,
        zoom_step(st, pos, end, r).1 == pos ==> st.live is Some && zoom_step(
            st,
            pos,
            end,
            r,
        ).0.live is None,
{
    let next = zoom_step(st, pos, end, r);
    let w = match st.live {
        Some(w) => w,
        None => fresh_window(pos),
    };
    let reach = w.start + r;
    let add_end = if reach < end {
        reach
    } else {
        end
    };
    let w2 = if add_end >= pos {
        Window {
            start: w.start,
            end: add_end,
            total_items: w.total_items + 1,
            bases_covered: w.bases_covered + (add_end - pos),
        }
    } else {
        w
    };
    lemma_windows_bases_push(st.closed, w2);
    match st.live {
        Some(w0) => {
            lemma_windows_bases_push(st.closed, w0);
        },
        None => {},
    }
    if add_end == reach {
        assert(next.0.closed == st.closed.push(w2));
        assert forall|i: int| 0 <= i < next.0.closed.len() implies {
            let x = #[trigger] next.0.closed[i];
            &&& x.start <= x.end <= x.start + r
            &&& x.end <= next.1
            &&& 0 <= x.bases_covered <= x.end - x.start
            &&& 0 <= x.total_items <= x.end - x.start + 1
            &&& x.start + r <= next.1
        } by {
            if i < st.closed.len() {
                assert(next.0.closed[i] == st.closed[i]);
            }
        }
        assert forall|i: int, j: int| 0 <= i < j < next.0.closed.len() implies (
        #[trigger] next.0.closed[i]).start + r <= (#[trigger] next.0.closed[j]).start by {
            assert(next.0.closed[i] == st.closed[i]);
            if j < st.closed.len() {
                assert(next.0.closed[j] == st.closed[j]);
            }
        }
    } else {
        assert(next.0.closed == st.closed);
        lemma_windows_bases_push(st.closed, w2);
    }
}

/// A record's walk keeps the state in order and counts exactly the record's bases.
pub proof fn lemma_zoom_walk(st: ZoomState, pos: int, end: int, r: int)
    requires
        zoom_inv(st, r, pos),
        pos <= end,
        1 <= r,
    ensures
        zoom_inv(zoom_walk(st, pos, end, r), r, end),
        windows_bases(all_windows(zoom_walk(st, pos, end, r))) == windows_bases(all_windows(st))
            + end - pos,
    decreases end - pos, (if st.live is Some { 1int } else { 0int }),
{
    if pos < end {
        lemma_zoom_step(st, pos, end, r);
        let next = zoom_step(st, pos, end, r);
        lemma_zoom_walk(next.0, next.1, end, r);
    }
}

/// A state in order stays so when the records move on.
pub proof fn lemma_zoom_inv_later(st: ZoomState, r: int, at: int, later: int)
    requires
        zoom_inv(st, r, at),
        at <= later,
    ensures
        zoom_inv(st, r, later),
{
}

/// The base up to which `records` reach: the end of the last one.
pub open spec fn records_reach(records: Seq<Value>) -> int {
    if records.len() == 0 {
        0
    } else {
        records.last().end as int
    }
}

/// Valid records leave the state in order, with as many bases in its windows as they cover.
pub proof fn lemma_zoom_fold(records: Seq<Value>, chrom_length: int, r: int)
    requires
        records_valid(records, chrom_length),
        1 <= r,
    ensures
        zoom_inv(zoom_fold(records, r), r, records_reach(records)),
        windows_bases(all_windows(zoom_fold(records, r))) == records_bases(records),
    decreases records.len(),
{
    if records.len() > 0 {
        let before = records.drop_last();
        let v = records.last();
        assert forall|i: int| 0 <= i < before.len() implies (#[trigger] before[i]).start
            <= before[i].end <= chrom_length by {
            assert(before[i] == records[i]);
        }
        assert forall|i: int| 0 <= i < before.len() - 1 implies (#[trigger] before[i]).end
            <= before[i + 1].start by {
            assert(before[i] == records[i]);
            assert(before[i + 1] == records[i + 1]);
        }
        lemma_zoom_fold(before, chrom_length, r);
        if before.len() > 0 {
            assert(before.last() == records[records.len() - 2]);
            assert(records[records.len() - 2].end <= records[records.len() - 2 + 1].start);
        } else {
            assert(records[0].start >= 0);
        }
        lemma_zoom_inv_later(zoom_fold(before, r), r, records_reach(before), v.start as int);
        lemma_zoom_walk(zoom_fold(before, r), v.start as int, v.end as int, r);
    }
}

/// Of the windows of one resolution over valid records: none is wider than the resolution,
/// each starts at least a width after the one before, none counts more bases than it
/// spans, and together they count every base that the records cover, once.
pub proof fn lemma_zoom_windows(records: Seq<Value>, chrom_length: int, r: int)
    requires
        records_valid(records, chrom_length),
        1 <= r,
    ensures
        forall|i: int|
            0 <= i < zoom_windows(records, r).len() ==> {
                let w = #[trigger] zoom_windows(records, r)[i];
                &&& 0 <= w.start <= w.end <= chrom_length
                &&& w.end - w.start <= r
                &&& 0 <= w.bases_covered <= w.end - w.start
                &&& 0 <= w.total_items <= w.end - w.start + 1
            },
        forall|i: int, j: int|
            0 <= i < j < zoom_windows(records, r).len() ==> (#[trigger] zoom_windows(
                records,
                r,
            )[i]).start + r <= (#[trigger] zoom_windows(records, r)[j]).start,
        windows_bases(zoom_windows(records, r)) == records_bases(records),
{
    lemma_zoom_fold(records, chrom_length, r);
    lemma_zoom_starts(records, r);
    let st = zoom_fold(records, r);
    let ws = zoom_windows(records, r);
    if records.len() > 0 {
        assert(records.last().end <= chrom_length);
    }
    assert forall|i: int| 0 <= i < ws.len() implies {
        let w = #[trigger] ws[i];
        &&& 0 <= w.start <= w.end <= chrom_length
        &&& w.end - w.start <= r
        &&& 0 <= w.bases_covered <= w.end - w.start
        &&& 0 <= w.total_items <= w.end - w.start + 1
    } by {
        if i < st.closed.len() {
            assert(ws[i] == st.closed[i]);
        }
    }
    assert forall|i: int, j: int| 0 <= i < j < ws.len() implies (#[trigger] ws[i]).start + r <= (
    #[trigger] ws[j]).start by {
        assert(ws[i] == st.closed[i]);
        if j < st.closed.len() {
            assert(ws[j] == st.closed[j]);
        }
    }
}

/// No window starts before the first base.
pub open spec fn starts_from(st: ZoomState, low: int) -> bool {
    &&& forall|i: int| 0 <= i < st.closed.len() ==> low <= (#[trigger] st.closed[i]).start
    &&& st.live matches Some(w) ==> low <= w.start
}

/// A record's walk opens windows only at its own bases.
pub proof fn lemma_zoom_walk_starts(st: ZoomState, pos: int, end: int, r: int, low: int)
    requires
        starts_from(st, low),
        low <= pos,
    ensures
        starts_from(zoom_walk(st, pos, end, r), low),
    decreases end - pos, (if st.live is Some { 1int } else { 0int }),
{
    if pos < end && r >= 1 {
        let next = zoom_step(st, pos, end, r);
        assert forall|i: int| 0 <= i < next.0.closed.len() implies low <= (
        #[trigger] next.0.closed[i]).start by {
            if i < st.closed.len() {
                assert(next.0.closed[i] == st.closed[i]);
            }
        }
        lemma_zoom_walk_starts(next.0, next.1, end, r, low);
    }
}

/// Every window over `records` starts at a base of the chromosome.
pub proof fn lemma_zoom_starts(records: Seq<Value>, r: int)
    ensures
        starts_from(zoom_fold(records, r), 0),
    decreases records.len(),
{
    if records.len() > 0 {
        lemma_zoom_starts(records.drop_last(), r);
        lemma_zoom_walk_starts(
            zoom_fold(records.drop_last(), r),
            records.last().start as int,
            records.last().end as int,
            r,
            0,
        );
    }
}

/// A window that records are still being added to.
pub struct LiveZoom<A> {
    pub start: u32,
    pub end: u32,
    pub total_items: u64,
    pub bases_covered: u64,
    /// What the window's values amount to.
    pub stats: A,
}

/// One resolution of the ladder while a chromosome is processed.
pub struct ZoomItem<A> {
    /// The window width, in bases.
    pub size: u32,
    /// The window that is open, if any.
    pub live_info: Option<LiveZoom<A>>,
    /// The closed windows, oldest first.
    pub records: Vec<ZoomRecord>,
}

/// What a closed record holds, in whole numbers.
pub open spec fn record_window(z: ZoomRecord) -> Window {
    Window {
        start: z.start as int,
        end: z.end as int,
        total_items: z.total_items as int,
        bases_covered: z.bases_covered as int,
    }
}

/// The windows of a list of closed records.
pub open spec fn record_windows(records: Seq<ZoomRecord>) -> Seq<Window> {
    records.map_values(|z: ZoomRecord| record_window(z))
}

/// Whether every record in `records` lies on chromosome `chrom_id`.
pub open spec fn records_on(records: Seq<ZoomRecord>, chrom_id: u32) -> bool {
    forall|i: int| 0 <= i < records.len() ==> (#[trigger] records[i]).chrom == chrom_id
}

impl<A: ValueStats> ZoomItem<A> {
    /// The state that this item stands for.
    pub open spec fn model(&self) -> ZoomState {
        ZoomState {
            live: match self.live_info {
                Some(l) => Some(
                    Window {
                        start: l.start as int,
                        end: l.end as int,
                        total_items: l.total_items as int,
                        bases_covered: l.bases_covered as int,
                    },
                ),
                None => None,
            },
            closed: record_windows(self.records@),
        }
    }

    /// A resolution with no window yet.
    pub fn new(size: u32) -> (item: Self)
        ensures
            item.size == size,
            item.model() == zoom_start(),
            item.records@.len() == 0,
    {
        let item = ZoomItem { size, live_info: None, records: Vec::new() };
        assert(item.model().closed =~= Seq::<Window>::empty());
        item
    }

    /// Takes in one record: its bases go to the open window and, where that window is
    /// full, to new ones.
    pub fn add_value(&mut self, chrom_id: u32, v: Value)
        requires
            1 <= old(self).size,
            v.start <= v.end,
            zoom_inv(old(self).model(), old(self).size as int, v.start as int),
            records_on(old(self).records@, chrom_id),
        ensures
            final(self).size == old(self).size,
            final(self).model() == zoom_walk(
                old(self).model(),
                v.start as int,
                v.end as int,
                old(self).size as int,
            ),
            records_on(final(self).records@, chrom_id),
    {
        let mut add_start: u32 = v.start;
        while add_start < v.end
            invariant
                self.size == old(self).size,
                1 <= self.size,
                v.start <= add_start <= v.end,
                zoom_inv(self.model(), self.size as int, add_start as int),
                zoom_walk(self.model(), add_start as int, v.end as int, self.size as int)
                    == zoom_walk(
                    old(self).model(),
                    v.start as int,
                    v.end as int,
                    self.size as int,
                ),
                records_on(self.records@, chrom_id),
            decreases v.end - add_start, (if self.live_info is Some { 1int } else { 0int }),
        {
            let ghost before = self.model();
            let ghost closed_before = self.records@;
            let ghost pos = add_start as int;
            proof {
                lemma_zoom_step(before, add_start as int, v.end as int, self.size as int);
            }
            let mut live = match self.live_info.take() {
                Some(l) => l,
                None => LiveZoom {
                    start: add_start,
                    end: add_start,
                    total_items: 0,
                    bases_covered: 0,
                    stats: A::start(v.value),
                },
            };
            let reach: u64 = live.start as u64 + self.size as u64;
            let add_end: u32 = if reach < v.end as u64 {
                reach as u32
            } else {
                v.end
            };
            if add_end >= add_start {
                let added: u32 = add_end - add_start;
                live.end = add_end;
                live.total_items = live.total_items + 1;
                live.bases_covered = live.bases_covered + added as u64;
                live.stats.add_bases(added, v.value);
            }
            if add_end as u64 == reach {
                let stats = live.stats.single();
                let record = ZoomRecord {
                    chrom: chrom_id,
                    start: live.start,
                    end: live.end,
                    total_items: live.total_items,
                    bases_covered: live.bases_covered,
                    stats,
                };
                self.records.push(record);
                assert(record_windows(self.records@) =~= record_windows(closed_before).push(
                    record_window(record),
                ));
            } else {
                self.live_info = Some(live);
            }
            if add_end > add_start {
                add_start = add_end;
            }
            assert(self.model() == zoom_step(before, pos, v.end as int, self.size as int).0);
        }
    }

    /// Closes the open window, if there is one: the chromosome has no more records.
    pub fn finish(&mut self, chrom_id: u32)
        requires
            records_on(old(self).records@, chrom_id),
        ensures
            final(self).size == old(self).size,
            final(self).live_info is None,
            record_windows(final(self).records@) == all_windows(old(self).model()),
            records_on(final(self).records@, chrom_id),
    {
        let ghost closed_before = self.records@;
        match self.live_info.take() {
            Some(live) => {
                let stats = live.stats.single();
                let record = ZoomRecord {
                    chrom: chrom_id,
                    start: live.start,
                    end: live.end,
                    total_items: live.total_items,
                    bases_covered: live.bases_covered,
                    stats,
                };
                self.records.push(record);
                assert(record_windows(self.records@) =~= record_windows(closed_before).push(
                    record_window(record),
                ));
            },
            None => {},
        }
    }
}

} // verus!
