//! Decisions of the collection sync engine: cursor advancement, loop
//! termination, and the properties that make re-running a pass safe.
//!
//! The engine works page by page: fetch a page at the current cursor,
//! persist its items, advance the cursor, write the checkpoint, and stop
//! once the cumulative processed count reaches the total reported at the
//! start of the pass. The fetching and persisting are I/O performed by the
//! caller; everything the engine decides is here and proved.

use vstd::prelude::*;
use crate::civil::TS_MAX;
use crate::paths::spec_email_path;
use crate::progress::{BackupProgress, progress_wf};

verus! {

/// The largest receipt time in a nonempty page.
pub open spec fn seq_max(s: Seq<i64>) -> int
    decreases s.len(),
{
    if s.len() <= 1 {
        s[0] as int
    } else if s.last() as int >= seq_max(s.drop_last()) {
        s.last() as int
    } else {
        seq_max(s.drop_last())
    }
}

proof fn lemma_seq_max(s: Seq<i64>)
    requires
        s.len() > 0,
    ensures
        forall|k: int| 0 <= k < s.len() ==> s[k] <= seq_max(s),
        exists|k: int| 0 <= k < s.len() && s[k] == seq_max(s),
    decreases s.len(),
{
    if s.len() == 1 {
        assert(s[0] == seq_max(s));
    } else {
        lemma_seq_max(s.drop_last());
        assert forall|k: int| 0 <= k < s.len() implies s[k] <= seq_max(s) by {
            if k < s.len() - 1 {
                assert(s.drop_last()[k] == s[k]);
            }
        }
        if seq_max(s) == s.last() as int {
            assert(s[s.len() - 1] == seq_max(s));
        } else {
            let k = choose|k: int|
                0 <= k < s.drop_last().len() && s.drop_last()[k] == seq_max(s.drop_last());
            assert(s.drop_last()[k] == s[k]);
            assert(s[k] == seq_max(s));
        }
    }
}

/// The largest receipt time in a nonempty page, computed.
pub fn page_max(receipts: &Vec<i64>) -> (r: i64)
    requires
        receipts@.len() > 0,
    ensures
        r == seq_max(receipts@),
{
    let mut r: i64 = receipts[0];
    let mut k: usize = 1;
    proof {
        assert(receipts@.take(1).drop_last() =~= Seq::<i64>::empty());
        assert(receipts@.take(1)[0] == receipts@[0]);
    }
    while k < receipts.len()
        invariant
            1 <= k <= receipts@.len(),
            r == seq_max(receipts@.take(k as int)),
        decreases receipts@.len() - k,
    {
        proof {
            assert(receipts@.take(k + 1).drop_last() =~= receipts@.take(k as int));
            assert(receipts@.take(k + 1).last() == receipts@[k as int]);
        }
        if receipts[k] > r {
            r = receipts[k];
        }
        k = k + 1;
    }
    proof {
        assert(receipts@.take(receipts@.len() as int) =~= receipts@);
    }
    r
}

/// Advance the watermark cursor over one fetched page: the new watermark is
/// the largest receipt time in the page. Every receipt handed in is at or
/// after the watermark the page was fetched with, so the watermark never
/// moves backwards.
pub fn advance_watermark(p: &mut BackupProgress, receipts: &Vec<i64>)
    requires
        progress_wf(*old(p)),
        receipts@.len() > 0,
        forall|k: int|
            0 <= k < receipts@.len() ==> old(p).last_processed_date <= #[trigger] receipts@[k]
                < TS_MAX,
    ensures
        progress_wf(*final(p)),
        final(p).last_processed_date == seq_max(receipts@),
        final(p).last_processed_date >= old(p).last_processed_date,
{
    proof {
        lemma_seq_max(receipts@);
    }
    let m = page_max(receipts);
    p.last_processed_date = m;
}

/// The position and total of one running pass: how many items have been
/// processed, and how many the remote reported at the start.
pub struct PassState {
    pub processed: u64,
    pub total: u64,
}

impl PassState {
    /// Start a pass against a reported total.
    pub fn new(total: u64) -> (r: PassState)
        ensures
            r.processed == 0,
            r.total == total,
    {
        PassState { processed: 0, total }
    }

    /// The fetch position of the next page.
    pub fn next_position(&self) -> (r: u64)
        ensures
            r == self.processed,
    {
        self.processed
    }

    /// Record a completed page. The processed count grows by exactly the
    /// page length.
    pub fn record_page(&mut self, page_len: u64)
        requires
            old(self).processed + page_len <= u64::MAX,
        ensures
            final(self).processed == old(self).processed + page_len,
            final(self).total == old(self).total,
    {
        self.processed = self.processed + page_len;
    }

    /// Whether the pass has drained the total reported at its start.
    pub fn done(&self) -> (r: bool)
        ensures
            r == (self.processed >= self.total),
    {
        self.processed >= self.total
    }
}

/// Admissible page sequence for a watermark pass starting at `w0`: each
/// page is nonempty, every receipt in it is at or after the watermark in
/// force when it was fetched, and the watermark then advances to the page
/// maximum.
pub open spec fn pages_admissible(w0: int, pages: Seq<Seq<i64>>) -> bool
    decreases pages.len(),
{
    pages.len() == 0 || {
        &&& pages[0].len() > 0
        &&& forall|k: int| 0 <= k < pages[0].len() ==> w0 <= #[trigger] pages[0][k] < TS_MAX
        &&& pages_admissible(seq_max(pages[0]), pages.drop_first())
    }
}

/// The watermark after folding a sequence of successful pages.
pub open spec fn watermark_after(w0: int, pages: Seq<Seq<i64>>) -> int
    decreases pages.len(),
{
    if pages.len() == 0 {
        w0
    } else {
        watermark_after(seq_max(pages[0]), pages.drop_first())
    }
}

/// Checkpoint monotonicity, watermark side: over any sequence of
/// successful pages the watermark never decreases.
pub proof fn lemma_watermark_monotone(w0: int, pages: Seq<Seq<i64>>)
    requires
        pages_admissible(w0, pages),
    ensures
        watermark_after(w0, pages) >= w0,
    decreases pages.len(),
{
    if pages.len() > 0 {
        lemma_seq_max(pages[0]);
        let k = choose|k: int| 0 <= k < pages[0].len() && pages[0][k] == seq_max(pages[0]);
        lemma_watermark_monotone(seq_max(pages[0]), pages.drop_first());
    }
}

/// Idempotent re-delivery, watermark side: when no receipt in any page
/// exceeds the stored watermark — as when an unchanged remote collection is
/// synced a second time — the watermark ends where it began.
pub proof fn lemma_watermark_stable(w0: int, pages: Seq<Seq<i64>>)
    requires
        pages_admissible(w0, pages),
        forall|i: int, k: int|
            0 <= i < pages.len() && 0 <= k < pages[i].len() ==> #[trigger] pages[i][k] <= w0,
    ensures
        watermark_after(w0, pages) == w0,
    decreases pages.len(),
{
    if pages.len() > 0 {
        lemma_seq_max(pages[0]);
        let k = choose|k: int| 0 <= k < pages[0].len() && pages[0][k] == seq_max(pages[0]);
        assert(pages[0][k] == w0);
        assert forall|i: int, k2: int|
            0 <= i < pages.drop_first().len() && 0 <= k2 < pages.drop_first()[i].len() implies #[trigger] pages.drop_first()[i][k2]
            <= w0 by {
            assert(pages.drop_first()[i] == pages[i + 1]);
        }
        lemma_watermark_stable(w0, pages.drop_first());
    }
}

/// The processed count after a pass that starts at `pos` and fetches pages
/// of up to `page` items until the total is drained.
pub open spec fn count_run(total: int, pos: int, page: int) -> int
    decreases total - pos,
{
    if pos >= total || page < 1 {
        pos
    } else if total - pos < page {
        count_run(total, total, page)
    } else {
        count_run(total, pos + page, page)
    }
}

/// Resume correctness, count side: a pass resumed at position `pos` of
/// `total` processes exactly the remaining `total - pos` items and ends
/// with the processed count equal to the total; in particular a completed
/// pass re-run from `total` processes nothing further.
pub proof fn lemma_count_run_completes(total: int, pos: int, page: int)
    requires
        0 <= pos <= total,
        page >= 1,
    ensures
        count_run(total, pos, page) == total,
        count_run(total, pos, page) - pos == total - pos,
    decreases total - pos,
{
    if pos < total {
        if total - pos < page {
            lemma_count_run_completes(total, total, page);
        } else {
            lemma_count_run_completes(total, pos + page, page);
        }
    }
}

/// The offset cursor after folding a sequence of page lengths.
pub open spec fn position_after(p0: int, lens: Seq<int>) -> int
    decreases lens.len(),
{
    if lens.len() == 0 {
        p0
    } else {
        position_after(p0 + lens[0], lens.drop_first())
    }
}

/// Checkpoint monotonicity, offset side: over any sequence of successful
/// pages the position increases by exactly each page's length, so it
/// strictly increases whenever every page is nonempty.
pub proof fn lemma_offset_monotone(p0: int, lens: Seq<int>)
    requires
        forall|k: int| 0 <= k < lens.len() ==> lens[k] >= 1,
    ensures
        position_after(p0, lens) >= p0,
        lens.len() > 0 ==> position_after(p0, lens) > p0,
    decreases lens.len(),
{
    if lens.len() > 0 {
        assert(lens[0] >= 1);
        assert forall|k: int| 0 <= k < lens.drop_first().len() implies lens.drop_first()[k]
            >= 1 by {
            assert(lens.drop_first()[k] == lens[k + 1]);
        }
        lemma_offset_monotone(p0 + lens[0], lens.drop_first());
    }
}

/// Receipt times in ascending fetch order.
pub open spec fn sorted_asc(s: Seq<i64>) -> bool {
    forall|i: int, j: int| 0 <= i <= j < s.len() ==> s[i] <= s[j]
}

/// Resume correctness, watermark side: against a receipt-time-ordered
/// collection, the items a resumed pass selects — those with receipt time
/// past the stepped-back watermark — form a suffix: once an item qualifies,
/// every later item does.
pub proof fn lemma_watermark_filter_suffix(s: Seq<i64>, cursor: i64)
    requires
        sorted_asc(s),
    ensures
        forall|i: int, j: int| 0 <= i <= j < s.len() && s[i] > cursor ==> s[j] > cursor,
{
}

/// The storage contents written by one pass over the given message items,
/// keyed by each item's content address.
pub open spec fn pass_writes(items: Seq<(Seq<char>, Seq<u8>)>) -> Map<Seq<char>, Seq<u8>>
    decreases items.len(),
{
    if items.len() == 0 {
        Map::empty()
    } else {
        pass_writes(items.drop_last()).insert(spec_email_path(items.last().0), items.last().1)
    }
}

/// Idempotent re-delivery, storage side: writes are keyed by identifier
/// and overwrite, so delivering the same items a second time leaves the
/// store content-identical.
pub proof fn lemma_redelivery_idempotent(
    store: Map<Seq<char>, Seq<u8>>,
    items: Seq<(Seq<char>, Seq<u8>)>,
)
    ensures
        store.union_prefer_right(pass_writes(items)).union_prefer_right(pass_writes(items))
            =~= store.union_prefer_right(pass_writes(items)),
{
}

} // verus!
