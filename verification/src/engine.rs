//! The pagination engine: the merge-persist-continue decision made once per
//! fetched page. The surrounding binary performs the fetch, hands the body
//! in, writes the rendered artifacts out, and obeys the returned outcome.

use vstd::prelude::*;

use crate::lines::newline_free;
use crate::page::{page_addrs, PageData, ParsedPage};
use crate::state::{has_newline, page_merge, ScanState};

verus! {

/// What the run does after one page.
pub enum StepOutcome {
    /// The page carried a non-empty continuation cursor: persist, wait the
    /// fixed delay, then fetch the next page with the stored cursor.
    Continue,
    /// The page was merged and no continuation cursor came: persist, then
    /// stop — all pages are consumed.
    Done,
    /// The response carried no addresses, or a cursor that cannot stand in
    /// the artifacts: stop with what was accumulated; the state is untouched.
    Aborted,
}

/// A page advances the scan when it carries at least one address and its
/// cursor, if any, fits on one line of the state artifact.
pub open spec fn page_usable(d: PageData) -> bool {
    &&& page_addrs(d.page).len() > 0
    &&& (d.next_cursor.deep_view() matches Some(k) ==> newline_free(k))
}

/// The cursor a page really continues with: an absent or empty `pageKey`
/// alike signal that no further pages follow, so an empty cursor is never
/// stored and never sent.
pub open spec fn effective_cursor(c: Option<Seq<u8>>) -> Option<Seq<u8>> {
    match c {
        Some(k) => if k.len() == 0 {
            None
        } else {
            Some(k)
        },
        None => None,
    }
}

/// Merges one fetched page into the state and decides how the run goes on.
///
/// On a usable page the holder set becomes exactly the page merge of the old
/// set — it never shrinks — the page's effective cursor replaces the stored
/// one, the save time is refreshed, and the outcome is `Done` exactly when no
/// effective continuation cursor came (the cursor was absent or empty): the
/// engine then performs no further request. On any other page the state is
/// left untouched and the run stops.
pub fn process_page(state: &mut ScanState, data: &PageData, now: u64) -> (o: StepOutcome)
    requires
        old(state)@.wf(),
    ensures
        final(state)@.wf(),
        final(state)@.last_processed_block == old(state)@.last_processed_block,
        !page_usable(*data) ==> o is Aborted && *final(state) == *old(state),
        page_usable(*data) ==> ({
            &&& final(state)@.holder_set() == page_merge(
                old(state)@.holder_set(),
                page_addrs(data.page),
            )
            &&& old(state)@.holder_set().subset_of(final(state)@.holder_set())
            &&& final(state)@.last_page_key == effective_cursor(data.next_cursor.deep_view())
            &&& final(state)@.last_save_time == now
            &&& (o is Done <==> effective_cursor(data.next_cursor.deep_view()) is None)
            &&& (o is Continue <==> effective_cursor(data.next_cursor.deep_view()) is Some)
        }),
{
    let addrs: &Vec<Vec<u8>> = match &data.page {
        ParsedPage::Owners(v) => v,
        ParsedPage::FlatResult(v) => v,
        ParsedPage::Unrecognized => {
            return StepOutcome::Aborted;
        },
    };
    proof {
        assert(page_addrs(data.page) == addrs.deep_view());
    }
    if addrs.len() == 0 {
        proof {
            assert(addrs.deep_view().len() == 0);
            assert(page_addrs(data.page).len() == 0);
            assert(!page_usable(*data));
        }
        return StepOutcome::Aborted;
    }
    let next: Option<Vec<u8>> = match &data.next_cursor {
        Some(k) => {
            if has_newline(k) {
                proof {
                    assert(data.next_cursor.deep_view() == Some(k@));
                    assert(!page_usable(*data));
                }
                return StepOutcome::Aborted;
            }
            if k.len() == 0 {
                None
            } else {
                Some(k.clone())
            }
        },
        None => None,
    };
    proof {
        assert(page_addrs(data.page) == addrs.deep_view());
        assert(next.deep_view() == effective_cursor(data.next_cursor.deep_view()));
    }
    state.merge_addresses(addrs);
    state.last_save_time = now;
    state.last_page_key = next;
    match &state.last_page_key {
        Some(_) => StepOutcome::Continue,
        None => StepOutcome::Done,
    }
}

/// The holder set after processing a whole run of pages in order.
pub open spec fn run_pages(h: Set<Seq<u8>>, pages: Seq<Seq<Seq<u8>>>) -> Set<Seq<u8>>
    decreases pages.len(),
{
    if pages.len() == 0 {
        h
    } else {
        run_pages(page_merge(h, pages[0]), pages.skip(1))
    }
}

/// Resumption safety: a run over all pages reaches the same holder set as a
/// run up to page `k` — the state a crash would save and a restart reload —
/// followed by a run over the remaining pages from that point. Merging is a
/// function of the state and the page alone, so the restarted engine, fetching
/// from the stored cursor over a stable source, ends where the uninterrupted
/// run ends.
pub proof fn lemma_resumption(h: Set<Seq<u8>>, pages: Seq<Seq<Seq<u8>>>, k: int)
    requires
        0 <= k <= pages.len(),
    ensures
        run_pages(h, pages) == run_pages(run_pages(h, pages.take(k)), pages.skip(k)),
    decreases k,
{
    if k == 0 {
        assert(pages.take(0) =~= Seq::<Seq<Seq<u8>>>::empty());
        assert(pages.skip(0) =~= pages);
    } else {
        lemma_resumption(page_merge(h, pages[0]), pages.skip(1), k - 1);
        assert(pages.skip(1).take(k - 1) =~= pages.take(k).skip(1));
        assert(pages.skip(1).skip(k - 1) =~= pages.skip(k));
        assert(pages.take(k)[0] == pages[0]);
    }
}

} // verus!
