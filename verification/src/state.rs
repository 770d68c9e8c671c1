//! The durable scan state: the accumulated holder set, the continuation
//! cursor of the most recently processed page, and the summary counters.

use vstd::prelude::*;

use crate::lines::newline_free;
use crate::order::{
    bytes_eq, lemma_lex_transitive, lemma_lex_trichotomy, lex_lt, lex_lt_exec, sorted_strict,
};

verus! {

/// The mathematical content of a [`ScanState`].
pub struct ScanStateModel {
    pub last_processed_block: u64,
    pub last_save_time: u64,
    pub total_holders: u64,
    pub holders: Seq<Seq<u8>>,
    pub last_page_key: Option<Seq<u8>>,
}

impl ScanStateModel {
    /// Well-formedness: the holder list is strictly sorted (hence duplicate
    /// free), every address and the cursor fit on one line of the durable
    /// artifacts, and the cached counter equals the list's length.
    pub open spec fn wf(self) -> bool {
        &&& sorted_strict(self.holders)
        &&& (forall|i: int|
            0 <= i < self.holders.len() ==> #[trigger] newline_free(self.holders[i]))
        &&& self.total_holders == self.holders.len()
        &&& (self.last_page_key matches Some(k) ==> newline_free(k))
    }

    /// The holder addresses as a set.
    pub open spec fn holder_set(self) -> Set<Seq<u8>> {
        self.holders.to_set()
    }
}

/// The single unit of durable progress: everything a resumed run needs.
///
/// `last_processed_block` is reserved and never populated by the scan;
/// `last_save_time` is an informational timestamp in seconds.
pub struct ScanState {
    pub last_processed_block: u64,
    pub last_save_time: u64,
    pub total_holders: u64,
    pub holders: Vec<Vec<u8>>,
    pub last_page_key: Option<Vec<u8>>,
}

impl View for ScanState {
    type V = ScanStateModel;

    open spec fn view(&self) -> ScanStateModel {
        ScanStateModel {
            last_processed_block: self.last_processed_block,
            last_save_time: self.last_save_time,
            total_holders: self.total_holders,
            holders: self.holders.deep_view(),
            last_page_key: self.last_page_key.deep_view(),
        }
    }
}

impl Default for ScanState {
    /// The fresh-start state: no holders, no cursor, zero counters.
    fn default() -> (s: Self)
        ensures
            s@.wf(),
            s@.holders == Seq::<Seq<u8>>::empty(),
            s@.last_page_key is None,
            s@.last_processed_block == 0,
            s@.last_save_time == 0,
            s@.total_holders == 0,
    {
        let s = ScanState {
            last_processed_block: 0,
            last_save_time: 0,
            total_holders: 0,
            holders: Vec::new(),
            last_page_key: None,
        };
        proof {
            assert(s@.holders =~= Seq::<Seq<u8>>::empty());
        }
        s
    }
}

/// What one page of addresses adds to a holder set: every address that fits
/// on a line of the artifacts; duplicates are absorbed by the set.
pub open spec fn page_merge(h: Set<Seq<u8>>, addrs: Seq<Seq<u8>>) -> Set<Seq<u8>> {
    h + addrs.to_set().filter(|a: Seq<u8>| newline_free(a))
}

/// Merging the same addresses a second time changes nothing: re-processing an
/// already-seen page is harmless.
pub proof fn lemma_merge_idempotent(h: Set<Seq<u8>>, addrs: Seq<Seq<u8>>)
    ensures
        page_merge(page_merge(h, addrs), addrs) == page_merge(h, addrs),
{
    assert(page_merge(page_merge(h, addrs), addrs) =~= page_merge(h, addrs));
}

/// True when the byte string holds a line feed and so cannot stand in the
/// line-based artifacts.
pub fn has_newline(s: &Vec<u8>) -> (r: bool)
    ensures
        r == !newline_free(s@),
{
    let mut i: usize = 0;
    while i < s.len()
        invariant
            i <= s@.len(),
            forall|k: int| 0 <= k < i ==> s@[k] != 10u8,
        decreases s@.len() - i,
    {
        if s[i] == 10 {
            return true;
        }
        i = i + 1;
    }
    false
}

impl ScanState {
    /// Inserts one address into the holder list, keeping it sorted and
    /// duplicate free, and refreshes the cached total. An address that cannot
    /// stand in the artifacts (it holds a line feed) is not taken. Returns
    /// whether the address was new.
    pub fn insert_holder(&mut self, addr: Vec<u8>) -> (added: bool)
        requires
            old(self)@.wf(),
        ensures
            final(self)@.wf(),
            newline_free(addr@) ==> final(self)@.holder_set() == old(self)@.holder_set().insert(
                addr@,
            ),
            !newline_free(addr@) ==> *final(self) == *old(self),
            added == (newline_free(addr@) && !old(self)@.holder_set().contains(addr@)),
            final(self)@.total_holders == old(self)@.total_holders + (if added {
                1u64
            } else {
                0u64
            }),
            final(self)@.last_page_key == old(self)@.last_page_key,
            final(self)@.last_processed_block == old(self)@.last_processed_block,
            final(self)@.last_save_time == old(self)@.last_save_time,
    {
        broadcast use crate::lines::lemma_bytes_deep_view;

        if has_newline(&addr) {
            return false;
        }
        let ghost pre = self@.holders;
        let mut i: usize = 0;
        while i < self.holders.len() && lex_lt_exec(&self.holders[i], &addr)
            invariant
                old(self) == self,
                pre == self@.holders,
                i <= self.holders.len(),
                forall|k: int| 0 <= k < i ==> lex_lt(#[trigger] pre[k], addr@),
            decreases self.holders.len() - i,
        {
            proof {
                assert(pre[i as int] == self.holders@[i as int]@);
            }
            i = i + 1;
        }
        proof {
            if i < pre.len() {
                assert(pre[i as int] == self.holders@[i as int]@);
                assert(!lex_lt(pre[i as int], addr@));
            }
        }
        if i < self.holders.len() {
            if bytes_eq(&self.holders[i], &addr) {
                // Already known: the set absorbs the duplicate.
                proof {
                    assert(pre[i as int] == addr@);
                    assert(pre.contains(addr@));
                    assert(self@.holder_set() =~= self@.holder_set().insert(addr@));
                }
                return false;
            }
        }
        proof {
            // The address is new: everything before position i is smaller,
            // everything from position i on is larger.
            assert forall|k: int| 0 <= k < pre.len() implies pre[k] != addr@ by {
                lemma_lex_trichotomy(pre[k], addr@);
                if k > i {
                    assert(lex_lt(pre[i as int], pre[k]));
                }
            }
            assert(!pre.contains(addr@));
            if i < pre.len() {
                lemma_lex_trichotomy(pre[i as int], addr@);
                assert(lex_lt(addr@, pre[i as int]));
                assert forall|k: int| i < k < pre.len() implies lex_lt(addr@, #[trigger] pre[k]) by {
                    lemma_lex_transitive(addr@, pre[i as int], pre[k]);
                }
            }
        }
        let ghost a = addr@;
        let ghost av = addr;
        let ghost oldv = self.holders@;
        self.holders.insert(i, addr);
        self.total_holders = self.holders.len() as u64;
        proof {
            let h2 = self@.holders;
            oldv.insert_ensures(i as int, av);
            assert forall|k: int| 0 <= k < h2.len() implies h2[k] == (if k < i {
                pre[k]
            } else if k == i {
                a
            } else {
                pre[k - 1]
            }) by {
                assert(h2[k] == self.holders@[k]@);
                if k < i {
                    assert(self.holders@[k] == oldv[k]);
                } else if k > i {
                    assert(self.holders@[k] == oldv[k - 1]);
                }
            }
            assert forall|p: int, q: int| 0 <= p < q < h2.len() implies lex_lt(h2[p], h2[q]) by {
                if p == i {
                    assert(lex_lt(a, pre[q - 1]));
                } else if q == i {
                    assert(lex_lt(pre[p], a));
                } else if p < i && q > i {
                    assert(lex_lt(pre[p], pre[q - 1]));
                }
            }
            assert forall|x: Seq<u8>| h2.contains(x) <==> (pre.contains(x) || x == a) by {
                if h2.contains(x) {
                    let k = choose|k: int| 0 <= k < h2.len() && h2[k] == x;
                    if k < i {
                        assert(pre[k] == x);
                    } else if k > i {
                        assert(pre[k - 1] == x);
                    }
                }
                if pre.contains(x) {
                    let k = choose|k: int| 0 <= k < pre.len() && pre[k] == x;
                    if k < i {
                        assert(h2[k] == x);
                    } else {
                        assert(h2[k + 1] == x);
                    }
                }
                if x == a {
                    assert(h2[i as int] == x);
                }
            }
            assert(self@.holder_set() =~= pre.to_set().insert(a));
        }
        true
    }

    /// Merges every address of one page into the holder list: exactly the
    /// page merge of the old holder set, with the counters refreshed. The
    /// holder set never shrinks.
    pub fn merge_addresses(&mut self, addrs: &Vec<Vec<u8>>)
        requires
            old(self)@.wf(),
        ensures
            final(self)@.wf(),
            final(self)@.holder_set() == page_merge(old(self)@.holder_set(), addrs.deep_view()),
            old(self)@.holder_set().subset_of(final(self)@.holder_set()),
            final(self)@.last_page_key == old(self)@.last_page_key,
            final(self)@.last_processed_block == old(self)@.last_processed_block,
            final(self)@.last_save_time == old(self)@.last_save_time,
    {
        let ghost all = addrs.deep_view();
        let mut i: usize = 0;
        proof {
            assert(self@.holder_set() =~= page_merge(old(self)@.holder_set(), all.take(0)));
        }
        while i < addrs.len()
            invariant
                old(self)@.wf(),
                self@.wf(),
                all == addrs.deep_view(),
                i <= all.len(),
                self@.holder_set() == page_merge(old(self)@.holder_set(), all.take(i as int)),
                self@.last_page_key == old(self)@.last_page_key,
                self@.last_processed_block == old(self)@.last_processed_block,
                self@.last_save_time == old(self)@.last_save_time,
            decreases all.len() - i,
        {
            let addr = addrs[i].clone();
            proof {
                assert(addr@ == all[i as int]);
            }
            self.insert_holder(addr);
            proof {
                assert forall|x: Seq<u8>|
                    page_merge(old(self)@.holder_set(), all.take(i + 1)).contains(x)
                        <==> (page_merge(old(self)@.holder_set(), all.take(i as int)).contains(x)
                        || (x == all[i as int] && newline_free(x))) by {
                    if all.take(i + 1).contains(x) {
                        let k = choose|k: int| 0 <= k < i + 1 && #[trigger] all.take(i + 1)[k] == x;
                        if k < i {
                            assert(all.take(i as int)[k] == x);
                        }
                    }
                    if all.take(i as int).contains(x) {
                        let k = choose|k: int| 0 <= k < i && #[trigger] all.take(i as int)[k] == x;
                        assert(all.take(i + 1)[k] == x);
                    }
                    if x == all[i as int] {
                        assert(all.take(i + 1)[i as int] == x);
                    }
                }
                assert(self@.holder_set() =~= page_merge(
                    old(self)@.holder_set(),
                    all.take(i + 1),
                ));
            }
            i = i + 1;
        }
        proof {
            assert(all.take(all.len() as int) =~= all);
        }
    }
}

} // verus!
