//! The durable artifacts: rendering the scan state to its line-based,
//! stable-keyed text form, parsing it back, and rendering the sorted holder
//! list. Loading a rendered state reproduces it exactly.
//!
//! The state artifact is one record per line, each introduced by a one-byte
//! key: `b` for the reserved block marker, `t` for the last save time, `n`
//! for the holder total, `c` for the page cursor (the key alone when there is
//! none), and one `h` line per holder address, in sorted order.

use vstd::prelude::*;

use crate::digits::{dec_rep, lemma_dec_rep_props, parse_dec, u64_to_dec};
use crate::lines::{
    all_newline_free, join_lines, lemma_bytes_deep_view, lemma_join_injective, lemma_join_last,
    lemma_join_snoc, newline_free, nl, split_lines,
};
use crate::order::{lemma_lex_trichotomy, lex_lt, lex_lt_exec, sorted_strict};
use crate::state::{ScanState, ScanStateModel};

verus! {

broadcast use lemma_bytes_deep_view;

/// One keyed record: the key byte, a space, and the payload.
pub open spec fn tag_line(t: u8, payload: Seq<u8>) -> Seq<u8> {
    seq![t, 32u8] + payload
}

/// The cursor record: the key alone stands for "no cursor".
pub open spec fn cursor_line(c: Option<Seq<u8>>) -> Seq<u8> {
    match c {
        Some(k) => tag_line(99u8, k),
        None => seq![99u8],
    }
}

/// One record per holder address.
pub open spec fn holder_lines(hs: Seq<Seq<u8>>) -> Seq<Seq<u8>> {
    hs.map_values(|h: Seq<u8>| tag_line(104u8, h))
}

/// Every record of the state artifact, in order.
pub open spec fn state_lines(m: ScanStateModel) -> Seq<Seq<u8>> {
    seq![
        tag_line(98u8, dec_rep(m.last_processed_block as nat)),
        tag_line(116u8, dec_rep(m.last_save_time as nat)),
        tag_line(110u8, dec_rep(m.total_holders as nat)),
        cursor_line(m.last_page_key),
    ] + holder_lines(m.holders)
}

/// The state artifact as one byte string.
pub open spec fn render_state_spec(m: ScanStateModel) -> Seq<u8> {
    join_lines(state_lines(m))
}

/// The holder-list artifact: one address per line, in the stored (sorted)
/// order.
pub open spec fn holder_list_spec(m: ScanStateModel) -> Seq<u8> {
    join_lines(m.holders)
}

/// The records of a well-formed state are newline-free, so they survive the
/// line discipline of the artifact.
pub proof fn lemma_state_lines_wf(m: ScanStateModel)
    requires
        m.wf(),
    ensures
        all_newline_free(state_lines(m)),
        state_lines(m).len() == 4 + m.holders.len(),
{
    lemma_dec_rep_props(m.last_processed_block as nat);
    lemma_dec_rep_props(m.last_save_time as nat);
    lemma_dec_rep_props(m.total_holders as nat);
    assert forall|i: int| 0 <= i < state_lines(m).len() implies #[trigger] newline_free(
        state_lines(m)[i],
    ) by {
        let l = state_lines(m)[i];
        if i >= 4 {
            assert(l == tag_line(104u8, m.holders[i - 4]));
            assert(newline_free(m.holders[i - 4]));
        }
        assert forall|k: int| 0 <= k < l.len() implies l[k] != nl() by {}
    }
}

/// Appends one keyed record and its line feed.
fn push_tag_line(out: &mut Vec<u8>, t: u8, payload: &Vec<u8>)
    ensures
        final(out)@ == old(out)@ + tag_line(t, payload@) + seq![nl()],
{
    out.push(t);
    out.push(32);
    out.extend_from_slice(payload.as_slice());
    out.push(10);
    proof {
        assert(out@ =~= old(out)@ + tag_line(t, payload@) + seq![nl()]);
    }
}

/// Renders the state to its durable text form.
pub fn render_state(s: &ScanState) -> (out: Vec<u8>)
    requires
        s@.wf(),
    ensures
        out@ == render_state_spec(s@),
{
    let ghost m = s@;
    let mut out: Vec<u8> = Vec::new();
    let ghost head: Seq<Seq<u8>> = seq![
        tag_line(98u8, dec_rep(m.last_processed_block as nat)),
        tag_line(116u8, dec_rep(m.last_save_time as nat)),
        tag_line(110u8, dec_rep(m.total_holders as nat)),
        cursor_line(m.last_page_key),
    ];

    let block = u64_to_dec(s.last_processed_block);
    push_tag_line(&mut out, 98, &block);
    let time = u64_to_dec(s.last_save_time);
    push_tag_line(&mut out, 116, &time);
    let total = u64_to_dec(s.total_holders);
    push_tag_line(&mut out, 110, &total);
    proof {
        lemma_join_snoc(Seq::<Seq<u8>>::empty(), head[0]);
        lemma_join_snoc(seq![head[0]], head[1]);
        lemma_join_snoc(seq![head[0], head[1]], head[2]);
        assert(Seq::<Seq<u8>>::empty().push(head[0]) =~= seq![head[0]]);
        assert(seq![head[0]].push(head[1]) =~= seq![head[0], head[1]]);
        assert(seq![head[0], head[1]].push(head[2]) =~= seq![head[0], head[1], head[2]]);
        assert(join_lines(Seq::<Seq<u8>>::empty()) == Seq::<u8>::empty());
        assert(out@ =~= join_lines(seq![head[0], head[1], head[2]]));
    }
    match &s.last_page_key {
        Some(k) => {
            push_tag_line(&mut out, 99, k);
            proof {
                assert(m.last_page_key == Some(k@));
            }
        },
        None => {
            out.push(99);
            out.push(10);
        },
    }
    proof {
        lemma_join_snoc(seq![head[0], head[1], head[2]], head[3]);
        assert(seq![head[0], head[1], head[2]].push(head[3]) =~= head);
        assert(out@ =~= join_lines(head));
    }

    let ghost all = state_lines(m);
    let mut j: usize = 0;
    proof {
        assert(all.take(4) =~= head);
        assert(all.len() == 4 + m.holders.len());
    }
    while j < s.holders.len()
        invariant
            s@ == m,
            m.wf(),
            all == state_lines(m),
            all.len() == 4 + m.holders.len(),
            j <= s.holders.len(),
            s.holders@.len() == m.holders.len(),
            out@ == join_lines(all.take(4 + j as int)),
        decreases s.holders.len() - j,
    {
        push_tag_line(&mut out, 104, &s.holders[j]);
        proof {
            assert(m.holders[j as int] == s.holders@[j as int]@);
            assert(all[4 + j as int] == tag_line(104u8, m.holders[j as int]));
            lemma_join_snoc(all.take(4 + j as int), all[4 + j as int]);
            assert(all.take(4 + j as int).push(all[4 + j as int]) =~= all.take(4 + j + 1));
        }
        j = j + 1;
    }
    proof {
        assert(all.take(all.len() as int) =~= all);
    }
    out
}

/// Renders the holder-list artifact: one address per line, sorted ascending.
pub fn render_holder_list(s: &ScanState) -> (out: Vec<u8>)
    requires
        s@.wf(),
    ensures
        out@ == holder_list_spec(s@),
{
    let ghost m = s@;
    let mut out: Vec<u8> = Vec::new();
    let mut j: usize = 0;
    proof {
        assert(m.holders.take(0) =~= Seq::<Seq<u8>>::empty());
    }
    while j < s.holders.len()
        invariant
            s@ == m,
            m.wf(),
            j <= s.holders.len(),
            s.holders@.len() == m.holders.len(),
            out@ == join_lines(m.holders.take(j as int)),
        decreases s.holders.len() - j,
    {
        out.extend_from_slice(s.holders[j].as_slice());
        out.push(10);
        proof {
            assert(m.holders[j as int] == s.holders@[j as int]@);
            lemma_join_snoc(m.holders.take(j as int), m.holders[j as int]);
            assert(m.holders.take(j as int).push(m.holders[j as int]) =~= m.holders.take(
                j + 1,
            ));
            assert(out@ =~= join_lines(m.holders.take(j + 1)));
        }
        j = j + 1;
    }
    proof {
        assert(m.holders.take(m.holders.len() as int) =~= m.holders);
    }
    out
}

/// Saving loses nothing: two well-formed states that render to the same
/// artifact are the same state. With the resumption law of the engine, a run
/// restarted from a reloaded state sends exactly the saved cursor and reaches
/// the holder set of the uninterrupted run.
pub proof fn lemma_render_injective(a: ScanStateModel, b: ScanStateModel)
    requires
        a.wf(),
        b.wf(),
        render_state_spec(a) == render_state_spec(b),
    ensures
        a == b,
{
    lemma_state_lines_wf(a);
    lemma_state_lines_wf(b);
    lemma_join_injective(state_lines(a), state_lines(b));
    let la = state_lines(a);
    let lb = state_lines(b);
    assert(la[0] == lb[0]);
    lemma_tag_line_injective(
        98u8,
        dec_rep(a.last_processed_block as nat),
        dec_rep(b.last_processed_block as nat),
    );
    crate::digits::lemma_dec_rep_injective(
        a.last_processed_block as nat,
        b.last_processed_block as nat,
    );
    assert(la[1] == lb[1]);
    lemma_tag_line_injective(
        116u8,
        dec_rep(a.last_save_time as nat),
        dec_rep(b.last_save_time as nat),
    );
    crate::digits::lemma_dec_rep_injective(a.last_save_time as nat, b.last_save_time as nat);
    assert(la[2] == lb[2]);
    lemma_tag_line_injective(
        110u8,
        dec_rep(a.total_holders as nat),
        dec_rep(b.total_holders as nat),
    );
    crate::digits::lemma_dec_rep_injective(a.total_holders as nat, b.total_holders as nat);
    assert(la[3] == lb[3]);
    if a.last_page_key is Some && b.last_page_key is Some {
        let ka = choose|k: Seq<u8>| a.last_page_key == Some(k);
        let kb = choose|k: Seq<u8>| b.last_page_key == Some(k);
        lemma_tag_line_injective(99u8, ka, kb);
    } else if a.last_page_key is Some || b.last_page_key is Some {
        assert(cursor_line(a.last_page_key).len() == cursor_line(b.last_page_key).len());
        assert(false);
    }
    assert(a.last_page_key == b.last_page_key);
    assert(a.holders.len() == b.holders.len());
    assert forall|j: int| 0 <= j < a.holders.len() implies a.holders[j] == b.holders[j] by {
        assert(la[4 + j] == holder_lines(a.holders)[j]);
        assert(lb[4 + j] == holder_lines(b.holders)[j]);
        lemma_tag_line_injective(104u8, a.holders[j], b.holders[j]);
    }
    assert(a.holders =~= b.holders);
}

/// Records with the same key and the same text carry the same payload.
pub proof fn lemma_tag_line_injective(t: u8, p: Seq<u8>, q: Seq<u8>)
    requires
        tag_line(t, p) == tag_line(t, q),
    ensures
        p == q,
{
    assert(seq![t, 32u8].len() == 2);
    assert(tag_line(t, p).len() == 2 + p.len());
    assert(tag_line(t, q).len() == 2 + q.len());
    assert(p.len() == q.len());
    assert forall|i: int| 0 <= i < p.len() implies p[i] == q[i] by {
        assert(tag_line(t, p)[i + 2] == p[i]);
        assert(tag_line(t, q)[i + 2] == q[i]);
    }
    assert(p =~= q);
}

/// Strips one keyed record down to its payload. Succeeds on exactly the
/// lines of the form `tag_line(t, payload)`.
fn strip_tag(line: &Vec<u8>, t: u8) -> (r: Option<Vec<u8>>)
    ensures
        r matches Some(p) ==> line@ == tag_line(t, p@),
        forall|p: Seq<u8>| line@ == tag_line(t, p) ==> (r matches Some(q) && q@ == p),
{
    if line.len() < 2 {
        return None;
    }
    if line[0] != t || line[1] != 32 {
        return None;
    }
    let payload = vstd::slice::slice_to_vec(&line.as_slice()[2..line.len()]);
    proof {
        assert(payload@ =~= line@.subrange(2, line@.len() as int));
        assert(line@ =~= tag_line(t, payload@));
        assert forall|p: Seq<u8>| line@ == tag_line(t, p) implies p == payload@ by {
            lemma_tag_line_injective(t, p, payload@);
        }
    }
    Some(payload)
}

/// Parses one keyed decimal record. Succeeds on exactly the lines that
/// render a `u64` under the key `t`.
fn parse_u64_line(line: &Vec<u8>, t: u8) -> (r: Option<u64>)
    ensures
        r matches Some(v) ==> line@ == tag_line(t, dec_rep(v as nat)),
        forall|n: u64| line@ == tag_line(t, dec_rep(n as nat)) ==> r == Some(n),
{
    match strip_tag(line, t) {
        None => None,
        Some(payload) => {
            match parse_dec(payload.as_slice()) {
                None => None,
                Some(v) => Some(v),
            }
        },
    }
}

/// Parses the cursor record: the key alone is "no cursor", the key with a
/// payload is the cursor itself.
fn parse_cursor_line(line: &Vec<u8>) -> (r: Option<Option<Vec<u8>>>)
    ensures
        r matches Some(c) ==> line@ == cursor_line(c.deep_view()),
        forall|c: Option<Seq<u8>>|
            line@ == cursor_line(c) ==> (r matches Some(c2) && c2.deep_view() == c),
{
    if line.len() == 1 {
        if line[0] == 99 {
            proof {
                assert(line@ =~= cursor_line(None));
            }
            return Some(None);
        }
        return None;
    }
    match strip_tag(line, 99) {
        Some(p) => Some(Some(p)),
        None => {
            proof {
                assert forall|c: Option<Seq<u8>>| line@ != cursor_line(c) by {
                    if c is None && line@ == cursor_line(c) {
                        assert(line@.len() == 1);
                    }
                }
            }
            None
        },
    }
}

/// On a well-formed rendering, the line decomposition is exactly the state's
/// records.
proof fn lemma_render_inverts(lsv: Seq<Seq<u8>>, m: ScanStateModel)
    requires
        m.wf(),
        all_newline_free(lsv),
        join_lines(lsv) == render_state_spec(m),
    ensures
        lsv == state_lines(m),
        lsv.len() == 4 + m.holders.len(),
        lsv[0] == tag_line(98u8, dec_rep(m.last_processed_block as nat)),
        lsv[1] == tag_line(116u8, dec_rep(m.last_save_time as nat)),
        lsv[2] == tag_line(110u8, dec_rep(m.total_holders as nat)),
        lsv[3] == cursor_line(m.last_page_key),
        forall|j: int|
            0 <= j < m.holders.len() ==> lsv[4 + j] == tag_line(104u8, #[trigger] m.holders[j]),
{
    lemma_state_lines_wf(m);
    lemma_join_injective(lsv, state_lines(m));
    assert forall|j: int|
        0 <= j < m.holders.len() implies lsv[4 + j] == tag_line(
        104u8,
        #[trigger] m.holders[j],
    ) by {
        assert(lsv[4 + j] == holder_lines(m.holders)[j]);
    }
}

/// Parses the state artifact. Succeeds on exactly the renderings of
/// well-formed states, and reproduces the rendered state exactly: loading a
/// saved state loses nothing — not an address, not the cursor, not a counter.
pub fn parse_state(input: &[u8]) -> (r: Option<ScanState>)
    ensures
        r matches Some(st) ==> st@.wf() && input@ == render_state_spec(st@),
        forall|m: ScanStateModel|
            m.wf() && input@ == render_state_spec(m) ==> (r matches Some(st) && st@ == m),
{
    let records = match split_lines(input) {
        Some(ls) => ls,
        None => {
            proof {
                assert forall|m: ScanStateModel|
                    !(m.wf() && input@ == render_state_spec(m)) by {
                    if m.wf() && input@ == render_state_spec(m) {
                        lemma_state_lines_wf(m);
                        lemma_join_last(state_lines(m));
                    }
                }
            }
            return None;
        },
    };
    let ghost lsv = records.deep_view();
    if records.len() < 4 {
        proof {
            assert forall|m: ScanStateModel| !(m.wf() && input@ == render_state_spec(m)) by {
                if m.wf() && input@ == render_state_spec(m) {
                    lemma_render_inverts(lsv, m);
                }
            }
        }
        return None;
    }
    proof {
        assert(lsv[0] == records@[0]@);
        assert(lsv[1] == records@[1]@);
        assert(lsv[2] == records@[2]@);
        assert(lsv[3] == records@[3]@);
    }
    let block_v = match parse_u64_line(&records[0], 98) {
        Some(v) => v,
        None => {
            proof {
                assert forall|m: ScanStateModel| !(m.wf() && input@ == render_state_spec(m)) by {
                    if m.wf() && input@ == render_state_spec(m) {
                        lemma_render_inverts(lsv, m);
                    }
                }
            }
            return None;
        },
    };
    let time_v = match parse_u64_line(&records[1], 116) {
        Some(v) => v,
        None => {
            proof {
                assert forall|m: ScanStateModel| !(m.wf() && input@ == render_state_spec(m)) by {
                    if m.wf() && input@ == render_state_spec(m) {
                        lemma_render_inverts(lsv, m);
                    }
                }
            }
            return None;
        },
    };
    let total_v = match parse_u64_line(&records[2], 110) {
        Some(v) => v,
        None => {
            proof {
                assert forall|m: ScanStateModel| !(m.wf() && input@ == render_state_spec(m)) by {
                    if m.wf() && input@ == render_state_spec(m) {
                        lemma_render_inverts(lsv, m);
                    }
                }
            }
            return None;
        },
    };
    let cursor_v = match parse_cursor_line(&records[3]) {
        Some(c) => c,
        None => {
            proof {
                assert forall|m: ScanStateModel| !(m.wf() && input@ == render_state_spec(m)) by {
                    if m.wf() && input@ == render_state_spec(m) {
                        lemma_render_inverts(lsv, m);
                    }
                }
            }
            return None;
        },
    };
    let mut hvec: Vec<Vec<u8>> = Vec::new();
    let mut j: usize = 4;
    while j < records.len()
        invariant
            4 <= j <= records@.len(),
            lsv == records.deep_view(),
            lsv.len() == records@.len(),
            all_newline_free(lsv),
            join_lines(lsv) == input@,
            hvec.deep_view().len() == j - 4,
            forall|k: int|
                0 <= k < hvec.deep_view().len() ==> lsv[4 + k] == tag_line(
                    104u8,
                    #[trigger] hvec.deep_view()[k],
                ),
            forall|k: int|
                0 <= k && k + 1 < hvec.deep_view().len() ==> lex_lt(
                    #[trigger] hvec.deep_view()[k],
                    hvec.deep_view()[k + 1],
                ),
        decreases records@.len() - j,
    {
        let ghost dv = hvec.deep_view();
        proof {
            assert(lsv[j as int] == records@[j as int]@);
        }
        let addr = match strip_tag(&records[j], 104) {
            Some(p) => p,
            None => {
                proof {
                    assert forall|m: ScanStateModel|
                        !(m.wf() && input@ == render_state_spec(m)) by {
                        if m.wf() && input@ == render_state_spec(m) {
                            lemma_render_inverts(lsv, m);
                            assert(lsv[j as int] == tag_line(104u8, m.holders[j - 4]));
                        }
                    }
                }
                return None;
            },
        };
        if hvec.len() > 0 {
            let sorted_here = lex_lt_exec(&hvec[hvec.len() - 1], &addr);
            if !sorted_here {
                proof {
                    assert(dv[dv.len() - 1] == hvec@[hvec@.len() - 1]@);
                    assert forall|m: ScanStateModel|
                        !(m.wf() && input@ == render_state_spec(m)) by {
                        if m.wf() && input@ == render_state_spec(m) {
                            lemma_render_inverts(lsv, m);
                            let k = j - 5;
                            assert(lsv[4 + k] == tag_line(104u8, m.holders[k]));
                            lemma_tag_line_injective(104u8, dv[k], m.holders[k]);
                            assert(lsv[j as int] == tag_line(104u8, m.holders[k + 1]));
                            lemma_tag_line_injective(104u8, addr@, m.holders[k + 1]);
                            assert(lex_lt(m.holders[k], m.holders[k + 1]));
                        }
                    }
                }
                return None;
            }
        }
        hvec.push(addr);
        proof {
            assert(hvec.deep_view() =~~= dv.push(hvec@[hvec@.len() - 1]@));
        }
        j = j + 1;
    }
    let ghost dv = hvec.deep_view();
    if total_v != hvec.len() as u64 {
        proof {
            assert forall|m: ScanStateModel| !(m.wf() && input@ == render_state_spec(m)) by {
                if m.wf() && input@ == render_state_spec(m) {
                    lemma_render_inverts(lsv, m);
                    assert(lsv[2] == tag_line(110u8, dec_rep(m.total_holders as nat)));
                    assert(Some(total_v) == Some(m.total_holders));
                    assert(dv.len() == m.holders.len());
                }
            }
        }
        return None;
    }
    let st = ScanState {
        last_processed_block: block_v,
        last_save_time: time_v,
        total_holders: total_v,
        holders: hvec,
        last_page_key: cursor_v,
    };
    proof {
        // Well-formedness of the parsed state.
        crate::order::lemma_sorted_from_adjacent(dv);
        assert forall|k: int| 0 <= k < dv.len() implies #[trigger] newline_free(dv[k]) by {
            assert(newline_free(lsv[4 + k]));
            assert forall|x: int| 0 <= x < dv[k].len() implies dv[k][x] != 10u8 by {
                assert(lsv[4 + k][x + 2] == dv[k][x]);
            }
        }
        if cursor_v is Some {
            let kv = choose|k: Seq<u8>| cursor_v.deep_view() == Some(k);
            assert(cursor_v.deep_view() == Some(kv));
            assert(lsv[3] == tag_line(99u8, kv));
            assert(newline_free(lsv[3]));
            assert forall|x: int| 0 <= x < kv.len() implies kv[x] != 10u8 by {
                assert(lsv[3][x + 2] == kv[x]);
            }
        }
        assert(st@.wf());
        // The text is exactly the rendering of the parsed state.
        assert(state_lines(st@) =~= lsv);
        assert(input@ == render_state_spec(st@));
        // And the rendering determines the state: the parsed state equals any
        // well-formed state that renders to this text.
        assert forall|m: ScanStateModel|
            m.wf() && input@ == render_state_spec(m) implies st@ == m by {
            lemma_render_inverts(lsv, m);
            assert(Some(block_v) == Some(m.last_processed_block));
            assert(Some(time_v) == Some(m.last_save_time));
            assert(Some(total_v) == Some(m.total_holders));
            assert(cursor_v.deep_view() == m.last_page_key);
            assert(dv.len() == m.holders.len());
            assert forall|k: int| 0 <= k < dv.len() implies dv[k] == m.holders[k] by {
                assert(lsv[4 + k] == tag_line(104u8, m.holders[k]));
                lemma_tag_line_injective(104u8, dv[k], m.holders[k]);
            }
            assert(dv =~= m.holders);
        }
    }
    Some(st)
}

/// The holder artifact is faithful: any newline-free decomposition of it into
/// lines is exactly the stored holder list, which is strictly sorted, free of
/// duplicates, and carries exactly the holder set.
pub proof fn lemma_holder_list_exact(m: ScanStateModel, ls: Seq<Seq<u8>>)
    requires
        m.wf(),
        all_newline_free(ls),
        join_lines(ls) == holder_list_spec(m),
    ensures
        ls == m.holders,
        sorted_strict(ls),
        ls.to_set() == m.holder_set(),
        forall|i: int, j: int| 0 <= i < j < ls.len() ==> ls[i] != ls[j],
{
    assert(all_newline_free(m.holders));
    lemma_join_injective(ls, m.holders);
    assert forall|i: int, j: int| 0 <= i < j < ls.len() implies ls[i] != ls[j] by {
        lemma_lex_trichotomy(ls[i], ls[j]);
    }
}

} // verus!
