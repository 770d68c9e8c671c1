//! Line-based text artifacts: joining newline-free records into one byte
//! string, splitting it back, and the proof that the decomposition is unique.

use vstd::prelude::*;

verus! {

/// A byte string's deep view is its view: the two coincide for `Vec<u8>`.
pub broadcast proof fn lemma_bytes_deep_view(v: Vec<u8>)
    ensures
        #[trigger] v.deep_view() == v@,
{
    assert(v.deep_view() =~= v@);
}

/// The line feed byte that terminates every record.
pub open spec fn nl() -> u8 {
    10u8
}

/// A record that may stand as one line of an artifact: it holds no line feed.
pub open spec fn newline_free(s: Seq<u8>) -> bool {
    forall|i: int| 0 <= i < s.len() ==> s[i] != nl()
}

/// Every record of the sequence is newline-free.
pub open spec fn all_newline_free(ls: Seq<Seq<u8>>) -> bool {
    forall|i: int| 0 <= i < ls.len() ==> #[trigger] newline_free(ls[i])
}

/// The artifact text: each record followed by one line feed.
pub open spec fn join_lines(ls: Seq<Seq<u8>>) -> Seq<u8>
    decreases ls.len(),
{
    if ls.len() == 0 {
        Seq::empty()
    } else {
        ls[0] + seq![nl()] + join_lines(ls.skip(1))
    }
}

/// Appending one record appends its bytes and a line feed to the artifact.
pub proof fn lemma_join_snoc(ls: Seq<Seq<u8>>, l: Seq<u8>)
    ensures
        join_lines(ls.push(l)) == join_lines(ls) + l + seq![nl()],
    decreases ls.len(),
{
    if ls.len() == 0 {
        assert(ls.push(l)[0] == l);
        assert(ls.push(l).skip(1) =~= Seq::<Seq<u8>>::empty());
        assert(join_lines(ls.push(l).skip(1)) == Seq::<u8>::empty());
        assert(join_lines(ls.push(l)) == l + seq![nl()] + Seq::<u8>::empty());
        assert(join_lines(ls.push(l)) =~= join_lines(ls) + l + seq![nl()]);
    } else {
        assert(ls.push(l).skip(1) =~= ls.skip(1).push(l));
        lemma_join_snoc(ls.skip(1), l);
        assert(join_lines(ls.push(l)) =~= join_lines(ls) + l + seq![nl()]);
    }
}

/// A non-empty artifact ends with a line feed.
pub proof fn lemma_join_last(ls: Seq<Seq<u8>>)
    requires
        ls.len() > 0,
    ensures
        join_lines(ls).len() > 0,
        join_lines(ls)[join_lines(ls).len() - 1] == nl(),
    decreases ls.len(),
{
    if ls.len() == 1 {
        assert(join_lines(ls.skip(1)) =~= Seq::<u8>::empty());
    } else {
        lemma_join_last(ls.skip(1));
    }
}

/// The artifact is at least as long as its first record.
pub proof fn lemma_join_first(ls: Seq<Seq<u8>>)
    requires
        ls.len() > 0,
    ensures
        join_lines(ls).len() > ls[0].len(),
        forall|k: int| 0 <= k < ls[0].len() ==> join_lines(ls)[k] == ls[0][k],
        join_lines(ls)[ls[0].len() as int] == nl(),
        join_lines(ls).skip(ls[0].len() as int + 1) == join_lines(ls.skip(1)),
{
    assert(join_lines(ls).skip(ls[0].len() as int + 1) =~= join_lines(ls.skip(1)));
}

/// Two newline-free record sequences with the same artifact are the same
/// sequence: the line feeds mark the record boundaries unambiguously.
pub proof fn lemma_join_injective(a: Seq<Seq<u8>>, b: Seq<Seq<u8>>)
    requires
        all_newline_free(a),
        all_newline_free(b),
        join_lines(a) == join_lines(b),
    ensures
        a == b,
    decreases a.len(),
{
    if a.len() == 0 {
        if b.len() > 0 {
            lemma_join_last(b);
        }
        assert(a =~= b);
    } else if b.len() == 0 {
        lemma_join_last(a);
    } else {
        lemma_join_first(a);
        lemma_join_first(b);
        assert(newline_free(a[0]));
        assert(newline_free(b[0]));
        let t = join_lines(a);
        // The first line feed of the artifact stands exactly after the first
        // record, so both first records have the same length.
        if a[0].len() < b[0].len() {
            assert(t[a[0].len() as int] == nl());
            assert(t[a[0].len() as int] == b[0][a[0].len() as int]);
        }
        if b[0].len() < a[0].len() {
            assert(t[b[0].len() as int] == nl());
            assert(t[b[0].len() as int] == a[0][b[0].len() as int]);
        }
        assert(a[0].len() == b[0].len());
        assert forall|k: int| 0 <= k < a[0].len() implies a[0][k] == b[0][k] by {
            assert(join_lines(a)[k] == a[0][k]);
            assert(join_lines(b)[k] == b[0][k]);
        }
        assert(a[0] =~= b[0]);
        assert(forall|i: int|
            0 <= i < a.skip(1).len() ==> #[trigger] newline_free(a.skip(1)[i]));
        assert(forall|i: int|
            0 <= i < b.skip(1).len() ==> #[trigger] newline_free(b.skip(1)[i]));
        assert(join_lines(a.skip(1)) == join_lines(b.skip(1)));
        lemma_join_injective(a.skip(1), b.skip(1));
        assert forall|i: int| 0 <= i < a.len() implies a[i] == b[i] by {
            if i >= 1 {
                assert(a[i] == a.skip(1)[i - 1]);
                assert(b[i] == b.skip(1)[i - 1]);
            }
        }
        assert(a =~= b);
    }
}

/// Splits an artifact into its records. Succeeds exactly when the text is a
/// whole number of line-feed-terminated records; the records returned are the
/// unique newline-free decomposition of the text.
pub fn split_lines(input: &[u8]) -> (r: Option<Vec<Vec<u8>>>)
    ensures
        r matches Some(ls) ==> all_newline_free(ls.deep_view()) && join_lines(ls.deep_view())
            == input@,
        r is None ==> input@.len() > 0 && input@[input@.len() - 1] != nl(),
{
    let mut out: Vec<Vec<u8>> = Vec::new();
    let mut cur: Vec<u8> = Vec::new();
    let mut i: usize = 0;
    proof {
        assert(join_lines(out.deep_view()) + cur@ =~= input@.subrange(0, 0));
    }
    while i < input.len()
        invariant
            i <= input@.len(),
            all_newline_free(out.deep_view()),
            newline_free(cur@),
            join_lines(out.deep_view()) + cur@ == input@.subrange(0, i as int),
        decreases input@.len() - i,
    {
        let c = input[i];
        if c == 10 {
            let ghost old_out = out.deep_view();
            let ghost old_cur = cur@;
            proof {
                lemma_join_snoc(old_out, old_cur);
                assert(join_lines(old_out) + old_cur + seq![nl()] =~= input@.subrange(
                    0,
                    i + 1,
                ));
            }
            out.push(cur);
            cur = Vec::new();
            proof {
                assert(out.deep_view() =~~= old_out.push(old_cur));
                assert(join_lines(out.deep_view()) + cur@ =~= join_lines(out.deep_view()));
            }
        } else {
            proof {
                let pre = join_lines(out.deep_view()) + cur@;
                assert(join_lines(out.deep_view()) + cur@.push(c) =~= pre.push(c));
                assert forall|k: int| 0 <= k < i + 1 implies pre.push(c)[k] == input@.subrange(
                    0,
                    i + 1,
                )[k] by {
                    if k < i {
                        assert(pre[k] == input@.subrange(0, i as int)[k]);
                    }
                }
                assert(pre.push(c) =~= input@.subrange(0, i + 1));
            }
            cur.push(c);
        }
        i = i + 1;
    }
    proof {
        assert(input@.subrange(0, input@.len() as int) =~= input@);
    }
    if cur.len() > 0 {
        // The tail after the last line feed is not a terminated record.
        proof {
            let j = join_lines(out.deep_view());
            assert(input@[input@.len() - 1] == (j + cur@)[j.len() + cur@.len() - 1]);
            assert((j + cur@)[j.len() + cur@.len() - 1] == cur@[cur@.len() - 1]);
        }
        None
    } else {
        proof {
            assert(join_lines(out.deep_view()) + cur@ =~= join_lines(out.deep_view()));
        }
        Some(out)
    }
}

} // verus!
