//! Decimal rendering and parsing of the counters kept in the state artifact.

use vstd::prelude::*;

verus! {

/// The decimal digits of `n`, most significant first, with no leading zero.
pub open spec fn dec_rep(n: nat) -> Seq<u8>
    decreases n,
{
    if n < 10 {
        seq![(48 + n) as u8]
    } else {
        dec_rep(n / 10).push((48 + n % 10) as u8)
    }
}

/// A decimal representation is non-empty, holds only digit bytes, and has
/// more than one digit exactly for values of ten or more.
pub proof fn lemma_dec_rep_props(n: nat)
    ensures
        dec_rep(n).len() >= 1,
        forall|i: int| 0 <= i < dec_rep(n).len() ==> 48 <= #[trigger] dec_rep(n)[i] <= 57,
        (n < 10) <==> (dec_rep(n).len() == 1),
    decreases n,
{
    if n >= 10 {
        lemma_dec_rep_props(n / 10);
    }
}

/// Two values with the same decimal representation are the same value.
pub proof fn lemma_dec_rep_injective(a: nat, b: nat)
    requires
        dec_rep(a) == dec_rep(b),
    ensures
        a == b,
    decreases a,
{
    lemma_dec_rep_props(a);
    lemma_dec_rep_props(b);
    if a < 10 || b < 10 {
        assert(a < 10 && b < 10);
        assert(dec_rep(a)[0] == (48 + a) as u8);
        assert(dec_rep(b)[0] == (48 + b) as u8);
    } else {
        let ra = dec_rep(a / 10);
        let rb = dec_rep(b / 10);
        assert(dec_rep(a) == ra.push((48 + a % 10) as u8));
        assert(dec_rep(b) == rb.push((48 + b % 10) as u8));
        assert(ra.len() == rb.len());
        assert forall|i: int| 0 <= i < ra.len() implies ra[i] == rb[i] by {
            assert(ra.push((48 + a % 10) as u8)[i] == ra[i]);
            assert(rb.push((48 + b % 10) as u8)[i] == rb[i]);
        }
        assert(ra =~= rb);
        lemma_dec_rep_injective(a / 10, b / 10);
        assert(dec_rep(a)[ra.len() as int] == (48 + a % 10) as u8);
        assert(dec_rep(b)[rb.len() as int] == (48 + b % 10) as u8);
        assert(a % 10 == b % 10);
        assert(a == 10 * (a / 10) + a % 10);
        assert(b == 10 * (b / 10) + b % 10);
    }
}

/// Renders `n` as decimal digits.
pub fn u64_to_dec(n: u64) -> (r: Vec<u8>)
    ensures
        r@ == dec_rep(n as nat),
    decreases n,
{
    if n < 10 {
        let mut v: Vec<u8> = Vec::new();
        v.push(48 + n as u8);
        proof {
            assert(v@ =~= dec_rep(n as nat));
        }
        v
    } else {
        let mut v = u64_to_dec(n / 10);
        v.push(48 + (n % 10) as u8);
        v
    }
}

/// Parses a decimal representation back to the value it renders. Succeeds on
/// exactly the strings that `dec_rep` produces for values that fit in `u64`.
pub fn parse_dec(s: &[u8]) -> (r: Option<u64>)
    ensures
        r matches Some(v) ==> s@ == dec_rep(v as nat),
        forall|n: u64| s@ == dec_rep(n as nat) ==> r == Some(n),
    decreases s@.len(),
{
    if s.len() == 0 {
        proof {
            assert forall|n: u64| s@ != dec_rep(n as nat) by {
                lemma_dec_rep_props(n as nat);
            }
        }
        return None;
    }
    let last = s[s.len() - 1];
    if last < 48 || last > 57 {
        proof {
            assert forall|n: u64| s@ != dec_rep(n as nat) by {
                lemma_dec_rep_props(n as nat);
                assert(dec_rep(n as nat)[dec_rep(n as nat).len() - 1] >= 48);
            }
        }
        return None;
    }
    let d = (last - 48) as u64;
    if s.len() == 1 {
        proof {
            assert(s@ =~= dec_rep(d as nat));
            assert forall|n: u64| s@ == dec_rep(n as nat) implies Some(d) == Some(n) by {
                lemma_dec_rep_props(n as nat);
                assert(n < 10);
            }
        }
        return Some(d);
    }
    let prefix = &s[0..s.len() - 1];
    proof {
        assert(prefix@ =~= s@.subrange(0, s@.len() - 1));
        assert forall|n: u64| s@ == #[trigger] dec_rep(n as nat) implies n >= 10 && prefix@
            == dec_rep((n / 10) as nat) && d == n % 10 by {
            lemma_dec_rep_props(n as nat);
            assert(n >= 10);
            assert(dec_rep(n as nat) == dec_rep((n / 10) as nat).push((48 + n % 10) as u8));
            lemma_dec_rep_props((n / 10) as nat);
            assert(prefix@ =~= dec_rep((n / 10) as nat));
            assert(s@[s@.len() - 1] == (48 + n % 10) as u8);
        }
    }
    match parse_dec(prefix) {
        None => None,
        Some(v) => {
            if v == 0 {
                return None;
            }
            if v > (u64::MAX - d) / 10 {
                proof {
                    assert forall|n: u64| s@ != dec_rep(n as nat) by {
                        if s@ == dec_rep(n as nat) {
                            assert(v == n / 10 && d == n % 10);
                            assert((n / 10) * 10 + n % 10 == n) by (nonlinear_arith);
                            assert(v * 10 + d <= u64::MAX);
                            assert(v <= (u64::MAX - d) / 10) by (nonlinear_arith)
                                requires
                                    v * 10 + d <= u64::MAX,
                                    0 <= d < 10,
                            ;
                        }
                    }
                }
                return None;
            }
            proof {
                assert(v * 10 + d <= u64::MAX) by (nonlinear_arith)
                    requires
                        v <= (u64::MAX - d) / 10,
                        0 <= d < 10,
                ;
            }
            let value = v * 10 + d;
            proof {
                assert(value >= 10);
                assert((value as nat) / 10 == v as nat && (value as nat) % 10 == d as nat)
                    by (nonlinear_arith)
                    requires
                        value == v * 10 + d,
                        0 <= d < 10,
                        v >= 1,
                ;
                assert(dec_rep(value as nat) == dec_rep(v as nat).push((48 + d) as u8));
                assert(s@ =~= prefix@.push(last));
                assert(s@ == dec_rep(value as nat));
                assert forall|n: u64| s@ == dec_rep(n as nat) implies Some(value) == Some(n) by {
                    assert(v == n / 10 && d == n % 10);
                    assert((n / 10) * 10 + n % 10 == n) by (nonlinear_arith);
                }
            }
            Some(value)
        },
    }
}

} // verus!
