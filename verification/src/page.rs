//! Extraction of one page of owner addresses from a remote response body.
//!
//! The body is a JSON document in one of two recognized shapes: a list of
//! owner records under `owners`, each holding an `ownerAddress` string, or a
//! flat list of address strings under `result`. An optional `pageKey` string
//! carries the continuation cursor. One trusted call reads the raw material
//! of both shapes out of the text; which shape wins, and which records are
//! kept, is decided in verified code, against names for what the text holds.

use vstd::prelude::*;

verus! {

/// The owner-address entry of each record under `owners`, in order, when the
/// text is a JSON object whose `owners` field is an array: for each record,
/// its `ownerAddress` string as bytes, or nothing when it has none.
pub uninterp spec fn owners_raw_of(text: Seq<char>) -> Option<Seq<Option<Seq<u8>>>>;

/// The elements under `result`, in order, when the text is a JSON object
/// whose `result` field is an array: each element's string as bytes, or
/// nothing for an element that is not a string.
pub uninterp spec fn flat_raw_of(text: Seq<char>) -> Option<Seq<Option<Seq<u8>>>>;

/// The `pageKey` string of the text as bytes, when the text is a JSON object
/// with a string `pageKey` field.
pub uninterp spec fn cursor_raw_of(text: Seq<char>) -> Option<Seq<u8>>;

/// Relies on serde_json::from_str and Value::get / as_array / as_str: the
/// `ownerAddress` entries of the `owners` records, a function of the text
/// alone (serde_json parses deterministically). A body that is not JSON
/// yields nothing, the same as a JSON value without the field.
#[verifier::external_body]
fn raw_owners(text: &str) -> (r: Option<Vec<Option<Vec<u8>>>>)
    ensures
        r.deep_view() == owners_raw_of(text@),
{
    let v: serde_json::Value = match serde_json::from_str(text) {
        Ok(v) => v,
        Err(_) => {
            return None;
        },
    };
    v.get("owners").and_then(|f| f.as_array()).map(|a|
        a.iter().map(|it|
            it.get("ownerAddress").and_then(|x| x.as_str()).map(|s| s.as_bytes().to_vec())
        ).collect())
}

/// Relies on serde_json::from_str and Value::get / as_array / as_str: the
/// string elements of the `result` field, a function of the text alone; as
/// above, a body that is not JSON yields nothing.
#[verifier::external_body]
fn raw_flat(text: &str) -> (r: Option<Vec<Option<Vec<u8>>>>)
    ensures
        r.deep_view() == flat_raw_of(text@),
{
    let v: serde_json::Value = match serde_json::from_str(text) {
        Ok(v) => v,
        Err(_) => {
            return None;
        },
    };
    v.get("result").and_then(|f| f.as_array()).map(|a|
        a.iter().map(|it| it.as_str().map(|s| s.as_bytes().to_vec())).collect())
}

/// Relies on serde_json::from_str and Value::get / as_str: the `pageKey`
/// string, a function of the text alone; a body that is not JSON yields
/// nothing.
#[verifier::external_body]
fn raw_cursor(text: &str) -> (r: Option<Vec<u8>>)
    ensures
        r.deep_view() == cursor_raw_of(text@),
{
    let v: serde_json::Value = match serde_json::from_str(text) {
        Ok(v) => v,
        Err(_) => {
            return None;
        },
    };
    v.get("pageKey").and_then(|k| k.as_str()).map(|s| s.as_bytes().to_vec())
}

/// The response shapes the scan recognizes, decided once per page.
pub enum ParsedPage {
    /// A list of owner records, reduced to their owner addresses.
    Owners(Vec<Vec<u8>>),
    /// A flat list of address strings.
    FlatResult(Vec<Vec<u8>>),
    /// Anything else: no addresses could be extracted.
    Unrecognized,
}

/// One page of the remote index, reduced to plain values: the extracted
/// addresses and the continuation cursor, if one came.
pub struct PageData {
    pub page: ParsedPage,
    pub next_cursor: Option<Vec<u8>>,
}

/// The addresses a parsed page carries.
pub open spec fn page_addrs(p: ParsedPage) -> Seq<Seq<u8>> {
    match p {
        ParsedPage::Owners(v) => v.deep_view(),
        ParsedPage::FlatResult(v) => v.deep_view(),
        ParsedPage::Unrecognized => Seq::<Seq<u8>>::empty(),
    }
}

/// The entries that are present, in order: records without the looked-for
/// string are passed over.
pub open spec fn filter_present(raw: Seq<Option<Seq<u8>>>) -> Seq<Seq<u8>>
    decreases raw.len(),
{
    if raw.len() == 0 {
        Seq::empty()
    } else {
        match raw[0] {
            Some(a) => seq![a] + filter_present(raw.skip(1)),
            None => filter_present(raw.skip(1)),
        }
    }
}

/// Appending one entry appends its address, if it carries one.
proof fn lemma_filter_present_snoc(raw: Seq<Option<Seq<u8>>>, x: Option<Seq<u8>>)
    ensures
        filter_present(raw.push(x)) == (match x {
            Some(a) => filter_present(raw).push(a),
            None => filter_present(raw),
        }),
    decreases raw.len(),
{
    if raw.len() == 0 {
        assert(raw.push(x)[0] == x);
        assert(raw.push(x).skip(1) =~= Seq::<Option<Seq<u8>>>::empty());
        assert(filter_present(Seq::<Option<Seq<u8>>>::empty()) == Seq::<Seq<u8>>::empty());
        match x {
            Some(a) => {
                assert(filter_present(raw.push(x)) =~= filter_present(raw).push(a));
            },
            None => {},
        }
    } else {
        assert(raw.push(x)[0] == raw[0]);
        assert(raw.push(x).skip(1) =~= raw.skip(1).push(x));
        lemma_filter_present_snoc(raw.skip(1), x);
        match raw[0] {
            Some(a) => {
                match x {
                    Some(b) => {
                        assert(filter_present(raw.push(x)) =~= filter_present(raw).push(b));
                    },
                    None => {
                        assert(filter_present(raw.push(x)) =~= filter_present(raw));
                    },
                }
            },
            None => {},
        }
    }
}

/// Keeps the entries that are present, in order.
fn collect_present(raw: Vec<Option<Vec<u8>>>) -> (r: Vec<Vec<u8>>)
    ensures
        r.deep_view() == filter_present(raw.deep_view()),
{
    let ghost all = raw.deep_view();
    let mut out: Vec<Vec<u8>> = Vec::new();
    let mut i: usize = 0;
    proof {
        assert(all.take(0) =~= Seq::<Option<Seq<u8>>>::empty());
        assert(out.deep_view() =~= filter_present(all.take(0)));
    }
    while i < raw.len()
        invariant
            i <= raw@.len(),
            all == raw.deep_view(),
            out.deep_view() == filter_present(all.take(i as int)),
        decreases raw@.len() - i,
    {
        let ghost pre = out.deep_view();
        match &raw[i] {
            Some(a) => {
                proof {
                    assert(all[i as int] == Some(a@));
                }
                out.push(a.clone());
                proof {
                    assert(out.deep_view() =~~= pre.push(a@));
                }
            },
            None => {
                proof {
                    assert(all[i as int] is None);
                }
            },
        }
        proof {
            assert(all.take(i as int).push(all[i as int]) =~= all.take(i + 1));
            lemma_filter_present_snoc(all.take(i as int), all[i as int]);
        }
        i = i + 1;
    }
    proof {
        assert(all.take(all.len() as int) =~= all);
    }
    out
}

/// Reduces one response body to plain values, trying the two recognized
/// shapes in order: owner records first, then the flat list. A body that is
/// not JSON, or carries neither shape, is `Unrecognized`; the engine then
/// stops without touching the state.
pub fn parse_page(text: &str) -> (r: PageData)
    ensures
        (match owners_raw_of(text@) {
            Some(raw) => r.page matches ParsedPage::Owners(v) && v.deep_view()
                == filter_present(raw),
            None => (match flat_raw_of(text@) {
                Some(raw) => r.page matches ParsedPage::FlatResult(v) && v.deep_view()
                    == filter_present(raw),
                None => r.page is Unrecognized,
            }),
        }),
        r.next_cursor.deep_view() == cursor_raw_of(text@),
{
    let page = match raw_owners(text) {
        Some(raw) => ParsedPage::Owners(collect_present(raw)),
        None => {
            match raw_flat(text) {
                Some(raw) => ParsedPage::FlatResult(collect_present(raw)),
                None => ParsedPage::Unrecognized,
            }
        },
    };
    PageData { page, next_cursor: raw_cursor(text) }
}

} // verus!
