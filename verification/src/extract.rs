//! Raw JSON field extraction.
//!
//! A battle record arrives as one JSON document.  The handlers never walk
//! the document themselves: a JSON-path extractor (the pikkr parser) hands
//! them the raw byte slice standing at each queried path, or nothing when
//! the path is absent, and the verified code works on those bytes.
//!
//! The extractor's answer is named as a function of the document and the
//! *whole* query list: on documents with duplicated keys the byte slice
//! returned for one path can depend on which other paths were queried
//! alongside it, so a per-path name would overpromise.

use vstd::prelude::*;
use crate::transcript::fields_view;

verus! {

/// What the extractor returns for a query list on a document: `None` when
/// it rejects the document or the paths, otherwise one answer per path,
/// each the raw bytes of the value standing there or `None` for an absent
/// path.  A function of the document and the whole query list.
pub uninterp spec fn json_result(doc: Seq<u8>, paths: Seq<Seq<u8>>) -> Option<
    Seq<Option<Seq<u8>>>,
>;

/// The view of an optional byte buffer.
pub open spec fn opt_bytes_view(o: Option<Vec<u8>>) -> Option<Seq<u8>> {
    match o {
        Option::None => Option::None,
        Option::Some(b) => Option::Some(b@),
    }
}

/// The view of an extractor answer.
pub open spec fn vals_view(v: Seq<Option<Vec<u8>>>) -> Seq<Option<Seq<u8>>> {
    v.map_values(|o: Option<Vec<u8>>| opt_bytes_view(o))
}

/// The view of a whole extraction outcome.
pub open spec fn extraction_view(r: Option<Vec<Option<Vec<u8>>>>) -> Option<Seq<Option<Seq<u8>>>> {
    match r {
        Option::None => Option::None,
        Option::Some(v) => Option::Some(vals_view(v@)),
    }
}

/// Relies on pikkr_annika::Pikkr: `new` builds a parser for the given JSON
/// paths and `parse` returns, for each path, the raw byte slice of the
/// value standing there in the document, or `None` for an absent path;
/// the whole call answers `None` when the parser rejects the paths or the
/// document.  A fresh parser is built per call and parses once, so only
/// the deterministic basic parse runs: the outcome is a function of the
/// document and the query list alone, as `json_result` names it.  The
/// parser indexes its per-level position table unguarded, which an empty
/// query list would underprovision: the precondition keeps that input out.
#[verifier::external_body]
pub(crate) fn json_extract(doc: &[u8], paths: &Vec<Vec<u8>>) -> (r: Option<Vec<Option<Vec<u8>>>>)
    requires
        paths@.len() > 0,
    ensures
        extraction_view(r) == json_result(doc@, fields_view(paths@)),
        r is Some ==> r->Some_0@.len() == paths@.len(),
{
    let refs: Vec<&[u8]> = paths.iter().map(|p| p.as_slice()).collect();
    let mut parser = match pikkr_annika::Pikkr::new(&refs, 1) {
        Ok(p) => p,
        Err(_) => return None,
    };
    match parser.parse(doc) {
        Ok(vals) => Some(vals.into_iter().map(|o| o.map(|b| b.to_vec())).collect()),
        Err(_) => None,
    }
}

/// Strip one layer of JSON string quotes, when both are there.
pub open spec fn unquote(s: Seq<u8>) -> Seq<u8> {
    if s.len() >= 2 && s[0] == 34 && s.last() == 34 {
        s.subrange(1, s.len() - 1)
    } else {
        s
    }
}

/// Compute `unquote`.
pub fn unquote_exec(s: &[u8]) -> (r: Vec<u8>)
    ensures
        r@ == unquote(s@),
{
    if s.len() >= 2 && s[0] == 34 && s[s.len() - 1] == 34 {
        let mut r: Vec<u8> = Vec::new();
        let mut i: usize = 1;
        while i < s.len() - 1
            invariant
                s@.len() >= 2,
                1 <= i <= s@.len() - 1,
                r@ == s@.subrange(1, i as int),
            decreases s@.len() - i,
        {
            r.push(s[i]);
            proof {
                assert(s@.subrange(1, i + 1) =~= s@.subrange(1, i as int).push(s@[i as int]));
            }
            i = i + 1;
        }
        r
    } else {
        crate::bytes::copy_bytes(s)
    }
}

} // verus!
