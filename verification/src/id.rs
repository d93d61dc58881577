//! Canonical participant identifiers.
//!
//! A display name is normalized to an identifier by folding ASCII upper-case
//! letters to lower case and dropping every byte that is not a lower-case
//! letter or digit.  Two names denote the same participant exactly when they
//! normalize to the same identifier.

use vstd::prelude::*;

verus! {

use vstd::string::StringSliceAdditionalSpecFns;

/// Case-fold one byte: ASCII upper-case letters map to lower case,
/// everything else is unchanged.
pub open spec fn fold_case(b: u8) -> u8 {
    if 65 <= b <= 90 {
        (b + 32) as u8
    } else {
        b
    }
}

/// True for the bytes an identifier may contain: `a`..`z` and `0`..`9`.
pub open spec fn is_id_byte(b: u8) -> bool {
    (97 <= b <= 122) || (48 <= b <= 57)
}

/// The canonical identifier of a byte string: case-fold, then keep only
/// identifier bytes.
pub open spec fn id_of(s: Seq<u8>) -> Seq<u8>
    decreases s.len(),
{
    if s.len() == 0 {
        Seq::empty()
    } else {
        let rest = id_of(s.drop_last());
        if is_id_byte(fold_case(s.last())) {
            rest.push(fold_case(s.last()))
        } else {
            rest
        }
    }
}

/// Every byte of a canonical identifier is an identifier byte.
pub proof fn lemma_id_of_bytes(s: Seq<u8>)
    ensures
        forall|i: int| 0 <= i < id_of(s).len() ==> is_id_byte(#[trigger] id_of(s)[i]),
        id_of(s).len() <= s.len(),
    decreases s.len(),
{
    if s.len() > 0 {
        lemma_id_of_bytes(s.drop_last());
    }
}

/// Normalizing an identifier again changes nothing.
pub proof fn lemma_id_of_idempotent(s: Seq<u8>)
    ensures
        id_of(id_of(s)) == id_of(s),
    decreases s.len(),
{
    lemma_id_of_bytes(s);
    lemma_id_only_bytes(id_of(s));
}

/// A sequence made only of identifier bytes normalizes to itself.
proof fn lemma_id_only_bytes(s: Seq<u8>)
    requires
        forall|i: int| 0 <= i < s.len() ==> is_id_byte(#[trigger] s[i]),
    ensures
        id_of(s) == s,
    decreases s.len(),
{
    if s.len() == 0 {
        assert(id_of(s) =~= s);
    } else {
        lemma_id_only_bytes(s.drop_last());
        assert(is_id_byte(s.last()));
        assert(id_of(s) =~= s);
    }
}

/// Compute the canonical identifier of a byte string.
pub fn to_id_bytes(s: &[u8]) -> (r: Vec<u8>)
    ensures
        r@ == id_of(s@),
{
    let mut r: Vec<u8> = Vec::new();
    let mut i: usize = 0;
    while i < s.len()
        invariant
            0 <= i <= s@.len(),
            r@ == id_of(s@.subrange(0, i as int)),
        decreases s@.len() - i,
    {
        let mut b = s[i];
        if 65 <= b && b <= 90 {
            b = b + 32;
        }
        if (97 <= b && b <= 122) || (48 <= b && b <= 57) {
            r.push(b);
        }
        proof {
            let pre = s@.subrange(0, i as int);
            let post = s@.subrange(0, i + 1 as int);
            assert(post.drop_last() =~= pre);
            assert(post.last() == s@[i as int]);
        }
        i = i + 1;
    }
    proof {
        assert(s@.subrange(0, s@.len() as int) =~= s@);
    }
    r
}

/// Normalize a display name given as `&str` to its canonical identifier.
pub fn to_id(s: &str) -> (r: Vec<u8>)
    ensures
        r@ == id_of(s.spec_bytes()),
{
    let bytes = s.as_bytes();
    to_id_bytes(bytes)
}

} // verus!
