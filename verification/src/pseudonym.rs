//! Per-file pseudonym assignment.
//!
//! Every canonical participant identifier seen while anonymizing one file is
//! assigned an opaque pseudonym `#k#`, numbering participants from 1 in
//! order of first appearance.  The map lives only for one file; two files
//! assign pseudonyms independently.  Distinct identifiers always receive
//! distinct pseudonyms, and one identifier always receives one pseudonym.

use vstd::prelude::*;
use crate::bytes::bytes_eq;
use crate::bytes::has_byte;

verus! {

/// The decimal digits of `n`, most significant first.
pub open spec fn dec_digits(n: nat) -> Seq<u8>
    decreases n,
{
    if n < 10 {
        seq![(48 + n) as u8]
    } else {
        dec_digits(n / 10).push((48 + n % 10) as u8)
    }
}

/// Decimal digit strings are non-empty and hold digit bytes only.
pub proof fn lemma_dec_digits_range(n: nat)
    ensures
        dec_digits(n).len() >= 1,
        n >= 10 ==> dec_digits(n).len() >= 2,
        forall|i: int| 0 <= i < dec_digits(n).len() ==> 48 <= #[trigger] dec_digits(n)[i] <= 57,
    decreases n,
{
    if n >= 10 {
        lemma_dec_digits_range(n / 10);
        let d = dec_digits(n);
        assert forall|i: int| 0 <= i < d.len() implies 48 <= #[trigger] d[i] <= 57 by {
            if i < d.len() - 1 {
                assert(d[i] == dec_digits(n / 10)[i]);
            }
        }
    }
}

/// Two numbers with the same digit string are equal.
pub proof fn lemma_dec_digits_injective(a: nat, b: nat)
    requires
        dec_digits(a) == dec_digits(b),
    ensures
        a == b,
    decreases a,
{
    lemma_dec_digits_range(a);
    lemma_dec_digits_range(b);
    if a < 10 && b < 10 {
        assert(dec_digits(a)[0] == (48 + a) as u8);
        assert(dec_digits(b)[0] == (48 + b) as u8);
    } else if a >= 10 && b >= 10 {
        assert(dec_digits(a).last() == (48 + a % 10) as u8);
        assert(dec_digits(b).last() == (48 + b % 10) as u8);
        assert(a % 10 == b % 10);
        assert(dec_digits(a).drop_last() =~= dec_digits(a / 10));
        assert(dec_digits(b).drop_last() =~= dec_digits(b / 10));
        lemma_dec_digits_injective(a / 10, b / 10);
        assert(a == 10 * (a / 10) + a % 10) by (nonlinear_arith);
        assert(b == 10 * (b / 10) + b % 10) by (nonlinear_arith);
    } else {
        assert(dec_digits(a).len() != dec_digits(b).len());
    }
}

/// The pseudonym of the `k`-th participant of a file: `#`, the digits of
/// `k`, `#`.
pub open spec fn pseudonym_of(k: nat) -> Seq<u8> {
    seq![35u8] + dec_digits(k) + seq![35u8]
}

/// Pseudonyms of distinct participant numbers are distinct.
pub proof fn lemma_pseudonym_injective(a: nat, b: nat)
    requires
        pseudonym_of(a) == pseudonym_of(b),
    ensures
        a == b,
{
    let pa = pseudonym_of(a);
    let pb = pseudonym_of(b);
    assert(dec_digits(a) =~= pa.subrange(1, pa.len() - 1)) by {
        assert(forall|i: int| 0 <= i < dec_digits(a).len() ==> pa[i + 1] == dec_digits(a)[i]);
    }
    assert(dec_digits(b) =~= pb.subrange(1, pb.len() - 1)) by {
        assert(forall|i: int| 0 <= i < dec_digits(b).len() ==> pb[i + 1] == dec_digits(b)[i]);
    }
    lemma_dec_digits_injective(a, b);
}

/// A pseudonym is non-empty and never holds the transcript delimiter `|`.
pub proof fn lemma_pseudonym_bytes(k: nat)
    ensures
        pseudonym_of(k).len() >= 3,
        !has_byte(pseudonym_of(k), 124u8),
{
    lemma_dec_digits_range(k);
    let p = pseudonym_of(k);
    assert forall|i: int| 0 <= i < p.len() implies p[i] != 124u8 by {
        if 1 <= i < 1 + dec_digits(k).len() {
            assert(p[i] == dec_digits(k)[i - 1]);
        }
    }
}

/// The decimal digits of `n`, as bytes.
pub fn dec_digits_exec(n: u64) -> (r: Vec<u8>)
    ensures
        r@ == dec_digits(n as nat),
    decreases n,
{
    if n < 10 {
        let mut r: Vec<u8> = Vec::new();
        r.push(48 + (n as u8));
        proof {
            assert(r@ =~= dec_digits(n as nat));
        }
        r
    } else {
        let mut r = dec_digits_exec(n / 10);
        r.push(48 + ((n % 10) as u8));
        r
    }
}

/// Build the pseudonym of participant number `k`.
pub fn make_pseudonym(k: usize) -> (r: Vec<u8>)
    ensures
        r@ == pseudonym_of(k as nat),
{
    let mut r: Vec<u8> = Vec::new();
    r.push(35u8);
    let mut d = dec_digits_exec(k as u64);
    let mut i: usize = 0;
    while i < d.len()
        invariant
            0 <= i <= d@.len(),
            d@ == dec_digits(k as nat),
            r@ == seq![35u8] + d@.subrange(0, i as int),
        decreases d@.len() - i,
    {
        r.push(d[i]);
        proof {
            assert(seq![35u8] + d@.subrange(0, i + 1) =~= (seq![35u8] + d@.subrange(
                0,
                i as int,
            )).push(d@[i as int]));
        }
        i = i + 1;
    }
    r.push(35u8);
    proof {
        assert(d@.subrange(0, d@.len() as int) =~= d@);
        assert(r@ =~= pseudonym_of(k as nat));
    }
    r
}

/// The pseudonym map of one file: the canonical identifiers seen so far, in
/// order of first appearance.  The identifier at index `i` carries the
/// pseudonym `pseudonym_of(i + 1)`.
pub struct PseudonymMap {
    pub ids: Vec<Vec<u8>>,
}

impl PseudonymMap {
    /// Well-formed: no identifier appears twice.
    pub open spec fn wf(&self) -> bool {
        forall|i: int, j: int|
            0 <= i < j < self.ids@.len() ==> #[trigger] self.ids@[i]@ != #[trigger] self.ids@[j]@
    }

    /// An empty map.
    pub fn new() -> (m: Self)
        ensures
            m.wf(),
            m.ids@.len() == 0,
    {
        PseudonymMap { ids: Vec::new() }
    }

    /// The index of `id` in the map, if present: the first (and, in a
    /// well-formed map, only) position holding it.
    pub fn find(&self, id: &[u8]) -> (r: Option<usize>)
        ensures
            match r {
                Some(i) => i < self.ids@.len() && self.ids@[i as int]@ == id@,
                None => forall|j: int| 0 <= j < self.ids@.len() ==> self.ids@[j]@ != id@,
            },
    {
        let mut i: usize = 0;
        while i < self.ids.len()
            invariant
                0 <= i <= self.ids@.len(),
                forall|j: int| 0 <= j < i ==> self.ids@[j]@ != id@,
            decreases self.ids@.len() - i,
        {
            if bytes_eq(self.ids[i].as_slice(), id) {
                return Some(i);
            }
            i = i + 1;
        }
        None
    }

    /// The pseudonym of `id`, assigning a fresh one on first sight.
    /// One identifier always receives one pseudonym; a fresh pseudonym is
    /// distinct from every earlier one.
    pub fn get_or_assign(&mut self, id: &[u8]) -> (p: Vec<u8>)
        requires
            old(self).wf(),
            old(self).ids@.len() + 1 < usize::MAX,
        ensures
            final(self).wf(),
            exists|i: int|
                0 <= i < final(self).ids@.len() && (#[trigger] final(self).ids@[i])@ == id@
                    && p@ == pseudonym_of((i + 1) as nat),
            final(self).ids@.len() >= old(self).ids@.len(),
            forall|j: int|
                0 <= j < old(self).ids@.len() ==> (#[trigger] final(self).ids@[j])@ == old(
                    self,
                ).ids@[j]@,
            final(self).ids@.len() <= old(self).ids@.len() + 1,
            (exists|j: int|
                0 <= j < old(self).ids@.len() && (#[trigger] old(self).ids@[j])@ == id@)
                ==> final(self).ids@ == old(self).ids@,
            (forall|j: int|
                0 <= j < old(self).ids@.len() ==> (#[trigger] old(self).ids@[j])@ != id@)
                ==> (final(self).ids@.len() == old(self).ids@.len() + 1
                && final(self).ids@[old(self).ids@.len() as int]@ == id@),
    {
        match self.find(id) {
            Some(i) => {
                let p = make_pseudonym(i + 1);
                proof {
                    assert(self.ids@[i as int]@ == id@);
                }
                p
            },
            None => {
                let mut owned: Vec<u8> = Vec::new();
                crate::bytes::push_all(&mut owned, id);
                let ghost old_ids = self.ids@;
                self.ids.push(owned);
                let n = self.ids.len();
                let p = make_pseudonym(n);
                proof {
                    assert(owned@ =~= id@);
                    assert(self.ids@[n - 1]@ == id@);
                    assert forall|a: int, b: int|
                        0 <= a < b < self.ids@.len() implies #[trigger] self.ids@[a]@
                        != #[trigger] self.ids@[b]@ by {
                        if b < self.ids@.len() - 1 {
                            assert(self.ids@[a] == old_ids[a]);
                            assert(self.ids@[b] == old_ids[b]);
                        } else {
                            assert(self.ids@[b]@ == id@);
                            assert(self.ids@[a] == old_ids[a]);
                        }
                    }
                }
                p
            },
        }
    }

    /// The (identifier, pseudonym) pairs of the map, in assignment order.
    pub fn pairs(&self) -> (ps: Vec<(Vec<u8>, Vec<u8>)>)
        ensures
            ps@.len() == self.ids@.len(),
            forall|k: int|
                0 <= k < ps@.len() ==> (#[trigger] ps@[k]).0@ == self.ids@[k]@ && ps@[k].1@
                    == pseudonym_of((k + 1) as nat),
    {
        let mut ps: Vec<(Vec<u8>, Vec<u8>)> = Vec::new();
        let mut k: usize = 0;
        while k < self.ids.len()
            invariant
                0 <= k <= self.ids@.len(),
                ps@.len() == k,
                forall|j: int|
                    0 <= j < k ==> (#[trigger] ps@[j]).0@ == self.ids@[j]@ && ps@[j].1@
                        == pseudonym_of((j + 1) as nat),
            decreases self.ids@.len() - k,
        {
            let mut idc: Vec<u8> = Vec::new();
            crate::bytes::push_all(&mut idc, self.ids[k].as_slice());
            let p = make_pseudonym(k + 1);
            ps.push((idc, p));
            proof {
                assert(idc@ =~= self.ids@[k as int]@);
            }
            k = k + 1;
        }
        ps
    }
}

/// No two distinct participants of one file receive the same pseudonym: in
/// a well-formed map, entries holding distinct identifiers stand at
/// distinct indices, and the pseudonyms of distinct indices differ.
pub proof fn lemma_no_shared_pseudonym(m: &PseudonymMap, i: int, j: int)
    requires
        m.wf(),
        0 <= i < m.ids@.len(),
        0 <= j < m.ids@.len(),
        m.ids@[i]@ != m.ids@[j]@,
    ensures
        pseudonym_of((i + 1) as nat) != pseudonym_of((j + 1) as nat),
{
    assert(i != j);
    if pseudonym_of((i + 1) as nat) == pseudonym_of((j + 1) as nat) {
        lemma_pseudonym_injective((i + 1) as nat, (j + 1) as nat);
        assert(false);
    }
}

/// One participant receives one pseudonym within a file: in a well-formed
/// map, two entries holding the same identifier are the same entry.
pub proof fn lemma_one_pseudonym_per_id(m: &PseudonymMap, i: int, j: int)
    requires
        m.wf(),
        0 <= i < m.ids@.len(),
        0 <= j < m.ids@.len(),
        m.ids@[i]@ == m.ids@[j]@,
    ensures
        i == j,
        pseudonym_of((i + 1) as nat) == pseudonym_of((j + 1) as nat),
{
    if i < j {
        assert(m.ids@[i]@ != m.ids@[j]@);
    }
    if j < i {
        assert(m.ids@[j]@ != m.ids@[i]@);
    }
}

} // verus!
