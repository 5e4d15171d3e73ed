use vstd::prelude::*;

use crate::errors::KmerError;

verus! {

/// ASCII `A`.
pub const BASE_A: u8 = 65;

/// ASCII `T`.
pub const BASE_T: u8 = 84;

/// ASCII `C`.
pub const BASE_C: u8 = 67;

/// ASCII `G`.
pub const BASE_G: u8 = 71;

/// Whether a byte is one of the four canonical bases, compared
/// byte-exactly and case-sensitively.
pub open spec fn is_canonical_base(b: u8) -> bool {
    b == BASE_A || b == BASE_T || b == BASE_C || b == BASE_G
}

/// The distinct non-canonical bytes of `s`, each once, in order of first
/// occurrence.
pub open spec fn offending_bases(s: Seq<u8>) -> Seq<u8>
    decreases s.len(),
{
    if s.len() == 0 {
        Seq::empty()
    } else {
        let prefix = offending_bases(s.drop_last());
        if is_canonical_base(s.last()) || prefix.contains(s.last()) {
            prefix
        } else {
            prefix.push(s.last())
        }
    }
}

/// Every byte that `offending_bases` collects is non-canonical, and it
/// collects one whenever some byte of `s` is non-canonical; so the
/// collection is empty exactly when every byte of `s` is canonical.
proof fn lemma_offending_bases_empty(s: Seq<u8>)
    ensures
        offending_bases(s).len() == 0 <==> (forall|i: int|
            0 <= i < s.len() ==> is_canonical_base(s[i])),
    decreases s.len(),
{
    if s.len() > 0 {
        let sp = s.drop_last();
        lemma_offending_bases_empty(sp);
        if offending_bases(s).len() == 0 {
            assert(offending_bases(sp).len() == 0);
            assert forall|i: int| 0 <= i < s.len() implies is_canonical_base(s[i]) by {
                if i < s.len() - 1 {
                    assert(is_canonical_base(sp[i]));
                } else {
                    assert(s[i] == s.last());
                    if !is_canonical_base(s.last()) {
                        assert(!offending_bases(sp).contains(s.last()));
                        assert(offending_bases(s).len() > 0);
                    }
                }
            }
        }
        if forall|i: int| 0 <= i < s.len() ==> is_canonical_base(#[trigger] s[i]) {
            assert forall|i: int| 0 <= i < sp.len() implies is_canonical_base(sp[i]) by {
                assert(sp[i] == s[i]);
            }
            assert(offending_bases(sp).len() == 0);
            assert(is_canonical_base(s.last()));
        }
    }
}

fn is_base_valid(b: u8) -> (r: bool)
    ensures
        r == is_canonical_base(b),
{
    b == BASE_A || b == BASE_T || b == BASE_C || b == BASE_G
}

fn contains_byte(v: &Vec<u8>, b: u8) -> (r: bool)
    ensures
        r == v@.contains(b),
{
    let mut i: usize = 0;
    while i < v.len()
        invariant
            i <= v@.len(),
            forall|j: int| 0 <= j < i ==> v@[j] != b,
        decreases v@.len() - i,
    {
        if v[i] == b {
            return true;
        }
        i = i + 1;
    }
    false
}

/// The base validator: scans `seq` and reports the set of distinct
/// symbols outside the A/T/C/G alphabet.
///
/// Returns `Ok` exactly when every byte is canonical; otherwise
/// `IncorrectBases` carrying the distinct offending bytes in order of
/// first occurrence. The advisory never alters window generation or
/// counting: callers are free to proceed.
pub fn check_bases(seq: &[u8]) -> (r: Result<(), KmerError>)
    ensures
        r is Ok <==> (forall|i: int| 0 <= i < seq@.len() ==> is_canonical_base(seq@[i])),
        match r {
            Ok(()) => offending_bases(seq@).len() == 0,
            Err(e) => match e {
                KmerError::IncorrectBases { bases } => bases@ == offending_bases(seq@)
                    && bases@.len() > 0,
                _ => false,
            },
        },
{
    let mut bad: Vec<u8> = Vec::new();
    let mut i: usize = 0;
    while i < seq.len()
        invariant
            i <= seq@.len(),
            bad@ == offending_bases(seq@.subrange(0, i as int)),
        decreases seq@.len() - i,
    {
        let b = seq[i];
        proof {
            assert(seq@.subrange(0, i + 1).drop_last() =~= seq@.subrange(0, i as int));
            assert(seq@.subrange(0, i + 1).last() == seq@[i as int]);
        }
        if !is_base_valid(b) && !contains_byte(&bad, b) {
            bad.push(b);
        }
        i = i + 1;
    }
    proof {
        assert(seq@.subrange(0, seq@.len() as int) =~= seq@);
        lemma_offending_bases_empty(seq@);
    }
    if bad.len() == 0 {
        Ok(())
    } else {
        Err(KmerError::IncorrectBases { bases: bad })
    }
}

} // verus!
