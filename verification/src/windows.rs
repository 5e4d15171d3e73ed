use vstd::prelude::*;

use crate::errors::KmerError;

verus! {

/// All length-`k` contiguous windows of `s`, in left-to-right order, one
/// per starting offset `0 ..= s.len() - k`. Meaningful for `1 <= k <= s.len()`.
pub open spec fn windows_of(s: Seq<u8>, k: int) -> Seq<Seq<u8>> {
    Seq::new((s.len() - k + 1) as nat, |i: int| s.subrange(i, i + k))
}

/// The mathematical contents of a vector of byte vectors.
pub open spec fn views_of(ws: Seq<Vec<u8>>) -> Seq<Seq<u8>> {
    ws.map_values(|w: Vec<u8>| w@)
}

/// The sliding-window generator: every length-`k` subsequence of
/// `sequence`, left to right, step 1.
///
/// Fails with `KmerLengthTooSmall` when `k == 0` (checked first, even for
/// an empty sequence) and with `KmerLengthTooLong` when `k` exceeds the
/// sequence length. On success the result holds exactly
/// `sequence.len() - k + 1` windows, each of length `k`.
pub fn kmers(sequence: &[u8], k: usize) -> (r: Result<Vec<Vec<u8>>, KmerError>)
    ensures
        match r {
            Ok(ws) => 1 <= k <= sequence@.len() && ws@.len() as int == sequence@.len() - k + 1
                && views_of(ws@) == windows_of(sequence@, k as int) && (forall|t: int|
                0 <= t < ws@.len() ==> (#[trigger] ws@[t])@.len() == k),
            Err(e) => match e {
                KmerError::KmerLengthTooSmall { k: ek } => k == 0 && ek == k,
                KmerError::KmerLengthTooLong { k: ek, seq_len } => k >= 1
                    && sequence@.len() < k as int && ek == k && seq_len as int == sequence@.len(),
                KmerError::IncorrectBases { .. } => false,
            },
        },
        r is Ok <==> 1 <= k <= sequence@.len(),
{
    if k == 0 {
        return Err(KmerError::KmerLengthTooSmall { k });
    }
    if sequence.len() < k {
        return Err(KmerError::KmerLengthTooLong { k, seq_len: sequence.len() });
    }
    let n: usize = sequence.len() - k + 1;
    let mut out: Vec<Vec<u8>> = Vec::new();
    let mut i: usize = 0;
    while i < n
        invariant
            1 <= k <= sequence@.len(),
            sequence@.len() <= usize::MAX,
            n as int == sequence@.len() - k + 1,
            i <= n,
            out@.len() == i,
            forall|t: int| 0 <= t < i ==> #[trigger] out@[t]@ == sequence@.subrange(t, t + k),
        decreases n - i,
    {
        let mut w: Vec<u8> = Vec::new();
        let mut j: usize = i;
        while j < i + k
            invariant
                i <= j <= i + k,
                i + k <= sequence@.len(),
                sequence@.len() <= usize::MAX,
                w@ == sequence@.subrange(i as int, j as int),
            decreases i + k - j,
        {
            w.push(sequence[j]);
            proof {
                assert(w@ =~= sequence@.subrange(i as int, j + 1));
            }
            j = j + 1;
        }
        out.push(w);
        i = i + 1;
    }
    proof {
        assert(views_of(out@) =~= windows_of(sequence@, k as int));
    }
    Ok(out)
}

/// A lazy window generator over an owned byte sequence: each call of
/// `next` hands out the front window of length `k` and advances the
/// cursor by dropping the sequence's first byte.
pub struct KMers {
    pub sequence: Vec<u8>,
    pub k: usize,
}

impl KMers {
    /// Build a generator over `sequence` for windows of length `k`.
    pub fn new(sequence: Vec<u8>, k: usize) -> (r: KMers)
        ensures
            r.sequence == sequence,
            r.k == k,
    {
        KMers { sequence, k }
    }

    /// The next window, or `None` once `k` is zero or fewer than `k`
    /// bytes remain. On success the remaining sequence loses its first
    /// byte, so repeated calls walk the windows left to right.
    pub fn next(&mut self) -> (r: Option<Vec<u8>>)
        ensures
            match r {
                None => (old(self).k == 0 || old(self).sequence@.len() < old(self).k as int)
                    && *final(self) == *old(self),
                Some(w) => old(self).k >= 1 && old(self).sequence@.len() >= old(self).k as int
                    && w@ == old(self).sequence@.subrange(0, old(self).k as int)
                    && final(self).sequence@ == old(self).sequence@.drop_first()
                    && final(self).k == old(self).k,
            },
    {
        if self.k == 0 {
            return None;
        }
        if self.sequence.len() < self.k {
            return None;
        }
        let mut w: Vec<u8> = Vec::new();
        let mut j: usize = 0;
        while j < self.k
            invariant
                j <= self.k,
                self.k as int <= self.sequence@.len(),
                w@ == self.sequence@.subrange(0, j as int),
                *self == *old(self),
            decreases self.k - j,
        {
            w.push(self.sequence[j]);
            proof {
                assert(w@ =~= self.sequence@.subrange(0, j + 1));
            }
            j = j + 1;
        }
        let _front: u8 = self.sequence.remove(0);
        proof {
            assert(self.sequence@ =~= old(self).sequence@.drop_first());
        }
        Some(w)
    }
}

} // verus!
