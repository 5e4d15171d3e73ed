use vstd::prelude::*;

use crate::errors::KmerError;
use crate::windows::kmers;
use crate::windows::views_of;
use crate::windows::windows_of;

verus! {

/// One row of a frequency table: a k-mer value and how often it occurs.
#[derive(Debug, PartialEq, Eq)]
pub struct KmerRecord {
    pub seq: Vec<u8>,
    pub count: u64,
}

/// The mathematical contents of a record: its k-mer value and count.
pub open spec fn record_view(r: KmerRecord) -> (Seq<u8>, u64) {
    (r.seq@, r.count)
}

/// The mathematical contents of a whole table, row by row.
pub open spec fn table_view(rs: Seq<KmerRecord>) -> Seq<(Seq<u8>, u64)> {
    rs.map_values(|r: KmerRecord| record_view(r))
}

/// How many windows of `ws` equal `w`.
pub open spec fn occurrences(ws: Seq<Seq<u8>>, w: Seq<u8>) -> int
    decreases ws.len(),
{
    if ws.len() == 0 {
        0
    } else {
        occurrences(ws.drop_last(), w) + if ws.last() == w {
            1int
        } else {
            0int
        }
    }
}

/// The sum of all counts of a table.
pub open spec fn sum_counts(rs: Seq<KmerRecord>) -> int
    decreases rs.len(),
{
    if rs.len() == 0 {
        0
    } else {
        sum_counts(rs.drop_last()) + rs.last().count
    }
}

/// Strict byte-lexicographic order on sequences: a proper prefix comes
/// first, otherwise the first differing byte decides.
pub open spec fn lex_lt(a: Seq<u8>, b: Seq<u8>) -> bool
    decreases a.len(),
{
    if b.len() == 0 {
        false
    } else if a.len() == 0 {
        true
    } else if a[0] < b[0] {
        true
    } else if a[0] > b[0] {
        false
    } else {
        lex_lt(a.drop_first(), b.drop_first())
    }
}

/// The ranking order: count descending, then k-mer value ascending
/// byte-lexicographically.
pub open spec fn ranked_before(a: KmerRecord, b: KmerRecord) -> bool {
    a.count > b.count || (a.count == b.count && lex_lt(a.seq@, b.seq@))
}

/// No two rows of `rs` share a k-mer value.
pub open spec fn distinct_keys(rs: Seq<KmerRecord>) -> bool {
    forall|p: int, q: int| 0 <= p < q < rs.len() ==> rs[p].seq@ != rs[q].seq@
}

/// Every row's count is the number of occurrences of its k-mer among the
/// windows `ws`, and its k-mer does occur there.
pub open spec fn counts_match(rs: Seq<KmerRecord>, ws: Seq<Seq<u8>>) -> bool {
    forall|p: int|
        0 <= p < rs.len() ==> (#[trigger] rs[p]).count == occurrences(ws, rs[p].seq@)
            && ws.contains(rs[p].seq@)
}

/// Every window of `ws` has a row for its value.
pub open spec fn covers(rs: Seq<KmerRecord>, ws: Seq<Seq<u8>>) -> bool {
    forall|t: int|
        0 <= t < ws.len() ==> exists|p: int|
            0 <= p < rs.len() && (#[trigger] rs[p]).seq@ == #[trigger] ws[t]
}

/// The rows stand in strictly descending ranking order.
pub open spec fn strictly_ranked(rs: Seq<KmerRecord>) -> bool {
    forall|p: int, q: int| 0 <= p < q < rs.len() ==> ranked_before(rs[p], rs[q])
}

/// `rs` is the ranked frequency table of the windows `ws`: one row per
/// distinct window value, counts equal to occurrence numbers, in strictly
/// descending ranking order.
pub open spec fn valid_ranking(rs: Seq<KmerRecord>, ws: Seq<Seq<u8>>) -> bool {
    distinct_keys(rs) && counts_match(rs, ws) && covers(rs, ws) && strictly_ranked(rs)
}

proof fn lemma_occurrences_le_len(ws: Seq<Seq<u8>>, w: Seq<u8>)
    ensures
        0 <= occurrences(ws, w) <= ws.len(),
    decreases ws.len(),
{
    if ws.len() > 0 {
        lemma_occurrences_le_len(ws.drop_last(), w);
    }
}

proof fn lemma_occurrences_take_step(ws: Seq<Seq<u8>>, i: int, w: Seq<u8>)
    requires
        0 <= i < ws.len(),
    ensures
        occurrences(ws.take(i + 1), w) == occurrences(ws.take(i), w) + if ws[i] == w {
            1int
        } else {
            0int
        },
{
    assert(ws.take(i + 1).drop_last() =~= ws.take(i));
    assert(ws.take(i + 1).last() == ws[i]);
}

proof fn lemma_sum_push(rs: Seq<KmerRecord>, x: KmerRecord)
    ensures
        sum_counts(rs.push(x)) == sum_counts(rs) + x.count,
{
    assert(rs.push(x).drop_last() =~= rs);
    assert(rs.push(x).last() == x);
}

proof fn lemma_sum_update(rs: Seq<KmerRecord>, j: int, x: KmerRecord)
    requires
        0 <= j < rs.len(),
    ensures
        sum_counts(rs.update(j, x)) == sum_counts(rs) - rs[j].count + x.count,
    decreases rs.len(),
{
    if j == rs.len() - 1 {
        assert(rs.update(j, x).drop_last() =~= rs.drop_last());
        assert(rs.update(j, x).last() == x);
    } else {
        lemma_sum_update(rs.drop_last(), j, x);
        assert(rs.update(j, x).drop_last() =~= rs.drop_last().update(j, x));
        assert(rs.update(j, x).last() == rs.last());
    }
}

proof fn lemma_sum_remove(rs: Seq<KmerRecord>, j: int)
    requires
        0 <= j < rs.len(),
    ensures
        sum_counts(rs.remove(j)) == sum_counts(rs) - rs[j].count,
    decreases rs.len(),
{
    if j == rs.len() - 1 {
        assert(rs.remove(j) =~= rs.drop_last());
    } else {
        lemma_sum_remove(rs.drop_last(), j);
        assert(rs.remove(j).drop_last() =~= rs.drop_last().remove(j));
        assert(rs.remove(j).last() == rs.last());
    }
}

proof fn lemma_lex_irrefl(a: Seq<u8>)
    ensures
        !lex_lt(a, a),
    decreases a.len(),
{
    if a.len() > 0 {
        lemma_lex_irrefl(a.drop_first());
    }
}

proof fn lemma_lex_asym(a: Seq<u8>, b: Seq<u8>)
    requires
        lex_lt(a, b),
    ensures
        !lex_lt(b, a),
    decreases a.len(),
{
    if a.len() > 0 && b.len() > 0 && a[0] == b[0] {
        lemma_lex_asym(a.drop_first(), b.drop_first());
    }
}

proof fn lemma_lex_total(a: Seq<u8>, b: Seq<u8>)
    requires
        a != b,
    ensures
        lex_lt(a, b) || lex_lt(b, a),
    decreases a.len(),
{
    if a.len() == 0 && b.len() == 0 {
        assert(a =~= b);
    } else if a.len() > 0 && b.len() > 0 && a[0] == b[0] {
        if a.drop_first() == b.drop_first() {
            assert(a.len() == b.len()) by {
                assert(a.drop_first().len() == b.drop_first().len());
            }
            assert forall|j: int| 0 <= j < a.len() implies a[j] == b[j] by {
                if j > 0 {
                    assert(a.drop_first()[j - 1] == a[j]);
                    assert(b.drop_first()[j - 1] == b[j]);
                }
            }
            assert(a =~= b);
        } else {
            lemma_lex_total(a.drop_first(), b.drop_first());
        }
    }
}

proof fn lemma_lex_trans(a: Seq<u8>, b: Seq<u8>, c: Seq<u8>)
    requires
        lex_lt(a, b),
        lex_lt(b, c),
    ensures
        lex_lt(a, c),
    decreases a.len(),
{
    if a.len() > 0 && b.len() > 0 && c.len() > 0 && a[0] == b[0] && b[0] == c[0] {
        lemma_lex_trans(a.drop_first(), b.drop_first(), c.drop_first());
    }
}

proof fn lemma_ranked_irrefl(a: KmerRecord)
    ensures
        !ranked_before(a, a),
{
    lemma_lex_irrefl(a.seq@);
}

proof fn lemma_ranked_asym(a: KmerRecord, b: KmerRecord)
    requires
        ranked_before(a, b),
    ensures
        !ranked_before(b, a),
{
    if a.count == b.count {
        lemma_lex_asym(a.seq@, b.seq@);
    }
}

proof fn lemma_ranked_total(a: KmerRecord, b: KmerRecord)
    requires
        a.seq@ != b.seq@,
    ensures
        ranked_before(a, b) || ranked_before(b, a),
{
    if a.count == b.count {
        lemma_lex_total(a.seq@, b.seq@);
    }
}

proof fn lemma_ranked_trans(a: KmerRecord, b: KmerRecord, c: KmerRecord)
    requires
        ranked_before(a, b),
        ranked_before(b, c),
    ensures
        ranked_before(a, c),
{
    if a.count == b.count && b.count == c.count {
        lemma_lex_trans(a.seq@, b.seq@, c.seq@);
    }
}

fn copy_bytes(v: &Vec<u8>) -> (r: Vec<u8>)
    ensures
        r@ == v@,
{
    let mut r: Vec<u8> = Vec::new();
    let mut i: usize = 0;
    while i < v.len()
        invariant
            i <= v@.len(),
            r@ == v@.subrange(0, i as int),
        decreases v@.len() - i,
    {
        r.push(v[i]);
        proof {
            assert(r@ =~= v@.subrange(0, i + 1));
        }
        i = i + 1;
    }
    proof {
        assert(v@.subrange(0, v@.len() as int) =~= v@);
    }
    r
}

fn bytes_eq(a: &Vec<u8>, b: &Vec<u8>) -> (r: bool)
    ensures
        r == (a@ == b@),
{
    if a.len() != b.len() {
        return false;
    }
    let mut i: usize = 0;
    while i < a.len()
        invariant
            a@.len() == b@.len(),
            i <= a@.len(),
            forall|j: int| 0 <= j < i ==> a@[j] == b@[j],
        decreases a@.len() - i,
    {
        if a[i] != b[i] {
            return false;
        }
        i = i + 1;
    }
    proof {
        assert(a@ =~= b@);
    }
    true
}

fn lex_less(a: &Vec<u8>, b: &Vec<u8>) -> (r: bool)
    ensures
        r == lex_lt(a@, b@),
{
    let mut i: usize = 0;
    proof {
        assert(a@.skip(0) =~= a@);
        assert(b@.skip(0) =~= b@);
    }
    while i < a.len() && i < b.len()
        invariant
            i <= a@.len(),
            i <= b@.len(),
            lex_lt(a@, b@) == lex_lt(a@.skip(i as int), b@.skip(i as int)),
        decreases a@.len() - i,
    {
        let x = a[i];
        let y = b[i];
        proof {
            assert(a@.skip(i as int)[0] == a@[i as int]);
            assert(b@.skip(i as int)[0] == b@[i as int]);
        }
        if x < y {
            return true;
        }
        if x > y {
            return false;
        }
        proof {
            assert(a@.skip(i as int).drop_first() =~= a@.skip(i + 1));
            assert(b@.skip(i as int).drop_first() =~= b@.skip(i + 1));
        }
        i = i + 1;
    }
    proof {
        if i >= b@.len() {
            assert(b@.skip(i as int).len() == 0);
        } else {
            assert(a@.skip(i as int).len() == 0);
            assert(b@.skip(i as int).len() > 0);
        }
    }
    i < b.len()
}

fn ranked_before_exec(a: &KmerRecord, b: &KmerRecord) -> (r: bool)
    ensures
        r == ranked_before(*a, *b),
{
    if a.count > b.count {
        true
    } else if a.count < b.count {
        false
    } else {
        lex_less(&a.seq, &b.seq)
    }
}

fn find_key(table: &Vec<KmerRecord>, w: &Vec<u8>) -> (r: Option<usize>)
    ensures
        match r {
            Some(j) => j < table@.len() && table@[j as int].seq@ == w@,
            None => forall|p: int| 0 <= p < table@.len() ==> (#[trigger] table@[p]).seq@ != w@,
        },
{
    let mut i: usize = 0;
    while i < table.len()
        invariant
            i <= table@.len(),
            forall|p: int| 0 <= p < i ==> (#[trigger] table@[p]).seq@ != w@,
        decreases table@.len() - i,
    {
        if bytes_eq(&table[i].seq, w) {
            return Some(i);
        }
        i = i + 1;
    }
    None
}

proof fn lemma_occurrences_zero(ws: Seq<Seq<u8>>, w: Seq<u8>)
    requires
        !ws.contains(w),
    ensures
        occurrences(ws, w) == 0,
    decreases ws.len(),
{
    if ws.len() > 0 {
        assert(!ws.drop_last().contains(w)) by {
            if ws.drop_last().contains(w) {
                let t = choose|t: int| 0 <= t < ws.drop_last().len() && ws.drop_last()[t] == w;
                assert(ws[t] == w);
            }
        }
        lemma_occurrences_zero(ws.drop_last(), w);
        assert(ws.last() != w) by {
            if ws.last() == w {
                assert(ws[ws.len() - 1] == w);
            }
        }
    }
}

/// The frequency aggregator: consume the windows `ws` and produce one
/// row per distinct window value whose count is that value's number of
/// occurrences. Row order is left unspecified here; the ranker fixes it.
pub fn aggregate_kmers(ws: &Vec<Vec<u8>>) -> (table: Vec<KmerRecord>)
    ensures
        distinct_keys(table@),
        counts_match(table@, views_of(ws@)),
        covers(table@, views_of(ws@)),
        sum_counts(table@) == ws@.len() as int,
{
    let ghost wsv = views_of(ws@);
    let mut table: Vec<KmerRecord> = Vec::new();
    let mut i: usize = 0;
    while i < ws.len()
        invariant
            i <= ws@.len(),
            wsv == views_of(ws@),
            wsv.len() == ws@.len(),
            distinct_keys(table@),
            counts_match(table@, wsv.take(i as int)),
            covers(table@, wsv.take(i as int)),
            sum_counts(table@) == i as int,
        decreases ws@.len() - i,
    {
        let w: &Vec<u8> = &ws[i];
        proof {
            assert(wsv[i as int] == w@);
        }
        let ghost t0 = table@;
        match find_key(&table, w) {
            Some(j) => {
                let c = table[j].count;
                proof {
                    lemma_occurrences_le_len(wsv.take(i as int), t0[j as int].seq@);
                }
                let key2 = copy_bytes(&table[j].seq);
                let row = KmerRecord { seq: key2, count: c + 1 };
                table.set(j, row);
                proof {
                    lemma_sum_update(t0, j as int, table@[j as int]);
                    assert(forall|p: int|
                        0 <= p < table@.len() ==> (#[trigger] table@[p]).seq@ == t0[p].seq@);
                    assert forall|p: int| 0 <= p < table@.len() implies (#[trigger] table@[p]).count
                        == occurrences(wsv.take(i + 1), table@[p].seq@) && wsv.take(i + 1).contains(
                        table@[p].seq@,
                    ) by {
                        lemma_occurrences_take_step(wsv, i as int, table@[p].seq@);
                        if p == j as int {
                            assert(wsv.take(i + 1)[i as int] == w@);
                        } else {
                            assert(t0[p].seq@ != w@);
                            let t = choose|t: int|
                                0 <= t < wsv.take(i as int).len() && wsv.take(i as int)[t]
                                    == t0[p].seq@;
                            assert(wsv.take(i + 1)[t] == t0[p].seq@);
                        }
                    }
                    assert forall|t: int| 0 <= t < i + 1 implies exists|p: int|
                        0 <= p < table@.len() && (#[trigger] table@[p]).seq@ == #[trigger] wsv.take(
                            i + 1,
                        )[t] by {
                        if t < i as int {
                            let p = choose|p: int|
                                0 <= p < t0.len() && t0[p].seq@ == wsv.take(i as int)[t];
                            assert(table@[p].seq@ == wsv.take(i + 1)[t]);
                        } else {
                            assert(table@[j as int].seq@ == wsv.take(i + 1)[t]);
                        }
                    }
                }
            },
            None => {
                let key2 = copy_bytes(w);
                let row = KmerRecord { seq: key2, count: 1 };
                table.push(row);
                proof {
                    lemma_sum_push(t0, table@[table@.len() - 1]);
                    assert(!wsv.take(i as int).contains(w@)) by {
                        if wsv.take(i as int).contains(w@) {
                            let t = choose|t: int|
                                0 <= t < wsv.take(i as int).len() && wsv.take(i as int)[t] == w@;
                            let p = choose|p: int|
                                0 <= p < t0.len() && t0[p].seq@ == wsv.take(i as int)[t];
                            assert(t0[p].seq@ == w@);
                        }
                    }
                    lemma_occurrences_zero(wsv.take(i as int), w@);
                    assert forall|p: int| 0 <= p < table@.len() implies (#[trigger] table@[p]).count
                        == occurrences(wsv.take(i + 1), table@[p].seq@) && wsv.take(i + 1).contains(
                        table@[p].seq@,
                    ) by {
                        lemma_occurrences_take_step(wsv, i as int, table@[p].seq@);
                        if p == t0.len() as int {
                            assert(table@[p].seq@ == w@);
                            assert(wsv.take(i + 1)[i as int] == w@);
                        } else {
                            assert(table@[p] == t0[p]);
                            assert(t0[p].seq@ != w@);
                            let t = choose|t: int|
                                0 <= t < wsv.take(i as int).len() && wsv.take(i as int)[t]
                                    == t0[p].seq@;
                            assert(wsv.take(i + 1)[t] == t0[p].seq@);
                        }
                    }
                    assert forall|t: int| 0 <= t < i + 1 implies exists|p: int|
                        0 <= p < table@.len() && (#[trigger] table@[p]).seq@ == #[trigger] wsv.take(
                            i + 1,
                        )[t] by {
                        if t < i as int {
                            let p = choose|p: int|
                                0 <= p < t0.len() && t0[p].seq@ == wsv.take(i as int)[t];
                            assert(table@[p].seq@ == wsv.take(i + 1)[t]);
                        } else {
                            assert(table@[t0.len() as int].seq@ == wsv.take(i + 1)[t]);
                        }
                    }
                }
            },
        }
        i = i + 1;
    }
    proof {
        assert(wsv.take(ws@.len() as int) =~= wsv);
    }
    table
}

fn find_min(v: &Vec<KmerRecord>) -> (j: usize)
    requires
        v@.len() > 0,
    ensures
        j < v@.len(),
        forall|q: int| 0 <= q < v@.len() ==> !ranked_before(#[trigger] v@[q], v@[j as int]),
{
    let mut best: usize = 0;
    let mut p: usize = 1;
    proof {
        lemma_ranked_irrefl(v@[0]);
    }
    while p < v.len()
        invariant
            best < p <= v@.len(),
            forall|q: int| 0 <= q < p ==> !ranked_before(#[trigger] v@[q], v@[best as int]),
        decreases v@.len() - p,
    {
        if ranked_before_exec(&v[p], &v[best]) {
            proof {
                assert forall|q: int| 0 <= q <= p implies !ranked_before(
                    #[trigger] v@[q],
                    v@[p as int],
                ) by {
                    if q < p as int {
                        if ranked_before(v@[q], v@[p as int]) {
                            lemma_ranked_trans(v@[q], v@[p as int], v@[best as int]);
                        }
                    } else {
                        lemma_ranked_irrefl(v@[p as int]);
                    }
                }
            }
            best = p;
        } else {
            proof {
                lemma_ranked_irrefl(v@[best as int]);
            }
        }
        p = p + 1;
    }
    best
}

/// The deterministic ranker: order a frequency table by count
/// descending, ties broken by ascending byte-lexicographic k-mer value.
/// The ghost argument names the windows the table was aggregated from,
/// so the result can be stated as the unique ranked table of those
/// windows.
pub fn rank_frequency_table(table: Vec<KmerRecord>, Ghost(ws): Ghost<Seq<Seq<u8>>>) -> (r: Vec<
    KmerRecord,
>)
    requires
        distinct_keys(table@),
        counts_match(table@, ws),
        covers(table@, ws),
        sum_counts(table@) == ws.len() as int,
    ensures
        valid_ranking(r@, ws),
        sum_counts(r@) == ws.len() as int,
{
    let mut remaining = table;
    let mut ranked: Vec<KmerRecord> = Vec::new();
    while remaining.len() > 0
        invariant
            distinct_keys(remaining@),
            distinct_keys(ranked@),
            forall|p: int, q: int|
                0 <= p < ranked@.len() && 0 <= q < remaining@.len() ==> (#[trigger] ranked@[p]).seq@
                    != (#[trigger] remaining@[q]).seq@,
            counts_match(ranked@, ws),
            counts_match(remaining@, ws),
            forall|t: int|
                0 <= t < ws.len() ==> (exists|p: int|
                    0 <= p < ranked@.len() && (#[trigger] ranked@[p]).seq@ == #[trigger] ws[t])
                    || (exists|q: int|
                    0 <= q < remaining@.len() && (#[trigger] remaining@[q]).seq@ == ws[t]),
            strictly_ranked(ranked@),
            forall|p: int, q: int|
                0 <= p < ranked@.len() && 0 <= q < remaining@.len() ==> ranked_before(
                    #[trigger] ranked@[p],
                    #[trigger] remaining@[q],
                ),
            sum_counts(ranked@) + sum_counts(remaining@) == ws.len() as int,
        decreases remaining@.len(),
    {
        let j = find_min(&remaining);
        proof {
            assert forall|q: int|
                0 <= q < remaining@.len() && q != j as int implies ranked_before(
                remaining@[j as int],
                #[trigger] remaining@[q],
            ) by {
                lemma_ranked_total(remaining@[j as int], remaining@[q]);
            }
        }
        let ghost rem0 = remaining@;
        let ghost rnk0 = ranked@;
        let rec = remaining.remove(j);
        ranked.push(rec);
        proof {
            rem0.remove_ensures(j as int);
            lemma_sum_remove(rem0, j as int);
            lemma_sum_push(rnk0, rec);
            assert forall|q: int| 0 <= q < remaining@.len() implies #[trigger] remaining@[q]
                == rem0[if q < j as int {
                q
            } else {
                q + 1
            }] by {}
            assert forall|t: int|
                0 <= t < ws.len() implies (exists|p: int|
                0 <= p < ranked@.len() && (#[trigger] ranked@[p]).seq@ == #[trigger] ws[t]) || (
            exists|q: int|
                0 <= q < remaining@.len() && (#[trigger] remaining@[q]).seq@ == ws[t]) by {
                if exists|p: int| 0 <= p < rnk0.len() && (#[trigger] rnk0[p]).seq@ == ws[t] {
                    let p = choose|p: int| 0 <= p < rnk0.len() && (#[trigger] rnk0[p]).seq@ == ws[t];
                    assert(ranked@[p].seq@ == ws[t]);
                } else {
                    let q = choose|q: int|
                        0 <= q < rem0.len() && (#[trigger] rem0[q]).seq@ == ws[t];
                    if q == j as int {
                        assert(ranked@[ranked@.len() - 1].seq@ == ws[t]);
                    } else if q < j as int {
                        assert(remaining@[q].seq@ == ws[t]);
                    } else {
                        assert(remaining@[q - 1].seq@ == ws[t]);
                    }
                }
            }
        }
    }
    proof {
        assert forall|t: int| 0 <= t < ws.len() implies exists|p: int|
            0 <= p < ranked@.len() && (#[trigger] ranked@[p]).seq@ == #[trigger] ws[t] by {
            assert(!(exists|q: int|
                0 <= q < remaining@.len() && (#[trigger] remaining@[q]).seq@ == ws[t]));
        }
    }
    ranked
}

/// The whole counting pass: the frequency of every k-mer of length `k`
/// in `sequence`, ordered from most to least abundant, ties broken by
/// ascending byte-lexicographic k-mer value.
///
/// Fails with `KmerLengthTooSmall` when `k == 0` and `KmerLengthTooLong`
/// when `k` exceeds the sequence length (an empty sequence included); on
/// success the table is the unique ranked table of the windows of
/// `sequence`, and its counts sum to `sequence.len() - k + 1`.
pub fn count_kmers(sequence: &[u8], k: usize) -> (r: Result<Vec<KmerRecord>, KmerError>)
    ensures
        match r {
            Ok(rs) => 1 <= k <= sequence@.len() && valid_ranking(
                rs@,
                windows_of(sequence@, k as int),
            ) && sum_counts(rs@) == sequence@.len() - k + 1,
            Err(e) => match e {
                KmerError::KmerLengthTooSmall { k: ek } => k == 0 && ek == k,
                KmerError::KmerLengthTooLong { k: ek, seq_len } => k >= 1
                    && sequence@.len() < k as int && ek == k && seq_len as int == sequence@.len(),
                KmerError::IncorrectBases { .. } => false,
            },
        },
        r is Ok <==> 1 <= k <= sequence@.len(),
{
    let ws = match kmers(sequence, k) {
        Ok(ws) => ws,
        Err(e) => {
            return Err(e);
        },
    };
    let table = aggregate_kmers(&ws);
    let ranked = rank_frequency_table(table, Ghost(views_of(ws@)));
    Ok(ranked)
}


/// Some row of `rs` has the same k-mer value and count as `x`.
pub open spec fn has_matching_row(rs: Seq<KmerRecord>, x: KmerRecord) -> bool {
    exists|q: int| 0 <= q < rs.len() && record_view(#[trigger] rs[q]) == record_view(x)
}

/// Every row of `r1` has a row of `r2` with the same k-mer value and
/// count.
pub open spec fn covered_by(r1: Seq<KmerRecord>, r2: Seq<KmerRecord>) -> bool {
    forall|p: int| 0 <= p < r1.len() ==> has_matching_row(r2, #[trigger] r1[p])
}

proof fn lemma_heads_equal(r1: Seq<KmerRecord>, r2: Seq<KmerRecord>)
    requires
        distinct_keys(r1),
        distinct_keys(r2),
        strictly_ranked(r1),
        strictly_ranked(r2),
        covered_by(r1, r2),
        covered_by(r2, r1),
        r1.len() > 0,
    ensures
        r2.len() > 0,
        record_view(r1[0]) == record_view(r2[0]),
{
    assert(has_matching_row(r2, r1[0]));
    let q0 = choose|q: int| 0 <= q < r2.len() && record_view(r2[q]) == record_view(r1[0]);
    assert(0 <= q0 < r2.len());
    if q0 != 0 {
        assert(ranked_before(r2[0], r2[q0]));
        assert(ranked_before(r2[0], r1[0]));
        assert(has_matching_row(r1, r2[0]));
        let p0 = choose|p: int| 0 <= p < r1.len() && record_view(r1[p]) == record_view(r2[0]);
        if p0 == 0 {
            assert(r2[0].seq@ == r2[q0].seq@);
        } else {
            assert(ranked_before(r1[0], r1[p0]));
            assert(ranked_before(r1[0], r2[0]));
            lemma_ranked_asym(r1[0], r2[0]);
        }
        assert(false);
    }
}

proof fn lemma_tail_covered(r1: Seq<KmerRecord>, r2: Seq<KmerRecord>)
    requires
        distinct_keys(r1),
        covered_by(r1, r2),
        r1.len() > 0,
        r2.len() > 0,
        record_view(r1[0]) == record_view(r2[0]),
    ensures
        covered_by(r1.drop_first(), r2.drop_first()),
{
    let t1 = r1.drop_first();
    let t2 = r2.drop_first();
    assert forall|p: int| 0 <= p < t1.len() implies has_matching_row(t2, #[trigger] t1[p]) by {
        assert(t1[p] == r1[p + 1]);
        assert(has_matching_row(r2, r1[p + 1]));
        let q = choose|q: int| 0 <= q < r2.len() && record_view(r2[q]) == record_view(r1[p + 1]);
        assert(r1[p + 1].seq@ != r1[0].seq@);
        assert(q != 0);
        assert(t2[q - 1] == r2[q]);
        assert(record_view(t2[q - 1]) == record_view(t1[p]));
    }
}

proof fn lemma_tail_sorted(r: Seq<KmerRecord>)
    requires
        distinct_keys(r),
        strictly_ranked(r),
        r.len() > 0,
    ensures
        distinct_keys(r.drop_first()),
        strictly_ranked(r.drop_first()),
{
    let t = r.drop_first();
    assert(forall|p: int, q: int|
        0 <= p < q < t.len() ==> #[trigger] t[p] == r[p + 1] && #[trigger] t[q] == r[q + 1]);
}

proof fn lemma_sorted_tables_equal(r1: Seq<KmerRecord>, r2: Seq<KmerRecord>)
    requires
        distinct_keys(r1),
        distinct_keys(r2),
        strictly_ranked(r1),
        strictly_ranked(r2),
        covered_by(r1, r2),
        covered_by(r2, r1),
    ensures
        table_view(r1) == table_view(r2),
    decreases r1.len(),
{
    if r1.len() == 0 {
        assert(r2.len() == 0) by {
            if r2.len() > 0 {
                assert(has_matching_row(r1, r2[0]));
                let p = choose|p: int|
                    0 <= p < r1.len() && record_view(r1[p]) == record_view(r2[0]);
                assert(false);
            }
        }
        assert(table_view(r1) =~= table_view(r2));
    } else {
        lemma_heads_equal(r1, r2);
        let t1 = r1.drop_first();
        let t2 = r2.drop_first();
        lemma_tail_covered(r1, r2);
        lemma_tail_covered(r2, r1);
        lemma_tail_sorted(r1);
        lemma_tail_sorted(r2);
        lemma_sorted_tables_equal(t1, t2);
        assert(r1.len() == r2.len()) by {
            assert(table_view(t1).len() == t1.len());
            assert(table_view(t2).len() == t2.len());
        }
        assert forall|i: int| 0 <= i < r1.len() implies table_view(r1)[i] == table_view(r2)[i] by {
            if i > 0 {
                assert(table_view(t1)[i - 1] == table_view(t2)[i - 1]);
                assert(t1[i - 1] == r1[i]);
                assert(t2[i - 1] == r2[i]);
            }
        }
        assert(table_view(r1) =~= table_view(r2));
    }
}

/// Law: ranked output is reproducible. Any two tables that are each a
/// valid ranking of the same windows hold the same k-mer values and
/// counts in the same order, so two runs of the counting pass on the
/// same sequence and k yield identical output.
pub proof fn lemma_ranking_deterministic(
    r1: Seq<KmerRecord>,
    r2: Seq<KmerRecord>,
    ws: Seq<Seq<u8>>,
)
    requires
        valid_ranking(r1, ws),
        valid_ranking(r2, ws),
    ensures
        table_view(r1) == table_view(r2),
{
    assert forall|p: int| 0 <= p < r1.len() implies has_matching_row(r2, #[trigger] r1[p]) by {
        assert(ws.contains(r1[p].seq@));
        let t = choose|t: int| 0 <= t < ws.len() && ws[t] == r1[p].seq@;
        let q = choose|q: int| 0 <= q < r2.len() && r2[q].seq@ == ws[t];
        assert(r2[q].count == occurrences(ws, r2[q].seq@));
        assert(record_view(r2[q]) == record_view(r1[p]));
    }
    assert forall|q: int| 0 <= q < r2.len() implies has_matching_row(r1, #[trigger] r2[q]) by {
        assert(ws.contains(r2[q].seq@));
        let t = choose|t: int| 0 <= t < ws.len() && ws[t] == r2[q].seq@;
        let p = choose|p: int| 0 <= p < r1.len() && r1[p].seq@ == ws[t];
        assert(r1[p].count == occurrences(ws, r1[p].seq@));
        assert(record_view(r1[p]) == record_view(r2[q]));
    }
    lemma_sorted_tables_equal(r1, r2);
}

} // verus!
