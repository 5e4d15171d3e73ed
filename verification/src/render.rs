use vstd::prelude::*;

use crate::count::lemma_ranking_deterministic;
use crate::count::record_view;
use crate::count::table_view;
use crate::count::valid_ranking;
use crate::count::KmerRecord;

verus! {

/// ASCII horizontal tab, the field separator.
pub const TAB: u8 = 9;

/// ASCII line feed, the row terminator.
pub const NEWLINE: u8 = 10;

/// The decimal digits of `n` as ASCII bytes, most significant first,
/// without leading zeroes (a single `0` for zero).
pub open spec fn decimal_digits(n: nat) -> Seq<u8>
    decreases n,
{
    if n < 10 {
        seq![(48 + n) as u8]
    } else {
        decimal_digits(n / 10).push((48 + n % 10) as u8)
    }
}

/// The header row: `kmer`, a tab, `count`, a line feed.
pub open spec fn header_bytes() -> Seq<u8> {
    seq![107u8, 109u8, 101u8, 114u8, TAB, 99u8, 111u8, 117u8, 110u8, 116u8, NEWLINE]
}

/// One data row: the k-mer bytes, a tab, the count in decimal, a line
/// feed.
pub open spec fn row_bytes(row: (Seq<u8>, u64)) -> Seq<u8> {
    row.0 + seq![TAB] + decimal_digits(row.1 as nat) + seq![NEWLINE]
}

/// All data rows of a table, in order.
pub open spec fn rows_bytes(v: Seq<(Seq<u8>, u64)>) -> Seq<u8>
    decreases v.len(),
{
    if v.len() == 0 {
        Seq::empty()
    } else {
        rows_bytes(v.drop_last()) + row_bytes(v.last())
    }
}

/// The complete rendered table: header, then one row per entry.
pub open spec fn rendered_table(v: Seq<(Seq<u8>, u64)>) -> Seq<u8> {
    header_bytes() + rows_bytes(v)
}

fn push_decimal(out: &mut Vec<u8>, n: u64)
    ensures
        final(out)@ == old(out)@ + decimal_digits(n as nat),
    decreases n,
{
    if n < 10 {
        out.push(48 + (n as u8));
        proof {
            assert(out@ =~= old(out)@ + decimal_digits(n as nat));
        }
    } else {
        assert(n / 10 < n) by (nonlinear_arith)
            requires
                n >= 10,
        ;
        push_decimal(out, n / 10);
        out.push(48 + ((n % 10) as u8));
        proof {
            assert(out@ =~= old(out)@ + decimal_digits(n as nat));
        }
    }
}

/// The count emitter's pure half: render a ranked frequency table as a
/// tab-separated text table with a `kmer`/`count` header, one row per
/// entry, in the order given.
pub fn render_kmer_count(records: &Vec<KmerRecord>) -> (out: Vec<u8>)
    ensures
        out@ == rendered_table(table_view(records@)),
{
    let ghost tv = table_view(records@);
    let mut out: Vec<u8> = Vec::new();
    out.push(107);
    out.push(109);
    out.push(101);
    out.push(114);
    out.push(TAB);
    out.push(99);
    out.push(111);
    out.push(117);
    out.push(110);
    out.push(116);
    out.push(NEWLINE);
    proof {
        assert(tv.take(0) =~= Seq::<(Seq<u8>, u64)>::empty());
        assert(out@ =~= header_bytes() + rows_bytes(tv.take(0)));
    }
    let mut i: usize = 0;
    while i < records.len()
        invariant
            i <= records@.len(),
            tv == table_view(records@),
            tv.len() == records@.len(),
            out@ == header_bytes() + rows_bytes(tv.take(i as int)),
        decreases records@.len() - i,
    {
        let ghost out0 = out@;
        let mut j: usize = 0;
        while j < records[i].seq.len()
            invariant
                i < records@.len(),
                j <= records@[i as int].seq@.len(),
                out@ == out0 + records@[i as int].seq@.subrange(0, j as int),
            decreases records@[i as int].seq@.len() - j,
        {
            out.push(records[i].seq[j]);
            proof {
                assert(out@ =~= out0 + records@[i as int].seq@.subrange(0, j + 1));
            }
            j = j + 1;
        }
        proof {
            assert(records@[i as int].seq@.subrange(0, records@[i as int].seq@.len() as int)
                =~= records@[i as int].seq@);
        }
        out.push(TAB);
        push_decimal(&mut out, records[i].count);
        out.push(NEWLINE);
        proof {
            assert(tv.take(i + 1).drop_last() =~= tv.take(i as int));
            assert(tv.take(i + 1).last() == record_view(records@[i as int]));
            assert(out@ =~= header_bytes() + rows_bytes(tv.take(i + 1)));
        }
        i = i + 1;
    }
    proof {
        assert(tv.take(tv.len() as int) =~= tv);
    }
    out
}

/// Law: rendered output is reproducible byte for byte. Two tables that
/// are each a valid ranking of the same windows render to identical
/// bytes, so two runs of the pipeline on the same sequence and k write
/// the same table.
pub proof fn lemma_rendered_output_deterministic(
    r1: Seq<KmerRecord>,
    r2: Seq<KmerRecord>,
    ws: Seq<Seq<u8>>,
)
    requires
        valid_ranking(r1, ws),
        valid_ranking(r2, ws),
    ensures
        rendered_table(table_view(r1)) == rendered_table(table_view(r2)),
{
    lemma_ranking_deterministic(r1, r2, ws);
}

} // verus!
