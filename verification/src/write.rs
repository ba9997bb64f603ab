//! From a table back to text, and why the text reads back as the table.

use vstd::prelude::*;
use crate::load::bind_row;
use crate::record::{
    fields_of_record, is_writable, lemma_record_round_trip, Record, RecordView, Table,
    COLUMNS,
};
use crate::text::{
    cells_of, fields_of_lines, free_of, lemma_integer_round_trip, lemma_nonempty_push, lines_of,
    nonempty, push_integer, split, text_of, NEWLINE, TAB,
};
use crate::error::SchemaError;

verus! {

/// The line of a row without its newline: the ten fields, a tab between
/// each two.
pub open spec fn body_of(r: RecordView) -> Seq<u8> {
    r.chrom1.push(TAB) + text_of(r.start1).push(TAB) + text_of(r.end1).push(TAB) + r.chrom2.push(
        TAB,
    ) + text_of(r.start2).push(TAB) + text_of(r.end2).push(TAB) + r.name.push(TAB) + r.score.push(
        TAB,
    ) + r.strand1.push(TAB) + r.strand2
}

/// The line of a row, newline included.
pub open spec fn line_of(r: RecordView) -> Seq<u8> {
    body_of(r).push(NEWLINE)
}

/// The text of a table: the lines of its rows, one after the other.
pub open spec fn text_of_rows(rows: Seq<RecordView>) -> Seq<u8>
    decreases rows.len(),
{
    if rows.len() == 0 {
        Seq::<u8>::empty()
    } else {
        text_of_rows(rows.drop_last()) + line_of(rows.last())
    }
}

/// The bodies of the lines of a table.
pub open spec fn bodies_of(rows: Seq<RecordView>) -> Seq<Seq<u8>> {
    rows.map_values(|r: RecordView| body_of(r))
}

/// The fields of the rows of a table, as text.
pub open spec fn cells_of_rows(rows: Seq<RecordView>) -> Seq<Seq<Seq<u8>>> {
    rows.map_values(|r: RecordView| fields_of_record(r))
}

/// Whether every row of a table can be written and read back.
pub open spec fn all_writable(rows: Seq<RecordView>) -> bool {
    forall|i: int| 0 <= i < rows.len() ==> is_writable(#[trigger] rows[i])
}

/// Text without a separator, added after any text, lengthens the last piece
/// and starts none.
pub proof fn lemma_split_extend(x: Seq<u8>, y: Seq<u8>, sep: u8)
    requires
        free_of(y, sep),
    ensures
        split(x + y, sep) == split(x, sep).drop_last().push(split(x, sep).last() + y),
    decreases y.len(),
{
    crate::text::lemma_split_pieces(x, sep);
    if y.len() == 0 {
        assert(x + y =~= x);
        assert(split(x, sep).last() + y =~= split(x, sep).last());
        assert(split(x, sep).drop_last().push(split(x, sep).last()) =~= split(x, sep));
    } else {
        let head = y.drop_last();
        lemma_split_extend(x, head, sep);
        assert((x + y).drop_last() =~= x + head);
        assert((x + y).last() == y.last());
        let before = split(x + head, sep);
        assert(before.drop_last() =~= split(x, sep).drop_last());
        assert(before.last().push(y.last()) =~= split(x, sep).last() + y);
    }
}

/// One more field after a tab is one more piece.
pub proof fn lemma_split_field(x: Seq<u8>, f: Seq<u8>, sep: u8)
    requires
        free_of(f, sep),
    ensures
        split(x.push(sep) + f, sep) == split(x, sep).push(f),
{
    let xs = x.push(sep);
    assert(xs.drop_last() =~= x);
    assert(split(xs, sep) == split(x, sep).push(Seq::<u8>::empty()));
    lemma_split_extend(xs, f, sep);
    assert(split(xs, sep).drop_last() =~= split(x, sep));
    assert(split(xs, sep).last() + f =~= f);
}

/// The body of a writable row splits into its ten fields, and holds no
/// newline.
pub proof fn lemma_body_fields(r: RecordView)
    requires
        is_writable(r),
    ensures
        split(body_of(r), TAB) == fields_of_record(r),
        fields_of_record(r).len() == COLUMNS,
        free_of(body_of(r), NEWLINE),
        body_of(r).len() > 0,
{
    lemma_integer_round_trip(r.start1);
    lemma_integer_round_trip(r.end1);
    lemma_integer_round_trip(r.start2);
    lemma_integer_round_trip(r.end2);
    let f = fields_of_record(r);
    let e = Seq::<u8>::empty();
    let b0 = f[0];
    let b1 = b0.push(TAB) + f[1];
    let b2 = b1.push(TAB) + f[2];
    let b3 = b2.push(TAB) + f[3];
    let b4 = b3.push(TAB) + f[4];
    let b5 = b4.push(TAB) + f[5];
    let b6 = b5.push(TAB) + f[6];
    let b7 = b6.push(TAB) + f[7];
    let b8 = b7.push(TAB) + f[8];
    let b9 = b8.push(TAB) + f[9];
    assert(b9 =~= body_of(r));
    lemma_split_extend(e, b0, TAB);
    assert(e + b0 =~= b0);
    assert(split(b0, TAB) =~= seq![f[0]]);
    lemma_split_field(b0, f[1], TAB);
    lemma_split_field(b1, f[2], TAB);
    lemma_split_field(b2, f[3], TAB);
    lemma_split_field(b3, f[4], TAB);
    lemma_split_field(b4, f[5], TAB);
    lemma_split_field(b5, f[6], TAB);
    lemma_split_field(b6, f[7], TAB);
    lemma_split_field(b7, f[8], TAB);
    lemma_split_field(b8, f[9], TAB);
    assert(split(b9, TAB) =~= f);
}

/// The text of a writable table splits at its newlines into the bodies of
/// its rows and one empty piece behind them.
pub proof fn lemma_text_pieces(rows: Seq<RecordView>)
    requires
        all_writable(rows),
    ensures
        split(text_of_rows(rows), NEWLINE) == bodies_of(rows).push(Seq::<u8>::empty()),
    decreases rows.len(),
{
    if rows.len() == 0 {
        assert(bodies_of(rows).push(Seq::<u8>::empty()) =~= seq![Seq::<u8>::empty()]);
    } else {
        let head = rows.drop_last();
        let last = rows.last();
        assert(all_writable(head)) by {
            assert forall|i: int| 0 <= i < head.len() implies is_writable(#[trigger] head[i]) by {
                assert(head[i] == rows[i]);
            }
        }
        lemma_text_pieces(head);
        lemma_body_fields(last);
        let before = text_of_rows(head);
        lemma_split_extend(before, body_of(last), NEWLINE);
        let whole = before + body_of(last);
        assert(text_of_rows(rows) =~= whole.push(NEWLINE));
        assert(whole.push(NEWLINE).drop_last() =~= whole);
        assert(split(before, NEWLINE).drop_last() =~= bodies_of(head));
        assert(split(before, NEWLINE).last() + body_of(last) =~= body_of(last));
        assert(bodies_of(head).push(body_of(last)) =~= bodies_of(rows));
    }
}

/// Bodies that are not empty all count as lines.
pub proof fn lemma_bodies_are_lines(rows: Seq<RecordView>)
    requires
        all_writable(rows),
    ensures
        nonempty(bodies_of(rows)) == bodies_of(rows),
    decreases rows.len(),
{
    if rows.len() == 0 {
        assert(bodies_of(rows) =~= Seq::<Seq<u8>>::empty());
        assert(nonempty(Seq::<Seq<u8>>::empty()) =~= Seq::<Seq<u8>>::empty());
    } else {
        let head = rows.drop_last();
        assert forall|i: int| 0 <= i < head.len() implies is_writable(#[trigger] head[i]) by {
            assert(head[i] == rows[i]);
        }
        lemma_bodies_are_lines(head);
        lemma_body_fields(rows.last());
        assert(bodies_of(rows) =~= bodies_of(head).push(body_of(rows.last())));
        lemma_nonempty_push(bodies_of(head), body_of(rows.last()));
    }
}

/// The text of a table reads back as the table. Every line of the text of a
/// writable table has the ten fields of its row, and binding them gives the
/// row again.
pub proof fn lemma_round_trip(rows: Seq<RecordView>)
    requires
        all_writable(rows),
    ensures
        cells_of(text_of_rows(rows)) == cells_of_rows(rows),
        forall|i: int|
            0 <= i < rows.len() ==> {
                &&& (#[trigger] cells_of(text_of_rows(rows))[i]).len() == COLUMNS
                &&& bind_row(cells_of(text_of_rows(rows))[i], i) == Ok::<RecordView, SchemaError>(
                    rows[i],
                )
            },
{
    lemma_text_pieces(rows);
    lemma_bodies_are_lines(rows);
    lemma_nonempty_push(bodies_of(rows), Seq::<u8>::empty());
    assert(lines_of(text_of_rows(rows)) == bodies_of(rows));
    assert forall|i: int| 0 <= i < rows.len() implies #[trigger] fields_of_lines(bodies_of(rows))[i]
        == fields_of_record(rows[i]) by {
        lemma_body_fields(rows[i]);
    }
    assert(fields_of_lines(bodies_of(rows)) =~= cells_of_rows(rows));
    assert forall|i: int| 0 <= i < rows.len() implies {
        &&& (#[trigger] cells_of(text_of_rows(rows))[i]).len() == COLUMNS
        &&& bind_row(cells_of(text_of_rows(rows))[i], i) == Ok::<RecordView, SchemaError>(rows[i])
    } by {
        lemma_body_fields(rows[i]);
        lemma_record_round_trip(rows[i]);
    }
}

/// Appends a field and then one more byte.
fn push_field(out: &mut Vec<u8>, field: &[u8], then: u8)
    ensures
        final(out)@ == old(out)@ + field@.push(then),
{
    let mut i: usize = 0;
    while i < field.len()
        invariant
            i <= field@.len(),
            out@ == old(out)@ + field@.take(i as int),
        decreases field@.len() - i,
    {
        out.push(field[i]);
        proof {
            assert(field@.take(i + 1) =~= field@.take(i as int).push(field@[i as int]));
            assert(out@ =~= old(out)@ + field@.take(i + 1));
        }
        i += 1;
    }
    out.push(then);
    proof {
        assert(field@.take(i as int) =~= field@);
        assert(out@ =~= old(out)@ + field@.push(then));
    }
}

/// Appends the text of an integer and then one more byte.
fn push_number(out: &mut Vec<u8>, value: i64, then: u8)
    ensures
        final(out)@ == old(out)@ + text_of(value as int).push(then),
{
    push_integer(value, out);
    out.push(then);
    proof {
        assert(out@ =~= old(out)@ + text_of(value as int).push(then));
    }
}

/// Appends the line of a row.
pub fn push_line(out: &mut Vec<u8>, r: &Record)
    ensures
        final(out)@ == old(out)@ + line_of(r@),
{
    push_field(out, r.chrom1.as_slice(), TAB);
    push_number(out, r.start1, TAB);
    push_number(out, r.end1, TAB);
    push_field(out, r.chrom2.as_slice(), TAB);
    push_number(out, r.start2, TAB);
    push_number(out, r.end2, TAB);
    push_field(out, r.name.as_slice(), TAB);
    push_field(out, r.score.as_slice(), TAB);
    push_field(out, r.strand1.as_slice(), TAB);
    push_field(out, r.strand2.as_slice(), NEWLINE);
    proof {
        assert(out@ =~= old(out)@ + line_of(r@));
    }
}

/// The text of a table: a line for each row, in the order of the table,
/// with neither a header before them nor anything after them.
pub fn serialize(table: &Table) -> (out: Vec<u8>)
    ensures
        out@ == text_of_rows(table@),
{
    let mut out: Vec<u8> = Vec::new();
    let mut i: usize = 0;
    proof {
        assert(table@.take(0) =~= Seq::<RecordView>::empty());
    }
    while i < table.rows.len()
        invariant
            i <= table.rows@.len(),
            out@ == text_of_rows(table@.take(i as int)),
        decreases table.rows@.len() - i,
    {
        push_line(&mut out, &table.rows[i]);
        proof {
            assert(table@.take(i + 1).drop_last() =~= table@.take(i as int));
            assert(table@.take(i + 1).last() == table.rows@[i as int]@);
        }
        i += 1;
    }
    proof {
        assert(table@.take(i as int) =~= table@);
    }
    out
}

} // verus!
