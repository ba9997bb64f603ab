//! Interval-pair rows and tables of them.

use vstd::prelude::*;
use crate::text::{free_of, integer_of, lemma_integer_round_trip, text_of, NEWLINE, TAB};

verus! {

/// Number of fields of a row.
pub const COLUMNS: usize = 10;

/// One row: two intervals, each a chromosome with a start and an end, and
/// four fields of text that are carried through as they were read.
#[derive(Debug, PartialEq, Eq)]
pub struct Record {
    pub chrom1: Vec<u8>,
    pub start1: i64,
    pub end1: i64,
    pub chrom2: Vec<u8>,
    pub start2: i64,
    pub end2: i64,
    pub name: Vec<u8>,
    pub score: Vec<u8>,
    pub strand1: Vec<u8>,
    pub strand2: Vec<u8>,
}

/// What a row holds, as mathematical values.
pub struct RecordView {
    pub chrom1: Seq<u8>,
    pub start1: int,
    pub end1: int,
    pub chrom2: Seq<u8>,
    pub start2: int,
    pub end2: int,
    pub name: Seq<u8>,
    pub score: Seq<u8>,
    pub strand1: Seq<u8>,
    pub strand2: Seq<u8>,
}

impl View for Record {
    type V = RecordView;

    open spec fn view(&self) -> RecordView {
        RecordView {
            chrom1: self.chrom1@,
            start1: self.start1 as int,
            end1: self.end1 as int,
            chrom2: self.chrom2@,
            start2: self.start2 as int,
            end2: self.end2 as int,
            name: self.name@,
            score: self.score@,
            strand1: self.strand1@,
            strand2: self.strand2@,
        }
    }
}

/// The rows that a vector of records holds.
pub open spec fn rows_of(rows: Seq<Record>) -> Seq<RecordView> {
    rows.map_values(|r: Record| r@)
}

/// An ordered collection of rows.
#[derive(Debug, PartialEq, Eq)]
pub struct Table {
    pub rows: Vec<Record>,
}

impl View for Table {
    type V = Seq<RecordView>;

    open spec fn view(&self) -> Seq<RecordView> {
        rows_of(self.rows@)
    }
}

/// Whether a text field can stand in a line: it holds neither a tab nor a
/// newline.
pub open spec fn is_plain(field: Seq<u8>) -> bool {
    free_of(field, TAB) && free_of(field, NEWLINE)
}

/// Whether a row can be written and read back: its coordinates fit in 64
/// bits and its text fields are plain.
pub open spec fn is_writable(r: RecordView) -> bool {
    &&& i64::MIN <= r.start1 <= i64::MAX
    &&& i64::MIN <= r.end1 <= i64::MAX
    &&& i64::MIN <= r.start2 <= i64::MAX
    &&& i64::MIN <= r.end2 <= i64::MAX
    &&& is_plain(r.chrom1)
    &&& is_plain(r.chrom2)
    &&& is_plain(r.name)
    &&& is_plain(r.score)
    &&& is_plain(r.strand1)
    &&& is_plain(r.strand2)
}

/// The ten fields of a row as text, in column order.
pub open spec fn fields_of_record(r: RecordView) -> Seq<Seq<u8>> {
    seq![
        r.chrom1,
        text_of(r.start1),
        text_of(r.end1),
        r.chrom2,
        text_of(r.start2),
        text_of(r.end2),
        r.name,
        r.score,
        r.strand1,
        r.strand2,
    ]
}

/// The row that ten fields of text stand for, where the four coordinates
/// among them write integers.
pub open spec fn record_of_fields(fields: Seq<Seq<u8>>) -> Option<RecordView> {
    if fields.len() == COLUMNS && integer_of(fields[1]) is Some && integer_of(fields[2]) is Some
        && integer_of(fields[4]) is Some && integer_of(fields[5]) is Some {
        Some(
            RecordView {
                chrom1: fields[0],
                start1: integer_of(fields[1]).unwrap(),
                end1: integer_of(fields[2]).unwrap(),
                chrom2: fields[3],
                start2: integer_of(fields[4]).unwrap(),
                end2: integer_of(fields[5]).unwrap(),
                name: fields[6],
                score: fields[7],
                strand1: fields[8],
                strand2: fields[9],
            },
        )
    } else {
        None
    }
}

/// The fields of a writable row stand for that row.
pub proof fn lemma_record_round_trip(r: RecordView)
    requires
        is_writable(r),
    ensures
        record_of_fields(fields_of_record(r)) == Some(r),
{
    lemma_integer_round_trip(r.start1);
    lemma_integer_round_trip(r.end1);
    lemma_integer_round_trip(r.start2);
    lemma_integer_round_trip(r.end2);
}

impl Record {
    /// A copy of the row.
    pub fn duplicate(&self) -> (copy: Record)
        ensures
            copy@ == self@,
    {
        Record {
            chrom1: crate::bytes::copy_bytes(self.chrom1.as_slice()),
            start1: self.start1,
            end1: self.end1,
            chrom2: crate::bytes::copy_bytes(self.chrom2.as_slice()),
            start2: self.start2,
            end2: self.end2,
            name: crate::bytes::copy_bytes(self.name.as_slice()),
            score: crate::bytes::copy_bytes(self.score.as_slice()),
            strand1: crate::bytes::copy_bytes(self.strand1.as_slice()),
            strand2: crate::bytes::copy_bytes(self.strand2.as_slice()),
        }
    }
}

impl Table {
    /// Number of rows.
    pub fn len(&self) -> (n: usize)
        ensures
            n == self@.len(),
    {
        self.rows.len()
    }
}

} // verus!
