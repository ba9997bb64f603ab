//! From text to a table: cutting the text into cells, then giving the cells
//! their columns.

use vstd::prelude::*;
use crate::bytes::copy_bytes;
use crate::error::{ParseError, SchemaError};
use crate::record::{record_of_fields, Record, RecordView, Table, COLUMNS};
use crate::text::{
    cells_of, fields_of, fields_of_lines, grid_of, lemma_fields_of_lines_push,
    lemma_nonempty_push, nonempty, parse_integer, split, split_bytes, NEWLINE, TAB,
};

verus! {

/// A table before its columns have names and types: rows of fields.
#[derive(Debug, PartialEq, Eq)]
pub struct RawTable {
    pub rows: Vec<Vec<Vec<u8>>>,
}

impl View for RawTable {
    type V = Seq<Seq<Seq<u8>>>;

    open spec fn view(&self) -> Seq<Seq<Seq<u8>>> {
        grid_of(self.rows@)
    }
}

/// Whether every row has as many fields as the first.
pub open spec fn is_uniform(grid: Seq<Seq<Seq<u8>>>) -> bool {
    forall|i: int| 0 <= i < grid.len() ==> (#[trigger] grid[i]).len() == grid[0].len()
}

/// Whether `line` is the first row with another number of fields than the
/// first row.
pub open spec fn is_first_ragged(grid: Seq<Seq<Seq<u8>>>, line: int) -> bool {
    &&& 0 < line < grid.len()
    &&& grid[line].len() != grid[0].len()
    &&& forall|j: int| 0 <= j < line ==> (#[trigger] grid[j]).len() == grid[0].len()
}

/// Cuts a text into rows of fields. Succeeds exactly when every line has as
/// many fields as the first; otherwise names the first line that has not.
pub fn load(text: &[u8]) -> (out: Result<RawTable, ParseError>)
    ensures
        match out {
            Ok(table) => table@ == cells_of(text@) && is_uniform(cells_of(text@)),
            Err(ParseError::RaggedLine { line }) => is_first_ragged(cells_of(text@), line as int),
        },
{
    let lines = split_bytes(text, NEWLINE);
    let ghost pieces = split(text@, NEWLINE);
    let mut rows: Vec<Vec<Vec<u8>>> = Vec::new();
    let mut ragged: Option<usize> = None;
    let mut i: usize = 0;
    proof {
        assert(pieces.take(0) =~= Seq::<Seq<u8>>::empty());
        assert(grid_of(rows@) =~= fields_of_lines(nonempty(pieces.take(0))));
    }
    while i < lines.len()
        invariant
            i <= lines@.len(),
            fields_of(lines@) == pieces,
            grid_of(rows@) == fields_of_lines(nonempty(pieces.take(i as int))),
            match ragged {
                None => is_uniform(grid_of(rows@)),
                Some(line) => is_first_ragged(grid_of(rows@), line as int),
            },
        decreases lines@.len() - i,
    {
        let ghost before = grid_of(rows@);
        proof {
            assert(pieces.take(i + 1) =~= pieces.take(i as int).push(pieces[i as int]));
            lemma_nonempty_push(pieces.take(i as int), pieces[i as int]);
            assert(lines@[i as int]@ == pieces[i as int]);
        }
        if lines[i].len() > 0 {
            let fields = split_bytes(lines[i].as_slice(), TAB);
            proof {
                lemma_fields_of_lines_push(nonempty(pieces.take(i as int)), pieces[i as int]);
            }
            if ragged.is_none() && rows.len() > 0 && fields.len() != rows[0].len() {
                ragged = Some(rows.len());
            }
            rows.push(fields);
            proof {
                assert(grid_of(rows@) =~= before.push(split(pieces[i as int], TAB)));
                assert(forall|j: int|
                    0 <= j < before.len() ==> (#[trigger] grid_of(rows@)[j]) == before[j]);
            }
        }
        i += 1;
    }
    proof {
        assert(pieces.take(i as int) =~= pieces);
    }
    match ragged {
        Some(line) => Err(ParseError::RaggedLine { line }),
        None => Ok(RawTable { rows }),
    }
}

/// What a row of fields becomes when the columns are bound: a row of the
/// table, or the reason why it is none. `row` is the row's index.
pub open spec fn bind_row(fields: Seq<Seq<u8>>, row: int) -> Result<RecordView, SchemaError> {
    if fields.len() != COLUMNS {
        Err(SchemaError::ColumnCount { found: fields.len() as usize })
    } else {
        match record_of_fields(fields) {
            Some(r) => Ok(r),
            None => Err(SchemaError::Coordinate { row: row as usize }),
        }
    }
}

/// Gives the ten columns their names and types. Succeeds exactly when every
/// row has ten fields with integers for its four coordinates; otherwise the
/// error is that of the first row that has not.
pub fn bind(raw: &RawTable) -> (out: Result<Table, SchemaError>)
    ensures
        match out {
            Ok(table) => {
                &&& table@.len() == raw@.len()
                &&& forall|i: int|
                    0 <= i < raw@.len() ==> bind_row(#[trigger] raw@[i], i) == Ok::<
                        RecordView,
                        SchemaError,
                    >(table@[i])
            },
            Err(e) => exists|i: int|
                {
                    &&& 0 <= i < raw@.len()
                    &&& #[trigger] bind_row(raw@[i], i) == Err::<RecordView, SchemaError>(e)
                    &&& forall|j: int| 0 <= j < i ==> (#[trigger] bind_row(raw@[j], j)) is Ok
                },
        },
{
    let mut rows: Vec<Record> = Vec::new();
    let mut i: usize = 0;
    while i < raw.rows.len()
        invariant
            i <= raw@.len(),
            raw@.len() == raw.rows@.len(),
            rows@.len() == i,
            forall|j: int|
                0 <= j < i ==> bind_row(#[trigger] raw@[j], j) == Ok::<RecordView, SchemaError>(
                    rows@[j]@,
                ),
        decreases raw@.len() - i,
    {
        let row = &raw.rows[i];
        let ghost fields = raw@[i as int];
        proof {
            assert(fields == fields_of(row@));
            assert(forall|k: int| 0 <= k < row@.len() ==> (#[trigger] row@[k])@ == fields[k]);
        }
        if row.len() != COLUMNS {
            proof {
                assert(bind_row(raw@[i as int], i as int) == Err::<RecordView, SchemaError>(
                    SchemaError::ColumnCount { found: row.len() },
                ));
            }
            return Err(SchemaError::ColumnCount { found: row.len() });
        }
        let start1 = parse_integer(row[1].as_slice());
        let end1 = parse_integer(row[2].as_slice());
        let start2 = parse_integer(row[4].as_slice());
        let end2 = parse_integer(row[5].as_slice());
        match (start1, end1, start2, end2) {
            (Some(s1), Some(e1), Some(s2), Some(e2)) => {
                let record = Record {
                    chrom1: copy_bytes(row[0].as_slice()),
                    start1: s1,
                    end1: e1,
                    chrom2: copy_bytes(row[3].as_slice()),
                    start2: s2,
                    end2: e2,
                    name: copy_bytes(row[6].as_slice()),
                    score: copy_bytes(row[7].as_slice()),
                    strand1: copy_bytes(row[8].as_slice()),
                    strand2: copy_bytes(row[9].as_slice()),
                };
                proof {
                    assert(record_of_fields(fields) == Some(record@));
                }
                rows.push(record);
            },
            _ => {
                proof {
                    assert(record_of_fields(fields) is None);
                    assert(bind_row(raw@[i as int], i as int) == Err::<RecordView, SchemaError>(
                        SchemaError::Coordinate { row: i },
                    ));
                }
                return Err(SchemaError::Coordinate { row: i });
            },
        }
        i += 1;
    }
    let table = Table { rows };
    proof {
        assert(table@.len() == raw@.len());
        assert forall|k: int| 0 <= k < raw@.len() implies bind_row(#[trigger] raw@[k], k) == Ok::<
            RecordView,
            SchemaError,
        >(table@[k]) by {
            assert(table@[k] == table.rows@[k]@);
        }
    }
    Ok(table)
}

} // verus!
