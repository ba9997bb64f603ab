//! Ordering the rows by chromosome and start.
//!
//! The sorting engine of polars proposes an ordering; it is accepted only
//! after it has been checked here to be a rearrangement of the rows along
//! which the keys ascend. Where it is not, the rows are sorted here, by
//! insertion.

use vstd::prelude::*;
use polars::prelude::{Column, DataFrame, PolarsError, SortMultipleOptions};
use crate::bytes::{
    bytes_eq, bytes_le, copy_bytes, lemma_lex_le_antisymmetric, lemma_lex_le_reflexive,
    lemma_lex_le_total, lemma_lex_le_transitive, lex_le,
};
use crate::record::{rows_of, Record, RecordView, Table};
use crate::sample::{are_distinct_positions, is_draw, take_rows, MAX_ROWS};

verus! {

/// Whether row `a` may stand before row `b`: its first chromosome comes
/// first in lexicographic order, or is the same with a start that is not
/// larger.
pub open spec fn key_le(a: RecordView, b: RecordView) -> bool {
    if a.chrom1 == b.chrom1 {
        a.start1 <= b.start1
    } else {
        lex_le(a.chrom1, b.chrom1)
    }
}

/// Whether each row may stand before the next.
pub open spec fn is_ascending(rows: Seq<RecordView>) -> bool {
    forall|i: int| 0 <= i < rows.len() - 1 ==> key_le(#[trigger] rows[i], rows[i + 1])
}

/// Whether `order` lists every index of `rows` once, so that the rows taken
/// in that order ascend.
pub open spec fn is_sorting_order(rows: Seq<RecordView>, order: Seq<u32>) -> bool {
    &&& order.len() == rows.len()
    &&& forall|i: int| 0 <= i < order.len() ==> #[trigger] order[i] < rows.len()
    &&& forall|i: int, j: int|
        0 <= i < j < order.len() ==> #[trigger] order[i] != #[trigger] order[j]
    &&& forall|i: int|
        0 <= i < order.len() - 1 ==> key_le(
            rows[(#[trigger] order[i]) as int],
            rows[order[i + 1] as int],
        )
}

/// Of two rows one may stand before the other.
pub proof fn lemma_key_le_total(a: RecordView, b: RecordView)
    ensures
        key_le(a, b) || key_le(b, a),
{
    lemma_lex_le_total(a.chrom1, b.chrom1);
}

/// If `a` may stand before `b` and `b` before `c`, then `a` may stand
/// before `c`.
pub proof fn lemma_key_le_transitive(a: RecordView, b: RecordView, c: RecordView)
    requires
        key_le(a, b),
        key_le(b, c),
    ensures
        key_le(a, c),
{
    if a.chrom1 != b.chrom1 && b.chrom1 != c.chrom1 {
        lemma_lex_le_transitive(a.chrom1, b.chrom1, c.chrom1);
        if a.chrom1 == c.chrom1 {
            lemma_lex_le_antisymmetric(a.chrom1, b.chrom1);
        }
    }
}

/// In an ascending table every row may stand before every later row: the
/// first chromosomes ascend in lexicographic order, and where two rows
/// share one, the starts ascend.
pub proof fn lemma_ascending_pairs(rows: Seq<RecordView>, i: int, j: int)
    requires
        is_ascending(rows),
        0 <= i <= j < rows.len(),
    ensures
        key_le(rows[i], rows[j]),
    decreases j - i,
{
    if i == j {
        lemma_lex_le_reflexive(rows[i].chrom1);
    } else {
        lemma_ascending_pairs(rows, i, j - 1);
        assert(key_le(rows[j - 1], rows[j - 1 + 1]));
        lemma_key_le_transitive(rows[i], rows[j - 1], rows[j]);
    }
}

/// `DataFrame::sort` of polars on three columns that hold the first
/// chromosomes, the starts and the row numbers, by chromosome and then by
/// start, both ascending; the result is the column of row numbers after the
/// sort. Nothing is claimed of it: the caller checks what it gets.
#[verifier::external_body]
fn engine_order(chroms: &Vec<Vec<u8>>, starts: &Vec<i64>, rows: &Vec<u32>) -> (order: Result<
    Vec<u32>,
    PolarsError,
>)
    requires
        chroms@.len() <= MAX_ROWS,
        starts@.len() <= MAX_ROWS,
        rows@.len() <= MAX_ROWS,
{
    let frame = DataFrame::new_infer_height(
        vec![
            Column::new("chrom1".into(), chroms),
            Column::new("start1".into(), starts),
            Column::new("row".into(), rows),
        ],
    )?;
    let sorted = frame.sort(["chrom1", "start1"], SortMultipleOptions::default())?;
    Ok(sorted.column("row")?.u32()?.into_no_null_iter().collect())
}

/// Whether row `a` may stand before row `b`.
pub fn may_precede(a: &Record, b: &Record) -> (le: bool)
    ensures
        le == key_le(a@, b@),
{
    if bytes_eq(a.chrom1.as_slice(), b.chrom1.as_slice()) {
        a.start1 <= b.start1
    } else {
        bytes_le(a.chrom1.as_slice(), b.chrom1.as_slice())
    }
}

/// Whether each row of the table may stand before the next.
pub fn check_ascending(table: &Table) -> (ok: bool)
    ensures
        ok == is_ascending(table@),
{
    if table.rows.len() < 2 {
        return true;
    }
    let mut i: usize = 0;
    while i < table.rows.len() - 1
        invariant
            table.rows@.len() >= 2,
            i <= table.rows@.len() - 1,
            table@.len() == table.rows@.len(),
            forall|j: int| 0 <= j < i ==> key_le(#[trigger] table@[j], table@[j + 1]),
        decreases table.rows@.len() - i,
    {
        proof {
            assert(table@[i as int] == table.rows@[i as int]@);
            assert(table@[i + 1] == table.rows@[i + 1]@);
        }
        if !may_precede(&table.rows[i], &table.rows[i + 1]) {
            return false;
        }
        i += 1;
    }
    true
}

/// Whether `order` lists every index below `len` once.
pub fn check_rearrangement(order: &Vec<u32>, len: usize) -> (ok: bool)
    ensures
        ok == {
            &&& order@.len() == len
            &&& forall|i: int| 0 <= i < order@.len() ==> #[trigger] order@[i] < len
            &&& forall|i: int, j: int|
                0 <= i < j < order@.len() ==> #[trigger] order@[i] != #[trigger] order@[j]
        },
{
    if order.len() != len {
        return false;
    }
    let mut seen: Vec<bool> = Vec::new();
    let mut k: usize = 0;
    while k < len
        invariant
            k <= len,
            seen@.len() == k,
            forall|v: int| 0 <= v < k ==> !#[trigger] seen@[v],
        decreases len - k,
    {
        seen.push(false);
        k += 1;
    }
    let mut i: usize = 0;
    while i < order.len()
        invariant
            i <= order@.len(),
            order@.len() == len,
            seen@.len() == len,
            forall|j: int| 0 <= j < i ==> #[trigger] order@[j] < len,
            forall|j: int| 0 <= j < i ==> seen@[(#[trigger] order@[j]) as int],
            forall|v: int|
                0 <= v < len && #[trigger] seen@[v] ==> exists|j: int|
                    0 <= j < i && #[trigger] order@[j] == v,
            forall|a: int, b: int|
                0 <= a < b < i ==> #[trigger] order@[a] != #[trigger] order@[b],
        decreases order@.len() - i,
    {
        let at: usize = order[i] as usize;
        if at >= len {
            return false;
        }
        if seen[at] {
            proof {
                let j = choose|j: int| 0 <= j < i && #[trigger] order@[j] == at;
                assert(order@[j] == order@[i as int]);
            }
            return false;
        }
        let ghost before = seen@;
        seen.set(at, true);
        proof {
            assert forall|v: int| 0 <= v < len && #[trigger] seen@[v] implies exists|j: int|
                0 <= j < i + 1 && #[trigger] order@[j] == v by {
                if v == at {
                    assert(order@[i as int] == v);
                } else {
                    assert(before[v]);
                    let j = choose|j: int| 0 <= j < i && #[trigger] order@[j] == v;
                    assert(0 <= j < i + 1 && order@[j] == v);
                }
            }
            assert forall|a: int, b: int| 0 <= a < b < i + 1 implies #[trigger] order@[a]
                != #[trigger] order@[b] by {
                if b == i {
                    if order@[a] == order@[b] {
                        assert(before[order@[a] as int]);
                    }
                }
            }
        }
        i += 1;
    }
    true
}

/// Puts the rows of a table in a proposed order, and accepts the result
/// exactly when the order lists every row once and the rows ascend along it.
pub fn arrange(table: &Table, order: &Vec<u32>) -> (out: Option<Table>)
    ensures
        out is Some <==> is_sorting_order(table@, order@),
        out is Some ==> {
            &&& out->Some_0@.len() == table@.len()
            &&& forall|i: int|
                0 <= i < table@.len() ==> #[trigger] out->Some_0@[i] == table@[order@[i] as int]
            &&& is_ascending(out->Some_0@)
            &&& is_draw(table@, out->Some_0@)
        },
{
    if !check_rearrangement(order, table.len()) {
        return None;
    }
    match take_rows(table, order) {
        Some(sorted) => {
            proof {
                assert forall|i: int| 0 <= i < sorted@.len() - 1 implies key_le(
                    #[trigger] sorted@[i],
                    sorted@[i + 1],
                ) == key_le(table@[order@[i] as int], table@[order@[i + 1] as int]) by {
                    assert(sorted@[i] == table@[order@[i] as int]);
                    assert(sorted@[i + 1] == table@[order@[i + 1] as int]);
                }
            }
            if check_ascending(&sorted) {
                proof {
                    assert forall|i: int| 0 <= i < order@.len() - 1 implies key_le(
                        table@[(#[trigger] order@[i]) as int],
                        table@[order@[i + 1] as int],
                    ) by {
                        assert(key_le(sorted@[i], sorted@[i + 1]));
                    }
                    let positions = Seq::new(order@.len(), |i: int| order@[i] as int);
                    assert(are_distinct_positions(positions, table@.len() as int));
                }
                Some(sorted)
            } else {
                proof {
                    if is_sorting_order(table@, order@) {
                        assert forall|i: int| 0 <= i < sorted@.len() - 1 implies key_le(
                            #[trigger] sorted@[i],
                            sorted@[i + 1],
                        ) by {
                            assert(key_le(table@[order@[i] as int], table@[order@[i + 1] as int]));
                        }
                    }
                }
                None
            }
        },
        None => None,
    }
}

/// Sorts the rows of a table by insertion: each row in turn goes behind
/// the rows already placed that may stand before it. The result holds every
/// row of the table once, and each of its rows may stand before the next.
pub fn insertion_sort(table: &Table) -> (out: Table)
    ensures
        out@.len() == table@.len(),
        is_ascending(out@),
        is_draw(table@, out@),
{
    let mut rows: Vec<Record> = Vec::new();
    let ghost mut positions: Seq<int> = Seq::empty();
    let mut i: usize = 0;
    while i < table.rows.len()
        invariant
            i <= table.rows@.len(),
            table@.len() == table.rows@.len(),
            rows@.len() == i,
            positions.len() == i,
            are_distinct_positions(positions, i as int),
            forall|k: int| 0 <= k < i ==> (#[trigger] rows@[k])@ == table@[positions[k]],
            is_ascending(rows_of(rows@)),
        decreases table.rows@.len() - i,
    {
        let new = &table.rows[i];
        proof {
            assert(table@[i as int] == new@);
        }
        let mut at: usize = 0;
        while at < rows.len() && may_precede(&rows[at], new)
            invariant
                at <= rows@.len(),
                forall|k: int| 0 <= k < at ==> key_le((#[trigger] rows@[k])@, new@),
            decreases rows@.len() - at,
        {
            at += 1;
        }
        let ghost before = rows@;
        let ghost before_positions = positions;
        rows.insert(at, new.duplicate());
        proof {
            positions = positions.insert(at as int, i as int);
            assert forall|k: int| 0 <= k < i + 1 implies (#[trigger] rows@[k])@
                == table@[positions[k]] by {
                if k < at {
                    assert(rows@[k] == before[k]);
                } else if k > at {
                    assert(rows@[k] == before[k - 1]);
                    assert(positions[k] == before_positions[k - 1]);
                }
            }
            assert(are_distinct_positions(positions, i + 1)) by {
                assert forall|k: int| 0 <= k < positions.len() implies 0 <= #[trigger] positions[k]
                    < i + 1 by {
                    if k < at {
                        assert(positions[k] == before_positions[k]);
                    } else if k > at {
                        assert(positions[k] == before_positions[k - 1]);
                    }
                }
                assert forall|a: int, b: int|
                    0 <= a < b < positions.len() implies #[trigger] positions[a]
                    != #[trigger] positions[b] by {
                    let pa = if a < at { a } else { a - 1 };
                    let pb = if b < at { b } else { b - 1 };
                    if a != at && b != at {
                        assert(positions[a] == before_positions[pa]);
                        assert(positions[b] == before_positions[pb]);
                    } else if a == at {
                        assert(positions[b] == before_positions[pb]);
                        assert(before_positions[pb] < i);
                    } else {
                        assert(positions[a] == before_positions[pa]);
                        assert(before_positions[pa] < i);
                    }
                }
            }
            let now = rows_of(rows@);
            let was = rows_of(before);
            assert forall|k: int| 0 <= k < now.len() - 1 implies key_le(
                #[trigger] now[k],
                now[k + 1],
            ) by {
                if k + 1 < at {
                    assert(rows@[k] == before[k]);
                    assert(rows@[k + 1] == before[k + 1]);
                    assert(key_le(was[k], was[k + 1]));
                } else if k + 1 == at {
                    assert(rows@[k] == before[k]);
                    assert(key_le(before[k]@, new@));
                } else if k == at {
                    assert(rows@[k + 1] == before[k]);
                    assert(!key_le(before[at as int]@, new@));
                    lemma_key_le_total(before[at as int]@, new@);
                } else {
                    assert(rows@[k] == before[k - 1]);
                    assert(rows@[k + 1] == before[k]);
                    assert(key_le(was[k - 1], was[k - 1 + 1]));
                }
            }
        }
        i += 1;
    }
    let out = Table { rows };
    proof {
        assert forall|k: int| 0 <= k < out@.len() implies #[trigger] out@[k]
            == table@[positions[k]] by {
            assert(out@[k] == out.rows@[k]@);
        }
    }
    out
}

/// Orders the rows of a table by first chromosome and start, ascending.
/// The result holds every row of the table once, and each of its rows may
/// stand before the next. In which order rows with the same chromosome and
/// start come is not fixed.
pub fn sort(table: &Table) -> (out: Table)
    ensures
        out@.len() == table@.len(),
        is_ascending(out@),
        is_draw(table@, out@),
{
    if table.len() <= MAX_ROWS {
        let mut chroms: Vec<Vec<u8>> = Vec::new();
        let mut starts: Vec<i64> = Vec::new();
        let mut rows: Vec<u32> = Vec::new();
        let mut i: usize = 0;
        while i < table.rows.len()
            invariant
                i <= table.rows@.len() <= MAX_ROWS,
                chroms@.len() == i,
                starts@.len() == i,
                rows@.len() == i,
            decreases table.rows@.len() - i,
        {
            chroms.push(copy_bytes(table.rows[i].chrom1.as_slice()));
            starts.push(table.rows[i].start1);
            rows.push(i as u32);
            i += 1;
        }
        match engine_order(&chroms, &starts, &rows) {
            Ok(order) => match arrange(table, &order) {
                Some(sorted) => {
                    return sorted;
                },
                None => {},
            },
            Err(_) => {},
        }
    }
    insertion_sort(table)
}

} // verus!
