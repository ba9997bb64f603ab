//! Drawing a fraction of the rows at random, no row twice.
//!
//! Which rows are drawn is decided by the sampling engine of polars; how
//! many are asked for, and what is done with the rows drawn, is decided
//! here.

use vstd::prelude::*;
use polars::prelude::{NewChunkedArray, PlSmallStr, PolarsError, UInt32Chunked};
use crate::error::SampleError;
use crate::fraction::{bits_mantissa, bits_shift, in_unit_interval, sample_size, Fraction};
use crate::record::{Record, RecordView, Table};

verus! {

/// The most rows that the engine can index.
pub const MAX_ROWS: usize = 0xFFFF_FFFE;

/// The error type of polars.
#[verifier::external_type_specification]
#[verifier::external_body]
pub struct ExPolarsError(PolarsError);

/// Whether `positions` names places of a sequence of `len` items, none of
/// them twice.
pub open spec fn are_distinct_positions(positions: Seq<int>, len: int) -> bool {
    &&& forall|i: int| 0 <= i < positions.len() ==> 0 <= #[trigger] positions[i] < len
    &&& forall|i: int, j: int|
        0 <= i < j < positions.len() ==> #[trigger] positions[i] != #[trigger] positions[j]
}

/// Whether `picked` is a draw from `pool` without replacement: its items are
/// those at some places of `pool`, no place taken twice.
pub open spec fn is_draw<T>(pool: Seq<T>, picked: Seq<T>) -> bool {
    exists|positions: Seq<int>|
        {
            &&& #[trigger] are_distinct_positions(positions, pool.len() as int)
            &&& positions.len() == picked.len()
            &&& forall|i: int| 0 <= i < picked.len() ==> #[trigger] picked[i] == pool[positions[i]]
        }
}

/// A draw from a draw is a draw from the first pool.
pub proof fn lemma_draw_of_draw<T>(pool: Seq<T>, mid: Seq<T>, picked: Seq<T>)
    requires
        is_draw(pool, mid),
        is_draw(mid, picked),
    ensures
        is_draw(pool, picked),
{
    let first = choose|positions: Seq<int>|
        {
            &&& #[trigger] are_distinct_positions(positions, pool.len() as int)
            &&& positions.len() == mid.len()
            &&& forall|i: int| 0 <= i < mid.len() ==> #[trigger] mid[i] == pool[positions[i]]
        };
    let second = choose|positions: Seq<int>|
        {
            &&& #[trigger] are_distinct_positions(positions, mid.len() as int)
            &&& positions.len() == picked.len()
            &&& forall|i: int| 0 <= i < picked.len() ==> #[trigger] picked[i] == mid[positions[i]]
        };
    let both = Seq::new(picked.len(), |i: int| first[second[i]]);
    assert forall|i: int| 0 <= i < both.len() implies 0 <= #[trigger] both[i] < pool.len() by {
        assert(0 <= second[i] < mid.len());
    }
    assert forall|i: int, j: int| 0 <= i < j < both.len() implies #[trigger] both[i]
        != #[trigger] both[j] by {
        assert(second[i] != second[j]);
        assert(0 <= second[i] < mid.len());
        assert(0 <= second[j] < mid.len());
        if second[i] < second[j] {
            assert(first[second[i]] != first[second[j]]);
        } else {
            assert(first[second[j]] != first[second[i]]);
        }
    }
    assert(are_distinct_positions(both, pool.len() as int));
    assert forall|i: int| 0 <= i < picked.len() implies #[trigger] picked[i] == pool[both[i]] by {
        assert(0 <= second[i] < mid.len());
        assert(mid[second[i]] == pool[first[second[i]]]);
    }
}

/// `ChunkedArray::sample_n` of polars, without replacement and in the
/// engine's own order, on a column that holds `ids`. The engine refuses
/// exactly a draw of more items than the column has. What it returns
/// otherwise are the items at `count` places of the column, no place taken
/// twice; which places depends on the seed and, without one, on chance.
#[verifier::external_body]
fn draw(ids: &Vec<u32>, count: usize, seed: Option<u64>) -> (picked: Result<Vec<u32>, PolarsError>)
    requires
        ids@.len() <= MAX_ROWS,
    ensures
        picked is Ok <==> count <= ids@.len(),
        picked is Ok ==> picked->Ok_0@.len() == count && is_draw(ids@, picked->Ok_0@),
{
    let column = UInt32Chunked::from_slice(PlSmallStr::EMPTY, ids.as_slice());
    let sample = column.sample_n(count, false, None, seed)?;
    Ok(sample.into_no_null_iter().collect())
}

/// Why no sample can be drawn from `rows` rows at the fraction with this
/// bit pattern, if there is a reason: the fraction is judged first, then the
/// number of rows.
pub open spec fn sample_fault(rows: nat, fraction_bits: u64) -> Option<SampleError> {
    if !in_unit_interval(fraction_bits) {
        Some(SampleError::FractionOutOfRange)
    } else if rows == 0 {
        Some(SampleError::EmptyTable)
    } else if rows > MAX_ROWS {
        Some(SampleError::TooManyRows)
    } else {
        None
    }
}

/// The number of rows that a sample holds.
pub open spec fn sample_len(rows: nat, fraction_bits: u64) -> nat {
    sample_size(rows, bits_mantissa(fraction_bits), bits_shift(fraction_bits))
}

/// The row count as the engine indexes it: an error for an empty table and
/// for one with more rows than the engine can index.
pub fn row_count(rows: usize) -> (out: Result<u32, SampleError>)
    ensures
        rows == 0 ==> out == Err::<u32, SampleError>(SampleError::EmptyTable),
        rows > MAX_ROWS ==> out == Err::<u32, SampleError>(SampleError::TooManyRows),
        0 < rows <= MAX_ROWS ==> out == Ok::<u32, SampleError>(rows as u32),
{
    if rows == 0 {
        Err(SampleError::EmptyTable)
    } else if rows > MAX_ROWS {
        Err(SampleError::TooManyRows)
    } else {
        Ok(rows as u32)
    }
}

/// The rows of a table at the given indices, in the order of the indices;
/// nothing if an index is beyond the table.
pub fn take_rows(table: &Table, picks: &Vec<u32>) -> (out: Option<Table>)
    ensures
        out is Some <==> (forall|i: int|
            0 <= i < picks@.len() ==> #[trigger] picks@[i] < table@.len()),
        out is Some ==> {
            &&& out->Some_0@.len() == picks@.len()
            &&& forall|i: int|
                0 <= i < picks@.len() ==> #[trigger] out->Some_0@[i] == table@[picks@[i] as int]
        },
{
    let mut rows: Vec<Record> = Vec::new();
    let mut i: usize = 0;
    while i < picks.len()
        invariant
            i <= picks@.len(),
            rows@.len() == i,
            table@.len() == table.rows@.len(),
            forall|j: int| 0 <= j < i ==> #[trigger] picks@[j] < table@.len(),
            forall|j: int| 0 <= j < i ==> (#[trigger] rows@[j])@ == table@[picks@[j] as int],
        decreases picks@.len() - i,
    {
        let at: usize = picks[i] as usize;
        if at >= table.rows.len() {
            return None;
        }
        rows.push(table.rows[at].duplicate());
        proof {
            assert(table@[at as int] == table.rows@[at as int]@);
        }
        i += 1;
    }
    let out = Table { rows };
    proof {
        assert forall|k: int| 0 <= k < picks@.len() implies #[trigger] out@[k]
            == table@[picks@[k] as int] by {
            assert(out@[k] == out.rows@[k]@);
        }
    }
    Some(out)
}

/// Draws from a table the share of its rows that `fraction_bits`, the bit
/// pattern of a double, asks for: `sample_len` rows, which is never more
/// than the table has, each row of the table at most once. The seed is
/// handed to the engine, which draws by it, or by chance where there is
/// none.
///
/// Fails when the fraction is not above zero and at most one, and, for a
/// fraction that is, when the table is empty or has more rows than the
/// engine can index. Succeeds on every other input.
pub fn sample(table: &Table, fraction_bits: u64, seed: Option<u64>) -> (out: Result<
    Table,
    SampleError,
>)
    ensures
        match out {
            Ok(drawn) => {
                &&& sample_fault(table@.len(), fraction_bits) is None
                &&& drawn@.len() == sample_len(table@.len(), fraction_bits)
                &&& drawn@.len() <= table@.len()
                &&& is_draw(table@, drawn@)
            },
            Err(e) => sample_fault(table@.len(), fraction_bits) == Some(e),
        },
{
    let fraction = match Fraction::from_bits(fraction_bits) {
        Ok(fraction) => fraction,
        Err(e) => {
            return Err(e);
        },
    };
    let rows: u32 = match row_count(table.len()) {
        Ok(rows) => rows,
        Err(e) => {
            return Err(e);
        },
    };
    let count: u32 = fraction.count(rows);
    let mut ids: Vec<u32> = Vec::new();
    let mut next: u32 = 0;
    while next < rows
        invariant
            next <= rows,
            ids@.len() == next,
            forall|i: int| 0 <= i < ids@.len() ==> #[trigger] ids@[i] == i,
        decreases rows - next,
    {
        ids.push(next);
        next += 1;
    }
    match draw(&ids, count as usize, seed) {
        Ok(picks) => {
            let ghost positions = choose|positions: Seq<int>|
                {
                    &&& #[trigger] are_distinct_positions(positions, ids@.len() as int)
                    &&& positions.len() == picks@.len()
                    &&& forall|i: int|
                        0 <= i < picks@.len() ==> #[trigger] picks@[i] == ids@[positions[i]]
                };
            proof {
                assert forall|i: int| 0 <= i < picks@.len() implies #[trigger] picks@[i]
                    == positions[i] by {
                    assert(0 <= positions[i] < ids@.len());
                }
            }
            match take_rows(table, &picks) {
                Some(drawn) => {
                    proof {
                        assert(are_distinct_positions(positions, table@.len() as int));
                        assert forall|i: int| 0 <= i < drawn@.len() implies #[trigger] drawn@[i]
                            == table@[positions[i]] by {
                            assert(picks@[i] == positions[i]);
                        }
                    }
                    Ok(drawn)
                },
                // Every row drawn is a row of the table.
                None => Err(SampleError::TooManyRows),
            }
        },
        // The engine refuses only a draw of more rows than there are.
        Err(_) => Err(SampleError::TooManyRows),
    }
}

} // verus!
