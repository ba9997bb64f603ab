//! The whole run: load, bind, filter, sample, sort, write.

use vstd::prelude::*;
use vstd::utf8::valid_utf8;
use crate::chrom::is_canonical_name;
use crate::fraction::{
    bits_mantissa, bits_shift, lemma_bits_unit_fraction, lemma_sample_size_bounded,
};
use crate::decode::{decode_lossy, lossy_text};
use crate::error::{ParseError, PipelineError, SchemaError};
use crate::filter::{filter_canonical, filtered, lemma_filter_exact};
use crate::load::{bind, bind_row, is_first_ragged, is_uniform, load};
use crate::record::{
    fields_of_record, is_plain, is_writable, record_of_fields, RecordView, COLUMNS,
};
use crate::sample::{
    are_distinct_positions, is_draw, lemma_draw_of_draw, sample, sample_fault, sample_len,
};
use crate::sort::{is_ascending, sort};
use crate::text::{
    cells_of, free_of, lemma_lines_plain, lemma_split_pieces, lines_of, split, NEWLINE, TAB,
};
use crate::write::{all_writable, cells_of_rows, lemma_round_trip, serialize, text_of_rows};

verus! {

/// Whether every row of cells can be bound to the ten columns.
pub open spec fn is_bindable(cells: Seq<Seq<Seq<u8>>>) -> bool {
    forall|i: int| 0 <= i < cells.len() ==> (#[trigger] bind_row(cells[i], i)) is Ok
}

/// Whether `e` is the error of the first row of cells that cannot be bound.
pub open spec fn is_first_fault(cells: Seq<Seq<Seq<u8>>>, e: SchemaError) -> bool {
    exists|i: int|
        {
            &&& 0 <= i < cells.len()
            &&& #[trigger] bind_row(cells[i], i) == Err::<RecordView, SchemaError>(e)
            &&& forall|j: int| 0 <= j < i ==> (#[trigger] bind_row(cells[j], j)) is Ok
        }
}

/// The rows that bindable cells stand for.
pub open spec fn bound_rows(cells: Seq<Seq<Seq<u8>>>) -> Seq<RecordView> {
    cells.map_values(|fields: Seq<Seq<u8>>| record_of_fields(fields).unwrap())
}

/// The rows of a text that pass the filter.
pub open spec fn candidates(text: Seq<u8>) -> Seq<RecordView> {
    filtered(bound_rows(cells_of(text)))
}

/// Whether `out` is the text of a sample of `rows` at the fraction with
/// this bit pattern: of some draw of `sample_len` rows, no row twice, put
/// in an order in which each row may stand before the next.
pub open spec fn is_sample_text(rows: Seq<RecordView>, fraction_bits: u64, out: Seq<u8>) -> bool {
    exists|drawn: Seq<RecordView>, sorted: Seq<RecordView>|
        {
            &&& #[trigger] is_draw(rows, drawn)
            &&& drawn.len() == sample_len(rows.len(), fraction_bits)
            &&& #[trigger] is_draw(drawn, sorted)
            &&& sorted.len() == drawn.len()
            &&& is_ascending(sorted)
            &&& out == text_of_rows(sorted)
        }
}

/// A byte absent from a text is absent from its pieces.
pub proof fn lemma_split_keeps_free(s: Seq<u8>, sep: u8, byte: u8)
    requires
        free_of(s, byte),
    ensures
        forall|k: int| 0 <= k < split(s, sep).len() ==> free_of(#[trigger] split(s, sep)[k], byte),
    decreases s.len(),
{
    if s.len() > 0 {
        lemma_split_keeps_free(s.drop_last(), sep, byte);
        lemma_split_pieces(s.drop_last(), sep);
    }
}

/// No cell of a text holds a tab or a newline.
pub proof fn lemma_cells_plain(text: Seq<u8>)
    ensures
        forall|i: int, k: int|
            0 <= i < cells_of(text).len() && 0 <= k < cells_of(text)[i].len() ==> is_plain(
                #[trigger] cells_of(text)[i][k],
            ),
{
    let lines = lines_of(text);
    lemma_lines_plain(text);
    assert forall|i: int, k: int|
        0 <= i < cells_of(text).len() && 0 <= k < cells_of(text)[i].len() implies is_plain(
        #[trigger] cells_of(text)[i][k],
    ) by {
        let line = lines[i];
        assert(free_of(line, NEWLINE));
        assert(cells_of(text)[i] == split(line, TAB));
        lemma_split_pieces(line, TAB);
        lemma_split_keeps_free(line, TAB, NEWLINE);
    }
}

/// The rows bound from the cells of a text can be written and read back.
pub proof fn lemma_bound_rows_writable(text: Seq<u8>)
    requires
        is_bindable(cells_of(text)),
    ensures
        all_writable(bound_rows(cells_of(text))),
{
    lemma_cells_plain(text);
    let cells = cells_of(text);
    assert forall|i: int| 0 <= i < cells.len() implies is_writable(
        #[trigger] bound_rows(cells)[i],
    ) by {
        assert(bind_row(cells[i], i) is Ok);
        assert(is_plain(cells[i][0]));
        assert(is_plain(cells[i][3]));
        assert(is_plain(cells[i][6]));
        assert(is_plain(cells[i][7]));
        assert(is_plain(cells[i][8]));
        assert(is_plain(cells[i][9]));
    }
}

/// Rows drawn from a writable table are writable.
pub proof fn lemma_draw_writable(pool: Seq<RecordView>, picked: Seq<RecordView>)
    requires
        all_writable(pool),
        is_draw(pool, picked),
    ensures
        all_writable(picked),
{
    let positions = choose|positions: Seq<int>|
        {
            &&& #[trigger] are_distinct_positions(positions, pool.len() as int)
            &&& positions.len() == picked.len()
            &&& forall|i: int| 0 <= i < picked.len() ==> #[trigger] picked[i] == pool[positions[i]]
        };
    assert forall|i: int| 0 <= i < picked.len() implies is_writable(#[trigger] picked[i]) by {
        assert(0 <= positions[i] < pool.len());
    }
}

/// Rows that pass the filter are writable if the table is.
pub proof fn lemma_filtered_writable(rows: Seq<RecordView>)
    requires
        all_writable(rows),
    ensures
        all_writable(filtered(rows)),
{
    lemma_filter_exact(rows);
    assert forall|k: int| 0 <= k < filtered(rows).len() implies is_writable(
        #[trigger] filtered(rows)[k],
    ) by {
        let at = crate::filter::kept_positions(rows)[k];
        assert(0 <= at < rows.len());
    }
}

/// Whether `e` is the error on which a run on this text stops: that of the
/// first stage that fails.
pub open spec fn is_run_fault(text: Seq<u8>, fraction_bits: u64, e: PipelineError) -> bool {
    match e {
        PipelineError::Parse(ParseError::RaggedLine { line }) => is_first_ragged(
            cells_of(text),
            line as int,
        ),
        PipelineError::Schema(e) => {
            &&& is_uniform(cells_of(text))
            &&& is_first_fault(cells_of(text), e)
        },
        PipelineError::Sample(e) => {
            &&& is_uniform(cells_of(text))
            &&& is_bindable(cells_of(text))
            &&& sample_fault(candidates(text).len(), fraction_bits) == Some(e)
        },
    }
}

/// Whether `out` is what a run on this text may write: no stage fails, and
/// `out` is the text of a sample of the rows that pass the filter.
pub open spec fn is_run_output(text: Seq<u8>, fraction_bits: u64, out: Seq<u8>) -> bool {
    &&& is_uniform(cells_of(text))
    &&& is_bindable(cells_of(text))
    &&& sample_fault(candidates(text).len(), fraction_bits) is None
    &&& is_sample_text(candidates(text), fraction_bits, out)
}

/// A run either stops on an error or writes, never both: where it may
/// write, no stage fails.
pub proof fn lemma_run_decided(text: Seq<u8>, fraction_bits: u64, out: Seq<u8>, e: PipelineError)
    requires
        is_run_output(text, fraction_bits, out),
    ensures
        !is_run_fault(text, fraction_bits, e),
{
    let cells = cells_of(text);
    match e {
        PipelineError::Parse(ParseError::RaggedLine { line }) => {
            if is_first_ragged(cells, line as int) {
                assert(cells[line as int].len() == cells[0].len());
            }
        },
        PipelineError::Schema(e) => {
            if is_first_fault(cells, e) {
                let i = choose|i: int|
                    {
                        &&& 0 <= i < cells.len()
                        &&& #[trigger] bind_row(cells[i], i) == Err::<RecordView, SchemaError>(e)
                        &&& forall|j: int| 0 <= j < i ==> (#[trigger] bind_row(cells[j], j)) is Ok
                    };
                assert(bind_row(cells[i], i) is Ok);
            }
        },
        PipelineError::Sample(e) => {},
    }
}

/// What a run writes, read as a table. It has as many rows as the fraction
/// asks of the rows that pass the filter, and no more than there are; every
/// line has ten fields and binds to a row; every row is on a canonical
/// chromosome; each row may stand before the next; and the rows are a draw
/// from the rows that pass the filter, none of them drawn twice.
pub proof fn lemma_run_output(text: Seq<u8>, fraction_bits: u64, out: Seq<u8>)
    requires
        is_run_output(text, fraction_bits, out),
    ensures
        cells_of(out).len() == sample_len(candidates(text).len(), fraction_bits),
        cells_of(out).len() <= candidates(text).len(),
        forall|i: int|
            0 <= i < cells_of(out).len() ==> (#[trigger] cells_of(out)[i]).len() == COLUMNS,
        is_bindable(cells_of(out)),
        forall|i: int|
            0 <= i < cells_of(out).len() ==> is_canonical_name((#[trigger] cells_of(out)[i])[0]),
        is_ascending(bound_rows(cells_of(out))),
        is_draw(candidates(text), bound_rows(cells_of(out))),
{
    let rows = candidates(text);
    let (drawn, sorted) = choose|drawn: Seq<RecordView>, sorted: Seq<RecordView>|
        {
            &&& #[trigger] is_draw(rows, drawn)
            &&& drawn.len() == sample_len(rows.len(), fraction_bits)
            &&& #[trigger] is_draw(drawn, sorted)
            &&& sorted.len() == drawn.len()
            &&& is_ascending(sorted)
            &&& out == text_of_rows(sorted)
        };
    lemma_bound_rows_writable(text);
    lemma_filtered_writable(bound_rows(cells_of(text)));
    lemma_draw_writable(rows, drawn);
    lemma_draw_writable(drawn, sorted);
    lemma_round_trip(sorted);
    lemma_draw_of_draw(rows, drawn, sorted);
    lemma_bits_unit_fraction(fraction_bits);
    lemma_sample_size_bounded(rows.len(), bits_mantissa(fraction_bits), bits_shift(fraction_bits));
    let cells = cells_of(out);
    assert(cells == cells_of_rows(sorted));
    assert(bound_rows(cells) =~= sorted) by {
        assert forall|i: int| 0 <= i < sorted.len() implies #[trigger] bound_rows(cells)[i]
            == sorted[i] by {
            assert(bind_row(cells[i], i) == Ok::<RecordView, SchemaError>(sorted[i]));
        }
    }
    let positions = choose|positions: Seq<int>|
        {
            &&& #[trigger] are_distinct_positions(positions, rows.len() as int)
            &&& positions.len() == sorted.len()
            &&& forall|i: int| 0 <= i < sorted.len() ==> #[trigger] sorted[i] == rows[positions[i]]
        };
    lemma_filter_exact(bound_rows(cells_of(text)));
    assert forall|i: int| 0 <= i < cells.len() implies is_canonical_name(
        (#[trigger] cells[i])[0],
    ) by {
        assert(cells[i] == fields_of_record(sorted[i]));
        assert(sorted[i] == rows[positions[i]]);
        assert(0 <= positions[i] < rows.len());
        assert(is_canonical_name(rows[positions[i]].chrom1));
    }
}

/// Runs the stages on a text, one after the other, and stops at the first
/// that fails. It succeeds exactly when the lines agree on their number of
/// fields, every row binds to the ten columns, the fraction is above zero
/// and at most one, and a row is left after the filter. The result is then
/// the text of a sample of the rows that pass the filter.
pub fn run(text: &[u8], fraction_bits: u64, seed: Option<u64>) -> (out: Result<
    Vec<u8>,
    PipelineError,
>)
    ensures
        match out {
            Ok(bytes) => is_run_output(text@, fraction_bits, bytes@),
            Err(e) => is_run_fault(text@, fraction_bits, e),
        },
{
    let raw = match load(text) {
        Ok(raw) => raw,
        Err(e) => {
            return Err(PipelineError::Parse(e));
        },
    };
    let ghost cells = cells_of(text@);
    let table = match bind(&raw) {
        Ok(table) => table,
        Err(e) => {
            return Err(PipelineError::Schema(e));
        },
    };
    proof {
        assert(table@ =~= bound_rows(cells));
    }
    let kept = filter_canonical(&table);
    let drawn = match sample(&kept, fraction_bits, seed) {
        Ok(drawn) => drawn,
        Err(e) => {
            return Err(PipelineError::Sample(e));
        },
    };
    let sorted = sort(&drawn);
    Ok(serialize(&sorted))
}

/// Runs the stages on the bytes of a file. What is not UTF-8 in them is
/// replaced first; the rest is `run` on the text that this gives, which is
/// the bytes themselves where they are UTF-8 throughout.
pub fn downsample(input: &[u8], fraction_bits: u64, seed: Option<u64>) -> (out: Result<
    Vec<u8>,
    PipelineError,
>)
    ensures
        match out {
            Ok(bytes) => is_run_output(lossy_text(input@), fraction_bits, bytes@),
            Err(e) => is_run_fault(lossy_text(input@), fraction_bits, e),
        },
        valid_utf8(input@) ==> match out {
            Ok(bytes) => is_run_output(input@, fraction_bits, bytes@),
            Err(e) => is_run_fault(input@, fraction_bits, e),
        },
{
    let text = decode_lossy(input);
    run(text.as_slice(), fraction_bits, seed)
}

} // verus!
