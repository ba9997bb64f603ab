//! Keeping the rows whose first interval lies on a canonical chromosome.

use vstd::prelude::*;
use crate::chrom::{is_canonical_name, CanonicalSet};
use crate::record::{Record, RecordView, Table};

verus! {

/// Whether the filter keeps a row.
pub open spec fn keeps(r: RecordView) -> bool {
    is_canonical_name(r.chrom1)
}

/// The rows that the filter keeps, in their order.
pub open spec fn filtered(rows: Seq<RecordView>) -> Seq<RecordView> {
    rows.filter(|r: RecordView| keeps(r))
}

/// The indices of the rows that the filter keeps, ascending.
pub open spec fn kept_positions(rows: Seq<RecordView>) -> Seq<int>
    decreases rows.len(),
{
    if rows.len() == 0 {
        Seq::<int>::empty()
    } else if keeps(rows.last()) {
        kept_positions(rows.drop_last()).push(rows.len() - 1)
    } else {
        kept_positions(rows.drop_last())
    }
}

/// One more row joins the kept rows exactly when the filter keeps it.
pub proof fn lemma_filtered_push(rows: Seq<RecordView>, r: RecordView)
    ensures
        filtered(rows.push(r)) == if keeps(r) {
            filtered(rows).push(r)
        } else {
            filtered(rows)
        },
{
    rows.lemma_filter_push(r, |r: RecordView| keeps(r));
}

/// What the filter does, row by row. The rows kept are the rows at
/// `kept_positions`, in that order; those positions ascend, so the order of
/// the table is preserved and no row is kept twice; and a row's index is
/// among them exactly when its first chromosome is canonical, so every row
/// kept is on a canonical chromosome and every row removed is not.
pub proof fn lemma_filter_exact(rows: Seq<RecordView>)
    ensures
        filtered(rows).len() == kept_positions(rows).len(),
        forall|k: int|
            0 <= k < filtered(rows).len() ==> {
                &&& 0 <= #[trigger] kept_positions(rows)[k] < rows.len()
                &&& filtered(rows)[k] == rows[kept_positions(rows)[k]]
                &&& is_canonical_name(filtered(rows)[k].chrom1)
            },
        forall|j: int, k: int|
            0 <= j < k < kept_positions(rows).len() ==> kept_positions(rows)[j] < kept_positions(
                rows,
            )[k],
        forall|i: int|
            0 <= i < rows.len() ==> (kept_positions(rows).contains(i) <==> is_canonical_name(
                #[trigger] rows[i].chrom1,
            )),
    decreases rows.len(),
{
    if rows.len() == 0 {
        assert(filtered(rows) =~= Seq::<RecordView>::empty());
    } else {
        let head = rows.drop_last();
        let last = rows.last();
        lemma_filter_exact(head);
        assert(rows =~= head.push(last));
        lemma_filtered_push(head, last);
        let pos = kept_positions(rows);
        let before = kept_positions(head);
        assert forall|i: int| 0 <= i < rows.len() implies (pos.contains(i) <==> is_canonical_name(
            #[trigger] rows[i].chrom1,
        )) by {
            if i < head.len() {
                assert(head[i] == rows[i]);
                if before.contains(i) {
                    let k = choose|k: int| 0 <= k < before.len() && before[k] == i;
                    assert(pos[k] == i);
                }
                if pos.contains(i) {
                    let k = choose|k: int| 0 <= k < pos.len() && pos[k] == i;
                    if k < before.len() {
                        assert(before[k] == i);
                    }
                }
            } else {
                if keeps(last) {
                    assert(pos[pos.len() - 1] == i);
                } else {
                    if pos.contains(i) {
                        let k = choose|k: int| 0 <= k < pos.len() && pos[k] == i;
                        assert(before[k] < head.len());
                    }
                }
            }
        }
    }
}

/// Keeps the rows whose first chromosome is canonical, in their order.
pub fn filter_canonical(table: &Table) -> (out: Table)
    ensures
        out@ == filtered(table@),
{
    let set = CanonicalSet::new();
    let mut rows: Vec<Record> = Vec::new();
    let mut i: usize = 0;
    proof {
        assert(table@.take(0) =~= Seq::<RecordView>::empty());
        assert(filtered(table@.take(0)) =~= Seq::<RecordView>::empty());
        assert(crate::record::rows_of(rows@) =~= Seq::<RecordView>::empty());
    }
    while i < table.rows.len()
        invariant
            set.wf(),
            i <= table.rows@.len(),
            crate::record::rows_of(rows@) == filtered(table@.take(i as int)),
        decreases table.rows@.len() - i,
    {
        let ghost before = crate::record::rows_of(rows@);
        proof {
            assert(table@.take(i + 1) =~= table@.take(i as int).push(table@[i as int]));
            lemma_filtered_push(table@.take(i as int), table@[i as int]);
            assert(table@[i as int] == table.rows@[i as int]@);
        }
        if set.contains(table.rows[i].chrom1.as_slice()) {
            rows.push(table.rows[i].duplicate());
            proof {
                assert(crate::record::rows_of(rows@) =~= before.push(table@[i as int]));
            }
        }
        i += 1;
    }
    proof {
        assert(table@.take(i as int) =~= table@);
    }
    Table { rows }
}

} // verus!
