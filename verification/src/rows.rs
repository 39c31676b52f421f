//! Sparse rows whose columns stand in no particular order.

use ahash::AHashMap;
use vstd::prelude::*;

use crate::csr::{lays_out, lemma_lays_out_push, stored_columns, CsrParts};
use crate::scalar::Scalar;
use crate::tables::{column_counts, columns_items, lists_entries};
use crate::weights::is_weighted_row;

verus! {

/// What the tables of all documents hold.
pub open spec fn column_tables(per_doc: Seq<AHashMap<usize, u32>>) -> Seq<Map<usize, u32>> {
    Seq::new(per_doc.len(), |i: int| column_counts(per_doc[i]))
}

/// One sparse row: the columns of a table, each once, and their normalised weights.
pub open spec fn is_row<T: Scalar>(
    table: Map<usize, u32>,
    idf: Seq<T>,
    columns: Seq<i32>,
    values: Seq<T>,
) -> bool {
    exists|items: Seq<(usize, u32)>|
        lists_entries(items, table) && columns == stored_columns(items)
            && #[trigger] is_weighted_row(idf, items, values)
}

/// The three arrays hold one row for each table.
pub open spec fn holds_rows<T: Scalar>(
    tables: Seq<Map<usize, u32>>,
    idf: Seq<T>,
    data: Seq<T>,
    indices: Seq<i32>,
    indptr: Seq<i64>,
) -> bool {
    exists|columns: Seq<Seq<i32>>, values: Seq<Seq<T>>|
        #![trigger lays_out(data, indices, indptr, columns, values)]
        {
            &&& lays_out(data, indices, indptr, columns, values)
            &&& columns.len() == tables.len()
            &&& forall|i: int|
                0 <= i < tables.len() ==> is_row(#[trigger] tables[i], idf, columns[i], values[i])
        }
}

/// Turns every table into a sparse row.
pub fn weigh_tables<T: Scalar>(per_doc: &[AHashMap<usize, u32>], idf: &[T]) -> (parts: CsrParts<T>)
    ensures
        holds_rows(
            column_tables(per_doc@),
            idf@,
            parts.data@,
            parts.indices@,
            parts.indptr@,
        ),
{
    let ghost tables = column_tables(per_doc@);
    let mut parts: CsrParts<T> = CsrParts::new();
    let ghost mut columns: Seq<Seq<i32>> = Seq::empty();
    let ghost mut values: Seq<Seq<T>> = Seq::empty();
    let mut i: usize = 0;
    while i < per_doc.len()
        invariant
            i <= per_doc@.len(),
            tables == column_tables(per_doc@),
            columns.len() == i,
            parts.holds(columns, values),
            forall|l: int|
                0 <= l < i ==> is_row(#[trigger] tables[l], idf@, columns[l], values[l]),
        decreases per_doc@.len() - i,
    {
        let items: Vec<(usize, u32)> = columns_items(&per_doc[i]);
        let ghost before = parts;
        parts.push_row(items.as_slice(), idf);
        proof {
            let row = choose|row: Seq<T>|
                #![trigger is_weighted_row(idf@, items@, row)]
                {
                    &&& is_weighted_row(idf@, items@, row)
                    &&& row.len() == items@.len()
                    &&& parts.data@ == before.data@ + row
                };
            lemma_lays_out_push(
                before.data@,
                before.indices@,
                before.indptr@,
                columns,
                values,
                stored_columns(items@),
                row,
            );
            let columns0 = columns;
            let values0 = values;
            columns = columns.push(stored_columns(items@));
            values = values.push(row);
            assert(lists_entries(items@, tables[i as int]));
            assert forall|l: int| 0 <= l < i + 1 implies is_row(
                #[trigger] tables[l],
                idf@,
                columns[l],
                values[l],
            ) by {
                if l < i {
                    assert(columns[l] == columns0[l] && values[l] == values0[l]);
                }
            }
        }
        i += 1;
    }
    parts
}

} // verus!
