//! Column-major storage of boolean cells.
use vstd::prelude::*;

verus! {

/// The storage of a grid as a sequence of columns.
pub open spec fn columns_of(cells: Seq<Vec<bool>>) -> Seq<Seq<bool>> {
    cells.map_values(|column: Vec<bool>| column@)
}

/// The length of the column sequence is the number of stored columns.
pub broadcast proof fn lemma_columns_len(cells: Seq<Vec<bool>>)
    ensures
        #[trigger] columns_of(cells).len() == cells.len(),
{
}

/// Each column of the sequence is the view of the stored column.
pub broadcast proof fn lemma_column_at(cells: Seq<Vec<bool>>, x: int)
    requires
        0 <= x < cells.len(),
    ensures
        #![trigger cells[x]]
        #![trigger columns_of(cells)[x]]
        columns_of(cells)[x] == cells[x]@,
{
}

/// `columns` holds `width` columns of `height` cells each.
pub open spec fn shaped(columns: Seq<Seq<bool>>, width: int, height: int) -> bool {
    &&& columns.len() == width
    &&& forall|x: int| 0 <= x < width ==> #[trigger] columns[x].len() == height
}

/// Build `width` columns of `height` unpainted cells.
pub(crate) fn blank_columns(width: usize, height: usize) -> (columns: Vec<Vec<bool>>)
    ensures
        shaped(columns_of(columns@), width as int, height as int),
        forall|x: int, y: int|
            0 <= x < width && 0 <= y < height ==> !#[trigger] columns_of(columns@)[x][y],
{
    let mut columns: Vec<Vec<bool>> = Vec::new();
    let mut x: usize = 0;
    while x < width
        invariant
            x <= width,
            shaped(columns_of(columns@), x as int, height as int),
            forall|cx: int, cy: int|
                0 <= cx < x && 0 <= cy < height ==> !#[trigger] columns_of(columns@)[cx][cy],
        decreases width - x,
    {
        let mut column: Vec<bool> = Vec::new();
        let mut y: usize = 0;
        while y < height
            invariant
                y <= height,
                column@.len() == y,
                forall|cy: int| 0 <= cy < y ==> !#[trigger] column@[cy],
            decreases height - y,
        {
            column.push(false);
            y = y + 1;
        }
        let ghost before = columns@;
        columns.push(column);
        proof {
            lemma_columns_len(columns@);
            lemma_columns_len(before);
            assert(columns_of(columns@) =~= columns_of(before).push(column@)) by {
                assert forall|cx: int| 0 <= cx < columns@.len() implies #[trigger] columns_of(
                    columns@,
                )[cx] == columns_of(before).push(column@)[cx] by {
                    lemma_column_at(columns@, cx);
                    if cx < before.len() {
                        lemma_column_at(before, cx);
                    }
                }
            }
        }
        x = x + 1;
    }
    columns
}

/// Store `value` at `[x][y]`.
pub(crate) fn set_cell(columns: &mut Vec<Vec<bool>>, x: usize, y: usize, value: bool)
    requires
        x < old(columns)@.len(),
        y < old(columns)@[x as int]@.len(),
    ensures
        columns_of(final(columns)@) == columns_of(old(columns)@).update(
            x as int,
            columns_of(old(columns)@)[x as int].update(y as int, value),
        ),
        final(columns)@.len() == old(columns)@.len(),
        forall|i: int|
            0 <= i < old(columns)@.len() ==> #[trigger] final(columns)@[i]@.len() == old(
                columns,
            )@[i]@.len(),
{
    columns[x].set(y, value);
    proof {
        lemma_columns_len(columns@);
        lemma_columns_len(old(columns)@);
        assert forall|i: int| 0 <= i < columns@.len() implies #[trigger] columns_of(columns@)[i]
            == columns@[i]@ && columns_of(old(columns)@)[i] == old(columns)@[i]@ by {
            lemma_column_at(columns@, i);
            lemma_column_at(old(columns)@, i);
        }
        assert(columns_of(columns@) =~= columns_of(old(columns)@).update(
            x as int,
            columns_of(old(columns)@)[x as int].update(y as int, value),
        ));
    }
}

} // verus!
