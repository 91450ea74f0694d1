//! The table of a run: the tracks' columns side by side, one row per region.

use vstd::prelude::*;
use crate::column::{collect_columns, collected, column_views, TrackColumn, TrackError};
use crate::name::track_name_of;
use crate::track::{is_schedule, lemma_schedule_len};

verus! {

/// Every column is as long as the first.
pub open spec fn uniform(columns: Seq<(Seq<char>, Seq<u32>)>) -> bool {
    forall|i: int| 0 <= i < columns.len() ==> (#[trigger] columns[i]).1.len() == columns[0].1.len()
}

/// The number of rows of columns of one length: the length of the first
/// column, and 0 where there is no column.
pub open spec fn row_count(columns: Seq<(Seq<char>, Seq<u32>)>) -> nat {
    if columns.len() == 0 {
        0
    } else {
        columns[0].1.len()
    }
}

/// Columns of differing lengths: `column` is the position of the first column
/// whose length, `found`, is not that of the first column, `expected`.
#[derive(Debug, Clone, Copy, PartialEq, Eq)]
pub struct SchemaError {
    pub column: usize,
    pub expected: usize,
    pub found: usize,
}

/// `e` reports the first column of `columns` that differs in length from the
/// first.
pub open spec fn mismatch(columns: Seq<(Seq<char>, Seq<u32>)>, e: SchemaError) -> bool {
    &&& 0 < e.column < columns.len()
    &&& e.expected == columns[0].1.len()
    &&& e.found == columns[e.column as int].1.len()
    &&& e.found != e.expected
    &&& forall|j: int| 0 <= j < e.column ==> (#[trigger] columns[j]).1.len() == e.expected
}

/// No two columns have one name.
pub open spec fn distinct_names(columns: Seq<(Seq<char>, Seq<u32>)>) -> bool {
    forall|i: int, j: int|
        0 <= i < j < columns.len() ==> (#[trigger] columns[i]).0 != (#[trigger] columns[j]).0
}

/// The columns at `first` and `second` are the first pair with one name:
/// they have one name, and no two columns before `second` have.
pub open spec fn name_clash(columns: Seq<(Seq<char>, Seq<u32>)>, first: int, second: int) -> bool {
    &&& 0 <= first < second < columns.len()
    &&& columns[first].0 == columns[second].0
    &&& forall|i: int, j: int|
        0 <= i < j < second ==> (#[trigger] columns[i]).0 != (#[trigger] columns[j]).0
}

/// Why columns form no table.
#[derive(Debug, Clone, Copy, PartialEq, Eq)]
pub enum TableError {
    /// Two columns differ in length.
    Schema(SchemaError),
    /// The columns at these two positions have one name.
    DuplicateName { first: usize, second: usize },
}

/// The table owed for the columns: all of them, where they have one length
/// and no two have one name; otherwise the first column of another length,
/// and where there is none, the first pair of columns with one name.
pub open spec fn table_result(
    columns: Seq<(Seq<char>, Seq<u32>)>,
    r: Result<ResultTable, TableError>,
) -> bool {
    match r {
        Ok(table) => uniform(columns) && distinct_names(columns) && table@ == columns,
        Err(TableError::Schema(e)) => mismatch(columns, e),
        Err(TableError::DuplicateName { first, second }) => uniform(columns) && name_clash(
            columns,
            first as int,
            second as int,
        ),
    }
}

/// The regions by tracks table. Its columns stand in the order in which they
/// were handed in, each under a name of its own, and row `i` of every column
/// belongs to region `i`.
#[derive(Debug)]
pub struct ResultTable {
    columns: Vec<TrackColumn>,
}

impl View for ResultTable {
    type V = Seq<(Seq<char>, Seq<u32>)>;

    /// The columns' names and values, in order.
    closed spec fn view(&self) -> Seq<(Seq<char>, Seq<u32>)> {
        column_views(self.columns@)
    }
}

impl ResultTable {
    #[verifier::type_invariant]
    spec fn inv(&self) -> bool {
        &&& uniform(column_views(self.columns@))
        &&& distinct_names(column_views(self.columns@))
    }

    /// Builds the table from the columns, in the order given and unchanged.
    /// Fails where two columns differ in length, and where two have one name.
    pub fn assemble(columns: Vec<TrackColumn>) -> (r: Result<ResultTable, TableError>)
        ensures
            table_result(column_views(columns@), r),
    {
        let ghost views = column_views(columns@);
        if columns.len() > 0 {
            let expected = columns[0].values.len();
            let mut i: usize = 1;
            while i < columns.len()
                invariant
                    1 <= i <= columns.len(),
                    views == column_views(columns@),
                    expected == views[0].1.len(),
                    forall|j: int| 0 <= j < i ==> (#[trigger] views[j]).1.len() == expected,
                decreases columns.len() - i,
            {
                let found = columns[i].values.len();
                assert(found == views[i as int].1.len());
                if found != expected {
                    return Err(TableError::Schema(SchemaError { column: i, expected, found }));
                }
                i = i + 1;
            }
        }
        assert(uniform(views));
        let mut second: usize = 0;
        while second < columns.len()
            invariant
                second <= columns.len(),
                views == column_views(columns@),
                uniform(views),
                forall|i: int, j: int|
                    0 <= i < j < second ==> (#[trigger] views[i]).0 != (#[trigger] views[j]).0,
            decreases columns.len() - second,
        {
            let mut first: usize = 0;
            while first < second
                invariant
                    first <= second < columns.len(),
                    views == column_views(columns@),
                    uniform(views),
                    forall|i: int, j: int|
                        0 <= i < j < second ==> (#[trigger] views[i]).0 != (#[trigger] views[j]).0,
                    forall|i: int| 0 <= i < first ==> (#[trigger] views[i]).0 != views[second as int].0,
                decreases second - first,
            {
                assert(views[first as int].0 == columns[first as int].name@);
                assert(views[second as int].0 == columns[second as int].name@);
                if columns[first].name == columns[second].name {
                    return Err(TableError::DuplicateName { first, second });
                }
                first = first + 1;
            }
            second = second + 1;
        }
        Ok(ResultTable { columns })
    }

    /// The number of rows: every column holds this many values.
    pub fn n_rows(&self) -> (n: usize)
        ensures
            n == row_count(self@),
            forall|i: int| 0 <= i < self@.len() ==> (#[trigger] self@[i]).1.len() == n,
    {
        proof {
            use_type_invariant(self);
        }
        if self.columns.len() == 0 {
            0
        } else {
            self.columns[0].values.len()
        }
    }

    /// The number of columns.
    pub fn n_cols(&self) -> (n: usize)
        ensures
            n == self@.len(),
    {
        self.columns.len()
    }

    /// The column at position `col`.
    pub fn column(&self, col: usize) -> (c: &TrackColumn)
        requires
            col < self@.len(),
        ensures
            c@ == self@[col as int],
    {
        &self.columns[col]
    }

    /// The value of the track at position `col` for the region at position
    /// `row`.
    pub fn value(&self, row: usize, col: usize) -> (v: u32)
        requires
            col < self@.len(),
            row < row_count(self@),
        ensures
            v == self@[col as int].1[row as int],
    {
        proof {
            use_type_invariant(self);
        }
        let column = &self.columns[col];
        assert(column@ == self@[col as int]);
        column.values[row]
    }

    /// Gives the columns out, in order: columns of one length, each under a
    /// name of its own.
    pub fn into_columns(self) -> (columns: Vec<TrackColumn>)
        ensures
            column_views(columns@) == self@,
            uniform(self@),
            distinct_names(self@),
    {
        proof {
            use_type_invariant(&self);
        }
        self.columns
    }
}

/// Why a run over the tracks gives no table.
#[derive(Debug)]
pub enum RunError {
    /// A track gave no column.
    Track(TrackError),
    /// Two columns differ in length.
    Schema(SchemaError),
    /// The tracks at these two positions have one name.
    DuplicateName { first: usize, second: usize },
}

/// Every track gave a column.
pub open spec fn all_ok(outcomes: Seq<Result<TrackColumn, TrackError>>) -> bool {
    forall|i: int| 0 <= i < outcomes.len() ==> (#[trigger] outcomes[i]) is Ok
}

/// The columns of the tracks' outcomes, in order.
pub open spec fn outcome_columns(outcomes: Seq<Result<TrackColumn, TrackError>>) -> Seq<
    (Seq<char>, Seq<u32>),
> {
    outcomes.map_values(|o: Result<TrackColumn, TrackError>| o->Ok_0@)
}

/// The result owed for the tracks' outcomes: the table of all columns, or
/// nothing at all. A track's error comes before a column of another length,
/// and that before two columns of one name.
pub open spec fn run_result(
    outcomes: Seq<Result<TrackColumn, TrackError>>,
    r: Result<ResultTable, RunError>,
) -> bool {
    match r {
        Ok(table) => {
            &&& all_ok(outcomes)
            &&& uniform(outcome_columns(outcomes))
            &&& distinct_names(outcome_columns(outcomes))
            &&& table@ == outcome_columns(outcomes)
        },
        Err(RunError::Track(e)) => collected(outcomes, Err(e)),
        Err(RunError::Schema(e)) => all_ok(outcomes) && mismatch(outcome_columns(outcomes), e),
        Err(RunError::DuplicateName { first, second }) => {
            &&& all_ok(outcomes)
            &&& uniform(outcome_columns(outcomes))
            &&& name_clash(outcome_columns(outcomes), first as int, second as int)
        },
    }
}

/// Ends a run: the table of the tracks' columns, in the order of the
/// outcomes, where every track gave a column; the first track's error where
/// one did not, whatever the other tracks gave. Tracks whose columns differ
/// in length, or two of which have one name, give no table either.
pub fn assemble_outcomes(outcomes: Vec<Result<TrackColumn, TrackError>>) -> (r: Result<
    ResultTable,
    RunError,
>)
    ensures
        run_result(outcomes@, r),
{
    match collect_columns(outcomes) {
        Ok(columns) => {
            assert(column_views(columns@) =~= outcome_columns(outcomes@));
            match ResultTable::assemble(columns) {
                Ok(table) => Ok(table),
                Err(TableError::Schema(e)) => Err(RunError::Schema(e)),
                Err(TableError::DuplicateName { first, second }) => Err(
                    RunError::DuplicateName { first, second },
                ),
            }
        },
        Err(e) => Err(RunError::Track(e)),
    }
}

/// The shape of a run's table. Where the tracks of `paths` are processed in
/// the order `order`, no two of them have one name, and each gives the
/// column of its name with a value for every one of `regions` regions, the
/// run gives a table with `regions` rows and as many columns as `paths` holds
/// distinct paths.
pub proof fn lemma_table_shape(
    regions: nat,
    paths: Seq<Seq<char>>,
    order: Seq<Seq<char>>,
    outcomes: Seq<Result<TrackColumn, TrackError>>,
    r: Result<ResultTable, RunError>,
)
    requires
        paths.len() > 0,
        is_schedule(order, paths),
        forall|i: int, j: int|
            0 <= i < j < order.len() ==> track_name_of(#[trigger] order[i]) != track_name_of(
                #[trigger] order[j],
            ),
        outcomes.len() == order.len(),
        forall|i: int|
            0 <= i < outcomes.len() ==> ((#[trigger] outcomes[i]) matches Ok(column)
                && column.values.len() == regions && Some(column.name@) == track_name_of(
                order[i],
            )),
        run_result(outcomes, r),
    ensures
        (r matches Ok(table) && row_count(table@) == regions && table@.len()
            == paths.to_set().len()),
{
    lemma_schedule_len(order, paths);
    assert(paths.contains(paths[0]));
    assert(order.contains(paths[0]));
    let columns = outcome_columns(outcomes);
    assert(outcomes[0] is Ok);
    assert(columns[0].1.len() == regions);
    match r {
        Ok(table) => {},
        Err(RunError::Track(e)) => {
            let k = first_error(outcomes, e);
            assert(outcomes[k] is Ok);
        },
        Err(RunError::Schema(e)) => {
            assert(outcomes[e.column as int] is Ok);
            assert(columns[e.column as int].1.len() == regions);
        },
        Err(RunError::DuplicateName { first, second }) => {
            assert(outcomes[first as int] is Ok);
            assert(outcomes[second as int] is Ok);
            assert(Some(columns[first as int].0) == track_name_of(order[first as int]));
            assert(Some(columns[second as int].0) == track_name_of(order[second as int]));
        },
    }
}

/// A run has one result. Whatever is owed for the same outcomes is the same
/// table or the same error, so a run that meets the same outcomes again ends
/// as it did before.
pub proof fn lemma_run_result_unique(
    outcomes: Seq<Result<TrackColumn, TrackError>>,
    r1: Result<ResultTable, RunError>,
    r2: Result<ResultTable, RunError>,
)
    requires
        run_result(outcomes, r1),
        run_result(outcomes, r2),
    ensures
        match (r1, r2) {
            (Ok(t1), Ok(t2)) => t1@ == t2@,
            (Err(e1), Err(e2)) => e1 == e2,
            _ => false,
        },
{
    let columns = outcome_columns(outcomes);
    if let Err(RunError::Track(e)) = r1 {
        let k = first_error(outcomes, e);
        assert(!all_ok(outcomes));
        if let Err(RunError::Track(f)) = r2 {
            let m = first_error(outcomes, f);
            assert(k == m);
        }
    } else if let Err(RunError::Track(f)) = r2 {
        let m = first_error(outcomes, f);
        assert(!all_ok(outcomes));
    } else if let Err(RunError::Schema(e)) = r1 {
        assert(columns[e.column as int].1.len() != columns[0].1.len());
        if let Err(RunError::Schema(f)) = r2 {
            assert(columns[f.column as int].1.len() != columns[0].1.len());
            assert(e.column == f.column);
        }
    } else if let Err(RunError::Schema(f)) = r2 {
        assert(columns[f.column as int].1.len() != columns[0].1.len());
    } else if let Err(RunError::DuplicateName { first, second }) = r1 {
        assert(columns[first as int].0 == columns[second as int].0);
        if let Err(RunError::DuplicateName { first: first2, second: second2 }) = r2 {
            lemma_name_clash_unique(
                columns,
                first as int,
                second as int,
                first2 as int,
                second2 as int,
            );
        }
    } else if let Err(RunError::DuplicateName { first, second }) = r2 {
        assert(columns[first as int].0 == columns[second as int].0);
    }
}

/// Columns have one first pair with one name.
pub proof fn lemma_name_clash_unique(
    columns: Seq<(Seq<char>, Seq<u32>)>,
    first1: int,
    second1: int,
    first2: int,
    second2: int,
)
    requires
        name_clash(columns, first1, second1),
        name_clash(columns, first2, second2),
    ensures
        first1 == first2,
        second1 == second2,
{
    assert(columns[first1].0 == columns[second1].0);
    assert(columns[first2].0 == columns[second2].0);
    if second1 == second2 {
        if first1 < first2 {
            assert(columns[first1].0 != columns[first2].0);
        } else if first2 < first1 {
            assert(columns[first2].0 != columns[first1].0);
        }
    }
}

/// The position of the error that is reported for the outcomes.
proof fn first_error(outcomes: Seq<Result<TrackColumn, TrackError>>, e: TrackError) -> (k: int)
    requires
        collected(outcomes, Err(e)),
    ensures
        0 <= k < outcomes.len(),
        outcomes[k] == Err::<TrackColumn, TrackError>(e),
        forall|j: int| 0 <= j < k ==> (#[trigger] outcomes[j]) is Ok,
{
    choose|k: int|
        {
            &&& 0 <= k < outcomes.len()
            &&& #[trigger] outcomes[k] == Err::<TrackColumn, TrackError>(e)
            &&& forall|j: int| 0 <= j < k ==> (#[trigger] outcomes[j]) is Ok
        }
}

} // verus!
