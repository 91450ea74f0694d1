//! Columns: one track's value for every region, filled in region order, and
//! the collection of the tracks' outcomes.
//!
//! A value is the 32-bit word of a single-precision mean. The library stores
//! and orders the words and never computes with them.

use vstd::prelude::*;
use crate::name::{track_name, track_name_of};

verus! {

/// One track's column of the table: the track's name, and a value for each
/// region, in region order.
#[derive(Debug, Clone, PartialEq, Eq)]
pub struct TrackColumn {
    pub name: String,
    pub values: Vec<u32>,
}

impl View for TrackColumn {
    type V = (Seq<char>, Seq<u32>);

    /// Name and values.
    open spec fn view(&self) -> (Seq<char>, Seq<u32>) {
        (self.name@, self.values@)
    }
}

/// The names and values of a sequence of columns, in order.
pub open spec fn column_views(columns: Seq<TrackColumn>) -> Seq<(Seq<char>, Seq<u32>)> {
    columns.map_values(|c: TrackColumn| c@)
}

/// Why a track gives no column.
#[derive(Debug, Clone, PartialEq, Eq)]
pub enum TrackError {
    /// The path has no file name to take the track's name from.
    Unnamed { path: String },
    /// The track's file could not be opened or is not a track.
    Open { path: String, message: String },
    /// The track has no values for the region at this position.
    Query { path: String, region: usize, message: String },
}

/// A column in the making. The caller asks which region is next, queries the
/// track for it, and hands in the mean; after the last region the column is
/// taken out.
pub struct ColumnBuilder {
    path: String,
    name: String,
    rows: usize,
    values: Vec<u32>,
}

impl ColumnBuilder {
    #[verifier::type_invariant]
    spec fn inv(&self) -> bool {
        &&& self.values.len() <= self.rows
        &&& track_name_of(self.path@) == Some(self.name@)
    }

    /// The track's path.
    pub closed spec fn path(&self) -> Seq<char> {
        self.path@
    }

    /// The number of regions, which is the length of the finished column.
    pub closed spec fn rows(&self) -> nat {
        self.rows as nat
    }

    /// The values handed in so far, in region order.
    pub closed spec fn filled(&self) -> Seq<u32> {
        self.values@
    }

    /// Starts the column of the track at `path` for a set of `rows` regions.
    /// Fails where the path has no file name.
    pub fn start(path: &str, rows: usize) -> (r: Result<ColumnBuilder, TrackError>)
        ensures
            match r {
                Ok(b) => {
                    &&& track_name_of(path@) is Some
                    &&& b.path() == path@
                    &&& b.rows() == rows
                    &&& b.filled() == Seq::<u32>::empty()
                },
                Err(e) => {
                    &&& track_name_of(path@) is None
                    &&& e matches TrackError::Unnamed { path: p }
                    &&& p@ == path@
                },
            },
    {
        match track_name(path) {
            Some(name) => Ok(
                ColumnBuilder { path: path.to_owned(), name, rows, values: Vec::new() },
            ),
            None => Err(TrackError::Unnamed { path: path.to_owned() }),
        }
    }

    /// The position of the region whose value is due next, or `None` once
    /// every region has its value.
    pub fn next_region(&self) -> (next: Option<usize>)
        ensures
            next == if self.filled().len() < self.rows() {
                Some(self.filled().len() as usize)
            } else {
                None
            },
    {
        if self.values.len() < self.rows {
            Some(self.values.len())
        } else {
            None
        }
    }

    /// The builder after the value of the region that is due has come in.
    pub fn push(self, mean: u32) -> (next: ColumnBuilder)
        requires
            self.filled().len() < self.rows(),
        ensures
            next.filled() == self.filled().push(mean),
            next.rows() == self.rows(),
            next.path() == self.path(),
    {
        proof {
            use_type_invariant(&self);
        }
        let mut values = self.values;
        values.push(mean);
        ColumnBuilder { path: self.path, name: self.name, rows: self.rows, values }
    }

    /// The error of a track whose query for the region that is due failed.
    pub fn fail(self, message: String) -> (e: TrackError)
        ensures
            e matches TrackError::Query { path: p, region, message: m } && p@ == self.path()
                && region == self.filled().len() && m == message,
    {
        let region = self.values.len();
        TrackError::Query { path: self.path, region, message }
    }

    /// The finished column, named after the track's file, or `None` while
    /// regions are still due.
    pub fn finish(self) -> (c: Option<TrackColumn>)
        ensures
            match c {
                Some(col) => {
                    &&& self.filled().len() == self.rows()
                    &&& Some(col.name@) == track_name_of(self.path())
                    &&& col.values@ == self.filled()
                },
                None => self.filled().len() < self.rows(),
            },
    {
        proof {
            use_type_invariant(&self);
        }
        if self.values.len() == self.rows {
            Some(TrackColumn { name: self.name, values: self.values })
        } else {
            None
        }
    }
}

/// The outcome of a run over several tracks: every track's column, or the
/// error of the first track that failed.
pub open spec fn collected(
    outcomes: Seq<Result<TrackColumn, TrackError>>,
    r: Result<Vec<TrackColumn>, TrackError>,
) -> bool {
    match r {
        Ok(columns) => {
            &&& columns.len() == outcomes.len()
            &&& forall|i: int| 0 <= i < outcomes.len() ==> #[trigger] outcomes[i] == Ok::<TrackColumn, TrackError>(columns[i])
        },
        Err(e) => exists|k: int|
            {
                &&& 0 <= k < outcomes.len()
                &&& #[trigger] outcomes[k] == Err::<TrackColumn, TrackError>(e)
                &&& forall|j: int| 0 <= j < k ==> (#[trigger] outcomes[j]) is Ok
            },
    }
}

/// Collects the tracks' outcomes, in the order given: all columns where every
/// track succeeded, and otherwise the first error, whatever the other tracks
/// gave.
pub fn collect_columns(outcomes: Vec<Result<TrackColumn, TrackError>>) -> (r: Result<
    Vec<TrackColumn>,
    TrackError,
>)
    ensures
        collected(outcomes@, r),
{
    let mut columns: Vec<TrackColumn> = Vec::new();
    for outcome in it: outcomes
        invariant
            it.seq() == outcomes@,
            columns.len() == it.index(),
            forall|i: int| 0 <= i < it.index() ==> #[trigger] outcomes[i] == Ok::<TrackColumn, TrackError>(columns[i]),
    {
        match outcome {
            Ok(column) => {
                columns.push(column);
            },
            Err(e) => {
                assert(outcomes[it.index() as int] == Err::<TrackColumn, TrackError>(e));
                return Err(e);
            },
        }
    }
    Ok(columns)
}

} // verus!
