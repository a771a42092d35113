//! The table of favourite anchoring points.

use vstd::prelude::*;

use crate::float::F32;
use crate::protocol::{AnchorPoint, Position};

verus! {

/// A row of the table.
#[derive(Debug)]
pub struct AnchorRow {
    pub name: String,
    pub x: F32,
    pub y: F32,
    pub note: Option<String>,
}

/// A note; an empty one counts as none.
pub open spec fn real_note(note: Option<String>) -> Option<String> {
    match note {
        Some(s) => if s@.len() == 0 {
            None
        } else {
            Some(s)
        },
        None => None,
    }
}

/// The anchor point of a row, whose id is the number of the row.
pub open spec fn point_of(i: int, row: AnchorRow) -> AnchorPoint {
    AnchorPoint {
        id: (i % 0x1_0000_0000) as u32,
        name: row.name,
        position: Position { x: row.x, y: row.y },
        note: real_note(row.note),
    }
}

/// The anchor points of those of the first rows that could be read.
pub open spec fn readable_points(rows: Seq<Option<AnchorRow>>, n: int) -> Seq<AnchorPoint>
    decreases n,
{
    if n <= 0 {
        Seq::empty()
    } else {
        let rest = readable_points(rows, n - 1);
        match rows[n - 1] {
            Some(row) => rest.push(point_of(n - 1, row)),
            None => rest,
        }
    }
}

/// Whether the first rows could be read.
pub open spec fn all_readable(rows: Seq<Option<AnchorRow>>, n: int) -> bool {
    forall|i: int| 0 <= i < n ==> #[trigger] rows[i] is Some
}

/// The anchor point of a row.
fn to_point(i: usize, row: AnchorRow) -> (r: AnchorPoint)
    ensures
        r == point_of(i as int, row),
{
    let note: Option<String> = match row.note {
        Some(s) => if s.as_str().is_empty() {
            None
        } else {
            Some(s)
        },
        None => None,
    };
    AnchorPoint {
        id: (i as u64 % 0x1_0000_0000) as u32,
        name: row.name,
        position: Position { x: row.x, y: row.y },
        note,
    }
}

/// The anchor points of a table, with ids by the order of the rows; the number of the first row
/// that could not be read, counted from one, if there is any.
pub fn read_anchorings(rows: Vec<Option<AnchorRow>>) -> (r: Result<Vec<AnchorPoint>, usize>)
    ensures
        match r {
            Ok(points) => all_readable(rows@, rows@.len() as int) && points@ == readable_points(
                rows@,
                rows@.len() as int,
            ),
            Err(k) => 1 <= k <= rows@.len() && rows@[k - 1] is None && all_readable(
                rows@,
                k - 1,
            ),
        },
{
    let ghost all = rows@;
    let n: usize = rows.len();
    let mut points: Vec<AnchorPoint> = Vec::new();
    let mut i: usize = 0;
    for row in it: rows
        invariant
            it.seq() == all,
            n == all.len(),
            i == it.index(),
            all_readable(all, i as int),
            points@ == readable_points(all, i as int),
    {
        match row {
            Some(row) => {
                points.push(to_point(i, row));
            },
            None => {
                return Err(i + 1);
            },
        }
        i = i + 1;
    }
    Ok(points)
}

/// The file with the table of anchoring points, as it was found.
#[derive(Debug)]
pub enum TableFile {
    /// There is no such file.
    Missing,
    /// The file is there and cannot be opened.
    Locked,
    /// What the rows of the file are read as; nothing for a row that could not be read.
    Rows(Vec<Option<AnchorRow>>),
}

/// What can be wrong with the file.
#[derive(Debug, Clone, Copy, PartialEq, Eq, Structural)]
pub enum TableError {
    /// It cannot be opened.
    Locked,
    /// The row with this number, counted from one, cannot be read.
    BadRow(usize),
}

/// The anchor points of a file. That it is missing is no error; that it cannot be opened, or that a
/// row of it cannot be read, is one.
pub fn load_anchorings(file: TableFile) -> (r: Result<Vec<AnchorPoint>, TableError>)
    ensures
        match file {
            TableFile::Missing => r matches Ok(points) && points@.len() == 0,
            TableFile::Locked => r == Err::<Vec<AnchorPoint>, TableError>(TableError::Locked),
            TableFile::Rows(rows) => match r {
                Ok(points) => all_readable(rows@, rows@.len() as int) && points@
                    == readable_points(rows@, rows@.len() as int),
                Err(TableError::BadRow(k)) => 1 <= k <= rows@.len() && rows@[k - 1] is None
                    && all_readable(rows@, k - 1),
                Err(TableError::Locked) => false,
            },
        },
{
    match file {
        TableFile::Missing => Ok(Vec::new()),
        TableFile::Locked => Err(TableError::Locked),
        TableFile::Rows(rows) => match read_anchorings(rows) {
            Ok(points) => Ok(points),
            Err(k) => Err(TableError::BadRow(k)),
        },
    }
}

/// The anchor points of a table. Rows that could not be read are left out, and the ids of the
/// others do not change.
pub fn load_anchor_points(rows: Vec<Option<AnchorRow>>) -> (points: Vec<AnchorPoint>)
    ensures
        points@ == readable_points(rows@, rows@.len() as int),
{
    let ghost all = rows@;
    let n: usize = rows.len();
    let mut points: Vec<AnchorPoint> = Vec::new();
    let mut i: usize = 0;
    for row in it: rows
        invariant
            it.seq() == all,
            n == all.len(),
            i == it.index(),
            points@ == readable_points(all, i as int),
    {
        if let Some(row) = row {
            points.push(to_point(i, row));
        }
        i = i + 1;
    }
    points
}

/// Where all rows could be read, the ids count the points from zero.
pub proof fn lemma_sequential_ids(rows: Seq<Option<AnchorRow>>, n: int, i: int)
    requires
        0 <= i < n <= rows.len(),
        all_readable(rows, n),
    ensures
        readable_points(rows, n).len() == n,
        readable_points(rows, n)[i].id == (i % 0x1_0000_0000) as u32,
        readable_points(rows, n)[i] == point_of(i, rows[i]->0),
    decreases n,
{
    lemma_all_points(rows, n);
    lemma_all_points(rows, n - 1);
    assert(rows[n - 1] is Some);
    if i < n - 1 {
        lemma_sequential_ids(rows, n - 1, i);
    }
}

/// Where all rows could be read, each gives a point.
proof fn lemma_all_points(rows: Seq<Option<AnchorRow>>, n: int)
    requires
        0 <= n <= rows.len(),
        all_readable(rows, n),
    ensures
        readable_points(rows, n).len() == n,
    decreases n,
{
    if n > 0 {
        assert(rows[n - 1] is Some);
        lemma_all_points(rows, n - 1);
    }
}

/// No anchor point has an empty note.
pub proof fn lemma_no_empty_notes(rows: Seq<Option<AnchorRow>>, n: int, i: int)
    requires
        0 <= i < readable_points(rows, n).len(),
    ensures
        readable_points(rows, n)[i].note matches Some(s) ==> s@.len() > 0,
    decreases n,
{
    if n > 0 {
        if i < readable_points(rows, n - 1).len() {
            lemma_no_empty_notes(rows, n - 1, i);
        }
    }
}

} // verus!
