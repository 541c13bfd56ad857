//! The tabular dataset as an abstract grid: a sequence of rows, row 1 (index
//! 0) reserved for header labels. Only the row order and the cell values the
//! merge reads are modeled; presentation (labels, styling, file format) lives
//! outside the library.

use vstd::prelude::*;

use crate::time::Timestamp;

verus! {

/// The mathematical value of a data row's cells.
pub struct RowDataV {
    pub date: Option<Timestamp>,
    pub summary: Seq<char>,
    pub description: Seq<char>,
    pub duration: Option<i64>,
    pub id: Seq<char>,
    pub link: Option<Seq<char>>,
    pub reference: Option<Seq<char>>,
}

/// The mathematical value of a [`Row`].
pub enum RowV {
    Header,
    Data(RowDataV),
}

/// The cells of one data row. A date cell that does not hold a date value is
/// `None`; an empty identifier cell is the empty string.
pub struct RowData {
    /// Date cell, when it holds a date value.
    pub date: Option<Timestamp>,
    /// Summary cell text.
    pub summary: String,
    /// Description cell text.
    pub description: String,
    /// Duration cell, when it holds a number (minutes).
    pub duration: Option<i64>,
    /// Commit identifier cell text.
    pub id: String,
    /// Hyperlink decoration on the identifier cell, if any.
    pub link: Option<String>,
    /// Reference cell text, if any.
    pub reference: Option<String>,
}

/// One grid row: either the header row (labels only) or a data row.
pub enum Row {
    Header,
    Data(RowData),
}

impl View for RowData {
    type V = RowDataV;

    open spec fn view(&self) -> RowDataV {
        RowDataV {
            date: self.date,
            summary: self.summary@,
            description: self.description@,
            duration: self.duration,
            id: self.id@,
            link: match self.link {
                Some(u) => Some(u@),
                None => None,
            },
            reference: match self.reference {
                Some(r) => Some(r@),
                None => None,
            },
        }
    }
}

impl View for Row {
    type V = RowV;

    open spec fn view(&self) -> RowV {
        match self {
            Row::Header => RowV::Header,
            Row::Data(d) => RowV::Data(d@),
        }
    }
}

/// The grid: rows contiguous from 1 to the highest row, kept here 0-indexed.
pub struct Grid {
    /// The rows, in order; index 0 is grid row 1.
    pub rows: Vec<Row>,
}

impl View for Grid {
    type V = Seq<RowV>;

    open spec fn view(&self) -> Seq<RowV> {
        self.rows@.map_values(|r: Row| r@)
    }
}

impl Grid {
    /// An empty grid, as used for a dataset file that does not exist yet.
    pub fn new() -> (g: Grid)
        ensures
            g@ == Seq::<RowV>::empty(),
    {
        let g = Grid { rows: Vec::new() };
        proof {
            assert(g@ =~= Seq::<RowV>::empty());
        }
        g
    }

    /// The highest row index of the 1-indexed grid.
    pub fn highest_row(&self) -> (n: usize)
        ensures
            n == self@.len(),
    {
        self.rows.len()
    }
}

/// A row is a valid merge anchor when its date cell holds a date and its
/// identifier cell is non-empty.
pub open spec fn anchor(r: RowV) -> bool {
    &&& r is Data
    &&& r->Data_0.date is Some
    &&& r->Data_0.id.len() > 0
}

/// The date of an anchor row.
pub open spec fn anchor_date(r: RowV) -> Timestamp
    recommends
        anchor(r),
{
    r->Data_0.date->0
}

} // verus!
