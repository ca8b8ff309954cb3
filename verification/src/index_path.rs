//! Positions of rows in sectioned, optionally columned lists.

use vstd::prelude::*;

use crate::text::{decimal, push_decimal, push_str_chars};

verus! {

/// The position of a row: its section, its row within the section, and a column.
#[derive(Debug, Clone, Copy, PartialEq, Eq, Structural, Hash)]
pub struct IndexPath {
    pub section: usize,
    pub row: usize,
    pub column: usize,
}

impl Default for IndexPath {
    fn default() -> (r: IndexPath)
        ensures
            r == (IndexPath { section: 0, row: 0, column: 0 }),
    {
        IndexPath { section: 0, row: 0, column: 0 }
    }
}

/// The display form of an index path.
pub open spec fn index_path_text(p: IndexPath) -> Seq<char> {
    "IndexPath(section: "@ + decimal(p.section as nat) + ", row: "@ + decimal(p.row as nat)
        + ", column: "@ + decimal(p.column as nat) + ")"@
}

/// The element identifier text of an index path.
pub open spec fn index_path_id_text(p: IndexPath) -> Seq<char> {
    "moon-index-path("@ + decimal(p.section as nat) + ","@ + decimal(p.row as nat) + ","@
        + decimal(p.column as nat) + ")"@
}

impl IndexPath {
    /// The path of `row` in the first section and column.
    pub fn new(row: usize) -> (r: IndexPath)
        ensures
            r == (IndexPath { section: 0, row, column: 0 }),
    {
        IndexPath { section: 0, row, column: 0 }
    }

    /// This path moved to another section.
    pub fn section(self, section: usize) -> (r: IndexPath)
        ensures
            r == (IndexPath { section, ..self }),
    {
        let mut p = self;
        p.section = section;
        p
    }

    /// This path moved to another row.
    pub fn row(self, row: usize) -> (r: IndexPath)
        ensures
            r == (IndexPath { row, ..self }),
    {
        let mut p = self;
        p.row = row;
        p
    }

    /// This path moved to another column.
    pub fn column(self, column: usize) -> (r: IndexPath)
        ensures
            r == (IndexPath { column, ..self }),
    {
        let mut p = self;
        p.column = column;
        p
    }

    /// Whether two paths name the same row, whatever their columns.
    pub fn eq_row(self, index: IndexPath) -> (r: bool)
        ensures
            r == (self.section == index.section && self.row == index.row),
    {
        self.section == index.section && self.row == index.row
    }

    /// `IndexPath(section: S, row: R, column: C)`, each number in decimal.
    pub fn to_display_string(&self) -> (r: String)
        ensures
            r@ == index_path_text(*self),
    {
        let mut s = String::new();
        push_str_chars(&mut s, "IndexPath(section: ");
        push_decimal(&mut s, self.section);
        push_str_chars(&mut s, ", row: ");
        push_decimal(&mut s, self.row);
        push_str_chars(&mut s, ", column: ");
        push_decimal(&mut s, self.column);
        push_str_chars(&mut s, ")");
        s
    }

    /// `moon-index-path(S,R,C)`: the text of the element identifier of this path.
    pub fn element_id_text(&self) -> (r: String)
        ensures
            r@ == index_path_id_text(*self),
    {
        let mut s = String::new();
        push_str_chars(&mut s, "moon-index-path(");
        push_decimal(&mut s, self.section);
        push_str_chars(&mut s, ",");
        push_decimal(&mut s, self.row);
        push_str_chars(&mut s, ",");
        push_decimal(&mut s, self.column);
        push_str_chars(&mut s, ")");
        s
    }
}

} // verus!
