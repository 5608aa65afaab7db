//! Regions of the source: where macro invocations and statements lie.
//!
//! Nothing inside a macro invocation is part of the syntax tree, so no
//! statement or expression is ever reported from there: what a macro is
//! given is left as it is.

use vstd::prelude::*;
use crate::lex::Spanned;

verus! {

/// Where a position lies with respect to a region.
#[derive(Debug, PartialEq, Eq, Clone, Copy, Structural)]
pub enum RelativePosition {
    Before,
    Within,
    After,
}

/// A region of source code between two pairs of line and column. The first
/// column is the one at which the first token of the region starts, the
/// last column the one at which its last token ends.
#[derive(Debug, PartialEq, Eq)]
pub struct Region {
    line_start: usize,
    col_start: usize,
    line_end: usize,
    col_end: usize,
}

/// The model of a region.
pub struct Bounds {
    pub line_start: nat,
    pub col_start: nat,
    pub line_end: nat,
    pub col_end: nat,
}

impl Bounds {
    /// Where a token that starts at `line` and `col` lies. On the first
    /// line of the region the token is within it from the first column on;
    /// on the last line up to the last column. Between the two, the lines
    /// before the line that precedes the last one are within it.
    pub open spec fn position(self, line: nat, col: nat) -> RelativePosition {
        if line < self.line_start {
            RelativePosition::Before
        } else if line == self.line_start {
            if col < self.col_start {
                RelativePosition::Before
            } else {
                RelativePosition::Within
            }
        } else if line + 1 < self.line_end {
            RelativePosition::Within
        } else if line == self.line_end {
            if col <= self.col_end {
                RelativePosition::Within
            } else {
                RelativePosition::After
            }
        } else {
            RelativePosition::After
        }
    }
}

impl View for Region {
    type V = Bounds;

    closed spec fn view(&self) -> Bounds {
        Bounds {
            line_start: self.line_start as nat,
            col_start: self.col_start as nat,
            line_end: self.line_end as nat,
            col_end: self.col_end as nat,
        }
    }
}

impl Region {
    /// The region of a span that starts and ends at the given lines and
    /// columns. A span counts its columns from 0 and gives as its start the
    /// column before the first token.
    pub fn new(line_start: usize, column_start: usize, line_end: usize, column_end: usize) -> (region:
        Self)
        requires
            column_start < usize::MAX,
        ensures
            region@ == (Bounds {
                line_start: line_start as nat,
                col_start: column_start as nat + 1,
                line_end: line_end as nat,
                col_end: column_end as nat,
            }),
    {
        Self { line_start, col_start: column_start + 1, line_end, col_end: column_end }
    }

    /// Checks whether the region holds a token that starts at the position
    /// of `spanned`.
    ///
    /// The line that precedes the last line of a region of three lines or
    /// more is not classified.
    pub fn contains<T>(&self, spanned: &Spanned<T>) -> (position: RelativePosition)
        requires
            !(self@.line_start < spanned.line && spanned.line + 1 == self@.line_end),
        ensures
            position == self@.position(spanned.line as nat, spanned.char as nat),
    {
        let line = spanned.line;
        let col = spanned.char;
        // on a line before the region
        if line < self.line_start {
            return RelativePosition::Before;
        }
        // on the first line of the region: the region starts at a token,
        // so a token that starts before it lies outside
        if line == self.line_start {
            if col < self.col_start {
                return RelativePosition::Before;
            }
            return RelativePosition::Within;
        }
        // on a line inside the region
        if self.line_end >= 1 && line < self.line_end - 1 {
            return RelativePosition::Within;
        }
        // on the last line of the region: the region ends where its last
        // token ends, so a token that starts before that lies inside
        if line == self.line_end {
            if col <= self.col_end {
                return RelativePosition::Within;
            }
            return RelativePosition::After;
        }
        // on a line after the region
        RelativePosition::After
    }
}

/// Collects the regions of the macro invocations of a file.
#[derive(Debug)]
pub struct MacroVisitor {
    regions: Vec<Region>,
}

impl View for MacroVisitor {
    type V = Seq<Bounds>;

    closed spec fn view(&self) -> Seq<Bounds> {
        self.regions@.map_values(|region: Region| region@)
    }
}

impl MacroVisitor {
    pub fn new() -> (visitor: Self)
        ensures
            visitor@ == Seq::<Bounds>::empty(),
    {
        let visitor = Self { regions: Vec::new() };
        assert(visitor@ =~= Seq::<Bounds>::empty());
        visitor
    }

    /// The regions collected so far, in the order in which they were met.
    pub fn spans(&self) -> (regions: &[Region])
        ensures
            regions@.map_values(|region: Region| region@) == self@,
    {
        self.regions.as_slice()
    }

    /// Takes note of a macro invocation.
    pub fn visit_macro(&mut self, region: Region)
        ensures
            final(self)@ == old(self)@.push(region@),
    {
        self.regions.push(region);
        assert(self@ =~= old(self)@.push(region@));
    }
}

/// Collects the regions of the statements of a file.
#[derive(Debug)]
pub struct StmtVisitor {
    regions: Vec<Region>,
}

impl View for StmtVisitor {
    type V = Seq<Bounds>;

    closed spec fn view(&self) -> Seq<Bounds> {
        self.regions@.map_values(|region: Region| region@)
    }
}

impl StmtVisitor {
    pub fn new() -> (visitor: Self)
        ensures
            visitor@ == Seq::<Bounds>::empty(),
    {
        let visitor = Self { regions: Vec::new() };
        assert(visitor@ =~= Seq::<Bounds>::empty());
        visitor
    }

    /// The regions collected so far, in the order in which they were met.
    pub fn spans(&self) -> (regions: &[Region])
        ensures
            regions@.map_values(|region: Region| region@) == self@,
    {
        self.regions.as_slice()
    }

    /// Takes note of a statement.
    pub fn visit_stmt(&mut self, region: Region)
        ensures
            final(self)@ == old(self)@.push(region@),
    {
        self.regions.push(region);
        assert(self@ =~= old(self)@.push(region@));
    }
}

} // verus!
