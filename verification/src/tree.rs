//! Connector glyphs and depth bookkeeping for the tree renderer.

use vstd::prelude::*;

verus! {

/// A **tree part** is a single connector column in one rendered row.
///
/// It can be either an edge, a line, a corner, or a blank space.
#[derive(PartialEq, Eq, Structural, Debug, Copy, Clone)]
pub enum TreePart {
    /// Rightmost column, *not* the last entry in the directory.
    Edge,
    /// Not the rightmost column, and the directory has not finished yet.
    Line,
    /// Rightmost column, and the last entry in the directory.
    Corner,
    /// Not the rightmost column, and the directory *has* finished.
    Blank,
}

impl TreePart {
    /// Turn this tree part into box drawing characters.
    pub fn ascii_art(self) -> (art: &'static str)
        ensures
            self == TreePart::Edge ==> art@ == "├──"@,
            self == TreePart::Line ==> art@ == "│   "@,
            self == TreePart::Corner ==> art@ == "└──"@,
            self == TreePart::Blank ==> art@ == "    "@,
    {
        match self {
            Self::Edge => "├──",
            Self::Line => "│   ",
            Self::Corner => "└──",
            Self::Blank => "    ",
        }
    }
}

/// The connector that a finished row leaves behind in its own column once a
/// later row is rendered: deeper rows draw a passing line through the column
/// while the directory is unfinished, and a blank once its last entry has
/// been emitted.
pub open spec fn pipe_part(last: bool) -> TreePart {
    if last {
        TreePart::Blank
    } else {
        TreePart::Line
    }
}

/// The connector a row draws in its own column: a corner for the last entry
/// of its directory, an edge otherwise.
pub open spec fn tip_part(last: bool) -> TreePart {
    if last {
        TreePart::Corner
    } else {
        TreePart::Edge
    }
}

/// `s` extended with `Edge` placeholders up to length `n` (and `s` itself if
/// it is already long enough). The placeholders are never part of a rendered
/// row before being overwritten.
pub open spec fn grown(s: Seq<TreePart>, n: int) -> Seq<TreePart> {
    if s.len() >= n {
        s
    } else {
        s + Seq::new((n - s.len()) as nat, |i: int| TreePart::Edge)
    }
}

/// The parameters of one rendered row: how deep it sits in the tree, and
/// whether it is the last entry of its directory.
#[derive(PartialEq, Eq, Structural, Debug, Copy, Clone)]
pub struct TreeParams {
    /// How many directories deep into the tree structure this is.
    /// Entries on top have depth 1; depth 0 is the implicit root.
    pub depth: TreeDepth,
    /// Whether this is the last entry in the directory.
    pub last: bool,
}

impl TreeParams {
    /// Create a new set of tree parameters.
    pub fn new(depth: TreeDepth, last: bool) -> (p: Self)
        ensures
            p.depth == depth,
            p.last == last,
    {
        Self { depth, last }
    }
}

/// A **tree trunk** builds up arrays of tree parts over multiple depths.
///
/// The stack keeps one connector per depth visited so far. When a row is
/// rendered, its own future is still unknown, so its column is written as an
/// edge or corner and only downgraded to a line or blank by the *next* call,
/// once the walk has moved on: `last_params` remembers what that pending
/// correction is.
#[derive(Debug)]
pub struct TreeTrunk {
    /// One connector per depth visited so far; entry `i` is the column drawn
    /// at depth `i`. Grows as deeper rows are visited and is never shrunk.
    pub stack: Vec<TreePart>,
    /// The depth and last-ness of the most recently rendered row, if any.
    pub last_params: Option<TreeParams>,
}

impl TreeTrunk {
    /// The pending correction stays inside the stack.
    pub open spec fn wf(self) -> bool {
        self.last_params matches Some(p) ==> p.depth.0 < self.stack@.len()
    }

    /// The stack as deeper rows will see it: the column of the most recently
    /// rendered row downgraded to the connector that passes through it.
    pub open spec fn effective(self) -> Seq<TreePart> {
        match self.last_params {
            Option::None => self.stack@,
            Option::Some(p) => self.stack@.update(p.depth.0 as int, pipe_part(p.last)),
        }
    }

    /// An empty trunk: nothing rendered yet.
    pub fn new() -> (t: Self)
        ensures
            t.stack@ == Seq::<TreePart>::empty(),
            t.last_params is None,
    {
        Self { stack: Vec::new(), last_params: None }
    }

    /// Calculates the tree parts for an entry at the given depth and
    /// last-ness: first the pending correction of the previous row's column
    /// is applied, then the stack is grown as needed, the entry's own column
    /// is written, and columns 1 through `depth` are returned. Column 0 is
    /// omitted so that the implicit root never draws a connector of its own.
    pub fn new_row(&mut self, params: TreeParams) -> (row: Vec<TreePart>)
        requires
            old(self).wf(),
            params.depth.0 < usize::MAX,
        ensures
            final(self).wf(),
            final(self).last_params == Some(params),
            final(self).stack@ == grown(old(self).effective(), params.depth.0 + 1).update(
                params.depth.0 as int,
                tip_part(params.last),
            ),
            row@ == final(self).stack@.subrange(1, params.depth.0 + 1),
    {
        // If this isn't the first row, update the previous row's column to
        // account for there being another row after it.
        if let Some(last) = self.last_params {
            let part = if last.last {
                TreePart::Blank
            } else {
                TreePart::Line
            };
            self.stack[last.depth.0] = part;
        }

        // Make sure the stack has enough space, then write this row's own
        // column.
        while self.stack.len() < params.depth.0 + 1
            invariant
                params.depth.0 < usize::MAX,
                self.stack@.len() >= old(self).effective().len(),
                self.stack@.len() <= params.depth.0 + 1 || self.stack@.len() == old(
                    self,
                ).effective().len(),
                self.stack@ == grown(old(self).effective(), self.stack@.len() as int),
                self.last_params == old(self).last_params,
            decreases params.depth.0 + 1 - self.stack@.len(),
        {
            self.stack.push(TreePart::Edge);
            proof {
                assert(self.stack@ =~= grown(old(self).effective(), self.stack@.len() as int));
            }
        }
        let tip = if params.last {
            TreePart::Corner
        } else {
            TreePart::Edge
        };
        proof {
            assert(self.stack@ =~= grown(old(self).effective(), params.depth.0 + 1));
        }
        self.stack[params.depth.0] = tip;
        self.last_params = Some(params);

        // Collect columns 1 through `depth`: the zeroth column is never part
        // of a row, as it would join unrelated top-level entries.
        let mut row: Vec<TreePart> = Vec::new();
        let mut i: usize = 1;
        while i < params.depth.0 + 1
            invariant
                params.depth.0 < usize::MAX,
                1 <= i <= params.depth.0 + 1,
                params.depth.0 < self.stack@.len(),
                row@ == self.stack@.subrange(1, i as int),
            decreases params.depth.0 + 1 - i,
        {
            row.push(self.stack[i]);
            proof {
                assert(row@ =~= self.stack@.subrange(1, i + 1));
            }
            i = i + 1;
        }
        row
    }
}

impl Default for TreeTrunk {
    /// An empty trunk: nothing rendered yet.
    fn default() -> (t: Self)
        ensures
            t.stack@ == Seq::<TreePart>::empty(),
            t.last_params is None,
    {
        Self::new()
    }
}

/// The depth of a node in a tree: the number of edges between the node and
/// the root. The root itself has depth 0.
#[derive(PartialEq, Eq, Structural, Debug, Copy, Clone)]
pub struct TreeDepth(pub usize);

impl TreeDepth {
    /// Create a new tree depth at the root level (depth 0).
    pub fn root() -> (d: Self)
        ensures
            d.0 == 0,
    {
        Self(0)
    }

    /// Increase the depth by one level.
    pub fn deeper(self) -> (d: Self)
        requires
            self.0 < usize::MAX,
        ensures
            d.0 == self.0 + 1,
    {
        Self(self.0 + 1)
    }
}

} // verus!
