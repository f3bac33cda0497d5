//! Path prefixes: the mode and the search of a path pattern.

use vstd::prelude::*;

use crate::text::{copy_text, text_of_usize};

verus! {

/// Which walks count as matches.
#[derive(Debug, Clone, Copy, PartialEq, Eq, Structural)]
pub enum PathMode {
    /// Any walk.
    Walk,
    /// No repeated edges.
    Trail,
    /// No repeated nodes, but the first may be the last.
    Simple,
    /// No repeated nodes.
    Acyclic,
}

/// Which of the matching paths are kept for each pair of end nodes.
#[derive(Debug, Clone, Copy, PartialEq, Eq, Structural)]
pub enum PathSearch {
    /// Every path.
    All,
    /// `count` arbitrary paths.
    Any { count: usize },
    /// The `count` shortest paths.
    ShortestPaths { count: usize },
    /// The paths of the `count` shortest lengths.
    ShortestGroups { count: usize },
}

/// A mode and a search, scoped to one path pattern.
#[derive(Debug, Clone, Copy, PartialEq, Eq, Structural)]
pub struct PathPrefix {
    pub mode: PathMode,
    pub search: PathSearch,
}

/// How a prefix makes unbounded repetition finite.
#[derive(Debug, Clone, Copy, PartialEq, Eq, Structural)]
pub enum UnboundedSupport {
    /// A shortest-path search over walks.
    Shortest { count: usize, groups: bool },
    /// A restrictive mode, which leaves finitely many paths.
    Mode(PathMode),
}

impl PathMode {
    /// The keyword.
    pub open spec fn text(self) -> Seq<char> {
        match self {
            PathMode::Walk => "WALK"@,
            PathMode::Trail => "TRAIL"@,
            PathMode::Simple => "SIMPLE"@,
            PathMode::Acyclic => "ACYCLIC"@,
        }
    }

    /// The keyword.
    pub fn to_string(&self) -> (r: String)
        ensures
            r@ == self.text(),
    {
        match self {
            PathMode::Walk => copy_text("WALK"),
            PathMode::Trail => copy_text("TRAIL"),
            PathMode::Simple => copy_text("SIMPLE"),
            PathMode::Acyclic => copy_text("ACYCLIC"),
        }
    }
}

impl PathPrefix {
    /// Whether the prefix restricts nothing.
    pub fn is_trivial(&self) -> (r: bool)
        ensures
            r == (self.mode is Walk && self.search is All),
    {
        self.mode == PathMode::Walk && self.search == PathSearch::All
    }

    /// How the prefix makes unbounded repetition finite. A restrictive mode
    /// takes precedence; over walks only a shortest-path search does it.
    pub open spec fn support(self) -> Option<UnboundedSupport> {
        if !(self.mode is Walk) {
            Some(UnboundedSupport::Mode(self.mode))
        } else {
            match self.search {
                PathSearch::ShortestPaths { count } => Some(
                    UnboundedSupport::Shortest { count, groups: false },
                ),
                PathSearch::ShortestGroups { count } => Some(
                    UnboundedSupport::Shortest { count, groups: true },
                ),
                _ => None,
            }
        }
    }

    /// How the prefix makes unbounded repetition finite; `None` where it does
    /// not.
    pub fn unbounded_support(&self) -> (r: Option<UnboundedSupport>)
        ensures
            r == self.support(),
    {
        match self.mode {
            PathMode::Trail => Some(UnboundedSupport::Mode(self.mode)),
            PathMode::Simple => Some(UnboundedSupport::Mode(self.mode)),
            PathMode::Acyclic => Some(UnboundedSupport::Mode(self.mode)),
            PathMode::Walk => match self.search {
                PathSearch::ShortestPaths { count } => Some(
                    UnboundedSupport::Shortest { count, groups: false },
                ),
                PathSearch::ShortestGroups { count } => Some(
                    UnboundedSupport::Shortest { count, groups: true },
                ),
                PathSearch::All => None,
                PathSearch::Any { .. } => None,
            },
        }
    }

    /// The mode behind a space, unless it is the default.
    pub open spec fn mode_suffix(self) -> Seq<char> {
        if self.mode is Walk {
            Seq::empty()
        } else {
            " "@ + self.mode.text()
        }
    }

    /// The printed form, normalized.
    pub open spec fn text(self) -> Seq<char> {
        match self.search {
            PathSearch::All => self.mode.text(),
            PathSearch::Any { count } => "ANY "@ + crate::text::decimal(count as nat)
                + self.mode_suffix(),
            PathSearch::ShortestPaths { count } => "SHORTEST "@ + crate::text::decimal(
                count as nat,
            ) + self.mode_suffix() + " PATHS"@,
            PathSearch::ShortestGroups { count } => "SHORTEST "@ + crate::text::decimal(
                count as nat,
            ) + self.mode_suffix() + " GROUPS"@,
        }
    }

    /// The printed form, normalized.
    pub fn to_string(&self) -> (r: String)
        ensures
            r@ == self.text(),
    {
        let mut suffix = String::new();
        if self.mode != PathMode::Walk {
            suffix = copy_text(" ");
            suffix.append(self.mode.to_string().as_str());
        }
        match self.search {
            PathSearch::All => self.mode.to_string(),
            PathSearch::Any { count } => {
                let mut s = copy_text("ANY ");
                s.append(text_of_usize(count).as_str());
                s.append(suffix.as_str());
                s
            },
            PathSearch::ShortestPaths { count } => {
                let mut s = copy_text("SHORTEST ");
                s.append(text_of_usize(count).as_str());
                s.append(suffix.as_str());
                s.append(" PATHS");
                s
            },
            PathSearch::ShortestGroups { count } => {
                let mut s = copy_text("SHORTEST ");
                s.append(text_of_usize(count).as_str());
                s.append(suffix.as_str());
                s.append(" GROUPS");
                s
            },
        }
    }
}

} // verus!
