//! Data shared by the parser and the replacement engine.

use crate::pattern::{compile_pattern, compiles, Pattern};
use std::cmp::Ordering;
use std::collections::HashMap;
use vstd::prelude::*;

verus! {

/// A replacement addressed to a group by its name.
#[derive(Debug, PartialEq)]
pub struct NamedGroup {
    /// Position of the `name=value` token that introduced it.
    pub id: usize,
    pub replace: Vec<u8>,
}

pub type NamedGroups = HashMap<String, NamedGroup>;

/// Replacement bytes keyed by capture-group index (0 is the whole match).
pub type PosGroups = HashMap<usize, Vec<u8>>;

/// The replacements requested for a run: either all by position or all by name.
#[derive(Debug, PartialEq)]
pub enum Groups {
    Named(NamedGroups),
    Pos(PosGroups),
}

/// Configuration errors, all detected before any document is touched.
#[derive(Debug, PartialEq)]
pub enum Error {
    /// A trailing token without `=`; holds the token.
    MalformedGroup(String),
    /// Both positional and named keys were given.
    MixedGroups,
    /// Only named keys were given; replacing by name is not supported.
    NamedUnsupported,
    /// No `key=value` token was given.
    NoGroups,
    /// The pattern did not compile; holds the regex engine's message.
    InvalidPattern(String),
}

/// A fully parsed command.
pub struct Cmd {
    pub regex: Pattern,
    pub paths: Vec<String>,
    pub groups: Groups,
}

impl Cmd {
    /// A command with no paths that replaces the positional groups `pos`.
    pub fn simple(regex: &str, pos: PosGroups) -> (r: Result<Cmd, Error>)
        ensures
            r is Ok <==> compiles(regex@),
            r is Ok ==> r->Ok_0.regex@ == regex@ && r->Ok_0.paths@.len() == 0 && r->Ok_0.groups
                == Groups::Pos(pos),
            r is Err ==> r->Err_0 is InvalidPattern,
    {
        match compile_pattern(regex) {
            Ok(re) => Ok(Cmd { regex: re, paths: Vec::new(), groups: Groups::Pos(pos) }),
            Err(e) => Err(e),
        }
    }
}

/// A loaded document: its path and its whole content.
pub struct File {
    pub path: String,
    pub data: Vec<u8>,
}

/// Mathematical model of a [`MatchedGroup`].
pub struct GroupModel {
    pub start: int,
    pub end: int,
    pub replace: Seq<u8>,
    pub group_id: int,
}

/// A capture group that took part in a match and has a requested replacement.
/// `start` and `end` are byte offsets into the document.
#[derive(Debug)]
pub struct MatchedGroup {
    pub start: usize,
    pub end: usize,
    pub replace: Vec<u8>,
    pub group_id: usize,
}

/// `a` covers `b` and was declared before it.
pub open spec fn superset(a: GroupModel, b: GroupModel) -> bool {
    a.start <= b.start && a.end >= b.end && a.group_id < b.group_id
}

impl View for MatchedGroup {
    type V = GroupModel;

    open spec fn view(&self) -> GroupModel {
        GroupModel {
            start: self.start as int,
            end: self.end as int,
            replace: self.replace@,
            group_id: self.group_id as int,
        }
    }
}

impl MatchedGroup {
    /// Whether this group encompasses `other` and takes precedence over it.
    pub fn is_superset(&self, other: &MatchedGroup) -> (r: bool)
        ensures
            r == superset(self@, other@),
    {
        self.start <= other.start && self.end >= other.end && self.group_id < other.group_id
    }

    /// A copy of this group.
    pub fn duplicate(&self) -> (r: MatchedGroup)
        ensures
            r@ == self@,
    {
        let replace = self.replace.clone();
        assert(replace@ =~= self.replace@);
        MatchedGroup { start: self.start, end: self.end, replace, group_id: self.group_id }
    }
}

/// Groups compare by start offset alone.
pub open spec fn start_order(a: &MatchedGroup, b: &MatchedGroup) -> Ordering {
    if a.start < b.start {
        Ordering::Less
    } else if a.start > b.start {
        Ordering::Greater
    } else {
        Ordering::Equal
    }
}

impl PartialEq for MatchedGroup {
    fn eq(&self, other: &MatchedGroup) -> (r: bool) {
        self.start == other.start
    }
}

impl vstd::std_specs::cmp::PartialEqSpecImpl for MatchedGroup {
    open spec fn obeys_eq_spec() -> bool {
        true
    }

    open spec fn eq_spec(&self, other: &MatchedGroup) -> bool {
        self.start == other.start
    }
}

impl Eq for MatchedGroup {

}

impl PartialOrd for MatchedGroup {
    fn partial_cmp(&self, other: &MatchedGroup) -> (r: Option<Ordering>) {
        if self.start < other.start {
            Some(Ordering::Less)
        } else if self.start > other.start {
            Some(Ordering::Greater)
        } else {
            Some(Ordering::Equal)
        }
    }
}

impl vstd::std_specs::cmp::PartialOrdSpecImpl for MatchedGroup {
    open spec fn obeys_partial_cmp_spec() -> bool {
        true
    }

    open spec fn partial_cmp_spec(&self, other: &MatchedGroup) -> Option<Ordering> {
        Some(start_order(self, other))
    }
}

} // verus!
