//! The summary computed for each subexpression during analysis.
//!
//! `RegexpInfo` holds whether the subexpression can match empty, its exact
//! string set when finite, the possible match prefixes and suffixes, and a
//! [`Query`] already committed for everything in between.

use vstd::prelude::*;

use crate::query::algebra::{leaf, Op, Query, Tree};
use crate::query::gram::Gram;
use crate::query::strings::StringSet;

verus! {

/// What analysis knows about one subexpression.
#[derive(Debug)]
pub struct RegexpInfo {
    /// Whether the subexpression matches the empty string.
    pub can_empty: bool,
    /// The exact, finite set of matching strings, when one exists.
    /// `None` means use [`Self::prefix`] and [`Self::suffix`] instead.
    pub exact: Option<StringSet>,
    /// Match prefixes (used only when `exact` is `None`). Exhaustive: every
    /// non-empty match STARTS with some member; a `""` member means the first
    /// byte is unknown. Assertion-around pruning reads first bytes from this, so
    /// dropping members is unsound.
    pub prefix: StringSet,
    /// Match suffixes (used only when `exact` is `None`). Exhaustive: every
    /// non-empty match ENDS with some member; a `""` member means the last
    /// byte is unknown. Assertion-around pruning reads last bytes from this, so
    /// dropping members is unsound.
    pub suffix: StringSet,
    /// When `Some(E)`, this info is a *pure* repetition of the small exact
    /// set `E` (both edges an open `E`-run). It carries no constraint of its
    /// own, but lets the enclosing concatenation tighten the seam where the
    /// run abuts a neighbour. It is a transient hint: the concatenation that
    /// consumes it bakes the tightened window into `prefix`/`suffix` and
    /// leaves the result's `plus_base` `None`.
    pub plus_base: Option<StringSet>,
    /// A query every match must satisfy, beyond prefix/suffix.
    pub match_: Query,
}

/// The summary behind a [`RegexpInfo`].
pub ghost struct Info {
    pub can_empty: bool,
    pub exact: Option<Seq<Seq<u8>>>,
    pub prefix: Seq<Seq<u8>>,
    pub suffix: Seq<Seq<u8>>,
    pub plus_base: Option<Seq<Seq<u8>>>,
    pub query: Tree,
}

/// The strings of an optional set.
pub open spec fn strings_of(set: Option<StringSet>) -> Option<Seq<Seq<u8>>> {
    match set {
        Some(set) => Some(set@),
        None => None,
    }
}

impl View for RegexpInfo {
    type V = Info;

    open spec fn view(&self) -> Info {
        Info {
            can_empty: self.can_empty,
            exact: strings_of(self.exact),
            prefix: self.prefix@,
            suffix: self.suffix@,
            plus_base: strings_of(self.plus_base),
            query: self.match_.tree(),
        }
    }
}

/// A bare frame combining rules fill in.
pub open spec fn blank() -> Info {
    Info {
        can_empty: false,
        exact: None,
        prefix: Seq::empty(),
        suffix: Seq::empty(),
        plus_base: None,
        query: leaf(Op::All),
    }
}

/// Any string: the worst case, no constraint.
pub open spec fn any_match() -> Info {
    Info {
        can_empty: true,
        exact: None,
        prefix: seq![Seq::empty()],
        suffix: seq![Seq::empty()],
        plus_base: None,
        query: leaf(Op::All),
    }
}

/// No string at all.
pub open spec fn no_match() -> Info {
    Info { query: leaf(Op::Nothing), ..blank() }
}

/// Only the empty string.
pub open spec fn empty_string() -> Info {
    Info { can_empty: true, exact: Some(seq![Seq::empty()]), ..blank() }
}

/// One byte string.
pub open spec fn literal(bytes: Seq<u8>) -> Info {
    if bytes.len() == 0 {
        empty_string()
    } else {
        Info { exact: Some(seq![bytes]), ..blank() }
    }
}

/// A copy of an optional set.
pub fn duplicate_set(set: &Option<StringSet>) -> (copy: Option<StringSet>)
    requires
        set matches Some(s) ==> s.wf(),
    ensures
        strings_of(copy) == strings_of(*set),
        copy matches Some(s) ==> s.wf(),
{
    match set {
        Some(s) => Some(s.duplicate()),
        None => None,
    }
}

impl RegexpInfo {
    /// The sets and the query are well formed.
    pub open spec fn wf(self) -> bool {
        &&& self.exact matches Some(s) ==> s.wf()
        &&& self.prefix.wf()
        &&& self.suffix.wf()
        &&& self.plus_base matches Some(s) ==> s.wf()
        &&& self.match_.wf()
    }

    /// A bare frame combining rules fill in; matches nothing until set.
    pub fn blank() -> (info: RegexpInfo)
        ensures
            info.wf(),
            info@ == blank(),
    {
        RegexpInfo {
            can_empty: false,
            exact: None,
            prefix: StringSet::new(),
            suffix: StringSet::new(),
            plus_base: None,
            match_: Query::all(),
        }
    }

    /// Describes a regexp matching any string: the worst case, no constraint.
    pub fn any_match() -> (info: RegexpInfo)
        ensures
            info.wf(),
            info@ == any_match(),
    {
        RegexpInfo {
            can_empty: true,
            exact: None,
            prefix: empty_member(),
            suffix: empty_member(),
            plus_base: None,
            match_: Query::all(),
        }
    }

    /// Describes a regexp matching no string at all.
    pub fn no_match() -> (info: RegexpInfo)
        ensures
            info.wf(),
            info@ == no_match(),
    {
        RegexpInfo {
            can_empty: false,
            exact: None,
            prefix: StringSet::new(),
            suffix: StringSet::new(),
            plus_base: None,
            match_: Query::none(),
        }
    }

    /// Describes a regexp matching only the empty string.
    pub fn empty_string() -> (info: RegexpInfo)
        ensures
            info.wf(),
            info@ == empty_string(),
    {
        RegexpInfo {
            can_empty: true,
            exact: Some(empty_member()),
            prefix: StringSet::new(),
            suffix: StringSet::new(),
            plus_base: None,
            match_: Query::all(),
        }
    }

    /// Describes a literal byte string.
    pub fn literal(bytes: &[u8]) -> (info: RegexpInfo)
        ensures
            info.wf(),
            info@ == literal(bytes@),
    {
        if bytes.len() == 0 {
            return RegexpInfo::empty_string();
        }
        RegexpInfo {
            can_empty: false,
            exact: Some(StringSet::of(Gram::from(bytes))),
            prefix: StringSet::new(),
            suffix: StringSet::new(),
            plus_base: None,
            match_: Query::all(),
        }
    }

    /// A summary with the same contents.
    pub fn duplicate(&self) -> (info: RegexpInfo)
        requires
            self.wf(),
        ensures
            info.wf(),
            info@ == self@,
    {
        RegexpInfo {
            can_empty: self.can_empty,
            exact: duplicate_set(&self.exact),
            prefix: self.prefix.duplicate(),
            suffix: self.suffix.duplicate(),
            plus_base: duplicate_set(&self.plus_base),
            match_: self.match_.duplicate(),
        }
    }
}

/// A set holding only the empty string, the identity for prefix/suffix cross
/// products (`"" + s == s`) and the "boundary byte unknown" sentinel for
/// look-around pruning, distinct from `can_empty`.
pub fn empty_member() -> (set: StringSet)
    ensures
        set.wf(),
        set@ == seq![Seq::<u8>::empty()],
{
    StringSet::of(Gram::empty())
}

} // verus!
