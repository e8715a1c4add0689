//! Character-class analysis into exact or wide summaries.

use vstd::prelude::*;

use crate::num::{add_to_max_u64, clamp_u64};
use crate::query::analyze::boundary::{
    byte_boundary_bytes, byte_boundary_strings, first_boundary_strings, last_boundary_strings,
    utf8_boundary_bytes,
};
use crate::query::gram::Gram;
use crate::query::hir::CharClass;
use crate::query::info::{blank, no_match, Info, RegexpInfo};
use crate::query::order::{cleaned, Order};
use crate::query::strings::StringSet;
use crate::query::utf8::{encode, is_scalar, utf8};

verus! {

/// Character-class size past which enumeration stops and over-approximates.
pub const MAX_CLASS: u64 = 100;

/// The scalar or byte ranges of a class.
pub open spec fn class_ranges(class: CharClass) -> Seq<(u32, u32)> {
    match class {
        CharClass::Unicode(ranges) => ranges@,
        CharClass::Bytes(ranges) => Seq::new(
            ranges@.len(),
            |i: int| (ranges@[i].0 as u32, ranges@[i].1 as u32),
        ),
    }
}

/// How many code points the first `n` ranges hold.
pub open spec fn range_total(ranges: Seq<(u32, u32)>, n: int) -> int
    decreases n,
{
    if n <= 0 {
        0
    } else {
        range_total(ranges, n - 1) + (ranges[n - 1].1 - ranges[n - 1].0 + 1)
    }
}

/// Every range has its lower end first.
pub open spec fn ordered_ranges(ranges: Seq<(u32, u32)>) -> bool {
    forall|i: int| 0 <= i < ranges.len() ==> (#[trigger] ranges[i]).0 <= ranges[i].1
}

/// The string a code point stands for, if any: its UTF-8 encoding, or the
/// byte itself.
pub open spec fn point_string(unicode: bool, c: int) -> Option<Seq<u8>> {
    if unicode {
        if is_scalar(c) {
            Some(utf8(c))
        } else {
            None
        }
    } else if 0 <= c <= 255 {
        Some(seq![c as u8])
    } else {
        None
    }
}

/// The strings of the code points from `lo` to `hi`.
pub open spec fn span_strings(unicode: bool, lo: int, hi: int) -> Seq<Seq<u8>>
    decreases hi - lo + 1,
{
    if hi < lo {
        Seq::empty()
    } else {
        match point_string(unicode, hi) {
            Some(s) => span_strings(unicode, lo, hi - 1).push(s),
            None => span_strings(unicode, lo, hi - 1),
        }
    }
}

/// The strings of the first `n` ranges.
pub open spec fn range_strings(unicode: bool, ranges: Seq<(u32, u32)>, n: int) -> Seq<Seq<u8>>
    decreases n,
{
    if n <= 0 {
        Seq::empty()
    } else {
        range_strings(unicode, ranges, n - 1) + span_strings(
            unicode,
            ranges[n - 1].0 as int,
            ranges[n - 1].1 as int,
        )
    }
}

/// The outcome of enumerating a character class, as strings.
pub ghost enum ClassStrings {
    Empty,
    Wide { first: Seq<Seq<u8>>, last: Seq<Seq<u8>> },
    Exact(Seq<Seq<u8>>),
}

/// The first- and last-byte sets of a class.
pub open spec fn wide_strings(unicode: bool, ranges: Seq<(u32, u32)>) -> ClassStrings {
    if unicode {
        ClassStrings::Wide {
            first: first_boundary_strings(ranges),
            last: last_boundary_strings(ranges),
        }
    } else {
        ClassStrings::Wide {
            first: byte_boundary_strings(ranges),
            last: byte_boundary_strings(ranges),
        }
    }
}

/// A class enumerated into its exact set, or its boundary sets once it is too
/// large.
pub open spec fn enumerated(unicode: bool, ranges: Seq<(u32, u32)>) -> ClassStrings {
    let count = range_total(ranges, ranges.len() as int);
    if count == 0 {
        ClassStrings::Empty
    } else if count > MAX_CLASS {
        wide_strings(unicode, ranges)
    } else {
        let all = range_strings(unicode, ranges, ranges.len() as int);
        if all.len() == 0 {
            wide_strings(unicode, ranges)
        } else {
            ClassStrings::Exact(cleaned(Order::Prefix, all))
        }
    }
}

/// The summary of an enumerated class.
pub open spec fn strings_info(set: ClassStrings) -> Info {
    match set {
        ClassStrings::Empty => no_match(),
        ClassStrings::Wide { first, last } => Info { prefix: first, suffix: last, ..blank() },
        ClassStrings::Exact(all) => Info { exact: Some(all), ..blank() },
    }
}

/// The summary of a class.
pub open spec fn class_info(class: CharClass) -> Info {
    strings_info(enumerated(class is Unicode, class_ranges(class)))
}

/// The ASCII part of the first `n` ranges.
pub open spec fn ascii_part(ranges: Seq<(u32, u32)>, n: int) -> Seq<(u32, u32)>
    decreases n,
{
    if n <= 0 {
        Seq::empty()
    } else {
        let (lo, hi) = ranges[n - 1];
        if lo <= 0x7F {
            ascii_part(ranges, n - 1).push(
                (
                    lo,
                    if hi < 0x7F {
                        hi
                    } else {
                        0x7F
                    },
                ),
            )
        } else {
            ascii_part(ranges, n - 1)
        }
    }
}

/// The part of the first `n` ranges beyond ASCII.
pub open spec fn wide_part(ranges: Seq<(u32, u32)>, n: int) -> Seq<(u32, u32)>
    decreases n,
{
    if n <= 0 {
        Seq::empty()
    } else {
        let (lo, hi) = ranges[n - 1];
        if hi >= 0x80 {
            wide_part(ranges, n - 1).push(
                (
                    if lo > 0x80 {
                        lo
                    } else {
                        0x80
                    },
                    hi,
                ),
            )
        } else {
            wide_part(ranges, n - 1)
        }
    }
}

/// The two branches of a mixed-width class: a small ASCII one and the rest.
pub open spec fn mixed_split(class: CharClass) -> Option<(Info, Info)> {
    match class {
        CharClass::Bytes(_) => None,
        CharClass::Unicode(ranges) => {
            let n = ranges@.len() as int;
            let ascii = ascii_part(ranges@, n);
            let wide = wide_part(ranges@, n);
            let ascii_count = range_total(ascii, ascii.len() as int);
            if range_total(ranges@, n) <= MAX_CLASS || ascii_count == 0 || ascii_count > MAX_CLASS
                || wide.len() == 0 {
                None
            } else {
                Some((strings_info(enumerated(true, ascii)), strings_info(enumerated(true, wide))))
            }
        },
    }
}

/// The outcome of enumerating a character class.
#[derive(Debug)]
pub enum ClassFold {
    /// No member.
    Empty,
    /// Over the [`MAX_CLASS`] enumeration cap: the exact set is dropped, but
    /// the exhaustive first-/last-byte sets are kept as one-byte members
    /// (each `{""}` when its side overflowed the boundary cap).
    Wide {
        /// First bytes.
        first: StringSet,
        /// Last bytes.
        last: StringSet,
    },
    /// Every member.
    Exact(StringSet),
}

impl View for ClassFold {
    type V = ClassStrings;

    open spec fn view(&self) -> ClassStrings {
        match self {
            ClassFold::Empty => ClassStrings::Empty,
            ClassFold::Wide { first, last } => ClassStrings::Wide { first: first@, last: last@ },
            ClassFold::Exact(set) => ClassStrings::Exact(set@),
        }
    }
}

impl ClassFold {
    /// The sets are well formed.
    pub open spec fn wf(self) -> bool {
        match self {
            ClassFold::Empty => true,
            ClassFold::Wide { first, last } => first.wf() && last.wf(),
            ClassFold::Exact(set) => set.wf(),
        }
    }
}

/// Describe a character class: empty matches nothing, a wide class keeps its
/// first- and last-byte sets (over-approximating the middle as any character),
/// otherwise enumerate its members.
///
/// A wide class is not collapsed to a bare "any character": its
/// `prefix`/`suffix` carry every byte a match can start or end with, as
/// one-byte members. These slot into the ordinary seam and cross machinery,
/// while a side whose byte set is too large falls back to `{""}` (boundary
/// unknown).
pub fn class(cls: &CharClass) -> (info: RegexpInfo)
    requires
        cls.wf(),
    ensures
        info.wf(),
        info@ == class_info(*cls),
{
    info_from_class_set(class_set(cls))
}

fn info_from_class_set(set: ClassFold) -> (info: RegexpInfo)
    requires
        set.wf(),
    ensures
        info.wf(),
        info@ == strings_info(set@),
{
    match set {
        ClassFold::Empty => RegexpInfo::no_match(),
        ClassFold::Wide { first, last } => {
            let mut info = RegexpInfo::blank();
            info.prefix = first;
            info.suffix = last;
            info
        },
        ClassFold::Exact(all) => {
            let mut info = RegexpInfo::blank();
            info.exact = Some(all);
            info
        },
    }
}

/// Split a mixed-width Unicode class into a small exact ASCII branch and a
/// residual non-ASCII branch. This keeps the ASCII branch's first/last byte
/// correlation until neighbouring literals are crossed, avoiding a merged
/// wide-class plan that can use different class bytes on each side.
pub fn split_mixed_class(cls: &CharClass) -> (branches: Option<(RegexpInfo, RegexpInfo)>)
    requires
        cls.wf(),
    ensures
        match branches {
            Some((a, b)) => a.wf() && b.wf() && mixed_split(*cls) == Some((a@, b@)),
            None => mixed_split(*cls) is None,
        },
{
    let ranges = match cls {
        CharClass::Bytes(_) => return None,
        CharClass::Unicode(ranges) => ranges,
    };
    if range_count(ranges) <= MAX_CLASS {
        return None;
    }
    let (ascii, non_ascii) = partition_ascii_ranges(ranges);
    let ascii_count: u64 = range_count(&ascii);
    if ascii_count == 0 || ascii_count > MAX_CLASS || non_ascii.len() == 0 {
        return None;
    }
    Some(
        (
            info_from_class_set(enumerate(&ascii, true)),
            info_from_class_set(enumerate(&non_ascii, true)),
        ),
    )
}

fn partition_ascii_ranges(ranges: &Vec<(u32, u32)>) -> (parts: (Vec<(u32, u32)>, Vec<(u32, u32)>))
    requires
        ordered_ranges(ranges@),
    ensures
        parts.0@ == ascii_part(ranges@, ranges@.len() as int),
        parts.1@ == wide_part(ranges@, ranges@.len() as int),
        ordered_ranges(parts.0@),
        ordered_ranges(parts.1@),
{
    let mut ascii: Vec<(u32, u32)> = Vec::new();
    let mut non_ascii: Vec<(u32, u32)> = Vec::new();
    let mut i: usize = 0;
    while i < ranges.len()
        invariant
            i <= ranges@.len(),
            ordered_ranges(ranges@),
            ascii@ == ascii_part(ranges@, i as int),
            non_ascii@ == wide_part(ranges@, i as int),
            ordered_ranges(ascii@),
            ordered_ranges(non_ascii@),
        decreases ranges@.len() - i,
    {
        let (lo, hi) = ranges[i];
        assert(ranges@[i as int].0 <= ranges@[i as int].1);
        if lo <= 0x7F {
            ascii.push(
                (
                    lo,
                    if hi < 0x7F {
                        hi
                    } else {
                        0x7F
                    },
                ),
            );
        }
        if hi >= 0x80 {
            non_ascii.push(
                (
                    if lo > 0x80 {
                        lo
                    } else {
                        0x80
                    },
                    hi,
                ),
            );
        }
        i = i + 1;
    }
    (ascii, non_ascii)
}

fn range_count(ranges: &Vec<(u32, u32)>) -> (count: u64)
    requires
        ordered_ranges(ranges@),
    ensures
        count == clamp_u64(range_total(ranges@, ranges@.len() as int)),
{
    let mut count: u64 = 0;
    let mut i: usize = 0;
    while i < ranges.len()
        invariant
            i <= ranges@.len(),
            ordered_ranges(ranges@),
            range_total(ranges@, i as int) >= 0,
            count == clamp_u64(range_total(ranges@, i as int)),
        decreases ranges@.len() - i,
    {
        let (lo, hi) = ranges[i];
        assert(ranges@[i as int].0 <= ranges@[i as int].1);
        count = add_to_max_u64(count, (hi - lo) as u64 + 1);
        i = i + 1;
    }
    count
}

/// Enumerate the members of a class.
pub fn class_set(cls: &CharClass) -> (set: ClassFold)
    requires
        cls.wf(),
    ensures
        set.wf(),
        set@ == enumerated(*cls is Unicode, class_ranges(*cls)),
{
    match cls {
        CharClass::Unicode(ranges) => enumerate(ranges, true),
        CharClass::Bytes(ranges) => {
            let mut wide: Vec<(u32, u32)> = Vec::new();
            let mut i: usize = 0;
            while i < ranges.len()
                invariant
                    i <= ranges@.len(),
                    wide@.len() == i,
                    forall|k: int|
                        0 <= k < i ==> (#[trigger] wide@[k]) == (
                            ranges@[k].0 as u32,
                            ranges@[k].1 as u32,
                        ),
                decreases ranges@.len() - i,
            {
                wide.push((ranges[i].0 as u32, ranges[i].1 as u32));
                i = i + 1;
            }
            assert(wide@ =~= class_ranges(*cls));
            assert(ordered_ranges(wide@)) by {
                assert forall|k: int| 0 <= k < wide@.len() implies (#[trigger] wide@[k]).0
                    <= wide@[k].1 by {
                    assert(ranges@[k].0 <= ranges@[k].1);
                }
            }
            enumerate(&wide, false)
        },
    }
}

/// Enumerate a class into its exact set, or, once it exceeds [`MAX_CLASS`],
/// its first/last boundary-byte sets.
fn enumerate(ranges: &Vec<(u32, u32)>, unicode: bool) -> (set: ClassFold)
    requires
        ordered_ranges(ranges@),
    ensures
        set.wf(),
        set@ == enumerated(unicode, ranges@),
{
    let count: u64 = range_count(ranges);
    if count == 0 {
        return ClassFold::Empty;
    }
    if count > MAX_CLASS {
        return wide(ranges, unicode);
    }
    match exact(ranges, unicode) {
        Some(set) => ClassFold::Exact(set),
        None => wide(ranges, unicode),
    }
}

fn wide(ranges: &Vec<(u32, u32)>, unicode: bool) -> (set: ClassFold)
    ensures
        set.wf(),
        set@ == wide_strings(unicode, ranges@),
{
    let (first, last) = if unicode {
        utf8_boundary_bytes(ranges)
    } else {
        byte_boundary_bytes(ranges)
    };
    ClassFold::Wide { first, last }
}

fn exact(ranges: &Vec<(u32, u32)>, unicode: bool) -> (set: Option<StringSet>)
    requires
        ordered_ranges(ranges@),
    ensures
        ({
            let all = range_strings(unicode, ranges@, ranges@.len() as int);
            match set {
                Some(set) => set.wf() && all.len() > 0 && set@ == cleaned(Order::Prefix, all),
                None => all.len() == 0,
            }
        }),
{
    let mut set = StringSet::new();
    let mut i: usize = 0;
    while i < ranges.len()
        invariant
            i <= ranges@.len(),
            ordered_ranges(ranges@),
            set.wf(),
            set@ == range_strings(unicode, ranges@, i as int),
        decreases ranges@.len() - i,
    {
        let (lo, hi) = ranges[i];
        let ghost head = set@;
        assert(ranges@[i as int].0 <= ranges@[i as int].1);
        let mut c: u64 = lo as u64;
        assert(span_strings(unicode, lo as int, lo - 1) =~= Seq::<Seq<u8>>::empty());
        assert(head + span_strings(unicode, lo as int, lo - 1) =~= head);
        while c <= hi as u64
            invariant
                lo <= c <= hi + 1,
                set.wf(),
                set@ == head + span_strings(unicode, lo as int, c - 1),
            decreases hi + 1 - c,
        {
            let ghost prior = span_strings(unicode, lo as int, c - 1);
            if let Some(s) = encode_point(c as u32, unicode) {
                set.push(s);
                assert((head + prior).push(s@) =~= head + prior.push(s@));
            }
            c = c + 1;
        }
        i = i + 1;
    }
    if set.is_empty() {
        return None;
    }
    set.clean(Order::Prefix);
    Some(set)
}

/// The string a code point stands for, if any.
fn encode_point(c: u32, unicode: bool) -> (s: Option<Gram>)
    ensures
        match s {
            Some(s) => point_string(unicode, c as int) == Some(s@),
            None => point_string(unicode, c as int) is None,
        },
{
    if unicode {
        encode_char(c)
    } else {
        encode_byte(c)
    }
}

fn encode_char(c: u32) -> (s: Option<Gram>)
    ensures
        match s {
            Some(s) => point_string(true, c as int) == Some(s@),
            None => point_string(true, c as int) is None,
        },
{
    match encode(c) {
        Some(bytes) => Some(Gram::from_vec(bytes)),
        None => None,
    }
}

fn encode_byte(c: u32) -> (s: Option<Gram>)
    ensures
        match s {
            Some(s) => point_string(false, c as int) == Some(s@),
            None => point_string(false, c as int) is None,
        },
{
    if c > 255 {
        return None;
    }
    let mut bytes: Vec<u8> = Vec::new();
    bytes.push(c as u8);
    assert(bytes@ =~= seq![c as u8]);
    Some(Gram::from_vec(bytes))
}

} // verus!
