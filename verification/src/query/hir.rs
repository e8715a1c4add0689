//! The regex syntax tree the analysis works on.

use vstd::prelude::*;

use crate::query::strings::lower_byte;
use crate::query::utf8::{first_scalar, is_scalar, last_scalar, utf8};

verus! {

/// A zero-width assertion.
#[derive(Debug, Clone, Copy, PartialEq, Eq, Structural)]
pub enum Assertion {
    /// The beginning of the text.
    Start,
    /// The end of the text.
    End,
    /// The beginning of a line, after `\n`.
    StartLF,
    /// The end of a line, before `\n`.
    EndLF,
    /// The beginning of a line, after `\r`, `\n` or `\r\n`.
    StartCRLF,
    /// The end of a line, before `\r`, `\n` or `\r\n`.
    EndCRLF,
    /// An ASCII word boundary.
    WordAscii,
    /// No ASCII word boundary.
    WordAsciiNegate,
    /// A Unicode word boundary.
    WordUnicode,
    /// No Unicode word boundary.
    WordUnicodeNegate,
    /// The start of an ASCII word.
    WordStartAscii,
    /// The end of an ASCII word.
    WordEndAscii,
    /// The start of a Unicode word.
    WordStartUnicode,
    /// The end of a Unicode word.
    WordEndUnicode,
    /// No ASCII word character before.
    WordStartHalfAscii,
    /// No ASCII word character after.
    WordEndHalfAscii,
    /// No Unicode word character before.
    WordStartHalfUnicode,
    /// No Unicode word character after.
    WordEndHalfUnicode,
}

/// A character class as inclusive ranges.
#[derive(Debug, PartialEq, Eq)]
pub enum CharClass {
    /// Scalar values; one matches its UTF-8 encoding.
    Unicode(Vec<(u32, u32)>),
    /// Single bytes.
    Bytes(Vec<(u8, u8)>),
}

/// A repetition of one expression.
#[derive(Debug, PartialEq, Eq)]
pub struct Repetition {
    /// Least number of copies.
    pub min: u32,
    /// Greatest number of copies; `None` means there is no bound.
    pub max: Option<u32>,
    /// The repeated expression.
    pub sub: Box<Regex>,
}

/// A regular expression.
#[derive(Debug, PartialEq, Eq)]
pub enum Regex {
    /// The empty string.
    Empty,
    /// Exactly these bytes.
    Literal(Vec<u8>),
    /// One member of a class.
    Class(CharClass),
    /// A zero-width assertion.
    Look(Assertion),
    /// A repeated expression.
    Repetition(Repetition),
    /// A capturing group.
    Capture(Box<Regex>),
    /// One expression after the other.
    Concat(Vec<Regex>),
    /// Any one of the expressions.
    Alternation(Vec<Regex>),
}

impl CharClass {
    /// Every range has its lower end first, and no code point is out of range.
    pub open spec fn wf(self) -> bool {
        match self {
            CharClass::Unicode(ranges) => forall|i: int|
                0 <= i < ranges@.len() ==> (#[trigger] ranges@[i]).0 <= ranges@[i].1 <= 0x10FFFF,
            CharClass::Bytes(ranges) => forall|i: int|
                0 <= i < ranges@.len() ==> (#[trigger] ranges@[i]).0 <= ranges@[i].1,
        }
    }
}

impl Regex {
    /// Every class in the tree has its ranges in order.
    pub open spec fn wf(self) -> bool
        decreases self,
    {
        match self {
            Regex::Class(class) => class.wf(),
            Regex::Repetition(rep) => rep.sub.wf(),
            Regex::Capture(sub) => sub.wf(),
            Regex::Concat(subs) => forall|i: int|
                0 <= i < subs@.len() ==> (#[trigger] subs@[i]).wf(),
            Regex::Alternation(subs) => forall|i: int|
                0 <= i < subs@.len() ==> (#[trigger] subs@[i]).wf(),
            _ => true,
        }
    }
}

/// The ranges behind a [`CharClass`].
pub ghost enum Ranges {
    Unicode(Seq<(u32, u32)>),
    Bytes(Seq<(u8, u8)>),
}

/// The tree behind a [`Regex`].
pub ghost enum Syntax {
    Empty,
    Literal(Seq<u8>),
    Class(Ranges),
    Look(Assertion),
    Repetition(u32, Option<u32>, Box<Syntax>),
    Capture(Box<Syntax>),
    Concat(Seq<Syntax>),
    Alternation(Seq<Syntax>),
}

impl CharClass {
    /// The ranges of the class.
    pub open spec fn ranges(self) -> Ranges {
        match self {
            CharClass::Unicode(ranges) => Ranges::Unicode(ranges@),
            CharClass::Bytes(ranges) => Ranges::Bytes(ranges@),
        }
    }
}

impl Regex {
    /// The tree this expression stands for.
    pub open spec fn syntax(self) -> Syntax
        decreases self,
    {
        match self {
            Regex::Empty => Syntax::Empty,
            Regex::Literal(bytes) => Syntax::Literal(bytes@),
            Regex::Class(class) => Syntax::Class(class.ranges()),
            Regex::Look(look) => Syntax::Look(look),
            Regex::Repetition(rep) => Syntax::Repetition(
                rep.min,
                rep.max,
                Box::new(rep.sub.syntax()),
            ),
            Regex::Capture(sub) => Syntax::Capture(Box::new(sub.syntax())),
            Regex::Concat(subs) => Syntax::Concat(
                Seq::new(
                    subs@.len(),
                    |i: int|
                        if 0 <= i < subs@.len() {
                            subs@[i].syntax()
                        } else {
                            arbitrary()
                        },
                ),
            ),
            Regex::Alternation(subs) => Syntax::Alternation(
                Seq::new(
                    subs@.len(),
                    |i: int|
                        if 0 <= i < subs@.len() {
                            subs@[i].syntax()
                        } else {
                            arbitrary()
                        },
                ),
            ),
        }
    }
}

/// A letter, a digit or an underscore.
pub open spec fn is_word(b: u8) -> bool {
    (0x30 <= b <= 0x39) || (0x41 <= b <= 0x5A) || (0x61 <= b <= 0x7A) || b == 0x5F
}

/// The word bytes are the ASCII letters in both cases, the digits and the
/// underscore, and nothing beyond ASCII.
pub proof fn law_word_bytes_are_letters_digits_and_underscore(b: u8)
    ensures
        'a' as int <= b <= 'z' as int ==> is_word(b),
        'A' as int <= b <= 'Z' as int ==> is_word(b),
        '0' as int <= b <= '9' as int ==> is_word(b),
        b == '_' as int ==> is_word(b),
        is_word(b) && b != '_' as int && !('0' as int <= b <= '9' as int) ==> 'a' as int
            <= lower_byte(b) <= 'z' as int,
        b >= 0x80 ==> !is_word(b),
{
}

/// Whether a scalar beyond ASCII is a Unicode word character, as
/// `regex-syntax` tells it.
pub uninterp spec fn word_character(cp: u32) -> Option<bool>;

/// Whether a scalar is a word character: in ASCII a letter, a digit or an
/// underscore, beyond it as Unicode has it.
pub open spec fn word_of(cp: u32) -> Option<bool> {
    if cp < 0x80 {
        Some(is_word(cp as u8))
    } else {
        word_character(cp)
    }
}

/// `regex_syntax::try_is_word_character` on the scalar `cp`, an error taken as
/// no answer. Its answer depends on the scalar alone; of the ASCII characters
/// the letters, the digits and the underscore are word characters and no
/// other. Which scalars beyond ASCII are is the crate's Unicode table, and is
/// not stated.
#[verifier::external_body]
pub(crate) fn unicode_word(cp: u32) -> (word: Option<bool>)
    requires
        is_scalar(cp as int),
    ensures
        word == (if cp < 0x80 {
            Some(is_word(cp as u8))
        } else {
            word_character(cp)
        }),
{
    char::from_u32(cp).and_then(|c| regex_syntax::try_is_word_character(c).ok())
}

/// The byte before `at` is an ASCII word byte.
pub open spec fn ascii_word_before(d: Seq<u8>, at: int) -> bool {
    0 < at <= d.len() && is_word(d[at - 1])
}

/// The byte at `at` is an ASCII word byte.
pub open spec fn ascii_word_after(d: Seq<u8>, at: int) -> bool {
    0 <= at < d.len() && is_word(d[at])
}

/// The scalar is a word character.
pub open spec fn is_word_scalar(cp: Option<int>) -> bool {
    match cp {
        Some(cp) => word_of(cp as u32) == Some(true),
        None => false,
    }
}

/// A word character ends right before `at`.
pub open spec fn unicode_word_before(d: Seq<u8>, at: int) -> bool {
    is_word_scalar(last_scalar(d.subrange(0, at)))
}

/// A word character starts right at `at`.
pub open spec fn unicode_word_after(d: Seq<u8>, at: int) -> bool {
    is_word_scalar(first_scalar(d.subrange(at, d.len() as int)))
}

/// The assertion holds at the position `at` of `d`.
pub open spec fn look_holds(look: Assertion, d: Seq<u8>, at: int) -> bool {
    match look {
        Assertion::Start => at == 0,
        Assertion::End => at == d.len(),
        Assertion::StartLF => at == 0 || d[at - 1] == 10,
        Assertion::EndLF => at == d.len() || d[at] == 10,
        Assertion::StartCRLF => at == 0 || d[at - 1] == 10 || (d[at - 1] == 13 && (at == d.len()
            || d[at] != 10)),
        Assertion::EndCRLF => at == d.len() || d[at] == 13 || (d[at] == 10 && (at == 0 || d[at - 1]
            != 13)),
        Assertion::WordAscii => ascii_word_before(d, at) != ascii_word_after(d, at),
        Assertion::WordAsciiNegate => ascii_word_before(d, at) == ascii_word_after(d, at),
        Assertion::WordUnicode => unicode_word_before(d, at) != unicode_word_after(d, at),
        Assertion::WordUnicodeNegate => unicode_word_before(d, at) == unicode_word_after(d, at),
        Assertion::WordStartAscii => !ascii_word_before(d, at) && ascii_word_after(d, at),
        Assertion::WordEndAscii => ascii_word_before(d, at) && !ascii_word_after(d, at),
        Assertion::WordStartUnicode => !unicode_word_before(d, at) && unicode_word_after(d, at),
        Assertion::WordEndUnicode => unicode_word_before(d, at) && !unicode_word_after(d, at),
        Assertion::WordStartHalfAscii => !ascii_word_before(d, at),
        Assertion::WordEndHalfAscii => !ascii_word_after(d, at),
        Assertion::WordStartHalfUnicode => !unicode_word_before(d, at),
        Assertion::WordEndHalfUnicode => !unicode_word_after(d, at),
    }
}

/// The code point lies in one of the ranges.
pub open spec fn in_ranges(ranges: Seq<(u32, u32)>, cp: int) -> bool {
    exists|i: int| 0 <= i < ranges.len() && (#[trigger] ranges[i]).0 <= cp <= ranges[i].1
}

/// The byte lies in one of the ranges.
pub open spec fn in_byte_ranges(ranges: Seq<(u8, u8)>, b: u8) -> bool {
    exists|i: int| 0 <= i < ranges.len() && (#[trigger] ranges[i]).0 <= b <= ranges[i].1
}

/// The class matches exactly these bytes.
pub open spec fn class_matches(class: CharClass, s: Seq<u8>) -> bool {
    match class {
        CharClass::Unicode(ranges) => exists|cp: int|
            is_scalar(cp) && #[trigger] in_ranges(ranges@, cp) && s == utf8(cp),
        CharClass::Bytes(ranges) => s.len() == 1 && in_byte_ranges(ranges@, s[0]),
    }
}

/// Marks a number a match is taken apart at.
pub open spec fn split_at(n: int) -> bool {
    true
}

/// The expression matches the span `a..b` of `d`.
pub open spec fn matched(h: Regex, d: Seq<u8>, a: int, b: int) -> bool
    decreases h, 1int, 0int,
{
    &&& 0 <= a <= b <= d.len()
    &&& match h {
        Regex::Empty => a == b,
        Regex::Literal(bytes) => d.subrange(a, b) == bytes@,
        Regex::Class(class) => class_matches(class, d.subrange(a, b)),
        Regex::Look(look) => a == b && look_holds(look, d, a),
        Regex::Capture(sub) => matched(*sub, d, a, b),
        Regex::Repetition(rep) => exists|n: int| #[trigger]
            split_at(n) && rep.min <= n && (rep.max matches Some(max) ==> n <= max) && repeats(
                *rep.sub,
                d,
                a,
                b,
                n,
            ),
        Regex::Concat(subs) => concat_matches(h, subs@.len() as int, d, a, b),
        Regex::Alternation(subs) => exists|i: int| #[trigger]
            split_at(i) && 0 <= i < subs@.len() && matched(subs@[i], d, a, b),
    }
}

/// `n` copies of the expression match the span, one after the other.
pub open spec fn repeats(h: Regex, d: Seq<u8>, a: int, b: int, n: int) -> bool
    decreases h, 2int, n,
{
    if n <= 0 {
        n == 0 && a == b && 0 <= a <= d.len()
    } else {
        exists|m: int| #[trigger] split_at(m) && repeats(h, d, a, m, n - 1) && matched(h, d, m, b)
    }
}

/// The first `n` parts of a concatenation match the span, one after the other.
pub open spec fn concat_matches(h: Regex, n: int, d: Seq<u8>, a: int, b: int) -> bool
    decreases h, 0int, n,
{
    match h {
        Regex::Concat(subs) => if n <= 0 {
            a == b && 0 <= a <= d.len()
        } else {
            n <= subs@.len() && exists|m: int| #[trigger]
                split_at(m) && concat_matches(h, n - 1, d, a, m) && matched(subs@[n - 1], d, m, b)
        },
        _ => false,
    }
}

/// What an expression matches depends on its tree alone.
pub proof fn law_matches_by_syntax(h: Regex, k: Regex, d: Seq<u8>, a: int, b: int)
    requires
        h.syntax() == k.syntax(),
        matched(h, d, a, b),
    ensures
        matched(k, d, a, b),
    decreases h, 1int, 0int,
{
    match (h, k) {
        (Regex::Capture(x), Regex::Capture(y)) => {
            law_matches_by_syntax(*x, *y, d, a, b);
        },
        (Regex::Repetition(x), Regex::Repetition(y)) => {
            let n = choose|n: int| #[trigger]
                split_at(n) && x.min <= n && (x.max matches Some(max) ==> n <= max) && repeats(
                    *x.sub,
                    d,
                    a,
                    b,
                    n,
                );
            lemma_same_repeats(*x.sub, *y.sub, d, a, b, n);
            assert(split_at(n));
        },
        (Regex::Concat(x), Regex::Concat(y)) => {
            lemma_same_subs(h, k);
            lemma_same_parts(h, k, x@.len() as int, d, a, b);
        },
        (Regex::Alternation(x), Regex::Alternation(y)) => {
            let i = choose|i: int| #[trigger]
                split_at(i) && 0 <= i < x@.len() && matched(x@[i], d, a, b);
            lemma_same_subs(h, k);
            assert(parts(h)[i] == x@[i]);
            law_matches_by_syntax(x@[i], y@[i], d, a, b);
            assert(split_at(i));
        },
        _ => {},
    }
}

/// The parts of an expression, none for one that is no list.
spec fn parts(h: Regex) -> Seq<Regex> {
    match h {
        Regex::Concat(subs) => subs@,
        Regex::Alternation(subs) => subs@,
        _ => Seq::empty(),
    }
}

proof fn lemma_same_subs(h: Regex, k: Regex)
    requires
        h.syntax() == k.syntax(),
    ensures
        parts(h).len() == parts(k).len(),
        forall|i: int|
            0 <= i < parts(h).len() ==> (#[trigger] parts(h)[i]).syntax() == parts(k)[i].syntax(),
{
    match h {
        Regex::Concat(x) => {
            let y = k->Concat_0;
            assert(x@.len() == h.syntax()->Concat_0.len());
            assert(y@.len() == k.syntax()->Concat_0.len());
            assert forall|i: int| 0 <= i < x@.len() implies (#[trigger] x@[i]).syntax()
                == y@[i].syntax() by {
                assert(h.syntax()->Concat_0[i] == x@[i].syntax());
                assert(k.syntax()->Concat_0[i] == y@[i].syntax());
            }
        },
        Regex::Alternation(x) => {
            let y = k->Alternation_0;
            assert(x@.len() == h.syntax()->Alternation_0.len());
            assert(y@.len() == k.syntax()->Alternation_0.len());
            assert forall|i: int| 0 <= i < x@.len() implies (#[trigger] x@[i]).syntax()
                == y@[i].syntax() by {
                assert(h.syntax()->Alternation_0[i] == x@[i].syntax());
                assert(k.syntax()->Alternation_0[i] == y@[i].syntax());
            }
        },
        _ => {},
    }
}

proof fn lemma_same_repeats(h: Regex, k: Regex, d: Seq<u8>, a: int, b: int, n: int)
    requires
        h.syntax() == k.syntax(),
        repeats(h, d, a, b, n),
    ensures
        repeats(k, d, a, b, n),
    decreases h, 2int, n,
{
    if n > 0 {
        let m = choose|m: int| #[trigger]
            split_at(m) && repeats(h, d, a, m, n - 1) && matched(h, d, m, b);
        lemma_same_repeats(h, k, d, a, m, n - 1);
        law_matches_by_syntax(h, k, d, m, b);
        assert(split_at(m));
    }
}

proof fn lemma_same_parts(h: Regex, k: Regex, n: int, d: Seq<u8>, a: int, b: int)
    requires
        h is Concat,
        k is Concat,
        h.syntax() == k.syntax(),
        concat_matches(h, n, d, a, b),
    ensures
        concat_matches(k, n, d, a, b),
    decreases h, 0int, n,
{
    if n > 0 {
        let x = h->Concat_0;
        let y = k->Concat_0;
        let m = choose|m: int| #[trigger]
            split_at(m) && concat_matches(h, n - 1, d, a, m) && matched(x@[n - 1], d, m, b);
        lemma_same_subs(h, k);
        lemma_same_parts(h, k, n - 1, d, a, m);
        assert(parts(h)[n - 1] == x@[n - 1]);
        law_matches_by_syntax(x@[n - 1], y@[n - 1], d, m, b);
        assert(split_at(m));
    }
}

} // verus!
