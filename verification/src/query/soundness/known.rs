//! What is known exactly: small sets of strings stay whole under sequence,
//! alternation and repetition.

use vstd::prelude::*;

use crate::query::algebra::{combined, Op};
use crate::query::analyze::repeat::{
    exact_expanded, has_empty, power_union, powers_from, query_weight, repeated, too_large,
};
use crate::query::analyze::{Stage, MAX_EXACT, MAX_EXACT_BYTES};
use crate::query::combine::{
    alternated, concatenated, crosses_bounded, either_sets, joint_sets, seam_of,
};
use crate::query::flush::{exact_cleaned, exact_overflows, simplified};
use crate::query::info::{blank, Info};
use crate::query::order::{cleaned, lemma_cleaned, Order};
use crate::query::soundness::combined::lemma_united_contains;
use crate::query::soundness::demanded::{lemma_fewer_bytes, lemma_one};
use crate::query::soundness::gapped::lemma_two_in_a_row;
use crate::query::soundness::repeated::{in_power, law_power_union_exact};
use crate::query::strings::{byte_len, crossed, lemma_pairs, pairs, united};

verus! {

/// A set whose size is within bounds stays as it is.
proof fn lemma_stays_exact(g: Stage, x: Info)
    requires
        x.exact matches Some(e) && !too_large(cleaned(Order::Prefix, e)),
    ensures
        simplified(g, x, false) == (exact_cleaned(x), g),
{
    reveal(simplified);
    assert(!exact_overflows(exact_cleaned(x), false));
}

/// A few strings after a few others are known exactly: each string of the one set
/// with each of the other after it, and nothing else. Knowing them asks for nothing.
pub proof fn law_sequence_of_known_strings(
    g: Stage,
    x: Info,
    y: Info,
    a: Seq<Seq<u8>>,
    b: Seq<Seq<u8>>,
    s: Seq<u8>,
)
    requires
        x.exact == Some(a),
        y.exact == Some(b),
        a.len() * b.len() <= MAX_EXACT,
        !too_large(pairs(a, b)),
    ensures
        concatenated(g, x, y).1 == g,
        concatenated(g, x, y).0.exact matches Some(e) && (e.contains(s) <==> exists|
            u: Seq<u8>,
            v: Seq<u8>,
        |
            a.contains(u) && b.contains(v) && s == #[trigger] (u + v)),
{
    reveal(concatenated);
    assert(crosses_bounded(g, x, y) == (x, y, g));
    assert(seam_of(x, y) is None);
    let raw = pairs(a, b);
    let c = crossed(a, b, Order::Prefix);
    lemma_pairs(a, b);
    lemma_cleaned(Order::Prefix, raw);
    lemma_cleaned(Order::Prefix, c);
    assert forall|z: Seq<u8>| #[trigger] cleaned(Order::Prefix, c).contains(z) implies raw.contains(
        z,
    ) by {
        assert(c.contains(z));
    }
    lemma_fewer_bytes(cleaned(Order::Prefix, c), raw);
    let joint = Info {
        query: combined(x.query, y.query, Op::And),
        ..joint_sets(x, y)
    };
    assert(joint.exact == Some(c));
    lemma_stays_exact(g, joint);
    let e = cleaned(Order::Prefix, c);
    assert(e.contains(s) <==> c.contains(s));
    assert(c.contains(s) <==> raw.contains(s));
}

/// A few strings or a few others are known exactly: those of the one set and those
/// of the other, and nothing else. Knowing them asks for nothing.
pub proof fn law_either_of_known_strings(
    g: Stage,
    x: Info,
    y: Info,
    a: Seq<Seq<u8>>,
    b: Seq<Seq<u8>>,
    s: Seq<u8>,
)
    requires
        x.exact == Some(a),
        y.exact == Some(b),
        !too_large(a + b),
    ensures
        alternated(g, x, y).1 == g,
        alternated(g, x, y).0.exact matches Some(e) && (e.contains(s) <==> a.contains(s)
            || b.contains(s)),
{
    reveal(alternated);
    let c = united(a, b, Order::Prefix);
    lemma_cleaned(Order::Prefix, a + b);
    lemma_cleaned(Order::Prefix, c);
    assert forall|z: Seq<u8>| #[trigger] cleaned(Order::Prefix, c).contains(z) implies (a
        + b).contains(z) by {
        assert(c.contains(z));
    }
    lemma_fewer_bytes(cleaned(Order::Prefix, c), a + b);
    let either = Info {
        query: combined(x.query, y.query, Op::Or),
        ..either_sets(x, y)
    };
    assert(either.exact == Some(c));
    lemma_stays_exact(g, either);
    lemma_united_contains(a, b, Order::Prefix, s);
    assert(cleaned(Order::Prefix, c).contains(s) <==> c.contains(s));
}

/// The powers together are within bounds where they could be listed.
proof fn lemma_listed_powers_fit(
    e: Seq<Seq<u8>>,
    min: int,
    max: int,
    k: int,
    power: Seq<Seq<u8>>,
    union: Seq<Seq<u8>>,
)
    requires
        min <= max,
        k <= max,
        powers_from(e, min, max, k, power, union) is Some,
    ensures
        !too_large(powers_from(e, min, max, k, power, union)->0),
    decreases max - k,
{
    if k < max {
        let union1 = if k >= min {
            united(union, power, Order::Prefix)
        } else {
            union
        };
        let power1 = crossed(power, e, Order::Prefix);
        lemma_listed_powers_fit(e, min, max, k + 1, power1, union1);
    }
}

/// A few strings from a least to a most number of times are known exactly, where
/// there is room to list them: what so many of the strings make, one after the
/// other, and nothing else.
pub proof fn law_repetition_of_known_strings(
    g: Stage,
    base: Info,
    e: Seq<Seq<u8>>,
    min: int,
    max: u32,
    s: Seq<u8>,
)
    requires
        base.exact == Some(e),
        e.len() > 0,
        query_weight(base) == 0,
        0 <= min <= max,
        power_union(e, min, max as int) is Some,
    ensures
        repeated(g, base, min, Some(max)).1 == g,
        repeated(g, base, min, Some(max)).0.exact matches Some(set) && (set.contains(s)
            <==> exists|n: int| 0 <= n <= max && min <= n && #[trigger] in_power(e, s, n)),
{
    let set = power_union(e, min, max as int)->0;
    lemma_listed_powers_fit(e, min, max as int, 0, seq![Seq::empty()], Seq::empty());
    lemma_cleaned(Order::Prefix, set);
    assert forall|z: Seq<u8>| #[trigger] cleaned(Order::Prefix, set).contains(
        z,
    ) implies set.contains(z) by {}
    lemma_fewer_bytes(cleaned(Order::Prefix, set), set);
    lemma_stays_exact(g, Info { can_empty: has_empty(set), exact: Some(set), ..blank() });
    law_power_union_exact(e, min, max as int, s);
    assert(cleaned(Order::Prefix, set).contains(s) <==> set.contains(s));
}

/// A string so many times, one after the other.
pub open spec fn copies(s: Seq<u8>, k: int) -> Seq<u8>
    decreases k,
{
    if k <= 0 {
        Seq::empty()
    } else {
        copies(s, k - 1) + s
    }
}

proof fn lemma_copies_len(s: Seq<u8>, j: int, k: int)
    requires
        0 <= j <= k,
    ensures
        copies(s, j).len() == j * s.len(),
        copies(s, j).len() <= copies(s, k).len(),
    decreases k,
{
    if j < k {
        lemma_copies_len(s, j, k - 1);
    } else if j > 0 {
        lemma_copies_len(s, j - 1, k - 1);
        assert((j - 1) * s.len() + s.len() == j * s.len()) by (nonlinear_arith);
    } else {
        assert(j * s.len() == 0) by (nonlinear_arith)
            requires
                j == 0,
        ;
    }
}

/// The powers of one string are its copies.
proof fn lemma_powers_of_one(s: Seq<u8>, min: int, k: int, j: int)
    requires
        0 <= j <= k,
        min == k,
        copies(s, k).len() <= MAX_EXACT_BYTES,
    ensures
        powers_from(seq![s], min, k, j, seq![copies(s, j)], Seq::empty()) == Some(
            seq![copies(s, k)],
        ),
    decreases k - j,
{
    let none = Seq::<Seq<u8>>::empty();
    let c = copies(s, j);
    lemma_copies_len(s, j, k);
    if j == k {
        lemma_one(c);
        assert(none + seq![c] =~= seq![c]);
    } else {
        lemma_copies_len(s, j + 1, k);
        lemma_two_in_a_row(c, s);
        lemma_one(copies(s, j + 1));
        lemma_powers_of_one(s, min, k, j + 1);
    }
}

/// A string a fixed number of times is known exactly.
pub proof fn law_counted_string_is_known(g: Stage, base: Info, s: Seq<u8>, k: u32)
    requires
        base.exact == Some(seq![s]),
        query_weight(base) == 0,
        k >= 1,
        k * s.len() <= MAX_EXACT_BYTES,
    ensures
        repeated(g, base, k as int, Some(k)).1 == g,
        repeated(g, base, k as int, Some(k)).0.exact == Some(seq![copies(s, k as int)]),
{
    let c = copies(s, k as int);
    lemma_copies_len(s, k as int, k as int);
    lemma_powers_of_one(s, k as int, k as int, 0);
    assert(power_union(seq![s], k as int, k as int) == Some(seq![c]));
    lemma_one(c);
    let out = exact_expanded(g, base, k as int, k as int);
    assert(out is Some);
    let x = Info {
        can_empty: has_empty(seq![c]),
        exact: Some(seq![c]),
        ..blank()
    };
    lemma_stays_exact(g, x);
}

/// A string that may be missing is known exactly: the string, or nothing.
pub proof fn law_optional_string_is_known(g: Stage, base: Info, s: Seq<u8>, z: Seq<u8>)
    requires
        base.exact == Some(seq![s]),
        query_weight(base) == 0,
        s.len() <= MAX_EXACT_BYTES,
    ensures
        repeated(g, base, 0, Some(1)).1 == g,
        repeated(g, base, 0, Some(1)).0.can_empty,
        repeated(g, base, 0, Some(1)).0.exact matches Some(e) && (e.contains(z) <==> z == s
            || z.len() == 0),
{
    let none = Seq::<u8>::empty();
    let e = seq![s];
    lemma_one(none);
    lemma_one(s);
    lemma_two_in_a_row(none, s);
    assert(none + s =~= s);
    assert(Seq::<Seq<u8>>::empty() + seq![none] =~= seq![none]);
    let two = united(seq![none], seq![s], Order::Prefix);
    lemma_cleaned(Order::Prefix, seq![none] + seq![s]);
    lemma_cleaned(Order::Prefix, two);
    lemma_fewer_bytes(two, seq![none] + seq![s]);
    assert((seq![none] + seq![s]).drop_last() =~= seq![none]);
    assert(byte_len(seq![none] + seq![s]) == s.len());
    assert(powers_from(e, 0, 1, 1, seq![s], seq![none]) == Some(two));
    assert(power_union(e, 0, 1) == Some(two));
    assert forall|y: Seq<u8>| #[trigger] cleaned(Order::Prefix, two).contains(
        y,
    ) implies two.contains(y) by {}
    lemma_fewer_bytes(cleaned(Order::Prefix, two), two);
    let x = Info {
        can_empty: has_empty(two),
        exact: Some(two),
        ..blank()
    };
    lemma_stays_exact(g, x);
    lemma_united_contains(seq![none], seq![s], Order::Prefix, z);
    lemma_united_contains(seq![none], seq![s], Order::Prefix, none);
    assert(seq![none][0] == none && seq![s][0] == s);
    assert(seq![none].contains(none) && seq![s].contains(s));
    assert(two.contains(none));
    let i = choose|i: int| 0 <= i < two.len() && two[i] == none;
    assert(two[i].len() == 0);
    assert(cleaned(Order::Prefix, two).contains(z) <==> two.contains(z));
    assert(z.len() == 0 ==> z =~= none);
}

} // verus!
