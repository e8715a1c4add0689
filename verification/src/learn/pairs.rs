//! How often byte pairs stand in texts.

use vstd::prelude::*;

use crate::table::pair_at;

verus! {

/// How often the pair at position `p` stands in the text.
pub open spec fn pair_count(text: Seq<u8>, p: int) -> nat
    decreases text.len(),
{
    if text.len() < 2 {
        0
    } else {
        pair_count(text.drop_last(), p) + if pair_at(text[text.len() - 2], text.last()) == p {
            1nat
        } else {
            0
        }
    }
}

/// How many pairs stand in the text.
pub open spec fn pair_total(text: Seq<u8>) -> nat {
    if text.len() < 2 {
        0
    } else {
        (text.len() - 1) as nat
    }
}

/// How often the pair stands in the texts, each taken on its own.
pub open spec fn batch_count(texts: Seq<Seq<u8>>, p: int) -> nat
    decreases texts.len(),
{
    if texts.len() == 0 {
        0
    } else {
        batch_count(texts.drop_last(), p) + pair_count(texts.last(), p)
    }
}

/// How many pairs stand in the texts, each taken on its own.
pub open spec fn batch_total(texts: Seq<Seq<u8>>) -> nat
    decreases texts.len(),
{
    if texts.len() == 0 {
        0
    } else {
        batch_total(texts.drop_last()) + pair_total(texts.last())
    }
}

/// The bytes of the texts.
pub open spec fn batch_bytes(texts: Seq<Seq<u8>>) -> nat
    decreases texts.len(),
{
    if texts.len() == 0 {
        0
    } else {
        batch_bytes(texts.drop_last()) + texts.last().len()
    }
}

/// The texts behind a list of slices.
pub open spec fn contents(values: Seq<&[u8]>) -> Seq<Seq<u8>> {
    Seq::new(values.len(), |i: int| values[i]@)
}

/// Counting does not depend on how texts are grouped: two batches count what
/// they count together.
pub proof fn law_grouping_does_not_count(a: Seq<Seq<u8>>, b: Seq<Seq<u8>>, p: int)
    ensures
        batch_count(a + b, p) == batch_count(a, p) + batch_count(b, p),
        batch_total(a + b) == batch_total(a) + batch_total(b),
        batch_bytes(a + b) == batch_bytes(a) + batch_bytes(b),
    decreases b.len(),
{
    if b.len() == 0 {
        assert(a + b =~= a);
    } else {
        assert((a + b).drop_last() =~= a + b.drop_last());
        law_grouping_does_not_count(a, b.drop_last(), p);
    }
}

/// No pair straddles two texts: a pair that stands in neither is not counted,
/// whatever bytes meet where one ends and the next begins.
pub proof fn law_no_pair_straddles(a: Seq<u8>, b: Seq<u8>, p: int)
    ensures
        batch_count(seq![a, b], p) == pair_count(a, p) + pair_count(b, p),
        batch_total(seq![a, b]) == pair_total(a) + pair_total(b),
{
    let none = Seq::<Seq<u8>>::empty();
    assert(seq![a, b].drop_last() =~= seq![a]);
    assert(seq![a].drop_last() =~= none);
    assert(batch_count(none, p) == 0 && batch_total(none) == 0);
    assert(batch_count(seq![a], p) == pair_count(a, p));
    assert(batch_total(seq![a]) == pair_total(a));
}

/// No pair stands in a text more often than there are pairs.
pub proof fn lemma_pair_count_bound(text: Seq<u8>, p: int)
    ensures
        pair_count(text, p) <= pair_total(text),
    decreases text.len(),
{
    if text.len() >= 2 {
        lemma_pair_count_bound(text.drop_last(), p);
    }
}

/// A longer start of a text holds a pair no less often.
pub proof fn lemma_pair_count_grows(text: Seq<u8>, n: int, m: int, p: int)
    requires
        0 <= n <= m <= text.len(),
    ensures
        pair_count(text.take(n), p) <= pair_count(text.take(m), p),
    decreases m,
{
    if n < m {
        lemma_pair_count_grows(text, n, m - 1, p);
        lemma_pair_count_step(text, m, p);
    }
}

/// One more byte makes one more pair.
pub proof fn lemma_pair_count_step(text: Seq<u8>, n: int, p: int)
    requires
        1 <= n <= text.len(),
    ensures
        pair_count(text.take(n), p) == pair_count(text.take(n - 1), p) + if n >= 2 && pair_at(
            text[n - 2],
            text[n - 1],
        ) == p {
            1nat
        } else {
            0
        },
{
    assert(text.take(n).drop_last() =~= text.take(n - 1));
}

} // verus!
