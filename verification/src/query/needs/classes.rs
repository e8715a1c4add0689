//! Byte sets of which every match shows a member.

use vstd::prelude::*;

use crate::bytes::{count_below, ByteSet256};
use crate::query::edges::{class_bytes, class_lead_bytes, set_len, union, Edge};
use crate::query::hir::Regex;
use crate::query::needs::member_sets;
use crate::query::plan::tune::{lemma_placed_at, ranked};

verus! {

/// Most byte sets a plan asks for.
pub const MAX_ANY_BYTE_SETS: usize = 4;

/// Largest byte set worth asking for.
pub const MAX_ANY_BYTE_SET_LEN: u32 = 128;

/// Sets rank by size.
pub open spec fn set_rank() -> spec_fn(Set<u8>) -> int {
    |s: Set<u8>| count_below(s, 256) as int
}

/// The sets by size.
pub open spec fn by_size(sets: Seq<Set<u8>>) -> Seq<Set<u8>> {
    ranked(sets, set_rank())
}

/// The sets neither empty nor too large.
pub open spec fn useful(sets: Seq<Set<u8>>) -> Seq<Set<u8>>
    decreases sets.len(),
{
    if sets.len() == 0 {
        sets
    } else {
        let head = useful(sets.drop_last());
        if 0 < count_below(sets.last(), 256) <= MAX_ANY_BYTE_SET_LEN {
            head.push(sets.last())
        } else {
            head
        }
    }
}

/// The sets without those equal to their left neighbour.
pub open spec fn set_runs(s: Seq<Set<u8>>) -> Seq<Set<u8>>
    decreases s.len(),
{
    if s.len() <= 1 {
        s
    } else if s[s.len() - 1] == s[s.len() - 2] {
        set_runs(s.drop_last())
    } else {
        set_runs(s.drop_last()).push(s.last())
    }
}

/// The byte sets every match shows a member of.
pub open spec fn class_sets(h: Regex) -> Seq<Set<u8>>
    decreases h, 1int, 0int,
{
    match h {
        Regex::Class(class) => seq![class_bytes(class, Edge::Start)],
        Regex::Capture(sub) => class_sets(*sub),
        Regex::Repetition(rep) => if rep.min >= 1 {
            class_sets(*rep.sub)
        } else {
            Seq::empty()
        },
        Regex::Concat(subs) => concat_sets(h, subs@.len() as int),
        Regex::Alternation(subs) => branch_sets(h, subs@.len() as int),
        _ => Seq::empty(),
    }
}

/// The sets of the first `n` parts.
pub open spec fn concat_sets(h: Regex, n: int) -> Seq<Set<u8>>
    decreases h, 0int, n,
{
    match h {
        Regex::Concat(subs) => if n <= 0 || n > subs@.len() {
            Seq::empty()
        } else {
            concat_sets(h, n - 1) + class_sets(subs@[n - 1])
        },
        _ => Seq::empty(),
    }
}

/// The sets joined pairwise, as far as both sequences go.
pub open spec fn paired(a: Seq<Set<u8>>, b: Seq<Set<u8>>) -> Seq<Set<u8>> {
    Seq::new(
        if a.len() < b.len() {
            a.len()
        } else {
            b.len()
        },
        |i: int| a[i].union(b[i]),
    )
}

/// The sets of the first `n` branches joined rank by rank.
pub open spec fn branch_sets(h: Regex, n: int) -> Seq<Set<u8>>
    decreases h, 0int, n,
{
    match h {
        Regex::Alternation(subs) => if n <= 0 || n > subs@.len() {
            Seq::empty()
        } else if n == 1 {
            by_size(class_sets(subs@[0]))
        } else {
            paired(branch_sets(h, n - 1), by_size(class_sets(subs@[n - 1])))
        },
        _ => Seq::empty(),
    }
}

/// The byte sets a plan asks for: the smallest useful ones, each once.
pub open spec fn required_sets(h: Regex) -> Seq<Set<u8>> {
    let all = set_runs(by_size(useful(class_sets(h))));
    all.take(
        if all.len() < MAX_ANY_BYTE_SETS {
            all.len() as int
        } else {
            MAX_ANY_BYTE_SETS as int
        },
    )
}

/// The byte sets a plan asks for.
pub fn required(hir: &Regex) -> (sets: Vec<ByteSet256>)
    requires
        hir.wf(),
    ensures
        member_sets(sets@) == required_sets(*hir),
{
    let all = collect(hir);
    let kept = keep_useful(&all);
    let sorted = sort_by_size(&kept);
    let mut sets = dedup_sets(&sorted);
    let ghost runs = member_sets(sets@);
    if sets.len() > MAX_ANY_BYTE_SETS {
        sets.truncate(MAX_ANY_BYTE_SETS);
        assert(member_sets(sets@) =~= runs.take(MAX_ANY_BYTE_SETS as int));
    } else {
        assert(runs.take(runs.len() as int) =~= runs);
    }
    sets
}

fn keep_useful(sets: &Vec<ByteSet256>) -> (out: Vec<ByteSet256>)
    ensures
        member_sets(out@) == useful(member_sets(sets@)),
{
    let ghost all = member_sets(sets@);
    let mut out: Vec<ByteSet256> = Vec::new();
    let mut i: usize = 0;
    assert(member_sets(out@) =~= useful(all.take(0)));
    while i < sets.len()
        invariant
            i <= sets@.len(),
            all == member_sets(sets@),
            member_sets(out@) == useful(all.take(i as int)),
        decreases sets@.len() - i,
    {
        assert(all.take(i + 1).drop_last() =~= all.take(i as int));
        let len: u32 = set_len(&sets[i]);
        let ghost prior = member_sets(out@);
        if len > 0 && len <= MAX_ANY_BYTE_SET_LEN {
            out.push(sets[i]);
            assert(member_sets(out@) =~= prior.push(all[i as int]));
        }
        i = i + 1;
    }
    assert(all.take(i as int) =~= all);
    out
}

fn sort_by_size(sets: &Vec<ByteSet256>) -> (out: Vec<ByteSet256>)
    ensures
        member_sets(out@) == by_size(member_sets(sets@)),
{
    let ghost all = member_sets(sets@);
    let ghost rank = set_rank();
    let mut out: Vec<ByteSet256> = Vec::new();
    let mut sizes: Vec<u32> = Vec::new();
    let mut i: usize = 0;
    assert(member_sets(out@) =~= ranked(all.take(0), rank));
    while i < sets.len()
        invariant
            i <= sets@.len(),
            all == member_sets(sets@),
            rank == set_rank(),
            member_sets(out@) == ranked(all.take(i as int), rank),
            sizes@.len() == out@.len(),
            forall|k: int|
                0 <= k < out@.len() ==> (#[trigger] sizes@[k]) == count_below(
                    out@[k].members(),
                    256,
                ),
        decreases sets@.len() - i,
    {
        let set = sets[i];
        let size: u32 = set_len(&set);
        let mut pos: usize = out.len();
        while pos > 0 && sizes[pos - 1] > size
            invariant
                pos <= out@.len() == sizes@.len(),
                forall|k: int| pos <= k < out@.len() ==> (#[trigger] sizes@[k]) > size,
            decreases pos,
        {
            pos = pos - 1;
        }
        let ghost prior = member_sets(out@);
        let ghost (before_out, before_sizes) = (out@, sizes@);
        proof {
            assert forall|k: int| pos <= k < prior.len() implies rank(#[trigger] prior[k]) > rank(
                set.members(),
            ) by {
                assert(sizes@[k] > size);
            }
            if pos > 0 {
                assert(sizes@[pos - 1] == count_below(out@[pos - 1].members(), 256));
                assert(prior[pos - 1] == out@[pos - 1].members());
            }
            lemma_placed_at(prior, set.members(), rank, pos as int);
            assert(all.take(i + 1).drop_last() =~= all.take(i as int));
        }
        out.insert(pos, set);
        sizes.insert(pos, size);
        assert(member_sets(out@) =~= prior.insert(pos as int, set.members()));
        assert forall|k: int| 0 <= k < out@.len() implies (#[trigger] sizes@[k]) == count_below(
            out@[k].members(),
            256,
        ) by {
            if k < pos {
                assert(before_sizes[k] == count_below(before_out[k].members(), 256));
            } else if k > pos {
                assert(before_sizes[k - 1] == count_below(before_out[k - 1].members(), 256));
            }
        }
        i = i + 1;
    }
    assert(all.take(i as int) =~= all);
    out
}

fn dedup_sets(sets: &Vec<ByteSet256>) -> (out: Vec<ByteSet256>)
    ensures
        member_sets(out@) == set_runs(member_sets(sets@)),
{
    let ghost all = member_sets(sets@);
    let mut out: Vec<ByteSet256> = Vec::new();
    let mut i: usize = 0;
    assert(member_sets(out@) =~= set_runs(all.take(0)));
    while i < sets.len()
        invariant
            i <= sets@.len(),
            all == member_sets(sets@),
            member_sets(out@) == set_runs(all.take(i as int)),
        decreases sets@.len() - i,
    {
        let ghost seen = all.take(i + 1);
        assert(seen.drop_last() =~= all.take(i as int));
        let ghost prior = member_sets(out@);
        if i == 0 {
            assert(prior =~= Seq::<Set<u8>>::empty());
            out.push(sets[i]);
            assert(member_sets(out@) =~= seen);
        } else {
            assert(seen[i as int] == all[i as int] && seen[i - 1] == all[i - 1]);
            if !sets[i].same(sets[i - 1]) {
                out.push(sets[i]);
                assert(member_sets(out@) =~= prior.push(all[i as int]));
            }
        }
        i = i + 1;
    }
    assert(all.take(i as int) =~= all);
    out
}

fn collect(hir: &Regex) -> (sets: Vec<ByteSet256>)
    requires
        hir.wf(),
    ensures
        member_sets(sets@) == class_sets(*hir),
    decreases hir, 1int,
{
    match hir {
        Regex::Class(class) => {
            let mut sets: Vec<ByteSet256> = Vec::new();
            sets.push(class_lead_bytes(class));
            assert(member_sets(sets@) =~= class_sets(*hir));
            sets
        },
        Regex::Capture(sub) => collect(sub),
        Regex::Repetition(rep) => {
            if rep.min >= 1 {
                collect(&rep.sub)
            } else {
                no_sets()
            }
        },
        Regex::Empty => no_sets(),
        Regex::Look(_) => no_sets(),
        Regex::Literal(_) => no_sets(),
        Regex::Concat(subs) => {
            let mut sets: Vec<ByteSet256> = Vec::new();
            let mut i: usize = 0;
            assert(member_sets(sets@) =~= Seq::<Set<u8>>::empty());
            while i < subs.len()
                invariant
                    i <= subs@.len(),
                    hir.wf(),
                    *hir == Regex::Concat(*subs),
                    hir->Concat_0 == *subs,
                    member_sets(sets@) == concat_sets(*hir, i as int),
                decreases subs@.len() - i,
            {
                assert(subs@[i as int].wf());
                let mut more = collect(&subs[i]);
                let ghost (a, b) = (member_sets(sets@), member_sets(more@));
                sets.append(&mut more);
                assert(member_sets(sets@) =~= a + b);
                i = i + 1;
            }
            sets
        },
        Regex::Alternation(_) => union_branches(hir),
    }
}

fn no_sets() -> (sets: Vec<ByteSet256>)
    ensures
        member_sets(sets@) == Seq::<Set<u8>>::empty(),
{
    let sets: Vec<ByteSet256> = Vec::new();
    assert(member_sets(sets@) =~= Seq::<Set<u8>>::empty());
    sets
}

fn union_branches(hir: &Regex) -> (sets: Vec<ByteSet256>)
    requires
        hir.wf(),
        hir is Alternation,
    ensures
        member_sets(sets@) == class_sets(*hir),
    decreases hir, 0int,
{
    let mut sets: Vec<ByteSet256> = Vec::new();
    assert(member_sets(sets@) =~= Seq::<Set<u8>>::empty());
    if let Regex::Alternation(subs) = hir {
        let mut i: usize = 0;
        while i < subs.len()
            invariant
                i <= subs@.len(),
                hir.wf(),
                *hir == Regex::Alternation(*subs),
                hir->Alternation_0 == *subs,
                member_sets(sets@) == branch_sets(*hir, i as int),
            decreases subs@.len() - i,
        {
            assert(subs@[i as int].wf());
            let branch = sort_by_size(&collect(&subs[i]));
            if i == 0 {
                sets = branch;
            } else {
                sets = pair_sets(&sets, &branch);
            }
            i = i + 1;
        }
    }
    sets
}

fn pair_sets(a: &Vec<ByteSet256>, b: &Vec<ByteSet256>) -> (out: Vec<ByteSet256>)
    ensures
        member_sets(out@) == paired(member_sets(a@), member_sets(b@)),
{
    let mut out: Vec<ByteSet256> = Vec::new();
    let mut i: usize = 0;
    while i < a.len() && i < b.len()
        invariant
            i <= a@.len(),
            i <= b@.len(),
            out@.len() == i,
            forall|k: int|
                0 <= k < i ==> (#[trigger] out@[k]).members() == a@[k].members().union(
                    b@[k].members(),
                ),
        decreases a@.len() - i,
    {
        out.push(union(a[i], b[i]));
        i = i + 1;
    }
    assert(member_sets(out@) =~= paired(member_sets(a@), member_sets(b@)));
    out
}

} // verus!
