//! What a series of calls makes a scanner emit.

use vstd::prelude::*;

use crate::extract::stream::{document, effective_secret, presented, sentinel};
use crate::extract::{
    all_spans, emissions, is_gram, lemma_short_has_none, lemma_spans, lemma_spans_extend, spans,
    ScanOptions,
};
use crate::hashing::{gram_hash, lemma_key_ext, unkeyed, HashKey};
use crate::query::strings::lowered;
use crate::table::WeightTable;

verus! {

/// What decides what a scanner emits next.
pub ghost struct ScanState {
    /// The weights.
    pub table: WeightTable,
    /// The format options.
    pub opts: ScanOptions,
    /// The effective hash space.
    pub space: HashKey,
    /// What the current document has shown to the scan.
    pub stream: Seq<u8>,
    /// The current document received its leading sentinel.
    pub opened: bool,
}

/// A call on a scanner.
pub ghost enum Call {
    Push(Seq<u8>),
    Finish,
    FinishDoc,
}

/// A scanner between two documents.
pub open spec fn fresh(table: WeightTable, opts: ScanOptions, space: HashKey) -> ScanState {
    ScanState { table, opts, space, stream: Seq::empty(), opened: false }
}

/// The stream after a chunk.
pub open spec fn stream_after(s: ScanState, chunk: Seq<u8>) -> Seq<u8> {
    s.stream + (if s.opened {
        Seq::empty()
    } else {
        sentinel(s.opts)
    }) + presented(s.opts, chunk)
}

/// The stream with the sentinel that ends the document.
pub open spec fn stream_ended(s: ScanState) -> Seq<u8> {
    s.stream + (if s.opened {
        sentinel(s.opts)
    } else {
        Seq::empty()
    })
}

/// The grams that a longer stream adds.
pub open spec fn added(s: ScanState, stream: Seq<u8>) -> Seq<(Seq<u8>, u64)> {
    emissions(s.table, stream, s.space).skip(emissions(s.table, s.stream, s.space).len() as int)
}

/// The state after a call.
pub open spec fn after(s: ScanState, call: Call) -> ScanState {
    match call {
        Call::Push(chunk) => ScanState {
            stream: stream_after(s, chunk),
            opened: s.opened || s.opts.line_sentinels,
            ..s
        },
        _ => fresh(s.table, s.opts, s.space),
    }
}

/// What a call emits.
pub open spec fn out_of(s: ScanState, call: Call) -> Seq<(Seq<u8>, u64)> {
    match call {
        Call::Push(chunk) => added(s, stream_after(s, chunk)),
        Call::Finish => Seq::empty(),
        Call::FinishDoc => added(s, stream_ended(s)),
    }
}

/// The state after a series of calls.
pub open spec fn after_all(s: ScanState, calls: Seq<Call>) -> ScanState
    decreases calls.len(),
{
    if calls.len() == 0 {
        s
    } else {
        after(after_all(s, calls.drop_last()), calls.last())
    }
}

/// What a series of calls emits.
pub open spec fn replay(s: ScanState, calls: Seq<Call>) -> Seq<(Seq<u8>, u64)>
    decreases calls.len(),
{
    if calls.len() == 0 {
        Seq::empty()
    } else {
        replay(s, calls.drop_last()) + out_of(after_all(s, calls.drop_last()), calls.last())
    }
}

/// The pushes of chunks.
pub open spec fn pushes(chunks: Seq<Seq<u8>>) -> Seq<Call> {
    Seq::new(chunks.len(), |i: int| Call::Push(chunks[i]))
}

/// The chunks one after the other.
pub open spec fn joined(chunks: Seq<Seq<u8>>) -> Seq<u8>
    decreases chunks.len(),
{
    if chunks.len() == 0 {
        Seq::empty()
    } else {
        joined(chunks.drop_last()) + chunks.last()
    }
}

/// What a stream has emitted stays at the start of what a longer one emits.
proof fn lemma_emissions_grow(t: WeightTable, a: Seq<u8>, b: Seq<u8>, key: HashKey)
    ensures
        emissions(t, a, key).len() <= emissions(t, a + b, key).len(),
        emissions(t, a + b, key).take(emissions(t, a, key).len() as int) == emissions(t, a, key),
{
    let full = a + b;
    assert(full.take(a.len() as int) =~= a);
    lemma_spans_extend(t, a, full, a.len() - 1);
    lemma_spans_grow(t, full, a.len() - 1, full.len() - 1);
    let (x, y) = (all_spans(t, a), all_spans(t, full));
    lemma_spans(t, a, a.len() - 1);
    assert forall|j: int| 0 <= j < x.len() implies #[trigger] emissions(t, full, key)[j]
        == emissions(t, a, key)[j] by {
        assert(x[j] == y[j]);
        assert(x.contains(x[j]));
        let (p, e) = x[j];
        assert(is_gram(t, a, p, e));
        assert(full.subrange(p, e) =~= a.subrange(p, e));
    }
    assert(emissions(t, full, key).take(x.len() as int) =~= emissions(t, a, key));
}

proof fn lemma_spans_grow(t: WeightTable, s: Seq<u8>, n: int, m: int)
    requires
        n <= m,
    ensures
        spans(t, s, n).len() <= spans(t, s, m).len(),
        forall|j: int| 0 <= j < spans(t, s, n).len() ==> #[trigger] spans(t, s, n)[j] == spans(
            t,
            s,
            m,
        )[j],
    decreases m,
{
    if n < m && m > 0 {
        lemma_spans_grow(t, s, n, m - 1);
    }
}

/// What a stream has emitted and what a longer one adds make up what the
/// longer one emits.
pub proof fn lemma_added(s: ScanState, more: Seq<u8>)
    ensures
        emissions(s.table, s.stream, s.space) + added(s, s.stream + more) == emissions(
            s.table,
            s.stream + more,
            s.space,
        ),
{
    lemma_emissions_grow(s.table, s.stream, more, s.space);
    let n = emissions(s.table, s.stream, s.space).len() as int;
    let all = emissions(s.table, s.stream + more, s.space);
    assert(all.take(n) + all.skip(n) =~= all);
}

/// What a stream adds in two steps it adds in one.
pub proof fn lemma_added_twice(s: ScanState, next: ScanState, one: Seq<u8>, two: Seq<u8>)
    requires
        next.table == s.table,
        next.space == s.space,
        next.stream == s.stream + one,
    ensures
        added(s, s.stream + one) + added(next, next.stream + two) == added(
            s,
            next.stream + two,
        ),
{
    lemma_emissions_grow(s.table, s.stream, one, s.space);
    lemma_emissions_grow(s.table, next.stream, two, s.space);
    let first = emissions(s.table, s.stream, s.space);
    let mid = emissions(s.table, next.stream, s.space);
    let all = emissions(s.table, next.stream + two, s.space);
    assert forall|j: int| 0 <= j < mid.len() implies mid[j] == all[j] by {
        assert(all.take(mid.len() as int)[j] == all[j]);
    }
    assert(mid.skip(first.len() as int) + all.skip(mid.len() as int) =~= all.skip(
        first.len() as int,
    ));
}

/// A stream that has not grown adds nothing.
pub proof fn lemma_added_none(s: ScanState)
    ensures
        added(s, s.stream) == Seq::<(Seq<u8>, u64)>::empty(),
{
    assert(added(s, s.stream) =~= Seq::<(Seq<u8>, u64)>::empty());
}

proof fn lemma_nothing_emitted(t: WeightTable, key: HashKey)
    ensures
        emissions(t, Seq::<u8>::empty(), key) == Seq::<(Seq<u8>, u64)>::empty(),
{
    lemma_short_has_none(t, Seq::<u8>::empty(), -1);
    assert(emissions(t, Seq::<u8>::empty(), key) =~= Seq::<(Seq<u8>, u64)>::empty());
}

/// The chunks as a scan sees them, behind the sentinel that opens the
/// document.
spec fn shown_chunks(opts: ScanOptions, chunks: Seq<Seq<u8>>) -> Seq<u8> {
    if chunks.len() == 0 {
        Seq::empty()
    } else {
        sentinel(opts) + presented(opts, joined(chunks))
    }
}

proof fn lemma_pushes(t: WeightTable, opts: ScanOptions, space: HashKey, chunks: Seq<Seq<u8>>)
    ensures
        after_all(fresh(t, opts, space), pushes(chunks)).stream == shown_chunks(opts, chunks),
        after_all(fresh(t, opts, space), pushes(chunks)).opened == (chunks.len() > 0
            && opts.line_sentinels),
        after_all(fresh(t, opts, space), pushes(chunks)).table == t,
        after_all(fresh(t, opts, space), pushes(chunks)).opts == opts,
        after_all(fresh(t, opts, space), pushes(chunks)).space == space,
        replay(fresh(t, opts, space), pushes(chunks)) == emissions(
            t,
            shown_chunks(opts, chunks),
            space,
        ),
    decreases chunks.len(),
{
    let s0 = fresh(t, opts, space);
    lemma_nothing_emitted(t, space);
    if chunks.len() > 0 {
        let head = chunks.drop_last();
        let calls = pushes(chunks);
        lemma_pushes(t, opts, space, head);
        assert(calls.drop_last() =~= pushes(head));
        assert(calls.last() == Call::Push(chunks.last()));
        let s = after_all(s0, pushes(head));
        let now = stream_after(s, chunks.last());
        let more = (if s.opened {
            Seq::empty()
        } else {
            sentinel(opts)
        }) + presented(opts, chunks.last());
        assert(now =~= s.stream + more);
        assert(now =~= shown_chunks(opts, chunks)) by {
            if opts.fold {
                assert(lowered(joined(chunks)) =~= lowered(joined(head)) + lowered(chunks.last()));
            }
            if head.len() == 0 {
                assert(joined(head) =~= Seq::<u8>::empty());
            }
        }
        lemma_added(s, more);
    }
}

/// However a document is cut into chunks, empty ones included, a new scanner
/// emits what a scan of the whole document does, in the same order.
pub proof fn law_chunks_add_up(t: WeightTable, chunks: Seq<Seq<u8>>)
    ensures
        ({
            let opts = ScanOptions { key: unkeyed(), line_sentinels: false, fold: false };
            replay(fresh(t, opts, unkeyed()), pushes(chunks)) == emissions(
                t,
                joined(chunks),
                unkeyed(),
            )
        }),
{
    let opts = ScanOptions { key: unkeyed(), line_sentinels: false, fold: false };
    lemma_pushes(t, opts, unkeyed(), chunks);
    assert(shown_chunks(opts, chunks) =~= joined(chunks));
}

/// The end of a document emits nothing by itself and leaves the scanner as a
/// new one is: every later series of calls emits what it emits on a new
/// scanner.
pub proof fn law_finished_scanner_is_new(
    s: ScanState,
    new: ScanState,
    calls: Seq<Call>,
)
    requires
        new.table == s.table,
        new.opts == s.opts,
        new.space.secret() == effective_secret(s.opts),
        s.space.secret() == effective_secret(s.opts),
        new.stream == Seq::<u8>::empty(),
        !new.opened,
    ensures
        out_of(s, Call::Finish) == Seq::<(Seq<u8>, u64)>::empty(),
        replay(after(s, Call::Finish), calls) == replay(new, calls),
        replay(after(s, Call::FinishDoc), calls) == replay(new, calls),
{
    lemma_key_ext(new.space, s.space);
    assert(after(s, Call::Finish) == new);
}

/// However a document is cut into chunks, ending it makes its grams those of
/// the whole document as the format shows it, the sentinels included.
pub proof fn law_chunked_document_adds_up(
    t: WeightTable,
    opts: ScanOptions,
    space: HashKey,
    chunks: Seq<Seq<u8>>,
)
    requires
        chunks.len() > 0,
    ensures
        replay(fresh(t, opts, space), pushes(chunks).push(Call::FinishDoc)) == emissions(
            t,
            document(opts, joined(chunks)),
            space,
        ),
{
    let new = fresh(t, opts, space);
    let calls = pushes(chunks).push(Call::FinishDoc);
    lemma_pushes(t, opts, space, chunks);
    let s = after_all(new, pushes(chunks));
    let more = if s.opened {
        sentinel(opts)
    } else {
        Seq::empty()
    };
    lemma_added(s, more);
    assert(stream_ended(s) == s.stream + more);
    assert(s.stream + more =~= document(opts, joined(chunks)));
    assert(calls.drop_last() =~= pushes(chunks));
    assert(calls.last() == Call::FinishDoc);
}

/// Documents do not leak into each other: whatever a scanner took before, after
/// the end of that document the next one emits what it emits alone.
pub proof fn law_documents_are_isolated(s: ScanState, chunks: Seq<Seq<u8>>)
    requires
        chunks.len() > 0,
    ensures
        replay(after(s, Call::FinishDoc), pushes(chunks).push(Call::FinishDoc)) == emissions(
            s.table,
            document(s.opts, joined(chunks)),
            s.space,
        ),
{
    law_chunked_document_adds_up(s.table, s.opts, s.space, chunks);
}

/// A document as an index without sentinels and without folding would have to
/// hold it for the same grams.
pub open spec fn spelled_out(opts: ScanOptions, content: Seq<u8>) -> Seq<u8> {
    let bracketed = sentinel(opts) + content + sentinel(opts);
    if opts.fold {
        lowered(bracketed)
    } else {
        bracketed
    }
}

/// Sentinels and folding do what writing them into the document does: scanning
/// under the options emits what scanning the bracketed and folded bytes emits
/// under the key of the same space, and every hash is that of its bytes under
/// that key.
pub proof fn law_options_are_spelled_out(
    t: WeightTable,
    opts: ScanOptions,
    content: Seq<u8>,
    key: HashKey,
)
    requires
        key.secret() == effective_secret(opts),
    ensures
        ({
            let plain = ScanOptions { key, line_sentinels: false, fold: false };
            &&& effective_secret(plain) == effective_secret(opts)
            &&& emissions(t, document(opts, content), key) == emissions(
                t,
                document(plain, spelled_out(opts, content)),
                key,
            )
        }),
        forall|j: int|
            0 <= j < emissions(t, document(opts, content), key).len() ==> (#[trigger] emissions(
                t,
                document(opts, content),
                key,
            )[j]).1 == gram_hash(emissions(t, document(opts, content), key)[j].0, key),
{
    let plain = ScanOptions { key, line_sentinels: false, fold: false };
    let x = spelled_out(opts, content);
    assert(document(plain, x) =~= x);
    assert(document(opts, content) =~= x);
}

} // verus!
