//! Streaming extraction that holds a bounded window, never the whole
//! document.

use vstd::prelude::*;

use crate::extract::{
    advance, all_spans, emissions, empty_ring, lemma_ring_write, lemma_short_has_none,
    lemma_spans_extend, lemma_stack_inv_extend, ring_inv, sized, span_emissions, span_hash, spans,
    stack_inv, ScanOptions, MAX_LEN, MIN_LEN, RING,
};
use crate::extract::replay::{
    added, after, fresh, lemma_added, lemma_added_none, lemma_added_twice, out_of, Call, ScanState,
};
use crate::hashing::{lemma_key_ext, lemma_step, prefix_hash, step, HashKey, FOLD_SALT};
use crate::query::gram::copy_range;
use crate::query::strings::{fold_byte, lowered};
use crate::table::WeightTable;

verus! {

/// Most recent bytes a stream holds.
const WINDOW_CAP: usize = 1024;

/// Bytes kept on compaction, at least the longest gram so every
/// still-emittable gram start stays in the window.
const WINDOW_KEEP: usize = 128;

/// The bytes of a chunk as the scan sees them.
pub open spec fn presented(opts: ScanOptions, chunk: Seq<u8>) -> Seq<u8> {
    if opts.fold {
        lowered(chunk)
    } else {
        chunk
    }
}

/// The line terminator that brackets a document, where the options ask for it.
pub open spec fn sentinel(opts: ScanOptions) -> Seq<u8> {
    if opts.line_sentinels {
        seq![10u8]
    } else {
        Seq::empty()
    }
}

/// The stream that stands for a whole document.
pub open spec fn document(opts: ScanOptions, content: Seq<u8>) -> Seq<u8> {
    sentinel(opts) + presented(opts, content) + sentinel(opts)
}

/// The hash space the options select: the deployment key, fold-tagged when
/// folding.
pub open spec fn effective_secret(opts: ScanOptions) -> u64 {
    if opts.fold {
        opts.key.secret() ^ FOLD_SALT
    } else {
        opts.key.secret()
    }
}

/// The emitted bytes and hashes.
pub open spec fn shown(out: Seq<(Vec<u8>, u64)>) -> Seq<(Seq<u8>, u64)> {
    Seq::new(out.len(), |i: int| (out[i].0@, out[i].1))
}

/// Streaming sparse n-gram extraction that holds a bounded window, never the
/// whole document.
pub struct StreamScanner<'t> {
    table: &'t WeightTable,
    window: Vec<u8>,
    base: usize,
    /// monotonic stack of (absolute position, weight)
    stack: Vec<(usize, u32)>,
    /// rolling prefix hash of everything pushed since the last `finish`
    hash: u64,
    /// recent prefix-hash values, indexed by absolute position
    ring: Vec<u64>,
    /// effective hash space
    ekey: HashKey,
    opts: ScanOptions,
    /// whether the current document received its leading sentinel
    started: bool,
    /// everything pushed since the last `finish`
    seen: Ghost<Seq<u8>>,
}

impl<'t> StreamScanner<'t> {
    /// The bytes the current document has shown to the scan so far.
    pub closed spec fn stream(self) -> Seq<u8> {
        self.seen@
    }

    /// The table the scanner is bound to.
    pub closed spec fn bound(self) -> WeightTable {
        *self.table
    }

    /// The format options.
    pub closed spec fn options(self) -> ScanOptions {
        self.opts
    }

    /// The effective hash space.
    pub closed spec fn space(self) -> HashKey {
        self.ekey
    }

    /// Whether the current document received its leading sentinel.
    pub closed spec fn opened(self) -> bool {
        self.started
    }

    /// What decides what the scanner emits next.
    pub open spec fn state(self) -> ScanState {
        ScanState {
            table: self.bound(),
            opts: self.options(),
            space: self.space(),
            stream: self.stream(),
            opened: self.opened(),
        }
    }

    /// The scanner's state is that of a scan of the stream.
    pub closed spec fn wf(self) -> bool {
        let s = self.seen@;
        &&& self.base + self.window@.len() == s.len()
        &&& s.len() <= usize::MAX
        &&& self.window@ == s.subrange(self.base as int, s.len() as int)
        &&& self.window@.len() <= WINDOW_CAP
        &&& self.base > 0 ==> self.window@.len() >= WINDOW_KEEP
        &&& self.hash == prefix_hash(s)
        &&& ring_inv(self.ring@, s, s.len() as int)
        &&& stack_inv(*self.table, s, self.stack@, pairs_in(s))
        &&& self.ekey.secret() == effective_secret(self.opts)
    }

    /// New scanner bound to a weight table, ready to receive byte chunks.
    pub fn new(table: &'t WeightTable) -> (scanner: StreamScanner<'t>)
        ensures
            scanner.wf(),
            scanner.bound() == *table,
            scanner.stream() == Seq::<u8>::empty(),
            !scanner.opened(),
            scanner.options() == (ScanOptions {
                key: crate::hashing::unkeyed(),
                line_sentinels: false,
                fold: false,
            }),
            scanner.space().secret() == effective_secret(scanner.options()),
            scanner.state() == fresh(*table, scanner.options(), crate::hashing::unkeyed()),
    {
        let scanner = StreamScanner::with_options(table, ScanOptions::default());
        proof {
            lemma_key_ext(scanner.space(), crate::hashing::unkeyed());
        }
        scanner
    }

    /// New scanner with explicit format options.
    pub fn with_options(table: &'t WeightTable, opts: ScanOptions) -> (scanner: StreamScanner<'t>)
        ensures
            scanner.wf(),
            scanner.bound() == *table,
            scanner.stream() == Seq::<u8>::empty(),
            !scanner.opened(),
            scanner.options() == opts,
            scanner.space().secret() == effective_secret(opts),
            scanner.state() == fresh(*table, opts, scanner.space()),
    {
        let scanner = StreamScanner {
            table,
            window: Vec::new(),
            base: 0,
            stack: Vec::new(),
            hash: 0,
            ring: empty_ring(),
            ekey: if opts.fold {
                opts.key.folded()
            } else {
                opts.key
            },
            opts,
            started: false,
            seen: Ghost(Seq::empty()),
        };
        proof {
            lemma_step(Seq::<u8>::empty(), 0);
            assert(scanner.window@ =~= Seq::<u8>::empty().subrange(0, 0));
        }
        scanner
    }

    /// Feed the next chunk. The returned grams, appended to those returned
    /// since the document began, are those of a scan over the concatenation
    /// of all chunks.
    pub fn push(&mut self, chunk: &[u8]) -> (out: Vec<(Vec<u8>, u64)>)
        requires
            old(self).wf(),
            old(self).stream().len() + chunk@.len() < usize::MAX,
        ensures
            final(self).wf(),
            final(self).bound() == old(self).bound(),
            final(self).options() == old(self).options(),
            final(self).space() == old(self).space(),
            final(self).opened() == (old(self).opened() || old(self).options().line_sentinels),
            final(self).stream() == old(self).stream() + (if old(self).opened() {
                Seq::empty()
            } else {
                sentinel(old(self).options())
            }) + presented(old(self).options(), chunk@),
            emissions(final(self).bound(), final(self).stream(), final(self).space())
                == emissions(old(self).bound(), old(self).stream(), old(self).space()) + shown(
                out@,
            ),
            final(self).state() == after(old(self).state(), Call::Push(chunk@)),
            shown(out@) == out_of(old(self).state(), Call::Push(chunk@)),
    {
        let mut out: Vec<(Vec<u8>, u64)> = Vec::new();
        assert(shown(out@) =~= Seq::<(Seq<u8>, u64)>::empty());
        let ghost start = self.state();
        let ghost lead = if self.opened() {
            Seq::<u8>::empty()
        } else {
            sentinel(self.options())
        };
        proof {
            lemma_added_none(start);
        }
        if self.opts.line_sentinels && !self.started {
            self.started = true;
            let newline: [u8; 1] = [10];
            self.push_raw(&newline, &mut out);
            assert(presented(self.opts, newline@) =~= seq![10u8]);
        }
        let ghost mid = self.state();
        assert(mid.stream =~= start.stream + lead);
        assert(shown(out@) =~= added(start, mid.stream));
        self.push_raw(chunk, &mut out);
        proof {
            let more = presented(start.opts, chunk@);
            assert(self.stream() =~= mid.stream + more);
            lemma_added_twice(start, mid, lead, more);
            assert(self.stream() =~= start.stream + (lead + more));
            lemma_added(start, lead + more);
        }
        out
    }

    /// The automaton over one chunk, fold applied as the bytes enter the
    /// window.
    fn push_raw(&mut self, chunk: &[u8], out: &mut Vec<(Vec<u8>, u64)>)
        requires
            old(self).wf(),
            old(self).stream().len() + chunk@.len() <= usize::MAX,
        ensures
            final(self).wf(),
            final(self).bound() == old(self).bound(),
            final(self).options() == old(self).options(),
            final(self).space() == old(self).space(),
            final(self).opened() == old(self).opened(),
            final(self).stream() == old(self).stream() + presented(old(self).options(), chunk@),
            shown(final(out)@) == shown(old(out)@) + added(
                old(self).state(),
                final(self).stream(),
            ),
    {
        let ghost whole = presented(self.opts, chunk@);
        let mut at: usize = 0;
        proof {
            assert(self.stream() + whole.take(0) =~= self.stream());
            lemma_added_none(self.state());
            assert(shown(out@) =~= shown(out@) + added(self.state(), self.stream()));
        }
        while at < chunk.len()
            invariant
                at <= chunk@.len(),
                whole == presented(old(self).options(), chunk@),
                old(self).stream().len() + chunk@.len() <= usize::MAX,
                self.wf(),
                self.bound() == old(self).bound(),
                self.options() == old(self).options(),
                self.space() == old(self).space(),
                self.opened() == old(self).opened(),
                self.stream() == old(self).stream() + whole.take(at as int),
                shown(out@) == shown(old(out)@) + added(old(self).state(), self.stream()),
            decreases chunk@.len() - at,
        {
            if self.window.len() == WINDOW_CAP {
                self.compact();
            }
            let byte: u8 = if self.opts.fold {
                fold_byte(chunk[at])
            } else {
                chunk[at]
            };
            let ghost before = self.state();
            let ghost prior = shown(out@);
            self.absorb(byte, out);
            at = at + 1;
            proof {
                assert(whole[at - 1] == byte);
                assert(whole.take(at as int) =~= whole.take(at - 1).push(byte));
                assert(self.stream() =~= old(self).stream() + whole.take(at as int));
                assert(self.stream() =~= before.stream + seq![byte]);
                let start = old(self).state();
                lemma_added_twice(start, before, whole.take(at - 1), seq![byte]);
                assert(shown(out@) =~= shown(old(out)@) + (added(start, before.stream) + added(
                    before,
                    self.stream(),
                )));
            }
        }
        assert(whole.take(at as int) =~= whole);
    }

    /// Run one byte of the stream through the automaton.
    fn absorb(&mut self, byte: u8, out: &mut Vec<(Vec<u8>, u64)>)
        requires
            old(self).wf(),
            old(self).stream().len() < usize::MAX,
            old(self).window@.len() < WINDOW_CAP,
        ensures
            final(self).wf(),
            final(self).bound() == old(self).bound(),
            final(self).options() == old(self).options(),
            final(self).space() == old(self).space(),
            final(self).opened() == old(self).opened(),
            final(self).stream() == old(self).stream().push(byte),
            shown(final(out)@) == shown(old(out)@) + added(
                old(self).state(),
                final(self).stream(),
            ),
    {
        let ghost t = *self.table;
        let ghost s = self.seen@;
        let ghost full = s.push(byte);
        let n: usize = self.base + self.window.len();
        assert(full.take(s.len() as int) =~= s);
        self.window.push(byte);
        assert(self.window@ =~= full.subrange(self.base as int, full.len() as int));
        self.hash = step(self.hash, byte);
        proof {
            lemma_step(s, byte);
            assert(full.take(n + 1) =~= full);
            assert(ring_inv(self.ring@, full, n as int)) by {
                assert forall|p: int|
                    #![trigger full.take(p + 1)]
                    0 <= p < n && n - p <= RING implies self.ring@[p % RING as int] == prefix_hash(
                    full.take(p + 1),
                ) by {
                    assert(full.take(p + 1) =~= s.take(p + 1));
                }
            }
            lemma_ring_write(self.ring@, full, n as int, self.hash);
        }
        self.ring.set(n % RING, self.hash);
        proof {
            self.seen@ = full;
        }
        if n == 0 {
            proof {
                lemma_short_has_none(t, s, s.len() - 1);
                lemma_short_has_none(t, full, full.len() - 1);
                assert(emissions(t, s, self.ekey) =~= emissions(t, full, self.ekey));
                assert(shown(out@) =~= shown(old(out)@) + added(old(self).state(), full));
            }
            return ;
        }
        let i: usize = n - 1;
        let j: usize = self.window.len() - 1;
        let w: u32 = self.table.weight(self.window[j - 1], self.window[j]);
        let mut starts: Vec<usize> = Vec::new();
        proof {
            lemma_stack_inv_extend(t, s, full, self.stack@, i as int);
            lemma_spans_extend(t, s, full, i as int);
        }
        advance(&mut self.stack, i, w, &mut starts, Ghost(t), Ghost(full));
        let ghost listed = spans(t, full, i as int);
        let ghost fresh = span_emissions(listed, full, self.ekey);
        proof {
            assert(emissions(t, s, self.ekey) =~= fresh) by {
                crate::extract::lemma_spans(t, s, s.len() - 1);
                assert forall|k: int| 0 <= k < listed.len() implies s.subrange(
                    listed[k].0,
                    listed[k].1,
                ) == full.subrange(listed[k].0, listed[k].1) by {
                    assert(all_spans(t, s).contains((listed[k].0, listed[k].1)));
                    assert(s.subrange(listed[k].0, listed[k].1) =~= full.subrange(
                        listed[k].0,
                        listed[k].1,
                    ));
                }
            }
            assert(listed + sized(starts@.take(0), i + 2) =~= listed);
            assert(shown(out@) =~= shown(out@) + fresh.skip(listed.len() as int));
        }
        let mut k: usize = 0;
        while k < starts.len()
            invariant
                k <= starts@.len(),
                self.wf(),
                self.seen@ == full,
                full.len() == n + 1,
                i + 1 == n,
                self.table == old(self).table,
                self.opts == old(self).opts,
                self.ekey == old(self).ekey,
                self.started == old(self).started,
                forall|m: int| 0 <= m < starts@.len() ==> starts@[m] < i,
                shown(out@) == shown(old(out)@) + span_emissions(
                    listed + sized(starts@.take(k as int), i + 2),
                    full,
                    self.ekey,
                ).skip(listed.len() as int),
            decreases starts@.len() - k,
        {
            let start: usize = starts[k];
            let end: usize = n + 1;
            let len: usize = end - start;
            assert(starts@.take(k + 1).drop_last() =~= starts@.take(k as int));
            if MIN_LEN <= len && len <= MAX_LEN {
                let ghost prior = out@;
                let ghost so_far = listed + sized(starts@.take(k as int), i + 2);
                assert(full.take(end as int) =~= full);
                let hash: u64 = span_hash(&self.ring, self.hash, start, end, self.ekey, Ghost(full));
                let gram = copy_range(
                    self.window.as_slice(),
                    start - self.base,
                    end - self.base,
                );
                assert(gram@ =~= full.subrange(start as int, end as int));
                out.push((gram, hash));
                assert(shown(out@) =~= shown(prior).push((gram@, hash)));
                assert(listed + sized(starts@.take(k + 1), i + 2) =~= so_far.push(
                    (start as int, end as int),
                ));
                assert(span_emissions(so_far.push((start as int, end as int)), full, self.ekey)
                    =~= span_emissions(so_far, full, self.ekey).push((gram@, hash)));
                assert(shown(out@) =~= shown(old(out)@) + span_emissions(
                    listed + sized(starts@.take(k + 1), i + 2),
                    full,
                    self.ekey,
                ).skip(listed.len() as int));
            }
            k = k + 1;
        }
        assert(starts@.take(k as int) =~= starts@);
        assert(listed + sized(starts@, i + 2) == all_spans(t, full));
    }

    /// End the current document and reset for the next, emitting nothing
    /// since a scan leaves no closed grams at end of input.
    pub fn finish(&mut self)
        requires
            old(self).wf(),
        ensures
            final(self).wf(),
            final(self).bound() == old(self).bound(),
            final(self).options() == old(self).options(),
            final(self).space() == old(self).space(),
            final(self).stream() == Seq::<u8>::empty(),
            !final(self).opened(),
            final(self).state() == after(old(self).state(), Call::Finish),
    {
        self.window.clear();
        self.base = 0;
        self.stack.clear();
        self.hash = 0;
        self.started = false;
        proof {
            self.seen@ = Seq::empty();
            lemma_step(Seq::<u8>::empty(), 0);
            assert(self.window@ =~= Seq::<u8>::empty().subrange(0, 0));
        }
    }

    /// End the current document honoring the options: feeds the trailing
    /// sentinel, which can close grams, then resets.
    pub fn finish_doc(&mut self) -> (out: Vec<(Vec<u8>, u64)>)
        requires
            old(self).wf(),
            old(self).stream().len() < usize::MAX,
        ensures
            final(self).wf(),
            final(self).bound() == old(self).bound(),
            final(self).options() == old(self).options(),
            final(self).space() == old(self).space(),
            final(self).stream() == Seq::<u8>::empty(),
            !final(self).opened(),
            emissions(
                old(self).bound(),
                old(self).stream() + (if old(self).opened() {
                    sentinel(old(self).options())
                } else {
                    Seq::empty()
                }),
                old(self).space(),
            ) == emissions(old(self).bound(), old(self).stream(), old(self).space()) + shown(out@),
            final(self).state() == after(old(self).state(), Call::FinishDoc),
            shown(out@) == out_of(old(self).state(), Call::FinishDoc),
    {
        let mut out: Vec<(Vec<u8>, u64)> = Vec::new();
        assert(shown(out@) =~= Seq::<(Seq<u8>, u64)>::empty());
        let ghost start = self.state();
        let ghost tail = if self.opened() {
            sentinel(self.options())
        } else {
            Seq::<u8>::empty()
        };
        proof {
            lemma_added_none(start);
        }
        if self.opts.line_sentinels && self.started {
            let newline: [u8; 1] = [10];
            self.push_raw(&newline, &mut out);
            assert(presented(self.opts, newline@) =~= seq![10u8]);
        }
        proof {
            assert(self.stream() =~= start.stream + tail);
            assert(shown(out@) =~= added(start, self.stream()));
            lemma_added(start, tail);
        }
        self.finish();
        out
    }

    /// Slide the still-emittable tail to the window front so more bytes fit,
    /// dropping only bytes too old to start a gram.
    fn compact(&mut self)
        requires
            old(self).wf(),
            old(self).window@.len() == WINDOW_CAP,
        ensures
            final(self).wf(),
            final(self).bound() == old(self).bound(),
            final(self).options() == old(self).options(),
            final(self).space() == old(self).space(),
            final(self).opened() == old(self).opened(),
            final(self).stream() == old(self).stream(),
            final(self).window@.len() == WINDOW_KEEP,
    {
        let drop: usize = WINDOW_CAP - WINDOW_KEEP;
        let kept = copy_range(self.window.as_slice(), drop, WINDOW_CAP);
        self.window = kept;
        self.base = self.base + drop;
        assert(self.window@ =~= self.seen@.subrange(self.base as int, self.seen@.len() as int));
    }
}

/// The pairs of a text.
spec fn pairs_in(s: Seq<u8>) -> int {
    if s.len() == 0 {
        0
    } else {
        s.len() - 1
    }
}

/// Scan a whole slice under explicit options, returning gram bytes and hashes.
///
/// The bytes of each gram are the scanned stream's: folded when `fold` is on,
/// including the virtual `\n` sentinels when `line_sentinels` is on, which is
/// exactly what an index stores and a plan queries.
pub fn scan_with(table: &WeightTable, content: &[u8], opts: ScanOptions) -> (out: Vec<
    (Vec<u8>, u64),
>)
    requires
        content@.len() < usize::MAX - 1,
    ensures
        forall|key: HashKey| #[trigger]
            key.secret() == effective_secret(opts) ==> shown(out@) == emissions(
                *table,
                document(opts, content@),
                key,
            ),
{
    let mut scanner = StreamScanner::with_options(table, opts);
    proof {
        lemma_short_has_none(*table, Seq::<u8>::empty(), -1);
    }
    let ghost space = scanner.space();
    assert(emissions(*table, Seq::<u8>::empty(), space) =~= Seq::<(Seq<u8>, u64)>::empty());
    let mut out = scanner.push(content);
    let ghost body = scanner.stream();
    assert(Seq::<(Seq<u8>, u64)>::empty() + shown(out@) =~= shown(out@));
    let ghost head = out@;
    let mut tail = scanner.finish_doc();
    let ghost more = tail@;
    out.append(&mut tail);
    assert(shown(out@) =~= shown(head) + shown(more));
    proof {
        assert(body + sentinel(opts) =~= document(opts, content@));
        assert forall|key: HashKey| #[trigger]
            key.secret() == effective_secret(opts) implies shown(out@) == emissions(
            *table,
            document(opts, content@),
            key,
        ) by {
            crate::hashing::lemma_key_ext(key, space);
        }
    }
    out
}

} // verus!
