//! The byte string that indexes and plans are made of.

use vstd::prelude::*;

verus! {

/// A byte string: a gram of the index, or a string of the regex analysis.
#[derive(Debug, Clone, PartialEq, Eq, PartialOrd, Ord, Hash)]
pub struct Gram {
    bytes: Vec<u8>,
}

impl View for Gram {
    type V = Seq<u8>;

    closed spec fn view(&self) -> Seq<u8> {
        self.bytes@
    }
}

/// The byte strings behind a sequence of grams.
pub open spec fn texts(grams: Seq<Gram>) -> Seq<Seq<u8>> {
    Seq::new(grams.len(), |i: int| grams[i]@)
}

/// A fresh vector of the bytes `from..to`.
pub fn copy_range(bytes: &[u8], from: usize, to: usize) -> (out: Vec<u8>)
    requires
        from <= to <= bytes@.len(),
    ensures
        out@ == bytes@.subrange(from as int, to as int),
{
    let mut out: Vec<u8> = Vec::new();
    let mut i: usize = from;
    while i < to
        invariant
            from <= i <= to <= bytes@.len(),
            out@ == bytes@.subrange(from as int, i as int),
        decreases to - i,
    {
        out.push(bytes[i]);
        i = i + 1;
        assert(out@ =~= bytes@.subrange(from as int, i as int));
    }
    out
}

/// Whether two byte strings are equal.
pub fn same_bytes(a: &[u8], b: &[u8]) -> (same: bool)
    ensures
        same == (a@ == b@),
{
    if a.len() != b.len() {
        return false;
    }
    let mut i: usize = 0;
    while i < a.len()
        invariant
            i <= a@.len() == b@.len(),
            forall|k: int| 0 <= k < i ==> a@[k] == b@[k],
        decreases a@.len() - i,
    {
        if a[i] != b[i] {
            return false;
        }
        i = i + 1;
    }
    assert(a@ =~= b@);
    true
}

impl Gram {
    /// The gram with exactly these bytes.
    pub fn from(bytes: &[u8]) -> (gram: Gram)
        ensures
            gram@ == bytes@,
    {
        let out = copy_range(bytes, 0, bytes.len());
        assert(out@ =~= bytes@);
        Gram { bytes: out }
    }

    /// The gram that takes over these bytes.
    pub fn from_vec(bytes: Vec<u8>) -> (gram: Gram)
        ensures
            gram@ == bytes@,
    {
        Gram { bytes }
    }

    /// The empty string.
    pub fn empty() -> (gram: Gram)
        ensures
            gram@ == Seq::<u8>::empty(),
    {
        Gram { bytes: Vec::new() }
    }

    /// The bytes of `a` followed by those of `b`.
    pub fn concat(a: &[u8], b: &[u8]) -> (gram: Gram)
        ensures
            gram@ == a@ + b@,
    {
        let mut out = copy_range(a, 0, a.len());
        let mut i: usize = 0;
        assert(out@ =~= a@ + b@.subrange(0, 0));
        while i < b.len()
            invariant
                i <= b@.len(),
                out@ == a@ + b@.subrange(0, i as int),
            decreases b@.len() - i,
        {
            out.push(b[i]);
            i = i + 1;
            assert(out@ =~= a@ + b@.subrange(0, i as int));
        }
        assert(b@.subrange(0, i as int) =~= b@);
        Gram { bytes: out }
    }

    /// The gram's bytes.
    pub fn as_bytes(&self) -> (bytes: &[u8])
        ensures
            bytes@ == self@,
    {
        self.bytes.as_slice()
    }

    /// Number of bytes.
    pub fn len(&self) -> (len: usize)
        ensures
            len == self@.len(),
    {
        self.bytes.len()
    }

    /// Whether the gram holds no byte.
    pub fn is_empty(&self) -> (empty: bool)
        ensures
            empty == (self@.len() == 0),
    {
        self.bytes.len() == 0
    }

    /// A gram with the same bytes.
    pub fn duplicate(&self) -> (gram: Gram)
        ensures
            gram@ == self@,
    {
        Gram::from(self.bytes.as_slice())
    }

    /// The leading `keep` bytes.
    pub fn head(&self, keep: usize) -> (gram: Gram)
        requires
            keep <= self@.len(),
        ensures
            gram@ == self@.subrange(0, keep as int),
    {
        Gram { bytes: copy_range(self.bytes.as_slice(), 0, keep) }
    }

    /// The trailing `keep` bytes.
    pub fn tail(&self, keep: usize) -> (gram: Gram)
        requires
            keep <= self@.len(),
        ensures
            gram@ == self@.subrange(self@.len() - keep, self@.len() as int),
    {
        let len: usize = self.bytes.len();
        Gram { bytes: copy_range(self.bytes.as_slice(), len - keep, len) }
    }
}

} // verus!
