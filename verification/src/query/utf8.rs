//! UTF-8 encoding of scalar values.

use vstd::prelude::*;

use crate::query::gram::copy_range;

verus! {

/// A Unicode scalar value: a code point outside the surrogate gap.
pub open spec fn is_scalar(cp: int) -> bool {
    0 <= cp <= 0x10FFFF && !(0xD800 <= cp <= 0xDFFF)
}

/// The UTF-8 encoding of a code point.
pub open spec fn utf8(cp: int) -> Seq<u8> {
    if cp < 0x80 {
        seq![cp as u8]
    } else if cp < 0x800 {
        seq![(0xC0 + cp / 64) as u8, (0x80 + cp % 64) as u8]
    } else if cp < 0x10000 {
        seq![(0xE0 + cp / 4096) as u8, (0x80 + cp / 64 % 64) as u8, (0x80 + cp % 64) as u8]
    } else {
        seq![
            (0xF0 + cp / 262144) as u8,
            (0x80 + cp / 4096 % 64) as u8,
            (0x80 + cp / 64 % 64) as u8,
            (0x80 + cp % 64) as u8,
        ]
    }
}

/// The bytes are the encoding of one scalar.
pub open spec fn encodes(bytes: Seq<u8>, cp: int) -> bool {
    is_scalar(cp) && bytes == utf8(cp)
}

/// `bytes` starts with the encoding of `cp`.
pub open spec fn starts_with_scalar(bytes: Seq<u8>, cp: int) -> bool {
    is_scalar(cp) && utf8(cp).len() <= bytes.len() && bytes.subrange(0, utf8(cp).len() as int)
        == utf8(cp)
}

/// `bytes` ends with the encoding of `cp`.
pub open spec fn ends_with_scalar(bytes: Seq<u8>, cp: int) -> bool {
    is_scalar(cp) && utf8(cp).len() <= bytes.len() && bytes.subrange(
        bytes.len() - utf8(cp).len(),
        bytes.len() as int,
    ) == utf8(cp)
}

/// The scalar a byte string starts with, when a complete one is there.
pub open spec fn first_scalar(bytes: Seq<u8>) -> Option<int> {
    if exists|cp: int| starts_with_scalar(bytes, cp) {
        Some(choose|cp: int| starts_with_scalar(bytes, cp))
    } else {
        None
    }
}

/// The scalar a byte string ends with, when a complete one is there.
pub open spec fn last_scalar(bytes: Seq<u8>) -> Option<int> {
    if exists|cp: int| ends_with_scalar(bytes, cp) {
        Some(choose|cp: int| ends_with_scalar(bytes, cp))
    } else {
        None
    }
}

/// A byte that continues an encoding.
pub open spec fn is_continuation(b: u8) -> bool {
    0x80 <= b < 0xC0
}

/// The bytes of an encoding, read back.
pub proof fn lemma_utf8_bytes(cp: int)
    requires
        0 <= cp <= 0x10FFFF,
    ensures
        cp < 0x80 ==> utf8(cp)[0] == cp && utf8(cp).len() == 1,
        0x80 <= cp < 0x800 ==> utf8(cp).len() == 2 && 0xC2 <= utf8(cp)[0] < 0xE0 && cp == (
        utf8(cp)[0] - 0xC0) * 64 + (utf8(cp)[1] - 0x80),
        0x800 <= cp < 0x10000 ==> utf8(cp).len() == 3 && 0xE0 <= utf8(cp)[0] < 0xF0 && cp == (
        utf8(cp)[0] - 0xE0) * 4096 + (utf8(cp)[1] - 0x80) * 64 + (utf8(cp)[2] - 0x80),
        0x10000 <= cp ==> utf8(cp).len() == 4 && 0xF0 <= utf8(cp)[0] <= 0xF4 && cp == (utf8(cp)[0]
            - 0xF0) * 262144 + (utf8(cp)[1] - 0x80) * 4096 + (utf8(cp)[2] - 0x80) * 64 + (utf8(
            cp,
        )[3] - 0x80),
        forall|i: int| 1 <= i < utf8(cp).len() ==> is_continuation(#[trigger] utf8(cp)[i]),
        !is_continuation(utf8(cp)[0]),
{
    assert(cp / 4096 == cp / 64 / 64);
    assert(cp / 262144 == cp / 4096 / 64);
}

/// An encoding determines its scalar, even with bytes after it.
pub proof fn lemma_first_scalar(bytes: Seq<u8>, cp: int)
    requires
        starts_with_scalar(bytes, cp),
    ensures
        first_scalar(bytes) == Some(cp),
{
    let other = first_scalar(bytes)->0;
    assert(starts_with_scalar(bytes, other));
    lemma_utf8_bytes(cp);
    lemma_utf8_bytes(other);
    let (u, v) = (utf8(cp), utf8(other));
    assert(u[0] == bytes.subrange(0, u.len() as int)[0]);
    assert(v[0] == bytes.subrange(0, v.len() as int)[0]);
    assert(u.len() == v.len());
}

/// An encoding determines its scalar, even with bytes before it.
pub proof fn lemma_last_scalar(bytes: Seq<u8>, cp: int)
    requires
        ends_with_scalar(bytes, cp),
    ensures
        last_scalar(bytes) == Some(cp),
{
    let other = last_scalar(bytes)->0;
    assert(ends_with_scalar(bytes, other));
    lemma_utf8_bytes(cp);
    lemma_utf8_bytes(other);
    let (u, v) = (utf8(cp), utf8(other));
    let n = bytes.len() as int;
    assert(u =~= bytes.subrange(n - u.len(), n));
    assert(v =~= bytes.subrange(n - v.len(), n));
    if u.len() < v.len() {
        assert(u[0] == bytes[n - u.len()]);
        assert(v[v.len() - u.len()] == bytes[n - u.len()]);
    } else if v.len() < u.len() {
        assert(v[0] == bytes[n - v.len()]);
        assert(u[u.len() - v.len()] == bytes[n - v.len()]);
    }
}

/// The encoding of a code point, when it is a scalar.
pub fn encode(cp: u32) -> (bytes: Option<Vec<u8>>)
    ensures
        bytes is Some <==> is_scalar(cp as int),
        bytes matches Some(bytes) ==> bytes@ == utf8(cp as int),
{
    if cp > 0x10FFFF || (0xD800 <= cp && cp <= 0xDFFF) {
        return None;
    }
    let mut bytes: Vec<u8> = Vec::new();
    if cp < 0x80 {
        bytes.push(cp as u8);
    } else if cp < 0x800 {
        bytes.push((0xC0 + cp / 64) as u8);
        bytes.push((0x80 + cp % 64) as u8);
    } else if cp < 0x10000 {
        bytes.push((0xE0 + cp / 4096) as u8);
        bytes.push((0x80 + cp / 64 % 64) as u8);
        bytes.push((0x80 + cp % 64) as u8);
    } else {
        bytes.push((0xF0 + cp / 262144) as u8);
        bytes.push((0x80 + cp / 4096 % 64) as u8);
        bytes.push((0x80 + cp / 64 % 64) as u8);
        bytes.push((0x80 + cp % 64) as u8);
    }
    assert(bytes@ =~= utf8(cp as int));
    Some(bytes)
}

/// The length an encoding has by its first byte, when one can start with it.
pub fn utf8_len(byte: u8) -> (len: Option<usize>)
    ensures
        len == if byte < 0x80 {
            Some(1usize)
        } else if 0xC2 <= byte < 0xE0 {
            Some(2usize)
        } else if 0xE0 <= byte < 0xF0 {
            Some(3usize)
        } else if 0xF0 <= byte <= 0xF4 {
            Some(4usize)
        } else {
            None
        },
{
    if byte < 0x80 {
        Some(1)
    } else if 0xC2 <= byte && byte < 0xE0 {
        Some(2)
    } else if 0xE0 <= byte && byte < 0xF0 {
        Some(3)
    } else if 0xF0 <= byte && byte <= 0xF4 {
        Some(4)
    } else {
        None
    }
}

/// The scalar that `bytes` encodes, when it is the encoding of exactly one.
fn decode(bytes: &[u8]) -> (cp: Option<u32>)
    ensures
        match cp {
            Some(cp) => encodes(bytes@, cp as int),
            None => forall|cp: int| !encodes(bytes@, cp),
        },
{
    proof {
        assert forall|cp: int| encodes(bytes@, cp) implies 1 <= bytes@.len() <= 4 by {
            lemma_utf8_bytes(cp);
        }
    }
    if bytes.len() == 0 || bytes.len() > 4 {
        return None;
    }
    proof {
        assert forall|cp: int| encodes(bytes@, cp) implies forall|i: int|
            1 <= i < bytes@.len() ==> is_continuation(#[trigger] bytes@[i]) by {
            lemma_utf8_bytes(cp);
        }
    }
    let mut i: usize = 1;
    while i < bytes.len()
        invariant
            1 <= i <= bytes@.len(),
            forall|k: int| 1 <= k < i ==> is_continuation(#[trigger] bytes@[k]),
            forall|cp: int|
                encodes(bytes@, cp) ==> forall|i: int|
                    1 <= i < bytes@.len() ==> is_continuation(#[trigger] bytes@[i]),
        decreases bytes@.len() - i,
    {
        if bytes[i] < 0x80 || bytes[i] >= 0xC0 {
            assert(!is_continuation(bytes@[i as int]));
            return None;
        }
        i = i + 1;
    }
    let lead: u32 = bytes[0] as u32;
    assert forall|cp: int| encodes(bytes@, cp) implies (if bytes@.len() == 1 {
        lead < 0x80
    } else if bytes@.len() == 2 {
        0xC0 <= lead < 0xE0
    } else if bytes@.len() == 3 {
        0xE0 <= lead < 0xF0
    } else {
        0xF0 <= lead < 0xF8
    }) by {
        lemma_utf8_bytes(cp);
    }
    let cp: u32 = if bytes.len() == 1 {
        if lead >= 0x80 {
            return None;
        }
        lead
    } else if bytes.len() == 2 {
        if lead < 0xC0 || lead >= 0xE0 {
            return None;
        }
        (lead - 0xC0) * 64 + (bytes[1] as u32 - 0x80)
    } else if bytes.len() == 3 {
        if lead < 0xE0 || lead >= 0xF0 {
            return None;
        }
        (lead - 0xE0) * 4096 + (bytes[1] as u32 - 0x80) * 64 + (bytes[2] as u32 - 0x80)
    } else {
        if lead < 0xF0 || lead >= 0xF8 {
            return None;
        }
        (lead - 0xF0) * 262144 + (bytes[1] as u32 - 0x80) * 4096 + (bytes[2] as u32 - 0x80) * 64 + (
        bytes[3] as u32 - 0x80)
    };
    assert forall|other: int| encodes(bytes@, other) implies other == cp by {
        lemma_utf8_bytes(other);
    }
    match encode(cp) {
        Some(again) => {
            if crate::query::gram::same_bytes(again.as_slice(), bytes) {
                Some(cp)
            } else {
                None
            }
        },
        None => None,
    }
}

/// The scalar `bytes` starts with, when a complete one is there.
pub fn first_char(bytes: &[u8]) -> (cp: Option<u32>)
    ensures
        match cp {
            Some(cp) => first_scalar(bytes@) == Some(cp as int),
            None => first_scalar(bytes@) is None,
        },
{
    proof {
        assert forall|cp: int| starts_with_scalar(bytes@, cp) implies bytes@.len() > 0
            && bytes@[0] == utf8(cp)[0] by {
            lemma_utf8_bytes(cp);
            assert(bytes@.subrange(0, utf8(cp).len() as int)[0] == bytes@[0]);
        }
    }
    if bytes.len() == 0 {
        return None;
    }
    let len: usize = match utf8_len(bytes[0]) {
        Some(len) => len,
        None => {
            assert forall|cp: int| !starts_with_scalar(bytes@, cp) by {
                if starts_with_scalar(bytes@, cp) {
                    lemma_utf8_bytes(cp);
                }
            }
            return None;
        },
    };
    assert forall|cp: int| starts_with_scalar(bytes@, cp) implies utf8(cp).len() == len by {
        lemma_utf8_bytes(cp);
    }
    if bytes.len() < len {
        return None;
    }
    let head = copy_range(bytes, 0, len);
    let cp = decode(head.as_slice());
    proof {
        match cp {
            Some(cp) => {
                assert(starts_with_scalar(bytes@, cp as int));
                lemma_first_scalar(bytes@, cp as int);
            },
            None => {
                assert forall|cp: int| !starts_with_scalar(bytes@, cp) by {
                    assert(!encodes(head@, cp));
                }
            },
        }
    }
    cp
}

/// The scalar `bytes` ends with, when a complete one is there.
pub fn last_char(bytes: &[u8]) -> (cp: Option<u32>)
    ensures
        match cp {
            Some(cp) => last_scalar(bytes@) == Some(cp as int),
            None => last_scalar(bytes@) is None,
        },
{
    let n: usize = bytes.len();
    if n == 0 {
        assert forall|cp: int| !ends_with_scalar(bytes@, cp) by {
            if ends_with_scalar(bytes@, cp) {
                lemma_utf8_bytes(cp);
            }
        }
        return None;
    }
    let mut start: usize = n - 1;
    while start > 0 && bytes[start] >= 0x80 && bytes[start] < 0xC0
        invariant
            start < n == bytes@.len(),
            forall|k: int| start < k < n ==> is_continuation(#[trigger] bytes@[k]),
        decreases start,
    {
        start = start - 1;
    }
    let tail = copy_range(bytes, start, n);
    let cp = decode(tail.as_slice());
    proof {
        match cp {
            Some(cp) => {
                assert(ends_with_scalar(bytes@, cp as int));
                lemma_last_scalar(bytes@, cp as int);
            },
            None => {
                assert forall|cp: int| !ends_with_scalar(bytes@, cp) by {
                    if ends_with_scalar(bytes@, cp) {
                        lemma_utf8_bytes(cp);
                        let u = utf8(cp);
                        let at = n - u.len();
                        assert(u =~= bytes@.subrange(at, n as int));
                        assert(u[0] == bytes@[at]);
                        if at < start {
                            assert(u[start - at] == bytes@[start as int]);
                            assert(is_continuation(bytes@[start as int]));
                        }
                        assert(at == start);
                        assert(tail@ =~= u);
                        assert(encodes(tail@, cp));
                    }
                }
            },
        }
    }
    cp
}

} // verus!
