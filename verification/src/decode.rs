//! The decoder: reads the head/tail binary layout back into tokens at the
//! declared types.
//!
//! Offsets and lengths are read from 32-byte words; a word that runs past
//! the buffer fails with `Truncated`, a head slot that does not resolve to a
//! position inside the buffer fails with `InvalidOffset`.

use vstd::prelude::*;
use crate::types::{TypeDescriptor, type_wf, type_dynamic};
use crate::token::{Token, matches_type, valid_token};
use crate::outside::utf8_lossy;
use crate::words::{be_val, lemma_be_val_concat, lemma_be_val_zeros};

verus! {

broadcast use vstd::std_specs::vec::group_vec_axioms, vstd::slice::group_slice_axioms;

/// The value of the 32-byte big-endian word at `off`.
pub open spec fn word_at(data: Seq<u8>, off: int) -> nat {
    be_val(data.subrange(off, off + 32))
}

/// The word at `off` lies in the buffer and resolves to a machine offset.
pub open spec fn word_ok(data: Seq<u8>, off: int) -> bool {
    0 <= off && off + 32 <= data.len() && word_at(data, off) <= usize::MAX
}

/// What a decoded token holds, pinned to the bytes it was read from:
/// leaves carry their own slot's bytes; byte strings and text carry the
/// range their offset and length words name; an array's element count is
/// its count word.  Composite element values are not pinned here.
#[verifier::opaque]
pub open spec fn param_reads(d: TypeDescriptor, data: Seq<u8>, off: int, t: Token) -> bool {
    match d {
        TypeDescriptor::Bool => off + 32 <= data.len() && t == Token::Bool(data[off + 31] != 0),
        TypeDescriptor::Uint(_) => off + 32 <= data.len() && (t matches Token::Uint(w) && w@
            == data.subrange(off, off + 32)),
        TypeDescriptor::Int(_) => off + 32 <= data.len() && (t matches Token::Int(w) && w@
            == data.subrange(off, off + 32)),
        TypeDescriptor::Address => off + 32 <= data.len() && (t matches Token::Address(a) && a@
            == data.subrange(off + 12, off + 32)),
        TypeDescriptor::FixedBytes(nn) => off + nn <= data.len() && (t matches Token::FixedBytes(b)
            && b@ == data.subrange(off, off + nn)),
        TypeDescriptor::Bytes => {
            let o1 = word_at(data, off) as int;
            let ln = word_at(data, o1) as int;
            word_ok(data, off) && word_ok(data, o1) && o1 + 32 + ln <= data.len() && (t matches
                Token::Bytes(b) && b@ == data.subrange(o1 + 32, o1 + 32 + ln))
        },
        TypeDescriptor::Str => {
            let o1 = word_at(data, off) as int;
            let ln = word_at(data, o1) as int;
            word_ok(data, off) && word_ok(data, o1) && o1 + 32 + ln <= data.len() && (t matches
                Token::Str(x) && x@ == crate::outside::utf8_lossy_of(
                data.subrange(o1 + 32, o1 + 32 + ln),
            ))
        },
        TypeDescriptor::Array(_) => {
            let o1 = word_at(data, off) as int;
            word_ok(data, off) && word_ok(data, o1) && (t matches Token::Array(es) && es@.len()
                == word_at(data, o1))
        },
        TypeDescriptor::FixedArray(e, _) => if type_dynamic(*e) {
            word_ok(data, off) && word_at(data, off) <= data.len()
        } else {
            true
        },
        TypeDescriptor::Tuple(ds2) => if type_dynamic(TypeDescriptor::Tuple(ds2)) {
            word_ok(data, off) && word_at(data, off) <= data.len()
        } else {
            true
        },
    }
}

/// When decoding one value is owed success: a leaf slot inside the buffer,
/// a byte string or text whose offset and length words resolve inside the
/// buffer, or a variable array with a resolving zero count word.
#[verifier::opaque]
pub open spec fn param_ok_owed(d: TypeDescriptor, data: Seq<u8>, off: int) -> bool {
    match d {
        TypeDescriptor::Bool => 0 <= off && off + 32 <= data.len(),
        TypeDescriptor::Uint(_) => 0 <= off && off + 32 <= data.len(),
        TypeDescriptor::Int(_) => 0 <= off && off + 32 <= data.len(),
        TypeDescriptor::Address => 0 <= off && off + 32 <= data.len(),
        TypeDescriptor::FixedBytes(nn) => 0 <= off && off + nn <= data.len() && off + 32
            <= usize::MAX,
        TypeDescriptor::Bytes => word_ok(data, off) && word_ok(data, word_at(data, off) as int)
            && word_at(data, off) + 32 + word_at(data, word_at(data, off) as int) <= data.len(),
        TypeDescriptor::Str => word_ok(data, off) && word_ok(data, word_at(data, off) as int)
            && word_at(data, off) + 32 + word_at(data, word_at(data, off) as int) <= data.len(),
        TypeDescriptor::Array(_) => word_ok(data, off) && word_ok(
            data,
            word_at(data, off) as int,
        ) && word_at(data, word_at(data, off) as int) == 0,
        _ => false,
    }
}

/// A non-composite static type: one whole 32-byte head slot.
pub open spec fn leaf_static(d: TypeDescriptor) -> bool {
    d is Bool || d is Uint || d is Int || d is Address || d is FixedBytes
}

/// The token a leaf-static slot at `off` decodes to.
pub open spec fn leaf_reads(t: Token, d: TypeDescriptor, data: Seq<u8>, off: int) -> bool {
    match d {
        TypeDescriptor::Bool => t == Token::Bool(data[off + 31] != 0),
        TypeDescriptor::Uint(_) => t matches Token::Uint(w) && w@ == data.subrange(off, off + 32),
        TypeDescriptor::Int(_) => t matches Token::Int(w) && w@ == data.subrange(off, off + 32),
        TypeDescriptor::Address => t matches Token::Address(a) && a@ == data.subrange(
            off + 12,
            off + 32,
        ),
        TypeDescriptor::FixedBytes(nn) => t matches Token::FixedBytes(b) && b@ == data.subrange(
            off,
            off + nn,
        ),
        _ => true,
    }
}

/// Failure to decode a binary buffer at the declared types.
#[derive(Debug, Clone, Copy, PartialEq, Eq)]
pub enum DecodeError {
    /// A declared offset or length runs past the buffer end.
    Truncated,
    /// A dynamic head slot does not resolve to a position in the buffer.
    InvalidOffset,
}

/// Reads the 32-byte word at `off` as a machine offset or length: on
/// success exactly the word's big-endian value, and success is owed when
/// the word resolves.
fn read_word_usize(data: &[u8], off: usize) -> (r: Result<usize, DecodeError>)
    ensures
        r matches Ok(v) ==> off + 32 <= data@.len() && data@.len() <= usize::MAX && v == word_at(
            data@,
            off as int,
        ),
        word_ok(data@, off as int) ==> r is Ok,
{
    let n = data.len();
    if off > n || n - off < 32 {
        return Err(DecodeError::Truncated);
    }
    let mut i: usize = 0;
    let mut val: u64 = 0;
    while i < 24
        invariant
            0 <= i <= 24,
            n == data@.len(),
            off + 32 <= n,
            forall|q: int| 0 <= q < i ==> #[trigger] data@[off + q] == 0,
        decreases 24 - i,
    {
        if data[off + i] != 0 {
            proof {
                if word_ok(data@, off as int) {
                    reveal_with_fuel(crate::words::pow256, 10);
                    assert((usize::MAX as nat) < crate::words::pow256(8));
                    let w = data@.subrange(off as int, off + 32);
                    crate::words::lemma_prefix_zero_iff(w, 8);
                    assert(w[i as int] == data@[off + i]);
                    assert(false);
                }
            }
            return Err(DecodeError::InvalidOffset);
        }
        i = i + 1;
    }
    let mut j: usize = 24;
    while j < 32
        invariant
            24 <= j <= 32,
            n == data@.len(),
            off + 32 <= n,
            forall|q: int| 0 <= q < 24 ==> #[trigger] data@[off + q] == 0,
            (val as nat) < crate::words::pow256((j - 24) as nat),
            val as nat == be_val(data@.subrange(off + 24, off + j)),
        decreases 32 - j,
    {
        proof {
            reveal_with_fuel(crate::words::pow256, 10);
            assert((val as nat) * 256 + 255 < crate::words::pow256(8)) by (nonlinear_arith)
                requires
                    (val as nat) < crate::words::pow256(7),
                    crate::words::pow256(8) == 256 * crate::words::pow256(7),
            ;
            assert(crate::words::pow256(8) == 0xffff_ffff_ffff_ffffu64 + 1);
            let t = data@.subrange(off as int + 24, off + j + 1);
            assert(t.drop_last() =~= data@.subrange(off + 24, off + j));
            assert(t.last() == data@[off + j]);
        }
        val = val * 256 + (data[off + j] as u64);
        j = j + 1;
    }
    proof {
        let w = data@.subrange(off as int, off + 32);
        let hi = data@.subrange(off as int, off + 24);
        let lo = data@.subrange(off as int + 24, off + 32);
        assert(w =~= hi + lo);
        lemma_be_val_concat(hi, lo);
        assert(forall|q: int| 0 <= q < 24 ==> #[trigger] hi[q] == data@[off + q]);
        assert(forall|q: int| 0 <= q < hi.len() ==> hi[q] == 0);
        lemma_be_val_zeros(hi);
        assert(be_val(hi) * crate::words::pow256(8) == 0) by (nonlinear_arith)
            requires
                be_val(hi) == 0,
        ;
        assert(word_at(data@, off as int) == val);
    }
    if val > usize::MAX as u64 {
        proof {
            assert(!word_ok(data@, off as int));
        }
        return Err(DecodeError::InvalidOffset);
    }
    Ok(val as usize)
}

/// Reads `len` bytes at `off`: on success exactly that byte range, and
/// success is owed when the range lies inside the buffer.
fn take_bytes(data: &[u8], off: usize, len: usize) -> (r: Result<Vec<u8>, DecodeError>)
    ensures
        r matches Ok(b) ==> b@.len() == len && off + len <= data@.len() && data@.len()
            <= usize::MAX && b@ == data@.subrange(off as int, off + len),
        off + len <= data@.len() ==> r is Ok,
{
    if off > data.len() || data.len() - off < len {
        return Err(DecodeError::Truncated);
    }
    let s = vstd::slice::slice_subrange(data, off, off + len);
    Ok(vstd::slice::slice_to_vec(s))
}

/// Decodes the elements of an array region, one element type, `count`
/// times.
fn decode_elems(e: &TypeDescriptor, data: &[u8], count: usize) -> (r: Result<
    (Vec<Token>, usize),
    DecodeError,
>)
    requires
        type_wf(*e),
    ensures
        r matches Ok(p) ==> p.0@.len() == count && (forall|i: int|
            0 <= i < p.0@.len() ==> matches_type(#[trigger] p.0@[i], *e) && valid_token(p.0@[i])),
        count == 0 ==> r is Ok,
    decreases *e, 2int,
{
    let mut out: Vec<Token> = Vec::new();
    let mut off: usize = 0;
    let mut k: usize = 0;
    while k < count
        invariant
            0 <= k <= count,
            type_wf(*e),
            out@.len() == k,
            forall|q: int|
                0 <= q < k ==> matches_type(#[trigger] out@[q], *e) && valid_token(out@[q]),
        decreases count - k,
    {
        let (t, no) = match decode_param(e, data, off) {
            Ok(p) => p,
            Err(err) => {
                return Err(err);
            },
        };
        out.push(t);
        off = no;
        k = k + 1;
    }
    Ok((out, off))
}

/// Decodes the components of a tuple region at their own types.  A list of
/// leaf-static types whose slots all lie inside the buffer is owed success,
/// with every token read from its own 32-byte slot.
fn decode_each(ds: &Vec<TypeDescriptor>, data: &[u8], start: usize) -> (r: Result<
    (Vec<Token>, usize),
    DecodeError,
>)
    requires
        forall|i: int| 0 <= i < ds@.len() ==> type_wf(#[trigger] ds@[i]),
    ensures
        r matches Ok(p) ==> p.0@.len() == ds@.len() && (forall|i: int|
            0 <= i < p.0@.len() ==> matches_type(#[trigger] p.0@[i], ds@[i]) && valid_token(
                p.0@[i],
            )),
        (forall|i: int| 0 <= i < ds@.len() ==> leaf_static(#[trigger] ds@[i])) && start + 32
            * ds@.len() <= data@.len() ==> (r matches Ok(p) && (forall|i: int|
            0 <= i < ds@.len() ==> leaf_reads(p.0@[i], #[trigger] ds@[i], data@, start + 32 * i))),
        ds@.len() == 1 && param_ok_owed(ds@[0], data@, start as int) ==> r is Ok,
        ds@.len() == 1 ==> (r matches Ok(p) ==> param_reads(ds@[0], data@, start as int, p.0@[0])),
    decreases ds@, 2int,
{
    let dn = data.len();
    let n = ds.len();
    let mut out: Vec<Token> = Vec::new();
    let mut off: usize = start;
    let mut k: usize = 0;
    while k < n
        invariant
            0 <= k <= n,
            n == ds@.len(),
            dn == data@.len(),
            forall|i: int| 0 <= i < ds@.len() ==> type_wf(#[trigger] ds@[i]),
            out@.len() == k,
            forall|q: int|
                0 <= q < k ==> matches_type(#[trigger] out@[q], ds@[q]) && valid_token(out@[q]),
            (forall|i: int| 0 <= i < ds@.len() ==> leaf_static(#[trigger] ds@[i])) && start + 32
                * ds@.len() <= data@.len() ==> off == start + 32 * k && (forall|q: int|
                0 <= q < k ==> leaf_reads(out@[q], #[trigger] ds@[q], data@, start + 32 * q)),
            k == 0 ==> off == start,
            ds@.len() == 1 && k == 1 ==> param_reads(ds@[0], data@, start as int, out@[0]),
        decreases n - k,
    {
        proof {
            assert(decreases_to!(ds@ => ds@[k as int]));
        }
        let ghost all_leaf = (forall|i: int| 0 <= i < ds@.len() ==> leaf_static(#[trigger] ds@[i]))
            && start + 32 * ds@.len() <= data@.len();
        proof {
            if all_leaf {
                assert(leaf_static(ds@[k as int]));
                assert(off + 32 <= start + 32 * ds@.len());
            }
        }
        let (t, no) = match decode_param(&ds[k], data, off) {
            Ok(p) => p,
            Err(err) => {
                proof {
                    reveal(param_ok_owed);
                    if all_leaf {
                        match ds@[k as int] {
                            TypeDescriptor::FixedBytes(nn) => {
                                assert(nn <= 32);
                            },
                            _ => {},
                        }
                        assert(false);
                    }
                }
                return Err(err);
            },
        };
        out.push(t);
        off = no;
        k = k + 1;
        proof {
            reveal(param_reads);
            if all_leaf {
                match ds@[k - 1] {
                    TypeDescriptor::FixedBytes(nn) => {
                        assert(nn <= 32);
                    },
                    _ => {},
                }
                assert(leaf_reads(t, ds@[k - 1], data@, start + 32 * (k - 1)));
            }
        }
    }
    Ok((out, off))
}

/// Decodes one value of type `d` whose head slot stands at `off` in `data`,
/// returning the token and the offset following the head slot.  Leaf values
/// are pinned to the bytes they were read from, and a static leaf slot that
/// lies inside the buffer is owed success.
#[verifier::rlimit(100)]
fn decode_param(d: &TypeDescriptor, data: &[u8], off: usize) -> (r: Result<
    (Token, usize),
    DecodeError,
>)
    requires
        type_wf(*d),
    ensures
        r matches Ok(p) ==> matches_type(p.0, *d) && valid_token(p.0) && param_reads(
            *d,
            data@,
            off as int,
            p.0,
        ),
        param_ok_owed(*d, data@, off as int) ==> r is Ok,
        !(d is FixedArray) && !(d is Tuple) ==> (r matches Ok(p) ==> p.1 == off + 32),
    decreases *d, 1int,
{
    proof {
        reveal(param_reads);
        reveal(param_ok_owed);
    }
    match d {
        TypeDescriptor::Address => {
            let w = match take_bytes(data, off, 32) {
                Ok(w) => w,
                Err(e) => {
                    return Err(e);
                },
            };
            let a = vstd::slice::slice_to_vec(vstd::slice::slice_subrange(w.as_slice(), 12, 32));
            proof {
                assert(a@ =~= data@.subrange(off + 12, off + 32));
            }
            Ok((Token::Address(a), off + 32))
        },
        TypeDescriptor::Uint(_) => {
            let w = match take_bytes(data, off, 32) {
                Ok(w) => w,
                Err(e) => {
                    return Err(e);
                },
            };
            Ok((Token::Uint(w), off + 32))
        },
        TypeDescriptor::Int(_) => {
            let w = match take_bytes(data, off, 32) {
                Ok(w) => w,
                Err(e) => {
                    return Err(e);
                },
            };
            Ok((Token::Int(w), off + 32))
        },
        TypeDescriptor::Bool => {
            let w = match take_bytes(data, off, 32) {
                Ok(w) => w,
                Err(e) => {
                    return Err(e);
                },
            };
            Ok((Token::Bool(w[31] != 0), off + 32))
        },
        TypeDescriptor::FixedBytes(n) => {
            let b = match take_bytes(data, off, *n) {
                Ok(b) => b,
                Err(e) => {
                    return Err(e);
                },
            };
            if off > usize::MAX - 32 {
                return Err(DecodeError::Truncated);
            }
            Ok((Token::FixedBytes(b), off + 32))
        },
        TypeDescriptor::Bytes => {
            let doff = match read_word_usize(data, off) {
                Ok(v) => v,
                Err(e) => {
                    return Err(e);
                },
            };
            let len = match read_word_usize(data, doff) {
                Ok(v) => v,
                Err(e) => {
                    return Err(e);
                },
            };
            let b = match take_bytes(data, doff + 32, len) {
                Ok(b) => b,
                Err(e) => {
                    return Err(e);
                },
            };
            Ok((Token::Bytes(b), off + 32))
        },
        TypeDescriptor::Str => {
            let doff = match read_word_usize(data, off) {
                Ok(v) => v,
                Err(e) => {
                    return Err(e);
                },
            };
            let len = match read_word_usize(data, doff) {
                Ok(v) => v,
                Err(e) => {
                    return Err(e);
                },
            };
            let b = match take_bytes(data, doff + 32, len) {
                Ok(b) => b,
                Err(e) => {
                    return Err(e);
                },
            };
            Ok((Token::Str(utf8_lossy(b.as_slice())), off + 32))
        },
        TypeDescriptor::Array(e) => {
            let len_off = match read_word_usize(data, off) {
                Ok(v) => v,
                Err(e2) => {
                    return Err(e2);
                },
            };
            let count = match read_word_usize(data, len_off) {
                Ok(v) => v,
                Err(e2) => {
                    return Err(e2);
                },
            };
            let tail = vstd::slice::slice_subrange(data, len_off + 32, data.len());
            let (elems, _) = match decode_elems(e, tail, count) {
                Ok(p) => p,
                Err(e2) => {
                    proof {
                        assert(count != 0);
                        assert(!param_ok_owed(*d, data@, off as int));
                    }
                    return Err(e2);
                },
            };
            Ok((Token::Array(elems), off + 32))
        },
        TypeDescriptor::FixedArray(e, n) => {
            if e.is_dynamic() {
                let doff = match read_word_usize(data, off) {
                    Ok(v) => v,
                    Err(e2) => {
                        return Err(e2);
                    },
                };
                if doff > data.len() {
                    return Err(DecodeError::InvalidOffset);
                }
                let tail = vstd::slice::slice_subrange(data, doff, data.len());
                let (elems, _) = match decode_elems(e, tail, *n) {
                    Ok(p) => p,
                    Err(e2) => {
                        return Err(e2);
                    },
                };
                Ok((Token::FixedArray(elems), off + 32))
            } else {
                let (elems, no) = match decode_elems_at(e, data, off, *n) {
                    Ok(p) => p,
                    Err(e2) => {
                        return Err(e2);
                    },
                };
                Ok((Token::FixedArray(elems), no))
            }
        },
        TypeDescriptor::Tuple(ds) => {
            if d.is_dynamic() {
                let doff = match read_word_usize(data, off) {
                    Ok(v) => v,
                    Err(e2) => {
                        return Err(e2);
                    },
                };
                if doff > data.len() {
                    return Err(DecodeError::InvalidOffset);
                }
                let tail = vstd::slice::slice_subrange(data, doff, data.len());
                let (elems, _) = match decode_each(ds, tail, 0) {
                    Ok(p) => p,
                    Err(e2) => {
                        return Err(e2);
                    },
                };
                Ok((Token::Tuple(elems), off + 32))
            } else {
                let (elems, no) = match decode_each(ds, data, off) {
                    Ok(p) => p,
                    Err(e2) => {
                        return Err(e2);
                    },
                };
                Ok((Token::Tuple(elems), no))
            }
        },
    }
}

/// Decodes `count` static elements in place starting at `off`.
fn decode_elems_at(e: &TypeDescriptor, data: &[u8], off: usize, count: usize) -> (r: Result<
    (Vec<Token>, usize),
    DecodeError,
>)
    requires
        type_wf(*e),
    ensures
        r matches Ok(p) ==> p.0@.len() == count && (forall|i: int|
            0 <= i < p.0@.len() ==> matches_type(#[trigger] p.0@[i], *e) && valid_token(p.0@[i])),
        count == 0 ==> r is Ok,
    decreases *e, 2int,
{
    let mut out: Vec<Token> = Vec::new();
    let mut cur: usize = off;
    let mut k: usize = 0;
    while k < count
        invariant
            0 <= k <= count,
            type_wf(*e),
            out@.len() == k,
            forall|q: int|
                0 <= q < k ==> matches_type(#[trigger] out@[q], *e) && valid_token(out@[q]),
        decreases count - k,
    {
        let (t, no) = match decode_param(e, data, cur) {
            Ok(p) => p,
            Err(err) => {
                return Err(err);
            },
        };
        out.push(t);
        cur = no;
        k = k + 1;
    }
    Ok((out, cur))
}

/// Decodes a binary blob into one token per declared descriptor.  Every
/// returned token matches its descriptor's shape and is structurally valid;
/// for a list of leaf-static types whose slots fit the buffer, decoding is
/// owed success with every token read from its own 32-byte slot.
pub fn decode(descriptors: &Vec<TypeDescriptor>, bytes: &[u8]) -> (r: Result<
    Vec<Token>,
    DecodeError,
>)
    requires
        forall|i: int| 0 <= i < descriptors@.len() ==> type_wf(#[trigger] descriptors@[i]),
    ensures
        r matches Ok(ts) ==> ts@.len() == descriptors@.len() && (forall|i: int|
            0 <= i < ts@.len() ==> matches_type(#[trigger] ts@[i], descriptors@[i]) && valid_token(
                ts@[i],
            )),
        (forall|i: int| 0 <= i < descriptors@.len() ==> leaf_static(#[trigger] descriptors@[i]))
            && 32 * descriptors@.len() <= bytes@.len() ==> (r matches Ok(ts) && (forall|i: int|
            0 <= i < descriptors@.len() ==> leaf_reads(
                ts@[i],
                #[trigger] descriptors@[i],
                bytes@,
                32 * i,
            ))),
        descriptors@.len() == 1 && param_ok_owed(descriptors@[0], bytes@, 0) ==> r is Ok,
        descriptors@.len() == 1 ==> (r matches Ok(ts) ==> param_reads(
            descriptors@[0],
            bytes@,
            0,
            ts@[0],
        )),
{
    match decode_each(descriptors, bytes, 0) {
        Ok((ts, _)) => Ok(ts),
        Err(e) => Err(e),
    }
}

} // verus!
