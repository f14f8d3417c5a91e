//! The tokenizer: from textual parameter values to typed [`Token`]s.
//!
//! Two fidelity modes share one recursive structure and differ only at the
//! leaves: lenient accepts decimal or `0x`-hex integers, bare booleans,
//! optionally quoted text and optionally `0x`-prefixed hex for byte types;
//! strict requires the exact canonical forms (full 64-digit hex words for
//! integers, bare hex for byte types).

use vstd::prelude::*;
use crate::types::{TypeDescriptor, type_wf};
use crate::token::{Token, matches_type, valid_token};
use crate::words::{
    be_val,
    be_bytes,
    pow256,
    mul_small_rec,
    neg_rec,
    lemma_be_val_bound,
    lemma_be_val_zeros,
    lemma_be_bytes_len,
    lemma_be_bytes_val_small,
    lemma_be_val_injective,
    lemma_prefix_zero_iff,
    lemma_pow256_pos,
    lemma_pow256_add,
};
use crate::parse::{is_digit, all_digits, dec_val, lemma_dec_val_mono, to_chars};

verus! {

broadcast use vstd::std_specs::vec::group_vec_axioms;

/// Failure to read a textual value at a declared type.
#[derive(Debug, Clone, Copy, PartialEq, Eq)]
pub enum TokenizeError {
    /// The text cannot take the descriptor's shape.
    TypeMismatch,
    /// A numeric value exceeds the declared bit width.
    OutOfRange,
    /// An array or tuple text has the wrong element count.
    ArityMismatch,
}

/// The two fidelity modes.
#[derive(Debug, Clone, Copy, PartialEq, Eq)]
pub enum Mode {
    Lenient,
    Strict,
}

pub open spec fn is_hex_digit(c: char) -> bool {
    is_digit(c) || 'a' <= c <= 'f' || 'A' <= c <= 'F'
}

pub open spec fn hex_digit_val(c: char) -> nat {
    if is_digit(c) {
        (c as nat - 48) as nat
    } else if 'a' <= c <= 'f' {
        (c as nat - 87) as nat
    } else {
        (c as nat - 55) as nat
    }
}

pub open spec fn all_hex(s: Seq<char>) -> bool {
    forall|i: int| 0 <= i < s.len() ==> is_hex_digit(#[trigger] s[i])
}

/// The number a string of hex digits denotes.
pub open spec fn hex_val(s: Seq<char>) -> nat
    decreases s.len(),
{
    if s.len() == 0 {
        0
    } else {
        (16 * hex_val(s.drop_last()) + hex_digit_val(s.last())) as nat
    }
}

/// The bytes a string of hex digit pairs denotes.
pub open spec fn hex_bytes(s: Seq<char>) -> Seq<u8>
    decreases s.len(),
{
    if s.len() < 2 {
        Seq::empty()
    } else {
        hex_bytes(s.take(s.len() - 2)).push(
            (16 * hex_digit_val(s[s.len() - 2]) + hex_digit_val(s.last())) as u8,
        )
    }
}

/// Strips a leading `0x` in lenient mode.
pub open spec fn hex_stripped(s: Seq<char>, mode: Mode) -> Seq<char> {
    if mode is Lenient && s.len() >= 2 && s[0] == '0' && s[1] == 'x' {
        s.skip(2)
    } else {
        s
    }
}

/// The unsigned value a lenient integer text denotes: `0x`-prefixed hex or
/// plain decimal.
pub open spec fn lenient_uint_val(s: Seq<char>) -> Option<nat> {
    if s.len() > 2 && s[0] == '0' && s[1] == 'x' && all_hex(s.skip(2)) {
        Some(hex_val(s.skip(2)))
    } else if s.len() > 0 && all_digits(s) {
        Some(dec_val(s))
    } else {
        None
    }
}

/// The value a strict integer text denotes: exactly one full hex word.
pub open spec fn strict_word_val(s: Seq<char>) -> Option<nat> {
    if s.len() == 64 && all_hex(s) {
        Some(hex_val(s))
    } else {
        None
    }
}

pub open spec fn int_text_neg(s: Seq<char>, mode: Mode) -> bool {
    mode is Lenient && s.len() > 0 && s[0] == '-'
}

pub open spec fn int_text_body(s: Seq<char>, mode: Mode) -> Seq<char> {
    if int_text_neg(s, mode) {
        s.skip(1)
    } else {
        s
    }
}

pub open spec fn uint_text_val(s: Seq<char>, mode: Mode) -> Option<nat> {
    match mode {
        Mode::Lenient => lenient_uint_val(s),
        Mode::Strict => strict_word_val(s),
    }
}

/// The 32-byte two's-complement word of a signed value given as sign and
/// magnitude.
pub open spec fn int_word_of(neg: bool, v: nat) -> Seq<u8> {
    if neg && v > 0 {
        be_bytes((pow256(32) - v) as nat, 32)
    } else {
        be_bytes(v, 32)
    }
}

/// The word is a two's-complement sign extension of its low `nb` bytes:
/// exactly then does the value fit a signed width of `nb` bytes.
pub open spec fn sign_extended(w: Seq<u8>, nb: nat) -> bool {
    forall|i: int|
        0 <= i < w.len() - nb ==> #[trigger] w[i] == (if w[(w.len() - nb) as int] >= 128 {
            255u8
        } else {
            0u8
        })
}

/// What the tokenizer returns on each leaf descriptor, exactly.
pub open spec fn leaf_exact(
    d: TypeDescriptor,
    s: Seq<char>,
    mode: Mode,
    r: Result<Token, TokenizeError>,
) -> bool {
    match d {
        TypeDescriptor::Bool => r == (if s == "true"@ || s == "1"@ {
            Ok::<Token, TokenizeError>(Token::Bool(true))
        } else if s == "false"@ || s == "0"@ {
            Ok::<Token, TokenizeError>(Token::Bool(false))
        } else {
            Err::<Token, TokenizeError>(TokenizeError::TypeMismatch)
        }),
        TypeDescriptor::Uint(bits) => match uint_text_val(s, mode) {
            Option::None => r == Err::<Token, TokenizeError>(TokenizeError::TypeMismatch),
            Option::Some(v) => if v < pow256((bits / 8) as nat) {
                r matches Ok(t) && t matches Token::Uint(w) && w@ == be_bytes(v, 32)
            } else {
                r == Err::<Token, TokenizeError>(TokenizeError::OutOfRange)
            },
        },
        TypeDescriptor::Int(bits) => {
            let neg = int_text_neg(s, mode);
            let body = int_text_body(s, mode);
            match uint_text_val(body, mode) {
                Option::None => r == Err::<Token, TokenizeError>(TokenizeError::TypeMismatch),
                Option::Some(v) => if v < pow256(32) && sign_extended(
                    int_word_of(neg, v),
                    (bits / 8) as nat,
                ) {
                    r matches Ok(t) && t matches Token::Int(w) && w@ == int_word_of(neg, v)
                } else {
                    r == Err::<Token, TokenizeError>(TokenizeError::OutOfRange)
                },
            }
        },
        TypeDescriptor::Address => {
            let b = hex_stripped(s, mode);
            if all_hex(b) && b.len() == 40 {
                r matches Ok(t) && t matches Token::Address(a) && a@ == hex_bytes(b)
            } else {
                r == Err::<Token, TokenizeError>(TokenizeError::TypeMismatch)
            }
        },
        TypeDescriptor::FixedBytes(n) => {
            let b = hex_stripped(s, mode);
            if all_hex(b) && b.len() % 2 == 0 && b.len() / 2 == n {
                r matches Ok(t) && t matches Token::FixedBytes(v) && v@ == hex_bytes(b)
            } else {
                r == Err::<Token, TokenizeError>(TokenizeError::TypeMismatch)
            }
        },
        TypeDescriptor::Bytes => {
            let b = hex_stripped(s, mode);
            if all_hex(b) && b.len() % 2 == 0 {
                r matches Ok(t) && t matches Token::Bytes(v) && v@ == hex_bytes(b)
            } else {
                r == Err::<Token, TokenizeError>(TokenizeError::TypeMismatch)
            }
        },
        TypeDescriptor::Str => {
            let c = if mode is Lenient && s.len() >= 2 && s[0] == '"' && s.last() == '"' {
                s.subrange(1, s.len() - 1)
            } else {
                s
            };
            r matches Ok(t) && t matches Token::Str(x) && x@ == c
        },
        _ => true,
    }
}

/// The tokenizer as a relation between descriptor, text, mode and token:
/// leaf values exactly as [`leaf_exact`] pins them, composites recursively
/// over the quote-aware top-level comma split of bracketed text.
pub open spec fn tokenizes_to(d: TypeDescriptor, s: Seq<char>, mode: Mode, t: Token) -> bool
    decreases t,
{
    match d {
        TypeDescriptor::Array(e) => t matches Token::Array(es) && s.len() >= 2 && s[0] == '['
            && s.last() == ']' && (if s.subrange(1, s.len() - 1).len() == 0 {
            es@.len() == 0
        } else {
            vsplit(s.subrange(1, s.len() - 1)) matches Some(parts) && parts.len() == es@.len() && (
            forall|i: int|
                0 <= i < es@.len() ==> tokenizes_to(*e, parts[i], mode, #[trigger] es@[i]))
        }),
        TypeDescriptor::FixedArray(e, m) => t matches Token::FixedArray(es) && es@.len() == m
            && s.len() >= 2 && s[0] == '[' && s.last() == ']' && (if s.subrange(
            1,
            s.len() - 1,
        ).len() == 0 {
            es@.len() == 0
        } else {
            vsplit(s.subrange(1, s.len() - 1)) matches Some(parts) && parts.len() == es@.len() && (
            forall|i: int|
                0 <= i < es@.len() ==> tokenizes_to(*e, parts[i], mode, #[trigger] es@[i]))
        }),
        TypeDescriptor::Tuple(ds) => t matches Token::Tuple(es) && es@.len() == ds@.len()
            && s.len() >= 2 && s[0] == '(' && s.last() == ')' && (if s.subrange(
            1,
            s.len() - 1,
        ).len() == 0 {
            es@.len() == 0
        } else {
            vsplit(s.subrange(1, s.len() - 1)) matches Some(parts) && parts.len() == es@.len() && (
            forall|i: int|
                0 <= i < es@.len() ==> tokenizes_to(ds@[i], parts[i], mode, #[trigger] es@[i]))
        }),
        _ => leaf_exact(d, s, mode, Ok(t)),
    }
}

/// A fixed-size array or tuple text whose top-level split has the wrong
/// element count.
pub open spec fn arity_mismatched(d: TypeDescriptor, s: Seq<char>) -> bool {
    match d {
        TypeDescriptor::FixedArray(_, m) => s.len() >= 2 && s[0] == '[' && s.last() == ']' && (
        if s.subrange(1, s.len() - 1).len() == 0 {
            m != 0
        } else {
            vsplit(s.subrange(1, s.len() - 1)) matches Some(parts) && parts.len() != m
        }),
        TypeDescriptor::Tuple(ds) => s.len() >= 2 && s[0] == '(' && s.last() == ')' && (
        if s.subrange(1, s.len() - 1).len() == 0 {
            ds@.len() != 0
        } else {
            vsplit(s.subrange(1, s.len() - 1)) matches Some(parts) && parts.len() != ds@.len()
        }),
        _ => false,
    }
}

/// Splits value text at top-level commas, quote-aware: separators inside a
/// double-quoted stretch or inside brackets do not count.
pub open spec fn vsplit_rec(
    s: Seq<char>,
    i: int,
    depth: int,
    inq: bool,
    start: int,
    acc: Seq<Seq<char>>,
) -> Option<Seq<Seq<char>>>
    decreases s.len() - i,
{
    if i < 0 || i > s.len() || start < 0 || start > i {
        None
    } else if i == s.len() {
        if depth == 0 && !inq {
            Some(acc.push(s.subrange(start, s.len() as int)))
        } else {
            None
        }
    } else if inq {
        vsplit_rec(s, i + 1, depth, s[i] != '"', start, acc)
    } else if s[i] == '"' {
        vsplit_rec(s, i + 1, depth, true, start, acc)
    } else if s[i] == ',' && depth == 0 {
        vsplit_rec(s, i + 1, 0, false, i + 1, acc.push(s.subrange(start, i)))
    } else if s[i] == '(' || s[i] == '[' {
        vsplit_rec(s, i + 1, depth + 1, false, start, acc)
    } else if s[i] == ')' || s[i] == ']' {
        if depth == 0 {
            None
        } else {
            vsplit_rec(s, i + 1, depth - 1, false, start, acc)
        }
    } else {
        vsplit_rec(s, i + 1, depth, false, start, acc)
    }
}

/// The top-level comma split of a value text.
pub open spec fn vsplit(s: Seq<char>) -> Option<Seq<Seq<char>>> {
    vsplit_rec(s, 0, 0, false, 0, Seq::empty())
}

/// Splits value text, matching [`vsplit`].
fn vsplit_exec(s: &[char]) -> (r: Option<Vec<Vec<char>>>)
    ensures
        r matches Some(parts) ==> vsplit(s@) == Some(crate::parse::views_of(parts@)) && (forall|
            k: int,
        |
            0 <= k < parts@.len() ==> (#[trigger] parts@[k])@.len() <= s@.len()),
        r is None ==> vsplit(s@) is None,
{
    let n = s.len();
    let mut parts: Vec<Vec<char>> = Vec::new();
    let mut depth: usize = 0;
    let mut inq: bool = false;
    let mut start: usize = 0;
    let mut i: usize = 0;
    proof {
        assert(crate::parse::views_of(parts@) =~= Seq::<Seq<char>>::empty());
    }
    while i < n
        invariant
            0 <= start <= i <= n,
            depth <= i,
            n == s@.len(),
            vsplit(s@) == vsplit_rec(
                s@,
                i as int,
                depth as int,
                inq,
                start as int,
                crate::parse::views_of(parts@),
            ),
            forall|k: int| 0 <= k < parts@.len() ==> (#[trigger] parts@[k])@.len() <= s@.len(),
        decreases n - i,
    {
        let c = s[i];
        if inq {
            inq = c != '"';
        } else if c == '"' {
            inq = true;
        } else if c == ',' && depth == 0 {
            let piece = vstd::slice::slice_to_vec(vstd::slice::slice_subrange(s, start, i));
            let ghost old_parts = parts@;
            parts.push(piece);
            proof {
                assert(crate::parse::views_of(parts@) =~= crate::parse::views_of(old_parts).push(
                    s@.subrange(start as int, i as int),
                ));
            }
            start = i + 1;
        } else if c == '(' || c == '[' {
            depth = depth + 1;
        } else if c == ')' || c == ']' {
            if depth == 0 {
                return None;
            }
            depth = depth - 1;
        }
        i = i + 1;
    }
    if depth != 0 || inq {
        return None;
    }
    let piece = vstd::slice::slice_to_vec(vstd::slice::slice_subrange(s, start, n));
    let ghost old_parts = parts@;
    parts.push(piece);
    proof {
        assert(crate::parse::views_of(parts@) =~= crate::parse::views_of(old_parts).push(
            s@.subrange(start as int, n as int),
        ));
    }
    Some(parts)
}

pub(crate) fn all_hex_exec(s: &[char]) -> (r: bool)
    ensures
        r == all_hex(s@),
{
    let n = s.len();
    let mut i: usize = 0;
    while i < n
        invariant
            0 <= i <= n,
            n == s@.len(),
            forall|j: int| 0 <= j < i ==> is_hex_digit(#[trigger] s@[j]),
        decreases n - i,
    {
        let c = s[i];
        let ok = (c >= '0' && c <= '9') || (c >= 'a' && c <= 'f') || (c >= 'A' && c <= 'F');
        if !ok {
            return false;
        }
        i = i + 1;
    }
    true
}

fn hex_digit_val_exec(c: char) -> (r: u8)
    requires
        is_hex_digit(c),
    ensures
        r == hex_digit_val(c),
        r < 16,
{
    if c >= '0' && c <= '9' {
        ((c as u32) - 48) as u8
    } else if c >= 'a' && c <= 'f' {
        ((c as u32) - 87) as u8
    } else {
        ((c as u32) - 55) as u8
    }
}

/// Reads pairs of hex digits as bytes.
pub(crate) fn hex_bytes_exec(s: &[char]) -> (r: Vec<u8>)
    requires
        all_hex(s@),
        s@.len() % 2 == 0,
    ensures
        r@ == hex_bytes(s@),
        r@.len() == s@.len() / 2,
{
    let n = s.len();
    let mut out: Vec<u8> = Vec::new();
    let mut i: usize = 0;
    while i + 1 < n
        invariant
            0 <= i <= n,
            i % 2 == 0,
            n % 2 == 0,
            n == s@.len(),
            all_hex(s@),
            out@ == hex_bytes(s@.take(i as int)),
            out@.len() == i / 2,
        decreases n - i,
    {
        proof {
            assert(is_hex_digit(s@[i as int]));
            assert(is_hex_digit(s@[i + 1]));
        }
        let hi = hex_digit_val_exec(s[i]);
        let lo = hex_digit_val_exec(s[i + 1]);
        out.push(16 * hi + lo);
        proof {
            let t = s@.take(i + 2);
            assert(t.take(t.len() - 2) =~= s@.take(i as int));
            assert(t[t.len() - 2] == s@[i as int]);
            assert(t.last() == s@[i + 1]);
            assert(out@ =~= hex_bytes(s@.take(i + 2)));
        }
        i = i + 2;
    }
    proof {
        assert(s@.take(n as int) =~= s@);
    }
    out
}

/// A prefix's hex value never exceeds the whole string's.
proof fn lemma_hex_val_mono(s: Seq<char>, i: int)
    requires
        0 <= i <= s.len(),
    ensures
        hex_val(s.take(i)) <= hex_val(s),
    decreases s.len(),
{
    if i < s.len() {
        assert(s.drop_last().take(i) =~= s.take(i));
        lemma_hex_val_mono(s.drop_last(), i);
        assert(hex_val(s) == (16 * hex_val(s.drop_last()) + hex_digit_val(s.last())) as nat);
    } else {
        assert(s.take(i) =~= s);
    }
}

/// A fresh all-zero word.
fn zero_word() -> (r: Vec<u8>)
    ensures
        r@.len() == 32,
        be_val(r@) == 0,
{
    let mut out: Vec<u8> = Vec::new();
    let mut i: usize = 0;
    while i < 32
        invariant
            0 <= i <= 32,
            out@.len() == i,
            forall|j: int| 0 <= j < i ==> out@[j] == 0,
        decreases 32 - i,
    {
        out.push(0);
        i = i + 1;
    }
    proof {
        lemma_be_val_zeros(out@);
    }
    out
}

/// Reads a digit string into a 32-byte word; `None` when the value needs
/// more than 32 bytes.
fn word_from_digits(s: &[char], hex: bool) -> (r: Option<Vec<u8>>)
    requires
        hex ==> all_hex(s@),
        !hex ==> all_digits(s@),
    ensures
        r matches Some(w) ==> w@.len() == 32 && be_val(w@) == (if hex {
            hex_val(s@)
        } else {
            dec_val(s@)
        }) && (if hex {
            hex_val(s@)
        } else {
            dec_val(s@)
        }) < pow256(32),
        r is None ==> (if hex {
            hex_val(s@)
        } else {
            dec_val(s@)
        }) >= pow256(32),
{
    let n = s.len();
    let mut cur = zero_word();
    let mut i: usize = 0;
    while i < n
        invariant
            0 <= i <= n,
            n == s@.len(),
            hex ==> all_hex(s@),
            !hex ==> all_digits(s@),
            cur@.len() == 32,
            be_val(cur@) == (if hex {
                hex_val(s@.take(i as int))
            } else {
                dec_val(s@.take(i as int))
            }),
        decreases n - i,
    {
        let c = s[i];
        proof {
            if hex {
                assert(is_hex_digit(s@[i as int]));
            } else {
                assert(is_digit(s@[i as int]));
            }
        }
        let d: u8 = if hex {
            hex_digit_val_exec(c)
        } else {
            ((c as u32) - 48) as u8
        };
        let m: u8 = if hex {
            16
        } else {
            10
        };
        let ghost prev = cur@;
        let (q, carry) = mul_small_rec(cur.as_slice(), m, d);
        proof {
            let t = s@.take(i + 1);
            assert(t.drop_last() =~= s@.take(i as int));
            assert(t.last() == s@[i as int]);
            if carry != 0 {
                lemma_pow256_pos(32);
                assert((carry as nat) * pow256(32) >= pow256(32)) by (nonlinear_arith)
                    requires
                        carry >= 1,
                        pow256(32) >= 1,
                ;
                if hex {
                    lemma_hex_val_mono(s@, i + 1);
                } else {
                    lemma_dec_val_mono(s@, i + 1);
                }
            }
        }
        if carry != 0 {
            return None;
        }
        cur = q;
        proof {
            let t = s@.take(i + 1);
            assert((carry as nat) * pow256(32) == 0) by (nonlinear_arith)
                requires
                    carry == 0,
            ;
            assert(be_val(cur@) == (m as nat) * be_val(prev) + d);
            if hex {
                assert(hex_val(t) == (16 * hex_val(t.drop_last()) + hex_digit_val(t.last())) as nat);
            } else {
                assert(dec_val(t) == (10 * dec_val(t.drop_last()) + (t.last() as nat - 48)) as nat);
            }
        }
        i = i + 1;
    }
    proof {
        assert(s@.take(n as int) =~= s@);
        lemma_be_val_bound(cur@);
    }
    Some(cur)
}

/// Checks that the first `32 - nb` bytes are zero: the value fits `nb`
/// bytes unsigned.
fn uint_fits_exec(w: &Vec<u8>, nb: usize) -> (r: bool)
    requires
        w@.len() == 32,
        1 <= nb <= 32,
    ensures
        r == (be_val(w@) < pow256(nb as nat)),
{
    let k = 32 - nb;
    let mut i: usize = 0;
    let mut all: bool = true;
    while i < k
        invariant
            0 <= i <= k,
            k == 32 - nb,
            w@.len() == 32,
            all <==> (forall|j: int| 0 <= j < i ==> w@[j] == 0),
        decreases k - i,
    {
        if w[i] != 0 {
            all = false;
        }
        i = i + 1;
    }
    proof {
        lemma_prefix_zero_iff(w@, nb as nat);
    }
    all
}

/// Checks two's-complement sign extension into `nb` bytes.
fn sign_extended_exec(w: &Vec<u8>, nb: usize) -> (r: bool)
    requires
        w@.len() == 32,
        1 <= nb <= 32,
    ensures
        r == sign_extended(w@, nb as nat),
{
    let k = 32 - nb;
    let fill: u8 = if w[k] >= 128 {
        255
    } else {
        0
    };
    let mut i: usize = 0;
    let mut all: bool = true;
    while i < k
        invariant
            0 <= i <= k,
            k == 32 - nb,
            w@.len() == 32,
            fill == (if w@[k as int] >= 128 {
                255u8
            } else {
                0u8
            }),
            all <==> (forall|j: int| 0 <= j < i ==> w@[j] == fill),
        decreases k - i,
    {
        if w[i] != fill {
            all = false;
        }
        i = i + 1;
    }
    all
}

/// Two's-complement negation of a 32-byte word.
pub(crate) fn neg_word(w: &Vec<u8>) -> (r: Vec<u8>)
    requires
        w@.len() == 32,
    ensures
        r@.len() == 32,
        be_val(w@) == 0 ==> be_val(r@) == 0,
        be_val(w@) > 0 ==> be_val(r@) == pow256(32) - be_val(w@),
{
    let (res, b_out) = neg_rec(w.as_slice(), 0);
    proof {
        lemma_be_val_bound(res@);
        lemma_be_val_bound(w@);
        lemma_pow256_pos(32);
        assert(be_val(res@) + be_val(w@) + 0 == pow256(32) * (b_out as nat));
        if be_val(w@) == 0 {
            assert(b_out == 0) by (nonlinear_arith)
                requires
                    be_val(res@) + be_val(w@) == pow256(32) * (b_out as nat),
                    be_val(w@) == 0,
                    be_val(res@) < pow256(32),
                    pow256(32) >= 1,
                    b_out <= 1,
            ;
        } else {
            assert(b_out == 1) by (nonlinear_arith)
                requires
                    be_val(res@) + be_val(w@) == pow256(32) * (b_out as nat),
                    be_val(w@) > 0,
                    be_val(res@) < pow256(32),
                    be_val(w@) < pow256(32),
                    pow256(32) >= 1,
                    b_out <= 1,
            ;
            assert(pow256(32) * (b_out as nat) == pow256(32) * 1) by (nonlinear_arith)
                requires
                    b_out == 1,
            ;
            assert(pow256(32) * 1 == pow256(32)) by (nonlinear_arith);
        }
        if be_val(w@) == 0 {
            assert(pow256(32) * (b_out as nat) == 0) by (nonlinear_arith)
                requires
                    b_out == 0,
            ;
        }
    }
    res
}

/// Relies on `String::push`: appends exactly the one character.
#[verifier::external_body]
fn string_push_char(s: &mut String, c: char)
    ensures
        final(s)@ == old(s)@.push(c),
{
    s.push(c);
}

/// Builds a string from its characters.
pub(crate) fn chars_to_string(cs: &[char]) -> (r: String)
    ensures
        r@ == cs@,
{
    let n = cs.len();
    let mut out = String::new();
    let mut i: usize = 0;
    while i < n
        invariant
            0 <= i <= n,
            n == cs@.len(),
            out@ == cs@.take(i as int),
        decreases n - i,
    {
        string_push_char(&mut out, cs[i]);
        proof {
            assert(out@ =~= cs@.take(i + 1));
        }
        i = i + 1;
    }
    proof {
        assert(cs@.take(n as int) =~= cs@);
    }
    out
}

/// Smaller powers of 256 divide into larger ones.
proof fn lemma_pow256_le(a: nat, b: nat)
    requires
        a <= b,
    ensures
        pow256(a) <= pow256(b),
{
    lemma_pow256_add((b - a) as nat, a);
    lemma_pow256_pos((b - a) as nat);
    lemma_pow256_pos(a);
    assert(pow256((b - a) as nat) * pow256(a) >= 1 * pow256(a)) by (nonlinear_arith)
        requires
            pow256((b - a) as nat) >= 1,
            pow256(a) >= 1,
    ;
}

/// How an unsigned or signed integer body text reads, by mode.
enum ValParse {
    NoParse,
    Overflow,
    Word(Vec<u8>),
}

/// Reads an integer body text into a value word according to the mode.
fn uint_text_val_exec(s: &[char], mode: Mode) -> (r: ValParse)
    ensures
        r is NoParse <==> uint_text_val(s@, mode) is None,
        r is Overflow ==> (uint_text_val(s@, mode) matches Some(v) && v >= pow256(32)),
        r matches ValParse::Word(w) ==> (uint_text_val(s@, mode) matches Some(v) && w@.len() == 32
            && be_val(w@) == v && v < pow256(32)),
{
    let n = s.len();
    match mode {
        Mode::Lenient => {
            if n > 2 && s[0] == '0' && s[1] == 'x' {
                let digits = vstd::slice::slice_subrange(s, 2, n);
                proof {
                    assert(digits@ =~= s@.skip(2));
                }
                if !all_hex_exec(digits) {
                    return ValParse::NoParse;
                }
                match word_from_digits(digits, true) {
                    Some(w) => ValParse::Word(w),
                    None => ValParse::Overflow,
                }
            } else {
                if n == 0 || !crate::parse::all_digits_exec(s) {
                    return ValParse::NoParse;
                }
                match word_from_digits(s, false) {
                    Some(w) => ValParse::Word(w),
                    None => ValParse::Overflow,
                }
            }
        },
        Mode::Strict => {
            if n != 64 || !all_hex_exec(s) {
                return ValParse::NoParse;
            }
            match word_from_digits(s, true) {
                Some(w) => ValParse::Word(w),
                None => ValParse::Overflow,
            }
        },
    }
}

/// Reads an unsigned integer leaf.
fn tok_uint(s: &[char], mode: Mode, bits: u32) -> (r: Result<Token, TokenizeError>)
    requires
        8 <= bits <= 256,
        bits % 8 == 0,
    ensures
        leaf_exact(TypeDescriptor::Uint(bits), s@, mode, r),
        r matches Ok(t) ==> matches_type(t, TypeDescriptor::Uint(bits)) && valid_token(t),
{
    let nb: usize = (bits / 8) as usize;
    match uint_text_val_exec(s, mode) {
        ValParse::NoParse => Err(TokenizeError::TypeMismatch),
        ValParse::Overflow => {
            proof {
                lemma_pow256_le(nb as nat, 32);
            }
            Err(TokenizeError::OutOfRange)
        },
        ValParse::Word(w) => {
            if uint_fits_exec(&w, nb) {
                proof {
                    let v = be_val(w@);
                    lemma_be_bytes_len(v, 32);
                    lemma_be_bytes_val_small(v, 32);
                    lemma_be_val_injective(w@, be_bytes(v, 32));
                }
                Ok(Token::Uint(w))
            } else {
                Err(TokenizeError::OutOfRange)
            }
        },
    }
}

/// Reads a signed integer leaf.
fn tok_int(s: &[char], mode: Mode, bits: u32) -> (r: Result<Token, TokenizeError>)
    requires
        8 <= bits <= 256,
        bits % 8 == 0,
    ensures
        leaf_exact(TypeDescriptor::Int(bits), s@, mode, r),
        r matches Ok(t) ==> matches_type(t, TypeDescriptor::Int(bits)) && valid_token(t),
{
    let nb: usize = (bits / 8) as usize;
    let n = s.len();
    let neg = matches!(mode, Mode::Lenient) && n > 0 && s[0] == '-';
    let body = if neg {
        vstd::slice::slice_subrange(s, 1, n)
    } else {
        vstd::slice::slice_subrange(s, 0, n)
    };
    proof {
        if neg {
            assert(body@ =~= int_text_body(s@, mode));
        } else {
            assert(body@ =~= s@);
        }
    }
    match uint_text_val_exec(body, mode) {
        ValParse::NoParse => Err(TokenizeError::TypeMismatch),
        ValParse::Overflow => Err(TokenizeError::OutOfRange),
        ValParse::Word(w) => {
            let ghost v = be_val(w@);
            let tw = if neg {
                neg_word(&w)
            } else {
                w
            };
            proof {
                lemma_be_bytes_len(v, 32);
                lemma_be_bytes_val_small(v, 32);
                if neg && v > 0 {
                    lemma_be_bytes_len((pow256(32) - v) as nat, 32);
                    lemma_be_bytes_val_small((pow256(32) - v) as nat, 32);
                    lemma_be_val_injective(tw@, be_bytes((pow256(32) - v) as nat, 32));
                } else {
                    lemma_be_val_injective(tw@, be_bytes(v, 32));
                }
                assert(tw@ == int_word_of(neg, v));
            }
            if sign_extended_exec(&tw, nb) {
                Ok(Token::Int(tw))
            } else {
                Err(TokenizeError::OutOfRange)
            }
        },
    }
}

/// Strips a lenient `0x` prefix.
fn strip_hex_prefix<'a>(s: &'a [char], mode: Mode) -> (r: &'a [char])
    ensures
        r@ == hex_stripped(s@, mode),
{
    let n = s.len();
    if matches!(mode, Mode::Lenient) && n >= 2 && s[0] == '0' && s[1] == 'x' {
        let b = vstd::slice::slice_subrange(s, 2, n);
        proof {
            assert(b@ =~= s@.skip(2));
        }
        b
    } else {
        s
    }
}

/// Reads a boolean leaf.
fn tok_bool(s: &[char]) -> (r: Result<Token, TokenizeError>)
    ensures
        leaf_exact(TypeDescriptor::Bool, s@, Mode::Lenient, r),
        leaf_exact(TypeDescriptor::Bool, s@, Mode::Strict, r),
        r matches Ok(t) ==> matches_type(t, TypeDescriptor::Bool) && valid_token(t),
{
    if crate::parse::chars_eq_str(s, "true") || crate::parse::chars_eq_str(s, "1") {
        Ok(Token::Bool(true))
    } else if crate::parse::chars_eq_str(s, "false") || crate::parse::chars_eq_str(s, "0") {
        Ok(Token::Bool(false))
    } else {
        Err(TokenizeError::TypeMismatch)
    }
}

/// Reads an address leaf: exactly 40 hex digits.
fn tok_address(s: &[char], mode: Mode) -> (r: Result<Token, TokenizeError>)
    ensures
        leaf_exact(TypeDescriptor::Address, s@, mode, r),
        r matches Ok(t) ==> matches_type(t, TypeDescriptor::Address) && valid_token(t),
{
    let b = strip_hex_prefix(s, mode);
    if all_hex_exec(b) && b.len() == 40 {
        let bytes = hex_bytes_exec(b);
        Ok(Token::Address(bytes))
    } else {
        Err(TokenizeError::TypeMismatch)
    }
}

/// Reads a fixed-length byte string leaf.
fn tok_fixed_bytes(s: &[char], mode: Mode, n: usize) -> (r: Result<Token, TokenizeError>)
    requires
        1 <= n <= 32,
    ensures
        leaf_exact(TypeDescriptor::FixedBytes(n), s@, mode, r),
        r matches Ok(t) ==> matches_type(t, TypeDescriptor::FixedBytes(n)) && valid_token(t),
{
    let b = strip_hex_prefix(s, mode);
    if all_hex_exec(b) && b.len() % 2 == 0 && b.len() / 2 == n {
        let bytes = hex_bytes_exec(b);
        Ok(Token::FixedBytes(bytes))
    } else {
        Err(TokenizeError::TypeMismatch)
    }
}

/// Reads a variable-length byte string leaf.
fn tok_bytes(s: &[char], mode: Mode) -> (r: Result<Token, TokenizeError>)
    ensures
        leaf_exact(TypeDescriptor::Bytes, s@, mode, r),
        r matches Ok(t) ==> matches_type(t, TypeDescriptor::Bytes) && valid_token(t),
{
    let b = strip_hex_prefix(s, mode);
    if all_hex_exec(b) && b.len() % 2 == 0 {
        let bytes = hex_bytes_exec(b);
        Ok(Token::Bytes(bytes))
    } else {
        Err(TokenizeError::TypeMismatch)
    }
}

/// Reads a text leaf: quotes are stripped in lenient mode.
fn tok_str(s: &[char], mode: Mode) -> (r: Result<Token, TokenizeError>)
    ensures
        leaf_exact(TypeDescriptor::Str, s@, mode, r),
        r matches Ok(t) ==> matches_type(t, TypeDescriptor::Str) && valid_token(t),
{
    let n = s.len();
    let quoted = matches!(mode, Mode::Lenient) && n >= 2 && s[0] == '"' && s[n - 1] == '"';
    let c = if quoted {
        vstd::slice::slice_subrange(s, 1, n - 1)
    } else {
        vstd::slice::slice_subrange(s, 0, n)
    };
    proof {
        if quoted {
            assert(c@ =~= s@.subrange(1, s@.len() - 1));
        } else {
            assert(c@ =~= s@);
        }
    }
    Ok(Token::Str(chars_to_string(c)))
}

/// Tokenizes each piece of an array text at one element type.
fn tokenize_list(e: &TypeDescriptor, parts: &Vec<Vec<char>>, mode: Mode) -> (r: (
    Result<Vec<Token>, TokenizeError>,
    Ghost<int>,
))
    requires
        type_wf(*e),
    ensures
        r.0 matches Ok(es) ==> es@.len() == parts@.len() && (forall|i: int|
            0 <= i < es@.len() ==> matches_type(#[trigger] es@[i], *e) && valid_token(es@[i])
                && tokenizes_to(*e, crate::parse::views_of(parts@)[i], mode, es@[i])),
        r.0 is Err ==> 0 <= r.1@ < parts@.len() && (forall|t2: Token|
            !tokenizes_to(*e, crate::parse::views_of(parts@)[r.1@], mode, t2)),
    decreases *e, 1int,
{
    let m = parts.len();
    let mut elems: Vec<Token> = Vec::new();
    let mut k: usize = 0;
    while k < m
        invariant
            0 <= k <= m,
            m == parts@.len(),
            type_wf(*e),
            elems@.len() == k,
            forall|q: int|
                0 <= q < k ==> matches_type(#[trigger] elems@[q], *e) && valid_token(elems@[q])
                    && tokenizes_to(*e, crate::parse::views_of(parts@)[q], mode, elems@[q]),
        decreases m - k,
    {
        let t = match tokenize_chars(e, parts[k].as_slice(), mode) {
            Ok(t) => t,
            Err(err) => {
                proof {
                    assert(parts@[k as int]@ == crate::parse::views_of(parts@)[k as int]);
                    assert(forall|t2: Token|
                        !tokenizes_to(*e, crate::parse::views_of(parts@)[k as int], mode, t2));
                }
                return (Err(err), Ghost(k as int));
            },
        };
        elems.push(t);
        k = k + 1;
    }
    (Ok(elems), Ghost(0))
}

/// Tokenizes each piece of a tuple text at its own component type.
fn tokenize_each(ds: &Vec<TypeDescriptor>, parts: &Vec<Vec<char>>, mode: Mode) -> (r: (
    Result<Vec<Token>, TokenizeError>,
    Ghost<int>,
))
    requires
        forall|i: int| 0 <= i < ds@.len() ==> type_wf(#[trigger] ds@[i]),
        ds@.len() == parts@.len(),
    ensures
        r.0 matches Ok(es) ==> es@.len() == ds@.len() && (forall|i: int|
            0 <= i < es@.len() ==> matches_type(#[trigger] es@[i], ds@[i]) && valid_token(es@[i])
                && tokenizes_to(ds@[i], crate::parse::views_of(parts@)[i], mode, es@[i])),
        r.0 is Err ==> 0 <= r.1@ < parts@.len() && (forall|t2: Token|
            !tokenizes_to(ds@[r.1@], crate::parse::views_of(parts@)[r.1@], mode, t2)),
    decreases ds@, 1int,
{
    let m = parts.len();
    let mut elems: Vec<Token> = Vec::new();
    let mut k: usize = 0;
    while k < m
        invariant
            0 <= k <= m,
            m == parts@.len(),
            m == ds@.len(),
            forall|i: int| 0 <= i < ds@.len() ==> type_wf(#[trigger] ds@[i]),
            elems@.len() == k,
            forall|q: int|
                0 <= q < k ==> matches_type(#[trigger] elems@[q], ds@[q]) && valid_token(elems@[q])
                    && tokenizes_to(ds@[q], crate::parse::views_of(parts@)[q], mode, elems@[q]),
        decreases m - k,
    {
        proof {
            assert(decreases_to!(ds@ => ds@[k as int]));
        }
        let t = match tokenize_chars(&ds[k], parts[k].as_slice(), mode) {
            Ok(t) => t,
            Err(err) => {
                proof {
                    assert(parts@[k as int]@ == crate::parse::views_of(parts@)[k as int]);
                    assert(forall|t2: Token|
                        !tokenizes_to(ds@[k as int], crate::parse::views_of(parts@)[k as int], mode, t2));
                }
                return (Err(err), Ghost(k as int));
            },
        };
        elems.push(t);
        k = k + 1;
    }
    (Ok(elems), Ghost(0))
}

/// Tokenizes a character slice at a descriptor.
fn tokenize_chars(d: &TypeDescriptor, s: &[char], mode: Mode) -> (r: Result<Token, TokenizeError>)
    requires
        type_wf(*d),
    ensures
        leaf_exact(*d, s@, mode, r),
        r matches Ok(t) ==> matches_type(t, *d) && valid_token(t) && tokenizes_to(*d, s@, mode, t),
        r is Err ==> forall|t2: Token| !tokenizes_to(*d, s@, mode, t2),
        arity_mismatched(*d, s@) ==> r == Err::<Token, TokenizeError>(TokenizeError::ArityMismatch),
    decreases *d, 0int,
{
    match d {
        TypeDescriptor::Bool => {
            let r = tok_bool(s);
            proof {
                if r is Err {
                    lemma_leaf_excludes(*d, s@, mode, r);
                }
            }
            r
        },
        TypeDescriptor::Uint(bits) => {
            let r = tok_uint(s, mode, *bits);
            proof {
                if r is Err {
                    lemma_leaf_excludes(*d, s@, mode, r);
                }
            }
            r
        },
        TypeDescriptor::Int(bits) => {
            let r = tok_int(s, mode, *bits);
            proof {
                if r is Err {
                    lemma_leaf_excludes(*d, s@, mode, r);
                }
            }
            r
        },
        TypeDescriptor::Address => {
            let r = tok_address(s, mode);
            proof {
                if r is Err {
                    lemma_leaf_excludes(*d, s@, mode, r);
                }
            }
            r
        },
        TypeDescriptor::FixedBytes(n) => {
            let r = tok_fixed_bytes(s, mode, *n);
            proof {
                if r is Err {
                    lemma_leaf_excludes(*d, s@, mode, r);
                }
            }
            r
        },
        TypeDescriptor::Bytes => {
            let r = tok_bytes(s, mode);
            proof {
                if r is Err {
                    lemma_leaf_excludes(*d, s@, mode, r);
                }
            }
            r
        },
        TypeDescriptor::Str => {
            let r = tok_str(s, mode);
            proof {
                if r is Err {
                    lemma_leaf_excludes(*d, s@, mode, r);
                }
            }
            r
        },
        TypeDescriptor::Array(e) => {
            let n = s.len();
            if n < 2 || s[0] != '[' || s[n - 1] != ']' {
                proof {
                    assert(forall|t2: Token| !tokenizes_to(*d, s@, mode, t2));
                }
                return Err(TokenizeError::TypeMismatch);
            }
            let inner = vstd::slice::slice_subrange(s, 1, n - 1);
            proof {
                assert(inner@ =~= s@.subrange(1, s@.len() - 1));
            }
            if inner.len() == 0 {
                let out: Vec<Token> = Vec::new();
                proof {
                    assert(tokenizes_to(*d, s@, mode, Token::Array(out)));
                }
                return Ok(Token::Array(out));
            }
            let parts = match vsplit_exec(inner) {
                Some(parts) => parts,
                None => {
                    proof {
                        assert(forall|t2: Token| !tokenizes_to(*d, s@, mode, t2));
                    }
                    return Err(TokenizeError::TypeMismatch);
                },
            };
            let (lr, fk) = tokenize_list(&**e, &parts, mode);
            match lr {
                Ok(elems) => {
                    proof {
                        assert(tokenizes_to(*d, s@, mode, Token::Array(elems)));
                    }
                    Ok(Token::Array(elems))
                },
                Err(err) => {
                    proof {
                        let k = fk@;
                        assert forall|t2: Token| !tokenizes_to(*d, s@, mode, t2) by {
                            if tokenizes_to(*d, s@, mode, t2) {
                                let es = t2->Array_0;
                                assert(tokenizes_to(
                                    **e,
                                    crate::parse::views_of(parts@)[k],
                                    mode,
                                    es@[k],
                                ));
                            }
                        }
                    }
                    Err(err)
                },
            }
        },
        TypeDescriptor::FixedArray(e, m) => {
            let n = s.len();
            if n < 2 || s[0] != '[' || s[n - 1] != ']' {
                proof {
                    assert(forall|t2: Token| !tokenizes_to(*d, s@, mode, t2));
                }
                return Err(TokenizeError::TypeMismatch);
            }
            let inner = vstd::slice::slice_subrange(s, 1, n - 1);
            proof {
                assert(inner@ =~= s@.subrange(1, s@.len() - 1));
            }
            if inner.len() == 0 {
                if *m == 0 {
                    let out: Vec<Token> = Vec::new();
                    proof {
                        assert(tokenizes_to(*d, s@, mode, Token::FixedArray(out)));
                    }
                    return Ok(Token::FixedArray(out));
                }
                proof {
                    assert(forall|t2: Token| !tokenizes_to(*d, s@, mode, t2));
                }
                return Err(TokenizeError::ArityMismatch);
            }
            let parts = match vsplit_exec(inner) {
                Some(parts) => parts,
                None => {
                    proof {
                        assert(forall|t2: Token| !tokenizes_to(*d, s@, mode, t2));
                    }
                    return Err(TokenizeError::TypeMismatch);
                },
            };
            if parts.len() != *m {
                proof {
                    assert(forall|t2: Token| !tokenizes_to(*d, s@, mode, t2));
                }
                return Err(TokenizeError::ArityMismatch);
            }
            let (lr, fk) = tokenize_list(&**e, &parts, mode);
            match lr {
                Ok(elems) => {
                    proof {
                        assert(tokenizes_to(*d, s@, mode, Token::FixedArray(elems)));
                    }
                    Ok(Token::FixedArray(elems))
                },
                Err(err) => {
                    proof {
                        let k = fk@;
                        assert forall|t2: Token| !tokenizes_to(*d, s@, mode, t2) by {
                            if tokenizes_to(*d, s@, mode, t2) {
                                let es = t2->FixedArray_0;
                                assert(tokenizes_to(
                                    **e,
                                    crate::parse::views_of(parts@)[k],
                                    mode,
                                    es@[k],
                                ));
                            }
                        }
                    }
                    Err(err)
                },
            }
        },
        TypeDescriptor::Tuple(ds) => {
            let n = s.len();
            if n < 2 || s[0] != '(' || s[n - 1] != ')' {
                proof {
                    assert(forall|t2: Token| !tokenizes_to(*d, s@, mode, t2));
                }
                return Err(TokenizeError::TypeMismatch);
            }
            let inner = vstd::slice::slice_subrange(s, 1, n - 1);
            proof {
                assert(inner@ =~= s@.subrange(1, s@.len() - 1));
            }
            if inner.len() == 0 {
                if ds.len() == 0 {
                    let out: Vec<Token> = Vec::new();
                    proof {
                        assert(tokenizes_to(*d, s@, mode, Token::Tuple(out)));
                    }
                    return Ok(Token::Tuple(out));
                }
                proof {
                    assert(forall|t2: Token| !tokenizes_to(*d, s@, mode, t2));
                }
                return Err(TokenizeError::ArityMismatch);
            }
            let parts = match vsplit_exec(inner) {
                Some(parts) => parts,
                None => {
                    proof {
                        assert(forall|t2: Token| !tokenizes_to(*d, s@, mode, t2));
                    }
                    return Err(TokenizeError::TypeMismatch);
                },
            };
            if parts.len() != ds.len() {
                proof {
                    assert(forall|t2: Token| !tokenizes_to(*d, s@, mode, t2));
                }
                return Err(TokenizeError::ArityMismatch);
            }
            let (lr, fk) = tokenize_each(ds, &parts, mode);
            match lr {
                Ok(elems) => {
                    proof {
                        assert(tokenizes_to(*d, s@, mode, Token::Tuple(elems)));
                    }
                    Ok(Token::Tuple(elems))
                },
                Err(err) => {
                    proof {
                        let k = fk@;
                        assert forall|t2: Token| !tokenizes_to(*d, s@, mode, t2) by {
                            if tokenizes_to(*d, s@, mode, t2) {
                                let es = t2->Tuple_0;
                                assert(tokenizes_to(
                                    ds@[k],
                                    crate::parse::views_of(parts@)[k],
                                    mode,
                                    es@[k],
                                ));
                            }
                        }
                    }
                    Err(err)
                },
            }
        },
    }
}

/// A leaf text pinned to a failure by [`leaf_exact`] tokenizes to nothing.
proof fn lemma_leaf_excludes(d: TypeDescriptor, s: Seq<char>, mode: Mode, r: Result<
    Token,
    TokenizeError,
>)
    requires
        !(d is Array),
        !(d is FixedArray),
        !(d is Tuple),
        leaf_exact(d, s, mode, r),
        r is Err,
    ensures
        forall|t2: Token| !tokenizes_to(d, s, mode, t2),
{
    assert forall|t2: Token| !tokenizes_to(d, s, mode, t2) by {
        if tokenizes_to(d, s, mode, t2) {
            assert(leaf_exact(d, s, mode, Ok::<Token, TokenizeError>(t2)));
        }
    }
}

/// Converts a textual value into a typed token at the given descriptor and
/// fidelity mode.  Leaf results are pinned exactly by [`leaf_exact`]; every
/// returned token reads back from the text by [`tokenizes_to`]; and the call
/// fails exactly when no token at all reads from the text.
pub fn tokenize(descriptor: &TypeDescriptor, text: &str, mode: Mode) -> (r: Result<
    Token,
    TokenizeError,
>)
    requires
        type_wf(*descriptor),
    ensures
        leaf_exact(*descriptor, text@, mode, r),
        r matches Ok(t) ==> matches_type(t, *descriptor) && valid_token(t) && tokenizes_to(
            *descriptor,
            text@,
            mode,
            t,
        ),
        r is Err ==> forall|t2: Token| !tokenizes_to(*descriptor, text@, mode, t2),
        arity_mismatched(*descriptor, text@) ==> r == Err::<Token, TokenizeError>(
            TokenizeError::ArityMismatch,
        ),
{
    let chars = to_chars(text);
    tokenize_chars(descriptor, chars.as_slice(), mode)
}

/// The mode a lenient flag selects.
pub open spec fn mode_of(lenient: bool) -> Mode {
    if lenient {
        Mode::Lenient
    } else {
        Mode::Strict
    }
}

/// Tokenizes parallel descriptor/text pairs, lenient or strict.  On success
/// every token reads back from its text; it fails exactly when some text
/// reads as no token of its declared type.
pub fn parse_tokens(params: &Vec<(TypeDescriptor, String)>, lenient: bool) -> (r: Result<
    Vec<Token>,
    TokenizeError,
>)
    requires
        forall|i: int| 0 <= i < params@.len() ==> type_wf(#[trigger] params@[i].0),
    ensures
        r matches Ok(ts) ==> ts@.len() == params@.len() && (forall|i: int|
            0 <= i < ts@.len() ==> matches_type(#[trigger] ts@[i], params@[i].0) && valid_token(
                ts@[i],
            ) && tokenizes_to(params@[i].0, params@[i].1@, mode_of(lenient), ts@[i])),
        r is Err ==> exists|i: int|
            #![trigger params@[i]]
            0 <= i < params@.len() && (forall|t2: Token|
                !tokenizes_to(params@[i].0, params@[i].1@, mode_of(lenient), t2)),
        (forall|i: int|
            0 <= i < params@.len() ==> exists|t2: Token|
                tokenizes_to(#[trigger] params@[i].0, params@[i].1@, mode_of(lenient), t2)) ==> r
            is Ok,
{
    let mode = if lenient {
        Mode::Lenient
    } else {
        Mode::Strict
    };
    let n = params.len();
    let mut out: Vec<Token> = Vec::new();
    let mut i: usize = 0;
    while i < n
        invariant
            0 <= i <= n,
            n == params@.len(),
            mode == mode_of(lenient),
            forall|j: int| 0 <= j < params@.len() ==> type_wf(#[trigger] params@[j].0),
            out@.len() == i,
            forall|q: int|
                0 <= q < i ==> matches_type(#[trigger] out@[q], params@[q].0) && valid_token(
                    out@[q],
                ) && tokenizes_to(params@[q].0, params@[q].1@, mode_of(lenient), out@[q]),
        decreases n - i,
    {
        let t = match tokenize(&params[i].0, params[i].1.as_str(), mode) {
            Ok(t) => t,
            Err(err) => {
                proof {
                    assert(forall|t2: Token|
                        !tokenizes_to(params@[i as int].0, params@[i as int].1@, mode_of(lenient), t2));
                    assert(params@[i as int] == params@[i as int]);
                }
                return Err(err);
            },
        };
        out.push(t);
        i = i + 1;
    }
    Ok(out)
}

} // verus!
