//! The binary codec: head/tail ABI layout.
//!
//! Every top-level value owns one head slot.  A static value's encoding
//! stands in its slot; a dynamic value's slot holds the byte offset of its
//! encoding in the trailing region.  Arrays prepend their element count.
//! [`enc_seq`] is the layout stated as mathematics; the encoder is proved to
//! produce exactly that byte string.

use vstd::prelude::*;
use vstd::utf8::encode_utf8;
use crate::token::{Token, token_dynamic, valid_token, matches_type};
use crate::types::{TypeDescriptor, type_dynamic};
use crate::words::{pow256, be_bytes};

verus! {

broadcast use vstd::std_specs::vec::group_vec_axioms;

/// `n` rounded up to a multiple of 32.
pub open spec fn pad32(n: nat) -> nat {
    ((n + 31) / 32) * 32
}

/// A string of `n` zero bytes.
pub open spec fn zeros(n: nat) -> Seq<u8> {
    Seq::new(n, |i: int| 0u8)
}

/// One 32-byte big-endian word holding `n`.
pub open spec fn word_of(n: nat) -> Seq<u8> {
    be_bytes(n, 32)
}

/// The UTF-8 bytes of a text token's content.
pub open spec fn str_bytes_of(s: Seq<char>) -> Seq<u8> {
    encode_utf8(s)
}

/// The full encoding of one token, as laid out at its own position.
pub open spec fn enc_token(t: Token) -> Seq<u8>
    decreases t, 2int,
{
    match t {
        Token::Bool(b) => word_of(if b {
            1
        } else {
            0
        }),
        Token::Uint(v) => v@,
        Token::Int(v) => v@,
        Token::Address(a) => zeros(12) + a@,
        Token::FixedBytes(b) => b@ + zeros((pad32(b@.len()) - b@.len()) as nat),
        Token::Bytes(b) => word_of(b@.len()) + b@ + zeros((pad32(b@.len()) - b@.len()) as nat),
        Token::Str(s) => word_of(str_bytes_of(s@).len()) + str_bytes_of(s@) + zeros(
            (pad32(str_bytes_of(s@).len()) - str_bytes_of(s@).len()) as nat,
        ),
        Token::Array(es) => word_of(es@.len()) + enc_seq(es@),
        Token::FixedArray(es) => enc_seq(es@),
        Token::Tuple(es) => enc_seq(es@),
    }
}

/// Bytes a token occupies in the head region: a whole static encoding, or
/// one offset word for a dynamic token.
pub open spec fn head_size(t: Token) -> nat
    decreases t, 3int,
{
    if token_dynamic(t) {
        32
    } else {
        enc_token(t).len()
    }
}

/// Bytes a token occupies in the tail region.
pub open spec fn tail_size(t: Token) -> nat
    decreases t, 3int,
{
    if token_dynamic(t) {
        enc_token(t).len()
    } else {
        0
    }
}

/// Total length of the head region of a token sequence.
pub open spec fn heads_len(ts: Seq<Token>) -> nat
    decreases ts, 4int,
{
    if ts.len() == 0 {
        0
    } else {
        head_size(ts[0]) + heads_len(ts.subrange(1, ts.len() as int))
    }
}

/// Total length of the tail region of a token sequence.
pub open spec fn tails_len(ts: Seq<Token>) -> nat
    decreases ts, 4int,
{
    if ts.len() == 0 {
        0
    } else {
        tail_size(ts[0]) + tails_len(ts.subrange(1, ts.len() as int))
    }
}

/// The head region: static encodings in place, offset words for dynamic
/// tokens.  `off` is the offset of the next free tail position.
pub open spec fn enc_heads(ts: Seq<Token>, off: nat) -> Seq<u8>
    decreases ts, 4int,
{
    if ts.len() == 0 {
        Seq::empty()
    } else {
        (if token_dynamic(ts[0]) {
            word_of(off)
        } else {
            enc_token(ts[0])
        }) + enc_heads(ts.subrange(1, ts.len() as int), off + tail_size(ts[0]))
    }
}

/// The tail region: the encodings of the dynamic tokens, in order.
pub open spec fn enc_tails(ts: Seq<Token>) -> Seq<u8>
    decreases ts, 4int,
{
    if ts.len() == 0 {
        Seq::empty()
    } else {
        (if token_dynamic(ts[0]) {
            enc_token(ts[0])
        } else {
            Seq::empty()
        }) + enc_tails(ts.subrange(1, ts.len() as int))
    }
}

/// The encoding of a token sequence: heads then tails, offsets counted from
/// the start of the head region.
pub open spec fn enc_seq(ts: Seq<Token>) -> Seq<u8>
    decreases ts, 5int,
{
    enc_heads(ts, heads_len(ts)) + enc_tails(ts)
}

/// Offset and count words are 32 bytes long.
pub proof fn lemma_word_len(n: nat)
    ensures
        word_of(n).len() == 32,
{
    crate::words::lemma_be_bytes_len(n, 32);
}

pub proof fn lemma_enc_heads_len(ts: Seq<Token>, off: nat)
    ensures
        enc_heads(ts, off).len() == heads_len(ts),
    decreases ts.len(),
{
    if ts.len() > 0 {
        lemma_word_len(off);
        lemma_enc_heads_len(ts.subrange(1, ts.len() as int), off + tail_size(ts[0]));
        assert(heads_len(ts) == head_size(ts[0]) + heads_len(ts.subrange(1, ts.len() as int)));
        if token_dynamic(ts[0]) {
            assert(head_size(ts[0]) == 32);
            assert(enc_heads(ts, off).len() == 32 + heads_len(ts.subrange(1, ts.len() as int)));
        } else {
            assert(enc_heads(ts, off).len() == enc_token(ts[0]).len() + heads_len(
                ts.subrange(1, ts.len() as int),
            ));
        }
    }
}

pub proof fn lemma_enc_tails_len(ts: Seq<Token>)
    ensures
        enc_tails(ts).len() == tails_len(ts),
    decreases ts.len(),
{
    if ts.len() > 0 {
        lemma_enc_tails_len(ts.subrange(1, ts.len() as int));
    }
}

/// The whole encoding is heads plus tails long.
pub proof fn lemma_enc_seq_len(ts: Seq<Token>)
    ensures
        enc_seq(ts).len() == heads_len(ts) + tails_len(ts),
{
    lemma_enc_heads_len(ts, heads_len(ts));
    lemma_enc_tails_len(ts);
}

/// Appending one token extends the head region by its head slot, whose
/// offset word (when dynamic) points past the previous tails.
pub proof fn lemma_enc_heads_push(ts: Seq<Token>, x: Token, off: nat)
    ensures
        enc_heads(ts.push(x), off) == enc_heads(ts, off) + (if token_dynamic(x) {
            word_of(off + tails_len(ts))
        } else {
            enc_token(x)
        }),
    decreases ts.len(),
{
    let p = ts.push(x);
    if ts.len() == 0 {
        reveal_with_fuel(enc_heads, 2);
        assert(p[0] == x);
        assert(p.subrange(1, p.len() as int) =~= Seq::<Token>::empty());
        assert(enc_heads(ts, off) =~= Seq::<u8>::empty());
        assert(enc_heads(p, off) =~= (if token_dynamic(x) {
            word_of(off)
        } else {
            enc_token(x)
        }));
    } else {
        assert(p[0] == ts[0]);
        assert(p.subrange(1, p.len() as int) =~= ts.subrange(1, ts.len() as int).push(x));
        lemma_enc_heads_push(ts.subrange(1, ts.len() as int), x, off + tail_size(ts[0]));
        assert(enc_heads(p, off) =~= enc_heads(ts, off) + (if token_dynamic(x) {
            word_of(off + tails_len(ts))
        } else {
            enc_token(x)
        }));
    }
}

/// Appending one token extends the tail region by its tail bytes.
pub proof fn lemma_enc_tails_push(ts: Seq<Token>, x: Token)
    ensures
        enc_tails(ts.push(x)) == enc_tails(ts) + (if token_dynamic(x) {
            enc_token(x)
        } else {
            Seq::<u8>::empty()
        }),
    decreases ts.len(),
{
    let p = ts.push(x);
    if ts.len() == 0 {
        reveal_with_fuel(enc_tails, 2);
        assert(p[0] == x);
        assert(p.subrange(1, p.len() as int) =~= Seq::<Token>::empty());
        assert(enc_tails(p) =~= (if token_dynamic(x) {
            enc_token(x)
        } else {
            Seq::<u8>::empty()
        }));
        assert(enc_tails(ts) =~= Seq::<u8>::empty());
    } else {
        assert(p[0] == ts[0]);
        assert(p.subrange(1, p.len() as int) =~= ts.subrange(1, ts.len() as int).push(x));
        lemma_enc_tails_push(ts.subrange(1, ts.len() as int), x);
        assert(enc_tails(p) =~= enc_tails(ts) + (if token_dynamic(x) {
            enc_token(x)
        } else {
            Seq::<u8>::empty()
        }));
    }
}

pub proof fn lemma_heads_len_push(ts: Seq<Token>, x: Token)
    ensures
        heads_len(ts.push(x)) == heads_len(ts) + head_size(x),
        tails_len(ts.push(x)) == tails_len(ts) + tail_size(x),
    decreases ts.len(),
{
    let p = ts.push(x);
    if ts.len() == 0 {
        reveal_with_fuel(heads_len, 2);
        reveal_with_fuel(tails_len, 2);
        assert(p[0] == x);
        assert(p.subrange(1, p.len() as int) =~= Seq::<Token>::empty());
    } else {
        assert(p[0] == ts[0]);
        assert(p.subrange(1, p.len() as int) =~= ts.subrange(1, ts.len() as int).push(x));
        lemma_heads_len_push(ts.subrange(1, ts.len() as int), x);
    }
}

/// Appends `n` zero bytes.
fn push_zeros(out: &mut Vec<u8>, n: usize)
    ensures
        final(out)@ == old(out)@ + zeros(n as nat),
{
    let mut i: usize = 0;
    while i < n
        invariant
            0 <= i <= n,
            out@ == old(out)@ + zeros(i as nat),
        decreases n - i,
    {
        out.push(0);
        proof {
            assert(out@ =~= old(out)@ + zeros((i + 1) as nat));
        }
        i = i + 1;
    }
}

/// Appends a copy of `src`.
pub(crate) fn push_bytes(out: &mut Vec<u8>, src: &[u8])
    ensures
        final(out)@ == old(out)@ + src@,
{
    let mut i: usize = 0;
    let n = src.len();
    while i < n
        invariant
            0 <= i <= n,
            n == src@.len(),
            out@ == old(out)@ + src@.take(i as int),
        decreases n - i,
    {
        out.push(src[i]);
        proof {
            assert(out@ =~= old(out)@ + src@.take(i + 1));
        }
        i = i + 1;
    }
    proof {
        assert(src@.take(n as int) =~= src@);
    }
}

/// Appends one 32-byte word holding `n`.
fn push_word(out: &mut Vec<u8>, n: usize)
    ensures
        final(out)@ == old(out)@ + word_of(n as nat),
{
    crate::words::push_be_bytes(n, 32, out);
}

/// Appends the zero padding that rounds a region of `len` content bytes up
/// to a word boundary.
fn push_padding(out: &mut Vec<u8>, len: usize)
    ensures
        final(out)@ == old(out)@ + zeros((pad32(len as nat) - len as nat) as nat),
{
    let r = len % 32;
    proof {
        let q = (len as nat) / 32;
        vstd::arithmetic::div_mod::lemma_fundamental_div_mod(len as int, 32);
        if r == 0 {
            assert((len as nat + 31) / 32 == q) by (nonlinear_arith)
                requires
                    len as nat == 32 * q,
            ;
            assert(pad32(len as nat) == q * 32);
            assert(q * 32 == 32 * q) by (nonlinear_arith);
        } else {
            assert((len as nat + 31) / 32 == q + 1) by (nonlinear_arith)
                requires
                    len as nat == 32 * q + r,
                    1 <= r < 32,
            ;
            assert(pad32(len as nat) == (q + 1) * 32);
            assert((q + 1) * 32 == 32 * q + 32) by (nonlinear_arith);
        }
    }
    if r == 0 {
        proof {
            assert(out@ =~= out@ + zeros(0));
        }
    } else {
        push_zeros(out, 32 - r);
    }
}

/// Appends `enc_token(*t)`.
fn encode_token_into(t: &Token, out: &mut Vec<u8>)
    requires
        enc_token(*t).len() <= usize::MAX,
    ensures
        final(out)@ == old(out)@ + enc_token(*t),
    decreases t, 2int,
{
    match t {
        Token::Bool(b) => {
            push_word(out, if *b {
                1
            } else {
                0
            });
        },
        Token::Uint(v) => {
            push_bytes(out, v.as_slice());
        },
        Token::Int(v) => {
            push_bytes(out, v.as_slice());
        },
        Token::Address(a) => {
            push_zeros(out, 12);
            push_bytes(out, a.as_slice());
            proof {
                assert(out@ =~= old(out)@ + enc_token(*t));
            }
        },
        Token::FixedBytes(b) => {
            push_bytes(out, b.as_slice());
            push_padding(out, b.len());
            proof {
                assert(out@ =~= old(out)@ + enc_token(*t));
            }
        },
        Token::Bytes(b) => {
            push_word(out, b.len());
            push_bytes(out, b.as_slice());
            push_padding(out, b.len());
            proof {
                assert(out@ =~= old(out)@ + enc_token(*t));
            }
        },
        Token::Str(s) => {
            let bytes = s.as_str().as_bytes_vec();
            push_word(out, bytes.len());
            push_bytes(out, bytes.as_slice());
            push_padding(out, bytes.len());
            proof {
                assert(out@ =~= old(out)@ + enc_token(*t));
            }
        },
        Token::Array(es) => {
            proof {
                lemma_enc_seq_len(es@);
            }
            push_word(out, es.len());
            encode_seq_into(es, out);
            proof {
                assert(out@ =~= old(out)@ + enc_token(*t));
            }
        },
        Token::FixedArray(es) => {
            proof {
                lemma_enc_seq_len(es@);
            }
            encode_seq_into(es, out);
        },
        Token::Tuple(es) => {
            proof {
                lemma_enc_seq_len(es@);
            }
            encode_seq_into(es, out);
        },
    }
}

/// Appends `enc_seq(tokens@)`: every head slot, then every tail.
fn encode_seq_into(tokens: &Vec<Token>, out: &mut Vec<u8>)
    requires
        heads_len(tokens@) + tails_len(tokens@) <= usize::MAX,
    ensures
        final(out)@ == old(out)@ + enc_seq(tokens@),
    decreases tokens@, 5int,
{
    let ghost ts = tokens@;
    let n = tokens.len();
    // build the tail region and remember each element's tail offset
    let mut tails: Vec<u8> = Vec::new();
    let mut offsets: Vec<usize> = Vec::new();
    let mut i: usize = 0;
    while i < n
        invariant
            0 <= i <= n,
            n == ts.len(),
            tokens@ == ts,
            heads_len(ts) + tails_len(ts) <= usize::MAX,
            tails@ == enc_tails(ts.take(i as int)),
            offsets@.len() == i,
            forall|j: int|
                0 <= j < i ==> offsets@[j] == enc_tails(ts.take(j)).len(),
        decreases n - i,
    {
        proof {
            assert(decreases_to!(ts => ts[i as int]));
            assert(ts.take(i + 1) =~= ts.take(i as int).push(ts[i as int]));
            lemma_heads_len_push(ts.take(i as int), ts[i as int]);
            lemma_tails_len_take_bound(ts, i + 1);
            assert(tail_size(ts[i as int]) <= tails_len(ts));
        }
        offsets.push(tails.len());
        if tokens[i].is_dynamic() {
            encode_token_into(&tokens[i], &mut tails);
        }
        proof {
            assert(ts.take(i + 1) =~= ts.take(i as int).push(ts[i as int]));
            lemma_enc_tails_push(ts.take(i as int), ts[i as int]);
            assert(tails@ =~= enc_tails(ts.take(i + 1)));
        }
        i = i + 1;
    }
    proof {
        assert(ts.take(n as int) =~= ts);
    }
    // the head region length: sum of the head slots
    let mut hl: usize = 0;
    let mut i2: usize = 0;
    while i2 < n
        invariant
            0 <= i2 <= n,
            n == ts.len(),
            tokens@ == ts,
            heads_len(ts) + tails_len(ts) <= usize::MAX,
            hl == heads_len(ts.take(i2 as int)),
        decreases n - i2,
    {
        proof {
            assert(ts.take(i2 + 1) =~= ts.take(i2 as int).push(ts[i2 as int]));
            lemma_heads_len_push(ts.take(i2 as int), ts[i2 as int]);
            lemma_heads_len_take_bound(ts, i2 as int + 1);
            assert(head_size(ts[i2 as int]) <= heads_len(ts));
        }
        let hs = if tokens[i2].is_dynamic() {
            32
        } else {
            let mut scratch: Vec<u8> = Vec::new();
            proof {
                assert(decreases_to!(ts => ts[i2 as int]));
            }
            encode_token_into(&tokens[i2], &mut scratch);
            scratch.len()
        };
        hl = hl + hs;
        i2 = i2 + 1;
    }
    proof {
        assert(ts.take(n as int) =~= ts);
    }
    proof {
        lemma_enc_tails_len(ts);
    }
    // build the head region, then append the tails
    let ghost base = out@;
    let mut heads: Vec<u8> = Vec::new();
    let mut i3: usize = 0;
    while i3 < n
        invariant
            0 <= i3 <= n,
            n == ts.len(),
            tokens@ == ts,
            hl == heads_len(ts),
            heads@ == enc_heads(ts.take(i3 as int), hl as nat),
            offsets@.len() == n,
            forall|j: int|
                0 <= j < n ==> offsets@[j] == enc_tails(ts.take(j)).len(),
            tails@ == enc_tails(ts),
            heads_len(ts) + tails_len(ts) <= usize::MAX,
            tails@.len() == tails_len(ts),
        decreases n - i3,
    {
        proof {
            assert(decreases_to!(ts => ts[i3 as int]));
            assert(ts.take(i3 + 1) =~= ts.take(i3 as int).push(ts[i3 as int]));
            lemma_enc_heads_push(ts.take(i3 as int), ts[i3 as int], hl as nat);
        }
        if tokens[i3].is_dynamic() {
            proof {
                lemma_tails_len_take_bound(ts, i3 as int);
                lemma_enc_tails_len(ts.take(i3 as int));
            }
            proof {
                lemma_tails_len_take_bound(ts, i3 as int);
            }
            push_word(&mut heads, hl + offsets[i3]);
            proof {
                assert(tails_len(ts.take(i3 as int)) == enc_tails(ts.take(i3 as int)).len());
                assert(heads@ =~= enc_heads(ts.take(i3 + 1), hl as nat));
            }
        } else {
            proof {
                lemma_heads_len_push(ts.take(i3 as int), ts[i3 as int]);
                lemma_heads_len_take_bound(ts, i3 as int + 1);
                assert(head_size(ts[i3 as int]) <= heads_len(ts));
            }
            encode_token_into(&tokens[i3], &mut heads);
            proof {
                assert(heads@ =~= enc_heads(ts.take(i3 + 1), hl as nat));
            }
        }
        i3 = i3 + 1;
    }
    proof {
        assert(ts.take(n as int) =~= ts);
    }
    push_bytes(out, heads.as_slice());
    push_bytes(out, tails.as_slice());
    proof {
        assert(out@ =~= base + enc_seq(ts));
    }
}

/// The tail length of a prefix never exceeds the whole tail length.
pub proof fn lemma_tails_len_take_bound(ts: Seq<Token>, i: int)
    requires
        0 <= i <= ts.len(),
    ensures
        tails_len(ts.take(i)) <= tails_len(ts),
    decreases ts.len() - i,
{
    if i < ts.len() {
        assert(ts.take(i + 1) =~= ts.take(i).push(ts[i]));
        lemma_heads_len_push(ts.take(i), ts[i]);
        lemma_tails_len_take_bound(ts, i + 1);
        assert(ts.take(ts.len() as int) =~= ts);
    } else {
        assert(ts.take(i) =~= ts);
    }
}

/// The head length of a prefix never exceeds the whole head length.
pub proof fn lemma_heads_len_take_bound(ts: Seq<Token>, i: int)
    requires
        0 <= i <= ts.len(),
    ensures
        heads_len(ts.take(i)) <= heads_len(ts),
    decreases ts.len() - i,
{
    if i < ts.len() {
        assert(ts.take(i + 1) =~= ts.take(i).push(ts[i]));
        lemma_heads_len_push(ts.take(i), ts[i]);
        lemma_heads_len_take_bound(ts, i + 1);
        assert(ts.take(ts.len() as int) =~= ts);
    } else {
        assert(ts.take(i) =~= ts);
    }
}

/// Encodes a sequence of tokens into one binary blob in the head/tail
/// layout.  The result is exactly [`enc_seq`] of the tokens.
pub fn encode(tokens: &Vec<Token>) -> (r: Vec<u8>)
    requires
        enc_seq(tokens@).len() <= usize::MAX,
    ensures
        r@ == enc_seq(tokens@),
{
    proof {
        lemma_enc_seq_len(tokens@);
    }
    let mut out: Vec<u8> = Vec::new();
    encode_seq_into(tokens, &mut out);
    out
}


/// The length of a length-prefixed padded region, where it fits the
/// machine.
fn dyn_len_checked(len: usize) -> (r: Option<usize>)
    ensures
        r matches Some(v) ==> v == 32 + pad32(len as nat),
        r is None ==> 32 + pad32(len as nat) > usize::MAX,
{
    proof {
        lemma_pad32_shape(len as nat);
    }
    let rem = len % 32;
    let extra: usize = if rem == 0 {
        0
    } else {
        32 - rem
    };
    if len > usize::MAX - 32 || len + 32 > usize::MAX - extra {
        None
    } else {
        Some(32 + len + extra)
    }
}

/// Computes a token's encoded length, refusing values beyond the machine.
fn enc_token_len_checked(t: &Token) -> (r: Option<usize>)
    requires
        valid_token(*t),
    ensures
        r matches Some(v) ==> v == enc_token(*t).len(),
        r is None ==> enc_token(*t).len() > usize::MAX,
    decreases *t, 2int,
{
    match t {
        Token::Bool(_) => {
            proof {
                lemma_word_len(if *t matches Token::Bool(b) && b {
                    1
                } else {
                    0
                });
            }
            Some(32)
        },
        Token::Uint(v) => Some(v.len()),
        Token::Int(v) => Some(v.len()),
        Token::Address(a) => Some(12 + a.len()),
        Token::FixedBytes(b) => {
            proof {
                lemma_pad32_bound(b@.len());
            }
            Some(pad32_exec(b.len()))
        },
        Token::Bytes(b) => {
            proof {
                lemma_word_len(b@.len());
            }
            dyn_len_checked(b.len())
        },
        Token::Str(s) => {
            let bytes = s.as_str().as_bytes_vec();
            proof {
                lemma_word_len(bytes@.len());
            }
            dyn_len_checked(bytes.len())
        },
        Token::Array(es) => {
            proof {
                lemma_word_len(es@.len());
                lemma_enc_seq_len(es@);
            }
            match seq_lens_checked(es) {
                Some((h, tl)) => {
                    if h > usize::MAX - 32 || h + 32 > usize::MAX - tl {
                        return None;
                    }
                    Some(32 + h + tl)
                },
                None => None,
            }
        },
        Token::FixedArray(es) => {
            proof {
                lemma_enc_seq_len(es@);
            }
            match seq_lens_checked(es) {
                Some((h, tl)) => {
                    if h > usize::MAX - tl {
                        return None;
                    }
                    Some(h + tl)
                },
                None => None,
            }
        },
        Token::Tuple(es) => {
            proof {
                lemma_enc_seq_len(es@);
            }
            match seq_lens_checked(es) {
                Some((h, tl)) => {
                    if h > usize::MAX - tl {
                        return None;
                    }
                    Some(h + tl)
                },
                None => None,
            }
        },
    }
}

/// Computes a sequence's head and tail region lengths, refusing values
/// beyond the machine.
fn seq_lens_checked(es: &Vec<Token>) -> (r: Option<(usize, usize)>)
    requires
        forall|i: int| 0 <= i < es@.len() ==> valid_token(#[trigger] es@[i]),
    ensures
        r matches Some(p) ==> p.0 == heads_len(es@) && p.1 == tails_len(es@),
        r is None ==> heads_len(es@) + tails_len(es@) > usize::MAX,
    decreases es@, 3int,
{
    let ghost ts = es@;
    let n = es.len();
    let mut h: usize = 0;
    let mut tl: usize = 0;
    let mut i: usize = 0;
    while i < n
        invariant
            0 <= i <= n,
            n == ts.len(),
            es@ == ts,
            forall|j: int| 0 <= j < ts.len() ==> valid_token(#[trigger] ts[j]),
            h == heads_len(ts.take(i as int)),
            tl == tails_len(ts.take(i as int)),
        decreases n - i,
    {
        proof {
            assert(decreases_to!(ts => ts[i as int]));
            assert(ts.take(i + 1) =~= ts.take(i as int).push(ts[i as int]));
            lemma_heads_len_push(ts.take(i as int), ts[i as int]);
            lemma_heads_len_take_bound(ts, i as int + 1);
            lemma_tails_len_take_bound(ts, i as int + 1);
        }
        let dynamic = es[i].is_dynamic();
        let (hs, tsz): (usize, usize) = if dynamic {
            match enc_token_len_checked(&es[i]) {
                Some(v) => (32, v),
                None => {
                    return None;
                },
            }
        } else {
            match enc_token_len_checked(&es[i]) {
                Some(v) => (v, 0),
                None => {
                    return None;
                },
            }
        };
        if h > usize::MAX - hs || tl > usize::MAX - tsz {
            return None;
        }
        h = h + hs;
        tl = tl + tsz;
        i = i + 1;
    }
    proof {
        assert(ts.take(n as int) =~= ts);
    }
    Some((h, tl))
}

/// The padded length, where it fits the machine.
fn pad32_exec(len: usize) -> (r: usize)
    requires
        pad32(len as nat) <= usize::MAX,
    ensures
        r == pad32(len as nat),
{
    proof {
        lemma_pad32_shape(len as nat);
    }
    let rem = len % 32;
    if rem == 0 {
        len
    } else {
        len + (32 - rem)
    }
}

/// `pad32` adds at most 31 and is monotone past its argument.
proof fn lemma_pad32_shape(n: nat)
    ensures
        pad32(n) == (if n % 32 == 0 {
            n
        } else {
            (n + 32 - n % 32) as nat
        }),
        n <= pad32(n) <= n + 31,
{
    let q = n / 32;
    vstd::arithmetic::div_mod::lemma_fundamental_div_mod(n as int, 32);
    if n % 32 == 0 {
        assert((n + 31) / 32 == q) by (nonlinear_arith)
            requires
                n == 32 * q,
        ;
        assert(pad32(n) == q * 32);
        assert(q * 32 == 32 * q) by (nonlinear_arith);
    } else {
        assert((n + 31) / 32 == q + 1) by (nonlinear_arith)
            requires
                n == 32 * q + n % 32,
                1 <= n % 32 < 32,
        ;
        assert(pad32(n) == (q + 1) * 32);
        assert((q + 1) * 32 == 32 * q + 32) by (nonlinear_arith);
    }
}

/// A padded region that fits the machine keeps `pad32` within bounds.
proof fn lemma_pad32_bound(n: nat)
    requires
        n <= usize::MAX,
    ensures
        n <= pad32(n) <= n + 31,
{
    lemma_pad32_shape(n);
}

/// Computes the encoded length of a token sequence, refusing values beyond
/// the machine: with `Some`, [`encode`]'s bound holds.
pub fn enc_seq_len_checked(tokens: &Vec<Token>) -> (r: Option<usize>)
    requires
        forall|i: int| 0 <= i < tokens@.len() ==> valid_token(#[trigger] tokens@[i]),
    ensures
        r matches Some(v) ==> v == enc_seq(tokens@).len(),
        r is None ==> enc_seq(tokens@).len() > usize::MAX,
{
    proof {
        lemma_enc_seq_len(tokens@);
    }
    match seq_lens_checked(tokens) {
        Some((h, tl)) => {
            if h > usize::MAX - tl {
                return None;
            }
            Some(h + tl)
        },
        None => None,
    }
}

/// Sums of word-aligned lengths stay word-aligned.
proof fn lemma_aligned_sum(a: nat, b: nat)
    requires
        a % 32 == 0,
        b % 32 == 0,
    ensures
        (a + b) % 32 == 0,
{
    assert((a + b) % 32 == 0) by (nonlinear_arith)
        requires
            a % 32 == 0,
            b % 32 == 0,
    ;
}

/// A valid token's encoding is a whole number of 32-byte words.
pub proof fn lemma_enc_token_aligned(t: Token)
    requires
        valid_token(t),
    ensures
        enc_token(t).len() % 32 == 0,
    decreases t, 2int,
{
    match t {
        Token::Bool(b) => {
            lemma_word_len(if b {
                1
            } else {
                0
            });
        },
        Token::Uint(_) => {
        },
        Token::Int(_) => {
        },
        Token::Address(_) => {
        },
        Token::FixedBytes(b) => {
            lemma_pad32_shape(b@.len());
            assert(pad32(b@.len()) % 32 == 0) by (nonlinear_arith)
                requires
                    pad32(b@.len()) == ((b@.len() + 31) / 32) * 32,
            ;
        },
        Token::Bytes(b) => {
            lemma_word_len(b@.len());
            lemma_pad32_shape(b@.len());
            assert(pad32(b@.len()) % 32 == 0) by (nonlinear_arith)
                requires
                    pad32(b@.len()) == ((b@.len() + 31) / 32) * 32,
            ;
            lemma_aligned_sum(32, pad32(b@.len()));
        },
        Token::Str(s) => {
            let bl = str_bytes_of(s@).len();
            lemma_word_len(bl);
            lemma_pad32_shape(bl);
            assert(pad32(bl) % 32 == 0) by (nonlinear_arith)
                requires
                    pad32(bl) == ((bl + 31) / 32) * 32,
            ;
            lemma_aligned_sum(32, pad32(bl));
        },
        Token::Array(es) => {
            lemma_word_len(es@.len());
            lemma_enc_seq_aligned(es@);
            lemma_aligned_sum(32, enc_seq(es@).len());
        },
        Token::FixedArray(es) => {
            lemma_enc_seq_aligned(es@);
        },
        Token::Tuple(es) => {
            lemma_enc_seq_aligned(es@);
        },
    }
}

/// The encoding of a sequence of valid tokens is a whole number of 32-byte
/// words, head and tail regions separately.
pub proof fn lemma_enc_seq_aligned(ts: Seq<Token>)
    requires
        forall|i: int| 0 <= i < ts.len() ==> valid_token(#[trigger] ts[i]),
    ensures
        heads_len(ts) % 32 == 0,
        tails_len(ts) % 32 == 0,
        enc_seq(ts).len() % 32 == 0,
    decreases ts, 3int,
{
    lemma_enc_seq_len(ts);
    if ts.len() == 0 {
    } else {
        let rest = ts.subrange(1, ts.len() as int);
        assert(forall|i: int| 0 <= i < rest.len() ==> valid_token(#[trigger] rest[i]));
        lemma_enc_seq_aligned(rest);
        lemma_enc_token_aligned(ts[0]);
        lemma_aligned_sum(head_size(ts[0]), heads_len(rest));
        lemma_aligned_sum(tail_size(ts[0]), tails_len(rest));
        lemma_aligned_sum(heads_len(ts), tails_len(ts));
    }
}

/// A zero-length dynamic array encodes as one head slot holding the offset
/// of its tail, and a tail of exactly one zero count word with no further
/// content.
pub proof fn lemma_empty_array_encoding(t: Token)
    requires
        t matches Token::Array(es) && es@.len() == 0,
    ensures
        enc_token(t) == word_of(0),
        enc_seq(seq![t]) == word_of(32) + word_of(0),
{
    let es = t->Array_0;
    reveal_with_fuel(enc_heads, 2);
    reveal_with_fuel(enc_tails, 2);
    reveal_with_fuel(heads_len, 2);
    assert(enc_heads(es@, 0) =~= Seq::<u8>::empty());
    assert(enc_tails(es@) =~= Seq::<u8>::empty());
    assert(enc_seq(es@) =~= Seq::<u8>::empty());
    assert(enc_token(t) =~= word_of(0));
    let one = seq![t];
    assert(one[0] == t);
    assert(one.subrange(1, 1) =~= Seq::<Token>::empty());
    assert(token_dynamic(t));
    assert(heads_len(one) == 32);
    lemma_word_len(32);
    assert(enc_heads(one, 32) =~= word_of(32));
    assert(enc_tails(one) =~= enc_token(t));
    assert(enc_seq(one) =~= word_of(32) + word_of(0));
}

/// The fixed encoded size of a static type.
pub open spec fn ssize(d: TypeDescriptor) -> nat
    decreases d, 0int,
{
    match d {
        TypeDescriptor::FixedBytes(n) => pad32(n as nat),
        TypeDescriptor::FixedArray(e, n) => (n as nat) * ssize(*e),
        TypeDescriptor::Tuple(ds) => ssize_seq(ds@),
        _ => 32,
    }
}

/// The fixed encoded size of a sequence of static types.
pub open spec fn ssize_seq(ds: Seq<TypeDescriptor>) -> nat
    decreases ds, 1int,
{
    if ds.len() == 0 {
        0
    } else {
        ssize(ds[0]) + ssize_seq(ds.subrange(1, ds.len() as int))
    }
}

/// A token of a static type is itself static and encodes to the type's
/// fixed size.
pub proof fn lemma_enc_static_len(t: Token, d: TypeDescriptor)
    requires
        matches_type(t, d),
        valid_token(t),
        !type_dynamic(d),
    ensures
        !token_dynamic(t),
        enc_token(t).len() == ssize(d),
    decreases t, 0int,
{
    match t {
        Token::Bool(b) => {
            lemma_word_len(if b {
                1
            } else {
                0
            });
        },
        Token::Uint(_) => {
        },
        Token::Int(_) => {
        },
        Token::Address(_) => {
        },
        Token::FixedBytes(b) => {
            lemma_pad32_shape(b@.len());
        },
        Token::FixedArray(es) => {
            let e = *d->FixedArray_0;
            let n = d->FixedArray_1 as nat;
            lemma_static_seq_props(es@, Seq::new(es@.len(), |i: int| e));
            lemma_enc_seq_len(es@);
            lemma_ssize_repeat(e, es@.len());
            assert(es@.len() == n);
        },
        Token::Tuple(es) => {
            let ds = d->Tuple_0;
            lemma_static_seq_props(es@, ds@);
            lemma_enc_seq_len(es@);
        },
        _ => {
        },
    }
}

/// The combined size of equal static types is a multiple.
proof fn lemma_ssize_repeat(e: TypeDescriptor, n: nat)
    ensures
        ssize_seq(Seq::new(n, |i: int| e)) == n * ssize(e),
    decreases n,
{
    let s = Seq::new(n, |i: int| e);
    if n == 0 {
        assert(0 * ssize(e) == 0) by (nonlinear_arith);
    } else {
        assert(s.subrange(1, s.len() as int) =~= Seq::new((n - 1) as nat, |i: int| e));
        lemma_ssize_repeat(e, (n - 1) as nat);
        assert(ssize(e) + ((n - 1) as nat) * ssize(e) == n * ssize(e)) by (nonlinear_arith)
            requires
                n >= 1,
        ;
    }
}

/// Tokens of static types have no tail region, and a head region of the
/// types' combined fixed size.
pub proof fn lemma_static_seq_props(ts: Seq<Token>, ds: Seq<TypeDescriptor>)
    requires
        ts.len() == ds.len(),
        forall|i: int| 0 <= i < ts.len() ==> matches_type(#[trigger] ts[i], ds[i]),
        forall|i: int| 0 <= i < ts.len() ==> valid_token(#[trigger] ts[i]),
        forall|i: int| 0 <= i < ds.len() ==> !type_dynamic(#[trigger] ds[i]),
    ensures
        forall|i: int| 0 <= i < ts.len() ==> !token_dynamic(#[trigger] ts[i]),
        heads_len(ts) == ssize_seq(ds),
        tails_len(ts) == 0,
    decreases ts, 1int,
{
    if ts.len() > 0 {
        lemma_enc_static_len(ts[0], ds[0]);
        let tr = ts.subrange(1, ts.len() as int);
        let dr = ds.subrange(1, ds.len() as int);
        assert(forall|i: int| 0 <= i < tr.len() ==> matches_type(#[trigger] tr[i], dr[i]));
        lemma_static_seq_props(tr, dr);
        assert(head_size(ts[0]) == ssize(ds[0]));
        assert(heads_len(ts) == head_size(ts[0]) + heads_len(tr));
        assert(ssize_seq(ds) == ssize(ds[0]) + ssize_seq(dr));
        assert forall|i: int| 0 <= i < ts.len() implies !token_dynamic(#[trigger] ts[i]) by {
            if i > 0 {
                assert(!token_dynamic(tr[i - 1]));
            }
        }
    }
}

/// A static token's encoding determines the token: the mathematical core of
/// the decode-encode round trip for static types.  Two valid tokens of one
/// static type with one encoding carry the same values throughout.
pub proof fn lemma_static_encoding_injective(t1: Token, t2: Token, d: TypeDescriptor)
    requires
        matches_type(t1, d),
        matches_type(t2, d),
        valid_token(t1),
        valid_token(t2),
        !type_dynamic(d),
        enc_token(t1) == enc_token(t2),
    ensures
        crate::token::token_like(t1, t2),
    decreases t1, 0int,
{
    lemma_enc_static_len(t1, d);
    lemma_enc_static_len(t2, d);
    match t1 {
        Token::Bool(b1) => {
            let b2 = t2->Bool_0;
            let x1: nat = if b1 {
                1
            } else {
                0
            };
            let x2: nat = if b2 {
                1
            } else {
                0
            };
            crate::words::lemma_pow256_pos(31);
            assert(pow256(32) == 256 * pow256(31));
            crate::words::lemma_be_bytes_val_small(x1, 32);
            crate::words::lemma_be_bytes_val_small(x2, 32);
        },
        Token::Uint(_) => {
        },
        Token::Int(_) => {
        },
        Token::Address(a1) => {
            let a2 = t2->Address_0;
            assert(a1@ =~= enc_token(t1).subrange(12, 32));
            assert(a2@ =~= enc_token(t2).subrange(12, 32));
        },
        Token::FixedBytes(b1) => {
            let b2 = t2->FixedBytes_0;
            lemma_pad32_shape(b1@.len());
            assert(b1@ =~= enc_token(t1).subrange(0, b1@.len() as int));
            assert(b2@ =~= enc_token(t2).subrange(0, b2@.len() as int));
        },
        Token::FixedArray(es1) => {
            let es2 = t2->FixedArray_0;
            let e = *d->FixedArray_0;
            let eds = Seq::new(es1@.len(), |i: int| e);
            lemma_static_seq_props(es1@, eds);
            lemma_static_seq_props(es2@, eds);
            lemma_enc_seq_len(es1@);
            lemma_enc_seq_len(es2@);
            lemma_static_tails_empty(es1@);
            lemma_static_tails_empty(es2@);
            assert(enc_heads(es1@, heads_len(es1@)) =~= enc_token(t1));
            assert(enc_heads(es2@, heads_len(es2@)) =~= enc_token(t2));
            lemma_static_heads_injective(es1@, es2@, eds, heads_len(es1@), heads_len(es2@));
        },
        Token::Tuple(es1) => {
            let es2 = t2->Tuple_0;
            let ds = d->Tuple_0;
            lemma_static_seq_props(es1@, ds@);
            lemma_static_seq_props(es2@, ds@);
            lemma_enc_seq_len(es1@);
            lemma_enc_seq_len(es2@);
            lemma_static_tails_empty(es1@);
            lemma_static_tails_empty(es2@);
            assert(enc_heads(es1@, heads_len(es1@)) =~= enc_token(t1));
            assert(enc_heads(es2@, heads_len(es2@)) =~= enc_token(t2));
            lemma_static_heads_injective(es1@, es2@, ds@, heads_len(es1@), heads_len(es2@));
        },
        _ => {
        },
    }
}

/// A sequence of static tokens has an empty tail region.
proof fn lemma_static_tails_empty(ts: Seq<Token>)
    requires
        forall|i: int| 0 <= i < ts.len() ==> !token_dynamic(#[trigger] ts[i]),
    ensures
        enc_tails(ts) == Seq::<u8>::empty(),
    decreases ts.len(),
{
    if ts.len() > 0 {
        lemma_static_tails_empty(ts.subrange(1, ts.len() as int));
        assert(enc_tails(ts) =~= Seq::<u8>::empty());
    } else {
        assert(enc_tails(ts) =~= Seq::<u8>::empty());
    }
}

/// Head regions of static token sequences at one type list are injective.
proof fn lemma_static_heads_injective(
    ts1: Seq<Token>,
    ts2: Seq<Token>,
    ds: Seq<TypeDescriptor>,
    o1: nat,
    o2: nat,
)
    requires
        ts1.len() == ds.len(),
        ts2.len() == ds.len(),
        forall|i: int| 0 <= i < ts1.len() ==> matches_type(#[trigger] ts1[i], ds[i]),
        forall|i: int| 0 <= i < ts2.len() ==> matches_type(#[trigger] ts2[i], ds[i]),
        forall|i: int| 0 <= i < ts1.len() ==> valid_token(#[trigger] ts1[i]),
        forall|i: int| 0 <= i < ts2.len() ==> valid_token(#[trigger] ts2[i]),
        forall|i: int| 0 <= i < ds.len() ==> !type_dynamic(#[trigger] ds[i]),
        enc_heads(ts1, o1) == enc_heads(ts2, o2),
    ensures
        forall|i: int| 0 <= i < ts1.len() ==> crate::token::token_like(#[trigger] ts1[i], ts2[i]),
    decreases ts1, 1int,
{
    if ts1.len() > 0 {
        lemma_enc_static_len(ts1[0], ds[0]);
        lemma_enc_static_len(ts2[0], ds[0]);
        let n0 = enc_token(ts1[0]).len() as int;
        let h1 = enc_heads(ts1, o1);
        let h2 = enc_heads(ts2, o2);
        lemma_enc_heads_len(ts1, o1);
        lemma_enc_heads_len(ts2, o2);
        let r1 = ts1.subrange(1, ts1.len() as int);
        let r2 = ts2.subrange(1, ts2.len() as int);
        let dr = ds.subrange(1, ds.len() as int);
        lemma_enc_heads_len(r1, o1);
        lemma_enc_heads_len(r2, o2);
        assert(!token_dynamic(ts1[0]) && !token_dynamic(ts2[0]));
        assert(tail_size(ts1[0]) == 0 && tail_size(ts2[0]) == 0);
        assert(h1 == enc_token(ts1[0]) + enc_heads(r1, o1));
        assert(h2 == enc_token(ts2[0]) + enc_heads(r2, o2));
        assert(enc_token(ts1[0]) =~= h1.subrange(0, n0));
        assert(enc_token(ts2[0]) =~= h2.subrange(0, n0));
        lemma_static_encoding_injective(ts1[0], ts2[0], ds[0]);
        assert(enc_heads(r1, o1) =~= h1.subrange(n0, h1.len() as int));
        assert(enc_heads(r2, o2) =~= h2.subrange(n0, h2.len() as int));
        assert(forall|i: int| 0 <= i < r1.len() ==> matches_type(#[trigger] r1[i], dr[i]));
        assert(forall|i: int| 0 <= i < r2.len() ==> matches_type(#[trigger] r2[i], dr[i]));
        lemma_static_heads_injective(r1, r2, dr, o1, o2);
        assert forall|i: int|
            0 <= i < ts1.len() implies crate::token::token_like(#[trigger] ts1[i], ts2[i]) by {
            if i > 0 {
                assert(crate::token::token_like(r1[i - 1], r2[i - 1]));
            }
        }
    }
}

/// Numbers congruent modulo a large modulus and within 31 of each other are
/// equal.
proof fn lemma_congruent_close(l1: nat, l2: nat, m: nat)
    requires
        m > 31,
        l1 % m == l2 % m,
        l1 <= l2 + 31,
        l2 <= l1 + 31,
    ensures
        l1 == l2,
{
    vstd::arithmetic::div_mod::lemma_fundamental_div_mod(l1 as int, m as int);
    vstd::arithmetic::div_mod::lemma_fundamental_div_mod(l2 as int, m as int);
    let q1 = l1 as int / m as int;
    let q2 = l2 as int / m as int;
    assert(q1 == q2) by (nonlinear_arith)
        requires
            l1 as int == m * q1 + l1 % m,
            l2 as int == m * q2 + l2 % m,
            l1 % m == l2 % m,
            l1 <= l2 + 31,
            l2 <= l1 + 31,
            m > 31,
            q1 >= 0,
            q2 >= 0,
    ;
}

/// A dynamic leaf encoding (byte string or text) determines its token: the
/// length word pins the length, and the content follows it verbatim.
pub proof fn lemma_dynamic_leaf_encoding_injective(t1: Token, t2: Token, d: TypeDescriptor)
    requires
        matches_type(t1, d),
        matches_type(t2, d),
        valid_token(t1),
        valid_token(t2),
        d is Bytes || d is Str,
        enc_token(t1) == enc_token(t2),
    ensures
        crate::token::token_like(t1, t2),
{
    crate::words::lemma_pow256_pos(31);
    assert(pow256(32) == 256 * pow256(31));
    let m = pow256(32);
    match t1 {
        Token::Bytes(b1) => {
            let b2 = t2->Bytes_0;
            let l1 = b1@.len();
            let l2 = b2@.len();
            lemma_word_len(l1);
            lemma_word_len(l2);
            lemma_pad32_shape(l1);
            lemma_pad32_shape(l2);
            assert(enc_token(t1).len() == 32 + pad32(l1));
            assert(enc_token(t2).len() == 32 + pad32(l2));
            assert(word_of(l1) =~= enc_token(t1).subrange(0, 32));
            assert(word_of(l2) =~= enc_token(t2).subrange(0, 32));
            crate::words::lemma_be_bytes_val(l1, 32);
            crate::words::lemma_be_bytes_val(l2, 32);
            lemma_congruent_close(l1, l2, m);
            assert(b1@ =~= enc_token(t1).subrange(32, 32 + l1 as int));
            assert(b2@ =~= enc_token(t2).subrange(32, 32 + l2 as int));
        },
        Token::Str(s1) => {
            let s2 = t2->Str_0;
            let c1 = str_bytes_of(s1@);
            let c2 = str_bytes_of(s2@);
            let l1 = c1.len();
            let l2 = c2.len();
            lemma_word_len(l1);
            lemma_word_len(l2);
            lemma_pad32_shape(l1);
            lemma_pad32_shape(l2);
            assert(enc_token(t1).len() == 32 + pad32(l1));
            assert(enc_token(t2).len() == 32 + pad32(l2));
            assert(word_of(l1) =~= enc_token(t1).subrange(0, 32));
            assert(word_of(l2) =~= enc_token(t2).subrange(0, 32));
            crate::words::lemma_be_bytes_val(l1, 32);
            crate::words::lemma_be_bytes_val(l2, 32);
            lemma_congruent_close(l1, l2, m);
            assert(c1 =~= enc_token(t1).subrange(32, 32 + l1 as int));
            assert(c2 =~= enc_token(t2).subrange(32, 32 + l2 as int));
            vstd::utf8::encode_utf8_decode_utf8(s1@);
            vstd::utf8::encode_utf8_decode_utf8(s2@);
        },
        _ => {
        },
    }
}

/// Every leaf-static type occupies exactly one 32-byte slot.
proof fn lemma_leaf_ssize(t: Token, d: TypeDescriptor)
    requires
        matches_type(t, d),
        valid_token(t),
        crate::decode::leaf_static(d),
    ensures
        !token_dynamic(t),
        enc_token(t).len() == 32,
{
    assert(!type_dynamic(d));
    lemma_enc_static_len(t, d);
    match d {
        TypeDescriptor::FixedBytes(nn) => {
            lemma_pad32_shape(nn as nat);
        },
        _ => {},
    }
}

/// In the encoding of a sequence of leaf-static tokens, the `i`-th 32-byte
/// slot holds exactly the `i`-th token's encoding.
proof fn lemma_leaf_static_slot(ts: Seq<Token>, ds: Seq<TypeDescriptor>, o: nat, i: int)
    requires
        ts.len() == ds.len(),
        forall|q: int| 0 <= q < ts.len() ==> matches_type(#[trigger] ts[q], ds[q]),
        forall|q: int| 0 <= q < ts.len() ==> valid_token(#[trigger] ts[q]),
        forall|q: int| 0 <= q < ds.len() ==> crate::decode::leaf_static(#[trigger] ds[q]),
        0 <= i < ts.len(),
    ensures
        enc_heads(ts, o).len() == 32 * ts.len(),
        enc_heads(ts, o).subrange(32 * i, 32 * i + 32) == enc_token(ts[i]),
    decreases ts.len(),
{
    lemma_leaf_ssize(ts[0], ds[0]);
    let rest = ts.subrange(1, ts.len() as int);
    let drest = ds.subrange(1, ds.len() as int);
    assert(tail_size(ts[0]) == 0);
    let h = enc_heads(ts, o);
    assert(h == enc_token(ts[0]) + enc_heads(rest, o));
    assert(forall|q: int| 0 <= q < rest.len() ==> matches_type(#[trigger] rest[q], drest[q]));
    if rest.len() == 0 {
        assert(enc_heads(rest, o) =~= Seq::<u8>::empty());
        assert(i == 0);
        assert(h.subrange(0, 32) =~= enc_token(ts[0]));
    } else {
        lemma_leaf_static_slot(rest, drest, o, if i == 0 {
            0
        } else {
            i - 1
        });
        if i == 0 {
            assert(h.subrange(0, 32) =~= enc_token(ts[0]));
        } else {
            assert(h.subrange(32 * i, 32 * i + 32) =~= enc_heads(rest, o).subrange(
                32 * (i - 1),
                32 * (i - 1) + 32,
            ));
            assert(rest[i - 1] == ts[i]);
        }
    }
}

/// The round-trip law for leaf-static types: any tokens read back (per
/// [`crate::decode::leaf_reads`]) from the canonical encoding of a matching
/// token sequence carry the same values.  Together with `encode`'s and
/// `decode`'s contracts this gives `decode(ds, encode(ts))` back `ts`.
pub proof fn lemma_leaf_static_round_trip(ts: Seq<Token>, ds: Seq<TypeDescriptor>, rs: Seq<Token>)
    requires
        ts.len() == ds.len(),
        rs.len() == ds.len(),
        forall|i: int| 0 <= i < ts.len() ==> matches_type(#[trigger] ts[i], ds[i]),
        forall|i: int| 0 <= i < ts.len() ==> valid_token(#[trigger] ts[i]),
        forall|i: int| 0 <= i < ds.len() ==> crate::decode::leaf_static(#[trigger] ds[i]),
        forall|i: int|
            0 <= i < ds.len() ==> crate::decode::leaf_reads(
                rs[i],
                #[trigger] ds[i],
                enc_seq(ts),
                32 * i,
            ),
    ensures
        forall|i: int| 0 <= i < ts.len() ==> crate::token::token_like(#[trigger] rs[i], ts[i]),
{
    assert forall|i: int| 0 <= i < ts.len() implies crate::token::token_like(
        #[trigger] rs[i],
        ts[i],
    ) by {
        assert(!type_dynamic(ds[i]));
        lemma_leaf_ssize(ts[i], ds[i]);
        assert forall|q: int| 0 <= q < ts.len() implies !token_dynamic(#[trigger] ts[q]) by {
            lemma_leaf_ssize(ts[q], ds[q]);
        }
        lemma_static_tails_empty(ts);
        assert(enc_seq(ts) =~= enc_heads(ts, heads_len(ts)));
        lemma_leaf_static_slot(ts, ds, heads_len(ts), i);
        let slot = enc_seq(ts).subrange(32 * i, 32 * i + 32);
        assert(slot == enc_token(ts[i]));
        match ds[i] {
            TypeDescriptor::Bool => {
                let b = ts[i]->Bool_0;
                lemma_word_len(if b {
                    1
                } else {
                    0
                });
                reveal_with_fuel(be_bytes, 2);
                assert(word_of(1).last() == 1);
                assert(word_of(0).last() == 0);
                assert(enc_seq(ts)[32 * i + 31] == slot[31]);
            },
            TypeDescriptor::Uint(_) => {
                assert(rs[i]->Uint_0@ == slot);
            },
            TypeDescriptor::Int(_) => {
                assert(rs[i]->Int_0@ == slot);
            },
            TypeDescriptor::Address => {
                let a = ts[i]->Address_0;
                assert(enc_seq(ts).subrange(32 * i + 12, 32 * i + 32) =~= slot.subrange(12, 32));
                assert(slot.subrange(12, 32) =~= a@);
            },
            TypeDescriptor::FixedBytes(nn) => {
                let b = ts[i]->FixedBytes_0;
                assert(enc_seq(ts).subrange(32 * i, 32 * i + nn) =~= slot.subrange(0, nn as int));
                assert(slot.subrange(0, nn as int) =~= b@);
            },
            _ => {},
        }
    }
}

} // verus!
