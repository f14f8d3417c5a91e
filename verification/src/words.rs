//! Arithmetic on byte strings read as big-endian natural numbers.
//!
//! ABI words are 32-byte big-endian values.  Everything here is stated over
//! [`be_val`], the number a byte string denotes, so that the codec and the
//! tokenizer can speak about values rather than byte juggling.

use vstd::prelude::*;

verus! {

use vstd::arithmetic::div_mod::{lemma_mod_breakdown, lemma_fundamental_div_mod_converse};

/// 256 raised to the `k`-th power.
pub open spec fn pow256(k: nat) -> nat
    decreases k,
{
    if k == 0 {
        1
    } else {
        256 * pow256((k - 1) as nat)
    }
}

/// The natural number a byte string denotes when read big-endian.
pub open spec fn be_val(s: Seq<u8>) -> nat
    decreases s.len(),
{
    if s.len() == 0 {
        0
    } else {
        (256 * be_val(s.drop_last()) + s.last()) as nat
    }
}

pub proof fn lemma_pow256_pos(k: nat)
    ensures
        pow256(k) >= 1,
    decreases k,
{
    if k > 0 {
        lemma_pow256_pos((k - 1) as nat);
    }
}

pub proof fn lemma_pow256_add(a: nat, b: nat)
    ensures
        pow256(a + b) == pow256(a) * pow256(b),
    decreases a,
{
    if a == 0 {
        assert(pow256(0) == 1);
        assert(pow256(a + b) == 1 * pow256(b)) by (nonlinear_arith)
            requires
                a == 0,
                pow256(a + b) == pow256(b),
        ;
    } else {
        lemma_pow256_add((a - 1) as nat, b);
        let p1 = pow256((a - 1) as nat);
        assert((a + b - 1) as nat == (a - 1) as nat + b);
        assert(pow256(a + b) == 256 * (p1 * pow256(b)));
        assert(256 * (p1 * pow256(b)) == (256 * p1) * pow256(b)) by (nonlinear_arith);
        assert(pow256(a) == 256 * p1);
    }
}

/// The value of a one-byte string is that byte.
pub proof fn lemma_be_val_single(x: u8)
    ensures
        be_val(seq![x]) == x,
{
    reveal_with_fuel(be_val, 2);
    assert(seq![x].drop_last() =~= Seq::<u8>::empty());
}

/// A byte string's value is below 256^length.
pub proof fn lemma_be_val_bound(s: Seq<u8>)
    ensures
        be_val(s) < pow256(s.len()),
    decreases s.len(),
{
    if s.len() > 0 {
        lemma_be_val_bound(s.drop_last());
    }
}

/// Concatenation splits the value: high part shifted by the low part's width.
pub proof fn lemma_be_val_concat(a: Seq<u8>, b: Seq<u8>)
    ensures
        be_val(a + b) == be_val(a) * pow256(b.len()) + be_val(b),
    decreases b.len(),
{
    if b.len() == 0 {
        assert(a + b =~= a);
        assert(pow256(0) == 1);
        assert(be_val(a) * 1 == be_val(a)) by (nonlinear_arith);
    } else {
        let pl = (b.len() - 1) as nat;
        lemma_be_val_concat(a, b.drop_last());
        assert((a + b).drop_last() =~= a + b.drop_last());
        assert(be_val(a + b) == 256 * be_val(a + b.drop_last()) + b.last());
        assert(be_val(b) == 256 * be_val(b.drop_last()) + b.last());
        assert(pow256(b.len()) == 256 * pow256(pl));
        assert(256 * (be_val(a) * pow256(pl)) == be_val(a) * (256 * pow256(pl)))
            by (nonlinear_arith);
        assert(be_val(a + b) == be_val(a) * pow256(b.len()) + be_val(b));
    }
}

/// A string of zero bytes denotes zero.
pub proof fn lemma_be_val_zeros(s: Seq<u8>)
    requires
        forall|i: int| 0 <= i < s.len() ==> s[i] == 0,
    ensures
        be_val(s) == 0,
    decreases s.len(),
{
    if s.len() > 0 {
        lemma_be_val_zeros(s.drop_last());
    }
}

/// A byte string denotes zero exactly when every byte is zero.
pub proof fn lemma_be_val_zero_iff(s: Seq<u8>)
    ensures
        be_val(s) == 0 <==> (forall|i: int| 0 <= i < s.len() ==> s[i] == 0),
    decreases s.len(),
{
    if s.len() > 0 {
        lemma_be_val_zero_iff(s.drop_last());
        if be_val(s) == 0 {
            assert(forall|i: int| 0 <= i < s.len() - 1 ==> s[i] == s.drop_last()[i]);
        }
    }
}


/// Byte strings of one length with one value are equal.
pub proof fn lemma_be_val_injective(a: Seq<u8>, b: Seq<u8>)
    requires
        a.len() == b.len(),
        be_val(a) == be_val(b),
    ensures
        a == b,
    decreases a.len(),
{
    if a.len() > 0 {
        assert(be_val(a) == 256 * be_val(a.drop_last()) + a.last());
        assert(be_val(b) == 256 * be_val(b.drop_last()) + b.last());
        assert(a.last() == b.last() && be_val(a.drop_last()) == be_val(b.drop_last()))
            by (nonlinear_arith)
            requires
                256 * be_val(a.drop_last()) + a.last() == 256 * be_val(b.drop_last()) + b.last(),
                a.last() < 256,
                b.last() < 256,
        ;
        lemma_be_val_injective(a.drop_last(), b.drop_last());
        assert(forall|i: int|
            0 <= i < a.len() - 1 ==> a[i] == a.drop_last()[i] && b[i] == b.drop_last()[i]);
        assert(a =~= b);
    } else {
        assert(a =~= b);
    }
}

/// A word's value is below 256^n exactly when its first `len - n` bytes are
/// zero.
pub proof fn lemma_prefix_zero_iff(w: Seq<u8>, nb: nat)
    requires
        nb <= w.len(),
    ensures
        (forall|i: int| 0 <= i < w.len() - nb ==> w[i] == 0) <==> be_val(w) < pow256(nb),
{
    let k = (w.len() - nb) as int;
    assert(w =~= w.take(k) + w.skip(k));
    lemma_be_val_concat(w.take(k), w.skip(k));
    lemma_be_val_bound(w.skip(k));
    lemma_pow256_pos(nb);
    assert(forall|i: int| 0 <= i < k ==> w.take(k)[i] == w[i]);
    if forall|i: int| 0 <= i < k ==> w[i] == 0 {
        assert(forall|i: int| 0 <= i < k ==> w.take(k)[i] == 0);
        lemma_be_val_zeros(w.take(k));
        assert(be_val(w.take(k)) * pow256(nb) == 0) by (nonlinear_arith)
            requires
                be_val(w.take(k)) == 0,
        ;
    } else {
        lemma_be_val_zero_iff(w.take(k));
        assert(forall|i: int| 0 <= i < k ==> w.take(k)[i] == w[i]);
        assert(be_val(w.take(k)) >= 1);
        assert(be_val(w.take(k)) * pow256(nb) >= pow256(nb)) by (nonlinear_arith)
            requires
                be_val(w.take(k)) >= 1,
                pow256(nb) >= 1,
        ;
    }
}

/// The big-endian bytes of `n % 256^k`, `k` bytes long.
pub open spec fn be_bytes(n: nat, k: nat) -> Seq<u8>
    decreases k,
{
    if k == 0 {
        Seq::empty()
    } else {
        be_bytes(n / 256, (k - 1) as nat).push((n % 256) as u8)
    }
}

pub proof fn lemma_be_bytes_len(n: nat, k: nat)
    ensures
        be_bytes(n, k).len() == k,
    decreases k,
{
    if k > 0 {
        lemma_be_bytes_len(n / 256, (k - 1) as nat);
    }
}

/// `be_bytes` inverts `be_val` up to the width's modulus.
pub proof fn lemma_be_bytes_val(n: nat, k: nat)
    ensures
        be_val(be_bytes(n, k)) == n % pow256(k),
    decreases k,
{
    if k == 0 {
        assert(n % 1 == 0) by (nonlinear_arith);
    } else {
        lemma_be_bytes_val(n / 256, (k - 1) as nat);
        lemma_be_bytes_len(n / 256, (k - 1) as nat);
        assert(be_bytes(n, k).drop_last() =~= be_bytes(n / 256, (k - 1) as nat));
        lemma_pow256_pos((k - 1) as nat);
        lemma_mod_breakdown(n as int, 256, pow256((k - 1) as nat) as int);
    }
}

/// Writing a value below the modulus and reading it back is the identity.
pub proof fn lemma_be_bytes_val_small(n: nat, k: nat)
    requires
        n < pow256(k),
    ensures
        be_val(be_bytes(n, k)) == n,
{
    lemma_be_bytes_val(n, k);
    assert(n % pow256(k) == n) by (nonlinear_arith)
        requires
            n < pow256(k),
            pow256(k) >= 1,
    {
        lemma_pow256_pos(k);
    }
}

/// Appends the `k` big-endian bytes of `n` to `out`.
pub fn push_be_bytes(n: usize, k: usize, out: &mut Vec<u8>)
    ensures
        final(out)@ == old(out)@ + be_bytes(n as nat, k as nat),
    decreases k,
{
    if k == 0 {
        assert(out@ =~= out@ + be_bytes(n as nat, 0));
    } else {
        push_be_bytes(n / 256, k - 1, out);
        out.push((n % 256) as u8);
        assert(out@ =~= old(out)@ + be_bytes(n as nat, k as nat));
    }
}

/// One multiply-and-add step of positional text parsing, in base-256 limbs:
/// returns the low bytes of `m * be_val(s) + c` at `s`'s width, and the carry
/// out.
pub fn mul_small_rec(s: &[u8], m: u8, c: u8) -> (res: (Vec<u8>, u8))
    requires
        2 <= m <= 16,
        c < m,
    ensures
        res.0@.len() == s@.len(),
        res.1 < m,
        be_val(res.0@) + res.1 * pow256(s@.len()) == m * be_val(s@) + c,
    decreases s@.len(),
{
    let n = s.len();
    if n == 0 {
        let out: Vec<u8> = Vec::new();
        proof {
            assert(s@ =~= Seq::<u8>::empty());
            assert(out@ =~= Seq::<u8>::empty());
            assert(pow256(s@.len()) == 1);
            assert((c as nat) * 1 == c && (m as nat) * 0 == 0) by (nonlinear_arith);
        }
        (out, c)
    } else {
        let last = s[n - 1];
        proof {
            assert((m as u32) * (last as u32) + (c as u32) < 256 * (m as u32)) by (nonlinear_arith)
                requires
                    last < 256,
                    c < m,
                    2 <= m <= 16,
            ;
        }
        let t: u32 = (m as u32) * (last as u32) + (c as u32);
        let low: u8 = (t % 256) as u8;
        let carry: u8 = (t / 256) as u8;
        proof {
            assert(t < 256 * (m as u32));
            assert(carry < m);
        }
        let prefix = vstd::slice::slice_subrange(s, 0, n - 1);
        let (mut res, carry2) = mul_small_rec(prefix, m, carry);
        proof {
            assert(prefix@ =~= s@.drop_last());
        }
        let ghost resp = res@;
        res.push(low);
        proof {
            let pl = (s@.len() - 1) as nat;
            let ghost bl = be_val(s@.drop_last());
            assert(res@ =~= resp.push(low));
            assert(res@.drop_last() =~= resp);
            assert(be_val(res@) == 256 * be_val(resp) + low);
            assert(pow256(s@.len()) == 256 * pow256(pl));
            // carry recombination and distributing m over the last byte
            assert(256 * ((carry2 as nat) * pow256(pl)) == (carry2 as nat) * (256 * pow256(pl)))
                by (nonlinear_arith);
            assert((m as nat) * be_val(s@) == (m as nat) * (256 * bl) + (m as nat) * (
            s@.last() as nat)) by (nonlinear_arith)
                requires
                    be_val(s@) == 256 * bl + s@.last(),
            ;
            assert(256 * ((m as nat) * bl) == (m as nat) * (256 * bl)) by (nonlinear_arith);
            assert(t == (m as nat) * (s@.last() as nat) + c);
            assert(t == 256 * (carry as nat) + low);
            // assemble: multiply the induction hypothesis by 256 and add the
            // last byte's contribution
            assert(be_val(resp) + (carry2 as nat) * pow256(pl) == (m as nat) * bl + carry);
            assert(256 * (be_val(resp) + (carry2 as nat) * pow256(pl)) == 256 * ((m as nat) * bl
                + carry));
            assert(be_val(res@) + (carry2 as nat) * pow256(s@.len()) == (m as nat) * be_val(s@)
                + c);
        }
        (res, carry2)
    }
}

/// One step of long division by a small base: returns the quotient digits of
/// `r_in * 256^len + be_val(s)` divided by `m`, and the remainder.
pub fn div_small_rec(s: &[u8], m: u8, r_in: u8) -> (res: (Vec<u8>, u8))
    requires
        2 <= m <= 16,
        r_in < m,
    ensures
        res.0@.len() == s@.len(),
        res.1 < m,
        (m as nat) * be_val(res.0@) + res.1 == (r_in as nat) * pow256(s@.len()) + be_val(s@),
    decreases s@.len(),
{
    let n = s.len();
    if n == 0 {
        let out: Vec<u8> = Vec::new();
        proof {
            assert(s@ =~= Seq::<u8>::empty());
            assert(out@ =~= Seq::<u8>::empty());
            assert(pow256(s@.len()) == 1);
            assert((r_in as nat) * 1 == r_in && (m as nat) * 0 == 0) by (nonlinear_arith);
        }
        (out, r_in)
    } else {
        let first = s[0];
        let t: u32 = (r_in as u32) * 256 + (first as u32);
        proof {
            assert(t / (m as u32) < 256 && t % (m as u32) < m) by (nonlinear_arith)
                requires
                    t == (r_in as u32) * 256 + (first as u32),
                    r_in < m,
                    first < 256,
                    2 <= m <= 16,
            ;
        }
        let q0: u8 = (t / (m as u32)) as u8;
        let r1: u8 = (t % (m as u32)) as u8;
        let rest = vstd::slice::slice_subrange(s, 1, n);
        let (tail_q, r_out) = div_small_rec(rest, m, r1);
        let ghost tqv = tail_q@;
        let mut out: Vec<u8> = Vec::new();
        out.push(q0);
        let mut tq = tail_q;
        out.append(&mut tq);
        proof {
            let pl = (s@.len() - 1) as nat;
            assert(rest@ =~= s@.drop_first());
            assert(out@ =~= seq![q0] + tqv);
            lemma_be_val_concat(seq![q0], tqv);
            lemma_be_val_single(q0);
            lemma_be_val_concat(seq![first], s@.drop_first());
            assert(seq![first] + s@.drop_first() =~= s@);
            lemma_be_val_single(first);
            assert(pow256(s@.len()) == 256 * pow256(pl));
            // m * (q0 * p + tailq) + r_out
            //   == (m * q0 + r1) * p + be_val(rest)            [by induction]
            //   == t * p + be_val(rest)
            //   == r_in * 256 * p + first * p + be_val(rest)
            assert((m as nat) * ((q0 as nat) * pow256(pl) + be_val(tqv)) == ((m as nat) * (
            q0 as nat)) * pow256(pl) + (m as nat) * be_val(tqv)) by (nonlinear_arith);
            assert(be_val(out@) == (q0 as nat) * pow256(pl) + be_val(tqv));
            assert(t == (m as nat) * (q0 as nat) + r1) by {
                assert(t == (m as u32) * (t / (m as u32)) + t % (m as u32)) by (nonlinear_arith)
                    requires
                        2 <= m <= 16,
                ;
            }
            assert(((m as nat) * (q0 as nat)) * pow256(pl) + (r1 as nat) * pow256(pl) == (t as nat)
                * pow256(pl)) by (nonlinear_arith)
                requires
                    t == (m as nat) * (q0 as nat) + r1,
            ;
            assert((t as nat) * pow256(pl) == ((r_in as nat) * 256) * pow256(pl) + (first as nat)
                * pow256(pl)) by (nonlinear_arith)
                requires
                    t == (r_in as nat) * 256 + first,
            ;
            assert(((r_in as nat) * 256) * pow256(pl) == (r_in as nat) * (256 * pow256(pl)))
                by (nonlinear_arith);
        }
        (out, r_out)
    }
}

/// Two's-complement negation with borrow: the returned bytes, the input and
/// the borrow-in sum to a multiple of 256^len signalled by the borrow-out.
pub fn neg_rec(s: &[u8], b_in: u8) -> (res: (Vec<u8>, u8))
    requires
        b_in <= 1,
    ensures
        res.0@.len() == s@.len(),
        res.1 <= 1,
        be_val(res.0@) + be_val(s@) + b_in == pow256(s@.len()) * (res.1 as nat),
    decreases s@.len(),
{
    let n = s.len();
    if n == 0 {
        let out: Vec<u8> = Vec::new();
        proof {
            assert(s@ =~= Seq::<u8>::empty());
            assert(out@ =~= Seq::<u8>::empty());
            assert(pow256(s@.len()) == 1);
            assert(1 * (b_in as nat) == b_in) by (nonlinear_arith);
        }
        (out, b_in)
    } else {
        let last = s[n - 1];
        let t: u32 = 256 - (last as u32) - (b_in as u32);
        let d: u8 = (t % 256) as u8;
        let b_next: u8 = if (last as u32) + (b_in as u32) > 0 {
            1
        } else {
            0
        };
        let prefix = vstd::slice::slice_subrange(s, 0, n - 1);
        let (mut res, b_out) = neg_rec(prefix, b_next);
        proof {
            assert(prefix@ =~= s@.drop_last());
        }
        let ghost resp = res@;
        res.push(d);
        proof {
            let pl = (s@.len() - 1) as nat;
            assert(res@ =~= resp.push(d));
            assert(res@.drop_last() =~= resp);
            assert(be_val(res@) == 256 * be_val(resp) + d);
            assert(be_val(s@) == 256 * be_val(s@.drop_last()) + last);
            assert(pow256(s@.len()) == 256 * pow256(pl));
            assert((d as nat) + (last as nat) + (b_in as nat) == 256 * (b_next as nat));
            assert(256 * (pow256(pl) * (b_out as nat)) == (256 * pow256(pl)) * (b_out as nat))
                by (nonlinear_arith);
        }
        (res, b_out)
    }
}

/// True when every byte of `s` is zero, i.e. the value is zero.
pub fn is_zero_word(s: &[u8]) -> (r: bool)
    ensures
        r <==> be_val(s@) == 0,
{
    let mut i: usize = 0;
    let n = s.len();
    let mut all: bool = true;
    while i < n
        invariant
            0 <= i <= n,
            n == s@.len(),
            all <==> (forall|j: int| 0 <= j < i ==> s@[j] == 0),
        decreases n - i,
    {
        if s[i] != 0 {
            all = false;
        }
        i = i + 1;
    }
    proof {
        lemma_be_val_zero_iff(s@);
    }
    all
}

/// The canonical decimal rendering of a natural number, without sign and
/// without leading zeros (zero itself renders as "0").
pub open spec fn dec_str(n: nat) -> Seq<char>
    decreases n,
{
    if n < 10 {
        seq![digit_char(n)]
    } else {
        dec_str(n / 10).push(digit_char(n % 10))
    }
}

/// The character for a single decimal or hexadecimal digit value.
pub open spec fn digit_char(d: nat) -> char {
    if d == 0 {
        '0'
    } else if d == 1 {
        '1'
    } else if d == 2 {
        '2'
    } else if d == 3 {
        '3'
    } else if d == 4 {
        '4'
    } else if d == 5 {
        '5'
    } else if d == 6 {
        '6'
    } else if d == 7 {
        '7'
    } else if d == 8 {
        '8'
    } else if d == 9 {
        '9'
    } else if d == 10 {
        'a'
    } else if d == 11 {
        'b'
    } else if d == 12 {
        'c'
    } else if d == 13 {
        'd'
    } else if d == 14 {
        'e'
    } else if d == 15 {
        'f'
    } else {
        '?'
    }
}

pub(crate) fn digit_char_exec(d: u8) -> (c: char)
    requires
        d < 16,
    ensures
        c == digit_char(d as nat),
{
    if d == 0 {
        '0'
    } else if d == 1 {
        '1'
    } else if d == 2 {
        '2'
    } else if d == 3 {
        '3'
    } else if d == 4 {
        '4'
    } else if d == 5 {
        '5'
    } else if d == 6 {
        '6'
    } else if d == 7 {
        '7'
    } else if d == 8 {
        '8'
    } else if d == 9 {
        '9'
    } else if d == 10 {
        'a'
    } else if d == 11 {
        'b'
    } else if d == 12 {
        'c'
    } else if d == 13 {
        'd'
    } else if d == 14 {
        'e'
    } else {
        'f'
    }
}

/// Renders `be_val(s)` in decimal.
pub fn be_val_to_dec(s: &[u8]) -> (r: Vec<char>)
    ensures
        r@ == dec_str(be_val(s@)),
{
    let ghost n0: nat = be_val(s@);
    if is_zero_word(s) {
        let mut out: Vec<char> = Vec::new();
        out.push('0');
        proof {
            assert(out@ =~= dec_str(0));
        }
        return out;
    }
    let mut cur: Vec<u8> = vstd::slice::slice_to_vec(s);
    let mut digits: Vec<char> = Vec::new();
    while !is_zero_word(cur.as_slice())
        invariant
            cur@.len() == s@.len(),
            be_val(cur@) > 0 ==> dec_str(n0) =~= dec_str(be_val(cur@)) + digits@.reverse(),
            be_val(cur@) == 0 ==> digits@.len() >= 1 && dec_str(n0) =~= digits@.reverse(),
        decreases be_val(cur@),
    {
        let ghost v: nat = be_val(cur@);
        let (q, r) = div_small_rec(cur.as_slice(), 10, 0);
        proof {
            lemma_fundamental_div_mod_converse(v as int, 10, be_val(q@) as int, r as int);
        }
        let d = digit_char_exec(r);
        cur = q;
        digits.push(d);
        proof {
            assert(be_val(cur@) == v / 10);
            assert(r == v % 10);
            assert(digits@.reverse() =~= seq![d] + digits@.drop_last().reverse());
            if v >= 10 {
                assert(v / 10 > 0) by (nonlinear_arith)
                    requires
                        v >= 10,
                ;
                assert(dec_str(v) == dec_str(v / 10).push(digit_char(v % 10)));
                assert(dec_str(v / 10) + (seq![d] + digits@.drop_last().reverse()) =~= (dec_str(
                    v / 10,
                ).push(d)) + digits@.drop_last().reverse());
            } else {
                assert(v / 10 == 0) by (nonlinear_arith)
                    requires
                        v < 10,
                ;
                assert(dec_str(v) =~= seq![d]);
                assert(seq![d] + digits@.drop_last().reverse() =~= dec_str(v)
                    + digits@.drop_last().reverse());
            }
        }
    }
    // reverse the collected digits
    let mut out: Vec<char> = Vec::new();
    let total = digits.len();
    let mut i: usize = 0;
    while i < total
        invariant
            0 <= i <= total,
            total == digits@.len(),
            out@.len() == i,
            forall|j: int| 0 <= j < i ==> out@[j] == digits@[total - 1 - j],
        decreases total - i,
    {
        out.push(digits[total - 1 - i]);
        i = i + 1;
    }
    proof {
        assert(out@ =~= digits@.reverse());
    }
    out
}

} // verus!
