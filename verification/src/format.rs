//! The formatter: canonical display text for decoded tokens, recursive over
//! composite values.
//!
//! Addresses render in the chain-native base58check text (never raw hex),
//! integers in decimal, byte strings as bare lowercase hex, text quoted with
//! minimal escaping, arrays bracketed and comma-joined; tuples render as an
//! opaque placeholder, a deliberate compatibility choice.

use vstd::prelude::*;
use crate::token::{Token, valid_token};
use crate::words::{be_val, pow256, dec_str, digit_char, be_val_to_dec, lemma_be_val_zero_iff};

use crate::outside::{b58check_of, b58check_string};
use crate::entry::join_with;
use crate::tokenize::chars_to_string;

verus! {

broadcast use vstd::std_specs::vec::group_vec_axioms;

/// Lowercase hex rendering of a byte string, two digits per byte, no prefix.
pub open spec fn hex_str(b: Seq<u8>) -> Seq<char>
    decreases b.len(),
{
    if b.len() == 0 {
        Seq::empty()
    } else {
        hex_str(b.drop_last()) + seq![
            digit_char((b.last() / 16) as nat),
            digit_char((b.last() % 16) as nat),
        ]
    }
}

/// How one character renders inside a quoted string: quote and backslash
/// escaped by a backslash, the common control characters by their named
/// escapes, any other control character as a braced hex escape.
pub open spec fn escaped_char(c: char) -> Seq<char> {
    if c == '"' || c == '\\' {
        seq!['\\', c]
    } else if c == '\n' {
        seq!['\\', 'n']
    } else if c == '\r' {
        seq!['\\', 'r']
    } else if c == '\t' {
        seq!['\\', 't']
    } else if (c as u32) < 32 {
        if (c as u32) < 16 {
            seq!['\\', 'u', '{', digit_char(((c as u32) % 16) as nat), '}']
        } else {
            seq!['\\', 'u', '{', '1', digit_char(((c as u32) % 16) as nat), '}']
        }
    } else {
        seq![c]
    }
}

/// Text content with quotes, backslashes and control characters escaped.
pub open spec fn escaped(s: Seq<char>) -> Seq<char>
    decreases s.len(),
{
    if s.len() == 0 {
        Seq::empty()
    } else {
        escaped(s.drop_last()) + escaped_char(s.last())
    }
}

/// The display text of one token.
pub open spec fn format_of(t: Token) -> Seq<char>
    decreases t, 1int,
{
    match t {
        Token::Bool(b) => if b {
            "true"@
        } else {
            "false"@
        },
        Token::Uint(v) => dec_str(be_val(v@)),
        Token::Int(v) => if v@.len() > 0 && v@[0] >= 128 {
            seq!['-'] + dec_str((pow256(32) - be_val(v@)) as nat)
        } else {
            dec_str(be_val(v@))
        },
        Token::Address(a) => b58check_of(seq![0x41u8] + a@),
        Token::FixedBytes(b) => hex_str(b@),
        Token::Bytes(b) => hex_str(b@),
        Token::Str(s) => seq!['"'] + escaped(s@) + seq!['"'],
        Token::Array(es) => seq!['['] + join_with(formats_of(es@), ", "@) + seq![']'],
        Token::FixedArray(es) => seq!['['] + join_with(formats_of(es@), ", "@) + seq![']'],
        Token::Tuple(_) => "tuple(...)"@,
    }
}

/// The display texts of a token sequence.
pub open spec fn formats_of(ts: Seq<Token>) -> Seq<Seq<char>>
    decreases ts, 2int,
{
    if ts.len() == 0 {
        Seq::empty()
    } else {
        seq![format_of(ts[0])] + formats_of(ts.subrange(1, ts.len() as int))
    }
}

/// Appending one token appends one rendering.
proof fn lemma_formats_of_push(ts: Seq<Token>, x: Token)
    ensures
        formats_of(ts.push(x)) == formats_of(ts).push(format_of(x)),
    decreases ts.len(),
{
    let p = ts.push(x);
    if ts.len() == 0 {
        assert(p[0] == x);
        assert(p.subrange(1, p.len() as int) =~= Seq::<Token>::empty());
        reveal_with_fuel(formats_of, 2);
        assert(formats_of(p) =~= formats_of(ts).push(format_of(x)));
    } else {
        assert(p[0] == ts[0]);
        assert(p.subrange(1, p.len() as int) =~= ts.subrange(1, ts.len() as int).push(x));
        lemma_formats_of_push(ts.subrange(1, ts.len() as int), x);
        assert(formats_of(p) =~= formats_of(ts).push(format_of(x)));
    }
}

/// Renders bytes as bare lowercase hex.
fn hex_str_exec(b: &Vec<u8>) -> (r: Vec<char>)
    ensures
        r@ == hex_str(b@),
{
    let n = b.len();
    let mut out: Vec<char> = Vec::new();
    let mut i: usize = 0;
    while i < n
        invariant
            0 <= i <= n,
            n == b@.len(),
            out@ == hex_str(b@.take(i as int)),
        decreases n - i,
    {
        let hi = crate::words::digit_char_exec(b[i] / 16);
        let lo = crate::words::digit_char_exec(b[i] % 16);
        out.push(hi);
        out.push(lo);
        proof {
            let t = b@.take(i + 1);
            assert(t.drop_last() =~= b@.take(i as int));
            assert(t.last() == b@[i as int]);
            assert(out@ =~= hex_str(b@.take(i + 1)));
        }
        i = i + 1;
    }
    proof {
        assert(b@.take(n as int) =~= b@);
    }
    out
}

/// Escapes quotes and backslashes.
fn escaped_exec(s: &str) -> (r: Vec<char>)
    ensures
        r@ == escaped(s@),
{
    let cs = crate::parse::to_chars(s);
    let n = cs.len();
    let mut out: Vec<char> = Vec::new();
    let mut i: usize = 0;
    while i < n
        invariant
            0 <= i <= n,
            n == cs@.len(),
            cs@ == s@,
            out@ == escaped(s@.take(i as int)),
        decreases n - i,
    {
        let c = cs[i];
        let ghost pre = out@;
        if c == '"' || c == '\\' {
            out.push('\\');
            out.push(c);
        } else if c == '\n' {
            out.push('\\');
            out.push('n');
        } else if c == '\r' {
            out.push('\\');
            out.push('r');
        } else if c == '\t' {
            out.push('\\');
            out.push('t');
        } else if (c as u32) < 32 {
            out.push('\\');
            out.push('u');
            out.push('{');
            if (c as u32) >= 16 {
                out.push('1');
            }
            out.push(crate::words::digit_char_exec(((c as u32) % 16) as u8));
            out.push('}');
        } else {
            out.push(c);
        }
        proof {
            let t = s@.take(i + 1);
            assert(t.drop_last() =~= s@.take(i as int));
            assert(t.last() == s@[i as int]);
            assert(out@ =~= pre + escaped_char(s@[i as int]));
            assert(out@ =~= escaped(s@.take(i + 1)));
        }
        i = i + 1;
    }
    proof {
        assert(s@.take(n as int) =~= s@);
    }
    out
}

/// Renders the elements of an array, comma-space-joined, into `out`.
fn append_joined_formats(out: &mut String, es: &Vec<Token>)
    requires
        forall|i: int| 0 <= i < es@.len() ==> valid_token(#[trigger] es@[i]),
    ensures
        final(out)@ == old(out)@ + join_with(formats_of(es@), ", "@),
    decreases es@, 2int,
{
    let n = es.len();
    let mut i: usize = 0;
    while i < n
        invariant
            0 <= i <= n,
            n == es@.len(),
            forall|j: int| 0 <= j < es@.len() ==> valid_token(#[trigger] es@[j]),
            out@ == old(out)@ + join_with(formats_of(es@.take(i as int)), ", "@),
        decreases n - i,
    {
        proof {
            assert(decreases_to!(es@ => es@[i as int]));
        }
        if i > 0 {
            out.append(", ");
        }
        let piece = format_token(&es[i]);
        out.append(piece.as_str());
        proof {
            assert(es@.take(i + 1) =~= es@.take(i as int).push(es@[i as int]));
            lemma_formats_of_push(es@.take(i as int), es@[i as int]);
            let parts = formats_of(es@.take(i + 1));
            assert(parts.drop_last() =~= formats_of(es@.take(i as int)));
            assert(parts.last() == format_of(es@[i as int]));
            assert(out@ =~= old(out)@ + join_with(parts, ", "@));
        }
        i = i + 1;
    }
    proof {
        assert(es@.take(n as int) =~= es@);
    }
}

/// Renders one token as display text: total over valid tokens.
pub fn format_token(t: &Token) -> (r: String)
    requires
        valid_token(*t),
    ensures
        r@ == format_of(*t),
    decreases *t, 1int,
{
    match t {
        Token::Bool(b) => {
            if *b {
                String::from_str("true")
            } else {
                String::from_str("false")
            }
        },
        Token::Uint(v) => {
            let digits = be_val_to_dec(v.as_slice());
            chars_to_string(digits.as_slice())
        },
        Token::Int(v) => {
            if v[0] >= 128 {
                proof {
                    lemma_be_val_zero_iff(v@);
                }
                let nw = crate::tokenize::neg_word(v);
                let digits = be_val_to_dec(nw.as_slice());
                let mut out = String::from_str("-");
                let tail = chars_to_string(digits.as_slice());
                out.append(tail.as_str());
                proof {
                    reveal_strlit("-");
                    assert("-"@ =~= seq!['-']);
                    assert(out@ =~= format_of(*t));
                }
                out
            } else {
                let digits = be_val_to_dec(v.as_slice());
                chars_to_string(digits.as_slice())
            }
        },
        Token::Address(a) => {
            let mut p: Vec<u8> = Vec::new();
            p.push(0x41);
            crate::codec::push_bytes(&mut p, a.as_slice());
            proof {
                assert(p@ =~= seq![0x41u8] + a@);
            }
            b58check_string(p.as_slice())
        },
        Token::FixedBytes(b) => {
            let digits = hex_str_exec(b);
            chars_to_string(digits.as_slice())
        },
        Token::Bytes(b) => {
            let digits = hex_str_exec(b);
            chars_to_string(digits.as_slice())
        },
        Token::Str(s) => {
            let mut out = String::from_str("\"");
            let esc = escaped_exec(s.as_str());
            let mid = chars_to_string(esc.as_slice());
            out.append(mid.as_str());
            out.append("\"");
            proof {
                reveal_strlit("\"");
                assert("\""@ =~= seq!['"']);
                assert(out@ =~= format_of(*t));
            }
            out
        },
        Token::Array(es) => {
            let mut out = String::from_str("[");
            append_joined_formats(&mut out, es);
            out.append("]");
            proof {
                reveal_strlit("[");
                reveal_strlit("]");
                assert(out@ =~= format_of(*t));
            }
            out
        },
        Token::FixedArray(es) => {
            let mut out = String::from_str("[");
            append_joined_formats(&mut out, es);
            out.append("]");
            proof {
                reveal_strlit("[");
                reveal_strlit("]");
                assert(out@ =~= format_of(*t));
            }
            out
        },
        Token::Tuple(_) => String::from_str("tuple(...)"),
    }
}

} // verus!
