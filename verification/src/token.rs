//! Typed runtime values: what the codec encodes and decoding produces.

use vstd::prelude::*;
use crate::types::TypeDescriptor;

verus! {

broadcast use vstd::std_specs::vec::group_vec_axioms;

/// A value tagged with its ABI shape.  Numeric values are held as full
/// 32-byte big-endian words (two's complement for `Int`).
#[derive(Debug, PartialEq, Eq)]
pub enum Token {
    Bool(bool),
    Uint(Vec<u8>),
    Int(Vec<u8>),
    Address(Vec<u8>),
    FixedBytes(Vec<u8>),
    Bytes(Vec<u8>),
    Str(String),
    Array(Vec<Token>),
    FixedArray(Vec<Token>),
    Tuple(Vec<Token>),
}

/// Structural soundness: numeric words are 32 bytes, addresses 20 bytes,
/// fixed byte strings fit a word, and components are themselves valid.
pub open spec fn valid_token(t: Token) -> bool
    decreases t,
{
    match t {
        Token::Uint(v) => v@.len() == 32,
        Token::Int(v) => v@.len() == 32,
        Token::Address(a) => a@.len() == 20,
        Token::FixedBytes(b) => 1 <= b@.len() <= 32,
        Token::Array(es) => forall|i: int| 0 <= i < es@.len() ==> valid_token(#[trigger] es@[i]),
        Token::FixedArray(es) => forall|i: int|
            0 <= i < es@.len() ==> valid_token(#[trigger] es@[i]),
        Token::Tuple(es) => forall|i: int| 0 <= i < es@.len() ==> valid_token(#[trigger] es@[i]),
        _ => true,
    }
}

/// A token is dynamic when its encoding is dynamically sized: byte strings,
/// text, variable arrays, and composites holding a dynamic component.
pub open spec fn token_dynamic(t: Token) -> bool
    decreases t,
{
    match t {
        Token::Bytes(_) => true,
        Token::Str(_) => true,
        Token::Array(_) => true,
        Token::FixedArray(es) => exists|i: int|
            0 <= i < es@.len() && token_dynamic(#[trigger] es@[i]),
        Token::Tuple(es) => exists|i: int|
            0 <= i < es@.len() && token_dynamic(#[trigger] es@[i]),
        _ => false,
    }
}

/// Shape conformance of a token to a descriptor.
pub open spec fn matches_type(t: Token, d: TypeDescriptor) -> bool
    decreases t,
{
    match t {
        Token::Bool(_) => d is Bool,
        Token::Uint(v) => d is Uint && v@.len() == 32,
        Token::Int(v) => d is Int && v@.len() == 32,
        Token::Address(a) => d is Address && a@.len() == 20,
        Token::FixedBytes(b) => d matches TypeDescriptor::FixedBytes(n) && b@.len() == n,
        Token::Bytes(_) => d is Bytes,
        Token::Str(_) => d is Str,
        Token::Array(es) => d matches TypeDescriptor::Array(ed) && (forall|i: int|
            0 <= i < es@.len() ==> matches_type(#[trigger] es@[i], *ed)),
        Token::FixedArray(es) => d matches TypeDescriptor::FixedArray(ed, n) && es@.len() == n
            && (forall|i: int| 0 <= i < es@.len() ==> matches_type(#[trigger] es@[i], *ed)),
        Token::Tuple(es) => d matches TypeDescriptor::Tuple(ds) && es@.len() == ds@.len() && (
        forall|i: int| 0 <= i < es@.len() ==> matches_type(#[trigger] es@[i], ds@[i])),
    }
}

impl Token {
    /// Whether this token's encoding is dynamically sized.
    pub fn is_dynamic(&self) -> (r: bool)
        ensures
            r == token_dynamic(*self),
        decreases *self,
    {
        match self {
            Token::Bytes(_) => true,
            Token::Str(_) => true,
            Token::Array(_) => true,
            Token::FixedArray(es) => any_dynamic(es),
            Token::Tuple(es) => any_dynamic(es),
            _ => false,
        }
    }
}

fn any_dynamic(es: &Vec<Token>) -> (r: bool)
    ensures
        r == exists|i: int| 0 <= i < es@.len() && token_dynamic(#[trigger] es@[i]),
    decreases es@,
{
    let mut i: usize = 0;
    let n = es.len();
    let mut found: bool = false;
    while i < n
        invariant
            0 <= i <= n,
            n == es@.len(),
            found <==> exists|j: int| 0 <= j < i && token_dynamic(#[trigger] es@[j]),
        decreases n - i,
    {
        if es[i].is_dynamic() {
            found = true;
        }
        i = i + 1;
    }
    found
}

/// Deep equality of tokens: same shapes and same carried values.
pub open spec fn token_like(t1: Token, t2: Token) -> bool
    decreases t1,
{
    match (t1, t2) {
        (Token::Bool(a), Token::Bool(b)) => a == b,
        (Token::Uint(a), Token::Uint(b)) => a@ == b@,
        (Token::Int(a), Token::Int(b)) => a@ == b@,
        (Token::Address(a), Token::Address(b)) => a@ == b@,
        (Token::FixedBytes(a), Token::FixedBytes(b)) => a@ == b@,
        (Token::Bytes(a), Token::Bytes(b)) => a@ == b@,
        (Token::Str(a), Token::Str(b)) => a@ == b@,
        (Token::Array(a), Token::Array(b)) => a@.len() == b@.len() && (forall|i: int|
            0 <= i < a@.len() ==> token_like(#[trigger] a@[i], b@[i])),
        (Token::FixedArray(a), Token::FixedArray(b)) => a@.len() == b@.len() && (forall|i: int|
            0 <= i < a@.len() ==> token_like(#[trigger] a@[i], b@[i])),
        (Token::Tuple(a), Token::Tuple(b)) => a@.len() == b@.len() && (forall|i: int|
            0 <= i < a@.len() ==> token_like(#[trigger] a@[i], b@[i])),
        _ => false,
    }
}

} // verus!
