//! The type-string parser: from ASCII type grammar to [`TypeDescriptor`].
//!
//! The grammar is stated as the relation [`parses_to`]: primitive names with
//! optional widths, `[]`/`[N]` array suffixes, and parenthesized tuples.  The
//! native-currency alias is substituted before the grammar runs.

use vstd::prelude::*;
use crate::types::{TypeDescriptor, type_wf};

verus! {

broadcast use vstd::std_specs::vec::group_vec_axioms;

/// Failure to parse a type string.
#[derive(Debug, Clone, Copy, PartialEq, Eq)]
pub enum TypeError {
    Malformed,
}

pub open spec fn is_digit(c: char) -> bool {
    '0' <= c <= '9'
}

pub open spec fn all_digits(s: Seq<char>) -> bool {
    forall|i: int| 0 <= i < s.len() ==> is_digit(#[trigger] s[i])
}

/// The number a string of decimal digits denotes.
pub open spec fn dec_val(s: Seq<char>) -> nat
    decreases s.len(),
{
    if s.len() == 0 {
        0
    } else {
        (10 * dec_val(s.drop_last()) + (s.last() as nat - 48)) as nat
    }
}

/// Index of the last `[` in `s`, or -1.
pub open spec fn last_open(s: Seq<char>) -> int
    decreases s.len(),
{
    if s.len() == 0 {
        -1
    } else if s.last() == '[' {
        s.len() - 1
    } else {
        last_open(s.drop_last())
    }
}

/// Splits `s` at commas that stand outside every bracket or parenthesis,
/// walking from position `i` with the piece so far starting at `start`.
/// `None` when the brackets do not balance.
pub open spec fn split_rec(s: Seq<char>, i: int, depth: int, start: int, acc: Seq<Seq<char>>) -> Option<
    Seq<Seq<char>>,
>
    decreases s.len() - i,
{
    if i < 0 || i > s.len() || start < 0 || start > i {
        None
    } else if i == s.len() {
        if depth == 0 {
            Some(acc.push(s.subrange(start, s.len() as int)))
        } else {
            None
        }
    } else if s[i] == ',' && depth == 0 {
        split_rec(s, i + 1, 0, i + 1, acc.push(s.subrange(start, i)))
    } else if s[i] == '(' || s[i] == '[' {
        split_rec(s, i + 1, depth + 1, start, acc)
    } else if s[i] == ')' || s[i] == ']' {
        if depth == 0 {
            None
        } else {
            split_rec(s, i + 1, depth - 1, start, acc)
        }
    } else {
        split_rec(s, i + 1, depth, start, acc)
    }
}

/// The top-level comma split of `s`.
pub open spec fn split_args(s: Seq<char>) -> Option<Seq<Seq<char>>> {
    split_rec(s, 0, 0, 0, Seq::empty())
}

/// How a primitive (non-composite) type name reads.
pub open spec fn prim_parses(s: Seq<char>, t: TypeDescriptor) -> bool {
    match t {
        TypeDescriptor::Address => s == "address"@,
        TypeDescriptor::Bool => s == "bool"@,
        TypeDescriptor::Bytes => s == "bytes"@,
        TypeDescriptor::Str => s == "string"@,
        TypeDescriptor::Uint(b) => (s == "uint"@ && b == 256) || (s.len() > 4 && s.take(4)
            == "uint"@ && all_digits(s.skip(4)) && dec_val(s.skip(4)) == b && 8 <= b <= 256 && b % 8
            == 0),
        TypeDescriptor::Int(b) => (s == "int"@ && b == 256) || (s.len() > 3 && s.take(3) == "int"@
            && all_digits(s.skip(3)) && dec_val(s.skip(3)) == b && 8 <= b <= 256 && b % 8 == 0),
        TypeDescriptor::FixedBytes(n) => s.len() > 5 && s.take(5) == "bytes"@ && all_digits(
            s.skip(5),
        ) && dec_val(s.skip(5)) == n && 1 <= n <= 32,
        _ => false,
    }
}

/// The type grammar: `s` reads as the descriptor `t`.  Array suffixes bind
/// last, a parenthesized comma split gives a tuple, and primitive names give
/// the leaves.
pub open spec fn parses_to(s: Seq<char>, t: TypeDescriptor) -> bool
    decreases t,
{
    s.len() > 0 && if s.last() == ']' {
        let j = last_open(s);
        let digits = s.subrange(j + 1, s.len() - 1);
        j >= 0 && match t {
            TypeDescriptor::Array(e) => digits.len() == 0 && parses_to(s.take(j), *e),
            TypeDescriptor::FixedArray(e, n) => digits.len() > 0 && all_digits(digits) && dec_val(
                digits,
            ) == n && parses_to(s.take(j), *e),
            _ => false,
        }
    } else if s[0] == '(' {
        s.last() == ')' && match t {
            TypeDescriptor::Tuple(ds) => split_args(s.subrange(1, s.len() - 1)) matches Some(parts)
                && parts.len() == ds@.len() && (forall|i: int|
                0 <= i < ds@.len() ==> parses_to(parts[i], #[trigger] ds@[i])),
            _ => false,
        }
    } else {
        prim_parses(s, t)
    }
}

/// The alias substitution applied before the grammar: the native-currency
/// designator reads as the 256-bit unsigned integer type.
pub open spec fn alias_subst(s: Seq<char>) -> Seq<char> {
    if s == "trcToken"@ {
        "uint256"@
    } else {
        s
    }
}

/// The digits `256` denote the number 256.
proof fn lemma_dec_val_256()
    ensures
        dec_val(seq!['2', '5', '6']) == 256,
{
    reveal_with_fuel(dec_val, 5);
    assert(seq!['2', '5', '6'].drop_last() =~= seq!['2', '5']);
    assert(seq!['2', '5'].drop_last() =~= seq!['2']);
    assert(seq!['2'].drop_last() =~= Seq::<char>::empty());
}

/// `"uint256"` reads as exactly `Uint(256)`.
pub proof fn lemma_uint256_parse(t: TypeDescriptor)
    ensures
        parses_to("uint256"@, t) <==> t == TypeDescriptor::Uint(256u32),
{
    reveal_strlit("uint256");
    reveal_strlit("uint");
    reveal_strlit("int");
    reveal_strlit("bytes");
    reveal_strlit("address");
    reveal_strlit("bool");
    reveal_strlit("string");
    let s = "uint256"@;
    assert(s.len() == 7);
    assert(s.last() == '6');
    assert(s[0] == 'u');
    if parses_to(s, t) {
        match t {
            TypeDescriptor::Uint(b) => {
                assert(s != "uint"@);
                assert(s.skip(4) =~= seq!['2', '5', '6']);
                lemma_dec_val_256();
            },
            TypeDescriptor::Int(b) => {
                assert(s.take(3)[0] == 'u' && "int"@[0] == 'i');
                assert(s.take(3) != "int"@);
            },
            TypeDescriptor::FixedBytes(n) => {
                assert(s.take(5)[0] == 'u' && "bytes"@[0] == 'b');
                assert(s.take(5) != "bytes"@);
            },
            _ => {},
        }
    } else {
        if t == TypeDescriptor::Uint(256u32) {
            assert(s.take(4) =~= "uint"@);
            assert(s.skip(4) =~= seq!['2', '5', '6']);
            lemma_dec_val_256();
            assert(prim_parses(s, t));
        }
    }
}

/// Substituting the alias gives the same descriptor as writing the 256-bit
/// unsigned integer type itself.
pub proof fn lemma_alias_substitution(t1: TypeDescriptor, t2: TypeDescriptor)
    requires
        parses_to(alias_subst("trcToken"@), t1),
        parses_to(alias_subst("uint256"@), t2),
    ensures
        t1 == t2,
{
    reveal_strlit("trcToken");
    reveal_strlit("uint256");
    assert("uint256"@.len() == 7);
    assert("trcToken"@.len() == 8);
    assert(alias_subst("uint256"@) == "uint256"@);
    lemma_uint256_parse(t1);
    lemma_uint256_parse(t2);
}

/// Collects the characters of a string.
pub fn to_chars(s: &str) -> (r: Vec<char>)
    ensures
        r@ == s@,
{
    let n = s.unicode_len();
    let mut out: Vec<char> = Vec::new();
    let mut i: usize = 0;
    while i < n
        invariant
            0 <= i <= n,
            n == s@.len(),
            out@ == s@.take(i as int),
        decreases n - i,
    {
        out.push(s.get_char(i));
        proof {
            assert(out@ =~= s@.take(i + 1));
        }
        i = i + 1;
    }
    proof {
        assert(s@.take(n as int) =~= s@);
    }
    out
}

/// Whether the characters equal the given string.
pub fn chars_eq_str(s: &[char], lit: &str) -> (r: bool)
    ensures
        r == (s@ == lit@),
{
    let n = s.len();
    if n != lit.unicode_len() {
        return false;
    }
    let mut i: usize = 0;
    while i < n
        invariant
            0 <= i <= n,
            n == s@.len(),
            n == lit@.len(),
            forall|j: int| 0 <= j < i ==> s@[j] == lit@[j],
        decreases n - i,
    {
        if s[i] != lit.get_char(i) {
            return false;
        }
        i = i + 1;
    }
    proof {
        assert(s@ =~= lit@);
    }
    true
}

/// Whether the characters start with the given string.
fn chars_prefix_str(s: &[char], lit: &str) -> (r: bool)
    ensures
        r == (s@.len() >= lit@.len() && s@.take(lit@.len() as int) == lit@),
{
    let m = lit.unicode_len();
    let n = s.len();
    if n < m {
        return false;
    }
    let mut i: usize = 0;
    while i < m
        invariant
            0 <= i <= m,
            m == lit@.len(),
            n == s@.len(),
            n >= m,
            forall|j: int| 0 <= j < i ==> s@[j] == lit@[j],
        decreases m - i,
    {
        if s[i] != lit.get_char(i) {
            proof {
                assert(s@.take(m as int)[i as int] != lit@[i as int]);
            }
            return false;
        }
        i = i + 1;
    }
    proof {
        assert(s@.take(m as int) =~= lit@);
    }
    true
}

/// Whether every character is a decimal digit.
pub fn all_digits_exec(s: &[char]) -> (r: bool)
    ensures
        r == all_digits(s@),
{
    let n = s.len();
    let mut i: usize = 0;
    while i < n
        invariant
            0 <= i <= n,
            n == s@.len(),
            forall|j: int| 0 <= j < i ==> is_digit(#[trigger] s@[j]),
        decreases n - i,
    {
        let c = s[i];
        if c < '0' || c > '9' {
            return false;
        }
        i = i + 1;
    }
    true
}

/// A prefix's decimal value never exceeds the whole string's.
pub proof fn lemma_dec_val_mono(s: Seq<char>, i: int)
    requires
        0 <= i <= s.len(),
        all_digits(s),
    ensures
        dec_val(s.take(i)) <= dec_val(s),
    decreases s.len(),
{
    if i < s.len() {
        assert(s.drop_last().take(i) =~= s.take(i));
        assert(forall|j: int| 0 <= j < s.len() - 1 ==> s.drop_last()[j] == s[j]);
        lemma_dec_val_mono(s.drop_last(), i);
        assert(is_digit(s.last()));
        assert(dec_val(s) == (10 * dec_val(s.drop_last()) + (s.last() as nat - 48)) as nat);
        assert(dec_val(s) >= dec_val(s.drop_last()));
    } else {
        assert(s.take(i) =~= s);
    }
}

/// The number a digit string denotes, where it fits the machine.
fn digits_val_exec(s: &[char]) -> (r: Option<usize>)
    requires
        all_digits(s@),
    ensures
        r matches Some(v) ==> v == dec_val(s@),
        r is None ==> dec_val(s@) > usize::MAX,
{
    let n = s.len();
    let mut acc: usize = 0;
    let mut i: usize = 0;
    while i < n
        invariant
            0 <= i <= n,
            n == s@.len(),
            all_digits(s@),
            acc == dec_val(s@.take(i as int)),
        decreases n - i,
    {
        let c = s[i];
        proof {
            assert(is_digit(s@[i as int]));
        }
        let d: usize = ((c as u32) - 48) as usize;
        if acc > (usize::MAX - d) / 10 {
            proof {
                let m = usize::MAX as nat;
                assert(10 * (acc as nat) + d > m) by (nonlinear_arith)
                    requires
                        acc > (m - d) / 10,
                        d <= m,
                ;
                assert(s@.take(i + 1).drop_last() =~= s@.take(i as int));
                assert(s@.take(i + 1).last() == s@[i as int]);
                assert(dec_val(s@.take(i + 1)) == 10 * (acc as nat) + d);
                lemma_dec_val_mono(s@, i + 1);
            }
            return None;
        }
        proof {
            let m = usize::MAX as nat;
            assert(10 * (acc as nat) + d <= m) by (nonlinear_arith)
                requires
                    acc <= (m - d) / 10,
                    d <= m,
            ;
            assert(s@.take(i + 1).drop_last() =~= s@.take(i as int));
            assert(s@.take(i + 1).last() == s@[i as int]);
        }
        acc = acc * 10 + d;
        i = i + 1;
    }
    proof {
        assert(s@.take(n as int) =~= s@);
    }
    Some(acc)
}

/// Index of the last `[`, matching [`last_open`].
fn last_open_exec(s: &[char]) -> (r: Option<usize>)
    ensures
        r matches Some(j) ==> last_open(s@) == j && j < s@.len(),
        r is None ==> last_open(s@) < 0,
{
    let n = s.len();
    let mut i: usize = n;
    proof {
        assert(s@.take(n as int) =~= s@);
    }
    while i > 0
        invariant
            0 <= i <= n,
            n == s@.len(),
            last_open(s@) == last_open(s@.take(i as int)),
        decreases i,
    {
        if s[i - 1] == '[' {
            proof {
                assert(s@.take(i as int).last() == '[');
            }
            return Some(i - 1);
        }
        proof {
            assert(s@.take(i as int).drop_last() =~= s@.take(i - 1));
        }
        i = i - 1;
    }
    proof {
        assert(s@.take(0) =~= Seq::<char>::empty());
    }
    None
}

/// The views of a list of character buffers.
pub open spec fn views_of(parts: Seq<Vec<char>>) -> Seq<Seq<char>> {
    parts.map_values(|v: Vec<char>| v@)
}

/// Splits at top-level commas, matching [`split_args`].
fn split_exec(s: &[char]) -> (r: Option<Vec<Vec<char>>>)
    ensures
        r matches Some(parts) ==> split_args(s@) == Some(views_of(parts@)) && (forall|k: int|
            0 <= k < parts@.len() ==> (#[trigger] parts@[k])@.len() <= s@.len()),
        r is None ==> split_args(s@) is None,
{
    let n = s.len();
    let mut parts: Vec<Vec<char>> = Vec::new();
    let mut depth: usize = 0;
    let mut start: usize = 0;
    let mut i: usize = 0;
    proof {
        assert(views_of(parts@) =~= Seq::<Seq<char>>::empty());
    }
    while i < n
        invariant
            0 <= start <= i <= n,
            depth <= i,
            n == s@.len(),
            split_args(s@) == split_rec(s@, i as int, depth as int, start as int, views_of(parts@)),
            forall|k: int| 0 <= k < parts@.len() ==> (#[trigger] parts@[k])@.len() <= s@.len(),
        decreases n - i,
    {
        let c = s[i];
        if c == ',' && depth == 0 {
            let piece = vstd::slice::slice_to_vec(vstd::slice::slice_subrange(s, start, i));
            let ghost old_parts = parts@;
            parts.push(piece);
            proof {
                assert(views_of(parts@) =~= views_of(old_parts).push(s@.subrange(start as int, i as int)));
            }
            start = i + 1;
        } else if c == '(' || c == '[' {
            depth = depth + 1;
        } else if c == ')' || c == ']' {
            if depth == 0 {
                return None;
            }
            depth = depth - 1;
        }
        i = i + 1;
    }
    if depth != 0 {
        return None;
    }
    let piece = vstd::slice::slice_to_vec(vstd::slice::slice_subrange(s, start, n));
    let ghost old_parts = parts@;
    parts.push(piece);
    proof {
        assert(views_of(parts@) =~= views_of(old_parts).push(s@.subrange(start as int, n as int)));
    }
    Some(parts)
}

/// A found last `[` really stands there, before the final character.
proof fn lemma_last_open_char(s: Seq<char>)
    ensures
        last_open(s) >= 0 ==> 0 <= last_open(s) < s.len() && s[last_open(s)] == '[',
    decreases s.len(),
{
    if s.len() > 0 && s.last() != '[' {
        lemma_last_open_char(s.drop_last());
        if last_open(s) >= 0 {
            assert(s[last_open(s)] == s.drop_last()[last_open(s)]);
        }
    }
}

/// Parses a character slice against the grammar.  A returned descriptor is
/// well formed and reads back from the input; on failure no descriptor at
/// all reads from it.
fn parse_type_chars(s: &[char]) -> (r: Result<TypeDescriptor, TypeError>)
    ensures
        r matches Ok(t) ==> parses_to(s@, t) && type_wf(t),
        r is Err ==> r == Err::<TypeDescriptor, TypeError>(TypeError::Malformed),
        r is Err ==> forall|t: TypeDescriptor| !parses_to(s@, t),
    decreases s@.len(),
{
    let n = s.len();
    if n == 0 {
        return Err(TypeError::Malformed);
    }
    if s[n - 1] == ']' {
        // array suffix
        let j = match last_open_exec(s) {
            Some(j) => j,
            None => {
                proof {
                    assert(s@.last() == ']');
                    assert(forall|t: TypeDescriptor| !parses_to(s@, t));
                }
                return Err(TypeError::Malformed);
            },
        };
        proof {
            lemma_last_open_char(s@);
            assert(s@[j as int] == '[');
            assert(s@[n - 1] == ']');
            assert(j != n - 1);
        }
        let digits = vstd::slice::slice_subrange(s, j + 1, n - 1);
        let inner = vstd::slice::slice_subrange(s, 0, j);
        proof {
            assert(inner@ =~= s@.take(j as int));
            assert(digits@ =~= s@.subrange(j + 1, s@.len() - 1));
        }
        let elem = match parse_type_chars(inner) {
            Ok(t) => t,
            Err(e) => {
                proof {
                    assert(s@.last() == ']');
                    assert forall|t: TypeDescriptor| !parses_to(s@, t) by {
                        if parses_to(s@, t) {
                            match t {
                                TypeDescriptor::Array(e2) => {
                                    assert(!parses_to(inner@, *e2));
                                },
                                TypeDescriptor::FixedArray(e2, _) => {
                                    assert(!parses_to(inner@, *e2));
                                },
                                _ => {},
                            }
                        }
                    }
                }
                return Err(e);
            },
        };
        if digits.len() == 0 {
            return Ok(TypeDescriptor::Array(Box::new(elem)));
        }
        if !all_digits_exec(digits) {
            proof {
                assert(s@.last() == ']');
                assert(forall|t: TypeDescriptor| !parses_to(s@, t));
            }
            return Err(TypeError::Malformed);
        }
        let v = match digits_val_exec(digits) {
            Some(v) => v,
            None => {
                proof {
                    assert(s@.last() == ']');
                    assert forall|t: TypeDescriptor| !parses_to(s@, t) by {
                        if parses_to(s@, t) {
                            match t {
                                TypeDescriptor::FixedArray(_, nn) => {
                                    assert(dec_val(digits@) == nn && nn <= usize::MAX);
                                },
                                _ => {},
                            }
                        }
                    }
                }
                return Err(TypeError::Malformed);
            },
        };
        return Ok(TypeDescriptor::FixedArray(Box::new(elem), v));
    }
    if s[0] == '(' {
        if s[n - 1] != ')' {
            proof {
                assert(s@.last() != ']' && s@.last() != ')');
                assert(forall|t: TypeDescriptor| !parses_to(s@, t));
            }
            return Err(TypeError::Malformed);
        }
        let inner = vstd::slice::slice_subrange(s, 1, n - 1);
        proof {
            assert(inner@ =~= s@.subrange(1, s@.len() - 1));
        }
        let parts = match split_exec(inner) {
            Some(parts) => parts,
            None => {
                proof {
                    assert(s@.last() != ']');
                    assert(forall|t: TypeDescriptor| !parses_to(s@, t));
                }
                return Err(TypeError::Malformed);
            },
        };
        let m = parts.len();
        let mut elems: Vec<TypeDescriptor> = Vec::new();
        let mut k: usize = 0;
        while k < m
            invariant
                0 <= k <= m,
                m == parts@.len(),
                n == s@.len(),
                2 <= n,
                s@[0] == '(',
                s@.last() == ')',
                s@.last() != ']',
                inner@ == s@.subrange(1, s@.len() - 1),
                split_args(inner@) == Some(views_of(parts@)),
                elems@.len() == k,
                forall|q: int| 0 <= q < m ==> (#[trigger] parts@[q])@.len() <= inner@.len(),
                inner@.len() < s@.len(),
                forall|q: int|
                    0 <= q < k ==> parses_to(views_of(parts@)[q], #[trigger] elems@[q]) && type_wf(
                        elems@[q],
                    ),
            decreases m - k,
        {
            let sub = match parse_type_chars(parts[k].as_slice()) {
                Ok(t) => t,
                Err(e) => {
                    proof {
                        assert forall|t: TypeDescriptor| !parses_to(s@, t) by {
                            if parses_to(s@, t) {
                                match t {
                                    TypeDescriptor::Tuple(ds) => {
                                        if ds@.len() == m {
                                            assert(parses_to(
                                                views_of(parts@)[k as int],
                                                ds@[k as int],
                                            ));
                                            assert(!parses_to(parts@[k as int]@, ds@[k as int]));
                                        }
                                    },
                                    _ => {},
                                }
                            }
                        }
                    }
                    return Err(e);
                },
            };
            elems.push(sub);
            k = k + 1;
        }
        return Ok(TypeDescriptor::Tuple(elems));
    }
    // primitive names
    if chars_eq_str(s, "address") {
        return Ok(TypeDescriptor::Address);
    }
    if chars_eq_str(s, "bool") {
        return Ok(TypeDescriptor::Bool);
    }
    if chars_eq_str(s, "string") {
        return Ok(TypeDescriptor::Str);
    }
    if chars_eq_str(s, "bytes") {
        return Ok(TypeDescriptor::Bytes);
    }
    if chars_eq_str(s, "uint") {
        return Ok(TypeDescriptor::Uint(256));
    }
    if chars_eq_str(s, "int") {
        return Ok(TypeDescriptor::Int(256));
    }
    if chars_prefix_str(s, "uint") {
        proof {
            reveal_strlit("uint");
            reveal_strlit("int");
            reveal_strlit("bytes");
            assert(s@.len() > 4) by {
                if s@.len() == 4 {
                    assert(s@.take(4) =~= s@);
                }
            }
            assert(s@.take(4)[0] == s@[0]);
            assert(s@[0] == 'u');
        }
        let digits = vstd::slice::slice_subrange(s, 4, n);
        proof {
            assert(digits@ =~= s@.skip(4));
        }
        if !all_digits_exec(digits) {
            proof {
                lemma_no_other_prims_u(s@);
                assert(forall|t: TypeDescriptor| !parses_to(s@, t));
            }
            return Err(TypeError::Malformed);
        }
        let v = match digits_val_exec(digits) {
            Some(v) => v,
            None => {
                proof {
                    lemma_no_other_prims_u(s@);
                    assert forall|t: TypeDescriptor| !parses_to(s@, t) by {
                        if parses_to(s@, t) {
                            match t {
                                TypeDescriptor::Uint(b) => {
                                    assert(dec_val(s@.skip(4)) == b && b <= 256);
                                },
                                _ => {},
                            }
                        }
                    }
                }
                return Err(TypeError::Malformed);
            },
        };
        if 8 <= v && v <= 256 && v % 8 == 0 {
            return Ok(TypeDescriptor::Uint(v as u32));
        }
        proof {
            lemma_no_other_prims_u(s@);
            assert(forall|t: TypeDescriptor| !parses_to(s@, t));
        }
        return Err(TypeError::Malformed);
    }
    if chars_prefix_str(s, "int") {
        proof {
            reveal_strlit("uint");
            reveal_strlit("int");
            reveal_strlit("bytes");
            assert(s@.len() > 3) by {
                if s@.len() == 3 {
                    assert(s@.take(3) =~= s@);
                }
            }
            assert(s@.take(3)[0] == s@[0]);
            assert(s@[0] == 'i');
        }
        let digits = vstd::slice::slice_subrange(s, 3, n);
        proof {
            assert(digits@ =~= s@.skip(3));
        }
        if !all_digits_exec(digits) {
            proof {
                lemma_no_other_prims_i(s@);
                assert(forall|t: TypeDescriptor| !parses_to(s@, t));
            }
            return Err(TypeError::Malformed);
        }
        let v = match digits_val_exec(digits) {
            Some(v) => v,
            None => {
                proof {
                    lemma_no_other_prims_i(s@);
                    assert forall|t: TypeDescriptor| !parses_to(s@, t) by {
                        if parses_to(s@, t) {
                            match t {
                                TypeDescriptor::Int(b) => {
                                    assert(dec_val(s@.skip(3)) == b && b <= 256);
                                },
                                _ => {},
                            }
                        }
                    }
                }
                return Err(TypeError::Malformed);
            },
        };
        if 8 <= v && v <= 256 && v % 8 == 0 {
            return Ok(TypeDescriptor::Int(v as u32));
        }
        proof {
            lemma_no_other_prims_i(s@);
            assert(forall|t: TypeDescriptor| !parses_to(s@, t));
        }
        return Err(TypeError::Malformed);
    }
    if chars_prefix_str(s, "bytes") {
        proof {
            reveal_strlit("uint");
            reveal_strlit("int");
            reveal_strlit("bytes");
            assert(s@.len() > 5) by {
                if s@.len() == 5 {
                    assert(s@.take(5) =~= s@);
                }
            }
            assert(s@.take(5)[0] == s@[0]);
            assert(s@[0] == 'b');
        }
        let digits = vstd::slice::slice_subrange(s, 5, n);
        proof {
            assert(digits@ =~= s@.skip(5));
        }
        if !all_digits_exec(digits) {
            proof {
                lemma_no_other_prims_b(s@);
                assert(forall|t: TypeDescriptor| !parses_to(s@, t));
            }
            return Err(TypeError::Malformed);
        }
        let v = match digits_val_exec(digits) {
            Some(v) => v,
            None => {
                proof {
                    lemma_no_other_prims_b(s@);
                    assert forall|t: TypeDescriptor| !parses_to(s@, t) by {
                        if parses_to(s@, t) {
                            match t {
                                TypeDescriptor::FixedBytes(nn) => {
                                    assert(dec_val(s@.skip(5)) == nn && nn <= usize::MAX);
                                },
                                _ => {},
                            }
                        }
                    }
                }
                return Err(TypeError::Malformed);
            },
        };
        if 1 <= v && v <= 32 {
            return Ok(TypeDescriptor::FixedBytes(v));
        }
        proof {
            lemma_no_other_prims_b(s@);
            assert(forall|t: TypeDescriptor| !parses_to(s@, t));
        }
        return Err(TypeError::Malformed);
    }
    proof {
        assert(forall|t: TypeDescriptor| !parses_to(s@, t));
    }
    Err(TypeError::Malformed)
}

/// A string opening with `u` reads as no integer-with-`int`-prefix, no
/// fixed-bytes and no other primitive name.
proof fn lemma_no_other_prims_u(s: Seq<char>)
    requires
        s.len() > 4,
        s.take(4) == "uint"@,
    ensures
        s.take(3) != "int"@,
        s.take(5) != "bytes"@ || s.len() <= 5,
        s != "int"@,
        s != "bytes"@,
        s != "address"@,
        s != "bool"@,
        s != "string"@,
{
    reveal_strlit("uint");
    reveal_strlit("int");
    reveal_strlit("bytes");
    reveal_strlit("address");
    reveal_strlit("bool");
    reveal_strlit("string");
    assert(s.take(4)[0] == s[0]);
    assert(s[0] == 'u');
    assert(s.take(3)[0] == 'u' && "int"@[0] == 'i');
    if s.len() > 5 {
        assert(s.take(5)[0] == 'u' && "bytes"@[0] == 'b');
    }
}

/// A string opening with `i` but not the bare name reads as no `uint`, no
/// fixed-bytes and no other primitive name.
proof fn lemma_no_other_prims_i(s: Seq<char>)
    requires
        s.len() > 3,
        s.take(3) == "int"@,
    ensures
        s.take(4) != "uint"@ || s.len() <= 4,
        s.take(5) != "bytes"@ || s.len() <= 5,
        s != "uint"@,
        s != "bytes"@,
        s != "address"@,
        s != "bool"@,
        s != "string"@,
{
    reveal_strlit("uint");
    reveal_strlit("int");
    reveal_strlit("bytes");
    reveal_strlit("address");
    reveal_strlit("bool");
    reveal_strlit("string");
    assert(s.take(3)[0] == s[0]);
    assert(s[0] == 'i');
    if s.len() > 4 {
        assert(s.take(4)[0] == 'i' && "uint"@[0] == 'u');
    }
    if s.len() > 5 {
        assert(s.take(5)[0] == 'i' && "bytes"@[0] == 'b');
    }
}

/// A string opening with `b` as `bytes...` reads as no integer type and no
/// other primitive name.
proof fn lemma_no_other_prims_b(s: Seq<char>)
    requires
        s.len() > 5,
        s.take(5) == "bytes"@,
    ensures
        s.take(4) != "uint"@,
        s.take(3) != "int"@,
        s != "uint"@,
        s != "int"@,
        s != "address"@,
        s != "bool"@,
        s != "string"@,
{
    reveal_strlit("uint");
    reveal_strlit("int");
    reveal_strlit("bytes");
    reveal_strlit("address");
    reveal_strlit("bool");
    reveal_strlit("string");
    assert(s.take(5)[0] == s[0]);
    assert(s[0] == 'b');
    assert(s.take(4)[0] == 'b' && "uint"@[0] == 'u');
    assert(s.take(3)[0] == 'b' && "int"@[0] == 'i');
}

/// Parses a type string into a descriptor, substituting the native-currency
/// alias for the 256-bit unsigned integer type first.  A returned descriptor
/// is well formed and reads back from the substituted input; it fails, and
/// then always with `Malformed`, exactly when no descriptor reads from it.
pub fn parse_type(s: &str) -> (r: Result<TypeDescriptor, TypeError>)
    ensures
        r matches Ok(t) ==> parses_to(alias_subst(s@), t) && type_wf(t),
        r is Err ==> r == Err::<TypeDescriptor, TypeError>(TypeError::Malformed),
        r is Err ==> forall|t: TypeDescriptor| !parses_to(alias_subst(s@), t),
{
    let chars = to_chars(s);
    if chars_eq_str(chars.as_slice(), "trcToken") {
        let alias = to_chars("uint256");
        parse_type_chars(alias.as_slice())
    } else {
        parse_type_chars(chars.as_slice())
    }
}

} // verus!
