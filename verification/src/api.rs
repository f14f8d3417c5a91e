//! The top-level parameter codec calls: from declared type strings and
//! textual values to the binary call blob, and back to display strings.

use vstd::prelude::*;
use crate::types::{TypeDescriptor, type_wf};
use crate::token::{Token, matches_type, valid_token};
use crate::parse::{TypeError, parse_type, parses_to, alias_subst, to_chars};
use crate::tokenize::{TokenizeError, Mode, tokenize, tokenizes_to, all_hex, hex_bytes, all_hex_exec, hex_bytes_exec};
use crate::decode::{DecodeError, decode, param_reads, param_ok_owed, leaf_static, leaf_reads};
use crate::codec::{encode, enc_seq, enc_seq_len_checked};
use crate::format::{format_of, format_token};

verus! {

broadcast use vstd::std_specs::vec::group_vec_axioms;

/// Any failure of the parameter codec.
#[derive(Debug, Clone, Copy, PartialEq, Eq)]
pub enum AbiError {
    /// A declared type string does not parse.
    Type(TypeError),
    /// A textual value does not fit its declared type.
    Tokenize(TokenizeError),
    /// A binary buffer is inconsistent with the declared types.
    Decode(DecodeError),
    /// The binary data string is not even-length hex.
    InvalidHex,
    /// The encoding would not fit the machine's address space.
    TooLarge,
}

/// What a successful `encode_params` returns: some well-formed descriptors
/// read from the type strings (alias substituted), some tokens read exactly
/// from the value texts in lenient mode, and the blob is their head/tail
/// encoding.
pub open spec fn encode_params_ok(types: Seq<&str>, values: Seq<String>, out: Seq<u8>) -> bool {
    exists|ds: Seq<TypeDescriptor>, ts: Seq<Token>|
        #![trigger ds.len(), ts.len()]
        ds.len() == types.len() && ts.len() == types.len() && (forall|i: int|
            0 <= i < ds.len() ==> parses_to(alias_subst(types[i]@), #[trigger] ds[i]) && type_wf(
                ds[i],
            ) && matches_type(ts[i], ds[i]) && valid_token(ts[i]) && tokenizes_to(
                ds[i],
                values[i]@,
                Mode::Lenient,
                ts[i],
            )) && out == enc_seq(ts)
}

/// The same reading of the inputs, but its encoding would not fit the
/// machine's address space.
pub open spec fn encode_params_oversize(types: Seq<&str>, values: Seq<String>) -> bool {
    exists|ds: Seq<TypeDescriptor>, ts: Seq<Token>|
        #![trigger ds.len(), ts.len()]
        ds.len() == types.len() && ts.len() == types.len() && (forall|i: int|
            0 <= i < ds.len() ==> parses_to(alias_subst(types[i]@), #[trigger] ds[i]) && type_wf(
                ds[i],
            ) && matches_type(ts[i], ds[i]) && valid_token(ts[i]) && tokenizes_to(
                ds[i],
                values[i]@,
                Mode::Lenient,
                ts[i],
            )) && enc_seq(ts).len() > usize::MAX
}

/// Success is owed when every type string parses (after alias substitution)
/// and, at every descriptor it may parse to, the value text reads as some
/// token.
pub open spec fn encode_params_accepts(types: Seq<&str>, values: Seq<String>) -> bool {
    forall|i: int|
        0 <= i < types.len() ==> ((exists|d: TypeDescriptor|
            parses_to(alias_subst(#[trigger] types[i]@), d)) && (forall|d: TypeDescriptor|
            parses_to(alias_subst(types[i]@), d) ==> exists|t: Token|
                tokenizes_to(d, values[i]@, Mode::Lenient, t)))
}

/// Encodes declared type strings and textual values into one binary call
/// blob: parse each type (with the native-currency alias), read each value
/// leniently, and lay the tokens out head/tail.  On acceptable inputs the
/// call is owed success, short of the machine-size limit.
pub fn encode_params(types: &[&str], values: &[String]) -> (r: Result<Vec<u8>, AbiError>)
    requires
        types@.len() == values@.len(),
    ensures
        r matches Ok(out) ==> encode_params_ok(types@, values@, out@),
        encode_params_accepts(types@, values@) ==> r is Ok || r == Err::<Vec<u8>, AbiError>(
            AbiError::TooLarge,
        ),
        r == Err::<Vec<u8>, AbiError>(AbiError::TooLarge) ==> encode_params_oversize(
            types@,
            values@,
        ),
        r matches Err(e) && e is Type ==> exists|i: int|
            0 <= i < types@.len() && #[trigger] no_parse_at(types@, i),
        r matches Err(e) && e is Tokenize ==> exists|i: int|
            #![trigger types@[i]]
            0 <= i < types@.len() && (exists|d: TypeDescriptor|
                parses_to(alias_subst(types@[i]@), d) && (forall|t2: Token|
                    !tokenizes_to(d, values@[i]@, Mode::Lenient, t2))),
{
    let n = types.len();
    let mut ds: Vec<TypeDescriptor> = Vec::new();
    let mut ts: Vec<Token> = Vec::new();
    let mut i: usize = 0;
    while i < n
        invariant
            0 <= i <= n,
            n == types@.len(),
            n == values@.len(),
            ds@.len() == i,
            ts@.len() == i,
            forall|j: int|
                0 <= j < i ==> parses_to(alias_subst(types@[j]@), #[trigger] ds@[j]) && type_wf(
                    ds@[j],
                ) && matches_type(ts@[j], ds@[j]) && valid_token(ts@[j]) && tokenizes_to(
                    ds@[j],
                    values@[j]@,
                    Mode::Lenient,
                    ts@[j],
                ),
        decreases n - i,
    {
        let d = match parse_type(types[i]) {
            Ok(d) => d,
            Err(e) => {
                proof {
                    assert(no_parse_at(types@, i as int));
                    if encode_params_accepts(types@, values@) {
                        assert(0 <= i < types@.len());
                        let d0 = choose|d0: TypeDescriptor|
                            parses_to(alias_subst(types@[i as int]@), d0);
                        assert(parses_to(alias_subst(types@[i as int]@), d0));
                        assert(false);
                    }
                }
                return Err(AbiError::Type(e));
            },
        };
        let t = match tokenize(&d, values[i].as_str(), Mode::Lenient) {
            Ok(t) => t,
            Err(e) => {
                proof {
                    assert(parses_to(alias_subst(types@[i as int]@), d) && (forall|t2: Token|
                        !tokenizes_to(d, values@[i as int]@, Mode::Lenient, t2)));
                    if encode_params_accepts(types@, values@) {
                        assert(0 <= i < types@.len());
                        assert(parses_to(alias_subst(types@[i as int]@), d));
                        let t0 = choose|t0: Token|
                            tokenizes_to(d, values@[i as int]@, Mode::Lenient, t0);
                        assert(tokenizes_to(d, values@[i as int]@, Mode::Lenient, t0));
                        assert(false);
                    }
                }
                return Err(AbiError::Tokenize(e));
            },
        };
        ds.push(d);
        ts.push(t);
        i = i + 1;
    }
    proof {
        assert forall|j: int| 0 <= j < ts@.len() implies valid_token(#[trigger] ts@[j]) by {
            assert(matches_type(ts@[j], ds@[j]) && valid_token(ts@[j]));
        }
    }
    let lcheck = enc_seq_len_checked(&ts);
    if lcheck.is_none() {
        proof {
            let dsv = ds@;
            let tsv = ts@;
            assert(dsv.len() == types@.len() && tsv.len() == types@.len() && (forall|i: int|
                0 <= i < dsv.len() ==> parses_to(alias_subst(types@[i]@), #[trigger] dsv[i])
                    && type_wf(dsv[i]) && matches_type(tsv[i], dsv[i]) && valid_token(tsv[i])
                    && tokenizes_to(dsv[i], values@[i]@, Mode::Lenient, tsv[i])) && enc_seq(
                tsv,
            ).len() > usize::MAX);
        }
        return Err(AbiError::TooLarge);
    }
    let out = encode(&ts);
    proof {
        let dsv = ds@;
        let tsv = ts@;
        assert(dsv.len() == types@.len() && tsv.len() == types@.len() && (forall|i: int|
            0 <= i < dsv.len() ==> parses_to(alias_subst(types@[i]@), #[trigger] dsv[i])
                && type_wf(dsv[i]) && matches_type(tsv[i], dsv[i]) && valid_token(tsv[i])
                && tokenizes_to(dsv[i], values@[i]@, Mode::Lenient, tsv[i])) && out@ == enc_seq(
            tsv,
        ));
    }
    Ok(out)
}

/// What a successful `decode_params` returns: the data read as hex bytes,
/// some well-formed descriptors read from the type strings, tokens of their
/// shapes, and each output line the display text of its token.
pub open spec fn decode_params_ok(types: Seq<&str>, data: Seq<char>, out: Seq<String>) -> bool {
    exists|ds: Seq<TypeDescriptor>, ts: Seq<Token>|
        #![trigger ds.len(), ts.len()]
        ds.len() == types.len() && ts.len() == types.len() && out.len() == types.len() && (forall|
            i: int,
        |
            0 <= i < ds.len() ==> parses_to(alias_subst(types[i]@), #[trigger] ds[i]) && type_wf(
                ds[i],
            ) && matches_type(ts[i], ds[i]) && valid_token(ts[i]) && out[i]@ == format_of(ts[i]))
            && (types.len() == 1 ==> param_reads(ds[0], hex_bytes(data), 0, ts[0])) && ((forall|
            i: int,
        |
            0 <= i < ds.len() ==> leaf_static(#[trigger] ds[i])) && 32 * ds.len() <= hex_bytes(
            data,
        ).len() ==> (forall|i: int|
            0 <= i < ds.len() ==> leaf_reads(ts[i], #[trigger] ds[i], hex_bytes(data), 32 * i)))
}

/// Decoding one declared type is owed success: the type string parses, and
/// at every descriptor it may parse to, the hex bytes hold a decodable
/// value at the head slot.
pub open spec fn decode_one_owed(types: Seq<&str>, data: Seq<char>) -> bool {
    types.len() == 1 && all_hex(data) && data.len() % 2 == 0 && (exists|d: TypeDescriptor|
        parses_to(alias_subst(types[0]@), d)) && (forall|d: TypeDescriptor|
        parses_to(alias_subst(types[0]@), d) ==> param_ok_owed(d, hex_bytes(data), 0))
}

/// Decoding leaf-static declarations is owed success: every type parses,
/// only to leaf-static descriptors, and the hex bytes hold all their slots.
pub open spec fn decode_leaf_owed(types: Seq<&str>, data: Seq<char>) -> bool {
    all_hex(data) && data.len() % 2 == 0 && 32 * types.len() <= hex_bytes(data).len() && (forall|
        i: int,
    |
        0 <= i < types.len() ==> ((exists|d: TypeDescriptor|
            parses_to(alias_subst(#[trigger] types[i]@), d)) && (forall|d: TypeDescriptor|
            parses_to(alias_subst(types[i]@), d) ==> leaf_static(d))))
}

/// Acceptable encodings are invariant under alias substitution: two type
/// lists whose strings agree after the native-currency alias admit exactly
/// the same output blobs.
pub proof fn lemma_alias_encode_agrees(
    types1: Seq<&str>,
    types2: Seq<&str>,
    values: Seq<String>,
    out: Seq<u8>,
)
    requires
        types1.len() == types2.len(),
        forall|i: int|
            0 <= i < types1.len() ==> alias_subst(#[trigger] types1[i]@) == alias_subst(
                types2[i]@,
            ),
    ensures
        encode_params_ok(types1, values, out) <==> encode_params_ok(types2, values, out),
{
    if encode_params_ok(types1, values, out) {
        let (ds, ts) = choose|ds: Seq<TypeDescriptor>, ts: Seq<Token>|
            #![trigger ds.len(), ts.len()]
            ds.len() == types1.len() && ts.len() == types1.len() && (forall|i: int|
                0 <= i < ds.len() ==> parses_to(alias_subst(types1[i]@), #[trigger] ds[i])
                    && type_wf(ds[i]) && matches_type(ts[i], ds[i]) && valid_token(ts[i])
                    && tokenizes_to(ds[i], values[i]@, Mode::Lenient, ts[i])) && out == enc_seq(
                ts,
            );
        assert(ds.len() == types2.len() && ts.len() == types2.len() && (forall|i: int|
            0 <= i < ds.len() ==> parses_to(alias_subst(types2[i]@), #[trigger] ds[i]) && type_wf(
                ds[i],
            ) && matches_type(ts[i], ds[i]) && valid_token(ts[i]) && tokenizes_to(
                ds[i],
                values[i]@,
                Mode::Lenient,
                ts[i],
            )) && out == enc_seq(ts));
    }
    if encode_params_ok(types2, values, out) {
        let (ds, ts) = choose|ds: Seq<TypeDescriptor>, ts: Seq<Token>|
            #![trigger ds.len(), ts.len()]
            ds.len() == types2.len() && ts.len() == types2.len() && (forall|i: int|
                0 <= i < ds.len() ==> parses_to(alias_subst(types2[i]@), #[trigger] ds[i])
                    && type_wf(ds[i]) && matches_type(ts[i], ds[i]) && valid_token(ts[i])
                    && tokenizes_to(ds[i], values[i]@, Mode::Lenient, ts[i])) && out == enc_seq(
                ts,
            );
        assert(ds.len() == types1.len() && ts.len() == types1.len() && (forall|i: int|
            0 <= i < ds.len() ==> parses_to(alias_subst(types1[i]@), #[trigger] ds[i]) && type_wf(
                ds[i],
            ) && matches_type(ts[i], ds[i]) && valid_token(ts[i]) && tokenizes_to(
                ds[i],
                values[i]@,
                Mode::Lenient,
                ts[i],
            )) && out == enc_seq(ts));
    }
}

/// No descriptor at all reads from the type string at position `i`.
pub open spec fn no_parse_at(types: Seq<&str>, i: int) -> bool {
    forall|d: TypeDescriptor| !parses_to(alias_subst(types[i]@), d)
}

/// Decodes a hex-encoded binary blob at declared type strings into display
/// strings, one per declared type.  The type strings are read first, as on
/// the encoding path; then the data must be even-length hex.
pub fn decode_params(types: &[&str], data: &str) -> (r: Result<Vec<String>, AbiError>)
    ensures
        r matches Ok(out) ==> decode_params_ok(types@, data@, out@),
        r == Err::<Vec<String>, AbiError>(AbiError::InvalidHex) ==> !(all_hex(data@) && data@.len()
            % 2 == 0),
        (forall|i: int| 0 <= i < types@.len() ==> !(#[trigger] no_parse_at(types@, i))) && !(
        all_hex(data@) && data@.len() % 2 == 0) ==> r == Err::<Vec<String>, AbiError>(
            AbiError::InvalidHex,
        ),
        r matches Err(e) && e is Type ==> exists|i: int|
            0 <= i < types@.len() && #[trigger] no_parse_at(types@, i),
        decode_one_owed(types@, data@) ==> r is Ok,
        decode_leaf_owed(types@, data@) ==> r is Ok,
{
    let n = types.len();
    let mut ds: Vec<TypeDescriptor> = Vec::new();
    let mut i: usize = 0;
    while i < n
        invariant
            0 <= i <= n,
            n == types@.len(),
            ds@.len() == i,
            forall|j: int|
                0 <= j < i ==> parses_to(alias_subst(types@[j]@), #[trigger] ds@[j]) && type_wf(
                    ds@[j],
                ),
        decreases n - i,
    {
        let d = match parse_type(types[i]) {
            Ok(d) => d,
            Err(e) => {
                proof {
                    assert(no_parse_at(types@, i as int));
                    if decode_leaf_owed(types@, data@) {
                        let d0 = choose|d0: TypeDescriptor|
                            parses_to(alias_subst(types@[i as int]@), d0);
                        assert(parses_to(alias_subst(types@[i as int]@), d0));
                        assert(false);
                    }
                    if decode_one_owed(types@, data@) {
                        let d0 = choose|d0: TypeDescriptor|
                            parses_to(alias_subst(types@[0]@), d0);
                        assert(parses_to(alias_subst(types@[0]@), d0));
                        assert(false);
                    }
                }
                return Err(AbiError::Type(e));
            },
        };
        ds.push(d);
        i = i + 1;
    }
    let chars = to_chars(data);
    if !(all_hex_exec(chars.as_slice()) && chars.len() % 2 == 0) {
        return Err(AbiError::InvalidHex);
    }
    let bytes = hex_bytes_exec(chars.as_slice());
    let tokens = match decode(&ds, bytes.as_slice()) {
        Ok(ts) => ts,
        Err(e) => {
            return Err(AbiError::Decode(e));
        },
    };
    let m = tokens.len();
    let mut out: Vec<String> = Vec::new();
    let mut k: usize = 0;
    while k < m
        invariant
            0 <= k <= m,
            m == tokens@.len(),
            m == n,
            n == types@.len(),
            ds@.len() == n,
            forall|j: int|
                0 <= j < n ==> parses_to(alias_subst(types@[j]@), #[trigger] ds@[j]) && type_wf(
                    ds@[j],
                ),
            forall|j: int|
                0 <= j < m ==> matches_type(#[trigger] tokens@[j], ds@[j]) && valid_token(
                    tokens@[j],
                ),
            all_hex(data@) && data@.len() % 2 == 0,
            out@.len() == k,
            forall|j: int| 0 <= j < k ==> (#[trigger] out@[j])@ == format_of(tokens@[j]),
        decreases m - k,
    {
        let line = format_token(&tokens[k]);
        out.push(line);
        k = k + 1;
    }
    proof {
        let dsv = ds@;
        let tsv = tokens@;
        assert(dsv.len() == types@.len() && tsv.len() == types@.len() && out@.len() == types@.len()
            && (forall|i: int|
            0 <= i < dsv.len() ==> parses_to(alias_subst(types@[i]@), #[trigger] dsv[i])
                && type_wf(dsv[i]) && matches_type(tsv[i], dsv[i]) && valid_token(tsv[i])
                && out@[i]@ == format_of(tsv[i])));
    }
    Ok(out)
}

} // verus!
