use abi_codec::api::{encode_params, decode_params, AbiError};
use abi_codec::codec::encode;
use abi_codec::decode::{decode, DecodeError};
use abi_codec::entry::{
    AbiEntry, AbiParam, EntryKind, Mutability, entry_to_method_name, entry_to_method_name_pretty,
    entry_to_input_types, entry_to_output_types, fnhash,
};
use abi_codec::format::format_token;
use abi_codec::parse::{parse_type, TypeError};
use abi_codec::token::Token;
use abi_codec::tokenize::{tokenize, parse_tokens, Mode, TokenizeError};
use abi_codec::types::TypeDescriptor;

fn word_with_tail(bytes: &[u8]) -> Vec<u8> {
    let mut w = vec![0u8; 32 - bytes.len()];
    w.extend_from_slice(bytes);
    w
}

fn entry(kind: EntryKind, name: &str, inputs: Vec<AbiParam>, outputs: Vec<AbiParam>) -> AbiEntry {
    AbiEntry {
        kind,
        name: name.to_string(),
        inputs,
        outputs,
        payable: false,
        mutability: Mutability::Nonpayable,
    }
}

fn param(ty: &str, name: &str) -> AbiParam {
    AbiParam { name: name.to_string(), type_str: ty.to_string(), indexed: false }
}

#[test]
fn parse_primitives() {
    assert_eq!(parse_type("uint256"), Ok(TypeDescriptor::Uint(256)));
    assert_eq!(parse_type("uint"), Ok(TypeDescriptor::Uint(256)));
    assert_eq!(parse_type("int64"), Ok(TypeDescriptor::Int(64)));
    assert_eq!(parse_type("bool"), Ok(TypeDescriptor::Bool));
    assert_eq!(parse_type("address"), Ok(TypeDescriptor::Address));
    assert_eq!(parse_type("bytes"), Ok(TypeDescriptor::Bytes));
    assert_eq!(parse_type("bytes7"), Ok(TypeDescriptor::FixedBytes(7)));
    assert_eq!(parse_type("string"), Ok(TypeDescriptor::Str));
}

#[test]
fn parse_alias_is_uint256() {
    assert_eq!(parse_type("trcToken"), parse_type("uint256"));
}

#[test]
fn parse_composites() {
    assert_eq!(
        parse_type("uint8[]"),
        Ok(TypeDescriptor::Array(Box::new(TypeDescriptor::Uint(8))))
    );
    assert_eq!(
        parse_type("uint8[3]"),
        Ok(TypeDescriptor::FixedArray(Box::new(TypeDescriptor::Uint(8)), 3))
    );
    assert_eq!(
        parse_type("(bool,uint8)"),
        Ok(TypeDescriptor::Tuple(vec![TypeDescriptor::Bool, TypeDescriptor::Uint(8)]))
    );
    assert_eq!(
        parse_type("(uint8[])[2]"),
        Ok(TypeDescriptor::FixedArray(
            Box::new(TypeDescriptor::Tuple(vec![TypeDescriptor::Array(Box::new(
                TypeDescriptor::Uint(8)
            ))])),
            2
        ))
    );
}

#[test]
fn parse_malformed_always_fails_cleanly() {
    // invalid widths, unbalanced brackets, unknown names
    for bad in [
        "uint9", "uint256[", "uint0", "uint264", "bytes0", "bytes33", "frob", "", "(", "(]",
        "uint256]", "[]", "int12", "0uint",
    ] {
        assert_eq!(parse_type(bad), Err(TypeError::Malformed), "case {bad:?}");
    }
}

#[test]
fn tokenize_uint_decimal_and_hex() {
    let d = TypeDescriptor::Uint(256);
    let t = tokenize(&d, "100", Mode::Lenient).unwrap();
    assert_eq!(t, Token::Uint(word_with_tail(&[100])));
    let t2 = tokenize(&d, "0x64", Mode::Lenient).unwrap();
    assert_eq!(t2, Token::Uint(word_with_tail(&[0x64])));
    assert_eq!(
        tokenize(&d, "borked", Mode::Lenient),
        Err(TokenizeError::TypeMismatch)
    );
}

#[test]
fn tokenize_uint_out_of_range() {
    let d = TypeDescriptor::Uint(8);
    assert_eq!(tokenize(&d, "255", Mode::Lenient).unwrap(), Token::Uint(word_with_tail(&[255])));
    assert_eq!(tokenize(&d, "256", Mode::Lenient), Err(TokenizeError::OutOfRange));
}

#[test]
fn tokenize_int_negative() {
    let d = TypeDescriptor::Int(256);
    let t = tokenize(&d, "-1", Mode::Lenient).unwrap();
    assert_eq!(t, Token::Int(vec![0xffu8; 32]));
    let d8 = TypeDescriptor::Int(8);
    let mut minus128 = vec![0xffu8; 32];
    minus128[31] = 0x80;
    assert_eq!(tokenize(&d8, "-128", Mode::Lenient).unwrap(), Token::Int(minus128));
    assert_eq!(tokenize(&d8, "-129", Mode::Lenient), Err(TokenizeError::OutOfRange));
    assert_eq!(tokenize(&d8, "127", Mode::Lenient).unwrap(), Token::Int(word_with_tail(&[127])));
    assert_eq!(tokenize(&d8, "128", Mode::Lenient), Err(TokenizeError::OutOfRange));
}

#[test]
fn tokenize_strict_requires_full_word() {
    let d = TypeDescriptor::Uint(256);
    assert_eq!(tokenize(&d, "100", Mode::Strict), Err(TokenizeError::TypeMismatch));
    let hex64 = "0000000000000000000000000000000000000000000000000000000000000064";
    assert_eq!(tokenize(&d, hex64, Mode::Strict).unwrap(), Token::Uint(word_with_tail(&[0x64])));
}

#[test]
fn tokenize_bool_and_string_and_bytes() {
    assert_eq!(tokenize(&TypeDescriptor::Bool, "1", Mode::Lenient).unwrap(), Token::Bool(true));
    assert_eq!(tokenize(&TypeDescriptor::Bool, "false", Mode::Lenient).unwrap(), Token::Bool(false));
    assert_eq!(
        tokenize(&TypeDescriptor::Bool, "yes", Mode::Lenient),
        Err(TokenizeError::TypeMismatch)
    );
    assert_eq!(
        tokenize(&TypeDescriptor::Str, "\"hi\"", Mode::Lenient).unwrap(),
        Token::Str("hi".to_string())
    );
    assert_eq!(
        tokenize(&TypeDescriptor::Str, "hi", Mode::Lenient).unwrap(),
        Token::Str("hi".to_string())
    );
    assert_eq!(
        tokenize(&TypeDescriptor::Bytes, "0xdeadbeef", Mode::Lenient).unwrap(),
        Token::Bytes(vec![0xde, 0xad, 0xbe, 0xef])
    );
    assert_eq!(
        tokenize(&TypeDescriptor::FixedBytes(2), "abcd", Mode::Lenient).unwrap(),
        Token::FixedBytes(vec![0xab, 0xcd])
    );
    assert_eq!(
        tokenize(&TypeDescriptor::FixedBytes(2), "abcdef", Mode::Lenient),
        Err(TokenizeError::TypeMismatch)
    );
}

#[test]
fn tokenize_arrays_and_arity() {
    let d = parse_type("uint8[]").unwrap();
    let t = tokenize(&d, "[1,2,3]", Mode::Lenient).unwrap();
    assert_eq!(
        t,
        Token::Array(vec![
            Token::Uint(word_with_tail(&[1])),
            Token::Uint(word_with_tail(&[2])),
            Token::Uint(word_with_tail(&[3])),
        ])
    );
    let d3 = parse_type("uint8[3]").unwrap();
    assert_eq!(tokenize(&d3, "[1,2]", Mode::Lenient), Err(TokenizeError::ArityMismatch));
    let dt = parse_type("(bool,uint8)").unwrap();
    assert_eq!(
        tokenize(&dt, "(true,7)", Mode::Lenient).unwrap(),
        Token::Tuple(vec![Token::Bool(true), Token::Uint(word_with_tail(&[7]))])
    );
    assert_eq!(tokenize(&dt, "(true)", Mode::Lenient), Err(TokenizeError::ArityMismatch));
}

#[test]
fn encode_params_two_static_words() {
    let types = ["uint256", "bool"];
    let values = ["100".to_string(), "true".to_string()];
    let out = encode_params(&types, &values).unwrap();
    assert_eq!(out.len(), 64);
    let mut expected = word_with_tail(&[100]);
    expected.extend_from_slice(&word_with_tail(&[1]));
    assert_eq!(out, expected);
}

#[test]
fn encode_alias_matches_uint256() {
    let values = ["1000000".to_string()];
    let a = encode_params(&["trcToken"], &values).unwrap();
    let b = encode_params(&["uint256"], &values).unwrap();
    assert_eq!(a, b);
}

#[test]
fn encode_empty_dynamic_array_boundary() {
    let out = encode_params(&["uint8[]"], &["[]".to_string()]).unwrap();
    let mut expected = word_with_tail(&[32]);
    expected.extend_from_slice(&word_with_tail(&[]));
    assert_eq!(out, expected);
    // decoding it back yields an empty array token
    let d = parse_type("uint8[]").unwrap();
    let toks = decode(&vec![d], &out).unwrap();
    assert_eq!(toks, vec![Token::Array(vec![])]);
}

#[test]
fn encode_dynamic_string_layout() {
    let out = encode_params(&["string"], &["abc".to_string()]).unwrap();
    // head offset 32, then length 3, then "abc" padded to 32 bytes
    let mut expected = word_with_tail(&[32]);
    expected.extend_from_slice(&word_with_tail(&[3]));
    let mut content = b"abc".to_vec();
    content.resize(32, 0);
    expected.extend_from_slice(&content);
    assert_eq!(out, expected);
}

#[test]
fn round_trip_static_and_dynamic() {
    let type_strs = ["uint256", "bool", "address", "bytes", "string", "uint8[]", "bytes3"];
    let values = [
        "123456789".to_string(),
        "true".to_string(),
        "00112233445566778899aabbccddeeff00112233".to_string(),
        "0xdeadbeef".to_string(),
        "hello world".to_string(),
        "[7,8]".to_string(),
        "aabbcc".to_string(),
    ];
    let descriptors: Vec<_> = type_strs.iter().map(|s| parse_type(s).unwrap()).collect();
    let tokens: Vec<_> = descriptors
        .iter()
        .zip(values.iter())
        .map(|(d, v)| tokenize(d, v, Mode::Lenient).unwrap())
        .collect();
    let blob = encode(&tokens);
    assert_eq!(blob.len() % 32, 0);
    let back = decode(&descriptors, &blob).unwrap();
    assert_eq!(back, tokens);
}

#[test]
fn round_trip_nested_tuple() {
    let d = parse_type("(uint8,string,(bool,uint8)[])").unwrap();
    let t = tokenize(&d, "(5,txt,[(true,1),(false,2)])", Mode::Lenient).unwrap();
    let t2 = tokenize(&d, "(5,txt,[(true,1),(false,2)])", Mode::Lenient).unwrap();
    let blob = encode(&vec![t2]);
    let back = decode(&vec![d], &blob).unwrap();
    assert_eq!(back, vec![t]);
}

#[test]
fn decode_truncated_string_fails() {
    // head offset 32, declared length 10, but only 2 content bytes present
    let mut buf = word_with_tail(&[32]);
    buf.extend_from_slice(&word_with_tail(&[10]));
    buf.extend_from_slice(&[0x61, 0x62]);
    let d = parse_type("string").unwrap();
    assert_eq!(decode(&vec![d], &buf), Err(DecodeError::Truncated));
}

#[test]
fn decode_invalid_offset_fails() {
    // head slot holds a giant offset word
    let buf = vec![0xffu8; 32];
    let d = parse_type("string").unwrap();
    assert_eq!(decode(&vec![d], &buf), Err(DecodeError::InvalidOffset));
}

#[test]
fn decode_params_formats_values() {
    let types = ["uint256", "bool"];
    let values = ["100".to_string(), "true".to_string()];
    let blob = encode_params(&types, &values).unwrap();
    let data = hex::encode(&blob);
    let out = decode_params(&types, &data).unwrap();
    assert_eq!(out, vec!["100".to_string(), "true".to_string()]);
}

#[test]
fn decode_params_empty_array_boundary() {
    // head offset 32, element count 0
    let data = format!("{}20{}", "0".repeat(62), "0".repeat(64));
    assert_eq!(decode_params(&["uint256[]"], &data), Ok(vec!["[]".to_string()]));
}

#[test]
fn decode_params_truncated_string() {
    // head offset 32, declared length 10, two content bytes only
    let mut buf = vec![0u8; 31];
    buf.push(32);
    buf.extend_from_slice(&vec![0u8; 31]);
    buf.push(10);
    buf.extend_from_slice(&[0x61, 0x62]);
    assert_eq!(
        decode_params(&["string"], &hex::encode(&buf)),
        Err(AbiError::Decode(DecodeError::Truncated))
    );
}

#[test]
fn decode_params_rejects_bad_hex() {
    assert_eq!(decode_params(&["uint256"], "zz"), Err(AbiError::InvalidHex));
    assert_eq!(decode_params(&["uint256"], "abc"), Err(AbiError::InvalidHex));
}

#[test]
fn format_escapes_control_characters() {
    assert_eq!(format_token(&Token::Str("a\nb".to_string())), "\"a\\nb\"");
    assert_eq!(format_token(&Token::Str("t\tr\r".to_string())), "\"t\\tr\\r\"");
    assert_eq!(format_token(&Token::Str("\u{1}\u{1f}".to_string())), "\"\\u{1}\\u{1f}\"");
}

#[test]
fn parse_tokens_reads_each_pair() {
    let params = vec![
        (TypeDescriptor::Uint(8), "7".to_string()),
        (TypeDescriptor::Bool, "true".to_string()),
    ];
    let ts = parse_tokens(&params, true).unwrap();
    assert_eq!(ts, vec![Token::Uint(word_with_tail(&[7])), Token::Bool(true)]);
    let bad = vec![(TypeDescriptor::Uint(8), "256".to_string())];
    assert_eq!(parse_tokens(&bad, true), Err(TokenizeError::OutOfRange));
}

#[test]
fn format_leaf_tokens() {
    assert_eq!(format_token(&Token::Bool(true)), "true");
    assert_eq!(format_token(&Token::Uint(word_with_tail(&[1, 0]))), "256");
    assert_eq!(format_token(&Token::Int(vec![0xff; 32])), "-1");
    assert_eq!(format_token(&Token::Bytes(vec![0xde, 0xad])), "dead");
    assert_eq!(format_token(&Token::FixedBytes(vec![0x01, 0x2f])), "012f");
    assert_eq!(format_token(&Token::Str("a\"b".to_string())), "\"a\\\"b\"");
    assert_eq!(
        format_token(&Token::Array(vec![Token::Bool(true), Token::Bool(false)])),
        "[true, false]"
    );
    assert_eq!(format_token(&Token::Tuple(vec![Token::Bool(true)])), "tuple(...)");
}

#[test]
fn format_address_base58check() {
    let raw = vec![0u8; 20];
    let shown = format_token(&Token::Address(raw.clone()));
    // the chain-native text: base58check of 0x41 followed by the 20 bytes
    let mut payload = vec![0x41u8];
    payload.extend_from_slice(&raw);
    let expected = bs58::encode(&payload).with_check().into_string();
    assert_eq!(shown, expected);
    assert_eq!(shown, "T9yD14Nj9j7xAB4dbGeiX9h8unkKHxuWwb");
}

#[test]
fn method_name_and_selector() {
    let e = entry(
        EntryKind::Function,
        "transfer",
        vec![param("address", "to"), param("uint256", "amount")],
        vec![],
    );
    let name = entry_to_method_name(&e);
    assert_eq!(name, "transfer(address,uint256)");
    // the well-known selector of this signature
    assert_eq!(fnhash(&name), [0xa9, 0x05, 0x9c, 0xbb]);
}

#[test]
fn selector_ignores_parameter_names() {
    let e1 = entry(
        EntryKind::Function,
        "transfer",
        vec![param("address", "to"), param("uint256", "amount")],
        vec![],
    );
    let e2 = entry(
        EntryKind::Function,
        "transfer",
        vec![param("address", "x"), param("uint256", "y")],
        vec![param("bool", "ok")],
    );
    assert_eq!(
        fnhash(&entry_to_method_name(&e1)),
        fnhash(&entry_to_method_name(&e2))
    );
}

#[test]
fn pretty_signature_full_form() {
    let mut e = entry(
        EntryKind::Function,
        "foo",
        vec![param("uint256", "amount")],
        vec![param("bool", "")],
    );
    e.payable = true;
    e.mutability = Mutability::View;
    assert_eq!(
        entry_to_method_name_pretty(&e).unwrap(),
        "function foo(uint256 amount) payable view returns (bool)"
    );
}

#[test]
fn pretty_signature_event_indexed_and_fallback() {
    let mut from = param("address", "from");
    from.indexed = true;
    let ev = entry(EntryKind::Event, "Transfer", vec![from, param("uint256", "value")], vec![]);
    assert_eq!(
        entry_to_method_name_pretty(&ev).unwrap(),
        "event Transfer(address indexed from, uint256 value)"
    );
    let fb = entry(EntryKind::Fallback, "ignored", vec![], vec![]);
    assert_eq!(entry_to_method_name_pretty(&fb).unwrap(), "function()");
    let unnamed = entry(EntryKind::Function, "bar", vec![param("uint256", "")], vec![]);
    assert_eq!(entry_to_method_name_pretty(&unnamed).unwrap(), "function bar(uint256)");
}

#[test]
fn input_and_output_type_projections() {
    let e = entry(
        EntryKind::Function,
        "f",
        vec![param("address", "a"), param("uint256", "b")],
        vec![param("bool", "")],
    );
    assert_eq!(entry_to_input_types(&e), vec!["address", "uint256"]);
    assert_eq!(entry_to_output_types(&e), vec!["bool"]);
}

#[test]
fn strict_int_checks_sign_extension() {
    let d8 = TypeDescriptor::Int(8);
    let all_f = "f".repeat(64);
    assert_eq!(tokenize(&d8, &all_f, Mode::Strict).unwrap(), Token::Int(vec![0xff; 32]));
    let too_big = format!("{}80", "0".repeat(62));
    assert_eq!(tokenize(&d8, &too_big, Mode::Strict), Err(TokenizeError::OutOfRange));
}

#[test]
fn strict_and_lenient_share_structure() {
    let d = parse_type("bool[2]").unwrap();
    let l = tokenize(&d, "[true,false]", Mode::Lenient).unwrap();
    let s = tokenize(&d, "[true,false]", Mode::Strict).unwrap();
    assert_eq!(l, s);
}
