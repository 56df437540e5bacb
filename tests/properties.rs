use erl_ext::{BigNum, DecodeError, Decoder, Encoder, ErlTermTag, Eterm, Pid};

fn parse_legacy_float(text: &str) -> Option<u64> {
    text.parse::<f32>().ok().map(|f| (f as f64).to_bits())
}

fn encode_with(term: Eterm, utf8: bool, small: bool, fair: bool) -> Vec<u8> {
    let mut encoder = Encoder::new(Vec::new(), utf8, small, fair);
    encoder.write_prelude();
    encoder.encode_term(term);
    encoder.into_inner()
}

fn decode(bytes: &[u8]) -> Result<Eterm, DecodeError> {
    let mut decoder = Decoder::new(bytes, parse_legacy_float);
    assert_eq!(decoder.read_prelude(), Ok(true));
    decoder.decode_term()
}

fn big(value: i128) -> BigNum {
    let (sign, digits) = num::BigInt::from(value).to_u32_digits();
    BigNum::new(sign == num::bigint::Sign::Minus, digits)
}

fn sample_new_fun() -> Eterm {
    Eterm::NewFun {
        arity: 2,
        uniq: vec![7; 16],
        index: 3,
        module: String::from("m"),
        old_index: 300,
        old_uniq: 4,
        pid: Pid { node: String::from("n"), id: 1, serial: 2, creation: 3 },
        free_vars: vec![Eterm::SmallInteger(9)],
    }
}

#[test]
fn scenario_small_integer_bytes() {
    let bytes = encode_with(Eterm::SmallInteger(0), false, false, true);
    assert_eq!(bytes, vec![131, 97, 0]);
    assert_eq!(decode(&bytes), Ok(Eterm::SmallInteger(0)));
}

#[test]
fn scenario_nil_bytes() {
    let bytes = encode_with(Eterm::Nil, false, false, true);
    assert_eq!(bytes, vec![131, 106]);
    assert_eq!(decode(&bytes), Ok(Eterm::Nil));
}

#[test]
fn scenario_tuple_bytes() {
    let make = || Eterm::Tuple(vec![Eterm::SmallInteger(0), Eterm::Nil]);
    let bytes = encode_with(make(), false, false, true);
    assert_eq!(bytes, vec![131, 104, 2, 97, 0, 106]);
    assert_eq!(decode(&bytes), Ok(make()));
}

#[test]
fn scenario_small_legacy_atom_bytes() {
    let bytes = encode_with(Eterm::Atom(String::from("hi")), false, true, false);
    assert_eq!(bytes, vec![131, 115, 2, b'h', b'i']);
    assert_eq!(decode(&bytes), Ok(Eterm::Atom(String::from("hi"))));
}

#[test]
fn atom_tags_follow_options() {
    let a = || Eterm::Atom(String::from("hi"));
    assert_eq!(encode_with(a(), true, true, false), vec![131, 119, 2, b'h', b'i']);
    assert_eq!(encode_with(a(), true, false, false), vec![131, 118, 0, 2, b'h', b'i']);
    assert_eq!(encode_with(a(), false, false, false), vec![131, 100, 0, 2, b'h', b'i']);
    let long = "x".repeat(256);
    let bytes = encode_with(Eterm::Atom(long.clone()), false, true, false);
    assert_eq!(&bytes[..4], &[131, 100, 1, 0]);
    assert_eq!(decode(&bytes), Ok(Eterm::Atom(long)));
    let text = String::from("h\u{e9}llo");
    let bytes = encode_with(Eterm::Atom(text.clone()), true, true, true);
    assert_eq!(bytes[2], 6);
    assert_eq!(decode(&bytes), Ok(Eterm::Atom(text)));
}

#[test]
fn scenario_new_fun_zero_size() {
    let bytes = encode_with(sample_new_fun(), false, false, false);
    assert_eq!(bytes[1], 112);
    assert_eq!(&bytes[2..6], &[0, 0, 0, 0]);
    assert_eq!(decode(&bytes), Ok(sample_new_fun()));
}

#[test]
fn new_fun_fair_size() {
    let bytes = encode_with(sample_new_fun(), false, false, true);
    let size = u32::from_be_bytes([bytes[2], bytes[3], bytes[4], bytes[5]]) as usize;
    // the size counts itself and the body after it, not the tag
    assert_eq!(size, bytes.len() - 2);
    assert_eq!(decode(&bytes), Ok(sample_new_fun()));
}

#[test]
fn scenario_big_minus_one() {
    let bytes = encode_with(Eterm::BigNum(BigNum::new(true, vec![1])), false, false, true);
    assert_eq!(bytes, vec![131, 110, 1, 1, 1]);
    assert_eq!(decode(&bytes), Ok(Eterm::BigNum(big(-1))));
}

#[test]
fn big_values_round_trip() {
    let values: [i128; 6] = [-(1i128 << 63), -1, 0, 1, (1i128 << 32) - 1, 1i128 << 32];
    for v in values {
        let bytes = encode_with(Eterm::BigNum(big(v)), false, false, true);
        assert_eq!(bytes[1], 110);
        assert_eq!(decode(&bytes), Ok(Eterm::BigNum(big(v))));
    }
    let wide = || Eterm::BigNum(BigNum::new(false, (1..=256u32).collect()));
    let bytes = encode_with(wide(), false, false, true);
    assert_eq!(bytes[1], 111);
    assert_eq!(decode(&bytes), Ok(wide()));
}

#[test]
fn big_zero_is_sign_zero_and_empty() {
    let bytes = encode_with(Eterm::BigNum(big(0)), false, false, true);
    assert_eq!(bytes, vec![131, 110, 0, 0]);
}

#[test]
fn big_form_switches_at_255_bytes() {
    // 254 magnitude bytes: small form
    let mut d254 = vec![0u32; 63];
    d254.push(0x0000_ffff);
    let bytes = encode_with(Eterm::BigNum(BigNum::new(false, d254)), false, false, true);
    assert_eq!(&bytes[1..3], &[110, 254]);
    // 255 magnitude bytes: large form
    let mut d255 = vec![0u32; 63];
    d255.push(0x00ff_ffff);
    let bytes = encode_with(Eterm::BigNum(BigNum::new(false, d255)), false, false, true);
    assert_eq!(&bytes[1..6], &[111, 0, 0, 0, 255]);
}

#[test]
fn big_from_wire_and_magnitude() {
    let n = BigNum::from_wire(1, &[4, 3, 2, 1, 5]);
    assert_eq!(n, BigNum::new(true, vec![0x01020304, 5]));
    assert_eq!(n.magnitude_bytes(), vec![4, 3, 2, 1, 5]);
    let zero = BigNum::from_wire(1, &[0, 0, 0, 0, 0]);
    assert_eq!(zero, BigNum::new(false, vec![]));
    assert!(!zero.negative);
    assert_eq!(zero.magnitude_bytes(), Vec::<u8>::new());
    assert_eq!(BigNum::new(true, vec![7, 0, 0]).digits, vec![7]);
}

#[test]
fn prelude_other_byte_is_false() {
    let bytes = [130u8, 97, 0];
    let mut decoder = Decoder::new(&bytes, parse_legacy_float);
    assert_eq!(decoder.read_prelude(), Ok(false));
    let mut empty = Decoder::new(&[], parse_legacy_float);
    assert_eq!(empty.read_prelude(), Err(DecodeError::Eof));
}

#[test]
fn unknown_tag_fails_with_its_byte() {
    for b in [0u8, 1, 71, 96, 120, 131, 255] {
        let bytes = [131u8, b, 97, 0];
        assert_eq!(decode(&bytes), Err(DecodeError::UnknownTag(b)));
    }
    assert_eq!(ErlTermTag::from_u8(82), None);
    assert_eq!(ErlTermTag::from_u8(119), Some(ErlTermTag::SMALL_ATOM_UTF8_EXT));
    assert_eq!(ErlTermTag::BIT_BINARY_EXT.to_u8(), 77);
}

#[test]
fn list_terminator_is_an_element() {
    let make = || Eterm::List(vec![Eterm::SmallInteger(1), Eterm::SmallInteger(2), Eterm::Nil]);
    let bytes = encode_with(make(), false, false, true);
    assert_eq!(&bytes[1..6], &[108, 0, 0, 0, 2]);
    match decode(&bytes) {
        Ok(Eterm::List(items)) => {
            assert_eq!(items.len(), 3);
            assert_eq!(items[2], Eterm::Nil);
        }
        other => panic!("unexpected {:?}", other),
    }
    let improper = || Eterm::List(vec![Eterm::SmallInteger(1), Eterm::SmallInteger(2)]);
    let bytes = encode_with(improper(), false, false, true);
    assert_eq!(decode(&bytes), Ok(improper()));
}

#[test]
fn truncated_input_is_eof() {
    let bytes = encode_with(Eterm::Binary(vec![1, 2, 3]), false, false, true);
    for cut in 1..bytes.len() {
        let mut decoder = Decoder::new(&bytes[..cut], parse_legacy_float);
        assert_eq!(decoder.read_prelude(), Ok(true));
        assert_eq!(decoder.decode_term(), Err(DecodeError::Eof));
    }
}

#[test]
fn invalid_utf8_atom_is_bad_text() {
    let bytes = [131u8, 115, 2, 0xff, 0xfe];
    assert_eq!(decode(&bytes), Err(DecodeError::BadText));
}

#[test]
fn legacy_float_text() {
    let mut bytes = vec![131u8, 99];
    let text = format!("{:0>31}", "1.5");
    bytes.extend_from_slice(text.as_bytes());
    assert_eq!(decode(&bytes), Ok(Eterm::Float(1.5f64.to_bits())));
    let mut bad = vec![131u8, 99];
    bad.extend_from_slice(&[b'z'; 31]);
    assert_eq!(decode(&bad), Err(DecodeError::BadFloat));
}

#[test]
fn new_float_bits() {
    let bytes = encode_with(Eterm::Float(1.0f64.to_bits()), false, false, true);
    assert_eq!(bytes, vec![131, 70, 0x3f, 0xf0, 0, 0, 0, 0, 0, 0]);
}

#[test]
fn export_arity_must_be_small_integer() {
    // export with an INTEGER_EXT arity field
    let bytes = [131u8, 113, 115, 1, b'm', 115, 1, b'f', 98, 0, 0, 0, 1];
    assert_eq!(decode(&bytes), Err(DecodeError::UnexpectedTag(98)));
    // a pid whose node is not an atom
    let bytes = [131u8, 103, 97, 1];
    assert_eq!(decode(&bytes), Err(DecodeError::UnexpectedTag(97)));
}

#[test]
fn legacy_reference_decodes() {
    let bytes = [131u8, 101, 115, 1, b'n', 0, 0, 0, 9, 2];
    assert_eq!(
        decode(&bytes),
        Ok(Eterm::Reference { node: String::from("n"), id: vec![0, 0, 0, 9], creation: 2 })
    );
}

#[test]
fn integer_field_uses_small_form_when_it_fits() {
    let make = || Eterm::Fun {
        pid: Pid { node: String::from("n"), id: 1, serial: 2, creation: 3 },
        module: String::from("m"),
        index: 5,
        uniq: 256,
        free_vars: vec![],
    };
    let bytes = encode_with(make(), false, true, true);
    // tag, free count, pid (tag, atom, id, serial, creation), module atom
    let fields = 1 + 1 + 4 + 1 + 3 + 4 + 4 + 1 + 3;
    assert_eq!(&bytes[fields..fields + 2], &[97, 5]);
    assert_eq!(&bytes[fields + 2..fields + 7], &[98, 0, 0, 1, 0]);
    assert_eq!(decode(&bytes), Ok(make()));
}

#[test]
fn large_tuple_form() {
    let make = || Eterm::Tuple((0..256).map(|_| Eterm::Nil).collect());
    let bytes = encode_with(make(), false, false, true);
    assert_eq!(&bytes[1..6], &[105, 0, 0, 1, 0]);
    assert_eq!(decode(&bytes), Ok(make()));
}

#[test]
fn map_keeps_duplicate_keys_in_order() {
    let make = || {
        Eterm::MapPairs(vec![
            (Eterm::SmallInteger(1), Eterm::Nil),
            (Eterm::SmallInteger(1), Eterm::SmallInteger(2)),
        ])
    };
    let bytes = encode_with(make(), true, true, false);
    assert_eq!(decode(&bytes), Ok(make()));
}

#[test]
fn decoder_consumes_one_term_only() {
    let mut bytes = encode_with(Eterm::SmallInteger(5), false, false, true);
    bytes.push(106);
    let mut decoder = Decoder::new(&bytes, parse_legacy_float);
    assert_eq!(decoder.read_prelude(), Ok(true));
    assert_eq!(decoder.decode_term(), Ok(Eterm::SmallInteger(5)));
    assert_eq!(decoder.decode_term(), Ok(Eterm::Nil));
    assert_eq!(decoder.decode_term(), Err(DecodeError::Eof));
}

#[test]
fn encodable_terms_and_their_lengths() {
    let enc = Encoder::new(Vec::new(), false, true, true);
    let tuple = Eterm::Tuple(vec![Eterm::SmallInteger(0), Eterm::Nil]);
    assert!(enc.can_encode(&tuple));
    assert_eq!(enc.encoded_len(&tuple), 5);
    assert_eq!(enc.encoded_len(&Eterm::Atom(String::from("hi"))), 4);
    assert_eq!(enc.encoded_len(&Eterm::Atom("x".repeat(300))), 303);
    assert_eq!(enc.encoded_len(&sample_new_fun()), encode_with(sample_new_fun(), false, true, true).len() as u64 - 1);
    assert!(enc.can_encode(&sample_new_fun()));
    // a list needs its tail
    assert!(!enc.can_encode(&Eterm::List(vec![])));
    assert!(!enc.can_encode(&Eterm::Atom("x".repeat(70000))));
    assert!(!enc.can_encode(&Eterm::String(vec![0; 70000])));
    assert!(!enc.can_encode(&Eterm::Reference { node: String::from("n"), id: vec![1, 2, 3], creation: 0 }));
    let mut bad_uniq = sample_new_fun();
    if let Eterm::NewFun { uniq, .. } = &mut bad_uniq {
        uniq.pop();
    }
    assert!(!enc.can_encode(&bad_uniq));
    let not_normal = Eterm::BigNum(BigNum { negative: false, digits: vec![1, 0] });
    assert!(!enc.can_encode(&not_normal));
    let nested = Eterm::Tuple(vec![Eterm::List(vec![])]);
    assert!(!enc.can_encode(&nested));
}
