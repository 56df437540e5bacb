use erl_ext::{BigNum, DecodeError, Decoder, Encoder, Eterm, Pid};

fn parse_legacy_float(text: &str) -> Option<u64> {
    text.parse::<f32>().ok().map(|f| (f as f64).to_bits())
}

fn term_to_binary(term: Eterm) -> Vec<u8> {
    let mut encoder = Encoder::new(Vec::new(), false, false, true);
    encoder.write_prelude();
    encoder.encode_term(term);
    encoder.into_inner()
}

fn binary_to_term(binary: Vec<u8>) -> Result<Eterm, DecodeError> {
    let mut decoder = Decoder::new(&binary, parse_legacy_float);
    assert!(true == decoder.read_prelude()?);
    decoder.decode_term()
}

fn codec_eq(make: impl Fn() -> Eterm) {
    let orig = make();
    let teleported = binary_to_term(term_to_binary(make())).unwrap();
    assert_eq!(orig, teleported);
}

fn my_pid(id: u32) -> Pid {
    Pid { node: String::from("my_node"), id, serial: 1, creation: 0 }
}

#[test]
fn codec_small_integer() {
    codec_eq(|| Eterm::SmallInteger(0));
    codec_eq(|| Eterm::SmallInteger(255));
}

#[test]
fn codec_integer() {
    codec_eq(|| Eterm::Integer(-2147483647));
    codec_eq(|| Eterm::Integer(-1));
    codec_eq(|| Eterm::Integer(256));
    codec_eq(|| Eterm::Integer(2147483647));
}

#[test]
fn codec_float() {
    codec_eq(|| Eterm::Float((-111111.11f64).to_bits()));
    codec_eq(|| Eterm::Float(0.0f64.to_bits()));
    codec_eq(|| Eterm::Float(111111.11f64.to_bits()));
}

#[test]
fn codec_atom() {
    codec_eq(|| Eterm::Atom(String::from("hello_world")));
}

#[test]
fn codec_reference() {
    codec_eq(|| Eterm::Reference { node: String::from("my_node"), id: vec![0, 1, 2, 3], creation: 0 });
}

#[test]
fn codec_port() {
    codec_eq(|| Eterm::Port { node: String::from("my_node"), id: 4294967295, creation: 0 });
}

#[test]
fn codec_pid() {
    codec_eq(|| Eterm::Pid(my_pid(4294967295)));
}

#[test]
fn codec_tuple() {
    codec_eq(|| Eterm::Tuple(vec![Eterm::SmallInteger(0), Eterm::Nil]));
}

#[test]
fn codec_map() {
    // #{0 => {}, 0.0 => -1}
    codec_eq(|| {
        let mut map: Vec<(Eterm, Eterm)> = Vec::new();
        map.push((Eterm::SmallInteger(0), Eterm::Tuple(vec![])));
        map.push((Eterm::Float(0.0f64.to_bits()), Eterm::Integer(-1)));
        Eterm::MapPairs(map)
    });
}

#[test]
fn codec_nil() {
    codec_eq(|| Eterm::Nil);
}

#[test]
fn codec_string() {
    codec_eq(|| Eterm::String((0..255u8).collect()));
}

#[test]
fn codec_list() {
    codec_eq(|| Eterm::List(vec![Eterm::Tuple(vec![]), Eterm::SmallInteger(1), Eterm::Nil]));
}

#[test]
fn codec_binary() {
    codec_eq(|| {
        let mut vec: Vec<u8> = Vec::with_capacity(1024);
        for i in 0..1024u32 {
            vec.push((i % 255) as u8);
        }
        Eterm::Binary(vec)
    });
}

#[test]
fn codec_big_num() {
    codec_eq(|| Eterm::BigNum(BigNum::new(false, vec![1, 1, 1, 1, 1, 1])));
    codec_eq(|| Eterm::BigNum(BigNum::new(true, vec![1, 1, 1, 1, 1, 1])));
    codec_eq(|| {
        let (sign, digits) = num::BigInt::from(i64::MAX).to_u32_digits();
        Eterm::BigNum(BigNum::new(sign == num::bigint::Sign::Minus, digits))
    });
    codec_eq(|| Eterm::BigNum(BigNum::new(false, (0..256u32).collect())));
}

#[test]
fn codec_fun() {
    codec_eq(|| Eterm::Fun {
        pid: my_pid(4294967295),
        module: String::from("my_mod"),
        index: 1,
        uniq: u32::MAX,
        free_vars: vec![Eterm::Nil],
    });
}

#[test]
fn codec_new_fun() {
    codec_eq(|| Eterm::NewFun {
        arity: 128,
        uniq: (0..16u8).collect(),
        index: u32::MAX,
        module: String::from("my_mod"),
        old_index: u32::MAX,
        old_uniq: u32::MAX,
        pid: my_pid(u32::MAX),
        free_vars: vec![Eterm::Nil],
    });
}

#[test]
fn codec_export() {
    codec_eq(|| Eterm::Export {
        module: String::from("my_mod"),
        function: String::from("my_fun"),
        arity: u8::MAX,
    });
}

#[test]
fn codec_bit_binary() {
    codec_eq(|| Eterm::BitBinary { bits: 1, data: vec![255, 255] });
}
