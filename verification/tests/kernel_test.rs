use jsondata::float::{bits_equal, bits_order, bits_to_int, int_to_bits};
use jsondata::lex::Lex;
use jsondata::num::{parse_decimal, parse_integer};
use jsondata::ops::normalized_offset;
use jsondata::parse::{parse, parse_value};
use jsondata::property::{search, upsert_object_key};
use jsondata::render::encode_string;
use jsondata::text::{chars_of, push_decimal, push_signed_decimal, str_order};
use jsondata::{Error, ErrorKind, Floating, Integral, Json, Order, Property};

fn read_float(text: &str) -> Option<u64> {
    text.parse::<f64>().ok().map(f64::to_bits)
}

fn parsed(text: &str) -> Json {
    let mut value = parse(text).unwrap();
    let readings: Vec<Option<u64>> =
        value.float_literals().iter().map(|t| read_float(t)).collect();
    value.read_floats(&readings);
    value
}

fn shown(value: &Json) -> String {
    let renderings: Vec<String> = value
        .computed_floats()
        .iter()
        .map(|bits| format!("{:e}", f64::from_bits(*bits)))
        .collect();
    value.to_text(&renderings).unwrap()
}

fn float(v: f64) -> Json {
    Json::from_float_bits(v.to_bits())
}

fn integer_of(text: &str) -> Option<i128> {
    parse_integer(&chars_of(text))
}

fn kind_of(text: &str) -> ErrorKind {
    parse(text).unwrap_err().kind()
}

#[test]
fn integer_literals() {
    assert_eq!(integer_of("0"), Some(0));
    assert_eq!(integer_of("007"), Some(7));
    assert_eq!(integer_of("+5"), Some(5));
    assert_eq!(integer_of("-5"), Some(-5));
    assert_eq!(integer_of("0x1234"), Some(0x1234));
    assert_eq!(integer_of("0xdecaf"), Some(0xdecaf));
    assert_eq!(integer_of("-0xC0FFEE"), Some(-0xC0_FFEE));
    assert_eq!(integer_of("0x+f"), Some(15));
    assert_eq!(integer_of("-0x-1"), Some(1));
    assert_eq!(integer_of("170141183460469231731687303715884105727"), Some(i128::MAX));
    assert_eq!(integer_of("-170141183460469231731687303715884105728"), Some(i128::MIN));
    assert_eq!(integer_of("0x7fffffffffffffffffffffffffffffff"), Some(i128::MAX));
    assert_eq!(integer_of("0x-80000000000000000000000000000000"), Some(i128::MIN));

    assert_eq!(integer_of(""), None);
    assert_eq!(integer_of("+"), None);
    assert_eq!(integer_of("-"), None);
    assert_eq!(integer_of("0x"), None);
    assert_eq!(integer_of("-0x"), None);
    assert_eq!(integer_of("12a"), None);
    assert_eq!(integer_of("0xg"), None);
    assert_eq!(integer_of("1_000"), None);
    assert_eq!(integer_of(" 1"), None);
    assert_eq!(integer_of("1.5"), None);
    assert_eq!(integer_of("170141183460469231731687303715884105728"), None);
    assert_eq!(integer_of("-170141183460469231731687303715884105729"), None);
    assert_eq!(integer_of("0x80000000000000000000000000000000"), None);
    // The negation of the smallest integer does not fit.
    assert_eq!(integer_of("-0x-80000000000000000000000000000000"), None);
}

#[test]
fn integer_literals_agree_with_the_standard_library() {
    for text in ["0", "-0", "+0", "12", "-12", "+12", "00012", "9223372036854775808", "x", "1x"] {
        assert_eq!(parse_decimal(&chars_of(text)), text.parse::<i128>().ok(), "{}", text);
    }
    for text in ["0", "ff", "FF", "-ff", "+Ff", "g", "", "-"] {
        assert_eq!(
            integer_of(&format!("0x{}", text)),
            if text.is_empty() { None } else { i128::from_str_radix(text, 16).ok() },
            "{}",
            text
        );
    }
}

#[test]
fn integer_cells_defer_short_literals_only() {
    let short = "1".repeat(127);
    match Integral::from_text(&short).unwrap() {
        Integral::Text { text } => assert_eq!(text.len(), 127),
        other => panic!("{:?}", other),
    }
    // Too long to defer, and too large to be a number.
    let long = "1".repeat(128);
    assert_eq!(Integral::from_text(&long).unwrap_err().kind(), ErrorKind::InvalidNumber);
    // Too long to defer, read at once.
    let zeros = format!("{}42", "0".repeat(126));
    match Integral::from_text(&zeros).unwrap() {
        Integral::Data { value } => assert_eq!(value, 42),
        other => panic!("{:?}", other),
    }
    assert_eq!(kind_of(&long), ErrorKind::InvalidNumber);
    assert_eq!(parse(&zeros).unwrap(), Json::new(42));
}

#[test]
fn integer_cells_compute_once() {
    let mut cell = Integral::from_text("0x10").unwrap();
    assert_eq!(cell.integer(), Some(16));
    assert_eq!(cell.integer_result().unwrap(), 16);
    assert_eq!(cell.compute(), Ok(()));
    assert!(matches!(cell, Integral::Data { value: 16 }));
    assert_eq!(cell.compute(), Ok(()));
    assert!(matches!(cell, Integral::Data { value: 16 }));

    let mut cell = Integral::from_text("12three").unwrap();
    assert_eq!(cell.integer(), None);
    assert_eq!(cell.integer_result().unwrap_err().kind(), ErrorKind::InvalidNumber);
    assert_eq!(cell.compute().unwrap_err().kind(), ErrorKind::InvalidNumber);
    assert!(matches!(cell, Integral::Text { .. }));
}

#[test]
fn integer_cells_as_floats() {
    assert_eq!(Integral::new(10).float(), Some(10.0_f64.to_bits()));
    assert_eq!(Integral::new(-3).float(), Some((-3.0_f64).to_bits()));
    assert_eq!(Integral::new(9007199254740992).float(), Some(9007199254740992.0_f64.to_bits()));
    assert_eq!(Integral::new(-9007199254740992).float(), Some((-9007199254740992.0_f64).to_bits()));
    assert_eq!(Integral::new(9007199254740993).float(), None);
    assert_eq!(Integral::new(-9007199254740993).float(), None);
    assert_eq!(Integral::from_text("junk").unwrap().float(), None);
}

#[test]
fn float_cells_keep_their_reading() {
    let mut cell = Floating::from_text("1.5", read_float("1.5"));
    assert_eq!(cell.literal(), Some("1.5".to_string()));
    assert_eq!(cell.float(), Some(1.5_f64.to_bits()));
    assert_eq!(cell.float_result().unwrap(), 1.5_f64.to_bits());
    assert_eq!(cell.compute(), Ok(()));
    assert_eq!(cell.literal(), None);
    assert_eq!(cell.float(), Some(1.5_f64.to_bits()));
    assert_eq!(cell.compute(), Ok(()));

    let mut cell = Floating::from_text(".1234.", read_float(".1234."));
    assert_eq!(cell.float(), None);
    assert_eq!(cell.float_result().unwrap_err().kind(), ErrorKind::InvalidNumber);
    assert_eq!(cell.compute().unwrap_err().kind(), ErrorKind::InvalidNumber);
    assert_eq!(cell.literal(), Some(".1234.".to_string()));
    cell.set_reading(Some(7));
    assert_eq!(cell.float(), Some(7));
}

#[test]
fn integers_are_promoted_as_the_machine_does() {
    let mut samples: Vec<i128> = vec![
        0,
        1,
        -1,
        2,
        3,
        10,
        -10,
        255,
        (1 << 52) - 1,
        1 << 52,
        (1 << 52) + 1,
        (1 << 53) - 1,
        1 << 53,
        (1 << 53) + 1,
        (1 << 53) + 2,
        (1 << 53) + 3,
        (1 << 54) + 1,
        (1 << 54) + 2,
        (1 << 54) + 3,
        (1 << 54) + 6,
        (1 << 64) - 1,
        (1 << 64) + (1 << 11),
        (1 << 64) + (1 << 11) + 1,
        (1 << 64) + 3 * (1 << 11),
        i128::MAX,
        i128::MAX - 1,
        i128::MIN,
        i128::MIN + 1,
        0x7FFF_FFFF_FFFF_FBFF_FFFF_FFFF_FFFF_FFFF,
        0x7FFF_FFFF_FFFF_FC00_0000_0000_0000_0000,
        0x7FFF_FFFF_FFFF_FC00_0000_0000_0000_0001,
    ];
    let mut x: i128 = 1;
    for _ in 0..60 {
        x = x.wrapping_mul(6364136223846793005).wrapping_add(1442695040888963407);
        samples.push(x);
        samples.push(x >> 40);
        samples.push(x >> 70);
        samples.push(-(x >> 1));
    }
    for v in samples {
        assert_eq!(int_to_bits(v), (v as f64).to_bits(), "{}", v);
    }
}

#[test]
fn floats_that_are_integers() {
    assert_eq!(bits_to_int(10.0_f64.to_bits()), Some(10));
    assert_eq!(bits_to_int((-10.0_f64).to_bits()), Some(-10));
    assert_eq!(bits_to_int(0.0_f64.to_bits()), Some(0));
    assert_eq!(bits_to_int((-0.0_f64).to_bits()), Some(0));
    assert_eq!(bits_to_int(1.0_f64.to_bits()), Some(1));
    assert_eq!(bits_to_int(1e30_f64.to_bits()), Some(1e30_f64 as i128));
    assert_eq!(bits_to_int(9007199254740992.0_f64.to_bits()), Some(1 << 53));
    assert_eq!(bits_to_int(2.0_f64.powi(126).to_bits()), Some(1 << 126));
    assert_eq!(bits_to_int((-(2.0_f64.powi(126))).to_bits()), Some(-(1 << 126)));

    assert_eq!(bits_to_int(10.5_f64.to_bits()), None);
    assert_eq!(bits_to_int(0.5_f64.to_bits()), None);
    assert_eq!(bits_to_int(1e-300_f64.to_bits()), None);
    assert_eq!(bits_to_int(f64::MIN_POSITIVE.to_bits()), None);
    assert_eq!(bits_to_int(5e-324_f64.to_bits()), None);
    assert_eq!(bits_to_int(2.0_f64.powi(127).to_bits()), None);
    assert_eq!(bits_to_int((-(2.0_f64.powi(127))).to_bits()), None);
    assert_eq!(bits_to_int(1e300_f64.to_bits()), None);
    assert_eq!(bits_to_int(f64::INFINITY.to_bits()), None);
    assert_eq!(bits_to_int(f64::NEG_INFINITY.to_bits()), None);
    assert_eq!(bits_to_int(f64::NAN.to_bits()), None);
}

#[test]
fn floats_in_their_total_order() {
    let line = [
        f64::NEG_INFINITY,
        f64::MIN,
        -1.5,
        -1.0,
        -f64::MIN_POSITIVE,
        -5e-324,
        -0.0,
        0.0,
        5e-324,
        f64::MIN_POSITIVE,
        1.0,
        1.5,
        f64::MAX,
        f64::INFINITY,
        f64::NAN,
    ];
    for (i, a) in line.iter().enumerate() {
        for (j, b) in line.iter().enumerate() {
            let expected = if i < j {
                Order::Less
            } else if i == j {
                Order::Equal
            } else {
                Order::Greater
            };
            assert_eq!(bits_order(a.to_bits(), b.to_bits()), expected, "{} {}", a, b);
        }
    }
    // Every NaN takes the same place.
    assert_eq!(bits_order(f64::NAN.to_bits(), (-f64::NAN).to_bits()), Order::Equal);
    assert_eq!(bits_order(0x7FF0_0000_0000_0001, 0xFFFF_FFFF_FFFF_FFFF), Order::Equal);
}

#[test]
fn floats_equal_as_values() {
    assert!(bits_equal(1.5_f64.to_bits(), 1.5_f64.to_bits()));
    assert!(!bits_equal(1.5_f64.to_bits(), 1.25_f64.to_bits()));
    assert!(bits_equal(0.0_f64.to_bits(), (-0.0_f64).to_bits()));
    assert!(bits_equal(f64::NAN.to_bits(), f64::NAN.to_bits()));
    assert!(bits_equal(f64::NAN.to_bits(), (-f64::NAN).to_bits()));
    assert!(bits_equal(f64::INFINITY.to_bits(), f64::INFINITY.to_bits()));
    assert!(!bits_equal(f64::INFINITY.to_bits(), f64::NEG_INFINITY.to_bits()));
    assert!(!bits_equal(f64::INFINITY.to_bits(), f64::NAN.to_bits()));
    assert!(!bits_equal(f64::INFINITY.to_bits(), f64::MAX.to_bits()));
    assert!(!bits_equal(f64::NAN.to_bits(), 0.0_f64.to_bits()));
}

#[test]
fn numbers_of_both_kinds() {
    assert!(Json::new(10) == float(10.0));
    assert!(Json::new(10) != float(10.5));
    assert!(float(10.5) != Json::new(10));
    assert!(float(f64::NAN) == float(f64::NAN));
    assert!(float(-0.0) < float(0.0));
    assert!(float(-0.0) == float(0.0));
    assert!(Json::new(0) == float(-0.0));
    assert!(Json::new(0) > float(-0.0));
    assert!(Json::new(10) < float(10.5));
    assert!(float(10.5) > Json::new(10));
    assert!(Json::new(11) > float(10.5));
    assert!(Json::new(10) < float(f64::INFINITY));
    assert!(Json::new(10) > float(f64::NEG_INFINITY));
    assert!(Json::new(10) < float(f64::NAN));
    assert!(Json::new(i128::MAX) != float(i128::MAX as f64));
    // Next to a float an integer compares as the float nearest to it.
    let big = (1_i128 << 53) + 1;
    assert_eq!(Json::new(big).compare(&float(9007199254740992.0)), Some(Order::Equal));
    assert_eq!(Json::new(big).compare(&Json::new(1_i128 << 53)), Some(Order::Greater));
}

#[test]
fn numbers_without_a_value_do_not_compare() {
    let bad = Json::Integer(Integral::from_text("12three").unwrap());
    let unread = Json::Float(Floating::from_text("1.5", None));
    assert_eq!(bad.compare(&Json::new(1)), None);
    assert_eq!(Json::new(1).compare(&bad), None);
    assert_eq!(unread.compare(&float(1.5)), None);
    assert_eq!(bad.compare(&unread), None);
    assert!(!bad.equals(&bad));
    assert!(!unread.equals(&float(1.5)));
    assert_eq!(bad.truth(), None);
    assert_eq!(unread.truth(), None);
    // The type alone decides against a value of another type.
    assert_eq!(bad.compare(&Json::Null), Some(Order::Greater));
    assert_eq!(unread.compare(&Json::new("a")), Some(Order::Less));
    // An array is compared up to the first difference only.
    let a = Json::new(vec![Json::new(1), bad.duplicate()]);
    let b = Json::new(vec![Json::new(2), bad.duplicate()]);
    assert_eq!(a.compare(&b), Some(Order::Less));
    assert_eq!(a.compare(&a), None);
}

#[test]
fn deferred_and_computed_cells_are_the_same_number() {
    for text in ["10", "-10", "007", "0x1234", "-0xff", "+3"] {
        let deferred = parse(text).unwrap();
        assert!(matches!(deferred, Json::Integer(Integral::Text { .. })));
        let mut forced = deferred.duplicate();
        forced.compute().unwrap();
        assert!(matches!(forced, Json::Integer(Integral::Data { .. })));
        let native = Json::new(integer_of(text).unwrap());
        assert!(deferred == forced);
        assert!(forced == deferred);
        assert!(deferred == native);
        assert!(deferred == deferred);
        assert_eq!(deferred.compare(&forced), Some(Order::Equal));
        assert_eq!(deferred.compare(&native), Some(Order::Equal));
        assert_eq!(native.compare(&deferred), Some(Order::Equal));
    }
    for text in ["1.5", "-0.0", "1e10", ".5", "5.", "1E-3", "12312e10"] {
        let deferred = parsed(text);
        assert!(matches!(deferred, Json::Float(Floating::Text { .. })));
        let mut forced = deferred.duplicate();
        forced.compute().unwrap();
        assert!(matches!(forced, Json::Float(Floating::Data { .. })));
        let native = float(text.parse::<f64>().unwrap());
        assert!(deferred == forced);
        assert!(deferred == native);
        assert_eq!(deferred.compare(&forced), Some(Order::Equal));
        assert_eq!(native.compare(&deferred), Some(Order::Equal));
    }
}

fn corpus() -> Vec<Json> {
    vec![
        Json::minbound(),
        Json::Null,
        Json::new(false),
        Json::new(true),
        float(f64::NEG_INFINITY),
        Json::new(-7),
        float(-0.5),
        float(-0.0),
        Json::new(0),
        float(0.25),
        Json::new(1),
        parsed("2"),
        parsed("2.5"),
        Json::new(1_i128 << 53),
        float(1e300),
        float(f64::INFINITY),
        float(f64::NAN),
        Json::new(""),
        Json::new("a"),
        Json::new("ab"),
        Json::new("b"),
        Json::new("\u{e9}"),
        Json::new::<Vec<Json>>(vec![]),
        parsed("[1]"),
        parsed("[1, 0]"),
        parsed("[1, 2.5]"),
        parsed("[2]"),
        parsed("[[]]"),
        parsed("{}"),
        parsed("{\"a\": 1}"),
        parsed("{\"a\": 1, \"b\": 0}"),
        parsed("{\"a\": 2}"),
        parsed("{\"b\": 0}"),
        Json::__Error(Error::make(ErrorKind::AddFail, "ops", "x")),
        Json::maxbound(),
    ]
}

#[test]
fn order_is_total_antisymmetric_and_transitive_on_a_corpus() {
    let values = corpus();
    for (i, a) in values.iter().enumerate() {
        assert_eq!(Json::minbound().compare(a).unwrap() == Order::Less, i != 0);
        assert_eq!(a.compare(&Json::maxbound()).unwrap() == Order::Less, i != values.len() - 1);
        for (j, b) in values.iter().enumerate() {
            let ab = a.compare(b).unwrap();
            let ba = b.compare(a).unwrap();
            assert_eq!(ab, ba.reverse(), "{:?} {:?}", a, b);
            // The corpus is written in ascending order.
            if i < j {
                assert_ne!(ab, Order::Greater, "{:?} {:?}", a, b);
            }
            let count = [a < b, ab == Order::Equal, a > b].iter().filter(|x| **x).count();
            assert_eq!(count, 1);
            for c in values.iter() {
                let bc = b.compare(c).unwrap();
                let ac = a.compare(c).unwrap();
                if ab == Order::Less && bc == Order::Less {
                    assert_eq!(ac, Order::Less, "{:?} {:?} {:?}", a, b, c);
                }
                if ab != Order::Greater && bc != Order::Greater {
                    assert_ne!(ac, Order::Greater, "{:?} {:?} {:?}", a, b, c);
                }
            }
        }
    }
}

#[test]
fn order_is_not_transitive_beyond_exact_floats() {
    let big = 1_i128 << 53;
    let a = Json::new(vec![float(big as f64), Json::new(5)]);
    let b = Json::new(vec![Json::new(big), Json::new(7)]);
    let c = Json::new(vec![Json::new(big + 1), Json::new(0)]);
    assert_eq!(a.compare(&b), Some(Order::Less));
    assert_eq!(b.compare(&c), Some(Order::Less));
    assert_eq!(a.compare(&c), Some(Order::Greater));
}

#[test]
fn strings_are_ordered_by_code_point() {
    assert_eq!(str_order("", ""), Order::Equal);
    assert_eq!(str_order("", "a"), Order::Less);
    assert_eq!(str_order("a", ""), Order::Greater);
    assert_eq!(str_order("abc", "abd"), Order::Less);
    assert_eq!(str_order("abc", "ab"), Order::Greater);
    assert_eq!(str_order("Z", "a"), Order::Less);
    assert_eq!(str_order("z", "\u{e9}"), Order::Less);
    assert_eq!(str_order("\u{ffff}", "\u{10000}"), Order::Less);
    for (a, b) in [("a", "b"), ("\u{ff5e}", "\u{1f600}"), ("ab", "a"), ("", "x"), ("k", "k")] {
        let expected = match a.cmp(b) {
            std::cmp::Ordering::Less => Order::Less,
            std::cmp::Ordering::Equal => Order::Equal,
            std::cmp::Ordering::Greater => Order::Greater,
        };
        assert_eq!(str_order(a, b), expected);
    }
}

#[test]
fn decimal_numerals() {
    let mut out = String::from(">");
    push_decimal(&mut out, 0);
    push_decimal(&mut out, 7);
    push_decimal(&mut out, 10);
    push_decimal(&mut out, 1234567890);
    assert_eq!(out, ">07101234567890");
    for v in [0_i128, 1, -1, 42, -42, 1000, i128::MAX, i128::MIN, i128::MIN + 1] {
        let mut out = String::new();
        push_signed_decimal(&mut out, v);
        assert_eq!(out, v.to_string());
    }
    let mut out = String::new();
    push_decimal(&mut out, u128::MAX);
    assert_eq!(out, u128::MAX.to_string());
}

#[test]
fn positions() {
    let mut lex = Lex::new(0, 1, 1);
    assert_eq!(lex.format("expected null"), "expected null at offset:0 line:1 col:1");
    lex.incr_col(4);
    assert_eq!((lex.off, lex.row, lex.col), (4, 1, 5));
    assert_eq!(lex.format(""), " at offset:4 line:1 col:5");
    lex.step('\n');
    assert_eq!((lex.off, lex.row, lex.col), (5, 2, 1));
    lex.step('\u{e9}');
    assert_eq!((lex.off, lex.row, lex.col), (7, 2, 3));
    lex.step('\u{1d11e}');
    assert_eq!((lex.off, lex.row, lex.col), (11, 2, 7));
    let mut lex = Lex::new(usize::MAX - 1, usize::MAX, 3);
    lex.step('\u{e9}');
    lex.step('\n');
    assert_eq!((lex.off, lex.row, lex.col), (usize::MAX, usize::MAX, 1));
}

#[test]
fn parse_value_moves_the_position() {
    let mut lex = Lex::new(0, 1, 1);
    let value = parse_value(" \n  [1, \"\u{e9}\"] tail", &mut lex).unwrap();
    assert_eq!(value, Json::new(vec![Json::new(1), Json::new("\u{e9}")]));
    assert_eq!((lex.off, lex.row, lex.col), (13, 2, 12));

    let mut lex = Lex::new(100, 7, 9);
    let error = parse_value("\n\n  nul", &mut lex).unwrap_err();
    assert_eq!(error.kind(), ErrorKind::ParseFail);
    assert_eq!(error.message(), "expected null at offset:104 line:9 col:3");
    assert_eq!((lex.off, lex.row, lex.col), (100, 7, 9));
}

#[test]
fn parse_an_array_and_write_it_back() {
    let text = "[null,true,false,10,\"tru\\\"e\"]";
    let value = parse(text).unwrap();
    let items = value.to_array().unwrap();
    assert_eq!(items.len(), 5);
    assert!(items[0].is_null());
    assert_eq!(items[1].to_bool(), Some(true));
    assert_eq!(items[2].to_bool(), Some(false));
    assert_eq!(items[3].to_integer(), Some(10));
    assert_eq!(items[4].as_str(), Some("tru\"e"));
    assert_eq!(shown(&value), text);
}

#[test]
fn parse_failures() {
    for text in [
        "",
        "   ",
        "nul",
        "nulx",
        "tru",
        "fals",
        "Infinit",
        "-Infinit",
        "Na",
        "@",
        "\u{e9}",
        "]",
        "}",
        ":",
        ",",
        "[",
        "[,",
        "[,1]",
        "[1",
        "[1,",
        "[1 2",
        "[1,,2]",
        "{",
        "{,}",
        "{\"a\"",
        "{\"a\"}",
        "{\"a\":",
        "{\"a\":1",
        "{\"a\":1,",
        "{\"a\" 1}",
        "{1:2}",
        "{\"a\":}",
        "{-a:1}",
        "\"abc",
        "\"abc\\",
        "\"\\x\"",
        "\"\\u12\"",
        "\"\\u12g4\"",
        "\"\\u:000\"",
        "\"\\ud800\"",
        "\"\\ud800x\"",
        "\"\\ud800\\n\"",
        "\"\\ud800\\u0041\"",
        "\"\\ud800\\ud800\"",
        "\"\\udc00\"",
        "\"\\udfff\\ud800\"",
    ] {
        assert_eq!(kind_of(text), ErrorKind::ParseFail, "{:?}", text);
    }
}

#[test]
fn parse_accepts_what_the_grammar_allows() {
    assert_eq!(parse("null garbage").unwrap(), Json::Null);
    assert_eq!(parse("truefalse").unwrap(), Json::new(true));
    assert_eq!(parse("[1 2 3]").unwrap(), parse("[1,2,3]").unwrap());
    assert_eq!(parse("[1,2,3,]").unwrap(), parse("[1,2,3]").unwrap());
    assert_eq!(parse("{a:1 b:2}").unwrap(), parse("{\"a\":1,\"b\":2}").unwrap());
    assert_eq!(parse("{\"a\":1,}").unwrap(), parse("{\"a\":1}").unwrap());
    assert_eq!(parse("\u{2003}\u{3000}\u{85}7").unwrap(), Json::new(7));
    // Letters and numbers of any script make a key.
    let value = parse("{ \u{e9}t\u{e9}2: 1, \u{4e2d}\u{6587}: 2 }").unwrap();
    assert_eq!(*value.index_key("\u{e9}t\u{e9}2").unwrap(), Json::new(1));
    assert_eq!(*value.index_key("\u{4e2d}\u{6587}").unwrap(), Json::new(2));
    // A key ends where letters and numbers end.
    assert_eq!(kind_of("{ a-b: 1 }"), ErrorKind::ParseFail);
    assert_eq!(parse("{ a: 1 }").unwrap(), parse("{a:1}").unwrap());
}

#[test]
fn parse_keeps_numbers_as_written() {
    for text in ["1x2", "--5", "0x", "1e", "e", ".", "-", "+", "0xx", "1.2.3", "12e+-3"] {
        let value = parse(text).unwrap();
        match &value {
            Json::Integer(Integral::Text { text: t }) => {
                assert_eq!(t.iter().collect::<String>(), text)
            }
            Json::Float(Floating::Text { text: t, value: None }) => {
                assert_eq!(t.iter().collect::<String>(), text)
            }
            other => panic!("{:?}", other),
        }
        assert_eq!(shown(&value), text);
    }
    assert!(matches!(parse("0xe1").unwrap(), Json::Integer(_)));
    assert!(matches!(parse("1e1").unwrap(), Json::Float(_)));
    assert!(matches!(parse("1.0").unwrap(), Json::Float(_)));
    assert!(matches!(parse("1E5").unwrap(), Json::Float(_)));
    assert!(matches!(parse("-I").unwrap_err().kind(), ErrorKind::ParseFail));
    assert_eq!(parse("-1").unwrap(), Json::new(-1));
    assert_eq!(parse("12]").unwrap(), Json::new(12));
    assert_eq!(parse("12g").unwrap(), Json::new(12));
}

#[test]
fn hex_literal_and_malformed_float() {
    let mut value = parsed("0x1234");
    value.compute().unwrap();
    assert_eq!(value, Json::new(0x1234));
    assert!(matches!(value, Json::Integer(Integral::Data { value: 0x1234 })));

    let mut value = parsed(".1234.");
    assert_eq!(value.compute().unwrap_err().kind(), ErrorKind::InvalidNumber);
    match &value {
        Json::Float(cell) => assert_eq!(cell.float(), None),
        other => panic!("{:?}", other),
    }
    assert_eq!(value.to_float(), None);
}

#[test]
fn parse_named_floats() {
    assert_eq!(parse("Infinity").unwrap(), float(f64::INFINITY));
    assert_eq!(parse("-Infinity").unwrap(), float(f64::NEG_INFINITY));
    assert_eq!(parse("NaN").unwrap(), float(f64::NAN));
    assert_eq!(parse("NaN").unwrap().to_float(), Some(f64::NAN.to_bits()));
    assert!(matches!(parse("Infinity").unwrap(), Json::Float(Floating::Data { .. })));
}

#[test]
fn parse_strings() {
    assert_eq!(parse(r#""""#).unwrap(), Json::new(""));
    assert_eq!(
        parse(r#""a\"b\\c\/d\be\ff\ng\rh\ti""#).unwrap(),
        Json::new("a\"b\\c/d\u{8}e\u{c}f\ng\rh\ti")
    );
    assert_eq!(parse(r#""\u0041\u00e9\u4e2d\uFFFF""#).unwrap(), Json::new("A\u{e9}\u{4e2d}\u{ffff}"));
    assert_eq!(parse(r#""\ud834\udd1e""#).unwrap(), Json::new("\u{1d11e}"));
    assert_eq!(parse(r#""\ud800\udc00""#).unwrap(), Json::new("\u{10000}"));
    assert_eq!(parse(r#""\ud840\udc00""#).unwrap(), Json::new("\u{20000}"));
    assert_eq!(parse(r#""\udbff\udfff""#).unwrap(), Json::new("\u{10ffff}"));
    assert_eq!(parse("\"\u{e9}\u{1d11e} \t\"").unwrap(), Json::new("\u{e9}\u{1d11e} \t"));
    assert_eq!(parse(r#""hello\"  \r\t""#).unwrap(), Json::new("hello\"  \r\t"));
}

#[test]
fn objects_are_sorted_and_keys_are_unique() {
    let value = parse(r#"{"z":1,"a":2,"m":3,"a":4,"":5,"Z":6}"#).unwrap();
    let keys: Vec<String> =
        value.to_object().unwrap().iter().map(|p| p.as_key().to_string()).collect();
    assert_eq!(keys, vec!["", "Z", "a", "m", "z"]);
    assert_eq!(*value.index_key("a").unwrap(), Json::new(4));
    assert!(value.is_wf());

    let nested = parse(r#"[{"b":{"y":1,"x":2},"a":[{"2":0,"1":0}]}]"#).unwrap();
    assert!(nested.is_wf());
    assert_eq!(shown(&nested), r#"[{"a":[{"1":0,"2":0}],"b":{"x":2,"y":1}}]"#);

    let by_hand = Json::Object(vec![
        Property::new("b", Json::Null),
        Property::new("a", Json::Null),
    ]);
    assert!(!by_hand.is_wf());
    let twice = Json::Object(vec![
        Property::new("a", Json::Null),
        Property::new("a", Json::Null),
    ]);
    assert!(!twice.is_wf());
    assert!(!Json::new(vec![by_hand]).is_wf());
}

#[test]
fn properties_are_put_where_they_belong() {
    let mut props: Vec<Property> = Vec::new();
    for (key, value) in [("m", 1), ("a", 2), ("z", 3), ("m", 4), ("b", 5)] {
        upsert_object_key(&mut props, Property::new(key, Json::new(value)));
    }
    let keys: Vec<&str> = props.iter().map(|p| p.as_key()).collect();
    assert_eq!(keys, vec!["a", "b", "m", "z"]);
    assert_eq!(*props[2].as_value(), Json::new(4));
    assert_eq!(search(&props, "a"), Ok(0));
    assert_eq!(search(&props, "z"), Ok(3));
    assert_eq!(search(&props, ""), Err(0));
    assert_eq!(search(&props, "c"), Err(2));
    assert_eq!(search(&props, "zz"), Err(4));

    let mut object = Json::new::<Vec<Property>>(vec![]);
    jsondata::json::insert(&mut object, Property::new("k", Json::new(1)));
    jsondata::json::insert(&mut object, Property::new("c", Json::new(2)));
    jsondata::json::insert(&mut object, Property::new("k", Json::new(3)));
    assert_eq!(object, parse(r#"{"c":2,"k":3}"#).unwrap());
    let mut other = Json::new(1);
    jsondata::json::insert(&mut other, Property::new("k", Json::new(1)));
    assert_eq!(other, Json::new(1));

    let mut p = Property::new("key", Json::new(1));
    assert_eq!(p.as_key(), "key");
    p.set_key("other".to_string());
    p.set_value(Json::new(2));
    assert_eq!(p.as_key(), "other");
    assert_eq!(*p.as_value(), Json::new(2));
    assert_eq!(p.clone().into_key(), "other");
    assert_eq!(p.into_value(), Json::new(2));
}

#[test]
fn text_of_values() {
    assert_eq!(shown(&Json::Null), "null");
    assert_eq!(shown(&Json::new(true)), "true");
    assert_eq!(shown(&Json::new(false)), "false");
    assert_eq!(shown(&Json::new(-42)), "-42");
    assert_eq!(shown(&Json::new(i128::MIN)), i128::MIN.to_string());
    assert_eq!(shown(&parse("007").unwrap()), "007");
    assert_eq!(shown(&parse("+7").unwrap()), "+7");
    // A hexadecimal literal is written in decimal.
    assert_eq!(shown(&parse("0x1234").unwrap()), "4660");
    assert_eq!(shown(&parse("-0xff").unwrap()), "-255");
    assert_eq!(shown(&parse("0x-").unwrap()), "0x-");
    assert_eq!(shown(&parse("0xzz").unwrap()), "0x");
    assert_eq!(shown(&parsed("1.50")), "1.50");
    assert_eq!(shown(&float(1234.0)), "1.234e3");
    assert_eq!(shown(&float(0.5)), "5e-1");
    assert_eq!(shown(&Json::new("")), "\"\"");
    assert_eq!(shown(&Json::new::<Vec<Json>>(vec![])), "[]");
    assert_eq!(shown(&Json::new::<Vec<Property>>(vec![])), "{}");
    assert_eq!(shown(&parsed("[ 1 , [ ] , { } , \"a\" ]")), "[1,[],{},\"a\"]");
    assert_eq!(shown(&parsed("{ b : [1.5, 2] , a : null }")), "{\"a\":null,\"b\":[1.5,2]}");
    assert_eq!(shown(&Json::minbound()), "minbound");
    assert_eq!(shown(&Json::maxbound()), "maxbound");
    assert_eq!(
        shown(&Json::__Error(Error::make(ErrorKind::AddFail, "ops", "null + bool"))),
        "error: ops AddFail:null + bool"
    );
}

#[test]
fn text_needs_a_rendering_for_each_computed_float() {
    let mut value = parsed("[1.5, {\"a\": 2.5}, 3, 4.5]");
    assert_eq!(value.computed_floats(), Vec::<u64>::new());
    assert_eq!(value.to_text(&vec![]), Some("[1.5,{\"a\":2.5},3,4.5]".to_string()));
    value.compute().unwrap();
    assert_eq!(
        value.computed_floats(),
        vec![1.5_f64.to_bits(), 2.5_f64.to_bits(), 4.5_f64.to_bits()]
    );
    let renderings = vec!["A".to_string(), "B".to_string(), "C".to_string()];
    assert_eq!(value.to_text(&renderings), Some("[A,{\"a\":B},3,C]".to_string()));
    assert_eq!(value.to_text(&renderings[..2].to_vec()), None);
    assert_eq!(value.to_text(&vec![]), None);
    let more = vec!["A".to_string(), "B".to_string(), "C".to_string(), "D".to_string()];
    assert_eq!(value.to_text(&more), Some("[A,{\"a\":B},3,C]".to_string()));
}

#[test]
fn strings_are_escaped() {
    let mut out = String::new();
    encode_string(&mut out, "a\"b\\c/\u{8}\t\n\u{c}\r\u{0}\u{1}\u{b}\u{1f}\u{7f}\u{80}\u{e9}\u{1d11e} ");
    assert_eq!(
        out,
        "\"a\\\"b\\\\c/\\b\\t\\n\\f\\r\\u0000\\u0001\\u000b\\u001f\\u007f\u{80}\u{e9}\u{1d11e} \""
    );
    for code in 0..0x80_u32 {
        let c = char::from_u32(code).unwrap();
        let text = c.to_string();
        let mut out = String::new();
        encode_string(&mut out, &text);
        assert_eq!(parse(&out).unwrap(), Json::new(text.as_str()), "{:x}", code);
    }
}

#[test]
fn text_parses_back_to_the_value() {
    for text in [
        "null",
        "true",
        "[null,true,false,10,\"tru\\\"e\"]",
        r#"{"z":1.2,"a":[2,{"x":"y"},true],"c":[null],"d":true}"#,
        r#"[0x1234, -0xC0FFEE, 007, 1.0, 1e10, -0.0, 12312e10, 0.1234]"#,
        r#"{"k\"l": "\u0000\u001f\u007f\\ \/ \ud834\udd1e", "": [[[]]], " ": {}}"#,
        r#"[ [1, true, "three"], [4, "five", 0x6], ]"#,
        "[170141183460469231731687303715884105727, -170141183460469231731687303715884105728]",
    ] {
        let mut value = parsed(text);
        value.compute().unwrap();
        let mut again = parsed(&shown(&value));
        again.compute().unwrap();
        assert_eq!(again, value, "{}", text);
        assert_eq!(again.compare(&value), Some(Order::Equal));
        assert_eq!(shown(&again), shown(&value));
    }
}

#[test]
fn compute_stops_at_the_first_failure() {
    let mut value = parsed(r#"[1, {"a": 0x10, "b": 1x, "c": 3}, 4, 5.5]"#);
    assert_eq!(value.compute().unwrap_err().kind(), ErrorKind::InvalidNumber);
    assert_eq!(shown(&value), "[1,{\"a\":16,\"b\":1x,\"c\":3},4,5.5]");
    let items = value.to_array().unwrap();
    assert!(matches!(items[0], Json::Integer(Integral::Data { value: 1 })));
    assert!(matches!(items[2], Json::Integer(Integral::Text { .. })));
    assert!(matches!(items[3], Json::Float(Floating::Text { .. })));
    let inner = items[1].to_object().unwrap();
    assert!(matches!(inner[0].as_value(), Json::Integer(Integral::Data { value: 16 })));
    assert!(matches!(inner[1].as_value(), Json::Integer(Integral::Text { .. })));
    assert!(matches!(inner[2].as_value(), Json::Integer(Integral::Text { .. })));

    let mut value = parse("[1, 2.5]").unwrap();
    // The float literal has not been read.
    assert_eq!(value.validate().unwrap_err().kind(), ErrorKind::InvalidNumber);
    value.read_floats(&vec![read_float("2.5")]);
    assert_eq!(value.validate(), Ok(()));
    assert_eq!(value.validate(), Ok(()));
    assert_eq!(value, Json::new(vec![Json::new(1), float(2.5)]));
}

#[test]
fn float_literals_are_listed_in_the_order_of_the_text() {
    let mut value = parse(r#"{"b": [1.5, 2, {"y": 3.5, "x": 4.5}], "a": 5.5, "c": [6.5e1]}"#).unwrap();
    assert_eq!(value.float_literals(), vec!["5.5", "1.5", "4.5", "3.5", "6.5e1"]);
    value.read_floats(&vec![Some(1), None, Some(3)]);
    assert_eq!(value.float_literals(), vec!["5.5", "1.5", "4.5", "3.5", "6.5e1"]);
    assert_eq!(value.get("/a").unwrap().to_float(), Some(1));
    assert_eq!(value.get("/b/0").unwrap().to_float(), None);
    assert_eq!(value.get("/b/2/x").unwrap().to_float(), Some(3));
    assert_eq!(value.get("/b/2/y").unwrap().to_float(), None);
    value.read_floats(&vec![None, Some(2), Some(9), Some(4), Some(5), Some(6)]);
    assert_eq!(value.get("/a").unwrap().to_float(), None);
    assert_eq!(value.get("/b/0").unwrap().to_float(), Some(2));
    assert_eq!(value.get("/b/2/x").unwrap().to_float(), Some(9));
    assert_eq!(value.get("/b/2/y").unwrap().to_float(), Some(4));
    assert_eq!(value.get("/c/0").unwrap().to_float(), Some(5));
    value.read_floats(&vec![Some(8)]);
    assert_eq!(value.get("/a").unwrap().to_float(), Some(8));
}

#[test]
fn accessors() {
    let value = parsed(r#"{"a": [1, 2.5, "s", null, true], "e": 0x}"#);
    assert!(!value.is_null());
    assert!(!value.is_error());
    assert_eq!(value.to_bool(), None);
    assert_eq!(value.to_integer(), None);
    assert_eq!(value.to_float(), None);
    assert_eq!(value.as_str(), None);
    assert_eq!(value.to_array(), None);
    assert_eq!(value.to_error(), None);
    assert_eq!(value.to_object().unwrap().len(), 2);
    assert!(value.to_result().is_ok());
    assert_eq!(Json::new(1).to_result().unwrap(), &Json::new(1));
    assert_eq!(value.to_integer_result().unwrap_err().kind(), ErrorKind::InvalidType);
    assert_eq!(value.to_float_result().unwrap_err().kind(), ErrorKind::InvalidType);

    let items = value.get("/a").unwrap().to_array().unwrap();
    assert_eq!(items[0].to_integer(), Some(1));
    assert_eq!(items[0].to_integer_result().unwrap(), 1);
    assert_eq!(items[0].to_float(), Some(1.0_f64.to_bits()));
    assert_eq!(items[1].to_float(), Some(2.5_f64.to_bits()));
    assert_eq!(items[1].to_float_result().unwrap(), 2.5_f64.to_bits());
    assert_eq!(items[1].to_integer(), None);
    assert_eq!(items[2].as_str(), Some("s"));
    assert!(items[3].is_null());
    assert_eq!(items[4].to_bool(), Some(true));

    let bad = value.get("/e").unwrap();
    assert_eq!(bad.to_integer(), None);
    assert_eq!(bad.to_integer_result().unwrap_err().kind(), ErrorKind::InvalidNumber);

    let failure = Json::__Error(Error::make(ErrorKind::DivFail, "ops", "m"));
    assert!(failure.is_error());
    assert_eq!(failure.to_error().unwrap().kind(), ErrorKind::DivFail);
    assert_eq!(failure.to_result().unwrap_err().message(), "m");
    assert_eq!(failure.typename(), "error");
    assert_eq!(Json::minbound().typename(), "minbound");
    assert_eq!(Json::maxbound().typename(), "maxbound");
    assert_eq!(failure.truth(), Some(false));
    assert_eq!(Json::minbound().truth(), Some(true));
    assert_eq!(Json::maxbound().truth(), Some(true));
    assert_eq!(float(f64::NAN).truth(), Some(true));
    assert_eq!(float(-0.0).truth(), Some(false));
    assert_eq!(Json::default(), Json::Null);
    assert_eq!("[1]".parse::<Json>().unwrap(), Json::new(vec![Json::new(1)]));
}

#[test]
fn errors_render_on_one_line() {
    let error = Error::make(ErrorKind::ParseFail, "parse", "expected null at offset:0 line:1 col:1");
    assert_eq!(error.to_text(), "parse ParseFail:expected null at offset:0 line:1 col:1");
    assert_eq!(error.clone(), error);
    let kinds = [
        (ErrorKind::ParseFail, "ParseFail"),
        (ErrorKind::AddFail, "AddFail"),
        (ErrorKind::SubFail, "SubFail"),
        (ErrorKind::MulFail, "MulFail"),
        (ErrorKind::DivFail, "DivFail"),
        (ErrorKind::RemFail, "RemFail"),
        (ErrorKind::NegFail, "NegFail"),
        (ErrorKind::ShlFail, "ShlFail"),
        (ErrorKind::ShrFail, "ShrFail"),
        (ErrorKind::IndexOutofBound, "IndexOutofBound"),
        (ErrorKind::InvalidIndex, "InvalidIndex"),
        (ErrorKind::NotAnArray, "NotAnArray"),
        (ErrorKind::InvalidContainer, "InvalidContainer"),
        (ErrorKind::InvalidType, "InvalidType"),
        (ErrorKind::PropertyNotFound, "PropertyNotFound"),
        (ErrorKind::AppendString, "AppendString"),
        (ErrorKind::InvalidNumber, "InvalidNumber"),
        (ErrorKind::JptrFail, "JptrFail"),
        (ErrorKind::IoError, "IoError"),
    ];
    for (kind, name) in kinds {
        let error = Error::make(kind, "here", "why");
        assert_eq!(error.kind(), kind);
        assert_eq!(kind.name(), name);
        assert_eq!(error.origin(), "here");
        assert_eq!(error.message(), "why");
        assert_eq!(error.to_text(), format!("here {}:why", name));
    }
    assert_eq!(Error::IoError("a".to_string(), "b".to_string()).kind(), ErrorKind::IoError);
}

#[test]
fn offsets_from_either_end() {
    assert_eq!(normalized_offset(0, 3), Some(0));
    assert_eq!(normalized_offset(2, 3), Some(2));
    assert_eq!(normalized_offset(3, 3), None);
    assert_eq!(normalized_offset(-1, 3), Some(2));
    assert_eq!(normalized_offset(-3, 3), Some(0));
    assert_eq!(normalized_offset(-4, 3), None);
    assert_eq!(normalized_offset(0, 0), None);
    assert_eq!(normalized_offset(-1, 0), None);
    assert_eq!(normalized_offset(isize::MAX, 3), None);
    assert_eq!(normalized_offset(isize::MIN, 3), None);
    assert_eq!(normalized_offset(isize::MIN, usize::MAX), Some(isize::MAX as usize));
    assert_eq!(normalized_offset(-1, usize::MAX), Some(usize::MAX - 1));
}

#[test]
fn values_become_native_integers() {
    assert_eq!(u8::try_from(Json::new(255)).unwrap(), 255);
    assert_eq!(u8::try_from(Json::new(256)).unwrap_err().kind(), ErrorKind::InvalidNumber);
    assert_eq!(u8::try_from(Json::new(-1)).unwrap_err().kind(), ErrorKind::InvalidNumber);
    assert_eq!(u8::try_from(parse("0x10").unwrap()).unwrap(), 16);
    assert_eq!(u8::try_from(parse("1x").unwrap()).unwrap_err().kind(), ErrorKind::InvalidType);
    assert_eq!(u8::try_from(Json::new("1")).unwrap_err().kind(), ErrorKind::InvalidType);
    assert_eq!(u8::try_from(float(1.0)).unwrap_err().kind(), ErrorKind::InvalidType);
    assert_eq!(i8::try_from(Json::new(-128)).unwrap(), -128);
    assert_eq!(i8::try_from(Json::new(128)).unwrap_err().kind(), ErrorKind::InvalidNumber);
    assert_eq!(u16::try_from(Json::new(65535)).unwrap(), 65535);
    assert_eq!(i16::try_from(Json::new(-32769)).unwrap_err().kind(), ErrorKind::InvalidNumber);
    assert_eq!(u32::try_from(Json::new(u32::MAX)).unwrap(), u32::MAX);
    assert_eq!(i32::try_from(Json::new(i32::MIN)).unwrap(), i32::MIN);
    assert_eq!(u64::try_from(Json::new(u64::MAX)).unwrap(), u64::MAX);
    assert_eq!(i64::try_from(Json::new(i64::MIN)).unwrap(), i64::MIN);
    assert_eq!(i64::try_from(Json::new(u64::MAX)).unwrap_err().kind(), ErrorKind::InvalidNumber);
    assert_eq!(usize::try_from(Json::new(7)).unwrap(), 7);
    assert_eq!(isize::try_from(Json::new(-7)).unwrap(), -7);
    assert_eq!(u128::try_from(Json::new(i128::MAX)).unwrap(), i128::MAX as u128);
    assert_eq!(u128::try_from(Json::new(-1)).unwrap_err().kind(), ErrorKind::InvalidNumber);
    assert_eq!(i128::try_from(Json::new(i128::MIN)).unwrap(), i128::MIN);
    assert_eq!(Json::new(5).integer_in(5, 5).unwrap(), 5);
    assert_eq!(Json::new(5).integer_in(6, 5).unwrap_err().kind(), ErrorKind::InvalidNumber);

    assert_eq!(String::try_from(Json::new("text")).unwrap(), "text");
    assert_eq!(String::try_from(Json::Null).unwrap_err().kind(), ErrorKind::InvalidType);
    let props = Vec::<Property>::try_from(parse("{\"b\":1,\"a\":2}").unwrap()).unwrap();
    assert_eq!(props, vec![Property::new("a", Json::new(2)), Property::new("b", Json::new(1))]);
    assert_eq!(Vec::<Property>::try_from(Json::new(1)).unwrap_err().kind(), ErrorKind::InvalidType);
    assert_eq!(Vec::<Json>::try_from(parse("[1,2]").unwrap()).unwrap(), vec![Json::new(1), Json::new(2)]);
    assert_eq!(Vec::<Json>::try_from(Json::new(1)).unwrap_err().kind(), ErrorKind::InvalidType);
}

#[test]
fn cells_compare_by_their_numbers() {
    let text = |t: &str| Integral::from_text(t).unwrap();
    assert!(text("0x10").equals(&Integral::new(16)));
    assert!(Integral::new(16).equals(&text("16")));
    assert!(text("016").equals(&text("+16")));
    assert!(!text("16").equals(&text("17")));
    assert!(!text("x").equals(&text("x")));
    assert_eq!(text("9").compare(&text("10")), Some(Order::Less));
    assert_eq!(Integral::new(-1).compare(&text("-0x1")), Some(Order::Equal));
    assert_eq!(text("7").compare(&Integral::new(-7)), Some(Order::Greater));
    assert_eq!(text("x").compare(&Integral::new(1)), None);
    assert_eq!(Integral::new(1).compare(&text("")), None);

    let cell = |v: f64| Floating::new(v.to_bits());
    let read = |t: &str| Floating::from_text(t, read_float(t));
    assert!(read("1.50").equals(&cell(1.5)));
    assert!(cell(0.0).equals(&read("-0.0")));
    assert!(!cell(f64::NAN).equals(&cell(f64::NAN)));
    assert!(!read("1.5").equals(&read("bad")));
    assert!(!Floating::from_text("1.5", None).equals(&cell(1.5)));
    assert_eq!(read("bad").compare(&cell(1.0)), None);
    let samples = [
        -f64::NAN,
        f64::NEG_INFINITY,
        -1.5,
        -0.0,
        0.0,
        5e-324,
        1.5,
        f64::INFINITY,
        f64::NAN,
    ];
    for a in samples {
        for b in samples {
            let expected = match a.total_cmp(&b) {
                std::cmp::Ordering::Less => Order::Less,
                std::cmp::Ordering::Equal => Order::Equal,
                std::cmp::Ordering::Greater => Order::Greater,
            };
            assert_eq!(cell(a).compare(&cell(b)), Some(expected), "{} {}", a, b);
            assert_eq!(cell(a).equals(&cell(b)), a == b, "{} {}", a, b);
        }
    }
}

#[test]
fn properties_hand_out_their_value() {
    let mut p = Property::new("k", Json::new(1));
    *p.as_mut_value() = Json::new(2);
    assert_eq!(*p.as_value(), Json::new(2));
    p.as_mut_value().set("", Json::Null).unwrap();
    assert_eq!(p, Property::new("k", Json::new(2)));
}
