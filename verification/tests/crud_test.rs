use jsondata::crud::place_of_text;
use jsondata::jptr::{fix_prefix, fragments, quote, unquote};
use jsondata::ops::{index_of_text, Bound, Calc, FloatOp, Logic};
use jsondata::parse::parse;
use jsondata::{Error, ErrorKind, Floating, Integral, Json, Property};

fn float(v: f64) -> Json {
    Json::from_float_bits(v.to_bits())
}

fn doc() -> Json {
    parse(r#"{"foo": ["bar", "baz"], "a/b": 1, "m~n": 8, "d": {"key1": [10, 20]}, "s": "text"}"#)
        .unwrap()
}

fn failed(calc: Calc) -> ErrorKind {
    match calc {
        Calc::Done(value) => value.to_error().unwrap().kind(),
        other => panic!("{:?}", other),
    }
}

#[test]
fn pointer_fragments_round_trip() {
    let mut samples: Vec<String> = vec![
        "".to_string(),
        "plain".to_string(),
        "~".to_string(),
        "/".to_string(),
        "~0~1".to_string(),
        "\\".to_string(),
        "\"".to_string(),
        "a~b/c\\d\"e".to_string(),
        "~~//\\\\\"\"".to_string(),
        "\u{e9}\u{1d11e}".to_string(),
    ];
    for code in 0..0x20_u32 {
        samples.push(format!("x{}y", char::from_u32(code).unwrap()));
    }
    for f in samples {
        assert_eq!(unquote(&quote(&f)).unwrap(), f, "{:?}", f);
    }
    assert_eq!(quote("a/b~c\"d\\e\nf"), "a~1b~0c\\\"d\\\\e\\\nf");
    assert_eq!(unquote("~1~0\\x\\~").unwrap(), "/~x~");
    assert_eq!(unquote("trailing\\").unwrap(), "trailing");
    assert_eq!(unquote("trailing~").unwrap(), "trailing");
    assert_eq!(unquote("a~2b").unwrap_err(), "jptr: invalid tilde escape 2");
    assert_eq!(unquote("~~").unwrap_err(), "jptr: invalid tilde escape ~");
}

#[test]
fn pointer_paths_are_split_at_slashes() {
    let ok = |frags: &[&str], last: &str| {
        Ok((frags.iter().map(|s| s.to_string()).collect::<Vec<String>>(), last.to_string()))
    };
    assert_eq!(fragments(""), ok(&[], ""));
    assert_eq!(fragments("a"), ok(&[], "a"));
    assert_eq!(fragments("a/b/c"), ok(&["a", "b"], "c"));
    assert_eq!(fragments("a//c/"), ok(&["a", "", "c"], ""));
    assert_eq!(fragments("a~1b/m~0n"), ok(&["a/b"], "m~n"));
    assert_eq!(fragments("a\\/b/c\\"), ok(&["a/b"], "c"));
    assert_eq!(fragments("a/b~"), ok(&["a"], "b"));
    assert_eq!(fragments("a~x/b").unwrap_err(), "jptr: invalid tilde escape x");

    assert_eq!(fix_prefix("/a/b"), Ok("a/b"));
    assert_eq!(fix_prefix("/"), Ok(""));
    assert_eq!(fix_prefix("/\u{e9}"), Ok("\u{e9}"));
    assert!(fix_prefix("a/b").is_err());
    assert!(fix_prefix("").is_err());
    assert!(fix_prefix("\u{e9}/").is_err());
}

#[test]
fn fragments_as_indexes() {
    assert_eq!(index_of_text("0"), Some(0));
    assert_eq!(index_of_text("-1"), Some(-1));
    assert_eq!(index_of_text("+12"), Some(12));
    assert_eq!(index_of_text("007"), Some(7));
    assert_eq!(index_of_text(""), None);
    assert_eq!(index_of_text("1.0"), None);
    assert_eq!(index_of_text("0x10"), None);
    assert_eq!(index_of_text("99999999999999999999"), None);
    for text in ["0", "-0", "+5", "12", "-12", "x", "", "9223372036854775807", "9223372036854775808"] {
        assert_eq!(index_of_text(text), text.parse::<isize>().ok(), "{}", text);
        assert_eq!(place_of_text(text), text.parse::<usize>().ok(), "{}", text);
    }
    assert_eq!(place_of_text("18446744073709551615"), "18446744073709551615".parse::<usize>().ok());
    assert_eq!(place_of_text("18446744073709551616"), None);
}

#[test]
fn get_follows_a_path() {
    let json = doc();
    assert_eq!(json.get("").unwrap(), json);
    assert_eq!(json.get("/a~1b").unwrap(), Json::new(1));
    assert!(matches!(json.get("/a~1b").unwrap(), Json::Integer(_)));
    assert_eq!(json.get("/m~0n").unwrap(), Json::new(8));
    assert_eq!(json.get("/foo/1").unwrap(), Json::new("baz"));
    assert_eq!(json.get("/foo/-1").unwrap(), Json::new("baz"));
    assert_eq!(json.get("/foo/-2").unwrap(), Json::new("bar"));
    assert_eq!(json.get("/d/key1/0").unwrap(), Json::new(10));
    assert_eq!(json.get("/d").unwrap(), parse(r#"{"key1": [10, 20]}"#).unwrap());

    assert_eq!(json.get("foo").unwrap_err().kind(), ErrorKind::JptrFail);
    assert_eq!(json.get("/a~2b").unwrap_err().kind(), ErrorKind::JptrFail);
    assert_eq!(json.get("/nope").unwrap_err().kind(), ErrorKind::PropertyNotFound);
    assert_eq!(json.get("/nope/deeper").unwrap_err().kind(), ErrorKind::PropertyNotFound);
    assert_eq!(json.get("/foo/2").unwrap_err().kind(), ErrorKind::IndexOutofBound);
    assert_eq!(json.get("/foo/-3").unwrap_err().kind(), ErrorKind::IndexOutofBound);
    assert_eq!(json.get("/foo/x").unwrap_err().kind(), ErrorKind::InvalidIndex);
    assert_eq!(json.get("/foo/").unwrap_err().kind(), ErrorKind::InvalidIndex);
    assert_eq!(json.get("/s/0").unwrap_err().kind(), ErrorKind::InvalidContainer);
    assert_eq!(json.get("/a~1b/x/y").unwrap_err().kind(), ErrorKind::InvalidContainer);

    let carried = Error::make(ErrorKind::DivFail, "ops", "x");
    let holder = Json::new(vec![Property::new("e", Json::__Error(carried.clone()))]);
    assert_eq!(holder.get("/e").unwrap_err(), carried);
    assert_eq!(holder.get("/e/deeper").unwrap_err(), carried);
}

#[test]
fn set_replaces_an_item_in_place() {
    let mut json = parse(r#"{"foo":["bar","baz"]}"#).unwrap();
    json.set("/foo/0", Json::new(10)).unwrap();
    assert_eq!(json, parse(r#"{"foo":[10,"baz"]}"#).unwrap());
    assert_eq!(json.get("/foo/0").unwrap(), Json::new(10));
    assert!(matches!(json.get("/foo/0").unwrap(), Json::Integer(_)));
}

#[test]
fn set_puts_and_replaces() {
    let mut json = doc();
    json.set("", Json::Null).unwrap();
    assert_eq!(json, doc());
    json.set("/new", Json::new(1)).unwrap();
    json.set("/a~1b", Json::new("now")).unwrap();
    json.set("/d/key1/1", Json::Null).unwrap();
    json.set("/d/key0", Json::new(true)).unwrap();
    json.set("/", Json::new(0)).unwrap();
    assert_eq!(
        json,
        parse(
            r#"{"": 0, "a/b": "now", "d": {"key0": true, "key1": [10, null]},
                "foo": ["bar", "baz"], "m~n": 8, "new": 1, "s": "text"}"#
        )
        .unwrap()
    );
    assert!(json.is_wf());

    let before = json.duplicate();
    assert_eq!(json.set("x", Json::Null).unwrap_err().kind(), ErrorKind::JptrFail);
    assert_eq!(json.set("/foo/2", Json::Null).unwrap_err().kind(), ErrorKind::IndexOutofBound);
    assert_eq!(json.set("/foo/-1", Json::Null).unwrap_err().kind(), ErrorKind::InvalidIndex);
    assert_eq!(json.set("/foo/x", Json::Null).unwrap_err().kind(), ErrorKind::InvalidIndex);
    assert_eq!(json.set("/s/x", Json::Null).unwrap_err().kind(), ErrorKind::InvalidContainer);
    assert_eq!(json.set("/nope/x", Json::Null).unwrap_err().kind(), ErrorKind::PropertyNotFound);
    assert_eq!(json.set("/foo/9/x", Json::Null).unwrap_err().kind(), ErrorKind::IndexOutofBound);
    assert_eq!(json.set("/s/x/y", Json::Null).unwrap_err().kind(), ErrorKind::InvalidContainer);
    assert_eq!(json, before);
}

#[test]
fn delete_takes_out() {
    let mut json = doc();
    json.delete("").unwrap();
    assert_eq!(json, doc());
    json.delete("/foo/0").unwrap();
    json.delete("/a~1b").unwrap();
    json.delete("/d/key1/1").unwrap();
    json.delete("/s").unwrap();
    assert_eq!(json, parse(r#"{"d": {"key1": [10]}, "foo": ["baz"], "m~n": 8}"#).unwrap());
    assert!(json.is_wf());

    let before = json.duplicate();
    assert_eq!(json.delete("x").unwrap_err().kind(), ErrorKind::JptrFail);
    assert_eq!(json.delete("/nope").unwrap_err().kind(), ErrorKind::PropertyNotFound);
    assert_eq!(json.delete("/foo/1").unwrap_err().kind(), ErrorKind::IndexOutofBound);
    assert_eq!(json.delete("/foo/-1").unwrap_err().kind(), ErrorKind::InvalidIndex);
    assert_eq!(json.delete("/m~0n/x").unwrap_err().kind(), ErrorKind::InvalidContainer);
    assert_eq!(json, before);
}

#[test]
fn append_joins_and_adds() {
    let mut json = doc();
    json.append("", Json::Null).unwrap();
    assert_eq!(json, doc());
    json.append("/foo", Json::new("goz")).unwrap();
    json.append("/foo/0", Json::new("jek")).unwrap();
    json.append("/s", Json::new("ual")).unwrap();
    json.append("/d/key1", Json::new("workd")).unwrap();
    json.append("/foo/-1", Json::new("!")).unwrap();
    assert_eq!(
        json,
        parse(
            r#"{"foo": ["barjek", "baz", "goz!"], "a/b": 1, "m~n": 8,
                "d": {"key1": [10, 20, "workd"]}, "s": "textual"}"#
        )
        .unwrap()
    );
    assert!(json.is_wf());

    let before = json.duplicate();
    assert_eq!(json.append("x", Json::Null).unwrap_err().kind(), ErrorKind::JptrFail);
    assert_eq!(json.append("/s", Json::new(1)).unwrap_err().kind(), ErrorKind::AppendString);
    assert_eq!(json.append("/a~1b", Json::new(1)).unwrap_err().kind(), ErrorKind::InvalidContainer);
    assert_eq!(json.append("/d", Json::new(1)).unwrap_err().kind(), ErrorKind::InvalidContainer);
    assert_eq!(json.append("/nope", Json::new(1)).unwrap_err().kind(), ErrorKind::PropertyNotFound);
    assert_eq!(json.append("/foo/7", Json::new(1)).unwrap_err().kind(), ErrorKind::IndexOutofBound);
    assert_eq!(json.append("/foo/x", Json::new(1)).unwrap_err().kind(), ErrorKind::InvalidIndex);
    assert_eq!(json, before);
}

#[test]
fn arithmetic_failures() {
    let bad = || Json::Integer(Integral::from_text("1x").unwrap());
    let unread = || Json::Float(Floating::from_text("1.5", None));
    assert_eq!(failed(Json::new(true).add(Json::new(1))), ErrorKind::AddFail);
    assert_eq!(failed(Json::new("a").add(Json::new(1))), ErrorKind::AddFail);
    assert_eq!(failed(Json::new(i128::MAX).add(Json::new(1))), ErrorKind::AddFail);
    assert_eq!(failed(bad().add(Json::new(1))), ErrorKind::InvalidNumber);
    assert_eq!(failed(unread().add(Json::new(1))), ErrorKind::InvalidNumber);
    assert_eq!(failed(Json::new("a").sub(Json::new("b"))), ErrorKind::SubFail);
    assert_eq!(failed(Json::new(i128::MIN).sub(Json::new(1))), ErrorKind::SubFail);
    assert_eq!(failed(Json::new(true).mul(Json::new(true))), ErrorKind::MulFail);
    assert_eq!(failed(Json::new(i128::MAX).mul(Json::new(2))), ErrorKind::MulFail);
    assert_eq!(failed(Json::new("a").mul(bad())), ErrorKind::InvalidNumber);
    assert_eq!(failed(Json::new("a").div(Json::new("b"))), ErrorKind::DivFail);
    assert_eq!(failed(Json::new(i128::MIN).div(Json::new(-1))), ErrorKind::DivFail);
    assert_eq!(failed(Json::new(i128::MIN).rem(Json::new(-1))), ErrorKind::RemFail);
    assert_eq!(failed(Json::new(true).rem(Json::new(2))), ErrorKind::RemFail);
    assert_eq!(Json::new(true).neg().to_error().unwrap().kind(), ErrorKind::NegFail);
    assert_eq!(Json::new(i128::MIN).neg().to_error().unwrap().kind(), ErrorKind::NegFail);
    assert_eq!(bad().neg().to_error().unwrap().kind(), ErrorKind::InvalidNumber);
    assert_eq!(Json::new(1).shl(Json::new(128)).to_error().unwrap().kind(), ErrorKind::ShlFail);
    assert_eq!(Json::new(1).shl(Json::new(-1)).to_error().unwrap().kind(), ErrorKind::ShlFail);
    assert_eq!(Json::new(1).shl(float(1.0)).to_error().unwrap().kind(), ErrorKind::ShlFail);
    assert_eq!(Json::new(1).shr(Json::new(128)).to_error().unwrap().kind(), ErrorKind::ShrFail);
    assert_eq!(Json::Null.shr(Json::new(1)).to_error().unwrap().kind(), ErrorKind::ShrFail);
}

#[test]
fn arithmetic_on_integers() {
    let done = |calc: Calc| match calc {
        Calc::Done(value) => value,
        other => panic!("{:?}", other),
    };
    assert_eq!(done(Json::new(7).div(Json::new(2))), Json::new(3));
    assert_eq!(done(Json::new(-7).div(Json::new(2))), Json::new(-3));
    assert_eq!(done(Json::new(7).div(Json::new(-2))), Json::new(-3));
    assert_eq!(done(Json::new(-7).div(Json::new(-2))), Json::new(3));
    assert_eq!(done(Json::new(7).rem(Json::new(2))), Json::new(1));
    assert_eq!(done(Json::new(-7).rem(Json::new(2))), Json::new(-1));
    assert_eq!(done(Json::new(7).rem(Json::new(-2))), Json::new(1));
    assert_eq!(done(Json::new(-7).rem(Json::new(-2))), Json::new(-1));
    assert_eq!(done(Json::new(7).div(Json::new(0))), Json::Null);
    assert_eq!(done(Json::new(7).rem(Json::new(0))), Json::Null);
    assert_eq!(done(float(7.0).div(float(-0.0))), Json::Null);
    assert_eq!(done(Json::new(7).div(float(0.0))), Json::Null);
    assert_eq!(done(float(7.0).rem(Json::new(0))), Json::Null);
    assert_eq!(done(parse("0x10").unwrap().add(parse("6").unwrap())), Json::new(22));
    assert_eq!(done(Json::new("ab").mul(Json::new(-2))), Json::Null);
    assert_eq!(done(Json::new("").mul(Json::new(3))), Json::new(""));
    for (x, n) in [(1_i128, 0_i128), (3, 5), (-3, 5), (-1, 127), (i128::MAX, 1), (i128::MIN, 1), (5, 126)] {
        assert_eq!(Json::new(x).shl(Json::new(n)), Json::new(x << n), "{} {}", x, n);
        assert_eq!(Json::new(x).shr(Json::new(n)), Json::new(x >> n), "{} {}", x, n);
    }
}

#[test]
fn arithmetic_asks_for_float_operations() {
    let one = 1.5_f64.to_bits();
    let two = 2.0_f64.to_bits();
    assert!(matches!(float(1.5).add(float(2.0)), Calc::Float(FloatOp::Add, a, b) if a == one && b == two));
    assert!(matches!(float(1.5).sub(Json::new(2)), Calc::Float(FloatOp::Sub, a, b) if a == one && b == two));
    assert!(matches!(Json::new(2).mul(float(1.5)), Calc::Float(FloatOp::Mul, a, b) if a == two && b == one));
    assert!(matches!(float(1.5).div(float(2.0)), Calc::Float(FloatOp::Div, a, b) if a == one && b == two));
    assert!(matches!(float(1.5).rem(Json::new(2)), Calc::Float(FloatOp::Rem, a, b) if a == one && b == two));
    assert_eq!(float(1.5).neg(), float(-1.5));
    assert_eq!(float(0.0).neg().to_float(), Some((-0.0_f64).to_bits()));
    assert_eq!(float(f64::NEG_INFINITY).neg(), float(f64::INFINITY));
}

#[test]
fn objects_are_merged() {
    let done = |calc: Calc| match calc {
        Calc::Done(value) => value,
        other => panic!("{:?}", other),
    };
    let a = parse(r#"{"k": {"x": 1, "y": {"p": 1}}, "only_a": 1, "both": 1}"#).unwrap();
    let b = parse(r#"{"k": {"y": {"q": 2}, "z": 3}, "only_b": 2, "both": [2]}"#).unwrap();
    let merged = done(a.duplicate().mul(b.duplicate()));
    assert_eq!(
        merged,
        parse(
            r#"{"both": [2], "k": {"x": 1, "y": {"p": 1, "q": 2}, "z": 3},
                "only_a": 1, "only_b": 2}"#
        )
        .unwrap()
    );
    assert!(merged.is_wf());
    let unsorted = Json::Object(vec![Property::new("b", Json::Null), Property::new("a", Json::Null)]);
    assert_eq!(failed(unsorted.mul(b)), ErrorKind::MulFail);

    let sum = done(a.duplicate().add(parse(r#"{"k": 0, "z": 1}"#).unwrap()));
    assert_eq!(sum, parse(r#"{"both": 1, "k": 0, "only_a": 1, "z": 1}"#).unwrap());
    let difference = done(a.sub(parse(r#"{"both": 1, "only_a": 2}"#).unwrap()));
    assert_eq!(difference, parse(r#"{"k": {"x": 1, "y": {"p": 1}}, "only_a": 1}"#).unwrap());
}

#[test]
fn logic_on_values() {
    let carried = || Json::__Error(Error::make(ErrorKind::AddFail, "ops", "x"));
    let other = || Json::__Error(Error::make(ErrorKind::SubFail, "ops", "y"));
    assert_eq!(carried().bitand(other()).to_error().unwrap().kind(), ErrorKind::AddFail);
    assert_eq!(Json::new(1).bitor(other()).to_error().unwrap().kind(), ErrorKind::SubFail);
    assert_eq!(carried().not().to_error().unwrap().kind(), ErrorKind::AddFail);
    assert_eq!(Json::new(-1).bitand(Json::new(0xF0)), Json::new(0xF0));
    assert_eq!(Json::new(-1).bitxor(Json::new(0)), Json::new(-1));
    assert_eq!(Json::new(i128::MIN).bitor(Json::new(i128::MAX)), Json::new(-1));
    assert_eq!(Json::new(1).bitand(float(0.0)), Json::new(false));
    assert_eq!(Json::new("x").bitand(Json::new(vec![Json::Null])), Json::new(true));
    assert_eq!(Json::new("").bitor(Json::Null), Json::new(false));
    assert_eq!(Json::new("x").logic(Logic::Xor, Json::new(0)), Json::new(true));
    assert_eq!(Json::Null.not(), Json::new(true));
    assert_eq!(Json::new(3).not(), Json::new(false));
    let bad = Json::Integer(Integral::from_text("1x").unwrap());
    assert_eq!(bad.duplicate().not().to_error().unwrap().kind(), ErrorKind::InvalidNumber);
    assert_eq!(bad.duplicate().bitand(Json::new(1)).to_error().unwrap().kind(), ErrorKind::InvalidNumber);
    assert_eq!(bad.bitor(Json::new(true)).to_error().unwrap().kind(), ErrorKind::InvalidNumber);
}

#[test]
fn indexing_and_ranges_fail_as_values() {
    let array = parse("[1, 2, 3]").unwrap();
    assert_eq!(array.index(3).unwrap_err().kind(), ErrorKind::IndexOutofBound);
    assert_eq!(Json::new(1).index(0).unwrap_err().kind(), ErrorKind::NotAnArray);
    assert_eq!(array.index_key("1").unwrap(), &Json::new(2));
    assert_eq!(array.index_key("-1").unwrap(), &Json::new(3));
    assert_eq!(array.index_key("x").unwrap_err().kind(), ErrorKind::InvalidIndex);
    assert_eq!(array.index_key("3").unwrap_err().kind(), ErrorKind::IndexOutofBound);
    assert_eq!(Json::new(1).index_key("a").unwrap_err().kind(), ErrorKind::InvalidContainer);
    let carried = Error::make(ErrorKind::AddFail, "ops", "x");
    assert_eq!(Json::__Error(carried.clone()).index(0).unwrap_err(), carried);
    assert_eq!(Json::__Error(carried.clone()).index_key("a").unwrap_err(), carried);

    let kind = |v: Json| v.to_error().unwrap().kind();
    assert_eq!(array.range(Bound::Excluded(0), Bound::Unbounded), parse("[2, 3]").unwrap());
    assert_eq!(array.range(Bound::Included(-2), Bound::Excluded(-1)), parse("[2]").unwrap());
    assert_eq!(array.range(Bound::Included(1), Bound::Excluded(1)), parse("[]").unwrap());
    assert_eq!(kind(array.range(Bound::Included(3), Bound::Unbounded)), ErrorKind::IndexOutofBound);
    assert_eq!(kind(array.range(Bound::Unbounded, Bound::Excluded(3))), ErrorKind::IndexOutofBound);
    assert_eq!(kind(array.range(Bound::Unbounded, Bound::Included(2))), ErrorKind::IndexOutofBound);
    assert_eq!(kind(array.range(Bound::Included(2), Bound::Excluded(1))), ErrorKind::IndexOutofBound);
    assert_eq!(kind(array.range(Bound::Excluded(isize::MAX), Bound::Unbounded)), ErrorKind::IndexOutofBound);
    assert_eq!(kind(Json::new(1).range(Bound::Unbounded, Bound::Unbounded)), ErrorKind::NotAnArray);
    assert_eq!(kind(Json::__Error(carried).range(Bound::Unbounded, Bound::Unbounded)), ErrorKind::AddFail);
}
