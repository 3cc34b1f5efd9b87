use jsondata::parse::parse;
use jsondata::{Floating, Integral, Json, Property};

fn read_float(text: &str) -> Option<u64> {
    text.parse::<f64>().ok().map(f64::to_bits)
}

/// Parses a text and reads its float literals, as a program with floating
/// point at hand does.
fn parsed(text: &str) -> Json {
    let mut value = parse(text).unwrap();
    let readings: Vec<Option<u64>> =
        value.float_literals().iter().map(|t| read_float(t)).collect();
    value.read_floats(&readings);
    value
}

fn float(v: f64) -> Json {
    Json::from_float_bits(v.to_bits())
}

fn deferred_float(text: &str) -> Json {
    Json::Float(Floating::from_text(text, read_float(text)))
}

#[test]
fn test_json_constructor() {
    assert_eq!(Json::new(10), Json::Integer(Integral::from_text("10").unwrap()));
}

#[test]
fn test_convert() {
    let js: Json = true.into();
    assert_eq!(js, Json::Bool(true));

    let js: Json = 1024.into();
    assert_eq!(js, Json::Integer(Integral::new(1024)));

    let js: Json = float(1024.2);
    assert_eq!(js, Json::Float(Floating::new(1024.2_f64.to_bits())));

    let js: Json = "hello world".to_string().into();
    assert_eq!(js, Json::String("hello world".to_string()));

    let js: Json = 10_usize.into();
    assert_eq!(js, Json::Integer(Integral::new(10)));

    let js: Json = 10_u64.into();
    assert_eq!(js, Json::Integer(Integral::new(10)));

    let js: Json = 10_i32.into();
    assert_eq!(js, Json::Integer(Integral::new(10)));
}

#[test]
fn test_deferred() {
    let inp = r#" [10123.1231, 1231.123123, 1233.123123, 123.1231231, 12312e10]"#;
    let value: Json = parsed(inp);
    let refval = Json::Array(vec![
        deferred_float("10123.1231"),
        deferred_float("1231.123123"),
        deferred_float("1233.123123"),
        deferred_float("123.1231231"),
        deferred_float("12312e10"),
    ]);
    assert_eq!(value, refval);
}

#[test]
fn test_validate_sorted() {
    let json = r#"{"z":1.2,"a":[2, {"x":"y"}, true],"c":[null],"d":true}"#;
    let mut value: Json = parsed(json);

    assert_eq!(value.validate(), Ok(()));

    let mut props: Vec<Property> = Vec::new();
    let prop = vec![Property::new("x", Json::new("y"))];
    props.push(Property::new(
        "a",
        Json::new(vec![Json::new(2), Json::new(prop), Json::new(true)]),
    ));
    props.push(Property::new("c", Json::new(vec![Json::Null])));
    props.push(Property::new("d", Json::new(true)));
    // A float equals an integer only where it is that integer.
    props.push(Property::new("z", float(1.2)));

    assert_eq!(value, Json::new(props));
    let keys: Vec<String> =
        value.to_object().unwrap().iter().map(|p| p.as_key().to_string()).collect();
    assert_eq!(keys, vec!["a", "c", "d", "z"]);
    assert!(value.is_wf());

    let json = r#"true"#;
    let mut value: Json = parsed(json);
    assert_eq!(value.validate(), Ok(()));
    assert_eq!(value, Json::new(true));
}

#[test]
fn test_compute() {
    let json = r#"{"z":1,"a":[2, {"x":"y"}, true],"c":[null],"d":3}"#;
    let mut value: Json = parsed(json);

    assert_eq!(value.compute(), Ok(()));

    let mut props: Vec<Property> = Vec::new();
    let prop = vec![Property::new("x", Json::new("y"))];
    let items = vec![Json::new(2), Json::new(prop), Json::new(true)];
    props.push(Property::new("a", Json::new(items)));
    props.push(Property::new("c", Json::new(vec![Json::Null])));
    props.push(Property::new("d", Json::new(3)));
    props.push(Property::new("z", Json::new(1)));

    assert_eq!(value, Json::new(props));
}

#[test]
fn test_typename() {
    assert_eq!(Json::Null.typename(), "null".to_string());
    assert_eq!(Json::new(true).typename(), "bool".to_string());
    assert_eq!(Json::new(false).typename(), "bool".to_string());
    assert_eq!(Json::new(10).typename(), "integer".to_string());
    assert_eq!(float(10.2).typename(), "float".to_string());
    assert_eq!(Json::new("hello").typename(), "string".to_string());

    let items: Vec<Json> = vec![];
    assert_eq!(Json::new(items).typename(), "array".to_string());

    let props: Vec<Property> = vec![Property::new("a", Json::new(true))];
    assert_eq!(Json::new(props).typename(), "object".to_string());
}

#[test]
fn test_json5_whitespace() {
    let text = "\u{0009} \u{000a} \u{000b} \u{000c} ".to_string()
        + &("\u{00a0} \r \t \n 0x1234".to_string());
    let json: Json = parsed(&text);
    assert_eq!(json.to_integer(), Json::new(0x1234).to_integer());
}

#[test]
fn test_json5_num() {
    let mut json: Json = parsed("0x1234");
    json.compute().unwrap();
    assert_eq!(json, Json::new(0x1234));

    let mut json: Json = parsed("1234.");
    json.compute().unwrap();
    assert_eq!(json.to_float(), float(1234.0).to_float());

    let mut json: Json = parsed(".1234");
    json.compute().unwrap();
    assert_eq!(json, float(0.1234));

    let mut json: Json = parsed(".1234.");
    json.compute().unwrap_err();
    assert_eq!(json.to_float(), None);

    let mut json: Json = parsed("[Infinity, -Infinity, NaN]");
    json.compute().unwrap();
    let value = Json::new(vec![float(f64::INFINITY), float(f64::NEG_INFINITY), float(f64::NAN)]);
    assert_eq!(json, value);

    let mut json: Json = parsed(" [ 0xdecaf, -0xC0FFEE ]");
    json.compute().unwrap();
    let value = Json::new(vec![Json::new(0xdecaf), Json::new(-0xC0_FFEE)]);
    assert_eq!(json, value);

    let mut json: Json = parsed("[ 123, 123.456, .456, 123e-456 ]");
    json.compute().unwrap();
    let value = Json::new(vec![Json::new(123), float(123.456), float(0.456), float(123e-456)]);
    assert_eq!(json, value);
}

#[test]
fn test_json5_array() {
    let json: Json = parsed("[]");
    let value = Json::new::<Vec<Json>>(vec![]);
    assert_eq!(json, value);

    let mut json: Json = parsed(r#"[ 1, true, "three", ]"#);
    json.compute().unwrap();
    let value = Json::new(vec![Json::new(1), Json::new(true), Json::new("three")]);
    assert_eq!(json, value);

    let json: Json = parsed(r#"[ [1, true, "three"], [4, "five", 0x6], ]"#);
    let value = Json::new(vec![
        Json::new(vec![Json::new(1), Json::new(true), Json::new("three")]),
        Json::new(vec![Json::new(4), Json::new("five"), Json::new(0x6)]),
    ]);
    assert_eq!(json, value);
}

#[test]
fn test_json5_object() {
    let json: Json = parsed("{}");
    let value = Json::new::<Vec<Property>>(vec![]);
    assert_eq!(json, value);

    let mut json: Json = parsed("{ width: 1920, height: 1080, }");
    json.compute().unwrap();
    let value = Json::new(vec![
        Property::new("height", 1080.into()),
        Property::new("width", 1920.into()),
    ]);
    assert_eq!(json, value);

    let mut json: Json =
        parsed(r#"{ image: { width: 1920, height: 1080, "aspect-ratio": "16:9", } }"#);
    json.compute().unwrap();
    let props = Json::new(vec![
        Property::new("aspect-ratio", "16:9".into()),
        Property::new("height", 1080.into()),
        Property::new("width", 1920.into()),
    ]);
    let value = Json::new(vec![Property::new("image", props)]);
    assert_eq!(json, value);

    let mut json: Json = parsed(r#"[ { name: "Joe", age: 27 }, { name: "Jane", age: 32 }, ]"#);
    json.compute().unwrap();
    let obj1 = Json::new::<Vec<Property>>(vec![
        Property::new("age", 27.into()),
        Property::new("name", "Joe".into()),
    ]);
    let obj2 = Json::new::<Vec<Property>>(vec![
        Property::new("age", 32.into()),
        Property::new("name", "Jane".into()),
    ]);
    let value = Json::new(vec![obj1, obj2]);
    assert_eq!(json, value);
}

#[test]
fn test_partial_eq() {
    let a = float(f64::INFINITY);
    let b = float(f64::NEG_INFINITY);
    let c = float(f64::NAN);
    let d = float(0.2);

    assert!(a != b);
    assert!(a != c);
    assert!(a != d);
    assert!(b != a);
    assert!(b != c);
    assert!(b != d);
    assert!(c != a);
    assert!(c != b);
    assert!(c != d);
    assert!(d != a);
    assert!(d != b);
    assert!(d != c);

    assert!(Json::minbound() == Json::minbound());
    assert!(Json::maxbound() == Json::maxbound());
    assert!(Json::minbound() != Json::maxbound());
    assert!(Json::maxbound() != Json::minbound());
}

#[test]
fn test_partial_ord1() {
    assert!(Json::Null < Json::new(true));
    assert!(Json::Null < Json::new(false));
    assert!(Json::Null < Json::new(10));
    assert!(Json::Null < float(1.0));
    assert!(Json::Null < Json::new("hello world"));
    assert!(Json::Null < Json::new::<Vec<Json>>(vec![10.into()]));
    assert!(Json::Null < Json::new::<Vec<Property>>(vec![Property::new("key", 10.into())]));

    let value = Json::new(false);
    assert!(value > Json::Null);
    assert!(value == Json::new(false));
    assert!(value < Json::new(true));
    assert!(value < Json::new(10));
    assert!(value < float(1.0));
    assert!(value < Json::new("hello world"));
    assert!(value < Json::new::<Vec<Json>>(vec![10.into()]));
    assert!(value < Json::new::<Vec<Property>>(vec![Property::new("key", 10.into())]));

    let value = Json::new(true);
    assert!(value > Json::Null);
    assert!(value > Json::new(false));
    assert!(value == Json::new(true));
    assert!(value < Json::new(10));
    assert!(value < float(1.0));
    assert!(value < Json::new("hello world"));
    assert!(value < Json::new::<Vec<Json>>(vec![10.into()]));
    assert!(value < Json::new::<Vec<Property>>(vec![Property::new("key", 10.into())]));
}

#[test]
fn test_partial_ord2() {
    let value = Json::new(10);
    assert!(value > Json::Null);
    assert!(value > Json::new(false));
    assert!(value > Json::new(true));
    assert!(value == Json::new(10));
    assert!(value == float(10.0));
    assert!(value < Json::new("hello world"));
    assert!(value < Json::new::<Vec<Json>>(vec![10.into()]));
    assert!(value < Json::new::<Vec<Property>>(vec![Property::new("key", 10.into())]));

    let value = float(10.0);
    assert!(value > Json::Null);
    assert!(value > Json::new(false));
    assert!(value > Json::new(true));
    assert!(value == Json::new(10));
    assert!(value == float(10.0));
    assert!(value < Json::new("hello world"));
    assert!(value < Json::new::<Vec<Json>>(vec![10.into()]));
    assert!(value < Json::new::<Vec<Property>>(vec![Property::new("key", 10.into())]));

    let value = Json::new("hello world");
    assert!(value > Json::Null);
    assert!(value > Json::new(false));
    assert!(value > Json::new(true));
    assert!(value > Json::new(10));
    assert!(value > float(10.0));
    assert!(value == Json::new("hello world"));
    assert!(value < Json::new::<Vec<Json>>(vec![10.into()]));
    assert!(value < Json::new::<Vec<Property>>(vec![Property::new("key", 10.into())]));
}

#[test]
fn test_partial_ord3() {
    let value: Json = parsed("[10,20]");
    assert!(value > Json::Null);
    assert!(value > Json::new(false));
    assert!(value > Json::new(true));
    assert!(value > Json::new(10));
    assert!(value > float(10.0));
    assert!(value > Json::new("hello world"));
    assert!(value == Json::new::<Vec<Json>>(vec![10.into(), 20.into()]));
    assert!(value > Json::new::<Vec<Json>>(vec![10.into()]));
    assert!(Json::new::<Vec<Json>>(vec![10.into()]) < value);
    assert!(value < Json::new::<Vec<Property>>(vec![Property::new("key", 10.into())]));

    let value: Json = parsed(r#"{"key1": 10, "key2":20}"#);
    assert!(value > Json::Null);
    assert!(value > Json::new(false));
    assert!(value > Json::new(true));
    assert!(value > Json::new(10));
    assert!(value > float(10.0));
    assert!(value > Json::new("hello world"));
    assert!(value > Json::new::<Vec<Json>>(vec![10.into()]));
    assert!(
        value
            > Json::new::<Vec<Property>>(vec![
                Property::new("key1", 10.into()),
                Property::new("key2", 10.into())
            ])
    );
    assert!(
        value
            < Json::new::<Vec<Property>>(vec![
                Property::new("key1", 20.into()),
                Property::new("key2", 10.into())
            ])
    );
    assert!(
        value
            > Json::new::<Vec<Property>>(vec![
                Property::new("key1", 5.into()),
                Property::new("key2", 10.into())
            ])
    );
    assert!(value > Json::new::<Vec<Property>>(vec![Property::new("key1", 10.into())]));
    assert!(Json::new::<Vec<Property>>(vec![Property::new("key1", 10.into())]) < value);
}

#[test]
fn test_partial_ord4() {
    let lhs: Json = parsed("[]");
    let rhs: Json = parsed("[10]");
    assert!(lhs < rhs);
    assert!(rhs > lhs);

    let lhs: Json = parsed(r#"{}"#);
    let rhs: Json = parsed(r#"{"a": 10}"#);
    assert!(lhs < rhs);
    assert!(rhs > lhs);

    let lhs: Json = parsed(r#"-1.0"#);
    let rhs: Json = parsed(r#"1.0"#);
    assert!(lhs < rhs);
    assert!(rhs > lhs);
    assert!(rhs != lhs);

    let lhs: Json = parsed(r#"-0.0"#);
    let rhs: Json = parsed(r#"0.0"#);
    assert!(lhs < rhs);
    assert!(rhs > lhs);
    assert!(lhs == rhs);
    assert!(lhs <= rhs);
}

#[test]
fn test_bounds() {
    assert!(Json::minbound() == Json::minbound());
    assert!(Json::minbound() < Json::Null);
    assert!(Json::minbound() < true.into());
    assert!(Json::minbound() < false.into());
    assert!(Json::minbound() < 10.into());
    assert!(Json::minbound() < float(10.2));
    assert!(Json::minbound() < "hello world".into());
    assert!(Json::minbound() < parsed("[null]"));
    assert!(Json::minbound() < parsed(r#"{"key":10}"#));
    assert!(Json::minbound() < Json::maxbound());

    assert!(Json::maxbound() > Json::minbound());
    assert!(Json::maxbound() > Json::Null);
    assert!(Json::maxbound() > true.into());
    assert!(Json::maxbound() > false.into());
    assert!(Json::maxbound() > 10.into());
    assert!(Json::maxbound() > float(10.2));
    assert!(Json::maxbound() > "hello world".into());
    assert!(Json::maxbound() > parsed("[null]"));
    assert!(Json::maxbound() > parsed(r#"{"key":10}"#));
    assert!(Json::maxbound() == Json::maxbound());
}

#[test]
fn test_boolean_coersion() {
    assert!(!Json::Null.truth().unwrap());
    assert!(!Json::new(false).truth().unwrap());
    assert!(Json::new(true).truth().unwrap());
    assert!(!Json::new(0).truth().unwrap());
    assert!(!float(0.0).truth().unwrap());
    assert!(float(0.1).truth().unwrap());
    assert!(float(-0.1).truth().unwrap());
    assert!(Json::new(-1).truth().unwrap());
    assert!(!Json::new("").truth().unwrap());
    assert!(Json::new("hello").truth().unwrap());
    let value: Vec<Json> = vec![];
    assert!(!Json::new(value).truth().unwrap());
    let value: Vec<Json> = vec![1.into()];
    assert!(Json::new(value).truth().unwrap());
    let value: Vec<Json> = vec![];
    assert!(!Json::new(value).truth().unwrap());
    let value: Vec<Property> = vec![Property::new("a", 10.into())];
    assert!(Json::new(value).truth().unwrap());
}
