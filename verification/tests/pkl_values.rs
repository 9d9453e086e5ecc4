use confset::compiler::{FloatNumber, Value};
use confset::pkl::{from_pkl, source_location, PklFault, PklMember, PklValue};

fn member(name: &str, value: PklValue) -> PklMember {
    PklMember { name: name.to_string(), value }
}

#[test]
fn data_values_convert_member_by_member() {
    let value = PklValue::Object(vec![
        member("text", PklValue::String("雪 and \"quotes\"".into())),
        member("count", PklValue::Int(i64::MAX)),
        member("ratio", PklValue::Float(FloatNumber { bits: 1.25f64.to_bits(), text: "1.25".into() })),
        member("items", PklValue::List(vec![PklValue::String("a".into()), PklValue::Null])),
    ]);
    let converted = from_pkl(&value, "configuration").ok().unwrap();
    let Value::Object(fields) = converted else { panic!("expected an object") };
    assert_eq!(fields.len(), 4);
    assert_eq!(fields[0].name, "text");
    assert!(matches!(&fields[0].value, Value::String(s) if s == "雪 and \"quotes\""));
    assert!(matches!(fields[1].value, Value::Int(i64::MAX)));
    assert!(matches!(&fields[2].value, Value::Float(f) if f.bits == 1.25f64.to_bits() && f.text == "1.25"));
    assert!(matches!(&fields[3].value, Value::Array(items) if items.len() == 2));
}

#[test]
fn pkl_functions_are_reported_where_they_stand() {
    let value = PklValue::Object(vec![member(
        "files",
        PklValue::Object(vec![member("json", PklValue::List(vec![PklValue::Int(1), PklValue::Function]))]),
    )]);
    match from_pkl(&value, "configuration") {
        Err(fault) => {
            assert!(matches!(&fault, PklFault::Function(p) if p == "configuration.files.json[1]"));
            assert!(fault.message().contains("Pkl function is not an output value"));
        }
        Ok(_) => panic!("a function must be refused"),
    }
}

#[test]
fn non_finite_numbers_and_other_values_are_refused() {
    let infinite = PklValue::List(vec![PklValue::Float(FloatNumber { bits: f64::NAN.to_bits(), text: String::new() })]);
    assert!(matches!(from_pkl(&infinite, "x"), Err(PklFault::NonFinite(p)) if p == "x[0]"));
    let first = PklValue::List(vec![PklValue::Other, PklValue::Function]);
    match from_pkl(&first, "x") {
        Err(fault) => assert_eq!(fault.message(), "x[0]: this Pkl value has no data form to render"),
        Ok(_) => panic!("expected a fault"),
    }
    let mut items = Vec::new();
    for _ in 0..12 {
        items.push(PklValue::Null);
    }
    items.push(PklValue::Function);
    assert!(matches!(from_pkl(&PklValue::List(items), "l"), Err(PklFault::Function(p)) if p == "l[12]"));
}

#[test]
fn diagnostics_point_at_line_and_column() {
    assert_eq!(source_location("tools {\n  [\"x\"] = oops\n", 15), (2, 8));
    assert_eq!(source_location("a\nb\n", 4), (3, 1));
    assert_eq!(source_location("雪 = 1", 3), (1, 2));
    assert_eq!(source_location("雪 = 1", 1), (1, 1));
    assert_eq!(source_location("abc", 10), (1, 1));
    assert_eq!(source_location("", 0), (1, 1));
}
