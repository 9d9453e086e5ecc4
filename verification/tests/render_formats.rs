use confset::compiler::{Field, FloatNumber, IniFault, RenderFault, Value};
use confset::render::{decimal_text, is_finite_value, is_outside_format, render, render_ini};
use confset::Failure;

fn object(members: Vec<(&str, Value)>) -> Value {
    Value::Object(members.into_iter().map(|(name, value)| Field { name: name.to_string(), value }).collect())
}

fn text(s: &str) -> Value {
    Value::String(s.to_string())
}

fn float(x: f64) -> Value {
    Value::Float(FloatNumber { bits: x.to_bits(), text: serde_json::Number::from_f64(x).map(|n| n.to_string()).unwrap_or_default() })
}

fn no_outside() -> Result<String, Failure> {
    Err(Failure { message: "not rendered".into() })
}

#[test]
fn decimals_match_display() {
    for value in [0i64, 7, 10, 120, -1, -42, i64::MAX, i64::MIN] {
        assert_eq!(decimal_text(value), value.to_string());
    }
}

#[test]
fn ini_emits_editorconfig_sections_and_sqlfluff_values() {
    let editorconfig = object(vec![("root", Value::Bool(true)), ("**/generated/**", object(vec![("ignore", Value::Bool(true))]))]);
    assert_eq!(render_ini(&editorconfig).unwrap(), "root = true\n\n[**/generated/**]\nignore = true\n");
    let sqlfluff = object(vec![("sqlfluff", object(vec![("dialect", text("sqlite")), ("max_line_length", Value::Int(120))]))]);
    assert!(render_ini(&sqlfluff).unwrap().contains("[sqlfluff]\ndialect = sqlite\nmax_line_length = 120\n"));
}

#[test]
fn ini_orders_keys_and_keeps_the_last_duplicate() {
    let value = object(vec![("b", Value::Int(1)), ("a", float(1.25)), ("b", Value::Int(2))]);
    assert_eq!(render_ini(&value).unwrap(), "a = 1.25\nb = 2\n");
}

#[test]
fn ini_snapshot_of_a_defaults_section() {
    let value = object(vec![("defaults", object(vec![("name", text("Confset")), ("enabled", Value::Bool(true))]))]);
    assert_eq!(render_ini(&value).unwrap(), "[defaults]\nenabled = true\nname = Confset\n");
}

#[test]
fn functions_and_lossy_conversions_are_rejected_before_publication() {
    let list = object(vec![("value", Value::Array(vec![Value::Int(1), Value::Int(2)]))]);
    assert_eq!(render_ini(&list), Err(IniFault::InvalidEntry));
    let padded = object(vec![("value", text(" padded "))]);
    assert_eq!(render_ini(&padded), Err(IniFault::InvalidString));
    let null = object(vec![("value", Value::Null)]);
    assert_eq!(render_ini(&null), Err(IniFault::InvalidEntry));
}

#[test]
fn ini_refuses_bad_keys_sections_and_documents() {
    assert_eq!(render_ini(&object(vec![("a=b", Value::Int(1))])), Err(IniFault::InvalidKey));
    assert_eq!(render_ini(&object(vec![("#x", Value::Int(1))])), Err(IniFault::InvalidKey));
    assert_eq!(render_ini(&object(vec![("[x]", object(vec![]))])), Err(IniFault::InvalidSection));
    assert_eq!(render_ini(&object(vec![("s", object(vec![("deep", object(vec![]))]))])), Err(IniFault::InvalidEntry));
    assert_eq!(render_ini(&Value::Int(3)), Err(IniFault::NotAnObject));
    assert_eq!(render_ini(&object(vec![("line", text("a\nb"))])), Err(IniFault::InvalidString));
    assert_eq!(render_ini(&object(vec![("tab", text("\tx"))])), Err(IniFault::InvalidString));
}

#[test]
fn non_finite_floats_have_no_rendering() {
    let value = object(vec![("x", Value::Float(FloatNumber { bits: f64::INFINITY.to_bits(), text: String::new() }))]);
    assert!(!is_finite_value(&value));
    assert_eq!(render_ini(&value), Err(IniFault::NonFinite));
    assert!(is_finite_value(&object(vec![("x", float(2.5))])));
}

#[test]
fn formats_pick_their_renderer() {
    assert!(is_outside_format("json") && is_outside_format("yaml") && is_outside_format("toml"));
    assert!(!is_outside_format("ini"));
    let rendered = render("json", &Value::Null, &Ok("null\n".into())).ok().unwrap();
    assert_eq!(rendered, "null\n");
    assert!(matches!(render("toml", &Value::Null, &Err(Failure { message: "null".into() })), Err(RenderFault::Outside(_))));
    assert_eq!(render("text", &text("<users/>\n"), &no_outside()).ok().unwrap(), "<users/>\n");
    assert!(matches!(render("text", &Value::Int(1), &no_outside()), Err(RenderFault::ExpectedString)));
    assert!(matches!(render("xml", &text("x"), &no_outside()), Err(RenderFault::UnsupportedFormat)));
    assert_eq!(render("ini", &object(vec![("a", Value::Int(1))]), &no_outside()).ok().unwrap(), "a = 1\n");
}
