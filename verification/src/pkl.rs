//! Values as the Pkl evaluator hands them out, and their conversion into
//! the values that outputs are rendered from.
use vstd::prelude::*;

use crate::compiler::{Field, FloatNumber, Value};
use crate::outcome::{first_failure, lemma_first_failure_prefix, lemma_first_failure_push};
use crate::render::{digits, finite_bits};
use crate::text::{append_str, chars_of, lemma_chars_fit_bytes, push_char};
use vstd::string::StringSliceAdditionalSpecFns;
use vstd::utf8::{decode_utf8, is_char_boundary};

verus! {

/// A member of an evaluated object.
pub struct PklMember {
    pub name: String,
    pub value: PklValue,
}

/// An evaluated Pkl value.
pub enum PklValue {
    Null,
    Bool(bool),
    Int(i64),
    Float(FloatNumber),
    String(String),
    /// A `List`, `Listing` or `Set`.
    List(Vec<PklValue>),
    /// An object or a string-keyed mapping, members in order.
    Object(Vec<PklMember>),
    /// A function.
    Function,
    /// A value with no data form (a regular expression, a duration, a data size).
    Other,
}

/// Why an evaluated value cannot become an output value; each names where
/// the value stands (`configuration.tools["x"].config[0]` style).
pub enum PklFault {
    /// A float that is infinite or NaN.
    NonFinite(String),
    /// A function, which has to be called to give data.
    Function(String),
    /// A value with no data form.
    Unsupported(String),
}

/// A conversion fault as plain values.
pub enum PklFaultView {
    NonFinite(Seq<char>),
    Function(Seq<char>),
    Unsupported(Seq<char>),
}

impl View for PklFault {
    type V = PklFaultView;

    open spec fn view(&self) -> PklFaultView {
        match self {
            PklFault::NonFinite(p) => PklFaultView::NonFinite(p@),
            PklFault::Function(p) => PklFaultView::Function(p@),
            PklFault::Unsupported(p) => PklFaultView::Unsupported(p@),
        }
    }
}

impl PklFault {
    /// The message a user sees.
    pub fn message(&self) -> (r: String)
        ensures
            r@ == fault_message(self@),
    {
        let (p, text) = match self {
            PklFault::NonFinite(p) => (p, ": non-finite numbers cannot be rendered"),
            PklFault::Function(p) => (p, ": a Pkl function is not an output value; call it to compute a data value"),
            PklFault::Unsupported(p) => (p, ": this Pkl value has no data form to render"),
        };
        let mut r = p.clone();
        append_str(&mut r, text);
        r
    }
}

/// The message of a conversion fault: where, then what.
pub open spec fn fault_message(f: PklFaultView) -> Seq<char> {
    match f {
        PklFaultView::NonFinite(p) => p + ": non-finite numbers cannot be rendered"@,
        PklFaultView::Function(p) => p + ": a Pkl function is not an output value; call it to compute a data value"@,
        PklFaultView::Unsupported(p) => p + ": this Pkl value has no data form to render"@,
    }
}

/// Where list item `i` stands: `path[i]`.
pub open spec fn item_path(path: Seq<char>, i: nat) -> Seq<char> {
    path + seq!['['] + digits(i) + seq![']']
}

/// Where member `name` stands: `path.name`.
pub open spec fn member_path(path: Seq<char>, name: Seq<char>) -> Seq<char> {
    path + seq!['.'] + name
}

/// The first value, in document order, that cannot become an output value.
pub open spec fn pkl_fault(v: PklValue, path: Seq<char>) -> Option<PklFaultView>
    decreases v, 0int,
{
    match v {
        PklValue::Float(f) => if finite_bits(f.bits) {
            None
        } else {
            Some(PklFaultView::NonFinite(path))
        },
        PklValue::Function => Some(PklFaultView::Function(path)),
        PklValue::Other => Some(PklFaultView::Unsupported(path)),
        PklValue::List(items) => items_fault(items@, path, items@.len() as int),
        PklValue::Object(members) => members_fault(members@, path, members@.len() as int),
        _ => None,
    }
}

/// The first fault among the first `n` items of a list.
pub open spec fn items_fault(items: Seq<PklValue>, path: Seq<char>, n: int) -> Option<PklFaultView>
    decreases items, n,
{
    if n <= 0 || n > items.len() {
        None
    } else {
        match items_fault(items, path, n - 1) {
            Some(f) => Some(f),
            None => pkl_fault(items[n - 1], item_path(path, (n - 1) as nat)),
        }
    }
}

/// The first fault among the first `n` members of an object.
pub open spec fn members_fault(members: Seq<PklMember>, path: Seq<char>, n: int) -> Option<PklFaultView>
    decreases members, n,
{
    if n <= 0 || n > members.len() {
        None
    } else {
        match members_fault(members, path, n - 1) {
            Some(f) => Some(f),
            None => pkl_fault(members[n - 1].value, member_path(path, members[n - 1].name@)),
        }
    }
}

/// An output value holds what an evaluated value holds: the same scalars,
/// the same float bits and text, the items and members in the same order.
pub open spec fn mirrors(v: PklValue, x: Value) -> bool
    decreases v,
{
    match v {
        PklValue::Null => x is Null,
        PklValue::Bool(b) => x == Value::Bool(b),
        PklValue::Int(i) => x == Value::Int(i),
        PklValue::Float(f) => x matches Value::Float(g) && g.bits == f.bits && g.text@ == f.text@,
        PklValue::String(s) => x matches Value::String(t) && t@ == s@,
        PklValue::List(items) => x matches Value::Array(vals) && vals@.len() == items@.len() && forall|i: int|
            0 <= i < items@.len() ==> mirrors(#[trigger] items@[i], vals@[i]),
        PklValue::Object(members) => x matches Value::Object(fields) && fields@.len() == members@.len()
            && forall|i: int|
            0 <= i < members@.len() ==> fields@[i].name@ == (#[trigger] members@[i]).name@ && mirrors(
                members@[i].value,
                fields@[i].value,
            ),
        _ => false,
    }
}

fn push_index(out: &mut String, n: u64)
    ensures
        final(out)@ == old(out)@ + digits(n as nat),
    decreases n,
{
    if n >= 10 {
        push_index(out, n / 10);
    }
    let d = (n % 10) as u8;
    push_char(out, (48u8 + d) as char);
}

/// Converts an evaluated value into an output value, naming the first value
/// that has no data form.
pub fn from_pkl(v: &PklValue, path: &str) -> (r: Result<Value, PklFault>)
    ensures
        match pkl_fault(*v, path@) {
            Some(f) => r matches Err(g) && g@ == f,
            None => r matches Ok(x) && mirrors(*v, x),
        },
    decreases v,
{
    match v {
        PklValue::Null => Ok(Value::Null),
        PklValue::Bool(b) => Ok(Value::Bool(*b)),
        PklValue::Int(i) => Ok(Value::Int(*i)),
        PklValue::Float(f) => {
            if f.bits / 0x10_0000_0000_0000 % 0x800 != 0x7ff {
                Ok(Value::Float(FloatNumber { bits: f.bits, text: f.text.clone() }))
            } else {
                Err(PklFault::NonFinite(path.to_owned()))
            }
        },
        PklValue::String(s) => Ok(Value::String(s.clone())),
        PklValue::Function => Err(PklFault::Function(path.to_owned())),
        PklValue::Other => Err(PklFault::Unsupported(path.to_owned())),
        PklValue::List(items) => {
            let mut vals: Vec<Value> = Vec::new();
            let mut i: usize = 0;
            while i < items.len()
                invariant
                    *v == PklValue::List(*items),
                    i <= items@.len(),
                    vals@.len() == i,
                    items_fault(items@, path@, i as int) is None,
                    forall|k: int| 0 <= k < i ==> mirrors(#[trigger] items@[k], vals@[k]),
                decreases items@.len() - i,
            {
                let mut p = path.to_owned();
                push_char(&mut p, '[');
                push_index(&mut p, i as u64);
                push_char(&mut p, ']');
                assert(p@ == item_path(path@, i as nat));
                proof {
                    assert(decreases_to!(*v => (*v)->List_0));
                    vstd::std_specs::vec::axiom_vec_index_decreases(*items, i as int);
                }
                match from_pkl(&items[i], p.as_str()) {
                    Err(f) => {
                        proof {
                            lemma_items_fault_stops(items@, path@, i + 1);
                        }
                        return Err(f);
                    },
                    Ok(x) => {
                        vals.push(x);
                    },
                }
                i = i + 1;
            }
            Ok(Value::Array(vals))
        },
        PklValue::Object(members) => {
            let mut fields: Vec<Field> = Vec::new();
            let mut i: usize = 0;
            while i < members.len()
                invariant
                    *v == PklValue::Object(*members),
                    i <= members@.len(),
                    fields@.len() == i,
                    members_fault(members@, path@, i as int) is None,
                    forall|k: int|
                        0 <= k < i ==> fields@[k].name@ == (#[trigger] members@[k]).name@ && mirrors(
                            members@[k].value,
                            fields@[k].value,
                        ),
                decreases members@.len() - i,
            {
                let mut p = path.to_owned();
                push_char(&mut p, '.');
                append_str(&mut p, members[i].name.as_str());
                assert(p@ == member_path(path@, members@[i as int].name@));
                proof {
                    assert(decreases_to!(*v => (*v)->Object_0));
                    vstd::std_specs::vec::axiom_vec_index_decreases(*members, i as int);
                    assert(decreases_to!(members@[i as int] => members@[i as int].value));
                }
                match from_pkl(&members[i].value, p.as_str()) {
                    Err(f) => {
                        proof {
                            lemma_members_fault_stops(members@, path@, i + 1);
                        }
                        return Err(f);
                    },
                    Ok(x) => {
                        fields.push(Field { name: members[i].name.clone(), value: x });
                    },
                }
                i = i + 1;
            }
            Ok(Value::Object(fields))
        },
    }
}

proof fn lemma_items_fault_stops(items: Seq<PklValue>, path: Seq<char>, n: int)
    requires
        0 <= n <= items.len(),
        items_fault(items, path, n) is Some,
    ensures
        items_fault(items, path, items.len() as int) == items_fault(items, path, n),
    decreases items.len() - n,
{
    if n < items.len() {
        lemma_items_fault_stops(items, path, n + 1);
    }
}

proof fn lemma_members_fault_stops(members: Seq<PklMember>, path: Seq<char>, n: int)
    requires
        0 <= n <= members.len(),
        members_fault(members, path, n) is Some,
    ensures
        members_fault(members, path, members.len() as int) == members_fault(members, path, n),
    decreases members.len() - n,
{
    if n < members.len() {
        lemma_members_fault_stops(members, path, n + 1);
    }
}

/// The line at the end of a text, counted from one: one more than its line
/// feeds.
pub open spec fn line_of(p: Seq<char>) -> int
    decreases p.len(),
{
    if p.len() == 0 {
        1
    } else if p.last() == '\n' {
        line_of(p.drop_last()) + 1
    } else {
        line_of(p.drop_last())
    }
}

/// The column at the end of a text, counted from one: one more than the
/// characters after its last line feed.
pub open spec fn column_of(p: Seq<char>) -> int
    decreases p.len(),
{
    if p.len() == 0 {
        1
    } else if p.last() == '\n' {
        1
    } else {
        column_of(p.drop_last()) + 1
    }
}

/// The text in front of a byte offset; nothing when the offset is past the
/// end or inside a character.
pub open spec fn text_before(text: &str, offset: int) -> Seq<char> {
    if is_char_boundary(text.spec_bytes(), offset) {
        decode_utf8(text.spec_bytes().subrange(0, offset))
    } else {
        Seq::empty()
    }
}

/// Where a diagnostic's byte offset lies in the source text: its line and
/// its column, both counted from one, columns in characters. An offset past
/// the end or inside a character counts as the start of the text.
pub fn source_location(text: &str, offset: usize) -> (r: (usize, usize))
    requires
        offset < usize::MAX,
    ensures
        r.0 == line_of(text_before(text, offset as int)),
        r.1 == column_of(text_before(text, offset as int)),
{
    let before: &str = if text.is_char_boundary(offset) {
        let (head, _) = text.split_at(offset);
        proof {
            vstd::utf8::encode_utf8_valid_utf8(text@);
            assert(offset <= text.spec_bytes().len());
            vstd::utf8::encode_utf8_decode_utf8(head@);
            lemma_chars_fit_bytes(head@);
            assert(head@.len() <= offset);
        }
        head
    } else {
        proof {
            reveal_strlit("");
        }
        ""
    };
    assert(before@ == text_before(text, offset as int));
    let cs = chars_of(before);
    assert(cs@.len() <= offset);
    let mut line: usize = 1;
    let mut column: usize = 1;
    let mut i: usize = 0;
    while i < cs.len()
        invariant
            i <= cs@.len(),
            cs@.len() <= offset < usize::MAX,
            line == line_of(cs@.take(i as int)),
            column == column_of(cs@.take(i as int)),
            1 <= line <= i + 1,
            1 <= column <= i + 1,
        decreases cs@.len() - i,
    {
        assert(cs@.take(i + 1).drop_last() =~= cs@.take(i as int));
        if cs[i] == '\n' {
            line = line + 1;
            column = 1;
        } else {
            column = column + 1;
        }
        i = i + 1;
    }
    assert(cs@.take(cs@.len() as int) =~= cs@);
    (line, column)
}

} // verus!

verus! {

/// Conversion keeps what each value holds. Null, booleans, integers and
/// strings always convert; an output value that mirrors one holds the same
/// kind and the same content: `false` stays `false` and `true` stays
/// `true`, an integer keeps its value, a string its text. A list or object
/// keeps its length and order, each member its name, and scalar members
/// and items keep their value.
pub proof fn law_conversion_keeps_values(v: PklValue, x: Value, path: Seq<char>)
    ensures
        (v is Null || v is Bool || v is Int || v is String) ==> pkl_fault(v, path) is None,
        v is Function ==> pkl_fault(v, path) == Some(PklFaultView::Function(path)),
        v is Other ==> pkl_fault(v, path) == Some(PklFaultView::Unsupported(path)),
        v matches PklValue::Float(f) ==> (pkl_fault(v, path) is None <==> finite_bits(f.bits)),
        mirrors(v, x) ==> {
            &&& v matches PklValue::Bool(b) ==> x == Value::Bool(b)
            &&& v matches PklValue::Int(i) ==> x == Value::Int(i)
            &&& v is Null ==> x is Null
            &&& v matches PklValue::Float(f) ==> x matches Value::Float(g) && g.bits == f.bits && g.text@ == f.text@
            &&& v matches PklValue::String(s) ==> x matches Value::String(t) && t@ == s@
            &&& v matches PklValue::List(items) ==> x matches Value::Array(vals) && vals@.len() == items@.len()
                && forall|i: int|
                0 <= i < items@.len() ==> ((#[trigger] items@[i]) matches PklValue::Bool(b) ==> vals@[i]
                    == Value::Bool(b)) && (items@[i] matches PklValue::Int(n) ==> vals@[i] == Value::Int(n))
            &&& v matches PklValue::Object(ms) ==> x matches Value::Object(fs) && fs@.len() == ms@.len()
                && forall|i: int|
                0 <= i < ms@.len() ==> fs@[i].name@ == (#[trigger] ms@[i]).name@ && (ms@[i].value matches PklValue::Bool(
                    b,
                ) ==> fs@[i].value == Value::Bool(b)) && (ms@[i].value matches PklValue::Int(n) ==> fs@[i].value
                    == Value::Int(n))
        },
{
    if mirrors(v, x) {
        match v {
            PklValue::List(items) => {
                if let Value::Array(vals) = x {
                    assert forall|i: int| 0 <= i < items@.len() implies ((#[trigger] items@[i]) matches PklValue::Bool(
                        b,
                    ) ==> vals@[i] == Value::Bool(b)) && (items@[i] matches PklValue::Int(n) ==> vals@[i] == Value::Int(
                        n,
                    )) by {
                        assert(mirrors(items@[i], vals@[i]));
                    }
                }
            },
            PklValue::Object(ms) => {
                if let Value::Object(fs) = x {
                    assert forall|i: int| 0 <= i < ms@.len() implies fs@[i].name@ == (#[trigger] ms@[i]).name@ && (
                    ms@[i].value matches PklValue::Bool(b) ==> fs@[i].value == Value::Bool(b)) && (
                    ms@[i].value matches PklValue::Int(n) ==> fs@[i].value == Value::Int(n)) by {
                        assert(mirrors(ms@[i].value, fs@[i].value));
                    }
                }
            },
            _ => {},
        }
    }
}

} // verus!
