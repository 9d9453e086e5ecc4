//! The renderers that need no serializer: INI documents, plain text, and
//! the decimal text of integers. JSON, YAML and TOML come from their
//! serializers, whose text (or failure) a render takes as an argument.
use vstd::prelude::*;

use crate::compiler::{Field, IniFault, RenderFault, RenderFaultView, Value};
use crate::text::{chars_lt, chars_of, push_char, str_eq, str_less, string_of};
use crate::Failure;

verus! {

/// The character of a decimal digit.
pub open spec fn digit_char(n: nat) -> char {
    (48 + n) as char
}

/// The decimal digits of a natural number, most significant first.
pub open spec fn digits(n: nat) -> Seq<char>
    decreases n,
{
    if n < 10 {
        seq![digit_char(n)]
    } else {
        digits(n / 10).push(digit_char(n % 10))
    }
}

/// The decimal text of an integer, with a leading `-` when negative.
pub open spec fn decimal(i: int) -> Seq<char> {
    if i < 0 {
        seq!['-'] + digits((-i) as nat)
    } else {
        digits(i as nat)
    }
}

fn push_digits(n: u64, out: &mut Vec<char>)
    ensures
        final(out)@ == old(out)@ + digits(n as nat),
    decreases n,
{
    if n >= 10 {
        push_digits(n / 10, out);
    }
    let d = (n % 10) as u8;
    out.push((48u8 + d) as char);
}

/// The decimal text of an integer, as `i64`'s `Display` writes it.
pub fn decimal_text(i: i64) -> (r: String)
    ensures
        r@ == decimal(i as int),
{
    let mut out: Vec<char> = Vec::new();
    if i < 0 {
        out.push('-');
        let m: u64 = (0i128 - (i as i128)) as u64;
        push_digits(m, &mut out);
    } else {
        push_digits(i as u64, &mut out);
    }
    string_of(out.as_slice())
}

/// A float whose IEEE 754 exponent bits are not all set: neither infinite
/// nor NaN.
pub open spec fn finite_bits(bits: u64) -> bool {
    (bits / 0x10_0000_0000_0000) % 0x800 != 0x7ff
}

/// Every float inside a value is finite.
pub open spec fn value_finite(v: Value) -> bool
    decreases v,
{
    match v {
        Value::Float(f) => finite_bits(f.bits),
        Value::Array(items) => forall|i: int| 0 <= i < items@.len() ==> value_finite(#[trigger] items@[i]),
        Value::Object(fields) => forall|i: int|
            0 <= i < fields@.len() ==> value_finite(#[trigger] fields@[i].value),
        _ => true,
    }
}

/// Whether every float inside a value is finite.
pub fn is_finite_value(v: &Value) -> (r: bool)
    ensures
        r == value_finite(*v),
    decreases v,
{
    match v {
        Value::Float(f) => f.bits / 0x10_0000_0000_0000 % 0x800 != 0x7ff,
        Value::Array(items) => {
            let mut i: usize = 0;
            while i < items.len()
                invariant
                    *v == Value::Array(*items),
                    i <= items@.len(),
                    forall|k: int| 0 <= k < i ==> value_finite(#[trigger] items@[k]),
                decreases items@.len() - i,
            {
                proof {
                    assert(decreases_to!(*v => (*v)->Array_0));
                    vstd::std_specs::vec::axiom_vec_index_decreases(*items, i as int);
                }
                if !is_finite_value(&items[i]) {
                    return false;
                }
                i = i + 1;
            }
            true
        },
        Value::Object(fields) => {
            let mut i: usize = 0;
            while i < fields.len()
                invariant
                    *v == Value::Object(*fields),
                    i <= fields@.len(),
                    forall|k: int| 0 <= k < i ==> value_finite(#[trigger] fields@[k].value),
                decreases fields@.len() - i,
            {
                proof {
                    assert(decreases_to!(*v => (*v)->Object_0));
                    vstd::std_specs::vec::axiom_vec_index_decreases(*fields, i as int);
                    assert(decreases_to!(fields@[i as int] => fields@[i as int].value));
                }
                if !is_finite_value(&fields[i].value) {
                    return false;
                }
                i = i + 1;
            }
            true
        },
        _ => true,
    }
}

/// A character that `char::is_whitespace` accepts (Unicode `White_Space`).
pub open spec fn is_white(c: char) -> bool {
    let n = c as u32;
    ||| 9 <= n <= 13
    ||| n == 32
    ||| n == 0x85
    ||| n == 0xa0
    ||| n == 0x1680
    ||| 0x2000 <= n <= 0x200a
    ||| n == 0x2028
    ||| n == 0x2029
    ||| n == 0x202f
    ||| n == 0x205f
    ||| n == 0x3000
}

/// Text that `str::trim` would change: it starts or ends with whitespace.
pub open spec fn padded(s: Seq<char>) -> bool {
    s.len() > 0 && (is_white(s[0]) || is_white(s.last()))
}

/// Text holding a carriage return, a line feed or NUL.
pub open spec fn breaks(s: Seq<char>) -> bool {
    s.contains('\r') || s.contains('\n') || s.contains('\0')
}

/// A key that INI cannot hold.
pub open spec fn bad_key(k: Seq<char>) -> bool {
    ||| k.len() == 0
    ||| padded(k)
    ||| k.contains('=')
    ||| k.contains(':')
    ||| breaks(k)
    ||| k[0] == '#'
    ||| k[0] == ';'
    ||| k[0] == '['
}

/// A section name that INI cannot hold.
pub open spec fn bad_section(s: Seq<char>) -> bool {
    s.len() == 0 || s.contains('[') || s.contains(']') || breaks(s)
}

fn white(c: char) -> (r: bool)
    ensures
        r == is_white(c),
{
    let n = c as u32;
    (9 <= n && n <= 13) || n == 32 || n == 0x85 || n == 0xa0 || n == 0x1680 || (0x2000 <= n && n
        <= 0x200a) || n == 0x2028 || n == 0x2029 || n == 0x202f || n == 0x205f || n == 0x3000
}

fn has_char(cs: &Vec<char>, c: char) -> (r: bool)
    ensures
        r == cs@.contains(c),
{
    let mut i: usize = 0;
    while i < cs.len()
        invariant
            i <= cs@.len(),
            forall|k: int| 0 <= k < i ==> cs@[k] != c,
        decreases cs@.len() - i,
    {
        if cs[i] == c {
            assert(cs@[i as int] == c);
            return true;
        }
        i = i + 1;
    }
    false
}

fn is_padded(cs: &Vec<char>) -> (r: bool)
    ensures
        r == padded(cs@),
{
    cs.len() > 0 && (white(cs[0]) || white(cs[cs.len() - 1]))
}

fn has_break(cs: &Vec<char>) -> (r: bool)
    ensures
        r == breaks(cs@),
{
    has_char(cs, '\r') || has_char(cs, '\n') || has_char(cs, '\0')
}

fn is_bad_key(k: &str) -> (r: bool)
    ensures
        r == bad_key(k@),
{
    let cs = chars_of(k);
    cs.len() == 0 || is_padded(&cs) || has_char(&cs, '=') || has_char(&cs, ':') || has_break(&cs)
        || cs[0] == '#' || cs[0] == ';' || cs[0] == '['
}

fn is_bad_section(s: &str) -> (r: bool)
    ensures
        r == bad_section(s@),
{
    let cs = chars_of(s);
    cs.len() == 0 || has_char(&cs, '[') || has_char(&cs, ']') || has_break(&cs)
}

/// The text of an INI value: a string that is not padded and holds no line
/// break or NUL, a number, or a boolean.
pub open spec fn ini_scalar(v: Value) -> Result<Seq<char>, IniFault> {
    match v {
        Value::String(s) => if padded(s@) || breaks(s@) {
            Err(IniFault::InvalidString)
        } else {
            Ok(s@)
        },
        Value::Int(i) => Ok(decimal(i as int)),
        Value::Float(f) => Ok(f.text@),
        Value::Bool(b) => Ok(
            if b {
                "true"@
            } else {
                "false"@
            },
        ),
        _ => Err(IniFault::InvalidEntry),
    }
}

/// One `key = value` line.
pub open spec fn ini_line(key: Seq<char>, v: Value) -> Result<Seq<char>, IniFault> {
    if bad_key(key) {
        Err(IniFault::InvalidKey)
    } else {
        match ini_scalar(v) {
            Err(f) => Err(f),
            Ok(t) => Ok(key + seq![' ', '=', ' '] + t + seq!['\n']),
        }
    }
}

/// A member added to a map ordered by key, as `BTreeMap::insert` places it:
/// an equal key has its value replaced where it stands.
pub open spec fn sorted_insert(e: Seq<(Seq<char>, Value)>, k: Seq<char>, v: Value) -> Seq<
    (Seq<char>, Value),
>
    decreases e.len(),
{
    if e.len() == 0 {
        seq![(k, v)]
    } else if e[0].0 == k {
        seq![(k, v)] + e.drop_first()
    } else if chars_lt(k, e[0].0) {
        seq![(k, v)] + e
    } else {
        seq![e[0]] + sorted_insert(e.drop_first(), k, v)
    }
}

/// An object's members as a JSON map holds them: ordered by key, a later
/// member replacing the value of an earlier one with the same key.
pub open spec fn normalized(fields: Seq<Field>) -> Seq<(Seq<char>, Value)>
    decreases fields.len(),
{
    if fields.len() == 0 {
        Seq::empty()
    } else {
        sorted_insert(normalized(fields.drop_last()), fields.last().name@, fields.last().value)
    }
}

/// The lines of the first `n` members that are not sections.
pub open spec fn ini_entries(e: Seq<(Seq<char>, Value)>, n: int) -> Result<Seq<char>, IniFault>
    decreases n,
{
    if n <= 0 {
        Ok(Seq::empty())
    } else {
        match ini_entries(e, n - 1) {
            Err(f) => Err(f),
            Ok(t) => if e[n - 1].1 is Object {
                Ok(t)
            } else {
                match ini_line(e[n - 1].0, e[n - 1].1) {
                    Err(f) => Err(f),
                    Ok(l) => Ok(t + l),
                }
            },
        }
    }
}

/// The lines of the first `n` members of a section.
pub open spec fn ini_body(e: Seq<(Seq<char>, Value)>, n: int) -> Result<Seq<char>, IniFault>
    decreases n,
{
    if n <= 0 {
        Ok(Seq::empty())
    } else {
        match ini_body(e, n - 1) {
            Err(f) => Err(f),
            Ok(t) => match ini_line(e[n - 1].0, e[n - 1].1) {
                Err(f) => Err(f),
                Ok(l) => Ok(t + l),
            },
        }
    }
}

/// A section's header and lines after the text so far, a blank line
/// between them when that text is not empty.
pub open spec fn ini_section(acc: Seq<char>, name: Seq<char>, v: Value) -> Result<Seq<char>, IniFault> {
    if bad_section(name) {
        Err(IniFault::InvalidSection)
    } else {
        let head = (if acc.len() > 0 {
            acc.push('\n')
        } else {
            acc
        }) + seq!['['] + name + seq![']', '\n'];
        match v {
            Value::Object(fields) => match ini_body(normalized(fields@), normalized(fields@).len() as int) {
                Err(f) => Err(f),
                Ok(b) => Ok(head + b),
            },
            _ => Ok(head),
        }
    }
}

/// The sections among the first `n` members, after the text `start`.
pub open spec fn ini_sections(e: Seq<(Seq<char>, Value)>, start: Seq<char>, n: int) -> Result<
    Seq<char>,
    IniFault,
>
    decreases n,
{
    if n <= 0 {
        Ok(start)
    } else {
        match ini_sections(e, start, n - 1) {
            Err(f) => Err(f),
            Ok(acc) => if e[n - 1].1 is Object {
                ini_section(acc, e[n - 1].0, e[n - 1].1)
            } else {
                Ok(acc)
            },
        }
    }
}

/// A value as an INI document: its plain members as `key = value` lines,
/// then each member that is an object as a `[section]`, all in key order.
pub open spec fn ini_spec(v: Value) -> Result<Seq<char>, IniFault> {
    if !value_finite(v) {
        Err(IniFault::NonFinite)
    } else {
        match v {
            Value::Object(fields) => {
                let e = normalized(fields@);
                match ini_entries(e, e.len() as int) {
                    Err(f) => Err(f),
                    Ok(t) => ini_sections(e, t, e.len() as int),
                }
            },
            _ => Err(IniFault::NotAnObject),
        }
    }
}

/// The members that the indices pick out, as name and value.
pub open spec fn picked(fields: Seq<Field>, idx: Seq<usize>) -> Seq<(Seq<char>, Value)> {
    idx.map_values(|j: usize| (fields[j as int].name@, fields[j as int].value))
}

/// Inserting at a position past members that neither match nor follow the key.
proof fn lemma_sorted_insert_skip(e: Seq<(Seq<char>, Value)>, k: Seq<char>, v: Value, i: int)
    requires
        0 <= i <= e.len(),
        forall|j: int| 0 <= j < i ==> (#[trigger] e[j]).0 != k && !chars_lt(k, e[j].0),
    ensures
        sorted_insert(e, k, v) == e.take(i) + sorted_insert(e.skip(i), k, v),
    decreases i,
{
    if i == 0 {
        assert(e.take(0) + sorted_insert(e.skip(0), k, v) =~= sorted_insert(e, k, v)) by {
            assert(e.skip(0) =~= e);
        }
    } else {
        lemma_sorted_insert_skip(e.drop_first(), k, v, i - 1);
        assert(e.drop_first().take(i - 1) =~= e.take(i).drop_first());
        assert(e.drop_first().skip(i - 1) =~= e.skip(i));
        assert(e.take(i) =~= seq![e[0]] + e.take(i).drop_first());
    }
}

/// Indices of the members of an object in the order of `normalized`.
fn normalize(fields: &Vec<Field>) -> (r: Vec<usize>)
    ensures
        forall|k: int| 0 <= k < r@.len() ==> (#[trigger] r@[k]) < fields@.len(),
        picked(fields@, r@) == normalized(fields@),
{
    let mut r: Vec<usize> = Vec::new();
    let mut n: usize = 0;
    assert(fields@.take(0) =~= Seq::<Field>::empty());
    assert(picked(fields@, r@) =~= Seq::<(Seq<char>, Value)>::empty());
    while n < fields.len()
        invariant
            n <= fields@.len(),
            forall|k: int| 0 <= k < r@.len() ==> (#[trigger] r@[k]) < n,
            picked(fields@, r@) == normalized(fields@.take(n as int)),
        decreases fields@.len() - n,
    {
        let ghost e = picked(fields@, r@);
        let key = fields[n].name.as_str();
        let mut i: usize = 0;
        while i < r.len() && !str_eq(fields[r[i]].name.as_str(), key) && !str_less(
            key,
            fields[r[i]].name.as_str(),
        )
            invariant
                i <= r@.len(),
                n < fields@.len(),
                key@ == fields@[n as int].name@,
                e == picked(fields@, r@),
                forall|k: int| 0 <= k < r@.len() ==> (#[trigger] r@[k]) < n,
                forall|j: int| 0 <= j < i ==> (#[trigger] e[j]).0 != key@ && !chars_lt(key@, e[j].0),
            decreases r@.len() - i,
        {
            i = i + 1;
        }
        proof {
            lemma_sorted_insert_skip(e, key@, fields@[n as int].value, i as int);
            assert(fields@.take(n + 1).drop_last() =~= fields@.take(n as int));
        }
        if i < r.len() && str_eq(fields[r[i]].name.as_str(), key) {
            r.set(i, n);
            assert(picked(fields@, r@) =~= e.take(i as int) + (seq![(key@, fields@[n as int].value)]
                + e.skip(i as int).drop_first()));
        } else {
            r.insert(i, n);
            assert(picked(fields@, r@) =~= e.take(i as int) + (seq![(key@, fields@[n as int].value)]
                + e.skip(i as int)));
        }
        n = n + 1;
    }
    assert(fields@.take(fields@.len() as int) =~= fields@);
    r
}

fn scalar_text(v: &Value) -> (r: Result<String, IniFault>)
    ensures
        match ini_scalar(*v) {
            Ok(t) => r matches Ok(s) && s@ == t,
            Err(f) => r == Err::<String, IniFault>(f),
        },
{
    match v {
        Value::String(s) => {
            let cs = chars_of(s.as_str());
            if is_padded(&cs) || has_break(&cs) {
                Err(IniFault::InvalidString)
            } else {
                Ok(s.clone())
            }
        },
        Value::Int(i) => Ok(decimal_text(*i)),
        Value::Float(f) => Ok(f.text.clone()),
        Value::Bool(b) => {
            proof {
                reveal_strlit("true");
                reveal_strlit("false");
            }
            if *b {
                Ok("true".to_owned())
            } else {
                Ok("false".to_owned())
            }
        },
        _ => Err(IniFault::InvalidEntry),
    }
}

fn push_str(out: &mut String, t: &str)
    ensures
        final(out)@ == old(out)@ + t@,
{
    crate::text::append_str(out, t);
}

/// Appends one `key = value` line.
fn push_line(out: &mut String, key: &str, v: &Value) -> (r: Result<(), IniFault>)
    ensures
        match ini_line(key@, *v) {
            Ok(l) => r is Ok && final(out)@ == old(out)@ + l,
            Err(f) => r == Err::<(), IniFault>(f),
        },
{
    if is_bad_key(key) {
        return Err(IniFault::InvalidKey);
    }
    let t = match scalar_text(v) {
        Err(f) => {
            return Err(f);
        },
        Ok(t) => t,
    };
    let ghost start = out@;
    push_str(out, key);
    push_char(out, ' ');
    push_char(out, '=');
    push_char(out, ' ');
    push_str(out, t.as_str());
    push_char(out, '\n');
    assert(out@ =~= start + (key@ + seq![' ', '=', ' '] + t@ + seq!['\n']));
    Ok(())
}

/// Appends the lines of all members of a section.
fn push_body(out: &mut String, fields: &Vec<Field>) -> (r: Result<(), IniFault>)
    ensures
        match ini_body(normalized(fields@), normalized(fields@).len() as int) {
            Ok(b) => r is Ok && final(out)@ == old(out)@ + b,
            Err(f) => r == Err::<(), IniFault>(f),
        },
{
    let idx = normalize(fields);
    let ghost e = normalized(fields@);
    let mut i: usize = 0;
    assert(out@ =~= old(out)@ + Seq::<char>::empty());
    while i < idx.len()
        invariant
            i <= idx@.len(),
            e == picked(fields@, idx@),
            e == normalized(fields@),
            forall|k: int| 0 <= k < idx@.len() ==> (#[trigger] idx@[k]) < fields@.len(),
            ini_body(e, i as int) matches Ok(b) && out@ == old(out)@ + b,
        decreases idx@.len() - i,
    {
        let ghost before = out@;
        let ghost b = ini_body(e, i as int)->Ok_0;
        let f = &fields[idx[i]];
        assert(e[i as int] == (f.name@, f.value));
        match push_line(out, f.name.as_str(), &f.value) {
            Err(x) => {
                assert(ini_line(e[i as int].0, e[i as int].1) == Err::<Seq<char>, IniFault>(x));
                assert(ini_body(e, i + 1) == Err::<Seq<char>, IniFault>(x));
                proof {
                    lemma_ini_body_stops(e, i + 1);
                }
                return Err(x);
            },
            Ok(()) => {},
        }
        assert(out@ =~= old(out)@ + (b + ini_line(e[i as int].0, e[i as int].1)->Ok_0));
        i = i + 1;
    }
    Ok(())
}

proof fn lemma_ini_body_stops(e: Seq<(Seq<char>, Value)>, n: int)
    requires
        0 <= n <= e.len(),
        ini_body(e, n) is Err,
    ensures
        ini_body(e, e.len() as int) == ini_body(e, n),
    decreases e.len() - n,
{
    if n < e.len() {
        lemma_ini_body_stops(e, n + 1);
    }
}

proof fn lemma_ini_entries_stops(e: Seq<(Seq<char>, Value)>, n: int)
    requires
        0 <= n <= e.len(),
        ini_entries(e, n) is Err,
    ensures
        ini_entries(e, e.len() as int) == ini_entries(e, n),
    decreases e.len() - n,
{
    if n < e.len() {
        lemma_ini_entries_stops(e, n + 1);
    }
}

proof fn lemma_ini_sections_stops(e: Seq<(Seq<char>, Value)>, start: Seq<char>, n: int)
    requires
        0 <= n <= e.len(),
        ini_sections(e, start, n) is Err,
    ensures
        ini_sections(e, start, e.len() as int) == ini_sections(e, start, n),
    decreases e.len() - n,
{
    if n < e.len() {
        lemma_ini_sections_stops(e, start, n + 1);
    }
}

/// Renders a value as an INI document (see `ini_spec`).
pub fn render_ini(v: &Value) -> (r: Result<String, IniFault>)
    ensures
        match ini_spec(*v) {
            Ok(t) => r matches Ok(s) && s@ == t,
            Err(f) => r == Err::<String, IniFault>(f),
        },
{
    if !is_finite_value(v) {
        return Err(IniFault::NonFinite);
    }
    let fields = match v {
        Value::Object(fields) => fields,
        _ => {
            return Err(IniFault::NotAnObject);
        },
    };
    let idx = normalize(fields);
    let ghost e = normalized(fields@);
    let mut out = String::new();
    let mut i: usize = 0;
    while i < idx.len()
        invariant
            *v == Value::Object(*fields),
            value_finite(*v),
            i <= idx@.len(),
            e == picked(fields@, idx@),
            e == normalized(fields@),
            forall|k: int| 0 <= k < idx@.len() ==> (#[trigger] idx@[k]) < fields@.len(),
            ini_entries(e, i as int) matches Ok(t) && out@ == t,
        decreases idx@.len() - i,
    {
        let ghost t = out@;
        let f = &fields[idx[i]];
        assert(e[i as int] == (f.name@, f.value));
        match &f.value {
            Value::Object(_) => {},
            _ => {
                match push_line(&mut out, f.name.as_str(), &f.value) {
                    Err(x) => {
                        proof {
                            lemma_ini_entries_stops(e, i + 1);
                        }
                        return Err(x);
                    },
                    Ok(()) => {},
                }
            },
        }
        i = i + 1;
    }
    let ghost start = out@;
    assert(ini_sections(e, start, 0) == Ok::<Seq<char>, IniFault>(start));
    let mut i: usize = 0;
    while i < idx.len()
        invariant
            *v == Value::Object(*fields),
            value_finite(*v),
            ini_entries(e, e.len() as int) == Ok::<Seq<char>, IniFault>(start),
            i <= idx@.len(),
            e == picked(fields@, idx@),
            e == normalized(fields@),
            forall|k: int| 0 <= k < idx@.len() ==> (#[trigger] idx@[k]) < fields@.len(),
            ini_sections(e, start, i as int) matches Ok(t) && out@ == t,
        decreases idx@.len() - i,
    {
        let f = &fields[idx[i]];
        assert(e[i as int] == (f.name@, f.value));
        let ghost acc = out@;
        match &f.value {
            Value::Object(inner) => {
                if is_bad_section(f.name.as_str()) {
                    proof {
                        lemma_ini_sections_stops(e, start, i + 1);
                    }
                    return Err(IniFault::InvalidSection);
                }
                if !out.as_str().is_empty() {
                    push_char(&mut out, '\n');
                }
                push_char(&mut out, '[');
                push_str(&mut out, f.name.as_str());
                push_char(&mut out, ']');
                push_char(&mut out, '\n');
                assert(out@ =~= (if acc.len() > 0 {
                    acc.push('\n')
                } else {
                    acc
                }) + seq!['['] + f.name@ + seq![']', '\n']);
                match push_body(&mut out, inner) {
                    Err(x) => {
                        proof {
                            lemma_ini_sections_stops(e, start, i + 1);
                        }
                        return Err(x);
                    },
                    Ok(()) => {},
                }
            },
            _ => {},
        }
        i = i + 1;
    }
    Ok(out)
}

/// The formats that an outside serializer renders.
pub open spec fn outside_format(format: Seq<char>) -> bool {
    format == "json"@ || format == "yaml"@ || format == "toml"@
}

/// An output's text in a format: the serializer's text for JSON, YAML and
/// TOML (`outside`, the text or the failure's message), an INI document, or
/// the value itself for `text`; other names are unsupported.
pub open spec fn render_spec(format: Seq<char>, v: Value, outside: Result<Seq<char>, Seq<char>>) -> Result<
    Seq<char>,
    RenderFaultView,
> {
    if outside_format(format) {
        match outside {
            Ok(t) => Ok(t),
            Err(m) => Err(RenderFaultView::Outside(m)),
        }
    } else if format == "ini"@ {
        match ini_spec(v) {
            Ok(t) => Ok(t),
            Err(f) => Err(RenderFaultView::Ini(f)),
        }
    } else if format == "text"@ {
        match v {
            Value::String(s) => Ok(s@),
            _ => Err(RenderFaultView::ExpectedString),
        }
    } else {
        Err(RenderFaultView::UnsupportedFormat)
    }
}

/// The view of a serializer's outcome.
pub open spec fn outside_view(o: Result<String, Failure>) -> Result<Seq<char>, Seq<char>> {
    match o {
        Ok(t) => Ok(t@),
        Err(f) => Err(f.message@),
    }
}

/// Whether an outside serializer renders the format.
pub fn is_outside_format(format: &str) -> (r: bool)
    ensures
        r == outside_format(format@),
{
    str_eq(format, "json") || str_eq(format, "yaml") || str_eq(format, "toml")
}

/// Renders a value in a format (see `render_spec`).
pub fn render(format: &str, v: &Value, outside: &Result<String, Failure>) -> (r: Result<String, RenderFault>)
    ensures
        match render_spec(format@, *v, outside_view(*outside)) {
            Ok(t) => r matches Ok(s) && s@ == t,
            Err(f) => r matches Err(g) && g@ == f,
        },
{
    if is_outside_format(format) {
        match outside {
            Ok(t) => Ok(t.clone()),
            Err(f) => Err(RenderFault::Outside(f.duplicate())),
        }
    } else if str_eq(format, "ini") {
        match render_ini(v) {
            Ok(t) => Ok(t),
            Err(f) => Err(RenderFault::Ini(f)),
        }
    } else if str_eq(format, "text") {
        match v {
            Value::String(s) => Ok(s.clone()),
            _ => Err(RenderFault::ExpectedString),
        }
    } else {
        Err(RenderFault::UnsupportedFormat)
    }
}

} // verus!

verus! {

proof fn lemma_entries_ok(e: Seq<(Seq<char>, Value)>, n: int)
    requires
        0 <= n <= e.len(),
        ini_entries(e, n) is Ok,
    ensures
        forall|k: int| 0 <= k < n && !((#[trigger] e[k]).1 is Object) ==> ini_line(e[k].0, e[k].1) is Ok,
    decreases n,
{
    if n > 0 {
        lemma_entries_ok(e, n - 1);
    }
}

proof fn lemma_body_ok(e: Seq<(Seq<char>, Value)>, n: int)
    requires
        0 <= n <= e.len(),
        ini_body(e, n) is Ok,
    ensures
        forall|k: int| 0 <= k < n ==> ini_line((#[trigger] e[k]).0, e[k].1) is Ok,
    decreases n,
{
    if n > 0 {
        lemma_body_ok(e, n - 1);
    }
}

proof fn lemma_sections_ok(e: Seq<(Seq<char>, Value)>, start: Seq<char>, n: int)
    requires
        0 <= n <= e.len(),
        ini_sections(e, start, n) is Ok,
    ensures
        forall|k: int|
            0 <= k < n && (#[trigger] e[k]).1 is Object ==> !bad_section(e[k].0) && ini_body(
                normalized(e[k].1->Object_0@),
                normalized(e[k].1->Object_0@).len() as int,
            ) is Ok,
    decreases n,
{
    if n > 0 {
        lemma_sections_ok(e, start, n - 1);
    }
}

/// A value whose members are all valid INI entries.
pub open spec fn flat_entries(fields: Seq<Field>) -> bool {
    forall|k: int|
        0 <= k < normalized(fields).len() ==> !bad_key(#[trigger] normalized(fields)[k].0) && ini_scalar(
            normalized(fields)[k].1,
        ) is Ok
}

/// An INI document exists only for an object whose members, keyed as INI
/// allows, are scalars (numbers, booleans, or strings without line breaks
/// or surrounding whitespace) or sections: objects of such scalars under a
/// name without brackets or line breaks. Arrays, nulls and deeper nesting
/// have no INI form.
pub proof fn law_ini_is_flat(v: Value)
    requires
        ini_spec(v) is Ok,
    ensures
        v is Object,
        forall|k: int|
            0 <= k < normalized(v->Object_0@).len() ==> {
                let (key, x) = #[trigger] normalized(v->Object_0@)[k];
                ||| !bad_key(key) && ini_scalar(x) is Ok
                ||| x is Object && !bad_section(key) && flat_entries(x->Object_0@)
            },
{
    let fields = v->Object_0;
    let e = normalized(fields@);
    lemma_entries_ok(e, e.len() as int);
    let t = ini_entries(e, e.len() as int)->Ok_0;
    lemma_sections_ok(e, t, e.len() as int);
    assert forall|k: int| 0 <= k < e.len() implies {
        let (key, x) = #[trigger] e[k];
        ||| !bad_key(key) && ini_scalar(x) is Ok
        ||| x is Object && !bad_section(key) && flat_entries(x->Object_0@)
    } by {
        if e[k].1 is Object {
            let inner = normalized(e[k].1->Object_0@);
            lemma_body_ok(inner, inner.len() as int);
        }
    }
}

} // verus!

verus! {

/// The number that a run of decimal digits denotes, most significant first.
pub open spec fn digits_value(s: Seq<char>) -> int
    decreases s.len(),
{
    if s.len() == 0 {
        0
    } else {
        digits_value(s.drop_last()) * 10 + (s.last() as int - '0' as int)
    }
}

/// The integer that a decimal text denotes, with an optional leading `-`.
pub open spec fn decimal_value(s: Seq<char>) -> int {
    if s.len() > 0 && s[0] == '-' {
        -digits_value(s.drop_first())
    } else {
        digits_value(s)
    }
}

/// Every character of `s` is a decimal digit, and there is at least one.
pub open spec fn all_digits(s: Seq<char>) -> bool {
    s.len() > 0 && forall|k: int| 0 <= k < s.len() ==> '0' <= #[trigger] s[k] <= '9'
}

proof fn lemma_digits_read_back(n: nat)
    ensures
        all_digits(digits(n)),
        digits_value(digits(n)) == n,
    decreases n,
{
    let m = n % 10;
    assert(digit_char(m) as int == 48 + m);
    if n >= 10 {
        lemma_digits_read_back(n / 10);
        let d = digits(n);
        assert(d.drop_last() =~= digits(n / 10));
        assert(d.last() == digit_char(m));
        assert((n / 10) * 10 + n % 10 == n) by (nonlinear_arith);
        assert(digits_value(d) == digits_value(digits(n / 10)) * 10 + m);
    } else {
        assert(digits(n).drop_last() =~= Seq::<char>::empty());
        assert(digits_value(digits(n)) == digits_value(Seq::<char>::empty()) * 10 + m);
    }
}

/// The decimal text of an integer reads back as that integer, and is made
/// of digits after an optional `-`.
pub proof fn law_decimal_reads_back(i: int)
    ensures
        decimal_value(decimal(i)) == i,
        i < 0 ==> decimal(i)[0] == '-' && all_digits(decimal(i).drop_first()),
        i >= 0 ==> all_digits(decimal(i)),
{
    if i < 0 {
        lemma_digits_read_back((-i) as nat);
        assert((seq!['-'] + digits((-i) as nat)).drop_first() =~= digits((-i) as nat));
    } else {
        lemma_digits_read_back(i as nat);
    }
}

/// An INI value is written as what it holds: a boolean as `true` when it
/// is true and `false` when it is false, an integer as decimal text that
/// reads back as the integer, and an accepted string as itself.
pub proof fn law_ini_scalars_keep_their_value(v: Value)
    ensures
        v matches Value::Bool(b) ==> ini_scalar(v) == Ok::<Seq<char>, IniFault>(
            if b {
                seq!['t', 'r', 'u', 'e']
            } else {
                seq!['f', 'a', 'l', 's', 'e']
            },
        ),
        v matches Value::Int(i) ==> ini_scalar(v) matches Ok(t) && decimal_value(t) == i,
        v matches Value::String(s) ==> (ini_scalar(v) is Ok ==> ini_scalar(v) == Ok::<Seq<char>, IniFault>(s@)),
        v matches Value::String(s) ==> (!padded(s@) && !s@.contains('\n') && !s@.contains('\r') && !s@.contains('\0')
            <==> ini_scalar(v) is Ok),
        v matches Value::String(s) ==> (ini_scalar(v) is Err ==> ini_scalar(v) == Err::<Seq<char>, IniFault>(
            IniFault::InvalidString,
        )),
        v matches Value::Float(f) ==> ini_scalar(v) == Ok::<Seq<char>, IniFault>(f.text@),
        (v is Null || v is Array || v is Object) ==> ini_scalar(v) == Err::<Seq<char>, IniFault>(IniFault::InvalidEntry),
{
    reveal_strlit("true");
    reveal_strlit("false");
    assert("true"@ =~= seq!['t', 'r', 'u', 'e']);
    assert("false"@ =~= seq!['f', 'a', 'l', 's', 'e']);
    if let Value::Int(i) = v {
        law_decimal_reads_back(i as int);
    }
}

/// A plain-text output is the string it is given, unchanged, whatever a
/// serializer would say; anything but a string is refused.
pub proof fn law_text_output_is_the_string(v: Value, outside: Result<Seq<char>, Seq<char>>)
    ensures
        v matches Value::String(s) ==> render_spec(seq!['t', 'e', 'x', 't'], v, outside) == Ok::<
            Seq<char>,
            RenderFaultView,
        >(s@),
        !(v is String) ==> render_spec(seq!['t', 'e', 'x', 't'], v, outside) == Err::<Seq<char>, RenderFaultView>(
            RenderFaultView::ExpectedString,
        ),
{
    reveal_strlit("text");
    reveal_strlit("ini");
    reveal_strlit("json");
    reveal_strlit("yaml");
    reveal_strlit("toml");
    assert("text"@ =~= seq!['t', 'e', 'x', 't']);
    assert("json"@[0] != 't');
    assert("yaml"@[0] != 't');
    assert("toml"@[1] != 'e');
    assert("ini"@.len() != 4);
}

} // verus!
