//! JSON values, and how they are shown.
use vstd::prelude::*;
use crate::lexical::text_less;
#[allow(unused_imports)]
use crate::lexical::{lemma_text_order, text_lt};
use crate::text::{push_dec, push_dec_int};
#[allow(unused_imports)]
use crate::text::{dec, dec_int};

verus! {

/// A number.
#[derive(Debug, PartialEq, Eq)]
pub enum JsonNumber {
    Unsigned(u64),
    /// A number below zero.
    Negative(i64),
    /// A number that is no integer, as it is written.
    Other(String),
}

/// A JSON value.
#[derive(Debug, PartialEq, Eq)]
pub enum JsonValue {
    Null,
    Bool(bool),
    Number(JsonNumber),
    Text(String),
    Array(Vec<JsonValue>),
    /// The fields of an object, in the order of their keys.
    Object(Vec<JsonField>),
}

/// One field of an object.
#[derive(Debug, PartialEq, Eq)]
pub struct JsonField {
    pub key: String,
    pub value: JsonValue,
}

/// A number, as a value.
pub enum NumberView {
    Unsigned(u64),
    Negative(i64),
    Other(Seq<char>),
}

/// A JSON value, as a value.
pub enum JsonView {
    Null,
    Bool(bool),
    Number(NumberView),
    Text(Seq<char>),
    Array(Seq<JsonView>),
    Object(Seq<FieldView>),
}

/// One field of an object, as a value.
pub struct FieldView {
    pub key: Seq<char>,
    pub value: JsonView,
}

/// A number, as a value.
pub open spec fn number_view(n: JsonNumber) -> NumberView {
    match n {
        JsonNumber::Unsigned(n) => NumberView::Unsigned(n),
        JsonNumber::Negative(n) => NumberView::Negative(n),
        JsonNumber::Other(s) => NumberView::Other(s@),
    }
}

/// A JSON value, as a value.
pub open spec fn json_view(v: JsonValue) -> JsonView
    decreases v, 0nat,
{
    match v {
        JsonValue::Null => JsonView::Null,
        JsonValue::Bool(b) => JsonView::Bool(b),
        JsonValue::Number(n) => JsonView::Number(number_view(n)),
        JsonValue::Text(s) => JsonView::Text(s@),
        JsonValue::Array(a) => JsonView::Array(list_views(a@, a@.len())),
        JsonValue::Object(f) => JsonView::Object(field_views(f@, f@.len())),
    }
}

/// The first `n` values of a list.
pub open spec fn list_views(s: Seq<JsonValue>, n: nat) -> Seq<JsonView>
    decreases s, n,
{
    if n == 0 || n > s.len() {
        Seq::empty()
    } else {
        list_views(s, (n - 1) as nat).push(json_view(s[n - 1]))
    }
}

/// The first `n` fields of an object.
pub open spec fn field_views(s: Seq<JsonField>, n: nat) -> Seq<FieldView>
    decreases s, n,
{
    if n == 0 || n > s.len() {
        Seq::empty()
    } else {
        field_views(s, (n - 1) as nat).push(FieldView { key: s[n - 1].key@, value: json_view(s[n - 1].value) })
    }
}

impl View for JsonValue {
    type V = JsonView;

    open spec fn view(&self) -> JsonView {
        json_view(*self)
    }
}

impl View for JsonField {
    type V = FieldView;

    open spec fn view(&self) -> FieldView {
        FieldView { key: self.key@, value: self.value@ }
    }
}

/// The fields of an object, as values.
pub open spec fn fields_of(s: Seq<JsonField>) -> Seq<FieldView> {
    field_views(s, s.len())
}

/// The views of a list are those of its members.
pub proof fn lemma_list_views(s: Seq<JsonValue>, n: nat)
    requires
        n <= s.len(),
    ensures
        list_views(s, n).len() == n,
        forall|i: int| 0 <= i < n ==> #[trigger] list_views(s, n)[i] == s[i]@,
    decreases n,
{
    if n > 0 {
        lemma_list_views(s, (n - 1) as nat);
    }
}

/// The views of the fields of an object are those of each field.
pub proof fn lemma_field_views(s: Seq<JsonField>, n: nat)
    requires
        n <= s.len(),
    ensures
        field_views(s, n).len() == n,
        forall|i: int| 0 <= i < n ==> #[trigger] field_views(s, n)[i] == s[i]@,
    decreases n,
{
    if n > 0 {
        lemma_field_views(s, (n - 1) as nat);
    }
}

/// A number as it is written.
pub open spec fn number_text(n: NumberView) -> Seq<char> {
    match n {
        NumberView::Unsigned(n) => dec(n as nat),
        NumberView::Negative(n) => dec_int(n as int),
        NumberView::Other(s) => s,
    }
}

/// A value as it is shown.
pub open spec fn json_text(v: JsonView) -> Seq<char>
    decreases v, 0nat,
{
    match v {
        JsonView::Null => "null"@,
        JsonView::Bool(b) => if b { "true"@ } else { "false"@ },
        JsonView::Number(n) => number_text(n),
        JsonView::Text(s) => "\""@ + s + "\""@,
        JsonView::Array(a) => "["@ + items_text(a, a.len()) + "]"@,
        JsonView::Object(f) => "{"@ + fields_text(f, f.len(), ": "@) + "}"@,
    }
}

/// The first `n` values of a list, with commas between them.
pub open spec fn items_text(s: Seq<JsonView>, n: nat) -> Seq<char>
    decreases s, n,
{
    if n == 0 || n > s.len() {
        Seq::empty()
    } else if n == 1 {
        json_text(s[0])
    } else {
        items_text(s, (n - 1) as nat) + ", "@ + json_text(s[n - 1])
    }
}

/// The first `n` fields of an object, with `mark` between key and value and commas between the fields.
pub open spec fn fields_text(s: Seq<FieldView>, n: nat, mark: Seq<char>) -> Seq<char>
    decreases s, n,
{
    if n == 0 || n > s.len() {
        Seq::empty()
    } else {
        let own = s[n - 1].key + mark + json_text(s[n - 1].value);
        if n == 1 { own } else { fields_text(s, (n - 1) as nat, mark) + ", "@ + own }
    }
}

fn number_string(n: &JsonNumber) -> (r: String)
    ensures
        r@ == number_text(number_view(*n)),
{
    let mut s = String::new();
    match n {
        JsonNumber::Unsigned(n) => {
            push_dec(&mut s, *n);
        },
        JsonNumber::Negative(n) => {
            push_dec_int(&mut s, *n);
        },
        JsonNumber::Other(t) => {
            s.append(t.as_str());
        },
    }
    assert(s@ =~= number_text(number_view(*n)));
    s
}

/// A value as it is shown.
pub fn format_json_value(v: &JsonValue) -> (r: String)
    ensures
        r@ == json_text(v@),
    decreases v, 0nat,
{
    match v {
        JsonValue::Null => String::from_str("null"),
        JsonValue::Bool(b) => if *b {
            String::from_str("true")
        } else {
            String::from_str("false")
        },
        JsonValue::Number(n) => number_string(n),
        JsonValue::Text(t) => {
            let mut s = String::from_str("\"");
            s.append(t.as_str());
            s.append("\"");
            s
        },
        JsonValue::Array(a) => {
            let ghost all = list_views(a@, a@.len());
            proof {
                lemma_list_views(a@, a@.len());
            }
            let mut items = String::new();
            let mut i: usize = 0;
            assert(items@ =~= items_text(all, 0));
            while i < a.len()
                invariant
                    i <= a@.len(),
                    *v == JsonValue::Array(*a),
                    all.len() == a@.len(),
                    forall|j: int| 0 <= j < all.len() ==> #[trigger] all[j] == a@[j]@,
                    items@ == items_text(all, i as nat),
                decreases a.len() - i,
            {
                assert(decreases_to!(a@ => a@[i as int]));
                assert(decreases_to!(*a => a@));
                assert(decreases_to!(*v => (*v)->Array_0));
                let item = format_json_value(&a[i]);
                assert(all[i as int] == a@[i as int]@);
                if i > 0 {
                    items.append(", ");
                }
                items.append(item.as_str());
                assert(items@ =~= items_text(all, (i + 1) as nat));
                i += 1;
            }
            let mut s = String::from_str("[");
            s.append(items.as_str());
            s.append("]");
            s
        },
        JsonValue::Object(f) => {
            assert(decreases_to!(*v => (*v)->Object_0));
            let items = format_fields(f, ": ");
            let mut s = String::from_str("{");
            s.append(items.as_str());
            s.append("}");
            proof {
                lemma_field_views(f@, f@.len());
            }
            s
        },
    }
}

/// The fields of an object, with `mark` between key and value.
pub fn format_fields(f: &Vec<JsonField>, mark: &str) -> (r: String)
    ensures
        r@ == fields_text(fields_of(f@), f@.len(), mark@),
    decreases f, 1nat,
{
    let ghost all = fields_of(f@);
    proof {
        lemma_field_views(f@, f@.len());
    }
    let mut items = String::new();
    let mut i: usize = 0;
    assert(items@ =~= fields_text(all, 0, mark@));
    while i < f.len()
        invariant
            i <= f@.len(),
            all.len() == f@.len(),
            forall|j: int| 0 <= j < all.len() ==> #[trigger] all[j] == f@[j]@,
            items@ == fields_text(all, i as nat, mark@),
        decreases f.len() - i,
    {
        let mut item = f[i].key.clone();
        assert(decreases_to!(f@ => f@[i as int]));
        assert(decreases_to!(*f => f@));
        assert(decreases_to!(f@[i as int] => f@[i as int].value));
        let value = format_json_value(&f[i].value);
        assert(all[i as int] == f@[i as int]@);
        item.append(mark);
        item.append(value.as_str());
        if i > 0 {
            items.append(", ");
        }
        items.append(item.as_str());
        assert(items@ =~= fields_text(all, (i + 1) as nat, mark@));
        i += 1;
    }
    items
}

fn copy_number(n: &JsonNumber) -> (r: JsonNumber)
    ensures
        number_view(r) == number_view(*n),
{
    match n {
        JsonNumber::Unsigned(n) => JsonNumber::Unsigned(*n),
        JsonNumber::Negative(n) => JsonNumber::Negative(*n),
        JsonNumber::Other(s) => JsonNumber::Other(s.clone()),
    }
}

impl JsonValue {
    /// A copy.
    pub fn copy(&self) -> (r: JsonValue)
        ensures
            r@ == self@,
        decreases self,
    {
        match self {
            JsonValue::Null => JsonValue::Null,
            JsonValue::Bool(b) => JsonValue::Bool(*b),
            JsonValue::Number(n) => JsonValue::Number(copy_number(n)),
            JsonValue::Text(s) => JsonValue::Text(s.clone()),
            JsonValue::Array(a) => {
                let mut r: Vec<JsonValue> = Vec::new();
                let mut i: usize = 0;
                while i < a.len()
                    invariant
                        i <= a@.len(),
                        *self == JsonValue::Array(*a),
                        r@.len() == i,
                        forall|j: int| 0 <= j < i ==> (#[trigger] r@[j])@ == a@[j]@,
                    decreases a.len() - i,
                {
                    assert(decreases_to!(a@ => a@[i as int]));
                    assert(decreases_to!(*a => a@));
                    assert(decreases_to!(*self => (*self)->Array_0));
                    r.push(a[i].copy());
                    i += 1;
                }
                proof {
                    lemma_list_views(a@, a@.len());
                    lemma_list_views(r@, r@.len());
                    assert(list_views(r@, r@.len()) =~= list_views(a@, a@.len()));
                }
                JsonValue::Array(r)
            },
            JsonValue::Object(f) => {
                let mut r: Vec<JsonField> = Vec::new();
                let mut i: usize = 0;
                while i < f.len()
                    invariant
                        i <= f@.len(),
                        *self == JsonValue::Object(*f),
                        r@.len() == i,
                        forall|j: int| 0 <= j < i ==> (#[trigger] r@[j])@ == f@[j]@,
                    decreases f.len() - i,
                {
                    assert(decreases_to!(f@ => f@[i as int]));
                    assert(decreases_to!(*f => f@));
                    assert(decreases_to!(*self => (*self)->Object_0));
                    assert(decreases_to!(f@[i as int] => f@[i as int].value));
                    r.push(JsonField { key: f[i].key.clone(), value: f[i].value.copy() });
                    i += 1;
                }
                proof {
                    lemma_field_views(f@, f@.len());
                    lemma_field_views(r@, r@.len());
                    assert(field_views(r@, r@.len()) =~= field_views(f@, f@.len()));
                }
                JsonValue::Object(r)
            },
        }
    }
}

/// The fields with one more: in the place of the one with its key, or between its neighbours.
pub open spec fn with_field(s: Seq<FieldView>, f: FieldView) -> Seq<FieldView>
    decreases s.len(),
{
    if s.len() == 0 || text_lt(s.last().key, f.key) {
        s.push(f)
    } else if s.last().key == f.key {
        s.drop_last().push(f)
    } else {
        with_field(s.drop_last(), f).push(s.last())
    }
}

/// The keys come in order, and none comes twice.
pub open spec fn in_key_order(s: Seq<FieldView>) -> bool {
    forall|i: int, j: int| 0 <= i < j < s.len() ==> text_lt(#[trigger] s[i].key, #[trigger] s[j].key)
}

/// The value of a key.
pub open spec fn value_of(s: Seq<FieldView>, key: Seq<char>) -> Option<JsonView>
    decreases s.len(),
{
    if s.len() == 0 {
        None
    } else if s.last().key == key {
        Some(s.last().value)
    } else {
        value_of(s.drop_last(), key)
    }
}

proof fn lemma_absent_above(s: Seq<FieldView>, key: Seq<char>)
    requires
        in_key_order(s),
        s.len() > 0 ==> text_lt(s.last().key, key),
    ensures
        value_of(s, key) is None,
        forall|i: int| 0 <= i < s.len() ==> text_lt(#[trigger] s[i].key, key),
    decreases s.len(),
{
    if s.len() > 0 {
        lemma_text_order(s.last().key, key, key);
        let d = s.drop_last();
        if d.len() > 0 {
            assert(text_lt(s[s.len() - 2].key, s[s.len() - 1].key));
            lemma_text_order(d.last().key, s.last().key, key);
        }
        lemma_absent_above(d, key);
        assert forall|i: int| 0 <= i < s.len() implies text_lt(#[trigger] s[i].key, key) by {
            if i < d.len() {
                assert(d[i] == s[i]);
            }
        }
    }
}

/// A field that was added has its value, every other field keeps its own, and the keys stay in order.
pub proof fn lemma_with_field(s: Seq<FieldView>, f: FieldView)
    requires
        in_key_order(s),
    ensures
        in_key_order(with_field(s, f)),
        value_of(with_field(s, f), f.key) == Some(f.value),
        forall|k: Seq<char>| k != f.key ==> #[trigger] value_of(with_field(s, f), k) == value_of(s, k),
        forall|i: int|
            0 <= i < with_field(s, f).len() ==> (#[trigger] with_field(s, f)[i]).key == f.key || exists|j: int|
                0 <= j < s.len() && s[j].key == with_field(s, f)[i].key,
    decreases s.len(),
{
    let r = with_field(s, f);
    if s.len() == 0 {
        assert(r.drop_last() =~= s);
    } else if text_lt(s.last().key, f.key) {
        lemma_absent_above(s, f.key);
        assert(r.drop_last() =~= s);
        assert forall|i: int|
            0 <= i < r.len() implies (#[trigger] r[i]).key == f.key || exists|j: int| 0 <= j < s.len() && s[j].key == r[i].key by {
            if i < s.len() {
                assert(s[i].key == r[i].key);
            }
        }
    } else if s.last().key == f.key {
        let d = s.drop_last();
        assert(r.drop_last() =~= d);
        assert forall|i: int, j: int| 0 <= i < j < r.len() implies text_lt(#[trigger] r[i].key, #[trigger] r[j].key) by {
            assert(text_lt(s[i].key, s[j].key));
        }
        assert forall|i: int|
            0 <= i < r.len() implies (#[trigger] r[i]).key == f.key || exists|j: int| 0 <= j < s.len() && s[j].key == r[i].key by {
            assert(s[i].key == r[i].key);
        }
    } else {
        let d = s.drop_last();
        lemma_with_field(d, f);
        let q = with_field(d, f);
        assert(r.drop_last() =~= q);
        lemma_text_order(f.key, s.last().key, f.key);
        assert forall|i: int| 0 <= i < q.len() implies text_lt(#[trigger] q[i].key, s.last().key) by {
            if q[i].key != f.key {
                let j = choose|j: int| 0 <= j < d.len() && d[j].key == q[i].key;
                assert(text_lt(s[j].key, s[s.len() - 1].key));
            }
        }
        assert forall|i: int, j: int| 0 <= i < j < r.len() implies text_lt(#[trigger] r[i].key, #[trigger] r[j].key) by {
            if j < q.len() {
                assert(text_lt(q[i].key, q[j].key));
            } else {
                assert(text_lt(q[i].key, s.last().key));
            }
        }
        assert forall|i: int|
            0 <= i < r.len() implies (#[trigger] r[i]).key == f.key || exists|j: int| 0 <= j < s.len() && s[j].key == r[i].key by {
            if i < q.len() {
                assert(q[i] == r[i]);
                if q[i].key != f.key {
                    let j = choose|j: int| 0 <= j < d.len() && d[j].key == q[i].key;
                    assert(s[j].key == r[i].key);
                }
            } else {
                assert(s[s.len() - 1].key == r[i].key);
            }
        }
    }
    assert forall|k: Seq<char>| k != f.key implies #[trigger] value_of(r, k) == value_of(s, k) by {
        if s.len() > 0 && !text_lt(s.last().key, f.key) {
            if s.last().key != f.key {
                assert(value_of(with_field(s.drop_last(), f), k) == value_of(s.drop_last(), k));
            }
        }
    }
}

/// Adds a field to an object: in the place of the one with its key, or between its neighbours.
pub fn insert_field(fields: &mut Vec<JsonField>, key: String, value: JsonValue)
    ensures
        fields_of(final(fields)@) == with_field(fields_of(old(fields)@), FieldView { key: key@, value: value@ }),
{
    let ghost before = fields@;
    let ghost s = fields_of(before);
    let f = JsonField { key, value };
    let ghost fv = f@;
    proof {
        lemma_field_views(before, before.len());
    }
    let mut p: usize = fields.len();
    while p > 0 && text_less(f.key.as_str(), fields[p - 1].key.as_str())
        invariant
            p <= fields@.len(),
            fields@ == before,
            s == fields_of(before),
            s.len() == before.len(),
            fv == f@,
            forall|i: int| 0 <= i < s.len() ==> #[trigger] s[i] == before[i]@,
            forall|i: int| p <= i < s.len() ==> text_lt(fv.key, #[trigger] s[i].key),
        decreases p,
    {
        assert(s[p - 1] == before[p - 1]@);
        p -= 1;
    }
    if p > 0 {
        assert(s[p - 1] == before[p - 1]@);
        if !text_less(fields[p - 1].key.as_str(), f.key.as_str()) {
            proof {
                lemma_text_order(s[p - 1].key, fv.key, fv.key);
                lemma_put(s, fv, p as int, true);
                let after = before.update(p - 1, f);
                lemma_field_views(after, after.len());
                assert(fields_of(after) =~= s.update(p - 1, fv));
            }
            fields.set(p - 1, f);
            return;
        }
    }
    proof {
        lemma_put(s, fv, p as int, false);
        let after = before.insert(p as int, f);
        lemma_field_views(after, after.len());
        assert(fields_of(after) =~= s.insert(p as int, fv));
    }
    fields.insert(p, f);
}

proof fn lemma_put(s: Seq<FieldView>, f: FieldView, p: int, same: bool)
    requires
        0 <= p <= s.len(),
        forall|i: int| p <= i < s.len() ==> text_lt(f.key, #[trigger] s[i].key),
        same ==> p > 0 && s[p - 1].key == f.key,
        !same && p > 0 ==> text_lt(s[p - 1].key, f.key),
    ensures
        with_field(s, f) == if same { s.update(p - 1, f) } else { s.insert(p, f) },
    decreases s.len(),
{
    if s.len() == p {
        if same {
            lemma_text_order(f.key, f.key, f.key);
            assert(s.update(p - 1, f) =~= s.drop_last().push(f));
        } else {
            assert(s.insert(p, f) =~= s.push(f));
        }
    } else {
        assert(text_lt(f.key, s[s.len() - 1].key));
        lemma_text_order(f.key, s.last().key, f.key);
        lemma_put(s.drop_last(), f, p, same);
        if same {
            assert(s.update(p - 1, f) =~= s.drop_last().update(p - 1, f).push(s.last()));
        } else {
            assert(s.insert(p, f) =~= s.drop_last().insert(p, f).push(s.last()));
        }
    }
}

} // verus!
