//! The actions of a run: how each is recorded, described, and read back from its description.
use vstd::prelude::*;
use crate::json::{format_fields, insert_field, JsonField, JsonNumber, JsonValue};
#[allow(unused_imports)]
use crate::json::{
    fields_of, fields_text, in_key_order, json_text, lemma_field_views, with_field, FieldView, JsonView,
    NumberView,
};
#[allow(unused_imports)]
use crate::lexical::text_lt;
use crate::number::{parse_i64, parse_u64};
#[allow(unused_imports)]
use crate::number::{at_most, is_digit, lemma_digits, lemma_number_read_back, signed_value, unsigned_value};
use crate::text::{push_dec, push_dec_wide, same_text, split_at_first, split_text, strip_end, trim_end};
#[allow(unused_imports)]
use crate::text::{
    contains_text, dec, dec_int, joined, lemma_parts_joined, lemma_split_at, lemma_split_first, lemma_without_end,
    occurs_at, parts_between, split_first, stands_apart, texts, trimmed_end, without_end,
};

verus! {

/// The record of one action.
#[derive(Debug, PartialEq, Eq)]
pub struct ActionRecord {
    pub name: String,
    /// The parameters, as a JSON object.
    pub params: JsonValue,
    pub success: bool,
    /// The error code of the last transaction, where it had one.
    pub error_code: Option<u32>,
}

/// The record of one action, as a value.
pub struct RecordView {
    pub name: Seq<char>,
    pub params: JsonView,
    pub success: bool,
    pub error_code: Option<u32>,
}

impl View for ActionRecord {
    type V = RecordView;

    open spec fn view(&self) -> RecordView {
        RecordView { name: self.name@, params: self.params@, success: self.success, error_code: self.error_code }
    }
}

/// Some records, as values.
pub open spec fn record_views(v: Seq<ActionRecord>) -> Seq<RecordView> {
    Seq::new(v.len(), |i: int| v[i]@)
}

impl ActionRecord {
    /// A copy.
    pub fn copy(&self) -> (r: ActionRecord)
        ensures
            r@ == self@,
    {
        ActionRecord {
            name: self.name.clone(),
            params: self.params.copy(),
            success: self.success,
            error_code: self.error_code,
        }
    }
}

/// The parameters of an action as they are shown; nothing where they are no object.
pub open spec fn params_text(params: JsonView) -> Seq<char> {
    match params {
        JsonView::Object(f) => fields_text(f, f.len(), "="@),
        _ => Seq::empty(),
    }
}

fn params_string(params: &JsonValue) -> (r: String)
    ensures
        r@ == params_text(params@),
{
    match params {
        JsonValue::Object(f) => {
            proof {
                lemma_field_views(f@, f@.len());
            }
            format_fields(f, "=")
        },
        _ => {
            let s = String::new();
            assert(s@ =~= Seq::<char>::empty());
            s
        },
    }
}

/// What is said of the outcome of an action.
pub open spec fn status_text(success: bool) -> Seq<char> {
    if success { "OK"@ } else { "FAIL"@ }
}

/// One action in one line: its name, its parameters in brackets where it has any, and its outcome.
pub open spec fn line_text(r: RecordView) -> Seq<char> {
    let params = params_text(r.params);
    if params.len() == 0 {
        r.name + " -> "@ + status_text(r.success)
    } else {
        r.name + "("@ + params + ") -> "@ + status_text(r.success)
    }
}

/// One action in one line.
pub fn format_action_oneline(record: &ActionRecord) -> (r: String)
    ensures
        r@ == line_text(record@),
{
    let params = params_string(&record.params);
    let mut s = record.name.clone();
    if params.as_str().unicode_len() == 0 {
        s.append(" -> ");
    } else {
        s.append("(");
        s.append(params.as_str());
        s.append(") -> ");
    }
    s.append(
        if record.success {
            "OK"
        } else {
            "FAIL"
        },
    );
    s
}

/// All actions, one in each line.
pub open spec fn lines_text(s: Seq<RecordView>) -> Seq<char> {
    joined(Seq::new(s.len(), |i: int| line_text(s[i])), "\n"@)
}

/// All actions, one in each line.
pub fn format_records(records: &Vec<ActionRecord>) -> (r: String)
    ensures
        r@ == lines_text(record_views(records@)),
{
    let mut lines: Vec<String> = Vec::new();
    let mut i: usize = 0;
    while i < records.len()
        invariant
            i <= records@.len(),
            lines@.len() == i,
            forall|j: int| 0 <= j < i ==> (#[trigger] lines@[j])@ == line_text(records@[j]@),
        decreases records.len() - i,
    {
        lines.push(format_action_oneline(&records[i]));
        i += 1;
    }
    proof {
        let v = record_views(records@);
        assert(texts(lines@) =~= Seq::new(v.len(), |i: int| line_text(v[i])));
    }
    let mut s = String::new();
    crate::text::push_joined(&mut s, &lines, "\n");
    assert(s@ =~= lines_text(record_views(records@)));
    s
}

/// The last action in one line; nothing where there is none.
pub open spec fn last_text(s: Seq<RecordView>) -> Seq<char> {
    if s.len() == 0 { Seq::empty() } else { line_text(s.last()) }
}

/// What is said of the action that broke an invariant.
pub open spec fn marker_text(violation: Option<usize>, i: int) -> Seq<char> {
    if violation is Some && violation->0 == i { " [VIOLATION]"@ } else { ""@ }
}

/// One line of the report on a run.
pub open spec fn numbered_line(r: RecordView, i: int, violation: Option<usize>) -> Seq<char> {
    "  "@ + dec((i + 1) as nat) + ". "@ + line_text(r) + marker_text(violation, i) + "\n"@
}

/// The lines of the report on a run.
pub open spec fn numbered_lines(s: Seq<RecordView>, violation: Option<usize>) -> Seq<char>
    decreases s.len(),
{
    if s.len() == 0 {
        Seq::empty()
    } else {
        numbered_lines(s.drop_last(), violation) + numbered_line(s.last(), s.len() - 1, violation)
    }
}

/// How many actions were not run.
pub open spec fn skipped_count(total: usize, executed: nat) -> int {
    if total > executed { total - executed } else { 0 }
}

/// What is said of the actions that were not run.
pub open spec fn skipped_text(n: int) -> Seq<char> {
    if n > 0 { "  ... "@ + dec(n as nat) + " action(s) not executed (stopped on violation)\n"@ } else { ""@ }
}

/// The report on a run: how many actions ran, each of them, and how many did not run. Nothing where
/// there was none.
pub open spec fn sequence_text(s: Seq<RecordView>, total: usize, violation: Option<usize>) -> Seq<char> {
    let skipped = skipped_count(total, s.len());
    if s.len() == 0 && total == 0 {
        Seq::empty()
    } else {
        "\n=== FUZZ SEQUENCE ("@ + dec(s.len()) + " executed, "@ + dec(skipped as nat) + " skipped) ===\n"@ + numbered_lines(
            s,
            violation,
        ) + skipped_text(skipped) + "================================\n"@
    }
}

fn push_numbered_line(s: &mut String, record: &ActionRecord, i: usize, violation: Option<usize>)
    ensures
        final(s)@ == old(s)@ + numbered_line(record@, i as int, violation),
{
    let mut line = String::from_str("  ");
    push_dec_wide(&mut line, i as u128 + 1);
    line.append(". ");
    line.append(format_action_oneline(record).as_str());
    let marked = match violation {
        Some(at) => at == i,
        None => false,
    };
    line.append(
        if marked {
            " [VIOLATION]"
        } else {
            ""
        },
    );
    line.append("\n");
    s.append(line.as_str());
}

/// The report on a run.
pub fn format_sequence(records: &Vec<ActionRecord>, total: usize, violation: Option<usize>) -> (r: String)
    ensures
        r@ == sequence_text(record_views(records@), total, violation),
{
    let ghost v = record_views(records@);
    let executed: usize = records.len();
    if executed == 0 && total == 0 {
        let s = String::new();
        assert(s@ =~= Seq::<char>::empty());
        return s;
    }
    let skipped: usize = if total > executed {
        total - executed
    } else {
        0
    };
    let mut lines = String::new();
    let mut i: usize = 0;
    assert(lines@ =~= numbered_lines(v.take(0), violation));
    while i < records.len()
        invariant
            i <= records@.len(),
            v == record_views(records@),
            lines@ == numbered_lines(v.take(i as int), violation),
        decreases records.len() - i,
    {
        assert(v.take(i + 1).drop_last() =~= v.take(i as int));
        assert(v.take(i + 1).last() == records@[i as int]@);
        push_numbered_line(&mut lines, &records[i], i, violation);
        i += 1;
    }
    assert(v.take(i as int) =~= v);
    let mut rest = String::new();
    if skipped > 0 {
        rest.append("  ... ");
        push_dec(&mut rest, skipped as u64);
        rest.append(" action(s) not executed (stopped on violation)\n");
        assert(rest@ =~= skipped_text(skipped as int));
    } else {
        rest.append("");
        assert(rest@ =~= skipped_text(skipped as int));
    }
    let mut s = String::from_str("\n=== FUZZ SEQUENCE (");
    push_dec(&mut s, executed as u64);
    s.append(" executed, ");
    push_dec(&mut s, skipped as u64);
    s.append(" skipped) ===\n");
    s.append(lines.as_str());
    s.append(rest.as_str());
    s.append("================================\n");
    s
}

/// The value of a parameter: nothing, a truth value, a number that fits, or a text.
pub open spec fn param_value(s: Seq<char>) -> JsonView {
    if s == "null"@ {
        JsonView::Null
    } else if s == "true"@ {
        JsonView::Bool(true)
    } else if s == "false"@ {
        JsonView::Bool(false)
    } else {
        match at_most(unsigned_value(s), u64::MAX as int) {
            Some(n) => JsonView::Number(NumberView::Unsigned(n as u64)),
            None => match signed_value(s) {
                Some(n) => if i64::MIN <= n <= i64::MAX {
                    JsonView::Number(
                        if n < 0 { NumberView::Negative(n as i64) } else { NumberView::Unsigned(n as u64) },
                    )
                } else {
                    JsonView::Text(s)
                },
                None => JsonView::Text(s),
            },
        }
    }
}

fn read_param(s: &str) -> (r: JsonValue)
    ensures
        r@ == param_value(s@),
{
    if same_text(s, "null") {
        return JsonValue::Null;
    }
    if same_text(s, "true") {
        return JsonValue::Bool(true);
    }
    if same_text(s, "false") {
        return JsonValue::Bool(false);
    }
    match parse_u64(s) {
        Some(n) => JsonValue::Number(JsonNumber::Unsigned(n)),
        None => match parse_i64(s) {
            Some(n) => JsonValue::Number(
                if n < 0 { JsonNumber::Negative(n) } else { JsonNumber::Unsigned(n as u64) },
            ),
            None => JsonValue::Text(crate::text::copy_str(s)),
        },
    }
}

/// The parameters that the parts of a text give; a part without `=` gives none.
pub open spec fn params_of(parts: Seq<Seq<char>>) -> Seq<FieldView>
    decreases parts.len(),
{
    if parts.len() == 0 {
        Seq::empty()
    } else {
        let before = params_of(parts.drop_last());
        match split_first(parts.last(), '=') {
            Some(s) => with_field(before, FieldView { key: s.0, value: param_value(s.1) }),
            None => before,
        }
    }
}

/// The description of an action without its outcome, and its outcome; one that gives none succeeded.
pub open spec fn body_of(desc: Seq<char>) -> (Seq<char>, bool) {
    match without_end(desc, " -> OK"@) {
        Some(b) => (b, true),
        None => match without_end(desc, " -> FAIL"@) {
            Some(b) => (b, false),
            None => (desc, true),
        },
    }
}

/// The record that a description gives.
pub open spec fn described(desc: Seq<char>) -> RecordView {
    let (body, success) = body_of(desc);
    match split_first(body, '(') {
        Some(s) => RecordView {
            name: s.0,
            params: JsonView::Object(params_of(parts_between(trimmed_end(s.1, ')'), ", "@))),
            success,
            error_code: None,
        },
        None => RecordView { name: body, params: JsonView::Object(Seq::empty()), success, error_code: None },
    }
}

fn read_params(text: &str) -> (r: Vec<JsonField>)
    ensures
        fields_of(r@) == params_of(parts_between(text@, ", "@)),
{
    proof {
        reveal_strlit(", ");
    }
    let parts = split_text(text, ", ");
    let ghost all = texts(parts@);
    let mut fields: Vec<JsonField> = Vec::new();
    let mut i: usize = 0;
    assert(fields_of(fields@) =~= params_of(all.take(0)));
    while i < parts.len()
        invariant
            i <= parts@.len(),
            all == texts(parts@),
            all.len() == parts@.len(),
            fields_of(fields@) == params_of(all.take(i as int)),
        decreases parts.len() - i,
    {
        assert(all.take(i + 1).drop_last() =~= all.take(i as int));
        assert(all.take(i + 1).last() == parts@[i as int]@);
        match split_at_first(parts[i].as_str(), '=') {
            Some((key, value)) => {
                insert_field(&mut fields, key, read_param(value.as_str()));
            },
            None => {},
        }
        i += 1;
    }
    assert(all.take(i as int) =~= all);
    fields
}

/// The record that a description such as `withdraw(authority=null, lamports=5) -> OK` gives.
pub fn parse_action_desc(desc: &str) -> (r: ActionRecord)
    ensures
        r@ == described(desc@),
{
    let (body, success) = match strip_end(desc, " -> OK") {
        Some(b) => (b, true),
        None => match strip_end(desc, " -> FAIL") {
            Some(b) => (b, false),
            None => (crate::text::copy_str(desc), true),
        },
    };
    match split_at_first(body.as_str(), '(') {
        Some((name, rest)) => {
            let inner = trim_end(rest.as_str(), ')');
            let fields = read_params(inner.as_str());
            proof {
                lemma_field_views(fields@, fields@.len());
            }
            ActionRecord { name, params: JsonValue::Object(fields), success, error_code: None }
        },
        None => {
            let none: Vec<JsonField> = Vec::new();
            assert(fields_of(none@) =~= Seq::<FieldView>::empty());
            ActionRecord { name: body, params: JsonValue::Object(none), success, error_code: None }
        },
    }
}

/// One parameter as it is shown.
pub open spec fn field_text(f: FieldView) -> Seq<char> {
    f.key + "="@ + json_text(f.value)
}

/// The value is shown in a way from which it can be read: nothing, a truth value, or an integer.
pub open spec fn readable_value(v: JsonView) -> bool {
    match v {
        JsonView::Null => true,
        JsonView::Bool(_) => true,
        JsonView::Number(NumberView::Unsigned(_)) => true,
        JsonView::Number(NumberView::Negative(n)) => n < 0,
        _ => false,
    }
}

/// The key can be told apart in a line: it has no `=`, and no comma with a blank behind it.
pub open spec fn readable_key(k: Seq<char>) -> bool {
    !k.contains('=') && !contains_text(k, ", "@)
}

/// The record can be read from its line: the name has no bracket, the keys are in order and can be told
/// apart, and every value can be read.
pub open spec fn readable(r: RecordView) -> bool {
    &&& !r.name.contains('(')
    &&& match r.params {
        JsonView::Object(f) => in_key_order(f) && forall|i: int|
            0 <= i < f.len() ==> readable_key((#[trigger] f[i]).key) && readable_value(f[i].value),
        _ => false,
    }
}

proof fn lemma_dec_chars(n: nat, c: char)
    requires
        !is_digit(c),
    ensures
        !dec(n).contains(c),
        dec(n).len() > 0,
        is_digit(dec(n).last()),
        is_digit(dec(n)[0]),
{
    lemma_digits(n);
}

proof fn lemma_value_read_back(v: JsonView)
    requires
        readable_value(v),
    ensures
        param_value(json_text(v)) == v,
        !json_text(v).contains(','),
        json_text(v).len() > 0,
        json_text(v).last() != ')',
{
    reveal_strlit("null");
    reveal_strlit("true");
    reveal_strlit("false");
    match v {
        JsonView::Number(n) => {
            match n {
                NumberView::Unsigned(m) => {
                    lemma_number_read_back(m as int);
                    lemma_dec_chars(m as nat, ',');
                },
                NumberView::Negative(m) => {
                    let s = dec_int(m as int);
                    lemma_number_read_back(m as int);
                    lemma_dec_chars((-m) as nat, ',');
                    assert(s.last() == dec((-m) as nat).last());
                    assert(!s.contains(',')) by {
                        if s.contains(',') {
                            let i = choose|i: int| 0 <= i < s.len() && s[i] == ',';
                            assert(i > 0);
                            assert(dec((-m) as nat)[i - 1] == ',');
                        }
                    }
                },
                NumberView::Other(_) => {},
            }
        },
        _ => {},
    }
}

proof fn lemma_fields_joined(f: Seq<FieldView>, n: nat)
    requires
        n <= f.len(),
    ensures
        fields_text(f, n, "="@) == joined(Seq::new(n, |i: int| field_text(f[i])), ", "@),
    decreases n,
{
    let parts = Seq::new(n, |i: int| field_text(f[i]));
    if n > 1 {
        lemma_fields_joined(f, (n - 1) as nat);
        assert(parts.drop_last() =~= Seq::new((n - 1) as nat, |i: int| field_text(f[i])));
    }
}

proof fn lemma_field_read_back(f: FieldView)
    requires
        readable_key(f.key),
        readable_value(f.value),
    ensures
        split_first(field_text(f), '=') == Some((f.key, json_text(f.value))),
        stands_apart(field_text(f), ", "@),
        field_text(f).len() > 0,
        field_text(f).last() != ')',
{
    reveal_strlit("=");
    lemma_value_read_back(f.value);
    let t = field_text(f);
    let v = json_text(f.value);
    let at = f.key.len() as int;
    assert(t[at] == '=');
    assert forall|j: int| 0 <= j < at implies t[j] != '=' by {
        assert(t[j] == f.key[j]);
        assert(f.key.contains(f.key[j]));
    }
    lemma_split_at(t, '=', at);
    assert(t.take(at) =~= f.key);
    assert(t.skip(at + 1) =~= v);
    assert(t.last() == v.last());
    reveal_strlit(", ");
    let sep = ", "@;
    assert forall|i: int| 0 <= i < t.len() implies !#[trigger] occurs_at(t + sep, sep, i) by {
        if occurs_at(t + sep, sep, i) {
            let w = (t + sep).subrange(i, i + 2);
            assert(w[0] == ',' && w[1] == ' ');
            assert(t[i] == ',');
            if i < at {
                if i + 1 < at {
                    assert(f.key.subrange(i, i + 2) =~= w);
                    assert(occurs_at(f.key, sep, i));
                } else {
                    assert((t + sep)[at] == '=');
                }
            } else {
                assert(i > at);
                assert(v[i - at - 1] == ',');
                assert(v.contains(','));
            }
        }
    }
}

proof fn lemma_params_read_back(f: Seq<FieldView>, n: nat)
    requires
        n <= f.len(),
        in_key_order(f),
        forall|i: int|
            0 <= i < f.len() ==> readable_key((#[trigger] f[i]).key) && readable_value(f[i].value),
    ensures
        params_of(Seq::new(n, |i: int| field_text(f[i]))) == f.take(n as int),
    decreases n,
{
    let parts = Seq::new(n, |i: int| field_text(f[i]));
    if n == 0 {
        assert(f.take(0) =~= Seq::<FieldView>::empty());
    } else {
        let before = f.take(n - 1);
        let last = f[n - 1];
        lemma_params_read_back(f, (n - 1) as nat);
        assert(parts.drop_last() =~= Seq::new((n - 1) as nat, |i: int| field_text(f[i])));
        lemma_field_read_back(last);
        lemma_value_read_back(last.value);
        if n > 1 {
            assert(text_lt(f[n - 2].key, f[n - 1].key));
            assert(before.last() == f[n - 2]);
        }
        assert(with_field(before, last) == before.push(last));
        assert(f.take(n as int) =~= before.push(last));
    }
}

/// An action is read back from its line, where its name, its keys and its values can be told apart in it;
/// the error code, which a line does not show, is not.
pub proof fn lemma_line_read_back(r: RecordView)
    requires
        readable(r),
    ensures
        described(line_text(r)) == (RecordView { error_code: None, ..r }),
{
    reveal_strlit(" -> ");
    reveal_strlit(") -> ");
    reveal_strlit("(");
    reveal_strlit(", ");
    reveal_strlit("OK");
    reveal_strlit("FAIL");
    reveal_strlit(" -> OK");
    reveal_strlit(" -> FAIL");
    let f = r.params->Object_0;
    let params = params_text(r.params);
    let line = line_text(r);
    let end = if r.success { " -> OK"@ } else { " -> FAIL"@ };
    let body = if f.len() == 0 { r.name } else { r.name + "("@ + params + seq![')'] };
    let parts = Seq::new(f.len(), |i: int| field_text(f[i]));
    lemma_fields_joined(f, f.len());
    assert forall|i: int| 0 <= i < parts.len() implies stands_apart(#[trigger] parts[i], ", "@) && parts[i].len() > 0
        && parts[i].last() != ')' by {
        lemma_field_read_back(f[i]);
    }
    if f.len() > 0 {
        assert(params.len() > 0 && params.last() != ')') by {
            assert(parts.last().len() > 0 && parts.last().last() != ')');
            if parts.len() == 1 {
                assert(params == parts[0]);
            } else {
                assert(params == joined(parts.drop_last(), ", "@) + ", "@ + parts.last());
                assert(params.last() == parts.last().last());
            }
        }
    }
    assert(line =~= body + end);
    lemma_without_end(body, end);
    if !r.success {
        assert(without_end(line, " -> OK"@) is None) by {
            let at = line.len() - 6;
            if occurs_at(line, " -> OK"@, at) {
                assert(line.subrange(at, at + 6)[5] == 'K');
                assert(line[line.len() - 1] == 'L');
            }
        }
    }
    assert(body_of(line) == (body, r.success));
    if f.len() == 0 {
        lemma_split_first(body, '(');
        assert(split_first(body, '(') is None) by {
            if split_first(body, '(') is Some {
                let s = split_first(body, '(')->0;
                assert(body[s.0.len() as int] == '(');
                assert(body.contains('('));
            }
        }
        assert(f =~= Seq::<FieldView>::empty());
    } else {
        let at = r.name.len() as int;
        assert(body[at] == '(');
        assert forall|j: int| 0 <= j < at implies body[j] != '(' by {
            assert(body[j] == r.name[j]);
            assert(r.name.contains(r.name[j]));
        }
        lemma_split_at(body, '(', at);
        assert(body.take(at) =~= r.name);
        let inner = params + seq![')'];
        assert(body.skip(at + 1) =~= inner);
        assert(inner.drop_last() =~= params);
        assert(trimmed_end(inner, ')') == trimmed_end(params, ')'));
        assert(trimmed_end(params, ')') == params);
        lemma_parts_joined(parts, ", "@);
        lemma_params_read_back(f, f.len());
        assert(f.take(f.len() as int) =~= f);
    }
}

} // verus!
