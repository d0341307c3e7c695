//! What holds of numbers, dates and values that are written as text.
use vstd::prelude::*;
#[allow(unused_imports)]
use crate::calendar::{days_before_month, days_before_year, is_leap, timestamp_text, Date};
#[allow(unused_imports)]
use crate::json::{fields_text, items_text, json_text, FieldView, JsonView, NumberView};
#[allow(unused_imports)]
use crate::text::{dec, dec_int, digit_char, escaped, escaped_char, hex, hex_bytes, joined, trimmed_end, zero_padded};

verus! {

/// The value of a hexadecimal digit.
pub open spec fn hex_value(c: char) -> int {
    if '0' <= c <= '9' { c as int - '0' as int } else { c as int - 'a' as int + 10 }
}

/// A digit stands in its place among `0` to `9` and `a` to `f`, and has its value.
pub proof fn lemma_digit(d: int)
    requires
        0 <= d < 16,
    ensures
        digit_char(d) == "0123456789abcdef"@[d],
        hex_value(digit_char(d)) == d,
{
    reveal_strlit("0123456789abcdef");
}

/// A number in hexadecimal has the value of its digits, and no zero in front but for zero itself.
pub proof fn lemma_hex_value(n: nat)
    ensures
        hex(n).fold_left(0int, |v: int, c: char| 16 * v + hex_value(c)) == n,
        n > 0 ==> hex(n)[0] != '0',
    decreases n,
{
    let step = |v: int, c: char| 16 * v + hex_value(c);
    if n < 16 {
        lemma_digit(n as int);
        assert(hex(n) =~= seq![digit_char(n as int)]);
        assert(hex(n).drop_last() =~= Seq::<char>::empty());
        assert(Seq::<char>::empty().fold_left(0int, step) == 0);
        assert(hex(n).last() == digit_char(n as int));
    } else {
        lemma_hex_value(n / 16);
        lemma_digit((n % 16) as int);
        assert(hex(n) == hex(n / 16).push(digit_char((n % 16) as int)));
        assert(hex(n).drop_last() =~= hex(n / 16));
        assert(hex(n / 16).len() > 0);
    }
}

/// Bytes in hexadecimal have two digits each, the higher one first.
pub proof fn lemma_hex_bytes(bytes: Seq<u8>)
    ensures
        hex_bytes(bytes).len() == 2 * bytes.len(),
        forall|i: int|
            #![trigger bytes[i]]
            0 <= i < bytes.len() ==> bytes[i] == 16 * hex_value(hex_bytes(bytes)[2 * i]) + hex_value(hex_bytes(bytes)[2 * i + 1]),
        forall|i: int| 0 <= i < hex_bytes(bytes).len() ==> 0 <= hex_value(#[trigger] hex_bytes(bytes)[i]) < 16,
    decreases bytes.len(),
{
    if bytes.len() > 0 {
        let d = bytes.drop_last();
        let l = bytes.last();
        lemma_hex_bytes(d);
        lemma_digit(l as int / 16);
        lemma_digit(l as int % 16);
        let now = hex_bytes(bytes);
        let before = hex_bytes(d);
        assert(now.len() == before.len() + 2);
        assert forall|i: int| #![trigger bytes[i]] 0 <= i < bytes.len() implies bytes[i] == 16 * hex_value(now[2 * i]) + hex_value(
            now[2 * i + 1],
        ) by {
            if i < d.len() {
                assert(d[i] == bytes[i]);
                assert(now[2 * i] == before[2 * i] && now[2 * i + 1] == before[2 * i + 1]);
            } else {
                assert(now[2 * i] == digit_char(l as int / 16) && now[2 * i + 1] == digit_char(l as int % 16));
            }
        }
        assert forall|i: int| 0 <= i < now.len() implies 0 <= hex_value(#[trigger] now[i]) < 16 by {
            if i < before.len() {
                assert(now[i] == before[i]);
            } else {
                assert(now[i] == digit_char(l as int / 16) || now[i] == digit_char(l as int % 16));
            }
        }
    }
}

/// A text that is filled up has at least the width, ends with the text, and has only zeros in front of it.
pub proof fn lemma_filled(text: Seq<char>, width: nat)
    ensures
        ({
            let r = zero_padded(text, width);
            let front = if text.len() < width { width - text.len() } else { 0 };
            &&& r.len() == front + text.len()
            &&& r.skip(front) == text
            &&& forall|i: int| 0 <= i < front ==> #[trigger] r[i] == '0'
        }),
{
    let front = if text.len() < width { width - text.len() } else { 0 };
    assert(zero_padded(text, width).skip(front) =~= text);
}

/// An escaped text has a backslash in front of each backslash and each quote, and letters in the place of the ends of
/// lines and of tabs.
pub proof fn lemma_escaped(text: Seq<char>)
    ensures
        escaped(text) == text.map_values(
            |c: char|
                if c == '\\' || c == '"' {
                    seq!['\\', c]
                } else if c == '\n' {
                    seq!['\\', 'n']
                } else if c == '\r' {
                    seq!['\\', 'r']
                } else if c == '\t' {
                    seq!['\\', 't']
                } else {
                    seq![c]
                },
        ).flatten_alt(),
    decreases text.len(),
{
    let one = |c: char|
        if c == '\\' || c == '"' {
            seq!['\\', c]
        } else if c == '\n' {
            seq!['\\', 'n']
        } else if c == '\r' {
            seq!['\\', 'r']
        } else if c == '\t' {
            seq!['\\', 't']
        } else {
            seq![c]
        };
    if text.len() > 0 {
        lemma_escaped(text.drop_last());
        assert(text.map_values(one).drop_last() =~= text.drop_last().map_values(one));
        assert(escaped_char(text.last()) =~= one(text.last()));
    } else {
        assert(text.map_values(one) =~= Seq::<Seq<char>>::empty());
    }
}

/// What is left of a text whose end is trimmed does not end with the character, and only such characters are missing.
pub proof fn lemma_trimmed(text: Seq<char>, c: char)
    ensures
        ({
            let r = trimmed_end(text, c);
            &&& r.is_prefix_of(text)
            &&& r.len() == 0 || r.last() != c
            &&& forall|i: int| r.len() <= i < text.len() ==> #[trigger] text[i] == c
        }),
    decreases text.len(),
{
    if text.len() > 0 && text.last() == c {
        let d = text.drop_last();
        lemma_trimmed(d, c);
        let r = trimmed_end(d, c);
        assert(text.subrange(0, r.len() as int) =~= d.subrange(0, r.len() as int));
        assert forall|i: int| r.len() <= i < text.len() implies #[trigger] text[i] == c by {
            if i < d.len() {
                assert(d[i] == text[i]);
            }
        }
    } else {
        assert(text.subrange(0, text.len() as int) =~= text);
    }
}

/// The items of a list stand between commas.
pub proof fn lemma_items_told(s: Seq<JsonView>, n: nat)
    requires
        n <= s.len(),
    ensures
        items_text(s, n) == joined(Seq::new(n, |i: int| json_text(s[i])), ", "@),
    decreases n,
{
    let parts = Seq::new(n, |i: int| json_text(s[i]));
    if n > 0 {
        lemma_items_told(s, (n - 1) as nat);
        assert(parts.drop_last() =~= Seq::new((n - 1) as nat, |i: int| json_text(s[i])));
    }
}

/// The fields of an object stand between commas, each with its key, a mark and its value.
pub proof fn lemma_fields_told(s: Seq<FieldView>, n: nat, mark: Seq<char>)
    requires
        n <= s.len(),
    ensures
        fields_text(s, n, mark) == joined(Seq::new(n, |i: int| s[i].key + mark + json_text(s[i].value)), ", "@),
    decreases n,
{
    let parts = Seq::new(n, |i: int| s[i].key + mark + json_text(s[i].value));
    if n > 0 {
        lemma_fields_told(s, (n - 1) as nat, mark);
        assert(parts.drop_last() =~= Seq::new((n - 1) as nat, |i: int| s[i].key + mark + json_text(s[i].value)));
    }
}

/// The text of a value: that of a text in quotes, that of a list in square and that of an object in curly brackets.
pub proof fn lemma_value_told(v: JsonView)
    ensures
        match v {
            JsonView::Null => json_text(v) == "null"@,
            JsonView::Bool(b) => json_text(v) == if b { "true"@ } else { "false"@ },
            JsonView::Number(NumberView::Unsigned(n)) => json_text(v) == dec(n as nat),
            JsonView::Number(NumberView::Negative(n)) => json_text(v) == dec_int(n as int),
            JsonView::Number(NumberView::Other(s)) => json_text(v) == s,
            JsonView::Text(s) => json_text(v) == "\""@ + s + "\""@,
            JsonView::Array(a) => json_text(v) == "["@ + joined(Seq::new(a.len(), |i: int| json_text(a[i])), ", "@) + "]"@,
            JsonView::Object(f) => json_text(v) == "{"@ + joined(
                Seq::new(f.len(), |i: int| f[i].key + ": "@ + json_text(f[i].value)),
                ", "@,
            ) + "}"@,
        },
{
    match v {
        JsonView::Array(a) => {
            lemma_items_told(a, a.len());
        },
        JsonView::Object(f) => {
            lemma_fields_told(f, f.len(), ": "@);
        },
        _ => {},
    }
}

/// A year has 365 days, and one more where it can be divided by four, unless it can be divided by a hundred and not by
/// four hundred.
pub proof fn lemma_days_before_year(year: int)
    requires
        year >= 1970,
    ensures
        days_before_year(year) == 365 * (year - 1970) + ((year - 1) / 4 - (year - 1) / 100 + (year - 1) / 400) - (1969int / 4 - 1969int
            / 100 + 1969int / 400),
    decreases year,
{
    if year > 1970 {
        lemma_days_before_year(year - 1);
        let y = year - 1;
        assert(y / 4 - (y - 1) / 4 == if y % 4 == 0 { 1int } else { 0 });
        assert(y / 100 - (y - 1) / 100 == if y % 100 == 0 { 1int } else { 0 });
        assert(y / 400 - (y - 1) / 400 == if y % 400 == 0 { 1int } else { 0 });
        assert(y % 400 == 0 ==> y % 100 == 0);
        assert(y % 100 == 0 ==> y % 4 == 0);
    }
}

/// How many days of a year come before a month.
pub proof fn lemma_days_before_month(year: int, month: int)
    requires
        1 <= month <= 12,
    ensures
        days_before_month(year, month) == seq![0int, 31, 59, 90, 120, 151, 181, 212, 243, 273, 304, 334][month - 1] + if month > 2
            && is_leap(year) {
            1int
        } else {
            0
        },
    decreases month,
{
    if month > 1 {
        lemma_days_before_month(year, month - 1);
    }
}

/// A time is told by its date and by its hours, minutes and seconds, each with two digits.
pub proof fn lemma_time_told(d: Date, hours: int, minutes: int, seconds: int)
    requires
        0 <= hours < 24,
        0 <= minutes < 60,
        0 <= seconds < 60,
    ensures
        timestamp_text(d, 3600 * hours + 60 * minutes + seconds) == zero_padded(dec(d.year as nat), 4) + "-"@ + zero_padded(
            dec(d.month as nat),
            2,
        ) + "-"@ + zero_padded(dec(d.day as nat), 2) + "T"@ + zero_padded(dec(hours as nat), 2) + ":"@ + zero_padded(
            dec(minutes as nat),
            2,
        ) + ":"@ + zero_padded(dec(seconds as nat), 2) + "Z"@,
{
    let t = 3600 * hours + 60 * minutes + seconds;
    assert(t / 3600 == hours);
    assert(t % 3600 == 60 * minutes + seconds);
    assert((60 * minutes + seconds) / 60 == minutes);
    assert(t % 60 == seconds);
}

} // verus!
