//! Text building blocks: number formatting, joining, escaping and searching.
//!
//! Text is modelled as `Seq<char>`; the executable functions append to a `String`.
use vstd::prelude::*;

verus! {

/// `String::push` of the standard library: appends one character at the end.
pub assume_specification[ String::push ](s: &mut String, ch: char)
    ensures
        final(s)@ == old(s)@.push(ch),
;

/// The character of one digit in base sixteen or less.
pub open spec fn digit_char(d: int) -> char {
    if d == 0 { '0' } else if d == 1 { '1' } else if d == 2 { '2' } else if d == 3 { '3' }
    else if d == 4 { '4' } else if d == 5 { '5' } else if d == 6 { '6' } else if d == 7 { '7' }
    else if d == 8 { '8' } else if d == 9 { '9' } else if d == 10 { 'a' } else if d == 11 { 'b' }
    else if d == 12 { 'c' } else if d == 13 { 'd' } else if d == 14 { 'e' } else { 'f' }
}

/// `n` written in base `base`, most significant digit first, without leading zeros.
pub open spec fn in_base(n: nat, base: nat) -> Seq<char>
    decreases n,
{
    if base < 2 || n < base {
        seq![digit_char(n as int)]
    } else {
        proof {
            assert(n / base < n) by (nonlinear_arith)
                requires n >= base, base >= 2;
        }
        in_base(n / base, base).push(digit_char((n % base) as int))
    }
}

/// `n` in decimal.
pub open spec fn dec(n: nat) -> Seq<char> {
    in_base(n, 10)
}

/// A signed number in decimal.
pub open spec fn dec_int(n: int) -> Seq<char> {
    if n < 0 { seq!['-'] + dec((-n) as nat) } else { dec(n as nat) }
}

/// `n` in lower-case hexadecimal.
pub open spec fn hex(n: nat) -> Seq<char> {
    in_base(n, 16)
}

/// `count` times the character `c`.
pub open spec fn repeated(c: char, count: int) -> Seq<char> {
    Seq::new((if count < 0 { 0 } else { count }) as nat, |i: int| c)
}

/// `text`, filled up on the left with zeros to at least `width` characters.
pub open spec fn zero_padded(text: Seq<char>, width: nat) -> Seq<char> {
    repeated('0', width - text.len()) + text
}

/// Two hexadecimal digits for each byte.
pub open spec fn hex_bytes(bytes: Seq<u8>) -> Seq<char>
    decreases bytes.len(),
{
    if bytes.len() == 0 {
        Seq::empty()
    } else {
        hex_bytes(bytes.drop_last()) + seq![
            digit_char(bytes.last() as int / 16),
            digit_char(bytes.last() as int % 16),
        ]
    }
}

/// The parts in order, with `sep` between any two neighbours.
pub open spec fn joined(parts: Seq<Seq<char>>, sep: Seq<char>) -> Seq<char>
    decreases parts.len(),
{
    if parts.len() == 0 {
        Seq::empty()
    } else if parts.len() == 1 {
        parts[0]
    } else {
        joined(parts.drop_last(), sep) + sep + parts.last()
    }
}

/// The texts of a sequence of strings.
pub open spec fn texts(v: Seq<String>) -> Seq<Seq<char>> {
    v.map_values(|s: String| s@)
}

/// The texts of a sequence with one more string.
pub proof fn lemma_texts_push(v: Seq<String>, s: String)
    ensures
        texts(v.push(s)) == texts(v).push(s@),
{
    assert(texts(v.push(s)) =~= texts(v).push(s@));
}

/// One character as it stands inside a quoted JSON string.
pub open spec fn escaped_char(c: char) -> Seq<char> {
    if c == '\\' { seq!['\\', '\\'] }
    else if c == '"' { seq!['\\', '"'] }
    else if c == '\n' { seq!['\\', 'n'] }
    else if c == '\r' { seq!['\\', 'r'] }
    else if c == '\t' { seq!['\\', 't'] }
    else { seq![c] }
}

/// `text` as it stands inside a quoted JSON string.
pub open spec fn escaped(text: Seq<char>) -> Seq<char>
    decreases text.len(),
{
    if text.len() == 0 {
        Seq::empty()
    } else {
        escaped(text.drop_last()) + escaped_char(text.last())
    }
}

/// `pat` occurs in `text` at position `at`.
pub open spec fn occurs_at(text: Seq<char>, pat: Seq<char>, at: int) -> bool {
    0 <= at && at + pat.len() <= text.len() && text.subrange(at, at + pat.len()) == pat
}

/// `text` begins with `pat`.
pub open spec fn begins_with(text: Seq<char>, pat: Seq<char>) -> bool {
    occurs_at(text, pat, 0)
}

/// `pat` occurs somewhere in `text`.
pub open spec fn contains_text(text: Seq<char>, pat: Seq<char>) -> bool {
    exists|at: int| occurs_at(text, pat, at)
}

/// The executable form of [`digit_char`].
pub fn digit_of(d: u64) -> (c: char)
    requires
        d < 16,
    ensures
        c == digit_char(d as int),
{
    match d {
        0 => '0', 1 => '1', 2 => '2', 3 => '3', 4 => '4', 5 => '5', 6 => '6', 7 => '7',
        8 => '8', 9 => '9', 10 => 'a', 11 => 'b', 12 => 'c', 13 => 'd', 14 => 'e', _ => 'f',
    }
}

/// Appends `n` in base `base`.
fn push_in_base(s: &mut String, n: u128, base: u128)
    requires
        2 <= base <= 16,
    ensures
        final(s)@ == old(s)@ + in_base(n as nat, base as nat),
    decreases n,
{
    if n < base {
        s.push(digit_of(n as u64));
        assert(s@ =~= old(s)@ + in_base(n as nat, base as nat));
    } else {
        assert(n / base < n) by (nonlinear_arith)
            requires n >= base, base >= 2;
        push_in_base(s, n / base, base);
        s.push(digit_of((n % base) as u64));
        assert(s@ =~= old(s)@ + in_base(n as nat, base as nat));
    }
}

/// Appends `n` in decimal.
pub fn push_dec(s: &mut String, n: u64)
    ensures
        final(s)@ == old(s)@ + dec(n as nat),
{
    push_in_base(s, n as u128, 10);
}

/// Appends `n` in decimal.
pub fn push_dec_wide(s: &mut String, n: u128)
    ensures
        final(s)@ == old(s)@ + dec(n as nat),
{
    push_in_base(s, n, 10);
}

/// Appends `n` in lower-case hexadecimal.
pub fn push_hex(s: &mut String, n: u64)
    ensures
        final(s)@ == old(s)@ + hex(n as nat),
{
    push_in_base(s, n as u128, 16);
}

/// Appends a signed number in decimal.
pub fn push_dec_int(s: &mut String, n: i64)
    ensures
        final(s)@ == old(s)@ + dec_int(n as int),
{
    if n < 0 {
        s.push('-');
        let magnitude: u64 = if n == i64::MIN { 0x8000_0000_0000_0000 } else { (-n) as u64 };
        push_dec(s, magnitude);
        assert(s@ =~= old(s)@ + dec_int(n as int));
    } else {
        push_dec(s, n as u64);
    }
}

/// Appends `n` in decimal.
pub fn push_dec_usize(s: &mut String, n: usize)
    ensures
        final(s)@ == old(s)@ + dec(n as nat),
{
    push_dec(s, n as u64);
}

/// Appends `n` in hexadecimal, filled up with zeros to `width` digits.
pub fn push_hex_padded(s: &mut String, n: u64, width: usize)
    ensures
        final(s)@ == old(s)@ + zero_padded(hex(n as nat), width as nat),
{
    let mut digits = String::new();
    push_in_base(&mut digits, n as u128, 16);
    assert(digits@ =~= hex(n as nat));
    let have: usize = digits.as_str().unicode_len();
    let mut i: usize = have;
    while i < width
        invariant
            have <= i,
            i <= width || i == have,
            have == hex(n as nat).len(),
            s@ == old(s)@ + repeated('0', i - have),
        decreases width - i,
    {
        s.push('0');
        assert(s@ =~= old(s)@ + repeated('0', i + 1 - have));
        i += 1;
    }
    s.append(digits.as_str());
    assert(s@ =~= old(s)@ + zero_padded(hex(n as nat), width as nat));
}

/// Appends two hexadecimal digits for each byte of `bytes`.
pub fn push_hex_bytes(s: &mut String, bytes: &[u8])
    ensures
        final(s)@ == old(s)@ + hex_bytes(bytes@),
{
    let mut i: usize = 0;
    while i < bytes.len()
        invariant
            i <= bytes.len(),
            s@ == old(s)@ + hex_bytes(bytes@.take(i as int)),
        decreases bytes.len() - i,
    {
        let b: u8 = bytes[i];
        s.push(digit_of((b / 16) as u64));
        s.push(digit_of((b % 16) as u64));
        assert(bytes@.take(i + 1).drop_last() =~= bytes@.take(i as int));
        assert(s@ =~= old(s)@ + hex_bytes(bytes@.take(i + 1)));
        i += 1;
    }
    assert(bytes@.take(i as int) =~= bytes@);
}

/// The characters of a text.
pub fn chars_of(s: &str) -> (v: Vec<char>)
    ensures
        v@ == s@,
{
    let mut v: Vec<char> = Vec::new();
    for c in it: s.chars()
        invariant
            v@ == it.seq().take(it.index()),
            it.seq() == s@,
    {
        v.push(c);
        assert(it.seq().take(it.index() + 1) =~= it.seq().take(it.index()).push(c));
    }
    assert(s@.take(s@.len() as int) =~= s@);
    v
}

/// Appends `chars[from..to]`.
pub fn push_chars(s: &mut String, chars: &Vec<char>, from: usize, to: usize)
    requires
        from <= to <= chars@.len(),
    ensures
        final(s)@ == old(s)@ + chars@.subrange(from as int, to as int),
{
    let mut i: usize = from;
    while i < to
        invariant
            from <= i <= to <= chars@.len(),
            s@ == old(s)@ + chars@.subrange(from as int, i as int),
        decreases to - i,
    {
        s.push(chars[i]);
        assert(chars@.subrange(from as int, i + 1) =~= chars@.subrange(from as int, i as int).push(chars@[i as int]));
        assert(s@ =~= old(s)@ + chars@.subrange(from as int, i + 1));
        i += 1;
    }
}

/// The text of `chars[from..to]`.
pub fn string_of(chars: &Vec<char>, from: usize, to: usize) -> (s: String)
    requires
        from <= to <= chars@.len(),
    ensures
        s@ == chars@.subrange(from as int, to as int),
{
    let mut s = String::new();
    push_chars(&mut s, chars, from, to);
    assert(s@ =~= chars@.subrange(from as int, to as int));
    s
}

/// A copy of a text.
pub fn copy_str(text: &str) -> (s: String)
    ensures
        s@ == text@,
{
    String::from_str(text)
}

/// Appends `text` as it stands inside a quoted JSON string.
pub fn push_escaped(s: &mut String, text: &str)
    ensures
        final(s)@ == old(s)@ + escaped(text@),
{
    let chars = chars_of(text);
    let mut i: usize = 0;
    while i < chars.len()
        invariant
            i <= chars@.len(),
            s@ == old(s)@ + escaped(chars@.take(i as int)),
        decreases chars.len() - i,
    {
        let c: char = chars[i];
        let ghost before = s@;
        match c {
            '\\' => { s.push('\\'); s.push('\\'); }
            '"' => { s.push('\\'); s.push('"'); }
            '\n' => { s.push('\\'); s.push('n'); }
            '\r' => { s.push('\\'); s.push('r'); }
            '\t' => { s.push('\\'); s.push('t'); }
            _ => { s.push(c); }
        }
        assert(s@ =~= before + escaped_char(c));
        assert(chars@.take(i + 1).drop_last() =~= chars@.take(i as int));
        assert(s@ =~= old(s)@ + escaped(chars@.take(i + 1)));
        i += 1;
    }
    assert(chars@.take(i as int) =~= text@);
}

/// `text` as it stands inside a quoted JSON string: backslash, double quote, newline, carriage
/// return and tab are written as two characters each, every other character as itself.
pub fn escape_json(text: &str) -> (s: String)
    ensures
        s@ == escaped(text@),
{
    let mut s = String::new();
    push_escaped(&mut s, text);
    assert(s@ =~= escaped(text@));
    s
}

/// Appends the parts in order, with `sep` between any two neighbours.
pub fn push_joined(s: &mut String, parts: &Vec<String>, sep: &str)
    ensures
        final(s)@ == old(s)@ + joined(texts(parts@), sep@),
{
    let mut i: usize = 0;
    assert(s@ =~= old(s)@ + joined(texts(parts@.take(0)), sep@));
    while i < parts.len()
        invariant
            i <= parts@.len(),
            s@ == old(s)@ + joined(texts(parts@.take(i as int)), sep@),
        decreases parts.len() - i,
    {
        if i > 0 {
            s.append(sep);
        }
        s.append(parts[i].as_str());
        assert(texts(parts@.take(i + 1)).drop_last() =~= texts(parts@.take(i as int)));
        assert(s@ =~= old(s)@ + joined(texts(parts@.take(i + 1)), sep@));
        i += 1;
    }
    assert(parts@.take(i as int) =~= parts@);
}

/// Whether `pat` occurs in `text` at position `at`.
pub fn matches_at(text: &Vec<char>, pat: &Vec<char>, at: usize) -> (found: bool)
    ensures
        found == occurs_at(text@, pat@, at as int),
{
    if at > text.len() || pat.len() > text.len() - at {
        return false;
    }
    let mut i: usize = 0;
    while i < pat.len()
        invariant
            i <= pat@.len(),
            at + pat@.len() <= text.len(),
            forall|j: int| 0 <= j < i ==> text@[at + j] == pat@[j],
        decreases pat.len() - i,
    {
        if text[at + i] != pat[i] {
            assert(text@.subrange(at as int, at + pat@.len())[i as int] != pat@[i as int]);
            return false;
        }
        i += 1;
    }
    assert(text@.subrange(at as int, at + pat@.len()) =~= pat@);
    true
}

/// The first position at or after `from` where `pat` occurs in `text`.
pub fn find_from(text: &Vec<char>, pat: &Vec<char>, from: usize) -> (found: Option<usize>)
    ensures
        match found {
            Some(at) => from <= at && occurs_at(text@, pat@, at as int)
                && forall|j: int| from <= j < at ==> !occurs_at(text@, pat@, j),
            None => forall|j: int| from <= j ==> !occurs_at(text@, pat@, j),
        },
{
    let mut i: usize = from;
    while i <= text.len()
        invariant
            from <= i,
            i <= text@.len() + 1 || i == from,
            forall|j: int| from <= j < i ==> !occurs_at(text@, pat@, j),
        decreases text.len() + 1 - i,
    {
        if matches_at(text, pat, i) {
            return Some(i);
        }
        if i == text.len() {
            return None;
        }
        i += 1;
    }
    None
}

/// Whether `text` begins with `pat`.
pub fn starts_with(text: &str, pat: &str) -> (b: bool)
    ensures
        b == begins_with(text@, pat@),
{
    matches_at(&chars_of(text), &chars_of(pat), 0)
}

/// Whether `pat` occurs somewhere in `text`.
pub fn has_text(text: &str, pat: &str) -> (b: bool)
    ensures
        b == contains_text(text@, pat@),
{
    let t = chars_of(text);
    let p = chars_of(pat);
    match find_from(&t, &p, 0) {
        Some(_) => true,
        None => {
            assert(forall|at: int| !occurs_at(text@, pat@, at));
            false
        },
    }
}

/// Whether two texts are equal.
pub fn same_text(a: &str, b: &str) -> (r: bool)
    ensures
        r == (a@ == b@),
{
    let x = chars_of(a);
    let y = chars_of(b);
    if x.len() != y.len() {
        return false;
    }
    let r = matches_at(&x, &y, 0);
    assert(x@.subrange(0, x@.len() as int) =~= x@);
    r
}

/// Whether two byte strings are equal.
pub fn same_bytes(a: &[u8], b: &[u8]) -> (r: bool)
    ensures
        r == (a@ == b@),
{
    if a.len() != b.len() {
        return false;
    }
    let mut i: usize = 0;
    while i < a.len()
        invariant
            i <= a@.len(),
            a@.len() == b@.len(),
            forall|j: int| 0 <= j < i ==> a@[j] == b@[j],
        decreases a.len() - i,
    {
        if a[i] != b[i] {
            return false;
        }
        i += 1;
    }
    assert(a@ =~= b@);
    true
}

/// The parts with `head` before the first one.
pub open spec fn headed(head: Seq<char>, parts: Seq<Seq<char>>) -> Seq<Seq<char>> {
    parts.update(0, head + parts[0])
}

/// The parts of `text` between the occurrences of `pat`, found from left to right, none overlapping.
pub open spec fn parts_between(text: Seq<char>, pat: Seq<char>) -> Seq<Seq<char>>
    decreases text.len(),
{
    if pat.len() == 0 || text.len() == 0 {
        seq![text]
    } else if begins_with(text, pat) {
        seq![Seq::<char>::empty()] + parts_between(text.skip(pat.len() as int), pat)
    } else {
        headed(seq![text[0]], parts_between(text.skip(1), pat))
    }
}

pub(crate) proof fn lemma_parts_nonempty(text: Seq<char>, pat: Seq<char>)
    ensures
        parts_between(text, pat).len() > 0,
    decreases text.len(),
{
    if pat.len() == 0 || text.len() == 0 {
    } else if begins_with(text, pat) {
    } else {
        lemma_parts_nonempty(text.skip(1), pat);
    }
}

/// The parts of `text` between the occurrences of `pat`.
pub fn split_text(text: &str, pat: &str) -> (r: Vec<String>)
    requires
        pat@.len() > 0,
    ensures
        texts(r@) == parts_between(text@, pat@),
{
    let chars = chars_of(text);
    let p = chars_of(pat);
    let mut done: Vec<String> = Vec::new();
    let mut part = String::new();
    let mut i: usize = 0;
    let ghost want = parts_between(text@, pat@);
    proof {
        lemma_parts_nonempty(text@, pat@);
        assert(chars@.skip(0) =~= chars@);
        assert(part@ + want[0] =~= want[0]);
        assert(texts(done@) + headed(part@, want) =~= want);
    }
    while i < chars.len()
        invariant
            i <= chars@.len(),
            p@ == pat@,
            p@.len() > 0,
            texts(done@) + headed(part@, parts_between(chars@.skip(i as int), p@)) == want,
        decreases chars.len() - i,
    {
        let ghost rest = chars@.skip(i as int);
        let ghost had = texts(done@);
        let ghost head = part@;
        proof {
            lemma_parts_nonempty(rest, p@);
        }
        if matches_at(&chars, &p, i) {
            proof {
                assert(rest.subrange(0, p@.len() as int) =~= chars@.subrange(i as int, i + p@.len()));
                assert(rest.skip(p@.len() as int) =~= chars@.skip(i + p@.len()));
                lemma_texts_push(done@, part);
                lemma_parts_nonempty(rest.skip(p@.len() as int), p@);
            }
            done.push(part);
            part = String::new();
            proof {
                let next = parts_between(rest.skip(p@.len() as int), p@);
                assert(part@ + next[0] =~= next[0]);
                assert(head + Seq::<char>::empty() =~= head);
                assert(texts(done@) + headed(part@, next) =~= had + headed(head, seq![Seq::<char>::empty()] + next));
            }
            i += p.len();
        } else {
            proof {
                if rest.len() >= p@.len() {
                    assert(rest.subrange(0, p@.len() as int) =~= chars@.subrange(i as int, i + p@.len()));
                }
                assert(rest.skip(1) =~= chars@.skip(i + 1));
                lemma_parts_nonempty(rest.skip(1), p@);
            }
            part.push(chars[i]);
            proof {
                let next = parts_between(rest.skip(1), p@);
                assert(part@ + next[0] =~= head + (seq![rest[0]] + next[0]));
                assert(headed(part@, next) =~= headed(head, headed(seq![rest[0]], next)));
            }
            i += 1;
        }
    }
    proof {
        assert(chars@.skip(i as int) =~= Seq::<char>::empty());
        lemma_texts_push(done@, part);
        assert(part@ + Seq::<char>::empty() =~= part@);
        assert(headed(part@, seq![Seq::<char>::empty()]) =~= seq![part@]);
        assert(texts(done@).push(part@) =~= texts(done@) + seq![part@]);
    }
    done.push(part);
    done
}

/// The text in front of the first `c`, and the text behind it, where there is one.
pub open spec fn split_first(text: Seq<char>, c: char) -> Option<(Seq<char>, Seq<char>)>
    decreases text.len(),
{
    if text.len() == 0 {
        None
    } else if text[0] == c {
        Some((Seq::empty(), text.skip(1)))
    } else {
        match split_first(text.skip(1), c) {
            Some(s) => Some((seq![text[0]] + s.0, s.1)),
            None => None,
        }
    }
}

/// Where a text is split at the first `c`, both sides and the `c` make up the text, and there is no `c`
/// in front of it.
pub proof fn lemma_split_first(text: Seq<char>, c: char)
    ensures
        match split_first(text, c) {
            Some(s) => text == s.0.push(c) + s.1 && !s.0.contains(c),
            None => !text.contains(c),
        },
    decreases text.len(),
{
    if text.len() > 0 && text[0] != c {
        let t = text.skip(1);
        lemma_split_first(t, c);
        match split_first(t, c) {
            Some(s) => {
                let a = seq![text[0]] + s.0;
                assert(text =~= seq![text[0]] + t);
                assert(text =~= a.push(c) + s.1);
                if a.contains(c) {
                    let i = choose|i: int| 0 <= i < a.len() && a[i] == c;
                    assert(s.0[i - 1] == c);
                }
            },
            None => {
                if text.contains(c) {
                    let i = choose|i: int| 0 <= i < text.len() && text[i] == c;
                    assert(t[i - 1] == c);
                }
            },
        }
    } else if text.len() > 0 {
        assert(text =~= Seq::<char>::empty().push(c) + text.skip(1));
    }
}

/// A text is split at the first place where the character stands.
pub proof fn lemma_split_at(text: Seq<char>, c: char, at: int)
    requires
        0 <= at < text.len(),
        text[at] == c,
        forall|j: int| 0 <= j < at ==> text[j] != c,
    ensures
        split_first(text, c) == Some((text.take(at), text.skip(at + 1))),
    decreases at,
{
    if at == 0 {
        assert(text.take(0) =~= Seq::<char>::empty());
    } else {
        let t = text.skip(1);
        lemma_split_at(t, c, at - 1);
        assert(seq![text[0]] + t.take(at - 1) =~= text.take(at));
        assert(t.skip(at) =~= text.skip(at + 1));
    }
}

/// The text in front of the first `c`, and the text behind it, where there is one.
pub fn split_at_first(text: &str, c: char) -> (r: Option<(String, String)>)
    ensures
        match r {
            Some(s) => split_first(text@, c) == Some((s.0@, s.1@)),
            None => split_first(text@, c) is None,
        },
{
    let chars = chars_of(text);
    let mut i: usize = 0;
    while i < chars.len()
        invariant
            i <= chars@.len(),
            chars@ == text@,
            forall|j: int| 0 <= j < i ==> chars@[j] != c,
        decreases chars.len() - i,
    {
        if chars[i] == c {
            proof {
                lemma_split_at(text@, c, i as int);
                assert(chars@.subrange(0, i as int) =~= text@.take(i as int));
                assert(chars@.subrange(i + 1, chars@.len() as int) =~= text@.skip(i + 1));
            }
            return Some((string_of(&chars, 0, i), string_of(&chars, i + 1, chars.len())));
        }
        i += 1;
    }
    proof {
        lemma_split_first(text@, c);
        match split_first(text@, c) {
            Some(s) => {
                assert(text@[s.0.len() as int] == c);
            },
            None => {},
        }
    }
    None
}

/// The text without the characters `c` at its end.
pub open spec fn trimmed_end(text: Seq<char>, c: char) -> Seq<char>
    decreases text.len(),
{
    if text.len() > 0 && text.last() == c { trimmed_end(text.drop_last(), c) } else { text }
}

/// The text without the characters `c` at its end.
pub fn trim_end(text: &str, c: char) -> (r: String)
    ensures
        r@ == trimmed_end(text@, c),
{
    let chars = chars_of(text);
    let mut n: usize = chars.len();
    assert(chars@.take(n as int) =~= chars@);
    while n > 0 && chars[n - 1] == c
        invariant
            n <= chars@.len(),
            trimmed_end(chars@.take(n as int), c) == trimmed_end(text@, c),
        decreases n,
    {
        assert(chars@.take(n as int).drop_last() =~= chars@.take(n - 1));
        n -= 1;
    }
    assert(chars@.subrange(0, n as int) =~= chars@.take(n as int));
    string_of(&chars, 0, n)
}

/// The text in front of `end`, where the text ends with it.
pub open spec fn without_end(text: Seq<char>, end: Seq<char>) -> Option<Seq<char>> {
    if occurs_at(text, end, text.len() - end.len()) { Some(text.take(text.len() - end.len())) } else { None }
}

/// The text in front of `end`, where the text ends with it.
pub fn strip_end(text: &str, end: &str) -> (r: Option<String>)
    ensures
        match r {
            Some(s) => without_end(text@, end@) == Some(s@),
            None => without_end(text@, end@) is None,
        },
{
    let t = chars_of(text);
    let e = chars_of(end);
    if e.len() > t.len() {
        return None;
    }
    let at: usize = t.len() - e.len();
    if matches_at(&t, &e, at) {
        assert(t@.subrange(0, at as int) =~= t@.take(at as int));
        Some(string_of(&t, 0, at))
    } else {
        None
    }
}

/// `text` with every occurrence of `pat` replaced by `rep`, from left to right, none overlapping.
pub open spec fn replaced(text: Seq<char>, pat: Seq<char>, rep: Seq<char>) -> Seq<char>
    decreases text.len(),
{
    if pat.len() == 0 || text.len() == 0 {
        text
    } else if begins_with(text, pat) {
        rep + replaced(text.skip(pat.len() as int), pat, rep)
    } else {
        seq![text[0]] + replaced(text.skip(1), pat, rep)
    }
}

/// `text` with every occurrence of `pat` replaced by `rep`, from left to right.
pub fn replace_text(text: &str, pat: &str, rep: &str) -> (r: String)
    requires
        pat@.len() > 0,
    ensures
        r@ == replaced(text@, pat@, rep@),
{
    let chars = chars_of(text);
    let p = chars_of(pat);
    let mut r = String::new();
    let mut i: usize = 0;
    assert(chars@.skip(0) =~= chars@);
    assert(r@ + replaced(chars@.skip(0), p@, rep@) =~= replaced(text@, pat@, rep@));
    while i < chars.len()
        invariant
            i <= chars@.len(),
            p@ == pat@,
            p@.len() > 0,
            r@ + replaced(chars@.skip(i as int), p@, rep@) == replaced(text@, pat@, rep@),
        decreases chars.len() - i,
    {
        let ghost rest = chars@.skip(i as int);
        let ghost before = r@;
        if matches_at(&chars, &p, i) {
            proof {
                assert(rest.subrange(0, p@.len() as int) =~= chars@.subrange(i as int, i + p@.len()));
                assert(rest.skip(p@.len() as int) =~= chars@.skip(i + p@.len()));
            }
            r.append(rep);
            assert(before + (rep@ + replaced(rest.skip(p@.len() as int), p@, rep@)) =~= r@ + replaced(
                rest.skip(p@.len() as int),
                p@,
                rep@,
            ));
            i += p.len();
        } else {
            proof {
                if rest.len() >= p@.len() {
                    assert(rest.subrange(0, p@.len() as int) =~= chars@.subrange(i as int, i + p@.len()));
                }
                assert(rest.skip(1) =~= chars@.skip(i + 1));
            }
            r.push(chars[i]);
            assert(before + (seq![rest[0]] + replaced(rest.skip(1), p@, rep@)) =~= r@ + replaced(rest.skip(1), p@, rep@));
            i += 1;
        }
    }
    assert(chars@.skip(i as int) =~= Seq::<char>::empty());
    assert(r@ =~= replaced(text@, pat@, rep@));
    r
}

/// With `sep` behind it, `p` holds no `sep` that begins in it.
pub open spec fn stands_apart(p: Seq<char>, sep: Seq<char>) -> bool {
    forall|at: int| 0 <= at < p.len() ==> !#[trigger] occurs_at(p + sep, sep, at)
}

proof fn lemma_apart_rest(p: Seq<char>, sep: Seq<char>)
    requires
        stands_apart(p, sep),
        p.len() > 0,
    ensures
        stands_apart(p.skip(1), sep),
{
    let q = p.skip(1);
    assert forall|at: int| 0 <= at < q.len() implies !#[trigger] occurs_at(q + sep, sep, at) by {
        if occurs_at(q + sep, sep, at) {
            assert((p + sep).subrange(at + 1, at + 1 + sep.len()) =~= (q + sep).subrange(at, at + sep.len()));
            assert(occurs_at(p + sep, sep, at + 1));
        }
    }
}

proof fn lemma_one_part(p: Seq<char>, sep: Seq<char>)
    requires
        sep.len() > 0,
        stands_apart(p, sep),
    ensures
        parts_between(p, sep) == seq![p],
    decreases p.len(),
{
    if p.len() > 0 {
        let rest = p.skip(1);
        lemma_apart_rest(p, sep);
        assert(!begins_with(p, sep)) by {
            if begins_with(p, sep) {
                assert((p + sep).subrange(0, sep.len() as int) =~= p.subrange(0, sep.len() as int));
                assert(occurs_at(p + sep, sep, 0));
            }
        }
        lemma_one_part(rest, sep);
        assert(seq![p[0]] + rest =~= p);
        assert(parts_between(p, sep) =~= seq![p]);
    }
}

proof fn lemma_first_part(p: Seq<char>, sep: Seq<char>, rest: Seq<char>)
    requires
        sep.len() > 0,
        stands_apart(p, sep),
    ensures
        parts_between(p + sep + rest, sep) == seq![p] + parts_between(rest, sep),
    decreases p.len(),
{
    let text = p + sep + rest;
    if p.len() == 0 {
        assert(text.subrange(0, sep.len() as int) =~= sep);
        assert(text.skip(sep.len() as int) =~= rest);
        assert(p =~= Seq::<char>::empty());
    } else {
        let q = p.skip(1);
        lemma_apart_rest(p, sep);
        assert(!begins_with(text, sep)) by {
            if begins_with(text, sep) {
                assert((p + sep).subrange(0, sep.len() as int) =~= text.subrange(0, sep.len() as int));
                assert(occurs_at(p + sep, sep, 0));
            }
        }
        lemma_first_part(q, sep, rest);
        assert(text.skip(1) =~= q + sep + rest);
        assert(seq![text[0]] + q =~= p);
        assert(parts_between(text, sep) =~= seq![p] + parts_between(rest, sep));
    }
}

proof fn lemma_joined_front(parts: Seq<Seq<char>>, sep: Seq<char>)
    requires
        parts.len() >= 2,
    ensures
        joined(parts, sep) == parts[0] + sep + joined(parts.skip(1), sep),
    decreases parts.len(),
{
    let d = parts.drop_last();
    let rest = parts.skip(1);
    if parts.len() == 2 {
        assert(joined(d, sep) == parts[0]);
        assert(joined(rest, sep) == parts[1]);
    } else {
        lemma_joined_front(d, sep);
        assert(rest.drop_last() =~= d.skip(1));
        assert(rest.last() == parts.last());
    }
    assert(joined(parts, sep) =~= parts[0] + sep + joined(rest, sep));
}

/// Parts that were joined are found again, where none of them holds the separator or, with one behind
/// it, begins another.
pub proof fn lemma_parts_joined(parts: Seq<Seq<char>>, sep: Seq<char>)
    requires
        parts.len() > 0,
        sep.len() > 0,
        forall|i: int| 0 <= i < parts.len() ==> stands_apart(#[trigger] parts[i], sep),
    ensures
        parts_between(joined(parts, sep), sep) == parts,
    decreases parts.len(),
{
    assert(stands_apart(parts[0], sep));
    if parts.len() == 1 {
        lemma_one_part(parts[0], sep);
        assert(seq![parts[0]] =~= parts);
    } else {
        let rest = parts.skip(1);
        assert forall|i: int| 0 <= i < rest.len() implies stands_apart(#[trigger] rest[i], sep) by {
            assert(rest[i] == parts[i + 1]);
        }
        lemma_parts_joined(rest, sep);
        lemma_joined_front(parts, sep);
        lemma_first_part(parts[0], sep, joined(rest, sep));
        assert(seq![parts[0]] + rest =~= parts);
    }
}

/// What was put at the end of a text is taken off again.
pub proof fn lemma_without_end(text: Seq<char>, end: Seq<char>)
    ensures
        without_end(text + end, end) == Some(text),
{
    let all = text + end;
    assert(all.subrange(all.len() - end.len(), all.len() as int) =~= end);
    assert(all.take(all.len() - end.len()) =~= text);
}

} // verus!
