//! Completing the line counts of a source file.
//!
//! A compiler attributes code to some lines of a multi-line expression only. The lines in between
//! get a count from their neighbours, where the source shows that they are code.
use vstd::prelude::*;
use std::collections::BTreeMap;
use crate::order::sort_distinct;
use crate::text::chars_of;

verus! {

/// The character is white space, as Unicode defines it.
pub open spec fn white_space(c: char) -> bool {
    let n = c as u32;
    9 <= n <= 13 || n == 0x20 || n == 0x85 || n == 0xa0 || n == 0x1680 || 0x2000 <= n <= 0x200a || n == 0x2028 || n == 0x2029
        || n == 0x202f || n == 0x205f || n == 0x3000
}

/// `char::is_whitespace` of the standard library: the Unicode property `White_Space`, that is, these
/// characters and no others.
pub assume_specification[ char::is_whitespace ](c: char) -> (b: bool)
    ensures
        b == white_space(c),
;

/// Every character of `line` is white space.
pub open spec fn is_blank(line: Seq<char>) -> bool {
    forall|i: int| 0 <= i < line.len() ==> white_space(#[trigger] line[i])
}

/// The first characters of `line` that are not white space are two slashes.
pub open spec fn is_comment(line: Seq<char>) -> bool {
    exists|i: int| #![trigger line[i]]
        0 <= i && i + 1 < line.len() && line[i] == '/' && line[i + 1] == '/'
        && forall|j: int| 0 <= j < i ==> white_space(#[trigger] line[j])
}

/// Line `number` of the source, counted from one, where the source has one.
pub open spec fn source_line(source: Option<Seq<Seq<char>>>, number: int) -> Option<Seq<char>> {
    if source is Some && 1 <= number <= source->0.len() { Some(source->0[number - 1]) } else { None }
}

/// The source shows a blank line there.
pub open spec fn blank_at(source: Option<Seq<Seq<char>>>, number: int) -> bool {
    source_line(source, number) is Some && is_blank(source_line(source, number)->0)
}

/// The source shows a comment line there.
pub open spec fn comment_at(source: Option<Seq<Seq<char>>>, number: int) -> bool {
    source_line(source, number) is Some && is_comment(source_line(source, number)->0)
}

/// The longest run of lines that is filled.
pub open spec fn max_gap() -> int {
    10
}

pub open spec fn min_count(a: u64, b: u64) -> u64 {
    if a <= b { a } else { b }
}

/// `line` lies between the neighbouring counted lines `keys[w]` and `keys[w + 1]`.
pub open spec fn between(keys: Seq<usize>, w: int, line: usize) -> bool {
    0 <= w < keys.len() - 1 && keys[w] < line < keys[w + 1]
}

/// `line` lies between two neighbouring lines that were both hit and are close to each other, is no
/// comment, and no blank line separates it from the upper one.
pub open spec fn gap_filled(
    keys: Seq<usize>,
    counts: Map<usize, u64>,
    source: Option<Seq<Seq<char>>>,
    w: int,
    line: usize,
) -> bool {
    &&& between(keys, w, line)
    &&& keys[w + 1] - keys[w] - 1 <= max_gap()
    &&& min_count(counts[keys[w]], counts[keys[w + 1]]) > 0
    &&& !comment_at(source, line as int)
    &&& forall|l: int| keys[w] < l <= line ==> !#[trigger] blank_at(source, l)
}

/// `line` is filled from the two lines around it.
pub open spec fn gap_line(
    keys: Seq<usize>,
    counts: Map<usize, u64>,
    source: Option<Seq<Seq<char>>>,
    line: usize,
) -> bool {
    exists|w: int| gap_filled(keys, counts, source, w, line)
}

/// The counts with the gaps filled that end below `bound`.
pub open spec fn gaps_filled_below(
    counts: Map<usize, u64>,
    source: Option<Seq<Seq<char>>>,
    bound: int,
) -> Map<usize, u64> {
    let keys = crate::order::listing(counts.dom());
    Map::new(
        |line: usize| counts.contains_key(line)
            || (line < bound && gap_line(keys, counts, source, line)),
        |line: usize| if counts.contains_key(line) {
            counts[line]
        } else {
            let w = choose|w: int| gap_filled(keys, counts, source, w, line);
            min_count(counts[keys[w]], counts[keys[w + 1]])
        },
    )
}

/// The counts with all gaps filled: a filled line gets the smaller count of its neighbours.
pub open spec fn gaps_filled(counts: Map<usize, u64>, source: Option<Seq<Seq<char>>>) -> Map<usize, u64> {
    gaps_filled_below(counts, source, usize::MAX + 1)
}

/// `line` is a line of code above the counted line `keys[d]`, which was hit, with no counted line
/// in between, at most ten lines away, in a source that reaches down to `keys[d]`.
pub open spec fn lead_filled(
    keys: Seq<usize>,
    counts: Map<usize, u64>,
    source: Option<Seq<Seq<char>>>,
    d: int,
    line: usize,
) -> bool {
    &&& 0 <= d < keys.len()
    &&& 1 <= line < keys[d]
    &&& d > 0 ==> keys[d - 1] < line
    &&& keys[d] - line <= max_gap()
    &&& counts[keys[d]] > 0
    &&& source is Some
    &&& keys[d] - 1 <= source->0.len()
    &&& !blank_at(source, line as int)
    &&& !comment_at(source, line as int)
}

/// `line` leads up to one of the first `done` counted lines, or to the next one and is not above `low`.
pub open spec fn lead_line(
    keys: Seq<usize>,
    counts: Map<usize, u64>,
    source: Option<Seq<Seq<char>>>,
    done: int,
    low: int,
    line: usize,
) -> bool {
    exists|d: int| (d < done || (d == done && low <= line)) && #[trigger] lead_filled(keys, counts, source, d, line)
}

/// The counts with the lines filled that lead up to one of the first `done` counted lines, and of
/// the next one those at `low` and below it.
pub open spec fn leads_filled_upto(
    counts: Map<usize, u64>,
    source: Option<Seq<Seq<char>>>,
    done: int,
    low: int,
) -> Map<usize, u64> {
    let keys = crate::order::listing(counts.dom());
    Map::new(
        |line: usize| counts.contains_key(line) || lead_line(keys, counts, source, done, low, line),
        |line: usize| if counts.contains_key(line) {
            counts[line]
        } else {
            let d = choose|d: int| lead_filled(keys, counts, source, d, line);
            counts[keys[d]]
        },
    )
}

/// The counts with every leading line filled: it gets the count of the line it leads up to.
pub open spec fn leads_filled(counts: Map<usize, u64>, source: Option<Seq<Seq<char>>>) -> Map<usize, u64> {
    leads_filled_upto(counts, source, crate::order::listing(counts.dom()).len() as int, 0)
}

/// The texts of the lines of a source.
pub open spec fn source_view(source: Option<&Vec<String>>) -> Option<Seq<Seq<char>>> {
    match source {
        Some(lines) => Some(crate::text::texts(lines@)),
        None => None,
    }
}

/// Whether a line is blank, and whether it is a comment.
fn classify_line(line: &str) -> (r: (bool, bool))
    ensures
        r.0 == is_blank(line@),
        r.1 == is_comment(line@),
{
    let chars = chars_of(line);
    let mut i: usize = 0;
    while i < chars.len() && chars[i].is_whitespace()
        invariant
            i <= chars@.len(),
            forall|j: int| 0 <= j < i ==> white_space(#[trigger] chars@[j]),
        decreases chars.len() - i,
    {
        i += 1;
    }
    if i == chars.len() {
        assert forall|k: int| #![trigger line@[k]] !(0 <= k && k + 1 < line@.len() && line@[k] == '/'
            && line@[k + 1] == '/'
            && forall|j: int| 0 <= j < k ==> white_space(#[trigger] line@[j])) by {
            if 0 <= k && k + 1 < line@.len() {
                assert(white_space(chars@[k]));
            }
        }
        return (true, false);
    }
    assert(!white_space(line@[i as int]));
    let comment = chars[i] == '/' && chars.len() - i >= 2 && chars[i + 1] == '/';
    proof {
        if comment {
            assert(line@[i as int] == '/');
        } else {
            assert forall|k: int| #![trigger line@[k]] !(0 <= k && k + 1 < line@.len() && line@[k] == '/'
                && line@[k + 1] == '/'
                && forall|j: int| 0 <= j < k ==> white_space(#[trigger] line@[j])) by {
                if 0 <= k && k + 1 < line@.len() && line@[k] == '/' && line@[k + 1] == '/' {
                    if k < i {
                        assert(white_space(chars@[k]));
                    } else if k > i {
                        assert(!white_space(line@[i as int]));
                    }
                }
            }
        }
    }
    (false, comment)
}

/// Whether the source shows a blank line, and whether it shows a comment, at `number`.
fn look_at(source: Option<&Vec<String>>, number: usize) -> (r: (bool, bool))
    ensures
        r.0 == blank_at(source_view(source), number as int),
        r.1 == comment_at(source_view(source), number as int),
{
    match source {
        Some(lines) => {
            if number >= 1 && number <= lines.len() {
                assert(source_line(source_view(source), number as int) == Some(lines@[number - 1]@));
                classify_line(lines[number - 1].as_str())
            } else {
                (false, false)
            }
        },
        None => (false, false),
    }
}

/// The keys of a table in increasing order.
pub fn table_keys(m: &BTreeMap<usize, u64>) -> (r: Vec<usize>)
    ensures
        r@ == crate::order::listing(m@.dom()),
        crate::order::lists(r@, m@.dom()),
{
    broadcast use vstd::std_specs::btree::group_btree_axioms;
    let mut v: Vec<usize> = Vec::new();
    let ghost all = vstd::std_specs::iter::IteratorSpec::remaining(&vstd::std_specs::btree::spec_keys_iter(m));
    for k in it: m.keys()
        invariant
            v@.len() == it.index(),
            it.seq() == all,
            forall|i: int| 0 <= i < v@.len() ==> v@[i] == *all[i],
    {
        v.push(*k);
    }
    assert(v@ =~= all.unref());
    sort_distinct(&v)
}

/// The count of a line that the table holds.
fn table_get(m: &BTreeMap<usize, u64>, line: usize) -> (n: u64)
    requires
        m@.contains_key(line),
    ensures
        n == m@[line],
{
    broadcast use vstd::std_specs::btree::group_btree_axioms;
    match m.get(&line) {
        Some(n) => *n,
        None => 0,
    }
}

proof fn lemma_between_unique(keys: Seq<usize>, v: int, w: int, line: usize)
    requires
        crate::order::is_increasing(keys),
        between(keys, v, line),
        between(keys, w, line),
    ensures
        v == w,
{
    if v < w {
        assert(keys[v + 1] <= keys[w]) by {
            if v + 1 < w {
                assert(keys[v + 1] < keys[w]);
            }
        }
    } else if w < v {
        assert(keys[w + 1] <= keys[v]) by {
            if w + 1 < v {
                assert(keys[w + 1] < keys[v]);
            }
        }
    }
}

proof fn lemma_between_not_key(keys: Seq<usize>, w: int, line: usize)
    requires
        crate::order::is_increasing(keys),
        between(keys, w, line),
    ensures
        !keys.contains(line),
{
    if keys.contains(line) {
        let i = choose|i: int| 0 <= i < keys.len() && keys[i] == line;
        if i < w {
            assert(keys[i] < keys[w]);
        } else if i > w + 1 {
            assert(keys[w + 1] < keys[i]);
        }
    }
}

/// Gives a count to the lines between two close lines that were both hit: the smaller of the two
/// counts. A blank line ends the run, a comment line is left out.
pub fn fill_gaps(counts: &mut BTreeMap<usize, u64>, source: Option<&Vec<String>>)
    ensures
        final(counts)@ == gaps_filled(old(counts)@, source_view(source)),
{
    broadcast use vstd::std_specs::btree::group_btree_axioms;
    let keys = table_keys(counts);
    let ghost base = counts@;
    let ghost src = source_view(source);
    let ghost ks = keys@;
    let mut w: usize = 0;
    assert(counts@ =~= gaps_filled_below(base, src, 0));
    proof {
        if ks.len() > 0 {
            lemma_no_gap_before_first(base, src);
        }
    }
    while keys.len() > 0 && w < keys.len() - 1
        invariant
            ks == keys@,
            ks == crate::order::listing(base.dom()),
            crate::order::lists(ks, base.dom()),
            src == source_view(source),
            w < ks.len() || ks.len() == 0,
            ks.len() > 0 ==> counts@ == gaps_filled_below(base, src, ks[w as int] as int),
            ks.len() == 0 ==> counts@ == gaps_filled_below(base, src, 0),
        decreases keys.len() - w,
    {
        broadcast use vstd::std_specs::btree::group_btree_axioms;
        let upper: usize = keys[w];
        let lower: usize = keys[w + 1];
        assert(ks.contains(ks[w as int]) && ks.contains(ks[w + 1]));
        let above: u64 = table_get(counts, upper);
        let below: u64 = table_get(counts, lower);
        let fill: u64 = if above <= below { above } else { below };
        if lower - upper - 1 <= 10 && fill > 0 {
            let mut line: usize = upper + 1;
            let mut open = true;
            proof {
                lemma_bound_at_key(base, src, w as int);
            }
            while line < lower && open
                invariant
                    ks == crate::order::listing(base.dom()),
                    crate::order::lists(ks, base.dom()),
                    src == source_view(source),
                    0 <= w < ks.len() - 1,
                    upper == ks[w as int],
                    lower == ks[w + 1],
                    upper < line <= lower,
                    lower - upper - 1 <= 10,
                    fill == min_count(base[upper], base[lower]),
                    fill > 0,
                    open ==> counts@ == gaps_filled_below(base, src, line as int),
                    open ==> forall|l: int| upper < l < line ==> !#[trigger] blank_at(src, l),
                    !open ==> counts@ == gaps_filled_below(base, src, lower as int),
                decreases lower - line, (if open { 1int } else { 0int }),
            {
                broadcast use vstd::std_specs::btree::group_btree_axioms;
                let seen = look_at(source, line);
                if seen.0 {
                    open = false;
                    proof {
                        lemma_blank_ends_gap(base, src, w as int, line);
                    }
                } else {
                    if !seen.1 {
                        proof {
                            lemma_between_not_key(ks, w as int, line);
                            assert(!base.contains_key(line));
                            assert(gap_filled(ks, base, src, w as int, line));
                        }
                        if !counts.contains_key(&line) {
                            counts.insert(line, fill);
                        }
                    }
                    proof {
                        lemma_gap_step(base, src, w as int, line);
                    }
                    line += 1;
                }
            }
        } else {
            proof {
                lemma_gap_closed(base, src, w as int);
            }
        }
        w += 1;
    }
    proof {
        lemma_gaps_complete(base, src);
    }
}

proof fn lemma_no_gap_before_first(base: Map<usize, u64>, src: Option<Seq<Seq<char>>>)
    requires
        crate::order::lists(crate::order::listing(base.dom()), base.dom()),
        crate::order::listing(base.dom()).len() > 0,
    ensures
        gaps_filled_below(base, src, 0) == gaps_filled_below(
            base,
            src,
            crate::order::listing(base.dom())[0] as int,
        ),
{
    let ks = crate::order::listing(base.dom());
    assert forall|line: usize| line < ks[0] implies !#[trigger] gap_line(ks, base, src, line) by {
        if gap_line(ks, base, src, line) {
            let w = choose|w: int| gap_filled(ks, base, src, w, line);
            if w > 0 {
                assert(ks[0] < ks[w]);
            }
        }
    }
    assert(gaps_filled_below(base, src, 0) =~= gaps_filled_below(base, src, ks[0] as int));
}

proof fn lemma_bound_at_key(base: Map<usize, u64>, src: Option<Seq<Seq<char>>>, w: int)
    requires
        crate::order::lists(crate::order::listing(base.dom()), base.dom()),
        0 <= w < crate::order::listing(base.dom()).len(),
    ensures
        gaps_filled_below(base, src, crate::order::listing(base.dom())[w] as int) == gaps_filled_below(
            base,
            src,
            crate::order::listing(base.dom())[w] + 1,
        ),
{
    let ks = crate::order::listing(base.dom());
    assert(ks.contains(ks[w]));
    assert(gaps_filled_below(base, src, ks[w] as int) =~= gaps_filled_below(base, src, ks[w] + 1));
}

proof fn lemma_blank_ends_gap(base: Map<usize, u64>, src: Option<Seq<Seq<char>>>, w: int, line: usize)
    requires
        crate::order::lists(crate::order::listing(base.dom()), base.dom()),
        between(crate::order::listing(base.dom()), w, line),
        blank_at(src, line as int),
    ensures
        gaps_filled_below(base, src, line as int) == gaps_filled_below(
            base,
            src,
            crate::order::listing(base.dom())[w + 1] as int,
        ),
{
    let ks = crate::order::listing(base.dom());
    assert forall|l: usize| line <= l < ks[w + 1] implies !#[trigger] gap_line(ks, base, src, l) by {
        if gap_line(ks, base, src, l) {
            let v = choose|v: int| gap_filled(ks, base, src, v, l);
            assert(between(ks, w, l));
            lemma_between_unique(ks, v, w, l);
            assert(!blank_at(src, line as int));
        }
    }
    assert(gaps_filled_below(base, src, line as int) =~= gaps_filled_below(base, src, ks[w + 1] as int));
}

/// One more line of the window `w`: its count is entered exactly where it is filled.
proof fn lemma_gap_step(base: Map<usize, u64>, src: Option<Seq<Seq<char>>>, w: int, line: usize)
    requires
        crate::order::lists(crate::order::listing(base.dom()), base.dom()),
        between(crate::order::listing(base.dom()), w, line),
    ensures
        ({
            let ks = crate::order::listing(base.dom());
            let before = gaps_filled_below(base, src, line as int);
            let after = gaps_filled_below(base, src, line + 1);
            &&& !before.contains_key(line)
            &&& gap_filled(ks, base, src, w, line) ==> after == before.insert(
                line,
                min_count(base[ks[w]], base[ks[w + 1]]),
            )
            &&& !gap_filled(ks, base, src, w, line) ==> after == before
        }),
{
    let ks = crate::order::listing(base.dom());
    let before = gaps_filled_below(base, src, line as int);
    let after = gaps_filled_below(base, src, line + 1);
    lemma_between_not_key(ks, w, line);
    assert(!base.contains_key(line));
    if gap_filled(ks, base, src, w, line) {
        let v = choose|v: int| gap_filled(ks, base, src, v, line);
        lemma_between_unique(ks, v, w, line);
        assert(after =~= before.insert(line, min_count(base[ks[w]], base[ks[w + 1]])));
    } else {
        if gap_line(ks, base, src, line) {
            let v = choose|v: int| gap_filled(ks, base, src, v, line);
            lemma_between_unique(ks, v, w, line);
        }
        assert(after =~= before);
    }
}

proof fn lemma_gap_closed(base: Map<usize, u64>, src: Option<Seq<Seq<char>>>, w: int)
    requires
        crate::order::lists(crate::order::listing(base.dom()), base.dom()),
        0 <= w < crate::order::listing(base.dom()).len() - 1,
        ({
            let ks = crate::order::listing(base.dom());
            ks[w + 1] - ks[w] - 1 > max_gap() || min_count(base[ks[w]], base[ks[w + 1]]) == 0
        }),
    ensures
        gaps_filled_below(base, src, crate::order::listing(base.dom())[w] as int) == gaps_filled_below(
            base,
            src,
            crate::order::listing(base.dom())[w + 1] as int,
        ),
{
    let ks = crate::order::listing(base.dom());
    assert(ks.contains(ks[w]));
    assert forall|l: usize| ks[w] < l < ks[w + 1] implies !#[trigger] gap_line(ks, base, src, l) by {
        if gap_line(ks, base, src, l) {
            let v = choose|v: int| gap_filled(ks, base, src, v, l);
            assert(between(ks, w, l));
            lemma_between_unique(ks, v, w, l);
        }
    }
    assert(gaps_filled_below(base, src, ks[w] as int) =~= gaps_filled_below(base, src, ks[w + 1] as int));
}

proof fn lemma_gaps_complete(base: Map<usize, u64>, src: Option<Seq<Seq<char>>>)
    requires
        crate::order::lists(crate::order::listing(base.dom()), base.dom()),
    ensures
        crate::order::listing(base.dom()).len() > 0 ==> gaps_filled_below(
            base,
            src,
            crate::order::listing(base.dom()).last() as int,
        ) == gaps_filled(base, src),
        crate::order::listing(base.dom()).len() == 0 ==> gaps_filled_below(base, src, 0) == gaps_filled(base, src),
{
    let ks = crate::order::listing(base.dom());
    if ks.len() > 0 {
        assert(ks.contains(ks.last()));
        assert forall|l: usize| ks.last() < l implies !#[trigger] gap_line(ks, base, src, l) by {
            if gap_line(ks, base, src, l) {
                let v = choose|v: int| gap_filled(ks, base, src, v, l);
                if v + 1 < ks.len() - 1 {
                    assert(ks[v + 1] < ks[ks.len() - 1]);
                }
            }
        }
        assert(gaps_filled_below(base, src, ks.last() as int) =~= gaps_filled(base, src));
    } else {
        assert(gaps_filled_below(base, src, 0) =~= gaps_filled(base, src));
    }
}

proof fn lemma_lead_unique(keys: Seq<usize>, counts: Map<usize, u64>, src: Option<Seq<Seq<char>>>, c: int, d: int, line: usize)
    requires
        crate::order::is_increasing(keys),
        lead_filled(keys, counts, src, c, line),
        lead_filled(keys, counts, src, d, line),
    ensures
        c == d,
{
    if c < d {
        if c < d - 1 {
            assert(keys[c] < keys[d - 1]);
        }
    } else if d < c {
        if d < c - 1 {
            assert(keys[d] < keys[c - 1]);
        }
    }
}

/// Where the same lines count as leading lines, the filled counts are the same.
proof fn lemma_leads_same(
    base: Map<usize, u64>,
    src: Option<Seq<Seq<char>>>,
    done_a: int,
    low_a: int,
    done_b: int,
    low_b: int,
)
    requires
        forall|line: usize|
            lead_line(crate::order::listing(base.dom()), base, src, done_a, low_a, line) <==> #[trigger] lead_line(
                crate::order::listing(base.dom()),
                base,
                src,
                done_b,
                low_b,
                line,
            ),
    ensures
        leads_filled_upto(base, src, done_a, low_a) == leads_filled_upto(base, src, done_b, low_b),
{
    assert(leads_filled_upto(base, src, done_a, low_a) =~= leads_filled_upto(base, src, done_b, low_b));
}

/// The rest of a counted line's run holds nothing to fill: the run is done.
proof fn lemma_lead_run_done(base: Map<usize, u64>, src: Option<Seq<Seq<char>>>, d: int, low: int)
    requires
        forall|line: usize| line < low ==> !#[trigger] lead_filled(
            crate::order::listing(base.dom()),
            base,
            src,
            d,
            line,
        ),
    ensures
        leads_filled_upto(base, src, d, low) == leads_filled_upto(base, src, d + 1, usize::MAX + 1),
{
    let ks = crate::order::listing(base.dom());
    assert forall|line: usize|
        lead_line(ks, base, src, d, low, line) <==> #[trigger] lead_line(ks, base, src, d + 1, usize::MAX + 1, line) by {
        if lead_line(ks, base, src, d, low, line) {
            let c = choose|c: int| (c < d || (c == d && low <= line)) && #[trigger] lead_filled(ks, base, src, c, line);
            assert(c < d + 1 && lead_filled(ks, base, src, c, line));
        }
        if lead_line(ks, base, src, d + 1, usize::MAX + 1, line) {
            let c = choose|c: int| (c < d + 1 || (c == d + 1 && usize::MAX + 1 <= line))
                && #[trigger] lead_filled(ks, base, src, c, line);
            assert((c < d || (c == d && low <= line)) && lead_filled(ks, base, src, c, line));
        }
    }
    lemma_leads_same(base, src, d, low, d + 1, usize::MAX + 1);
}

/// A run starts with nothing filled.
proof fn lemma_lead_run_start(base: Map<usize, u64>, src: Option<Seq<Seq<char>>>, d: int)
    requires
        0 <= d < crate::order::listing(base.dom()).len(),
    ensures
        leads_filled_upto(base, src, d, usize::MAX + 1) == leads_filled_upto(
            base,
            src,
            d,
            crate::order::listing(base.dom())[d] as int,
        ),
{
    let ks = crate::order::listing(base.dom());
    assert forall|line: usize|
        lead_line(ks, base, src, d, usize::MAX + 1, line) <==> #[trigger] lead_line(ks, base, src, d, ks[d] as int, line) by {
        if lead_line(ks, base, src, d, usize::MAX + 1, line) {
            let c = choose|c: int| (c < d || (c == d && usize::MAX + 1 <= line))
                && #[trigger] lead_filled(ks, base, src, c, line);
            assert((c < d || (c == d && ks[d] as int <= line)) && lead_filled(ks, base, src, c, line));
        }
        if lead_line(ks, base, src, d, ks[d] as int, line) {
            let c = choose|c: int| (c < d || (c == d && ks[d] as int <= line))
                && #[trigger] lead_filled(ks, base, src, c, line);
            assert((c < d || (c == d && usize::MAX + 1 <= line)) && lead_filled(ks, base, src, c, line));
        }
    }
    lemma_leads_same(base, src, d, usize::MAX + 1, d, ks[d] as int);
}

/// One line further up the run of `d`.
proof fn lemma_lead_step(base: Map<usize, u64>, src: Option<Seq<Seq<char>>>, d: int, line: usize)
    requires
        crate::order::lists(crate::order::listing(base.dom()), base.dom()),
        0 <= d < crate::order::listing(base.dom()).len(),
        line < crate::order::listing(base.dom())[d],
        d > 0 ==> crate::order::listing(base.dom())[d - 1] < line,
    ensures
        ({
            let ks = crate::order::listing(base.dom());
            let before = leads_filled_upto(base, src, d, line + 1);
            let after = leads_filled_upto(base, src, d, line as int);
            &&& !base.contains_key(line)
            &&& !before.contains_key(line)
            &&& lead_filled(ks, base, src, d, line) ==> after == before.insert(line, base[ks[d]])
            &&& !lead_filled(ks, base, src, d, line) ==> after == before
        }),
{
    let ks = crate::order::listing(base.dom());
    let before = leads_filled_upto(base, src, d, line + 1);
    let after = leads_filled_upto(base, src, d, line as int);
    if ks.contains(line) {
        let i = choose|i: int| 0 <= i < ks.len() && ks[i] == line;
        if i < d - 1 {
            assert(ks[i] < ks[d - 1]);
        } else if i > d {
            assert(ks[d] < ks[i]);
        }
    }
    assert(!base.contains_key(line));
    assert forall|c: int| c != d implies !#[trigger] lead_filled(ks, base, src, c, line) by {
        if lead_filled(ks, base, src, c, line) {
            if c < d {
                if c < d - 1 {
                    assert(ks[c] < ks[d - 1]);
                }
            } else {
                if d < c - 1 {
                    assert(ks[d] < ks[c - 1]);
                }
            }
        }
    }
    assert(!lead_line(ks, base, src, d, line + 1, line));
    assert forall|l: usize| l != line implies (lead_line(ks, base, src, d, line + 1, l) <==> #[trigger] lead_line(
        ks,
        base,
        src,
        d,
        line as int,
        l,
    )) by {
        if lead_line(ks, base, src, d, line + 1, l) {
            let c = choose|c: int| (c < d || (c == d && line + 1 <= l)) && #[trigger] lead_filled(ks, base, src, c, l);
            assert((c < d || (c == d && line as int <= l)) && lead_filled(ks, base, src, c, l));
        }
        if lead_line(ks, base, src, d, line as int, l) {
            let c = choose|c: int| (c < d || (c == d && line as int <= l)) && #[trigger] lead_filled(ks, base, src, c, l);
            assert((c < d || (c == d && line + 1 <= l)) && lead_filled(ks, base, src, c, l));
        }
    }
    if lead_filled(ks, base, src, d, line) {
        assert(lead_line(ks, base, src, d, line as int, line));
        let c = choose|c: int| lead_filled(ks, base, src, c, line);
        lemma_lead_unique(ks, base, src, c, d, line);
        assert(after =~= before.insert(line, base[ks[d]]));
    } else {
        assert(!lead_line(ks, base, src, d, line as int, line));
        assert(after =~= before);
    }
}

/// Gives a count to the lines of code just above a line that was hit: the count of that line. The
/// search goes up to ten lines, past blank lines and comments, and ends at a line that has a count.
pub fn fill_leads(counts: &mut BTreeMap<usize, u64>, source: Option<&Vec<String>>)
    ensures
        final(counts)@ == leads_filled(old(counts)@, source_view(source)),
{
    broadcast use vstd::std_specs::btree::group_btree_axioms;
    let keys = table_keys(counts);
    let ghost base = counts@;
    let ghost src = source_view(source);
    let ghost ks = keys@;
    let mut d: usize = 0;
    proof {
        assert forall|line: usize| !#[trigger] lead_line(ks, base, src, 0, usize::MAX + 1, line) by {
        }
        assert(counts@ =~= leads_filled_upto(base, src, 0, usize::MAX + 1));
    }
    while d < keys.len()
        invariant
            ks == keys@,
            ks == crate::order::listing(base.dom()),
            crate::order::lists(ks, base.dom()),
            src == source_view(source),
            d <= ks.len(),
            counts@ == leads_filled_upto(base, src, d as int, usize::MAX + 1),
        decreases keys.len() - d,
    {
        broadcast use vstd::std_specs::btree::group_btree_axioms;
        let key: usize = keys[d];
        assert(ks.contains(ks[d as int]));
        let hits: u64 = table_get(counts, key);
        assert(hits == base[key]);
        let mut low: usize = key;
        proof {
            lemma_lead_run_start(base, src, d as int);
        }
        if key > 1 && hits > 0 {
            let start: usize = if key > 10 { key - 10 } else { 1 };
            let mut open = true;
            while open && low > start
                invariant
                    ks == crate::order::listing(base.dom()),
                    crate::order::lists(ks, base.dom()),
                    src == source_view(source),
                    0 <= d < ks.len(),
                    key == ks[d as int],
                    key > 1,
                    start == (if key > 10 { (key - 10) as usize } else { 1usize }),
                    start <= low <= key,
                    hits == base[key],
                    hits > 0,
                    d > 0 ==> ks[d - 1] < low,
                    low < key ==> src is Some && key - 1 <= src->0.len(),
                    counts@ == leads_filled_upto(base, src, d as int, low as int),
                    !open ==> forall|l: usize| l < low ==> !#[trigger] lead_filled(ks, base, src, d as int, l),
                decreases low, (if open { 1int } else { 0int }),
            {
                broadcast use vstd::std_specs::btree::group_btree_axioms;
                let line: usize = low - 1;
                if counts.contains_key(&line) {
                    open = false;
                    proof {
                        if d > 0 && ks[d - 1] < line {
                            lemma_lead_step(base, src, d as int, line);
                        }
                        if d == 0 {
                            lemma_lead_step(base, src, d as int, line);
                        }
                    }
                } else {
                    proof {
                        if d > 0 && ks[d - 1] == line {
                            assert(ks.contains(ks[d - 1]));
                        }
                        lemma_lead_step(base, src, d as int, line);
                    }
                    match source {
                        Some(lines) => {
                            if line > lines.len() {
                                open = false;
                            } else {
                                let seen = look_at(source, line);
                                if !seen.0 && !seen.1 {
                                    counts.insert(line, hits);
                                    assert(lead_filled(ks, base, src, d as int, line));
                                }
                                low = line;
                            }
                        },
                        None => {
                            open = false;
                        },
                    }
                }
            }
        }
        proof {
            assert forall|l: usize| l < low implies !#[trigger] lead_filled(ks, base, src, d as int, l) by {
            }
            lemma_lead_run_done(base, src, d as int, low as int);
        }
        d += 1;
    }
    proof {
        assert forall|line: usize|
            lead_line(ks, base, src, ks.len() as int, usize::MAX + 1, line) <==> #[trigger] lead_line(
                ks,
                base,
                src,
                ks.len() as int,
                0,
                line,
            ) by {
            if lead_line(ks, base, src, ks.len() as int, 0, line) {
                let c = choose|c: int| (c < ks.len() || (c == ks.len() && 0 <= line))
                    && #[trigger] lead_filled(ks, base, src, c, line);
                assert(c < ks.len());
            }
            if lead_line(ks, base, src, ks.len() as int, usize::MAX + 1, line) {
                let c = choose|c: int| (c < ks.len() || (c == ks.len() && usize::MAX + 1 <= line))
                    && #[trigger] lead_filled(ks, base, src, c, line);
                assert(c < ks.len());
            }
        }
        lemma_leads_same(base, src, ks.len() as int, usize::MAX + 1, ks.len() as int, 0);
    }
}

} // verus!
