//! Findings: what identifies one, and which one is reported.
use vstd::prelude::*;
use crate::keys::key_text;
#[allow(unused_imports)]
use crate::keys::base58;
#[allow(unused_imports)]
use crate::mutation::accounts::{account_keys, lemma_slot_keys};
use crate::mutation::accounts::instruction_account_keys_ordered;
use crate::mutation::effects::ProbeCtx;
#[allow(unused_imports)]
use crate::mutation::effects::Probe;
#[allow(unused_imports)]
use crate::text::{begins_with, dec, hex_bytes, parts_between};
use crate::text::{copy_str, push_dec_usize, push_hex_bytes, same_text, split_text, starts_with};
use crate::types::{Instruction, Pubkey};
#[allow(unused_imports)]
use crate::types::{slots_of, AccountMeta, InstructionView};

verus! {

/// One account, mutated in one way, with which the transaction still did what it did.
pub struct Finding {
    pub id: String,
    pub message: String,
}

/// A finding, as a value.
pub struct FindingView {
    pub id: Seq<char>,
    pub message: Seq<char>,
}

impl View for Finding {
    type V = FindingView;

    open spec fn view(&self) -> FindingView {
        FindingView { id: self.id@, message: self.message@ }
    }
}

/// Some findings, as values.
pub open spec fn finding_views(v: Seq<Finding>) -> Seq<FindingView> {
    Seq::new(v.len(), |i: int| v[i]@)
}

/// A finding that may be missing, as a value.
pub open spec fn opt_finding(f: Option<Finding>) -> Option<FindingView> {
    match f {
        Some(f) => Some(f@),
        None => None,
    }
}

/// The findings with one more behind them, where there is one.
pub open spec fn with_finding(s: Seq<FindingView>, f: Option<FindingView>) -> Seq<FindingView> {
    match f {
        Some(f) => s.push(f),
        None => s,
    }
}

/// Adds a finding, where there is one.
pub fn add_finding(findings: &mut Vec<Finding>, f: Option<Finding>)
    ensures
        finding_views(final(findings)@) == with_finding(finding_views(old(findings)@), opt_finding(f)),
{
    match f {
        Some(f) => {
            findings.push(f);
            assert(finding_views(findings@) =~= finding_views(old(findings)@).push(f@));
        },
        None => {},
    }
}

/// Adds the findings of `more` behind those of `findings`.
pub fn add_findings(findings: &mut Vec<Finding>, more: Vec<Finding>)
    ensures
        finding_views(final(findings)@) == finding_views(old(findings)@) + finding_views(more@),
{
    let mut rest = more;
    findings.append(&mut rest);
    assert(finding_views(findings@) =~= finding_views(old(findings)@) + finding_views(more@));
}

/// The length of the tag of an instruction: as registered, or eight; never more than there is data.
pub open spec fn tag_length(disc_len: Option<usize>, data: Seq<u8>) -> int {
    let n = match disc_len {
        Some(n) => n as int,
        None => 8,
    };
    if n < data.len() { n } else { data.len() as int }
}

/// The length of the tag of an instruction. The arguments behind the tag are left out, so that the same
/// instruction with other arguments is recognised.
pub fn ix_disc_len(disc_len: Option<usize>, ix: &Instruction) -> (r: usize)
    ensures
        r == tag_length(disc_len, ix@.data),
{
    let n: usize = match disc_len {
        Some(n) => n,
        None => 8,
    };
    if n < ix.data.len() {
        n
    } else {
        ix.data.len()
    }
}

/// The first bytes in hexadecimal.
pub open spec fn prefix_hex(data: Seq<u8>, len: int) -> Seq<char> {
    hex_bytes(data.take(if len < data.len() { len } else { data.len() as int }))
}

/// The first `len` bytes of `data` in hexadecimal, or all where there are fewer.
pub fn disc_prefix_hex(data: &[u8], len: usize) -> (r: String)
    ensures
        r@ == prefix_hex(data@, len as int),
{
    let n: usize = if len < data.len() {
        len
    } else {
        data.len()
    };
    let first = crate::schema::first_bytes(data, n);
    let mut s = String::new();
    push_hex_bytes(&mut s, first.as_slice());
    assert(s@ =~= prefix_hex(data@, len as int));
    s
}

/// The tag of an instruction in hexadecimal.
pub open spec fn tag_hex(disc_len: Option<usize>, ix: InstructionView) -> Seq<char> {
    prefix_hex(ix.data, tag_length(disc_len, ix.data))
}

/// The tag of an instruction in hexadecimal.
pub fn disc_hex(disc_len: Option<usize>, ix: &Instruction) -> (r: String)
    ensures
        r@ == tag_hex(disc_len, ix@),
{
    disc_prefix_hex(ix.data.as_slice(), ix_disc_len(disc_len, ix))
}

/// The place of an account among the accounts of the instructions.
pub open spec fn role(keys: Seq<Pubkey>, k: Pubkey) -> Seq<char> {
    if keys.contains(k) { "a"@ + dec(keys.index_of(k) as nat) } else { "a?"@ }
}

/// The role of the mutated account: its place among the accounts of the instructions. Neither the
/// address nor any argument enters it.
pub fn account_role(ctx: &ProbeCtx, pubkey: &Pubkey) -> (r: String)
    ensures
        r@ == role(account_keys(ctx@.ixs), *pubkey),
{
    let keys = instruction_account_keys_ordered(ctx.instructions);
    let mut i: usize = 0;
    while i < keys.len()
        invariant
            i <= keys@.len(),
            keys@ == account_keys(ctx@.ixs),
            forall|j: int| 0 <= j < i ==> keys@[j] != *pubkey,
        decreases keys.len() - i,
    {
        if keys[i] == *pubkey {
            proof {
                lemma_slot_keys(slots_of(ctx@.ixs));
                assert(keys@[i as int] == *pubkey);
                assert(keys@.contains(*pubkey));
                assert(keys@[keys@.index_of(*pubkey)] == *pubkey);
                assert(keys@.index_of(*pubkey) == i);
            }
            let mut s = String::from_str("a");
            push_dec_usize(&mut s, i);
            return s;
        }
        i += 1;
    }
    String::from_str("a?")
}

/// What identifies a finding: the class, the program, the tag of the instruction and the role.
pub open spec fn id_text(class: Seq<char>, disc_len: Option<usize>, ix: InstructionView, role: Seq<char>) -> Seq<char> {
    class + ":"@ + base58(ix.program_id@) + ":"@ + tag_hex(disc_len, ix) + ":"@ + role
}

/// What identifies a finding.
pub fn finding_id(class: &str, disc_len: Option<usize>, ix: &Instruction, role: &str) -> (r: String)
    ensures
        r@ == id_text(class@, disc_len, ix@, role@),
{
    let mut s = copy_str(class);
    s.append(":");
    s.append(key_text(&ix.program_id).as_str());
    s.append(":");
    s.append(disc_hex(disc_len, ix).as_str());
    s.append(":");
    s.append(role);
    s
}

/// The same instruction with other arguments is identified in the same way, and counts as the same kind
/// of instruction.
pub proof fn lemma_id_without_arguments(
    class: Seq<char>,
    disc_len: Option<usize>,
    program_id: Pubkey,
    accounts: Seq<AccountMeta>,
    tag: Seq<u8>,
    a: Seq<u8>,
    b: Seq<u8>,
    role: Seq<char>,
)
    requires
        tag.len() == match disc_len {
            Some(n) => n as int,
            None => 8,
        },
    ensures
        id_text(class, disc_len, InstructionView { program_id, accounts, data: tag + a }, role) == id_text(
            class,
            disc_len,
            InstructionView { program_id, accounts, data: tag + b },
            role,
        ),
        crate::mutation::cache::base_of(disc_len, InstructionView { program_id, accounts, data: tag + a })
            == crate::mutation::cache::base_of(disc_len, InstructionView { program_id, accounts, data: tag + b }),
{
    assert((tag + a).take(tag.len() as int) =~= tag);
    assert((tag + b).take(tag.len() as int) =~= tag);
    assert(crate::mutation::cache::base_of(disc_len, InstructionView { program_id, accounts, data: tag + a }).disc
        =~= crate::mutation::cache::base_of(disc_len, InstructionView { program_id, accounts, data: tag + b }).disc);
}

/// The program and the tag of the first instruction, as findings name it.
pub open spec fn call_text(p: Probe) -> Seq<char> {
    base58(p.ixs[0].program_id@) + ":"@ + tag_hex(p.disc_len, p.ixs[0])
}

/// The program and the tag of the first instruction, as findings name it.
pub(crate) fn call_name(ctx: &ProbeCtx) -> (r: String)
    requires
        ctx@.ixs.len() > 0,
    ensures
        r@ == call_text(ctx@),
{
    let mut s = key_text(&ctx.instructions[0].program_id);
    s.append(":");
    s.append(disc_hex(ctx.disc_len, &ctx.instructions[0]).as_str());
    s
}

/// What identifies a finding on an account of the first instruction.
pub open spec fn found_id(p: Probe, class: Seq<char>, k: Pubkey) -> Seq<char> {
    id_text(class, p.disc_len, p.ixs[0], role(account_keys(p.ixs), k))
}

/// What identifies a finding on an account of the first instruction.
pub(crate) fn found_on(ctx: &ProbeCtx, class: &str, k: &Pubkey) -> (r: String)
    requires
        ctx@.ixs.len() > 0,
    ensures
        r@ == found_id(ctx@, class@, *k),
{
    let role = account_role(ctx, k);
    finding_id(class, ctx.disc_len, &ctx.instructions[0], role.as_str())
}

/// The beginning of an identity that names an instruction only.
pub const INSTRUCTION_PREFIX: &'static str = "account-mutation:";

/// The identity of the instruction of a finding: class and role dropped. An identity of an
/// instruction, and a text with fewer than three parts, stay as they are.
pub open spec fn instruction_id(id: Seq<char>) -> Seq<char> {
    if begins_with(id, INSTRUCTION_PREFIX@) || parts_between(id, ":"@).len() < 3 {
        id
    } else {
        INSTRUCTION_PREFIX@ + parts_between(id, ":"@)[1] + ":"@ + parts_between(id, ":"@)[2]
    }
}

/// The identity of the instruction of a finding.
pub fn finding_instruction_id(id: &str) -> (r: String)
    ensures
        r@ == instruction_id(id@),
{
    if starts_with(id, INSTRUCTION_PREFIX) {
        return copy_str(id);
    }
    proof {
        reveal_strlit(":");
    }
    let parts = split_text(id, ":");
    assert(crate::text::texts(parts@).len() == parts@.len());
    if parts.len() < 3 {
        return copy_str(id);
    }
    let mut s = String::from_str(INSTRUCTION_PREFIX);
    s.append(parts[1].as_str());
    s.append(":");
    s.append(parts[2].as_str());
    s
}

/// The finding is the expected one: by its identity, or by that of its instruction.
pub open spec fn is_expected(id: Seq<char>, expected: Seq<char>) -> bool {
    id == expected || (begins_with(expected, INSTRUCTION_PREFIX@) && instruction_id(id) == expected)
}

/// Whether the finding is the expected one.
pub fn finding_matches_expected(finding_id: &str, expected: &str) -> (r: bool)
    ensures
        r == is_expected(finding_id@, expected@),
{
    if same_text(finding_id, expected) {
        return true;
    }
    if !starts_with(expected, INSTRUCTION_PREFIX) {
        return false;
    }
    let own = finding_instruction_id(finding_id);
    same_text(own.as_str(), expected)
}

/// The beginning of the identity of findings that are reported first.
pub const FIRST_CLASS: &'static str = "CC-7 value-ref:";

/// How late a finding is reported: the lower, the sooner.
pub open spec fn priority(f: FindingView) -> u8 {
    if begins_with(f.id, FIRST_CLASS@) { 0 } else { 10 }
}

/// How late a finding is reported: the lower, the sooner.
pub fn finding_priority(finding: &Finding) -> (r: u8)
    ensures
        r == priority(finding@),
{
    if starts_with(finding.id.as_str(), FIRST_CLASS) {
        0
    } else {
        10
    }
}

/// The position of the first expected finding.
pub open spec fn first_expected(s: Seq<FindingView>, expected: Seq<char>) -> Option<int>
    decreases s.len(),
{
    if s.len() == 0 {
        None
    } else if first_expected(s.drop_last(), expected) is Some {
        first_expected(s.drop_last(), expected)
    } else if is_expected(s.last().id, expected) {
        Some(s.len() - 1)
    } else {
        None
    }
}

/// The position of the first of the findings that are reported soonest.
pub open spec fn soonest(s: Seq<FindingView>) -> int
    decreases s.len(),
{
    if s.len() <= 1 {
        0
    } else {
        let before = soonest(s.drop_last());
        if priority(s.last()) < priority(s[before]) { s.len() - 1 } else { before }
    }
}

/// The position of the finding that is reported: the first expected one, where one is expected, else
/// the soonest.
pub open spec fn selected(s: Seq<FindingView>, expected: Option<Seq<char>>) -> Option<int> {
    match expected {
        Some(id) => first_expected(s, id),
        None => if s.len() == 0 { None } else { Some(soonest(s)) },
    }
}

/// The soonest finding is not reported later than any other, and sooner than all before it.
pub proof fn lemma_soonest(s: Seq<FindingView>)
    requires
        s.len() > 0,
    ensures
        0 <= soonest(s) < s.len(),
        forall|i: int| 0 <= i < s.len() ==> priority(s[soonest(s)]) <= priority(#[trigger] s[i]),
        forall|i: int| 0 <= i < soonest(s) ==> priority(s[soonest(s)]) < priority(#[trigger] s[i]),
    decreases s.len(),
{
    if s.len() > 1 {
        let d = s.drop_last();
        lemma_soonest(d);
        assert forall|i: int| 0 <= i < s.len() implies priority(s[soonest(s)]) <= priority(#[trigger] s[i]) by {
            if i < d.len() {
                assert(d[i] == s[i]);
            }
        }
        assert forall|i: int| 0 <= i < soonest(s) implies priority(s[soonest(s)]) < priority(#[trigger] s[i]) by {
            if i < d.len() {
                assert(d[i] == s[i]);
            }
        }
    }
}

/// Where a finding is expected, an expected one is reported, and none before it is expected; nothing
/// is reported only where none is.
pub proof fn lemma_first_expected(s: Seq<FindingView>, expected: Seq<char>)
    ensures
        match first_expected(s, expected) {
            Some(i) => 0 <= i < s.len() && is_expected(s[i].id, expected) && forall|j: int|
                0 <= j < i ==> !is_expected((#[trigger] s[j]).id, expected),
            None => forall|j: int| 0 <= j < s.len() ==> !is_expected((#[trigger] s[j]).id, expected),
        },
    decreases s.len(),
{
    if s.len() > 0 {
        let d = s.drop_last();
        lemma_first_expected(d, expected);
        assert forall|j: int| 0 <= j < d.len() implies s[j] == d[j] by {}
        match first_expected(s, expected) {
            Some(i) => {
                assert forall|j: int| 0 <= j < i implies !is_expected((#[trigger] s[j]).id, expected) by {
                    assert(s[j] == d[j]);
                }
            },
            None => {
                assert forall|j: int| 0 <= j < s.len() implies !is_expected((#[trigger] s[j]).id, expected) by {
                    if j < d.len() {
                        assert(s[j] == d[j]);
                    }
                }
            },
        }
    }
}

proof fn lemma_expected_at(s: Seq<FindingView>, expected: Seq<char>, i: int)
    requires
        0 <= i < s.len(),
        first_expected(s.take(i), expected) is None,
        is_expected(s[i].id, expected),
    ensures
        first_expected(s, expected) == Some(i),
    decreases s.len(),
{
    if i == s.len() - 1 {
        assert(s.take(i) =~= s.drop_last());
    } else {
        assert(s.drop_last().take(i) =~= s.take(i));
        lemma_expected_at(s.drop_last(), expected, i);
    }
}

/// The finding that is reported.
pub fn select_finding<'a>(findings: &'a Vec<Finding>, expected: Option<&str>) -> (r: Option<&'a Finding>)
    ensures
        match r {
            Some(f) => {
                let at = selected(finding_views(findings@), crate::schema::opt_text(expected));
                at is Some && 0 <= at->0 < findings@.len() && *f == findings@[at->0]
            },
            None => selected(finding_views(findings@), crate::schema::opt_text(expected)) is None,
        },
{
    let ghost s = finding_views(findings@);
    assert(s.len() == findings@.len());
    match expected {
        Some(id) => {
            let mut i: usize = 0;
            while i < findings.len()
                invariant
                    i <= findings@.len(),
                    s == finding_views(findings@),
                    s.len() == findings@.len(),
                    expected == Some(id),
                    first_expected(s.take(i as int), id@) is None,
                decreases findings.len() - i,
            {
                assert(s.take(i + 1).drop_last() =~= s.take(i as int));
                assert(s.take(i + 1).last() == findings@[i as int]@);
                if finding_matches_expected(findings[i].id.as_str(), id) {
                    proof {
                        lemma_expected_at(s, id@, i as int);
                    }
                    return Some(&findings[i]);
                }
                i += 1;
            }
            assert(s.take(i as int) =~= s);
            None
        },
        None => {
            if findings.len() == 0 {
                return None;
            }
            let mut best: usize = 0;
            let mut i: usize = 1;
            while i < findings.len()
                invariant
                    1 <= i <= findings@.len(),
                    best < i,
                    s == finding_views(findings@),
                    s.len() == findings@.len(),
                    best == soonest(s.take(i as int)),
                decreases findings.len() - i,
            {
                assert(s.take(i + 1).drop_last() =~= s.take(i as int));
                assert(s.take(i + 1).last() == findings@[i as int]@);
                assert(s.take(i + 1)[best as int] == findings@[best as int]@);
                if finding_priority(&findings[i]) < finding_priority(&findings[best]) {
                    best = i;
                }
                i += 1;
            }
            assert(s.take(i as int) =~= s);
            Some(&findings[best])
        },
    }
}

} // verus!
