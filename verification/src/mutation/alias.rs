//! Probes of accounts of one class against each other, and of accounts that are passed on.
use vstd::prelude::*;
use crate::ids::is_known_sysvar;
#[allow(unused_imports)]
use crate::ids::known_sysvar;
use crate::keys::key_text;
#[allow(unused_imports)]
use crate::keys::base58;
use crate::mutation::accounts::{
    account_meta_flags, attacker_key, instruction_account_keys_ordered, list_pairs, rewrite_account, signer_meta_pubkeys,
    wrong_owner,
};
#[allow(unused_imports)]
use crate::mutation::accounts::{account_keys, all_pairs, attacker, meta_flags, other_owner, rewritten, signer_slots};
use crate::mutation::binding::index_of;
use crate::mutation::classes::{AccountClassIndex, AccountShape};
#[allow(unused_imports)]
use crate::mutation::classes::{class_in, scope_of};
use crate::mutation::effects::{
    account_is_load_bearing, data_corruption_variants, mutated_account_probe, post_state_matches, ProbeCtx,
};
#[allow(unused_imports)]
use crate::mutation::effects::{corruptions, effects_match, load_bearing, mutation_survives, Probe};
use crate::mutation::findings::{account_role, add_finding, call_name, finding_id, found_on, Finding};
#[allow(unused_imports)]
use crate::mutation::findings::{call_text, finding_views, found_id, id_text, opt_finding, role, with_finding, FindingView};
use crate::mutation::refs::collect_explained_cc7_accounts;
#[allow(unused_imports)]
use crate::mutation::refs::{explained, key_at};
use crate::schema::{lookup_discriminator_len, TypeTags};
#[allow(unused_imports)]
use crate::schema::{byte_lists, tag_len, TagsView};
use crate::svm::{run_probe, svm_clone, svm_get_account, svm_set_account};
#[allow(unused_imports)]
use crate::svm::{account_at, run_result, run_succeeds, svm_with_account};
use crate::text::push_dec_usize;
#[allow(unused_imports)]
use crate::text::dec;
use crate::token::spl_authority_offsets;
#[allow(unused_imports)]
use crate::token::{authority_offsets, opt_offsets};
use crate::types::{copy_bytes, has_key, same_account_state, Account, Pubkey};
#[allow(unused_imports)]
use crate::types::{key_of, lemma_key_of, slots_of, zero_key, AccountView};

verus! {

/// The address whose bytes stand in the data at `at`.
pub fn read_key(data: &[u8], at: usize) -> (r: Pubkey)
    requires
        at + 32 <= data@.len(),
    ensures
        r@ == data@.subrange(at as int, at + 32),
        r == key_of(data@.subrange(at as int, at + 32)),
{
    let mut bytes: [u8; 32] = [0u8; 32];
    let mut i: usize = 0;
    assert(data@.len() == data.len());
    while i < 32
        invariant
            i <= 32,
            at + 32 <= data@.len(),
            data@.len() == data.len(),
            bytes@.len() == 32,
            forall|j: int| 0 <= j < i ==> bytes@[j] == data@[at + j],
        decreases 32 - i,
    {
        bytes[i] = data[at + i];
        i += 1;
    }
    let k = Pubkey { bytes };
    proof {
        assert(k@ =~= data@.subrange(at as int, at + 32));
        lemma_key_of(k);
    }
    k
}

/// The places in the data where an address may stand: those given, or every place behind the tag.
pub open spec fn window_offsets(tags: TagsView, data: Seq<u8>, offsets: Option<Seq<usize>>) -> Seq<usize> {
    match offsets {
        Some(o) => o,
        None => {
            let start = match tag_len(tags, data) {
                Some(n) => n as int,
                None => 0,
            };
            Seq::new((if data.len() >= start + 32 { data.len() - start - 31 } else { 0 }) as nat, |i: int| (start + i) as usize)
        },
    }
}

fn list_window_offsets(tags: &TypeTags, data: &[u8], offsets: &Option<Vec<usize>>) -> (r: Vec<usize>)
    ensures
        r@ == window_offsets(tags@, data@, opt_offsets(*offsets)),
{
    let mut r: Vec<usize> = Vec::new();
    match offsets {
        Some(o) => {
            let mut i: usize = 0;
            while i < o.len()
                invariant
                    i <= o@.len(),
                    r@ == o@.take(i as int),
                decreases o.len() - i,
            {
                r.push(o[i]);
                assert(o@.take(i + 1) =~= o@.take(i as int).push(o@[i as int]));
                i += 1;
            }
            assert(o@.take(i as int) =~= o@);
            r
        },
        None => {
            let ghost all = window_offsets(tags@, data@, None);
            let start: usize = match lookup_discriminator_len(tags, data) {
                Some(n) => n,
                None => 0,
            };
            assert(data@.len() == data.len());
            let mut at: usize = start;
            assert(r@ =~= all.take(0));
            while at < data.len() && data.len() - at >= 32
                invariant
                    start <= at,
                    at <= data@.len() || at == start,
                    data@.len() == data.len(),
                    all == window_offsets(tags@, data@, None),
                    start == match tag_len(tags@, data@) {
                        Some(n) => n,
                        None => 0,
                    },
                    at - start <= all.len(),
                    r@ == all.take(at - start),
                decreases data.len() - at,
            {
                assert(all.len() == data@.len() - start - 31);
                r.push(at);
                assert(r@ =~= all.take(at + 1 - start));
                at += 1;
            }
            assert(all.take(at - start) =~= all);
            r
        },
    }
}

/// The address stands in the data at one of the places, and may be an authority: it is neither the
/// system program nor a sysvar nor one that signs.
pub open spec fn window_value(data: Seq<u8>, offsets: Seq<usize>, signers: Seq<Pubkey>, k: Pubkey) -> bool {
    k@ != zero_key() && !known_sysvar(k) && !signers.contains(k) && exists|i: int|
        0 <= i < offsets.len() && key_at(data, k, #[trigger] offsets[i] as int)
}

/// The addresses in the data that may be authorities.
pub fn collect_window_pubkeys(tags: &TypeTags, account: &Account, offsets: &Option<Vec<usize>>, signer_keys: &Vec<Pubkey>) -> (r:
    Vec<Pubkey>)
    ensures
        forall|k: Pubkey| #[trigger]
            r@.contains(k) <==> window_value(
                account@.data,
                window_offsets(tags@, account@.data, opt_offsets(*offsets)),
                signer_keys@,
                k,
            ),
{
    let places = list_window_offsets(tags, account.data.as_slice(), offsets);
    let system = Pubkey::default();
    let mut r: Vec<Pubkey> = Vec::new();
    let mut i: usize = 0;
    while i < places.len()
        invariant
            i <= places@.len(),
            system@ == zero_key(),
            forall|k: Pubkey| #[trigger]
                r@.contains(k) <==> window_value(account@.data, places@.take(i as int), signer_keys@, k),
        decreases places.len() - i,
    {
        let at: usize = places[i];
        let ghost before = r@;
        let ghost was = places@.take(i as int);
        let ghost now = places@.take(i + 1);
        if at <= account.data.len() && account.data.len() - at >= 32 {
            let k = read_key(account.data.as_slice(), at);
            if !k.same_as(&system) && !is_known_sysvar(&k) && !has_key(signer_keys, &k) {
                r.push(k);
            }
        }
        proof {
            assert(now[i as int] == at);
            assert forall|k: Pubkey| #[trigger] r@.contains(k) <==> window_value(account@.data, now, signer_keys@, k) by {
                assert(before.contains(k) <==> window_value(account@.data, was, signer_keys@, k));
                if window_value(account@.data, was, signer_keys@, k) {
                    let j = choose|j: int| 0 <= j < was.len() && key_at(account@.data, k, #[trigger] was[j] as int);
                    assert(now[j] == was[j]);
                    assert(window_value(account@.data, now, signer_keys@, k));
                    let m = choose|m: int| 0 <= m < before.len() && before[m] == k;
                    assert(r@[m] == k);
                }
                if window_value(account@.data, now, signer_keys@, k) && !window_value(account@.data, was, signer_keys@, k) {
                    let j = choose|j: int| 0 <= j < now.len() && key_at(account@.data, k, #[trigger] now[j] as int);
                    if j < i {
                        assert(was[j] == now[j]);
                    }
                    assert(j == i);
                    assert(account@.data.subrange(at as int, at + 32) == k@);
                    lemma_key_of(k);
                    assert(r@[before.len() as int] == k);
                }
                if r@.contains(k) && !before.contains(k) {
                    let m = choose|m: int| 0 <= m < r@.len() && r@[m] == k;
                    if m < before.len() {
                        assert(before[m] == k);
                    }
                    assert(key_at(account@.data, k, now[i as int] as int));
                }
            }
        }
        i += 1;
    }
    assert(places@.take(i as int) =~= places@);
    r
}

/// The first of the places where one of the addresses stands.
pub open spec fn first_shared(data: Seq<u8>, offsets: Seq<usize>, values: spec_fn(Pubkey) -> bool) -> Option<usize>
    decreases offsets.len(),
{
    if offsets.len() == 0 {
        None
    } else if first_shared(data, offsets.drop_last(), values) is Some {
        first_shared(data, offsets.drop_last(), values)
    } else if offsets.last() + 32 <= data.len() && values(
        key_of(data.subrange(offsets.last() as int, offsets.last() + 32)),
    ) {
        Some(offsets.last())
    } else {
        None
    }
}

proof fn lemma_first_shared(data: Seq<u8>, offsets: Seq<usize>, values: spec_fn(Pubkey) -> bool, i: int)
    requires
        0 <= i < offsets.len(),
        first_shared(data, offsets.take(i), values) is None,
        offsets[i] + 32 <= data.len(),
        values(key_of(data.subrange(offsets[i] as int, offsets[i] + 32))),
    ensures
        first_shared(data, offsets, values) == Some(offsets[i]),
    decreases offsets.len(),
{
    if i == offsets.len() - 1 {
        assert(offsets.take(i) =~= offsets.drop_last());
    } else {
        assert(offsets.drop_last().take(i) =~= offsets.take(i));
        lemma_first_shared(data, offsets.drop_last(), values, i);
    }
}

/// The address is one of the list.
pub open spec fn listed(values: Seq<Pubkey>) -> spec_fn(Pubkey) -> bool {
    |k: Pubkey| values.contains(k)
}

/// The first of the places in the data where one of the addresses stands.
pub fn find_shared_pubkey_offset(tags: &TypeTags, account: &Account, offsets: &Option<Vec<usize>>, left_values: &Vec<Pubkey>) -> (r:
    Option<usize>)
    ensures
        r == first_shared(
            account@.data,
            window_offsets(tags@, account@.data, opt_offsets(*offsets)),
            listed(left_values@),
        ),
        r is Some ==> r->0 + 32 <= account@.data.len(),
{
    let places = list_window_offsets(tags, account.data.as_slice(), offsets);
    let mut i: usize = 0;
    while i < places.len()
        invariant
            i <= places@.len(),
            places@ == window_offsets(tags@, account@.data, opt_offsets(*offsets)),
            first_shared(account@.data, places@.take(i as int), listed(left_values@)) is None,
        decreases places.len() - i,
    {
        let at: usize = places[i];
        assert(places@.take(i + 1).drop_last() =~= places@.take(i as int));
        if at <= account.data.len() && account.data.len() - at >= 32 {
            let k = read_key(account.data.as_slice(), at);
            if has_key(left_values, &k) {
                proof {
                    lemma_first_shared(account@.data, places@, listed(left_values@), i as int);
                }
                return Some(at);
            }
        }
        i += 1;
    }
    assert(places@.take(i as int) =~= places@);
    None
}

/// The address may be an authority that the data holds.
pub open spec fn authority_values(data: Seq<u8>, offsets: Seq<usize>, signers: Seq<Pubkey>) -> spec_fn(Pubkey) -> bool {
    |k: Pubkey| window_value(data, offsets, signers, k)
}

/// The first place in the second account where an authority of the first stands, looking at given
/// places or everywhere.
pub open spec fn shared_offset(
    p: Probe,
    left: AccountView,
    right: AccountView,
    left_offsets: Option<Seq<usize>>,
    right_offsets: Option<Seq<usize>>,
) -> Option<usize> {
    first_shared(
        right.data,
        window_offsets(p.tags, right.data, right_offsets),
        authority_values(left.data, window_offsets(p.tags, left.data, left_offsets), signer_slots(slots_of(p.ixs))),
    )
}

fn find_shared_offset(
    ctx: &ProbeCtx,
    left: &Account,
    right: &Account,
    left_offsets: &Option<Vec<usize>>,
    right_offsets: &Option<Vec<usize>>,
    signer_keys: &Vec<Pubkey>,
) -> (r: Option<usize>)
    requires
        signer_keys@ == signer_slots(slots_of(ctx@.ixs)),
    ensures
        r == shared_offset(ctx@, left@, right@, opt_offsets(*left_offsets), opt_offsets(*right_offsets)),
        r is Some ==> r->0 + 32 <= right@.data.len(),
{
    let values = collect_window_pubkeys(ctx.tags, left, left_offsets, signer_keys);
    proof {
        let a = listed(values@);
        let b = authority_values(
            left@.data,
            window_offsets(ctx@.tags, left@.data, opt_offsets(*left_offsets)),
            signer_keys@,
        );
        assert forall|k: Pubkey| #[trigger] a(k) == b(k) by {
            assert(values@.contains(k) == a(k));
        }
        assert(a =~= b);
    }
    find_shared_pubkey_offset(ctx.tags, right, right_offsets, &values)
}

/// The place in the account at `right` where an authority of the account at `left` stands.
pub open spec fn shared_authority(p: Probe, left: Pubkey, right: Pubkey) -> Option<usize> {
    match (account_at(p.svm, left), account_at(p.svm, right)) {
        (Some(l), Some(r)) => shared_offset(p, l, r, authority_offsets(l), authority_offsets(r)),
        _ => None,
    }
}

/// A place where both accounts hold the same address, though none of the places where the accounts of
/// token programs keep authorities.
pub open spec fn demoted_offset(p: Probe, left: Pubkey, right: Pubkey) -> Option<usize> {
    match (account_at(p.svm, left), account_at(p.svm, right)) {
        (Some(l), Some(r)) => if shared_authority(p, left, right) is None && (authority_offsets(l) is Some
            || authority_offsets(r) is Some) {
            shared_offset(p, l, r, None, None)
        } else {
            None
        },
        _ => None,
    }
}

/// What identifies a finding on a place in an account.
pub open spec fn offset_id(p: Probe, k: Pubkey, at: usize) -> Seq<char> {
    id_text(
        "CC-9.5 cross-authority"@,
        p.disc_len,
        p.ixs[0],
        role(account_keys(p.ixs), k) + "@"@ + dec(at as nat),
    )
}

fn offset_on(ctx: &ProbeCtx, k: &Pubkey, at: usize) -> (r: String)
    requires
        ctx@.ixs.len() > 0,
    ensures
        r@ == offset_id(ctx@, *k, at),
{
    let mut role = account_role(ctx, k);
    role.append("@");
    push_dec_usize(&mut role, at);
    finding_id("CC-9.5 cross-authority", ctx.disc_len, &ctx.instructions[0], role.as_str())
}

/// What is noted of a shared address that is no authority.
pub open spec fn demotion(p: Probe, left: Pubkey, right: Pubkey) -> Option<FindingView> {
    match demoted_offset(p, left, right) {
        Some(at) => Some(
            FindingView {
                id: offset_id(p, right, at),
                message: "CC-9.5: SPL non-authority window (offset "@ + dec(at as nat) + ") on "@ + base58(right@)
                    + ", not a canonical authority field"@,
            },
        ),
        None => None,
    }
}

/// The place in the account at `right` where an authority of the account at `left` stands, and what is
/// noted where there is none.
pub(crate) fn shared_non_signer_pubkey_offset(ctx: &ProbeCtx, left: &Pubkey, right: &Pubkey, signer_keys: &Vec<Pubkey>) -> (r: (
    Option<usize>,
    Option<Finding>,
))
    requires
        ctx@.ixs.len() > 0,
        signer_keys@ == signer_slots(slots_of(ctx@.ixs)),
    ensures
        r.0 == shared_authority(ctx@, *left, *right),
        opt_finding(r.1) == demotion(ctx@, *left, *right),
        r.0 is Some ==> account_at(ctx@.svm, *right) is Some && r.0->0 + 32 <= account_at(ctx@.svm, *right)->0.data.len(),
{
    let l = match svm_get_account(ctx.svm, left) {
        Some(a) => a,
        None => {
            return (None, None);
        },
    };
    let r = match svm_get_account(ctx.svm, right) {
        Some(a) => a,
        None => {
            return (None, None);
        },
    };
    let left_offsets = spl_authority_offsets(&l);
    let right_offsets = spl_authority_offsets(&r);
    let found = find_shared_offset(ctx, &l, &r, &left_offsets, &right_offsets, signer_keys);
    if found.is_some() {
        return (found, None);
    }
    if left_offsets.is_none() && right_offsets.is_none() {
        return (None, None);
    }
    let nowhere: Option<Vec<usize>> = None;
    match find_shared_offset(ctx, &l, &r, &nowhere, &nowhere, signer_keys) {
        Some(at) => {
            let mut m = String::from_str("CC-9.5: SPL non-authority window (offset ");
            push_dec_usize(&mut m, at);
            m.append(") on ");
            m.append(key_text(right).as_str());
            m.append(", not a canonical authority field");
            (None, Some(Finding { id: offset_on(ctx, right, at), message: m }))
        },
        None => (None, None),
    }
}

/// The data with the bytes of `k` at `at`.
pub open spec fn with_key_at(data: Seq<u8>, at: int, k: Pubkey) -> Seq<u8> {
    Seq::new(data.len(), |i: int| if at <= i < at + 32 { k@[i - at] } else { data[i] })
}

fn put_key_at(data: &[u8], at: usize, k: &Pubkey) -> (r: Vec<u8>)
    requires
        at + 32 <= data@.len(),
    ensures
        r@ == with_key_at(data@, at as int, *k),
{
    let mut r: Vec<u8> = Vec::new();
    let mut i: usize = 0;
    assert(data@.len() == data.len());
    while i < data.len()
        invariant
            i <= data@.len(),
            data@.len() == data.len(),
            at + 32 <= data@.len(),
            r@ == with_key_at(data@, at as int, *k).take(i as int),
        decreases data.len() - i,
    {
        let b: u8 = if at <= i && i < at + 32 {
            k.bytes[i - at]
        } else {
            data[i]
        };
        r.push(b);
        assert(r@ =~= with_key_at(data@, at as int, *k).take(i + 1));
        i += 1;
    }
    assert(with_key_at(data@, at as int, *k).take(i as int) =~= with_key_at(data@, at as int, *k));
    r
}

/// Both accounts were observed, have the same class, and are read.
pub open spec fn same_class_read(p: Probe, left: Pubkey, right: Pubkey) -> bool {
    let s = scope_of(p);
    class_in(s, left) is Some && class_in(s, left) == class_in(s, right) && load_bearing(p, left) && load_bearing(p, right)
}

/// The finding on two accounts that share an authority: with another one in the second, the
/// transaction does what it did.
pub open spec fn cross_finding(p: Probe, left: Pubkey, right: Pubkey) -> Option<FindingView> {
    if !same_class_read(p, left, right) {
        None
    } else {
        match shared_authority(p, left, right) {
            Some(at) => {
                let a = account_at(p.svm, right)->0;
                if mutation_survives(p, right, AccountView { data: with_key_at(a.data, at as int, attacker()), ..a }) {
                    Some(
                        FindingView {
                            id: offset_id(p, right, at),
                            message: "[CC-9.5 cross-authority] same-class accounts "@ + base58(left@) + " and "@ + base58(
                                right@,
                            ) + " share non-signer authority field, mutated "@ + base58(right@) + " offset "@ + dec(at as nat)
                                + " to "@ + base58(attacker()@) + ", instr "@ + call_text(p) + " still succeeded"@,
                        },
                    )
                } else {
                    None
                }
            },
            None => None,
        }
    }
}

/// The findings on accounts that share an authority.
pub open spec fn cross_findings(p: Probe, pairs: Seq<(Pubkey, Pubkey)>) -> Seq<FindingView>
    decreases pairs.len(),
{
    if pairs.len() == 0 {
        Seq::empty()
    } else {
        with_finding(cross_findings(p, pairs.drop_last()), cross_finding(p, pairs.last().0, pairs.last().1))
    }
}

/// What is noted of shared addresses that are no authorities.
pub open spec fn cross_demotions(p: Probe, pairs: Seq<(Pubkey, Pubkey)>) -> Seq<FindingView>
    decreases pairs.len(),
{
    if pairs.len() == 0 {
        Seq::empty()
    } else {
        let before = cross_demotions(p, pairs.drop_last());
        let (left, right) = pairs.last();
        if same_class_read(p, left, right) { with_finding(before, demotion(p, left, right)) } else { before }
    }
}

fn is_same_class_read(ctx: &ProbeCtx, index: &AccountClassIndex, left: &Pubkey, right: &Pubkey) -> (r: bool)
    requires
        index.well_formed(),
        index.scope@ == scope_of(ctx@),
    ensures
        r == same_class_read(ctx@, *left, *right),
{
    match (index.class_of(left), index.class_of(right)) {
        (Some(a), Some(b)) => a.same_as(b) && account_is_load_bearing(ctx, left) && account_is_load_bearing(ctx, right),
        _ => false,
    }
}

fn probe_cross(ctx: &ProbeCtx, left: &Pubkey, right: &Pubkey, at: usize) -> (r: Option<Finding>)
    requires
        ctx@.ixs.len() > 0,
        same_class_read(ctx@, *left, *right),
        shared_authority(ctx@, *left, *right) == Some(at),
        account_at(ctx@.svm, *right) is Some,
        at + 32 <= account_at(ctx@.svm, *right)->0.data.len(),
    ensures
        opt_finding(r) == cross_finding(ctx@, *left, *right),
{
    let account = match svm_get_account(ctx.svm, right) {
        Some(a) => a,
        None => {
            return None;
        },
    };
    let replacement = attacker_key();
    let ghost want = AccountView { data: with_key_at(account@.data, at as int, replacement), ..account@ };
    let changed = Account {
        lamports: account.lamports,
        data: put_key_at(account.data.as_slice(), at, &replacement),
        owner: account.owner,
        executable: account.executable,
        rent_epoch: account.rent_epoch,
    };
    assert(changed@ == want);
    if !mutated_account_probe(ctx, *right, changed) {
        return None;
    }
    let mut m = String::from_str("[CC-9.5 cross-authority] same-class accounts ");
    m.append(key_text(left).as_str());
    m.append(" and ");
    m.append(key_text(right).as_str());
    m.append(" share non-signer authority field, mutated ");
    m.append(key_text(right).as_str());
    m.append(" offset ");
    push_dec_usize(&mut m, at);
    m.append(" to ");
    m.append(key_text(&replacement).as_str());
    m.append(", instr ");
    m.append(call_name(ctx).as_str());
    m.append(" still succeeded");
    Some(Finding { id: offset_on(ctx, right, at), message: m })
}

/// Probes accounts that share an authority: the second need not agree with the first.
pub(crate) fn probe_cross_authorities(ctx: &ProbeCtx, demoted: &mut Vec<Finding>) -> (r: Vec<Finding>)
    requires
        ctx@.ixs.len() > 0,
    ensures
        finding_views(r@) == cross_findings(ctx@, all_pairs(account_keys(ctx@.ixs))),
        finding_views(final(demoted)@) == finding_views(old(demoted)@) + cross_demotions(
            ctx@,
            all_pairs(account_keys(ctx@.ixs)),
        ),
{
    let index = index_of(ctx);
    let keys = instruction_account_keys_ordered(ctx.instructions);
    let signer_keys = signer_meta_pubkeys(ctx.instructions);
    let pairs = list_pairs(&keys);
    let ghost noted = finding_views(demoted@);
    let mut r: Vec<Finding> = Vec::new();
    let mut i: usize = 0;
    assert(finding_views(r@) =~= cross_findings(ctx@, pairs@.take(0)));
    assert(noted =~= noted + cross_demotions(ctx@, pairs@.take(0)));
    while i < pairs.len()
        invariant
            i <= pairs@.len(),
            ctx@.ixs.len() > 0,
            index.well_formed(),
            index.scope@ == scope_of(ctx@),
            signer_keys@ == signer_slots(slots_of(ctx@.ixs)),
            finding_views(r@) == cross_findings(ctx@, pairs@.take(i as int)),
            finding_views(demoted@) == noted + cross_demotions(ctx@, pairs@.take(i as int)),
        decreases pairs.len() - i,
    {
        let (left, right) = pairs[i];
        assert(pairs@.take(i + 1).drop_last() =~= pairs@.take(i as int));
        assert(pairs@.take(i + 1).last() == (left, right));
        if is_same_class_read(ctx, &index, &left, &right) {
            let (at, note) = shared_non_signer_pubkey_offset(ctx, &left, &right, &signer_keys);
            add_finding(demoted, note);
            assert(finding_views(demoted@) =~= noted + cross_demotions(ctx@, pairs@.take(i + 1)));
            match at {
                Some(at) => {
                    let f = probe_cross(ctx, &left, &right, at);
                    add_finding(&mut r, f);
                },
                None => {},
            }
        }
        i += 1;
    }
    assert(pairs@.take(i as int) =~= pairs@);
    r
}

/// The two accounts can be confused: they have the same class, more of it is known than the length of
/// the data, no reference explains them, they are used alike, both are read, and the transaction
/// leaves them different.
pub open spec fn confusable(p: Probe, left: Pubkey, right: Pubkey) -> bool {
    let slots = slots_of(p.ixs);
    same_class_read(p, left, right) && !(class_in(scope_of(p), left)->0.shape is DataLen) && !explained(p.svm, p.ixs, left)
        && !explained(p.svm, p.ixs, right) && meta_flags(slots, left) == meta_flags(slots, right) && account_at(
        p.after,
        left,
    ) != account_at(p.after, right)
}

/// With `left` in the place of `right` too, the transaction succeeds and does something else.
pub open spec fn alias_diverges(p: Probe, left: Pubkey, right: Pubkey) -> bool {
    let ixs = rewritten(p.ixs, right, left);
    run_succeeds(p.svm, ixs, p.signers, p.payer, p.sigverify) && !effects_match(
        p.after,
        run_result(p.svm, ixs, p.signers, p.payer, p.sigverify).0,
        p.ixs,
        ixs,
        Seq::empty(),
        seq![left, right],
        p.payer.key,
    )
}

/// The finding on two accounts that can be confused: the same one is accepted for both.
pub open spec fn duplicate_finding(p: Probe, left: Pubkey, right: Pubkey) -> Option<FindingView> {
    if confusable(p, left, right) && alias_diverges(p, left, right) {
        Some(
            FindingView {
                id: found_id(p, "CC-14 duplicate-account"@, right),
                message: "[CC-14 duplicate-account] same-class accounts "@ + base58(left@) + " and "@ + base58(right@)
                    + " accepted when "@ + base58(right@) + " was aliased to "@ + base58(left@) + ", instr "@ + call_text(p)
                    + " succeeded with divergent outcome"@,
            },
        )
    } else {
        None
    }
}

/// The findings on accounts that can be confused.
pub open spec fn duplicate_findings(p: Probe, pairs: Seq<(Pubkey, Pubkey)>) -> Seq<FindingView>
    decreases pairs.len(),
{
    if pairs.len() == 0 {
        Seq::empty()
    } else {
        with_finding(duplicate_findings(p, pairs.drop_last()), duplicate_finding(p, pairs.last().0, pairs.last().1))
    }
}

fn same_flags(a: Option<(bool, bool)>, b: Option<(bool, bool)>) -> (r: bool)
    ensures
        r == (a == b),
{
    match (a, b) {
        (None, None) => true,
        (Some(x), Some(y)) => x.0 == y.0 && x.1 == y.1,
        _ => false,
    }
}

fn is_confusable(ctx: &ProbeCtx, index: &AccountClassIndex, unclear: &Vec<Pubkey>, left: &Pubkey, right: &Pubkey) -> (r: bool)
    requires
        index.well_formed(),
        index.scope@ == scope_of(ctx@),
        forall|k: Pubkey| #[trigger] unclear@.contains(k) <==> explained(ctx@.svm, ctx@.ixs, k),
    ensures
        r == confusable(ctx@, *left, *right),
{
    let by_length = match index.class_of(left) {
        Some(class) => match &class.shape {
            AccountShape::DataLen(_) => true,
            _ => false,
        },
        None => true,
    };
    if by_length || has_key(unclear, left) || has_key(unclear, right) {
        return false;
    }
    let a = account_meta_flags(ctx.instructions, *left);
    let b = account_meta_flags(ctx.instructions, *right);
    if !same_flags(a, b) || !is_same_class_read(ctx, index, left, right) {
        return false;
    }
    !same_account_state(&svm_get_account(ctx.baseline_after, left), &svm_get_account(ctx.baseline_after, right))
}

fn alias_probe(ctx: &ProbeCtx, left: &Pubkey, right: &Pubkey) -> (r: bool)
    ensures
        r == alias_diverges(ctx@, *left, *right),
{
    let changed = rewrite_account(ctx.instructions, *right, *left);
    let mut probe = svm_clone(ctx.svm);
    if !run_probe(&mut probe, changed.as_slice(), ctx.signers, ctx.payer, ctx.sigverify) {
        return false;
    }
    let none: [(Pubkey, Pubkey); 0] = [];
    let ignored: [Pubkey; 2] = [*left, *right];
    assert(none@ =~= Seq::<(Pubkey, Pubkey)>::empty());
    assert(ignored@ =~= seq![*left, *right]);
    !post_state_matches(
        ctx.baseline_after,
        &probe,
        ctx.instructions,
        changed.as_slice(),
        &none,
        &ignored,
        ctx.payer.key,
    )
}

fn probe_duplicate(ctx: &ProbeCtx, index: &AccountClassIndex, unclear: &Vec<Pubkey>, left: &Pubkey, right: &Pubkey) -> (r: Option<
    Finding,
>)
    requires
        ctx@.ixs.len() > 0,
        index.well_formed(),
        index.scope@ == scope_of(ctx@),
        forall|k: Pubkey| #[trigger] unclear@.contains(k) <==> explained(ctx@.svm, ctx@.ixs, k),
    ensures
        opt_finding(r) == duplicate_finding(ctx@, *left, *right),
{
    if !is_confusable(ctx, index, unclear, left, right) || !alias_probe(ctx, left, right) {
        return None;
    }
    let mut m = String::from_str("[CC-14 duplicate-account] same-class accounts ");
    m.append(key_text(left).as_str());
    m.append(" and ");
    m.append(key_text(right).as_str());
    m.append(" accepted when ");
    m.append(key_text(right).as_str());
    m.append(" was aliased to ");
    m.append(key_text(left).as_str());
    m.append(", instr ");
    m.append(call_name(ctx).as_str());
    m.append(" succeeded with divergent outcome");
    Some(Finding { id: found_on(ctx, "CC-14 duplicate-account", right), message: m })
}

/// Probes accounts that can be confused: the same one may be given for both.
pub(crate) fn probe_duplicates(ctx: &ProbeCtx) -> (r: Vec<Finding>)
    requires
        ctx@.ixs.len() > 0,
    ensures
        finding_views(r@) == duplicate_findings(ctx@, all_pairs(account_keys(ctx@.ixs))),
{
    let index = index_of(ctx);
    let keys = instruction_account_keys_ordered(ctx.instructions);
    let unclear = collect_explained_cc7_accounts(ctx.svm, ctx.instructions);
    let pairs = list_pairs(&keys);
    let mut r: Vec<Finding> = Vec::new();
    let mut i: usize = 0;
    assert(finding_views(r@) =~= duplicate_findings(ctx@, pairs@.take(0)));
    while i < pairs.len()
        invariant
            i <= pairs@.len(),
            ctx@.ixs.len() > 0,
            index.well_formed(),
            index.scope@ == scope_of(ctx@),
            forall|k: Pubkey| #[trigger] unclear@.contains(k) <==> explained(ctx@.svm, ctx@.ixs, k),
            finding_views(r@) == duplicate_findings(ctx@, pairs@.take(i as int)),
        decreases pairs.len() - i,
    {
        assert(pairs@.take(i + 1).drop_last() =~= pairs@.take(i as int));
        let f = probe_duplicate(ctx, &index, &unclear, &pairs[i].0, &pairs[i].1);
        add_finding(&mut r, f);
        i += 1;
    }
    assert(pairs@.take(i as int) =~= pairs@);
    r
}

/// The forgeries of an account: with another owner, and with its data corrupted in each way.
pub open spec fn forgeries(a: AccountView) -> Seq<AccountView> {
    let cs = corruptions(a.data);
    seq![AccountView { owner: other_owner(a.owner), ..a }] + Seq::new(
        cs.len(),
        |i: int| AccountView { data: cs[i], ..a },
    )
}

/// With the forged account, the transaction succeeds and changes more than the forged account.
pub open spec fn forgery_works(p: Probe, target: Pubkey, forged: AccountView) -> bool {
    let w = svm_with_account(p.svm, target, forged);
    w.1 && run_succeeds(w.0, p.ixs, p.signers, p.payer, p.sigverify) && !effects_match(
        p.svm,
        run_result(w.0, p.ixs, p.signers, p.payer, p.sigverify).0,
        p.ixs,
        p.ixs,
        Seq::empty(),
        seq![target],
        p.payer.key,
    )
}

/// Some forgery of the account works.
pub open spec fn some_forgery_works(p: Probe, target: Pubkey, list: Seq<AccountView>) -> bool {
    exists|i: int| 0 <= i < list.len() && forgery_works(p, target, #[trigger] list[i])
}

/// The finding on an account that is passed on to another program: a forged one is passed on as well.
pub open spec fn forwarded_finding(p: Probe, target: Pubkey) -> Option<FindingView> {
    match account_at(p.svm, target) {
        Some(a) => if p.forwarded.contains(target) && some_forgery_works(p, target, forgeries(a)) {
            Some(
                FindingView {
                    id: found_id(p, "CC-13 forwarded-account"@, target),
                    message: "[CC-13 forwarded-account] account "@ + base58(target@)
                        + " forwarded into a downstream CPI was replaced with a malformed account, instr "@ + call_text(p)
                        + " still succeeded and changed state (forwarded account not validated before the CPI)"@,
                },
            )
        } else {
            None
        },
        None => None,
    }
}

/// The findings on accounts that are passed on.
pub open spec fn forwarded_findings(p: Probe, keys: Seq<Pubkey>) -> Seq<FindingView>
    decreases keys.len(),
{
    if keys.len() == 0 {
        Seq::empty()
    } else {
        with_finding(forwarded_findings(p, keys.drop_last()), forwarded_finding(p, keys.last()))
    }
}

fn forgery_probe(ctx: &ProbeCtx, target: &Pubkey, forged: Account) -> (r: bool)
    ensures
        r == forgery_works(ctx@, *target, forged@),
{
    let mut probe = svm_clone(ctx.svm);
    if !svm_set_account(&mut probe, target, forged) {
        return false;
    }
    if !run_probe(&mut probe, ctx.instructions, ctx.signers, ctx.payer, ctx.sigverify) {
        return false;
    }
    let none: [(Pubkey, Pubkey); 0] = [];
    let ignored: [Pubkey; 1] = [*target];
    assert(none@ =~= Seq::<(Pubkey, Pubkey)>::empty());
    assert(ignored@ =~= seq![*target]);
    !post_state_matches(ctx.svm, &probe, ctx.instructions, ctx.instructions, &none, &ignored, ctx.payer.key)
}

fn any_forgery_works(ctx: &ProbeCtx, target: &Pubkey, original: &Account) -> (r: bool)
    ensures
        r == some_forgery_works(ctx@, *target, forgeries(original@)),
{
    let ghost list = forgeries(original@);
    let variants = data_corruption_variants(original.data.as_slice());
    assert(byte_lists(variants@).len() == variants@.len());
    let mut spoofed = original.copy();
    spoofed.owner = wrong_owner(original.owner);
    assert(spoofed@ == list[0]);
    if forgery_probe(ctx, target, spoofed) {
        return true;
    }
    let mut i: usize = 0;
    while i < variants.len()
        invariant
            i <= variants@.len(),
            list == forgeries(original@),
            byte_lists(variants@) == corruptions(original@.data),
            byte_lists(variants@).len() == variants@.len(),
            forall|j: int| 0 <= j < i + 1 ==> !forgery_works(ctx@, *target, #[trigger] list[j]),
        decreases variants.len() - i,
    {
        let forged = Account {
            lamports: original.lamports,
            data: copy_bytes(variants[i].as_slice()),
            owner: original.owner,
            executable: original.executable,
            rent_epoch: original.rent_epoch,
        };
        assert(byte_lists(variants@)[i as int] == variants@[i as int]@);
        assert(forged@ == list[i + 1]);
        if forgery_probe(ctx, target, forged) {
            return true;
        }
        i += 1;
    }
    false
}

fn probe_forwarded(ctx: &ProbeCtx, target: &Pubkey) -> (r: Option<Finding>)
    requires
        ctx@.ixs.len() > 0,
    ensures
        opt_finding(r) == forwarded_finding(ctx@, *target),
{
    let original = match svm_get_account(ctx.svm, target) {
        Some(a) => a,
        None => {
            return None;
        },
    };
    if !has_key(ctx.forwarded_accounts, target) || !any_forgery_works(ctx, target, &original) {
        return None;
    }
    let mut m = String::from_str("[CC-13 forwarded-account] account ");
    m.append(key_text(target).as_str());
    m.append(" forwarded into a downstream CPI was replaced with a malformed account, instr ");
    m.append(call_name(ctx).as_str());
    m.append(" still succeeded and changed state (forwarded account not validated before the CPI)");
    Some(Finding { id: found_on(ctx, "CC-13 forwarded-account", target), message: m })
}

/// Probes accounts that are passed on to another program: a malformed one may flow through.
pub(crate) fn probe_forwarded_accounts(ctx: &ProbeCtx) -> (r: Vec<Finding>)
    requires
        ctx@.ixs.len() > 0,
    ensures
        finding_views(r@) == forwarded_findings(ctx@, account_keys(ctx@.ixs)),
{
    let keys = instruction_account_keys_ordered(ctx.instructions);
    let mut r: Vec<Finding> = Vec::new();
    let mut i: usize = 0;
    assert(finding_views(r@) =~= forwarded_findings(ctx@, keys@.take(0)));
    while i < keys.len()
        invariant
            i <= keys@.len(),
            ctx@.ixs.len() > 0,
            finding_views(r@) == forwarded_findings(ctx@, keys@.take(i as int)),
        decreases keys.len() - i,
    {
        assert(keys@.take(i + 1).drop_last() =~= keys@.take(i as int));
        let f = probe_forwarded(ctx, &keys[i]);
        add_finding(&mut r, f);
        i += 1;
    }
    assert(keys@.take(i as int) =~= keys@);
    r
}

} // verus!
