//! What holds of loading accounts, of what is refused, and of how a session goes on.
use vstd::prelude::*;
#[allow(unused_imports)]
use litesvm::LiteSVM;
#[allow(unused_imports)]
use crate::builders::queued;
#[allow(unused_imports)]
use crate::context::{program_added, svm_with_program, written, ContextView, ProgramView};
#[allow(unused_imports)]
use crate::debug::{fx_after_size, fx_after_word, fx_fed, fx_start, HashPart};
#[allow(unused_imports)]
use crate::errors::{error_text, ContextError};
#[allow(unused_imports)]
use crate::keys::{base58, Keypair};
#[allow(unused_imports)]
use crate::mutation::cache::cap_setting;
#[allow(unused_imports)]
use crate::number::unsigned_value;
#[allow(unused_imports)]
use crate::ready::{code_first, holds_program_code, keeping_order, kept_in, last_code, Left};
#[allow(unused_imports)]
use crate::rpc::{account_loaded, chunk_at, upgradeable_loaded};
#[allow(unused_imports)]
use crate::schema::fallback_setting;
#[allow(unused_imports)]
use crate::session::{
    cleared_violation, fresh_session, with_mutation_violation, with_violation, without_violation, SessionView,
};
#[allow(unused_imports)]
use crate::svm::{account_at, svm_with_account};
#[allow(unused_imports)]
use crate::text::dec;
#[allow(unused_imports)]
use crate::types::{AccountView, InstructionView, Pubkey};

verus! {

/// What each error is told as.
pub proof fn lemma_error_told(e: ContextError)
    ensures
        e matches ContextError::AccountNotFound(k) ==> error_text(e) == "Account not found: "@ + base58(k@),
        e matches ContextError::NoTag { need, got } ==> error_text(e) == "Account data too small for discriminator (need "@
            + dec(need as nat) + " bytes, got "@ + dec(got as nat) + ")"@,
        e matches ContextError::TooShortToRead { got, need, tag } ==> error_text(e) == "Account data too small for zero-copy struct: got "@
            + dec(got as nat) + " bytes, need "@ + dec(need as nat) + " bytes (discriminator: "@ + dec(tag as nat) + ")"@,
        e matches ContextError::TooShortToWrite { got, need } ==> error_text(e) == "Account data too small for zero-copy struct: got "@
            + dec(got as nat) + " bytes, need "@ + dec(need as nat) + " bytes"@,
        e is NoBatchSigner ==> error_text(e) == "At least one signer required for send_batch. The first signer is the fee payer."@,
        e is NoSigner ==> error_text(e) == "At least one signer required"@,
        e matches ContextError::Signing(s) ==> error_text(e) == s@,
        e is AddressNotSet ==> error_text(e) == "Address must be set with .pubkey()"@,
        e is MintNotSet ==> error_text(e) == "Mint must be set with .mint()"@,
        e is OwnerNotSet ==> error_text(e) == "Owner must be set with .token_owner()"@,
        e is WrongLength ==> error_text(e) == "An account's data contents was invalid"@,
        e matches ContextError::ProgramNotLoaded(k, s) ==> error_text(e) == "failed to load program "@ + base58(k@) + ": "@
            + s@,
        e is NoPriceUpdate ==> error_text(e) == "Failed to deserialize account"@,
        e matches ContextError::ProgramAccountTooShort(n) ==> error_text(e) == "Program account data too short ("@
            + dec(n as nat) + " bytes) for BPF Upgradeable Loader"@,
        e matches ContextError::ProgramDataTooShort(n) ==> error_text(e) == "ProgramData data too short ("@ + dec(n as nat)
            + " bytes)"@,
        e is InvalidOwner ==> error_text(e) == "invalid owner pubkey in cache"@,
        e matches ContextError::NotFoundAtSource(k) ==> error_text(e) == "Account "@ + base58(k@) + " not found on RPC"@,
        e is NoFilter ==> error_text(e) == "clone_program_accounts requires at least one filter. Unfiltered getProgramAccounts can return millions of results."@,
        e matches ContextError::TooManyAccounts { got, max } ==> error_text(e) == "getProgramAccounts returned "@
            + dec(got as nat) + " accounts (max: "@ + dec(max as nat)
            + "). Add stricter filters or increase max with .max_program_accounts()."@,
{
}

/// Loading an account: one that is not executable is written as it is; one that is executable becomes a program, with its
/// own code or with the code that is given instead.
pub proof fn lemma_account_loaded(
    before: ContextView,
    after: ContextView,
    key: Pubkey,
    a: AccountView,
    replacement: Option<&[u8]>,
    r: Result<(), ContextError>,
)
    requires
        account_loaded(before, after, key, a, replacement, r),
    ensures
        !a.executable ==> r is Ok && after == written(before, key, a),
        a.executable && replacement is None ==> program_added(before, after, key, a.data, r),
        a.executable && replacement is Some ==> program_added(before, after, key, replacement->0@, r),
{
}

/// Loading a program that can be upgraded: its code stands behind a header of 45 bytes, or is given instead. Where it can
/// be loaded, the account of its code and its own are written as they are.
pub proof fn lemma_upgradeable_loaded(
    before: ContextView,
    after: ContextView,
    id: Pubkey,
    a: AccountView,
    address: Pubkey,
    data: AccountView,
    replacement: Option<&[u8]>,
    r: Result<(), ContextError>,
) -> (mid: ContextView)
    requires
        upgradeable_loaded(before, after, id, a, address, data, replacement, r),
    ensures
        data.data.len() < 45 ==> r == Err::<(), ContextError>(ContextError::ProgramDataTooShort(data.data.len() as usize)) && after
            == before,
        data.data.len() >= 45 && replacement is None ==> program_added(before, mid, id, data.data.skip(45), r),
        data.data.len() >= 45 && replacement is Some ==> program_added(before, mid, id, replacement->0@, r),
        data.data.len() >= 45 && r is Ok ==> after == written(written(mid, address, data), id, a),
        data.data.len() >= 45 && r is Err ==> after == mid,
{
    let elf = crate::rpc::code_of(replacement, data.data.skip(45));
    choose|mid: ContextView|
        #[trigger] program_added(before, mid, id, elf, r) && after == if r is Ok {
            written(written(mid, address, data), id, a)
        } else {
            mid
        }
}

/// Adding a program succeeds just where the machine takes it. Then it is the last of the programs, and holds its code. What
/// is pending, seen, changed and kept stays as it is.
pub proof fn lemma_program_added(
    before: ContextView,
    after: ContextView,
    id: Pubkey,
    program: Seq<u8>,
    r: Result<(), ContextError>,
)
    requires
        program_added(before, after, id, program, r),
    ensures
        r is Ok <==> svm_with_program(before.svm, id, program).1 is Ok,
        after.svm == svm_with_program(before.svm, id, program).0,
        r is Ok ==> after.programs == before.programs.push(ProgramView { program_id: id, data: program }),
        r is Ok ==> account_at(after.svm, id) is Some && account_at(after.svm, id)->0.data == program && account_at(
            after.svm,
            id,
        )->0.executable,
        r is Err ==> after.programs == before.programs && r->Err_0 is ProgramNotLoaded && r->Err_0->ProgramNotLoaded_0 == id,
        forall|k: Pubkey| k != id ==> #[trigger] account_at(after.svm, k) == account_at(before.svm, k),
        after.pending == before.pending && after.pending_signers == before.pending_signers && after.seen == before.seen,
        after.snapshot == before.snapshot && after.dirty == before.dirty && after.mutation == before.mutation,
        after.sigverify == before.sigverify,
{
}

/// Queueing an instruction puts it and its signers behind those that are pending, and changes nothing else.
pub proof fn lemma_queued(c: ContextView, ix: InstructionView, signers: Seq<Keypair>)
    ensures
        ({
            let q = queued(c, ix, signers);
            &&& q.pending.len() == c.pending.len() + 1 && q.pending.last() == ix && q.pending.drop_last() == c.pending
            &&& q.pending_signers == c.pending_signers + signers
            &&& q.svm == c.svm && q.programs == c.programs && q.seen == c.seen && q.totals == c.totals
            &&& q.snapshot == c.snapshot && q.dirty == c.dirty && q.mutation == c.mutation && q.sigverify == c.sigverify
        }),
{
    assert(queued(c, ix, signers).pending.drop_last() =~= c.pending);
}

/// The missing accounts are asked for in lists of a hundred: each but the last has a hundred, and what stands at a place
/// of a list stands behind those of the lists before it.
pub proof fn lemma_chunks(v: Seq<usize>, n: int, i: int)
    requires
        0 <= n,
        100 * n < v.len(),
        0 <= i < chunk_at(v, n).len(),
    ensures
        chunk_at(v, n).len() <= 100,
        100 * n + 100 <= v.len() ==> chunk_at(v, n).len() == 100,
        100 * n + 100 > v.len() ==> chunk_at(v, n).len() == v.len() - 100 * n,
        chunk_at(v, n)[i] == v[100 * n + i],
{
}

/// How a violation is noted: only where there is none, with the finding where it comes from one, and nothing else changes.
pub proof fn lemma_violation_noted(s: SessionView, msg: Seq<char>, id: Seq<char>)
    ensures
        s.violation is Some ==> with_violation(s, msg) == s && with_mutation_violation(s, msg, id) == s,
        s.violation is None ==> with_violation(s, msg) == (SessionView {
            violation: Some(msg),
            from_mutation: false,
            finding_id: None,
            finding_message: None,
            ..s
        }),
        s.violation is None ==> with_mutation_violation(s, msg, id) == (SessionView {
            violation: Some(msg),
            from_mutation: true,
            finding_id: Some(id),
            finding_message: Some(msg),
            ..s
        }),
        without_violation(s) == (SessionView { violation: None, ..s }),
        cleared_violation(s) == (SessionView {
            violation: None,
            from_mutation: false,
            finding_id: None,
            finding_message: None,
            ..s
        }),
{
}

/// A session starts with nothing noted.
pub proof fn lemma_fresh_session()
    ensures
        ({
            let s = fresh_session();
            &&& s.violation is None && !s.from_mutation && s.finding_id is None && s.finding_message is None
            &&& s.expected_finding_id is None && s.current_instruction is None && s.history.len() == 0 && s.test_name is None
            &&& s.iteration == 0 && s.total_actions == 0 && s.violation_index is None && s.last_error_code is None
            &&& s.dispatch_count == 0 && s.total_dispatched == 0 && s.total_succeeded == 0 && s.succeeded_variants.len() == 0
            &&& !s.stateful_chain_mode && !s.corpus_loading
        }),
{
}

/// How often an instruction may be probed: as often as is set, or eight times where no number is set that fits.
pub proof fn lemma_cap(n: int, other: Seq<char>)
    requires
        0 <= n <= u32::MAX,
        unsigned_value(other) is None || unsigned_value(other)->0 > u32::MAX,
    ensures
        cap_setting(None) == 8,
        cap_setting(Some(dec(n as nat))) == n,
        cap_setting(Some(other)) == 8,
{
    crate::number::lemma_number_read_back(n);
}

/// How long a tag is where none is registered: as long as is set, eight bytes where no number is set that fits, and there
/// is none where zero is set.
pub proof fn lemma_fallback(n: int)
    requires
        0 <= n <= usize::MAX,
    ensures
        fallback_setting(None) == Some(8usize),
        n > 0 ==> fallback_setting(Some(dec(n as nat))) == Some(n as usize),
        n == 0 ==> fallback_setting(Some(dec(n as nat))) is None,
        fallback_setting(Some("off"@)) is None,
        fallback_setting(Some("OFF"@)) is None,
{
    crate::number::lemma_digits(n as nat);
    crate::number::lemma_number_read_back(n);
    let d = dec(n as nat);
    if crate::schema::says_off(d) {
        assert(crate::number::is_digit(d[0]));
    }
    reveal_strlit("off");
    reveal_strlit("OFF");
}

/// The hash is fed with the parts one after the other.
pub proof fn lemma_fed(bits: u32, parts: Seq<HashPart>, part: HashPart)
    ensures
        fx_fed(bits, Seq::empty()) == fx_start(bits),
        fx_fed(bits, parts.push(part)) == match part {
            HashPart::Word(n) => fx_after_word(bits, fx_fed(bits, parts), n),
            HashPart::Size(n) => fx_after_size(bits, fx_fed(bits, parts), n),
        },
{
    assert(parts.push(part).drop_last() =~= parts);
}

proof fn lemma_last_code(left: Seq<Left>, order: Seq<usize>, lo: int, hi: int)
    requires
        0 <= lo <= hi <= order.len(),
    ensures
        ({
            let r = last_code(left, order, lo, hi);
            &&& lo - 1 <= r < hi || (lo == hi && r == lo - 1)
            &&& r >= lo ==> holds_program_code(left[order[r] as int].1)
            &&& forall|i: int| r < i < hi ==> !holds_program_code(left[#[trigger] order[i] as int].1)
        }),
    decreases hi - lo,
{
    if lo < hi && !holds_program_code(left[order[hi - 1] as int].1) {
        lemma_last_code(left, order, lo, hi - 1);
    }
}

proof fn lemma_code_first(left: Seq<Left>, order: Seq<usize>, front: int, back: int)
    requires
        0 <= front <= back <= order.len(),
        forall|i: int| 0 <= i < front ==> holds_program_code(left[#[trigger] order[i] as int].1),
        forall|i: int| back <= i < order.len() ==> !holds_program_code(left[#[trigger] order[i] as int].1),
    ensures
        ({
            let r = code_first(left, order, front, back);
            &&& r.len() == order.len() && r.to_multiset() == order.to_multiset()
            &&& forall|i: int, j: int|
                0 <= i < j < r.len() && holds_program_code(left[#[trigger] r[j] as int].1) ==> holds_program_code(
                    left[#[trigger] r[i] as int].1,
                )
        }),
    decreases back - front,
{
    broadcast use vstd::seq_lib::group_to_multiset_ensures;

    if front < back {
        if holds_program_code(left[order[front] as int].1) {
            lemma_code_first(left, order, front + 1, back);
        } else {
            lemma_last_code(left, order, front + 1, back);
            let found = last_code(left, order, front + 1, back);
            if front < found < back {
                let swapped = order.update(front, order[found]).update(found, order[front]);
                assert forall|i: int| found <= i < swapped.len() implies !holds_program_code(left[#[trigger] swapped[i] as int].1) by {
                    if i > found {
                        assert(swapped[i] == order[i]);
                    }
                }
                assert forall|i: int| 0 <= i < front + 1 implies holds_program_code(left[#[trigger] swapped[i] as int].1) by {
                    if i < front {
                        assert(swapped[i] == order[i]);
                    }
                }
                lemma_code_first(left, swapped, front + 1, found);
                lemma_swapped(order, front, found);
            }
        }
    }
}

proof fn lemma_swapped(order: Seq<usize>, a: int, b: int)
    requires
        0 <= a < b < order.len(),
    ensures
        order.update(a, order[b]).update(b, order[a]).to_multiset() == order.to_multiset(),
{
    broadcast use vstd::seq_lib::group_to_multiset_ensures;

    let once = order.update(a, order[b]);
    assert(once.to_multiset() =~= order.to_multiset().insert(order[b]).remove(order[a]));
    assert(once.update(b, order[a]).to_multiset() =~= once.to_multiset().insert(order[a]).remove(once[b]));
    assert(order.to_multiset().contains(order[a])) by {
        assert(order.contains(order[a]));
    }
    assert(order.to_multiset().contains(order[b])) by {
        assert(order.contains(order[b]));
    }
    assert(once.update(b, order[a]).to_multiset() =~= order.to_multiset());
}

/// What a transaction left is kept with the code of programs first, each account once.
pub proof fn lemma_code_kept_first(left: Seq<Left>)
    requires
        left.len() <= usize::MAX,
    ensures
        keeping_order(left).len() == left.len(),
        keeping_order(left).to_multiset() == Seq::new(left.len(), |i: int| i as usize).to_multiset(),
        forall|i: int, j: int|
            0 <= i < j < left.len() && holds_program_code(left[#[trigger] keeping_order(left)[j] as int].1) ==> holds_program_code(
                left[#[trigger] keeping_order(left)[i] as int].1,
            ),
{
    lemma_code_first(left, Seq::new(left.len(), |i: int| i as usize), 0, left.len() as int);
}

/// Accounts are kept one after the other, and all are taken just where each is.
pub proof fn lemma_kept_in(svm: LiteSVM, left: Seq<Left>, order: Seq<usize>, at: usize)
    ensures
        kept_in(svm, left, Seq::empty()) == (svm, true),
        ({
            let before = kept_in(svm, left, order);
            let w = svm_with_account(before.0, left[at as int].0, left[at as int].1);
            kept_in(svm, left, order.push(at)) == (w.0, before.1 && w.1)
        }),
{
    assert(order.push(at).drop_last() =~= order);
}

} // verus!
