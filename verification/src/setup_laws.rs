//! What holds of who pays, of what is read, and of which machine can take a transaction.
use vstd::prelude::*;
#[allow(unused_imports)]
use litesvm::LiteSVM;
#[allow(unused_imports)]
use crate::actions::{last_text, line_text, lines_text, params_text, RecordView};
#[allow(unused_imports)]
use crate::builders::{noted_payer, paying, read_metas, token_call};
#[allow(unused_imports)]
use crate::context::{body_read, test_machine};
#[allow(unused_imports)]
use crate::coverage::analysis::{analyzed, sbpf_analysis, sbpf_text, AnalysisView};
#[allow(unused_imports)]
use crate::coverage::dwarf::{instruction_addresses, text_end};
#[allow(unused_imports)]
use crate::coverage::source_lcov::text_lines;
#[allow(unused_imports)]
use crate::errors::ContextError;
#[allow(unused_imports)]
use crate::keys::Keypair;
#[allow(unused_imports)]
use crate::ready::{loaders, machine_ready};
#[allow(unused_imports)]
use crate::replay::finding_in;
#[allow(unused_imports)]
use crate::svm::{account_at, all_keys};
#[allow(unused_imports)]
use crate::text::{joined, lemma_parts_joined, occurs_at, stands_apart};
#[allow(unused_imports)]
use crate::types::{slots_of, AccountView, InstructionView, Pubkey};

verus! {

/// The fee payer pays and is noted where one is set, and else the first signer does.
pub proof fn lemma_payer(signers: Seq<Keypair>, payer: Keypair)
    ensures
        paying(signers, Some(payer)) == payer && noted_payer(signers, Some(payer)) == payer.key,
        paying(signers, None) == signers[0] && noted_payer(signers, None) == signers[0].key,
{
}

/// A call of the token program: the two accounts can be written, the authority signs and cannot, and the data are the
/// operation and the amount, the lowest byte first.
pub proof fn lemma_token_call(first: Pubkey, second: Pubkey, authority: Pubkey, operation: u8, amount: u64)
    ensures
        ({
            let ix = token_call(first, second, authority, operation, amount);
            &&& ix.program_id == crate::types::key_of(crate::ids::token_program_address())
            &&& ix.accounts.len() == 3
            &&& ix.accounts[0].pubkey == first && ix.accounts[1].pubkey == second && ix.accounts[2].pubkey == authority
            &&& forall|i: int| 0 <= i < 3 ==> (#[trigger] ix.accounts[i]).is_writable == (i < 2)
            &&& forall|i: int| 0 <= i < 3 ==> (#[trigger] ix.accounts[i]).is_signer == (i == 2)
            &&& ix.data[0] == operation && ix.data.skip(1) == vstd::bytes::spec_u64_to_le_bytes(amount)
        }),
{
    let ix = token_call(first, second, authority, operation, amount);
    assert(ix.data.skip(1) =~= vstd::bytes::spec_u64_to_le_bytes(amount));
}

/// Accounts that are only read neither sign nor can be written.
pub proof fn lemma_read_metas(keys: Seq<Pubkey>, i: int)
    requires
        0 <= i < keys.len(),
    ensures
        read_metas(keys).len() == keys.len(),
        read_metas(keys)[i].pubkey == keys[i] && !read_metas(keys)[i].is_signer && !read_metas(keys)[i].is_writable,
{
}

/// What is read behind the tag of an account: all of its data but the tag. It fails where there is no account, or where
/// the data are shorter than the tag.
pub proof fn lemma_body_read(a: Option<AccountView>, address: Pubkey, tag: usize, r: Result<Vec<u8>, ContextError>)
    requires
        body_read(a, address, tag, r),
    ensures
        r is Ok <==> a is Some && tag <= a->0.data.len(),
        r is Ok ==> a->0.data == a->0.data.take(tag as int) + r->Ok_0@,
        a is None ==> r->Err_0 == ContextError::AccountNotFound(address),
        a is Some && a->0.data.len() < tag ==> r->Err_0 == (ContextError::NoTag { need: tag, got: a->0.data.len() as usize }),
{
    if r is Ok {
        assert(a->0.data =~= a->0.data.take(tag as int) + a->0.data.skip(tag as int));
    }
}

/// The machine of a context keeps no history of transactions, and checks neither signatures nor blockhashes.
pub proof fn lemma_test_machine(fresh: LiteSVM)
    ensures
        test_machine(fresh) == crate::context::svm_with_blockhash_check(
            crate::context::svm_with_sigverify(crate::context::svm_with_history(fresh, 0), false),
            false,
        ),
{
}

/// The lines of a text: what stands between the ends of lines, without a carriage return in front of such an end. Behind
/// the last end there is a line only where there is some text.
pub proof fn lemma_lines_of_text(parts: Seq<Seq<char>>)
    requires
        parts.len() > 0,
        forall|i: int| 0 <= i < parts.len() ==> !(#[trigger] parts[i]).contains('\n'),
    ensures
        text_lines(joined(parts, "\n"@)) == parts.drop_last().map_values(
            |p: Seq<char>| if p.len() > 0 && p.last() == '\r' { p.drop_last() } else { p },
        ) + if parts.last().len() > 0 { seq![parts.last()] } else { Seq::empty() },
{
    let end = "\n"@;
    let cut = |p: Seq<char>| if p.len() > 0 && p.last() == '\r' { p.drop_last() } else { p };
    reveal_strlit("\n");
    reveal_strlit("\r");
    assert forall|i: int| 0 <= i < parts.len() implies stands_apart(#[trigger] parts[i], end) by {
        let p = parts[i];
        assert forall|at: int| 0 <= at < p.len() implies !#[trigger] occurs_at(p + end, end, at) by {
            if occurs_at(p + end, end, at) {
                assert((p + end).subrange(at, at + end.len())[0] == end[0]);
                assert(p[at] == '\n');
                assert(p.contains('\n'));
            }
        }
    }
    lemma_parts_joined(parts, end);
    let front = parts.drop_last();
    let ended = crate::coverage::source_lcov::ended_lines(front);
    assert(ended =~= front.map_values(cut)) by {
        assert forall|i: int| 0 <= i < front.len() implies #[trigger] ended[i] == cut(front[i]) by {
            let p = front[i];
            if p.len() > 0 && p.last() == '\r' {
                assert(p.subrange(p.len() - 1, p.len() as int) =~= "\r"@);
                assert(p.take(p.len() - 1) =~= p.drop_last());
            } else if occurs_at(p, "\r"@, p.len() - 1) {
                assert(p.subrange(p.len() - 1, p.len() as int)[0] == '\r');
            }
        }
    }
    if parts.last().len() == 0 {
        assert(front.map_values(cut) + Seq::<Seq<char>>::empty() =~= front.map_values(cut));
    } else {
        assert(ended.push(parts.last()) =~= front.map_values(cut) + seq![parts.last()]);
    }
}

/// A program is analyzed where its text can be found and is made of whole instructions of eight bytes.
pub proof fn lemma_analyzed(program: Seq<u8>)
    ensures
        sbpf_text(program) is Err ==> analyzed(program) == Err::<AnalysisView, Seq<char>>(sbpf_text(program)->Err_0),
        sbpf_text(program) matches Ok(n) ==> n % 8 == 0 ==> analyzed(program) == sbpf_analysis(program),
        sbpf_text(program) matches Ok(n) ==> n % 8 != 0 ==> analyzed(program) is Err,
{
}

/// The instructions of a text stand eight bytes apart, from its start on.
pub proof fn lemma_addresses(text_address: u64, text_size: u64, i: int)
    requires
        text_size / 8 <= usize::MAX,
        0 <= i < text_size / 8,
        text_address + text_size <= u64::MAX,
    ensures
        instruction_addresses(text_address, text_size).len() == text_size / 8,
        instruction_addresses(text_address, text_size)[i] == text_address + 8 * i,
        text_end(text_address, text_size) == text_address + text_size,
{
}

/// The finding that the metadata of a crash name.
pub proof fn lemma_finding_named(bytes: Seq<u8>, id: Seq<char>)
    ensures
        finding_in(bytes) == Some(id) <==> crate::replay::json_value(bytes) is Some && crate::replay::json_member(
            crate::replay::json_value(bytes)->0,
            "mutation_finding_id"@,
        ) is Some && crate::replay::json_string(
            crate::replay::json_member(crate::replay::json_value(bytes)->0, "mutation_finding_id"@)->0,
        ) == Some(id),
{
}

/// The line of an action: its name, its parameters in brackets where it has some, and whether it succeeded. The last line
/// of a list is that of its last action.
pub proof fn lemma_line_told(r: RecordView, s: Seq<RecordView>)
    ensures
        line_text(r) == r.name + (if params_text(r.params).len() > 0 { "("@ + params_text(r.params) + ")"@ } else { Seq::empty() })
            + " -> "@ + (if r.success { "OK"@ } else { "FAIL"@ }),
        lines_text(s) == joined(s.map_values(|r: RecordView| line_text(r)), "\n"@),
        s.len() == 0 ==> last_text(s).len() == 0,
        s.len() > 0 ==> last_text(s) == line_text(s[s.len() - 1]),
{
    let p = params_text(r.params);
    reveal_strlit(") -> ");
    reveal_strlit(")");
    reveal_strlit(" -> ");
    assert(") -> "@ =~= ")"@ + " -> "@);
    let done = if r.success { "OK"@ } else { "FAIL"@ };
    assert(line_text(r) =~= r.name + (if p.len() > 0 { "("@ + p + ")"@ } else { Seq::empty() }) + " -> "@ + done);
    assert(s.map_values(|r: RecordView| line_text(r)) =~= Seq::new(s.len(), |i: int| line_text(s[i])));
}

/// A machine that is ready for a transaction: its limits are those that programs can run in, the accounts of the message
/// and the loaders are no more than can be counted in a byte, the rent of every account fits, and every program
/// that is called is there, with the program that loads it.
pub proof fn lemma_ready(svm: LiteSVM, ixs: Seq<InstructionView>, payer: Pubkey)
    requires
        machine_ready(svm, ixs, payer),
    ensures
        all_keys(ixs, slots_of(ixs), payer).len() + loaders(svm, ixs).len() <= 256,
        loaders(svm, ixs).len() > 0 ==> crate::ready::svm_frames(svm) == (64usize, 4096usize),
        loaders(svm, ixs).len() > 0 && crate::ready::svm_budget(svm) is Some ==> 32768 <= (crate::ready::svm_budget(svm)->0).0 <= 262144
            && (crate::ready::svm_budget(svm)->0).1 <= 9,
        forall|i: int|
            0 <= i < slots_of(ixs).len() && account_at(svm, (#[trigger] slots_of(ixs)[i]).meta.pubkey) is Some
                && crate::ready::svm_rent(svm) is Some ==> crate::ready::svm_rent(svm)->0 * (account_at(
                svm,
                slots_of(ixs)[i].meta.pubkey,
            )->0.data.len() + 128) <= u64::MAX,
        forall|i: int|
            0 <= i < ixs.len() && account_at(svm, (#[trigger] ixs[i]).program_id) is Some && crate::ready::has_loader(
                ixs[i].program_id,
                account_at(svm, ixs[i].program_id)->0,
            ) ==> account_at(svm, account_at(svm, ixs[i].program_id)->0.owner) is Some,
{
}

} // verus!
