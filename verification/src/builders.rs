//! Builders of calls.
use vstd::prelude::*;
use crate::context::TestContext;
#[allow(unused_imports)]
use crate::context::ContextView;
use crate::errors::ContextError;
#[allow(unused_imports)]
use crate::ids::token_program_address;
use crate::keys::Keypair;
use crate::outcome::TxOutcome;
use crate::send::{send_prepared, HarnessState};
#[allow(unused_imports)]
use crate::send::{transaction_sent, HarnessView};
use crate::svm::{copy_signers, holds_signer};
#[allow(unused_imports)]
use crate::svm::{has_signer, lemma_small_message, message_fits};
use crate::types::{AccountMeta, Instruction, Pubkey};
#[allow(unused_imports)]
use crate::types::{ix_slots, ix_views, key_of, slots_of, InstructionView};

verus! {

/// A call of a program that is given whole.
pub struct InstructionBuilder<'a> {
    pub ctx: &'a mut TestContext,
    pub instruction: Instruction,
    pub signers: Vec<Keypair>,
    pub fee_payer: Option<Keypair>,
}

/// A call of a program that is put together.
pub struct ProgramBuilder<'a> {
    pub ctx: &'a mut TestContext,
    pub instruction: Instruction,
    pub signers: Vec<Keypair>,
    pub fee_payer: Option<Keypair>,
}

/// Some instructions that make up one transaction.
pub struct TransactionBuilder<'a> {
    pub ctx: &'a mut TestContext,
    pub instructions: Vec<Instruction>,
    pub signers: Vec<Keypair>,
}

/// The signers with the payer in front, unless it is among them.
pub open spec fn with_fee_payer(signers: Seq<Keypair>, fee_payer: Option<Keypair>) -> Seq<Keypair> {
    match fee_payer {
        Some(p) => if has_signer(signers, p.key) { signers } else { seq![p] + signers },
        None => signers,
    }
}

/// The signers but those with this address.
pub open spec fn without_signer(signers: Seq<Keypair>, k: Pubkey) -> Seq<Keypair>
    decreases signers.len(),
{
    if signers.len() == 0 {
        Seq::empty()
    } else {
        let before = without_signer(signers.drop_last(), k);
        if signers.last().key == k { before } else { before.push(signers.last()) }
    }
}

/// The signers with the payer who was named in front, once.
pub open spec fn payer_first(signers: Seq<Keypair>, fee_payer: Option<Keypair>) -> Seq<Keypair> {
    match fee_payer {
        Some(p) => seq![p] + without_signer(signers, p.key),
        None => signers,
    }
}

proof fn lemma_without_signer(signers: Seq<Keypair>, k: Pubkey)
    ensures
        !has_signer(without_signer(signers, k), k),
        forall|q: Pubkey| q != k ==> (has_signer(without_signer(signers, k), q) <==> #[trigger] has_signer(signers, q)),
        !has_signer(signers, k) ==> without_signer(signers, k) == signers,
    decreases signers.len(),
{
    if signers.len() > 0 {
        let d = signers.drop_last();
        lemma_without_signer(d, k);
        let before = without_signer(d, k);
        let now = without_signer(signers, k);
        assert(d.push(signers.last()) =~= signers);
        assert forall|q: Pubkey| q != k implies (has_signer(now, q) <==> #[trigger] has_signer(signers, q)) by {
            assert(has_signer(before, q) <==> has_signer(d, q));
            if has_signer(now, q) {
                let i = choose|i: int| 0 <= i < now.len() && (#[trigger] now[i]).key == q;
                if i < before.len() {
                    assert(before[i].key == q);
                    let j = choose|j: int| 0 <= j < d.len() && (#[trigger] d[j]).key == q;
                    assert(signers[j].key == q);
                } else {
                    assert(signers[signers.len() - 1].key == q);
                }
            }
            if has_signer(signers, q) {
                let i = choose|i: int| 0 <= i < signers.len() && (#[trigger] signers[i]).key == q;
                if i < d.len() {
                    assert(d[i].key == q);
                    let j = choose|j: int| 0 <= j < before.len() && (#[trigger] before[j]).key == q;
                    assert(now[j].key == q);
                } else {
                    assert(now[now.len() - 1].key == q);
                }
            }
        }
        if has_signer(now, k) {
            let i = choose|i: int| 0 <= i < now.len() && (#[trigger] now[i]).key == k;
            assert(before[i].key == k);
        }
        if !has_signer(signers, k) {
            assert(signers[signers.len() - 1].key != k);
            assert(!has_signer(d, k)) by {
                if has_signer(d, k) {
                    let i = choose|i: int| 0 <= i < d.len() && (#[trigger] d[i]).key == k;
                    assert(signers[i].key == k);
                }
            }
        }
    }
}

/// A payer who was named stands first, and once; everyone else signs who was to sign.
pub proof fn lemma_payer_first(signers: Seq<Keypair>, payer: Keypair)
    ensures
        payer_first(signers, Some(payer))[0] == payer,
        forall|i: int| 0 < i < payer_first(signers, Some(payer)).len() ==> (#[trigger] payer_first(signers, Some(payer))[i]).key
            != payer.key,
        forall|k: Pubkey| k != payer.key ==> (has_signer(payer_first(signers, Some(payer)), k) <==> #[trigger] has_signer(
            signers,
            k,
        )),
{
    lemma_without_signer(signers, payer.key);
    let rest = without_signer(signers, payer.key);
    let all = payer_first(signers, Some(payer));
    assert forall|i: int| 0 < i < all.len() implies (#[trigger] all[i]).key != payer.key by {
        assert(rest[i - 1] == all[i]);
    }
    assert forall|k: Pubkey| k != payer.key implies (has_signer(all, k) <==> #[trigger] has_signer(signers, k)) by {
        assert(has_signer(rest, k) <==> has_signer(signers, k));
        if has_signer(all, k) {
            let i = choose|i: int| 0 <= i < all.len() && (#[trigger] all[i]).key == k;
            assert(rest[i - 1].key == k);
        }
        if has_signer(rest, k) {
            let i = choose|i: int| 0 <= i < rest.len() && (#[trigger] rest[i]).key == k;
            assert(all[i + 1].key == k);
        }
    }
}

/// Those who sign, with the payer who is named in front, once.
pub fn put_payer_first(signers: &Vec<Keypair>, fee_payer: &Option<Keypair>) -> (r: Vec<Keypair>)
    ensures
        r@ == payer_first(signers@, *fee_payer),
{
    match fee_payer {
        Some(p) => {
            let mut r: Vec<Keypair> = Vec::new();
            r.push(*p);
            let mut i: usize = 0;
            assert(r@ =~= seq![*p] + without_signer(signers@.take(0), p.key));
            while i < signers.len()
                invariant
                    i <= signers@.len(),
                    r@ == seq![*p] + without_signer(signers@.take(i as int), p.key),
                decreases signers.len() - i,
            {
                let ghost before = r@;
                assert(signers@.take(i + 1).drop_last() =~= signers@.take(i as int));
                if !(signers[i].key == p.key) {
                    r.push(signers[i]);
                    assert(r@ =~= seq![*p] + without_signer(signers@.take(i + 1), p.key));
                }
                i += 1;
            }
            assert(signers@.take(i as int) =~= signers@);
            r
        },
        None => copy_signers(signers),
    }
}

/// The address under which the payment is noted: that of the payer who was named, else that of the first
/// signer.
pub open spec fn noted_payer(signers: Seq<Keypair>, fee_payer: Option<Keypair>) -> Pubkey {
    match fee_payer {
        Some(p) => p.key,
        None => signers[0].key,
    }
}

/// A payer who was named is among those who sign.
pub proof fn lemma_fee_payer_signs(signers: Seq<Keypair>, payer: Keypair)
    ensures
        has_signer(with_fee_payer(signers, Some(payer)), payer.key),
        forall|k: Pubkey| #[trigger] has_signer(signers, k) ==> has_signer(with_fee_payer(signers, Some(payer)), k),
{
    let all = with_fee_payer(signers, Some(payer));
    if !has_signer(signers, payer.key) {
        assert(all[0] == payer);
        assert forall|k: Pubkey| #[trigger] has_signer(signers, k) implies has_signer(all, k) by {
            let i = choose|i: int| 0 <= i < signers.len() && (#[trigger] signers[i]).key == k;
            assert(all[i + 1] == signers[i]);
        }
    }
}

/// Those who sign, with the payer who is named in front unless it is among them.
pub fn add_fee_payer(signers: &Vec<Keypair>, fee_payer: &Option<Keypair>) -> (r: Vec<Keypair>)
    ensures
        r@ == with_fee_payer(signers@, *fee_payer),
{
    let mut r: Vec<Keypair> = Vec::new();
    match fee_payer {
        Some(p) => {
            if !holds_signer(signers, &p.key) {
                r.push(*p);
            }
        },
        None => {},
    }
    let mut rest = copy_signers(signers);
    r.append(&mut rest);
    assert(r@ =~= with_fee_payer(signers@, *fee_payer));
    r
}

fn one(instruction: Instruction) -> (r: Vec<Instruction>)
    ensures
        ix_views(r@) == seq![instruction@],
{
    let mut r: Vec<Instruction> = Vec::new();
    r.push(instruction);
    assert(ix_views(r@) =~= seq![instruction@]);
    r
}

fn list_signers(signers: &[&Keypair]) -> (r: Vec<Keypair>)
    ensures
        r@.len() == signers@.len(),
        forall|i: int| 0 <= i < r@.len() ==> #[trigger] r@[i] == *signers@[i],
{
    let mut r: Vec<Keypair> = Vec::new();
    let mut i: usize = 0;
    while i < signers.len()
        invariant
            i <= signers@.len(),
            r@.len() == i,
            forall|j: int| 0 <= j < i ==> #[trigger] r@[j] == *signers@[j],
        decreases signers.len() - i,
    {
        r.push(*signers[i]);
        i += 1;
    }
    r
}

/// The key pairs behind some references.
pub open spec fn pointed(signers: Seq<&Keypair>) -> Seq<Keypair> {
    Seq::new(signers.len(), |i: int| *signers[i])
}

/// The context with an instruction and its signers waiting.
pub open spec fn queued(c: ContextView, ix: InstructionView, signers: Seq<Keypair>) -> ContextView {
    ContextView { pending: c.pending.push(ix), pending_signers: c.pending_signers + signers, ..c }
}

fn queue(ctx: &mut TestContext, instruction: Instruction, signers: Vec<Keypair>)
    ensures
        final(ctx)@ == queued(old(ctx)@, instruction@, signers@),
{
    let ghost before = ctx@;
    let mut signers = signers;
    ctx.pending_instructions.push(instruction);
    ctx.pending_signers.append(&mut signers);
    assert(ctx@.pending =~= before.pending.push(instruction@));
}

impl<'a> InstructionBuilder<'a> {
    /// The call with these signers.
    pub fn signers(self, signers: &[&Keypair]) -> (r: InstructionBuilder<'a>)
        ensures
            *r.ctx == *old(self.ctx),
            *final(r.ctx) == *final(self.ctx),
            r.instruction == self.instruction,
            r.signers@ == pointed(signers@),
            r.fee_payer == self.fee_payer,
    {
        let list = list_signers(signers);
        assert(list@ =~= pointed(signers@));
        InstructionBuilder { ctx: self.ctx, instruction: self.instruction, signers: list, fee_payer: self.fee_payer }
    }

    /// The call with this payer.
    pub fn fee_payer(self, fee_payer: &Keypair) -> (r: InstructionBuilder<'a>)
        ensures
            *r.ctx == *old(self.ctx),
            *final(r.ctx) == *final(self.ctx),
            r.instruction == self.instruction,
            r.signers == self.signers,
            r.fee_payer == Some(*fee_payer),
    {
        InstructionBuilder {
            ctx: self.ctx,
            instruction: self.instruction,
            signers: self.signers,
            fee_payer: Some(*fee_payer),
        }
    }

    /// Sends the call. The payer who is named pays, and stands first among those who sign; else the first
    /// signer pays.
    pub fn send(self, state: &mut HarnessState) -> (r: Result<TxOutcome, ContextError>)
        requires
            payer_first(self.signers@, self.fee_payer).len() > 0 ==> message_fits(
                seq![self.instruction@],
                payer_first(self.signers@, self.fee_payer)[0].key,
            ),
            old(state)@.session.dispatch_count < u64::MAX,
        ensures
            ({
                let all = payer_first(self.signers@, self.fee_payer);
                if all.len() == 0 {
                    r is Err && r->Err_0 is NoSigner && final(self.ctx)@ == old(self.ctx)@ && final(state)@ == old(state)@
                } else {
                    transaction_sent(
                        old(self.ctx)@,
                        old(state)@,
                        seq![self.instruction@],
                        all,
                        all[0],
                        all[0].key,
                        r,
                        final(self.ctx)@,
                        final(state)@,
                    )
                }
            }),
    {
        let all = put_payer_first(&self.signers, &self.fee_payer);
        if all.len() == 0 {
            return Err(ContextError::NoSigner);
        }
        let payer = all[0];
        let instructions = one(self.instruction);
        send_prepared(self.ctx, state, &instructions, &all, &payer, &payer.key)
    }

    /// Leaves the call to wait for a batch.
    pub fn add_transaction(self) -> (r: Result<(), ContextError>)
        ensures
            r is Ok,
            final(self.ctx)@ == queued(old(self.ctx)@, self.instruction@, self.signers@),
    {
        queue(self.ctx, self.instruction, self.signers);
        Ok(())
    }
}

impl<'a> ProgramBuilder<'a> {
    /// The call with these data.
    pub fn call(self, data: Vec<u8>) -> (r: ProgramBuilder<'a>)
        ensures
            *r.ctx == *old(self.ctx),
            *final(r.ctx) == *final(self.ctx),
            r.instruction@ == (InstructionView { data: data@, ..self.instruction@ }),
            r.signers == self.signers,
            r.fee_payer == self.fee_payer,
    {
        ProgramBuilder {
            ctx: self.ctx,
            instruction: Instruction {
                program_id: self.instruction.program_id,
                accounts: self.instruction.accounts,
                data,
            },
            signers: self.signers,
            fee_payer: self.fee_payer,
        }
    }

    /// The call with these accounts.
    pub fn accounts(self, accounts: Vec<AccountMeta>) -> (r: ProgramBuilder<'a>)
        ensures
            *r.ctx == *old(self.ctx),
            *final(r.ctx) == *final(self.ctx),
            r.instruction@ == (InstructionView { accounts: accounts@, ..self.instruction@ }),
            r.signers == self.signers,
            r.fee_payer == self.fee_payer,
    {
        ProgramBuilder {
            ctx: self.ctx,
            instruction: Instruction {
                program_id: self.instruction.program_id,
                accounts,
                data: self.instruction.data,
            },
            signers: self.signers,
            fee_payer: self.fee_payer,
        }
    }

    /// The call with some more accounts, which are only read and do not sign.
    pub fn remaining_accounts(self, accounts: Vec<Pubkey>) -> (r: ProgramBuilder<'a>)
        ensures
            *r.ctx == *old(self.ctx),
            *final(r.ctx) == *final(self.ctx),
            r.instruction@ == (InstructionView {
                accounts: self.instruction@.accounts + read_metas(accounts@),
                ..self.instruction@
            }),
            r.signers == self.signers,
            r.fee_payer == self.fee_payer,
    {
        let mut metas: Vec<AccountMeta> = Vec::new();
        let mut i: usize = 0;
        while i < accounts.len()
            invariant
                i <= accounts@.len(),
                metas@.len() == i,
                forall|j: int| 0 <= j < i ==> #[trigger] metas@[j] == read_meta(accounts@[j]),
            decreases accounts.len() - i,
        {
            metas.push(AccountMeta { pubkey: accounts[i], is_signer: false, is_writable: false });
            i += 1;
        }
        assert(metas@ =~= read_metas(accounts@));
        self.remaining_accounts_metas(metas)
    }

    /// The call with some more accounts.
    pub fn remaining_accounts_metas(self, metas: Vec<AccountMeta>) -> (r: ProgramBuilder<'a>)
        ensures
            *r.ctx == *old(self.ctx),
            *final(r.ctx) == *final(self.ctx),
            r.instruction@ == (InstructionView { accounts: self.instruction@.accounts + metas@, ..self.instruction@ }),
            r.signers == self.signers,
            r.fee_payer == self.fee_payer,
    {
        let mut accounts = self.instruction.accounts;
        let mut metas = metas;
        accounts.append(&mut metas);
        ProgramBuilder {
            ctx: self.ctx,
            instruction: Instruction {
                program_id: self.instruction.program_id,
                accounts,
                data: self.instruction.data,
            },
            signers: self.signers,
            fee_payer: self.fee_payer,
        }
    }

    /// The call with these signers.
    pub fn signers(self, signers: &[&Keypair]) -> (r: ProgramBuilder<'a>)
        ensures
            *r.ctx == *old(self.ctx),
            *final(r.ctx) == *final(self.ctx),
            r.instruction == self.instruction,
            r.signers@ == pointed(signers@),
            r.fee_payer == self.fee_payer,
    {
        let list = list_signers(signers);
        assert(list@ =~= pointed(signers@));
        ProgramBuilder { ctx: self.ctx, instruction: self.instruction, signers: list, fee_payer: self.fee_payer }
    }

    /// The call with this payer.
    pub fn fee_payer(self, fee_payer: &Keypair) -> (r: ProgramBuilder<'a>)
        ensures
            *r.ctx == *old(self.ctx),
            *final(r.ctx) == *final(self.ctx),
            r.instruction == self.instruction,
            r.signers == self.signers,
            r.fee_payer == Some(*fee_payer),
    {
        ProgramBuilder { ctx: self.ctx, instruction: self.instruction, signers: self.signers, fee_payer: Some(*fee_payer) }
    }

    /// Sends the call. The payer who is named pays, else the first signer.
    pub fn send(self, state: &mut HarnessState) -> (r: Result<TxOutcome, ContextError>)
        requires
            with_fee_payer(self.signers@, self.fee_payer).len() > 0 ==> message_fits(
                seq![self.instruction@],
                paying(self.signers@, self.fee_payer).key,
            ),
            old(state)@.session.dispatch_count < u64::MAX,
        ensures
            ({
                let all = with_fee_payer(self.signers@, self.fee_payer);
                if all.len() == 0 {
                    r is Err && r->Err_0 is NoSigner && final(self.ctx)@ == old(self.ctx)@ && final(state)@ == old(state)@
                } else {
                    transaction_sent(
                        old(self.ctx)@,
                        old(state)@,
                        seq![self.instruction@],
                        all,
                        paying(self.signers@, self.fee_payer),
                        noted_payer(self.signers@, self.fee_payer),
                        r,
                        final(self.ctx)@,
                        final(state)@,
                    )
                }
            }),
    {
        let all = add_fee_payer(&self.signers, &self.fee_payer);
        if all.len() == 0 {
            return Err(ContextError::NoSigner);
        }
        let payer = match &self.fee_payer {
            Some(p) => *p,
            None => all[0],
        };
        let noted = payer.key;
        let instructions = one(self.instruction);
        send_prepared(self.ctx, state, &instructions, &all, &payer, &noted)
    }

    /// Leaves the call to wait for a batch.
    pub fn add_transaction(self) -> (r: Result<(), ContextError>)
        ensures
            r is Ok,
            final(self.ctx)@ == queued(old(self.ctx)@, self.instruction@, self.signers@),
    {
        queue(self.ctx, self.instruction, self.signers);
        Ok(())
    }
}

/// The payer who is named, else the first signer.
pub open spec fn paying(signers: Seq<Keypair>, fee_payer: Option<Keypair>) -> Keypair {
    match fee_payer {
        Some(p) => p,
        None => signers[0],
    }
}

/// An account that is only read.
pub open spec fn read_meta(k: Pubkey) -> AccountMeta {
    AccountMeta { pubkey: k, is_signer: false, is_writable: false }
}

/// Accounts that are only read.
pub open spec fn read_metas(keys: Seq<Pubkey>) -> Seq<AccountMeta> {
    Seq::new(keys.len(), |i: int| read_meta(keys[i]))
}

/// A call of the token program with two accounts that it writes to and one that signs, an operation
/// and an amount.
pub open spec fn token_call(first: Pubkey, second: Pubkey, authority: Pubkey, operation: u8, amount: u64) -> InstructionView {
    InstructionView {
        program_id: key_of(token_program_address()),
        accounts: seq![
            AccountMeta { pubkey: first, is_signer: false, is_writable: true },
            AccountMeta { pubkey: second, is_signer: false, is_writable: true },
            AccountMeta { pubkey: authority, is_signer: true, is_writable: false },
        ],
        data: seq![operation] + vstd::bytes::spec_u64_to_le_bytes(amount),
    }
}

/// `spl_token::instruction::transfer` for the token program, without further signers: the call that
/// moves tokens.
#[verifier::external_body]
fn token_transfer(from: &Pubkey, to: &Pubkey, owner: &Pubkey, amount: u64) -> (r: Instruction)
    ensures
        r@ == token_call(*from, *to, *owner, 3, amount),
{
    let ix = spl_token::instruction::transfer(&spl_token::id(), &from.bytes.into(), &to.bytes.into(), &owner.bytes.into(), &[], amount)
        .unwrap();
    Instruction {
        program_id: Pubkey { bytes: ix.program_id.to_bytes() },
        accounts: ix.accounts.iter().map(|m| AccountMeta {
            pubkey: Pubkey { bytes: m.pubkey.to_bytes() },
            is_signer: m.is_signer,
            is_writable: m.is_writable,
        }).collect(),
        data: ix.data,
    }
}

/// `spl_token::instruction::mint_to` for the token program, without further signers: the call that
/// makes tokens.
#[verifier::external_body]
fn token_mint_to(mint: &Pubkey, to: &Pubkey, authority: &Pubkey, amount: u64) -> (r: Instruction)
    ensures
        r@ == token_call(*mint, *to, *authority, 7, amount),
{
    let ix = spl_token::instruction::mint_to(&spl_token::id(), &mint.bytes.into(), &to.bytes.into(), &authority.bytes.into(), &[], amount)
        .unwrap();
    Instruction {
        program_id: Pubkey { bytes: ix.program_id.to_bytes() },
        accounts: ix.accounts.iter().map(|m| AccountMeta {
            pubkey: Pubkey { bytes: m.pubkey.to_bytes() },
            is_signer: m.is_signer,
            is_writable: m.is_writable,
        }).collect(),
        data: ix.data,
    }
}

/// The call that moves tokens.
pub fn transfer_call(from: &Pubkey, to: &Pubkey, owner: &Pubkey, amount: u64) -> (r: Instruction)
    ensures
        r@ == token_call(*from, *to, *owner, 3, amount),
{
    token_transfer(from, to, owner, amount)
}

/// The call that makes tokens.
pub fn mint_call(mint: &Pubkey, to: &Pubkey, authority: &Pubkey, amount: u64) -> (r: Instruction)
    ensures
        r@ == token_call(*mint, *to, *authority, 7, amount),
{
    token_mint_to(mint, to, authority, amount)
}

proof fn lemma_token_call_fits(ix: InstructionView, payer: Pubkey)
    requires
        ix.accounts.len() == 3,
        ix.data.len() == 9,
    ensures
        message_fits(seq![ix], payer),
{
    let ixs = seq![ix];
    assert(ixs.drop_last() =~= Seq::<InstructionView>::empty());
    assert(slots_of(ixs.drop_last()) =~= Seq::empty());
    assert(slots_of(ixs).len() == ix_slots(ix).len());
    lemma_small_message(ixs, payer);
}

/// A call was sent with one signer, who pays; whether it succeeded is not told.
pub open spec fn call_sent(
    c: ContextView,
    h: HarnessView,
    ix: InstructionView,
    signer: Keypair,
    r: Result<(), ContextError>,
    c2: ContextView,
    h2: HarnessView,
) -> bool {
    exists|sent: Result<TxOutcome, ContextError>|
        #![trigger transaction_sent(c, h, seq![ix], seq![signer], signer, signer.key, sent, c2, h2)]
        transaction_sent(c, h, seq![ix], seq![signer], signer, signer.key, sent, c2, h2) && match sent {
            Ok(_) => r is Ok,
            Err(e) => r == Err::<(), ContextError>(e),
        }
}

impl TestContext {
    /// A call of a program that is given whole.
    pub fn raw_call<'a>(&'a mut self, instruction: Instruction) -> (r: InstructionBuilder<'a>)
        ensures
            *r.ctx == *old(self),
            *final(r.ctx) == *final(self),
            r.instruction == instruction,
            r.signers@ == Seq::<Keypair>::empty(),
            r.fee_payer is None,
    {
        InstructionBuilder { ctx: self, instruction, signers: Vec::new(), fee_payer: None }
    }

    /// A call of a program that is to be put together.
    pub fn program<'a>(&'a mut self, program_id: Pubkey) -> (r: ProgramBuilder<'a>)
        ensures
            *r.ctx == *old(self),
            *final(r.ctx) == *final(self),
            r.instruction@ == (InstructionView { program_id, accounts: Seq::empty(), data: Seq::empty() }),
            r.signers@ == Seq::<Keypair>::empty(),
            r.fee_payer is None,
    {
        let instruction = Instruction { program_id, accounts: Vec::new(), data: Vec::new() };
        assert(instruction@.accounts =~= Seq::<AccountMeta>::empty());
        assert(instruction@.data =~= Seq::<u8>::empty());
        ProgramBuilder { ctx: self, instruction, signers: Vec::new(), fee_payer: None }
    }

    /// A transaction that is to be put together.
    pub fn transaction<'a>(&'a mut self) -> (r: TransactionBuilder<'a>)
        ensures
            *r.ctx == *old(self),
            *final(r.ctx) == *final(self),
            r.instructions@ == Seq::<Instruction>::empty(),
            r.signers@ == Seq::<Keypair>::empty(),
    {
        TransactionBuilder { ctx: self, instructions: Vec::new(), signers: Vec::new() }
    }

    /// Moves tokens. It is an error only where no transaction could be made.
    pub fn transfer_tokens(&mut self, state: &mut HarnessState, from: &Pubkey, to: &Pubkey, owner: &Keypair, amount: u64) -> (r:
        Result<(), ContextError>)
        requires
            old(state)@.session.dispatch_count < u64::MAX,
        ensures
            call_sent(
                old(self)@,
                old(state)@,
                token_call(*from, *to, owner.key, 3, amount),
                *owner,
                r,
                final(self)@,
                final(state)@,
            ),
    {
        let ix = transfer_call(from, to, &owner.key, amount);
        proof {
            vstd::bytes::lemma_auto_spec_u64_to_from_le_bytes();
        }
        send_signed(self, state, ix, owner)
    }

    /// Makes tokens. It is an error only where no transaction could be made.
    pub fn mint_to(&mut self, state: &mut HarnessState, mint: &Pubkey, destination: &Pubkey, amount: u64, authority: &Keypair) -> (r:
        Result<(), ContextError>)
        requires
            old(state)@.session.dispatch_count < u64::MAX,
        ensures
            call_sent(
                old(self)@,
                old(state)@,
                token_call(*mint, *destination, authority.key, 7, amount),
                *authority,
                r,
                final(self)@,
                final(state)@,
            ),
    {
        let ix = mint_call(mint, destination, &authority.key, amount);
        proof {
            vstd::bytes::lemma_auto_spec_u64_to_from_le_bytes();
        }
        send_signed(self, state, ix, authority)
    }
}

fn send_signed(ctx: &mut TestContext, state: &mut HarnessState, ix: Instruction, signer: &Keypair) -> (r: Result<(), ContextError>)
    requires
        ix@.accounts.len() == 3,
        ix@.data.len() == 9,
        old(state)@.session.dispatch_count < u64::MAX,
    ensures
        call_sent(old(ctx)@, old(state)@, ix@, *signer, r, final(ctx)@, final(state)@),
{
    proof {
        lemma_token_call_fits(ix@, signer.key);
    }
    let ghost c = ctx@;
    let ghost h = state@;
    let list = [signer];
    assert(pointed(list@) =~= seq![*signer]);
    let sent = ctx.raw_call(ix).signers(&list).send(state);
    assert(transaction_sent(c, h, seq![ix@], seq![*signer], *signer, signer.key, sent, ctx@, state@));
    match sent {
        Ok(_) => Ok(()),
        Err(e) => Err(e),
    }
}

} // verus!
