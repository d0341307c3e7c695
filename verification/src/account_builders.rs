//! Builders of accounts.
use vstd::prelude::*;
use crate::context::TestContext;
#[allow(unused_imports)]
use crate::context::ContextView;
use crate::errors::ContextError;
use crate::ids::token_program_id;
#[allow(unused_imports)]
use crate::ids::{known_sysvar, token_program_address};
#[allow(unused_imports)]
use crate::snapshot::held;
use crate::svm::svm_set_account;
#[allow(unused_imports)]
use crate::svm::{account_at, svm_with_account};
use crate::token::{spl_pack_account, spl_pack_mint, Mint, TokenAccount, TokenState, MINT_LEN, TOKEN_ACCOUNT_LEN};
#[allow(unused_imports)]
use crate::token::{spl_account_bytes, spl_mint, spl_mint_bytes, spl_token_account};
use crate::types::{copy_bytes, zero_bytes, Account, Pubkey};
#[allow(unused_imports)]
use crate::types::{with_key, zero_key, zeros, AccountView};

verus! {

/// The lamports that exempt an account of some bytes from rent.
pub open spec fn rent_minimum(len: nat) -> nat {
    (128 + len) * 6960
}

/// `Rent::default` and `minimum_balance`: the lamports that exempt an account of a mint's or a token
/// account's size from rent.
#[verifier::external_body]
fn default_rent(len: usize) -> (r: u64)
    requires
        len <= 1000,
    ensures
        r == rent_minimum(len as nat),
{
    anchor_lang::prelude::Rent::default().minimum_balance(len)
}

/// The account with other data.
pub open spec fn with_data(a: Account, data: Vec<u8>) -> Account {
    Account { lamports: a.lamports, data, owner: a.owner, executable: a.executable, rent_epoch: a.rent_epoch }
}

/// What the builders of accounts have in common: an address and an account.
pub trait AccountBuilderBase: Sized {
    /// The account.
    spec fn state(&self) -> Account;

    /// The builder with another account.
    spec fn with_state(self, account: Account) -> Self;

    /// The address.
    spec fn place(&self) -> Pubkey;

    /// The builder with another address.
    spec fn with_address(self, address: Pubkey) -> Self;

    /// The account, to be changed.
    fn account_state_mut(&mut self) -> (r: &mut Account)
        ensures
            *r == old(self).state(),
            *final(self) == old(self).with_state(*final(r)),
    ;

    /// The address, to be changed.
    fn address_mut(&mut self) -> (r: &mut Pubkey)
        ensures
            *r == old(self).place(),
            *final(self) == old(self).with_address(*final(r)),
    ;

    /// The builder with this address.
    fn pubkey(self, pk: Pubkey) -> (r: Self)
        ensures
            r == self.with_address(pk),
    {
        let mut b = self;
        *b.address_mut() = pk;
        b
    }

    /// The builder with this owner.
    fn owner(self, pk: Pubkey) -> (r: Self)
        ensures
            r == self.with_state(Account { owner: pk, ..self.state() }),
    {
        let mut b = self;
        b.account_state_mut().owner = pk;
        b
    }

    /// The builder with an account that is executable or not.
    fn executable(self, val: bool) -> (r: Self)
        ensures
            r == self.with_state(Account { executable: val, ..self.state() }),
    {
        let mut b = self;
        b.account_state_mut().executable = val;
        b
    }

    /// The builder with this rent epoch.
    fn rent_epoch(self, val: u64) -> (r: Self)
        ensures
            r == self.with_state(Account { rent_epoch: val, ..self.state() }),
    {
        let mut b = self;
        b.account_state_mut().rent_epoch = val;
        b
    }

    /// The builder with these lamports.
    fn lamports(self, amount: u64) -> (r: Self)
        ensures
            r == self.with_state(Account { lamports: amount, ..self.state() }),
    {
        let mut b = self;
        b.account_state_mut().lamports = amount;
        b
    }

    /// The builder with so many zeros as data.
    fn size(self, length: usize) -> (r: Self)
        ensures
            exists|data: Vec<u8>|
                data@ == zeros(length as nat) && r == self.with_state(#[trigger] with_data(self.state(), data)),
    {
        let mut b = self;
        let data = zero_bytes(length);
        let ghost d = data;
        b.account_state_mut().data = data;
        assert(b == self.with_state(with_data(self.state(), d)));
        b
    }

    /// The builder with these data.
    fn data(self, bytes: &[u8]) -> (r: Self)
        ensures
            exists|data: Vec<u8>|
                data@ == bytes@ && r == self.with_state(#[trigger] with_data(self.state(), data)),
    {
        let mut b = self;
        let data = copy_bytes(bytes);
        let ghost d = data;
        b.account_state_mut().data = data;
        assert(b == self.with_state(with_data(self.state(), d)));
        b
    }
}

/// An account of any kind.
pub struct GenericAccountBuilder<'a> {
    pub ctx: &'a mut TestContext,
    pub address: Pubkey,
    pub account_state: Account,
}

impl<'a> AccountBuilderBase for GenericAccountBuilder<'a> {
    open spec fn state(&self) -> Account {
        self.account_state
    }

    open spec fn with_state(self, account: Account) -> Self {
        GenericAccountBuilder { account_state: account, ..self }
    }

    open spec fn place(&self) -> Pubkey {
        self.address
    }

    open spec fn with_address(self, address: Pubkey) -> Self {
        GenericAccountBuilder { address, ..self }
    }

    fn account_state_mut(&mut self) -> (r: &mut Account) {
        &mut self.account_state
    }

    fn address_mut(&mut self) -> (r: &mut Pubkey) {
        assert(self.place() == self.address);
        &mut self.address
    }
}

/// The context after an account was created: it counts as written, not as changed.
pub open spec fn created(c: ContextView, address: Pubkey, account: AccountView) -> ContextView {
    ContextView { svm: svm_with_account(c.svm, address, account).0, seen: with_key(c.seen, address), ..c }
}

fn put(ctx: &mut TestContext, address: Pubkey, account: Account)
    ensures
        final(ctx)@ == created(old(ctx)@, address, account@),
        !account.executable && !known_sysvar(address) ==> account_at(final(ctx).svm, address)
            == held(Some(account@)),
        forall|k: Pubkey| k != address ==> #[trigger] account_at(final(ctx).svm, k) == account_at(old(ctx).svm, k),
{
    ctx.track_account(address);
    svm_set_account(&mut ctx.svm, &address, account);
}

impl<'a> GenericAccountBuilder<'a> {
    /// Creates the account.
    pub fn create(self) -> (r: Result<Pubkey, ContextError>)
        ensures
            if self.address@ == zero_key() {
                r is Err && r->Err_0 is AddressNotSet && final(self.ctx)@ == old(self.ctx)@
            } else {
                r == Ok::<Pubkey, ContextError>(self.address) && final(self.ctx)@ == created(
                    old(self.ctx)@,
                    self.address,
                    self.account_state@,
                )
            },
            r is Ok && !self.account_state.executable && !known_sysvar(self.address) ==> account_at(
                final(self.ctx).svm,
                self.address,
            ) == held(Some(self.account_state@)),
    {
        if self.address.same_as(&Pubkey::default()) {
            return Err(ContextError::AddressNotSet);
        }
        put(self.ctx, self.address, self.account_state);
        Ok(self.address)
    }
}

/// A mint.
pub struct MintAccountBuilder<'a> {
    pub ctx: &'a mut TestContext,
    pub address: Pubkey,
    pub account_state: Account,
    pub mint: Mint,
}

impl<'a> AccountBuilderBase for MintAccountBuilder<'a> {
    open spec fn state(&self) -> Account {
        self.account_state
    }

    open spec fn with_state(self, account: Account) -> Self {
        MintAccountBuilder { account_state: account, ..self }
    }

    open spec fn place(&self) -> Pubkey {
        self.address
    }

    open spec fn with_address(self, address: Pubkey) -> Self {
        MintAccountBuilder { address, ..self }
    }

    fn account_state_mut(&mut self) -> (r: &mut Account) {
        &mut self.account_state
    }

    fn address_mut(&mut self) -> (r: &mut Pubkey) {
        assert(self.place() == self.address);
        &mut self.address
    }
}

impl<'a> MintAccountBuilder<'a> {
    /// Creates the mint. The account holds it, and reading it back gives it where it is initialized.
    pub fn create(self) -> (r: Result<Pubkey, ContextError>)
        ensures
            if self.address@ == zero_key() {
                r is Err && r->Err_0 is AddressNotSet && final(self.ctx)@ == old(self.ctx)@
            } else if self.account_state@.data.len() != MINT_LEN {
                r is Err && r->Err_0 is WrongLength && final(self.ctx)@ == old(self.ctx)@
            } else {
                r == Ok::<Pubkey, ContextError>(self.address) && final(self.ctx)@ == created(
                    old(self.ctx)@,
                    self.address,
                    AccountView { data: spl_mint_bytes(self.mint, self.account_state@.data), ..self.account_state@ },
                )
            },
            r is Ok && !self.account_state.executable && !known_sysvar(self.address) ==> account_at(
                final(self.ctx).svm,
                self.address,
            ) == held(
                Some(
                    (AccountView { data: spl_mint_bytes(self.mint, self.account_state@.data), ..self.account_state@ }),
                ),
            ),
            r is Ok && self.mint.is_initialized ==> spl_mint(spl_mint_bytes(self.mint, self.account_state@.data)) == Some(
                self.mint,
            ),
    {
        if self.address.same_as(&Pubkey::default()) {
            return Err(ContextError::AddressNotSet);
        }
        let mut account = self.account_state;
        if !spl_pack_mint(&self.mint, &mut account.data) {
            return Err(ContextError::WrongLength);
        }
        put(self.ctx, self.address, account);
        Ok(self.address)
    }

    /// The mint with this authority.
    pub fn mint_authority(self, authority: Pubkey) -> (r: MintAccountBuilder<'a>)
        ensures
            r == (MintAccountBuilder { mint: Mint { mint_authority: Some(authority), ..self.mint }, ..self }),
    {
        let mut b = self;
        b.mint = Mint { mint_authority: Some(authority), ..b.mint };
        b
    }

    /// The mint with this supply.
    pub fn supply(self, supply: u64) -> (r: MintAccountBuilder<'a>)
        ensures
            r == (MintAccountBuilder { mint: Mint { supply, ..self.mint }, ..self }),
    {
        let mut b = self;
        b.mint = Mint { supply, ..b.mint };
        b
    }

    /// The mint with so many decimals.
    pub fn decimals(self, decimals: u8) -> (r: MintAccountBuilder<'a>)
        ensures
            r == (MintAccountBuilder { mint: Mint { decimals, ..self.mint }, ..self }),
    {
        let mut b = self;
        b.mint = Mint { decimals, ..b.mint };
        b
    }

    /// The mint, initialized or not.
    pub fn is_initialized(self, initialized: bool) -> (r: MintAccountBuilder<'a>)
        ensures
            r == (MintAccountBuilder { mint: Mint { is_initialized: initialized, ..self.mint }, ..self }),
    {
        let mut b = self;
        b.mint = Mint { is_initialized: initialized, ..b.mint };
        b
    }

    /// The mint with this authority to freeze, or none.
    pub fn freeze_authority(self, authority: Option<Pubkey>) -> (r: MintAccountBuilder<'a>)
        ensures
            r == (MintAccountBuilder { mint: Mint { freeze_authority: authority, ..self.mint }, ..self }),
    {
        let mut b = self;
        b.mint = Mint { freeze_authority: authority, ..b.mint };
        b
    }
}

/// A token account.
pub struct TokenAccountBuilder<'a> {
    pub ctx: &'a mut TestContext,
    pub address: Pubkey,
    pub account_state: Account,
    pub token_state: TokenAccount,
}

impl<'a> AccountBuilderBase for TokenAccountBuilder<'a> {
    open spec fn state(&self) -> Account {
        self.account_state
    }

    open spec fn with_state(self, account: Account) -> Self {
        TokenAccountBuilder { account_state: account, ..self }
    }

    open spec fn place(&self) -> Pubkey {
        self.address
    }

    open spec fn with_address(self, address: Pubkey) -> Self {
        TokenAccountBuilder { address, ..self }
    }

    fn account_state_mut(&mut self) -> (r: &mut Account) {
        &mut self.account_state
    }

    fn address_mut(&mut self) -> (r: &mut Pubkey) {
        assert(self.place() == self.address);
        &mut self.address
    }
}

impl<'a> TokenAccountBuilder<'a> {
    /// Creates the token account. The account holds it, and reading it back gives it where it is
    /// initialized.
    pub fn create(self) -> (r: Result<Pubkey, ContextError>)
        ensures
            if self.address@ == zero_key() {
                r is Err && r->Err_0 is AddressNotSet && final(self.ctx)@ == old(self.ctx)@
            } else if self.token_state.mint@ == zero_key() {
                r is Err && r->Err_0 is MintNotSet && final(self.ctx)@ == old(self.ctx)@
            } else if self.token_state.owner@ == zero_key() {
                r is Err && r->Err_0 is OwnerNotSet && final(self.ctx)@ == old(self.ctx)@
            } else if self.account_state@.data.len() != TOKEN_ACCOUNT_LEN {
                r is Err && r->Err_0 is WrongLength && final(self.ctx)@ == old(self.ctx)@
            } else {
                r == Ok::<Pubkey, ContextError>(self.address) && final(self.ctx)@ == created(
                    old(self.ctx)@,
                    self.address,
                    AccountView { data: spl_account_bytes(self.token_state, self.account_state@.data), ..self.account_state@ },
                )
            },
            r is Ok && !self.account_state.executable && !known_sysvar(self.address) ==> account_at(
                final(self.ctx).svm,
                self.address,
            ) == held(
                Some(
                    (AccountView {
                        data: spl_account_bytes(self.token_state, self.account_state@.data),
                        ..self.account_state@
                    }),
                ),
            ),
            r is Ok && self.token_state.state != TokenState::Uninitialized ==> spl_token_account(
                spl_account_bytes(self.token_state, self.account_state@.data),
            ) == Some(self.token_state),
    {
        if self.address.same_as(&Pubkey::default()) {
            return Err(ContextError::AddressNotSet);
        }
        if self.token_state.mint.same_as(&Pubkey::default()) {
            return Err(ContextError::MintNotSet);
        }
        if self.token_state.owner.same_as(&Pubkey::default()) {
            return Err(ContextError::OwnerNotSet);
        }
        let mut account = self.account_state;
        if !spl_pack_account(&self.token_state, &mut account.data) {
            return Err(ContextError::WrongLength);
        }
        put(self.ctx, self.address, account);
        Ok(self.address)
    }

    /// The token account of this mint.
    pub fn mint(self, mint: Pubkey) -> (r: TokenAccountBuilder<'a>)
        ensures
            r == (TokenAccountBuilder { token_state: TokenAccount { mint, ..self.token_state }, ..self }),
    {
        let mut b = self;
        b.token_state = TokenAccount { mint, ..b.token_state };
        b
    }

    /// The token account of this owner.
    pub fn token_owner(self, owner: Pubkey) -> (r: TokenAccountBuilder<'a>)
        ensures
            r == (TokenAccountBuilder { token_state: TokenAccount { owner, ..self.token_state }, ..self }),
    {
        let mut b = self;
        b.token_state = TokenAccount { owner, ..b.token_state };
        b
    }

    /// The token account with this amount.
    pub fn amount(self, amount: u64) -> (r: TokenAccountBuilder<'a>)
        ensures
            r == (TokenAccountBuilder { token_state: TokenAccount { amount, ..self.token_state }, ..self }),
    {
        let mut b = self;
        b.token_state = TokenAccount { amount, ..b.token_state };
        b
    }

    /// The token account with this delegate, or none.
    pub fn delegate(self, delegate: Option<Pubkey>) -> (r: TokenAccountBuilder<'a>)
        ensures
            r == (TokenAccountBuilder { token_state: TokenAccount { delegate, ..self.token_state }, ..self }),
    {
        let mut b = self;
        b.token_state = TokenAccount { delegate, ..b.token_state };
        b
    }

    /// The token account in this state.
    pub fn state(self, state: TokenState) -> (r: TokenAccountBuilder<'a>)
        ensures
            r == (TokenAccountBuilder { token_state: TokenAccount { state, ..self.token_state }, ..self }),
    {
        let mut b = self;
        b.token_state = TokenAccount { state, ..b.token_state };
        b
    }

    /// The token account with this native amount, or none.
    pub fn is_native(self, native_amount: Option<u64>) -> (r: TokenAccountBuilder<'a>)
        ensures
            r == (TokenAccountBuilder { token_state: TokenAccount { is_native: native_amount, ..self.token_state }, ..self }),
    {
        let mut b = self;
        b.token_state = TokenAccount { is_native: native_amount, ..b.token_state };
        b
    }

    /// The token account with this delegated amount.
    pub fn delegated_amount(self, amount: u64) -> (r: TokenAccountBuilder<'a>)
        ensures
            r == (TokenAccountBuilder { token_state: TokenAccount { delegated_amount: amount, ..self.token_state }, ..self }),
    {
        let mut b = self;
        b.token_state = TokenAccount { delegated_amount: amount, ..b.token_state };
        b
    }

    /// The token account with this authority to close it, or none.
    pub fn close_authority(self, authority: Option<Pubkey>) -> (r: TokenAccountBuilder<'a>)
        ensures
            r == (TokenAccountBuilder { token_state: TokenAccount { close_authority: authority, ..self.token_state }, ..self }),
    {
        let mut b = self;
        b.token_state = TokenAccount { close_authority: authority, ..b.token_state };
        b
    }
}

impl TestContext {
    /// An account of any kind that is to be created, empty and owned by the system program.
    pub fn create_account<'a>(&'a mut self) -> (r: GenericAccountBuilder<'a>)
        ensures
            *r.ctx == *old(self),
            *final(r.ctx) == *final(self),
            r.address@ == zero_key(),
            r.account_state.lamports == 0,
            r.account_state@.data == Seq::<u8>::empty(),
            r.account_state.owner@ == zero_key(),
            !r.account_state.executable,
            r.account_state.rent_epoch == 0,
    {
        GenericAccountBuilder {
            ctx: self,
            address: Pubkey::default(),
            account_state: Account {
                lamports: 0,
                data: Vec::new(),
                owner: Pubkey::default(),
                executable: false,
                rent_epoch: 0,
            },
        }
    }

    /// A mint that is to be created: initialized, without authorities, supply and decimals, and exempt from
    /// rent.
    pub fn create_mint<'a>(&'a mut self) -> (r: MintAccountBuilder<'a>)
        ensures
            *r.ctx == *old(self),
            *final(r.ctx) == *final(self),
            r.address@ == zero_key(),
            r.account_state.lamports == rent_minimum(MINT_LEN as nat),
            r.account_state@.data == zeros(MINT_LEN as nat),
            r.account_state.owner@ == token_program_address(),
            !r.account_state.executable,
            r.account_state.rent_epoch == 0,
            r.mint == (Mint {
                mint_authority: None,
                supply: 0,
                decimals: 0,
                is_initialized: true,
                freeze_authority: None,
            }),
    {
        MintAccountBuilder {
            ctx: self,
            address: Pubkey::default(),
            account_state: Account {
                lamports: default_rent(MINT_LEN),
                data: zero_bytes(MINT_LEN),
                owner: token_program_id(),
                executable: false,
                rent_epoch: 0,
            },
            mint: Mint { mint_authority: None, supply: 0, decimals: 0, is_initialized: true, freeze_authority: None },
        }
    }

    /// A token account that is to be created: initialized, without mint and owner, empty, and exempt from
    /// rent.
    pub fn create_token_account<'a>(&'a mut self) -> (r: TokenAccountBuilder<'a>)
        ensures
            *r.ctx == *old(self),
            *final(r.ctx) == *final(self),
            r.address@ == zero_key(),
            r.account_state.lamports == rent_minimum(TOKEN_ACCOUNT_LEN as nat),
            r.account_state@.data == zeros(TOKEN_ACCOUNT_LEN as nat),
            r.account_state.owner@ == token_program_address(),
            !r.account_state.executable,
            r.account_state.rent_epoch == 0,
            r.token_state.mint@ == zero_key(),
            r.token_state.owner@ == zero_key(),
            r.token_state == (TokenAccount {
                mint: r.token_state.mint,
                owner: r.token_state.owner,
                amount: 0,
                delegate: None,
                state: TokenState::Initialized,
                is_native: None,
                delegated_amount: 0,
                close_authority: None,
            }),
    {
        TokenAccountBuilder {
            ctx: self,
            address: Pubkey::default(),
            account_state: Account {
                lamports: default_rent(TOKEN_ACCOUNT_LEN),
                data: zero_bytes(TOKEN_ACCOUNT_LEN),
                owner: token_program_id(),
                executable: false,
                rent_epoch: 0,
            },
            token_state: TokenAccount {
                mint: Pubkey::default(),
                owner: Pubkey::default(),
                amount: 0,
                delegate: None,
                state: TokenState::Initialized,
                is_native: None,
                delegated_amount: 0,
                close_authority: None,
            },
        }
    }
}

} // verus!
