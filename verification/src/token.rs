//! The accounts of the token program: what they hold, and their bytes.
use vstd::prelude::*;
use spl_token::solana_program::program_option::COption;
use spl_token::solana_program::program_pack::Pack;
use crate::ids::is_token_program_owner;
use crate::types::{zero_bytes, Account, Pubkey};
#[allow(unused_imports)]
use crate::types::{zeros, AccountView};

verus! {

/// The state of a token account.
#[derive(Clone, Copy, PartialEq, Eq, Structural, Debug)]
pub enum TokenState {
    Uninitialized,
    Initialized,
    Frozen,
}

/// What a token account holds.
#[derive(Clone, Copy, Debug)]
pub struct TokenAccount {
    pub mint: Pubkey,
    pub owner: Pubkey,
    pub amount: u64,
    pub delegate: Option<Pubkey>,
    pub state: TokenState,
    pub is_native: Option<u64>,
    pub delegated_amount: u64,
    pub close_authority: Option<Pubkey>,
}

/// What a mint holds.
#[derive(Clone, Copy, Debug)]
pub struct Mint {
    pub mint_authority: Option<Pubkey>,
    pub supply: u64,
    pub decimals: u8,
    pub is_initialized: bool,
    pub freeze_authority: Option<Pubkey>,
}

/// The size of a mint in bytes.
pub const MINT_LEN: usize = 82;

/// The size of a token account in bytes.
pub const TOKEN_ACCOUNT_LEN: usize = 165;

/// The token account that these bytes hold, where they hold an initialized one.
pub uninterp spec fn spl_token_account(data: Seq<u8>) -> Option<TokenAccount>;

/// `spl_token::state::Account::unpack`: reads an initialized token account. It takes bytes of the
/// right length only; the mint stands first, the owner behind it. What makes the rest valid is left
/// unsaid.
#[verifier::external_body]
fn spl_unpack_account(data: &[u8]) -> (r: Option<TokenAccount>)
    ensures
        r == spl_token_account(data@),
        r is Some ==> data@.len() == TOKEN_ACCOUNT_LEN && r->0.mint@ == data@.subrange(0, 32) && r->0.owner@
            == data@.subrange(32, 64) && r->0.state != TokenState::Uninitialized,
{
    let t = spl_token::state::Account::unpack(data).ok()?;
    Some(TokenAccount {
        mint: Pubkey { bytes: t.mint.to_bytes() },
        owner: Pubkey { bytes: t.owner.to_bytes() },
        amount: t.amount,
        delegate: Option::from(t.delegate.map(|k| Pubkey { bytes: k.to_bytes() })),
        state: match t.state {
            spl_token::state::AccountState::Uninitialized => TokenState::Uninitialized,
            spl_token::state::AccountState::Initialized => TokenState::Initialized,
            spl_token::state::AccountState::Frozen => TokenState::Frozen,
        },
        is_native: t.is_native.into(),
        delegated_amount: t.delegated_amount,
        close_authority: Option::from(t.close_authority.map(|k| Pubkey { bytes: k.to_bytes() })),
    })
}

/// What packing a token account makes of some bytes.
pub uninterp spec fn spl_account_bytes(t: TokenAccount, dst: Seq<u8>) -> Seq<u8>;

/// `spl_token::state::Account::pack`: writes a token account over bytes of the right length; bytes of
/// another length are refused and stay. Reading the bytes back gives the account, where it is
/// initialized.
#[verifier::external_body]
pub(crate) fn spl_pack_account(t: &TokenAccount, dst: &mut Vec<u8>) -> (ok: bool)
    ensures
        ok == (old(dst)@.len() == TOKEN_ACCOUNT_LEN),
        !ok ==> final(dst)@ == old(dst)@,
        ok ==> final(dst)@ == spl_account_bytes(*t, old(dst)@) && final(dst)@.len() == TOKEN_ACCOUNT_LEN,
        ok && t.state != TokenState::Uninitialized ==> spl_token_account(final(dst)@) == Some(*t),
{
    spl_token::state::Account::pack(spl_token::state::Account {
        mint: t.mint.bytes.into(),
        owner: t.owner.bytes.into(),
        amount: t.amount,
        delegate: COption::from(t.delegate.map(|k| k.bytes.into())),
        state: match t.state {
            TokenState::Uninitialized => spl_token::state::AccountState::Uninitialized,
            TokenState::Initialized => spl_token::state::AccountState::Initialized,
            TokenState::Frozen => spl_token::state::AccountState::Frozen,
        },
        is_native: t.is_native.into(),
        delegated_amount: t.delegated_amount,
        close_authority: COption::from(t.close_authority.map(|k| k.bytes.into())),
    }, dst).is_ok()
}

/// The mint that these bytes hold, where they hold an initialized one.
pub uninterp spec fn spl_mint(data: Seq<u8>) -> Option<Mint>;

/// `spl_token::state::Mint::unpack`: reads an initialized mint. It takes bytes of the right length
/// only. What makes them valid is left unsaid.
#[verifier::external_body]
fn spl_unpack_mint(data: &[u8]) -> (r: Option<Mint>)
    ensures
        r == spl_mint(data@),
        r is Some ==> data@.len() == MINT_LEN && r->0.is_initialized,
{
    let m = spl_token::state::Mint::unpack(data).ok()?;
    Some(Mint {
        mint_authority: Option::from(m.mint_authority.map(|k| Pubkey { bytes: k.to_bytes() })),
        supply: m.supply,
        decimals: m.decimals,
        is_initialized: m.is_initialized,
        freeze_authority: Option::from(m.freeze_authority.map(|k| Pubkey { bytes: k.to_bytes() })),
    })
}

/// What packing a mint makes of some bytes.
pub uninterp spec fn spl_mint_bytes(m: Mint, dst: Seq<u8>) -> Seq<u8>;

/// `spl_token::state::Mint::pack`: writes a mint over bytes of the right length; bytes of another
/// length are refused and stay. Reading the bytes back gives the mint, where it is initialized.
#[verifier::external_body]
pub(crate) fn spl_pack_mint(m: &Mint, dst: &mut Vec<u8>) -> (ok: bool)
    ensures
        ok == (old(dst)@.len() == MINT_LEN),
        !ok ==> final(dst)@ == old(dst)@,
        ok ==> final(dst)@ == spl_mint_bytes(*m, old(dst)@) && final(dst)@.len() == MINT_LEN,
        ok && m.is_initialized ==> spl_mint(final(dst)@) == Some(*m),
{
    spl_token::state::Mint::pack(spl_token::state::Mint {
        mint_authority: COption::from(m.mint_authority.map(|k| k.bytes.into())),
        supply: m.supply,
        decimals: m.decimals,
        is_initialized: m.is_initialized,
        freeze_authority: COption::from(m.freeze_authority.map(|k| k.bytes.into())),
    }, dst).is_ok()
}

/// The bytes are a mint.
pub open spec fn mint_shape(data: Seq<u8>) -> bool {
    spl_mint(data) is Some
}

/// The bytes are a token account.
pub open spec fn token_shape(data: Seq<u8>) -> bool {
    spl_token_account(data) is Some
}

/// The mint that the bytes hold.
pub fn unpack_mint(data: &[u8]) -> (r: Option<Mint>)
    ensures
        r == spl_mint(data@),
{
    spl_unpack_mint(data)
}

/// The token account that the bytes hold.
pub fn unpack_token_account(data: &[u8]) -> (r: Option<TokenAccount>)
    ensures
        r == spl_token_account(data@),
{
    spl_unpack_account(data)
}

/// The bytes of a token account.
pub open spec fn token_bytes(t: TokenAccount) -> Seq<u8> {
    spl_account_bytes(t, zeros(TOKEN_ACCOUNT_LEN as nat))
}

/// The bytes of a token account.
pub fn pack_token_account(token: &TokenAccount) -> (r: Vec<u8>)
    ensures
        r@ == token_bytes(*token),
        r@.len() == TOKEN_ACCOUNT_LEN,
        token.state != TokenState::Uninitialized ==> spl_token_account(r@) == Some(*token),
{
    let mut r = zero_bytes(TOKEN_ACCOUNT_LEN);
    spl_pack_account(token, &mut r);
    r
}

/// The account is a mint or a token account of a token program.
pub open spec fn spl_shape(a: AccountView) -> bool {
    crate::ids::token_owned(a.owner) && (mint_shape(a.data) || token_shape(a.data))
}

/// Whether an account is a mint or a token account of a token program.
pub fn is_spl_token_shape(account: &Account) -> (r: bool)
    ensures
        r == spl_shape(account@),
{
    is_token_program_owner(&account.owner) && (unpack_mint(account.data.as_slice()).is_some() || unpack_token_account(
        account.data.as_slice(),
    ).is_some())
}

/// The little-endian tag of an optional field, where the bytes reach that far.
pub open spec fn option_tag(data: Seq<u8>, offset: int) -> Option<u32> {
    if offset + 4 <= data.len() {
        Some(
            (data[offset] + 256 * data[offset + 1] + 65536 * data[offset + 2] + 16777216 * data[offset + 3]) as u32,
        )
    } else {
        None
    }
}

/// Reads the four bytes at `offset` as the tag of an optional field: 0 for none, 1 for some.
pub fn read_coption_tag(data: &[u8], offset: usize) -> (r: Option<u32>)
    ensures
        r == option_tag(data@, offset as int),
{
    if offset > data.len() || data.len() - offset < 4 {
        return None;
    }
    Some(
        data[offset] as u32 + 256 * data[offset + 1] as u32 + 65536 * data[offset + 2] as u32 + 16777216 * data[offset
            + 3] as u32,
    )
}

/// Where the authorities of a token account or a mint stand in its bytes; nothing for another account.
/// A token account always has an owner; a delegate, an authority to close, and the two authorities of
/// a mint only count where they are set.
pub open spec fn authority_offsets(a: AccountView) -> Option<Seq<usize>> {
    let d = a.data;
    if !crate::ids::token_owned(a.owner) {
        None
    } else if token_shape(d) {
        let owner = seq![32usize];
        let delegate = if option_tag(d, 72) == Some(1u32) { owner.push(76) } else { owner };
        Some(if option_tag(d, 129) == Some(1u32) { delegate.push(133) } else { delegate })
    } else if mint_shape(d) {
        let mint = if option_tag(d, 0) == Some(1u32) { seq![4usize] } else { Seq::empty() };
        Some(if option_tag(d, 46) == Some(1u32) { mint.push(50) } else { mint })
    } else {
        None
    }
}

/// The places of the authorities, as a value.
pub open spec fn opt_offsets(o: Option<Vec<usize>>) -> Option<Seq<usize>> {
    match o {
        Some(v) => Some(v@),
        None => None,
    }
}

fn has_tag_one(data: &[u8], offset: usize) -> (r: bool)
    ensures
        r == (option_tag(data@, offset as int) == Some(1u32)),
{
    match read_coption_tag(data, offset) {
        Some(t) => t == 1,
        None => false,
    }
}

/// Where the authorities of a token account or a mint stand in its bytes; nothing for another account.
pub fn spl_authority_offsets(account: &Account) -> (r: Option<Vec<usize>>)
    ensures
        opt_offsets(r) == authority_offsets(account@),
{
    if !is_token_program_owner(&account.owner) {
        return None;
    }
    let data = account.data.as_slice();
    if unpack_token_account(data).is_some() {
        let mut offsets: Vec<usize> = Vec::new();
        offsets.push(32);
        assert(offsets@ =~= seq![32usize]);
        if has_tag_one(data, 72) {
            offsets.push(76);
        }
        if has_tag_one(data, 129) {
            offsets.push(133);
        }
        return Some(offsets);
    }
    if unpack_mint(data).is_some() {
        let mut offsets: Vec<usize> = Vec::new();
        assert(offsets@ =~= Seq::<usize>::empty());
        if has_tag_one(data, 0) {
            offsets.push(4);
            assert(offsets@ =~= seq![4usize]);
        }
        if has_tag_one(data, 46) {
            offsets.push(50);
        }
        return Some(offsets);
    }
    None
}

} // verus!
