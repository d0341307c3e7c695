//! What the operations of a context are refused for.
use vstd::prelude::*;
use crate::keys::key_text;
#[allow(unused_imports)]
use crate::keys::base58;
use crate::text::{copy_str, push_dec_usize};
#[allow(unused_imports)]
use crate::text::dec;
use crate::types::Pubkey;

verus! {

/// Why an operation of a context was refused.
#[derive(Debug)]
pub enum ContextError {
    /// No account stands at the address.
    AccountNotFound(Pubkey),
    /// The data are shorter than the tag.
    NoTag { need: usize, got: usize },
    /// The data are too short to be read as a value behind a tag.
    TooShortToRead { got: usize, need: usize, tag: usize },
    /// The data are too short for the value to be written behind the tag.
    TooShortToWrite { got: usize, need: usize },
    /// A batch has no signer.
    NoBatchSigner,
    /// An instruction has no signer.
    NoSigner,
    /// The transaction could not be signed.
    Signing(String),
    /// The account has no address.
    AddressNotSet,
    /// The token account has no mint.
    MintNotSet,
    /// The token account has no owner.
    OwnerNotSet,
    /// The data are not as long as the state that is to be written.
    WrongLength,
    /// The program could not be loaded.
    ProgramNotLoaded(Pubkey, String),
    /// The data hold no price update.
    NoPriceUpdate,
    /// The address of the program data does not fit.
    ProgramAccountTooShort(usize),
    /// The header of the program data does not fit.
    ProgramDataTooShort(usize),
    /// The text is not an address.
    InvalidOwner,
    /// An account is missing at the source.
    NotFoundAtSource(Pubkey),
    /// No filter was given.
    NoFilter,
    /// More accounts match than are allowed.
    TooManyAccounts { got: usize, max: usize },
}

/// The text of an error.
pub open spec fn error_text(e: ContextError) -> Seq<char> {
    match e {
        ContextError::AccountNotFound(k) => "Account not found: "@ + base58(k@),
        ContextError::NoTag { need, got } => "Account data too small for discriminator (need "@ + dec(need as nat)
            + " bytes, got "@ + dec(got as nat) + ")"@,
        ContextError::TooShortToRead { got, need, tag } => "Account data too small for zero-copy struct: got "@ + dec(
            got as nat,
        ) + " bytes, need "@ + dec(need as nat) + " bytes (discriminator: "@ + dec(tag as nat) + ")"@,
        ContextError::TooShortToWrite { got, need } => "Account data too small for zero-copy struct: got "@ + dec(got as nat)
            + " bytes, need "@ + dec(need as nat) + " bytes"@,
        ContextError::NoBatchSigner => "At least one signer required for send_batch. The first signer is the fee payer."@,
        ContextError::NoSigner => "At least one signer required"@,
        ContextError::Signing(s) => s@,
        ContextError::AddressNotSet => "Address must be set with .pubkey()"@,
        ContextError::MintNotSet => "Mint must be set with .mint()"@,
        ContextError::OwnerNotSet => "Owner must be set with .token_owner()"@,
        ContextError::WrongLength => "An account's data contents was invalid"@,
        ContextError::ProgramNotLoaded(k, s) => "failed to load program "@ + base58(k@) + ": "@ + s@,
        ContextError::NoPriceUpdate => "Failed to deserialize account"@,
        ContextError::ProgramAccountTooShort(n) => "Program account data too short ("@ + dec(n as nat)
            + " bytes) for BPF Upgradeable Loader"@,
        ContextError::ProgramDataTooShort(n) => "ProgramData data too short ("@ + dec(n as nat) + " bytes)"@,
        ContextError::InvalidOwner => "invalid owner pubkey in cache"@,
        ContextError::NotFoundAtSource(k) => "Account "@ + base58(k@) + " not found on RPC"@,
        ContextError::NoFilter
            => "clone_program_accounts requires at least one filter. Unfiltered getProgramAccounts can return millions of results."@,
        ContextError::TooManyAccounts { got, max } => "getProgramAccounts returned "@ + dec(got as nat)
            + " accounts (max: "@ + dec(max as nat)
            + "). Add stricter filters or increase max with .max_program_accounts()."@,
    }
}

impl ContextError {
    /// The text of the error.
    pub fn message(&self) -> (r: String)
        ensures
            r@ == error_text(*self),
    {
        match self {
            ContextError::AccountNotFound(k) => {
                let mut s = copy_str("Account not found: ");
                s.append(key_text(k).as_str());
                s
            },
            ContextError::NoTag { need, got } => {
                let mut s = copy_str("Account data too small for discriminator (need ");
                push_dec_usize(&mut s, *need);
                s.append(" bytes, got ");
                push_dec_usize(&mut s, *got);
                s.append(")");
                s
            },
            ContextError::TooShortToRead { got, need, tag } => {
                let mut s = copy_str("Account data too small for zero-copy struct: got ");
                push_dec_usize(&mut s, *got);
                s.append(" bytes, need ");
                push_dec_usize(&mut s, *need);
                s.append(" bytes (discriminator: ");
                push_dec_usize(&mut s, *tag);
                s.append(")");
                s
            },
            ContextError::TooShortToWrite { got, need } => {
                let mut s = copy_str("Account data too small for zero-copy struct: got ");
                push_dec_usize(&mut s, *got);
                s.append(" bytes, need ");
                push_dec_usize(&mut s, *need);
                s.append(" bytes");
                s
            },
            ContextError::NoBatchSigner => copy_str(
                "At least one signer required for send_batch. The first signer is the fee payer.",
            ),
            ContextError::NoSigner => copy_str("At least one signer required"),
            ContextError::Signing(e) => e.clone(),
            ContextError::AddressNotSet => copy_str("Address must be set with .pubkey()"),
            ContextError::MintNotSet => copy_str("Mint must be set with .mint()"),
            ContextError::OwnerNotSet => copy_str("Owner must be set with .token_owner()"),
            ContextError::WrongLength => copy_str("An account's data contents was invalid"),
            ContextError::ProgramNotLoaded(k, e) => {
                let mut s = copy_str("failed to load program ");
                s.append(key_text(k).as_str());
                s.append(": ");
                s.append(e.as_str());
                s
            },
            ContextError::NoPriceUpdate => copy_str("Failed to deserialize account"),
            ContextError::ProgramAccountTooShort(n) => {
                let mut s = copy_str("Program account data too short (");
                push_dec_usize(&mut s, *n);
                s.append(" bytes) for BPF Upgradeable Loader");
                s
            },
            ContextError::ProgramDataTooShort(n) => {
                let mut s = copy_str("ProgramData data too short (");
                push_dec_usize(&mut s, *n);
                s.append(" bytes)");
                s
            },
            ContextError::InvalidOwner => copy_str("invalid owner pubkey in cache"),
            ContextError::NotFoundAtSource(k) => {
                let mut s = copy_str("Account ");
                s.append(key_text(k).as_str());
                s.append(" not found on RPC");
                s
            },
            ContextError::NoFilter => copy_str(
                "clone_program_accounts requires at least one filter. Unfiltered getProgramAccounts can return millions of results.",
            ),
            ContextError::TooManyAccounts { got, max } => {
                let mut s = copy_str("getProgramAccounts returned ");
                push_dec_usize(&mut s, *got);
                s.append(" accounts (max: ");
                push_dec_usize(&mut s, *max);
                s.append("). Add stricter filters or increase max with .max_program_accounts().");
                s
            },
        }
    }
}

} // verus!
