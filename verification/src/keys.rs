//! Key pairs, and what the curve and the text form of an address say.
use vstd::prelude::*;
use solana_signer::Signer;
use crate::types::Pubkey;

verus! {

/// The public key that belongs to a secret key.
pub uninterp spec fn ed25519_public(secret: Seq<u8>) -> Seq<u8>;

/// `solana_keypair::Keypair::new_from_array` and `pubkey`: the public key of a secret key. It is a
/// point of the curve.
#[verifier::external_body]
fn public_key(secret: &[u8; 32]) -> (k: Pubkey)
    ensures
        k@ == ed25519_public(secret@),
        curve_point(k@),
{
    Pubkey { bytes: solana_keypair::Keypair::new_from_array(*secret).pubkey().to_bytes() }
}

/// `solana_keypair::Keypair::new`: a secret key drawn at random. Nothing is claimed of it.
#[verifier::external_body]
fn random_secret() -> (secret: [u8; 32])
{
    *solana_keypair::Keypair::new().secret_bytes()
}

/// The bytes are the compressed form of a point of the curve.
pub uninterp spec fn curve_point(bytes: Seq<u8>) -> bool;

/// `solana_pubkey::bytes_are_curve_point`: whether the bytes decompress to a point of the curve.
#[verifier::external_body]
fn on_curve(k: &Pubkey) -> (r: bool)
    ensures
        r == curve_point(k@),
{
    solana_pubkey::bytes_are_curve_point(k.bytes)
}

/// An address in base 58.
pub uninterp spec fn base58(bytes: Seq<u8>) -> Seq<char>;

/// The address that a text holds in base 58.
pub uninterp spec fn parsed_key(text: Seq<char>) -> Option<Pubkey>;

/// The `Display` of `solana_pubkey::Pubkey`: the address in base 58. Reading it gives the address.
#[verifier::external_body]
pub(crate) fn key_text(k: &Pubkey) -> (s: String)
    ensures
        s@ == base58(k@),
        parsed_key(s@) == Some(*k),
{
    solana_pubkey::Pubkey::new_from_array(k.bytes).to_string()
}

/// The `FromStr` of `solana_pubkey::Pubkey`: the address that a text holds in base 58.
#[verifier::external_body]
pub(crate) fn parse_key(text: &str) -> (r: Option<Pubkey>)
    ensures
        r == parsed_key(text@),
{
    text.parse::<solana_pubkey::Pubkey>().ok().map(|k| Pubkey { bytes: k.to_bytes() })
}

/// The address is not a public key: it was derived by a program.
pub open spec fn off_curve(k: Pubkey) -> bool {
    !curve_point(k@)
}

/// Whether an address is off the curve, as derived addresses are.
pub fn is_off_curve(k: &Pubkey) -> (r: bool)
    ensures
        r == off_curve(*k),
{
    !on_curve(k)
}

/// A key pair: an address and the secret that signs for it.
#[derive(Clone, Copy)]
pub struct Keypair {
    pub key: Pubkey,
    pub secret: [u8; 32],
}

impl Keypair {
    /// The address belongs to the secret.
    pub open spec fn well_formed(&self) -> bool {
        self.key@ == ed25519_public(self.secret@)
    }

    /// The key pair of a secret.
    pub fn from_secret(secret: [u8; 32]) -> (k: Keypair)
        ensures
            k.well_formed(),
            k.secret@ == secret@,
            curve_point(k.key@),
    {
        Keypair { key: public_key(&secret), secret }
    }

    /// A new key pair, drawn at random.
    pub fn new() -> (k: Keypair)
        ensures
            k.well_formed(),
            curve_point(k.key@),
    {
        Keypair::from_secret(random_secret())
    }

    /// The address of the key pair.
    pub fn pubkey(&self) -> (k: Pubkey)
        ensures
            k == self.key,
    {
        self.key
    }
}

/// The addresses of some key pairs.
pub open spec fn signer_keys(v: Seq<Keypair>) -> Seq<Pubkey> {
    Seq::new(v.len(), |i: int| v[i].key)
}

/// The secrets of some key pairs.
pub open spec fn secrets(v: Seq<Keypair>) -> Seq<Seq<u8>> {
    Seq::new(v.len(), |i: int| v[i].secret@)
}

} // verus!
