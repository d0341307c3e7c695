//! Price feed accounts for tests.
use vstd::prelude::*;
use vstd::bytes::{u32_from_le_bytes, u32_to_le_bytes, u64_from_le_bytes, u64_to_le_bytes};
#[allow(unused_imports)]
use vstd::bytes::{spec_u32_from_le_bytes, spec_u32_to_le_bytes, spec_u64_from_le_bytes, spec_u64_to_le_bytes};
use vstd::slice::slice_subrange;
use crate::account_builders::AccountBuilderBase;
#[allow(unused_imports)]
use crate::account_builders::created;
use crate::context::TestContext;
#[allow(unused_imports)]
use crate::context::{written, ContextView};
use crate::errors::ContextError;
use crate::keys::Keypair;
#[allow(unused_imports)]
use crate::keys::ed25519_public;
use crate::mutation::alias::read_key;
#[allow(unused_imports)]
use crate::svm::{account_at, svm_with_account};
use crate::sysvars::read_clock;
#[allow(unused_imports)]
use crate::sysvars::svm_clock;
use crate::types::{Account, Pubkey};
#[allow(unused_imports)]
use crate::types::{key_of, lemma_key_of, zero_key, AccountView};

verus! {

/// The tag of a price feed account.
pub open spec fn pyth_tag() -> Seq<u8> {
    seq![34u8, 241, 35, 99, 157, 126, 244, 205]
}

/// The address of the program that owns price feeds.
#[verifier::opaque]
pub open spec fn pyth_receiver_address() -> Seq<u8> {
    seq![0x02u8, 0xe1, 0xae, 0xce, 0x70, 0xcc, 0x1b, 0xac, 0x7a, 0x72, 0xa9, 0x36, 0x74, 0xe4, 0x5a, 0x7b, 0xe1, 0xa8, 0xbd, 0x5a, 0x03, 0xbd, 0x7c, 0x50, 0xfd, 0x3f, 0xa2, 0xc5, 0xa4, 0x92, 0x88, 0x28]
}

/// The program that owns price feeds.
pub fn default_pyth_receiver_id() -> (k: Pubkey)
    ensures
        k@ == pyth_receiver_address(),
{
    let k = Pubkey { bytes: [0x02u8, 0xe1, 0xae, 0xce, 0x70, 0xcc, 0x1b, 0xac, 0x7a, 0x72, 0xa9, 0x36, 0x74, 0xe4, 0x5a, 0x7b, 0xe1, 0xa8, 0xbd, 0x5a, 0x03, 0xbd, 0x7c, 0x50, 0xfd, 0x3f, 0xa2, 0xc5, 0xa4, 0x92, 0x88, 0x28] };
    proof {
        reveal(pyth_receiver_address);
    }
    k
}

/// How far a price was verified.
#[derive(Clone, Copy, PartialEq, Eq, Structural, Debug)]
pub enum VerificationLevel {
    Partial { num_signatures: u8 },
    Full,
}

/// A price.
#[derive(Clone, Copy, Debug)]
pub struct PriceFeedMessage {
    pub feed_id: [u8; 32],
    pub price: i64,
    pub conf: u64,
    pub exponent: i32,
    pub publish_time: i64,
    pub prev_publish_time: i64,
    pub ema_price: i64,
    pub ema_conf: u64,
}

/// What a price feed account holds.
#[derive(Clone, Copy, Debug)]
pub struct PriceUpdateV2 {
    pub write_authority: Pubkey,
    pub verification_level: VerificationLevel,
    pub price_message: PriceFeedMessage,
    pub posted_slot: u64,
}

/// The bytes of a level: its number, and the signatures of a partial one.
pub open spec fn level_bytes(l: VerificationLevel) -> Seq<u8> {
    match l {
        VerificationLevel::Partial { num_signatures } => seq![0u8, num_signatures],
        VerificationLevel::Full => seq![1u8],
    }
}

/// The bytes of a price and the slot: the feed, then the numbers, the lowest byte first.
pub open spec fn message_bytes(m: PriceFeedMessage, slot: u64) -> Seq<u8> {
    m.feed_id@ + spec_u64_to_le_bytes(m.price as u64) + spec_u64_to_le_bytes(m.conf) + spec_u32_to_le_bytes(m.exponent as u32)
        + spec_u64_to_le_bytes(m.publish_time as u64) + spec_u64_to_le_bytes(m.prev_publish_time as u64)
        + spec_u64_to_le_bytes(m.ema_price as u64) + spec_u64_to_le_bytes(m.ema_conf) + spec_u64_to_le_bytes(slot)
}

/// The bytes of what a price feed account holds, behind the tag.
pub open spec fn update_bytes(u: PriceUpdateV2) -> Seq<u8> {
    u.write_authority@ + level_bytes(u.verification_level) + message_bytes(u.price_message, u.posted_slot)
}

/// How many bytes a price and the slot take.
pub const MESSAGE_LEN: usize = 92;

/// The number that stands at a place, the lowest byte first.
pub open spec fn number_at(data: Seq<u8>, at: int) -> u64 {
    spec_u64_from_le_bytes(data.subrange(at, at + 8))
}

/// The price that stands at a place.
pub open spec fn message_at(data: Seq<u8>, at: int) -> PriceFeedMessage {
    PriceFeedMessage {
        feed_id: key_of(data.subrange(at, at + 32)).bytes,
        price: number_at(data, at + 32) as i64,
        conf: number_at(data, at + 40),
        exponent: spec_u32_from_le_bytes(data.subrange(at + 48, at + 52)) as i32,
        publish_time: number_at(data, at + 52) as i64,
        prev_publish_time: number_at(data, at + 60) as i64,
        ema_price: number_at(data, at + 68) as i64,
        ema_conf: number_at(data, at + 76),
    }
}

/// Where the price stands, behind the level; nothing where there is no level.
pub open spec fn message_start(data: Seq<u8>) -> Option<(VerificationLevel, int)> {
    if data.len() >= 34 && data[32] == 0 {
        Some((VerificationLevel::Partial { num_signatures: data[33] }, 34))
    } else if data.len() >= 33 && data[32] == 1 {
        Some((VerificationLevel::Full, 33))
    } else {
        None
    }
}

/// What the bytes of a price feed account hold, behind the tag. What stands behind it is not read.
pub open spec fn update_at(data: Seq<u8>) -> Option<PriceUpdateV2> {
    match message_start(data) {
        Some((verification_level, at)) => if at + MESSAGE_LEN <= data.len() {
            Some(
                PriceUpdateV2 {
                    write_authority: key_of(data.subrange(0, 32)),
                    verification_level,
                    price_message: message_at(data, at),
                    posted_slot: number_at(data, at + 84),
                },
            )
        } else {
            None
        },
        None => None,
    }
}

proof fn lemma_signed_bits(a: i64, b: i32)
    ensures
        (a as u64) as i64 == a,
        (b as u32) as i32 == b,
{
    assert((a as u64) as i64 == a) by (bit_vector);
    assert((b as u32) as i32 == b) by (bit_vector);
}

/// What was written is read: reading the bytes of a price update gives it, whatever stands behind them.
pub proof fn lemma_update_read_back(u: PriceUpdateV2, rest: Seq<u8>)
    ensures
        update_at(update_bytes(u) + rest) == Some(u),
{
    vstd::bytes::lemma_auto_spec_u64_to_from_le_bytes();
    vstd::bytes::lemma_auto_spec_u32_to_from_le_bytes();
    let d = update_bytes(u) + rest;
    let m = u.price_message;
    lemma_signed_bits(m.price, m.exponent);
    lemma_signed_bits(m.publish_time, m.exponent);
    lemma_signed_bits(m.prev_publish_time, m.exponent);
    lemma_signed_bits(m.ema_price, m.exponent);
    let at: int = if u.verification_level is Full { 33 } else { 34 };
    assert(u.write_authority@.len() == 32);
    assert(m.feed_id@.len() == 32);
    assert(d.subrange(0, 32) =~= u.write_authority@);
    lemma_key_of(u.write_authority);
    assert(d[32] == level_bytes(u.verification_level)[0]);
    if u.verification_level is Partial {
        assert(d[33] == level_bytes(u.verification_level)[1]);
    }
    assert(message_start(d) == Some((u.verification_level, at)));
    assert(d.subrange(at, at + 32) =~= m.feed_id@);
    let id = Pubkey { bytes: m.feed_id };
    lemma_key_of(id);
    assert(id@ == m.feed_id@);
    assert(d.subrange(at + 32, at + 32 + 8) =~= spec_u64_to_le_bytes(m.price as u64));
    assert(d.subrange(at + 40, at + 40 + 8) =~= spec_u64_to_le_bytes(m.conf));
    assert(d.subrange(at + 48, at + 52) =~= spec_u32_to_le_bytes(m.exponent as u32));
    assert(d.subrange(at + 52, at + 52 + 8) =~= spec_u64_to_le_bytes(m.publish_time as u64));
    assert(d.subrange(at + 60, at + 60 + 8) =~= spec_u64_to_le_bytes(m.prev_publish_time as u64));
    assert(d.subrange(at + 68, at + 68 + 8) =~= spec_u64_to_le_bytes(m.ema_price as u64));
    assert(d.subrange(at + 76, at + 76 + 8) =~= spec_u64_to_le_bytes(m.ema_conf));
    assert(d.subrange(at + 84, at + 84 + 8) =~= spec_u64_to_le_bytes(u.posted_slot));
    let r = update_at(d)->0;
    assert(r.price_message.feed_id == m.feed_id);
    assert(r.price_message == m);
}

fn push_all(v: &mut Vec<u8>, bytes: &[u8])
    ensures
        final(v)@ == old(v)@ + bytes@,
{
    let mut more = crate::types::copy_bytes(bytes);
    v.append(&mut more);
}

fn push_number(v: &mut Vec<u8>, n: u64)
    ensures
        final(v)@ == old(v)@ + spec_u64_to_le_bytes(n),
{
    let mut more = u64_to_le_bytes(n);
    v.append(&mut more);
}

/// The bytes of a price feed account: the tag, and what it holds.
pub fn encode_price_update(u: &PriceUpdateV2) -> (r: Vec<u8>)
    ensures
        r@ == pyth_tag() + update_bytes(*u),
{
    let tag = [34u8, 241, 35, 99, 157, 126, 244, 205];
    let mut r: Vec<u8> = Vec::new();
    push_all(&mut r, &tag);
    assert(r@ =~= pyth_tag());
    push_all(&mut r, &u.write_authority.bytes);
    match u.verification_level {
        VerificationLevel::Partial { num_signatures } => {
            r.push(0);
            r.push(num_signatures);
        },
        VerificationLevel::Full => {
            r.push(1);
        },
    }
    assert(r@ =~= pyth_tag() + u.write_authority@ + level_bytes(u.verification_level));
    let m = &u.price_message;
    push_all(&mut r, &m.feed_id);
    push_number(&mut r, m.price as u64);
    push_number(&mut r, m.conf);
    let mut exponent = u32_to_le_bytes(m.exponent as u32);
    r.append(&mut exponent);
    push_number(&mut r, m.publish_time as u64);
    push_number(&mut r, m.prev_publish_time as u64);
    push_number(&mut r, m.ema_price as u64);
    push_number(&mut r, m.ema_conf);
    push_number(&mut r, u.posted_slot);
    assert(r@ =~= pyth_tag() + update_bytes(*u));
    r
}

fn read_number(data: &[u8], at: usize) -> (r: u64)
    requires
        at + 8 <= data@.len(),
    ensures
        r == number_at(data@, at as int),
{
    assert(data@.len() == data.len());
    u64_from_le_bytes(slice_subrange(data, at, at + 8))
}

/// What the bytes of a price feed account hold, behind the tag.
pub fn decode_price_update(data: &[u8]) -> (r: Option<PriceUpdateV2>)
    ensures
        r == update_at(data@),
{
    if data.len() < 33 {
        return None;
    }
    let (verification_level, at): (VerificationLevel, usize) = if data[32] == 0 {
        if data.len() < 34 {
            return None;
        }
        (VerificationLevel::Partial { num_signatures: data[33] }, 34)
    } else if data[32] == 1 {
        (VerificationLevel::Full, 33)
    } else {
        return None;
    };
    if data.len() - at < MESSAGE_LEN {
        return None;
    }
    Some(
        PriceUpdateV2 {
            write_authority: read_key(data, 0),
            verification_level,
            price_message: PriceFeedMessage {
                feed_id: read_key(data, at).bytes,
                price: read_number(data, at + 32) as i64,
                conf: read_number(data, at + 40),
                exponent: u32_from_le_bytes(slice_subrange(data, at + 48, at + 52)) as i32,
                publish_time: read_number(data, at + 52) as i64,
                prev_publish_time: read_number(data, at + 60) as i64,
                ema_price: read_number(data, at + 68) as i64,
                ema_conf: read_number(data, at + 76),
            },
            posted_slot: read_number(data, at + 84),
        },
    )
}

/// A price feed account that is to be created.
pub struct MockPythOracleBuilder<'a> {
    pub ctx: &'a mut TestContext,
    pub price: i64,
    pub exponent: i32,
    pub confidence: u64,
    pub publish_time: Option<i64>,
    pub feed_id: Option<[u8; 32]>,
    pub program_id: Pubkey,
}

/// When the price was published: at the time that was named, else now.
pub open spec fn published(time: Option<i64>, now: i64) -> i64 {
    match time {
        Some(t) => t,
        None => now,
    }
}

/// The feed: the one that was named, else the address.
pub open spec fn feed_of(id: Option<[u8; 32]>, oracle: Pubkey) -> [u8; 32] {
    match id {
        Some(f) => f,
        None => oracle.bytes,
    }
}

/// The bytes are the address of some secret, as those of a key pair that is drawn are.
pub open spec fn drawn(address: Seq<u8>) -> bool {
    exists|secret: Seq<u8>| #[trigger] ed25519_public(secret) == address
}

impl<'a> MockPythOracleBuilder<'a> {
    /// What the new account holds.
    pub open spec fn update(self, oracle: Pubkey, now: i64, slot: u64) -> PriceUpdateV2 {
        PriceUpdateV2 {
            write_authority: key_of(zero_key()),
            verification_level: VerificationLevel::Full,
            price_message: PriceFeedMessage {
                feed_id: feed_of(self.feed_id, oracle),
                price: self.price,
                conf: self.confidence,
                exponent: self.exponent,
                publish_time: published(self.publish_time, now),
                prev_publish_time: (published(self.publish_time, now) - 1) as i64,
                ema_price: self.price,
                ema_conf: self.confidence,
            },
            posted_slot: slot,
        }
    }

    /// The new account.
    pub open spec fn account(self, oracle: Pubkey, now: i64, slot: u64) -> AccountView {
        AccountView {
            lamports: 1_000_000_000,
            data: pyth_tag() + update_bytes(self.update(oracle, now, slot)),
            owner: self.program_id,
            executable: false,
            rent_epoch: 0,
        }
    }

    /// The account can be made: there is a clock, and a moment before the price was published.
    pub open spec fn can_be_built(self, now: i64) -> bool {
        svm_clock(self.ctx.svm) is Some && published(self.publish_time, now) > i64::MIN
    }

    /// A price feed of price zero, with eight decimals.
    pub fn new(ctx: &'a mut TestContext) -> (r: MockPythOracleBuilder<'a>)
        ensures
            *r.ctx == *old(ctx),
            *final(r.ctx) == *final(ctx),
            r.price == 0,
            r.exponent == -8,
            r.confidence == 100_000,
            r.publish_time is None,
            r.feed_id is None,
            r.program_id@ == pyth_receiver_address(),
    {
        MockPythOracleBuilder {
            ctx,
            price: 0,
            exponent: -8,
            confidence: 100_000,
            publish_time: None,
            feed_id: None,
            program_id: default_pyth_receiver_id(),
        }
    }

    /// The feed with this price.
    pub fn price(self, price: i64) -> (r: MockPythOracleBuilder<'a>)
        ensures
            r == (MockPythOracleBuilder { price, ..self }),
    {
        let mut b = self;
        b.price = price;
        b
    }

    /// The feed with this exponent.
    pub fn exponent(self, exp: i32) -> (r: MockPythOracleBuilder<'a>)
        ensures
            r == (MockPythOracleBuilder { exponent: exp, ..self }),
    {
        let mut b = self;
        b.exponent = exp;
        b
    }

    /// The feed with this confidence.
    pub fn confidence(self, conf: u64) -> (r: MockPythOracleBuilder<'a>)
        ensures
            r == (MockPythOracleBuilder { confidence: conf, ..self }),
    {
        let mut b = self;
        b.confidence = conf;
        b
    }

    /// The feed, published at this time.
    pub fn publish_time(self, time: i64) -> (r: MockPythOracleBuilder<'a>)
        ensures
            r == (MockPythOracleBuilder { publish_time: Some(time), ..self }),
    {
        let mut b = self;
        b.publish_time = Some(time);
        b
    }

    /// The feed with this id.
    pub fn feed_id(self, id: [u8; 32]) -> (r: MockPythOracleBuilder<'a>)
        ensures
            r == (MockPythOracleBuilder { feed_id: Some(id), ..self }),
    {
        let mut b = self;
        b.feed_id = Some(id);
        b
    }

    /// The feed, owned by this program.
    pub fn program_id(self, id: Pubkey) -> (r: MockPythOracleBuilder<'a>)
        ensures
            r == (MockPythOracleBuilder { program_id: id, ..self }),
    {
        let mut b = self;
        b.program_id = id;
        b
    }

    /// Creates the feed at an address.
    pub fn build_at(self, oracle: Pubkey, now: i64) -> (r: Result<Pubkey, ContextError>)
        requires
            self.can_be_built(now),
        ensures
            if oracle@ == zero_key() {
                r is Err && r->Err_0 is AddressNotSet && final(self.ctx)@ == old(self.ctx)@
            } else {
                r == Ok::<Pubkey, ContextError>(oracle) && final(self.ctx)@ == created(
                    old(self.ctx)@,
                    oracle,
                    self.account(oracle, now, svm_clock(old(self.ctx).svm)->0.slot),
                )
            },
    {
        let publish_time: i64 = match self.publish_time {
            Some(t) => t,
            None => now,
        };
        let feed_id = match self.feed_id {
            Some(f) => f,
            None => oracle.bytes,
        };
        let authority = Pubkey::default();
        proof {
            lemma_key_of(authority);
        }
        let update = PriceUpdateV2 {
            write_authority: authority,
            verification_level: VerificationLevel::Full,
            price_message: PriceFeedMessage {
                feed_id,
                price: self.price,
                conf: self.confidence,
                exponent: self.exponent,
                publish_time,
                prev_publish_time: publish_time - 1,
                ema_price: self.price,
                ema_conf: self.confidence,
            },
            posted_slot: self.ctx.slot(),
        };
        assert(update == self.update(oracle, now, svm_clock(self.ctx.svm)->0.slot));
        let data = encode_price_update(&update);
        self.ctx.create_account().pubkey(oracle).owner(self.program_id).lamports(1_000_000_000).data(data.as_slice()).create()
    }

    /// Creates the feed at an address that is drawn at random.
    pub fn build(self, now: i64) -> (r: Result<Pubkey, ContextError>)
        requires
            self.can_be_built(now),
        ensures
            match r {
                Ok(oracle) => final(self.ctx)@ == created(
                    old(self.ctx)@,
                    oracle,
                    self.account(oracle, now, svm_clock(old(self.ctx).svm)->0.slot),
                ) && oracle@ != zero_key() && drawn(oracle@),
                Err(e) => e is AddressNotSet && final(self.ctx)@ == old(self.ctx)@ && drawn(zero_key()),
            },
    {
        let pair = Keypair::new();
        assert(ed25519_public(pair.secret@) == pair.key@);
        self.build_at(pair.key, now)
    }

    /// Creates the feed at an address that is drawn at random, where it can be made.
    pub fn try_build(self, now: i64) -> (r: Option<Result<Pubkey, ContextError>>)
        ensures
            match r {
                Some(Ok(oracle)) => self.can_be_built(now) && final(self.ctx)@ == created(
                    old(self.ctx)@,
                    oracle,
                    self.account(oracle, now, svm_clock(old(self.ctx).svm)->0.slot),
                ) && oracle@ != zero_key() && drawn(oracle@),
                Some(Err(e)) => self.can_be_built(now) && e is AddressNotSet && final(self.ctx)@ == old(self.ctx)@ && drawn(
                    zero_key(),
                ),
                None => !self.can_be_built(now) && final(self.ctx)@ == old(self.ctx)@,
            },
    {
        let time: i64 = match self.publish_time {
            Some(t) => t,
            None => now,
        };
        if time == i64::MIN || read_clock(&self.ctx.svm).is_none() {
            return None;
        }
        Some(self.build(now))
    }
}

/// A price feed with a new price, published now.
pub open spec fn repriced(u: PriceUpdateV2, price: i64, exponent: i32, now: i64, slot: u64) -> PriceUpdateV2 {
    PriceUpdateV2 {
        price_message: PriceFeedMessage {
            price,
            exponent,
            ema_price: price,
            prev_publish_time: u.price_message.publish_time,
            publish_time: now,
            ..u.price_message
        },
        posted_slot: slot,
        ..u
    }
}

/// A price feed that is published anew.
pub open spec fn refreshed(u: PriceUpdateV2, now: i64, slot: u64) -> PriceUpdateV2 {
    PriceUpdateV2 {
        price_message: PriceFeedMessage {
            prev_publish_time: u.price_message.publish_time,
            publish_time: now,
            ..u.price_message
        },
        posted_slot: slot,
        ..u
    }
}

/// The account at the address, where there is one, has a tag, and a price that it holds can be dated by
/// the clock.
pub open spec fn can_be_dated(c: ContextView, oracle: Pubkey) -> bool {
    account_at(c.svm, oracle) is Some ==> account_at(c.svm, oracle)->0.data.len() >= 8 && (update_at(
        account_at(c.svm, oracle)->0.data.skip(8),
    ) is Some ==> svm_clock(c.svm) is Some)
}

/// A price feed was rewritten, or it could not be and nothing changed.
pub open spec fn rewritten(
    c: ContextView,
    oracle: Pubkey,
    next: spec_fn(PriceUpdateV2) -> PriceUpdateV2,
    r: Result<(), ContextError>,
    c2: ContextView,
) -> bool {
    match account_at(c.svm, oracle) {
        None => r is Err && r->Err_0 == ContextError::AccountNotFound(oracle) && c2 == c,
        Some(a) => match update_at(a.data.skip(8)) {
            None => r is Err && r->Err_0 is NoPriceUpdate && c2 == c,
            Some(u) => r is Ok && c2 == written(
                c,
                oracle,
                AccountView { data: pyth_tag() + update_bytes(next(u)), ..a },
            ),
        },
    }
}

/// Setting a price changes the price, the exponent, the average price and when they were published, and
/// nothing else of the feed: reading the account before and after gives the same confidences, feed,
/// authority and level.
pub proof fn lemma_price_set(
    c: ContextView,
    oracle: Pubkey,
    price: i64,
    exponent: i32,
    now: i64,
    slot: u64,
    r: Result<(), ContextError>,
    c2: ContextView,
)
    requires
        rewritten(c, oracle, |u: PriceUpdateV2| repriced(u, price, exponent, now, slot), r, c2),
        r is Ok,
    ensures
        account_at(c.svm, oracle) is Some,
        exists|b: AccountView|
            {
                let a = account_at(c.svm, oracle)->0;
                let before = update_at(a.data.skip(8));
                let after = #[trigger] update_at(b.data.skip(8));
                &&& c2.svm == svm_with_account(c.svm, oracle, b).0
                &&& b.lamports == a.lamports && b.owner == a.owner && b.executable == a.executable && b.rent_epoch
                    == a.rent_epoch
                &&& b.data.take(8) == seq![34u8, 241, 35, 99, 157, 126, 244, 205]
                &&& before is Some && after is Some
                &&& after->0.price_message.price == price
                &&& after->0.price_message.exponent == exponent
                &&& after->0.price_message.ema_price == price
                &&& after->0.price_message.publish_time == now
                &&& after->0.price_message.prev_publish_time == before->0.price_message.publish_time
                &&& after->0.posted_slot == slot
                &&& after->0.price_message.conf == before->0.price_message.conf
                &&& after->0.price_message.ema_conf == before->0.price_message.ema_conf
                &&& after->0.price_message.feed_id == before->0.price_message.feed_id
                &&& after->0.write_authority == before->0.write_authority
                &&& after->0.verification_level == before->0.verification_level
            },
{
    let a = account_at(c.svm, oracle)->0;
    let u = update_at(a.data.skip(8))->0;
    let v = repriced(u, price, exponent, now, slot);
    let b = AccountView { data: pyth_tag() + update_bytes(v), ..a };
    lemma_feed_read(v);
    assert(update_at(b.data.skip(8)) == Some(v));
}

/// Publishing anew changes when a price was published, and nothing else of the feed.
pub proof fn lemma_price_refreshed(
    c: ContextView,
    oracle: Pubkey,
    now: i64,
    slot: u64,
    r: Result<(), ContextError>,
    c2: ContextView,
)
    requires
        rewritten(c, oracle, |u: PriceUpdateV2| refreshed(u, now, slot), r, c2),
        r is Ok,
    ensures
        account_at(c.svm, oracle) is Some,
        exists|b: AccountView|
            {
                let a = account_at(c.svm, oracle)->0;
                let before = update_at(a.data.skip(8));
                let after = #[trigger] update_at(b.data.skip(8));
                &&& c2.svm == svm_with_account(c.svm, oracle, b).0
                &&& b.lamports == a.lamports && b.owner == a.owner && b.executable == a.executable && b.rent_epoch
                    == a.rent_epoch
                &&& b.data.take(8) == seq![34u8, 241, 35, 99, 157, 126, 244, 205]
                &&& before is Some && after is Some
                &&& after->0.price_message.publish_time == now
                &&& after->0.price_message.prev_publish_time == before->0.price_message.publish_time
                &&& after->0.posted_slot == slot
                &&& after->0.price_message.price == before->0.price_message.price
                &&& after->0.price_message.exponent == before->0.price_message.exponent
                &&& after->0.price_message.ema_price == before->0.price_message.ema_price
                &&& after->0.price_message.conf == before->0.price_message.conf
                &&& after->0.price_message.ema_conf == before->0.price_message.ema_conf
                &&& after->0.price_message.feed_id == before->0.price_message.feed_id
                &&& after->0.write_authority == before->0.write_authority
                &&& after->0.verification_level == before->0.verification_level
            },
{
    let a = account_at(c.svm, oracle)->0;
    let u = update_at(a.data.skip(8))->0;
    let v = refreshed(u, now, slot);
    let b = AccountView { data: pyth_tag() + update_bytes(v), ..a };
    lemma_feed_read(v);
    assert(update_at(b.data.skip(8)) == Some(v));
}

/// A new feed holds what its builder was given: read back, it has the price, the confidence and the exponent,
/// all verified, published at the time that was named or else now, and one second before that.
pub proof fn lemma_new_feed(b: MockPythOracleBuilder<'_>, oracle: Pubkey, now: i64, slot: u64)
    requires
        b.can_be_built(now),
    ensures
        ({
            let a = b.account(oracle, now, slot);
            let u = update_at(a.data.skip(8));
            let time = if b.publish_time is Some { b.publish_time->0 } else { now };
            &&& a.owner == b.program_id && a.lamports == 1_000_000_000 && !a.executable && a.rent_epoch == 0
            &&& a.data.take(8) == seq![34u8, 241, 35, 99, 157, 126, 244, 205]
            &&& u is Some
            &&& u->0.write_authority@ == zero_key()
            &&& u->0.verification_level is Full
            &&& u->0.posted_slot == slot
            &&& u->0.price_message.price == b.price && u->0.price_message.ema_price == b.price
            &&& u->0.price_message.conf == b.confidence && u->0.price_message.ema_conf == b.confidence
            &&& u->0.price_message.exponent == b.exponent
            &&& u->0.price_message.publish_time == time
            &&& u->0.price_message.prev_publish_time == time - 1
            &&& u->0.price_message.feed_id@ == if b.feed_id is Some { b.feed_id->0@ } else { oracle@ }
        }),
{
    let v = b.update(oracle, now, slot);
    lemma_feed_read(v);
    let k = Pubkey { bytes: [0u8, 0, 0, 0, 0, 0, 0, 0, 0, 0, 0, 0, 0, 0, 0, 0, 0, 0, 0, 0, 0, 0, 0, 0, 0, 0, 0, 0, 0, 0, 0, 0] };
    assert(k@ =~= zero_key());
    lemma_key_of(k);
}

proof fn lemma_feed_read(v: PriceUpdateV2)
    ensures
        update_at((pyth_tag() + update_bytes(v)).skip(8)) == Some(v),
        (pyth_tag() + update_bytes(v)).take(8) == pyth_tag(),
{
    lemma_update_read_back(v, Seq::empty());
    assert((pyth_tag() + update_bytes(v)).skip(8) =~= update_bytes(v) + Seq::<u8>::empty());
    assert((pyth_tag() + update_bytes(v)).take(8) =~= pyth_tag());
}

/// Where each part of a price feed stands, behind the tag: the authority, the level, and from there the feed,
/// the price, the confidence, the exponent, the two times, the average price and its confidence, and the
/// slot, each number with its lowest byte first.
pub proof fn lemma_feed_layout(u: PriceUpdateV2)
    ensures
        ({
            let d = update_bytes(u);
            let m = u.price_message;
            let at: int = if u.verification_level is Full { 33 } else { 34 };
            &&& d.len() == at + 92
            &&& d.subrange(0, 32) == u.write_authority@
            &&& d[32] == if u.verification_level is Full { 1u8 } else { 0u8 }
            &&& u.verification_level matches VerificationLevel::Partial { num_signatures } ==> d[33] == num_signatures
            &&& d.subrange(at, at + 32) == m.feed_id@
            &&& spec_u64_from_le_bytes(d.subrange(at + 32, at + 40)) as i64 == m.price
            &&& spec_u64_from_le_bytes(d.subrange(at + 40, at + 48)) == m.conf
            &&& spec_u32_from_le_bytes(d.subrange(at + 48, at + 52)) as i32 == m.exponent
            &&& spec_u64_from_le_bytes(d.subrange(at + 52, at + 60)) as i64 == m.publish_time
            &&& spec_u64_from_le_bytes(d.subrange(at + 60, at + 68)) as i64 == m.prev_publish_time
            &&& spec_u64_from_le_bytes(d.subrange(at + 68, at + 76)) as i64 == m.ema_price
            &&& spec_u64_from_le_bytes(d.subrange(at + 76, at + 84)) == m.ema_conf
            &&& spec_u64_from_le_bytes(d.subrange(at + 84, at + 92)) == u.posted_slot
        }),
{
    vstd::bytes::lemma_auto_spec_u64_to_from_le_bytes();
    vstd::bytes::lemma_auto_spec_u32_to_from_le_bytes();
    let d = update_bytes(u);
    let m = u.price_message;
    lemma_signed_bits(m.price, m.exponent);
    lemma_signed_bits(m.publish_time, m.exponent);
    lemma_signed_bits(m.prev_publish_time, m.exponent);
    lemma_signed_bits(m.ema_price, m.exponent);
    let at: int = if u.verification_level is Full { 33 } else { 34 };
    assert(d.subrange(0, 32) =~= u.write_authority@);
    assert(d[32] == level_bytes(u.verification_level)[0]);
    if u.verification_level is Partial {
        assert(d[33] == level_bytes(u.verification_level)[1]);
    }
    assert(d.subrange(at, at + 32) =~= m.feed_id@);
    assert(d.subrange(at + 32, at + 40) =~= spec_u64_to_le_bytes(m.price as u64));
    assert(d.subrange(at + 40, at + 48) =~= spec_u64_to_le_bytes(m.conf));
    assert(d.subrange(at + 48, at + 52) =~= spec_u32_to_le_bytes(m.exponent as u32));
    assert(d.subrange(at + 52, at + 60) =~= spec_u64_to_le_bytes(m.publish_time as u64));
    assert(d.subrange(at + 60, at + 68) =~= spec_u64_to_le_bytes(m.prev_publish_time as u64));
    assert(d.subrange(at + 68, at + 76) =~= spec_u64_to_le_bytes(m.ema_price as u64));
    assert(d.subrange(at + 76, at + 84) =~= spec_u64_to_le_bytes(m.ema_conf));
    assert(d.subrange(at + 84, at + 92) =~= spec_u64_to_le_bytes(u.posted_slot));
}

fn read_update(data: &Vec<u8>) -> (r: Option<PriceUpdateV2>)
    requires
        data@.len() >= 8,
    ensures
        r == update_at(data@.skip(8)),
{
    let body = slice_subrange(data.as_slice(), 8, data.len());
    assert(body@ =~= data@.skip(8));
    decode_price_update(body)
}

impl TestContext {
    /// A price feed that is to be created.
    pub fn create_mock_pyth_oracle<'a>(&'a mut self) -> (r: MockPythOracleBuilder<'a>)
        ensures
            *r.ctx == *old(self),
            *final(r.ctx) == *final(self),
            r.price == 0,
            r.exponent == -8,
            r.confidence == 100_000,
            r.publish_time is None,
            r.feed_id is None,
            r.program_id@ == pyth_receiver_address(),
    {
        MockPythOracleBuilder::new(self)
    }

    /// Sets the price of a feed.
    pub fn update_pyth_price(&mut self, oracle: &Pubkey, price: i64, exponent: i32, now: i64) -> (r: Result<(), ContextError>)
        requires
            can_be_dated(old(self)@, *oracle),
        ensures
            rewritten(
                old(self)@,
                *oracle,
                |u: PriceUpdateV2| repriced(u, price, exponent, now, svm_clock(old(self).svm)->0.slot),
                r,
                final(self)@,
            ),
    {
        let account = match self.read_account(oracle) {
            Ok(a) => a,
            Err(e) => {
                return Err(e);
            },
        };
        let u = match read_update(&account.data) {
            Some(u) => u,
            None => {
                return Err(ContextError::NoPriceUpdate);
            },
        };
        let next = PriceUpdateV2 {
            price_message: PriceFeedMessage {
                price,
                exponent,
                ema_price: price,
                prev_publish_time: u.price_message.publish_time,
                publish_time: now,
                ..u.price_message
            },
            posted_slot: self.slot(),
            ..u
        };
        self.write_account(
            oracle,
            Account {
                lamports: account.lamports,
                data: encode_price_update(&next),
                owner: account.owner,
                executable: account.executable,
                rent_epoch: account.rent_epoch,
            },
        )
    }

    /// Publishes a feed anew.
    pub fn refresh_pyth_oracle(&mut self, oracle: &Pubkey, now: i64) -> (r: Result<(), ContextError>)
        requires
            can_be_dated(old(self)@, *oracle),
        ensures
            rewritten(
                old(self)@,
                *oracle,
                |u: PriceUpdateV2| refreshed(u, now, svm_clock(old(self).svm)->0.slot),
                r,
                final(self)@,
            ),
    {
        let account = match self.read_account(oracle) {
            Ok(a) => a,
            Err(e) => {
                return Err(e);
            },
        };
        let u = match read_update(&account.data) {
            Some(u) => u,
            None => {
                return Err(ContextError::NoPriceUpdate);
            },
        };
        let next = PriceUpdateV2 {
            price_message: PriceFeedMessage {
                prev_publish_time: u.price_message.publish_time,
                publish_time: now,
                ..u.price_message
            },
            posted_slot: self.slot(),
            ..u
        };
        self.write_account(
            oracle,
            Account {
                lamports: account.lamports,
                data: encode_price_update(&next),
                owner: account.owner,
                executable: account.executable,
                rent_epoch: account.rent_epoch,
            },
        )
    }

    /// Whether what stands at an address can be dated as a price feed.
    pub fn dates_price(&self, oracle: &Pubkey) -> (r: bool)
        ensures
            r == can_be_dated(self@, *oracle),
    {
        match self.read_account(oracle) {
            Ok(a) => a.data.len() >= 8 && (read_update(&a.data).is_none() || read_clock(&self.svm).is_some()),
            Err(_) => true,
        }
    }

    /// Sets the price of a feed, where it can be dated.
    pub fn try_update_pyth_price(&mut self, oracle: &Pubkey, price: i64, exponent: i32, now: i64) -> (r: Option<
        Result<(), ContextError>,
    >)
        ensures
            match r {
                Some(done) => can_be_dated(old(self)@, *oracle) && rewritten(
                    old(self)@,
                    *oracle,
                    |u: PriceUpdateV2| repriced(u, price, exponent, now, svm_clock(old(self).svm)->0.slot),
                    done,
                    final(self)@,
                ),
                None => !can_be_dated(old(self)@, *oracle) && final(self)@ == old(self)@,
            },
    {
        if !self.dates_price(oracle) {
            return None;
        }
        Some(self.update_pyth_price(oracle, price, exponent, now))
    }

    /// Publishes a feed anew, where it can be dated.
    pub fn try_refresh_pyth_oracle(&mut self, oracle: &Pubkey, now: i64) -> (r: Option<Result<(), ContextError>>)
        ensures
            match r {
                Some(done) => can_be_dated(old(self)@, *oracle) && rewritten(
                    old(self)@,
                    *oracle,
                    |u: PriceUpdateV2| refreshed(u, now, svm_clock(old(self).svm)->0.slot),
                    done,
                    final(self)@,
                ),
                None => !can_be_dated(old(self)@, *oracle) && final(self)@ == old(self)@,
            },
    {
        if !self.dates_price(oracle) {
            return None;
        }
        Some(self.refresh_pyth_oracle(oracle, now))
    }
}

} // verus!
