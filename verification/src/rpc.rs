//! Accounts that come from a cluster: what is kept of them, and how they are loaded.
use vstd::prelude::*;
use vstd::slice::slice_subrange;
use crate::context::TestContext;
#[allow(unused_imports)]
use crate::context::{program_added, written, ContextView};
use crate::errors::ContextError;
use crate::ids::upgradeable_loader_id;
#[allow(unused_imports)]
use crate::ids::upgradeable_loader_address;
use crate::keys::{key_text, parse_key};
#[allow(unused_imports)]
use crate::keys::{base58, parsed_key};
use crate::mutation::alias::read_key;
#[allow(unused_imports)]
use crate::paths::in_directory;
use crate::paths::join_path;
use crate::text::copy_str;
use crate::types::{Account, Pubkey};
#[allow(unused_imports)]
use crate::types::AccountView;

verus! {

/// How many accounts one request asks for.
pub const BATCH_CHUNK_SIZE: usize = 100;

/// How many accounts of a program are taken.
pub const DEFAULT_MAX_PROGRAM_ACCOUNTS: usize = 1000;

/// What is kept of an account beside its data.
#[derive(Debug)]
pub struct CachedAccountMeta {
    pub pubkey: String,
    pub owner: String,
    pub lamports: u64,
    pub executable: bool,
    pub rent_epoch: u64,
    pub data_len: usize,
}

impl CachedAccountMeta {
    /// What is kept of an account. It is enough to get the account back from its data.
    pub fn from_account(pubkey: &Pubkey, account: &Account) -> (r: CachedAccountMeta)
        ensures
            r.pubkey@ == base58(pubkey@),
            r.owner@ == base58(account.owner@),
            r.lamports == account.lamports,
            r.executable == account.executable,
            r.rent_epoch == account.rent_epoch,
            r.data_len == account.data@.len(),
            r.restored(account.data@) == Some(account@),
    {
        CachedAccountMeta {
            pubkey: key_text(pubkey),
            owner: key_text(&account.owner),
            lamports: account.lamports,
            executable: account.executable,
            rent_epoch: account.rent_epoch,
            data_len: account.data.len(),
        }
    }

    /// The account that was kept, with its data; nothing where the owner is no address.
    pub open spec fn restored(&self, data: Seq<u8>) -> Option<AccountView> {
        match parsed_key(self.owner@) {
            Some(owner) => Some(
                AccountView {
                    lamports: self.lamports,
                    data,
                    owner,
                    executable: self.executable,
                    rent_epoch: self.rent_epoch,
                },
            ),
            None => None,
        }
    }

    /// The account that was kept, with its data.
    pub fn to_account(&self, data: Vec<u8>) -> (r: Result<Account, ContextError>)
        ensures
            match r {
                Ok(a) => self.restored(data@) == Some(a@),
                Err(e) => e is InvalidOwner && self.restored(data@) is None,
            },
    {
        match parse_key(self.owner.as_str()) {
            Some(owner) => Ok(
                Account {
                    lamports: self.lamports,
                    data,
                    owner,
                    executable: self.executable,
                    rent_epoch: self.rent_epoch,
                },
            ),
            None => Err(ContextError::InvalidOwner),
        }
    }
}

/// The address of the program data in the account of an upgradeable program: it stands behind the kind
/// of the account, which takes four bytes.
pub fn parse_programdata_address(program_account_data: &[u8]) -> (r: Result<Pubkey, ContextError>)
    ensures
        match r {
            Ok(k) => program_account_data@.len() >= 36 && k@ == program_account_data@.subrange(4, 36),
            Err(e) => program_account_data@.len() < 36 && e == ContextError::ProgramAccountTooShort(
                program_account_data@.len() as usize,
            ),
        },
{
    if program_account_data.len() < 36 {
        return Err(ContextError::ProgramAccountTooShort(program_account_data.len()));
    }
    Ok(read_key(program_account_data, 4))
}

/// How long the header of program data is.
pub const PROGRAMDATA_HEADER_SIZE: usize = 45;

/// The program in program data: what stands behind the header.
pub fn extract_elf_bytes(programdata_data: &[u8]) -> (r: Result<&[u8], ContextError>)
    ensures
        match r {
            Ok(elf) => programdata_data@.len() >= PROGRAMDATA_HEADER_SIZE && elf@ == programdata_data@.skip(
                PROGRAMDATA_HEADER_SIZE as int,
            ),
            Err(e) => programdata_data@.len() < PROGRAMDATA_HEADER_SIZE && e == ContextError::ProgramDataTooShort(
                programdata_data@.len() as usize,
            ),
        },
{
    if programdata_data.len() < PROGRAMDATA_HEADER_SIZE {
        return Err(ContextError::ProgramDataTooShort(programdata_data.len()));
    }
    let elf = slice_subrange(programdata_data, PROGRAMDATA_HEADER_SIZE, programdata_data.len());
    assert(elf@ =~= programdata_data@.skip(PROGRAMDATA_HEADER_SIZE as int));
    Ok(elf)
}

/// The account is an upgradeable program.
pub open spec fn upgradeable(a: AccountView) -> bool {
    a.executable && a.owner@ == upgradeable_loader_address()
}

/// Whether the account is an upgradeable program.
pub fn is_upgradeable_program(account: &Account) -> (r: bool)
    ensures
        r == upgradeable(account@),
{
    account.executable && account.owner.same_as(&upgradeable_loader_id())
}

/// Whether the account is a program.
pub fn is_program(account: &Account) -> (r: bool)
    ensures
        r == account@.executable,
{
    account.executable
}

/// The directory in which accounts are kept unless another is named.
pub const DEFAULT_CACHE_DIR: &'static str = ".fuzz-cache/accounts";

/// Loads accounts of a cluster into a context.
pub struct AccountCloner<'a> {
    pub ctx: &'a mut TestContext,
    /// Where the cluster is asked.
    pub rpc_url: String,
    /// Where accounts are kept.
    pub cache_dir: String,
    /// The cluster is asked even for accounts that were kept.
    pub force_refresh: bool,
    /// How many accounts of a program are taken.
    pub max_program_accounts: usize,
}

/// What loading an account came to.
#[derive(Clone, Copy, Debug)]
pub enum Loading {
    /// The account was loaded.
    Done,
    /// The account is an upgradeable program: the program data at this address has to be had first.
    NeedsData(Pubkey),
}

/// The code of a program: what is loaded in its place where something is, else its own.
pub open spec fn code_of(replacement: Option<&[u8]>, own: Seq<u8>) -> Seq<u8> {
    match replacement {
        Some(code) => code@,
        None => own,
    }
}

/// What loading an account that is no upgradeable program does.
pub open spec fn account_loaded(
    before: ContextView,
    after: ContextView,
    key: Pubkey,
    a: AccountView,
    replacement: Option<&[u8]>,
    r: Result<(), ContextError>,
) -> bool {
    if a.executable {
        program_added(before, after, key, code_of(replacement, a.data), r)
    } else {
        r is Ok && after == written(before, key, a)
    }
}

/// What loading an upgradeable program does: its bytes first, then its data, and the account that
/// names the data last.
pub open spec fn upgradeable_loaded(
    before: ContextView,
    after: ContextView,
    id: Pubkey,
    a: AccountView,
    address: Pubkey,
    data: AccountView,
    replacement: Option<&[u8]>,
    r: Result<(), ContextError>,
) -> bool {
    let elf = code_of(replacement, data.data.skip(PROGRAMDATA_HEADER_SIZE as int));
    if data.data.len() < PROGRAMDATA_HEADER_SIZE {
        r == Err::<(), ContextError>(ContextError::ProgramDataTooShort(data.data.len() as usize)) && after == before
    } else {
        exists|mid: ContextView|
            #[trigger] program_added(before, mid, id, elf, r) && after == if r is Ok {
                written(written(mid, address, data), id, a)
            } else {
                mid
            }
    }
}

impl<'a> AccountCloner<'a> {
    /// Asks the cluster at an address.
    pub fn new(ctx: &'a mut TestContext, rpc_url: &str) -> (r: AccountCloner<'a>)
        ensures
            *r.ctx == *old(ctx),
            *final(r.ctx) == *final(ctx),
            r.rpc_url@ == rpc_url@,
            r.cache_dir@ == DEFAULT_CACHE_DIR@,
            !r.force_refresh,
            r.max_program_accounts == DEFAULT_MAX_PROGRAM_ACCOUNTS,
    {
        AccountCloner {
            ctx,
            rpc_url: copy_str(rpc_url),
            cache_dir: copy_str(DEFAULT_CACHE_DIR),
            force_refresh: false,
            max_program_accounts: DEFAULT_MAX_PROGRAM_ACCOUNTS,
        }
    }

    /// Keeps accounts in another directory.
    pub fn cache_dir(self, path: &str) -> (r: AccountCloner<'a>)
        ensures
            r == (AccountCloner { cache_dir: r.cache_dir, ..self }),
            r.cache_dir@ == path@,
    {
        let mut r = self;
        r.cache_dir = copy_str(path);
        r
    }

    /// Asks the cluster even for accounts that were kept.
    pub fn force_refresh(self) -> (r: AccountCloner<'a>)
        ensures
            r == (AccountCloner { force_refresh: true, ..self }),
    {
        let mut r = self;
        r.force_refresh = true;
        r
    }

    /// Takes at most so many accounts of a program.
    pub fn max_program_accounts(self, max: usize) -> (r: AccountCloner<'a>)
        ensures
            r == (AccountCloner { max_program_accounts: max, ..self }),
    {
        let mut r = self;
        r.max_program_accounts = max;
        r
    }

    /// Where an account is kept: what is kept beside its data, and its data.
    pub fn cache_files(&self, pubkey: &Pubkey) -> (r: (String, String))
        ensures
            r.0@ == in_directory(self.cache_dir@, base58(pubkey@) + ".json"@),
            r.1@ == in_directory(self.cache_dir@, base58(pubkey@) + ".bin"@),
    {
        let mut meta = key_text(pubkey);
        meta.append(".json");
        let mut data = key_text(pubkey);
        data.append(".bin");
        (join_path(self.cache_dir.as_str(), meta.as_str()), join_path(self.cache_dir.as_str(), data.as_str()))
    }

    /// An account that was kept is used unless the cluster is asked in any case.
    pub fn accept_cached(&self, cached: Option<Account>) -> (r: Option<Account>)
        ensures
            r == if self.force_refresh { None } else { cached },
    {
        if self.force_refresh { None } else { cached }
    }

    /// Loads an account: a program, or an account as it is. The code of a program is what is given in its
    /// place, where something is. Of an upgradeable program it says where the program data stands, and
    /// loads nothing.
    pub fn load_account(&mut self, pubkey: &Pubkey, account: &Account, replacement: Option<&[u8]>) -> (r: Result<
        Loading,
        ContextError,
    >)
        ensures
            *final(self) == (AccountCloner { ctx: final(self).ctx, ..*old(self) }),
            *final(final(self).ctx) == *final(old(self).ctx),
            upgradeable(account@) ==> *final(self).ctx == *old(self).ctx && match r {
                Ok(Loading::NeedsData(k)) => account@.data.len() >= 36 && k@ == account@.data.subrange(4, 36),
                Ok(Loading::Done) => false,
                Err(e) => account@.data.len() < 36 && e == ContextError::ProgramAccountTooShort(
                    account@.data.len() as usize,
                ),
            },
            !upgradeable(account@) ==> match r {
                Ok(Loading::NeedsData(_)) => false,
                Ok(Loading::Done) => account_loaded(
                    old(self).ctx@,
                    final(self).ctx@,
                    *pubkey,
                    account@,
                    replacement,
                    Ok(()),
                ),
                Err(e) => account_loaded(old(self).ctx@, final(self).ctx@, *pubkey, account@, replacement, Err(e)),
            },
    {
        if is_upgradeable_program(account) {
            return match parse_programdata_address(account.data.as_slice()) {
                Ok(k) => Ok(Loading::NeedsData(k)),
                Err(e) => Err(e),
            };
        }
        let loaded = if account.executable {
            match replacement {
                Some(code) => self.ctx.add_program_from_bytes(pubkey, code),
                None => self.ctx.add_program_from_bytes(pubkey, account.data.as_slice()),
            }
        } else {
            self.ctx.write_account(pubkey, account.copy())
        };
        match loaded {
            Ok(_) => Ok(Loading::Done),
            Err(e) => Err(e),
        }
    }

    /// Loads an upgradeable program with its program data. Its code is what is given in its place, where
    /// something is.
    pub fn load_upgradeable_program(
        &mut self,
        program_id: &Pubkey,
        account: &Account,
        programdata_address: &Pubkey,
        programdata: &Account,
        replacement: Option<&[u8]>,
    ) -> (r: Result<(), ContextError>)
        ensures
            *final(self) == (AccountCloner { ctx: final(self).ctx, ..*old(self) }),
            *final(final(self).ctx) == *final(old(self).ctx),
            upgradeable_loaded(
                old(self).ctx@,
                final(self).ctx@,
                *program_id,
                account@,
                *programdata_address,
                programdata@,
                replacement,
                r,
            ),
    {
        let elf = match extract_elf_bytes(programdata.data.as_slice()) {
            Ok(elf) => elf,
            Err(e) => {
                return Err(e);
            },
        };
        let elf = match replacement {
            Some(code) => code,
            None => elf,
        };
        assert(elf@ == code_of(replacement, programdata@.data.skip(PROGRAMDATA_HEADER_SIZE as int)));
        let loaded = self.ctx.add_program_from_bytes(program_id, elf);
        let ghost mid = self.ctx@;
        assert(program_added(old(self).ctx@, mid, *program_id, elf@, loaded));
        if loaded.is_err() {
            return loaded;
        }
        let _ = self.ctx.write_account(programdata_address, programdata.copy());
        let _ = self.ctx.write_account(program_id, account.copy());
        loaded
    }
}

impl TestContext {
    /// Loads accounts of the cluster at an address into this context.
    pub fn clone_from_rpc<'a>(&'a mut self, rpc_url: &str) -> (r: AccountCloner<'a>)
        ensures
            *r.ctx == *old(self),
            *final(r.ctx) == *final(self),
            r.rpc_url@ == rpc_url@,
            r.cache_dir@ == DEFAULT_CACHE_DIR@,
            !r.force_refresh,
            r.max_program_accounts == DEFAULT_MAX_PROGRAM_ACCOUNTS,
    {
        AccountCloner::new(self, rpc_url)
    }
}

/// The places of the accounts that are missing, in order.
pub open spec fn missing_at(v: Seq<Option<Account>>) -> Seq<usize>
    decreases v.len(),
{
    if v.len() == 0 {
        Seq::empty()
    } else {
        let before = missing_at(v.drop_last());
        if v.last() is None { before.push((v.len() - 1) as usize) } else { before }
    }
}

/// The places of the accounts that have to be fetched.
pub fn to_fetch(cached: &Vec<Option<Account>>) -> (r: Vec<usize>)
    ensures
        r@ == missing_at(cached@),
{
    let mut r: Vec<usize> = Vec::new();
    let mut i: usize = 0;
    while i < cached.len()
        invariant
            i <= cached@.len(),
            r@ == missing_at(cached@.take(i as int)),
        decreases cached.len() - i,
    {
        assert(cached@.take(i + 1).drop_last() =~= cached@.take(i as int));
        if cached[i].is_none() {
            r.push(i);
        }
        i += 1;
    }
    assert(cached@.take(i as int) =~= cached@);
    r
}

/// Every place that is listed is one where an account is missing, and every such place is listed.
pub proof fn lemma_missing(v: Seq<Option<Account>>, i: int)
    requires
        0 <= i < v.len() <= usize::MAX,
    ensures
        missing_at(v).contains(i as usize) <==> v[i] is None,
    decreases v.len(),
{
    let before = missing_at(v.drop_last());
    lemma_missing_below(v.drop_last());
    if i < v.len() - 1 {
        lemma_missing(v.drop_last(), i);
        if v.last() is None {
            let now = missing_at(v);
            if now.contains(i as usize) {
                let j = choose|j: int| 0 <= j < now.len() && now[j] == i as usize;
                assert(before[j] == i as usize);
            }
            if before.contains(i as usize) {
                let j = choose|j: int| 0 <= j < before.len() && before[j] == i as usize;
                assert(now[j] == i as usize);
            }
        }
    } else if v.last() is None {
        assert(missing_at(v)[before.len() as int] == i as usize);
    } else if before.contains(i as usize) {
        let j = choose|j: int| 0 <= j < before.len() && before[j] == i as usize;
        assert(before[j] < v.len() - 1);
    }
}

proof fn lemma_missing_below(v: Seq<Option<Account>>)
    requires
        v.len() <= usize::MAX,
    ensures
        forall|j: int| 0 <= j < missing_at(v).len() ==> #[trigger] missing_at(v)[j] < v.len(),
    decreases v.len(),
{
    if v.len() > 0 {
        let before = missing_at(v.drop_last());
        lemma_missing_below(v.drop_last());
        assert forall|j: int| 0 <= j < missing_at(v).len() implies #[trigger] missing_at(v)[j] < v.len() by {
            if j < before.len() {
                assert(before[j] < v.len() - 1);
            }
        }
    }
}

/// The places that one request asks for.
pub open spec fn chunk_at(v: Seq<usize>, n: int) -> Seq<usize> {
    v.subrange(n * 100, if v.len() < n * 100 + 100 { v.len() as int } else { n * 100 + 100 })
}

/// Splits the places into requests of at most a hundred, in order; each but the last is full.
pub fn fetch_chunks(v: &Vec<usize>) -> (r: Vec<Vec<usize>>)
    ensures
        r@.len() == (v@.len() + 99) / 100,
        forall|n: int| 0 <= n < r@.len() ==> (#[trigger] r@[n])@ == chunk_at(v@, n),
{
    let mut r: Vec<Vec<usize>> = Vec::new();
    let mut at: usize = 0;
    while at < v.len()
        invariant
            at <= v@.len(),
            at == v@.len() ==> r@.len() == (v@.len() + 99) / 100,
            at < v@.len() ==> at == r@.len() * 100,
            forall|n: int| 0 <= n < r@.len() ==> (#[trigger] r@[n])@ == chunk_at(v@, n),
        decreases v.len() - at,
    {
        let end: usize = if v.len() - at < BATCH_CHUNK_SIZE { v.len() } else { at + BATCH_CHUNK_SIZE };
        let mut chunk: Vec<usize> = Vec::new();
        let mut i: usize = at;
        while i < end
            invariant
                at <= i <= end <= v@.len(),
                chunk@ == v@.subrange(at as int, i as int),
            decreases end - i,
        {
            chunk.push(v[i]);
            assert(v@.subrange(at as int, i + 1) =~= v@.subrange(at as int, i as int).push(v@[i as int]));
            i += 1;
        }
        let ghost count = r@.len() as int;
        r.push(chunk);
        assert(r@[count]@ == chunk_at(v@, count));
        at = end;
    }
    r
}

/// The account that the cluster gave, or that it gave none.
pub fn accept_fetched(pubkey: &Pubkey, fetched: Option<Account>) -> (r: Result<Account, ContextError>)
    ensures
        match fetched {
            Some(a) => r == Ok::<Account, ContextError>(a),
            None => r == Err::<Account, ContextError>(ContextError::NotFoundAtSource(*pubkey)),
        },
{
    match fetched {
        Some(a) => Ok(a),
        None => Err(ContextError::NotFoundAtSource(*pubkey)),
    }
}

/// A request for the accounts of a program needs a filter.
pub fn check_filters(filters: usize) -> (r: Result<(), ContextError>)
    ensures
        r == if filters == 0 { Err::<(), ContextError>(ContextError::NoFilter) } else { Ok(()) },
{
    if filters == 0 { Err(ContextError::NoFilter) } else { Ok(()) }
}

/// Not more accounts of a program are taken than are allowed.
pub fn check_program_accounts(got: usize, max: usize) -> (r: Result<(), ContextError>)
    ensures
        r == if got > max { Err::<(), ContextError>(ContextError::TooManyAccounts { got, max }) } else { Ok(()) },
{
    if got > max { Err(ContextError::TooManyAccounts { got, max }) } else { Ok(()) }
}

} // verus!
