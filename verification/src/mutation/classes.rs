//! Accounts of the same class: the same owner and the same shape.
use vstd::prelude::*;
use litesvm::LiteSVM;
use crate::ids::{is_known_sysvar, is_token_program_owner};
use crate::keyorder::{drop_repeats, sort_keys};
#[allow(unused_imports)]
use crate::keyorder::{distinct, key_sorted, lemma_distinct, lemma_key_sorted};
use crate::keys::key_text;
#[allow(unused_imports)]
use crate::keys::base58;
#[allow(unused_imports)]
use crate::mutation::effects::ConfigView;
use crate::mutation::effects::AccountMutationConfig;
#[allow(unused_imports)]
use crate::mutation::effects::Probe;
use crate::schema::{registered_discriminator, TypeTags};
#[allow(unused_imports)]
use crate::schema::{tag_of, TagsView};
use crate::svm::svm_get_account;
#[allow(unused_imports)]
use crate::svm::account_at;
use crate::text::{push_dec_usize, push_hex_bytes, same_bytes};
#[allow(unused_imports)]
use crate::text::{dec, hex_bytes};
use crate::token::{unpack_mint, unpack_token_account};
#[allow(unused_imports)]
use crate::token::{mint_shape, token_shape};
use crate::types::{copy_bytes, has_key, Account, Pubkey};
#[allow(unused_imports)]
use crate::types::AccountView;

verus! {

/// The shape of account data.
#[derive(Debug)]
pub enum AccountShape {
    SplMint,
    SplTokenAccount,
    /// A registered tag.
    Discriminator(Vec<u8>),
    /// The length of the data, where nothing else is known of it.
    DataLen(usize),
}

/// The shape of account data, as a value.
pub enum ShapeView {
    SplMint,
    SplTokenAccount,
    Discriminator(Seq<u8>),
    DataLen(usize),
}

impl View for AccountShape {
    type V = ShapeView;

    open spec fn view(&self) -> ShapeView {
        match self {
            AccountShape::SplMint => ShapeView::SplMint,
            AccountShape::SplTokenAccount => ShapeView::SplTokenAccount,
            AccountShape::Discriminator(d) => ShapeView::Discriminator(d@),
            AccountShape::DataLen(n) => ShapeView::DataLen(*n),
        }
    }
}

/// The owner and the shape of an account.
#[derive(Debug)]
pub struct AccountClass {
    pub owner: Pubkey,
    pub shape: AccountShape,
}

/// The owner and the shape of an account, as a value.
pub struct ClassView {
    pub owner: Pubkey,
    pub shape: ShapeView,
}

impl View for AccountClass {
    type V = ClassView;

    open spec fn view(&self) -> ClassView {
        ClassView { owner: self.owner, shape: self.shape@ }
    }
}

/// A class that may be missing, as a value.
pub open spec fn opt_class(c: Option<AccountClass>) -> Option<ClassView> {
    match c {
        Some(c) => Some(c@),
        None => None,
    }
}

impl AccountClass {
    /// Whether two classes are the same.
    pub fn same_as(&self, other: &AccountClass) -> (r: bool)
        ensures
            r == (self@ == other@),
    {
        let same_shape = match (&self.shape, &other.shape) {
            (AccountShape::SplMint, AccountShape::SplMint) => true,
            (AccountShape::SplTokenAccount, AccountShape::SplTokenAccount) => true,
            (AccountShape::Discriminator(a), AccountShape::Discriminator(b)) => same_bytes(a.as_slice(), b.as_slice()),
            (AccountShape::DataLen(a), AccountShape::DataLen(b)) => *a == *b,
            _ => false,
        };
        same_shape && self.owner == other.owner
    }

    /// A copy.
    pub fn copy(&self) -> (r: AccountClass)
        ensures
            r@ == self@,
    {
        let shape = match &self.shape {
            AccountShape::SplMint => AccountShape::SplMint,
            AccountShape::SplTokenAccount => AccountShape::SplTokenAccount,
            AccountShape::Discriminator(d) => AccountShape::Discriminator(copy_bytes(d.as_slice())),
            AccountShape::DataLen(n) => AccountShape::DataLen(*n),
        };
        AccountClass { owner: self.owner, shape }
    }
}

/// The shape of data that is no account of a token program.
pub open spec fn plain_shape(tags: TagsView, data: Seq<u8>) -> ShapeView {
    match tag_of(tags, data) {
        Some(d) => ShapeView::Discriminator(d),
        None => ShapeView::DataLen(data.len() as usize),
    }
}

/// The class of an account; a program and an account without data have none.
pub open spec fn classified(tags: TagsView, a: AccountView) -> Option<ClassView> {
    if a.executable || a.data.len() == 0 {
        None
    } else {
        Some(
            ClassView {
                owner: a.owner,
                shape: if crate::ids::token_owned(a.owner) && mint_shape(a.data) {
                    ShapeView::SplMint
                } else if crate::ids::token_owned(a.owner) && token_shape(a.data) {
                    ShapeView::SplTokenAccount
                } else {
                    plain_shape(tags, a.data)
                },
            },
        )
    }
}

/// The class of an account; a program and an account without data have none.
pub fn classify_account(tags: &TypeTags, account: &Account) -> (r: Option<AccountClass>)
    ensures
        opt_class(r) == classified(tags@, account@),
{
    if account.executable || account.data.len() == 0 {
        return None;
    }
    if is_token_program_owner(&account.owner) {
        if unpack_mint(account.data.as_slice()).is_some() {
            return Some(AccountClass { owner: account.owner, shape: AccountShape::SplMint });
        }
        if unpack_token_account(account.data.as_slice()).is_some() {
            return Some(AccountClass { owner: account.owner, shape: AccountShape::SplTokenAccount });
        }
    }
    let shape = match registered_discriminator(tags, account.data.as_slice()) {
        Some(d) => AccountShape::Discriminator(d),
        None => AccountShape::DataLen(account.data.len()),
    };
    Some(AccountClass { owner: account.owner, shape })
}

/// What a class is called.
pub open spec fn label(c: ClassView) -> Seq<char> {
    match c.shape {
        ShapeView::SplMint => "owner "@ + base58(c.owner@) + " spl-mint"@,
        ShapeView::SplTokenAccount => "owner "@ + base58(c.owner@) + " spl-token-account"@,
        ShapeView::Discriminator(d) => "owner "@ + base58(c.owner@) + " discriminator "@ + hex_bytes(d),
        ShapeView::DataLen(n) => "owner "@ + base58(c.owner@) + " data-len "@ + dec(n as nat),
    }
}

/// Two hexadecimal digits for each byte.
pub fn bytes_hex(bytes: &[u8]) -> (r: String)
    ensures
        r@ == hex_bytes(bytes@),
{
    let mut s = String::new();
    push_hex_bytes(&mut s, bytes);
    assert(s@ =~= hex_bytes(bytes@));
    s
}

/// What a class is called.
pub fn account_class_label(class: &AccountClass) -> (r: String)
    ensures
        r@ == label(class@),
{
    let mut s = String::from_str("owner ");
    s.append(key_text(&class.owner).as_str());
    match &class.shape {
        AccountShape::SplMint => {
            s.append(" spl-mint");
        },
        AccountShape::SplTokenAccount => {
            s.append(" spl-token-account");
        },
        AccountShape::Discriminator(d) => {
            s.append(" discriminator ");
            s.append(bytes_hex(d.as_slice()).as_str());
        },
        AccountShape::DataLen(n) => {
            s.append(" data-len ");
            push_dec_usize(&mut s, *n);
        },
    }
    s
}

/// What the classes of accounts depend on.
pub struct Scope {
    pub svm: LiteSVM,
    pub observed: Seq<Pubkey>,
    pub unverified: Seq<Pubkey>,
    pub tags: TagsView,
}

/// What the classes of accounts depend on in a probe.
pub open spec fn scope_of(p: Probe) -> Scope {
    Scope { svm: p.svm, observed: p.observed, unverified: p.unverified, tags: p.tags }
}

/// The class of the account at an address, leaving out sysvars and accounts known to be unverified.
pub open spec fn class_at(s: Scope, k: Pubkey) -> Option<ClassView> {
    if s.unverified.contains(k) || crate::ids::known_sysvar(k) {
        None
    } else {
        match account_at(s.svm, k) {
            Some(a) => classified(s.tags, a),
            None => None,
        }
    }
}

/// The addresses that have a class.
pub open spec fn with_class(s: Scope, keys: Seq<Pubkey>) -> Seq<Pubkey>
    decreases keys.len(),
{
    if keys.len() == 0 {
        Seq::empty()
    } else {
        let before = with_class(s, keys.drop_last());
        if class_at(s, keys.last()) is Some { before.push(keys.last()) } else { before }
    }
}

/// The observed accounts that have a class, in the order of their addresses.
pub open spec fn indexed(s: Scope) -> Seq<Pubkey> {
    with_class(s, key_sorted(distinct(s.observed)))
}

/// The class of an observed account.
pub open spec fn class_in(s: Scope, k: Pubkey) -> Option<ClassView> {
    if s.observed.contains(k) { class_at(s, k) } else { None }
}

/// Those of the addresses that have the class `c`.
pub open spec fn of_class(s: Scope, keys: Seq<Pubkey>, c: ClassView) -> Seq<Pubkey>
    decreases keys.len(),
{
    if keys.len() == 0 {
        Seq::empty()
    } else {
        let before = of_class(s, keys.drop_last(), c);
        if class_at(s, keys.last()) == Some(c) { before.push(keys.last()) } else { before }
    }
}

/// The observed accounts of the class of `k`, in the order of their addresses.
pub open spec fn class_members(s: Scope, k: Pubkey) -> Seq<Pubkey> {
    match class_in(s, k) {
        Some(c) => of_class(s, indexed(s), c),
        None => Seq::empty(),
    }
}

/// The addresses without `k`.
pub open spec fn without(keys: Seq<Pubkey>, k: Pubkey) -> Seq<Pubkey>
    decreases keys.len(),
{
    if keys.len() == 0 {
        Seq::empty()
    } else if keys.last() == k {
        without(keys.drop_last(), k)
    } else {
        without(keys.drop_last(), k).push(keys.last())
    }
}

/// The observed accounts that can stand in for `k`: the others of its class, in the order of their
/// addresses.
pub open spec fn replacements(s: Scope, k: Pubkey) -> Seq<Pubkey> {
    without(class_members(s, k), k)
}

/// An address with its class.
pub struct ClassEntry {
    pub key: Pubkey,
    pub class: AccountClass,
}

/// The classes of the observed accounts.
pub struct AccountClassIndex {
    pub entries: Vec<ClassEntry>,
    /// What the index was made of.
    pub scope: Ghost<Scope>,
}

/// The addresses of some entries.
pub open spec fn entry_keys(v: Seq<ClassEntry>) -> Seq<Pubkey> {
    Seq::new(v.len(), |i: int| v[i].key)
}

proof fn lemma_with_class(s: Scope, keys: Seq<Pubkey>)
    ensures
        forall|k: Pubkey| #[trigger] with_class(s, keys).contains(k) <==> keys.contains(k) && class_at(s, k) is Some,
    decreases keys.len(),
{
    if keys.len() > 0 {
        let d = keys.drop_last();
        lemma_with_class(s, d);
        let before = with_class(s, d);
        let r = with_class(s, keys);
        assert forall|k: Pubkey| #[trigger] r.contains(k) <==> keys.contains(k) && class_at(s, k) is Some by {
            if r.contains(k) {
                if before.contains(k) {
                    let i = choose|i: int| 0 <= i < d.len() && d[i] == k;
                    assert(keys[i] == k);
                } else {
                    let i = choose|i: int| 0 <= i < r.len() && r[i] == k;
                    if i < before.len() {
                        assert(before[i] == k);
                    }
                    assert(keys[keys.len() - 1] == k);
                }
            }
            if keys.contains(k) && class_at(s, k) is Some {
                let i = choose|i: int| 0 <= i < keys.len() && keys[i] == k;
                if i < d.len() {
                    assert(d[i] == k);
                    assert(before.contains(k));
                    let j = choose|j: int| 0 <= j < before.len() && before[j] == k;
                    assert(r[j] == k);
                } else {
                    assert(r[before.len() as int] == k);
                }
            }
        }
    }
}

/// The accounts with a class are those observed that have one.
pub proof fn lemma_indexed(s: Scope)
    ensures
        forall|k: Pubkey| #[trigger] indexed(s).contains(k) <==> class_in(s, k) is Some,
{
    lemma_distinct(s.observed);
    lemma_key_sorted(distinct(s.observed));
    lemma_with_class(s, key_sorted(distinct(s.observed)));
}

proof fn lemma_of_class(s: Scope, keys: Seq<Pubkey>, c: ClassView)
    ensures
        forall|k: Pubkey| #[trigger] of_class(s, keys, c).contains(k) <==> keys.contains(k) && class_at(s, k) == Some(c),
    decreases keys.len(),
{
    if keys.len() > 0 {
        let d = keys.drop_last();
        lemma_of_class(s, d, c);
        let before = of_class(s, d, c);
        let r = of_class(s, keys, c);
        assert forall|k: Pubkey| #[trigger] r.contains(k) <==> keys.contains(k) && class_at(s, k) == Some(c) by {
            if r.contains(k) {
                if before.contains(k) {
                    let i = choose|i: int| 0 <= i < d.len() && d[i] == k;
                    assert(keys[i] == k);
                } else {
                    let i = choose|i: int| 0 <= i < r.len() && r[i] == k;
                    if i < before.len() {
                        assert(before[i] == k);
                    }
                    assert(keys[keys.len() - 1] == k);
                }
            }
            if keys.contains(k) && class_at(s, k) == Some(c) {
                let i = choose|i: int| 0 <= i < keys.len() && keys[i] == k;
                if i < d.len() {
                    assert(d[i] == k);
                    assert(before.contains(k));
                    let j = choose|j: int| 0 <= j < before.len() && before[j] == k;
                    assert(r[j] == k);
                } else {
                    assert(r[before.len() as int] == k);
                }
            }
        }
    }
}

proof fn lemma_without(keys: Seq<Pubkey>, x: Pubkey)
    ensures
        forall|k: Pubkey| #[trigger] without(keys, x).contains(k) <==> keys.contains(k) && k != x,
    decreases keys.len(),
{
    if keys.len() > 0 {
        let d = keys.drop_last();
        lemma_without(d, x);
        let before = without(d, x);
        let r = without(keys, x);
        assert forall|k: Pubkey| #[trigger] r.contains(k) <==> keys.contains(k) && k != x by {
            if r.contains(k) {
                if before.contains(k) {
                    let i = choose|i: int| 0 <= i < d.len() && d[i] == k;
                    assert(keys[i] == k);
                } else {
                    let i = choose|i: int| 0 <= i < r.len() && r[i] == k;
                    if i < before.len() {
                        assert(before[i] == k);
                    }
                    assert(keys[keys.len() - 1] == k);
                }
            }
            if keys.contains(k) && k != x {
                let i = choose|i: int| 0 <= i < keys.len() && keys[i] == k;
                if i < d.len() {
                    assert(d[i] == k);
                    assert(before.contains(k));
                    let j = choose|j: int| 0 <= j < before.len() && before[j] == k;
                    assert(r[j] == k);
                } else {
                    assert(r[before.len() as int] == k);
                }
            }
        }
    }
}

/// An account stands in for another exactly where both were observed, both have the same class, and
/// they are not the same account.
pub proof fn lemma_replacements(s: Scope, k: Pubkey)
    ensures
        forall|r: Pubkey| #[trigger]
            replacements(s, k).contains(r) <==> r != k && class_in(s, k) is Some && class_in(s, r) == class_in(s, k),
{
    lemma_indexed(s);
    match class_in(s, k) {
        Some(c) => {
            lemma_of_class(s, indexed(s), c);
            lemma_without(class_members(s, k), k);
        },
        None => {
            lemma_without(class_members(s, k), k);
        },
    }
}

/// The index does not depend on the order in which accounts were observed, nor on how often.
pub proof fn lemma_index_of_set(a: Scope, b: Scope)
    requires
        a.svm == b.svm,
        a.unverified == b.unverified,
        a.tags == b.tags,
        forall|k: Pubkey| a.observed.contains(k) <==> b.observed.contains(k),
    ensures
        indexed(a) == indexed(b),
        forall|k: Pubkey| replacements(a, k) == replacements(b, k),
{
    lemma_distinct(a.observed);
    lemma_distinct(b.observed);
    let x = distinct(a.observed);
    let y = distinct(b.observed);
    lemma_key_sorted(x);
    lemma_key_sorted(y);
    assert forall|k: Pubkey| key_sorted(x).contains(k) <==> key_sorted(y).contains(k) by {
        assert(key_sorted(x).contains(k) <==> x.contains(k));
        assert(key_sorted(y).contains(k) <==> y.contains(k));
        assert(x.contains(k) <==> a.observed.contains(k));
        assert(y.contains(k) <==> b.observed.contains(k));
    }
    crate::keyorder::lemma_sorted_keys_unique(key_sorted(x), key_sorted(y));
    lemma_same_with_class(a, b, key_sorted(x));
    assert forall|k: Pubkey| replacements(a, k) == replacements(b, k) by {
        match class_in(a, k) {
            Some(c) => lemma_same_of_class(a, b, indexed(a), c),
            None => {},
        }
    }
}

proof fn lemma_same_with_class(a: Scope, b: Scope, keys: Seq<Pubkey>)
    requires
        a.svm == b.svm,
        a.unverified == b.unverified,
        a.tags == b.tags,
    ensures
        with_class(a, keys) == with_class(b, keys),
    decreases keys.len(),
{
    if keys.len() > 0 {
        lemma_same_with_class(a, b, keys.drop_last());
    }
}

proof fn lemma_same_of_class(a: Scope, b: Scope, keys: Seq<Pubkey>, c: ClassView)
    requires
        a.svm == b.svm,
        a.unverified == b.unverified,
        a.tags == b.tags,
    ensures
        of_class(a, keys, c) == of_class(b, keys, c),
    decreases keys.len(),
{
    if keys.len() > 0 {
        lemma_same_of_class(a, b, keys.drop_last(), c);
    }
}

/// The scope of some exec values.
pub open spec fn scope(svm: LiteSVM, observed: Seq<Pubkey>, config: ConfigView, tags: TagsView) -> Scope {
    Scope { svm, observed, unverified: config.unverified, tags }
}

impl AccountClassIndex {
    /// The index holds the classes of the observed accounts.
    pub open spec fn indexes(&self, s: Scope) -> bool {
        &&& entry_keys(self.entries@) == indexed(s)
        &&& forall|i: int|
            0 <= i < self.entries@.len() ==> class_at(s, (#[trigger] self.entries@[i]).key) == Some(
                self.entries@[i].class@,
            )
    }

    /// The index holds the classes of the accounts that it was made of.
    pub open spec fn well_formed(&self) -> bool {
        self.indexes(self.scope@)
    }

    /// The classes of the observed accounts.
    pub fn build(svm: &LiteSVM, observed_accounts: &Vec<Pubkey>, config: &AccountMutationConfig, tags: &TypeTags) -> (r:
        AccountClassIndex)
        ensures
            r.well_formed(),
            r.scope@ == scope(*svm, observed_accounts@, config@, tags@),
    {
        let ghost s = scope(*svm, observed_accounts@, config@, tags@);
        let keys = sort_keys(&drop_repeats(observed_accounts));
        let mut entries: Vec<ClassEntry> = Vec::new();
        let mut i: usize = 0;
        assert(entry_keys(entries@) =~= with_class(s, keys@.take(0)));
        while i < keys.len()
            invariant
                i <= keys@.len(),
                s == scope(*svm, observed_accounts@, config@, tags@),
                entry_keys(entries@) == with_class(s, keys@.take(i as int)),
                forall|j: int|
                    0 <= j < entries@.len() ==> class_at(s, (#[trigger] entries@[j]).key) == Some(entries@[j].class@),
            decreases keys.len() - i,
        {
            let k = keys[i];
            assert(keys@.take(i + 1).drop_last() =~= keys@.take(i as int));
            if !has_key(&config.unverified_accounts, &k) && !is_known_sysvar(&k) {
                match svm_get_account(svm, &k) {
                    Some(account) => {
                        match classify_account(tags, &account) {
                            Some(class) => {
                                let ghost before = entry_keys(entries@);
                                entries.push(ClassEntry { key: k, class });
                                assert(entry_keys(entries@) =~= before.push(k));
                            },
                            None => {},
                        }
                    },
                    None => {},
                }
            }
            i += 1;
        }
        assert(keys@.take(i as int) =~= keys@);
        AccountClassIndex { entries, scope: Ghost(s) }
    }

    /// The class of an observed account.
    pub fn class_of(&self, pubkey: &Pubkey) -> (r: Option<&AccountClass>)
        requires
            self.well_formed(),
        ensures
            match r {
                Some(c) => class_in(self.scope@, *pubkey) == Some(c@),
                None => class_in(self.scope@, *pubkey) is None,
            },
    {
        proof {
            lemma_indexed(self.scope@);
        }
        let mut i: usize = 0;
        while i < self.entries.len()
            invariant
                i <= self.entries@.len(),
                self.indexes(self.scope@),
                forall|k: Pubkey| #[trigger] indexed(self.scope@).contains(k) <==> class_in(self.scope@, k) is Some,
                forall|j: int| 0 <= j < i ==> (#[trigger] self.entries@[j]).key != *pubkey,
            decreases self.entries.len() - i,
        {
            if self.entries[i].key == *pubkey {
                proof {
                    assert(entry_keys(self.entries@)[i as int] == *pubkey);
                    assert(indexed(self.scope@).contains(*pubkey));
                }
                return Some(&self.entries[i].class);
            }
            i += 1;
        }
        proof {
            if indexed(self.scope@).contains(*pubkey) {
                let j = choose|j: int| 0 <= j < indexed(self.scope@).len() && indexed(self.scope@)[j] == *pubkey;
                assert(entry_keys(self.entries@)[j] == self.entries@[j].key);
            }
        }
        None
    }

    /// How many observed accounts have the class of this one.
    pub fn class_count(&self, pubkey: &Pubkey) -> (r: usize)
        requires
            self.well_formed(),
        ensures
            r == class_members(self.scope@, *pubkey).len(),
    {
        match self.class_of(pubkey) {
            None => 0,
            Some(class) => self.list_members(class).len(),
        }
    }

    fn list_members(&self, class: &AccountClass) -> (r: Vec<Pubkey>)
        requires
            self.well_formed(),
        ensures
            r@ == of_class(self.scope@, indexed(self.scope@), class@),
    {
        let ghost keys = indexed(self.scope@);
        let mut r: Vec<Pubkey> = Vec::new();
        let mut i: usize = 0;
        while i < self.entries.len()
            invariant
                i <= self.entries@.len(),
                self.indexes(self.scope@),
                keys == indexed(self.scope@),
                keys == entry_keys(self.entries@),
                r@ == of_class(self.scope@, keys.take(i as int), class@),
            decreases self.entries.len() - i,
        {
            assert(keys.take(i + 1).drop_last() =~= keys.take(i as int));
            assert(keys.take(i + 1).last() == self.entries@[i as int].key);
            if self.entries[i].class.same_as(class) {
                r.push(self.entries[i].key);
            }
            i += 1;
        }
        assert(keys.take(i as int) =~= keys);
        r
    }

    /// What the class of an account is called.
    pub fn class_label(&self, pubkey: &Pubkey) -> (r: String)
        requires
            self.well_formed(),
        ensures
            r@ == class_text(self.scope@, *pubkey),
    {
        match self.class_of(pubkey) {
            Some(class) => account_class_label(class),
            None => String::from_str("unknown"),
        }
    }

    /// The observed accounts that can stand in for this one.
    pub fn same_class_replacements(&self, pubkey: &Pubkey) -> (r: Vec<Pubkey>)
        requires
            self.well_formed(),
        ensures
            r@ == replacements(self.scope@, *pubkey),
    {
        let members = match self.class_of(pubkey) {
            Some(class) => self.list_members(class),
            None => Vec::new(),
        };
        assert(members@ == class_members(self.scope@, *pubkey));
        let mut r: Vec<Pubkey> = Vec::new();
        let mut i: usize = 0;
        while i < members.len()
            invariant
                i <= members@.len(),
                r@ == without(members@.take(i as int), *pubkey),
            decreases members.len() - i,
        {
            assert(members@.take(i + 1).drop_last() =~= members@.take(i as int));
            if !(members[i] == *pubkey) {
                r.push(members[i]);
            }
            i += 1;
        }
        assert(members@.take(i as int) =~= members@);
        r
    }
}

/// What the class of an account is called.
pub open spec fn class_text(s: Scope, k: Pubkey) -> Seq<char> {
    match class_in(s, k) {
        Some(c) => label(c),
        None => "unknown"@,
    }
}

} // verus!
