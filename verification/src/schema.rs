//! The registry of account types: the tags that account data begins with, and how to compare two
//! states of an account.
use vstd::prelude::*;
use crate::number::parse_usize;
use crate::text::chars_of;
use crate::types::copy_bytes;

verus! {

/// One type of account. `D` compares two states of such an account field by field.
pub struct AccountSchema<D> {
    /// The name of the type.
    pub name: String,
    /// The bytes that the data of such an account begins with.
    pub discriminator: Vec<u8>,
    /// How two states of such an account are compared.
    pub diff_fn: D,
}

/// The byte strings of a list.
pub open spec fn byte_lists(v: Seq<Vec<u8>>) -> Seq<Seq<u8>> {
    Seq::new(v.len(), |i: int| v[i]@)
}

/// Some byte strings, where there are any.
pub open spec fn opt_byte_lists(v: Option<Vec<Vec<u8>>>) -> Option<Seq<Seq<u8>>> {
    match v {
        Some(v) => Some(byte_lists(v@)),
        None => None,
    }
}

/// The tags that account data is recognised by.
pub struct TypeTags {
    /// The tag of every type of account.
    pub accounts: Option<Vec<Vec<u8>>>,
    /// The tags of the types that can be compared.
    pub schemas: Option<Vec<Vec<u8>>>,
    /// How long a tag is taken to be where no type is registered at all.
    pub fallback: Option<usize>,
}

/// The tags that account data is recognised by, as a value.
pub struct TagsView {
    pub accounts: Option<Seq<Seq<u8>>>,
    pub schemas: Option<Seq<Seq<u8>>>,
    pub fallback: Option<usize>,
}

impl View for TypeTags {
    type V = TagsView;

    open spec fn view(&self) -> TagsView {
        TagsView {
            accounts: opt_byte_lists(self.accounts),
            schemas: opt_byte_lists(self.schemas),
            fallback: self.fallback,
        }
    }
}

/// What is registered of the account types.
pub struct SchemaRegistry<D> {
    pub schemas: Option<Vec<AccountSchema<D>>>,
    pub tags: TypeTags,
}

/// The tags of some types.
pub open spec fn schema_tags<D>(v: Seq<AccountSchema<D>>) -> Seq<Seq<u8>> {
    Seq::new(v.len(), |i: int| v[i].discriminator@)
}

impl<D> SchemaRegistry<D> {
    /// The tags of the types that can be compared are those of the registered types.
    pub open spec fn well_formed(&self) -> bool {
        self.tags@.schemas == match self.schemas {
            Some(v) => Some(schema_tags(v@)),
            None => None,
        }
    }

    /// A registry without any type. `type_tag_len` is the setting for the length of a tag.
    pub fn new(type_tag_len: Option<&str>) -> (r: SchemaRegistry<D>)
        ensures
            r.well_formed(),
            r.schemas is None,
            r.tags@ == (TagsView { accounts: None, schemas: None, fallback: fallback_setting(opt_text(type_tag_len)) }),
    {
        SchemaRegistry {
            schemas: None,
            tags: TypeTags { accounts: None, schemas: None, fallback: fallback_tag_len(type_tag_len) },
        }
    }
}

/// A text that may be missing.
pub open spec fn opt_text(s: Option<&str>) -> Option<Seq<char>> {
    match s {
        Some(s) => Some(s@),
        None => None,
    }
}

/// How long a tag is taken to be where nothing is set.
pub const DEFAULT_TYPE_TAG_LEN: usize = 8;

/// The text is `off`, in small or capital letters.
pub open spec fn says_off(s: Seq<char>) -> bool {
    s.len() == 3 && (s[0] == 'o' || s[0] == 'O') && (s[1] == 'f' || s[1] == 'F') && (s[2] == 'f' || s[2] == 'F')
}

/// How long a tag is taken to be for a setting: the number that it gives, or the default; nothing
/// where it is off.
pub open spec fn fallback_setting(setting: Option<Seq<char>>) -> Option<usize> {
    match setting {
        None => Some(DEFAULT_TYPE_TAG_LEN),
        Some(s) => if says_off(s) {
            None
        } else {
            match crate::number::at_most(crate::number::unsigned_value(s), usize::MAX as int) {
                Some(n) => if n == 0 { None } else { Some(n as usize) },
                None => Some(DEFAULT_TYPE_TAG_LEN),
            }
        },
    }
}

/// How long a tag is taken to be where no type is registered at all.
pub fn fallback_tag_len(setting: Option<&str>) -> (r: Option<usize>)
    ensures
        r == fallback_setting(opt_text(setting)),
{
    match setting {
        None => Some(DEFAULT_TYPE_TAG_LEN),
        Some(s) => {
            let c = chars_of(s);
            if c.len() == 3 && (c[0] == 'o' || c[0] == 'O') && (c[1] == 'f' || c[1] == 'F') && (c[2] == 'f' || c[2] == 'F') {
                return None;
            }
            match parse_usize(s) {
                Some(n) => if n == 0 {
                    None
                } else {
                    Some(n)
                },
                None => Some(DEFAULT_TYPE_TAG_LEN),
            }
        },
    }
}

/// The data begins with `tag`.
pub open spec fn tagged(data: Seq<u8>, tag: Seq<u8>) -> bool {
    tag.len() <= data.len() && data.take(tag.len() as int) == tag
}

/// The length of the longest of the tags that the data begins with; the empty tag does not count.
pub open spec fn longest_tag(tags: Seq<Seq<u8>>, data: Seq<u8>) -> Option<usize>
    decreases tags.len(),
{
    if tags.len() == 0 {
        None
    } else {
        let before = longest_tag(tags.drop_last(), data);
        let tag = tags.last();
        if tag.len() > 0 && tagged(data, tag) && (before is None || before->0 < tag.len()) {
            Some(tag.len() as usize)
        } else {
            before
        }
    }
}

/// The longest tag is one of the tags that fit, and no longer one fits; where there is none, none fits.
pub proof fn lemma_longest_tag(tags: Seq<Seq<u8>>, data: Seq<u8>)
    requires
        data.len() <= usize::MAX,
    ensures
        match longest_tag(tags, data) {
            Some(n) => {
                &&& exists|i: int| 0 <= i < tags.len() && tagged(data, #[trigger] tags[i]) && tags[i].len() == n
                &&& 0 < n <= data.len()
                &&& forall|i: int| 0 <= i < tags.len() && tagged(data, #[trigger] tags[i]) ==> tags[i].len() <= n
            },
            None => forall|i: int| 0 <= i < tags.len() && tagged(data, #[trigger] tags[i]) ==> tags[i].len() == 0,
        },
    decreases tags.len(),
{
    if tags.len() > 0 {
        let d = tags.drop_last();
        lemma_longest_tag(d, data);
        assert forall|i: int| 0 <= i < tags.len() && i != tags.len() - 1 implies tags[i] == #[trigger] d[i] by {}
        match longest_tag(d, data) {
            Some(n) => {
                let i = choose|i: int| 0 <= i < d.len() && tagged(data, #[trigger] d[i]) && d[i].len() == n;
                assert(tags[i] == d[i]);
            },
            None => {},
        }
        assert forall|i: int| 0 <= i < d.len() implies tags[i] == d[i] by {}
        assert(tags[tags.len() - 1] == tags.last());
        match longest_tag(tags, data) {
            Some(n) => {
                assert forall|i: int| 0 <= i < tags.len() && tagged(data, #[trigger] tags[i]) implies tags[i].len() <= n by {
                    if i < d.len() {
                        assert(tagged(data, d[i]));
                    }
                }
            },
            None => {
                assert forall|i: int| 0 <= i < tags.len() && tagged(data, #[trigger] tags[i]) implies tags[i].len() == 0 by {
                    if i < d.len() {
                        assert(tagged(data, d[i]));
                    }
                }
            },
        }
    }
}

/// Whether the data begins with a tag.
pub fn has_tag(data: &[u8], tag: &[u8]) -> (r: bool)
    ensures
        r == tagged(data@, tag@),
{
    if tag.len() > data.len() {
        return false;
    }
    let mut i: usize = 0;
    while i < tag.len()
        invariant
            i <= tag@.len() <= data@.len(),
            forall|j: int| 0 <= j < i ==> data@[j] == tag@[j],
        decreases tag.len() - i,
    {
        if data[i] != tag[i] {
            assert(data@.take(tag@.len() as int)[i as int] != tag@[i as int]);
            return false;
        }
        i += 1;
    }
    assert(data@.take(tag@.len() as int) =~= tag@);
    true
}

/// The length of the longest of the tags that the data begins with.
pub fn match_len(discriminators: &Vec<Vec<u8>>, data: &[u8]) -> (r: Option<usize>)
    ensures
        r == longest_tag(byte_lists(discriminators@), data@),
{
    let ghost tags = byte_lists(discriminators@);
    let mut best: Option<usize> = None;
    let mut i: usize = 0;
    while i < discriminators.len()
        invariant
            i <= discriminators@.len(),
            tags == byte_lists(discriminators@),
            best == longest_tag(tags.take(i as int), data@),
        decreases discriminators.len() - i,
    {
        assert(tags.take(i + 1).drop_last() =~= tags.take(i as int));
        assert(tags.take(i + 1).last() == discriminators@[i as int]@);
        let tag = discriminators[i].as_slice();
        if tag.len() > 0 && has_tag(data, tag) {
            let longer = match best {
                Some(n) => n < tag.len(),
                None => true,
            };
            if longer {
                best = Some(tag.len());
            }
        }
        i += 1;
    }
    assert(tags.take(i as int) =~= tags);
    best
}

/// The longest tag of some types, where any are registered.
pub open spec fn registered_tag(tags: Option<Seq<Seq<u8>>>, data: Seq<u8>) -> Option<usize> {
    match tags {
        Some(t) => longest_tag(t, data),
        None => None,
    }
}

/// Some type is registered.
pub open spec fn any_type(tags: Option<Seq<Seq<u8>>>) -> bool {
    tags is Some && tags->0.len() > 0
}

/// The length of the tag of account data: that of the longest registered tag, the tags of all types
/// first; where no type is registered at all, the length that tags are taken to have.
pub open spec fn tag_len(tags: TagsView, data: Seq<u8>) -> Option<usize> {
    if registered_tag(tags.accounts, data) is Some {
        registered_tag(tags.accounts, data)
    } else if registered_tag(tags.schemas, data) is Some {
        registered_tag(tags.schemas, data)
    } else if any_type(tags.accounts) || any_type(tags.schemas) {
        None
    } else {
        match tags.fallback {
            Some(n) => if 0 < n <= data.len() { Some(n) } else { None },
            None => None,
        }
    }
}

/// A tag is never empty, and the data holds all of it.
pub proof fn lemma_tag_len(tags: TagsView, data: Seq<u8>)
    requires
        data.len() <= usize::MAX,
    ensures
        tag_len(tags, data) is Some ==> 0 < tag_len(tags, data)->0 <= data.len(),
{
    match tags.accounts {
        Some(t) => lemma_longest_tag(t, data),
        None => {},
    }
    match tags.schemas {
        Some(t) => lemma_longest_tag(t, data),
        None => {},
    }
}

/// The length of the tag of account data.
pub fn lookup_discriminator_len(tags: &TypeTags, data: &[u8]) -> (r: Option<usize>)
    ensures
        r == tag_len(tags@, data@),
        r is Some ==> 0 < r->0 <= data@.len(),
{
    proof {
        assert(data@.len() == data.len());
        lemma_tag_len(tags@, data@);
    }
    let mut saw_registry: bool = false;
    match &tags.accounts {
        Some(discs) => {
            saw_registry = discs.len() > 0;
            let n = match_len(discs, data);
            if n.is_some() {
                return n;
            }
        },
        None => {},
    }
    match &tags.schemas {
        Some(discs) => {
            saw_registry = saw_registry || discs.len() > 0;
            let n = match_len(discs, data);
            if n.is_some() {
                return n;
            }
        },
        None => {},
    }
    if saw_registry {
        return None;
    }
    match tags.fallback {
        Some(n) => if n > 0 && data.len() >= n {
            Some(n)
        } else {
            None
        },
        None => None,
    }
}

/// The tag of account data.
pub open spec fn tag_of(tags: TagsView, data: Seq<u8>) -> Option<Seq<u8>> {
    match tag_len(tags, data) {
        Some(n) => Some(data.take(n as int)),
        None => None,
    }
}

/// Some bytes, where there are any.
pub open spec fn opt_bytes(v: Option<Vec<u8>>) -> Option<Seq<u8>> {
    match v {
        Some(v) => Some(v@),
        None => None,
    }
}

/// The first bytes.
pub fn first_bytes(data: &[u8], n: usize) -> (r: Vec<u8>)
    requires
        n <= data@.len(),
    ensures
        r@ == data@.take(n as int),
{
    let mut r: Vec<u8> = Vec::new();
    let mut i: usize = 0;
    while i < n
        invariant
            i <= n <= data@.len(),
            r@ == data@.take(i as int),
        decreases n - i,
    {
        r.push(data[i]);
        assert(data@.take(i + 1) =~= data@.take(i as int).push(data@[i as int]));
        i += 1;
    }
    r
}

/// The tag of account data.
pub fn registered_discriminator(tags: &TypeTags, data: &[u8]) -> (r: Option<Vec<u8>>)
    ensures
        opt_bytes(r) == tag_of(tags@, data@),
{
    match lookup_discriminator_len(tags, data) {
        Some(n) => Some(first_bytes(data, n)),
        None => None,
    }
}

fn copy_tags<D>(schemas: &Vec<AccountSchema<D>>) -> (r: Vec<Vec<u8>>)
    ensures
        byte_lists(r@) == schema_tags(schemas@),
{
    let mut r: Vec<Vec<u8>> = Vec::new();
    let mut i: usize = 0;
    while i < schemas.len()
        invariant
            i <= schemas@.len(),
            r@.len() == i,
            forall|j: int| 0 <= j < i ==> (#[trigger] r@[j])@ == schemas@[j].discriminator@,
        decreases schemas.len() - i,
    {
        r.push(copy_bytes(schemas[i].discriminator.as_slice()));
        i += 1;
    }
    assert(byte_lists(r@) =~= schema_tags(schemas@));
    r
}

/// Registers the tag of every type. Only the first call counts.
pub fn register_account_discriminators<D>(registry: &mut SchemaRegistry<D>, discriminators: Vec<Vec<u8>>)
    requires
        old(registry).well_formed(),
    ensures
        final(registry).well_formed(),
        final(registry).schemas == old(registry).schemas,
        final(registry).tags@ == (TagsView {
            accounts: if old(registry).tags@.accounts is Some {
                old(registry).tags@.accounts
            } else {
                Some(byte_lists(discriminators@))
            },
            ..old(registry).tags@
        }),
{
    if registry.tags.accounts.is_none() {
        registry.tags.accounts = Some(discriminators);
    }
}

/// Registers the types that can be compared. Only the first call counts.
pub fn register_account_schemas<D>(registry: &mut SchemaRegistry<D>, schemas: Vec<AccountSchema<D>>)
    requires
        old(registry).well_formed(),
    ensures
        final(registry).well_formed(),
        final(registry).schemas == if old(registry).schemas is Some { old(registry).schemas } else { Some(schemas) },
        final(registry).tags@.accounts == old(registry).tags@.accounts,
        final(registry).tags@.fallback == old(registry).tags@.fallback,
{
    if registry.schemas.is_none() {
        registry.tags.schemas = Some(copy_tags(&schemas));
        registry.schemas = Some(schemas);
    }
}

/// The position of the first type whose tag the data begins with.
pub open spec fn first_match<D>(schemas: Seq<AccountSchema<D>>, data: Seq<u8>) -> Option<int>
    decreases schemas.len(),
{
    if schemas.len() == 0 {
        None
    } else if first_match(schemas.drop_last(), data) is Some {
        first_match(schemas.drop_last(), data)
    } else if tagged(data, schemas.last().discriminator@) {
        Some(schemas.len() - 1)
    } else {
        None
    }
}

/// The type of account data.
pub open spec fn schema_of<D>(registry: SchemaRegistry<D>, data: Seq<u8>) -> Option<AccountSchema<D>> {
    match registry.schemas {
        Some(v) => match first_match(v@, data) {
            Some(i) => Some(v@[i]),
            None => None,
        },
        None => None,
    }
}

fn find_schema<'a, D>(registry: &'a SchemaRegistry<D>, data: &[u8]) -> (r: Option<&'a AccountSchema<D>>)
    ensures
        match r {
            Some(s) => schema_of(*registry, data@) == Some(*s),
            None => schema_of(*registry, data@) is None,
        },
{
    match &registry.schemas {
        None => None,
        Some(schemas) => {
            let mut i: usize = 0;
            while i < schemas.len()
                invariant
                    i <= schemas@.len(),
                    registry.schemas == Some(*schemas),
                    first_match(schemas@.take(i as int), data@) is None,
                decreases schemas.len() - i,
            {
                assert(schemas@.take(i + 1).drop_last() =~= schemas@.take(i as int));
                if has_tag(data, schemas[i].discriminator.as_slice()) {
                    proof {
                        lemma_first_match(schemas@, data@, i as int);
                    }
                    return Some(&schemas[i]);
                }
                i += 1;
            }
            assert(schemas@.take(i as int) =~= schemas@);
            None
        },
    }
}

proof fn lemma_first_match<D>(schemas: Seq<AccountSchema<D>>, data: Seq<u8>, i: int)
    requires
        0 <= i < schemas.len(),
        first_match(schemas.take(i), data) is None,
        tagged(data, schemas[i].discriminator@),
    ensures
        first_match(schemas, data) == Some(i),
    decreases schemas.len(),
{
    if i == schemas.len() - 1 {
        assert(schemas.take(i) =~= schemas.drop_last());
    } else {
        assert(schemas.drop_last().take(i) =~= schemas.take(i));
        lemma_first_match(schemas.drop_last(), data, i);
    }
}

/// How two states of the account are compared: as the first type says whose tag the data begins with.
pub fn lookup_diff_fn<'a, D>(registry: &'a SchemaRegistry<D>, data: &[u8]) -> (r: Option<&'a D>)
    ensures
        match r {
            Some(d) => schema_of(*registry, data@) is Some && *d == schema_of(*registry, data@)->0.diff_fn,
            None => schema_of(*registry, data@) is None,
        },
{
    match find_schema(registry, data) {
        Some(s) => Some(&s.diff_fn),
        None => None,
    }
}

/// The name of the first type whose tag the data begins with.
pub fn lookup_type_name<'a, D>(registry: &'a SchemaRegistry<D>, data: &[u8]) -> (r: Option<&'a str>)
    ensures
        match r {
            Some(n) => schema_of(*registry, data@) is Some && n@ == schema_of(*registry, data@)->0.name@,
            None => schema_of(*registry, data@) is None,
        },
{
    match find_schema(registry, data) {
        Some(s) => Some(s.name.as_str()),
        None => None,
    }
}

/// Whether any type is registered that can be compared.
pub fn has_schemas<D>(registry: &SchemaRegistry<D>) -> (r: bool)
    ensures
        r == (registry.schemas is Some && registry.schemas->0@.len() > 0),
{
    match &registry.schemas {
        Some(v) => v.len() > 0,
        None => false,
    }
}

} // verus!
