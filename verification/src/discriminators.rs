//! The registry of instructions: their names, by the tag that their data begins with.
use vstd::prelude::*;
use crate::text::same_bytes;
use crate::types::copy_bytes;

verus! {

/// The name and the tag of an instruction.
pub struct NamedInstruction {
    pub name: String,
    pub discriminator: Vec<u8>,
}

/// The name and the tag of an instruction, as a value.
pub struct NamedView {
    pub name: Seq<char>,
    pub discriminator: Seq<u8>,
}

impl View for NamedInstruction {
    type V = NamedView;

    open spec fn view(&self) -> NamedView {
        NamedView { name: self.name@, discriminator: self.discriminator@ }
    }
}

/// Some instructions, as values.
pub open spec fn named_views(v: Seq<NamedInstruction>) -> Seq<NamedView> {
    Seq::new(v.len(), |i: int| v[i]@)
}

/// What is registered of the instructions: how long a tag is, and the names.
pub struct InstructionTable {
    pub disc_len: usize,
    pub entries: Vec<NamedInstruction>,
}

/// The registry of instructions.
pub struct InstructionRegistry {
    pub table: Option<InstructionTable>,
}

/// The name that belongs to a tag: the last that was given.
pub open spec fn name_of(s: Seq<NamedView>, disc: Seq<u8>) -> Option<Seq<char>>
    decreases s.len(),
{
    if s.len() == 0 {
        None
    } else if s.last().discriminator == disc {
        Some(s.last().name)
    } else {
        name_of(s.drop_last(), disc)
    }
}

/// No tag comes twice.
pub open spec fn distinct_tags(s: Seq<NamedView>) -> bool {
    forall|i: int, j: int| 0 <= i < j < s.len() ==> (#[trigger] s[i]).discriminator != (#[trigger] s[j]).discriminator
}

impl InstructionRegistry {
    /// No tag is registered twice.
    pub open spec fn well_formed(&self) -> bool {
        self.table is Some ==> distinct_tags(named_views(self.table->0.entries@))
    }

    /// Nothing is registered.
    pub fn new() -> (r: InstructionRegistry)
        ensures
            r.table is None,
            r.well_formed(),
    {
        InstructionRegistry { table: None }
    }
}

proof fn lemma_update(s: Seq<NamedView>, p: int, n: NamedView, d: Seq<u8>)
    requires
        distinct_tags(s),
        0 <= p < s.len(),
        s[p].discriminator == n.discriminator,
    ensures
        name_of(s.update(p, n), d) == if d == n.discriminator { Some(n.name) } else { name_of(s, d) },
    decreases s.len(),
{
    let t = s.update(p, n);
    if p == s.len() - 1 {
        assert(t.drop_last() =~= s.drop_last());
    } else {
        assert(t.drop_last() =~= s.drop_last().update(p, n));
        lemma_update(s.drop_last(), p, n, d);
        assert(s[p].discriminator != s[s.len() - 1].discriminator);
    }
}

fn put_name(entries: &mut Vec<NamedInstruction>, n: NamedInstruction)
    requires
        distinct_tags(named_views(old(entries)@)),
    ensures
        distinct_tags(named_views(final(entries)@)),
        forall|d: Seq<u8>| #[trigger]
            name_of(named_views(final(entries)@), d) == if d == n@.discriminator {
                Some(n@.name)
            } else {
                name_of(named_views(old(entries)@), d)
            },
{
    let ghost s = named_views(entries@);
    let ghost nv = n@;
    assert(s.len() == entries@.len());
    let mut i: usize = 0;
    while i < entries.len()
        invariant
            i <= entries@.len(),
            entries@ == old(entries)@,
            s == named_views(entries@),
            s.len() == entries@.len(),
            nv == n@,
            distinct_tags(s),
            forall|j: int| 0 <= j < i ==> (#[trigger] s[j]).discriminator != nv.discriminator,
        decreases entries.len() - i,
    {
        assert(s[i as int] == entries@[i as int]@);
        if same_bytes(entries[i].discriminator.as_slice(), n.discriminator.as_slice()) {
            let ghost after = entries@.update(i as int, n);
            proof {
                assert(named_views(after) =~= s.update(i as int, nv));
                assert forall|d: Seq<u8>| #[trigger]
                    name_of(named_views(after), d) == if d == nv.discriminator { Some(nv.name) } else { name_of(s, d) } by {
                    lemma_update(s, i as int, nv, d);
                }
            }
            entries.set(i, n);
            return;
        }
        i += 1;
    }
    proof {
        assert(named_views(entries@.push(n)) =~= s.push(nv));
        assert(s.push(nv).drop_last() =~= s);
    }
    entries.push(n);
}

/// How long the tags of a list are: as long as the first one, or eight where there is none.
pub open spec fn list_tag_len(s: Seq<NamedView>) -> int {
    if s.len() == 0 { 8 } else { s[0].discriminator.len() as int }
}

/// Registers the names of instructions. Only the first call counts; of two instructions with the same
/// tag the later one.
pub fn register_instruction_discriminators(registry: &mut InstructionRegistry, discriminators: &[(&str, Vec<u8>)])
    requires
        old(registry).well_formed(),
    ensures
        final(registry).well_formed(),
        old(registry).table is Some ==> *final(registry) == *old(registry),
        old(registry).table is None ==> final(registry).table is Some && final(registry).table->0.disc_len
            == list_tag_len(given(discriminators@)) && forall|d: Seq<u8>| #[trigger]
            name_of(named_views(final(registry).table->0.entries@), d) == name_of(given(discriminators@), d),
{
    if registry.table.is_some() {
        return;
    }
    let ghost all = given(discriminators@);
    assert(all.len() == discriminators@.len());
    let disc_len: usize = if discriminators.len() == 0 {
        8
    } else {
        discriminators[0].1.len()
    };
    let mut entries: Vec<NamedInstruction> = Vec::new();
    let mut i: usize = 0;
    assert(named_views(entries@) =~= Seq::<NamedView>::empty());
    while i < discriminators.len()
        invariant
            i <= discriminators@.len(),
            all == given(discriminators@),
            distinct_tags(named_views(entries@)),
            forall|d: Seq<u8>| #[trigger] name_of(named_views(entries@), d) == name_of(all.take(i as int), d),
        decreases discriminators.len() - i,
    {
        let n = NamedInstruction {
            name: crate::text::copy_str(discriminators[i].0),
            discriminator: copy_bytes(discriminators[i].1.as_slice()),
        };
        let ghost before = named_views(entries@);
        proof {
            assert(all.take(i + 1).drop_last() =~= all.take(i as int));
            assert(all.take(i + 1).last() == n@);
        }
        put_name(&mut entries, n);
        proof {
            assert forall|d: Seq<u8>| #[trigger] name_of(named_views(entries@), d) == name_of(all.take(i + 1), d) by {
                assert(name_of(before, d) == name_of(all.take(i as int), d));
            }
        }
        i += 1;
    }
    assert(all.take(i as int) =~= all);
    registry.table = Some(InstructionTable { disc_len, entries });
}

/// The names and tags that were given.
pub open spec fn given(v: Seq<(&str, Vec<u8>)>) -> Seq<NamedView> {
    Seq::new(v.len(), |i: int| NamedView { name: v[i].0@, discriminator: v[i].1@ })
}

/// The name of the instruction whose data this is: that of the tag that the data begins with.
pub open spec fn instruction_name(table: Option<InstructionTable>, data: Seq<u8>) -> Option<Seq<char>> {
    match table {
        Some(t) => if data.len() < t.disc_len {
            None
        } else {
            name_of(named_views(t.entries@), data.take(t.disc_len as int))
        },
        None => None,
    }
}

/// A text that may be missing.
pub open spec fn opt_string(s: Option<String>) -> Option<Seq<char>> {
    match s {
        Some(s) => Some(s@),
        None => None,
    }
}

proof fn lemma_name_at(s: Seq<NamedView>, d: Seq<u8>, i: int)
    requires
        distinct_tags(s),
        0 <= i < s.len(),
        s[i].discriminator == d,
    ensures
        name_of(s, d) == Some(s[i].name),
    decreases s.len(),
{
    if i < s.len() - 1 {
        assert(s[i].discriminator != s[s.len() - 1].discriminator);
        lemma_name_at(s.drop_last(), d, i);
    }
}

proof fn lemma_no_name(s: Seq<NamedView>, d: Seq<u8>)
    requires
        forall|i: int| 0 <= i < s.len() ==> (#[trigger] s[i]).discriminator != d,
    ensures
        name_of(s, d) is None,
    decreases s.len(),
{
    if s.len() > 0 {
        assert(s[s.len() - 1].discriminator != d);
        lemma_no_name(s.drop_last(), d);
    }
}

/// The data of an instruction whose name was registered gives that name, whatever its arguments are,
/// where all tags are of one length and none comes twice.
pub proof fn lemma_registered(s: Seq<NamedView>, t: InstructionTable, i: int, arguments: Seq<u8>)
    requires
        distinct_tags(s),
        0 <= i < s.len(),
        t.disc_len == list_tag_len(s),
        forall|d: Seq<u8>| #[trigger] name_of(named_views(t.entries@), d) == name_of(s, d),
        s[i].discriminator.len() == s[0].discriminator.len(),
    ensures
        instruction_name(Some(t), s[i].discriminator + arguments) == Some(s[i].name),
{
    let data = s[i].discriminator + arguments;
    assert(data.take(t.disc_len as int) =~= s[i].discriminator);
    lemma_name_at(s, s[i].discriminator, i);
}

/// The name of the instruction whose data this is.
pub fn lookup_instruction_by_discriminator(registry: &InstructionRegistry, instruction_data: &[u8]) -> (r: Option<String>)
    requires
        registry.well_formed(),
    ensures
        opt_string(r) == instruction_name(registry.table, instruction_data@),
{
    match &registry.table {
        None => None,
        Some(t) => {
            if instruction_data.len() < t.disc_len {
                return None;
            }
            let disc = crate::schema::first_bytes(instruction_data, t.disc_len);
            let ghost s = named_views(t.entries@);
            let mut i: usize = 0;
            while i < t.entries.len()
                invariant
                    i <= t.entries@.len(),
                    registry.table == Some(*t),
                    registry.well_formed(),
                    s == named_views(t.entries@),
                    t.disc_len <= instruction_data@.len(),
                    disc@ == instruction_data@.take(t.disc_len as int),
                    forall|j: int| 0 <= j < i ==> (#[trigger] s[j]).discriminator != disc@,
                decreases t.entries.len() - i,
            {
                assert(s[i as int] == t.entries@[i as int]@);
                if same_bytes(t.entries[i].discriminator.as_slice(), disc.as_slice()) {
                    proof {
                        lemma_name_at(s, disc@, i as int);
                    }
                    return Some(t.entries[i].name.clone());
                }
                i += 1;
            }
            proof {
                lemma_no_name(s, disc@);
            }
            None
        },
    }
}

/// The instructions that are registered.
pub open spec fn registered(table: Option<InstructionTable>) -> Seq<NamedView> {
    match table {
        Some(t) => named_views(t.entries@),
        None => Seq::empty(),
    }
}

/// The names and tags that are registered, each tag once.
pub fn get_registered_discriminators(registry: &InstructionRegistry) -> (r: Vec<(String, Vec<u8>)>)
    ensures
        Seq::new(r@.len(), |i: int| NamedView { name: r@[i].0@, discriminator: r@[i].1@ }) == registered(registry.table),
{
    let mut r: Vec<(String, Vec<u8>)> = Vec::new();
    match &registry.table {
        None => {},
        Some(t) => {
            let mut i: usize = 0;
            while i < t.entries.len()
                invariant
                    i <= t.entries@.len(),
                    registry.table == Some(*t),
                    r@.len() == i,
                    forall|j: int|
                        0 <= j < i ==> (#[trigger] r@[j]).0@ == t.entries@[j].name@ && r@[j].1@
                            == t.entries@[j].discriminator@,
                decreases t.entries.len() - i,
            {
                r.push((t.entries[i].name.clone(), copy_bytes(t.entries[i].discriminator.as_slice())));
                i += 1;
            }
        },
    }
    assert(Seq::new(r@.len(), |i: int| NamedView { name: r@[i].0@, discriminator: r@[i].1@ }) =~= registered(
        registry.table,
    ));
    r
}

/// How long the tag of an instruction is, where that is registered.
pub fn instruction_discriminator_len(registry: &InstructionRegistry) -> (r: Option<usize>)
    ensures
        r == match registry.table {
            Some(t) => Some(t.disc_len),
            None => None,
        },
{
    match &registry.table {
        Some(t) => Some(t.disc_len),
        None => None,
    }
}

} // verus!
