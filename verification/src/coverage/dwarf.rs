//! Where the instructions of a program come from: source lines and function names, from the debug
//! information and the symbols of its ELF file.
use vstd::prelude::*;
use std::collections::HashMap;
use std::iter::from_fn;
use addr2line::Context;
use gimli::{Dwarf, EndianSlice, LittleEndian, SectionId};
use object::{Object, ObjectSection, ObjectSymbol};
use crate::coverage::types::{DwarfSourceMap, FileLines, SourceLocation};
use crate::text::{copy_str, push_dec_usize};

verus! {

/// A frame of the inline chain at an instruction.
#[derive(Debug)]
pub struct RawFrame {
    /// Where the frame belongs to a function, the name of that function as far as it can be read.
    pub function: Option<Option<String>>,
    /// Where the frame has a source location, its file and its line as far as they are known.
    pub place: Option<(Option<String>, Option<u32>)>,
}

/// A row of the line table.
#[derive(Debug)]
pub struct RawRow {
    pub address: u64,
    pub file: Option<String>,
    pub line: Option<u32>,
}

/// A symbol with its address.
#[derive(Debug)]
pub struct RawSymbol {
    pub address: u64,
    pub name: String,
}

/// A symbol of the symbol table.
pub struct ElfSymbol {
    /// The symbol is a function.
    pub is_text: bool,
    pub address: u64,
    pub name: Option<String>,
}

/// What the debug information of a program says.
#[derive(Debug)]
pub struct RawDebugInfo {
    pub text_address: u64,
    pub text_size: u64,
    /// The inline chain of each instruction, from the innermost frame outwards.
    pub frames: Vec<Vec<RawFrame>>,
    pub rows: Vec<RawRow>,
    pub symbols: Vec<RawSymbol>,
}

/// A file name of the debug information and the path it stands for.
pub struct ResolvedPath {
    pub name: String,
    pub path: String,
}

pub open spec fn opt_view(s: Option<String>) -> Option<Seq<char>> {
    match s {
        Some(t) => Some(t@),
        None => None,
    }
}

/// A frame, as a value.
pub struct FrameView {
    pub in_function: bool,
    pub name: Option<Seq<char>>,
    pub has_place: bool,
    pub file: Option<Seq<char>>,
    pub line: Option<u32>,
}

impl View for RawFrame {
    type V = FrameView;

    open spec fn view(&self) -> FrameView {
        FrameView {
            in_function: self.function is Some,
            name: if self.function is Some { opt_view(self.function->0) } else { None },
            has_place: self.place is Some,
            file: if self.place is Some { opt_view((self.place->0).0) } else { None },
            line: if self.place is Some { (self.place->0).1 } else { None },
        }
    }
}

pub open spec fn frame_views(frames: Seq<RawFrame>) -> Seq<FrameView> {
    Seq::new(frames.len(), |i: int| frames[i]@)
}

pub open spec fn chain_views(chains: Seq<Vec<RawFrame>>) -> Seq<Seq<FrameView>> {
    Seq::new(chains.len(), |i: int| frame_views(chains[i]@))
}

/// A row of the line table, as a value.
pub struct LineRowView {
    pub address: u64,
    pub file: Option<Seq<char>>,
    pub line: Option<u32>,
}

pub open spec fn line_row_views(rows: Seq<RawRow>) -> Seq<LineRowView> {
    Seq::new(
        rows.len(),
        |i: int| LineRowView { address: rows[i].address, file: opt_view(rows[i].file), line: rows[i].line },
    )
}

pub open spec fn symbol_views(symbols: Seq<RawSymbol>) -> Seq<(u64, Seq<char>)> {
    Seq::new(symbols.len(), |i: int| (symbols[i].address, symbols[i].name@))
}

pub open spec fn elf_symbol_views(symbols: Seq<ElfSymbol>) -> Seq<(bool, u64, Option<Seq<char>>)> {
    Seq::new(symbols.len(), |i: int| (symbols[i].is_text, symbols[i].address, opt_view(symbols[i].name)))
}

/// The address and the size of a section of an object file, where the file can be parsed and has it.
pub uninterp spec fn elf_section(binary: Seq<u8>, name: Seq<char>) -> Option<(u64, u64)>;

/// `object::File::parse` and `section_by_name`: the address and the size of a section. What makes a
/// file parse is left unsaid.
#[verifier::external_body]
fn section_bounds(binary: &[u8], name: &str) -> (r: Option<(u64, u64)>)
    ensures
        r == elf_section(binary@, name@),
{
    let file = object::File::parse(binary).ok()?;
    let section = file.section_by_name(name)?;
    Some((section.address(), section.size()))
}

/// The contents of a section of an object file, where the file can be parsed and has it.
pub uninterp spec fn elf_section_data(binary: Seq<u8>, name: Seq<char>) -> Option<Seq<u8>>;

/// `object::File::parse`, `section_by_name` and `data`: the contents of a section. What makes a file
/// parse is left unsaid.
#[verifier::external_body]
fn section_data<'a>(binary: &'a [u8], name: &str) -> (r: Option<&'a [u8]>)
    ensures
        match r {
            Some(data) => elf_section_data(binary@, name@) == Some(data@),
            None => elf_section_data(binary@, name@) is None,
        },
{
    let file = object::File::parse(binary).ok()?;
    let section = file.section_by_name(name)?;
    section.data().ok()
}

/// The contents of a section of the debug information; empty where there is none.
fn debug_section<'a>(binary: &'a [u8], name: &str) -> (r: &'a [u8])
    ensures
        r@ == (match elf_section_data(binary@, name@) {
            Some(data) => data,
            None => Seq::empty(),
        }),
{
    match section_data(binary, name) {
        Some(data) => data,
        None => vstd::slice::slice_subrange(binary, 0, 0),
    }
}

/// The inline chains that the debug information gives for some addresses, where it can be loaded.
pub uninterp spec fn dwarf_frames(binary: Seq<u8>, addresses: Seq<u64>) -> Option<Seq<Seq<FrameView>>>;

/// `addr2line::Context::find_frames` for each of the addresses, on the debug information that
/// `gimli::Dwarf::load` finds in the file: one chain of frames for each address, up to the first that
/// cannot be read and empty where the lookup fails. A name that cannot be read as text is left out. The
/// lookup adds one to an address, which fails at the last one of all.
#[verifier::external_body]
fn find_frames(binary: &[u8], addresses: &Vec<u64>) -> (r: Option<Vec<Vec<RawFrame>>>)
    requires
        !addresses@.contains(u64::MAX),
    ensures
        match r {
            Some(chains) => dwarf_frames(binary@, addresses@) == Some(chain_views(chains@))
                && chains@.len() == addresses@.len(),
            None => dwarf_frames(binary@, addresses@) is None,
        },
{
    let load = |id: SectionId| Ok::<_, ()>(EndianSlice::new(debug_section(binary, id.name()), LittleEndian));
    let context = Context::from_dwarf(Dwarf::load(load).ok()?).ok()?;
    Some(addresses.iter().map(|a| {
        let mut frames = context.find_frames(*a).skip_all_loads().ok();
        from_fn(|| frames.as_mut()?.next().ok()?).map(|f| RawFrame {
            function: f.function.map(|n| n.demangle().ok().map(String::from)),
            place: f.location.map(|l| (l.file.map(String::from), l.line)),
        }).collect()
    }).collect())
}

/// The address of a row of a line table, and whether the row ends a sequence.
pub type LineMark = (u64, bool);

/// Some lists of marks, as values.
pub open spec fn mark_lists(tables: Seq<Vec<LineMark>>) -> Seq<Seq<LineMark>> {
    Seq::new(tables.len(), |i: int| tables[i]@)
}

/// The marks of the line table of each unit, where the debug information can be loaded.
pub uninterp spec fn dwarf_marks(binary: Seq<u8>) -> Option<Seq<Seq<LineMark>>>;

/// `gimli::LineRows::next_row`, for the line program of each unit that `gimli::Dwarf::load` finds in the
/// file: the address of each row and whether it ends a sequence, up to the first that cannot be read.
#[verifier::external_body]
fn line_marks(binary: &[u8]) -> (r: Option<Vec<Vec<LineMark>>>)
    ensures
        match r {
            Some(tables) => dwarf_marks(binary@) == Some(mark_lists(tables@)),
            None => dwarf_marks(binary@) is None,
        },
{
    let load = |id: SectionId| Ok::<_, ()>(EndianSlice::new(debug_section(binary, id.name()), LittleEndian));
    let dwarf = Dwarf::load(load).ok()?;
    let mut units = dwarf.units();
    let units = from_fn(|| units.next().ok()?).map(|header| dwarf.unit(header).ok().and_then(|u| u.line_program));
    Some(units.map(|program| {
        let mut rows = program.map(|p| p.rows());
        from_fn(|| rows.as_mut()?.next_row().ok()?.map(|(_, row)| (row.address(), row.end_sequence()))).collect()
    }).collect())
}

/// In a line table, addresses do not fall within a sequence.
pub open spec fn rises(marks: Seq<LineMark>) -> bool {
    forall|i: int| 0 < i < marks.len() ==> marks[i - 1].1 || marks[i - 1].0 <= (#[trigger] marks[i]).0
}

/// In no line table do addresses fall within a sequence.
pub open spec fn tables_rise(tables: Seq<Seq<LineMark>>) -> bool {
    forall|i: int| 0 <= i < tables.len() ==> rises(#[trigger] tables[i])
}

/// The line tables can be read, and in none do addresses fall within a sequence.
pub open spec fn lines_rise(binary: Seq<u8>) -> bool {
    dwarf_marks(binary) is Some && tables_rise(dwarf_marks(binary)->0)
}

/// Whether in no line table addresses fall within a sequence.
pub fn has_rising_lines(tables: &Vec<Vec<LineMark>>) -> (r: bool)
    ensures
        r == tables_rise(mark_lists(tables@)),
{
    let ghost lists = mark_lists(tables@);
    let mut i: usize = 0;
    while i < tables.len()
        invariant
            i <= tables@.len(),
            lists == mark_lists(tables@),
            forall|k: int| 0 <= k < i ==> rises(#[trigger] lists[k]),
        decreases tables.len() - i,
    {
        let mut j: usize = 1;
        while j < tables[i].len()
            invariant
                i < tables@.len(),
                lists == mark_lists(tables@),
                1 <= j,
                forall|k: int| 0 < k < j && k < lists[i as int].len() ==> lists[i as int][k - 1].1
                    || lists[i as int][k - 1].0 <= (#[trigger] lists[i as int][k]).0,
            decreases tables@[i as int]@.len() - j,
        {
            if !tables[i][j - 1].1 && tables[i][j].0 < tables[i][j - 1].0 {
                assert(!rises(lists[i as int])) by {
                    assert(lists[i as int][j as int] == tables@[i as int]@[j as int]);
                }
                return false;
            }
            j += 1;
        }
        assert(rises(lists[i as int]));
        i += 1;
    }
    true
}

/// The rows of the line table in a range of addresses, where the debug information can be loaded.
pub uninterp spec fn dwarf_rows(binary: Seq<u8>, low: u64, high: u64) -> Option<Seq<LineRowView>>;

/// `addr2line::Context::find_location_range`: the rows of the line table from `low` to `high`. It takes
/// the distance from each row to the next, which fails where addresses fall within a sequence.
#[verifier::external_body]
fn find_rows(binary: &[u8], low: u64, high: u64) -> (r: Option<Vec<RawRow>>)
    requires
        lines_rise(binary@),
    ensures
        match r {
            Some(rows) => dwarf_rows(binary@, low, high) == Some(line_row_views(rows@)),
            None => dwarf_rows(binary@, low, high) is None,
        },
{
    let load = |id: SectionId| Ok::<_, ()>(EndianSlice::new(debug_section(binary, id.name()), LittleEndian));
    let context = Context::from_dwarf(Dwarf::load(load).ok()?).ok()?;
    let rows = context.find_location_range(low, high).ok()?;
    Some(rows.map(|(address, _, l)| RawRow { address, file: l.file.map(String::from), line: l.line }).collect())
}

/// The symbols that name an address of an object file.
pub uninterp spec fn elf_symbol_map(binary: Seq<u8>) -> Option<Seq<(u64, Seq<char>)>>;

/// `object::Object::symbol_map`: the defined symbols of the file, one for each address.
#[verifier::external_body]
fn symbol_map(binary: &[u8]) -> (r: Option<Vec<RawSymbol>>)
    ensures
        match r {
            Some(symbols) => elf_symbol_map(binary@) == Some(symbol_views(symbols@)),
            None => elf_symbol_map(binary@) is None,
        },
{
    let file = object::File::parse(binary).ok()?;
    let map = file.symbol_map();
    Some(map.symbols().iter().map(|s| RawSymbol { address: s.address(), name: s.name().to_string() }).collect())
}

/// The symbol table of an object file, where it can be parsed.
pub uninterp spec fn elf_symbols(binary: Seq<u8>) -> Option<Seq<(bool, u64, Option<Seq<char>>)>>;

/// `object::Object::symbols`: the entries of the symbol table in its order.
#[verifier::external_body]
fn symbol_table(binary: &[u8]) -> (r: Option<Vec<ElfSymbol>>)
    ensures
        match r {
            Some(symbols) => elf_symbols(binary@) == Some(elf_symbol_views(symbols@)),
            None => elf_symbols(binary@) is None,
        },
{
    let file = object::File::parse(binary).ok()?;
    Some(file.symbols().map(|s| ElfSymbol {
        is_text: s.kind() == object::SymbolKind::Text,
        address: s.address(),
        name: s.name().ok().map(String::from),
    }).collect())
}

/// A symbol name in readable form.
pub uninterp spec fn demangled(raw: Seq<char>) -> Seq<char>;

/// `rustc_demangle::demangle`, written out by its `Display`.
#[verifier::external_body]
fn demangle(raw: &str) -> (s: String)
    ensures
        s@ == demangled(raw@),
{
    rustc_demangle::demangle(raw).to_string()
}

/// `address` lies in the text section.
pub open spec fn in_text(text_address: u64, text_size: u64, address: u64) -> bool {
    text_address <= address && address - text_address < text_size
}

/// The instruction at `address`: every instruction takes eight bytes.
pub open spec fn pc_at(text_address: u64, address: u64) -> usize {
    (((address - text_address) / 8) as u64) as usize
}

/// The path that a file name stands for: the first entry for it, else the name itself.
pub open spec fn resolve(paths: Seq<ResolvedPath>, name: Seq<char>) -> Seq<char>
    decreases paths.len(),
{
    if paths.len() == 0 {
        name
    } else if paths[0].name@ == name {
        paths[0].path@
    } else {
        resolve(paths.skip(1), name)
    }
}

/// A source line, as a value.
pub type Place = (Seq<char>, u32);

/// The source lines of a chain of frames, in its order; a frame without one is left out.
pub open spec fn chain_places(chain: Seq<FrameView>, paths: Seq<ResolvedPath>) -> Seq<Place>
    decreases chain.len(),
{
    if chain.len() == 0 {
        Seq::empty()
    } else {
        let before = chain_places(chain.drop_last(), paths);
        let f = chain.last();
        if f.file is Some && f.line is Some { before.push((resolve(paths, f.file->0), f.line->0)) } else { before }
    }
}

/// The name of the first frame that belongs to a function; where it cannot be read, one made from
/// the program counter.
pub open spec fn chain_name(chain: Seq<FrameView>, pc: usize) -> Option<Seq<char>>
    decreases chain.len(),
{
    if chain.len() == 0 {
        None
    } else if chain[0].in_function {
        match chain[0].name {
            Some(n) => Some(n),
            None => Some("fn_"@ + crate::text::dec(pc as nat)),
        }
    } else {
        chain_name(chain.skip(1), pc)
    }
}

/// The places of the first `n` instructions.
pub open spec fn frame_places(chains: Seq<Seq<FrameView>>, paths: Seq<ResolvedPath>, n: nat) -> Map<usize, Seq<Place>>
    decreases n,
{
    if n == 0 {
        Map::empty()
    } else {
        let before = frame_places(chains, paths, (n - 1) as nat);
        let places = chain_places(chains[n - 1], paths);
        if places.len() > 0 { before.insert((n - 1) as usize, places) } else { before }
    }
}

/// The functions at the first `n` instructions: name and outermost place.
pub open spec fn frame_names(
    chains: Seq<Seq<FrameView>>,
    paths: Seq<ResolvedPath>,
    n: nat,
) -> Map<usize, (Seq<char>, Place)>
    decreases n,
{
    if n == 0 {
        Map::empty()
    } else {
        let before = frame_names(chains, paths, (n - 1) as nat);
        let places = chain_places(chains[n - 1], paths);
        match chain_name(chains[n - 1], (n - 1) as usize) {
            Some(name) => if places.len() > 0 { before.insert((n - 1) as usize, (name, places.last())) } else { before },
            None => before,
        }
    }
}

/// The row names a source line inside the text section.
pub open spec fn row_counts(text_address: u64, text_size: u64, row: LineRowView) -> bool {
    row.file is Some && row.line is Some && in_text(text_address, text_size, row.address)
}

/// The places with the line table's rows added: a place that an instruction has already is not
/// repeated.
pub open spec fn with_rows(
    places: Map<usize, Seq<Place>>,
    text_address: u64,
    text_size: u64,
    rows: Seq<LineRowView>,
    paths: Seq<ResolvedPath>,
) -> Map<usize, Seq<Place>>
    decreases rows.len(),
{
    if rows.len() == 0 {
        places
    } else {
        let before = with_rows(places, text_address, text_size, rows.drop_last(), paths);
        let r = rows.last();
        if row_counts(text_address, text_size, r) {
            let pc = pc_at(text_address, r.address);
            let place = (resolve(paths, r.file->0), r.line->0);
            let have = if before.contains_key(pc) { before[pc] } else { Seq::empty() };
            if have.contains(place) { before } else { before.insert(pc, have.push(place)) }
        } else {
            before
        }
    }
}

/// The functions with the symbols added that name an instruction which has a place but no function.
pub open spec fn with_symbols(
    names: Map<usize, (Seq<char>, Place)>,
    places: Map<usize, Seq<Place>>,
    text_address: u64,
    text_size: u64,
    symbols: Seq<(u64, Seq<char>)>,
) -> Map<usize, (Seq<char>, Place)>
    decreases symbols.len(),
{
    if symbols.len() == 0 {
        names
    } else {
        let before = with_symbols(names, places, text_address, text_size, symbols.drop_last());
        let (address, name) = symbols.last();
        let pc = pc_at(text_address, address);
        if in_text(text_address, text_size, address) && !before.contains_key(pc) && places.contains_key(pc)
            && places[pc].len() > 0 {
            before.insert(pc, (name, places[pc].last()))
        } else {
            before
        }
    }
}

/// A frame or a row of the line table lies at this place.
pub open spec fn has_code(
    chains: Seq<Seq<FrameView>>,
    text_address: u64,
    text_size: u64,
    rows: Seq<LineRowView>,
    paths: Seq<ResolvedPath>,
    place: Place,
) -> bool {
    ||| exists|i: int| 0 <= i < chains.len() && (#[trigger] chain_places(chains[i], paths)).contains(place)
    ||| exists|i: int| 0 <= i < rows.len() && row_counts(text_address, text_size, #[trigger] rows[i]) && place == (
        resolve(paths, rows[i].file->0),
        rows[i].line->0,
    )
}

pub open spec fn place_of(loc: SourceLocation) -> Place {
    (loc.file@, loc.line)
}

pub open spec fn places_of(locs: Seq<SourceLocation>) -> Seq<Place> {
    Seq::new(locs.len(), |i: int| place_of(locs[i]))
}

/// The map of places, as a value.
pub open spec fn places_view(m: Map<usize, Vec<SourceLocation>>) -> Map<usize, Seq<Place>> {
    m.map_values(|v: Vec<SourceLocation>| places_of(v@))
}

/// The map of functions, as a value.
pub open spec fn names_view(m: Map<usize, (String, SourceLocation)>) -> Map<usize, (Seq<char>, Place)> {
    m.map_values(|v: (String, SourceLocation)| (v.0@, place_of(v.1)))
}

/// The lists hold this line of this file.
pub open spec fn lists_line(lists: Seq<FileLines>, place: Place) -> bool {
    exists|i: int, j: int| 0 <= i < lists.len() && lists[i].file@ == place.0 && 0 <= j < lists[i].lines@.len()
        && #[trigger] lists[i].lines@[j] == place.1
}

/// The map says what the debug information says, with the file names resolved.
pub open spec fn maps(info: RawDebugInfo, paths: Seq<ResolvedPath>, map: DwarfSourceMap) -> bool {
    let chains = chain_views(info.frames@);
    let rows = line_row_views(info.rows@);
    let places = with_rows(
        frame_places(chains, paths, chains.len()),
        info.text_address,
        info.text_size,
        rows,
        paths,
    );
    &&& places_view(map.pc_map@) == places
    &&& names_view(map.fn_map@) == with_symbols(
        frame_names(chains, paths, chains.len()),
        places,
        info.text_address,
        info.text_size,
        symbol_views(info.symbols@),
    )
    &&& forall|place: Place| #[trigger] lists_line(map.executable_lines@, place) <==> has_code(
        chains,
        info.text_address,
        info.text_size,
        rows,
        paths,
        place,
    )
}

/// Every instruction with places lies in the text section, its list is not empty, and code lies at each
/// place of it.
pub open spec fn places_in_text(
    places: Map<usize, Seq<Place>>,
    text_address: u64,
    text_size: u64,
    chains: Seq<Seq<FrameView>>,
    rows: Seq<LineRowView>,
    paths: Seq<ResolvedPath>,
) -> bool {
    forall|pc: usize| #[trigger] places.contains_key(pc) ==> {
        &&& 8 * pc < text_size
        &&& places[pc].len() > 0
        &&& forall|p: Place| #[trigger] places[pc].contains(p) ==> has_code(chains, text_address, text_size, rows, paths, p)
    }
}

/// Every instruction with a function has places, and the place of the function is one of them.
pub open spec fn names_in_places(names: Map<usize, (Seq<char>, Place)>, places: Map<usize, Seq<Place>>) -> bool {
    forall|pc: usize| #[trigger] names.contains_key(pc) ==> places.contains_key(pc) && places[pc].contains(names[pc].1)
}

proof fn lemma_cut(x: u64)
    ensures
        (x as usize) <= x,
{
    assert((x as usize) as u64 <= x) by (bit_vector);
}

proof fn lemma_frames_in_text(
    chains: Seq<Seq<FrameView>>,
    paths: Seq<ResolvedPath>,
    n: nat,
    text_address: u64,
    text_size: u64,
    rows: Seq<LineRowView>,
)
    requires
        n <= chains.len() <= text_size / 8,
        chains.len() <= usize::MAX,
    ensures
        places_in_text(frame_places(chains, paths, n), text_address, text_size, chains, rows, paths),
        names_in_places(frame_names(chains, paths, n), frame_places(chains, paths, n)),
        forall|pc: usize| #[trigger] frame_places(chains, paths, n).contains_key(pc) ==> pc < n,
        forall|pc: usize| #[trigger] frame_names(chains, paths, n).contains_key(pc) ==> pc < n,
    decreases n,
{
    if n > 0 {
        lemma_frames_in_text(chains, paths, (n - 1) as nat, text_address, text_size, rows);
        let places = chain_places(chains[n - 1], paths);
        if places.len() > 0 {
            assert(places.contains(places.last()));
        }
    }
}

proof fn lemma_rows_in_text(
    places: Map<usize, Seq<Place>>,
    text_address: u64,
    text_size: u64,
    chains: Seq<Seq<FrameView>>,
    rows: Seq<LineRowView>,
    paths: Seq<ResolvedPath>,
    n: nat,
)
    requires
        n <= rows.len(),
        places_in_text(places, text_address, text_size, chains, rows, paths),
    ensures
        places_in_text(
            with_rows(places, text_address, text_size, rows.take(n as int), paths),
            text_address,
            text_size,
            chains,
            rows,
            paths,
        ),
        forall|names: Map<usize, (Seq<char>, Place)>| names_in_places(names, places) ==> #[trigger] names_in_places(
            names,
            with_rows(places, text_address, text_size, rows.take(n as int), paths),
        ),
    decreases n,
{
    let now = with_rows(places, text_address, text_size, rows.take(n as int), paths);
    if n > 0 {
        lemma_rows_in_text(places, text_address, text_size, chains, rows, paths, (n - 1) as nat);
        assert(rows.take(n as int).drop_last() =~= rows.take(n - 1));
        let before = with_rows(places, text_address, text_size, rows.take(n - 1), paths);
        let r = rows[n - 1];
        assert(rows.take(n as int).last() == r);
        if row_counts(text_address, text_size, r) {
            let pc = pc_at(text_address, r.address);
            let place = (resolve(paths, r.file->0), r.line->0);
            let have = if before.contains_key(pc) { before[pc] } else { Seq::empty() };
            lemma_cut(((r.address - text_address) / 8) as u64);
            assert(8 * pc < text_size);
            if !have.contains(place) {
                assert(now == before.insert(pc, have.push(place)));
                assert forall|p: Place| #[trigger] now[pc].contains(p) implies has_code(
                    chains,
                    text_address,
                    text_size,
                    rows,
                    paths,
                    p,
                ) by {
                    let k = choose|k: int| 0 <= k < now[pc].len() && now[pc][k] == p;
                    if k < have.len() {
                        assert(before[pc].contains(have[k]));
                    } else {
                        assert(row_counts(text_address, text_size, rows[n - 1]));
                    }
                }
                assert forall|names: Map<usize, (Seq<char>, Place)>| names_in_places(names, places) implies
                    #[trigger] names_in_places(names, now) by {
                    assert(names_in_places(names, before));
                    assert forall|q: usize| #[trigger] names.contains_key(q) implies now.contains_key(q) && now[q].contains(
                        names[q].1,
                    ) by {
                        assert(before.contains_key(q) && before[q].contains(names[q].1));
                        if q == pc {
                            let k = choose|k: int| 0 <= k < have.len() && have[k] == names[q].1;
                            assert(now[pc][k] == names[q].1);
                        }
                    }
                }
            }
        }
    } else {
        assert(rows.take(0) =~= Seq::<LineRowView>::empty());
    }
}

proof fn lemma_symbols_in_places(
    names: Map<usize, (Seq<char>, Place)>,
    places: Map<usize, Seq<Place>>,
    text_address: u64,
    text_size: u64,
    symbols: Seq<(u64, Seq<char>)>,
)
    requires
        names_in_places(names, places),
    ensures
        names_in_places(with_symbols(names, places, text_address, text_size, symbols), places),
    decreases symbols.len(),
{
    if symbols.len() > 0 {
        lemma_symbols_in_places(names, places, text_address, text_size, symbols.drop_last());
        let pc = pc_at(text_address, symbols.last().0);
        if places.contains_key(pc) && places[pc].len() > 0 {
            assert(places[pc].contains(places[pc].last()));
        }
    }
}

/// Every instruction of the map lies in the text section and has a location, every location is among the
/// lines that carry code, and every function stands at an instruction of the map, at one of its locations.
pub proof fn lemma_map_in_text(info: RawDebugInfo, paths: Seq<ResolvedPath>, map: DwarfSourceMap)
    requires
        info.frames@.len() == (info.text_size / 8) as usize,
        maps(info, paths, map),
    ensures
        forall|pc: usize| #[trigger] map.pc_map@.contains_key(pc) ==> {
            &&& 8 * pc < info.text_size
            &&& map.pc_map@[pc]@.len() > 0
            &&& forall|i: int|
                0 <= i < map.pc_map@[pc]@.len() ==> lists_line(
                    map.executable_lines@,
                    place_of(#[trigger] map.pc_map@[pc]@[i]),
                )
        },
        forall|pc: usize| #[trigger] map.fn_map@.contains_key(pc) ==> map.pc_map@.contains_key(pc) && places_of(
            map.pc_map@[pc]@,
        ).contains(place_of(map.fn_map@[pc].1)),
{
    let chains = chain_views(info.frames@);
    let rows = line_row_views(info.rows@);
    let first = frame_places(chains, paths, chains.len());
    let (ta, ts) = (info.text_address, info.text_size);
    lemma_cut(ts / 8);
    lemma_frames_in_text(chains, paths, chains.len(), ta, ts, rows);
    lemma_rows_in_text(first, ta, ts, chains, rows, paths, rows.len());
    assert(rows.take(rows.len() as int) =~= rows);
    let places = with_rows(first, ta, ts, rows, paths);
    lemma_symbols_in_places(frame_names(chains, paths, chains.len()), places, ta, ts, symbol_views(info.symbols@));
    assert forall|pc: usize| #[trigger] map.pc_map@.contains_key(pc) implies {
        &&& 8 * pc < info.text_size
        &&& map.pc_map@[pc]@.len() > 0
        &&& forall|i: int|
            0 <= i < map.pc_map@[pc]@.len() ==> lists_line(map.executable_lines@, place_of(#[trigger] map.pc_map@[pc]@[i]))
    } by {
        assert(places_view(map.pc_map@).contains_key(pc));
        assert(places[pc] == places_of(map.pc_map@[pc]@));
        assert forall|i: int| 0 <= i < map.pc_map@[pc]@.len() implies lists_line(
            map.executable_lines@,
            place_of(#[trigger] map.pc_map@[pc]@[i]),
        ) by {
            let p = place_of(map.pc_map@[pc]@[i]);
            assert(places[pc][i] == p);
            assert(places[pc].contains(p));
        }
    }
    assert forall|pc: usize| #[trigger] map.fn_map@.contains_key(pc) implies map.pc_map@.contains_key(pc) && places_of(
        map.pc_map@[pc]@,
    ).contains(place_of(map.fn_map@[pc].1)) by {
        let names = names_view(map.fn_map@);
        assert(names.contains_key(pc));
        assert(names[pc].1 == place_of(map.fn_map@[pc].1));
        assert(places.contains_key(pc));
        assert(places_view(map.pc_map@).contains_key(pc));
    }
}

/// The path that a file name stands for.
fn resolve_name(paths: &Vec<ResolvedPath>, name: &String) -> (r: String)
    ensures
        r@ == resolve(paths@, name@),
{
    let mut i: usize = 0;
    assert(paths@.skip(0) =~= paths@);
    while i < paths.len()
        invariant
            i <= paths@.len(),
            resolve(paths@.skip(i as int), name@) == resolve(paths@, name@),
        decreases paths.len() - i,
    {
        assert(paths@.skip(i as int).skip(1) =~= paths@.skip(i + 1));
        if paths[i].name == *name {
            return paths[i].path.clone();
        }
        i += 1;
    }
    name.clone()
}

/// The source lines of a chain of frames.
fn chain_locations(chain: &Vec<RawFrame>, paths: &Vec<ResolvedPath>) -> (r: Vec<SourceLocation>)
    ensures
        places_of(r@) == chain_places(frame_views(chain@), paths@),
{
    let ghost v = frame_views(chain@);
    let mut r: Vec<SourceLocation> = Vec::new();
    let mut i: usize = 0;
    assert(places_of(r@) =~= chain_places(v.take(0), paths@));
    while i < chain.len()
        invariant
            i <= chain@.len(),
            v == frame_views(chain@),
            places_of(r@) == chain_places(v.take(i as int), paths@),
        decreases chain.len() - i,
    {
        proof {
            assert(v.take(i + 1).drop_last() =~= v.take(i as int));
            assert(v.take(i + 1).last() == chain@[i as int]@);
        }
        if let Some((Some(file), line)) = &chain[i].place {
            if let Some(line) = *line {
                let ghost before = r@;
                let loc = SourceLocation { file: resolve_name(paths, file), line };
                r.push(loc);
                assert(places_of(r@) =~= places_of(before).push(place_of(loc)));
            }
        }
        i += 1;
    }
    assert(v.take(i as int) =~= v);
    r
}

/// The name of the first frame that belongs to a function.
fn chain_function(chain: &Vec<RawFrame>, pc: usize) -> (r: Option<String>)
    ensures
        opt_view(r) == chain_name(frame_views(chain@), pc),
{
    let ghost v = frame_views(chain@);
    let mut i: usize = 0;
    assert(v.skip(0) =~= v);
    while i < chain.len()
        invariant
            i <= chain@.len(),
            v == frame_views(chain@),
            chain_name(v.skip(i as int), pc) == chain_name(v, pc),
        decreases chain.len() - i,
    {
        assert(v.skip(i as int)[0] == chain@[i as int]@);
        assert(v.skip(i as int).skip(1) =~= v.skip(i + 1));
        if let Some(name) = &chain[i].function {
            return match name {
                Some(n) => Some(n.clone()),
                None => {
                    let mut n = String::from_str("fn_");
                    push_dec_usize(&mut n, pc);
                    Some(n)
                },
            };
        }
        i += 1;
    }
    None
}

proof fn lemma_lists_line_push(lists: Seq<FileLines>, fl: FileLines, place: Place)
    ensures
        lists_line(lists.push(fl), place) <==> lists_line(lists, place) || (fl.file@ == place.0 && fl.lines@.contains(
            place.1,
        )),
{
    let t = lists.push(fl);
    if lists_line(t, place) {
        let (i, j) = choose|i: int, j: int| 0 <= i < t.len() && t[i].file@ == place.0 && 0 <= j < t[i].lines@.len()
            && #[trigger] t[i].lines@[j] == place.1;
        if i < lists.len() {
            assert(lists[i].lines@[j] == place.1);
        } else {
            assert(fl.lines@.contains(place.1));
        }
    }
    if lists_line(lists, place) {
        let (i, j) = choose|i: int, j: int| 0 <= i < lists.len() && lists[i].file@ == place.0 && 0 <= j
            < lists[i].lines@.len() && #[trigger] lists[i].lines@[j] == place.1;
        assert(t[i].lines@[j] == place.1);
    }
    if fl.file@ == place.0 && fl.lines@.contains(place.1) {
        let j = choose|j: int| 0 <= j < fl.lines@.len() && fl.lines@[j] == place.1;
        assert(t[lists.len() as int].lines@[j] == place.1);
    }
}

/// Adds a line to the lists, unless it is there.
fn add_line(lists: &mut Vec<FileLines>, file: &String, line: u32)
    ensures
        forall|p: Place| #[trigger] lists_line(final(lists)@, p) <==> lists_line(old(lists)@, p) || p == (file@, line),
{
    let ghost before = lists@;
    let mut i: usize = 0;
    while i < lists.len()
        invariant
            i <= lists@.len(),
            lists@ == before,
            before == old(lists)@,
            forall|k: int| 0 <= k < i ==> (#[trigger] lists@[k]).file@ != file@,
        decreases lists.len() - i,
    {
        if lists[i].file == *file {
            let mut j: usize = 0;
            while j < lists[i].lines.len()
                invariant
                    i < lists@.len(),
                    lists@ == before,
                    before == old(lists)@,
                    lists@[i as int].file@ == file@,
                    j <= lists@[i as int].lines@.len(),
                    forall|k: int| 0 <= k < j ==> lists@[i as int].lines@[k] != line,
                decreases lists[i as int].lines.len() - j,
            {
                if lists[i].lines[j] == line {
                    assert(lists@[i as int].lines@[j as int] == line);
                    assert(lists_line(before, (file@, line)));
                    return;
                }
                j += 1;
            }
            let mut entry = lists.remove(i);
            let ghost own = entry.lines@;
            entry.lines.push(line);
            lists.push(entry);
            proof {
                let rest = before.remove(i as int);
                assert forall|p: Place| #[trigger] lists_line(lists@, p) <==> lists_line(before, p) || p == (file@, line) by {
                    lemma_lists_line_push(rest, entry, p);
                    if lists_line(before, p) {
                        let (x, y) = choose|x: int, y: int| 0 <= x < before.len() && before[x].file@ == p.0 && 0 <= y
                            < before[x].lines@.len() && #[trigger] before[x].lines@[y] == p.1;
                        if x < i {
                            assert(rest[x].lines@[y] == p.1);
                        } else if x > i {
                            assert(rest[x - 1].lines@[y] == p.1);
                        } else {
                            assert(entry.lines@[y] == p.1);
                        }
                    }
                    if lists_line(rest, p) {
                        let (x, y) = choose|x: int, y: int| 0 <= x < rest.len() && rest[x].file@ == p.0 && 0 <= y
                            < rest[x].lines@.len() && #[trigger] rest[x].lines@[y] == p.1;
                        if x < i {
                            assert(before[x].lines@[y] == p.1);
                        } else {
                            assert(before[x + 1].lines@[y] == p.1);
                        }
                    }
                    if entry.file@ == p.0 && entry.lines@.contains(p.1) {
                        let y = choose|y: int| 0 <= y < entry.lines@.len() && entry.lines@[y] == p.1;
                        if y < own.len() {
                            assert(before[i as int].lines@[y] == p.1);
                        }
                    }
                    if p == (file@, line) {
                        assert(entry.lines@[own.len() as int] == line);
                    }
                }
            }
            return;
        }
        i += 1;
    }
    let mut lines: Vec<u32> = Vec::new();
    lines.push(line);
    let entry = FileLines { file: file.clone(), lines };
    lists.push(entry);
    proof {
        assert forall|p: Place| #[trigger] lists_line(lists@, p) <==> lists_line(before, p) || p == (file@, line) by {
            lemma_lists_line_push(before, entry, p);
            if p == (file@, line) {
                assert(entry.lines@[0] == line);
            }
            if entry.lines@.contains(p.1) {
                assert(p.1 == line);
            }
        }
    }
}

/// Adds the lines of the locations to the lists.
fn add_lines(lists: &mut Vec<FileLines>, locs: &Vec<SourceLocation>)
    ensures
        forall|p: Place| #[trigger] lists_line(final(lists)@, p) <==> lists_line(old(lists)@, p) || places_of(
            locs@,
        ).contains(p),
{
    let ghost before = lists@;
    let ghost ps = places_of(locs@);
    let mut i: usize = 0;
    while i < locs.len()
        invariant
            i <= locs@.len(),
            ps == places_of(locs@),
            forall|p: Place| #[trigger] lists_line(lists@, p) <==> lists_line(before, p) || ps.take(i as int).contains(p),
        decreases locs.len() - i,
    {
        add_line(lists, &locs[i].file, locs[i].line);
        proof {
            assert(ps[i as int] == place_of(locs@[i as int]));
            assert forall|p: Place| #[trigger] lists_line(lists@, p) <==> lists_line(before, p) || ps.take(i + 1).contains(
                p,
            ) by {
                if ps.take(i as int).contains(p) {
                    let k = choose|k: int| 0 <= k < ps.take(i as int).len() && ps.take(i as int)[k] == p;
                    assert(ps.take(i + 1)[k] == p);
                }
                if p == ps[i as int] {
                    assert(ps.take(i + 1)[i as int] == p);
                }
                let longer = ps.take(i + 1);
                if longer.contains(p) {
                    let k = choose|k: int| 0 <= k < longer.len() && longer[k] == p;
                    if k < i {
                        assert(ps.take(i as int)[k] == p);
                    }
                }
            }
        }
        i += 1;
    }
    assert(ps.take(i as int) =~= ps);
}

/// Whether one of the locations is this place.
fn has_place(locs: &Vec<SourceLocation>, file: &String, line: u32) -> (r: bool)
    ensures
        r == places_of(locs@).contains((file@, line)),
{
    let mut i: usize = 0;
    while i < locs.len()
        invariant
            i <= locs@.len(),
            forall|k: int| 0 <= k < i ==> (#[trigger] places_of(locs@)[k]) != (file@, line),
        decreases locs.len() - i,
    {
        assert(places_of(locs@)[i as int] == place_of(locs@[i as int]));
        if locs[i].line == line && locs[i].file == *file {
            return true;
        }
        i += 1;
    }
    false
}

/// A copy of the locations.
fn copy_locations(locs: &Vec<SourceLocation>) -> (r: Vec<SourceLocation>)
    ensures
        r@ == locs@,
{
    let mut r: Vec<SourceLocation> = Vec::new();
    let mut i: usize = 0;
    while i < locs.len()
        invariant
            i <= locs@.len(),
            r@ == locs@.take(i as int),
        decreases locs.len() - i,
    {
        r.push(locs[i].copy());
        assert(locs@.take(i + 1) =~= locs@.take(i as int).push(locs@[i as int]));
        i += 1;
    }
    assert(locs@.take(i as int) =~= locs@);
    r
}

/// The map from the debug information of a program, with the file names resolved to paths.
///
/// Every source line of the inline chain of an instruction counts as a place of it, and so does every
/// row of the line table there. A function is named by the innermost frame that has a name, or by the
/// symbol table, and placed at the outermost line.
pub fn build_dwarf_source_map(info: &RawDebugInfo, paths: &Vec<ResolvedPath>) -> (map: DwarfSourceMap)
    ensures
        maps(*info, paths@, map),
{
    broadcast use vstd::std_specs::hash::group_hash_axioms;
    let ghost chains = chain_views(info.frames@);
    let ghost rows = line_row_views(info.rows@);
    let ghost syms = symbol_views(info.symbols@);
    let ghost ta = info.text_address;
    let ghost ts = info.text_size;
    let mut pc_map: HashMap<usize, Vec<SourceLocation>> = HashMap::new();
    let mut fn_map: HashMap<usize, (String, SourceLocation)> = HashMap::new();
    let mut lists: Vec<FileLines> = Vec::new();
    let mut pc: usize = 0;
    assert(places_view(pc_map@) =~= frame_places(chains, paths@, 0));
    assert(names_view(fn_map@) =~= frame_names(chains, paths@, 0));
    while pc < info.frames.len()
        invariant
            pc <= info.frames@.len(),
            chains == chain_views(info.frames@),
            places_view(pc_map@) == frame_places(chains, paths@, pc as nat),
            names_view(fn_map@) == frame_names(chains, paths@, pc as nat),
            forall|p: Place| #[trigger] lists_line(lists@, p) <==> chains_hold(chains, paths@, pc as int, p),
        decreases info.frames.len() - pc,
    {
        broadcast use vstd::std_specs::hash::group_hash_axioms;
        let locs = chain_locations(&info.frames[pc], paths);
        assert(chains[pc as int] == frame_views(info.frames@[pc as int]@));
        add_lines(&mut lists, &locs);
        proof {
            assert forall|p: Place| #[trigger] lists_line(lists@, p) <==> chains_hold(chains, paths@, pc + 1, p) by {
                lemma_chains_hold(chains, paths@, pc as int, p);
            }
        }
        if locs.len() > 0 {
            let ghost old_places = pc_map@;
            let ghost old_names = fn_map@;
            let ghost lv = places_of(locs@);
            if let Some(name) = chain_function(&info.frames[pc], pc) {
                let outermost = locs[locs.len() - 1].copy();
                fn_map.insert(pc, (name, outermost));
                assert(names_view(fn_map@) =~= names_view(old_names).insert(pc, (name@, place_of(outermost))));
                assert(lv.last() == place_of(outermost));
            }
            pc_map.insert(pc, locs);
            assert(places_view(pc_map@) =~= places_view(old_places).insert(pc, lv));
        }
        pc += 1;
    }
    let ghost base_places = places_view(pc_map@);
    let mut i: usize = 0;
    while i < info.rows.len()
        invariant
            i <= info.rows@.len(),
            rows == line_row_views(info.rows@),
            ta == info.text_address,
            ts == info.text_size,
            places_view(pc_map@) == with_rows(base_places, ta, ts, rows.take(i as int), paths@),
            forall|p: Place| #[trigger] lists_line(lists@, p) <==> chains_hold(chains, paths@, chains.len() as int, p)
                || rows_hold(rows, ta, ts, paths@, i as int, p),
        decreases info.rows.len() - i,
    {
        broadcast use vstd::std_specs::hash::group_hash_axioms;
        let row = &info.rows[i];
        proof {
            assert(rows.take(i + 1).drop_last() =~= rows.take(i as int));
            assert(rows.take(i + 1).last() == rows[i as int]);
        }
        let ghost before = pc_map@;
        let mut counted = false;
        let ghost mut place: Place = (Seq::empty(), 0u32);
        if let Some(name) = &row.file {
            if let Some(line) = row.line {
                if row.address >= info.text_address && row.address - info.text_address < info.text_size {
                    let at: usize = ((row.address - info.text_address) / 8) as usize;
                    let file = resolve_name(paths, name);
                    add_line(&mut lists, &file, line);
                    counted = true;
                    proof {
                        place = (file@, line);
                    }
                    let known = match pc_map.get(&at) {
                        Some(locs) => has_place(locs, &file, line),
                        None => false,
                    };
                    if !known {
                        let mut locs = match pc_map.get(&at) {
                            Some(l) => copy_locations(l),
                            None => Vec::new(),
                        };
                        let ghost have = places_of(locs@);
                        let loc = SourceLocation { file, line };
                        locs.push(loc);
                        assert(places_of(locs@) =~= have.push(place));
                        let ghost lv = places_of(locs@);
                        pc_map.insert(at, locs);
                        assert(places_view(pc_map@) =~= places_view(before).insert(at, lv));
                        assert(have =~= (if places_view(before).contains_key(at) {
                            places_view(before)[at]
                        } else {
                            Seq::empty()
                        }));
                    }
                }
            }
        }
        proof {
            assert(counted == row_counts(ta, ts, rows[i as int]));
            assert forall|p: Place| #[trigger] lists_line(lists@, p) <==> chains_hold(
                chains,
                paths@,
                chains.len() as int,
                p,
            ) || rows_hold(rows, ta, ts, paths@, i + 1, p) by {
                lemma_rows_hold(rows, ta, ts, paths@, i as int, p);
            }
        }
        i += 1;
    }
    assert(rows.take(i as int) =~= rows);
    let ghost all_places = places_view(pc_map@);
    let ghost base_names = names_view(fn_map@);
    let mut k: usize = 0;
    while k < info.symbols.len()
        invariant
            k <= info.symbols@.len(),
            syms == symbol_views(info.symbols@),
            ta == info.text_address,
            ts == info.text_size,
            all_places == places_view(pc_map@),
            names_view(fn_map@) == with_symbols(base_names, all_places, ta, ts, syms.take(k as int)),
        decreases info.symbols.len() - k,
    {
        broadcast use vstd::std_specs::hash::group_hash_axioms;
        let symbol = &info.symbols[k];
        proof {
            assert(syms.take(k + 1).drop_last() =~= syms.take(k as int));
            assert(syms.take(k + 1).last() == syms[k as int]);
        }
        if symbol.address >= info.text_address && symbol.address - info.text_address < info.text_size {
            let at: usize = ((symbol.address - info.text_address) / 8) as usize;
            if !fn_map.contains_key(&at) {
                if let Some(locs) = pc_map.get(&at) {
                    if locs.len() > 0 {
                        let ghost before = fn_map@;
                        let outermost = locs[locs.len() - 1].copy();
                        assert(places_of(locs@).last() == place_of(outermost));
                        fn_map.insert(at, (symbol.name.clone(), outermost));
                        assert(names_view(fn_map@) =~= names_view(before).insert(
                            at,
                            (symbol.name@, place_of(outermost)),
                        ));
                    }
                }
            }
        }
        k += 1;
    }
    assert(syms.take(k as int) =~= syms);
    let map = DwarfSourceMap { pc_map, fn_map, executable_lines: lists };
    proof {
        assert forall|place: Place| #[trigger] lists_line(map.executable_lines@, place) <==> has_code(
            chains,
            ta,
            ts,
            rows,
            paths@,
            place,
        ) by {
            lemma_has_code(chains, ta, ts, rows, paths@, place);
        }
    }
    map
}

/// One of the first `n` chains has this place.
spec fn chains_hold(chains: Seq<Seq<FrameView>>, paths: Seq<ResolvedPath>, n: int, p: Place) -> bool {
    exists|i: int| 0 <= i < chains.len() && i < n && (#[trigger] chain_places(chains[i], paths)).contains(p)
}

/// One of the first `n` rows has this place.
spec fn rows_hold(rows: Seq<LineRowView>, ta: u64, ts: u64, paths: Seq<ResolvedPath>, n: int, p: Place) -> bool {
    exists|i: int| 0 <= i < rows.len() && i < n && row_counts(ta, ts, #[trigger] rows[i]) && p == (
        resolve(paths, rows[i].file->0),
        rows[i].line->0,
    )
}

proof fn lemma_chains_hold(chains: Seq<Seq<FrameView>>, paths: Seq<ResolvedPath>, n: int, p: Place)
    requires
        0 <= n < chains.len(),
    ensures
        chains_hold(chains, paths, n + 1, p) <==> (chains_hold(chains, paths, n, p) || chain_places(
            chains[n],
            paths,
        ).contains(p)),
{
    if chains_hold(chains, paths, n + 1, p) {
        let i = choose|i: int| 0 <= i < chains.len() && i < n + 1 && (#[trigger] chain_places(chains[i], paths)).contains(p);
        if i < n {
            assert(chains_hold(chains, paths, n, p));
        }
    }
    if chains_hold(chains, paths, n, p) {
        let i = choose|i: int| 0 <= i < chains.len() && i < n && (#[trigger] chain_places(chains[i], paths)).contains(p);
        assert(i < n + 1);
    }
}

proof fn lemma_rows_hold(rows: Seq<LineRowView>, ta: u64, ts: u64, paths: Seq<ResolvedPath>, n: int, p: Place)
    requires
        0 <= n < rows.len(),
    ensures
        rows_hold(rows, ta, ts, paths, n + 1, p) <==> (rows_hold(rows, ta, ts, paths, n, p) || (row_counts(
            ta,
            ts,
            rows[n],
        ) && p == (resolve(paths, rows[n].file->0), rows[n].line->0))),
{
    if rows_hold(rows, ta, ts, paths, n + 1, p) {
        let i = choose|i: int| 0 <= i < rows.len() && i < n + 1 && row_counts(ta, ts, #[trigger] rows[i]) && p == (
            resolve(paths, rows[i].file->0),
            rows[i].line->0,
        );
        if i < n {
            assert(rows_hold(rows, ta, ts, paths, n, p));
        }
    }
    if rows_hold(rows, ta, ts, paths, n, p) {
        let i = choose|i: int| 0 <= i < rows.len() && i < n && row_counts(ta, ts, #[trigger] rows[i]) && p == (
            resolve(paths, rows[i].file->0),
            rows[i].line->0,
        );
        assert(i < n + 1);
    }
}

proof fn lemma_has_code(
    chains: Seq<Seq<FrameView>>,
    ta: u64,
    ts: u64,
    rows: Seq<LineRowView>,
    paths: Seq<ResolvedPath>,
    p: Place,
)
    ensures
        has_code(chains, ta, ts, rows, paths, p) <==> (chains_hold(chains, paths, chains.len() as int, p) || rows_hold(
            rows,
            ta,
            ts,
            paths,
            rows.len() as int,
            p,
        )),
{
    if chains_hold(chains, paths, chains.len() as int, p) {
        let i = choose|i: int| 0 <= i < chains.len() && i < chains.len() as int && (#[trigger] chain_places(
            chains[i],
            paths,
        )).contains(p);
        assert(chain_places(chains[i], paths).contains(p));
    }
    if rows_hold(rows, ta, ts, paths, rows.len() as int, p) {
        let i = choose|i: int| 0 <= i < rows.len() && i < rows.len() as int && row_counts(ta, ts, #[trigger] rows[i])
            && p == (resolve(paths, rows[i].file->0), rows[i].line->0);
        assert(row_counts(ta, ts, rows[i]));
    }
    if exists|i: int| 0 <= i < chains.len() && (#[trigger] chain_places(chains[i], paths)).contains(p) {
        let i = choose|i: int| 0 <= i < chains.len() && (#[trigger] chain_places(chains[i], paths)).contains(p);
        assert(i < chains.len() as int);
    }
    if exists|i: int| 0 <= i < rows.len() && row_counts(ta, ts, #[trigger] rows[i]) && p == (
        resolve(paths, rows[i].file->0),
        rows[i].line->0,
    ) {
        let i = choose|i: int| 0 <= i < rows.len() && row_counts(ta, ts, #[trigger] rows[i]) && p == (
            resolve(paths, rows[i].file->0),
            rows[i].line->0,
        );
        assert(i < rows.len() as int);
    }
}

/// The address of an instruction. An address past the end of the address space starts again at zero.
pub open spec fn instruction_address(text_address: u64, pc: int) -> u64 {
    let a = text_address + 8 * pc;
    (if a > u64::MAX { a - 0x1_0000_0000_0000_0000 } else { a }) as u64
}

/// The addresses of the instructions of a text section.
pub open spec fn instruction_addresses(text_address: u64, text_size: u64) -> Seq<u64> {
    Seq::new(((text_size / 8) as usize) as nat, |i: int| instruction_address(text_address, i))
}

/// The end of a text section.
pub open spec fn text_end(text_address: u64, text_size: u64) -> u64 {
    let a = text_address + text_size;
    (if a > u64::MAX { a - 0x1_0000_0000_0000_0000 } else { a }) as u64
}

pub open spec fn or_none<A>(s: Option<Seq<A>>) -> Seq<A> {
    match s {
        Some(v) => v,
        None => Seq::empty(),
    }
}

/// The rows of the line table in a text section; none where addresses fall within a sequence of it.
pub open spec fn text_rows(binary: Seq<u8>, text_address: u64, text_size: u64) -> Seq<LineRowView> {
    if lines_rise(binary) { or_none(dwarf_rows(binary, text_address, text_end(text_address, text_size))) } else { Seq::empty() }
}

/// What the debug information of a program says; nothing where the file has no debug information or
/// no text section, or where an instruction has the last address of all.
pub fn read_debug_info(binary: &[u8]) -> (r: Option<RawDebugInfo>)
    ensures
        ({
            let text = elf_section(binary@, ".text"@);
            let frames = dwarf_frames(binary@, instruction_addresses((text->0).0, (text->0).1));
            match r {
                Some(info) => {
                    &&& elf_section(binary@, ".debug_info"@) is Some
                    &&& text == Some((info.text_address, info.text_size))
                    &&& frames == Some(chain_views(info.frames@))
                    &&& info.frames@.len() == (info.text_size / 8) as usize
                    &&& line_row_views(info.rows@) == text_rows(binary@, info.text_address, info.text_size)
                    &&& symbol_views(info.symbols@) == or_none(elf_symbol_map(binary@))
                },
                None => elf_section(binary@, ".debug_info"@) is None || text is None || frames is None
                    || instruction_addresses((text->0).0, (text->0).1).contains(u64::MAX),
            }
        }),
{
    if section_bounds(binary, ".debug_info").is_none() {
        return None;
    }
    match section_bounds(binary, ".text") {
        Some((text_address, text_size)) => {
            let count: usize = (text_size / 8) as usize;
            let mut addresses: Vec<u64> = Vec::new();
            let mut pc: usize = 0;
            while pc < count
                invariant
                    pc <= count,
                    count <= text_size / 8,
                    addresses@.len() == pc,
                    count == (text_size / 8) as usize,
                    elf_section(binary@, ".text"@) == Some((text_address, text_size)),
                    forall|i: int| 0 <= i < pc ==> addresses@[i] == instruction_address(text_address, i),
                    forall|i: int| 0 <= i < pc ==> addresses@[i] < u64::MAX,
                decreases count - pc,
            {
                let address: u64 = text_address.wrapping_add(pc as u64 * 8);
                if address == u64::MAX {
                    assert(instruction_addresses(text_address, text_size)[pc as int] == u64::MAX);
                    return None;
                }
                addresses.push(address);
                pc += 1;
            }
            assert(addresses@ =~= instruction_addresses(text_address, text_size));
            match find_frames(binary, &addresses) {
                Some(frames) => {
                    let rising = match line_marks(binary) {
                        Some(tables) => has_rising_lines(&tables),
                        None => false,
                    };
                    let found = if rising {
                        find_rows(binary, text_address, text_address.wrapping_add(text_size))
                    } else {
                        None
                    };
                    let rows = match found {
                        Some(rows) => rows,
                        None => Vec::new(),
                    };
                    let symbols = match symbol_map(binary) {
                        Some(symbols) => symbols,
                        None => Vec::new(),
                    };
                    assert(line_row_views(rows@) =~= text_rows(binary@, text_address, text_size));
                    assert(symbol_views(symbols@) =~= or_none(elf_symbol_map(binary@)));
                    Some(RawDebugInfo { text_address, text_size, frames, rows, symbols })
                },
                None => None,
            }
        },
        None => None,
    }
}

/// The names of the functions by program counter: of the named functions in the text section the
/// first one at each address, in readable form.
pub open spec fn symbol_names(
    symbols: Seq<(bool, u64, Option<Seq<char>>)>,
    text_address: u64,
    text_size: u64,
) -> Map<usize, Seq<char>>
    decreases symbols.len(),
{
    if symbols.len() == 0 {
        Map::empty()
    } else {
        let before = symbol_names(symbols.drop_last(), text_address, text_size);
        let (is_text, address, name) = symbols.last();
        let pc = pc_at(text_address, address);
        if is_text && in_text(text_address, text_size, address) && name is Some && name->0.len() > 0
            && !before.contains_key(pc) {
            before.insert(pc, demangled(name->0))
        } else {
            before
        }
    }
}

pub open spec fn strings_view(m: Map<usize, String>) -> Map<usize, Seq<char>> {
    m.map_values(|s: String| s@)
}

/// The names of the functions of a symbol table by program counter.
pub fn name_functions(symbols: &Vec<ElfSymbol>, text_address: u64, text_size: u64) -> (map: HashMap<usize, String>)
    ensures
        strings_view(map@) == symbol_names(elf_symbol_views(symbols@), text_address, text_size),
{
    broadcast use vstd::std_specs::hash::group_hash_axioms;
    let ghost v = elf_symbol_views(symbols@);
    let mut map: HashMap<usize, String> = HashMap::new();
    let mut i: usize = 0;
    assert(strings_view(map@) =~= symbol_names(v.take(0), text_address, text_size));
    while i < symbols.len()
        invariant
            i <= symbols@.len(),
            v == elf_symbol_views(symbols@),
            strings_view(map@) == symbol_names(v.take(i as int), text_address, text_size),
        decreases symbols.len() - i,
    {
        broadcast use vstd::std_specs::hash::group_hash_axioms;
        let symbol = &symbols[i];
        proof {
            assert(v.take(i + 1).drop_last() =~= v.take(i as int));
            assert(v.take(i + 1).last() == v[i as int]);
        }
        if symbol.is_text && symbol.address >= text_address && symbol.address - text_address < text_size {
            if let Some(name) = &symbol.name {
                if name.as_str().unicode_len() > 0 {
                    let pc: usize = ((symbol.address - text_address) / 8) as usize;
                    if !map.contains_key(&pc) {
                        let ghost before = map@;
                        let readable = demangle(name.as_str());
                        map.insert(pc, readable);
                        assert(strings_view(map@) =~= strings_view(before).insert(pc, readable@));
                    }
                }
            }
        }
        i += 1;
    }
    assert(v.take(i as int) =~= v);
    map
}

/// The names of the functions of a program by program counter, from its symbol table alone; nothing
/// where the file has no text section or names no function in it.
pub fn build_symbol_name_map(binary: &[u8]) -> (r: Option<HashMap<usize, String>>)
    ensures
        ({
            let text = elf_section(binary@, ".text"@);
            let symbols = elf_symbols(binary@);
            let names = symbol_names(symbols->0, (text->0).0, (text->0).1);
            match r {
                Some(map) => text is Some && symbols is Some && strings_view(map@) == names && names.dom().len() > 0,
                None => text is None || symbols is None || names.dom().len() == 0,
            }
        }),
{
    broadcast use vstd::std_specs::hash::group_hash_axioms;
    match section_bounds(binary, ".text") {
        Some((text_address, text_size)) => {
            match symbol_table(binary) {
                Some(symbols) => {
                    let map = name_functions(&symbols, text_address, text_size);
                    assert(strings_view(map@).dom() =~= map@.dom());
                    if map.len() == 0 {
                        None
                    } else {
                        Some(map)
                    }
                },
                None => None,
            }
        },
        None => None,
    }
}

/// The file name occurs in a frame or in a row.
pub open spec fn names_file(info: RawDebugInfo, name: Seq<char>) -> bool {
    ||| exists|i: int, j: int| 0 <= i < info.frames@.len() && 0 <= j < info.frames@[i]@.len()
        && (#[trigger] info.frames@[i]@[j])@.file == Some(name)
    ||| exists|i: int| 0 <= i < info.rows@.len() && opt_view((#[trigger] info.rows@[i]).file) == Some(name)
}

/// Adds a text, unless it is there.
fn add_text(v: &mut Vec<String>, t: &String)
    requires
        crate::text::texts(old(v)@).no_duplicates(),
    ensures
        crate::text::texts(final(v)@).no_duplicates(),
        forall|x: Seq<char>| #[trigger] crate::text::texts(final(v)@).contains(x) <==> crate::text::texts(
            old(v)@,
        ).contains(x) || x == t@,
{
    let ghost before = crate::text::texts(v@);
    let mut i: usize = 0;
    while i < v.len()
        invariant
            i <= v@.len(),
            before == crate::text::texts(v@),
            v@ == old(v)@,
            before.no_duplicates(),
            forall|k: int| 0 <= k < i ==> #[trigger] before[k] != t@,
        decreases v.len() - i,
    {
        if v[i] == *t {
            assert(before[i as int] == t@);
            return;
        }
        i += 1;
    }
    v.push(copy_str(t.as_str()));
    proof {
        let after = crate::text::texts(v@);
        assert(after =~= before.push(t@));
        assert forall|x: Seq<char>| #[trigger] after.contains(x) <==> before.contains(x) || x == t@ by {
            if after.contains(x) {
                let k = choose|k: int| 0 <= k < after.len() && after[k] == x;
                if k < before.len() {
                    assert(before[k] == x);
                }
            }
            if before.contains(x) {
                let k = choose|k: int| 0 <= k < before.len() && before[k] == x;
                assert(after[k] == x);
            }
            if x == t@ {
                assert(after[before.len() as int] == x);
            }
        }
    }
}

/// The file occurs in the first `i` chains or the first `j` frames of the next.
spec fn frame_file_before(info: RawDebugInfo, i: int, j: int, name: Seq<char>) -> bool {
    exists|x: int, y: int| 0 <= x < info.frames@.len() && 0 <= y < info.frames@[x]@.len() && (x < i || (x == i && y < j))
        && (#[trigger] info.frames@[x]@[y])@.file == Some(name)
}

spec fn row_file_before(info: RawDebugInfo, i: int, name: Seq<char>) -> bool {
    exists|x: int| 0 <= x < info.rows@.len() && x < i && opt_view((#[trigger] info.rows@[x]).file) == Some(name)
}

proof fn lemma_frame_file_step(info: RawDebugInfo, i: int, j: int, name: Seq<char>)
    requires
        0 <= i < info.frames@.len(),
        0 <= j < info.frames@[i]@.len(),
    ensures
        frame_file_before(info, i, j + 1, name) <==> (frame_file_before(info, i, j, name) || info.frames@[i]@[j]@.file == Some(name)),
{
    if frame_file_before(info, i, j + 1, name) {
        let (x, y) = choose|x: int, y: int| 0 <= x < info.frames@.len() && 0 <= y < info.frames@[x]@.len() && (x < i || (
        x == i && y < j + 1)) && (#[trigger] info.frames@[x]@[y])@.file == Some(name);
        if !(x == i && y == j) {
            assert(x < i || (x == i && y < j));
        }
    }
    if frame_file_before(info, i, j, name) {
        let (x, y) = choose|x: int, y: int| 0 <= x < info.frames@.len() && 0 <= y < info.frames@[x]@.len() && (x < i || (
        x == i && y < j)) && (#[trigger] info.frames@[x]@[y])@.file == Some(name);
        assert(x < i || (x == i && y < j + 1));
    }
}

proof fn lemma_frame_file_next(info: RawDebugInfo, i: int, name: Seq<char>)
    requires
        0 <= i < info.frames@.len(),
    ensures
        frame_file_before(info, i + 1, 0, name) <==> frame_file_before(info, i, info.frames@[i]@.len() as int, name),
{
    let n = info.frames@[i]@.len() as int;
    if frame_file_before(info, i + 1, 0, name) {
        let (x, y) = choose|x: int, y: int| 0 <= x < info.frames@.len() && 0 <= y < info.frames@[x]@.len() && (x < i + 1
            || (x == i + 1 && y < 0)) && (#[trigger] info.frames@[x]@[y])@.file == Some(name);
        assert(x < i || (x == i && y < n));
    }
    if frame_file_before(info, i, n, name) {
        let (x, y) = choose|x: int, y: int| 0 <= x < info.frames@.len() && 0 <= y < info.frames@[x]@.len() && (x < i || (
        x == i && y < n)) && (#[trigger] info.frames@[x]@[y])@.file == Some(name);
        assert(x < i + 1 || (x == i + 1 && y < 0));
    }
}

proof fn lemma_row_file_step(info: RawDebugInfo, i: int, name: Seq<char>)
    requires
        0 <= i < info.rows@.len(),
    ensures
        row_file_before(info, i + 1, name) <==> (row_file_before(info, i, name) || opt_view(info.rows@[i].file) == Some(
            name,
        )),
{
    if row_file_before(info, i + 1, name) {
        let x = choose|x: int| 0 <= x < info.rows@.len() && x < i + 1 && opt_view((#[trigger] info.rows@[x]).file) == Some(
            name,
        );
        if x < i {
            assert(row_file_before(info, i, name));
        }
    }
    if row_file_before(info, i, name) {
        let x = choose|x: int| 0 <= x < info.rows@.len() && x < i && opt_view((#[trigger] info.rows@[x]).file) == Some(name);
        assert(x < i + 1);
    }
}

/// The file names that the debug information uses, each once.
pub fn file_names(info: &RawDebugInfo) -> (names: Vec<String>)
    ensures
        forall|n: Seq<char>| #[trigger] crate::text::texts(names@).contains(n) <==> names_file(*info, n),
        crate::text::texts(names@).no_duplicates(),
{
    let mut names: Vec<String> = Vec::new();
    let mut i: usize = 0;
    while i < info.frames.len()
        invariant
            i <= info.frames@.len(),
            crate::text::texts(names@).no_duplicates(),
            forall|n: Seq<char>| #[trigger] crate::text::texts(names@).contains(n) <==> frame_file_before(
                *info,
                i as int,
                0,
                n,
            ),
        decreases info.frames.len() - i,
    {
        let mut j: usize = 0;
        while j < info.frames[i].len()
            invariant
                i < info.frames@.len(),
                j <= info.frames@[i as int]@.len(),
                crate::text::texts(names@).no_duplicates(),
                forall|n: Seq<char>| #[trigger] crate::text::texts(names@).contains(n) <==> frame_file_before(
                    *info,
                    i as int,
                    j as int,
                    n,
                ),
            decreases info.frames@[i as int]@.len() - j,
        {
            if let Some((Some(file), _)) = &info.frames[i][j].place {
                add_text(&mut names, file);
            }
            proof {
                assert forall|n: Seq<char>| #[trigger] crate::text::texts(names@).contains(n) <==> frame_file_before(
                    *info,
                    i as int,
                    j + 1,
                    n,
                ) by {
                    lemma_frame_file_step(*info, i as int, j as int, n);
                }
            }
            j += 1;
        }
        proof {
            assert forall|n: Seq<char>| #[trigger] crate::text::texts(names@).contains(n) <==> frame_file_before(
                *info,
                i + 1,
                0,
                n,
            ) by {
                lemma_frame_file_next(*info, i as int, n);
            }
        }
        i += 1;
    }
    let mut k: usize = 0;
    while k < info.rows.len()
        invariant
            k <= info.rows@.len(),
            crate::text::texts(names@).no_duplicates(),
            forall|n: Seq<char>| #[trigger] crate::text::texts(names@).contains(n) <==> frame_file_before(
                *info,
                info.frames@.len() as int,
                0,
                n,
            ) || row_file_before(*info, k as int, n),
        decreases info.rows.len() - k,
    {
        if let Some(file) = &info.rows[k].file {
            add_text(&mut names, file);
        }
        proof {
            assert forall|n: Seq<char>| #[trigger] crate::text::texts(names@).contains(n) <==> frame_file_before(
                *info,
                info.frames@.len() as int,
                0,
                n,
            ) || row_file_before(*info, k + 1, n) by {
                lemma_row_file_step(*info, k as int, n);
            }
        }
        k += 1;
    }
    proof {
        assert forall|n: Seq<char>| #[trigger] crate::text::texts(names@).contains(n) <==> names_file(*info, n) by {
            let m = info.frames@.len() as int;
            if frame_file_before(*info, m, 0, n) {
                let (x, y) = choose|x: int, y: int| 0 <= x < info.frames@.len() && 0 <= y < info.frames@[x]@.len() && (x < m
                    || (x == m && y < 0)) && (#[trigger] info.frames@[x]@[y])@.file == Some(n);
                assert(info.frames@[x]@[y]@.file == Some(n));
            }
            if row_file_before(*info, info.rows@.len() as int, n) {
                let x = choose|x: int| 0 <= x < info.rows@.len() && x < info.rows@.len() as int && opt_view(
                    (#[trigger] info.rows@[x]).file,
                ) == Some(n);
                assert(opt_view(info.rows@[x].file) == Some(n));
            }
            if exists|i: int, j: int| 0 <= i < info.frames@.len() && 0 <= j < info.frames@[i]@.len() && (#[trigger] info.frames@[i]@[j])@.file == Some(n) {
                let (x, y) = choose|x: int, y: int| 0 <= x < info.frames@.len() && 0 <= y < info.frames@[x]@.len()
                    && (#[trigger] info.frames@[x]@[y])@.file == Some(n);
                assert(x < m || (x == m && y < 0));
            }
            if exists|i: int| 0 <= i < info.rows@.len() && opt_view((#[trigger] info.rows@[i]).file) == Some(n) {
                let x = choose|x: int| 0 <= x < info.rows@.len() && opt_view((#[trigger] info.rows@[x]).file) == Some(n);
                assert(x < info.rows@.len() as int);
            }
        }
    }
    names
}

} // verus!
