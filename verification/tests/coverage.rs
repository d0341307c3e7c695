use crucible_test_context::context::TestContext;
use crucible_test_context::coverage::analysis::{branch_was_taken, extract_functions, is_conditional_branch_opcode};
use crucible_test_context::coverage::dwarf::{
    build_dwarf_source_map, build_symbol_name_map, file_names, read_debug_info, ResolvedPath,
};
use crucible_test_context::coverage::html::{
    build_cached_analysis, cached_rows, generate_coverage_html, generate_coverage_html_cached, measure_coverage,
    CoverageWriteStats, StatPercents,
};
use crucible_test_context::coverage::lcov::generate_bytecode_lcov;
use crucible_test_context::coverage::source_lcov::{
    covered_files, generate_source_lcov, is_user_source, workspace_root, SourceText,
};
use crucible_test_context::coverage::types::{BranchOutcomes, FunctionInfo};
use gimli::write::{Address, AttributeValue, DwarfUnit, EndianVec, LineProgram, LineString, Range, RangeList, Sections};
use solana_sbpf::ebpf;
use std::collections::HashMap;

/// A jump if equal and one if not equal, both on 32 bits.
const JEQ32_IMM: u8 = 0x16;
const JNE32_REG: u8 = 0x5e;

#[test]
fn recognizes_32_and_64_bit_conditional_branches() {
    assert!(is_conditional_branch_opcode(JEQ32_IMM));
    assert!(is_conditional_branch_opcode(JNE32_REG));
    assert!(is_conditional_branch_opcode(ebpf::JEQ_IMM));
    assert!(is_conditional_branch_opcode(ebpf::JNE_REG));
    assert!(!is_conditional_branch_opcode(ebpf::JA));
    assert!(!is_conditional_branch_opcode(ebpf::CALL_IMM));
    assert!(!is_conditional_branch_opcode(ebpf::CALL_REG));
    assert!(!is_conditional_branch_opcode(ebpf::EXIT));
    assert!(!is_conditional_branch_opcode(ebpf::ADD64_IMM));
}

#[test]
fn classifies_instruction_index_fallthrough() {
    assert!(!branch_was_taken(11, 12));
    assert!(branch_was_taken(11, 19));
}

fn token_elf() -> Vec<u8> {
    TestContext::new().svm.get_account(&spl_token::id()).unwrap().data
}

#[test]
fn functions_are_extracted_from_a_program() {
    let functions = extract_functions(&token_elf()).unwrap();
    assert!(!functions.is_empty());
    assert!(functions.windows(2).all(|w| w[0].entry_pc < w[1].entry_pc));
    assert!(extract_functions(&[1, 2, 3]).is_none());
}

#[test]
fn bytecode_records_count_hits_and_branches() {
    let functions = vec![
        FunctionInfo { name: "late".to_string(), entry_pc: 8 },
        FunctionInfo { name: "early".to_string(), entry_pc: 0 },
    ];
    let mut hits = HashMap::new();
    hits.insert(0, 3);
    hits.insert(2, 5);
    let mut branches = BranchOutcomes::new();
    branches.set(2, true, 4);
    let record = generate_bytecode_lcov("prog", &hits, &branches, &functions, 10, 3, None);
    assert_eq!(
        record,
        "TN:fuzzer\nSF:prog.bpf\nFN:1,early\nFN:9,late\nFNDA:3,early\nFNDA:0,late\nFNF:2\nFNH:1\n\
         DA:1,3\nDA:3,5\nLF:10\nLH:2\nBRDA:3,0,0,4\nBRDA:3,0,1,-\nBRF:6\nBRH:1\nend_of_record\n"
    );
}

#[test]
fn pages_show_functions_and_graphs() {
    let elf = token_elf();
    let mut hits = HashMap::new();
    hits.insert(0, 7);
    let rows = measure_coverage(&elf, &hits).unwrap();
    assert!(!rows.rows.is_empty());
    assert!(rows.rows.iter().all(|r| r.stats.hit_instructions <= r.stats.total_instructions));
    let percents = vec!["0.0".to_string(); rows.rows.len()];
    let page = generate_coverage_html("token", &rows, &percents, None);
    assert!(page.contains("token"));
    assert!(page.ends_with("</html>\n") || page.ends_with("</html>"));
    assert!(measure_coverage(&[0; 64], &hits).is_err());

    let cached = build_cached_analysis("token", &elf).unwrap();
    let again = cached_rows(&cached, &hits);
    assert_eq!(again.len(), cached.functions.len());
    let stats = CoverageWriteStats {
        run_time_secs: 61,
        executions: 12,
        edges_hit: 1,
        edges_total: 2,
        branches_hit: 3,
        branches_total: 4,
        instructions_hit: 5,
        instructions_total: 6,
    };
    let shown = StatPercents {
        edges: "50.0".to_string(),
        branches: "75.0".to_string(),
        instructions: "83.3".to_string(),
    };
    let percents = vec!["12.5".to_string(); cached.functions.len()];
    let page = generate_coverage_html_cached(&cached, &hits, &percents, Some((&stats, &shown)));
    assert!(page.contains("83.3"));
    assert!(page.contains("12.5"));
    assert!(build_cached_analysis("none", &[0; 64]).is_none());
}

#[test]
fn user_sources_are_told_from_libraries() {
    assert!(is_user_source("programs/vault/src/lib.rs", None));
    assert!(!is_user_source("src/lib.rs", None));
    assert!(!is_user_source("/home/u/.cargo/registry/src/x/lib.rs", None));
    assert!(is_user_source("/ws/src/lib.rs", Some("/ws")));
    assert!(!is_user_source("/other/src/lib.rs", Some("/ws")));
    assert_eq!(workspace_root("/ws/target/deploy/prog.so"), Some("/ws".to_string()));
    assert_eq!(workspace_root("/ws/prog.so"), None);
}

struct Section {
    name: &'static str,
    kind: u32,
    address: u64,
    data: Vec<u8>,
    link: u32,
    info: u32,
    entry: u64,
}

fn section(name: &'static str, kind: u32, address: u64, data: Vec<u8>) -> Section {
    Section { name, kind, address, data, link: 0, info: 0, entry: 0 }
}

fn put(out: &mut Vec<u8>, value: u64, bytes: usize) {
    out.extend_from_slice(&value.to_le_bytes()[..bytes]);
}

/// A 64-bit little-endian ELF file with these sections.
fn elf_file(mut sections: Vec<Section>) -> Vec<u8> {
    sections.insert(0, section("", 0, 0, Vec::new()));
    sections.push(section(".shstrtab", 3, 0, Vec::new()));
    let mut names: Vec<u8> = Vec::new();
    let mut name_at: Vec<u64> = Vec::new();
    for s in &sections {
        name_at.push(names.len() as u64);
        names.extend_from_slice(s.name.as_bytes());
        names.push(0);
    }
    let last = sections.len() - 1;
    sections[last].data = names;
    let mut body: Vec<u8> = Vec::new();
    let mut at: Vec<u64> = Vec::new();
    for s in &sections {
        while body.len() % 8 != 0 {
            body.push(0);
        }
        at.push(64 + body.len() as u64);
        body.extend_from_slice(&s.data);
    }
    while body.len() % 8 != 0 {
        body.push(0);
    }
    let table = 64 + body.len() as u64;
    let mut out: Vec<u8> = vec![0x7f, b'E', b'L', b'F', 2, 1, 1, 0, 0, 0, 0, 0, 0, 0, 0, 0];
    put(&mut out, 3, 2);
    put(&mut out, 247, 2);
    put(&mut out, 1, 4);
    put(&mut out, 0, 8);
    put(&mut out, 0, 8);
    put(&mut out, table, 8);
    put(&mut out, 0, 4);
    put(&mut out, 64, 2);
    put(&mut out, 0, 2);
    put(&mut out, 0, 2);
    put(&mut out, 64, 2);
    put(&mut out, sections.len() as u64, 2);
    put(&mut out, last as u64, 2);
    out.extend_from_slice(&body);
    for (i, s) in sections.iter().enumerate() {
        put(&mut out, name_at[i], 4);
        put(&mut out, s.kind as u64, 4);
        put(&mut out, 0, 8);
        put(&mut out, s.address, 8);
        put(&mut out, at[i], 8);
        put(&mut out, s.data.len() as u64, 8);
        put(&mut out, s.link as u64, 4);
        put(&mut out, s.info as u64, 4);
        put(&mut out, 1, 8);
        put(&mut out, s.entry, 8);
    }
    out
}

/// A program of four instructions at address 256: the first two belong to line 10 of `src/lib.rs`,
/// the others to line 12. One function covers them all.
fn debug_elf() -> Vec<u8> {
    elf_with_lines(None)
}

fn elf_with_lines(given: Option<Vec<u8>>) -> Vec<u8> {
    let encoding = gimli::Encoding { format: gimli::Format::Dwarf32, version: 4, address_size: 8 };
    let mut dwarf = DwarfUnit::new(encoding);
    let dir = LineString::String(b"/ws".to_vec());
    let name = LineString::String(b"src/lib.rs".to_vec());
    let mut lines = LineProgram::new(encoding, gimli::LineEncoding::default(), dir.clone(), None, name.clone(), None);
    let dir_id = lines.default_directory();
    let file = lines.add_file(name, dir_id, None);
    lines.begin_sequence(Some(Address::Constant(256)));
    lines.row().file = file;
    lines.row().line = 10;
    lines.row().address_offset = 0;
    lines.generate_row();
    lines.row().line = 12;
    lines.row().address_offset = 16;
    lines.generate_row();
    lines.end_sequence(32);
    dwarf.unit.line_program = lines;
    let ranges = dwarf.unit.ranges.add(RangeList(vec![Range::StartLength { begin: Address::Constant(256), length: 32 }]));
    let root = dwarf.unit.root();
    let entry = dwarf.unit.get_mut(root);
    entry.set(gimli::DW_AT_name, AttributeValue::String(b"src/lib.rs".to_vec()));
    entry.set(gimli::DW_AT_comp_dir, AttributeValue::String(b"/ws".to_vec()));
    entry.set(gimli::DW_AT_stmt_list, AttributeValue::LineProgramRef);
    entry.set(gimli::DW_AT_low_pc, AttributeValue::Address(Address::Constant(0)));
    entry.set(gimli::DW_AT_ranges, AttributeValue::RangeListRef(ranges));
    let function = dwarf.unit.add(root, gimli::DW_TAG_subprogram);
    let entry = dwarf.unit.get_mut(function);
    entry.set(gimli::DW_AT_name, AttributeValue::String(b"entry".to_vec()));
    entry.set(gimli::DW_AT_low_pc, AttributeValue::Address(Address::Constant(256)));
    entry.set(gimli::DW_AT_high_pc, AttributeValue::Udata(32));
    let mut written = Sections::new(EndianVec::new(gimli::LittleEndian));
    dwarf.write(&mut written).unwrap();

    let mut symbols: Vec<u8> = vec![0; 24];
    let mut strings: Vec<u8> = vec![0];
    for (name, address) in [("_ZN4prog5entry17h0123456789abcdefE", 256u64), ("other", 272)] {
        put(&mut symbols, strings.len() as u64, 4);
        symbols.push(0x12);
        symbols.push(0);
        put(&mut symbols, 1, 2);
        put(&mut symbols, address, 8);
        put(&mut symbols, 16, 8);
        strings.extend_from_slice(name.as_bytes());
        strings.push(0);
    }
    let mut sections = vec![section(".text", 1, 256, vec![0x95, 0, 0, 0, 0, 0, 0, 0].repeat(4))];
    let mut table = section(".symtab", 2, 0, symbols);
    table.link = 3;
    table.info = 1;
    table.entry = 24;
    sections.push(table);
    sections.push(section(".strtab", 3, 0, strings));
    for (name, data) in [
        (".debug_abbrev", written.debug_abbrev.0.take()),
        (".debug_info", written.debug_info.0.take()),
        (".debug_line", given.unwrap_or_else(|| written.debug_line.0.take())),
        (".debug_ranges", written.debug_ranges.0.take()),
        (".debug_str", written.debug_str.0.take()),
    ] {
        sections.push(section(name, 1, 0, data));
    }
    elf_file(sections)
}

#[test]
fn debug_information_is_read() {
    let elf = debug_elf();
    let info = read_debug_info(&elf).unwrap();
    assert_eq!(info.text_address, 256);
    assert_eq!(info.text_size, 32);
    assert_eq!(info.frames.len(), 4);
    assert_eq!(info.frames[0].len(), 1);
    assert_eq!(info.frames[0][0].function, Some(Some("entry".to_string())));
    assert_eq!(info.frames[0][0].place, Some((Some("/ws/src/lib.rs".to_string()), Some(10))));
    assert_eq!(info.frames[3][0].place, Some((Some("/ws/src/lib.rs".to_string()), Some(12))));
    assert_eq!(info.rows.iter().map(|r| (r.address, r.line)).collect::<Vec<_>>(), vec![(256, Some(10)), (272, Some(12))]);
    assert_eq!(info.symbols.len(), 2);
    assert_eq!(file_names(&info), vec!["/ws/src/lib.rs".to_string()]);
    assert!(read_debug_info(&token_elf()).is_none());
    assert!(read_debug_info(&[1, 2, 3]).is_none());

    let names = build_symbol_name_map(&elf).unwrap();
    assert_eq!(names.len(), 2);
    assert_eq!(names.get(&0).unwrap(), "prog::entry::h0123456789abcdef");
    assert_eq!(names.get(&2).unwrap(), "other");
    assert!(build_symbol_name_map(&[1, 2, 3]).is_none());
}

#[test]
fn source_records_follow_the_debug_information() {
    let info = read_debug_info(&debug_elf()).unwrap();
    let paths = vec![ResolvedPath { name: "/ws/src/lib.rs".to_string(), path: "/ws/src/lib.rs".to_string() }];
    let map = build_dwarf_source_map(&info, &paths);
    assert_eq!(map.pc_map.get(&1).unwrap()[0].line, 10);
    assert_eq!(map.pc_map.get(&2).unwrap()[0].line, 12);
    assert_eq!(map.fn_map.get(&0).unwrap().0, "entry");
    assert_eq!(map.executable_lines.len(), 1);
    assert_eq!(map.executable_lines[0].lines, vec![10, 12]);

    let mut hits = HashMap::new();
    hits.insert(0, 2);
    hits.insert(1, 3);
    let branches = BranchOutcomes::new();
    assert_eq!(covered_files(&hits, &branches, &map, Some("/ws")), vec!["/ws/src/lib.rs".to_string()]);
    let none: Vec<SourceText> = Vec::new();
    let (record, files) = generate_source_lcov(&hits, &branches, &map, &[], &none, Some("/ws"));
    assert_eq!(files, 1);
    assert!(record.starts_with("TN:fuzzer\nSF:/ws/src/lib.rs\n"));
    assert!(record.contains("DA:10,5\n"));
    assert!(record.contains("DA:12,0\n"));
    assert!(record.ends_with("end_of_record\n"));
    assert_eq!(generate_source_lcov(&hits, &branches, &map, &[], &none, Some("/elsewhere")).1, 0);
}

#[test]
fn hits_without_a_place_change_no_record() {
    let info = read_debug_info(&debug_elf()).unwrap();
    let paths = vec![ResolvedPath { name: "/ws/src/lib.rs".to_string(), path: "/ws/src/lib.rs".to_string() }];
    let map = build_dwarf_source_map(&info, &paths);
    assert!(map.pc_map.keys().chain(map.fn_map.keys()).all(|pc| *pc < 4), "all counters stand in the text");
    let mut hits = HashMap::new();
    hits.insert(0, 2);
    hits.insert(3, 3);
    let branches = BranchOutcomes::new();
    let none: Vec<SourceText> = Vec::new();
    let functions = [FunctionInfo { entry_pc: 0, name: "entry".to_string() }];
    let first = generate_source_lcov(&hits, &branches, &map, &functions, &none, Some("/ws"));
    hits.insert(99, 5);
    assert_eq!(generate_source_lcov(&hits, &branches, &map, &functions, &none, Some("/ws")), first);
    assert_eq!(covered_files(&hits, &branches, &map, Some("/ws")), vec!["/ws/src/lib.rs".to_string()]);
}

/// A line table of two rows, at these addresses, and its end 16 bytes behind the second.
fn line_table(first: u64, second: u64) -> Vec<u8> {
    let mut body: Vec<u8> = vec![1, 1, 1, 0xfb, 14, 13, 0, 1, 1, 1, 1, 0, 0, 0, 1, 0, 0, 1, 0];
    body.extend_from_slice(b"lib.rs\0");
    body.extend_from_slice(&[0, 0, 0, 0]);
    let header_length = body.len() as u64;
    for address in [first, second] {
        body.extend_from_slice(&[0, 9, 2]);
        put(&mut body, address, 8);
        body.extend_from_slice(&[3, 4, 1]);
    }
    body.extend_from_slice(&[2, 16, 0, 1, 1]);
    let mut table: Vec<u8> = Vec::new();
    put(&mut table, body.len() as u64 + 6, 4);
    put(&mut table, 4, 2);
    put(&mut table, header_length, 4);
    table.extend_from_slice(&body);
    table
}

#[test]
fn a_line_table_that_falls_gives_no_rows() {
    let rising = read_debug_info(&elf_with_lines(Some(line_table(256, 272)))).unwrap();
    assert_eq!(rising.rows.iter().map(|r| (r.address, r.line)).collect::<Vec<_>>(), vec![(256, Some(5)), (272, Some(9))]);
    let falling = read_debug_info(&elf_with_lines(Some(line_table(272, 256)))).unwrap();
    assert!(falling.rows.is_empty());
    assert_eq!(falling.frames.len(), 4);
}

#[test]
fn a_text_that_ends_within_an_instruction_is_not_analyzed() {
    let mut elf = token_elf();
    assert!(extract_functions(&elf).is_some());
    let word = |b: &[u8], at: usize| u64::from_le_bytes(b[at..at + 8].try_into().unwrap()) as usize;
    let table = word(&elf, 40);
    let count = u16::from_le_bytes([elf[60], elf[61]]) as usize;
    let text = (0..count).map(|i| table + 64 * i).find(|at| elf[at + 8] & 4 != 0).unwrap();
    let size = word(&elf, text + 32) as u64 - 4;
    elf[text + 32..text + 40].copy_from_slice(&size.to_le_bytes());
    assert!(extract_functions(&elf).is_none());
    assert!(build_cached_analysis("token", &elf).is_none());
}

#[test]
fn only_the_page_of_a_running_campaign_is_refreshed() {
    let elf = token_elf();
    let hits = HashMap::new();
    let tag = "<meta http-equiv=\"refresh\" content=\"5\">";
    let rows = measure_coverage(&elf, &hits).unwrap();
    let percents = vec!["0.0".to_string(); rows.rows.len()];
    assert!(generate_coverage_html("token", &rows, &percents, None).contains(tag));
    let cached = build_cached_analysis("token", &elf).unwrap();
    let percents = vec!["0.0".to_string(); cached.functions.len()];
    assert!(!generate_coverage_html_cached(&cached, &hits, &percents, None).contains(tag));
}

#[test]
fn a_text_is_split_into_lines() {
    for text in ["", "\n", "a", "a\n", "a\r\nb", "a\n\nb\n", "a\r", "a\r\r\n", "\r\n\r\n", "a\rb\nc\r\n"] {
        let source = SourceText::new("f.rs", text);
        assert_eq!(source.lines, text.lines().map(str::to_string).collect::<Vec<_>>(), "{:?}", text);
        assert_eq!(source.file, "f.rs");
    }
}
