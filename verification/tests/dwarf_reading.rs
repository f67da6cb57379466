//! Assembly of DWARF as read (every DIE and line row of every unit, unfiltered)
//! into symbols: the subprogram filter, name resolution through
//! `DW_AT_abstract_origin`/`DW_AT_specification` across units, the file table
//! and line defaults, on a small synthetic SMM module (`VariableSmm`) loaded at a
//! deliberately unaligned base.

use tsffs::dwarf::{
    dwarf_symbols, module_intervals, resolve_name, unit_facts, DieFacts, DieRef, DwarfError,
    ModuleIntervalsError, RawFileEntry, RawLineRow, SubprogramName, UnitDump, DW_TAG_SUBPROGRAM,
};
use tsffs::source_cov::SourceCache;

const FAKE_IMAGE_BASE: u64 = 0x0007_ffff_1234_0000;
const DW_TAG_COMPILE_UNIT: u16 = 0x11;
const DW_TAG_VARIABLE: u16 = 0x34;

fn source_file(directory_index: u64, directory: Option<&str>) -> Option<RawFileEntry> {
    Some(RawFileEntry {
        directory_index,
        directory: directory.map(|d| Ok(d.to_string())),
        name: Ok("VariableSmm.c".to_string()),
        md5: None,
    })
}

fn row(address: u64, line: u64, end_sequence: bool) -> RawLineRow {
    RawLineRow {
        address,
        file_index: 1,
        line: Some(line),
        end_sequence,
        file: source_file(0, Some("/build/dir")),
    }
}

fn die(offset: u64, tag: u16, name: Option<&str>, ranges: Vec<(u64, u64)>) -> DieFacts {
    DieFacts {
        offset,
        tag,
        name: name.map(|n| Ok(n.to_string())),
        abstract_origin: None,
        specification: None,
        ranges: Ok(ranges),
    }
}

/// Unit 0 holds the concrete subprograms, named through references; unit 1
/// (starting at section offset 0x100) holds the abstract instance that names the
/// handler.
fn fixture_units() -> Vec<UnitDump> {
    let mut validate = die(0x30, DW_TAG_SUBPROGRAM, None, vec![(0x240, 0x28c)]);
    validate.specification = Some(DieRef::UnitOffset(0x50));
    let mut handler = die(0x40, DW_TAG_SUBPROGRAM, None, vec![(0x28c, 0x2db)]);
    handler.abstract_origin = Some(DieRef::SectionOffset(0x120));
    handler.specification = Some(DieRef::UnitOffset(0x50));
    vec![
        UnitDump {
            offset: Some(0),
            header_size: 0x0b,
            length: 0x100,
            line_program: Some(Ok(vec![
                row(0x240, 37, false),
                row(0x250, 38, false),
                row(0x270, 45, false),
                row(0x28c, 49, false),
                row(0x2a4, 50, false),
                row(0x2bb, 52, false),
                row(0x2c2, 53, false),
                row(0x2c9, 56, false),
                row(0x2cf, 56, false),
                row(0x2d5, 58, false),
                row(0x2d9, 59, false),
                row(0x2db, 59, true),
            ])),
            dies: vec![
                die(0x0b, DW_TAG_COMPILE_UNIT, Some("VariableSmm.c"), vec![(0x240, 0x2db)]),
                die(0x20, DW_TAG_VARIABLE, Some("mBuffer"), vec![]),
                validate,
                handler,
                die(0x50, DW_TAG_SUBPROGRAM, Some("ValidateVariableName"), vec![]),
            ],
            walk_error: None,
        },
        UnitDump {
            offset: Some(0x100),
            header_size: 0x0b,
            length: 0x100,
            line_program: None,
            dies: vec![die(0x20, DW_TAG_SUBPROGRAM, Some("SmmVariableHandler"), vec![])],
            walk_error: None,
        },
    ]
}

fn fixture_cache() -> SourceCache {
    let mut cache = SourceCache::default();
    cache.add_file("/repo/tests/fixtures/dwarf/VariableSmm.c", b"/* source */");
    cache
}

#[test]
fn dwarf_module_intervals_resolves_synthetic_smm_handler() {
    let units = fixture_units();
    let cache = fixture_cache();
    let symbols = dwarf_symbols(FAKE_IMAGE_BASE, &"VariableSmm.efi".to_string(), &units, &cache).unwrap();
    let names: Vec<&str> = symbols.iter().map(|s| s.name.as_str()).collect();
    assert_eq!(names, vec!["ValidateVariableName", "SmmVariableHandler"]);
    let intervals =
        module_intervals(FAKE_IMAGE_BASE, &"VariableSmm.efi".to_string(), &units, &cache).unwrap();
    let handler = intervals
        .iter()
        .find(|(_, _, s)| s.name == "SmmVariableHandler")
        .unwrap_or_else(|| panic!("no SymbolInfo named \"SmmVariableHandler\""));
    assert_eq!(handler.0, FAKE_IMAGE_BASE + 0x28c);
    assert_eq!(handler.1, FAKE_IMAGE_BASE + 0x28c + 0x4f);
    let symbol = &handler.2;
    assert_eq!(symbol.module, "VariableSmm.efi");
    assert_eq!(symbol.base, FAKE_IMAGE_BASE);
    assert_eq!(symbol.rva, 0x28c);
    assert_eq!(symbol.size, 0x4f);
    assert!(0x240 <= symbol.rva);
    let lines: Vec<(u64, u32)> = symbol.lines.iter().map(|l| (l.rva, l.start_line)).collect();
    assert_eq!(
        lines,
        vec![
            (0x28c, 49),
            (0x2a4, 50),
            (0x2bb, 52),
            (0x2c2, 53),
            (0x2c9, 56),
            (0x2cf, 56),
            (0x2d5, 58),
            (0x2d9, 59),
        ]
    );
    for line in &symbol.lines {
        assert_eq!(line.file_path, "/repo/tests/fixtures/dwarf/VariableSmm.c");
        assert_eq!(line.start_line, line.end_line);
    }
}

#[test]
fn names_follow_the_abstract_origin_before_the_specification() {
    let units = fixture_units();
    // Own name.
    assert!(matches!(resolve_name(&units, 0, 4), SubprogramName::Named(n) if n == "ValidateVariableName"));
    // Specification, a unit offset: the DIE 0x50 into unit 0.
    assert!(matches!(resolve_name(&units, 0, 2), SubprogramName::Named(n) if n == "ValidateVariableName"));
    // Abstract origin wins over the specification, and lives in unit 1.
    assert!(matches!(resolve_name(&units, 0, 3), SubprogramName::Named(n) if n == "SmmVariableHandler"));
}

#[test]
fn unresolvable_references_leave_the_subprogram_unnamed() {
    let mut units = fixture_units();
    // A section offset outside every unit's DIE data.
    units[0].dies[3].abstract_origin = Some(DieRef::SectionOffset(0x300));
    assert!(matches!(resolve_name(&units, 0, 3), SubprogramName::Unnamed));
    // A unit offset of unit 1 is relative to unit 1's start; the section offset
    // 0x120 lands 0x20 into unit 1.
    units[1].dies.push(die(0x50, DW_TAG_SUBPROGRAM, None, vec![(1, 2)]));
    units[1].dies[1].abstract_origin = Some(DieRef::UnitOffset(0x20));
    assert!(matches!(resolve_name(&units, 1, 1), SubprogramName::Named(n) if n == "SmmVariableHandler"));
    units[1].dies[1].abstract_origin = Some(DieRef::Other);
    assert!(matches!(resolve_name(&units, 1, 1), SubprogramName::Unnamed));
    // An unreadable name is reported as such.
    units[1].dies[0].name = Some(Err("bad form".to_string()));
    units[1].dies[1].abstract_origin = Some(DieRef::SectionOffset(0x120));
    assert!(matches!(resolve_name(&units, 1, 1), SubprogramName::Unreadable(e) if e == "bad form"));
}

#[test]
fn unit_facts_keep_subprograms_first_file_entries_and_default_lines() {
    let mut units = fixture_units();
    if let Some(Ok(rows)) = &mut units[0].line_program {
        rows[1].line = None;
        rows[2].file_index = 2;
        rows[2].file = source_file(3, Some("Library"));
        rows[3].file = None; // a later row of file 1: its entry is not looked at
    }
    let facts = unit_facts(&units, 0);
    assert!(facts.has_line_program);
    let rows = facts.rows.as_ref().unwrap();
    assert_eq!(rows[0], (0x240, 1, 37, false));
    assert_eq!(rows[1], (0x250, 1, 0, false));
    assert_eq!(rows.len(), 12);
    // Subprograms only, in DIE order.
    assert_eq!(facts.subprograms.len(), 3);
    // File 1 first (compilation directory left out), then file 2 with its
    // directory.
    assert_eq!(facts.files.len(), 2);
    assert_eq!(facts.files[0].0, 1);
    let f1 = facts.files[0].1.as_ref().unwrap();
    assert_eq!(f1.directory, None);
    assert_eq!(f1.name, "VariableSmm.c");
    assert_eq!(facts.files[1].0, 2);
    assert_eq!(facts.files[1].1.as_ref().unwrap().directory, Some("Library".to_string()));

    let no_program = unit_facts(&units, 1);
    assert!(!no_program.has_line_program);
}

#[test]
fn unreadable_file_names_and_reading_errors() {
    let mut units = fixture_units();
    if let Some(Ok(rows)) = &mut units[0].line_program {
        rows[0].file = Some(RawFileEntry {
            directory_index: 2,
            directory: Some(Err("bad dir".to_string())),
            name: Ok("X.c".to_string()),
            md5: None,
        });
    }
    let facts = unit_facts(&units, 0);
    assert!(facts.files[0].1.is_none());

    let cache = fixture_cache();
    let name = "m".to_string();
    let mut units = fixture_units();
    units[0].line_program = Some(Err("bad row".to_string()));
    assert_eq!(
        dwarf_symbols(0, &name, &units, &cache).unwrap_err(),
        DwarfError::LineProgram("bad row".to_string())
    );
    let mut units = fixture_units();
    units[0].walk_error = Some("bad die".to_string());
    assert_eq!(
        dwarf_symbols(0, &name, &units, &cache).unwrap_err(),
        DwarfError::DieWalk("bad die".to_string())
    );
}

#[test]
fn symbols_move_with_the_base() {
    let units = fixture_units();
    let cache = fixture_cache();
    let name = "VariableSmm.efi".to_string();
    let ia = module_intervals(0x1000, &name, &units, &cache).unwrap();
    let ib = module_intervals(FAKE_IMAGE_BASE, &name, &units, &cache).unwrap();
    assert_eq!(ia.len(), ib.len());
    for (a, b) in ia.iter().zip(ib.iter()) {
        assert_eq!(a.0 - 0x1000 + FAKE_IMAGE_BASE, b.0);
        assert_eq!(a.1 - 0x1000 + FAKE_IMAGE_BASE, b.1);
        assert_eq!(a.2.rva, b.2.rva);
        assert_eq!(a.2.size, b.2.size);
        assert_eq!(a.2.name, b.2.name);
        assert_eq!(a.2.lines, b.2.lines);
        assert_eq!(b.2.base, FAKE_IMAGE_BASE);
    }
}

#[test]
fn an_extent_past_the_address_space_is_an_error() {
    let units = fixture_units();
    let cache = fixture_cache();
    let name = "m".to_string();
    assert_eq!(
        module_intervals(u64::MAX - 0x2da, &name, &units, &cache).unwrap_err(),
        ModuleIntervalsError::AddressOverflow
    );
    assert!(module_intervals(u64::MAX - 0x2db, &name, &units, &cache).is_ok());
    let mut units = fixture_units();
    units[0].walk_error = Some("bad die".to_string());
    assert_eq!(
        module_intervals(0, &name, &units, &cache).unwrap_err(),
        ModuleIntervalsError::Dwarf(DwarfError::DieWalk("bad die".to_string()))
    );
}
