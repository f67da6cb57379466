//! Assembly of DWARF facts into symbols, lines and runtime intervals, on the
//! facts of a small synthetic SMM module (`VariableSmm`): `ValidateVariableName`
//! at `[0x240, 0x28c)` and `SmmVariableHandler` at `[0x28c, 0x2db)`, linked with
//! `.text` at `0x240`, loaded at a deliberately unaligned base.

use tsffs::dwarf::{
    lines_in_range, module_symbols, render_file_name, resolve_file_path, subprogram_range,
    symbol_extents_fit, symbol_intervals, unit_symbols, DwarfError, FileEntryFacts, LineInfo,
    LineRow, SubprogramFacts, SubprogramName, UnitFacts,
};
use tsffs::source_cov::SourceCache;

const FAKE_IMAGE_BASE: u64 = 0x0007_ffff_1234_0000;

fn fixture_rows() -> Vec<LineRow> {
    // One sequence, in program order.
    vec![
        (0x240, 1, 37, false),
        (0x250, 1, 38, false),
        (0x270, 1, 45, false),
        (0x28c, 1, 49, false),
        (0x2a4, 1, 50, false),
        (0x2bb, 1, 52, false),
        (0x2c2, 1, 53, false),
        (0x2c9, 1, 56, false),
        (0x2cf, 1, 56, false),
        (0x2d5, 1, 58, false),
        (0x2d9, 1, 59, false),
        (0x2db, 1, 59, true),
    ]
}

fn fixture_unit() -> UnitFacts {
    UnitFacts {
        has_line_program: true,
        rows: Ok(fixture_rows()),
        files: vec![(
            1,
            Some(FileEntryFacts {
                directory: None,
                name: "VariableSmm.c".to_string(),
                md5: None,
            }),
        )],
        subprograms: vec![
            SubprogramFacts {
                ranges: Ok(vec![(0x240, 0x28c)]),
                name: SubprogramName::Named("ValidateVariableName".to_string()),
            },
            SubprogramFacts {
                ranges: Ok(vec![(0x28c, 0x2db)]),
                name: SubprogramName::Named("SmmVariableHandler".to_string()),
            },
            // A declaration: no range.
            SubprogramFacts {
                ranges: Ok(vec![]),
                name: SubprogramName::Named("Declared".to_string()),
            },
        ],
        walk_error: None,
    }
}

fn fixture_cache() -> SourceCache {
    let mut cache = SourceCache::default();
    cache.add_file("/repo/tests/fixtures/dwarf/VariableSmm.c", b"/* source */");
    cache
}

#[test]
fn dwarf_module_symbols_resolve_synthetic_smm_handler() {
    let cache = fixture_cache();
    let name = "VariableSmm.efi".to_string();
    let symbols = module_symbols(FAKE_IMAGE_BASE, &name, &vec![fixture_unit()], &cache).unwrap();
    assert_eq!(symbols.len(), 2);
    assert!(symbol_extents_fit(FAKE_IMAGE_BASE, &symbols));
    let intervals = symbol_intervals(FAKE_IMAGE_BASE, symbols);
    let handler = intervals
        .iter()
        .find(|(_, _, s)| s.name == "SmmVariableHandler")
        .expect("handler symbol");
    assert_eq!(handler.0, FAKE_IMAGE_BASE + 0x28c);
    assert_eq!(handler.1, FAKE_IMAGE_BASE + 0x28c + 0x4f);
    let symbol = &handler.2;
    assert_eq!(symbol.module, "VariableSmm.efi");
    assert_eq!(symbol.base, FAKE_IMAGE_BASE);
    assert_eq!(symbol.rva, 0x28c);
    assert_eq!(symbol.size, 0x4f);
    let lines: Vec<(u64, u32)> = symbol.lines.iter().map(|l| (l.rva, l.start_line)).collect();
    assert_eq!(
        lines,
        vec![
            (0x28c, 49),
            (0x2a4, 50),
            (0x2bb, 52),
            (0x2c2, 53),
            (0x2c9, 56),
            (0x2cf, 56),
            (0x2d5, 58),
            (0x2d9, 59),
        ]
    );
    for line in &symbol.lines {
        assert_eq!(line.file_path, "/repo/tests/fixtures/dwarf/VariableSmm.c");
        assert_eq!(line.start_line, line.end_line);
    }
    let sizes: Vec<u32> = symbol.lines.iter().map(|l| l.size).collect();
    assert_eq!(sizes, vec![0x18, 0x17, 7, 7, 6, 6, 4, 2]);
}

#[test]
fn lines_in_range_sizes_by_the_next_row_and_skips_unusable_rows() {
    let rows: Vec<LineRow> = vec![
        (0x10, 1, 5, false),
        (0x14, 2, 6, false), // file 2 did not resolve
        (0x18, 1, 0, false), // no line
        (0x1c, 1, 7, false),
        (0x30, 1, 8, true), // end of sequence
    ];
    let files = vec![(1, Some("/a.c".to_string())), (2, None)];
    let lines = lines_in_range(&rows, 0x10, 0x20, &files);
    assert_eq!(
        lines,
        vec![
            LineInfo { rva: 0x10, size: 4, file_path: "/a.c".to_string(), start_line: 5, end_line: 5 },
            // The next row (0x30) lies past the range end: sized up to 0x20.
            LineInfo { rva: 0x1c, size: 4, file_path: "/a.c".to_string(), start_line: 7, end_line: 7 },
        ]
    );
    // Same address as the following row: at least one byte.
    let rows: Vec<LineRow> = vec![(0x10, 1, 5, false), (0x10, 1, 6, false)];
    let lines = lines_in_range(&rows, 0x10, 0x20, &files);
    assert_eq!(lines[0].size, 1);
    assert_eq!(lines[1].size, 0x10);
}

#[test]
fn subprogram_range_spans_all_ranges() {
    assert_eq!(subprogram_range(&[]), None);
    assert_eq!(subprogram_range(&[(5, 9)]), Some((5, 9)));
    assert_eq!(subprogram_range(&[(20, 30), (5, 9), (12, 40)]), Some((5, 40)));
}

#[test]
fn file_names_are_rendered_with_their_directory() {
    let with_dir = FileEntryFacts {
        directory: Some("MdePkg/Library".to_string()),
        name: "Base.c".to_string(),
        md5: None,
    };
    assert_eq!(render_file_name(&with_dir), "MdePkg/Library/Base.c");
    let bare = FileEntryFacts { directory: None, name: "Base.c".to_string(), md5: None };
    assert_eq!(render_file_name(&bare), "Base.c");
}

#[test]
fn file_paths_resolve_by_md5_first() {
    let mut cache = SourceCache::default();
    cache.add_file("/x/Library/Base.c", b"one");
    cache.add_file("/y/Other/Base.c", b"two");
    let by_md5 = FileEntryFacts {
        directory: Some("Library".to_string()),
        name: "Base.c".to_string(),
        md5: Some(md5::compute(b"two").0),
    };
    assert_eq!(resolve_file_path(&Some(by_md5), &cache), Some("/y/Other/Base.c".to_string()));
    let by_name = FileEntryFacts {
        directory: Some("Library".to_string()),
        name: "Base.c".to_string(),
        md5: None,
    };
    assert_eq!(resolve_file_path(&Some(by_name), &cache), Some("/x/Library/Base.c".to_string()));
    assert_eq!(resolve_file_path(&None, &cache), None);
}

#[test]
fn units_without_line_program_have_no_symbols() {
    let cache = fixture_cache();
    let mut unit = fixture_unit();
    unit.has_line_program = false;
    unit.walk_error = Some("ignored".to_string());
    let name = "m".to_string();
    assert_eq!(unit_symbols(0, &name, &unit, &cache).unwrap().len(), 0);
}

#[test]
fn unnamed_and_empty_subprograms_are_skipped() {
    let cache = fixture_cache();
    let mut unit = fixture_unit();
    unit.subprograms = vec![
        SubprogramFacts { ranges: Ok(vec![(0x30, 0x30)]), name: SubprogramName::Named("Empty".to_string()) },
        SubprogramFacts { ranges: Ok(vec![(0x240, 0x28c)]), name: SubprogramName::Unnamed },
        SubprogramFacts { ranges: Ok(vec![(0x28c, 0x2db)]), name: SubprogramName::Named("Kept".to_string()) },
    ];
    let name = "m".to_string();
    let symbols = unit_symbols(0, &name, &unit, &cache).unwrap();
    assert_eq!(symbols.len(), 1);
    assert_eq!(symbols[0].name, "Kept");
}

#[test]
fn errors_are_reported_in_walk_order() {
    let cache = fixture_cache();
    let name = "m".to_string();

    let mut unit = fixture_unit();
    unit.rows = Err("bad row".to_string());
    assert_eq!(unit_symbols(0, &name, &unit, &cache).unwrap_err(), DwarfError::LineProgram("bad row".to_string()));

    let mut unit = fixture_unit();
    unit.subprograms.insert(0, SubprogramFacts { ranges: Err("bad ranges".to_string()), name: SubprogramName::Unnamed });
    unit.walk_error = Some("bad die".to_string());
    assert_eq!(unit_symbols(0, &name, &unit, &cache).unwrap_err(), DwarfError::Ranges("bad ranges".to_string()));

    let mut unit = fixture_unit();
    unit.subprograms.push(SubprogramFacts { ranges: Ok(vec![(1, 2)]), name: SubprogramName::Unreadable("bad name".to_string()) });
    assert_eq!(unit_symbols(0, &name, &unit, &cache).unwrap_err(), DwarfError::Name("bad name".to_string()));

    // A name that is never read (empty range) is no error.
    let mut unit = fixture_unit();
    unit.subprograms.push(SubprogramFacts { ranges: Ok(vec![(2, 1)]), name: SubprogramName::Unreadable("unread".to_string()) });
    assert_eq!(unit_symbols(0, &name, &unit, &cache).unwrap().len(), 2);

    let mut unit = fixture_unit();
    unit.walk_error = Some("bad die".to_string());
    assert_eq!(module_symbols(0, &name, &vec![fixture_unit(), unit], &cache).unwrap_err(), DwarfError::DieWalk("bad die".to_string()));
}

#[test]
fn extents_that_overflow_are_detected() {
    let cache = fixture_cache();
    let name = "m".to_string();
    let symbols = module_symbols(u64::MAX - 0x100, &name, &vec![fixture_unit()], &cache).unwrap();
    assert!(!symbol_extents_fit(u64::MAX - 0x100, &symbols));
    let symbols = module_symbols(u64::MAX - 0x2db, &name, &vec![fixture_unit()], &cache).unwrap();
    assert!(symbol_extents_fit(u64::MAX - 0x2db, &symbols));
}

#[test]
fn rows_are_sorted_by_address_before_sizing() {
    let cache = fixture_cache();
    let name = "m".to_string();
    let in_order = unit_symbols(0, &name, &fixture_unit(), &cache).unwrap();
    let mut unit = fixture_unit();
    let mut rows = fixture_rows();
    rows.reverse();
    unit.rows = Ok(rows);
    let reversed = unit_symbols(0, &name, &unit, &cache).unwrap();
    assert_eq!(in_order.len(), reversed.len());
    for (a, b) in in_order.iter().zip(reversed.iter()) {
        assert_eq!(a.lines, b.lines);
    }
    // Validate's lines stop at the handler's start.
    assert_eq!(
        in_order[0].lines.iter().map(|l| (l.rva, l.size)).collect::<Vec<_>>(),
        vec![(0x240, 0x10), (0x250, 0x20), (0x270, 0x1c)]
    );
}
