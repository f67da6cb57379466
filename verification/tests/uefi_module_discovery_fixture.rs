//! Module-list parsing and local debug-info resolution against the confirmed
//! shape of the tracker's `list-modules` output: a list of positional rows
//! `[Module, Loaded Address, Size, Adjusted Address, Adjusted Size]`, with a real
//! duplicate-name case (`BootScriptExecutorDxe.efi` twice) and a module with no
//! known image name (`<unknown>`).

use std::path::{Path, PathBuf};

use tsffs::uefi::{
    parse_module_list, resolve_one, AttrValueType, ModuleColumn, ModuleListError, ResolveError,
    ResolvedVia, UefiOsInfo,
};
use tsffs::util::path_suffix_index::PathSuffixIndex;

struct FixtureRow {
    name: &'static str,
    base: u64,
    size: u64,
}

const FIXTURE_ROWS: &[FixtureRow] = &[
    FixtureRow {
        name: "DxeCore.efi",
        base: 3_744_034_816,
        size: 189_184,
    },
    FixtureRow {
        name: "PcdDxe.efi",
        base: 3_740_880_896,
        size: 23_680,
    },
    FixtureRow {
        name: "BootScriptExecutorDxe.efi",
        base: 3_739_889_664,
        size: 84_224,
    },
    FixtureRow {
        name: "BootScriptExecutorDxe.efi",
        base: 3_722_764_288,
        size: 84_224,
    },
    FixtureRow {
        name: "<unknown>",
        base: 3_722_997_760,
        size: 195_360,
    },
];

fn fixture_attr_value(rows: &[FixtureRow]) -> AttrValueType {
    AttrValueType::List(
        rows.iter()
            .map(|row| {
                AttrValueType::List(vec![
                    AttrValueType::String(row.name.to_string()),
                    AttrValueType::Signed(row.base as i64),
                    AttrValueType::Signed(row.size as i64),
                    AttrValueType::String(String::new()),
                    AttrValueType::String(String::new()),
                ])
            })
            .collect(),
    )
}

#[test]
fn parses_confirmed_real_module_list_shape_with_duplicate_names() -> Result<(), ModuleListError> {
    let parsed = parse_module_list(&fixture_attr_value(FIXTURE_ROWS))?;
    assert_eq!(parsed.len(), FIXTURE_ROWS.len());

    for (row, (name, base, size, embedded_path)) in FIXTURE_ROWS.iter().zip(parsed.iter()) {
        assert_eq!(name, row.name);
        assert_eq!(*base, row.base);
        assert_eq!(*size, row.size);
        assert_eq!(PathBuf::from(embedded_path), PathBuf::from(row.name));
    }

    let dup: Vec<_> = parsed
        .iter()
        .filter(|(name, ..)| name == "BootScriptExecutorDxe.efi")
        .collect();
    assert_eq!(
        dup.len(),
        2,
        "expected exactly 2 parsed entries for the real observed duplicate-name module"
    );
    assert_ne!(
        dup[0].1, dup[1].1,
        "the two entries must have distinct base addresses (the only thing distinguishing them)"
    );
    assert_eq!(
        dup[0].3, dup[1].3,
        "list-modules gives both the exact same bare-name embedded_path -- there is no way to \
         tell them apart by path"
    );

    assert!(
        parsed.iter().any(|(name, ..)| name == "<unknown>"),
        "expected the real observed \"<unknown>\" module name to survive parsing unchanged"
    );

    Ok(())
}

struct HandBuiltModuleRow {
    embedded_path: String,
    base: u64,
    size: u64,
}

const PREFIX: &str =
    "/home/mtarral/tsffs-bmc-bios-poc/bios-x58i/project/workspace/Build/SimicsOpenBoardPkg/BoardX58Ich10/DEBUG_GCC/X64";

fn hand_built_rows() -> Vec<HandBuiltModuleRow> {
    vec![
        HandBuiltModuleRow {
            embedded_path: format!(
                "{PREFIX}/PkgA/Universal/BootScriptExecutorDxe/DEBUG/BootScriptExecutorDxe.efi"
            ),
            base: 3_739_889_664,
            size: 84_224,
        },
        HandBuiltModuleRow {
            embedded_path: format!(
                "{PREFIX}/PkgB/Universal/BootScriptExecutorDxe/DEBUG/BootScriptExecutorDxe.efi"
            ),
            base: 3_722_764_288,
            size: 84_224,
        },
    ]
}

/// The files a walk of `root` would find, for files laid out at the given
/// relative paths.
fn walked(root: &Path, relative: &[&str]) -> Vec<String> {
    relative
        .iter()
        .map(|r| root.join(r).to_string_lossy().into_owned())
        .collect()
}

#[test]
fn resolves_duplicate_names_via_path_suffix_disambiguation_given_full_paths() {
    let root = Path::new("/tmp/tsffs-fixture-root");

    let rows = hand_built_rows();
    let modules: Vec<(String, u64, u64, String)> = rows
        .iter()
        .map(|row| {
            (
                "BootScriptExecutorDxe.efi".to_string(),
                row.base,
                row.size,
                row.embedded_path.clone(),
            )
        })
        .collect();

    let mut suffixes = Vec::new();
    let mut expected_local_paths = Vec::new();
    for row in &rows {
        let suffix = row
            .embedded_path
            .rsplit_once("X64/")
            .expect("fixture embedded path contains the X64/ prefix marker")
            .1;
        suffixes.push(suffix);
        expected_local_paths.push((row.embedded_path.clone(), root.join(suffix)));
    }
    let files = walked(root, &suffixes);

    let (info, _) = UefiOsInfo::resolve(&modules, &files).expect("both modules resolve");
    assert_eq!(info.modules.len(), 2);

    for (name, base, resolved_path) in &info.modules {
        let row = rows
            .iter()
            .find(|row| row.base == *base)
            .expect("resolved module base matches a fixture row");
        let expected = &expected_local_paths
            .iter()
            .find(|(e, _)| *e == row.embedded_path)
            .expect("fixture row has a corresponding local fixture file")
            .1;

        assert_eq!(
            &PathBuf::from(resolved_path),
            expected,
            "module {name} (base {base:#x}) resolved to the wrong local file; path-suffix \
             disambiguation failed"
        );
    }

    assert_ne!(
        info.modules[0].2, info.modules[1].2,
        "the two same-named modules must resolve to distinct local files when given distinct \
         full embedded paths"
    );
}

#[test]
fn resolve_falls_open_on_the_real_duplicate_name_case() {
    let root = Path::new("/tmp/tsffs-fixture-root");

    let modules: Vec<_> = parse_module_list(&fixture_attr_value(FIXTURE_ROWS))
        .expect("fixture parses")
        .into_iter()
        .filter(|(name, ..)| name == "BootScriptExecutorDxe.efi")
        .collect();
    assert_eq!(modules.len(), 2);

    let path_1 = root
        .join("unrelated_layout_one")
        .join("BootScriptExecutorDxe.efi");
    let path_2 = root
        .join("unrelated_layout_two")
        .join("BootScriptExecutorDxe.efi");
    // A walk may report the files in either order.
    let files = vec![
        path_2.to_string_lossy().into_owned(),
        path_1.to_string_lossy().into_owned(),
    ];

    let (info, vias) =
        UefiOsInfo::resolve(&modules, &files).expect("fail open: both modules resolve");
    assert_eq!(info.modules.len(), 2);
    // Both are reported as ambiguous (what the caller warns about).
    assert_eq!(vias, vec![ResolvedVia::AmbiguousStem(2), ResolvedVia::AmbiguousStem(2)]);

    let mut sorted_candidates = [path_1.clone(), path_2.clone()];
    sorted_candidates.sort();
    let expected_fail_open_path = sorted_candidates[0].clone();

    for (name, _base, resolved_path) in &info.modules {
        assert_eq!(name, "BootScriptExecutorDxe.efi");
        assert_eq!(
            PathBuf::from(resolved_path),
            expected_fail_open_path,
            "expected fail-open fallback to deterministically pick the first (sorted) \
             ambiguous candidate"
        );
    }

    // The resolution is reported as ambiguous (what the caller warns about).
    let mut index = PathSuffixIndex::new();
    for f in &files {
        index.insert(f);
    }
    let resolved = resolve_one(&index, &files, &modules[0].0, &modules[0].3).expect("resolves");
    assert_eq!(resolved.via, ResolvedVia::AmbiguousStem(2));
}

#[test]
fn parse_rejects_a_value_that_is_not_a_list() {
    assert_eq!(
        parse_module_list(&AttrValueType::Nil).unwrap_err(),
        ModuleListError::NotAList
    );
    assert_eq!(
        parse_module_list(&AttrValueType::String("x".to_string())).unwrap_err(),
        ModuleListError::NotAList
    );
}

#[test]
fn parse_rejects_a_row_that_is_not_a_list() {
    let value = AttrValueType::List(vec![AttrValueType::Dict(vec![])]);
    assert_eq!(
        parse_module_list(&value).unwrap_err(),
        ModuleListError::RowNotAList
    );
}

#[test]
fn parse_rejects_a_row_with_too_few_columns() {
    let value = AttrValueType::List(vec![AttrValueType::List(vec![
        AttrValueType::String("A.efi".to_string()),
        AttrValueType::Unsigned(1),
    ])]);
    assert_eq!(
        parse_module_list(&value).unwrap_err(),
        ModuleListError::TooFewColumns(2)
    );
}

#[test]
fn parse_rejects_bad_columns_and_reports_the_first_bad_row() {
    let good = AttrValueType::List(vec![
        AttrValueType::String("A.efi".to_string()),
        AttrValueType::Unsigned(0x1000),
        AttrValueType::Unsigned(0x20),
    ]);
    let bad_name = AttrValueType::List(vec![
        AttrValueType::Unsigned(5),
        AttrValueType::Unsigned(0x1000),
        AttrValueType::Unsigned(0x20),
    ]);
    let negative_base = AttrValueType::List(vec![
        AttrValueType::String("B.efi".to_string()),
        AttrValueType::Signed(-1),
        AttrValueType::Unsigned(0x20),
    ]);
    let bad_size = AttrValueType::List(vec![
        AttrValueType::String("C.efi".to_string()),
        AttrValueType::Unsigned(1),
        AttrValueType::Bool(true),
    ]);
    assert_eq!(
        parse_module_list(&AttrValueType::List(vec![bad_name])).unwrap_err(),
        ModuleListError::NotAString(ModuleColumn::Module)
    );
    assert_eq!(
        parse_module_list(&AttrValueType::List(vec![negative_base])).unwrap_err(),
        ModuleListError::NotAnUnsigned(ModuleColumn::LoadedAddress)
    );
    assert_eq!(
        parse_module_list(&AttrValueType::List(vec![good, bad_size])).unwrap_err(),
        ModuleListError::NotAnUnsigned(ModuleColumn::Size)
    );
}

#[test]
fn parse_accepts_unsigned_and_non_negative_signed_columns_and_ignores_extra_ones() {
    let value = AttrValueType::List(vec![AttrValueType::List(vec![
        AttrValueType::String("A.efi".to_string()),
        AttrValueType::Unsigned(u64::MAX),
        AttrValueType::Signed(0),
        AttrValueType::Unsigned(7),
        AttrValueType::Nil,
        AttrValueType::Float,
    ])]);
    let parsed = parse_module_list(&value).unwrap();
    assert_eq!(
        parsed,
        vec![("A.efi".to_string(), u64::MAX, 0, "A.efi".to_string())]
    );
    assert_eq!(parse_module_list(&AttrValueType::List(vec![])).unwrap(), vec![]);
}

#[test]
fn resolve_fails_when_no_local_file_matches() {
    let modules = vec![(
        "Missing.efi".to_string(),
        1,
        2,
        "Missing.efi".to_string(),
    )];
    let files = vec!["/root/Other.efi".to_string()];
    assert_eq!(
        UefiOsInfo::resolve(&modules, &files).unwrap_err(),
        ResolveError::NoLocalDebugInfo {
            name: "Missing.efi".to_string(),
            embedded_path: "Missing.efi".to_string(),
        }
    );
}

#[test]
fn resolve_falls_back_to_the_stem_across_extensions() {
    // The embedded `.efi` name has no suffix match, but its stem matches the
    // local `.debug` file.
    let modules = vec![(
        "VariableSmm.efi".to_string(),
        0x1000,
        0x20,
        "VariableSmm.efi".to_string(),
    )];
    let files = vec![
        "/build/X64/VariableSmm.debug".to_string(),
        "/build/X64/Other.debug".to_string(),
    ];
    let (info, vias) = UefiOsInfo::resolve(&modules, &files).unwrap();
    assert_eq!(vias, vec![ResolvedVia::Stem]);
    assert_eq!(
        info.modules,
        vec![(
            "VariableSmm.efi".to_string(),
            0x1000,
            "/build/X64/VariableSmm.debug".to_string()
        )]
    );
    let mut index = PathSuffixIndex::new();
    for f in &files {
        index.insert(f);
    }
    let r = resolve_one(&index, &files, "VariableSmm.efi", "VariableSmm.efi").unwrap();
    assert_eq!(r.via, ResolvedVia::Stem);
}

#[test]
fn resolve_prefers_a_unique_suffix_match() {
    let files = vec![
        "/build/PkgA/DEBUG/Foo.efi".to_string(),
        "/build/PkgB/DEBUG/Foo.efi".to_string(),
    ];
    let mut index = PathSuffixIndex::new();
    for f in &files {
        index.insert(f);
    }
    let r = resolve_one(&index, &files, "Foo.efi", "C:\\ws\\PkgB\\DEBUG\\Foo.efi").unwrap();
    assert_eq!(r.path, "/build/PkgB/DEBUG/Foo.efi");
    assert_eq!(r.via, ResolvedVia::PathSuffix);
}

#[test]
fn resolve_uses_the_name_when_the_embedded_path_has_no_stem() {
    let files = vec!["/build/Named.debug".to_string()];
    let mut index = PathSuffixIndex::new();
    for f in &files {
        index.insert(f);
    }
    // An empty embedded path has no file stem: the module name is searched for.
    let r = resolve_one(&index, &files, "Named", "").unwrap();
    assert_eq!(r.path, "/build/Named.debug");
    assert_eq!(r.via, ResolvedVia::Stem);
}

#[test]
fn ambiguous_stem_takes_the_first_in_path_order_not_string_order() {
    // Component-wise, `a` sorts before `a-x`; as plain strings, `/a-x/..` sorts
    // before `/a/..` ('-' < '/').
    let files = vec![
        "/root/b/Dup.debug".to_string(),
        "/root/a-x/Dup.debug".to_string(),
        "/root/a/Dup.efi".to_string(),
    ];
    let mut index = PathSuffixIndex::new();
    for f in &files {
        index.insert(f);
    }
    let r = resolve_one(&index, &files, "Dup.efi", "Elsewhere/Dup.map").unwrap();
    assert_eq!(r.path, "/root/a/Dup.efi");
    assert_eq!(r.via, ResolvedVia::AmbiguousStem(3));

    let mut sorted: Vec<PathBuf> = files.iter().map(PathBuf::from).collect();
    sorted.sort();
    assert_eq!(PathBuf::from(&r.path), sorted[0]);
}

#[test]
fn stems_split_at_the_last_dot_unless_it_leads() {
    let files = vec![
        "/b/.cfg".to_string(),
        "/b/Dxe.debug".to_string(),
        "/b/Dxe.x.debug".to_string(),
    ];
    let mut index = PathSuffixIndex::new();
    for f in &files {
        index.insert(f);
    }
    // `.cfg` has no extension: its stem is the whole name.
    let r = resolve_one(&index, &files, "n", "other/.cfg.efi").unwrap();
    assert_eq!(r.path, "/b/.cfg");
    assert_eq!(r.via, ResolvedVia::Stem);
    // Only the last extension is dropped.
    let r = resolve_one(&index, &files, "n", "Dxe.x.efi").unwrap();
    assert_eq!(r.path, "/b/Dxe.x.debug");
    // Without a file name in the embedded path, the module name is used.
    let r = resolve_one(&index, &files, "Dxe", "..").unwrap();
    assert_eq!(r.path, "/b/Dxe.debug");
}

#[test]
fn resolving_a_list_is_resolving_each_module_alone() {
    let files = vec!["/b/A.debug".to_string(), "/b/B.debug".to_string()];
    let list = vec![
        ("A.efi".to_string(), 1, 10, "A.efi".to_string()),
        ("B.efi".to_string(), 2, 20, "B.efi".to_string()),
    ];
    let (all, _) = UefiOsInfo::resolve(&list, &files).unwrap();
    for (i, m) in list.iter().enumerate() {
        let (alone, _) = UefiOsInfo::resolve(std::slice::from_ref(m), &files).unwrap();
        assert_eq!(alone.modules[0], all.modules[i]);
        let mut resized = m.clone();
        resized.2 = 999;
        let (alone_resized, _) = UefiOsInfo::resolve(std::slice::from_ref(&resized), &files).unwrap();
        assert_eq!(alone_resized.modules, alone.modules);
    }
}
