//! Longest-matching-suffix lookups of paths in the path-suffix index.

use tsffs::util::path_suffix_index::PathSuffixIndex;

fn index_of(paths: &[&str]) -> PathSuffixIndex {
    let mut index = PathSuffixIndex::new();
    for p in paths {
        index.insert(p);
    }
    index
}

fn comps(parts: &[&str]) -> Vec<String> {
    parts.iter().map(|s| s.to_string()).collect()
}

#[test]
fn empty_index_finds_nothing() {
    let index = PathSuffixIndex::new();
    assert_eq!(index.lookup_str("a/b.c"), None);
    assert_eq!(index.lookup_str_unambiguous("a/b.c"), None);
    assert_eq!(index.lookup_components(&comps(&["b.c"])), None);
}

#[test]
fn bare_file_name_matches_on_the_last_component() {
    let index = index_of(&["/src/pkg/module/file.c"]);
    assert_eq!(index.lookup_str("file.c"), Some("/src/pkg/module/file.c"));
    assert_eq!(index.lookup_str_unambiguous("file.c"), Some("/src/pkg/module/file.c"));
}

#[test]
fn longest_suffix_disambiguates() {
    let index = index_of(&["/local/PkgA/DEBUG/Foo.efi", "/local/PkgB/DEBUG/Foo.efi"]);
    assert_eq!(
        index.lookup_str("/build/machine/PkgB/DEBUG/Foo.efi"),
        Some("/local/PkgB/DEBUG/Foo.efi")
    );
    assert_eq!(
        index.lookup_str_unambiguous("/build/machine/PkgA/DEBUG/Foo.efi"),
        Some("/local/PkgA/DEBUG/Foo.efi")
    );
}

#[test]
fn ambiguous_suffix_is_first_inserted_best_effort_and_none_strictly() {
    let index = index_of(&["/x/one/Foo.efi", "/x/two/Foo.efi"]);
    assert_eq!(index.lookup_str("Foo.efi"), Some("/x/one/Foo.efi"));
    assert_eq!(index.lookup_str_unambiguous("Foo.efi"), None);
    // An ambiguous longer suffix stops the strict search even though nothing
    // shorter could be less ambiguous.
    assert_eq!(index.lookup_str_unambiguous("/elsewhere/Foo.efi"), None);
}

#[test]
fn windows_embedded_paths_are_split_on_backslashes() {
    let index = index_of(&["/local/MdePkg/Library/Base.c", "/local/Other/Library/Base.c"]);
    assert_eq!(
        index.lookup_str("c:\\edk2\\MdePkg\\Library\\Base.c"),
        Some("/local/MdePkg/Library/Base.c")
    );
    assert_eq!(
        index.lookup_str_unambiguous("\\edk2\\Other\\Library\\Base.c"),
        Some("/local/Other/Library/Base.c")
    );
}

#[test]
fn dot_components_and_roots_are_ignored() {
    let index = index_of(&["/a/./b/c.txt"]);
    assert_eq!(index.lookup_components(&comps(&["a", "b", "c.txt"])), Some("/a/./b/c.txt"));
    assert_eq!(index.lookup_str("./b/c.txt"), Some("/a/./b/c.txt"));
}

#[test]
fn components_lookup_falls_back_to_shorter_suffixes() {
    let index = index_of(&["/a/b/c"]);
    assert_eq!(index.lookup_components(&comps(&["z", "y", "b", "c"])), Some("/a/b/c"));
    assert_eq!(index.lookup_components(&comps(&["z", "y"])), None);
    assert_eq!(index.lookup_components(&comps(&[])), None);
    assert_eq!(index.lookup_components_unambiguous(&comps(&["q", "c"])), Some("/a/b/c"));
}

#[test]
fn lookup_after_insert_finds_the_inserted_path() {
    let mut index = index_of(&["/one/x.rs"]);
    index.insert("/two/deep/y.rs");
    assert_eq!(index.lookup_str("/two/deep/y.rs"), Some("/two/deep/y.rs"));
    assert_eq!(index.lookup_str_unambiguous("/two/deep/y.rs"), Some("/two/deep/y.rs"));
    assert_eq!(index.lookup_str("/one/x.rs"), Some("/one/x.rs"));
}

#[test]
fn normal_components_drop_roots_and_dots() {
    assert_eq!(
        PathSuffixIndex::normal_components_of_path("/a/./b/../c.txt"),
        comps(&["a", "b", "c.txt"])
    );
    assert_eq!(
        PathSuffixIndex::normal_components_of_str("C:\\edk2\\MdePkg\\.\\Base.c"),
        comps(&["edk2", "MdePkg", "Base.c"])
    );
    assert_eq!(
        PathSuffixIndex::normal_components_of_str("/usr/src/x.c"),
        comps(&["usr", "src", "x.c"])
    );
}

#[test]
fn a_path_indexed_twice_is_still_unambiguous() {
    let index = index_of(&["/a/b.c", "/a/b.c"]);
    assert_eq!(index.lookup_components_unambiguous(&comps(&["b.c"])), Some("/a/b.c"));
    assert_eq!(index.lookup_str_unambiguous("b.c"), Some("/a/b.c"));
    let index = index_of(&["/a/b.c", "/x/b.c", "/a/b.c"]);
    assert_eq!(index.lookup_str_unambiguous("b.c"), None);
}
