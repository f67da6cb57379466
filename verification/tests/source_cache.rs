//! Locating source files by checksum, falling back to path-suffix matching.

use sha1::Digest as _;
use tsffs::source_cov::{FileChecksum, SourceCache};

fn cache() -> SourceCache {
    let mut cache = SourceCache::default();
    cache.add_file("/src/pkg/a/Foo.c", b"int foo;");
    cache.add_file("/src/pkg/b/Foo.c", b"int bar;");
    cache.add_file("/src/pkg/b/Bar.c", b"int baz;");
    cache
}

#[test]
fn lookup_by_name_uses_the_longest_suffix() {
    let cache = cache();
    assert_eq!(cache.lookup_file_name_components("b/Foo.c"), Some("/src/pkg/b/Foo.c"));
    assert_eq!(cache.lookup_file_name_components("Bar.c"), Some("/src/pkg/b/Bar.c"));
    // Ambiguous bare name: the first one added.
    assert_eq!(cache.lookup_file_name_components("Foo.c"), Some("/src/pkg/a/Foo.c"));
    assert_eq!(cache.lookup_file_name_components("Missing.c"), None);
}

#[test]
fn md5_checksum_wins_over_the_name() {
    let cache = cache();
    let digest = md5::compute(b"int bar;").0;
    assert_eq!(cache.lookup_dwarf(Some(&digest), "a/Foo.c"), Some("/src/pkg/b/Foo.c"));
    assert_eq!(
        cache.lookup_pdb(&FileChecksum::Md5(digest.to_vec()), "a/Foo.c"),
        Some("/src/pkg/b/Foo.c")
    );
}

#[test]
fn unknown_checksum_falls_back_to_the_name() {
    let cache = cache();
    let unknown = [0u8; 16];
    assert_eq!(cache.lookup_dwarf(Some(&unknown), "a/Foo.c"), Some("/src/pkg/a/Foo.c"));
    assert_eq!(cache.lookup_dwarf(None, "a/Foo.c"), Some("/src/pkg/a/Foo.c"));
    assert_eq!(
        cache.lookup_pdb(&FileChecksum::Sha1(vec![1, 2, 3]), "Bar.c"),
        Some("/src/pkg/b/Bar.c")
    );
    assert_eq!(cache.lookup_pdb(&FileChecksum::NoChecksum, "b/Foo.c"), Some("/src/pkg/b/Foo.c"));
    assert_eq!(cache.lookup_pdb(&FileChecksum::Sha256(vec![]), "Nope.c"), None);
}

#[test]
fn sha1_and_sha256_checksums_are_found() {
    let cache = cache();
    let sha1 = sha1::Sha1::digest(b"int baz;").to_vec();
    let sha256 = sha2::Sha256::digest(b"int foo;").to_vec();
    assert_eq!(cache.lookup_pdb(&FileChecksum::Sha1(sha1), "Nope.c"), Some("/src/pkg/b/Bar.c"));
    assert_eq!(cache.lookup_pdb(&FileChecksum::Sha256(sha256), "Nope.c"), Some("/src/pkg/a/Foo.c"));
}

#[test]
fn a_later_file_with_the_same_contents_replaces_the_earlier_one() {
    let mut cache = cache();
    cache.add_file("/src/copy/Foo.c", b"int foo;");
    let digest = md5::compute(b"int foo;").0;
    assert_eq!(cache.lookup_dwarf(Some(&digest), "x"), Some("/src/copy/Foo.c"));
}

#[test]
fn adding_a_file_keeps_the_other_digests() {
    let mut cache = cache();
    cache.add_file("/src/new/New.c", b"int new;");
    let new = md5::compute(b"int new;").0;
    let bar = md5::compute(b"int bar;").0;
    assert_eq!(cache.lookup_dwarf(Some(&new), "whatever.c"), Some("/src/new/New.c"));
    assert_eq!(cache.lookup_dwarf(Some(&bar), "whatever.c"), Some("/src/pkg/b/Foo.c"));
}
