//! Resolution of source files referenced from debug info to files on the local
//! file system: by content checksum (MD5, SHA1, SHA256) when the debug info
//! records one, falling back to the longest matching path suffix.
use vstd::prelude::*;
use crate::path_text::{embedded_components, local_components};
use crate::util::path_suffix_index::{IndexModel, PathSuffixIndex, spec_lookup};

verus! {

/// The MD5 digest of `data`, as computed by `md5::compute`.
pub uninterp spec fn md5_digest(data: Seq<u8>) -> Seq<u8>;

/// The SHA-1 digest of `data`, as computed by `sha1::Sha1::digest`.
pub uninterp spec fn sha1_digest(data: Seq<u8>) -> Seq<u8>;

/// The SHA-256 digest of `data`, as computed by `sha2::Sha256::digest`.
pub uninterp spec fn sha256_digest(data: Seq<u8>) -> Seq<u8>;

/// Calls `md5::compute`; the digest is the 16 bytes of the returned `Digest`.
#[verifier::external_body]
fn compute_md5(data: &[u8]) -> (d: Vec<u8>)
    ensures
        d@ == md5_digest(data@),
        d@.len() == 16,
{
    md5::compute(data).0.to_vec()
}

/// Calls `sha1::Sha1::digest`; the digest is 20 bytes long.
#[verifier::external_body]
fn compute_sha1(data: &[u8]) -> (d: Vec<u8>)
    ensures
        d@ == sha1_digest(data@),
        d@.len() == 20,
{
    <sha1::Sha1 as sha1::Digest>::digest(data).to_vec()
}

/// Calls `sha2::Sha256::digest`; the digest is 32 bytes long.
#[verifier::external_body]
fn compute_sha256(data: &[u8]) -> (d: Vec<u8>)
    ensures
        d@ == sha256_digest(data@),
        d@.len() == 32,
{
    <sha2::Sha256 as sha2::Digest>::digest(data).to_vec()
}

/// The map built by inserting `entries` in order: a later entry for the same
/// digest replaces an earlier one.
pub open spec fn table_map(entries: Seq<(Seq<u8>, Seq<char>)>) -> Map<Seq<u8>, Seq<char>>
    decreases entries.len(),
{
    if entries.len() == 0 {
        Map::empty()
    } else {
        table_map(entries.drop_last()).insert(entries.last().0, entries.last().1)
    }
}

/// Local paths keyed by content digest, the last insertion for a digest winning.
#[derive(Debug, Clone)]
struct DigestTable {
    entries: Vec<(Vec<u8>, String)>,
}

impl DigestTable {
    closed spec fn model(&self) -> Seq<(Seq<u8>, Seq<char>)> {
        self.entries@.map_values(|e: (Vec<u8>, String)| (e.0@, e.1@))
    }

    closed spec fn view(&self) -> Map<Seq<u8>, Seq<char>> {
        table_map(self.model())
    }

    fn new() -> (t: Self)
        ensures
            t.view() == Map::<Seq<u8>, Seq<char>>::empty(),
    {
        let t = DigestTable { entries: Vec::new() };
        proof {
            assert(t.model().len() == 0);
        }
        t
    }

    fn insert(&mut self, digest: Vec<u8>, path: String)
        ensures
            final(self).view() == old(self).view().insert(digest@, path@),
    {
        let ghost d = digest@;
        let ghost p = path@;
        self.entries.push((digest, path));
        proof {
            assert(self.model().drop_last() == old(self).model());
            assert(self.model().last() == (d, p));
        }
    }

    fn get(&self, digest: &[u8]) -> (r: Option<&str>)
        ensures
            r is Some <==> self.view().contains_key(digest@),
            r matches Some(p) ==> p@ == self.view()[digest@],
    {
        let ghost m = self.model();
        let mut i: usize = self.entries.len();
        proof {
            assert(m.take(i as int) == m);
        }
        while i > 0
            invariant
                i <= self.entries@.len(),
                m == self.model(),
                m.len() == self.entries@.len(),
                forall|k: int| i <= k < m.len() ==> #[trigger] m[k].0 != digest@,
            decreases i,
        {
            proof {
                lemma_table_map_suffix_irrelevant(m, digest@, i as int);
            }
            if bytes_eq(self.entries[i - 1].0.as_slice(), digest) {
                proof {
                    assert(m[i - 1] == (self.entries@[i - 1].0@, self.entries@[i - 1].1@));
                    assert(m.take(i as int).drop_last() == m.take(i - 1));
                    assert(m.take(i as int).last() == m[i - 1]);
                }
                return Some(self.entries[i - 1].1.as_str());
            }
            proof {
                assert(m[i - 1] == (self.entries@[i - 1].0@, self.entries@[i - 1].1@));
            }
            i = i - 1;
        }
        proof {
            lemma_table_map_suffix_irrelevant(m, digest@, 0);
            assert(m.take(0) == Seq::<(Seq<u8>, Seq<char>)>::empty());
        }
        None
    }
}

/// Entries after position `i` that do not carry `digest` do not affect what the
/// map holds for it.
proof fn lemma_table_map_suffix_irrelevant(entries: Seq<(Seq<u8>, Seq<char>)>, digest: Seq<u8>, i: int)
    requires
        0 <= i <= entries.len(),
        forall|k: int| i <= k < entries.len() ==> #[trigger] entries[k].0 != digest,
    ensures
        table_map(entries).contains_key(digest) == table_map(entries.take(i)).contains_key(digest),
        table_map(entries).contains_key(digest) ==> table_map(entries)[digest] == table_map(entries.take(i))[digest],
    decreases entries.len() - i,
{
    if i < entries.len() {
        let shorter = entries.drop_last();
        assert forall|k: int| i <= k < shorter.len() implies #[trigger] shorter[k].0 != digest by {
            assert(shorter[k] == entries[k]);
        }
        lemma_table_map_suffix_irrelevant(shorter, digest, i);
        assert(shorter.take(i) == entries.take(i));
        assert(entries[entries.len() - 1].0 != digest);
    } else {
        assert(entries.take(i) == entries);
    }
}

/// Byte-wise equality of two byte strings.
fn bytes_eq(a: &[u8], b: &[u8]) -> (eq: bool)
    ensures
        eq == (a@ == b@),
{
    if a.len() != b.len() {
        return false;
    }
    let mut i: usize = 0;
    while i < a.len()
        invariant
            i <= a@.len(),
            a@.len() == b@.len(),
            forall|k: int| 0 <= k < i ==> a@[k] == b@[k],
        decreases a@.len() - i,
    {
        if a[i] != b[i] {
            return false;
        }
        i = i + 1;
    }
    proof {
        assert(a@ =~= b@);
    }
    true
}

/// A checksum recorded for a source file in PDB debug info.
#[derive(Debug, Clone)]
pub enum FileChecksum {
    NoChecksum,
    Md5(Vec<u8>),
    Sha1(Vec<u8>),
    Sha256(Vec<u8>),
}

/// The mathematical value of a [`FileChecksum`].
pub enum FileChecksumView {
    NoChecksum,
    Md5(Seq<u8>),
    Sha1(Seq<u8>),
    Sha256(Seq<u8>),
}

impl View for FileChecksum {
    type V = FileChecksumView;

    open spec fn view(&self) -> FileChecksumView {
        match self {
            FileChecksum::NoChecksum => FileChecksumView::NoChecksum,
            FileChecksum::Md5(m) => FileChecksumView::Md5(m@),
            FileChecksum::Sha1(s) => FileChecksumView::Sha1(s@),
            FileChecksum::Sha256(s) => FileChecksumView::Sha256(s@),
        }
    }
}

/// The local source files known to the cache: their path-suffix index and their
/// paths keyed by each content digest.
#[verifier::ext_equal]
pub struct SourceCacheView {
    pub suffixes: IndexModel,
    pub md5: Map<Seq<u8>, Seq<char>>,
    pub sha1: Map<Seq<u8>, Seq<char>>,
    pub sha256: Map<Seq<u8>, Seq<char>>,
}

/// The path of `digest` in `table`, falling back to `fallback` when `table` has
/// no entry for it.
pub open spec fn digest_or(table: Map<Seq<u8>, Seq<char>>, digest: Seq<u8>, fallback: Option<Seq<char>>) -> Option<Seq<char>> {
    if table.contains_key(digest) {
        Some(table[digest])
    } else {
        fallback
    }
}

/// The cache with one more local file: its path under each of its content
/// digests (replacing an earlier file with the same digest), and its path
/// components in the suffix index.
pub open spec fn with_file(cache: SourceCacheView, path: Seq<char>, contents: Seq<u8>) -> SourceCacheView {
    SourceCacheView {
        suffixes: cache.suffixes.push((local_components(path), path)),
        md5: cache.md5.insert(md5_digest(contents), path),
        sha1: cache.sha1.insert(sha1_digest(contents), path),
        sha256: cache.sha256.insert(sha256_digest(contents), path),
    }
}

/// The local file that best matches `file_name` by longest path suffix.
pub open spec fn spec_lookup_name(cache: SourceCacheView, file_name: Seq<char>) -> Option<Seq<char>> {
    spec_lookup(cache.suffixes, embedded_components(file_name))
}

/// The local file for a PDB file reference: by its checksum when a local file has
/// that digest, otherwise by path suffix.
pub open spec fn spec_lookup_pdb(cache: SourceCacheView, checksum: FileChecksumView, file_name: Seq<char>) -> Option<Seq<char>> {
    let by_name = spec_lookup_name(cache, file_name);
    match checksum {
        FileChecksumView::NoChecksum => by_name,
        FileChecksumView::Md5(m) => digest_or(cache.md5, m, by_name),
        FileChecksumView::Sha1(s) => digest_or(cache.sha1, s, by_name),
        FileChecksumView::Sha256(s) => digest_or(cache.sha256, s, by_name),
    }
}

/// The local file for a DWARF file entry: by its MD5 checksum when it has one and
/// a local file has that digest, otherwise by path suffix.
pub open spec fn spec_lookup_dwarf(cache: SourceCacheView, md5: Option<Seq<u8>>, file_name: Seq<char>) -> Option<Seq<char>> {
    let by_name = spec_lookup_name(cache, file_name);
    match md5 {
        Some(m) => digest_or(cache.md5, m, by_name),
        None => by_name,
    }
}

pub open spec fn md5_view(md5: Option<&[u8; 16]>) -> Option<Seq<u8>> {
    match md5 {
        Some(m) => Some(m@),
        None => None,
    }
}

pub open spec fn opt_str_view(o: Option<&str>) -> Option<Seq<char>> {
    match o {
        Some(s) => Some(s@),
        None => None,
    }
}

/// A cache of local source files, matched against the file references of
/// debug info by checksum or, failing that, by path suffix.
#[derive(Debug, Clone)]
pub struct SourceCache {
    suffix_index: PathSuffixIndex,
    md5_lookup: DigestTable,
    sha1_lookup: DigestTable,
    sha256_lookup: DigestTable,
}

impl View for SourceCache {
    type V = SourceCacheView;

    closed spec fn view(&self) -> SourceCacheView {
        SourceCacheView {
            suffixes: self.suffix_index@,
            md5: self.md5_lookup.view(),
            sha1: self.sha1_lookup.view(),
            sha256: self.sha256_lookup.view(),
        }
    }
}

impl Default for SourceCache {
    fn default() -> (cache: Self)
        ensures
            cache@.suffixes == Seq::<(Seq<Seq<char>>, Seq<char>)>::empty(),
            cache@.md5 == Map::<Seq<u8>, Seq<char>>::empty(),
            cache@.sha1 == Map::<Seq<u8>, Seq<char>>::empty(),
            cache@.sha256 == Map::<Seq<u8>, Seq<char>>::empty(),
    {
        SourceCache {
            suffix_index: PathSuffixIndex::new(),
            md5_lookup: DigestTable::new(),
            sha1_lookup: DigestTable::new(),
            sha256_lookup: DigestTable::new(),
        }
    }
}

impl SourceCache {
    /// Record one local source file: its path under each of its content digests
    /// (replacing an earlier file with the same digest) and in the path-suffix
    /// index.
    pub fn add_file(&mut self, path: &str, contents: &[u8])
        ensures
            final(self)@ == with_file(old(self)@, path@, contents@),
    {
        let md5 = compute_md5(contents);
        let sha1 = compute_sha1(contents);
        let sha256 = compute_sha256(contents);
        self.md5_lookup.insert(md5, path.to_string());
        self.sha1_lookup.insert(sha1, path.to_string());
        self.sha256_lookup.insert(sha256, path.to_string());
        self.suffix_index.insert(path);
    }

    /// The local file whose path best matches `file_name` by longest path suffix.
    pub fn lookup_file_name_components(&self, file_name: &str) -> (r: Option<&str>)
        ensures
            opt_str_view(r) == spec_lookup_name(self@, file_name@),
    {
        self.suffix_index.lookup_str(file_name)
    }

    /// The local file for a PDB file reference: by its checksum when it has one
    /// and a local file has that digest, otherwise by path suffix.
    pub fn lookup_pdb(&self, checksum: &FileChecksum, file_name: &str) -> (r: Option<&str>)
        ensures
            opt_str_view(r) == spec_lookup_pdb(self@, checksum@, file_name@),
    {
        match checksum {
            FileChecksum::NoChecksum => self.lookup_file_name_components(file_name),
            FileChecksum::Md5(m) => match self.md5_lookup.get(m.as_slice()) {
                Some(p) => Some(p),
                None => self.lookup_file_name_components(file_name),
            },
            FileChecksum::Sha1(s) => match self.sha1_lookup.get(s.as_slice()) {
                Some(p) => Some(p),
                None => self.lookup_file_name_components(file_name),
            },
            FileChecksum::Sha256(s) => match self.sha256_lookup.get(s.as_slice()) {
                Some(p) => Some(p),
                None => self.lookup_file_name_components(file_name),
            },
        }
    }

    /// The local file for a DWARF line-program file entry: by its MD5 checksum
    /// (DWARF 5 `DW_LNCT_MD5`) when it has one and a local file has that digest,
    /// otherwise by path suffix.
    pub fn lookup_dwarf(&self, md5: Option<&[u8; 16]>, file_name: &str) -> (r: Option<&str>)
        ensures
            opt_str_view(r) == spec_lookup_dwarf(self@, md5_view(md5), file_name@),
    {
        match md5 {
            Some(m) => match self.md5_lookup.get(m.as_slice()) {
                Some(p) => Some(p),
                None => self.lookup_file_name_components(file_name),
            },
            None => self.lookup_file_name_components(file_name),
        }
    }
}

/// A file just added is found by each of its content digests, whatever name the
/// debug info records for it: a read by checksum gives back what was added.
pub proof fn lemma_found_by_digest_after_add(cache: SourceCacheView, path: Seq<char>, contents: Seq<u8>, file_name: Seq<char>)
    ensures
        spec_lookup_dwarf(with_file(cache, path, contents), Some(md5_digest(contents)), file_name) == Some(path),
        spec_lookup_pdb(with_file(cache, path, contents), FileChecksumView::Md5(md5_digest(contents)), file_name) == Some(path),
        spec_lookup_pdb(with_file(cache, path, contents), FileChecksumView::Sha1(sha1_digest(contents)), file_name) == Some(path),
        spec_lookup_pdb(with_file(cache, path, contents), FileChecksumView::Sha256(sha256_digest(contents)), file_name) == Some(path),
{
}

/// Adding a file leaves every other digest's entry as it was: a lookup by a
/// checksum that is not one of the new file's digests, and that some earlier file
/// has, still finds that earlier file.
pub proof fn lemma_other_digests_kept_after_add(cache: SourceCacheView, path: Seq<char>, contents: Seq<u8>, md5: Seq<u8>, file_name: Seq<char>)
    requires
        md5 != md5_digest(contents),
        cache.md5.contains_key(md5),
    ensures
        spec_lookup_dwarf(with_file(cache, path, contents), Some(md5), file_name) == spec_lookup_dwarf(cache, Some(md5), file_name),
{
}

} // verus!
