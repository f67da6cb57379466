//! UEFI module discovery: parsing the module list that the UEFI firmware
//! tracker's `list-modules` command returns, and resolving each module to a
//! local debug-info file.
//!
//! The confirmed shape of `list-modules`' result is a list of rows, each a
//! positional list `[Module, Loaded Address, Size, Adjusted Address, Adjusted Size]`
//! whose first column is the module's bare file name (or `"<unknown>"`), never a
//! full build-machine path; the two "adjusted" columns are not used.
use vstd::prelude::*;
use crate::path_text::{
    std_file_stem, embedded_components, local_components, path_less, file_stem, path_is_less,
    strings_view, lemma_path_order,
};
use crate::util::path_suffix_index::{IndexModel, PathSuffixIndex, spec_lookup_unambiguous, spec_lookup_candidates, candidates, lookup_from};

verus! {

/// A Simics attribute value, as the tracker's command returns it. Floating-point
/// and object values carry no payload here: nothing reads them.
#[derive(Debug)]
pub enum AttrValueType {
    Invalid,
    Nil,
    Unsigned(u64),
    Signed(i64),
    Bool(bool),
    String(String),
    Float,
    Object,
    Data(Vec<u8>),
    List(Vec<AttrValueType>),
    Dict(Vec<(AttrValueType, AttrValueType)>),
}

/// The column of a module-list row that failed to parse.
#[derive(Debug, Clone, Copy, PartialEq, Eq, Structural)]
pub enum ModuleColumn {
    Module,
    LoadedAddress,
    Size,
}

/// Why a module list could not be parsed.
#[derive(Debug, Clone, Copy, PartialEq, Eq, Structural)]
pub enum ModuleListError {
    /// The result was not a list.
    NotAList,
    /// A row was not a list of columns.
    RowNotAList,
    /// A row had fewer than 3 columns; the count it had.
    TooFewColumns(usize),
    /// The column was not a string.
    NotAString(ModuleColumn),
    /// The column was not a non-negative integer.
    NotAnUnsigned(ModuleColumn),
}

/// A parsed module: `(name, base, size, embedded_path)`.
pub type ModuleEntry = (String, u64, u64, String);

pub type ModuleEntryView = (Seq<char>, u64, u64, Seq<char>);

pub open spec fn module_entry_view(e: ModuleEntry) -> ModuleEntryView {
    (e.0@, e.1, e.2, e.3@)
}

pub open spec fn spec_column_string(value: AttrValueType, column: ModuleColumn) -> Result<Seq<char>, ModuleListError> {
    match value {
        AttrValueType::String(s) => Ok(s@),
        _ => Err(ModuleListError::NotAString(column)),
    }
}

/// An `Unsigned` column, or a `Signed` one that is not negative, as `u64`.
pub open spec fn spec_column_unsigned(value: AttrValueType, column: ModuleColumn) -> Result<u64, ModuleListError> {
    match value {
        AttrValueType::Unsigned(u) => Ok(u),
        AttrValueType::Signed(s) => if s >= 0 {
            Ok(s as u64)
        } else {
            Err(ModuleListError::NotAnUnsigned(column))
        },
        _ => Err(ModuleListError::NotAnUnsigned(column)),
    }
}

/// A row `[Module, Loaded Address, Size, ..]`: its name, base, size, and the
/// name again as the embedded path (the tracker reports no other path).
pub open spec fn spec_parse_module_row(row: AttrValueType) -> Result<ModuleEntryView, ModuleListError> {
    match row {
        AttrValueType::List(columns) => if columns@.len() < 3 {
            Err(ModuleListError::TooFewColumns(columns@.len() as usize))
        } else {
            match spec_column_string(columns@[0], ModuleColumn::Module) {
                Err(e) => Err(e),
                Ok(name) => match spec_column_unsigned(columns@[1], ModuleColumn::LoadedAddress) {
                    Err(e) => Err(e),
                    Ok(base) => match spec_column_unsigned(columns@[2], ModuleColumn::Size) {
                        Err(e) => Err(e),
                        Ok(size) => Ok((name, base, size, name)),
                    },
                },
            }
        },
        _ => Err(ModuleListError::RowNotAList),
    }
}

/// Every row parsed, in order, or the error of the first row that fails.
pub open spec fn spec_parse_rows(rows: Seq<AttrValueType>) -> Result<Seq<ModuleEntryView>, ModuleListError>
    decreases rows.len(),
{
    if rows.len() == 0 {
        Ok(seq![])
    } else {
        match spec_parse_rows(rows.drop_last()) {
            Err(e) => Err(e),
            Ok(done) => match spec_parse_module_row(rows.last()) {
                Err(e) => Err(e),
                Ok(m) => Ok(done.push(m)),
            },
        }
    }
}

pub open spec fn spec_parse_module_list(value: AttrValueType) -> Result<Seq<ModuleEntryView>, ModuleListError> {
    match value {
        AttrValueType::List(rows) => spec_parse_rows(rows@),
        _ => Err(ModuleListError::NotAList),
    }
}

fn column_string(value: &AttrValueType, column: ModuleColumn) -> (r: Result<String, ModuleListError>)
    ensures
        match r {
            Ok(s) => spec_column_string(*value, column) == Ok::<Seq<char>, ModuleListError>(s@),
            Err(e) => spec_column_string(*value, column) == Err::<Seq<char>, ModuleListError>(e),
        },
{
    match value {
        AttrValueType::String(s) => Ok(s.clone()),
        _ => Err(ModuleListError::NotAString(column)),
    }
}

fn column_unsigned(value: &AttrValueType, column: ModuleColumn) -> (r: Result<u64, ModuleListError>)
    ensures
        match r {
            Ok(u) => spec_column_unsigned(*value, column) == Ok::<u64, ModuleListError>(u),
            Err(e) => spec_column_unsigned(*value, column) == Err::<u64, ModuleListError>(e),
        },
{
    match value {
        AttrValueType::Unsigned(u) => Ok(*u),
        AttrValueType::Signed(s) => if *s >= 0 {
            Ok(*s as u64)
        } else {
            Err(ModuleListError::NotAnUnsigned(column))
        },
        _ => Err(ModuleListError::NotAnUnsigned(column)),
    }
}

fn parse_module_row(row: &AttrValueType) -> (r: Result<ModuleEntry, ModuleListError>)
    ensures
        match r {
            Ok(m) => spec_parse_module_row(*row) == Ok::<ModuleEntryView, ModuleListError>(module_entry_view(m)),
            Err(e) => spec_parse_module_row(*row) == Err::<ModuleEntryView, ModuleListError>(e),
        },
{
    let columns = match row {
        AttrValueType::List(columns) => columns,
        _ => return Err(ModuleListError::RowNotAList),
    };
    if columns.len() < 3 {
        return Err(ModuleListError::TooFewColumns(columns.len()));
    }
    let name = column_string(&columns[0], ModuleColumn::Module)?;
    let base = column_unsigned(&columns[1], ModuleColumn::LoadedAddress)?;
    let size = column_unsigned(&columns[2], ModuleColumn::Size)?;
    // `list-modules` never reports a full embedded path: the bare name is all
    // there is.
    let embedded_path = name.clone();
    Ok((name, base, size, embedded_path))
}

/// Parse the value `list-modules` returns into `(name, base, size, embedded_path)`
/// tuples, where `embedded_path` is the bare name again.
pub fn parse_module_list(value: &AttrValueType) -> (r: Result<Vec<ModuleEntry>, ModuleListError>)
    ensures
        match r {
            Ok(ms) => spec_parse_module_list(*value) == Ok::<Seq<ModuleEntryView>, ModuleListError>(ms@.map_values(|m: ModuleEntry| module_entry_view(m))),
            Err(e) => spec_parse_module_list(*value) == Err::<Seq<ModuleEntryView>, ModuleListError>(e),
        },
{
    match value {
        AttrValueType::List(rows) => parse_module_rows(rows),
        _ => Err(ModuleListError::NotAList),
    }
}

fn parse_module_rows(rows: &Vec<AttrValueType>) -> (r: Result<Vec<ModuleEntry>, ModuleListError>)
    ensures
        match r {
            Ok(ms) => spec_parse_rows(rows@) == Ok::<Seq<ModuleEntryView>, ModuleListError>(ms@.map_values(|m: ModuleEntry| module_entry_view(m))),
            Err(e) => spec_parse_rows(rows@) == Err::<Seq<ModuleEntryView>, ModuleListError>(e),
        },
{
    let mut parsed: Vec<ModuleEntry> = Vec::new();
    let mut i: usize = 0;
    proof {
        assert(rows@.take(0) == Seq::<AttrValueType>::empty());
        assert(parsed@.map_values(|m: ModuleEntry| module_entry_view(m)) == Seq::<ModuleEntryView>::empty());
    }
    while i < rows.len()
        invariant
            i <= rows@.len(),
            spec_parse_rows(rows@.take(i as int)) == Ok::<Seq<ModuleEntryView>, ModuleListError>(parsed@.map_values(|m: ModuleEntry| module_entry_view(m))),
        decreases rows@.len() - i,
    {
        proof {
            assert(rows@.take(i + 1).drop_last() == rows@.take(i as int));
            assert(rows@.take(i + 1).last() == rows@[i as int]);
        }
        match parse_module_row(&rows[i]) {
            Ok(m) => {
                let ghost before = parsed@;
                parsed.push(m);
                proof {
                    assert(parsed@.map_values(|m: ModuleEntry| module_entry_view(m)) == before.map_values(|m: ModuleEntry| module_entry_view(m)).push(module_entry_view(m)));
                }
            },
            Err(e) => {
                proof {
                    assert(spec_parse_rows(rows@.take(i + 1)) == Err::<Seq<ModuleEntryView>, ModuleListError>(e));
                    lemma_parse_rows_error_persists(rows@, i as int + 1);
                }
                return Err(e);
            },
        }
        i = i + 1;
    }
    proof {
        assert(rows@.take(rows@.len() as int) == rows@);
    }
    Ok(parsed)
}

/// Once a prefix of the rows fails, the whole list fails with the same error.
proof fn lemma_parse_rows_error_persists(rows: Seq<AttrValueType>, k: int)
    requires
        0 <= k <= rows.len(),
        spec_parse_rows(rows.take(k)) is Err,
    ensures
        spec_parse_rows(rows) == spec_parse_rows(rows.take(k)),
    decreases rows.len() - k,
{
    if k < rows.len() {
        assert(rows.take(k + 1).drop_last() == rows.take(k));
        lemma_parse_rows_error_persists(rows, k + 1);
    } else {
        assert(rows.take(k) == rows);
    }
}

/// The local index over `files`: each file with its normal components, in order.
pub open spec fn index_of_files(files: Seq<Seq<char>>) -> IndexModel {
    files.map_values(|f: Seq<char>| (local_components(f), f))
}

/// The stem searched for when suffix matching fails: the embedded path's file
/// stem, or the module's name when the path has none.
pub open spec fn spec_stem(name: Seq<char>, embedded_path: Seq<char>) -> Seq<char> {
    match std_file_stem(embedded_path) {
        Some(s) => s,
        None => name,
    }
}

/// The files whose file stem is `stem`, in order.
pub open spec fn with_stem(files: Seq<Seq<char>>, stem: Seq<char>) -> Seq<Seq<char>>
    decreases files.len(),
{
    if files.len() == 0 {
        seq![]
    } else {
        let rest = with_stem(files.drop_last(), stem);
        if std_file_stem(files.last()) == Some(stem) {
            rest.push(files.last())
        } else {
            rest
        }
    }
}

/// The first of the least paths of `paths` in path order: the first element of
/// `paths` once stably sorted.
pub open spec fn first_least(paths: Seq<Seq<char>>) -> Seq<char>
    decreases paths.len(),
{
    if paths.len() <= 1 {
        paths[0]
    } else {
        let m = first_least(paths.drop_last());
        if path_less(paths.last(), m) {
            paths.last()
        } else {
            m
        }
    }
}

/// How a module's local debug-info file was found.
#[derive(Debug, Clone, Copy, PartialEq, Eq, Structural)]
pub enum ResolvedVia {
    /// The embedded path's longest matching suffix matched exactly one local file.
    PathSuffix,
    /// Exactly one local file has the module's stem.
    Stem,
    /// Several local files have the module's stem (how many); the first in path
    /// order was taken.
    AmbiguousStem(usize),
}

/// A module's resolved local debug-info path, and how it was found.
#[derive(Debug)]
pub struct Resolved {
    pub path: String,
    pub via: ResolvedVia,
}

/// No local file matched a module, by path suffix or by stem.
#[derive(Debug, PartialEq, Eq)]
pub enum ResolveError {
    NoLocalDebugInfo { name: String, embedded_path: String },
}

/// The resolution of one module: a unique longest-suffix match of its embedded
/// path; otherwise the local files with its stem, the first in path order when
/// there are several; `None` when there is none.
pub open spec fn spec_resolve_one(index: IndexModel, files: Seq<Seq<char>>, name: Seq<char>, embedded_path: Seq<char>) -> Option<(Seq<char>, ResolvedVia)> {
    match spec_lookup_unambiguous(index, embedded_components(embedded_path)) {
        Some(p) => Some((p, ResolvedVia::PathSuffix)),
        None => {
            let c = with_stem(files, spec_stem(name, embedded_path));
            if c.len() == 0 {
                None
            } else if c.len() == 1 {
                Some((c[0], ResolvedVia::Stem))
            } else {
                Some((first_least(c), ResolvedVia::AmbiguousStem(c.len() as usize)))
            }
        },
    }
}

/// Every file under the build root whose file stem is `stem`, by position.
fn find_by_stem(files: &[String], stem: &String) -> (ix: Vec<usize>)
    ensures
        forall|j: int| 0 <= j < ix@.len() ==> #[trigger] ix@[j] < files@.len(),
        ix@.map_values(|i: usize| files@[i as int]@) == with_stem(strings_view(files@), stem@),
{
    let ghost fs = strings_view(files@);
    let mut ix: Vec<usize> = Vec::new();
    let mut i: usize = 0;
    while i < files.len()
        invariant
            i <= files@.len(),
            fs == strings_view(files@),
            forall|j: int| 0 <= j < ix@.len() ==> #[trigger] ix@[j] < i,
            ix@.map_values(|k: usize| files@[k as int]@) == with_stem(fs.take(i as int), stem@),
        decreases files@.len() - i,
    {
        proof {
            assert(fs.take(i + 1).drop_last() == fs.take(i as int));
            assert(fs.take(i + 1).last() == files@[i as int]@);
        }
        let matches = match file_stem(files[i].as_str()) {
            Some(s) => s == *stem,
            None => false,
        };
        if matches {
            let ghost before = ix@;
            ix.push(i);
            proof {
                assert(ix@.map_values(|k: usize| files@[k as int]@) == before.map_values(|k: usize| files@[k as int]@).push(files@[i as int]@));
            }
        }
        i = i + 1;
    }
    proof {
        assert(fs.take(files@.len() as int) == fs);
    }
    ix
}

/// The position (among `ix`) of the first least path in path order.
fn first_least_position(files: &[String], ix: &Vec<usize>) -> (k: usize)
    requires
        ix@.len() > 0,
        forall|j: int| 0 <= j < ix@.len() ==> #[trigger] ix@[j] < files@.len(),
    ensures
        k < ix@.len(),
        files@[ix@[k as int] as int]@ == first_least(ix@.map_values(|i: usize| files@[i as int]@)),
{
    let ghost ps = ix@.map_values(|i: usize| files@[i as int]@);
    let mut best: usize = 0;
    let mut j: usize = 1;
    proof {
        assert(ps.take(1).len() == 1);
    }
    while j < ix.len()
        invariant
            1 <= j <= ix@.len(),
            best < j,
            ps == ix@.map_values(|i: usize| files@[i as int]@),
            forall|t: int| 0 <= t < ix@.len() ==> #[trigger] ix@[t] < files@.len(),
            files@[ix@[best as int] as int]@ == first_least(ps.take(j as int)),
        decreases ix@.len() - j,
    {
        proof {
            assert(ps.take(j + 1).drop_last() == ps.take(j as int));
            assert(ps.take(j + 1).last() == files@[ix@[j as int] as int]@);
        }
        if path_is_less(files[ix[j]].as_str(), files[ix[best]].as_str()) {
            best = j;
        }
        j = j + 1;
    }
    proof {
        assert(ps.take(ix@.len() as int) == ps);
    }
    best
}

/// Resolve a single module's local debug-info path: a unique longest-suffix match
/// of its embedded path in `index`; failing that, the files of `local_files` with
/// its stem (the embedded path's, or its name), taking the first in path order
/// when several match ("fail open").
pub fn resolve_one(index: &PathSuffixIndex, local_files: &[String], name: &str, embedded_path: &str) -> (r: Result<Resolved, ResolveError>)
    ensures
        match r {
            Ok(res) => spec_resolve_one(index@, strings_view(local_files@), name@, embedded_path@) == Some((res.path@, res.via)),
            Err(ResolveError::NoLocalDebugInfo { name: n, embedded_path: e }) => {
                &&& spec_resolve_one(index@, strings_view(local_files@), name@, embedded_path@) is None
                &&& n@ == name@
                &&& e@ == embedded_path@
            },
        },
{
    if let Some(local_path) = index.lookup_str_unambiguous(embedded_path) {
        return Ok(Resolved { path: local_path.to_string(), via: ResolvedVia::PathSuffix });
    }
    let stem = match file_stem(embedded_path) {
        Some(s) => s,
        None => name.to_string(),
    };
    let candidates = find_by_stem(local_files, &stem);
    let ghost c = candidates@.map_values(|i: usize| local_files@[i as int]@);
    if candidates.len() == 0 {
        return Err(ResolveError::NoLocalDebugInfo { name: name.to_string(), embedded_path: embedded_path.to_string() });
    }
    if candidates.len() == 1 {
        proof {
            assert(c[0] == local_files@[candidates@[0] as int]@);
        }
        return Ok(Resolved { path: local_files[candidates[0]].clone(), via: ResolvedVia::Stem });
    }
    let k = first_least_position(local_files, &candidates);
    Ok(Resolved { path: local_files[candidates[k]].clone(), via: ResolvedVia::AmbiguousStem(candidates.len()) })
}

/// A resolved module: `(name, base, local_debug_path)`.
pub type ResolvedModuleView = (Seq<char>, u64, Seq<char>);

/// How each module was resolved, in order (for modules that resolve).
pub open spec fn spec_resolve_vias(modules: Seq<ModuleEntryView>, files: Seq<Seq<char>>) -> Seq<ResolvedVia> {
    Seq::new(modules.len(), |i: int| spec_resolve_one(index_of_files(files), files, modules[i].0, modules[i].3)->Some_0.1)
}

/// Every module resolved, in order, or the failure of the first that cannot be.
pub open spec fn spec_resolve(modules: Seq<ModuleEntryView>, files: Seq<Seq<char>>) -> Result<Seq<ResolvedModuleView>, (Seq<char>, Seq<char>)>
    decreases modules.len(),
{
    if modules.len() == 0 {
        Ok(seq![])
    } else {
        match spec_resolve(modules.drop_last(), files) {
            Err(e) => Err(e),
            Ok(done) => {
                let m = modules.last();
                match spec_resolve_one(index_of_files(files), files, m.0, m.3) {
                    Some((p, _)) => Ok(done.push((m.0, m.1, p))),
                    None => Err((m.0, m.3)),
                }
            },
        }
    }
}

/// UEFI/SMM modules with their resolved local debug-info paths.
#[derive(Debug, Clone)]
pub struct UefiOsInfo {
    /// Resolved modules: `(name, base, resolved_local_debug_path)`.
    pub modules: Vec<(String, u64, String)>,
}

pub open spec fn resolved_view(m: (String, u64, String)) -> ResolvedModuleView {
    (m.0@, m.1, m.2@)
}

impl Default for UefiOsInfo {
    fn default() -> (info: Self)
        ensures
            info.modules@.len() == 0,
    {
        UefiOsInfo { modules: Vec::new() }
    }
}

impl UefiOsInfo {
    /// Resolve local debug-info paths for a parsed module list against the files
    /// found under a local build root (`local_files`, in walk order): each module
    /// by [`resolve_one`] against a path-suffix index over those files. Also
    /// returns how each module was resolved, for the caller to report.
    pub fn resolve(modules: &[ModuleEntry], local_files: &[String]) -> (r: Result<(UefiOsInfo, Vec<ResolvedVia>), ResolveError>)
        ensures
            match r {
                Ok((info, vias)) => {
                    &&& spec_resolve(modules@.map_values(|m: ModuleEntry| module_entry_view(m)), strings_view(local_files@))
                        == Ok::<Seq<ResolvedModuleView>, (Seq<char>, Seq<char>)>(info.modules@.map_values(|m: (String, u64, String)| resolved_view(m)))
                    &&& vias@ == spec_resolve_vias(modules@.map_values(|m: ModuleEntry| module_entry_view(m)), strings_view(local_files@))
                },
                Err(ResolveError::NoLocalDebugInfo { name, embedded_path }) =>
                    spec_resolve(modules@.map_values(|m: ModuleEntry| module_entry_view(m)), strings_view(local_files@))
                    == Err::<Seq<ResolvedModuleView>, (Seq<char>, Seq<char>)>((name@, embedded_path@)),
            },
    {
        let ghost fs = strings_view(local_files@);
        let ghost ms = modules@.map_values(|m: ModuleEntry| module_entry_view(m));
        let mut index = PathSuffixIndex::new();
        let mut i: usize = 0;
        while i < local_files.len()
            invariant
                i <= local_files@.len(),
                fs == strings_view(local_files@),
                index@ == index_of_files(fs).take(i as int),
            decreases local_files@.len() - i,
        {
            index.insert(local_files[i].as_str());
            proof {
                assert(index_of_files(fs).take(i + 1) == index_of_files(fs).take(i as int).push((local_components(fs[i as int]), fs[i as int])));
            }
            i = i + 1;
        }
        proof {
            assert(index_of_files(fs).take(local_files@.len() as int) == index_of_files(fs));
        }
        let mut resolved: Vec<(String, u64, String)> = Vec::new();
        let mut vias: Vec<ResolvedVia> = Vec::new();
        let mut j: usize = 0;
        proof {
            assert(ms.take(0) == Seq::<ModuleEntryView>::empty());
            assert(resolved@.map_values(|m: (String, u64, String)| resolved_view(m)) == Seq::<ResolvedModuleView>::empty());
        }
        while j < modules.len()
            invariant
                j <= modules@.len(),
                fs == strings_view(local_files@),
                ms == modules@.map_values(|m: ModuleEntry| module_entry_view(m)),
                index@ == index_of_files(fs),
                spec_resolve(ms.take(j as int), fs) == Ok::<Seq<ResolvedModuleView>, (Seq<char>, Seq<char>)>(resolved@.map_values(|m: (String, u64, String)| resolved_view(m))),
                vias@ == spec_resolve_vias(ms.take(j as int), fs),
            decreases modules@.len() - j,
        {
            proof {
                assert(ms.take(j + 1).drop_last() == ms.take(j as int));
                assert(ms.take(j + 1).last() == module_entry_view(modules@[j as int]));
            }
            let m = &modules[j];
            match resolve_one(&index, local_files, m.0.as_str(), m.3.as_str()) {
                Ok(res) => {
                    let ghost before = resolved@;
                    let ghost via = res.via;
                    resolved.push((m.0.clone(), m.1, res.path));
                    vias.push(res.via);
                    proof {
                        assert(spec_resolve_vias(ms.take(j + 1), fs) =~= spec_resolve_vias(ms.take(j as int), fs).push(via));
                        assert(resolved@.map_values(|m: (String, u64, String)| resolved_view(m)) == before.map_values(|m: (String, u64, String)| resolved_view(m)).push(resolved_view(resolved@.last())));
                    }
                },
                Err(e) => {
                    proof {
                        lemma_resolve_error_persists(ms, fs, j as int + 1);
                    }
                    return Err(e);
                },
            }
            j = j + 1;
        }
        proof {
            assert(ms.take(modules@.len() as int) == ms);
        }
        Ok((UefiOsInfo { modules: resolved }, vias))
    }
}

/// Once a prefix of the modules fails to resolve, resolving all of them fails
/// the same way.
proof fn lemma_resolve_error_persists(modules: Seq<ModuleEntryView>, files: Seq<Seq<char>>, k: int)
    requires
        0 <= k <= modules.len(),
        spec_resolve(modules.take(k), files) is Err,
    ensures
        spec_resolve(modules, files) == spec_resolve(modules.take(k), files),
    decreases modules.len() - k,
{
    if k < modules.len() {
        assert(modules.take(k + 1).drop_last() == modules.take(k));
        lemma_resolve_error_persists(modules, files, k + 1);
    } else {
        assert(modules.take(k) == modules);
    }
}

proof fn lemma_parse_rows_pointwise(rows: Seq<AttrValueType>)
    ensures
        spec_parse_rows(rows) is Ok <==> forall|i: int| 0 <= i < rows.len() ==> #[trigger] spec_parse_module_row(rows[i]) is Ok,
        spec_parse_rows(rows) matches Ok(v) ==> {
            &&& v.len() == rows.len()
            &&& forall|i: int| 0 <= i < rows.len() ==> Ok::<ModuleEntryView, ModuleListError>(#[trigger] v[i]) == spec_parse_module_row(rows[i])
        },
    decreases rows.len(),
{
    if rows.len() > 0 {
        let init = rows.drop_last();
        lemma_parse_rows_pointwise(init);
        assert forall|i: int| 0 <= i < init.len() implies init[i] == rows[i] by {}
        if spec_parse_rows(rows) is Ok {
            assert forall|i: int| 0 <= i < rows.len() implies #[trigger] spec_parse_module_row(rows[i]) is Ok by {
                if i < init.len() {
                    assert(init[i] == rows[i]);
                }
            }
        }
        if forall|i: int| 0 <= i < rows.len() ==> #[trigger] spec_parse_module_row(rows[i]) is Ok {
            assert forall|i: int| 0 <= i < init.len() implies #[trigger] spec_parse_module_row(init[i]) is Ok by {
                assert(init[i] == rows[i]);
                assert(spec_parse_module_row(rows[i]) is Ok);
            }
            assert(spec_parse_module_row(rows[rows.len() - 1]) is Ok);
        }
    }
}

/// Parsing keeps every row, in order, even rows with the same name (duplicates
/// are not collapsed): the list parses exactly when every row does, and then the
/// `i`-th module is the `i`-th row's columns, its embedded path being its bare
/// name.
pub proof fn lemma_parsed_modules_match_rows(value: AttrValueType)
    ensures
        value matches AttrValueType::List(rows) ==> {
            &&& (spec_parse_module_list(value) is Ok <==> forall|i: int| 0 <= i < rows@.len() ==> #[trigger] spec_parse_module_row(rows@[i]) is Ok)
            &&& spec_parse_module_list(value) matches Ok(v) ==> {
                &&& v.len() == rows@.len()
                &&& forall|i: int| 0 <= i < v.len() ==> {
                    &&& Ok::<ModuleEntryView, ModuleListError>(#[trigger] v[i]) == spec_parse_module_row(rows@[i])
                    &&& v[i].3 == v[i].0
                }
            }
        },
        !(value is List) ==> spec_parse_module_list(value) == Err::<Seq<ModuleEntryView>, ModuleListError>(ModuleListError::NotAList),
{
    if let AttrValueType::List(rows) = value {
        lemma_parse_rows_pointwise(rows@);
    }
}

proof fn lemma_resolve_pointwise(modules: Seq<ModuleEntryView>, files: Seq<Seq<char>>)
    ensures
        spec_resolve(modules, files) matches Ok(v) ==> {
            &&& v.len() == modules.len()
            &&& forall|i: int| 0 <= i < modules.len() ==> {
                &&& (#[trigger] v[i]).0 == modules[i].0
                &&& v[i].1 == modules[i].1
                &&& spec_resolve_one(index_of_files(files), files, modules[i].0, modules[i].3) matches Some(r) && r.0 == v[i].2
            }
        },
    decreases modules.len(),
{
    if modules.len() > 0 {
        let init = modules.drop_last();
        lemma_resolve_pointwise(init, files);
        if let Ok(v) = spec_resolve(modules, files) {
            let w = spec_resolve(init, files)->Ok_0;
            assert(v == w.push(v.last()));
            assert forall|i: int| 0 <= i < modules.len() implies {
                &&& (#[trigger] v[i]).0 == modules[i].0
                &&& v[i].1 == modules[i].1
                &&& spec_resolve_one(index_of_files(files), files, modules[i].0, modules[i].3) matches Some(r) && r.0 == v[i].2
            } by {
                if i < init.len() {
                    assert(init[i] == modules[i]);
                    assert(v[i] == w[i]);
                }
            }
        }
    }
}

/// Resolution keeps the modules, in order, with their names and bases; and it
/// is a function of a module's name and embedded path alone, so two modules that
/// `list-modules` reports alike (the same name at different bases) resolve to the
/// same local file.
pub proof fn lemma_resolve_keeps_modules(modules: Seq<ModuleEntryView>, files: Seq<Seq<char>>)
    ensures
        spec_resolve(modules, files) matches Ok(v) ==> {
            &&& v.len() == modules.len()
            &&& forall|i: int| 0 <= i < v.len() ==> (#[trigger] v[i]).0 == modules[i].0 && v[i].1 == modules[i].1
            &&& forall|i: int, j: int| 0 <= i < v.len() && 0 <= j < v.len() && modules[i].0 == modules[j].0 && modules[i].3 == modules[j].3
                ==> #[trigger] v[i].2 == #[trigger] v[j].2
        },
{
    lemma_resolve_pointwise(modules, files);
}

proof fn lemma_candidates_are_files(files: Seq<Seq<char>>, key: Seq<Seq<char>>)
    ensures
        forall|i: int| 0 <= i < candidates(index_of_files(files), key).len() ==> files.contains(#[trigger] candidates(index_of_files(files), key)[i]),
    decreases files.len(),
{
    if files.len() > 0 {
        let init = files.drop_last();
        lemma_candidates_are_files(init, key);
        assert(index_of_files(files).drop_last() == index_of_files(init));
        let c = candidates(index_of_files(files), key);
        let ci = candidates(index_of_files(init), key);
        assert forall|i: int| 0 <= i < c.len() implies files.contains(#[trigger] c[i]) by {
            if i < ci.len() {
                assert(c[i] == ci[i]);
                assert(init.contains(ci[i]));
                let k = choose|k: int| 0 <= k < init.len() && init[k] == ci[i];
                assert(files[k] == init[k]);
            } else {
                assert(c[i] == files[files.len() - 1]);
            }
        }
    }
}

proof fn lemma_lookup_from_are_files(files: Seq<Seq<char>>, comps: Seq<Seq<char>>, d: nat)
    ensures
        lookup_from(index_of_files(files), comps, d) matches Some(c) ==> c.len() > 0
            && forall|i: int| 0 <= i < c.len() ==> files.contains(#[trigger] c[i]),
    decreases comps.len() - d,
{
    if d < comps.len() {
        lemma_candidates_are_files(files, comps.skip(d as int));
        lemma_lookup_from_are_files(files, comps, d + 1);
    }
}

proof fn lemma_with_stem_sound(files: Seq<Seq<char>>, stem: Seq<char>)
    ensures
        forall|i: int| 0 <= i < with_stem(files, stem).len() ==> files.contains(#[trigger] with_stem(files, stem)[i])
            && std_file_stem(with_stem(files, stem)[i]) == Some(stem),
    decreases files.len(),
{
    if files.len() > 0 {
        let init = files.drop_last();
        lemma_with_stem_sound(init, stem);
        let c = with_stem(files, stem);
        let ci = with_stem(init, stem);
        assert forall|i: int| 0 <= i < c.len() implies files.contains(#[trigger] c[i]) && std_file_stem(c[i]) == Some(stem) by {
            if i < ci.len() {
                assert(c[i] == ci[i]);
                assert(init.contains(ci[i]));
                let k = choose|k: int| 0 <= k < init.len() && init[k] == ci[i];
                assert(files[k] == init[k]);
            } else {
                assert(c[i] == files[files.len() - 1]);
            }
        }
    }
}

proof fn lemma_first_least_member(paths: Seq<Seq<char>>)
    requires
        paths.len() > 0,
    ensures
        paths.contains(first_least(paths)),
    decreases paths.len(),
{
    if paths.len() > 1 {
        lemma_first_least_member(paths.drop_last());
        let m = first_least(paths.drop_last());
        if !path_less(paths.last(), m) {
            let k = choose|k: int| 0 <= k < paths.drop_last().len() && paths.drop_last()[k] == m;
            assert(paths[k] == m);
        } else {
            assert(paths[paths.len() - 1] == paths.last());
        }
    } else {
        assert(paths[0] == first_least(paths));
    }
}

/// The file taken among several with the module's stem is the first of them in
/// path order, as a stable sort would put it first: no candidate sorts before
/// it, and every candidate listed before it sorts after it.
pub proof fn lemma_first_least_is_first_sorted(paths: Seq<Seq<char>>)
    requires
        paths.len() > 0,
    ensures
        forall|i: int| 0 <= i < paths.len() ==> !path_less(#[trigger] paths[i], first_least(paths)),
        exists|k: int| {
            &&& 0 <= k < paths.len()
            &&& paths[k] == first_least(paths)
            &&& forall|j: int| 0 <= j < k ==> path_less(first_least(paths), #[trigger] paths[j])
        },
    decreases paths.len(),
{
    let m = first_least(paths);
    if paths.len() == 1 {
        lemma_path_order(paths[0], paths[0], paths[0]);
        assert(paths[0] == m);
    } else {
        let init = paths.drop_last();
        let last = paths.last();
        let mi = first_least(init);
        lemma_first_least_is_first_sorted(init);
        let k0 = choose|k: int| {
            &&& 0 <= k < init.len()
            &&& init[k] == mi
            &&& forall|j: int| 0 <= j < k ==> path_less(mi, #[trigger] init[j])
        };
        if path_less(last, mi) {
            assert(m == last);
            assert forall|i: int| 0 <= i < paths.len() implies !path_less(#[trigger] paths[i], m) by {
                if i < init.len() {
                    assert(paths[i] == init[i]);
                    assert(!path_less(init[i], mi));
                    lemma_path_order(paths[i], last, mi);
                } else {
                    lemma_path_order(last, last, last);
                }
            }
            assert forall|j: int| 0 <= j < paths.len() - 1 implies path_less(m, #[trigger] paths[j]) by {
                assert(paths[j] == init[j]);
                assert(!path_less(init[j], mi));
                lemma_path_order(last, mi, paths[j]);
                lemma_path_order(mi, paths[j], last);
            }
            assert(paths[paths.len() - 1] == m);
        } else {
            assert(m == mi);
            assert forall|i: int| 0 <= i < paths.len() implies !path_less(#[trigger] paths[i], m) by {
                if i < init.len() {
                    assert(paths[i] == init[i]);
                }
            }
            assert forall|j: int| 0 <= j < k0 implies path_less(m, #[trigger] paths[j]) by {
                assert(paths[j] == init[j]);
            }
            assert(paths[k0] == init[k0]);
        }
    }
}

/// A module always resolves to one of the files found under the build root; when
/// found through the stem fallback, to a file with that stem; and the fallback
/// fails only when no file has the stem.
pub proof fn lemma_resolution_is_a_local_file(files: Seq<Seq<char>>, name: Seq<char>, embedded_path: Seq<char>)
    ensures
        spec_resolve_one(index_of_files(files), files, name, embedded_path) matches Some((p, via)) ==> {
            &&& files.contains(p)
            &&& (via !is PathSuffix ==> std_file_stem(p) == Some(spec_stem(name, embedded_path)))
            &&& (via is AmbiguousStem ==> forall|i: int| 0 <= i < files.len()
                && std_file_stem(#[trigger] files[i]) == Some(spec_stem(name, embedded_path)) ==> !path_less(files[i], p))
        },
        spec_resolve_one(index_of_files(files), files, name, embedded_path) is None
            <==> spec_lookup_unambiguous(index_of_files(files), embedded_components(embedded_path)) is None
            && forall|i: int| 0 <= i < files.len() ==> std_file_stem(#[trigger] files[i]) != Some(spec_stem(name, embedded_path)),
{
    let stem = spec_stem(name, embedded_path);
    lemma_lookup_from_are_files(files, embedded_components(embedded_path), 0);
    lemma_with_stem_sound(files, stem);
    lemma_with_stem_complete(files, stem);
    let c = with_stem(files, stem);
    if c.len() > 0 {
        lemma_first_least_member(c);
        if c.len() > 1 {
            let k = choose|k: int| 0 <= k < c.len() && c[k] == first_least(c);
            assert(files.contains(c[k]));
            lemma_first_least_is_first_sorted(c);
            lemma_with_stem_contains(files, stem);
            assert forall|i: int| 0 <= i < files.len() && std_file_stem(#[trigger] files[i]) == Some(stem)
                implies !path_less(files[i], first_least(c)) by {
                assert(c.contains(files[i]));
                let t = choose|t: int| 0 <= t < c.len() && c[t] == files[i];
                assert(!path_less(c[t], first_least(c)));
            }
        } else {
            assert(files.contains(c[0]));
        }
    }
    if let Some(cands) = spec_lookup_candidates(index_of_files(files), embedded_components(embedded_path)) {
        if cands.len() == 1 {
            assert(files.contains(cands[0]));
        }
    }
}

proof fn lemma_with_stem_contains(files: Seq<Seq<char>>, stem: Seq<char>)
    ensures
        forall|i: int| 0 <= i < files.len() && std_file_stem(#[trigger] files[i]) == Some(stem) ==> with_stem(files, stem).contains(files[i]),
    decreases files.len(),
{
    if files.len() > 0 {
        let init = files.drop_last();
        lemma_with_stem_contains(init, stem);
        let c = with_stem(files, stem);
        let ci = with_stem(init, stem);
        assert forall|i: int| 0 <= i < files.len() && std_file_stem(#[trigger] files[i]) == Some(stem) implies c.contains(files[i]) by {
            if i < init.len() {
                assert(init[i] == files[i]);
                assert(ci.contains(files[i]));
                let t = choose|t: int| 0 <= t < ci.len() && ci[t] == files[i];
                assert(c[t] == ci[t]);
            } else {
                assert(c[c.len() - 1] == files[i]);
            }
        }
    }
}

proof fn lemma_with_stem_complete(files: Seq<Seq<char>>, stem: Seq<char>)
    ensures
        with_stem(files, stem).len() == 0 <==> forall|i: int| 0 <= i < files.len() ==> std_file_stem(#[trigger] files[i]) != Some(stem),
    decreases files.len(),
{
    if files.len() > 0 {
        let init = files.drop_last();
        lemma_with_stem_complete(init, stem);
        if forall|i: int| 0 <= i < files.len() ==> std_file_stem(#[trigger] files[i]) != Some(stem) {
            assert forall|i: int| 0 <= i < init.len() implies std_file_stem(#[trigger] init[i]) != Some(stem) by {
                assert(init[i] == files[i]);
            }
            assert(std_file_stem(files[files.len() - 1]) != Some(stem));
        }
        if with_stem(files, stem).len() == 0 {
            assert forall|i: int| 0 <= i < files.len() implies std_file_stem(#[trigger] files[i]) != Some(stem) by {
                if i < init.len() {
                    assert(init[i] == files[i]);
                }
            }
        }
    }
}

proof fn lemma_resolve_single(m: ModuleEntryView, files: Seq<Seq<char>>)
    ensures
        spec_resolve(seq![m], files) == match spec_resolve_one(index_of_files(files), files, m.0, m.3) {
            Some((p, _)) => Ok::<Seq<ResolvedModuleView>, (Seq<char>, Seq<char>)>(seq![(m.0, m.1, p)]),
            None => Err((m.0, m.3)),
        },
{
    assert(seq![m].drop_last() =~= Seq::<ModuleEntryView>::empty());
    assert(spec_resolve(Seq::<ModuleEntryView>::empty(), files) == Ok::<Seq<ResolvedModuleView>, (Seq<char>, Seq<char>)>(seq![]));
    assert(seq![m].last() == m);
    assert(Seq::<ResolvedModuleView>::empty().push((m.0, m.1, spec_resolve_one(index_of_files(files), files, m.0, m.3)->Some_0.0)) =~= seq![(m.0, m.1, spec_resolve_one(index_of_files(files), files, m.0, m.3)->Some_0.0)]);
}

/// Resolving a module list is resolving each module alone: it succeeds exactly
/// when every module resolves on its own, and then the `i`-th result is what
/// the `i`-th module alone resolves to; otherwise it fails as the first module
/// that does not resolve fails. The modules' sizes play no part.
pub proof fn lemma_resolve_is_per_module(modules: Seq<ModuleEntryView>, files: Seq<Seq<char>>)
    ensures
        spec_resolve(modules, files) is Ok <==> forall|i: int| 0 <= i < modules.len() ==> #[trigger] spec_resolve(seq![modules[i]], files) is Ok,
        spec_resolve(modules, files) matches Ok(v) ==> v.len() == modules.len()
            && forall|i: int| 0 <= i < modules.len() ==> spec_resolve(seq![modules[i]], files) == Ok::<Seq<ResolvedModuleView>, (Seq<char>, Seq<char>)>(seq![#[trigger] v[i]]),
        spec_resolve(modules, files) matches Err(e) ==> exists|k: int| 0 <= k < modules.len()
            && spec_resolve(seq![modules[k]], files) == Err::<Seq<ResolvedModuleView>, (Seq<char>, Seq<char>)>(e)
            && forall|i: int| 0 <= i < k ==> #[trigger] spec_resolve(seq![modules[i]], files) is Ok,
    decreases modules.len(),
{
    if modules.len() > 0 {
        let init = modules.drop_last();
        let last = modules.last();
        lemma_resolve_is_per_module(init, files);
        lemma_resolve_single(last, files);
        assert forall|i: int| 0 <= i < init.len() implies #[trigger] init[i] == modules[i] by {}
        assert forall|i: int| 0 <= i < modules.len() implies #[trigger] spec_resolve(seq![modules[i]], files)
            == match spec_resolve_one(index_of_files(files), files, modules[i].0, modules[i].3) {
                Some((p, _)) => Ok::<Seq<ResolvedModuleView>, (Seq<char>, Seq<char>)>(seq![(modules[i].0, modules[i].1, p)]),
                None => Err((modules[i].0, modules[i].3)),
            } by {
            lemma_resolve_single(modules[i], files);
        }
        match spec_resolve(init, files) {
            Err(e) => {
                let k = choose|k: int| 0 <= k < init.len()
                    && spec_resolve(seq![init[k]], files) == Err::<Seq<ResolvedModuleView>, (Seq<char>, Seq<char>)>(e)
                    && forall|i: int| 0 <= i < k ==> #[trigger] spec_resolve(seq![init[i]], files) is Ok;
                assert(init[k] == modules[k]);
                assert forall|i: int| 0 <= i < k implies #[trigger] spec_resolve(seq![modules[i]], files) is Ok by {
                    assert(init[i] == modules[i]);
                }
            },
            Ok(w) => {
                assert forall|i: int| 0 <= i < init.len() implies #[trigger] spec_resolve(seq![modules[i]], files) is Ok by {
                    assert(init[i] == modules[i]);
                }
                if let Ok(v) = spec_resolve(modules, files) {
                    assert forall|i: int| 0 <= i < modules.len() implies spec_resolve(seq![modules[i]], files) == Ok::<Seq<ResolvedModuleView>, (Seq<char>, Seq<char>)>(seq![#[trigger] v[i]]) by {
                        if i < init.len() {
                            assert(init[i] == modules[i]);
                            assert(v[i] == w[i]);
                        }
                    }
                } else {
                    assert(forall|i: int| 0 <= i < modules.len() - 1 ==> #[trigger] spec_resolve(seq![modules[i]], files) is Ok);
                }
            },
        }
    }
}

/// Two module lists that agree on every module's name, base and embedded path
/// resolve alike, whatever their sizes.
pub proof fn lemma_resolve_ignores_sizes(m1: Seq<ModuleEntryView>, m2: Seq<ModuleEntryView>, files: Seq<Seq<char>>)
    requires
        m1.len() == m2.len(),
        forall|i: int| 0 <= i < m1.len() ==> (#[trigger] m1[i]).0 == m2[i].0 && m1[i].1 == m2[i].1 && m1[i].3 == m2[i].3,
    ensures
        spec_resolve(m1, files) == spec_resolve(m2, files),
    decreases m1.len(),
{
    if m1.len() > 0 {
        assert forall|i: int| 0 <= i < m1.drop_last().len() implies (#[trigger] m1.drop_last()[i]).0 == m2.drop_last()[i].0
            && m1.drop_last()[i].1 == m2.drop_last()[i].1 && m1.drop_last()[i].3 == m2.drop_last()[i].3 by {
            assert(m1.drop_last()[i] == m1[i]);
            assert(m2.drop_last()[i] == m2[i]);
        }
        lemma_resolve_ignores_sizes(m1.drop_last(), m2.drop_last(), files);
        assert(m1[m1.len() - 1] == m1.last());
    }
}

} // verus!
