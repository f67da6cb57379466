//! Assembly of DWARF debug info into symbols and source lines.
//!
//! UEFI/SMM modules built with the EDK2 GCC5 toolchain ship DWARF in an ELF
//! `.debug` sidecar file. Reading the ELF sections and walking the DWARF units,
//! line programs and DIE trees is `gimli`'s and `object`'s work; what is read is
//! handed here as plain [`UnitDump`]s (every DIE and every line row, unfiltered),
//! and this module decides which DIEs are subprograms, what each one is named
//! (following `DW_AT_abstract_origin` and `DW_AT_specification` across units),
//! which line rows belong to each and how large each line is, which file entry
//! each file index stands for and where that source file is found locally, and
//! at which runtime addresses each symbol lies.
//!
//! DWARF addresses in these modules are link-time addresses relative to the
//! module's own image; the runtime address of a DWARF address `a` in a module
//! loaded at `base` is `base + a`.
use vstd::prelude::*;
use crate::path_text::{strings_view, joined, join_with_slash};
use crate::source_cov::SourceCacheView;
use crate::source_cov::{SourceCache, spec_lookup_dwarf};

verus! {

/// A line-table row: `(address, file_index, line, end_sequence)`; `line` is 0 when
/// the row has no line.
pub type LineRow = (u64, u64, u32, bool);

/// One source line of a symbol.
#[derive(Debug, Clone, PartialEq, Eq)]
pub struct LineInfo {
    pub rva: u64,
    pub size: u32,
    pub file_path: String,
    pub start_line: u32,
    pub end_line: u32,
}

/// `(rva, size, file_path, start_line, end_line)`
pub type LineInfoView = (u64, u32, Seq<char>, u32, u32);

pub open spec fn line_info_view(l: LineInfo) -> LineInfoView {
    (l.rva, l.size, l.file_path@, l.start_line, l.end_line)
}

/// A function symbol of a module with its source lines; `rva` is its link-time
/// start address, `base` the module's runtime base.
#[derive(Debug, Clone)]
pub struct SymbolInfo {
    pub rva: u64,
    pub base: u64,
    pub size: u64,
    pub name: String,
    pub module: String,
    pub lines: Vec<LineInfo>,
}

impl SymbolInfo {
    pub fn new(rva: u64, base: u64, size: u64, name: String, module: String, lines: Vec<LineInfo>) -> (s: Self)
        ensures
            s.rva == rva,
            s.base == base,
            s.size == size,
            s.name == name,
            s.module == module,
            s.lines == lines,
    {
        SymbolInfo { rva, base, size, name, module, lines }
    }
}

/// `rows` stably sorted by address with `row` added: it goes after every row whose
/// address is not greater than its own.
pub open spec fn insert_by_address(rows: Seq<LineRow>, row: LineRow) -> Seq<LineRow>
    decreases rows.len(),
{
    if rows.len() == 0 {
        seq![row]
    } else if rows.last().0 <= row.0 {
        rows.push(row)
    } else {
        insert_by_address(rows.drop_last(), row).push(rows.last())
    }
}

/// `rows` stably sorted by address.
pub open spec fn sort_by_address(rows: Seq<LineRow>) -> Seq<LineRow>
    decreases rows.len(),
{
    if rows.len() == 0 {
        seq![]
    } else {
        insert_by_address(sort_by_address(rows.drop_last()), rows.last())
    }
}

proof fn lemma_insert_at(rows: Seq<LineRow>, row: LineRow, p: int)
    requires
        0 <= p <= rows.len(),
        forall|k: int| p <= k < rows.len() ==> #[trigger] rows[k].0 > row.0,
        p > 0 ==> rows[p - 1].0 <= row.0,
    ensures
        insert_by_address(rows, row) == rows.insert(p, row),
    decreases rows.len(),
{
    if rows.len() == 0 {
        assert(rows.insert(p, row) =~= seq![row]);
    } else if p == rows.len() {
        assert(rows.insert(p, row) =~= rows.push(row));
    } else {
        let init = rows.drop_last();
        assert forall|k: int| p <= k < init.len() implies #[trigger] init[k].0 > row.0 by {
            assert(init[k] == rows[k]);
        }
        if p > 0 {
            assert(init[p - 1] == rows[p - 1]);
        }
        lemma_insert_at(init, row, p);
        assert(rows.insert(p, row) =~= init.insert(p, row).push(rows.last()));
    }
}

/// Sort line rows by address, keeping rows with equal addresses in their order.
fn sort_rows(rows: &Vec<LineRow>) -> (sorted: Vec<LineRow>)
    ensures
        sorted@ == sort_by_address(rows@),
{
    let mut sorted: Vec<LineRow> = Vec::new();
    let mut i: usize = 0;
    while i < rows.len()
        invariant
            i <= rows@.len(),
            sorted@ == sort_by_address(rows@.take(i as int)),
        decreases rows@.len() - i,
    {
        proof {
            assert(rows@.take(i + 1).drop_last() == rows@.take(i as int));
            assert(rows@.take(i + 1).last() == rows@[i as int]);
        }
        let row = rows[i];
        let mut p: usize = sorted.len();
        while p > 0 && sorted[p - 1].0 > row.0
            invariant
                p <= sorted@.len(),
                forall|k: int| p <= k < sorted@.len() ==> #[trigger] sorted@[k].0 > row.0,
            decreases p,
        {
            p = p - 1;
        }
        proof {
            lemma_insert_at(sorted@, row, p as int);
        }
        sorted.insert(p, row);
        i = i + 1;
    }
    proof {
        assert(rows@.take(rows@.len() as int) == rows@);
    }
    sorted
}

/// The `[low, high)` range spanning all of `ranges`, `None` when there are none.
pub open spec fn spec_subprogram_range(ranges: Seq<(u64, u64)>) -> Option<(u64, u64)>
    decreases ranges.len(),
{
    if ranges.len() == 0 {
        None
    } else {
        let r = ranges.last();
        match spec_subprogram_range(ranges.drop_last()) {
            Some((low, high)) => Some((if r.0 < low { r.0 } else { low }, if r.1 > high { r.1 } else { high })),
            None => Some((r.0, r.1)),
        }
    }
}

/// Aggregate the address ranges of a DIE into the single `[low, high)` range that
/// spans them, or `None` when the DIE has no range (e.g. a declaration).
pub fn subprogram_range(ranges: &[(u64, u64)]) -> (r: Option<(u64, u64)>)
    ensures
        r == spec_subprogram_range(ranges@),
{
    let mut result: Option<(u64, u64)> = None;
    let mut i: usize = 0;
    while i < ranges.len()
        invariant
            i <= ranges@.len(),
            result == spec_subprogram_range(ranges@.take(i as int)),
        decreases ranges@.len() - i,
    {
        proof {
            assert(ranges@.take(i + 1).drop_last() == ranges@.take(i as int));
            assert(ranges@.take(i + 1).last() == ranges@[i as int]);
        }
        let range = ranges[i];
        result = Some(match result {
            Some((low, high)) => (if range.0 < low { range.0 } else { low }, if range.1 > high { range.1 } else { high }),
            None => (range.0, range.1),
        });
        i = i + 1;
    }
    proof {
        assert(ranges@.take(ranges@.len() as int) == ranges@);
    }
    result
}

/// The local path recorded for a file index: the first entry for that index, and
/// nothing when there is none or the file did not resolve.
pub open spec fn file_path_of(file_paths: Seq<(u64, Option<Seq<char>>)>, index: u64) -> Option<Seq<char>>
    decreases file_paths.len(),
{
    if file_paths.len() == 0 {
        None
    } else if file_paths[0].0 == index {
        file_paths[0].1
    } else {
        file_path_of(file_paths.drop_first(), index)
    }
}

pub open spec fn file_paths_view(file_paths: Seq<(u64, Option<String>)>) -> Seq<(u64, Option<Seq<char>>)> {
    file_paths.map_values(|e: (u64, Option<String>)| (e.0, match e.1 { Some(p) => Some(p@), None => None }))
}

fn lookup_file_path(file_paths: &Vec<(u64, Option<String>)>, index: u64) -> (r: Option<&String>)
    ensures
        match r {
            Some(p) => file_path_of(file_paths_view(file_paths@), index) == Some(p@),
            None => file_path_of(file_paths_view(file_paths@), index) is None,
        },
{
    let ghost fv = file_paths_view(file_paths@);
    let mut i: usize = 0;
    proof {
        assert(fv.skip(0) == fv);
    }
    while i < file_paths.len()
        invariant
            i <= file_paths@.len(),
            fv == file_paths_view(file_paths@),
            file_path_of(fv, index) == file_path_of(fv.skip(i as int), index),
        decreases file_paths@.len() - i,
    {
        proof {
            assert(fv.skip(i as int)[0] == fv[i as int]);
            assert(fv.skip(i as int).drop_first() == fv.skip(i + 1));
        }
        if file_paths[i].0 == index {
            return match &file_paths[i].1 {
                Some(p) => Some(p),
                None => None,
            };
        }
        i = i + 1;
    }
    None
}

/// The line of row `k` of `rows` (sorted by address) within `[low, high)`, if it
/// belongs there: not an end-of-sequence row, with a line, and with a file that
/// resolved to a local path. It extends to the next row's address (at most
/// `high`), and is at least one byte long.
pub open spec fn line_at(rows: Seq<LineRow>, low: u64, high: u64, file_paths: Seq<(u64, Option<Seq<char>>)>, k: int) -> Option<LineInfoView> {
    let row = rows[k];
    if !row.3 && row.2 != 0 && row.0 >= low && row.0 < high && file_path_of(file_paths, row.1) is Some {
        let following = if k + 1 < rows.len() { rows[k + 1].0 } else { high };
        let next = if following < high { following } else { high };
        let span: u64 = if next >= row.0 { (next - row.0) as u64 } else { 0 };
        let size: u64 = if span > 1 { span } else { 1 };
        Some((row.0, size as u32, file_path_of(file_paths, row.1)->Some_0, row.2, row.2))
    } else {
        None
    }
}

/// The lines of the first `n` rows that fall within `[low, high)`, in row order.
pub open spec fn lines_upto(rows: Seq<LineRow>, low: u64, high: u64, file_paths: Seq<(u64, Option<Seq<char>>)>, n: int) -> Seq<LineInfoView>
    decreases n,
{
    if n <= 0 {
        seq![]
    } else {
        let rest = lines_upto(rows, low, high, file_paths, n - 1);
        match line_at(rows, low, high, file_paths, n - 1) {
            Some(l) => rest.push(l),
            None => rest,
        }
    }
}

pub open spec fn spec_lines_in_range(rows: Seq<LineRow>, low: u64, high: u64, file_paths: Seq<(u64, Option<Seq<char>>)>) -> Seq<LineInfoView> {
    lines_upto(rows, low, high, file_paths, rows.len() as int)
}

pub open spec fn lines_view(lines: Seq<LineInfo>) -> Seq<LineInfoView> {
    lines.map_values(|l: LineInfo| line_info_view(l))
}

/// Collect the lines of every row in `rows` (sorted by address) that belongs to
/// `[low, high)`: not an end of sequence, with a line, with a file that resolved
/// to a local path; each sized by the address of the row that follows it.
pub fn lines_in_range(rows: &Vec<LineRow>, low: u64, high: u64, file_paths: &Vec<(u64, Option<String>)>) -> (lines: Vec<LineInfo>)
    ensures
        lines_view(lines@) == spec_lines_in_range(rows@, low, high, file_paths_view(file_paths@)),
        forall|i: int| 0 <= i < lines@.len() ==> {
            &&& low <= (#[trigger] lines@[i]).rva < high
            &&& lines@[i].start_line != 0
            &&& lines@[i].start_line == lines@[i].end_line
            &&& exists|k: int| 0 <= k < rows@.len() && !rows@[k].3 && rows@[k].0 == lines@[i].rva && rows@[k].2 == lines@[i].start_line
        },
{
    let lines = lines_in_range_impl(rows, low, high, file_paths);
    proof {
        let spec = spec_lines_in_range(rows@, low, high, file_paths_view(file_paths@));
        lemma_lines_come_from_line_rows(rows@, low, high, file_paths_view(file_paths@));
        lemma_lines_within_range(rows@, low, high, file_paths_view(file_paths@));
        assert forall|i: int| 0 <= i < lines@.len() implies {
            &&& low <= (#[trigger] lines@[i]).rva < high
            &&& lines@[i].start_line != 0
            &&& lines@[i].start_line == lines@[i].end_line
            &&& exists|k: int| 0 <= k < rows@.len() && !rows@[k].3 && rows@[k].0 == lines@[i].rva && rows@[k].2 == lines@[i].start_line
        } by {
            assert(lines_view(lines@)[i] == line_info_view(lines@[i]));
            assert(spec[i] == line_info_view(lines@[i]));
            assert(from_line_row(rows@, rows@.len() as int, spec[i]));
            let k = choose|k: int| 0 <= k < rows@.len() && k < rows@.len() && !(#[trigger] rows@[k]).3 && rows@[k].0 == spec[i].0 && rows@[k].2 == spec[i].3;
            assert(rows@[k].0 == lines@[i].rva);
        }
    }
    lines
}

fn lines_in_range_impl(rows: &Vec<LineRow>, low: u64, high: u64, file_paths: &Vec<(u64, Option<String>)>) -> (lines: Vec<LineInfo>)
    ensures
        lines_view(lines@) == spec_lines_in_range(rows@, low, high, file_paths_view(file_paths@)),
{
    let ghost fv = file_paths_view(file_paths@);
    let mut lines: Vec<LineInfo> = Vec::new();
    let mut k: usize = 0;
    while k < rows.len()
        invariant
            k <= rows@.len(),
            fv == file_paths_view(file_paths@),
            lines_view(lines@) == lines_upto(rows@, low, high, fv, k as int),
        decreases rows@.len() - k,
    {
        let (address, file_index, line, end_sequence) = rows[k];
        if !end_sequence && line != 0 && address >= low && address < high {
            match lookup_file_path(file_paths, file_index) {
                Some(file_path) => {
                    let following = if k + 1 < rows.len() { rows[k + 1].0 } else { high };
                    let next = if following < high { following } else { high };
                    let span: u64 = if next >= address { next - address } else { 0 };
                    let size: u64 = if span > 1 { span } else { 1 };
                    let info = LineInfo {
                        rva: address,
                        size: size as u32,
                        file_path: file_path.clone(),
                        start_line: line,
                        end_line: line,
                    };
                    let ghost before = lines@;
                    lines.push(info);
                    proof {
                        assert(lines_view(lines@) == lines_view(before).push(line_info_view(info)));
                    }
                },
                None => {},
            }
        }
        k = k + 1;
    }
    lines
}
/// A line-program file entry: its directory (only when the entry names one other
/// than the compilation directory), its file name, and its MD5 checksum when the
/// line program records checksums.
#[derive(Debug)]
pub struct FileEntryFacts {
    pub directory: Option<String>,
    pub name: String,
    pub md5: Option<[u8; 16]>,
}

/// `(directory, name, md5)`
pub type FileEntryView = (Option<Seq<char>>, Seq<char>, Option<Seq<u8>>);

pub open spec fn opt_string_view(s: Option<String>) -> Option<Seq<char>> {
    match s {
        Some(t) => Some(t@),
        None => None,
    }
}

pub open spec fn file_entry_view(f: FileEntryFacts) -> FileEntryView {
    (opt_string_view(f.directory), f.name@, match f.md5 {
        Some(m) => Some(m@),
        None => None,
    })
}

pub open spec fn opt_file_entry_view(f: Option<FileEntryFacts>) -> Option<FileEntryView> {
    match f {
        Some(e) => Some(file_entry_view(e)),
        None => None,
    }
}

/// The name of a subprogram DIE, as resolved through `DW_AT_name`,
/// `DW_AT_abstract_origin` or `DW_AT_specification`.
#[derive(Debug)]
pub enum SubprogramName {
    /// No name could be resolved: not a concrete named subprogram.
    Unnamed,
    Named(String),
    /// A name attribute was found but its string could not be read; why.
    Unreadable(String),
}

/// The mathematical value of a [`SubprogramName`].
pub enum SubprogramNameView {
    Unnamed,
    Named(Seq<char>),
    Unreadable(Seq<char>),
}

impl View for SubprogramName {
    type V = SubprogramNameView;

    open spec fn view(&self) -> SubprogramNameView {
        match self {
            SubprogramName::Unnamed => SubprogramNameView::Unnamed,
            SubprogramName::Named(n) => SubprogramNameView::Named(n@),
            SubprogramName::Unreadable(e) => SubprogramNameView::Unreadable(e@),
        }
    }
}

/// A `DW_TAG_subprogram` DIE: its address ranges (or why they could not be
/// read) and its name.
#[derive(Debug)]
pub struct SubprogramFacts {
    pub ranges: Result<Vec<(u64, u64)>, String>,
    pub name: SubprogramName,
}

/// `(ranges, name)`
pub type SubprogramView = (Result<Seq<(u64, u64)>, Seq<char>>, SubprogramNameView);

pub open spec fn subprogram_view(s: SubprogramFacts) -> SubprogramView {
    (match s.ranges {
        Ok(r) => Ok(r@),
        Err(e) => Err(e@),
    }, s.name@)
}

pub open spec fn subprograms_view(s: Seq<SubprogramFacts>) -> Seq<SubprogramView> {
    s.map_values(|x: SubprogramFacts| subprogram_view(x))
}

/// A compilation unit, as the symbol assembly needs it.
#[derive(Debug)]
pub struct UnitFacts {
    /// The unit has a line number program.
    pub has_line_program: bool,
    /// The rows of its line program, in program order, or why they could not be
    /// read.
    pub rows: Result<Vec<LineRow>, String>,
    /// Each file index that a row refers to, first occurrence first, with its
    /// entry (`None` when the index names no entry or its names cannot be read).
    pub files: Vec<(u64, Option<FileEntryFacts>)>,
    /// Its subprogram DIEs, in DIE order.
    pub subprograms: Vec<SubprogramFacts>,
    /// Why the DIE walk stopped early after the listed subprograms, if it did.
    pub walk_error: Option<String>,
}

/// The mathematical value of a [`UnitFacts`].
pub struct UnitFactsView {
    pub has_line_program: bool,
    pub rows: Result<Seq<LineRow>, Seq<char>>,
    pub files: Seq<(u64, Option<FileEntryView>)>,
    pub subprograms: Seq<SubprogramView>,
    pub walk_error: Option<Seq<char>>,
}

pub open spec fn files_view(files: Seq<(u64, Option<FileEntryFacts>)>) -> Seq<(u64, Option<FileEntryView>)> {
    files.map_values(|f: (u64, Option<FileEntryFacts>)| (f.0, opt_file_entry_view(f.1)))
}

impl View for UnitFacts {
    type V = UnitFactsView;

    open spec fn view(&self) -> UnitFactsView {
        UnitFactsView {
            has_line_program: self.has_line_program,
            rows: match self.rows {
                Ok(r) => Ok(r@),
                Err(e) => Err(e@),
            },
            files: files_view(self.files@),
            subprograms: subprograms_view(self.subprograms@),
            walk_error: opt_string_view(self.walk_error),
        }
    }
}

pub open spec fn units_view(units: Seq<UnitFacts>) -> Seq<UnitFactsView> {
    units.map_values(|u: UnitFacts| u@)
}

/// Why a module's DWARF could not be assembled into symbols.
#[derive(Debug, PartialEq, Eq)]
pub enum DwarfError {
    LineProgram(String),
    Ranges(String),
    Name(String),
    DieWalk(String),
}

/// The mathematical value of a [`DwarfError`].
pub enum DwarfErrorView {
    LineProgram(Seq<char>),
    Ranges(Seq<char>),
    Name(Seq<char>),
    DieWalk(Seq<char>),
}

impl View for DwarfError {
    type V = DwarfErrorView;

    open spec fn view(&self) -> DwarfErrorView {
        match self {
            DwarfError::LineProgram(e) => DwarfErrorView::LineProgram(e@),
            DwarfError::Ranges(e) => DwarfErrorView::Ranges(e@),
            DwarfError::Name(e) => DwarfErrorView::Name(e@),
            DwarfError::DieWalk(e) => DwarfErrorView::DieWalk(e@),
        }
    }
}

/// The lookup key of a file entry: its directory (when recorded) and file name,
/// joined with `/`.
pub open spec fn spec_render_file_name(entry: FileEntryView) -> Seq<char> {
    match entry.0 {
        Some(d) => joined(seq![d, entry.1], '/'),
        None => joined(seq![entry.1], '/'),
    }
}

/// Render a line-program file entry's directory and file name into a single path
/// string: the key for looking the file up by path suffix.
pub fn render_file_name(entry: &FileEntryFacts) -> (s: String)
    ensures
        s@ == spec_render_file_name(file_entry_view(*entry)),
{
    let mut components: Vec<String> = Vec::new();
    match &entry.directory {
        Some(d) => components.push(d.clone()),
        None => {},
    }
    components.push(entry.name.clone());
    proof {
        match &entry.directory {
            Some(d) => assert(strings_view(components@) == seq![d@, entry.name@]),
            None => assert(strings_view(components@) == seq![entry.name@]),
        }
    }
    join_with_slash(components.as_slice())
}

/// The local path of a file entry: by its MD5 checksum when recorded and known,
/// else by longest path suffix of its rendered name.
pub open spec fn spec_resolve_file_path(cache: SourceCacheView, entry: Option<FileEntryView>) -> Option<Seq<char>> {
    match entry {
        None => None,
        Some(f) => spec_lookup_dwarf(cache, f.2, spec_render_file_name(f)),
    }
}

/// Resolve a line-program file entry to a local source file through the cache,
/// trying its MD5 checksum first and falling back to path-suffix matching.
pub fn resolve_file_path(entry: &Option<FileEntryFacts>, source_cache: &SourceCache) -> (r: Option<String>)
    ensures
        r.deep_view() == spec_resolve_file_path(source_cache@, opt_file_entry_view(*entry)),
{
    match entry {
        None => None,
        Some(f) => {
            let rendered = render_file_name(f);
            let found = match &f.md5 {
                Some(m) => source_cache.lookup_dwarf(Some(m), rendered.as_str()),
                None => source_cache.lookup_dwarf(None, rendered.as_str()),
            };
            match found {
                Some(p) => Some(p.to_string()),
                None => None,
            }
        },
    }
}

pub open spec fn resolved_files(cache: SourceCacheView, files: Seq<(u64, Option<FileEntryView>)>) -> Seq<(u64, Option<Seq<char>>)> {
    files.map_values(|f: (u64, Option<FileEntryView>)| (f.0, spec_resolve_file_path(cache, f.1)))
}

/// `(rva, base, size, name, module, lines)`
pub type SymbolView = (u64, u64, u64, Seq<char>, Seq<char>, Seq<LineInfoView>);

pub open spec fn symbol_view(s: SymbolInfo) -> SymbolView {
    (s.rva, s.base, s.size, s.name@, s.module@, lines_view(s.lines@))
}

pub open spec fn symbols_view(s: Seq<SymbolInfo>) -> Seq<SymbolView> {
    s.map_values(|x: SymbolInfo| symbol_view(x))
}

/// What a subprogram contributes: no symbol when it has no range, an empty one,
/// or no name; a symbol spanning its range, with the lines of that range,
/// otherwise; or the error met on the way.
pub open spec fn spec_subprogram_symbol(base: u64, module: Seq<char>, sub: SubprogramView, rows: Seq<LineRow>, files: Seq<(u64, Option<Seq<char>>)>) -> Result<Option<SymbolView>, DwarfErrorView> {
    match sub.0 {
        Err(e) => Err(DwarfErrorView::Ranges(e)),
        Ok(ranges) => match spec_subprogram_range(ranges) {
            None => Ok(None),
            Some((low, high)) => if high <= low {
                Ok(None)
            } else {
                match sub.1 {
                    SubprogramNameView::Unnamed => Ok(None),
                    SubprogramNameView::Unreadable(e) => Err(DwarfErrorView::Name(e)),
                    SubprogramNameView::Named(n) => Ok(Some((low, base, (high - low) as u64, n, module, spec_lines_in_range(rows, low, high, files)))),
                }
            },
        },
    }
}

/// The symbols of `subs`, in order, or the first error met.
pub open spec fn spec_subprogram_symbols(base: u64, module: Seq<char>, subs: Seq<SubprogramView>, rows: Seq<LineRow>, files: Seq<(u64, Option<Seq<char>>)>) -> Result<Seq<SymbolView>, DwarfErrorView>
    decreases subs.len(),
{
    if subs.len() == 0 {
        Ok(seq![])
    } else {
        match spec_subprogram_symbols(base, module, subs.drop_last(), rows, files) {
            Err(e) => Err(e),
            Ok(done) => match spec_subprogram_symbol(base, module, subs.last(), rows, files) {
                Err(e) => Err(e),
                Ok(Some(s)) => Ok(done.push(s)),
                Ok(None) => Ok(done),
            },
        }
    }
}

/// The symbols of a compilation unit: none without a line program; otherwise
/// those of its subprograms over its rows sorted by address, unless reading the
/// rows, a subprogram, or the DIE tree failed.
pub open spec fn spec_unit_symbols(base: u64, module: Seq<char>, cache: SourceCacheView, unit: UnitFactsView) -> Result<Seq<SymbolView>, DwarfErrorView> {
    if !unit.has_line_program {
        Ok(seq![])
    } else {
        match unit.rows {
            Err(e) => Err(DwarfErrorView::LineProgram(e)),
            Ok(rows) => match spec_subprogram_symbols(base, module, unit.subprograms, sort_by_address(rows), resolved_files(cache, unit.files)) {
                Err(e) => Err(e),
                Ok(syms) => match unit.walk_error {
                    Some(e) => Err(DwarfErrorView::DieWalk(e)),
                    None => Ok(syms),
                },
            },
        }
    }
}

fn resolve_files(files: &Vec<(u64, Option<FileEntryFacts>)>, source_cache: &SourceCache) -> (r: Vec<(u64, Option<String>)>)
    ensures
        file_paths_view(r@) == resolved_files(source_cache@, files_view(files@)),
{
    let ghost all = resolved_files(source_cache@, files_view(files@));
    let mut r: Vec<(u64, Option<String>)> = Vec::new();
    let mut i: usize = 0;
    while i < files.len()
        invariant
            i <= files@.len(),
            all == resolved_files(source_cache@, files_view(files@)),
            file_paths_view(r@) == all.take(i as int),
        decreases files@.len() - i,
    {
        let path = resolve_file_path(&files[i].1, source_cache);
        let ghost before = r@;
        r.push((files[i].0, path));
        proof {
            assert(files_view(files@)[i as int] == (files@[i as int].0, opt_file_entry_view(files@[i as int].1)));
            assert(all[i as int] == (files@[i as int].0, spec_resolve_file_path(source_cache@, opt_file_entry_view(files@[i as int].1))));
            assert(file_paths_view(r@) == file_paths_view(before).push(file_paths_view(r@).last()));
            assert(all.take(i + 1) == all.take(i as int).push(all[i as int]));
        }
        i = i + 1;
    }
    proof {
        assert(all.take(files@.len() as int) == all);
    }
    r
}

/// Walk the subprograms of a compilation unit, resolving each one's address
/// range and source lines into a [`SymbolInfo`] with link-time addresses.
pub fn unit_symbols(base: u64, full_name: &String, unit: &UnitFacts, source_cache: &SourceCache) -> (r: Result<Vec<SymbolInfo>, DwarfError>)
    ensures
        match r {
            Ok(syms) => spec_unit_symbols(base, full_name@, source_cache@, unit@) == Ok::<Seq<SymbolView>, DwarfErrorView>(symbols_view(syms@)),
            Err(e) => spec_unit_symbols(base, full_name@, source_cache@, unit@) == Err::<Seq<SymbolView>, DwarfErrorView>(e@),
        },
{
    if !unit.has_line_program {
        let v: Vec<SymbolInfo> = Vec::new();
        proof {
            assert(symbols_view(v@) == Seq::<SymbolView>::empty());
        }
        return Ok(v);
    }
    match &unit.rows {
        Err(e) => Err(DwarfError::LineProgram(e.clone())),
        Ok(rows) => {
            let file_paths = resolve_files(&unit.files, source_cache);
            let sorted = sort_rows(rows);
            match subprogram_symbols(base, full_name, &unit.subprograms, &sorted, &file_paths) {
                Err(e) => Err(e),
                Ok(symbols) => match &unit.walk_error {
                    Some(e) => Err(DwarfError::DieWalk(e.clone())),
                    None => Ok(symbols),
                },
            }
        },
    }
}

fn subprogram_symbols(base: u64, full_name: &String, subprograms: &Vec<SubprogramFacts>, sorted: &Vec<LineRow>, file_paths: &Vec<(u64, Option<String>)>) -> (r: Result<Vec<SymbolInfo>, DwarfError>)
    ensures
        match r {
            Ok(syms) => spec_subprogram_symbols(base, full_name@, subprograms_view(subprograms@), sorted@, file_paths_view(file_paths@)) == Ok::<Seq<SymbolView>, DwarfErrorView>(symbols_view(syms@)),
            Err(e) => spec_subprogram_symbols(base, full_name@, subprograms_view(subprograms@), sorted@, file_paths_view(file_paths@)) == Err::<Seq<SymbolView>, DwarfErrorView>(e@),
        },
{
    let ghost fv = file_paths_view(file_paths@);
    let ghost subs = subprograms_view(subprograms@);
    let mut symbols: Vec<SymbolInfo> = Vec::new();
    let mut i: usize = 0;
    proof {
        assert(subs.take(0) == Seq::<SubprogramView>::empty());
        assert(symbols_view(symbols@) == Seq::<SymbolView>::empty());
    }
    while i < subprograms.len()
        invariant
            i <= subs.len(),
            subs == subprograms_view(subprograms@),
            fv == file_paths_view(file_paths@),
            spec_subprogram_symbols(base, full_name@, subs.take(i as int), sorted@, fv) == Ok::<Seq<SymbolView>, DwarfErrorView>(symbols_view(symbols@)),
        decreases subs.len() - i,
    {
        proof {
            assert(subs.take(i + 1).drop_last() == subs.take(i as int));
            assert(subs.take(i + 1).last() == subs[i as int]);
            assert(subs[i as int] == subprogram_view(subprograms@[i as int]));
        }
        let sub = &subprograms[i];
        match &sub.ranges {
            Err(e) => {
                let err = DwarfError::Ranges(e.clone());
                proof {
                    assert(spec_subprogram_symbol(base, full_name@, subs[i as int], sorted@, fv) == Err::<Option<SymbolView>, DwarfErrorView>(err@));
                    assert(spec_subprogram_symbols(base, full_name@, subs.take(i + 1), sorted@, fv) == Err::<Seq<SymbolView>, DwarfErrorView>(err@));
                    lemma_symbols_error_persists(base, full_name@, subs, sorted@, fv, i as int + 1);
                }
                return Err(err);
            },
            Ok(ranges) => {
                match subprogram_range(ranges.as_slice()) {
                    None => {},
                    Some((low, high)) => {
                        if high > low {
                            match &sub.name {
                                SubprogramName::Unnamed => {},
                                SubprogramName::Unreadable(e) => {
                                    let err = DwarfError::Name(e.clone());
                                    proof {
                                        assert(spec_subprogram_symbol(base, full_name@, subs[i as int], sorted@, fv) == Err::<Option<SymbolView>, DwarfErrorView>(err@));
                                        assert(spec_subprogram_symbols(base, full_name@, subs.take(i + 1), sorted@, fv) == Err::<Seq<SymbolView>, DwarfErrorView>(err@));
                                        lemma_symbols_error_persists(base, full_name@, subs, sorted@, fv, i as int + 1);
                                    }
                                    return Err(err);
                                },
                                SubprogramName::Named(n) => {
                                    let lines = lines_in_range(sorted, low, high, file_paths);
                                    let sym = SymbolInfo::new(low, base, high - low, n.clone(), full_name.clone(), lines);
                                    let ghost before = symbols@;
                                    symbols.push(sym);
                                    proof {
                                        assert(symbols_view(symbols@) == symbols_view(before).push(symbol_view(sym)));
                                    }
                                },
                            }
                        }
                    },
                }
            },
        }
        i = i + 1;
    }
    proof {
        assert(subs.take(subs.len() as int) == subs);
    }
    Ok(symbols)
}

proof fn lemma_symbols_error_persists(base: u64, module: Seq<char>, subs: Seq<SubprogramView>, rows: Seq<LineRow>, files: Seq<(u64, Option<Seq<char>>)>, k: int)
    requires
        0 <= k <= subs.len(),
        spec_subprogram_symbols(base, module, subs.take(k), rows, files) is Err,
    ensures
        spec_subprogram_symbols(base, module, subs, rows, files) == spec_subprogram_symbols(base, module, subs.take(k), rows, files),
    decreases subs.len() - k,
{
    if k < subs.len() {
        assert(subs.take(k + 1).drop_last() == subs.take(k));
        lemma_symbols_error_persists(base, module, subs, rows, files, k + 1);
    } else {
        assert(subs.take(k) == subs);
    }
}

/// The symbols of every unit, unit after unit, or the first error met.
pub open spec fn spec_module_symbols(base: u64, module: Seq<char>, cache: SourceCacheView, units: Seq<UnitFactsView>) -> Result<Seq<SymbolView>, DwarfErrorView>
    decreases units.len(),
{
    if units.len() == 0 {
        Ok(seq![])
    } else {
        match spec_module_symbols(base, module, cache, units.drop_last()) {
            Err(e) => Err(e),
            Ok(done) => match spec_unit_symbols(base, module, cache, units.last()) {
                Err(e) => Err(e),
                Ok(syms) => Ok(done + syms),
            },
        }
    }
}

/// Resolve every subprogram of a module (all its compilation units, in order)
/// into symbols with link-time addresses.
pub fn module_symbols(base: u64, full_name: &String, units: &Vec<UnitFacts>, source_cache: &SourceCache) -> (r: Result<Vec<SymbolInfo>, DwarfError>)
    ensures
        match r {
            Ok(syms) => spec_module_symbols(base, full_name@, source_cache@, units_view(units@)) == Ok::<Seq<SymbolView>, DwarfErrorView>(symbols_view(syms@)),
            Err(e) => spec_module_symbols(base, full_name@, source_cache@, units_view(units@)) == Err::<Seq<SymbolView>, DwarfErrorView>(e@),
        },
{
    let ghost uv = units_view(units@);
    let mut symbols: Vec<SymbolInfo> = Vec::new();
    let mut i: usize = 0;
    proof {
        assert(uv.take(0) == Seq::<UnitFactsView>::empty());
        assert(symbols_view(symbols@) == Seq::<SymbolView>::empty());
    }
    while i < units.len()
        invariant
            i <= units@.len(),
            uv == units_view(units@),
            spec_module_symbols(base, full_name@, source_cache@, uv.take(i as int)) == Ok::<Seq<SymbolView>, DwarfErrorView>(symbols_view(symbols@)),
        decreases units@.len() - i,
    {
        proof {
            assert(uv.take(i + 1).drop_last() == uv.take(i as int));
            assert(uv.take(i + 1).last() == units@[i as int]@);
        }
        match unit_symbols(base, full_name, &units[i], source_cache) {
            Err(e) => {
                proof {
                    lemma_module_error_persists(base, full_name@, source_cache@, uv, i as int + 1);
                }
                return Err(e);
            },
            Ok(mut syms) => {
                let ghost before = symbols@;
                let ghost added = syms@;
                symbols.append(&mut syms);
                proof {
                    assert(symbols_view(symbols@) == symbols_view(before) + symbols_view(added));
                }
            },
        }
        i = i + 1;
    }
    proof {
        assert(uv.take(units@.len() as int) == uv);
    }
    Ok(symbols)
}

proof fn lemma_module_error_persists(base: u64, module: Seq<char>, cache: SourceCacheView, units: Seq<UnitFactsView>, k: int)
    requires
        0 <= k <= units.len(),
        spec_module_symbols(base, module, cache, units.take(k)) is Err,
    ensures
        spec_module_symbols(base, module, cache, units) == spec_module_symbols(base, module, cache, units.take(k)),
    decreases units.len() - k,
{
    if k < units.len() {
        assert(units.take(k + 1).drop_last() == units.take(k));
        lemma_module_error_persists(base, module, cache, units, k + 1);
    } else {
        assert(units.take(k) == units);
    }
}

/// The runtime extent of every symbol fits in a 64-bit address.
pub open spec fn extents_fit(base: u64, symbols: Seq<SymbolInfo>) -> bool {
    forall|i: int| 0 <= i < symbols.len() ==> base + #[trigger] symbols[i].rva + symbols[i].size <= u64::MAX
}

/// Whether the runtime extent `base + rva + size` of every symbol fits in a
/// 64-bit address.
pub fn symbol_extents_fit(base: u64, symbols: &Vec<SymbolInfo>) -> (fits: bool)
    ensures
        fits == extents_fit(base, symbols@),
{
    let mut i: usize = 0;
    while i < symbols.len()
        invariant
            i <= symbols@.len(),
            forall|k: int| 0 <= k < i ==> base + #[trigger] symbols@[k].rva + symbols@[k].size <= u64::MAX,
        decreases symbols@.len() - i,
    {
        let s = &symbols[i];
        if s.rva > u64::MAX - base || s.size > u64::MAX - base - s.rva {
            return false;
        }
        i = i + 1;
    }
    true
}

/// Key every symbol by its runtime address range `[base + rva, base + rva + size)`.
pub fn symbol_intervals(base: u64, symbols: Vec<SymbolInfo>) -> (intervals: Vec<(u64, u64, SymbolInfo)>)
    requires
        extents_fit(base, symbols@),
    ensures
        intervals@.len() == symbols@.len(),
        forall|i: int| 0 <= i < intervals@.len() ==> {
            &&& (#[trigger] intervals@[i]).0 == base + symbols@[i].rva
            &&& intervals@[i].1 == base + symbols@[i].rva + symbols@[i].size
            &&& intervals@[i].2 == symbols@[i]
        },
{
    let ghost given = symbols@;
    let mut rest = symbols;
    let mut reversed: Vec<(u64, u64, SymbolInfo)> = Vec::new();
    while rest.len() > 0
        invariant
            rest@.len() + reversed@.len() == given.len(),
            rest@ == given.take(rest@.len() as int),
            extents_fit(base, given),
            forall|k: int| 0 <= k < reversed@.len() ==> {
                let j = given.len() - 1 - k;
                &&& (#[trigger] reversed@[k]).0 == base + given[j].rva
                &&& reversed@[k].1 == base + given[j].rva + given[j].size
                &&& reversed@[k].2 == given[j]
            },
        decreases rest@.len(),
    {
        let s = rest.pop().unwrap();
        proof {
            assert(s == given[rest@.len() as int]);
            assert(rest@ == given.take(rest@.len() as int));
        }
        let start = base + s.rva;
        let end = start + s.size;
        reversed.push((start, end, s));
    }
    let mut intervals: Vec<(u64, u64, SymbolInfo)> = Vec::new();
    while reversed.len() > 0
        invariant
            reversed@.len() + intervals@.len() == given.len(),
            extents_fit(base, given),
            forall|k: int| 0 <= k < reversed@.len() ==> {
                let j = given.len() - 1 - k;
                &&& (#[trigger] reversed@[k]).0 == base + given[j].rva
                &&& reversed@[k].1 == base + given[j].rva + given[j].size
                &&& reversed@[k].2 == given[j]
            },
            forall|i: int| 0 <= i < intervals@.len() ==> {
                &&& (#[trigger] intervals@[i]).0 == base + given[i].rva
                &&& intervals@[i].1 == base + given[i].rva + given[i].size
                &&& intervals@[i].2 == given[i]
            },
        decreases reversed@.len(),
    {
        let e = reversed.pop().unwrap();
        intervals.push(e);
    }
    intervals
}

/// Every line of a symbol lies within the symbol's range, has a line number and
/// a local file, and spans a single line.
pub proof fn lemma_lines_within_range(rows: Seq<LineRow>, low: u64, high: u64, files: Seq<(u64, Option<Seq<char>>)>)
    ensures
        forall|i: int| 0 <= i < spec_lines_in_range(rows, low, high, files).len() ==> {
            let l = #[trigger] spec_lines_in_range(rows, low, high, files)[i];
            &&& low <= l.0 < high
            &&& l.3 != 0
            &&& l.3 == l.4
        },
{
    lemma_lines_upto_within_range(rows, low, high, files, rows.len() as int);
}

proof fn lemma_lines_upto_within_range(rows: Seq<LineRow>, low: u64, high: u64, files: Seq<(u64, Option<Seq<char>>)>, n: int)
    requires
        n <= rows.len(),
    ensures
        forall|i: int| 0 <= i < lines_upto(rows, low, high, files, n).len() ==> {
            let l = #[trigger] lines_upto(rows, low, high, files, n)[i];
            &&& low <= l.0 < high
            &&& l.3 != 0
            &&& l.3 == l.4
        },
    decreases n,
{
    if n > 0 {
        lemma_lines_upto_within_range(rows, low, high, files, n - 1);
        let rest = lines_upto(rows, low, high, files, n - 1);
        assert forall|i: int| 0 <= i < lines_upto(rows, low, high, files, n).len() implies {
            let l = #[trigger] lines_upto(rows, low, high, files, n)[i];
            &&& low <= l.0 < high
            &&& l.3 != 0
            &&& l.3 == l.4
        } by {
            if i < rest.len() {
                assert(lines_upto(rows, low, high, files, n)[i] == rest[i]);
            }
        }
    }
}

/// Among the first `n` rows there is one that is not an end-of-sequence row and
/// has the line's address and line number.
pub open spec fn from_line_row(rows: Seq<LineRow>, n: int, l: LineInfoView) -> bool {
    exists|k: int| 0 <= k < n && k < rows.len() && !(#[trigger] rows[k]).3 && rows[k].0 == l.0 && rows[k].2 == l.3
}

/// Every line comes from a row of the line table that is a line of its own: not
/// an end-of-sequence row (which only marks where a sequence stops), with the
/// line's address and line number.
pub proof fn lemma_lines_come_from_line_rows(rows: Seq<LineRow>, low: u64, high: u64, files: Seq<(u64, Option<Seq<char>>)>)
    ensures
        forall|i: int| 0 <= i < spec_lines_in_range(rows, low, high, files).len()
            ==> from_line_row(rows, rows.len() as int, #[trigger] spec_lines_in_range(rows, low, high, files)[i]),
{
    lemma_lines_upto_from_rows(rows, low, high, files, rows.len() as int);
}

proof fn lemma_lines_upto_from_rows(rows: Seq<LineRow>, low: u64, high: u64, files: Seq<(u64, Option<Seq<char>>)>, n: int)
    requires
        n <= rows.len(),
    ensures
        forall|i: int| 0 <= i < lines_upto(rows, low, high, files, n).len()
            ==> from_line_row(rows, n, #[trigger] lines_upto(rows, low, high, files, n)[i]),
    decreases n,
{
    if n > 0 {
        lemma_lines_upto_from_rows(rows, low, high, files, n - 1);
        let rest = lines_upto(rows, low, high, files, n - 1);
        let all = lines_upto(rows, low, high, files, n);
        assert forall|i: int| 0 <= i < all.len() implies from_line_row(rows, n, #[trigger] lines_upto(rows, low, high, files, n)[i]) by {
            if i < rest.len() {
                assert(all[i] == rest[i]);
                assert(from_line_row(rows, n - 1, rest[i]));
                let k = choose|k: int| 0 <= k < n - 1 && k < rows.len() && !(#[trigger] rows[k]).3 && rows[k].0 == rest[i].0 && rows[k].2 == rest[i].3;
                assert(!rows[k].3);
            } else {
                let k = n - 1;
                assert(line_at(rows, low, high, files, k) is Some);
                let l = line_at(rows, low, high, files, k)->Some_0;
                assert(all == rest.push(l));
                assert(all[i] == l);
                assert(!rows[k].3);
            }
        }
    }
}

proof fn lemma_insert_sorted(rows: Seq<LineRow>, row: LineRow)
    requires
        forall|i: int, j: int| 0 <= i < j < rows.len() ==> #[trigger] rows[i].0 <= #[trigger] rows[j].0,
    ensures
        forall|i: int, j: int| 0 <= i < j < insert_by_address(rows, row).len() ==> #[trigger] insert_by_address(rows, row)[i].0 <= #[trigger] insert_by_address(rows, row)[j].0,
        insert_by_address(rows, row).to_multiset() == rows.to_multiset().insert(row),
        insert_by_address(rows, row).len() == rows.len() + 1,
    decreases rows.len(),
{
    broadcast use vstd::seq_lib::group_to_multiset_ensures;
    if rows.len() == 0 {
        assert(insert_by_address(rows, row) == seq![row]);
        assert(seq![row] == rows.push(row));
    } else if rows.last().0 <= row.0 {
    } else {
        let init = rows.drop_last();
        assert forall|i: int, j: int| 0 <= i < j < init.len() implies #[trigger] init[i].0 <= #[trigger] init[j].0 by {
            assert(init[i] == rows[i]);
            assert(init[j] == rows[j]);
        }
        lemma_insert_sorted(init, row);
        let ins = insert_by_address(init, row);
        let r = ins.push(rows.last());
        assert forall|k: int| 0 <= k < ins.len() implies #[trigger] ins[k].0 <= rows.last().0 by {
            assert(ins.to_multiset().count(ins[k]) > 0);
            assert(init.to_multiset().insert(row).count(ins[k]) > 0);
            if ins[k] != row {
                assert(init.to_multiset().count(ins[k]) > 0);
                assert(init.contains(ins[k]));
                let t = choose|t: int| 0 <= t < init.len() && init[t] == ins[k];
                assert(rows[t] == init[t]);
                assert(rows[t].0 <= rows[rows.len() - 1].0);
            }
        }
        assert(rows == init.push(rows.last()));
    }
}

/// Sorting the line rows keeps every row exactly once and orders them by address.
pub proof fn lemma_sorted_rows(rows: Seq<LineRow>)
    ensures
        forall|i: int, j: int| 0 <= i < j < sort_by_address(rows).len() ==> #[trigger] sort_by_address(rows)[i].0 <= #[trigger] sort_by_address(rows)[j].0,
        sort_by_address(rows).to_multiset() == rows.to_multiset(),
        sort_by_address(rows).len() == rows.len(),
    decreases rows.len(),
{
    broadcast use vstd::seq_lib::group_to_multiset_ensures;
    if rows.len() > 0 {
        lemma_sorted_rows(rows.drop_last());
        lemma_insert_sorted(sort_by_address(rows.drop_last()), rows.last());
        assert(rows == rows.drop_last().push(rows.last()));
    }
}

/// A symbol as the assembly makes it: of the module and base it was made for,
/// nonempty, and with every line inside its range, with a line number, and
/// spanning a single line.
pub open spec fn symbol_well_formed(base: u64, module: Seq<char>, s: SymbolView) -> bool {
    &&& s.1 == base
    &&& s.4 == module
    &&& s.2 > 0
    &&& forall|i: int| 0 <= i < s.5.len() ==> {
        let l = #[trigger] s.5[i];
        &&& s.0 <= l.0 < s.0 + s.2
        &&& l.3 != 0
        &&& l.3 == l.4
    }
}

proof fn lemma_subprogram_symbols_well_formed(base: u64, module: Seq<char>, subs: Seq<SubprogramView>, rows: Seq<LineRow>, files: Seq<(u64, Option<Seq<char>>)>)
    ensures
        spec_subprogram_symbols(base, module, subs, rows, files) matches Ok(v)
            ==> forall|i: int| 0 <= i < v.len() ==> symbol_well_formed(base, module, #[trigger] v[i]),
    decreases subs.len(),
{
    if subs.len() > 0 {
        lemma_subprogram_symbols_well_formed(base, module, subs.drop_last(), rows, files);
        let sub = subs.last();
        if let Ok(ranges) = sub.0 {
            if let Some((low, high)) = spec_subprogram_range(ranges) {
                lemma_lines_within_range(rows, low, high, files);
            }
        }
        if let Ok(v) = spec_subprogram_symbols(base, module, subs, rows, files) {
            let w = spec_subprogram_symbols(base, module, subs.drop_last(), rows, files)->Ok_0;
            assert forall|i: int| 0 <= i < v.len() implies symbol_well_formed(base, module, #[trigger] v[i]) by {
                if i < w.len() {
                    assert(v[i] == w[i]);
                }
            }
        }
    }
}

/// Every symbol of a module lies at the module's base, is nonempty, and has all
/// its lines inside its own range `[rva, rva + size)`, each with a line number
/// and spanning a single line.
pub proof fn lemma_module_symbols_well_formed(base: u64, module: Seq<char>, cache: SourceCacheView, units: Seq<UnitFactsView>)
    ensures
        spec_module_symbols(base, module, cache, units) matches Ok(v)
            ==> forall|i: int| 0 <= i < v.len() ==> symbol_well_formed(base, module, #[trigger] v[i]),
    decreases units.len(),
{
    if units.len() > 0 {
        lemma_module_symbols_well_formed(base, module, cache, units.drop_last());
        let unit = units.last();
        if let Ok(rows) = unit.rows {
            lemma_subprogram_symbols_well_formed(base, module, unit.subprograms, sort_by_address(rows), resolved_files(cache, unit.files));
        }
        if let Ok(v) = spec_module_symbols(base, module, cache, units) {
            let w = spec_module_symbols(base, module, cache, units.drop_last())->Ok_0;
            let u = spec_unit_symbols(base, module, cache, unit)->Ok_0;
            assert(v == w + u);
            assert forall|i: int| 0 <= i < v.len() implies symbol_well_formed(base, module, #[trigger] v[i]) by {
                if i < w.len() {
                    assert(v[i] == w[i]);
                } else {
                    assert(v[i] == u[i - w.len()]);
                }
            }
        }
    }
}

/// The tag of a subprogram DIE (`DW_TAG_subprogram`).
pub const DW_TAG_SUBPROGRAM: u16 = 0x2e;

/// A reference from one DIE to another, as an attribute holds it.
#[derive(Debug, Clone, Copy, PartialEq, Eq, Structural)]
pub enum DieRef {
    /// An offset from the start of the referring DIE's own unit.
    UnitOffset(u64),
    /// An offset from the start of the `.debug_info` section.
    SectionOffset(u64),
    /// Any other form of reference.
    Other,
}

/// One DIE of a unit's DIE tree, as read.
#[derive(Debug)]
pub struct DieFacts {
    /// Its offset from the start of its unit.
    pub offset: u64,
    pub tag: u16,
    /// Its own `DW_AT_name`, read as a string (or why it could not be read).
    pub name: Option<Result<String, String>>,
    pub abstract_origin: Option<DieRef>,
    pub specification: Option<DieRef>,
    /// Its address ranges (`DW_AT_low_pc`/`DW_AT_high_pc`/`DW_AT_ranges`), or why
    /// they could not be read.
    pub ranges: Result<Vec<(u64, u64)>, String>,
}

/// The file entry a line row names, as read.
#[derive(Debug)]
pub struct RawFileEntry {
    pub directory_index: u64,
    /// The entry's directory, read as a string, when it has one.
    pub directory: Option<Result<String, String>>,
    pub name: Result<String, String>,
    /// Its MD5 checksum, when the line program records checksums.
    pub md5: Option<[u8; 16]>,
}

/// One row of a line program, as read.
#[derive(Debug)]
pub struct RawLineRow {
    pub address: u64,
    pub file_index: u64,
    pub line: Option<u64>,
    pub end_sequence: bool,
    /// The file entry that `file_index` names, if any.
    pub file: Option<RawFileEntry>,
}

/// One compilation unit, as read: every DIE of its tree in tree order, and
/// every row of its line program in program order.
#[derive(Debug)]
pub struct UnitDump {
    /// The unit's offset in the `.debug_info` section (`None` for a unit of
    /// another section).
    pub offset: Option<u64>,
    /// The size of its header: its DIE data starts this far into the unit.
    pub header_size: u64,
    /// Its length, header included: its DIE data ends this far into the unit.
    pub length: u64,
    /// Its line program's rows, or why they could not be read; `None` when it
    /// has no line program.
    pub line_program: Option<Result<Vec<RawLineRow>, String>>,
    pub dies: Vec<DieFacts>,
    /// Why the DIE walk stopped early after the listed DIEs, if it did.
    pub walk_error: Option<String>,
}

pub open spec fn opt_read_view(r: Option<Result<String, String>>) -> Option<Result<Seq<char>, Seq<char>>> {
    match r {
        Some(Ok(s)) => Some(Ok(s@)),
        Some(Err(e)) => Some(Err(e@)),
        None => None,
    }
}

pub open spec fn read_view(r: Result<String, String>) -> Result<Seq<char>, Seq<char>> {
    match r {
        Ok(s) => Ok(s@),
        Err(e) => Err(e@),
    }
}

pub struct DieView {
    pub offset: u64,
    pub tag: u16,
    pub name: Option<Result<Seq<char>, Seq<char>>>,
    pub abstract_origin: Option<DieRef>,
    pub specification: Option<DieRef>,
    pub ranges: Result<Seq<(u64, u64)>, Seq<char>>,
}

impl View for DieFacts {
    type V = DieView;

    open spec fn view(&self) -> DieView {
        DieView {
            offset: self.offset,
            tag: self.tag,
            name: opt_read_view(self.name),
            abstract_origin: self.abstract_origin,
            specification: self.specification,
            ranges: match self.ranges {
                Ok(r) => Ok(r@),
                Err(e) => Err(e@),
            },
        }
    }
}

pub struct RawFileView {
    pub directory_index: u64,
    pub directory: Option<Result<Seq<char>, Seq<char>>>,
    pub name: Result<Seq<char>, Seq<char>>,
    pub md5: Option<Seq<u8>>,
}

impl View for RawFileEntry {
    type V = RawFileView;

    open spec fn view(&self) -> RawFileView {
        RawFileView {
            directory_index: self.directory_index,
            directory: opt_read_view(self.directory),
            name: read_view(self.name),
            md5: match self.md5 {
                Some(m) => Some(m@),
                None => None,
            },
        }
    }
}

pub struct RawRowView {
    pub address: u64,
    pub file_index: u64,
    pub line: Option<u64>,
    pub end_sequence: bool,
    pub file: Option<RawFileView>,
}

impl View for RawLineRow {
    type V = RawRowView;

    open spec fn view(&self) -> RawRowView {
        RawRowView {
            address: self.address,
            file_index: self.file_index,
            line: self.line,
            end_sequence: self.end_sequence,
            file: match self.file {
                Some(f) => Some(f@),
                None => None,
            },
        }
    }
}

pub struct UnitDumpView {
    pub offset: Option<u64>,
    pub header_size: u64,
    pub length: u64,
    pub line_program: Option<Result<Seq<RawRowView>, Seq<char>>>,
    pub dies: Seq<DieView>,
    pub walk_error: Option<Seq<char>>,
}

pub open spec fn rows_view(rows: Seq<RawLineRow>) -> Seq<RawRowView> {
    rows.map_values(|r: RawLineRow| r@)
}

pub open spec fn dies_view(dies: Seq<DieFacts>) -> Seq<DieView> {
    dies.map_values(|d: DieFacts| d@)
}

impl View for UnitDump {
    type V = UnitDumpView;

    open spec fn view(&self) -> UnitDumpView {
        UnitDumpView {
            offset: self.offset,
            header_size: self.header_size,
            length: self.length,
            line_program: match self.line_program {
                Some(Ok(rows)) => Some(Ok(rows_view(rows@))),
                Some(Err(e)) => Some(Err(e@)),
                None => None,
            },
            dies: dies_view(self.dies@),
            walk_error: opt_string_view(self.walk_error),
        }
    }
}

pub open spec fn dumps_view(units: Seq<UnitDump>) -> Seq<UnitDumpView> {
    units.map_values(|u: UnitDump| u@)
}

/// The name a DIE carries itself, if it has a `DW_AT_name`.
pub open spec fn spec_own_name(d: DieView) -> Option<SubprogramNameView> {
    match d.name {
        Some(Ok(n)) => Some(SubprogramNameView::Named(n)),
        Some(Err(e)) => Some(SubprogramNameView::Unreadable(e)),
        None => None,
    }
}

/// The first of `dies` at offset `offset` into their unit.
pub open spec fn first_die(dies: Seq<DieView>, offset: int) -> Option<DieView>
    decreases dies.len(),
{
    if dies.len() == 0 {
        None
    } else {
        match first_die(dies.drop_last(), offset) {
            Some(d) => Some(d),
            None => if dies.last().offset == offset {
                Some(dies.last())
            } else {
                None
            },
        }
    }
}

/// A `.debug_info` offset as an offset into unit `u`, when it falls within the
/// unit's DIE data.
pub open spec fn unit_relative(u: UnitDumpView, offset: int) -> Option<int> {
    match u.offset {
        Some(start) => if start <= offset && u.header_size <= offset - start < u.length {
            Some(offset - start)
        } else {
            None
        },
        None => None,
    }
}

/// The name of the DIE at section offset `offset` in the first of `units`
/// whose DIE data holds that offset and has a DIE there with a name.
pub open spec fn named_in_units(units: Seq<UnitDumpView>, offset: int) -> Option<SubprogramNameView>
    decreases units.len(),
{
    if units.len() == 0 {
        None
    } else {
        match named_in_units(units.drop_last(), offset) {
            Some(n) => Some(n),
            None => {
                let u = units.last();
                match unit_relative(u, offset) {
                    Some(rel) => match first_die(u.dies, rel) {
                        Some(d) => spec_own_name(d),
                        None => None,
                    },
                    None => None,
                }
            },
        }
    }
}

/// The effective name of DIE `d` of unit `u`: its own `DW_AT_name`; otherwise
/// the name of the DIE its `DW_AT_abstract_origin` (or, without one, its
/// `DW_AT_specification`) refers to, which lies in the same unit for a unit
/// offset, and in whichever unit holds it for a section offset.
pub open spec fn spec_resolve_name(units: Seq<UnitDumpView>, u: int, d: DieView) -> SubprogramNameView {
    match spec_own_name(d) {
        Some(n) => n,
        None => {
            let origin = if d.abstract_origin is Some { d.abstract_origin } else { d.specification };
            let found = match origin {
                Some(DieRef::UnitOffset(o)) => match first_die(units[u].dies, o as int) {
                    Some(t) => spec_own_name(t),
                    None => None,
                },
                Some(DieRef::SectionOffset(o)) => named_in_units(units, o as int),
                _ => None,
            };
            match found {
                Some(n) => n,
                None => SubprogramNameView::Unnamed,
            }
        },
    }
}

/// The file entry of a row as the symbol assembly needs it: none when its name
/// (or its directory, where it has one other than the compilation directory)
/// cannot be read; directory index 0, the compilation directory, is left out.
pub open spec fn spec_file_entry(f: Option<RawFileView>) -> Option<FileEntryView> {
    match f {
        None => None,
        Some(f) => match f.name {
            Err(_) => None,
            Ok(n) => if f.directory_index != 0 {
                match f.directory {
                    Some(Err(_)) => None,
                    Some(Ok(dir)) => Some((Some(dir), n, f.md5)),
                    None => Some((None, n, f.md5)),
                }
            } else {
                Some((None, n, f.md5))
            },
        },
    }
}

/// A raw row as a line row: a row without a line has line 0.
pub open spec fn spec_line_row(r: RawRowView) -> LineRow {
    (r.address, r.file_index, match r.line {
        Some(l) => l as u32,
        None => 0,
    }, r.end_sequence)
}

pub open spec fn spec_line_rows(rows: Seq<RawRowView>) -> Seq<LineRow> {
    rows.map_values(|r: RawRowView| spec_line_row(r))
}

pub open spec fn has_file_index(files: Seq<(u64, Option<FileEntryView>)>, index: u64) -> bool {
    exists|j: int| 0 <= j < files.len() && (#[trigger] files[j]).0 == index
}

/// Each file index the rows name, first occurrence first, with the entry of the
/// row that names it first.
pub open spec fn spec_row_files(rows: Seq<RawRowView>) -> Seq<(u64, Option<FileEntryView>)>
    decreases rows.len(),
{
    if rows.len() == 0 {
        seq![]
    } else {
        let rest = spec_row_files(rows.drop_last());
        if has_file_index(rest, rows.last().file_index) {
            rest
        } else {
            rest.push((rows.last().file_index, spec_file_entry(rows.last().file)))
        }
    }
}

/// The subprogram DIEs among the first `n` DIEs of unit `u`, in DIE order, with
/// their ranges and effective names.
pub open spec fn subprograms_upto(units: Seq<UnitDumpView>, u: int, n: int) -> Seq<SubprogramView>
    decreases n,
{
    if n <= 0 {
        seq![]
    } else {
        let rest = subprograms_upto(units, u, n - 1);
        let d = units[u].dies[n - 1];
        if d.tag == DW_TAG_SUBPROGRAM {
            rest.push((d.ranges, spec_resolve_name(units, u, d)))
        } else {
            rest
        }
    }
}

/// Unit `u` as the symbol assembly needs it.
pub open spec fn spec_unit_facts(units: Seq<UnitDumpView>, u: int) -> UnitFactsView {
    match units[u].line_program {
        None => UnitFactsView {
            has_line_program: false,
            rows: Ok(seq![]),
            files: seq![],
            subprograms: seq![],
            walk_error: None,
        },
        Some(Err(e)) => UnitFactsView {
            has_line_program: true,
            rows: Err(e),
            files: seq![],
            subprograms: seq![],
            walk_error: None,
        },
        Some(Ok(rows)) => UnitFactsView {
            has_line_program: true,
            rows: Ok(spec_line_rows(rows)),
            files: spec_row_files(rows),
            subprograms: subprograms_upto(units, u, units[u].dies.len() as int),
            walk_error: units[u].walk_error,
        },
    }
}

pub open spec fn spec_all_unit_facts(units: Seq<UnitDumpView>) -> Seq<UnitFactsView> {
    Seq::new(units.len(), |u: int| spec_unit_facts(units, u))
}

/// The symbols of a module read as `units`.
pub open spec fn spec_dwarf_symbols(base: u64, module: Seq<char>, cache: SourceCacheView, units: Seq<UnitDumpView>) -> Result<Seq<SymbolView>, DwarfErrorView> {
    spec_module_symbols(base, module, cache, spec_all_unit_facts(units))
}

fn clone_read(r: &Option<Result<String, String>>) -> (c: Option<Result<String, String>>)
    ensures
        opt_read_view(c) == opt_read_view(*r),
{
    match r {
        Some(Ok(s)) => Some(Ok(s.clone())),
        Some(Err(e)) => Some(Err(e.clone())),
        None => None,
    }
}

fn own_name(d: &DieFacts) -> (n: Option<SubprogramName>)
    ensures
        match n {
            Some(x) => spec_own_name(d@) == Some(x@),
            None => spec_own_name(d@) is None,
        },
{
    match &d.name {
        Some(Ok(s)) => Some(SubprogramName::Named(s.clone())),
        Some(Err(e)) => Some(SubprogramName::Unreadable(e.clone())),
        None => None,
    }
}

/// The position of the first of `dies` at offset `rel` into their unit.
fn find_die(dies: &Vec<DieFacts>, rel: u64) -> (k: Option<usize>)
    ensures
        match k {
            Some(i) => i < dies@.len() && first_die(dies_view(dies@), rel as int) == Some(dies@[i as int]@),
            None => first_die(dies_view(dies@), rel as int) is None,
        },
{
    let ghost dv = dies_view(dies@);
    let mut i: usize = 0;
    while i < dies.len()
        invariant
            i <= dies@.len(),
            dv == dies_view(dies@),
            first_die(dv.take(i as int), rel as int) is None,
        decreases dies@.len() - i,
    {
        proof {
            assert(dv.take(i + 1).drop_last() == dv.take(i as int));
            assert(dv.take(i + 1).last() == dies@[i as int]@);
        }
        if dies[i].offset == rel {
            proof {
                lemma_first_die_prefix(dv, rel as int, i as int + 1);
            }
            return Some(i);
        }
        i = i + 1;
    }
    proof {
        assert(dv.take(dies@.len() as int) == dv);
    }
    None
}

/// Once a prefix has a DIE at the offset, the whole sequence's first one is it.
proof fn lemma_first_die_prefix(dies: Seq<DieView>, offset: int, k: int)
    requires
        0 <= k <= dies.len(),
        first_die(dies.take(k), offset) is Some,
    ensures
        first_die(dies, offset) == first_die(dies.take(k), offset),
    decreases dies.len() - k,
{
    if k < dies.len() {
        assert(dies.take(k + 1).drop_last() == dies.take(k));
        lemma_first_die_prefix(dies, offset, k + 1);
    } else {
        assert(dies.take(k) == dies);
    }
}

proof fn lemma_named_prefix(units: Seq<UnitDumpView>, offset: int, k: int)
    requires
        0 <= k <= units.len(),
        named_in_units(units.take(k), offset) is Some,
    ensures
        named_in_units(units, offset) == named_in_units(units.take(k), offset),
    decreases units.len() - k,
{
    if k < units.len() {
        assert(units.take(k + 1).drop_last() == units.take(k));
        lemma_named_prefix(units, offset, k + 1);
    } else {
        assert(units.take(k) == units);
    }
}

/// The name at section offset `offset` in the first unit that holds a named DIE
/// there.
fn find_named(units: &Vec<UnitDump>, offset: u64) -> (n: Option<SubprogramName>)
    ensures
        match n {
            Some(x) => named_in_units(dumps_view(units@), offset as int) == Some(x@),
            None => named_in_units(dumps_view(units@), offset as int) is None,
        },
{
    let ghost uv = dumps_view(units@);
    let mut i: usize = 0;
    while i < units.len()
        invariant
            i <= units@.len(),
            uv == dumps_view(units@),
            named_in_units(uv.take(i as int), offset as int) is None,
        decreases units@.len() - i,
    {
        proof {
            assert(uv.take(i + 1).drop_last() == uv.take(i as int));
            assert(uv.take(i + 1).last() == units@[i as int]@);
        }
        let unit = &units[i];
        let rel = match unit.offset {
            Some(start) => if start <= offset && unit.header_size <= offset - start && offset - start < unit.length {
                Some(offset - start)
            } else {
                None
            },
            None => None,
        };
        if let Some(rel) = rel {
            match find_die(&unit.dies, rel) {
                Some(k) => {
                    match own_name(&unit.dies[k]) {
                        Some(name) => {
                            proof {
                                lemma_named_prefix(uv, offset as int, i as int + 1);
                            }
                            return Some(name);
                        },
                        None => {},
                    }
                },
                None => {},
            }
        }
        i = i + 1;
    }
    proof {
        assert(uv.take(units@.len() as int) == uv);
    }
    None
}

/// Resolve the effective name of DIE `d` of unit `u`, following its
/// `DW_AT_abstract_origin` or `DW_AT_specification` to the DIE that carries the
/// name, in the same unit or, for a section offset, in any unit of the module.
pub fn resolve_name(units: &Vec<UnitDump>, u: usize, d: usize) -> (n: SubprogramName)
    requires
        u < units@.len(),
        d < units@[u as int].dies@.len(),
    ensures
        n@ == spec_resolve_name(dumps_view(units@), u as int, units@[u as int].dies@[d as int]@),
{
    let ghost uv = dumps_view(units@);
    proof {
        assert(uv[u as int] == units@[u as int]@);
        assert(uv[u as int].dies == dies_view(units@[u as int].dies@));
    }
    let die = &units[u].dies[d];
    match own_name(die) {
        Some(n) => return n,
        None => {},
    }
    let origin = if die.abstract_origin.is_some() { die.abstract_origin } else { die.specification };
    let found = match origin {
        Some(DieRef::UnitOffset(o)) => {
            let unit = &units[u];
            match find_die(&unit.dies, o) {
                Some(k) => own_name(&unit.dies[k]),
                None => None,
            }
        },
        Some(DieRef::SectionOffset(o)) => find_named(units, o),
        _ => None,
    };
    match found {
        Some(n) => n,
        None => SubprogramName::Unnamed,
    }
}

fn file_entry(f: &Option<RawFileEntry>) -> (e: Option<FileEntryFacts>)
    ensures
        opt_file_entry_view(e) == spec_file_entry(match *f {
            Some(x) => Some(x@),
            None => None,
        }),
{
    match f {
        None => None,
        Some(f) => match &f.name {
            Err(_) => None,
            Ok(n) => {
                let directory = if f.directory_index != 0 {
                    match &f.directory {
                        Some(Err(_)) => return None,
                        Some(Ok(dir)) => Some(dir.clone()),
                        None => None,
                    }
                } else {
                    None
                };
                Some(FileEntryFacts { directory, name: n.clone(), md5: f.md5 })
            },
        },
    }
}

fn copy_ranges(r: &Vec<(u64, u64)>) -> (c: Vec<(u64, u64)>)
    ensures
        c@ == r@,
{
    let mut c: Vec<(u64, u64)> = Vec::new();
    let mut i: usize = 0;
    while i < r.len()
        invariant
            i <= r@.len(),
            c@ == r@.take(i as int),
        decreases r@.len() - i,
    {
        c.push(r[i]);
        proof {
            assert(r@.take(i + 1) == r@.take(i as int).push(r@[i as int]));
        }
        i = i + 1;
    }
    proof {
        assert(r@.take(r@.len() as int) == r@);
    }
    c
}

fn file_known(files: &Vec<(u64, Option<FileEntryFacts>)>, index: u64) -> (known: bool)
    ensures
        known == has_file_index(files_view(files@), index),
{
    let ghost fv = files_view(files@);
    let mut i: usize = 0;
    while i < files.len()
        invariant
            i <= files@.len(),
            fv == files_view(files@),
            forall|j: int| 0 <= j < i ==> (#[trigger] fv[j]).0 != index,
        decreases files@.len() - i,
    {
        proof {
            assert(fv[i as int].0 == files@[i as int].0);
        }
        if files[i].0 == index {
            proof {
                assert(fv[i as int].0 == index);
            }
            return true;
        }
        i = i + 1;
    }
    false
}

/// Gather unit `u` as the symbol assembly needs it: its line rows (a row without
/// a line at line 0), each file index its rows name with the entry of the first
/// row that names it, and its subprogram DIEs with their effective names.
pub fn unit_facts(units: &Vec<UnitDump>, u: usize) -> (f: UnitFacts)
    requires
        u < units@.len(),
    ensures
        f@ == spec_unit_facts(dumps_view(units@), u as int),
{
    let ghost uv = dumps_view(units@);
    proof {
        assert(uv[u as int] == units@[u as int]@);
    }
    let unit = &units[u];
    let raw = match &unit.line_program {
        None => {
            let f = UnitFacts { has_line_program: false, rows: Ok(Vec::new()), files: Vec::new(), subprograms: Vec::new(), walk_error: None };
            proof {
                assert(f@.files == Seq::<(u64, Option<FileEntryView>)>::empty());
                assert(f@.subprograms == Seq::<SubprogramView>::empty());
            }
            return f;
        },
        Some(Err(e)) => {
            let f = UnitFacts { has_line_program: true, rows: Err(e.clone()), files: Vec::new(), subprograms: Vec::new(), walk_error: None };
            proof {
                assert(f@.files == Seq::<(u64, Option<FileEntryView>)>::empty());
                assert(f@.subprograms == Seq::<SubprogramView>::empty());
            }
            return f;
        },
        Some(Ok(rows)) => rows,
    };
    let ghost rv = rows_view(raw@);
    proof {
        assert(uv[u as int].line_program == Some(Ok::<Seq<RawRowView>, Seq<char>>(rv)));
    }
    let mut rows: Vec<LineRow> = Vec::new();
    let mut files: Vec<(u64, Option<FileEntryFacts>)> = Vec::new();
    let mut i: usize = 0;
    while i < raw.len()
        invariant
            i <= raw@.len(),
            rv == rows_view(raw@),
            rows@ == spec_line_rows(rv.take(i as int)),
            files_view(files@) == spec_row_files(rv.take(i as int)),
        decreases raw@.len() - i,
    {
        proof {
            assert(rv.take(i + 1).drop_last() == rv.take(i as int));
            assert(rv.take(i + 1).last() == raw@[i as int]@);
            assert(rv[i as int] == raw@[i as int]@);
        }
        let r = &raw[i];
        let line: u32 = match r.line {
            Some(l) => l as u32,
            None => 0,
        };
        rows.push((r.address, r.file_index, line, r.end_sequence));
        proof {
            assert(spec_line_rows(rv.take(i + 1)) == spec_line_rows(rv.take(i as int)).push(spec_line_row(rv[i as int])));
        }
        if !file_known(&files, r.file_index) {
            let entry = file_entry(&r.file);
            let ghost before = files@;
            files.push((r.file_index, entry));
            proof {
                assert(files_view(files@) == files_view(before).push((r.file_index, opt_file_entry_view(entry))));
            }
        }
        i = i + 1;
    }
    proof {
        assert(rv.take(raw@.len() as int) == rv);
    }
    let ghost dv = uv[u as int].dies;
    let mut subprograms: Vec<SubprogramFacts> = Vec::new();
    let mut k: usize = 0;
    while k < unit.dies.len()
        invariant
            k <= unit.dies@.len(),
            u < units@.len(),
            unit == &units@[u as int],
            uv == dumps_view(units@),
            uv[u as int] == units@[u as int]@,
            subprograms_view(subprograms@) == subprograms_upto(uv, u as int, k as int),
        decreases unit.dies@.len() - k,
    {
        let die = &unit.dies[k];
        proof {
            assert(uv[u as int].dies[k as int] == die@);
        }
        if die.tag == DW_TAG_SUBPROGRAM {
            let ranges = match &die.ranges {
                Ok(r) => Ok(copy_ranges(r)),
                Err(e) => Err(e.clone()),
            };
            let name = resolve_name(units, u, k);
            let sub = SubprogramFacts { ranges, name };
            let ghost before = subprograms@;
            subprograms.push(sub);
            proof {
                assert(subprograms_view(subprograms@) == subprograms_view(before).push(subprogram_view(sub)));
            }
        }
        k = k + 1;
    }
    let walk_error = match &unit.walk_error {
        Some(e) => Some(e.clone()),
        None => None,
    };
    UnitFacts { has_line_program: true, rows: Ok(rows), files, subprograms, walk_error }
}

/// Assemble a module's DWARF, read as `units`, into symbols with link-time
/// addresses: each unit gathered by [`unit_facts`], then [`module_symbols`].
pub fn dwarf_symbols(base: u64, full_name: &String, units: &Vec<UnitDump>, source_cache: &SourceCache) -> (r: Result<Vec<SymbolInfo>, DwarfError>)
    ensures
        match r {
            Ok(syms) => spec_dwarf_symbols(base, full_name@, source_cache@, dumps_view(units@)) == Ok::<Seq<SymbolView>, DwarfErrorView>(symbols_view(syms@)),
            Err(e) => spec_dwarf_symbols(base, full_name@, source_cache@, dumps_view(units@)) == Err::<Seq<SymbolView>, DwarfErrorView>(e@),
        },
{
    let ghost all = spec_all_unit_facts(dumps_view(units@));
    let mut facts: Vec<UnitFacts> = Vec::new();
    let mut u: usize = 0;
    while u < units.len()
        invariant
            u <= units@.len(),
            all == spec_all_unit_facts(dumps_view(units@)),
            units_view(facts@) == all.take(u as int),
        decreases units@.len() - u,
    {
        let f = unit_facts(units, u);
        let ghost before = facts@;
        facts.push(f);
        proof {
            assert(units_view(facts@) == units_view(before).push(f@));
            assert(all.take(u + 1) == all.take(u as int).push(all[u as int]));
        }
        u = u + 1;
    }
    proof {
        assert(all.take(units@.len() as int) == all);
    }
    module_symbols(base, full_name, &facts, source_cache)
}

/// A symbol placed at runtime base `base`, nothing else changed.
pub open spec fn at_base(s: SymbolView, base: u64) -> SymbolView {
    (s.0, base, s.2, s.3, s.4, s.5)
}

/// The symbols of `r` placed at runtime base `base`, nothing else changed.
pub open spec fn rebased(r: Result<Seq<SymbolView>, DwarfErrorView>, base: u64) -> Result<Seq<SymbolView>, DwarfErrorView> {
    match r {
        Ok(v) => Ok(Seq::new(v.len(), |i: int| at_base(v[i], base))),
        Err(e) => Err(e),
    }
}

proof fn lemma_subprogram_symbols_rebase(b1: u64, b2: u64, module: Seq<char>, subs: Seq<SubprogramView>, rows: Seq<LineRow>, files: Seq<(u64, Option<Seq<char>>)>)
    ensures
        spec_subprogram_symbols(b2, module, subs, rows, files) == rebased(spec_subprogram_symbols(b1, module, subs, rows, files), b2),
    decreases subs.len(),
{
    if subs.len() > 0 {
        lemma_subprogram_symbols_rebase(b1, b2, module, subs.drop_last(), rows, files);
        let one1 = spec_subprogram_symbol(b1, module, subs.last(), rows, files);
        let one2 = spec_subprogram_symbol(b2, module, subs.last(), rows, files);
        assert(one1 is Err ==> one2 == one1);
        assert(one1 == Ok::<Option<SymbolView>, DwarfErrorView>(None) ==> one2 == one1);
        if let Ok(Some(s)) = one1 {
            assert(one2 == Ok::<Option<SymbolView>, DwarfErrorView>(Some(at_base(s, b2))));
        }
        if let Ok(w) = spec_subprogram_symbols(b1, module, subs.drop_last(), rows, files) {
            let w2 = Seq::new(w.len(), |i: int| at_base(w[i], b2));
            if let Ok(Some(s)) = one1 {
                let v = w.push(s);
                assert(w2.push(at_base(s, b2)) =~= Seq::new(v.len(), |i: int| at_base(v[i], b2)));
            }
        }
    } else {
        assert(Seq::new(0, |i: int| at_base(Seq::<SymbolView>::empty()[i], b2)) =~= Seq::<SymbolView>::empty());
    }
}

/// A module's symbols do not depend on where it is loaded: read at another base,
/// the same symbols (in the same order, with the same link-time addresses,
/// sizes, names and lines) come out with only their base changed, and the same
/// error comes out when assembling fails. Their runtime ranges, `base + rva`,
/// therefore all shift by the difference of the bases.
pub proof fn lemma_symbols_move_with_base(b1: u64, b2: u64, module: Seq<char>, cache: SourceCacheView, units: Seq<UnitDumpView>)
    ensures
        spec_dwarf_symbols(b2, module, cache, units) == rebased(spec_dwarf_symbols(b1, module, cache, units), b2),
{
    lemma_module_symbols_rebase(b1, b2, module, cache, spec_all_unit_facts(units));
}

proof fn lemma_unit_symbols_rebase(b1: u64, b2: u64, module: Seq<char>, cache: SourceCacheView, unit: UnitFactsView)
    ensures
        spec_unit_symbols(b2, module, cache, unit) == rebased(spec_unit_symbols(b1, module, cache, unit), b2),
{
    if let Ok(rows) = unit.rows {
        lemma_subprogram_symbols_rebase(b1, b2, module, unit.subprograms, sort_by_address(rows), resolved_files(cache, unit.files));
    }
    if !unit.has_line_program {
        assert(Seq::new(0, |i: int| at_base(Seq::<SymbolView>::empty()[i], b2)) =~= Seq::<SymbolView>::empty());
    }
}

proof fn lemma_module_symbols_rebase(b1: u64, b2: u64, module: Seq<char>, cache: SourceCacheView, units: Seq<UnitFactsView>)
    ensures
        spec_module_symbols(b2, module, cache, units) == rebased(spec_module_symbols(b1, module, cache, units), b2),
    decreases units.len(),
{
    if units.len() > 0 {
        lemma_module_symbols_rebase(b1, b2, module, cache, units.drop_last());
        let unit = units.last();
        lemma_unit_symbols_rebase(b1, b2, module, cache, unit);
        if let Ok(w) = spec_module_symbols(b1, module, cache, units.drop_last()) {
            if let Ok(u) = spec_unit_symbols(b1, module, cache, unit) {
                let v = w + u;
                assert(Seq::new(w.len(), |i: int| at_base(w[i], b2)) + Seq::new(u.len(), |i: int| at_base(u[i], b2))
                    =~= Seq::new(v.len(), |i: int| at_base(v[i], b2)));
            }
        }
    } else {
        assert(Seq::new(0, |i: int| at_base(Seq::<SymbolView>::empty()[i], b2)) =~= Seq::<SymbolView>::empty());
    }
}

/// Why a module's intervals could not be built.
#[derive(Debug, PartialEq, Eq)]
pub enum ModuleIntervalsError {
    /// Assembling the DWARF into symbols failed.
    Dwarf(DwarfError),
    /// The runtime extent `base + rva + size` of a symbol does not fit in a
    /// 64-bit address.
    AddressOverflow,
}

/// The mathematical value of a [`ModuleIntervalsError`].
pub enum ModuleIntervalsErrorView {
    Dwarf(DwarfErrorView),
    AddressOverflow,
}

impl View for ModuleIntervalsError {
    type V = ModuleIntervalsErrorView;

    open spec fn view(&self) -> ModuleIntervalsErrorView {
        match self {
            ModuleIntervalsError::Dwarf(e) => ModuleIntervalsErrorView::Dwarf(e@),
            ModuleIntervalsError::AddressOverflow => ModuleIntervalsErrorView::AddressOverflow,
        }
    }
}

/// `(start, end, symbol)`: a symbol keyed by its runtime range `[start, end)`.
pub type IntervalView = (u64, u64, SymbolView);

pub open spec fn intervals_view(iv: Seq<(u64, u64, SymbolInfo)>) -> Seq<IntervalView> {
    iv.map_values(|x: (u64, u64, SymbolInfo)| (x.0, x.1, symbol_view(x.2)))
}

/// Every symbol keyed by `[base + rva, base + rva + size)`, or nothing when some
/// such extent does not fit in a 64-bit address.
pub open spec fn spec_intervals_of(base: u64, v: Seq<SymbolView>) -> Option<Seq<IntervalView>> {
    if forall|i: int| 0 <= i < v.len() ==> base + (#[trigger] v[i]).0 + v[i].2 <= u64::MAX {
        Some(Seq::new(v.len(), |i: int| ((base + v[i].0) as u64, (base + v[i].0 + v[i].2) as u64, v[i])))
    } else {
        None
    }
}

/// The intervals of a module read as `units` and loaded at `base`.
pub open spec fn spec_module_intervals(base: u64, module: Seq<char>, cache: SourceCacheView, units: Seq<UnitDumpView>) -> Result<Seq<IntervalView>, ModuleIntervalsErrorView> {
    match spec_dwarf_symbols(base, module, cache, units) {
        Err(e) => Err(ModuleIntervalsErrorView::Dwarf(e)),
        Ok(v) => match spec_intervals_of(base, v) {
            Some(iv) => Ok(iv),
            None => Err(ModuleIntervalsErrorView::AddressOverflow),
        },
    }
}

/// Resolve every subprogram of a module, read as `units` and loaded at `base`,
/// into a symbol keyed by its runtime address range `[base + rva, base + rva +
/// size)`.
pub fn module_intervals(base: u64, full_name: &String, units: &Vec<UnitDump>, source_cache: &SourceCache) -> (r: Result<Vec<(u64, u64, SymbolInfo)>, ModuleIntervalsError>)
    ensures
        match r {
            Ok(iv) => spec_module_intervals(base, full_name@, source_cache@, dumps_view(units@)) == Ok::<Seq<IntervalView>, ModuleIntervalsErrorView>(intervals_view(iv@)),
            Err(e) => spec_module_intervals(base, full_name@, source_cache@, dumps_view(units@)) == Err::<Seq<IntervalView>, ModuleIntervalsErrorView>(e@),
        },
{
    let symbols = match dwarf_symbols(base, full_name, units, source_cache) {
        Ok(s) => s,
        Err(e) => return Err(ModuleIntervalsError::Dwarf(e)),
    };
    let ghost sv = symbols_view(symbols@);
    proof {
        assert forall|i: int| 0 <= i < sv.len() implies (#[trigger] sv[i]).0 == symbols@[i].rva && sv[i].2 == symbols@[i].size by {}
    }
    if !symbol_extents_fit(base, &symbols) {
        proof {
            let i = choose|i: int| 0 <= i < symbols@.len() && !(base + #[trigger] symbols@[i].rva + symbols@[i].size <= u64::MAX);
            assert(sv[i].0 == symbols@[i].rva && sv[i].2 == symbols@[i].size);
        }
        return Err(ModuleIntervalsError::AddressOverflow);
    }
    let ghost given = symbols@;
    let iv = symbol_intervals(base, symbols);
    proof {
        assert(spec_intervals_of(base, sv) is Some);
        assert(intervals_view(iv@) =~= spec_intervals_of(base, sv)->Some_0) by {
            assert forall|i: int| 0 <= i < iv@.len() implies #[trigger] intervals_view(iv@)[i] == spec_intervals_of(base, sv)->Some_0[i] by {
                assert(iv@[i].2 == given[i]);
                assert(sv[i] == symbol_view(given[i]));
            }
        }
    }
    Ok(iv)
}

/// A module's intervals move with its base: at another base, assembling fails
/// with the same error, and when both bases give intervals, they are the same
/// symbols in the same order, each range shifted by the difference of the bases
/// and each symbol changed only in its base.
pub proof fn lemma_intervals_move_with_base(b1: u64, b2: u64, module: Seq<char>, cache: SourceCacheView, units: Seq<UnitDumpView>)
    ensures
        spec_module_intervals(b1, module, cache, units) matches Err(ModuleIntervalsErrorView::Dwarf(e))
            ==> spec_module_intervals(b2, module, cache, units) == Err::<Seq<IntervalView>, ModuleIntervalsErrorView>(ModuleIntervalsErrorView::Dwarf(e)),
        spec_module_intervals(b1, module, cache, units) matches Ok(v1) ==> spec_module_intervals(b2, module, cache, units) matches Ok(v2) ==> {
            &&& v1.len() == v2.len()
            &&& forall|i: int| 0 <= i < v1.len() ==> {
                &&& (#[trigger] v2[i]).0 - b2 == v1[i].0 - b1
                &&& v2[i].1 - b2 == v1[i].1 - b1
                &&& v2[i].2 == at_base(v1[i].2, b2)
            }
        },
{
    lemma_symbols_move_with_base(b1, b2, module, cache, units);
    if let Ok(v1) = spec_module_intervals(b1, module, cache, units) {
        if let Ok(v2) = spec_module_intervals(b2, module, cache, units) {
            let s1 = spec_dwarf_symbols(b1, module, cache, units)->Ok_0;
            let s2 = spec_dwarf_symbols(b2, module, cache, units)->Ok_0;
            assert(s2 == Seq::new(s1.len(), |i: int| at_base(s1[i], b2)));
            assert forall|i: int| 0 <= i < v1.len() implies {
                &&& (#[trigger] v2[i]).0 - b2 == v1[i].0 - b1
                &&& v2[i].1 - b2 == v1[i].1 - b1
                &&& v2[i].2 == at_base(v1[i].2, b2)
            } by {
                assert(s2[i] == at_base(s1[i], b2));
                assert(base_fits(b1, s1, i));
                assert(base_fits(b2, s2, i));
            }
        }
    }
}

spec fn base_fits(base: u64, v: Seq<SymbolView>, i: int) -> bool {
    base + v[i].0 + v[i].2 <= u64::MAX
}

} // verus!
