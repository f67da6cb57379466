//! Decomposition of path strings into their components.
//!
//! Local paths (as produced by walking a local directory) are decomposed with
//! `std::path`; paths embedded in debug info or reported by a target, which may
//! have been recorded on another OS, are decomposed with `typed_path`, which
//! decides between Unix and Windows conventions from the text itself.
use vstd::prelude::*;
use vstd::utf8::{decode_utf8, encode_utf8, valid_utf8};
use typed_path::{TypedComponent, TypedPath, UnixComponent, WindowsComponent};

verus! {

/// One component of a local path, as `std::path::Component` reports it.
#[derive(Debug)]
pub enum PathPart {
    Prefix(String),
    RootDir,
    CurDir,
    ParentDir,
    Normal(String),
}

/// The mathematical value of a [`PathPart`].
pub enum PathPartView {
    Prefix(Seq<char>),
    RootDir,
    CurDir,
    ParentDir,
    Normal(Seq<char>),
}

impl View for PathPart {
    type V = PathPartView;

    open spec fn view(&self) -> PathPartView {
        match self {
            PathPart::Prefix(s) => PathPartView::Prefix(s@),
            PathPart::RootDir => PathPartView::RootDir,
            PathPart::CurDir => PathPartView::CurDir,
            PathPart::ParentDir => PathPartView::ParentDir,
            PathPart::Normal(s) => PathPartView::Normal(s@),
        }
    }
}

pub open spec fn parts_view(parts: Seq<PathPart>) -> Seq<PathPartView> {
    parts.map_values(|p: PathPart| p@)
}

/// What `std::path::Path::components` yields for the given path text, each
/// component's text decoded with `to_string_lossy`.
pub uninterp spec fn std_path_parts(path: Seq<char>) -> Seq<PathPartView>;

/// What `typed_path::TypedPath::derive(..).components()` yields for the given path
/// text: the bytes of each `Normal` component, and `None` for every other kind of
/// component (root, prefix, `.`, `..`).
pub uninterp spec fn typed_path_parts(path: Seq<char>) -> Seq<Option<Seq<u8>>>;

/// The position of the last `.` in `name`, if there is one.
pub open spec fn last_dot(name: Seq<char>) -> Option<int>
    decreases name.len(),
{
    if name.len() == 0 {
        None
    } else if name.last() == '.' {
        Some(name.len() - 1)
    } else {
        last_dot(name.drop_last())
    }
}

/// The stem of a file name: the part before its last `.`, or the whole name when
/// it has no `.` or its only `.` leads it.
pub open spec fn stem_of(name: Seq<char>) -> Seq<char> {
    match last_dot(name) {
        Some(k) => if k > 0 {
            name.take(k)
        } else {
            name
        },
        None => name,
    }
}

/// What `std::path::Path::file_stem` yields for the given path text: the stem
/// of the file name, which is the last component when it is a normal one, and
/// nothing otherwise (no components, or a last component such as `..` or a root).
pub open spec fn std_file_stem(path: Seq<char>) -> Option<Seq<char>> {
    let parts = std_path_parts(path);
    if parts.len() == 0 {
        None
    } else {
        match parts.last() {
            PathPartView::Normal(name) => Some(stem_of(name)),
            _ => None,
        }
    }
}

/// The texts of the `Normal` components among `parts`, in order.
pub open spec fn normal_texts(parts: Seq<PathPartView>) -> Seq<Seq<char>>
    decreases parts.len(),
{
    if parts.len() == 0 {
        seq![]
    } else {
        let rest = normal_texts(parts.drop_last());
        match parts.last() {
            PathPartView::Normal(t) => rest.push(t),
            _ => rest,
        }
    }
}

/// The UTF-8 decodings of the `Some` entries among `parts` that are valid UTF-8,
/// in order.
pub open spec fn decoded_normals(parts: Seq<Option<Seq<u8>>>) -> Seq<Seq<char>>
    decreases parts.len(),
{
    if parts.len() == 0 {
        seq![]
    } else {
        let rest = decoded_normals(parts.drop_last());
        match parts.last() {
            Some(b) => if valid_utf8(b) {
                rest.push(decode_utf8(b))
            } else {
                rest
            },
            None => rest,
        }
    }
}

/// The normal ("real name") components of a local path: roots, prefixes, `.`
/// and `..` dropped.
pub open spec fn local_components(path: Seq<char>) -> Seq<Seq<char>> {
    normal_texts(std_path_parts(path))
}

/// The normal components of a path string that may use either Unix or Windows
/// conventions.
pub open spec fn embedded_components(path: Seq<char>) -> Seq<Seq<char>> {
    decoded_normals(typed_path_parts(path))
}

pub open spec fn strings_view(v: Seq<String>) -> Seq<Seq<char>> {
    v.map_values(|s: String| s@)
}

/// Calls `std::path::Path::components` on `path`; each component is handed back
/// as a [`PathPart`] of the same kind, its text decoded with `to_string_lossy`.
/// The contract only names the result (`std_path_parts`).
#[verifier::external_body]
pub(crate) fn std_components(path: &str) -> (parts: Vec<PathPart>)
    ensures
        parts_view(parts@) == std_path_parts(path@),
{
    std::path::Path::new(path).components().map(|c| match c {
        std::path::Component::Prefix(p) => PathPart::Prefix(p.as_os_str().to_string_lossy().into_owned()),
        std::path::Component::RootDir => PathPart::RootDir,
        std::path::Component::CurDir => PathPart::CurDir,
        std::path::Component::ParentDir => PathPart::ParentDir,
        std::path::Component::Normal(s) => PathPart::Normal(s.to_string_lossy().into_owned()),
    }).collect()
}

/// Calls `typed_path::TypedPath::derive(..).components()` on `path`; a `Normal`
/// component (Unix or Windows) is handed back as its bytes, every other component
/// as `None`. The contract only names the result (`typed_path_parts`).
#[verifier::external_body]
pub(crate) fn typed_components(path: &str) -> (parts: Vec<Option<Vec<u8>>>)
    ensures
        parts.deep_view() == typed_path_parts(path@),
{
    let owned = path.to_string();
    TypedPath::derive(&owned).components().map(|c| match c {
        TypedComponent::Unix(UnixComponent::Normal(b)) => Some(b.to_vec()),
        TypedComponent::Unix(_) => None,
        TypedComponent::Windows(WindowsComponent::Normal(b)) => Some(b.to_vec()),
        TypedComponent::Windows(_) => None,
    }).collect()
}

/// Calls `std::path::Path::file_stem` on `path` and converts the stem with
/// `OsStr::to_str`, which always succeeds on a stem of a `str`. The contract is
/// the documented behaviour of `file_name` and `file_stem`, over the components
/// `std::path::Path::components` yields (`std_path_parts`).
#[verifier::external_body]
pub(crate) fn file_stem(path: &str) -> (stem: Option<String>)
    ensures
        stem.deep_view() == std_file_stem(path@),
{
    std::path::Path::new(path).file_stem().and_then(|s| s.to_str()).map(|s| s.to_string())
}

/// Calls `String::from_utf8`: it succeeds exactly on valid UTF-8, and the string
/// then holds the decoded characters.
#[verifier::external_body]
pub(crate) fn string_from_utf8(bytes: &[u8]) -> (s: Option<String>)
    ensures
        s is Some <==> valid_utf8(bytes@),
        s matches Some(t) ==> t@ == decode_utf8(bytes@),
{
    String::from_utf8(bytes.to_vec()).ok()
}

/// Lexicographic comparison of byte strings: negative, zero or positive as `a`
/// sorts before, equal to or after `b`.
pub open spec fn bytes_order(a: Seq<u8>, b: Seq<u8>) -> int
    decreases a.len(),
{
    if a.len() == 0 && b.len() == 0 {
        0
    } else if a.len() == 0 {
        -1
    } else if b.len() == 0 {
        1
    } else if a[0] < b[0] {
        -1
    } else if a[0] > b[0] {
        1
    } else {
        bytes_order(a.drop_first(), b.drop_first())
    }
}

/// The rank of a component kind in `std::path::Component`'s order.
pub open spec fn part_rank(p: PathPartView) -> int {
    match p {
        PathPartView::Prefix(_) => 0,
        PathPartView::RootDir => 1,
        PathPartView::CurDir => 2,
        PathPartView::ParentDir => 3,
        PathPartView::Normal(_) => 4,
    }
}

pub open spec fn part_text(p: PathPartView) -> Seq<char> {
    match p {
        PathPartView::Prefix(t) => t,
        PathPartView::Normal(t) => t,
        _ => seq![],
    }
}

/// The order of two components: by kind, then by the bytes of their text.
pub open spec fn part_order(a: PathPartView, b: PathPartView) -> int {
    if part_rank(a) < part_rank(b) {
        -1
    } else if part_rank(a) > part_rank(b) {
        1
    } else {
        bytes_order(encode_utf8(part_text(a)), encode_utf8(part_text(b)))
    }
}

/// Lexicographic order of component sequences.
pub open spec fn parts_order(a: Seq<PathPartView>, b: Seq<PathPartView>) -> int
    decreases a.len(),
{
    if a.len() == 0 && b.len() == 0 {
        0
    } else if a.len() == 0 {
        -1
    } else if b.len() == 0 {
        1
    } else if part_order(a[0], b[0]) != 0 {
        part_order(a[0], b[0])
    } else {
        parts_order(a.drop_first(), b.drop_first())
    }
}

/// `a` sorts strictly before `b` in the order of `std::path::Path`, which compares
/// paths component by component. This is std's order wherever no path has a
/// prefix component (every Unix path); Windows prefixes (drives, UNC shares) are
/// ordered here by their text, while std orders them by the kind of prefix first.
pub open spec fn path_less(a: Seq<char>, b: Seq<char>) -> bool {
    parts_order(std_path_parts(a), std_path_parts(b)) < 0
}

fn bytes_compare(a: &[u8], b: &[u8]) -> (c: i8)
    ensures
        c as int == bytes_order(a@, b@),
{
    let mut i: usize = 0;
    proof {
        assert(a@.skip(0) == a@);
        assert(b@.skip(0) == b@);
    }
    while i < a.len() && i < b.len()
        invariant
            i <= a@.len(),
            i <= b@.len(),
            bytes_order(a@, b@) == bytes_order(a@.skip(i as int), b@.skip(i as int)),
        decreases a@.len() - i,
    {
        proof {
            assert(a@.skip(i as int)[0] == a@[i as int]);
            assert(b@.skip(i as int)[0] == b@[i as int]);
            assert(a@.skip(i as int).drop_first() == a@.skip(i + 1));
            assert(b@.skip(i as int).drop_first() == b@.skip(i + 1));
        }
        if a[i] < b[i] {
            return -1;
        }
        if a[i] > b[i] {
            return 1;
        }
        i = i + 1;
    }
    if i == a.len() && i == b.len() {
        0
    } else if i == a.len() {
        -1
    } else {
        1
    }
}

fn part_rank_of(p: &PathPart) -> (r: u8)
    ensures
        r as int == part_rank(p@),
{
    match p {
        PathPart::Prefix(_) => 0,
        PathPart::RootDir => 1,
        PathPart::CurDir => 2,
        PathPart::ParentDir => 3,
        PathPart::Normal(_) => 4,
    }
}

fn part_compare(a: &PathPart, b: &PathPart) -> (c: i8)
    ensures
        c as int == part_order(a@, b@),
{
    let ra = part_rank_of(a);
    let rb = part_rank_of(b);
    if ra < rb {
        return -1;
    }
    if ra > rb {
        return 1;
    }
    match (a, b) {
        (PathPart::Prefix(x), PathPart::Prefix(y)) => bytes_compare(x.as_str().as_bytes(), y.as_str().as_bytes()),
        (PathPart::Normal(x), PathPart::Normal(y)) => bytes_compare(x.as_str().as_bytes(), y.as_str().as_bytes()),
        _ => {
            proof {
                assert(part_text(a@) == Seq::<char>::empty());
                assert(part_text(b@) == Seq::<char>::empty());
                assert(encode_utf8(Seq::<char>::empty()) == Seq::<u8>::empty());
            }
            0
        },
    }
}

/// Whether `a` sorts strictly before `b` in the order of `std::path::Path` (see
/// [`path_less`] for prefixes).
pub(crate) fn path_is_less(a: &str, b: &str) -> (less: bool)
    ensures
        less == path_less(a@, b@),
{
    let pa = std_components(a);
    let pb = std_components(b);
    let ghost va = parts_view(pa@);
    let ghost vb = parts_view(pb@);
    let mut i: usize = 0;
    proof {
        assert(va.skip(0) == va);
        assert(vb.skip(0) == vb);
    }
    while i < pa.len() && i < pb.len()
        invariant
            i <= pa@.len(),
            i <= pb@.len(),
            va == parts_view(pa@),
            vb == parts_view(pb@),
            va == std_path_parts(a@),
            vb == std_path_parts(b@),
            parts_order(va, vb) == parts_order(va.skip(i as int), vb.skip(i as int)),
        decreases pa@.len() - i,
    {
        proof {
            assert(va.skip(i as int)[0] == pa@[i as int]@);
            assert(vb.skip(i as int)[0] == pb@[i as int]@);
            assert(va.skip(i as int).drop_first() == va.skip(i + 1));
            assert(vb.skip(i as int).drop_first() == vb.skip(i + 1));
        }
        let c = part_compare(&pa[i], &pb[i]);
        if c != 0 {
            return c < 0;
        }
        i = i + 1;
    }
    i == pa.len() && i < pb.len()
}

proof fn lemma_bytes_order_facts(a: Seq<u8>, b: Seq<u8>)
    ensures
        bytes_order(a, b) == -bytes_order(b, a),
        -1 <= bytes_order(a, b) <= 1,
        bytes_order(a, b) == 0 ==> a == b,
        bytes_order(a, a) == 0,
    decreases a.len(),
{
    if a.len() > 0 && b.len() > 0 && a[0] == b[0] {
        lemma_bytes_order_facts(a.drop_first(), b.drop_first());
        if bytes_order(a, b) == 0 {
            assert(a =~= seq![a[0]] + a.drop_first());
            assert(b =~= seq![b[0]] + b.drop_first());
        }
    }
    if a.len() > 0 {
        lemma_bytes_order_facts(a.drop_first(), a.drop_first());
    }
}

proof fn lemma_bytes_order_trans(a: Seq<u8>, b: Seq<u8>, c: Seq<u8>)
    requires
        bytes_order(a, b) < 0,
        bytes_order(b, c) < 0,
    ensures
        bytes_order(a, c) < 0,
    decreases a.len(),
{
    if a.len() > 0 && b.len() > 0 && c.len() > 0 && a[0] == b[0] && b[0] == c[0] {
        lemma_bytes_order_trans(a.drop_first(), b.drop_first(), c.drop_first());
    }
}

proof fn lemma_part_order_facts(a: PathPartView, b: PathPartView, c: PathPartView)
    ensures
        part_order(a, b) == -part_order(b, a),
        -1 <= part_order(a, b) <= 1,
        part_order(a, a) == 0,
        part_order(a, b) == 0 ==> part_order(a, c) == part_order(b, c),
        part_order(a, b) < 0 && part_order(b, c) < 0 ==> part_order(a, c) < 0,
{
    let ea = encode_utf8(part_text(a));
    let eb = encode_utf8(part_text(b));
    let ec = encode_utf8(part_text(c));
    lemma_bytes_order_facts(ea, eb);
    lemma_bytes_order_facts(ea, ea);
    if part_order(a, b) < 0 && part_order(b, c) < 0 && part_rank(a) == part_rank(b) && part_rank(b) == part_rank(c) {
        lemma_bytes_order_trans(ea, eb, ec);
    }
}

proof fn lemma_parts_order_facts(a: Seq<PathPartView>, b: Seq<PathPartView>)
    ensures
        parts_order(a, b) == -parts_order(b, a),
        -1 <= parts_order(a, b) <= 1,
        parts_order(a, a) == 0,
    decreases a.len(),
{
    if a.len() > 0 {
        lemma_part_order_facts(a[0], a[0], a[0]);
        lemma_parts_order_facts(a.drop_first(), a.drop_first());
        if b.len() > 0 {
            lemma_part_order_facts(a[0], b[0], a[0]);
            lemma_parts_order_facts(a.drop_first(), b.drop_first());
        }
    }
}

proof fn lemma_parts_order_congruent(a: Seq<PathPartView>, b: Seq<PathPartView>, c: Seq<PathPartView>)
    requires
        parts_order(a, b) == 0,
    ensures
        parts_order(a, c) == parts_order(b, c),
    decreases a.len(),
{
    lemma_parts_order_facts(a, b);
    if a.len() > 0 && b.len() > 0 {
        lemma_part_order_facts(a[0], b[0], a[0]);
        if c.len() > 0 {
            lemma_part_order_facts(a[0], b[0], c[0]);
            if part_order(a[0], c[0]) == 0 {
                lemma_parts_order_congruent(a.drop_first(), b.drop_first(), c.drop_first());
            }
        }
    }
}

proof fn lemma_parts_order_trans(a: Seq<PathPartView>, b: Seq<PathPartView>, c: Seq<PathPartView>)
    requires
        parts_order(a, b) < 0,
        parts_order(b, c) < 0,
    ensures
        parts_order(a, c) < 0,
    decreases a.len(),
{
    lemma_parts_order_facts(b, c);
    if a.len() > 0 && b.len() > 0 && c.len() > 0 {
        lemma_part_order_facts(a[0], b[0], c[0]);
        lemma_part_order_facts(b[0], c[0], a[0]);
        lemma_part_order_facts(c[0], b[0], a[0]);
        lemma_part_order_facts(b[0], a[0], c[0]);
        lemma_part_order_facts(a[0], c[0], b[0]);
        if part_order(a[0], b[0]) == 0 && part_order(b[0], c[0]) == 0 {
            lemma_parts_order_trans(a.drop_first(), b.drop_first(), c.drop_first());
        }
    }
}

/// The path order is a strict weak order: irreflexive and transitive, and two
/// paths that neither sorts before are interchangeable in every comparison.
/// Sorting by it is therefore well defined.
pub proof fn lemma_path_order(a: Seq<char>, b: Seq<char>, c: Seq<char>)
    ensures
        !path_less(a, a),
        path_less(a, b) && path_less(b, c) ==> path_less(a, c),
        path_less(a, b) ==> !path_less(b, a),
        !path_less(a, b) && !path_less(b, a) ==> (path_less(a, c) == path_less(b, c) && path_less(c, a) == path_less(c, b)),
{
    let pa = std_path_parts(a);
    let pb = std_path_parts(b);
    let pc = std_path_parts(c);
    lemma_parts_order_facts(pa, pb);
    lemma_parts_order_facts(pc, pa);
    lemma_parts_order_facts(pc, pb);
    if path_less(a, b) && path_less(b, c) {
        lemma_parts_order_trans(pa, pb, pc);
    }
    if !path_less(a, b) && !path_less(b, a) {
        lemma_parts_order_congruent(pa, pb, pc);
        lemma_parts_order_facts(pa, pc);
        lemma_parts_order_facts(pb, pc);
    }
}

/// `parts` joined with `sep` between consecutive parts.
pub open spec fn joined(parts: Seq<Seq<char>>, sep: char) -> Seq<char>
    decreases parts.len(),
{
    if parts.len() == 0 {
        seq![]
    } else if parts.len() == 1 {
        parts[0]
    } else {
        joined(parts.drop_last(), sep) + seq![sep] + parts.last()
    }
}

/// The parts joined with a slash between consecutive ones.
pub(crate) fn join_with_slash(parts: &[String]) -> (s: String)
    ensures
        s@ == joined(strings_view(parts@), '/'),
{
    let ghost all = strings_view(parts@);
    let mut s = String::new();
    let mut i: usize = 0;
    while i < parts.len()
        invariant
            i <= parts@.len(),
            all == strings_view(parts@),
            s@ == joined(all.take(i as int), '/'),
        decreases parts@.len() - i,
    {
        proof {
            reveal_strlit("/");
            assert(all.take(i + 1).drop_last() == all.take(i as int));
            assert(all.take(i + 1).last() == parts@[i as int]@);
            if i == 0 {
                assert(all.take(1)[0] == parts@[0]@);
            }
        }
        if i > 0 {
            s.append("/");
        }
        s.append(parts[i].as_str());
        i = i + 1;
    }
    proof {
        assert(all.take(parts@.len() as int) == all);
    }
    s
}

} // verus!
