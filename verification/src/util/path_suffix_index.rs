//! A "path-suffix index": local file paths keyed by every suffix of their normal
//! path components, supporting "longest matching suffix" lookups.
//!
//! For a path with components `[a, b, c, d]`, every suffix is a key: `[a, b, c, d]`,
//! `[b, c, d]`, `[c, d]`, `[d]`. Looking up an incoming path tries the same
//! suffixes, longest first, so a fully qualified incoming path sharing a long tail
//! with exactly one local file disambiguates, while a bare file name still matches
//! on its last component alone.
//!
//! The index holds each inserted path once, together with its components, in
//! insertion order; the candidates of a key are the inserted paths whose
//! components end with that key, in insertion order.
use vstd::prelude::*;
use crate::path_text::{
    std_components, typed_components, string_from_utf8, PathPart, parts_view, std_path_parts,
    typed_path_parts, normal_texts, decoded_normals, local_components, embedded_components,
    strings_view,
};

verus! {

/// The mathematical value of an index: each inserted path with its normal
/// components, in insertion order.
pub type IndexModel = Seq<(Seq<Seq<char>>, Seq<char>)>;

/// `key` is a suffix of `comps`.
pub open spec fn is_suffix_of(key: Seq<Seq<char>>, comps: Seq<Seq<char>>) -> bool {
    key.len() <= comps.len() && comps.subrange(comps.len() - key.len(), comps.len() as int) == key
}

/// Every inserted path indexed under `key`, in insertion order: a path is indexed
/// under each nonempty suffix of its components.
pub open spec fn candidates(model: IndexModel, key: Seq<Seq<char>>) -> Seq<Seq<char>>
    decreases model.len(),
{
    if model.len() == 0 {
        seq![]
    } else {
        let rest = candidates(model.drop_last(), key);
        if key.len() > 0 && is_suffix_of(key, model.last().0) {
            rest.push(model.last().1)
        } else {
            rest
        }
    }
}

/// The candidates of the longest suffix of `comps` that drops at least `d` leading
/// components and has any candidate.
pub open spec fn lookup_from(model: IndexModel, comps: Seq<Seq<char>>, d: nat) -> Option<Seq<Seq<char>>>
    decreases comps.len() - d,
{
    if d >= comps.len() {
        None
    } else if candidates(model, comps.skip(d as int)).len() > 0 {
        Some(candidates(model, comps.skip(d as int)))
    } else {
        lookup_from(model, comps, d + 1)
    }
}

/// The candidates of the longest suffix of `comps` that has any.
pub open spec fn spec_lookup_candidates(model: IndexModel, comps: Seq<Seq<char>>) -> Option<Seq<Seq<char>>> {
    lookup_from(model, comps, 0)
}

/// Best-effort lookup: the first candidate of the longest matching suffix.
pub open spec fn spec_lookup(model: IndexModel, comps: Seq<Seq<char>>) -> Option<Seq<char>> {
    match spec_lookup_candidates(model, comps) {
        Some(c) => Some(c[0]),
        None => None,
    }
}

/// The candidates are all one and the same local path (however often it was
/// indexed).
pub open spec fn single_path(c: Seq<Seq<char>>) -> bool {
    forall|i: int| 0 <= i < c.len() ==> #[trigger] c[i] == c[0]
}

/// Strict lookup: the local path of the longest matching suffix if exactly one
/// local path shares that suffix.
pub open spec fn spec_lookup_unambiguous(model: IndexModel, comps: Seq<Seq<char>>) -> Option<Seq<char>> {
    match spec_lookup_candidates(model, comps) {
        Some(c) => if single_path(c) {
            Some(c[0])
        } else {
            None
        },
        None => None,
    }
}

/// One indexed local path.
#[derive(Debug, Clone)]
struct IndexedPath {
    components: Vec<String>,
    path: String,
}

/// An index of local file paths, keyed by every suffix of their path components,
/// supporting "longest matching suffix" lookups.
///
/// Each suffix key maps to *every* local path sharing that suffix (not just the
/// most recently inserted one), so callers can tell a genuinely unique match from
/// an ambiguous one.
#[derive(Debug, Clone)]
pub struct PathSuffixIndex {
    entries: Vec<IndexedPath>,
}

impl View for PathSuffixIndex {
    type V = IndexModel;

    closed spec fn view(&self) -> IndexModel {
        self.entries@.map_values(|e: IndexedPath| (strings_view(e.components@), e.path@))
    }
}

impl Default for PathSuffixIndex {
    fn default() -> (index: Self)
        ensures
            index@ == Seq::<(Seq<Seq<char>>, Seq<char>)>::empty(),
    {
        PathSuffixIndex { entries: Vec::new() }
    }
}

impl PathSuffixIndex {
    /// Construct an empty index.
    pub fn new() -> (index: Self)
        ensures
            index@ == Seq::<(Seq<Seq<char>>, Seq<char>)>::empty(),
    {
        PathSuffixIndex { entries: Vec::new() }
    }

    /// Index a single local file path under every suffix of its normal path
    /// components.
    pub fn insert(&mut self, path: &str)
        ensures
            final(self)@ == old(self)@.push((local_components(path@), path@)),
            forall|key: Seq<Seq<char>>| #[trigger] candidates(final(self)@, key) == if key.len() > 0
                && is_suffix_of(key, local_components(path@)) {
                candidates(old(self)@, key).push(path@)
            } else {
                candidates(old(self)@, key)
            },
    {
        let components = Self::normal_components_of_path(path);
        let entry = IndexedPath { components, path: path.to_string() };
        self.entries.push(entry);
        proof {
            assert(self@ == old(self)@.push((local_components(path@), path@)));
            assert forall|key: Seq<Seq<char>>| #[trigger] candidates(self@, key) == if key.len() > 0
                && is_suffix_of(key, local_components(path@)) {
                candidates(old(self)@, key).push(path@)
            } else {
                candidates(old(self)@, key)
            } by {
                assert(self@.drop_last() == old(self)@);
            }
        }
    }

    /// Whether `components[d..]` is a suffix of `entry`.
    fn suffix_matches(entry: &Vec<String>, components: &[String], d: usize) -> (m: bool)
        requires
            d <= components@.len(),
        ensures
            m == is_suffix_of(strings_view(components@).skip(d as int), strings_view(entry@)),
    {
        let ghost key = strings_view(components@).skip(d as int);
        let ghost comps = strings_view(entry@);
        let klen = components.len() - d;
        if klen > entry.len() {
            return false;
        }
        let start = entry.len() - klen;
        let mut j: usize = 0;
        while j < klen
            invariant
                j <= klen,
                klen == components@.len() - d,
                klen <= entry@.len(),
                start == entry@.len() - klen,
                entry@.len() <= usize::MAX,
                components@.len() <= usize::MAX,
                d <= components@.len(),
                key == strings_view(components@).skip(d as int),
                comps == strings_view(entry@),
                forall|k: int| 0 <= k < j ==> comps[start + k] == key[k],
            decreases klen - j,
        {
            if entry[start + j] != components[d + j] {
                proof {
                    assert(comps.subrange(start as int, comps.len() as int)[j as int] != key[j as int]);
                }
                return false;
            }
            j = j + 1;
        }
        proof {
            assert(comps.subrange(start as int, comps.len() as int) =~= key);
        }
        true
    }

    /// The positions of every indexed path whose components end with
    /// `components[d..]`, in insertion order.
    fn candidates_at(&self, components: &[String], d: usize) -> (ix: Vec<usize>)
        requires
            d < components@.len(),
        ensures
            forall|j: int| 0 <= j < ix@.len() ==> #[trigger] ix@[j] < self@.len(),
            ix@.map_values(|i: usize| self@[i as int].1) == candidates(self@, strings_view(components@).skip(d as int)),
    {
        let ghost key = strings_view(components@).skip(d as int);
        let mut ix: Vec<usize> = Vec::new();
        let mut i: usize = 0;
        while i < self.entries.len()
            invariant
                i <= self.entries@.len(),
                d < components@.len(),
                key == strings_view(components@).skip(d as int),
                self@.len() == self.entries@.len(),
                forall|j: int| 0 <= j < ix@.len() ==> #[trigger] ix@[j] < i,
                ix@.map_values(|k: usize| self@[k as int].1) == candidates(self@.take(i as int), key),
            decreases self.entries@.len() - i,
        {
            proof {
                assert(self@.take(i + 1).drop_last() == self@.take(i as int));
                assert(self@.take(i + 1).last() == self@[i as int]);
                assert(self@[i as int] == (strings_view(self.entries@[i as int].components@), self.entries@[i as int].path@));
            }
            if Self::suffix_matches(&self.entries[i].components, components, d) {
                let ghost old_ix = ix@;
                ix.push(i);
                proof {
                    assert(ix@.map_values(|k: usize| self@[k as int].1) == old_ix.map_values(|k: usize| self@[k as int].1).push(self@[i as int].1));
                }
            }
            i = i + 1;
        }
        proof {
            assert(self@.take(self@.len() as int) == self@);
        }
        ix
    }

    /// Find the candidates (every local path sharing that exact suffix) for the
    /// longest matching suffix of `components`, trying progressively shortened
    /// suffixes until some suffix length has at least one candidate.
    fn lookup_candidates(&self, components: &[String]) -> (r: Option<Vec<usize>>)
        ensures
            r is Some <==> spec_lookup_candidates(self@, strings_view(components@)) is Some,
            r matches Some(ix) ==> {
                &&& ix@.len() > 0
                &&& forall|j: int| 0 <= j < ix@.len() ==> #[trigger] ix@[j] < self@.len()
                &&& Some(ix@.map_values(|i: usize| self@[i as int].1)) == spec_lookup_candidates(self@, strings_view(components@))
            },
    {
        let ghost comps = strings_view(components@);
        let mut d: usize = 0;
        while d < components.len()
            invariant
                d <= components@.len(),
                comps == strings_view(components@),
                spec_lookup_candidates(self@, comps) == lookup_from(self@, comps, d as nat),
            decreases components@.len() - d,
        {
            let ix = self.candidates_at(components, d);
            if ix.len() > 0 {
                return Some(ix);
            }
            d = d + 1;
        }
        None
    }

    /// Best-effort lookup: some local path matching the longest matching suffix
    /// (the first one indexed under it), without regard for whether other local
    /// paths share that exact suffix.
    pub fn lookup_components(&self, components: &[String]) -> (r: Option<&str>)
        ensures
            r is Some <==> spec_lookup(self@, strings_view(components@)) is Some,
            r matches Some(p) ==> spec_lookup(self@, strings_view(components@)) == Some(p@),
    {
        match self.lookup_candidates(components) {
            Some(ix) => {
                let i = ix[0];
                Some(self.entries[i].path.as_str())
            },
            None => None,
        }
    }

    /// [`PathSuffixIndex::lookup_components`] on an incoming path given as a
    /// string, which may use either Unix or Windows separators.
    pub fn lookup_str(&self, path_str: &str) -> (r: Option<&str>)
        ensures
            r is Some <==> spec_lookup(self@, embedded_components(path_str@)) is Some,
            r matches Some(p) ==> spec_lookup(self@, embedded_components(path_str@)) == Some(p@),
    {
        let comps = Self::normal_components_of_str(path_str);
        self.lookup_components(comps.as_slice())
    }

    /// Strict lookup: a match is only returned if the longest matching suffix is
    /// unambiguous (exactly one local path shares it). An ambiguous suffix stops
    /// the search (a shorter suffix is never less ambiguous).
    pub fn lookup_components_unambiguous(&self, components: &[String]) -> (r: Option<&str>)
        ensures
            r is Some <==> spec_lookup_unambiguous(self@, strings_view(components@)) is Some,
            r matches Some(p) ==> spec_lookup_unambiguous(self@, strings_view(components@)) == Some(p@),
    {
        match self.lookup_candidates(components) {
            Some(ix) => {
                let ghost c = ix@.map_values(|i: usize| self@[i as int].1);
                let first = &self.entries[ix[0]].path;
                proof {
                    assert(c =~= spec_lookup_candidates(self@, strings_view(components@))->Some_0);
                    assert(c[0] == self@[ix@[0] as int].1);
                    assert(self@[ix@[0] as int].1 == first@);
                }
                let mut k: usize = 1;
                while k < ix.len()
                    invariant
                        1 <= k <= ix@.len(),
                        c == ix@.map_values(|i: usize| self@[i as int].1),
                        c.len() == ix@.len(),
                        Some(c) == spec_lookup_candidates(self@, strings_view(components@)),
                        c[0] == first@,
                        forall|j: int| 0 <= j < ix@.len() ==> #[trigger] ix@[j] < self@.len(),
                        self@.len() == self.entries@.len(),
                        forall|j: int| 0 <= j < k ==> #[trigger] c[j] == c[0],
                    decreases ix@.len() - k,
                {
                    proof {
                        assert(c[k as int] == self@[ix@[k as int] as int].1);
                        assert(self@[ix@[k as int] as int].1 == self.entries@[ix@[k as int] as int].path@);
                    }
                    if self.entries[ix[k]].path != *first {
                        proof {
                            assert(c[k as int] != c[0]);
                            assert(!single_path(c));
                        }
                        return None;
                    }
                    k = k + 1;
                }
                Some(first.as_str())
            },
            None => None,
        }
    }

    /// [`PathSuffixIndex::lookup_components_unambiguous`] on an incoming path
    /// given as a string.
    pub fn lookup_str_unambiguous(&self, path_str: &str) -> (r: Option<&str>)
        ensures
            r is Some <==> spec_lookup_unambiguous(self@, embedded_components(path_str@)) is Some,
            r matches Some(p) ==> spec_lookup_unambiguous(self@, embedded_components(path_str@)) == Some(p@),
    {
        let comps = Self::normal_components_of_str(path_str);
        self.lookup_components_unambiguous(comps.as_slice())
    }

    /// Decompose a local path into its normal ("real name") components, dropping
    /// roots, prefixes, `.` and `..`.
    pub fn normal_components_of_path(path: &str) -> (comps: Vec<String>)
        ensures
            strings_view(comps@) == local_components(path@),
    {
        let parts = std_components(path);
        let mut comps: Vec<String> = Vec::new();
        let mut i: usize = 0;
        while i < parts.len()
            invariant
                i <= parts.len(),
                parts_view(parts@) == std_path_parts(path@),
                strings_view(comps@) == normal_texts(parts_view(parts@).take(i as int)),
            decreases parts.len() - i,
        {
            proof {
                assert(parts_view(parts@).take(i + 1).drop_last() == parts_view(parts@).take(i as int));
            }
            match &parts[i] {
                PathPart::Normal(s) => {
                    comps.push(s.clone());
                },
                _ => {},
            }
            proof {
                assert(strings_view(comps@) == normal_texts(parts_view(parts@).take(i + 1)));
            }
            i = i + 1;
        }
        proof {
            assert(parts_view(parts@).take(parts@.len() as int) == parts_view(parts@));
        }
        comps
    }

    /// The normal components of a path string that may follow either Unix or
    /// Windows conventions (`typed_path`); components that are not valid UTF-8 are
    /// dropped.
    pub fn normal_components_of_str(path: &str) -> (comps: Vec<String>)
        ensures
            strings_view(comps@) == embedded_components(path@),
    {
        let parts = typed_components(path);
        let ghost all = parts.deep_view();
        let n = parts.len();
        let mut comps: Vec<String> = Vec::new();
        let mut i: usize = 0;
        while i < n
            invariant
                i <= n,
                n == parts.len(),
                all == typed_path_parts(path@),
                all.len() == n,
                parts.deep_view() == all,
                strings_view(comps@) == decoded_normals(all.take(i as int)),
            decreases n - i,
        {
            proof {
                assert(all.take(i + 1).drop_last() == all.take(i as int));
            }
            proof {
                assert(all[i as int] == parts@[i as int].deep_view());
                assert(all.take(i + 1).last() == all[i as int]);
            }
            match &parts[i] {
                Some(bytes) => {
                    assert(bytes.deep_view() == bytes@);
                    match string_from_utf8(bytes.as_slice()) {
                        Some(s) => comps.push(s),
                        None => {},
                    }
                },
                None => {},
            }
            proof {
                assert(strings_view(comps@) == decoded_normals(all.take(i + 1)));
            }
            i = i + 1;
        }
        proof {
            assert(all.take(n as int) == all);
        }
        comps
    }
}

/// A suffix of a suffix is a suffix.
proof fn lemma_suffix_of_suffix(key: Seq<Seq<char>>, comps: Seq<Seq<char>>, d: int)
    requires
        0 <= d <= key.len(),
        is_suffix_of(key, comps),
    ensures
        is_suffix_of(key.skip(d), comps),
{
    let k2 = key.skip(d);
    let start = comps.len() - key.len();
    assert forall|i: int| 0 <= i < k2.len() implies comps.subrange(comps.len() - k2.len(), comps.len() as int)[i] == k2[i] by {
        assert(comps.subrange(start, comps.len() as int)[d + i] == key[d + i]);
    }
    assert(comps.subrange(comps.len() - k2.len(), comps.len() as int) =~= k2);
}

/// Every path indexed under a key is also indexed under each shorter (nonempty)
/// suffix of that key, as often (repeats counted) or more, so a shorter suffix
/// never has fewer candidates: a shorter suffix can never be less ambiguous than
/// a longer one.
pub proof fn lemma_shorter_suffix_has_more_candidates(model: IndexModel, key: Seq<Seq<char>>, d: int)
    requires
        0 <= d < key.len(),
    ensures
        forall|p: Seq<char>| candidates(model, key).contains(p) ==> #[trigger] candidates(model, key.skip(d)).contains(p),
        candidates(model, key).len() <= candidates(model, key.skip(d)).len(),
        forall|p: Seq<char>| #[trigger] candidates(model, key).to_multiset().count(p) <= candidates(model, key.skip(d)).to_multiset().count(p),
    decreases model.len(),
{
    broadcast use vstd::seq_lib::group_to_multiset_ensures;
    if model.len() > 0 {
        lemma_shorter_suffix_has_more_candidates(model.drop_last(), key, d);
        let rest_long = candidates(model.drop_last(), key);
        let rest_short = candidates(model.drop_last(), key.skip(d));
        if key.len() > 0 && is_suffix_of(key, model.last().0) {
            lemma_suffix_of_suffix(key, model.last().0, d);
            assert(candidates(model, key) == rest_long.push(model.last().1));
            assert(candidates(model, key.skip(d)) == rest_short.push(model.last().1));
            assert forall|p: Seq<char>| candidates(model, key).contains(p) implies #[trigger] candidates(model, key.skip(d)).contains(p) by {
                if p != model.last().1 {
                    let i = choose|i: int| 0 <= i < candidates(model, key).len() && candidates(model, key)[i] == p;
                    assert(rest_long[i] == p);
                    assert(rest_long.contains(p));
                    assert(rest_short.contains(p));
                    let k = choose|k: int| 0 <= k < rest_short.len() && rest_short[k] == p;
                    assert(candidates(model, key.skip(d))[k] == p);
                } else {
                    assert(candidates(model, key.skip(d))[rest_short.len() as int] == p);
                }
            }
        } else {
            assert(candidates(model, key) == rest_long);
            let short = candidates(model, key.skip(d));
            assert(short == rest_short || short == rest_short.push(model.last().1));
            assert forall|p: Seq<char>| candidates(model, key).contains(p) implies #[trigger] candidates(model, key.skip(d)).contains(p) by {
                assert(rest_short.contains(p));
                let k = choose|k: int| 0 <= k < rest_short.len() && rest_short[k] == p;
                assert(short[k] == p);
            }
        }
    }
}

/// What the longest-suffix search finds: the candidates of the first suffix of
/// `comps`, longest first, that has any; and nothing exactly when no nonempty
/// suffix of `comps` has a candidate.
pub proof fn lemma_lookup_is_longest_match(model: IndexModel, comps: Seq<Seq<char>>)
    ensures
        spec_lookup_candidates(model, comps) is None <==> forall|d: int| 0 <= d < comps.len() ==> #[trigger] candidates(model, comps.skip(d)).len() == 0,
        spec_lookup_candidates(model, comps) matches Some(c) ==> exists|d: int| {
            &&& 0 <= d < comps.len()
            &&& c == #[trigger] candidates(model, comps.skip(d))
            &&& c.len() > 0
            &&& forall|e: int| 0 <= e < d ==> #[trigger] candidates(model, comps.skip(e)).len() == 0
        },
{
    lemma_lookup_from(model, comps, 0);
}

proof fn lemma_lookup_from(model: IndexModel, comps: Seq<Seq<char>>, d: nat)
    ensures
        lookup_from(model, comps, d) is None <==> forall|e: int| d <= e < comps.len() ==> #[trigger] candidates(model, comps.skip(e)).len() == 0,
        lookup_from(model, comps, d) matches Some(c) ==> exists|k: int| {
            &&& d <= k < comps.len()
            &&& c == #[trigger] candidates(model, comps.skip(k))
            &&& c.len() > 0
            &&& forall|e: int| d <= e < k ==> #[trigger] candidates(model, comps.skip(e)).len() == 0
        },
    decreases comps.len() - d,
{
    if d < comps.len() {
        lemma_lookup_from(model, comps, d + 1);
        if candidates(model, comps.skip(d as int)).len() > 0 {
            let c = candidates(model, comps.skip(d as int));
            assert(c == candidates(model, comps.skip(d as int)));
        } else {
            if let Some(c) = lookup_from(model, comps, d) {
                let k = choose|k: int| {
                    &&& d + 1 <= k < comps.len()
                    &&& c == #[trigger] candidates(model, comps.skip(k))
                    &&& c.len() > 0
                    &&& forall|e: int| d + 1 <= e < k ==> #[trigger] candidates(model, comps.skip(e)).len() == 0
                };
                assert forall|e: int| d <= e < k implies #[trigger] candidates(model, comps.skip(e)).len() == 0 by {
                    if e == d {
                    }
                }
            }
        }
    }
}

/// A strict match is always also the best-effort match.
pub proof fn lemma_unambiguous_agrees_with_best_effort(model: IndexModel, comps: Seq<Seq<char>>)
    ensures
        spec_lookup_unambiguous(model, comps) matches Some(p) ==> spec_lookup(model, comps) == Some(p),
{
}

proof fn lemma_no_candidates(model: IndexModel, key: Seq<Seq<char>>)
    requires
        forall|i: int| 0 <= i < model.len() ==> !is_suffix_of(key, #[trigger] model[i].0),
    ensures
        candidates(model, key).len() == 0,
    decreases model.len(),
{
    if model.len() > 0 {
        assert forall|i: int| 0 <= i < model.drop_last().len() implies !is_suffix_of(key, #[trigger] model.drop_last()[i].0) by {
            assert(model.drop_last()[i] == model[i]);
        }
        lemma_no_candidates(model.drop_last(), key);
        assert(!is_suffix_of(key, model[model.len() - 1].0));
    }
}

/// Looking up a path's own components right after indexing it finds the paths
/// indexed under its full component list (the longest possible suffix), the
/// inserted path being the last of them; and finds exactly that path, even
/// strictly, when no path indexed before it ends with those components.
pub proof fn lemma_lookup_after_insert(model: IndexModel, path: Seq<char>)
    requires
        local_components(path).len() > 0,
    ensures
        ({
            let comps = local_components(path);
            let after = model.push((comps, path));
            &&& spec_lookup_candidates(after, comps) == Some(candidates(after, comps))
            &&& candidates(after, comps).last() == path
            &&& (forall|i: int| 0 <= i < model.len() ==> !is_suffix_of(comps, #[trigger] model[i].0))
                ==> spec_lookup_unambiguous(after, comps) == Some(path)
                && spec_lookup(after, comps) == Some(path)
        }),
{
    let comps = local_components(path);
    let after = model.push((comps, path));
    assert(comps.subrange(0, comps.len() as int) == comps);
    assert(is_suffix_of(comps, comps));
    assert(after.drop_last() == model);
    assert(comps.skip(0) == comps);
    assert(candidates(after, comps) == candidates(model, comps).push(path));
    if forall|i: int| 0 <= i < model.len() ==> !is_suffix_of(comps, #[trigger] model[i].0) {
        lemma_no_candidates(model, comps);
        assert(candidates(after, comps).len() == 1);
    }
}

} // verus!
