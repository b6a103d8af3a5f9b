//! Resolving a path pattern against a file system.
//!
//! The file system itself is consulted by the caller: `plan_listing` says what
//! to look at, and `exact_listing` or `scan_listing` turn what was found there
//! into the resolved paths. `listing_outcome` states the whole resolution.

use vstd::prelude::*;
use crate::error::PathError;
use crate::path::{
    components, last_component, lemma_parent_and_last, lemma_unify_keeps_wildcards,
    lemma_wildcard_in_components, parent_text, split_last_component, unify_separators,
    wildcard_in_parent,
};
use crate::wildcard::{contains_wildcard, glob_matches, has_wildcard, wildcard_matches};

verus! {

/// What a directory entry is, with a symbolic link followed to its target.
#[derive(Debug, Clone, Copy, PartialEq, Eq, Structural)]
pub enum EntryKind {
    File,
    Directory,
    LinkToFile,
    LinkToDirectory,
    /// A symbolic link whose target does not exist or cannot be read.
    BrokenLink,
    /// An entry whose type could not be determined.
    Unknown,
}

/// One entry of an enumerated directory.
#[derive(Debug)]
pub struct Entry {
    /// The entry's name, or `None` where it is not valid text.
    pub name: Option<String>,
    pub kind: EntryKind,
}

/// What enumerating a directory gave.
#[derive(Debug)]
pub enum DirProbe {
    /// There is no directory at that path.
    Missing,
    /// The directory exists but enumerating it failed.
    Failed(std::io::ErrorKind),
    /// The directory's entries, in enumeration order.
    Listed(Vec<Entry>),
}

/// What to look at in the file system to resolve a pattern.
#[derive(Debug)]
pub enum ListPlan {
    /// The pattern holds no wildcard: `path` is the only candidate, and is a
    /// result when it names a plain file.
    Exact { path: String },
    /// Enumerate `dir`; each plain file in it (or link to one) whose name
    /// `pattern` matches gives the result `prefix` followed by that name.
    Scan { dir: String, prefix: String, pattern: String },
}

/// The abstract form of a `ListPlan`.
pub enum PlanModel {
    Exact(Seq<char>),
    Scan { dir: Seq<char>, prefix: Seq<char>, pattern: Seq<char> },
}

impl View for ListPlan {
    type V = PlanModel;

    open spec fn view(&self) -> PlanModel {
        match self {
            ListPlan::Exact { path } => PlanModel::Exact(path@),
            ListPlan::Scan { dir, prefix, pattern } => PlanModel::Scan {
                dir: dir@,
                prefix: prefix@,
                pattern: pattern@,
            },
        }
    }
}

/// The directory to enumerate for a parent text: the current directory where
/// the parent text is empty.
pub open spec fn scan_dir(prefix: Seq<char>) -> Seq<char> {
    if prefix.len() == 0 {
        seq!['.']
    } else {
        prefix
    }
}

/// The plan for a pattern. Without a wildcard the pattern is taken as it is;
/// otherwise it is split (with `\` read as `/`), and a wildcard outside the
/// last component is refused.
pub open spec fn plan_of(p: Seq<char>) -> Result<PlanModel, PathError> {
    if !has_wildcard(p) {
        Ok(PlanModel::Exact(p))
    } else {
        let n = unify_separators(p);
        if wildcard_in_parent(n) {
            Err(PathError::WildcardInParent)
        } else {
            Ok(
                PlanModel::Scan {
                    dir: scan_dir(parent_text(n)),
                    prefix: parent_text(n),
                    pattern: last_component(n),
                },
            )
        }
    }
}

/// Plain files and links to plain files are candidates; directories, broken
/// links, entries of unknown type and entries whose name is not text are not.
pub open spec fn is_candidate(e: Entry) -> bool {
    &&& e.name is Some
    &&& (e.kind == EntryKind::File || e.kind == EntryKind::LinkToFile)
}

/// The path that an entry resolves to, if it is a candidate whose name the
/// pattern matches.
pub open spec fn entry_result(prefix: Seq<char>, pattern: Seq<char>, e: Entry) -> Option<
    Seq<char>,
> {
    if is_candidate(e) && glob_matches(pattern, e.name->Some_0@) {
        Some(prefix + e.name->Some_0@)
    } else {
        None
    }
}

/// The paths that a list of entries resolves to, in enumeration order.
pub open spec fn selected(prefix: Seq<char>, pattern: Seq<char>, entries: Seq<Entry>) -> Seq<
    Seq<char>,
> {
    entries.filter_map(|e: Entry| entry_result(prefix, pattern, e))
}

/// The outcome of a scan, given what enumerating its directory gave.
pub open spec fn scan_outcome(prefix: Seq<char>, pattern: Seq<char>, probe: DirProbe) -> Result<
    Seq<Seq<char>>,
    PathError,
> {
    match probe {
        DirProbe::Missing => Err(PathError::NonexistentParent),
        DirProbe::Failed(kind) => Err(PathError::IoError(kind)),
        DirProbe::Listed(entries) => Ok(selected(prefix, pattern, entries@)),
    }
}

/// The outcome of looking up a pattern without wildcards.
pub open spec fn exact_outcome(path: Seq<char>, is_file: bool) -> Seq<Seq<char>> {
    if is_file {
        seq![path]
    } else {
        seq![]
    }
}

/// The resolution of pattern `p`, where `is_file` tells whether a plain file
/// stands at the exact path (looked at when `p` has no wildcard) and `probe`
/// what enumerating the scanned directory gave (looked at otherwise).
pub open spec fn listing_outcome(p: Seq<char>, is_file: bool, probe: DirProbe) -> Result<
    Seq<Seq<char>>,
    PathError,
> {
    match plan_of(p) {
        Err(e) => Err(e),
        Ok(PlanModel::Exact(path)) => Ok(exact_outcome(path, is_file)),
        Ok(PlanModel::Scan { dir, prefix, pattern }) => scan_outcome(prefix, pattern, probe),
    }
}

/// The texts of a list of strings.
pub open spec fn texts_of(v: Seq<String>) -> Seq<Seq<char>> {
    v.map_values(|s: String| s@)
}

/// A pattern without wildcards resolves to itself where a plain file stands
/// at that path and to nothing otherwise; it never fails.
pub proof fn lemma_plain_pattern_lookup(p: Seq<char>, is_file: bool, probe: DirProbe)
    requires
        !has_wildcard(p),
    ensures
        listing_outcome(p, is_file, probe) == Ok::<Seq<Seq<char>>, PathError>(
            if is_file {
                seq![p]
            } else {
                seq![]
            },
        ),
{
}

/// A wildcard in any component but the last is refused, whatever the file
/// system holds.
pub proof fn lemma_wildcard_in_parent_refused(p: Seq<char>, is_file: bool, probe: DirProbe)
    requires
        wildcard_in_parent(unify_separators(p)),
    ensures
        listing_outcome(p, is_file, probe) == Err::<Seq<Seq<char>>, PathError>(
            PathError::WildcardInParent,
        ),
{
    let n = unify_separators(p);
    lemma_unify_keeps_wildcards(p);
    lemma_wildcard_in_components(n);
    let k = choose|k: int|
        0 <= k < components(n).len() - 1 && has_wildcard(#[trigger] components(n)[k]);
    assert(has_wildcard(n));
}

/// With wildcards in the last component only, a missing parent directory is
/// reported as such.
pub proof fn lemma_missing_parent_reported(p: Seq<char>, is_file: bool)
    requires
        has_wildcard(last_component(unify_separators(p))),
        !wildcard_in_parent(unify_separators(p)),
    ensures
        listing_outcome(p, is_file, DirProbe::Missing) == Err::<Seq<Seq<char>>, PathError>(
            PathError::NonexistentParent,
        ),
{
    lemma_parent_and_last(unify_separators(p));
    lemma_unify_keeps_wildcards(p);
}

/// A scan resolves exactly the plain files and links to plain files whose
/// name the pattern matches: directories, broken links and entries of unknown
/// type never appear, whatever their name.
pub proof fn lemma_scan_selects_files(prefix: Seq<char>, pattern: Seq<char>, entries: Seq<Entry>)
    ensures
        forall|x: Seq<char>|
            #[trigger] selected(prefix, pattern, entries).contains(x) <==> exists|e: Entry|
                #[trigger] entries.contains(e) && is_candidate(e) && glob_matches(
                    pattern,
                    e.name->Some_0@,
                ) && x == prefix + e.name->Some_0@,
    decreases entries.len(),
{
    let f = |e: Entry| entry_result(prefix, pattern, e);
    if entries.len() > 0 {
        let rest = entries.drop_last();
        lemma_scan_selects_files(prefix, pattern, rest);
        assert forall|x: Seq<char>| #[trigger] selected(prefix, pattern, entries).contains(x) <==> exists|e: Entry|
            #[trigger] entries.contains(e) && is_candidate(e) && glob_matches(
                pattern,
                e.name->Some_0@,
            ) && x == prefix + e.name->Some_0@ by {
            let last = entries.last();
            let s = selected(prefix, pattern, entries);
            let sr = selected(prefix, pattern, rest);
            assert(entries.contains(last)) by {
                assert(entries[entries.len() - 1] == last);
            }
            if s.contains(x) {
                let k = choose|k: int| 0 <= k < s.len() && s[k] == x;
                match f(last) {
                    Some(y) => {
                        assert(s =~= sr + seq![y]);
                        if k < sr.len() {
                            assert(sr[k] == x);
                            assert(sr.contains(x));
                        } else {
                            assert(y == x);
                            assert(entries.contains(last) && is_candidate(last) && glob_matches(
                                pattern,
                                last.name->Some_0@,
                            ) && x == prefix + last.name->Some_0@);
                        }
                    },
                    None => {
                        assert(s =~= sr);
                        assert(sr.contains(x));
                    },
                }
                if sr.contains(x) {
                    let e = choose|e: Entry|
                        #[trigger] rest.contains(e) && is_candidate(e) && glob_matches(
                            pattern,
                            e.name->Some_0@,
                        ) && x == prefix + e.name->Some_0@;
                    let i = choose|i: int| 0 <= i < rest.len() && rest[i] == e;
                    assert(entries[i] == e);
                    assert(entries.contains(e));
                }
            }
            match f(last) {
                Some(y) => {
                    assert(s =~= sr + seq![y]);
                },
                None => {
                    assert(s =~= sr);
                },
            }
            if exists|e: Entry|
                #[trigger] entries.contains(e) && is_candidate(e) && glob_matches(
                    pattern,
                    e.name->Some_0@,
                ) && x == prefix + e.name->Some_0@ {
                let e = choose|e: Entry|
                    #[trigger] entries.contains(e) && is_candidate(e) && glob_matches(
                        pattern,
                        e.name->Some_0@,
                    ) && x == prefix + e.name->Some_0@;
                let i = choose|i: int| 0 <= i < entries.len() && entries[i] == e;
                if i < entries.len() - 1 {
                    assert(rest[i] == e);
                    assert(rest.contains(e));
                    assert(sr.contains(x));
                    let k = choose|k: int| 0 <= k < sr.len() && sr[k] == x;
                    assert(s[k] == x);
                } else {
                    assert(e == last);
                    assert(f(last) == Some(x));
                    assert(s[s.len() - 1] == x);
                }
            }
        }
    }
}

/// Resolves pattern against a file system, with no state of its own: the file
/// system holds everything that is read or written.
pub struct FileTextHandler {}

impl FileTextHandler {
    /// A handler; it keeps no state of its own.
    pub fn new() -> (r: Self)
        ensures
            r == (FileTextHandler {  }),
    {
        FileTextHandler {  }
    }

    /// Says what to look at to resolve `pattern` (see `plan_of`).
    pub fn plan_listing(&self, pattern: &str) -> (r: Result<ListPlan, PathError>)
        ensures
            match r {
                Ok(plan) => plan_of(pattern@) == Ok::<PlanModel, PathError>(plan@),
                Err(e) => plan_of(pattern@) == Err::<PlanModel, PathError>(e),
            },
    {
        if !contains_wildcard(pattern) {
            return Ok(ListPlan::Exact { path: String::from_str(pattern) });
        }
        match split_last_component(pattern) {
            Err(e) => Err(e),
            Ok((prefix, last)) => {
                let dir = if prefix.unicode_len() == 0 {
                    proof {
                        reveal_strlit(".");
                    }
                    String::from_str(".")
                } else {
                    prefix.clone()
                };
                proof {
                    assert(dir@ == scan_dir(prefix@));
                }
                Ok(ListPlan::Scan { dir, prefix, pattern: last })
            },
        }
    }

    /// The result for a pattern without wildcards: `path` alone where a plain
    /// file stands there, nothing otherwise.
    pub fn exact_listing(&self, path: String, is_file: bool) -> (r: Vec<String>)
        ensures
            texts_of(r@) == exact_outcome(path@, is_file),
    {
        let mut r: Vec<String> = Vec::new();
        if is_file {
            r.push(path);
        }
        assert(texts_of(r@) =~= exact_outcome(path@, is_file));
        r
    }

    /// The result of a scan, given what enumerating its directory gave: the
    /// candidates whose name `pattern` matches, each as `prefix` followed by
    /// its name, in enumeration order.
    pub fn scan_listing(&self, prefix: &str, pattern: &str, probe: DirProbe) -> (r: Result<
        Vec<String>,
        PathError,
    >)
        ensures
            match r {
                Ok(v) => scan_outcome(prefix@, pattern@, probe) == Ok::<
                    Seq<Seq<char>>,
                    PathError,
                >(texts_of(v@)),
                Err(e) => scan_outcome(prefix@, pattern@, probe) == Err::<
                    Seq<Seq<char>>,
                    PathError,
                >(e),
            },
    {
        match probe {
            DirProbe::Missing => Err(PathError::NonexistentParent),
            DirProbe::Failed(kind) => Err(PathError::IoError(kind)),
            DirProbe::Listed(entries) => Ok(select_entries(prefix, pattern, &entries)),
        }
    }
}

/// The paths that `entries` resolve to (see `selected`).
pub fn select_entries(prefix: &str, pattern: &str, entries: &Vec<Entry>) -> (r: Vec<String>)
    ensures
        texts_of(r@) == selected(prefix@, pattern@, entries@),
{
    let ghost f = |e: Entry| entry_result(prefix@, pattern@, e);
    let mut r: Vec<String> = Vec::new();
    let mut i: usize = 0;
    while i < entries.len()
        invariant
            i <= entries@.len(),
            f == (|e: Entry| entry_result(prefix@, pattern@, e)),
            texts_of(r@) == entries@.take(i as int).filter_map(f),
        decreases entries@.len() - i,
    {
        let e = &entries[i];
        let is_cand = match e.kind {
            EntryKind::File | EntryKind::LinkToFile => true,
            _ => false,
        };
        let ghost before = r@;
        if is_cand {
            match &e.name {
                Some(name) => {
                    if wildcard_matches(pattern, name.as_str()) {
                        let path = String::from_str(prefix).concat(name.as_str());
                        r.push(path);
                    }
                },
                None => {},
            }
        }
        proof {
            let t = entries@.take(i + 1);
            assert(t.drop_last() =~= entries@.take(i as int));
            assert(t.last() == entries@[i as int]);
            match f(entries@[i as int]) {
                Some(x) => {
                    assert(texts_of(r@) =~= texts_of(before).push(x));
                    assert(t.filter_map(f) =~= entries@.take(i as int).filter_map(f) + seq![x]);
                },
                None => {
                    assert(r@ == before);
                },
            }
        }
        i = i + 1;
    }
    assert(entries@.take(entries@.len() as int) =~= entries@);
    r
}

} // verus!
