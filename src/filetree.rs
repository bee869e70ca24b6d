//! Content-addressed snapshots of a directory of regular files, the
//! difference between two snapshots, and the file operations that apply it.
use vstd::prelude::*;
use core::cmp::Ordering;
use crate::named::{
    Named, named_views, lookup, unique_names, get_named, lemma_lookup_at, lemma_lookup_absent,
    lemma_insert_lookup,
};
use vstd::seq_lib::lemma_seq_contains_after_push;
use crate::text::{
    seq_cmp, cmp_text, split_on, split_by, text_eq, lemma_seq_cmp_equal, lemma_seq_cmp_transitive,
    lemma_seq_cmp_reverse,
};

verus! {

/// Digest and permission bits of one file.
#[derive(Debug, PartialEq, Eq)]
pub struct FileMeta {
    /// Hex text of the file's SHA-512 digest.
    pub sha512: String,
    pub mode: u16,
}

pub struct FileMetaModel {
    pub sha512: Seq<char>,
    pub mode: u16,
}

impl View for FileMeta {
    type V = FileMetaModel;

    open spec fn view(&self) -> FileMetaModel {
        FileMetaModel { sha512: self.sha512@, mode: self.mode }
    }
}

impl FileMeta {
    pub fn duplicate(&self) -> (r: FileMeta)
        ensures
            r@ == self@,
    {
        FileMeta { sha512: self.sha512.clone(), mode: self.mode }
    }
}

/// Relative path → metadata, kept sorted by path.
#[derive(Debug)]
pub struct FileTree {
    pub children: Vec<Named<FileMeta>>,
}

pub type TreeModel = Seq<(Seq<char>, FileMetaModel)>;

impl View for FileTree {
    type V = TreeModel;

    open spec fn view(&self) -> TreeModel {
        named_views(self.children@)
    }
}

/// Paths strictly increasing.
pub open spec fn sorted_paths(s: Seq<Seq<char>>) -> bool {
    forall|i: int, j: int| 0 <= i < j < s.len() ==> seq_cmp(s[i], s[j]) == Ordering::Less
}

pub open spec fn tree_paths(t: TreeModel) -> Seq<Seq<char>> {
    t.map_values(|e: (Seq<char>, FileMetaModel)| e.0)
}

/// Entries strictly sorted by path (so each path occurs once).
pub open spec fn tree_wf(t: TreeModel) -> bool {
    sorted_paths(tree_paths(t))
}

pub open spec fn has_path(t: TreeModel, p: Seq<char>) -> bool {
    lookup(t, p) is Some
}

/// The tree as a map from path to metadata.
pub open spec fn tree_map(t: TreeModel) -> Map<Seq<char>, FileMetaModel> {
    Map::new(|p: Seq<char>| has_path(t, p), |p: Seq<char>| lookup(t, p)->0)
}

pub proof fn lemma_wf_unique(t: TreeModel)
    requires
        tree_wf(t),
    ensures
        unique_names(t),
{
    assert forall|i: int, j: int| 0 <= i < j < t.len() implies t[i].0 != t[j].0 by {
        assert(tree_paths(t)[i] == t[i].0 && tree_paths(t)[j] == t[j].0);
        lemma_seq_cmp_equal(t[i].0, t[j].0);
    }
}

/// The path `p` is at some index below `n`.
pub open spec fn path_among(t: TreeModel, p: Seq<char>, n: int) -> bool {
    exists|k: int| 0 <= k < n && t[k].0 == p
}

proof fn lemma_has_path_index(t: TreeModel, p: Seq<char>)
    requires
        tree_wf(t),
    ensures
        has_path(t, p) <==> path_among(t, p, t.len() as int),
{
    lemma_wf_unique(t);
    if path_among(t, p, t.len() as int) {
        let k = choose|k: int| 0 <= k < t.len() && t[k].0 == p;
        lemma_lookup_at(t, k);
    } else {
        lemma_lookup_absent(t, p);
    }
}

/// Paths added, removed and changed between two trees, each list sorted.
#[derive(Debug)]
pub struct FileTreeDiff {
    pub additions: Vec<String>,
    pub removals: Vec<String>,
    pub changes: Vec<String>,
}

pub open spec fn texts(v: Seq<String>) -> Seq<Seq<char>> {
    v.map_values(|s: String| s@)
}

/// `b` lists, in sorted order, exactly the paths that satisfy `f`.
pub open spec fn lists_exactly(b: Seq<Seq<char>>, f: spec_fn(Seq<char>) -> bool) -> bool {
    &&& sorted_paths(b)
    &&& forall|p: Seq<char>| b.contains(p) <==> f(p)
}

pub open spec fn is_addition(old: TreeModel, new: TreeModel, p: Seq<char>) -> bool {
    has_path(new, p) && !has_path(old, p)
}

pub open spec fn is_removal(old: TreeModel, new: TreeModel, p: Seq<char>) -> bool {
    has_path(old, p) && !has_path(new, p)
}

pub open spec fn is_change(old: TreeModel, new: TreeModel, p: Seq<char>) -> bool {
    has_path(old, p) && has_path(new, p) && lookup(old, p)->0.sha512 != lookup(new, p)->0.sha512
}

/// `d` is the difference from `old` to `new`.
pub open spec fn is_diff(old: TreeModel, new: TreeModel, d: &FileTreeDiff) -> bool {
    &&& lists_exactly(texts(d.additions@), |p: Seq<char>| is_addition(old, new, p))
    &&& lists_exactly(texts(d.removals@), |p: Seq<char>| is_removal(old, new, p))
    &&& lists_exactly(texts(d.changes@), |p: Seq<char>| is_change(old, new, p))
}

/// The live copy `live` of the files that `tree` knows about: removals are
/// tree paths missing there, changes are paths whose digest differs, and
/// nothing is ever added.
pub open spec fn is_relative_diff(tree: TreeModel, live: TreeModel, d: &FileTreeDiff) -> bool {
    &&& d.additions@.len() == 0
    &&& lists_exactly(texts(d.removals@), |p: Seq<char>| is_removal(tree, live, p))
    &&& lists_exactly(texts(d.changes@), |p: Seq<char>| is_change(tree, live, p))
}

impl FileTree {
    /// The tree with no files.
    pub fn empty() -> (r: FileTree)
        ensures
            r@.len() == 0,
            tree_wf(r@),
    {
        FileTree { children: Vec::new() }
    }

    pub open spec fn wf(&self) -> bool {
        tree_wf(self@)
    }

    /// Metadata of the file at `path`.
    pub fn get(&self, path: &str) -> (r: Option<&FileMeta>)
        requires
            self.wf(),
        ensures
            match r {
                Some(m) => lookup(self@, path@) == Some(m@),
                None => !has_path(self@, path@),
            },
    {
        proof {
            lemma_wf_unique(self@);
        }
        get_named(&self.children, path)
    }

    /// Paths of `self` that are missing from `other`, and paths in both
    /// whose digests differ, in path order.
    fn removals_and_changes(&self, other: &FileTree) -> (r: (Vec<String>, Vec<String>))
        requires
            self.wf(),
            other.wf(),
        ensures
            lists_exactly(texts(r.0@), |p: Seq<char>| is_removal(self@, other@, p)),
            lists_exactly(texts(r.1@), |p: Seq<char>| is_change(self@, other@, p)),
    {
        let ghost t = self@;
        let ghost o = other@;
        let mut removals: Vec<String> = Vec::new();
        let mut changes: Vec<String> = Vec::new();
        let mut i: usize = 0;
        proof {
            lemma_wf_unique(t);
        }
        while i < self.children.len()
            invariant
                t == self@,
                o == other@,
                self.wf(),
                other.wf(),
                unique_names(t),
                i <= t.len(),
                sorted_paths(texts(removals@)),
                sorted_paths(texts(changes@)),
                forall|q: Seq<char>| texts(removals@).contains(q) ==> path_among(t, q, i as int),
                forall|q: Seq<char>| texts(changes@).contains(q) ==> path_among(t, q, i as int),
                forall|q: Seq<char>| path_among(t, q, i as int) ==> (texts(removals@).contains(q) <==> is_removal(t, o, q)),
                forall|q: Seq<char>| path_among(t, q, i as int) ==> (texts(changes@).contains(q) <==> is_change(t, o, q)),
            decreases t.len() - i,
        {
            let entry = &self.children[i];
            let ghost p = entry.name@;
            assert(t[i as int] == entry@);
            proof {
                lemma_lookup_at(t, i as int);
                assert forall|k: int| 0 <= k < i implies seq_cmp(t[k].0, p) == Ordering::Less by {
                    assert(tree_paths(t)[k] == t[k].0 && tree_paths(t)[i as int] == p);
                }
            }
            let ghost rem0 = texts(removals@);
            let ghost chg0 = texts(changes@);
            proof {
                if rem0.contains(p) {
                    assert(path_among(t, p, i as int));
                    let k = choose|k: int| 0 <= k < i && t[k].0 == p;
                    lemma_seq_cmp_equal(t[k].0, p);
                }
                if chg0.contains(p) {
                    assert(path_among(t, p, i as int));
                    let k = choose|k: int| 0 <= k < i && t[k].0 == p;
                    lemma_seq_cmp_equal(t[k].0, p);
                }
            }
            match other.get(entry.name.as_str()) {
                Some(m) => {
                    if m.sha512 != entry.value.sha512 {
                        changes.push(entry.name.clone());
                        assert(texts(changes@) =~= chg0.push(p));
                        proof {
                            lemma_push_sorted(chg0, p, t, i as int);
                        }
                    }
                },
                None => {
                    removals.push(entry.name.clone());
                    assert(texts(removals@) =~= rem0.push(p));
                    proof {
                        lemma_push_sorted(rem0, p, t, i as int);
                    }
                },
            }
            proof {
                broadcast use lemma_seq_contains_after_push;
                assert(texts(removals@) == rem0 || texts(removals@) == rem0.push(p));
                assert(texts(changes@) == chg0 || texts(changes@) == chg0.push(p));
                assert forall|q: Seq<char>| path_among(t, q, i + 1) implies (texts(removals@).contains(q) <==> is_removal(t, o, q)) by {
                    if q != p {
                        let k = choose|k: int| 0 <= k < i + 1 && t[k].0 == q;
                        assert(path_among(t, q, i as int));
                        assert(texts(removals@).contains(q) <==> rem0.contains(q));
                    } else {
                        assert(t[i as int].0 == q);
                    }
                }
                assert forall|q: Seq<char>| path_among(t, q, i + 1) implies (texts(changes@).contains(q) <==> is_change(t, o, q)) by {
                    if q != p {
                        let k = choose|k: int| 0 <= k < i + 1 && t[k].0 == q;
                        assert(path_among(t, q, i as int));
                        assert(texts(changes@).contains(q) <==> chg0.contains(q));
                    } else {
                        assert(t[i as int].0 == q);
                    }
                }
                assert forall|q: Seq<char>| texts(removals@).contains(q) implies path_among(t, q, i + 1) by {
                    if q != p {
                        assert(rem0.contains(q));
                        assert(path_among(t, q, i as int));
                        let k = choose|k: int| 0 <= k < i && t[k].0 == q;
                        assert(t[k].0 == q);
                    } else {
                        assert(t[i as int].0 == q);
                    }
                }
                assert forall|q: Seq<char>| texts(changes@).contains(q) implies path_among(t, q, i + 1) by {
                    if q != p {
                        assert(chg0.contains(q));
                        assert(path_among(t, q, i as int));
                        let k = choose|k: int| 0 <= k < i && t[k].0 == q;
                        assert(t[k].0 == q);
                    } else {
                        assert(t[i as int].0 == q);
                    }
                }
            }
            i = i + 1;
        }
        proof {
            assert forall|q: Seq<char>| texts(removals@).contains(q) <==> is_removal(t, o, q) by {
                lemma_has_path_index(t, q);
            }
            assert forall|q: Seq<char>| texts(changes@).contains(q) <==> is_change(t, o, q) by {
                lemma_has_path_index(t, q);
            }
        }
        (removals, changes)
    }

    /// Paths of `other` that `self` lacks, in path order.
    fn missing_from(&self, other: &FileTree) -> (r: Vec<String>)
        requires
            self.wf(),
            other.wf(),
        ensures
            lists_exactly(texts(r@), |p: Seq<char>| is_addition(self@, other@, p)),
    {
        let ghost t = self@;
        let ghost o = other@;
        let mut adds: Vec<String> = Vec::new();
        let mut j: usize = 0;
        proof {
            lemma_wf_unique(o);
        }
        while j < other.children.len()
            invariant
                t == self@,
                o == other@,
                self.wf(),
                other.wf(),
                unique_names(o),
                j <= o.len(),
                sorted_paths(texts(adds@)),
                forall|q: Seq<char>| texts(adds@).contains(q) ==> path_among(o, q, j as int),
                forall|q: Seq<char>| path_among(o, q, j as int) ==> (texts(adds@).contains(q) <==> is_addition(t, o, q)),
            decreases o.len() - j,
        {
            let entry = &other.children[j];
            let ghost p = entry.name@;
            assert(o[j as int] == entry@);
            proof {
                lemma_lookup_at(o, j as int);
                assert forall|k: int| 0 <= k < j implies seq_cmp(o[k].0, p) == Ordering::Less by {
                    assert(tree_paths(o)[k] == o[k].0 && tree_paths(o)[j as int] == p);
                }
            }
            let ghost a0 = texts(adds@);
            proof {
                if a0.contains(p) {
                    assert(path_among(o, p, j as int));
                    let k = choose|k: int| 0 <= k < j && o[k].0 == p;
                    lemma_seq_cmp_equal(o[k].0, p);
                }
            }
            if self.get(entry.name.as_str()).is_none() {
                adds.push(entry.name.clone());
                assert(texts(adds@) =~= a0.push(p));
                proof {
                    lemma_push_sorted(a0, p, o, j as int);
                }
            }
            proof {
                broadcast use lemma_seq_contains_after_push;
                assert(texts(adds@) == a0 || texts(adds@) == a0.push(p));
                assert forall|q: Seq<char>| path_among(o, q, j + 1) implies (texts(adds@).contains(q) <==> is_addition(t, o, q)) by {
                    if q != p {
                        assert(path_among(o, q, j as int));
                        assert(texts(adds@).contains(q) <==> a0.contains(q));
                    } else {
                        assert(o[j as int].0 == q);
                    }
                }
                assert forall|q: Seq<char>| texts(adds@).contains(q) implies path_among(o, q, j + 1) by {
                    if q != p {
                        assert(a0.contains(q));
                        assert(path_among(o, q, j as int));
                        let k = choose|k: int| 0 <= k < j && o[k].0 == q;
                        assert(o[k].0 == q);
                    } else {
                        assert(o[j as int].0 == q);
                    }
                }
            }
            j = j + 1;
        }
        proof {
            assert forall|q: Seq<char>| texts(adds@).contains(q) <==> is_addition(t, o, q) by {
                lemma_has_path_index(o, q);
            }
        }
        adds
    }

    /// The difference from `self` to `updated`.
    pub fn diff(&self, updated: &FileTree) -> (r: FileTreeDiff)
        requires
            self.wf(),
            updated.wf(),
        ensures
            is_diff(self@, updated@, &r),
    {
        let (removals, changes) = self.removals_and_changes(updated);
        let additions = self.missing_from(updated);
        FileTreeDiff { additions, removals, changes }
    }

    /// The difference from `self` to `live`, what was found on disk at the
    /// paths that `self` records; files that `self` does not know of are
    /// never touched, so nothing is added.
    pub fn relative_diff_to(&self, live: &FileTree) -> (r: FileTreeDiff)
        requires
            self.wf(),
            live.wf(),
        ensures
            is_relative_diff(self@, live@, &r),
            r.additions@.len() == 0,
    {
        let (removals, changes) = self.removals_and_changes(live);
        FileTreeDiff { additions: Vec::new(), removals, changes }
    }
}

/// Pushing the `i`-th path of a sorted tree onto a sorted list of earlier
/// paths of that tree keeps it sorted.
proof fn lemma_push_sorted(b: Seq<Seq<char>>, p: Seq<char>, t: TreeModel, i: int)
    requires
        sorted_paths(b),
        0 <= i < t.len(),
        t[i].0 == p,
        forall|q: Seq<char>| b.contains(q) ==> path_among(t, q, i),
        forall|k: int| 0 <= k < i ==> seq_cmp(t[k].0, p) == Ordering::Less,
    ensures
        sorted_paths(b.push(p)),
{
    let c = b.push(p);
    assert forall|x: int, y: int| 0 <= x < y < c.len() implies seq_cmp(c[x], c[y]) == Ordering::Less by {
        if y == b.len() {
            assert(b.contains(b[x]));
            let k = choose|k: int| 0 <= k < i && t[k].0 == b[x];
            assert(c[x] == b[x]);
        } else {
            assert(c[x] == b[x] && c[y] == b[y]);
        }
    }
}

/// A path a tree may hold: '/'-separated, relative, and without empty, "."
/// or ".." components.
pub open spec fn valid_tree_path(p: Seq<char>) -> bool {
    forall|i: int|
        0 <= i < split_on(p, '/').len() ==> {
            let c = #[trigger] split_on(p, '/')[i];
            c.len() > 0 && c != seq!['.'] && c != seq!['.', '.']
        }
}

/// Whether `p` may be stored in a tree.
pub fn is_valid_tree_path(p: &str) -> (r: bool)
    ensures
        r == valid_tree_path(p@),
{
    let parts = split_by(p, '/');
    proof {
        reveal_strlit(".");
        reveal_strlit("..");
        assert("."@ =~= seq!['.']);
        assert(".."@ =~= seq!['.', '.']);
    }
    let mut i: usize = 0;
    while i < parts.len()
        invariant
            parts@.len() == split_on(p@, '/').len(),
            forall|k: int| 0 <= k < parts@.len() ==> #[trigger] parts@[k]@ == split_on(p@, '/')[k],
            i <= parts@.len(),
            "."@ == seq!['.'],
            ".."@ == seq!['.', '.'],
            forall|k: int|
                0 <= k < i ==> {
                    let c = #[trigger] split_on(p@, '/')[k];
                    c.len() > 0 && c != seq!['.'] && c != seq!['.', '.']
                },
        decreases parts@.len() - i,
    {
        let c = parts[i].as_str();
        assert(c@ == split_on(p@, '/')[i as int]);
        if c.unicode_len() == 0 || text_eq(c, ".") || text_eq(c, "..") {
            return false;
        }
        i = i + 1;
    }
    true
}

/// Why a set of walked files cannot form a tree.
#[derive(Debug, PartialEq, Eq)]
pub enum FileTreeError {
    /// A path that is absolute or has empty, "." or ".." components.
    InvalidPath(String),
    /// The same path twice.
    DuplicatePath(String),
}

/// Inserts `e` at its place in the sorted tree `v`; false when its path is
/// already there.
fn insert_entry(v: &mut Vec<Named<FileMeta>>, e: Named<FileMeta>) -> (r: bool)
    requires
        tree_wf(named_views(old(v)@)),
    ensures
        tree_wf(named_views(final(v)@)),
        r == !has_path(named_views(old(v)@), e.name@),
        r ==> forall|k: Seq<char>| #[trigger] lookup(named_views(final(v)@), k) == (if k == e.name@ {
            Some(e.value@)
        } else {
            lookup(named_views(old(v)@), k)
        }),
        !r ==> final(v)@ == old(v)@,
{
    let ghost s = named_views(v@);
    let ghost ev = e@;
    proof {
        lemma_wf_unique(s);
    }
    let mut p: usize = 0;
    while p < v.len() && matches!(cmp_text(v[p].name.as_str(), e.name.as_str()), Ordering::Less)
        invariant
            s == named_views(v@),
            ev == e@,
            tree_wf(s),
            p <= v@.len(),
            forall|j: int| 0 <= j < p ==> seq_cmp(s[j].0, ev.0) == Ordering::Less,
        decreases v@.len() - p,
    {
        assert(s[p as int] == v@[p as int]@);
        p = p + 1;
    }
    if p < v.len() {
        assert(s[p as int] == v@[p as int]@);
        if text_eq(v[p].name.as_str(), e.name.as_str()) {
            proof {
                lemma_lookup_at(s, p as int);
            }
            return false;
        }
    }
    proof {
        lemma_seq_cmp_equal(ev.0, ev.0);
        assert forall|j: int| 0 <= j < s.len() implies s[j].0 != ev.0 by {
            if j < p {
                lemma_seq_cmp_equal(s[j].0, ev.0);
            } else {
                assert(tree_paths(s)[p as int] == s[p as int].0 && tree_paths(s)[j] == s[j].0);
                lemma_seq_cmp_equal(s[p as int].0, ev.0);
                if j > p {
                    lemma_seq_cmp_reverse(s[p as int].0, ev.0);
                    lemma_seq_cmp_transitive(ev.0, s[p as int].0, s[j].0);
                    lemma_seq_cmp_equal(ev.0, s[j].0);
                }
            }
        }
        lemma_lookup_absent(s, ev.0);
    }
    v.insert(p, e);
    let ghost u = s.insert(p as int, ev);
    assert(named_views(v@) =~= u);
    proof {
        assert forall|k: Seq<char>| #[trigger] lookup(u, k) == (if k == ev.0 { Some(ev.1) } else { lookup(s, k) }) by {
            lemma_insert_lookup(s, p as int, ev, k);
        }
        let pu = tree_paths(u);
        let ps = tree_paths(s);
        assert forall|a: int, b: int| 0 <= a < b < pu.len() implies seq_cmp(pu[a], pu[b]) == Ordering::Less by {
            if b < p {
                assert(pu[a] == ps[a] && pu[b] == ps[b]);
            } else if b == p {
                assert(pu[a] == s[a].0 && pu[b] == ev.0);
            } else if a < p {
                assert(pu[a] == ps[a] && pu[b] == ps[b - 1]);
            } else if a == p {
                assert(pu[a] == ev.0 && pu[b] == s[b - 1].0);
                assert(ps[p as int] == s[p as int].0 && ps[b - 1] == s[b - 1].0);
                lemma_seq_cmp_equal(s[p as int].0, ev.0);
                lemma_seq_cmp_reverse(s[p as int].0, ev.0);
                if b - 1 > p {
                    lemma_seq_cmp_transitive(ev.0, s[p as int].0, s[b - 1].0);
                }
            } else {
                assert(pu[a] == ps[a - 1] && pu[b] == ps[b - 1]);
            }
        }
    }
    true
}

impl FileTree {
    /// Builds a tree from walked regular files, in any order. Fails on the
    /// first invalid or repeated path.
    pub fn from_entries(entries: Vec<Named<FileMeta>>) -> (r: Result<FileTree, FileTreeError>)
        ensures
            match r {
                Ok(t) => {
                    &&& t.wf()
                    &&& forall|i: int| 0 <= i < entries@.len() ==> valid_tree_path(#[trigger] entries@[i].name@)
                    &&& forall|k: Seq<char>| has_path(t@, k) <==> exists|i: int| 0 <= i < entries@.len() && #[trigger] entries@[i].name@ == k
                    &&& forall|i: int| 0 <= i < entries@.len() ==> lookup(t@, #[trigger] entries@[i].name@) == Some(entries@[i].value@)
                },
                Err(FileTreeError::InvalidPath(p)) => exists|i: int| 0 <= i < entries@.len() && #[trigger] entries@[i].name@ == p@ && !valid_tree_path(p@),
                Err(FileTreeError::DuplicatePath(p)) => exists|i: int, j: int| 0 <= i < j < entries@.len() && #[trigger] entries@[i].name@ == p@ && #[trigger] entries@[j].name@ == p@,
            },
    {
        let ghost es = entries@;
        let mut children: Vec<Named<FileMeta>> = Vec::new();
        let total = entries.len();
        proof {
            assert(named_views(children@) =~= Seq::<(Seq<char>, FileMetaModel)>::empty());
        }
        let mut i: usize = 0;
        while i < total
            invariant
                total == es.len(),
                es == entries@,
                i <= total,
                tree_wf(named_views(children@)),
                forall|j: int| 0 <= j < i ==> valid_tree_path(#[trigger] es[j].name@),
                forall|k: Seq<char>| has_path(named_views(children@), k) <==> exists|j: int| 0 <= j < i && #[trigger] es[j].name@ == k,
                forall|j: int| 0 <= j < i ==> lookup(named_views(children@), #[trigger] es[j].name@) == Some(es[j].value@),
            decreases total - i,
        {
            let e = Named {
                name: entries[i].name.clone(),
                value: entries[i].value.duplicate(),
            };
            assert(e@ == es[i as int]@);
            if !is_valid_tree_path(e.name.as_str()) {
                return Err(FileTreeError::InvalidPath(e.name));
            }
            let ghost before = named_views(children@);
            let name_copy = e.name.clone();
            if !insert_entry(&mut children, e) {
                assert(has_path(before, es[i as int].name@));
                let ghost j = choose|j: int| 0 <= j < i && #[trigger] es[j].name@ == es[i as int].name@;
                assert(es[j].name@ == name_copy@ && es[i as int].name@ == name_copy@);
                return Err(FileTreeError::DuplicatePath(name_copy));
            }
            proof {
                assert forall|k: Seq<char>| has_path(named_views(children@), k) <==> exists|j: int| 0 <= j < i + 1 && #[trigger] es[j].name@ == k by {
                    if k == es[i as int].name@ {
                        assert(es[i as int].name@ == k);
                    } else {
                        assert(has_path(named_views(children@), k) == has_path(before, k));
                        if exists|j: int| 0 <= j < i + 1 && #[trigger] es[j].name@ == k {
                            let j = choose|j: int| 0 <= j < i + 1 && #[trigger] es[j].name@ == k;
                            assert(j < i);
                        }
                    }
                }
                assert forall|j: int| 0 <= j < i + 1 implies lookup(named_views(children@), #[trigger] es[j].name@) == Some(es[j].value@) by {
                    if j < i {
                        assert(es[j].name@ != es[i as int].name@);
                    }
                }
            }
            i = i + 1;
        }
        Ok(FileTree { children })
    }
}

/// A file operation that applies part of a diff to a destination directory.
#[derive(Debug)]
pub enum FileOp {
    /// Delete the file at this path.
    Remove { path: String },
    /// Copy the source file at this path into place (parents created with
    /// mode 0755, written then renamed), with this mode.
    Write { path: String, meta: FileMeta },
}

pub enum FileOpModel {
    Remove(Seq<char>),
    Write(Seq<char>, FileMetaModel),
}

impl View for FileOp {
    type V = FileOpModel;

    open spec fn view(&self) -> FileOpModel {
        match self {
            FileOp::Remove { path } => FileOpModel::Remove(path@),
            FileOp::Write { path, meta } => FileOpModel::Write(path@, meta@),
        }
    }
}

pub open spec fn op_views(v: Seq<FileOp>) -> Seq<FileOpModel> {
    v.map_values(|o: FileOp| o@)
}

/// The destination's files after one operation.
pub open spec fn apply_op(m: Map<Seq<char>, FileMetaModel>, op: FileOpModel) -> Map<Seq<char>, FileMetaModel> {
    match op {
        FileOpModel::Remove(p) => m.remove(p),
        FileOpModel::Write(p, meta) => m.insert(p, meta),
    }
}

/// The destination's files after the operations, in order.
pub open spec fn apply_ops(m: Map<Seq<char>, FileMetaModel>, ops: Seq<FileOpModel>) -> Map<Seq<char>, FileMetaModel>
    decreases ops.len(),
{
    if ops.len() == 0 {
        m
    } else {
        apply_op(apply_ops(m, ops.drop_last()), ops.last())
    }
}

pub open spec fn writes_from(paths: Seq<Seq<char>>, source: TreeModel) -> Seq<FileOpModel> {
    paths.map_values(|p: Seq<char>| FileOpModel::Write(p, lookup(source, p)->0))
}

/// Removals first, then additions, then changes, each taking its metadata
/// from the source tree.
pub open spec fn plan_of(d: &FileTreeDiff, source: TreeModel) -> Seq<FileOpModel> {
    texts(d.removals@).map_values(|p: Seq<char>| FileOpModel::Remove(p)) + writes_from(
        texts(d.additions@),
        source,
    ) + writes_from(texts(d.changes@), source)
}

/// Every added or changed path is in the source tree.
pub open spec fn plan_possible(d: &FileTreeDiff, source: TreeModel) -> bool {
    &&& forall|i: int| 0 <= i < d.additions@.len() ==> has_path(source, #[trigger] d.additions@[i]@)
    &&& forall|i: int| 0 <= i < d.changes@.len() ==> has_path(source, #[trigger] d.changes@[i]@)
}

fn push_writes(ops: &mut Vec<FileOp>, paths: &Vec<String>, source: &FileTree) -> (ok: bool)
    requires
        source.wf(),
    ensures
        ok == forall|i: int| 0 <= i < paths@.len() ==> has_path(source@, #[trigger] paths@[i]@),
        ok ==> op_views(final(ops)@) == op_views(old(ops)@) + writes_from(texts(paths@), source@),
{
    let ghost start = op_views(ops@);
    let mut i: usize = 0;
    while i < paths.len()
        invariant
            source.wf(),
            i <= paths@.len(),
            forall|k: int| 0 <= k < i ==> has_path(source@, #[trigger] paths@[k]@),
            op_views(ops@) == start + writes_from(texts(paths@.take(i as int)), source@),
        decreases paths@.len() - i,
    {
        let path = &paths[i];
        match source.get(path.as_str()) {
            Some(m) => {
                let ghost before = op_views(ops@);
                ops.push(FileOp::Write { path: path.clone(), meta: m.duplicate() });
                assert(op_views(ops@) =~= before.push(FileOpModel::Write(path@, lookup(source@, path@)->0)));
                assert(texts(paths@.take(i + 1)) =~= texts(paths@.take(i as int)).push(path@));
                assert(writes_from(texts(paths@.take(i + 1)), source@) =~= writes_from(texts(paths@.take(i as int)), source@).push(FileOpModel::Write(path@, lookup(source@, path@)->0)));
            },
            None => {
                return false;
            },
        }
        i = i + 1;
    }
    assert(paths@.take(i as int) =~= paths@);
    true
}

/// The operations that apply `diff` to a destination, with file contents and
/// modes taken from `source`; `None` when an added or changed path is not in
/// `source`.
pub fn apply_plan(diff: &FileTreeDiff, source: &FileTree) -> (r: Option<Vec<FileOp>>)
    requires
        source.wf(),
    ensures
        r is Some <==> plan_possible(diff, source@),
        r matches Some(ops) ==> op_views(ops@) == plan_of(diff, source@),
{
    let mut ops: Vec<FileOp> = Vec::new();
    let mut i: usize = 0;
    while i < diff.removals.len()
        invariant
            i <= diff.removals@.len(),
            op_views(ops@) == texts(diff.removals@.take(i as int)).map_values(|p: Seq<char>| FileOpModel::Remove(p)),
        decreases diff.removals@.len() - i,
    {
        let ghost before = op_views(ops@);
        ops.push(FileOp::Remove { path: diff.removals[i].clone() });
        assert(op_views(ops@) =~= before.push(FileOpModel::Remove(diff.removals@[i as int]@)));
        assert(texts(diff.removals@.take(i + 1)) =~= texts(diff.removals@.take(i as int)).push(diff.removals@[i as int]@));
        i = i + 1;
    }
    assert(diff.removals@.take(i as int) =~= diff.removals@);
    if !push_writes(&mut ops, &diff.additions, source) {
        return None;
    }
    if !push_writes(&mut ops, &diff.changes, source) {
        return None;
    }
    Some(ops)
}

proof fn lemma_apply_writes(ps: Seq<Seq<char>>, t: TreeModel, p: Seq<char>)
    ensures
        apply_ops(Map::empty(), writes_from(ps, t)).dom().contains(p) <==> ps.contains(p),
        ps.contains(p) ==> apply_ops(Map::empty(), writes_from(ps, t))[p] == lookup(t, p)->0,
    decreases ps.len(),
{
    if ps.len() > 0 {
        let w = writes_from(ps, t);
        assert(w.drop_last() =~= writes_from(ps.drop_last(), t));
        lemma_apply_writes(ps.drop_last(), t, p);
        vstd::seq_lib::lemma_seq_contains_after_push(ps.drop_last(), ps.last(), p);
        assert(ps.drop_last().push(ps.last()) =~= ps);
    }
}

proof fn lemma_lists_nothing(b: Seq<Seq<char>>, f: spec_fn(Seq<char>) -> bool)
    requires
        lists_exactly(b, f),
        forall|p: Seq<char>| !#[trigger] f(p),
    ensures
        b.len() == 0,
{
    if b.len() > 0 {
        assert(b.contains(b[0]));
    }
}

/// Applying to an empty directory the difference between the empty tree and
/// a tree `t`, with `t` as source, produces exactly the files of `t`.
pub proof fn lemma_full_copy_round_trip(t: TreeModel, d: &FileTreeDiff)
    requires
        tree_wf(t),
        is_diff(Seq::empty(), t, d),
    ensures
        apply_ops(Map::empty(), plan_of(d, t)) == tree_map(t),
{
    let e: TreeModel = Seq::empty();
    assert forall|p: Seq<char>| !#[trigger] has_path(e, p) by {}
    lemma_lists_nothing(texts(d.removals@), |p: Seq<char>| is_removal(e, t, p));
    lemma_lists_nothing(texts(d.changes@), |p: Seq<char>| is_change(e, t, p));
    let adds = texts(d.additions@);
    assert(plan_of(d, t) =~= writes_from(adds, t));
    let m = apply_ops(Map::empty(), writes_from(adds, t));
    assert forall|p: Seq<char>| m.dom().contains(p) <==> tree_map(t).dom().contains(p) by {
        lemma_apply_writes(adds, t, p);
    }
    assert forall|p: Seq<char>| m.dom().contains(p) implies m[p] == tree_map(t)[p] by {
        lemma_apply_writes(adds, t, p);
    }
    assert(m =~= tree_map(t));
}

} // verus!
