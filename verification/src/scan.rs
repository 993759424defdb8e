//! Directory-tree scanning over listing snapshots.
//!
//! The caller walks the filesystem and records, for each directory it could
//! list, the directory's canonical path and its raw entries. The functions
//! here turn such a snapshot into the visible tree: hidden and conventionally
//! ignored entries are dropped, listings whose canonical path escapes the
//! chosen root contribute nothing, descent stops at a fixed depth, and every
//! level is ordered with directories first and names compared without regard
//! to ASCII case.

use vstd::prelude::*;

use vstd::multiset::Multiset;

use crate::text::ci_lt;
use crate::text::lex_lt;
use crate::text::lemma_lex_irrefl;
use crate::text::lemma_lex_total;
use crate::text::lemma_lex_trans;
use crate::text::lower_codes;
use crate::text::lower_codes_of;
use crate::text::eq_codes;
use crate::text::lt_codes;
use crate::text::is_hidden;
use crate::text::is_within_root;
use crate::text::spec_hidden;
use crate::text::spec_within_root;

verus! {

/// Levels below the root that a scan may descend.
pub const MAX_DEPTH: usize = 6;

/// One element of the scanned tree. `children` is `Some` exactly for a
/// directory that still had visible entries after filtering.
pub struct FileNode {
    pub name: String,
    pub path: String,
    pub is_dir: bool,
    pub children: Option<Vec<FileNode>>,
}

/// Mathematical shape of a `FileNode`.
pub ghost struct NodeModel {
    pub name: Seq<char>,
    pub path: Seq<char>,
    pub is_dir: bool,
    pub children: Option<Seq<NodeModel>>,
}

pub open spec fn node_model(n: FileNode) -> NodeModel
    decreases n,
{
    NodeModel {
        name: n.name@,
        path: n.path@,
        is_dir: n.is_dir,
        children: match n.children {
            None => None,
            Some(v) => Some(nodes_model(v@)),
        },
    }
}

pub open spec fn nodes_model(s: Seq<FileNode>) -> Seq<NodeModel>
    decreases s,
{
    if s.len() == 0 {
        Seq::empty()
    } else {
        nodes_model(s.drop_last()).push(node_model(s.last()))
    }
}

pub proof fn lemma_nodes_model_len(s: Seq<FileNode>)
    ensures
        nodes_model(s).len() == s.len(),
    decreases s,
{
    if s.len() > 0 {
        lemma_nodes_model_len(s.drop_last());
    }
}

pub proof fn lemma_nodes_model_index(s: Seq<FileNode>, i: int)
    requires
        0 <= i < s.len(),
    ensures
        nodes_model(s).len() == s.len(),
        nodes_model(s)[i] == node_model(s[i]),
    decreases s,
{
    lemma_nodes_model_len(s);
    if i < s.len() - 1 {
        lemma_nodes_model_index(s.drop_last(), i);
    } else {
        lemma_nodes_model_len(s.drop_last());
    }
}

/// Whether a directory name is on the fixed deny-list of build, dependency,
/// cache and version-control directories. The match ignores ASCII case.
pub open spec fn spec_ignored(name: Seq<char>) -> bool {
    ||| lower_codes(name) == lower_codes("node_modules"@)
    ||| lower_codes(name) == lower_codes("venv"@)
    ||| lower_codes(name) == lower_codes(".venv"@)
    ||| lower_codes(name) == lower_codes("env"@)
    ||| lower_codes(name) == lower_codes(".env"@)
    ||| lower_codes(name) == lower_codes("__pycache__"@)
    ||| lower_codes(name) == lower_codes(".pytest_cache"@)
    ||| lower_codes(name) == lower_codes("target"@)
    ||| lower_codes(name) == lower_codes("dist"@)
    ||| lower_codes(name) == lower_codes("build"@)
    ||| lower_codes(name) == lower_codes(".next"@)
    ||| lower_codes(name) == lower_codes(".nuxt"@)
    ||| lower_codes(name) == lower_codes(".cache"@)
    ||| lower_codes(name) == lower_codes(".idea"@)
    ||| lower_codes(name) == lower_codes(".vscode"@)
    ||| lower_codes(name) == lower_codes(".git"@)
    ||| lower_codes(name) == lower_codes(".svn"@)
    ||| lower_codes(name) == lower_codes(".hg"@)
    ||| lower_codes(name) == lower_codes(".DS_Store"@)
    ||| lower_codes(name) == lower_codes("vendor"@)
    ||| lower_codes(name) == lower_codes(".bundle"@)
    ||| lower_codes(name) == lower_codes(".sass-cache"@)
    ||| lower_codes(name) == lower_codes("coverage"@)
    ||| lower_codes(name) == lower_codes(".nyc_output"@)
    ||| lower_codes(name) == lower_codes(".gradle"@)
    ||| lower_codes(name) == lower_codes(".mvn"@)
    ||| lower_codes(name) == lower_codes("bin"@)
    ||| lower_codes(name) == lower_codes("obj"@)
    ||| lower_codes(name) == lower_codes(".vs"@)
}

fn matches_folded(lc: &Vec<u32>, lit: &str) -> (r: bool)
    ensures
        r == (lc@ == lower_codes(lit@)),
{
    let lv = lower_codes_of(lit);
    eq_codes(lc, &lv)
}

/// Whether `dir_name` is on the deny-list, ignoring ASCII case.
pub fn should_ignore_dir(dir_name: &str) -> (r: bool)
    ensures
        r == spec_ignored(dir_name@),
{
    let lc = lower_codes_of(dir_name);
    if matches_folded(&lc, "node_modules") {
        return true;
    }
    if matches_folded(&lc, "venv") {
        return true;
    }
    if matches_folded(&lc, ".venv") {
        return true;
    }
    if matches_folded(&lc, "env") {
        return true;
    }
    if matches_folded(&lc, ".env") {
        return true;
    }
    if matches_folded(&lc, "__pycache__") {
        return true;
    }
    if matches_folded(&lc, ".pytest_cache") {
        return true;
    }
    if matches_folded(&lc, "target") {
        return true;
    }
    if matches_folded(&lc, "dist") {
        return true;
    }
    if matches_folded(&lc, "build") {
        return true;
    }
    if matches_folded(&lc, ".next") {
        return true;
    }
    if matches_folded(&lc, ".nuxt") {
        return true;
    }
    if matches_folded(&lc, ".cache") {
        return true;
    }
    if matches_folded(&lc, ".idea") {
        return true;
    }
    if matches_folded(&lc, ".vscode") {
        return true;
    }
    if matches_folded(&lc, ".git") {
        return true;
    }
    if matches_folded(&lc, ".svn") {
        return true;
    }
    if matches_folded(&lc, ".hg") {
        return true;
    }
    if matches_folded(&lc, ".DS_Store") {
        return true;
    }
    if matches_folded(&lc, "vendor") {
        return true;
    }
    if matches_folded(&lc, ".bundle") {
        return true;
    }
    if matches_folded(&lc, ".sass-cache") {
        return true;
    }
    if matches_folded(&lc, "coverage") {
        return true;
    }
    if matches_folded(&lc, ".nyc_output") {
        return true;
    }
    if matches_folded(&lc, ".gradle") {
        return true;
    }
    if matches_folded(&lc, ".mvn") {
        return true;
    }
    if matches_folded(&lc, "bin") {
        return true;
    }
    if matches_folded(&lc, "obj") {
        return true;
    }
    if matches_folded(&lc, ".vs") {
        return true;
    }
    false
}

/// Why a candidate root was rejected.
#[derive(Clone, Copy, Debug, PartialEq, Eq, Structural)]
pub enum ScanError {
    NotFound,
    NotADirectory,
    CanonicalizationFailed,
}

/// Decides whether a candidate root may be scanned, from what the filesystem
/// reported about it: whether it exists, whether it is a directory, and its
/// canonical form when one could be resolved. On success the canonical path
/// is the one the scan is anchored to.
pub fn validate_directory_path(exists: bool, is_dir: bool, canonical: Option<String>) -> (r: Result<
    String,
    ScanError,
>)
    ensures
        !exists ==> r == Err::<String, ScanError>(ScanError::NotFound),
        exists && !is_dir ==> r == Err::<String, ScanError>(ScanError::NotADirectory),
        exists && is_dir && canonical is None ==> r == Err::<String, ScanError>(
            ScanError::CanonicalizationFailed,
        ),
        exists && is_dir && canonical is Some ==> r is Ok && r->Ok_0 == canonical->0,
{
    if !exists {
        Err(ScanError::NotFound)
    } else if !is_dir {
        Err(ScanError::NotADirectory)
    } else {
        match canonical {
            None => Err(ScanError::CanonicalizationFailed),
            Some(c) => Ok(c),
        }
    }
}

/// What the filesystem reported for one directory that the walk reached: the
/// directory's canonical path, when it could be resolved, and its raw
/// entries. A failed enumeration is recorded as no entries.
pub struct Listing {
    pub canonical: Option<String>,
    pub entries: Vec<ScanEntry>,
}

/// One raw directory entry, together with the listing of its contents when
/// the entry is a directory that the walk descended into.
pub struct ScanEntry {
    pub name: String,
    pub path: String,
    pub is_dir: bool,
    pub listing: Option<Listing>,
}

/// Mathematical shape of a `Listing`.
pub ghost struct ListingModel {
    pub canonical: Option<Seq<char>>,
    pub entries: Seq<EntryModel>,
}

/// Mathematical shape of a `ScanEntry`.
pub ghost struct EntryModel {
    pub name: Seq<char>,
    pub path: Seq<char>,
    pub is_dir: bool,
    pub listing: Option<ListingModel>,
}

pub open spec fn listing_model(l: Listing) -> ListingModel
    decreases l,
{
    ListingModel {
        canonical: match l.canonical {
            None => None,
            Some(c) => Some(c@),
        },
        entries: entries_model(l.entries@),
    }
}

pub open spec fn entries_model(s: Seq<ScanEntry>) -> Seq<EntryModel>
    decreases s,
{
    if s.len() == 0 {
        Seq::empty()
    } else {
        entries_model(s.drop_last()).push(entry_model(s.last()))
    }
}

pub open spec fn entry_model(e: ScanEntry) -> EntryModel
    decreases e,
{
    EntryModel {
        name: e.name@,
        path: e.path@,
        is_dir: e.is_dir,
        listing: match e.listing {
            None => None,
            Some(l) => Some(listing_model(l)),
        },
    }
}

pub proof fn lemma_entries_model_len(s: Seq<ScanEntry>)
    ensures
        entries_model(s).len() == s.len(),
    decreases s,
{
    if s.len() > 0 {
        lemma_entries_model_len(s.drop_last());
    }
}

pub proof fn lemma_entries_model_index(s: Seq<ScanEntry>, i: int)
    requires
        0 <= i < s.len(),
    ensures
        entries_model(s).len() == s.len(),
        entries_model(s)[i] == entry_model(s[i]),
    decreases s,
{
    lemma_entries_model_len(s);
    if i < s.len() - 1 {
        lemma_entries_model_index(s.drop_last(), i);
    } else {
        lemma_entries_model_len(s.drop_last());
    }
}

/// Whether an entry survives filtering: not hidden, and, for a directory,
/// not on the deny-list.
pub open spec fn spec_visible(e: EntryModel) -> bool {
    !spec_hidden(e.name) && !(e.is_dir && spec_ignored(e.name))
}

/// Whether a listing may contribute entries: its canonical path resolved and
/// lies within the root.
pub open spec fn spec_listing_admitted(l: ListingModel, root: Seq<char>) -> bool {
    l.canonical is Some && spec_within_root(l.canonical->0, root)
}

/// The nodes that a listing at the given depth contributes.
pub open spec fn spec_scan_listing(l: ListingModel, root: Seq<char>, depth: nat) -> Seq<NodeModel>
    decreases l,
{
    if depth >= MAX_DEPTH {
        Seq::empty()
    } else if !spec_listing_admitted(l, root) {
        Seq::empty()
    } else {
        spec_sort(spec_scan_entries(l.entries, root, depth))
    }
}

pub open spec fn spec_scan_entries(es: Seq<EntryModel>, root: Seq<char>, depth: nat) -> Seq<
    NodeModel,
>
    decreases es,
{
    if es.len() == 0 {
        Seq::empty()
    } else {
        let rest = spec_scan_entries(es.drop_last(), root, depth);
        if spec_visible(es.last()) {
            rest.push(spec_scan_entry(es.last(), root, depth))
        } else {
            rest
        }
    }
}

pub open spec fn spec_scan_entry(e: EntryModel, root: Seq<char>, depth: nat) -> NodeModel
    decreases e,
{
    NodeModel {
        name: e.name,
        path: e.path,
        is_dir: e.is_dir,
        children: if !e.is_dir {
            None
        } else {
            match e.listing {
                None => None,
                Some(sub) => {
                    let c = spec_scan_listing(sub, root, (depth + 1) as nat);
                    if c.len() == 0 {
                        None
                    } else {
                        Some(c)
                    }
                },
            }
        },
    }
}

/// Sort key of a node: directories rank before files, then the name with
/// ASCII case folded.
pub open spec fn node_key(n: NodeModel) -> Seq<u32> {
    seq![if n.is_dir { 0u32 } else { 1u32 }] + lower_codes(n.name)
}

/// The order of one scanned level: directories first, then files, each group
/// by name without regard to ASCII case.
pub open spec fn node_lt(a: NodeModel, b: NodeModel) -> bool {
    lex_lt(node_key(a), node_key(b))
}

/// Stable insertion into a sorted level, from the right.
pub open spec fn spec_insert(s: Seq<NodeModel>, x: NodeModel) -> Seq<NodeModel>
    decreases s.len(),
{
    if s.len() == 0 {
        seq![x]
    } else if node_lt(x, s.last()) {
        spec_insert(s.drop_last(), x).push(s.last())
    } else {
        s.push(x)
    }
}

/// Stable insertion sort of one scanned level.
pub open spec fn spec_sort(s: Seq<NodeModel>) -> Seq<NodeModel>
    decreases s.len(),
{
    if s.len() == 0 {
        Seq::empty()
    } else {
        spec_insert(spec_sort(s.drop_last()), s.last())
    }
}

/// A level in sorted order: no node belongs strictly before an earlier one.
pub open spec fn spec_sorted(s: Seq<NodeModel>) -> bool {
    forall|i: int, j: int| 0 <= i < j < s.len() ==> !node_lt(s[j], s[i])
}

proof fn lemma_node_lt_asym(a: NodeModel, b: NodeModel)
    requires
        node_lt(a, b),
    ensures
        !node_lt(b, a),
{
    if node_lt(b, a) {
        lemma_lex_trans(node_key(a), node_key(b), node_key(a));
        lemma_lex_irrefl(node_key(a));
    }
}

proof fn lemma_node_ge_trans(a: NodeModel, b: NodeModel, c: NodeModel)
    requires
        !node_lt(a, b),
        !node_lt(b, c),
    ensures
        !node_lt(a, c),
{
    if node_lt(a, c) {
        if lex_lt(node_key(b), node_key(a)) {
            lemma_lex_trans(node_key(b), node_key(a), node_key(c));
        } else {
            lemma_lex_total(node_key(a), node_key(b));
        }
    }
}

proof fn lemma_insert_props(s: Seq<NodeModel>, x: NodeModel)
    requires
        spec_sorted(s),
    ensures
        spec_sorted(spec_insert(s, x)),
        spec_insert(s, x).to_multiset() == s.to_multiset().insert(x),
        spec_insert(s, x).len() == s.len() + 1,
    decreases s.len(),
{
    broadcast use vstd::seq_lib::group_to_multiset_ensures;

    if s.len() == 0 {
        assert(spec_insert(s, x) =~= Seq::<NodeModel>::empty().push(x));
        assert(s.to_multiset() =~= Multiset::<NodeModel>::empty()) by {
            assert(forall|a: NodeModel| !s.contains(a));
        }
        assert(spec_insert(s, x).to_multiset() =~= s.to_multiset().insert(x));
    } else if node_lt(x, s.last()) {
        let rest = s.drop_last();
        assert(spec_sorted(rest));
        lemma_insert_props(rest, x);
        let ins = spec_insert(rest, x);
        let r = ins.push(s.last());
        assert(spec_insert(s, x) == r);
        assert(spec_sorted(r)) by {
            lemma_node_lt_asym(x, s.last());
            assert forall|i: int, j: int| 0 <= i < j < r.len() implies !node_lt(r[j], r[i]) by {
                if j < r.len() - 1 {
                    assert(!node_lt(ins[j], ins[i]));
                } else {
                    assert(r[j] == s.last());
                    let y = ins[i];
                    assert(ins.contains(y));
                    assert(ins.to_multiset().count(y) > 0);
                    if y == x {
                        assert(!node_lt(s.last(), y));
                    } else {
                        assert(rest.to_multiset().count(y) > 0);
                        assert(rest.contains(y));
                        let k = choose|k: int| 0 <= k < rest.len() && rest[k] == y;
                        assert(s[k] == y);
                        assert(!node_lt(s.last(), y));
                    }
                }
            }
        }
        assert(r.to_multiset() =~= s.to_multiset().insert(x)) by {
            assert(s =~= rest.push(s.last()));
            assert(s.to_multiset() == rest.to_multiset().insert(s.last()));
            assert(r.to_multiset() == ins.to_multiset().insert(s.last()));
            assert(ins.to_multiset() == rest.to_multiset().insert(x));
            assert(rest.to_multiset().insert(x).insert(s.last()) =~= rest.to_multiset().insert(
                s.last(),
            ).insert(x));
        }
    } else {
        let r = s.push(x);
        assert(spec_insert(s, x) == r);
        assert(spec_sorted(r)) by {
            assert forall|i: int, j: int| 0 <= i < j < r.len() implies !node_lt(r[j], r[i]) by {
                if j == r.len() - 1 {
                    if i < s.len() - 1 {
                        assert(!node_lt(s.last(), s[i]));
                        lemma_node_ge_trans(x, s.last(), s[i]);
                    }
                }
            }
        }
        assert(r.to_multiset() =~= s.to_multiset().insert(x));
    }
}

/// The sorted form of a level keeps exactly its nodes: sorting a level is a
/// permutation, and the result is in order.
pub proof fn lemma_sort_ensures(s: Seq<NodeModel>)
    ensures
        spec_sorted(spec_sort(s)),
        spec_sort(s).to_multiset() == s.to_multiset(),
        spec_sort(s).len() == s.len(),
    decreases s.len(),
{
    broadcast use vstd::seq_lib::group_to_multiset_ensures;

    if s.len() == 0 {
    } else {
        let rest = s.drop_last();
        lemma_sort_ensures(rest);
        lemma_insert_props(spec_sort(rest), s.last());
        assert(s =~= rest.push(s.last()));
        assert(s.to_multiset() == rest.to_multiset().insert(s.last()));
    }
}

fn key_of(n: &FileNode) -> (k: Vec<u32>)
    ensures
        k@ == node_key(node_model(*n)),
{
    let mut k: Vec<u32> = Vec::new();
    if n.is_dir {
        k.push(0);
    } else {
        k.push(1);
    }
    let mut lc = lower_codes_of(n.name.as_str());
    k.append(&mut lc);
    proof {
        assert(k@ =~= node_key(node_model(*n)));
    }
    k
}

fn node_lt_exec(a: &FileNode, b: &FileNode) -> (r: bool)
    ensures
        r == node_lt(node_model(*a), node_model(*b)),
{
    let ka = key_of(a);
    let kb = key_of(b);
    lt_codes(&ka, &kb)
}

proof fn lemma_nodes_model_drop_last(s: Seq<FileNode>)
    requires
        s.len() > 0,
    ensures
        nodes_model(s).drop_last() == nodes_model(s.drop_last()),
        nodes_model(s).last() == node_model(s.last()),
{
    assert(nodes_model(s) == nodes_model(s.drop_last()).push(node_model(s.last())));
    lemma_nodes_model_len(s.drop_last());
    assert(nodes_model(s.drop_last()).push(node_model(s.last())).drop_last() =~= nodes_model(
        s.drop_last(),
    ));
}

fn insert_node(v: Vec<FileNode>, x: FileNode) -> (r: Vec<FileNode>)
    ensures
        nodes_model(r@) == spec_insert(nodes_model(v@), node_model(x)),
    decreases v.len(),
{
    proof {
        lemma_nodes_model_len(v@);
    }
    if v.len() == 0 {
        let mut r = v;
        r.push(x);
        proof {
            assert(r@.drop_last() =~= v@);
            assert(nodes_model(r@) == nodes_model(v@).push(node_model(x)));
            assert(nodes_model(v@).push(node_model(x)) =~= seq![node_model(x)]);
        }
        r
    } else {
        let lt = node_lt_exec(&x, &v[v.len() - 1]);
        proof {
            lemma_nodes_model_drop_last(v@);
        }
        if lt {
            let ghost vm = nodes_model(v@);
            let mut v2 = v;
            let last = v2.pop().unwrap();
            let r0 = insert_node(v2, x);
            let mut r = r0;
            r.push(last);
            proof {
                assert(r@.drop_last() =~= r0@);
                assert(nodes_model(r@) == nodes_model(r0@).push(node_model(last)));
                assert(spec_insert(vm, node_model(x)) == spec_insert(
                    vm.drop_last(),
                    node_model(x),
                ).push(vm.last()));
            }
            r
        } else {
            let mut r = v;
            r.push(x);
            proof {
                assert(r@.drop_last() =~= v@);
            }
            r
        }
    }
}

/// Orders one level: directories before files, each group by name with ASCII
/// case folded, keeping ties in their given order.
pub fn sort_nodes(v: Vec<FileNode>) -> (r: Vec<FileNode>)
    ensures
        nodes_model(r@) == spec_sort(nodes_model(v@)),
    decreases v.len(),
{
    proof {
        lemma_nodes_model_len(v@);
    }
    if v.len() == 0 {
        return v;
    }
    let ghost vm = nodes_model(v@);
    proof {
        lemma_nodes_model_drop_last(v@);
    }
    let mut v2 = v;
    let x = v2.pop().unwrap();
    let s = sort_nodes(v2);
    let r = insert_node(s, x);
    proof {
        assert(spec_sort(vm) == spec_insert(spec_sort(vm.drop_last()), vm.last()));
    }
    r
}

/// Builds the visible tree of one listing snapshot taken at `depth` levels
/// below the root: filters hidden and ignored entries, refuses listings whose
/// canonical path escapes `root`, stops descending at the depth bound, and
/// orders the level.
pub fn scan_listing(l: &Listing, root: &str, depth: usize) -> (r: Vec<FileNode>)
    ensures
        nodes_model(r@) == spec_scan_listing(listing_model(*l), root@, depth as nat),
    decreases *l,
{
    if depth >= MAX_DEPTH {
        let r: Vec<FileNode> = Vec::new();
        return r;
    }
    let admitted = match &l.canonical {
        None => false,
        Some(c) => is_within_root(c.as_str(), root),
    };
    if !admitted {
        let r: Vec<FileNode> = Vec::new();
        return r;
    }
    let ghost em = entries_model(l.entries@);
    let mut out: Vec<FileNode> = Vec::new();
    let mut i: usize = 0;
    while i < l.entries.len()
        invariant
            i <= l.entries.len(),
            depth < MAX_DEPTH,
            nodes_model(out@) == spec_scan_entries(
                entries_model(l.entries@.take(i as int)),
                root@,
                depth as nat,
            ),
        decreases l.entries.len() - i,
    {
        let e = &l.entries[i];
        let ghost prev = entries_model(l.entries@.take(i as int));
        proof {
            assert(l.entries@.take(i + 1).drop_last() =~= l.entries@.take(i as int));
            assert(l.entries@.take(i + 1).last() == l.entries@[i as int]);
            assert(entries_model(l.entries@.take(i + 1)) == prev.push(
                entry_model(l.entries@[i as int]),
            ));
            lemma_entries_model_len(l.entries@.take(i as int));
            assert(prev.push(entry_model(l.entries@[i as int])).drop_last() =~= prev);
        }
        let hidden = is_hidden(e.name.as_str());
        let ignored = e.is_dir && should_ignore_dir(e.name.as_str());
        if !hidden && !ignored {
            let children: Option<Vec<FileNode>> = if e.is_dir {
                match &e.listing {
                    None => None,
                    Some(sub) => {
                        let c = scan_listing(sub, root, depth + 1);
                        proof {
                            lemma_nodes_model_len(c@);
                        }
                        if c.len() == 0 {
                            None
                        } else {
                            Some(c)
                        }
                    },
                }
            } else {
                None
            };
            let node = FileNode {
                name: e.name.clone(),
                path: e.path.clone(),
                is_dir: e.is_dir,
                children,
            };
            proof {
                assert(node_model(node) == spec_scan_entry(
                    entry_model(l.entries@[i as int]),
                    root@,
                    depth as nat,
                ));
            }
            let ghost before = out@;
            out.push(node);
            proof {
                assert(out@.drop_last() =~= before);
            }
        }
        i = i + 1;
    }
    proof {
        assert(l.entries@.take(l.entries@.len() as int) =~= l.entries@);
    }
    let r = sort_nodes(out);
    r
}

/// A listing whose canonical path is missing or lies outside the root
/// contributes nothing, at whatever depth it is met: its entries never
/// appear in a scanned tree.
pub proof fn lemma_escape_is_pruned(l: ListingModel, root: Seq<char>, depth: nat)
    requires
        !spec_listing_admitted(l, root),
    ensures
        spec_scan_listing(l, root, depth) == Seq::<NodeModel>::empty(),
{
}

/// The snapshot with everything behind escaped listings cut away: a listing
/// whose canonical path is missing or outside the root keeps no entries.
pub open spec fn spec_prune_listing(l: ListingModel, root: Seq<char>) -> ListingModel
    decreases l,
{
    ListingModel {
        canonical: l.canonical,
        entries: if !spec_listing_admitted(l, root) {
            Seq::empty()
        } else {
            spec_prune_entries(l.entries, root)
        },
    }
}

pub open spec fn spec_prune_entries(es: Seq<EntryModel>, root: Seq<char>) -> Seq<EntryModel>
    decreases es,
{
    if es.len() == 0 {
        Seq::empty()
    } else {
        spec_prune_entries(es.drop_last(), root).push(spec_prune_entry(es.last(), root))
    }
}

pub open spec fn spec_prune_entry(e: EntryModel, root: Seq<char>) -> EntryModel
    decreases e,
{
    EntryModel {
        name: e.name,
        path: e.path,
        is_dir: e.is_dir,
        listing: match e.listing {
            None => None,
            Some(l) => Some(spec_prune_listing(l, root)),
        },
    }
}

/// What lies behind an escaped listing never reaches the result: a scan of
/// the snapshot with all such content cut away yields exactly the same tree.
/// Whatever a symlink drags in from outside the root is not consulted.
pub proof fn lemma_escaped_content_irrelevant(l: ListingModel, root: Seq<char>, depth: nat)
    ensures
        spec_scan_listing(spec_prune_listing(l, root), root, depth) == spec_scan_listing(
            l,
            root,
            depth,
        ),
    decreases l,
{
    let p = spec_prune_listing(l, root);
    assert(spec_listing_admitted(p, root) == spec_listing_admitted(l, root));
    if depth < MAX_DEPTH && spec_listing_admitted(l, root) {
        lemma_prune_entries_scan(l.entries, root, depth);
    }
}

proof fn lemma_prune_entries_scan(es: Seq<EntryModel>, root: Seq<char>, depth: nat)
    ensures
        spec_scan_entries(spec_prune_entries(es, root), root, depth) == spec_scan_entries(
            es,
            root,
            depth,
        ),
    decreases es,
{
    if es.len() > 0 {
        lemma_prune_entries_scan(es.drop_last(), root, depth);
        let pe = spec_prune_entries(es, root);
        assert(pe.drop_last() =~= spec_prune_entries(es.drop_last(), root));
        assert(pe.last() == spec_prune_entry(es.last(), root));
        assert(spec_visible(spec_prune_entry(es.last(), root)) == spec_visible(es.last()));
        if spec_visible(es.last()) {
            lemma_prune_entry_scan(es.last(), root, depth);
        }
    }
}

proof fn lemma_prune_entry_scan(e: EntryModel, root: Seq<char>, depth: nat)
    ensures
        spec_scan_entry(spec_prune_entry(e, root), root, depth) == spec_scan_entry(e, root, depth),
    decreases e,
{
    match e.listing {
        None => {},
        Some(sub) => {
            lemma_escaped_content_irrelevant(sub, root, (depth + 1) as nat);
        },
    }
}

/// A visible directory entry whose own listing escaped the root, or could
/// not be taken, carries no children.
pub proof fn lemma_escaped_child_has_no_children(e: EntryModel, root: Seq<char>, depth: nat)
    requires
        e.listing is Some ==> !spec_listing_admitted(e.listing->0, root),
    ensures
        spec_scan_entry(e, root, depth).children is None,
{
}

/// A level whose entries are all hidden or ignored scans to an empty level,
/// not to an error.
pub proof fn lemma_ignored_level_empty(l: ListingModel, root: Seq<char>, depth: nat)
    requires
        forall|i: int| 0 <= i < l.entries.len() ==> !spec_visible(#[trigger] l.entries[i]),
    ensures
        spec_scan_listing(l, root, depth) == Seq::<NodeModel>::empty(),
{
    lemma_invisible_entries(l.entries, root, depth);
    if depth < MAX_DEPTH && spec_listing_admitted(l, root) {
        assert(spec_scan_listing(l, root, depth) == spec_sort(
            spec_scan_entries(l.entries, root, depth),
        ));
    }
}

proof fn lemma_invisible_entries(es: Seq<EntryModel>, root: Seq<char>, depth: nat)
    requires
        forall|i: int| 0 <= i < es.len() ==> !spec_visible(#[trigger] es[i]),
    ensures
        spec_scan_entries(es, root, depth) == Seq::<NodeModel>::empty(),
    decreases es,
{
    if es.len() > 0 {
        lemma_invisible_entries(es.drop_last(), root, depth);
    }
}

/// At the depth bound the scan yields nothing further: a listing met there
/// scans to an empty level.
pub proof fn lemma_depth_cutoff(l: ListingModel, root: Seq<char>, depth: nat)
    requires
        depth >= MAX_DEPTH,
    ensures
        spec_scan_listing(l, root, depth) == Seq::<NodeModel>::empty(),
{
}

/// One level above the depth bound, a directory entry keeps no children,
/// whatever lies below it on disk.
pub proof fn lemma_cutoff_no_descent(e: EntryModel, root: Seq<char>, depth: nat)
    requires
        depth + 1 >= MAX_DEPTH,
    ensures
        spec_scan_entry(e, root, depth).children is None,
{
}

/// Every scanned level is in order: directories before files, and within
/// each group names ascend without regard to ASCII case.
pub proof fn lemma_scan_level_sorted(l: ListingModel, root: Seq<char>, depth: nat)
    ensures
        spec_sorted(spec_scan_listing(l, root, depth)),
{
    if depth < MAX_DEPTH && spec_listing_admitted(l, root) {
        lemma_sort_ensures(spec_scan_entries(l.entries, root, depth));
    }
}

/// Height of one node: itself plus its tallest subtree.
pub open spec fn node_height(n: NodeModel) -> nat
    decreases n,
{
    match n.children {
        None => 1nat,
        Some(c) => 1 + nodes_height(c),
    }
}

/// Height of the tallest node of a level.
pub open spec fn nodes_height(s: Seq<NodeModel>) -> nat
    decreases s,
{
    if s.len() == 0 {
        0
    } else if node_height(s.last()) > nodes_height(s.drop_last()) {
        node_height(s.last())
    } else {
        nodes_height(s.drop_last())
    }
}

proof fn lemma_nodes_height_elem(s: Seq<NodeModel>, i: int)
    requires
        0 <= i < s.len(),
    ensures
        node_height(s[i]) <= nodes_height(s),
    decreases s,
{
    if i < s.len() - 1 {
        lemma_nodes_height_elem(s.drop_last(), i);
    }
}

proof fn lemma_nodes_height_bound(s: Seq<NodeModel>, h: nat)
    requires
        forall|i: int| 0 <= i < s.len() ==> node_height(#[trigger] s[i]) <= h,
    ensures
        nodes_height(s) <= h,
    decreases s,
{
    if s.len() > 0 {
        assert(forall|i: int|
            0 <= i < s.drop_last().len() ==> node_height(#[trigger] s.drop_last()[i]) <= h);
        lemma_nodes_height_bound(s.drop_last(), h);
    }
}

/// A scan never descends past the depth bound: the tree a listing yields at
/// `depth` levels below the root is at most `MAX_DEPTH - depth` levels tall,
/// however deep the snapshot itself goes.
pub proof fn lemma_scan_height_bounded(l: ListingModel, root: Seq<char>, depth: nat)
    ensures
        depth <= MAX_DEPTH ==> nodes_height(spec_scan_listing(l, root, depth)) <= MAX_DEPTH
            - depth,
        depth > MAX_DEPTH ==> nodes_height(spec_scan_listing(l, root, depth)) == 0,
    decreases l,
{
    broadcast use vstd::seq_lib::group_to_multiset_ensures;

    if depth >= MAX_DEPTH || !spec_listing_admitted(l, root) {
    } else {
        let un = spec_scan_entries(l.entries, root, depth);
        let so = spec_sort(un);
        lemma_scan_entries_height(l.entries, root, depth);
        lemma_sort_ensures(un);
        assert forall|i: int|
            0 <= i < so.len() implies node_height(#[trigger] so[i]) <= MAX_DEPTH - depth by {
            assert(so.contains(so[i]));
            assert(so.to_multiset().count(so[i]) > 0);
            assert(un.contains(so[i]));
            let j = choose|j: int| 0 <= j < un.len() && un[j] == so[i];
        }
        lemma_nodes_height_bound(so, (MAX_DEPTH - depth) as nat);
    }
}

proof fn lemma_scan_entries_height(es: Seq<EntryModel>, root: Seq<char>, depth: nat)
    requires
        depth < MAX_DEPTH,
    ensures
        forall|i: int|
            0 <= i < spec_scan_entries(es, root, depth).len() ==> node_height(
                #[trigger] spec_scan_entries(es, root, depth)[i],
            ) <= MAX_DEPTH - depth,
    decreases es,
{
    if es.len() > 0 {
        lemma_scan_entries_height(es.drop_last(), root, depth);
        let rest = spec_scan_entries(es.drop_last(), root, depth);
        let r = spec_scan_entries(es, root, depth);
        if spec_visible(es.last()) {
            let n = spec_scan_entry(es.last(), root, depth);
            assert(node_height(n) <= MAX_DEPTH - depth) by {
                match es.last().listing {
                    None => {},
                    Some(sub) => {
                        lemma_scan_height_bounded(sub, root, (depth + 1) as nat);
                    },
                }
            }
            assert(forall|i: int| 0 <= i < rest.len() ==> r[i] == rest[i]);
            assert(r[r.len() - 1] == n);
        } else {
            assert(r =~= rest);
        }
    }
}

/// A directory always belongs before a file, whatever the two are named.
pub proof fn lemma_directories_first(a: NodeModel, b: NodeModel)
    requires
        a.is_dir,
        !b.is_dir,
    ensures
        node_lt(a, b),
{
    assert(node_key(a)[0] == 0u32);
    assert(node_key(b)[0] == 1u32);
}

/// Between two directories, or two files, the order is exactly the
/// case-insensitive order of their names.
pub proof fn lemma_group_order_by_name(a: NodeModel, b: NodeModel)
    requires
        a.is_dir == b.is_dir,
    ensures
        node_lt(a, b) == ci_lt(a.name, b.name),
{
    assert(node_key(a)[0] == node_key(b)[0]);
    assert(node_key(a).len() > 0 && node_key(b).len() > 0);
    assert(node_key(a).drop_first() =~= lower_codes(a.name));
    assert(node_key(b).drop_first() =~= lower_codes(b.name));
}

} // verus!
