//! User preferences and the per-source selection history.
//!
//! The history maps a source key to the file paths last selected for it. It
//! holds at most a fixed number of entries, kept in ascending key order; a
//! save beyond the cap evicts entries from the front, the smallest keys
//! first, exactly as many as needed.

use vstd::prelude::*;

use crate::text::str_lt;
use crate::text::str_eq;
use crate::text::str_lt_exec;
use crate::text::lemma_lex_irrefl;
use crate::text::lemma_lex_trans;
use crate::text::codes;

verus! {

/// Most entries the selection history keeps.
pub const MAX_HISTORY: usize = 20;

/// User preferences, replaced as a whole on every save.
#[derive(Clone, Debug)]
pub struct SettingsData {
    pub dark_mode: bool,
    pub recent_sources: Vec<String>,
    pub last_folder: String,
}

impl Default for SettingsData {
    /// Dark mode on, no recent sources, no remembered folder.
    fn default() -> (s: Self)
        ensures
            s.dark_mode,
            s.recent_sources@.len() == 0,
            s.last_folder@.len() == 0,
    {
        SettingsData { dark_mode: true, recent_sources: Vec::new(), last_folder: String::new() }
    }
}

/// The file paths selected for one source.
#[derive(Clone, Debug)]
pub struct SourceSelection {
    pub files: Vec<String>,
}

/// One history entry: a source key and its selection.
pub struct HistoryEntry {
    pub source: String,
    pub selection: SourceSelection,
}

/// The selection history: at most `MAX_HISTORY` entries, in ascending key
/// order.
pub struct SelectionHistory {
    pub entries: Vec<HistoryEntry>,
}

/// Mathematical shape of the history: key and file paths of each entry, in
/// order.
pub open spec fn history_model(s: Seq<HistoryEntry>) -> Seq<(Seq<char>, Seq<Seq<char>>)> {
    s.map_values(|e: HistoryEntry| (e.source@, e.selection.files.deep_view()))
}

/// Insertion into a key-ordered history: before the first larger key, in
/// place of an equal one.
pub open spec fn spec_hist_insert(
    m: Seq<(Seq<char>, Seq<Seq<char>>)>,
    k: Seq<char>,
    v: Seq<Seq<char>>,
) -> Seq<(Seq<char>, Seq<Seq<char>>)>
    decreases m.len(),
{
    if m.len() == 0 {
        seq![(k, v)]
    } else if str_lt(k, m[0].0) {
        seq![(k, v)] + m
    } else if k == m[0].0 {
        seq![(k, v)] + m.drop_first()
    } else {
        seq![m[0]] + spec_hist_insert(m.drop_first(), k, v)
    }
}

/// The cap: when the history outgrows `MAX_HISTORY`, the front entries go,
/// as many as needed and no more.
pub open spec fn spec_hist_cap(m: Seq<(Seq<char>, Seq<Seq<char>>)>) -> Seq<
    (Seq<char>, Seq<Seq<char>>),
> {
    if m.len() > MAX_HISTORY {
        m.skip(m.len() - MAX_HISTORY)
    } else {
        m
    }
}

/// Keys strictly ascend.
pub open spec fn spec_hist_sorted(m: Seq<(Seq<char>, Seq<Seq<char>>)>) -> bool {
    forall|i: int, j: int| 0 <= i < j < m.len() ==> str_lt(m[i].0, m[j].0)
}

fn hist_insert_rec(v: Vec<HistoryEntry>, e: HistoryEntry) -> (r: Vec<HistoryEntry>)
    ensures
        history_model(r@) == spec_hist_insert(
            history_model(v@),
            e.source@,
            e.selection.files.deep_view(),
        ),
    decreases v.len(),
{
    let ghost m = history_model(v@);
    let ghost k = e.source@;
    if v.len() == 0 {
        let mut r = v;
        r.push(e);
        proof {
            assert(history_model(r@) =~= seq![(k, e.selection.files.deep_view())]);
        }
        r
    } else if str_lt_exec(e.source.as_str(), v[0].source.as_str()) {
        let mut r = v;
        r.insert(0, e);
        proof {
            assert(history_model(r@) =~= seq![(k, e.selection.files.deep_view())] + m);
        }
        r
    } else if str_eq(e.source.as_str(), v[0].source.as_str()) {
        let mut r = v;
        r.remove(0);
        r.insert(0, e);
        proof {
            assert(history_model(r@) =~= seq![(k, e.selection.files.deep_view())]
                + m.drop_first());
        }
        r
    } else {
        let mut v2 = v;
        let first = v2.remove(0);
        proof {
            assert(history_model(v2@) =~= m.drop_first());
        }
        let r0 = hist_insert_rec(v2, e);
        let mut r = r0;
        r.insert(0, first);
        proof {
            assert(history_model(r@) =~= seq![m[0]] + history_model(r0@));
        }
        r
    }
}

impl SelectionHistory {
    pub open spec fn model(&self) -> Seq<(Seq<char>, Seq<Seq<char>>)> {
        history_model(self.entries@)
    }

    /// An empty history.
    pub fn new() -> (h: SelectionHistory)
        ensures
            h.model() == Seq::<(Seq<char>, Seq<Seq<char>>)>::empty(),
    {
        let h = SelectionHistory { entries: Vec::new() };
        proof {
            assert(h.model() =~= Seq::<(Seq<char>, Seq<Seq<char>>)>::empty());
        }
        h
    }

    /// Replaces the selection stored for `source`, keeping keys in order and
    /// evicting the smallest keys once the cap is passed.
    pub fn save(self, source: &str, files: Vec<String>) -> (r: SelectionHistory)
        ensures
            r.model() == spec_hist_cap(
                spec_hist_insert(self.model(), source@, files.deep_view()),
            ),
    {
        let ghost m0 = self.model();
        let entry = HistoryEntry {
            source: source.to_owned(),
            selection: SourceSelection { files },
        };
        let ghost k = entry.source@;
        let ghost val = entry.selection.files.deep_view();
        let inserted = hist_insert_rec(self.entries, entry);
        let ghost mi = spec_hist_insert(m0, k, val);
        let mut out = inserted;
        while out.len() > MAX_HISTORY
        invariant
            spec_hist_cap(history_model(out@)) == spec_hist_cap(mi),
        decreases out.len(),
        {
            let ghost before = history_model(out@);
            out.remove(0);
            proof {
                assert(history_model(out@) =~= before.drop_first());
                assert(before.len() > MAX_HISTORY);
                assert(spec_hist_cap(before.drop_first()) =~= spec_hist_cap(before));
            }
        }
        let r = SelectionHistory { entries: out };
        proof {
            assert(r.model().len() <= MAX_HISTORY);
            assert(r.model() == spec_hist_cap(r.model()));
        }
        r
    }

    /// The files stored for `source`, when the history has the key.
    pub fn lookup(&self, source: &str) -> (r: Option<&Vec<String>>)
        ensures
            r is Some <==> exists|i: int|
                0 <= i < self.entries@.len() && self.entries@[i].source@ == source@,
            match r {
                Some(f) => exists|i: int|
                    0 <= i < self.entries@.len() && self.entries@[i].source@ == source@ && *f
                        == self.entries@[i].selection.files,
                None => true,
            },
    {
        let mut i: usize = 0;
        while i < self.entries.len()
            invariant
                i <= self.entries@.len(),
                forall|j: int| 0 <= j < i ==> self.entries@[j].source@ != source@,
            decreases self.entries@.len() - i,
        {
            if str_eq(self.entries[i].source.as_str(), source) {
                return Some(&self.entries[i].selection.files);
            }
            i = i + 1;
        }
        None
    }
}

proof fn lemma_str_lt_asym(a: Seq<char>, b: Seq<char>)
    requires
        str_lt(a, b),
    ensures
        !str_lt(b, a),
{
    if str_lt(b, a) {
        lemma_lex_trans(codes(a), codes(b), codes(a));
        lemma_lex_irrefl(codes(a));
    }
}

/// Inserting a fresh key grows the history by one entry; rewriting a present
/// key keeps its size. Entries are never lost to an insertion alone.
pub proof fn lemma_hist_insert_len(m: Seq<(Seq<char>, Seq<Seq<char>>)>, k: Seq<char>, v: Seq<
    Seq<char>,
>)
    requires
        spec_hist_sorted(m),
    ensures
        (exists|i: int| 0 <= i < m.len() && m[i].0 == k) ==> spec_hist_insert(m, k, v).len()
            == m.len(),
        !(exists|i: int| 0 <= i < m.len() && m[i].0 == k) ==> spec_hist_insert(m, k, v).len()
            == m.len() + 1,
    decreases m.len(),
{
    if m.len() == 0 {
    } else if str_lt(k, m[0].0) {
        if exists|i: int| 0 <= i < m.len() && m[i].0 == k {
            let i = choose|i: int| 0 <= i < m.len() && m[i].0 == k;
            if i == 0 {
                lemma_lex_irrefl(codes(k));
            } else {
                assert(str_lt(m[0].0, m[i].0));
                lemma_lex_trans(codes(k), codes(m[0].0), codes(k));
                lemma_lex_irrefl(codes(k));
            }
        }
    } else if k == m[0].0 {
        assert(m[0].0 == k);
    } else {
        let rest = m.drop_first();
        assert(spec_hist_sorted(rest)) by {
            assert(forall|i: int| 0 <= i < rest.len() ==> rest[i] == m[i + 1]);
        }
        lemma_hist_insert_len(rest, k, v);
        if exists|i: int| 0 <= i < m.len() && m[i].0 == k {
            let i = choose|i: int| 0 <= i < m.len() && m[i].0 == k;
            assert(i > 0);
            assert(rest[i - 1].0 == k);
        } else {
            assert forall|i: int| 0 <= i < rest.len() implies #[trigger] rest[i].0 != k by {
                assert(m[i + 1].0 == rest[i].0);
            }
        }
    }
}

/// Keys still strictly ascend after an insertion, and every key of the new
/// history is an old key or the inserted one.
pub proof fn lemma_hist_insert_sorted(m: Seq<(Seq<char>, Seq<Seq<char>>)>, k: Seq<char>, v: Seq<
    Seq<char>,
>)
    requires
        spec_hist_sorted(m),
    ensures
        spec_hist_sorted(spec_hist_insert(m, k, v)),
        forall|x: (Seq<char>, Seq<Seq<char>>)|
            spec_hist_insert(m, k, v).contains(x) ==> m.contains(x) || x == (k, v),
    decreases m.len(),
{
    let r = spec_hist_insert(m, k, v);
    if m.len() == 0 {
    } else if str_lt(k, m[0].0) {
        assert forall|i: int, j: int| 0 <= i < j < r.len() implies str_lt(r[i].0, r[j].0) by {
            if i == 0 {
                if j == 1 {
                    assert(r[j] == m[0]);
                } else {
                    assert(r[j] == m[j - 1]);
                    assert(str_lt(m[0].0, m[j - 1].0));
                    lemma_lex_trans(codes(k), codes(m[0].0), codes(m[j - 1].0));
                }
            } else {
                assert(r[i] == m[i - 1] && r[j] == m[j - 1]);
            }
        }
        assert forall|x: (Seq<char>, Seq<Seq<char>>)| r.contains(x) implies m.contains(x) || x
            == (k, v) by {
            let i = choose|i: int| 0 <= i < r.len() && r[i] == x;
            if i > 0 {
                assert(m[i - 1] == x);
            }
        }
    } else if k == m[0].0 {
        assert forall|i: int, j: int| 0 <= i < j < r.len() implies str_lt(r[i].0, r[j].0) by {
            if i == 0 {
                assert(r[j] == m.drop_first()[j - 1]);
                assert(r[j] == m[j]);
                assert(str_lt(m[0].0, m[j].0));
            } else {
                assert(r[i] == m[i] && r[j] == m[j]);
            }
        }
        assert forall|x: (Seq<char>, Seq<Seq<char>>)| r.contains(x) implies m.contains(x) || x
            == (k, v) by {
            let i = choose|i: int| 0 <= i < r.len() && r[i] == x;
            if i > 0 {
                assert(m[i] == x);
            }
        }
    } else {
        let rest = m.drop_first();
        assert(spec_hist_sorted(rest)) by {
            assert(forall|i: int| 0 <= i < rest.len() ==> rest[i] == m[i + 1]);
        }
        lemma_hist_insert_sorted(rest, k, v);
        let ri = spec_hist_insert(rest, k, v);
        assert(!str_lt(k, m[0].0) && k != m[0].0);
        assert forall|i: int, j: int| 0 <= i < j < r.len() implies str_lt(r[i].0, r[j].0) by {
            if i == 0 {
                assert(r[j] == ri[j - 1]);
                assert(ri.contains(ri[j - 1]));
                if ri[j - 1] == (k, v) {
                    lemma_str_total(k, m[0].0);
                } else {
                    assert(rest.contains(ri[j - 1]));
                    let t = choose|t: int| 0 <= t < rest.len() && rest[t] == ri[j - 1];
                    assert(rest[t] == m[t + 1]);
                    assert(str_lt(m[0].0, m[t + 1].0));
                }
            } else {
                assert(r[i] == ri[i - 1] && r[j] == ri[j - 1]);
            }
        }
        assert forall|x: (Seq<char>, Seq<Seq<char>>)| r.contains(x) implies m.contains(x) || x
            == (k, v) by {
            let i = choose|i: int| 0 <= i < r.len() && r[i] == x;
            if i == 0 {
                assert(m[0] == x);
            } else {
                assert(ri[i - 1] == x);
                assert(ri.contains(x));
                if x != (k, v) {
                    assert(rest.contains(x));
                    let t = choose|t: int| 0 <= t < rest.len() && rest[t] == x;
                    assert(m[t + 1] == x);
                }
            }
        }
    }
}

proof fn lemma_str_total(a: Seq<char>, b: Seq<char>)
    requires
        !str_lt(a, b),
        a != b,
    ensures
        str_lt(b, a),
{
    if !str_lt(b, a) {
        crate::text::lemma_lex_total(codes(a), codes(b));
        assert(codes(a).len() == a.len() && codes(b).len() == b.len());
        assert(a.len() == b.len());
        assert forall|i: int| 0 <= i < a.len() implies a[i] == b[i] by {
            assert(codes(a)[i] == a[i] as u32);
            assert(codes(b)[i] == b[i] as u32);
            crate::text::lemma_code_inj(a[i], b[i]);
        }
        assert(a =~= b);
    }
}

/// Saving a fresh key into a full history leaves it full: the new size is
/// the cap, and what goes is exactly the front entry of the grown, ordered
/// history, the smallest key.
pub proof fn lemma_cap_evicts_oldest(m: Seq<(Seq<char>, Seq<Seq<char>>)>, k: Seq<char>, v: Seq<
    Seq<char>,
>)
    requires
        spec_hist_sorted(m),
        m.len() == MAX_HISTORY,
        forall|i: int| 0 <= i < m.len() ==> m[i].0 != k,
    ensures
        spec_hist_cap(spec_hist_insert(m, k, v)).len() == MAX_HISTORY,
        spec_hist_cap(spec_hist_insert(m, k, v)) == spec_hist_insert(m, k, v).drop_first(),
        spec_hist_sorted(spec_hist_insert(m, k, v)),
{
    lemma_hist_insert_len(m, k, v);
    lemma_hist_insert_sorted(m, k, v);
    let ins = spec_hist_insert(m, k, v);
    assert(ins.len() == MAX_HISTORY + 1);
    assert(ins.skip(1) =~= ins.drop_first());
}

} // verus!
