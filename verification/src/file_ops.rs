//! Copying directory trees: what is to be copied, how far a copy has come, and
//! whether it is complete. The caller touches the files.

use crate::models::strings_view;
use crate::pathmap::PathMap;
use vstd::prelude::*;

verus! {

// ---------------------------------------------------------------------------
// Progress
// ---------------------------------------------------------------------------

/// The phase that a copy is in.
#[derive(Debug, Clone, Copy, PartialEq, Eq, Structural)]
pub enum CopyPhase {
    Preparing,
    Copying,
}

/// How far a copy has come.
#[derive(Debug, Clone, PartialEq, Eq)]
pub struct CopyProgress {
    pub phase: CopyPhase,
    pub completed_bytes: u64,
    pub total_bytes: Option<u64>,
    pub completed_files: u64,
    pub total_files: Option<u64>,
    pub current_path: Option<String>,
}

/// `done` of `total` in percent, at most 100.
pub open spec fn share(done: u64, total: u64) -> int {
    let hundred = if done * 100 > u64::MAX {
        u64::MAX as int
    } else {
        done * 100
    };
    if hundred / total as int > 100 {
        100
    } else {
        hundred / total as int
    }
}

/// `done` of `total` in percent.
fn share_of(done: u64, total: u64) -> (r: u8)
    requires
        total > 0,
    ensures
        r == share(done, total),
{
    let hundred: u64 = if done > u64::MAX / 100 {
        u64::MAX
    } else {
        done * 100
    };
    let p: u64 = hundred / total;
    if p > 100 {
        100
    } else {
        p as u8
    }
}

impl CopyProgress {
    /// How far the copy has come in percent: by bytes where their total is
    /// known, else by files, else by the phase.
    pub open spec fn spec_percent(&self) -> int {
        match (self.total_bytes, self.total_files) {
            (Some(t), _) if t > 0 => share(self.completed_bytes, t),
            (_, Some(t)) if t > 0 => share(self.completed_files, t),
            _ => if self.phase == CopyPhase::Copying {
                100
            } else {
                0
            },
        }
    }

    /// How far the copy has come in percent.
    pub fn percent(&self) -> (r: u8)
        ensures
            r == self.spec_percent(),
            r <= 100,
    {
        match self.total_bytes {
            Some(total) => if total > 0 {
                return share_of(self.completed_bytes, total);
            },
            None => {},
        }
        match self.total_files {
            Some(total) => if total > 0 {
                return share_of(self.completed_files, total);
            },
            None => {},
        }
        if self.phase == CopyPhase::Copying {
            100
        } else {
            0
        }
    }
}

/// How many files are copied at once, on a machine that can run `available`
/// threads at once: as many as asked for, else at most eight.
pub fn resolve_concurrency(override_: Option<usize>, available: usize) -> (r: usize)
    ensures
        r == match override_ {
            Some(n) => n,
            None => if available > 8 {
                8
            } else {
                available
            },
        },
{
    match override_ {
        Some(n) => n,
        None => if available > 8 {
            8
        } else {
            available
        },
    }
}

// ---------------------------------------------------------------------------
// Manifests
// ---------------------------------------------------------------------------

/// One file or directory below the root of a tree.
#[derive(Debug, Clone, PartialEq)]
pub struct ManifestEntry {
    pub rel_path: String,
    pub is_dir: bool,
    pub size: u64,
    /// Seconds since the epoch.
    pub mtime: i64,
    pub attrs: u32,
}

/// Model of a [`ManifestEntry`].
pub struct ManifestEntryView {
    pub rel_path: Seq<char>,
    pub is_dir: bool,
    pub size: u64,
    pub mtime: i64,
    pub attrs: u32,
}

impl View for ManifestEntry {
    type V = ManifestEntryView;

    open spec fn view(&self) -> ManifestEntryView {
        ManifestEntryView {
            rel_path: self.rel_path@,
            is_dir: self.is_dir,
            size: self.size,
            mtime: self.mtime,
            attrs: self.attrs,
        }
    }
}

/// The models of a sequence of entries.
pub open spec fn entries_view(s: Seq<ManifestEntry>) -> Seq<ManifestEntryView> {
    Seq::new(s.len(), |i: int| s[i]@)
}

/// What lies in a tree.
#[derive(Debug, Clone)]
pub struct Manifest {
    pub root: String,
    pub entries: Vec<ManifestEntry>,
}

/// What a copy read and what it wrote.
#[derive(Debug, Clone)]
pub struct CopyOutcome {
    pub copied_manifest: Manifest,
    pub dst_manifest: Manifest,
    pub total_bytes: u64,
    pub total_files: u64,
}

/// The last of the first `n` entries for the path `k`.
pub open spec fn entry_for_path(
    entries: Seq<ManifestEntryView>,
    k: Seq<char>,
    n: nat,
) -> Option<ManifestEntryView>
    decreases n,
{
    if n == 0 {
        None
    } else if entries[n - 1].rel_path == k {
        Some(entries[n - 1])
    } else {
        entry_for_path(entries, k, (n - 1) as nat)
    }
}

/// The trees differ at the path `k`: only one has it, or the kind or the size
/// is another.
pub open spec fn differ_at(
    a: Seq<ManifestEntryView>,
    b: Seq<ManifestEntryView>,
    k: Seq<char>,
) -> bool {
    match (entry_for_path(a, k, a.len()), entry_for_path(b, k, b.len())) {
        (Some(x), Some(y)) => x.is_dir != y.is_dir || x.size != y.size,
        (None, None) => false,
        _ => true,
    }
}

/// The trees are the same.
pub open spec fn same_tree(a: Seq<ManifestEntryView>, b: Seq<ManifestEntryView>) -> bool {
    forall|k: Seq<char>| !(#[trigger] differ_at(a, b, k))
}

/// `map` holds the place of the entry for each path.
spec fn places_ok(
    map: Map<Seq<char>, usize>,
    entries: Seq<ManifestEntryView>,
    n: nat,
) -> bool {
    forall|k: Seq<char>|
        #![trigger map.contains_key(k)]
        match entry_for_path(entries, k, n) {
            Some(e) => map.contains_key(k) && map[k] < n && entries[map[k] as int] == e,
            None => !map.contains_key(k),
        }
}

/// The place of the entry for each path.
fn index_entries(m: &Manifest) -> (r: PathMap<usize>)
    ensures
        r.wf(),
        places_ok(r@, entries_view(m.entries@), m.entries@.len()),
{
    let ghost all = entries_view(m.entries@);
    let mut map: PathMap<usize> = PathMap::new();
    let mut i: usize = 0;
    while i < m.entries.len()
        invariant
            i <= m.entries@.len(),
            all == entries_view(m.entries@),
            map.wf(),
            places_ok(map@, all, i as nat),
        decreases m.entries@.len() - i,
    {
        let ghost before = map@;
        map.insert(m.entries[i].rel_path.clone(), i);
        proof {
            assert(all[i as int].rel_path == m.entries@[i as int].rel_path@);
            assert forall|k: Seq<char>|
                #![trigger map@.contains_key(k)]
                match entry_for_path(all, k, (i + 1) as nat) {
                    Some(e) => map@.contains_key(k) && map@[k] < i + 1 && all[map@[k] as int] == e,
                    None => !map@.contains_key(k),
                } by {
                assert(before.contains_key(k) == before.contains_key(k));
            }
        }
        i += 1;
    }
    map
}

/// The paths at which two trees differ, each once.
pub fn diff_manifests(a: &Manifest, b: &Manifest) -> (r: Vec<String>)
    ensures
        strings_view(r@).no_duplicates(),
        forall|k: Seq<char>| #[trigger]
            strings_view(r@).contains(k) <==> differ_at(
                entries_view(a.entries@),
                entries_view(b.entries@),
                k,
            ),
        r@.len() == 0 <==> same_tree(entries_view(a.entries@), entries_view(b.entries@)),
{
    let ghost ea = entries_view(a.entries@);
    let ghost eb = entries_view(b.entries@);
    let ma = index_entries(a);
    let mb = index_entries(b);
    let mut out: Vec<String> = Vec::new();
    let ghost oa = ma.order();
    let ghost ob = mb.order();
    proof {
        ma.lemma_order();
        mb.lemma_order();
    }
    let na: usize = ma.len();
    let mut i: usize = 0;
    while i < na
        invariant
            ma.wf(),
            mb.wf(),
            ea == entries_view(a.entries@),
            eb == entries_view(b.entries@),
            places_ok(ma@, ea, ea.len()),
            places_ok(mb@, eb, eb.len()),
            oa == ma.order(),
            oa.no_duplicates(),
            na == oa.len(),
            i <= na,
            strings_view(out@).no_duplicates(),
            forall|k: Seq<char>| #[trigger]
                strings_view(out@).contains(k) <==> differ_at(ea, eb, k) && exists|j: int|
                    0 <= j < i && #[trigger] oa[j] == k,
        decreases na - i,
    {
        proof {
            ma.lemma_order();
            assert(ma@.contains_key(oa[i as int]));
        }
        let key: &String = ma.key_at(i);
        let x: usize = *ma.value_at(i);
        let ghost k0 = key@;
        let different: bool = match mb.get(key.as_str()) {
            Some(y) => {
                assert(mb@.contains_key(k0));
                assert(ea[x as int] == a.entries@[x as int]@);
                assert(eb[*y as int] == b.entries@[*y as int]@);
                a.entries[x].is_dir != b.entries[*y].is_dir || a.entries[x].size
                    != b.entries[*y].size
            },
            None => {
                assert(!mb@.contains_key(k0));
                true
            },
        };
        assert(different == differ_at(ea, eb, k0));
        let ghost before = strings_view(out@);
        if different {
            out.push(key.clone());
        }
        proof {
            let now = strings_view(out@);
            if different {
                assert(now =~= before.push(k0));
                if before.contains(k0) {
                    let j = choose|j: int| 0 <= j < i && #[trigger] oa[j] == k0;
                    assert(oa[j] == oa[i as int]);
                }
                lemma_push_new(before, k0);
            } else {
                assert(now =~= before);
            }
            assert forall|k: Seq<char>| #[trigger] now.contains(k) <==> differ_at(ea, eb, k)
                && exists|j: int| 0 <= j < i + 1 && #[trigger] oa[j] == k by {
                if before.contains(k) {
                    let j = choose|j: int| 0 <= j < i && #[trigger] oa[j] == k;
                    assert(0 <= j < i + 1 && oa[j] == k);
                }
                if k == k0 {
                    assert(oa[i as int] == k);
                }
                if differ_at(ea, eb, k) && exists|j: int| 0 <= j < i + 1 && #[trigger] oa[j] == k {
                    let j = choose|j: int| 0 <= j < i + 1 && #[trigger] oa[j] == k;
                    if j < i {
                        assert(before.contains(k));
                    }
                }
            }
        }
        i += 1;
    }
    proof {
        assert forall|k: Seq<char>| #[trigger] strings_view(out@).contains(k) <==> differ_at(
            ea,
            eb,
            k,
        ) && ma@.contains_key(k) by {
            if ma@.contains_key(k) {
                let j = choose|j: int| 0 <= j < oa.len() && #[trigger] oa[j] == k;
            }
        }
    }
    let nb: usize = mb.len();
    let mut n: usize = 0;
    while n < nb
        invariant
            ma.wf(),
            mb.wf(),
            places_ok(ma@, ea, ea.len()),
            places_ok(mb@, eb, eb.len()),
            ob == mb.order(),
            ob.no_duplicates(),
            nb == ob.len(),
            n <= nb,
            strings_view(out@).no_duplicates(),
            forall|k: Seq<char>| #[trigger]
                strings_view(out@).contains(k) <==> differ_at(ea, eb, k) && (ma@.contains_key(k)
                    || exists|j: int| 0 <= j < n && #[trigger] ob[j] == k),
        decreases nb - n,
    {
        proof {
            mb.lemma_order();
            assert(mb@.contains_key(ob[n as int]));
        }
        let key: &String = mb.key_at(n);
        let ghost k0 = key@;
        let ghost before = strings_view(out@);
        let missing: bool = !ma.contains_key(key.as_str());
        if missing {
            out.push(key.clone());
        }
        proof {
            let now = strings_view(out@);
            assert(ma@.contains_key(k0) || !ma@.contains_key(k0));
            if missing {
                assert(differ_at(ea, eb, k0));
                assert(now =~= before.push(k0));
                if before.contains(k0) {
                    let j = choose|j: int| 0 <= j < n && #[trigger] ob[j] == k0;
                    assert(ob[j] == ob[n as int]);
                }
                lemma_push_new(before, k0);
            } else {
                assert(now =~= before);
            }
            assert forall|k: Seq<char>| #[trigger] now.contains(k) <==> differ_at(ea, eb, k) && (
            ma@.contains_key(k) || exists|j: int| 0 <= j < n + 1 && #[trigger] ob[j] == k) by {
                if before.contains(k) && !ma@.contains_key(k) {
                    let j = choose|j: int| 0 <= j < n && #[trigger] ob[j] == k;
                    assert(0 <= j < n + 1 && ob[j] == k);
                }
                if k == k0 {
                    assert(ob[n as int] == k);
                }
                if differ_at(ea, eb, k) && !ma@.contains_key(k) && exists|j: int|
                    0 <= j < n + 1 && #[trigger] ob[j] == k {
                    let j = choose|j: int| 0 <= j < n + 1 && #[trigger] ob[j] == k;
                    if j < n {
                        assert(before.contains(k));
                    }
                }
            }
        }
        n += 1;
    }
    proof {
        let now = strings_view(out@);
        assert forall|k: Seq<char>| #[trigger] now.contains(k) <==> differ_at(ea, eb, k) by {
            assert(ma@.contains_key(k) || !ma@.contains_key(k));
            assert(mb@.contains_key(k) || !mb@.contains_key(k));
            if mb@.contains_key(k) {
                let j = choose|j: int| 0 <= j < ob.len() && #[trigger] ob[j] == k;
            }
        }
        if now.len() == 0 {
            assert forall|k: Seq<char>| !(#[trigger] differ_at(ea, eb, k)) by {
                assert(!now.contains(k));
            }
        } else {
            assert(now.contains(now[0]));
        }
    }
    out
}

/// A list stays free of duplicates, and keeps what it holds, where something
/// new is added.
proof fn lemma_push_new(s: Seq<Seq<char>>, x: Seq<char>)
    requires
        s.no_duplicates(),
        !s.contains(x),
    ensures
        s.push(x).no_duplicates(),
        forall|k: Seq<char>| #[trigger] s.push(x).contains(k) <==> s.contains(k) || k == x,
{
    let t = s.push(x);
    assert forall|k: Seq<char>| #[trigger] t.contains(k) <==> s.contains(k) || k == x by {
        if t.contains(k) {
            let i = choose|i: int| 0 <= i < t.len() && t[i] == k;
            if i < s.len() {
                assert(s[i] == k);
            }
        }
        if s.contains(k) {
            let i = choose|i: int| 0 <= i < s.len() && s[i] == k;
            assert(t[i] == k);
        }
        if k == x {
            assert(t[s.len() as int] == k);
        }
    }
    assert forall|i: int, j: int| 0 <= i < t.len() && 0 <= j < t.len() && i != j implies t[i]
        != t[j] by {
        if t[i] == t[j] {
            if i == s.len() {
                assert(s[j] == x);
            }
            if j == s.len() {
                assert(s[i] == x);
            }
        }
    }
}

// ---------------------------------------------------------------------------
// Laws
// ---------------------------------------------------------------------------

/// To be the same tree is an equivalence: the order in which two trees are
/// compared does not matter, and a copy of a copy passes like a copy.
pub proof fn law_same_tree_is_an_equivalence(
    a: Seq<ManifestEntryView>,
    b: Seq<ManifestEntryView>,
    c: Seq<ManifestEntryView>,
)
    ensures
        same_tree(a, a),
        same_tree(a, b) ==> same_tree(b, a),
        same_tree(a, b) && same_tree(b, c) ==> same_tree(a, c),
{
    if same_tree(a, b) {
        assert forall|k: Seq<char>| !(#[trigger] differ_at(b, a, k)) by {
            assert(!differ_at(a, b, k));
        }
        if same_tree(b, c) {
            assert forall|k: Seq<char>| !(#[trigger] differ_at(a, c, k)) by {
                assert(!differ_at(a, b, k));
                assert(!differ_at(b, c, k));
            }
        }
    }
}

/// A percentage never goes back while more gets done.
pub proof fn law_progress_never_goes_back(before: u64, after: u64, total: u64)
    requires
        before <= after,
        total > 0,
    ensures
        share(before, total) <= share(after, total),
{
    let a = if before * 100 > u64::MAX {
        u64::MAX as int
    } else {
        before * 100
    };
    let b = if after * 100 > u64::MAX {
        u64::MAX as int
    } else {
        after * 100
    };
    assert(a / total as int <= b / total as int) by (nonlinear_arith)
        requires
            0 <= a <= b,
            total > 0,
    ;
}

} // verus!
