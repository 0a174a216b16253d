//! The tree that is shown, page by page.

use crate::error::AppError;
use crate::models::{
    strings_view, tree_nodes_view, ChildPage, ChildPageView, RevealLevel, RevealLevelView,
    RootFileSummary, ScanSource, TreeNode, TreeNodeView,
};
use crate::pathmap::PathMap;
use crate::paths::{normalize, normalized};
use crate::text::str_eq;
use super::tree_model::{count32, low32};
use vstd::prelude::*;
use vstd::string::*;

verus! {

/// A finished scan. Directories are filed under the normal form of their path.
pub struct TreeStore {
    pub scan_id: String,
    pub source: ScanSource,
    pub root_file_summary: RootFileSummary,
    pub nodes: PathMap<TreeNode>,
    pub children: PathMap<Vec<String>>,
    pub parent: PathMap<String>,
    pub roots: Vec<String>,
    pub filtered_root_count: u32,
    pub recommended: Vec<String>,
}

/// Model of a [`TreeStore`].
pub struct TreeStoreView {
    pub scan_id: Seq<char>,
    pub source: ScanSource,
    pub root_file_summary: RootFileSummary,
    pub nodes: Map<Seq<char>, TreeNodeView>,
    pub children: Map<Seq<char>, Seq<Seq<char>>>,
    pub parent: Map<Seq<char>, Seq<char>>,
    pub roots: Seq<Seq<char>>,
    pub filtered_root_count: u32,
    pub recommended: Seq<Seq<char>>,
}

/// The models of the nodes in a map.
pub open spec fn tree_map_view(m: Map<Seq<char>, TreeNode>) -> Map<Seq<char>, TreeNodeView> {
    Map::new(|k: Seq<char>| m.contains_key(k), |k: Seq<char>| m[k]@)
}

/// The texts of the lists in a map.
pub open spec fn list_map_view(m: Map<Seq<char>, Vec<String>>) -> Map<Seq<char>, Seq<Seq<char>>> {
    Map::new(|k: Seq<char>| m.contains_key(k), |k: Seq<char>| strings_view(m[k]@))
}

/// The texts in a map.
pub open spec fn text_map_view(m: Map<Seq<char>, String>) -> Map<Seq<char>, Seq<char>> {
    Map::new(|k: Seq<char>| m.contains_key(k), |k: Seq<char>| m[k]@)
}

impl View for TreeStore {
    type V = TreeStoreView;

    open spec fn view(&self) -> TreeStoreView {
        TreeStoreView {
            scan_id: self.scan_id@,
            source: self.source,
            root_file_summary: self.root_file_summary,
            nodes: tree_map_view(self.nodes@),
            children: list_map_view(self.children@),
            parent: text_map_view(self.parent@),
            roots: strings_view(self.roots@),
            filtered_root_count: self.filtered_root_count,
            recommended: strings_view(self.recommended@),
        }
    }
}

// ---------------------------------------------------------------------------
// Model: pages
// ---------------------------------------------------------------------------

/// The nodes filed under the first `n` keys, as far as there are any.
pub open spec fn filed_nodes(
    nodes: Map<Seq<char>, TreeNodeView>,
    keys: Seq<Seq<char>>,
    n: nat,
) -> Seq<TreeNodeView>
    decreases n,
{
    if n == 0 {
        Seq::empty()
    } else {
        let before = filed_nodes(nodes, keys, (n - 1) as nat);
        if nodes.contains_key(keys[n - 1]) {
            before.push(nodes[keys[n - 1]])
        } else {
            before
        }
    }
}

/// The children filed under `key`.
pub open spec fn listed(s: TreeStoreView, key: Seq<char>) -> Seq<Seq<char>> {
    if s.children.contains_key(key) {
        s.children[key]
    } else {
        Seq::empty()
    }
}

/// The number of items on a page: at least one, at most five hundred.
pub open spec fn page_size(limit: u32) -> int {
    if limit < 1 {
        1
    } else if limit > 500 {
        500
    } else {
        limit as int
    }
}

/// Where the page that starts at `offset` ends.
pub open spec fn page_end(total: u32, offset: u32, limit: u32) -> int {
    if offset + page_size(limit) < total {
        offset + page_size(limit)
    } else {
        total as int
    }
}

/// The page of the list `all` that starts at `offset`.
pub open spec fn page_of(
    nodes: Map<Seq<char>, TreeNodeView>,
    all: Seq<Seq<char>>,
    offset: u32,
    limit: u32,
) -> ChildPageView {
    let total = low32(all.len());
    if offset >= total {
        ChildPageView { items: Seq::empty(), total, next_offset: None }
    } else {
        let end = page_end(total, offset, limit);
        ChildPageView {
            items: filed_nodes(nodes, all.subrange(offset as int, end), (end - offset) as nat),
            total,
            next_offset: if end < total {
                Some(end as u32)
            } else {
                None
            },
        }
    }
}

/// The page of the children of the directory `path`.
pub open spec fn children_page_of(
    s: TreeStoreView,
    path: Seq<char>,
    offset: u32,
    limit: u32,
) -> ChildPageView {
    page_of(s.nodes, listed(s, normalized(path)), offset, limit)
}

// ---------------------------------------------------------------------------
// Model: the way down to a directory
// ---------------------------------------------------------------------------

/// The parent of `key`, if it is shown, another directory, and not the root:
/// the root is no level of its own, only the parent of the first one.
pub open spec fn climb(s: TreeStoreView, key: Seq<char>) -> Option<Seq<char>> {
    if s.parent.contains_key(key) && s.parent[key] != key && s.parent[key] != normalized(
        root_display(),
    ) && s.nodes.contains_key(s.parent[key]) {
        Some(s.parent[key])
    } else {
        None
    }
}

/// Climbing from `key` comes to an end after `n` steps.
pub open spec fn ends_after(s: TreeStoreView, key: Seq<char>, n: nat) -> bool
    decreases n,
{
    if n == 0 {
        climb(s, key) is None
    } else {
        climb(s, key) is Some && ends_after(s, climb(s, key)->0, (n - 1) as nat)
    }
}

/// The directories passed while climbing `n` steps from `key`, topmost first.
pub open spec fn way_down(s: TreeStoreView, key: Seq<char>, n: nat) -> Seq<Seq<char>>
    decreases n,
{
    if n == 0 {
        seq![key]
    } else {
        way_down(s, climb(s, key)->0, (n - 1) as nat).push(key)
    }
}

/// The text under which the root directory is shown.
pub open spec fn root_display() -> Seq<char> {
    "c:\\"@
}

/// The place of the first `key` among the first `n` items, or 0.
pub open spec fn place_of(all: Seq<Seq<char>>, key: Seq<char>, n: nat) -> int
    decreases n,
{
    if n == 0 {
        0
    } else if exists|j: int| 0 <= j < n - 1 && all[j] == key {
        place_of(all, key, (n - 1) as nat)
    } else if all[n - 1] == key {
        n - 1
    } else {
        0
    }
}

/// Level `i` of the way down: the page of the parent's children on which the
/// directory lies.
pub open spec fn level_at(s: TreeStoreView, way: Seq<Seq<char>>, i: int, limit: u32) -> RevealLevelView {
    let parent_key = if i == 0 {
        normalized(root_display())
    } else {
        way[i - 1]
    };
    let shown = if i == 0 {
        root_display()
    } else if s.nodes.contains_key(way[i - 1]) {
        s.nodes[way[i - 1]].path
    } else {
        way[i - 1]
    };
    let all = listed(s, parent_key);
    let place = low32(place_of(all, way[i], all.len()) as nat);
    RevealLevelView {
        parent_path: shown,
        page: children_page_of(
            s,
            shown,
            ((place as int / page_size(limit)) * page_size(limit)) as u32,
            limit,
        ),
    }
}

/// The models of a sequence of levels.
pub open spec fn levels_view(levels: Seq<RevealLevel>) -> Seq<RevealLevelView> {
    Seq::new(levels.len(), |i: int| levels[i]@)
}

/// The levels of the way down.
pub open spec fn levels_of(s: TreeStoreView, way: Seq<Seq<char>>, limit: u32) -> Seq<
    RevealLevelView,
> {
    Seq::new(way.len(), |i: int| level_at(s, way, i, limit))
}

/// `r` holds the pages that lead down to the directory `path`, or says that the
/// tree lacks it or that climbing from it comes to no end.
pub open spec fn is_revealed(
    s: TreeStoreView,
    path: Seq<char>,
    limit: u32,
    r: Result<Vec<RevealLevel>, AppError>,
) -> bool {
    let key = normalized(path);
    match r {
        Ok(levels) => s.nodes.contains_key(key) && exists|n: nat| #[trigger]
            ends_after(s, key, n) && levels_view(levels@) == levels_of(
                s,
                way_down(s, key, n),
                limit,
            ),
        Err(e) => if !s.nodes.contains_key(key) {
            e matches AppError::Store(m) && m@ == "reveal 目标不存在: "@ + path
        } else {
            &&& forall|n: nat| !ends_after(s, key, n)
            &&& e matches AppError::Store(m) && m@ == "reveal 父链成环: "@ + path
        },
    }
}

// ---------------------------------------------------------------------------
// Executable
// ---------------------------------------------------------------------------

impl TreeStore {
    /// The maps inside the store are in order.
    pub open spec fn wf(&self) -> bool {
        self.nodes.wf() && self.children.wf() && self.parent.wf()
    }

    /// Puts a store together.
    pub fn from_parts(
        scan_id: String,
        source: ScanSource,
        root_file_summary: RootFileSummary,
        nodes: PathMap<TreeNode>,
        children: PathMap<Vec<String>>,
        parent: PathMap<String>,
        roots: Vec<String>,
        filtered_root_count: u32,
        recommended: Vec<String>,
    ) -> (r: Self)
        requires
            nodes.wf(),
            children.wf(),
            parent.wf(),
        ensures
            r.wf(),
            r@ == (TreeStoreView {
                scan_id: scan_id@,
                source,
                root_file_summary,
                nodes: tree_map_view(nodes@),
                children: list_map_view(children@),
                parent: text_map_view(parent@),
                roots: strings_view(roots@),
                filtered_root_count,
                recommended: strings_view(recommended@),
            }),
    {
        TreeStore {
            scan_id,
            source,
            root_file_summary,
            nodes,
            children,
            parent,
            roots,
            filtered_root_count,
            recommended,
        }
    }

    pub fn scan_id(&self) -> (r: &str)
        ensures
            r@ == self@.scan_id,
    {
        self.scan_id.as_str()
    }

    pub fn source(&self) -> (r: ScanSource)
        ensures
            r == self@.source,
    {
        self.source
    }

    pub fn root_file_summary(&self) -> (r: &RootFileSummary)
        ensures
            *r == self@.root_file_summary,
    {
        &self.root_file_summary
    }

    pub fn filtered_root_count(&self) -> (r: u32)
        ensures
            r == self@.filtered_root_count,
    {
        self.filtered_root_count
    }

    /// Copies of the nodes filed under `keys[from..to]`.
    fn collect(&self, keys: &Vec<String>, from: usize, to: usize) -> (r: Vec<TreeNode>)
        requires
            self.wf(),
            from <= to <= keys@.len(),
        ensures
            tree_nodes_view(r@) == filed_nodes(
                self@.nodes,
                strings_view(keys@).subrange(from as int, to as int),
                (to - from) as nat,
            ),
    {
        let ghost all = strings_view(keys@).subrange(from as int, to as int);
        let mut out: Vec<TreeNode> = Vec::new();
        let mut i: usize = from;
        assert(tree_nodes_view(out@) =~= Seq::<TreeNodeView>::empty());
        while i < to
            invariant
                self.wf(),
                from <= i <= to <= keys@.len(),
                all == strings_view(keys@).subrange(from as int, to as int),
                tree_nodes_view(out@) == filed_nodes(self@.nodes, all, (i - from) as nat),
            decreases to - i,
        {
            let ghost before = tree_nodes_view(out@);
            assert(all[i - from] == keys@[i as int]@);
            match self.nodes.get(keys[i].as_str()) {
                Some(node) => {
                    out.push(node.copy());
                    assert(tree_nodes_view(out@) =~= before.push(self@.nodes[all[i - from]]));
                },
                None => {},
            }
            i += 1;
        }
        out
    }

    /// The directories directly below the root.
    pub fn roots(&self) -> (r: Vec<TreeNode>)
        requires
            self.wf(),
        ensures
            tree_nodes_view(r@) == filed_nodes(self@.nodes, self@.roots, self@.roots.len()),
    {
        assert(self@.roots.subrange(0, self@.roots.len() as int) =~= self@.roots);
        self.collect(&self.roots, 0, self.roots.len())
    }

    /// The directory with the given path.
    pub fn node(&self, path: &str) -> (r: Option<&TreeNode>)
        requires
            self.wf(),
        ensures
            match r {
                Some(n) => self@.nodes.contains_key(normalized(path@)) && n@
                    == self@.nodes[normalized(path@)],
                None => !self@.nodes.contains_key(normalized(path@)),
            },
    {
        self.nodes.get(normalize(path).as_str())
    }

    /// One page of the children of a directory.
    pub fn children_page(&self, path: &str, offset: u32, limit: u32) -> (r: ChildPage)
        requires
            self.wf(),
        ensures
            r@ == children_page_of(self@, path@, offset, limit),
    {
        let size: u32 = if limit < 1 {
            1
        } else if limit > 500 {
            500
        } else {
            limit
        };
        let key: String = normalize(path);
        match self.children.get(key.as_str()) {
            Some(all) => {
                assert(listed(self@, key@) == strings_view(all@));
                let total: u32 = count32(all.len());
                if offset >= total {
                    let page = ChildPage { items: Vec::new(), total, next_offset: None };
                    assert(page@.items =~= Seq::<TreeNodeView>::empty());
                    return page;
                }
                let end: u32 = if total - offset <= size {
                    total
                } else {
                    offset + size
                };
                let items = self.collect(all, offset as usize, end as usize);
                let next_offset: Option<u32> = if end < total {
                    Some(end)
                } else {
                    None
                };
                ChildPage { items, total, next_offset }
            },
            None => {
                let page = ChildPage { items: Vec::new(), total: 0, next_offset: None };
                assert(page@.items =~= Seq::<TreeNodeView>::empty());
                page
            },
        }
    }

    /// The directories that are worth migrating.
    pub fn recommended(&self) -> (r: Vec<TreeNode>)
        requires
            self.wf(),
        ensures
            tree_nodes_view(r@) == filed_nodes(
                self@.nodes,
                self@.recommended,
                self@.recommended.len(),
            ),
    {
        assert(self@.recommended.subrange(0, self@.recommended.len() as int)
            =~= self@.recommended);
        self.collect(&self.recommended, 0, self.recommended.len())
    }

    /// The parent of `key`, if it is shown, another directory, and not the root.
    fn step_up(&self, key: &str, root_key: &str) -> (r: Option<&String>)
        requires
            self.wf(),
            root_key@ == normalized(root_display()),
        ensures
            match r {
                Some(p) => climb(self@, key@) == Some(p@),
                None => climb(self@, key@) is None,
            },
    {
        match self.parent.get(key) {
            Some(p) => if str_eq(p.as_str(), key) || str_eq(p.as_str(), root_key)
                || !self.nodes.contains_key(p.as_str()) {
                None
            } else {
                Some(p)
            },
            None => None,
        }
    }

    /// The directories on the way down to `target`, topmost first; nothing
    /// where the way up from it runs in a circle.
    fn find_way(&self, target: String, root_key: &str) -> (r: Option<Vec<String>>)
        requires
            self.wf(),
            root_key@ == normalized(root_display()),
            self@.nodes.contains_key(target@),
        ensures
            match r {
                Some(way) => exists|n: nat| #[trigger]
                    ends_after(self@, target@, n) && strings_view(way@) == way_down(
                        self@,
                        target@,
                        n,
                    ),
                None => forall|n: nat| !ends_after(self@, target@, n),
            },
    {
        let ghost s = self@;
        let mut up: Vec<String> = Vec::new();
        let mut cur: String = target.clone();
        up.push(target);
        let bound: usize = self.nodes.len();
        let ghost mut n: nat = 0;
        let ghost key = cur@;
        loop
            invariant_except_break
                self.wf(),
                root_key@ == normalized(root_display()),
                s == self@,
                key == target@,
                s.nodes.contains_key(key),
                bound == self.nodes.order().len(),
                up@.len() == n + 1,
                n <= bound,
                climbed(s, key, n) == Some(cur@),
                forall|i: int|
                    0 <= i <= n ==> climbed(s, key, i as nat) == Some((#[trigger] up@[i])@),
            ensures
                self.wf(),
                s == self@,
                up@.len() == n + 1,
                climbed(s, key, n) == Some(cur@),
                climb(s, cur@) is None,
                forall|i: int|
                    0 <= i <= n ==> climbed(s, key, i as nat) == Some((#[trigger] up@[i])@),
            decreases bound + 1 - n,
        {
            match self.step_up(cur.as_str(), root_key) {
                Some(p) => {
                    if up.len() > bound {
                        proof {
                            assert forall|m: nat| !ends_after(s, key, m) by {
                                if ends_after(s, key, m) {
                                    lemma_climb_bound(&self.nodes, s, key, m);
                                    lemma_ends_climbed(s, key, m);
                                    lemma_ends_at(s, key, m, n);
                                }
                            }
                        }
                        return None;
                    }
                    cur = p.clone();
                    up.push(p.clone());
                    proof {
                        n = n + 1;
                    }
                },
                None => {
                    break ;
                },
            }
        }
        proof {
            lemma_climbed_ends(s, key, n);
        }
        let mut way: Vec<String> = Vec::new();
        let mut i: usize = up.len();
        while i > 0
            invariant
                i <= up@.len(),
                way@.len() == up@.len() - i,
                forall|j: int| 0 <= j < way@.len() ==> (#[trigger] way@[j])@ == up@[up@.len() - 1
                    - j]@,
            decreases i,
        {
            i -= 1;
            way.push(up[i].clone());
        }
        proof {
            lemma_way_down(s, key, n);
            assert forall|j: int| 0 <= j <= n implies strings_view(way@)[j] == way_down(
                s,
                key,
                n,
            )[j] by {
                assert(climbed(s, key, (n - j) as nat) == Some(up@[n - j]@));
            }
            assert(strings_view(way@) =~= way_down(s, key, n));
        }
        Some(way)
    }

    /// The place of `key` in the list, or 0.
    fn find_place(all: &Vec<String>, key: &str) -> (r: usize)
        ensures
            r == place_of(strings_view(all@), key@, all@.len()),
            r < all@.len() || r == 0,
    {
        let ghost texts = strings_view(all@);
        let mut i: usize = 0;
        while i < all.len()
            invariant
                i <= all@.len(),
                texts == strings_view(all@),
                forall|j: int| 0 <= j < i ==> texts[j] != key@,
            decreases all@.len() - i,
        {
            assert(texts[i as int] == all@[i as int]@);
            if str_eq(all[i].as_str(), key) {
                proof {
                    lemma_place_found(texts, key@, i as int, all@.len());
                }
                return i;
            }
            i += 1;
        }
        proof {
            lemma_place_missing(texts, key@, all@.len());
        }
        0
    }

    /// The pages that lead down to a directory, one for each level.
    pub fn reveal_pages(&self, path: &str, limit: u32) -> (r: Result<Vec<RevealLevel>, AppError>)
        requires
            self.wf(),
        ensures
            is_revealed(self@, path@, limit, r),
    {
        let target: String = normalize(path);
        if !self.nodes.contains_key(target.as_str()) {
            let mut m = String::from_str("reveal 目标不存在: ");
            m.append(path);
            return Err(AppError::Store(m));
        }
        let ghost key = target@;
        let ghost s = self@;
        let root_text: &str = "c:\\";
        let root_key: String = normalize(root_text);
        let way: Vec<String> = match self.find_way(target, root_key.as_str()) {
            Some(w) => w,
            None => {
                let mut m = String::from_str("reveal 父链成环: ");
                m.append(path);
                return Err(AppError::Store(m));
            },
        };
        let ghost texts = strings_view(way@);
        let size: u32 = if limit < 1 {
            1
        } else if limit > 500 {
            500
        } else {
            limit
        };
        let mut levels: Vec<RevealLevel> = Vec::new();
        let mut i: usize = 0;
        while i < way.len()
            invariant
                self.wf(),
                s == self@,
                i <= way@.len(),
                texts == strings_view(way@),
                root_text@ == root_display(),
                root_key@ == normalized(root_display()),
                size == page_size(limit),
                levels@.len() == i,
                forall|j: int|
                    0 <= j < i ==> (#[trigger] levels@[j])@ == level_at(s, texts, j, limit),
            decreases way@.len() - i,
        {
            assert(texts[i as int] == way@[i as int]@);
            let (parent_key, shown): (&str, &str) = if i == 0 {
                (root_key.as_str(), root_text)
            } else {
                assert(texts[i - 1] == way@[i - 1]@);
                let up: &str = way[i - 1].as_str();
                match self.nodes.get(up) {
                    Some(node) => (up, node.path.as_str()),
                    None => (up, up),
                }
            };
            let place: usize = match self.children.get(parent_key) {
                Some(all) => {
                    assert(listed(s, parent_key@) == strings_view(all@));
                    Self::find_place(all, way[i].as_str())
                },
                None => {
                    proof {
                        lemma_place_missing(Seq::empty(), texts[i as int], 0);
                    }
                    0
                },
            };
            let idx: u32 = count32(place);
            proof {
                vstd::arithmetic::div_mod::lemma_fundamental_div_mod(idx as int, size as int);
                assert((idx as int / size as int) * size as int == size as int * (idx as int
                    / size as int)) by (nonlinear_arith);
                assert(0 <= (idx as int / size as int) * size as int <= idx);
            }
            let page_offset: u32 = (idx / size) * size;
            let page = self.children_page(shown, page_offset, limit);
            levels.push(RevealLevel { parent_path: String::from_str(shown), page });
            i += 1;
        }
        assert(levels_view(levels@) =~= levels_of(s, texts, limit));
        Ok(levels)
    }
}

// ---------------------------------------------------------------------------
// Lemmas
// ---------------------------------------------------------------------------

/// Where one comes climbing `n` steps from `key`.
pub open spec fn climbed(s: TreeStoreView, key: Seq<char>, n: nat) -> Option<Seq<char>>
    decreases n,
{
    if n == 0 {
        Some(key)
    } else {
        match climbed(s, key, (n - 1) as nat) {
            Some(k) => climb(s, k),
            None => None,
        }
    }
}

proof fn lemma_climbed_step(s: TreeStoreView, key: Seq<char>, n: nat)
    requires
        climb(s, key) is Some,
    ensures
        climbed(s, key, n + 1) == climbed(s, climb(s, key)->0, n),
    decreases n,
{
    if n > 0 {
        lemma_climbed_step(s, key, (n - 1) as nat);
        assert(((n + 1) - 1) as nat == n);
    } else {
        assert(climbed(s, key, 0) == Some(key));
        assert(climbed(s, key, 1) == climb(s, key));
    }
}

proof fn lemma_climbed_ends(s: TreeStoreView, key: Seq<char>, n: nat)
    requires
        climbed(s, key, n) is Some,
        climb(s, climbed(s, key, n)->0) is None,
    ensures
        ends_after(s, key, n),
    decreases n,
{
    if n > 0 {
        lemma_climbed_some(s, key, n, 1);
        assert(climbed(s, key, 1) == climb(s, key)) by {
            assert(climbed(s, key, 0) == Some(key));
        }
        lemma_climbed_step(s, key, (n - 1) as nat);
        lemma_climbed_ends(s, climb(s, key)->0, (n - 1) as nat);
    }
}

proof fn lemma_climbed_some(s: TreeStoreView, key: Seq<char>, n: nat, m: nat)
    requires
        climbed(s, key, n) is Some,
        m <= n,
    ensures
        climbed(s, key, m) is Some,
    decreases n,
{
    if m < n {
        lemma_climbed_some(s, key, (n - 1) as nat, m);
    }
}

proof fn lemma_ends_climbed(s: TreeStoreView, key: Seq<char>, n: nat)
    requires
        ends_after(s, key, n),
    ensures
        climbed(s, key, n) is Some,
        climb(s, climbed(s, key, n)->0) is None,
    decreases n,
{
    if n > 0 {
        lemma_ends_climbed(s, climb(s, key)->0, (n - 1) as nat);
        lemma_climbed_step(s, key, (n - 1) as nat);
    }
}

/// Climbing cannot go on past its end.
proof fn lemma_ends_at(s: TreeStoreView, key: Seq<char>, m: nat, n: nat)
    requires
        climbed(s, key, m) is Some,
        climb(s, climbed(s, key, m)->0) is None,
        n >= m,
        climbed(s, key, n) is Some,
    ensures
        n == m,
    decreases n,
{
    if n > m {
        lemma_climbed_some(s, key, n, m + 1);
        assert(climbed(s, key, m + 1) == climb(s, climbed(s, key, m)->0));
    }
}

proof fn lemma_way_down(s: TreeStoreView, key: Seq<char>, n: nat)
    requires
        climbed(s, key, n) is Some,
    ensures
        way_down(s, key, n).len() == n + 1,
        forall|j: int|
            0 <= j <= n ==> Some(#[trigger] way_down(s, key, n)[j]) == climbed(
                s,
                key,
                (n - j) as nat,
            ),
    decreases n,
{
    if n > 0 {
        lemma_climbed_some(s, key, n, 1);
        assert(climbed(s, key, 1) == climb(s, key)) by {
            assert(climbed(s, key, 0) == Some(key));
        }
        let up = climb(s, key)->0;
        lemma_climbed_step(s, key, (n - 1) as nat);
        lemma_way_down(s, up, (n - 1) as nat);
        let way = way_down(s, key, n);
        let above = way_down(s, up, (n - 1) as nat);
        assert forall|j: int| 0 <= j <= n implies Some(#[trigger] way[j]) == climbed(
            s,
            key,
            (n - j) as nat,
        ) by {
            if j < n {
                assert(way[j] == above[j]);
                lemma_climbed_step(s, key, (n - 1 - j) as nat);
                assert((n - 1 - j) as nat + 1 == (n - j) as nat);
            } else {
                assert(way[j] == key);
            }
        }
    } else {
        assert(way_down(s, key, 0) =~= seq![key]);
    }
}

/// Climbing that ends passes no directory twice, and hence no more than there are.
proof fn lemma_climb_bound(nodes: &PathMap<TreeNode>, s: TreeStoreView, key: Seq<char>, m: nat)
    requires
        nodes.wf(),
        s.nodes == tree_map_view(nodes@),
        s.nodes.contains_key(key),
        ends_after(s, key, m),
    ensures
        m < nodes.order().len(),
{
    lemma_ends_climbed(s, key, m);
    nodes.lemma_order();
    let passed = Seq::new(m + 1, |i: int| climbed(s, key, i as nat)->0);
    assert forall|i: int, j: int|
        0 <= i < passed.len() && 0 <= j < passed.len() && i != j implies passed[i] != passed[j] by {
        if passed[i] == passed[j] {
            let (a, b) = if i < j {
                (i as nat, j as nat)
            } else {
                (j as nat, i as nat)
            };
            lemma_climbed_some(s, key, m, a);
            lemma_climbed_some(s, key, m, b);
            lemma_repeat(s, key, a, b, m);
        }
    }
    assert(passed.no_duplicates());
    assert forall|x: Seq<char>| passed.to_set().contains(x) implies nodes.order().to_set().contains(
        x,
    ) by {
        let i = choose|i: int| 0 <= i < passed.len() && passed[i] == x;
        lemma_climbed_some(s, key, m, i as nat);
        lemma_climbed_shown(s, key, i as nat);
        assert(nodes@.contains_key(x));
        let j = choose|j: int| 0 <= j < nodes.order().len() && #[trigger] nodes.order()[j] == x;
        assert(nodes.order().contains(x));
    }
    passed.unique_seq_to_set();
    nodes.order().unique_seq_to_set();
    vstd::set_lib::lemma_len_subset(passed.to_set(), nodes.order().to_set());
}

proof fn lemma_climbed_shown(s: TreeStoreView, key: Seq<char>, n: nat)
    requires
        s.nodes.contains_key(key),
        climbed(s, key, n) is Some,
    ensures
        s.nodes.contains_key(climbed(s, key, n)->0),
    decreases n,
{
    if n > 0 {
        lemma_climbed_shown(s, key, (n - 1) as nat);
    }
}

/// Climbing that ends passes the same directory at the same step only.
proof fn lemma_repeat(s: TreeStoreView, key: Seq<char>, a: nat, b: nat, m: nat)
    requires
        a <= b <= m,
        climbed(s, key, a) is Some,
        climbed(s, key, a) == climbed(s, key, b),
        climbed(s, key, m) is Some,
        climb(s, climbed(s, key, m)->0) is None,
    ensures
        a == b,
    decreases m - b,
{
    if b == m {
        if a < b {
            lemma_climbed_some(s, key, m, a + 1);
            assert(climbed(s, key, a + 1) == climb(s, climbed(s, key, a)->0));
        }
    } else {
        lemma_climbed_some(s, key, m, a + 1);
        lemma_climbed_some(s, key, m, b + 1);
        assert(climbed(s, key, a + 1) == climb(s, climbed(s, key, a)->0));
        assert(climbed(s, key, b + 1) == climb(s, climbed(s, key, b)->0));
        lemma_repeat(s, key, a + 1, b + 1, m);
    }
}

proof fn lemma_place_found(all: Seq<Seq<char>>, key: Seq<char>, i: int, n: nat)
    requires
        0 <= i < n <= all.len(),
        all[i] == key,
        forall|j: int| 0 <= j < i ==> all[j] != key,
    ensures
        place_of(all, key, n) == i,
    decreases n,
{
    if i < n - 1 {
        lemma_place_found(all, key, i, (n - 1) as nat);
    }
}

proof fn lemma_place_missing(all: Seq<Seq<char>>, key: Seq<char>, n: nat)
    requires
        n <= all.len(),
        forall|j: int| 0 <= j < n ==> all[j] != key,
    ensures
        place_of(all, key, n) == 0,
{
}

// ---------------------------------------------------------------------------
// Laws
// ---------------------------------------------------------------------------

/// No page holds more than five hundred items.
pub proof fn law_page_is_bounded(
    nodes: Map<Seq<char>, TreeNodeView>,
    all: Seq<Seq<char>>,
    offset: u32,
    limit: u32,
)
    ensures
        page_of(nodes, all, offset, limit).items.len() <= page_size(limit) <= 500,
{
    let total = low32(all.len());
    if offset < total {
        let end = page_end(total, offset, limit);
        lemma_filed_len(nodes, all.subrange(offset as int, end), (end - offset) as nat);
    }
}

proof fn lemma_filed_len(nodes: Map<Seq<char>, TreeNodeView>, keys: Seq<Seq<char>>, n: nat)
    ensures
        filed_nodes(nodes, keys, n).len() <= n,
    decreases n,
{
    if n > 0 {
        lemma_filed_len(nodes, keys, (n - 1) as nat);
    }
}

/// What the pages hold from `offset` on, each taken from where the one before
/// it says.
pub open spec fn pages_from(
    nodes: Map<Seq<char>, TreeNodeView>,
    all: Seq<Seq<char>>,
    offset: u32,
    limit: u32,
) -> Seq<TreeNodeView>
    decreases low32(all.len()) - offset,
{
    let page = page_of(nodes, all, offset, limit);
    match page.next_offset {
        Some(next) => if next > offset {
            page.items + pages_from(nodes, all, next, limit)
        } else {
            page.items
        },
        None => page.items,
    }
}

proof fn lemma_filed_split(
    nodes: Map<Seq<char>, TreeNodeView>,
    keys: Seq<Seq<char>>,
    a: int,
    n: nat,
)
    requires
        0 <= a <= n <= keys.len(),
    ensures
        filed_nodes(nodes, keys, n) == filed_nodes(nodes, keys, a as nat) + filed_nodes(
            nodes,
            keys.subrange(a, keys.len() as int),
            (n - a) as nat,
        ),
    decreases n,
{
    let rest = keys.subrange(a, keys.len() as int);
    if n > a {
        lemma_filed_split(nodes, keys, a, (n - 1) as nat);
        assert(rest[n - 1 - a] == keys[n - 1]);
        assert(filed_nodes(nodes, keys, n) =~= filed_nodes(nodes, keys, a as nat) + filed_nodes(
            nodes,
            rest,
            (n - a) as nat,
        ));
    } else {
        assert(filed_nodes(nodes, keys, n) =~= filed_nodes(nodes, keys, a as nat) + filed_nodes(
            nodes,
            rest,
            0,
        ));
    }
}

/// Only the first keys count.
proof fn lemma_filed_prefix(
    nodes: Map<Seq<char>, TreeNodeView>,
    a: Seq<Seq<char>>,
    b: Seq<Seq<char>>,
    n: nat,
)
    requires
        forall|i: int| 0 <= i < n ==> #[trigger] a[i] == b[i],
    ensures
        filed_nodes(nodes, a, n) == filed_nodes(nodes, b, n),
    decreases n,
{
    if n > 0 {
        lemma_filed_prefix(nodes, a, b, (n - 1) as nat);
        assert(a[n - 1] == b[n - 1]);
    }
}

proof fn lemma_pages_from(
    nodes: Map<Seq<char>, TreeNodeView>,
    all: Seq<Seq<char>>,
    offset: u32,
    limit: u32,
)
    requires
        offset <= all.len() <= u32::MAX,
    ensures
        pages_from(nodes, all, offset, limit) == filed_nodes(
            nodes,
            all.subrange(offset as int, all.len() as int),
            (all.len() - offset) as nat,
        ),
    decreases all.len() - offset,
{
    let total = low32(all.len());
    assert(total == all.len());
    let rest = all.subrange(offset as int, all.len() as int);
    if offset < total {
        let end = page_end(total, offset, limit);
        let here = all.subrange(offset as int, end);
        let n = (end - offset) as nat;
        lemma_filed_prefix(nodes, here, rest, n);
        if end < total {
            lemma_pages_from(nodes, all, end as u32, limit);
            lemma_filed_split(nodes, rest, n as int, rest.len());
            assert(rest.subrange(n as int, rest.len() as int) =~= all.subrange(
                end,
                all.len() as int,
            ));
        }
    }
}

/// The pages together hold every child exactly once, in their order.
pub proof fn law_pages_cover_everything(
    nodes: Map<Seq<char>, TreeNodeView>,
    all: Seq<Seq<char>>,
    limit: u32,
)
    requires
        all.len() <= u32::MAX,
    ensures
        pages_from(nodes, all, 0, limit) == filed_nodes(nodes, all, all.len()),
{
    lemma_pages_from(nodes, all, 0, limit);
    assert(all.subrange(0, all.len() as int) =~= all);
}

proof fn lemma_place_of(all: Seq<Seq<char>>, key: Seq<char>, n: nat)
    requires
        n <= all.len(),
        exists|j: int| 0 <= j < n && all[j] == key,
    ensures
        0 <= place_of(all, key, n) < n,
        all[place_of(all, key, n)] == key,
    decreases n,
{
    if exists|j: int| 0 <= j < n - 1 && all[j] == key {
        lemma_place_of(all, key, (n - 1) as nat);
    }
}

proof fn lemma_filed_contains(
    nodes: Map<Seq<char>, TreeNodeView>,
    keys: Seq<Seq<char>>,
    n: nat,
    i: int,
)
    requires
        0 <= i < n,
        nodes.contains_key(keys[i]),
    ensures
        filed_nodes(nodes, keys, n).contains(nodes[keys[i]]),
    decreases n,
{
    let before = filed_nodes(nodes, keys, (n - 1) as nat);
    let now = filed_nodes(nodes, keys, n);
    if i == n - 1 {
        assert(now[before.len() as int] == nodes[keys[i]]);
    } else {
        lemma_filed_contains(nodes, keys, (n - 1) as nat, i);
        let j = choose|j: int| 0 <= j < before.len() && before[j] == nodes[keys[i]];
        assert(now[j] == nodes[keys[i]]);
    }
}

/// Every page on the way down to a directory shows the next directory of the
/// way, where the tree files it as its parent's child.
pub proof fn law_revealed_page_shows_the_way(
    s: TreeStoreView,
    way: Seq<Seq<char>>,
    i: int,
    limit: u32,
)
    requires
        0 <= i < way.len(),
        s.nodes.contains_key(way[i]),
        i > 0 ==> s.nodes.contains_key(way[i - 1]) && normalized(s.nodes[way[i - 1]].path)
            == way[i - 1],
        ({
            let all = listed(
                s,
                if i == 0 {
                    normalized(root_display())
                } else {
                    way[i - 1]
                },
            );
            all.contains(way[i]) && all.len() <= u32::MAX
        }),
    ensures
        level_at(s, way, i, limit).page.items.contains(s.nodes[way[i]]),
{
    let parent_key = if i == 0 {
        normalized(root_display())
    } else {
        way[i - 1]
    };
    let all = listed(s, parent_key);
    lemma_place_of(all, way[i], all.len());
    let at = place_of(all, way[i], all.len());
    let place = low32(at as nat);
    assert(place == at);
    let size = page_size(limit);
    let offset = ((place as int / size) * size) as u32;
    assert(0 <= (place as int / size) * size <= place < (place as int / size) * size + size)
        by (nonlinear_arith)
        requires
            size >= 1,
            place >= 0,
    ;
    let total = low32(all.len());
    let end = page_end(total, offset, limit);
    let here = all.subrange(offset as int, end);
    assert(here[at - offset] == way[i]);
    lemma_filed_contains(s.nodes, here, (end - offset) as nat, at - offset);
}

} // verus!
