//! The hotspot map's hierarchy: workspace, crates, modules and files with
//! their sizes, commits and ranks.

use vstd::prelude::*;

use crate::collections::{str_eq, StrSet};
use crate::graph::{arc_edges_within, node_name, ArcGraph, Edge, Node};
use crate::paths::{file_name_of, relative_of};
use crate::sorting::{less_than, seq_less};
use crate::text::{chars_of, string_of};

verus! {

/// What a node of the hotspot tree is.
#[derive(Clone, Copy, Debug, PartialEq, Eq, Structural)]
pub enum HotspotKind {
    Workspace,
    Crate,
    Module,
    File,
}

/// A workspace, crate, container module or file in the hotspot tree,
/// identified by its workspace-relative file.
#[derive(Debug, PartialEq, Eq)]
pub struct HotspotNode {
    pub name: String,
    pub kind: HotspotKind,
    /// Workspace-relative.
    pub file: String,
    pub lines: usize,
    /// Distinct commits: the file's own for a leaf, the subtree's for a
    /// container.
    pub commits: usize,
    pub children: Vec<HotspotNode>,
}

/// The built hierarchy plus the workspace-wide figures the map needs.
#[derive(Debug, PartialEq, Eq)]
pub struct HotspotTree {
    pub root: HotspotNode,
    /// The highest single-file commit count in the workspace.
    pub max_file_commits: usize,
    /// Distinct commits across the whole workspace.
    pub total_commits: usize,
    /// The top leaves by `lines * commits`, in rank order.
    pub hotspots: Vec<HotspotNode>,
}

/// The first index at or after `i` of a hotspot on `file`, or -1.
pub open spec fn first_on_file(hotspots: Seq<HotspotNode>, file: Seq<char>, i: int) -> int
    decreases hotspots.len() - i,
{
    if i < 0 || i >= hotspots.len() {
        -1
    } else if hotspots[i].file@ == file {
        i
    } else {
        first_on_file(hotspots, file, i + 1)
    }
}

/// `node`'s 1-based rank among `hotspots`: the position of the first hotspot
/// on its file; none for a container.
pub open spec fn rank_in(hotspots: Seq<HotspotNode>, node: HotspotNode) -> Option<usize> {
    if node.kind != HotspotKind::File {
        None
    } else {
        let i = first_on_file(hotspots, node.file@, 0);
        if i < 0 {
            None
        } else {
            Some((i + 1) as usize)
        }
    }
}

impl HotspotTree {
    /// `node`'s 1-based position among the hotspots; `None` for a container,
    /// even one sharing its file with a ranked leaf.
    pub fn rank_of(&self, node: &HotspotNode) -> (res: Option<usize>)
        ensures
            res == rank_in(self.hotspots@, *node),
    {
        if node.kind != HotspotKind::File {
            return None;
        }
        let mut i: usize = 0;
        while i < self.hotspots.len()
            invariant
                i <= self.hotspots@.len(),
                node.kind == HotspotKind::File,
                first_on_file(self.hotspots@, node.file@, 0) == first_on_file(
                    self.hotspots@,
                    node.file@,
                    i as int,
                ),
            decreases self.hotspots.len() - i,
        {
            if str_eq(self.hotspots[i].file.as_str(), node.file.as_str()) {
                return Some(i + 1);
            }
            i = i + 1;
        }
        None
    }
}

/// `lines * commits`, saturating at `usize::MAX`.
pub open spec fn score_of(lines: usize, commits: usize) -> usize {
    if lines * commits <= usize::MAX {
        (lines * commits) as usize
    } else {
        usize::MAX
    }
}

/// A leaf's score: its lines times its commits, saturating.
pub fn hotspot_score(node: &HotspotNode) -> (res: usize)
    ensures
        res == score_of(node.lines, node.commits),
{
    match node.lines.checked_mul(node.commits) {
        Some(v) => v,
        None => usize::MAX,
    }
}

/// The highest commit count of a file leaf under `node`; 0 where there is
/// none.
pub open spec fn max_file_commits_of(node: HotspotNode) -> usize
    decreases node, 1int,
{
    if node.kind == HotspotKind::File {
        node.commits
    } else {
        max_file_commits_in(node.children@, node.children@.len() as int)
    }
}

/// The highest of `max_file_commits_of` over the first `k` nodes; 0 for none.
pub open spec fn max_file_commits_in(nodes: Seq<HotspotNode>, k: int) -> usize
    decreases nodes, k,
{
    if k <= 0 || k > nodes.len() {
        0
    } else {
        let rest = max_file_commits_in(nodes, k - 1);
        let here = max_file_commits_of(nodes[k - 1]);
        if here > rest {
            here
        } else {
            rest
        }
    }
}

/// The highest single-file commit count under `node`.
pub fn max_file_commits(node: &HotspotNode) -> (res: usize)
    ensures
        res == max_file_commits_of(*node),
    decreases *node,
{
    if node.kind == HotspotKind::File {
        return node.commits;
    }
    let mut best: usize = 0;
    let mut i: usize = 0;
    while i < node.children.len()
        invariant
            i <= node.children@.len(),
            node.kind != HotspotKind::File,
            best == max_file_commits_in(node.children@, i as int),
        decreases node.children.len() - i,
    {
        proof {
            assert(decreases_to!(*node => node.children));
            assert(decreases_to!(node.children => node.children@[i as int]));
        }
        let here = max_file_commits(&node.children[i]);
        if here > best {
            best = here;
        }
        i = i + 1;
    }
    best
}

/// A file leaf: its name, workspace-relative file, lines and commits.
pub fn leaf(name: String, file: &str, workspace_root: &str, lines: usize, commits: usize) -> (res: HotspotNode)
    ensures
        res.name == name,
        res.kind == HotspotKind::File,
        res.file@ == relative_of(workspace_root@, file@),
        res.lines == lines,
        res.commits == commits,
        res.children@.len() == 0,
{
    let rel = crate::paths::relative(workspace_root, file);
    HotspotNode { name, kind: HotspotKind::File, file: rel, lines, commits, children: Vec::new() }
}

/// What a hotspot node holds, as plain values.
pub struct NodeModel {
    pub name: Seq<char>,
    pub kind: HotspotKind,
    pub file: Seq<char>,
    pub lines: usize,
    pub commits: usize,
    pub children: Seq<NodeModel>,
}

/// The values a node holds, its children's included.
pub open spec fn model_of(n: HotspotNode) -> NodeModel
    decreases n, 1int,
{
    NodeModel {
        name: n.name@,
        kind: n.kind,
        file: n.file@,
        lines: n.lines,
        commits: n.commits,
        children: models_in(n.children@, n.children@.len() as int),
    }
}

/// The values of the first `k` nodes.
pub open spec fn models_in(nodes: Seq<HotspotNode>, k: int) -> Seq<NodeModel>
    decreases nodes, k,
{
    if k <= 0 || k > nodes.len() {
        Seq::empty()
    } else {
        models_in(nodes, k - 1).push(model_of(nodes[k - 1]))
    }
}

impl View for HotspotNode {
    type V = NodeModel;

    open spec fn view(&self) -> NodeModel {
        model_of(*self)
    }
}

/// `models_in` gives each of the first `k` nodes its values, in order.
pub proof fn lemma_models_in(nodes: Seq<HotspotNode>, k: int)
    requires
        0 <= k <= nodes.len(),
    ensures
        models_in(nodes, k).len() == k,
        forall|j: int| 0 <= j < k ==> #[trigger] models_in(nodes, k)[j] == model_of(nodes[j]),
    decreases k,
{
    if k > 0 {
        lemma_models_in(nodes, k - 1);
    }
}

/// The values of the nodes a list of references points at.
pub open spec fn ref_models(s: Seq<&HotspotNode>) -> Seq<NodeModel> {
    s.map_values(|r: &HotspotNode| model_of(*r))
}

/// The values of a list of nodes.
pub open spec fn node_models(s: Seq<HotspotNode>) -> Seq<NodeModel> {
    s.map_values(|r: HotspotNode| model_of(r))
}

/// A copy of `node` with the same values, its children copied too.
pub fn copy_node(node: &HotspotNode) -> (res: HotspotNode)
    ensures
        res@ == node@,
    decreases *node,
{
    let mut children: Vec<HotspotNode> = Vec::new();
    let mut i: usize = 0;
    while i < node.children.len()
        invariant
            i <= node.children@.len(),
            children@.len() == i,
            forall|j: int| 0 <= j < i ==> model_of(#[trigger] children@[j]) == model_of(node.children@[j]),
        decreases node.children.len() - i,
    {
        proof {
            assert(decreases_to!(*node => node.children));
            assert(decreases_to!(node.children => node.children@[i as int]));
        }
        let c = copy_node(&node.children[i]);
        children.push(c);
        i = i + 1;
    }
    proof {
        lemma_models_in(children@, children@.len() as int);
        lemma_models_in(node.children@, node.children@.len() as int);
        assert(models_in(children@, children@.len() as int) =~= models_in(
            node.children@,
            node.children@.len() as int,
        ));
    }
    HotspotNode {
        name: node.name.clone(),
        kind: node.kind,
        file: node.file.clone(),
        lines: node.lines,
        commits: node.commits,
        children,
    }
}

/// The file leaves under a node, in tree order.
pub open spec fn leaves_of(m: NodeModel) -> Seq<NodeModel>
    decreases m, 1int,
{
    if m.kind == HotspotKind::File {
        seq![m]
    } else {
        leaves_in(m.children, m.children.len() as int)
    }
}

/// The file leaves under the first `k` nodes, in tree order.
pub open spec fn leaves_in(ms: Seq<NodeModel>, k: int) -> Seq<NodeModel>
    decreases ms, k,
{
    if k <= 0 || k > ms.len() {
        Seq::empty()
    } else {
        leaves_in(ms, k - 1) + leaves_of(ms[k - 1])
    }
}

/// Append every file leaf under `node` to `out`, in tree order.
pub fn collect_leaves<'a>(node: &'a HotspotNode, out: &mut Vec<&'a HotspotNode>)
    ensures
        ref_models(final(out)@) == ref_models(old(out)@) + leaves_of(node@),
    decreases *node,
{
    if node.kind == HotspotKind::File {
        let ghost before = out@;
        out.push(node);
        assert(ref_models(out@) =~= ref_models(before) + leaves_of(node@));
        return;
    }
    let ghost start = out@;
    proof {
        lemma_models_in(node.children@, node.children@.len() as int);
        assert(ref_models(start) =~= ref_models(start) + leaves_in(node@.children, 0));
    }
    let mut i: usize = 0;
    while i < node.children.len()
        invariant
            i <= node.children@.len(),
            node.kind != HotspotKind::File,
            node@.children.len() == node.children@.len(),
            forall|j: int| 0 <= j < node.children@.len() ==> #[trigger] node@.children[j] == model_of(node.children@[j]),
            ref_models(out@) == ref_models(start) + leaves_in(node@.children, i as int),
        decreases node.children.len() - i,
    {
        proof {
            assert(decreases_to!(*node => node.children));
            assert(decreases_to!(node.children => node.children@[i as int]));
        }
        collect_leaves(&node.children[i], out);
        proof {
            assert(node@.children[i as int] == model_of(node.children@[i as int]));
            assert(leaves_in(node@.children, i + 1) == leaves_in(node@.children, i as int) + leaves_of(
                node@.children[i as int],
            ));
            assert(ref_models(out@) =~= ref_models(start) + leaves_in(node@.children, i + 1));
        }
        i = i + 1;
    }
}

/// A leaf's score, from its values.
pub open spec fn model_score(m: NodeModel) -> usize {
    score_of(m.lines, m.commits)
}

/// The leaves with a score above zero, in order.
pub open spec fn hot_leaves(ms: Seq<NodeModel>) -> Seq<NodeModel> {
    ms.filter(|m: NodeModel| model_score(m) > 0)
}

/// Whether `a` ranks before `b`: a higher score, or an equal score and an
/// earlier name.
pub open spec fn ranks_before(a: NodeModel, b: NodeModel) -> bool {
    model_score(a) > model_score(b) || (model_score(a) == model_score(b) && seq_less(a.name, b.name))
}

/// Ranking is a strict order.
pub proof fn lemma_ranks_before_order(a: NodeModel, b: NodeModel, c: NodeModel)
    ensures
        !ranks_before(a, a),
        ranks_before(a, b) && ranks_before(b, c) ==> ranks_before(a, c),
{
    crate::sorting::lemma_less_irreflexive(a.name);
    if ranks_before(a, b) && ranks_before(b, c) && model_score(a) == model_score(b) && model_score(b)
        == model_score(c) {
        crate::sorting::lemma_less_transitive(a.name, b.name, c.name);
    }
}

/// Two nodes at source positions `pi` and `pj` stand in this order in a
/// stable ranking: the first ranks before the second, or neither ranks
/// before the other and the first came first.
pub open spec fn stable_pair(a: NodeModel, b: NodeModel, pi: int, pj: int) -> bool {
    ranks_before(a, b) || (!ranks_before(b, a) && pi < pj)
}

/// `s` is `src` ranked stably: each of its entries is the entry of `src` at
/// a distinct position `perm[i]`, in rank order, nodes of equal rank in
/// their order in `src`.
pub open spec fn stably_ranked(s: Seq<NodeModel>, src: Seq<NodeModel>, perm: Seq<int>) -> bool {
    &&& s.len() == perm.len()
    &&& forall|i: int| 0 <= i < s.len() ==> 0 <= #[trigger] perm[i] < src.len() && s[i] == src[perm[i]]
    &&& forall|i: int, j: int|
        0 <= i < j < s.len() ==> #[trigger] perm[i] != #[trigger] perm[j] && stable_pair(s[i], s[j], perm[i], perm[j])
}

/// Where `a` ranks before `b`, every node ranks after `a` or before `b`.
pub proof fn lemma_ranks_before_weak(a: NodeModel, b: NodeModel, c: NodeModel)
    requires
        ranks_before(a, b),
    ensures
        ranks_before(a, c) || ranks_before(c, b),
{
    if model_score(a) == model_score(c) && model_score(c) == model_score(b) {
        crate::sorting::lemma_less_total(a.name, c.name);
        if seq_less(c.name, a.name) {
            crate::sorting::lemma_less_transitive(c.name, a.name, b.name);
        }
    }
}

/// Whether `a` ranks before `b`.
fn ranks_before_exec(a: &HotspotNode, b: &HotspotNode) -> (res: bool)
    ensures
        res == ranks_before(a@, b@),
{
    let sa = hotspot_score(a);
    let sb = hotspot_score(b);
    if sa != sb {
        return sa > sb;
    }
    let na = chars_of(a.name.as_str());
    let nb = chars_of(b.name.as_str());
    less_than(&na, &nb)
}

/// The first `n` file leaves under `root` with a score above zero, by
/// descending score, ties by name.
pub fn rank_leaves(root: &HotspotNode, n: usize) -> (res: Vec<HotspotNode>)
    ensures
        exists|s: Seq<NodeModel>, perm: Seq<int>|
            {
                &&& s.len() == hot_leaves(leaves_of(root@)).len()
                &&& stably_ranked(s, hot_leaves(leaves_of(root@)), perm)
                &&& node_models(res@) == s.take(if n < s.len() { n as int } else { s.len() as int })
            },
{
    let mut leaves: Vec<&HotspotNode> = Vec::new();
    collect_leaves(root, &mut leaves);
    assert(ref_models(leaves@) =~= leaves_of(root@));
    let mut hot: Vec<&HotspotNode> = Vec::new();
    let mut i: usize = 0;
    while i < leaves.len()
        invariant
            i <= leaves@.len(),
            ref_models(hot@) == hot_leaves(ref_models(leaves@).take(i as int)),
        decreases leaves.len() - i,
    {
        let leaf = leaves[i];
        proof {
            assert(ref_models(leaves@).take(i + 1) =~= ref_models(leaves@).take(i as int).push(
                model_of(*leaf),
            ));
            ref_models(leaves@).take(i as int).lemma_filter_push(
                model_of(*leaf),
                |m: NodeModel| model_score(m) > 0,
            );
        }
        if hotspot_score(leaf) > 0 {
            let ghost before = hot@;
            hot.push(leaf);
            assert(ref_models(hot@) =~= ref_models(before).push(model_of(*leaf)));
        }
        i = i + 1;
    }
    assert(ref_models(leaves@).take(leaves@.len() as int) =~= ref_models(leaves@));
    let mut ranked: Vec<&HotspotNode> = Vec::new();
    let ghost mut perm: Seq<int> = Seq::empty();
    let ghost hm = ref_models(hot@);
    let mut t: usize = 0;
    while t < hot.len()
        invariant
            t <= hot@.len(),
            hm == ref_models(hot@),
            ranked@.len() == t,
            stably_ranked(ref_models(ranked@), hm, perm),
            forall|i: int| 0 <= i < perm.len() ==> #[trigger] perm[i] < t,
        decreases hot.len() - t,
    {
        let c = hot[t];
        let mut p: usize = 0;
        while p < ranked.len() && !ranks_before_exec(c, ranked[p])
            invariant
                p <= ranked@.len(),
                forall|q: int| 0 <= q < p ==> !ranks_before(model_of(*c), #[trigger] ref_models(ranked@)[q]),
            decreases ranked.len() - p,
        {
            p = p + 1;
        }
        let ghost old_ranked = ref_models(ranked@);
        let ghost old_perm = perm;
        let ghost cm = model_of(*c);
        let ghost old_refs = ranked@;
        ranked.insert(p, c);
        proof {
            assert(ref_models(ranked@) =~= old_ranked.insert(p as int, cm)) by {
                assert(ranked@ == old_refs.insert(p as int, c));
            }
            perm = old_perm.insert(p as int, t as int);
            assert(cm == hm[t as int]);
            let rm = ref_models(ranked@);
            assert forall|i: int| 0 <= i < rm.len() implies 0 <= #[trigger] perm[i] < hm.len() && rm[i]
                == hm[perm[i]] by {
                if i > p {
                    assert(rm[i] == old_ranked[i - 1] && perm[i] == old_perm[i - 1]);
                } else if i < p {
                    assert(rm[i] == old_ranked[i] && perm[i] == old_perm[i]);
                }
            }
            assert forall|i: int| 0 <= i < perm.len() implies #[trigger] perm[i] < t + 1 by {
                if i > p {
                    assert(perm[i] == old_perm[i - 1]);
                } else if i < p {
                    assert(perm[i] == old_perm[i]);
                }
            }
            assert forall|i: int, j: int| 0 <= i < j < rm.len() implies #[trigger] perm[i] != #[trigger] perm[j]
                && stable_pair(rm[i], rm[j], perm[i], perm[j]) by {
                if j < p {
                    assert(rm[i] == old_ranked[i] && rm[j] == old_ranked[j]);
                    assert(perm[i] == old_perm[i] && perm[j] == old_perm[j]);
                } else if j == p {
                    assert(rm[i] == old_ranked[i] && perm[i] == old_perm[i]);
                    assert(old_perm[i] < t);
                } else if i < p {
                    assert(rm[i] == old_ranked[i] && rm[j] == old_ranked[j - 1]);
                    assert(perm[i] == old_perm[i] && perm[j] == old_perm[j - 1]);
                } else if i == p {
                    assert(rm[j] == old_ranked[j - 1] && perm[j] == old_perm[j - 1]);
                    assert(old_perm[j - 1] < t);
                    assert(ranks_before(cm, old_ranked[p as int]));
                    if j - 1 > p {
                        assert(stable_pair(old_ranked[p as int], old_ranked[j - 1], old_perm[p as int], old_perm[j - 1]));
                        lemma_ranks_before_order(cm, old_ranked[p as int], old_ranked[j - 1]);
                        lemma_ranks_before_weak(cm, old_ranked[p as int], old_ranked[j - 1]);
                    }
                } else {
                    assert(rm[i] == old_ranked[i - 1] && rm[j] == old_ranked[j - 1]);
                    assert(perm[i] == old_perm[i - 1] && perm[j] == old_perm[j - 1]);
                }
            }
        }
        t = t + 1;
    }
    let ghost s = ref_models(ranked@);
    let limit: usize = if n < ranked.len() { n } else { ranked.len() };
    let mut res: Vec<HotspotNode> = Vec::new();
    let mut k: usize = 0;
    while k < limit
        invariant
            k <= limit,
            limit <= ranked@.len(),
            s == ref_models(ranked@),
            node_models(res@) == s.take(k as int),
        decreases limit - k,
    {
        let copy = copy_node(ranked[k]);
        let ghost before = res@;
        res.push(copy);
        assert(node_models(res@) =~= s.take(k + 1)) by {
            assert(node_models(res@) =~= node_models(before).push(model_of(copy)));
        }
        k = k + 1;
    }
    assert(stably_ranked(s, hot_leaves(leaves_of(root@)), perm));
    res
}

/// The code lines of a Rust source text by tokei's Rust grammar: every line
/// but blank lines and comment lines, doc comments and block comments
/// included.
pub uninterp spec fn rust_code_lines(source: Seq<char>) -> usize;

/// tokei's `LanguageType::Rust.parse_from_str` under the default
/// configuration, its `code` count. The count is claimed to depend on the
/// text alone; nothing more is claimed of it.
#[verifier::external_body]
fn tokei_rust_code(source: &str) -> (res: usize)
    ensures
        res == rust_code_lines(source@),
{
    tokei::LanguageType::Rust.parse_from_str(source, &tokei::Config::default()).code
}

/// Count the code lines of a Rust source text, leaving out comments and
/// blank lines.
pub fn code_lines(source: &str) -> (res: usize)
    ensures
        res == rust_code_lines(source@),
{
    tokei_rust_code(source)
}


/// A source file as the hotspot map reads it.
pub struct FileStats {
    /// Its absolute path.
    pub path: String,
    /// Its code lines.
    pub lines: usize,
    /// The commits that touched it.
    pub commits: StrSet,
}

/// A module of the graph: the file declaring it, if any, and the modules it
/// contains, in the order they were contained.
pub struct ModuleSource {
    pub name: String,
    pub file: Option<FileStats>,
    pub children: Vec<ModuleSource>,
}

/// A workspace crate: its manifest, its target root files and its top-level
/// modules, in the order they were contained.
pub struct CrateSource {
    pub name: String,
    /// The absolute path of its `Cargo.toml`.
    pub manifest: String,
    pub roots: Vec<FileStats>,
    pub modules: Vec<ModuleSource>,
}

/// The distinct commits of a set.
pub open spec fn commit_set(s: StrSet) -> Set<Seq<char>> {
    s.item_seq().to_set()
}

/// The name a file is shown by: the last component of its path, or the
/// whole path where it has none.
pub open spec fn shown_name(path: Seq<char>) -> Seq<char> {
    match file_name_of(path) {
        Some(n) => n,
        None => path,
    }
}

/// The leaf of a file: its name, workspace-relative path, lines and number
/// of distinct commits.
pub open spec fn leaf_model(f: FileStats, root: Seq<char>) -> NodeModel {
    NodeModel {
        name: shown_name(f.path@),
        kind: HotspotKind::File,
        file: relative_of(root, f.path@),
        lines: f.lines,
        commits: commit_set(f.commits).len() as usize,
        children: Seq::empty(),
    }
}

/// The lines of the files of a module and of the modules under it, where
/// each has a file; none for a module without one.
pub open spec fn module_lines(m: ModuleSource) -> nat
    decreases m, 1int,
{
    match m.file {
        None => 0,
        Some(f) => f.lines as nat + forest_lines(m.children@, m.children@.len() as int),
    }
}

/// The lines of the first `k` modules of `ms`, each as [`module_lines`].
pub open spec fn forest_lines(ms: Seq<ModuleSource>, k: int) -> nat
    decreases ms, k,
{
    if k <= 0 || k > ms.len() {
        0
    } else {
        forest_lines(ms, k - 1) + module_lines(ms[k - 1])
    }
}

/// The node a module gives and the commits under it: none without a file;
/// a leaf for its file where it contains no module; else a container named
/// after the module, holding its own file's leaf first, then the nodes of
/// the modules it contains that give one, with the lines of all and the
/// commits of any.
pub open spec fn module_model(m: ModuleSource, root: Seq<char>) -> Option<(NodeModel, Set<Seq<char>>)>
    decreases m, 1int,
{
    match m.file {
        None => None,
        Some(f) => if m.children@.len() == 0 {
            Some((leaf_model(f, root), commit_set(f.commits)))
        } else {
            let kids = forest_model(m.children@, root, m.children@.len() as int);
            let set = commit_set(f.commits).union(kids.1);
            Some(
                (
                    NodeModel {
                        name: m.name@,
                        kind: HotspotKind::Module,
                        file: relative_of(root, f.path@),
                        lines: module_lines(m) as usize,
                        commits: set.len() as usize,
                        children: seq![leaf_model(f, root)] + kids.0,
                    },
                    set,
                ),
            )
        },
    }
}

/// The nodes the first `k` modules of `ms` give, in order, and the union of
/// their commits.
pub open spec fn forest_model(ms: Seq<ModuleSource>, root: Seq<char>, k: int) -> (Seq<NodeModel>, Set<Seq<char>>)
    decreases ms, k,
{
    if k <= 0 || k > ms.len() {
        (Seq::empty(), Set::empty())
    } else {
        let prev = forest_model(ms, root, k - 1);
        match module_model(ms[k - 1], root) {
            Some(r) => (prev.0.push(r.0), prev.1.union(r.1)),
            None => prev,
        }
    }
}

/// The distinct members of a set, counted once each.
pub proof fn lemma_commit_count(s: &StrSet)
    requires
        s.item_seq().no_duplicates(),
    ensures
        commit_set(*s).len() == s.item_seq().len(),
        commit_set(*s).finite(),
        s@ == commit_set(*s),
{
    s.item_seq().unique_seq_to_set();
    s.lemma_items();
    assert(s@ =~= commit_set(*s));
}

/// Add the members of `more` to `acc`, each once.
pub fn absorb(acc: &mut StrSet, more: &StrSet)
    requires
        old(acc).item_seq().no_duplicates(),
    ensures
        final(acc).item_seq().no_duplicates(),
        commit_set(*final(acc)) == commit_set(*old(acc)).union(commit_set(*more)),
{
    proof {
        old(acc).lemma_items();
        more.lemma_items();
    }
    let mut i: usize = 0;
    while i < more.items.len()
        invariant
            i <= more.items@.len(),
            acc.item_seq().no_duplicates(),
            forall|k: Seq<char>| #[trigger] acc@.contains(k) <==> (old(acc)@.contains(k) || more.item_seq().take(i as int).contains(k)),
        decreases more.items.len() - i,
    {
        let ghost before = *acc;
        let item = more.items[i].clone();
        proof {
            before.lemma_items();
        }
        let added = acc.insert(item);
        proof {
            let prev = more.item_seq().take(i as int);
            let next = more.item_seq().take(i + 1);
            assert(next =~= prev.push(more.item_seq()[i as int]));
            if added {
                assert forall|a: int, b: int|
                    0 <= a < acc.item_seq().len() && 0 <= b < acc.item_seq().len() && a != b implies acc.item_seq()[a]
                    != acc.item_seq()[b] by {
                    let last = acc.item_seq().len() - 1;
                    if a == last {
                        assert(!before.item_seq().contains(acc.item_seq()[a]));
                        if acc.item_seq()[a] == acc.item_seq()[b] {
                            assert(before.item_seq()[b] == acc.item_seq()[b]);
                        }
                    } else if b == last {
                        assert(!before.item_seq().contains(acc.item_seq()[b]));
                        if acc.item_seq()[a] == acc.item_seq()[b] {
                            assert(before.item_seq()[a] == acc.item_seq()[a]);
                        }
                    } else {
                        assert(before.item_seq()[a] == acc.item_seq()[a]);
                        assert(before.item_seq()[b] == acc.item_seq()[b]);
                    }
                }
            }
            assert forall|k: Seq<char>| #[trigger] acc@.contains(k) <==> (old(acc)@.contains(k) || next.contains(k)) by {
                if prev.contains(k) {
                    let q = choose|q: int| 0 <= q < prev.len() && prev[q] == k;
                    assert(next[q] == k);
                }
                if next.contains(k) && k != more.item_seq()[i as int] {
                    let q = choose|q: int| 0 <= q < next.len() && next[q] == k;
                    assert(prev[q] == k);
                }
                if k == more.item_seq()[i as int] {
                    assert(next[i as int] == k);
                }
            }
        }
        i = i + 1;
    }
    proof {
        assert(more.item_seq().take(more.items@.len() as int) =~= more.item_seq());
        acc.lemma_items();
        assert(commit_set(*acc) =~= commit_set(*old(acc)).union(commit_set(*more)));
    }
}

/// The leaf of a file, given its number of distinct commits.
fn file_leaf(f: &FileStats, workspace_root: &str, commits: usize) -> (res: HotspotNode)
    requires
        commits == commit_set(f.commits).len(),
    ensures
        res@ == leaf_model(*f, workspace_root@),
{
    let name = match crate::paths::file_name(f.path.as_str()) {
        Some(n) => n,
        None => f.path.clone(),
    };
    let res = leaf(name, f.path.as_str(), workspace_root, f.lines, commits);
    assert(models_in(res.children@, 0) =~= Seq::<NodeModel>::empty());
    res
}

/// The distinct commits of a file, each once.
fn own_commits(f: &FileStats) -> (res: StrSet)
    ensures
        res.item_seq().no_duplicates(),
        commit_set(res) == commit_set(f.commits),
{
    let mut res = StrSet::new();
    proof {
        assert(res.item_seq().no_duplicates());
        assert(commit_set(res) =~= Set::<Seq<char>>::empty());
    }
    absorb(&mut res, &f.commits);
    proof {
        assert(commit_set(res) =~= commit_set(f.commits));
    }
    res
}

/// Build a module as a leaf, or, where it contains modules, as a container
/// holding its own file's leaf first; `None` for a module without a file.
/// Also gives the commits under it, each once.
pub fn build_module(m: &ModuleSource, workspace_root: &str) -> (res: Option<(HotspotNode, StrSet)>)
    requires
        module_lines(*m) <= usize::MAX,
    ensures
        res is None <==> m.file is None,
        res matches Some(r) ==> module_model(*m, workspace_root@) == Some((r.0@, commit_set(r.1)))
            && r.1.item_seq().no_duplicates() && r.0.lines == module_lines(*m),
    decreases *m,
{
    let f = match &m.file {
        None => {
            return None;
        },
        Some(f) => f,
    };
    let own = own_commits(f);
    proof {
        lemma_commit_count(&own);
    }
    let self_leaf = file_leaf(f, workspace_root, own.len());
    if m.children.len() == 0 {
        proof {
            assert(forest_lines(m.children@, 0) == 0);
        }
        return Some((self_leaf, own));
    }
    let ghost root = workspace_root@;
    let ghost ms = m.children@;
    let ghost first = leaf_model(*f, root);
    let mut children: Vec<HotspotNode> = Vec::new();
    children.push(self_leaf);
    let mut set = own;
    let mut lines: usize = f.lines;
    let mut i: usize = 0;
    proof {
        assert(forest_model(ms, root, 0) == (Seq::<NodeModel>::empty(), Set::<Seq<char>>::empty()));
        assert(commit_set(set) =~= commit_set(f.commits).union(Set::<Seq<char>>::empty()));
    }
    while i < m.children.len()
        invariant
            i <= ms.len(),
            ms == m.children@,
            root == workspace_root@,
            m.file == Some(*f),
            module_lines(*m) <= usize::MAX,
            module_lines(*m) == f.lines + forest_lines(ms, ms.len() as int),
            first == leaf_model(*f, root),
            children@.len() == 1 + forest_model(ms, root, i as int).0.len(),
            forall|j: int| 0 <= j < children@.len() ==> model_of(#[trigger] children@[j]) == (seq![first] + forest_model(ms, root, i as int).0)[j],
            set.item_seq().no_duplicates(),
            commit_set(set) == commit_set(f.commits).union(forest_model(ms, root, i as int).1),
            lines == f.lines + forest_lines(ms, i as int),
        decreases ms.len() - i,
    {
        proof {
            assert(decreases_to!(*m => m.children));
            assert(decreases_to!(m.children => m.children@[i as int]));
            lemma_forest_lines_le(ms, i + 1, ms.len() as int);
            lemma_forest_lines_le(ms, i as int, ms.len() as int);
        }
        let ghost before = children@;
        let ghost prev = forest_model(ms, root, i as int);
        match build_module(&m.children[i], workspace_root) {
            Some((node, s)) => {
                lines = lines + node.lines;
                absorb(&mut set, &s);
                children.push(node);
                proof {
                    let now = forest_model(ms, root, i + 1);
                    assert(now.0 == prev.0.push(model_of(node)));
                    assert(seq![first] + now.0 =~= (seq![first] + prev.0).push(model_of(node)));
                    assert forall|j: int| 0 <= j < children@.len() implies model_of(#[trigger] children@[j]) == (seq![first] + now.0)[j] by {
                        if j < before.len() {
                            assert(children@[j] == before[j]);
                        }
                    }
                    assert(commit_set(set) =~= commit_set(f.commits).union(now.1));
                }
            },
            None => {
                proof {
                    assert(forest_model(ms, root, i + 1) == prev);
                }
            },
        }
        i = i + 1;
    }
    proof {
        let kids = forest_model(ms, root, ms.len() as int);
        lemma_commit_count(&set);
        lemma_models_in(children@, children@.len() as int);
        assert(models_in(children@, children@.len() as int) =~= seq![first] + kids.0);
    }
    let count = set.len();
    let node = HotspotNode {
        name: m.name.clone(),
        kind: HotspotKind::Module,
        file: crate::paths::relative(workspace_root, f.path.as_str()),
        lines,
        commits: count,
        children,
    };
    Some((node, set))
}

/// The lines of a prefix of modules are no more than those of a longer one.
pub proof fn lemma_forest_lines_le(ms: Seq<ModuleSource>, j: int, k: int)
    requires
        0 <= j <= k <= ms.len(),
    ensures
        forest_lines(ms, j) <= forest_lines(ms, k),
    decreases k - j,
{
    if j < k {
        lemma_forest_lines_le(ms, j, k - 1);
    }
}


/// The lines of the first `k` files.
pub open spec fn roots_lines(fs: Seq<FileStats>, k: int) -> nat
    decreases k,
{
    if k <= 0 || k > fs.len() {
        0
    } else {
        roots_lines(fs, k - 1) + fs[k - 1].lines as nat
    }
}

/// The leaves of the first `k` files, in order, and the union of their
/// commits.
pub open spec fn roots_model(fs: Seq<FileStats>, root: Seq<char>, k: int) -> (Seq<NodeModel>, Set<Seq<char>>)
    decreases k,
{
    if k <= 0 || k > fs.len() {
        (Seq::empty(), Set::empty())
    } else {
        let prev = roots_model(fs, root, k - 1);
        (prev.0.push(leaf_model(fs[k - 1], root)), prev.1.union(commit_set(fs[k - 1].commits)))
    }
}

/// The lines of a crate's root files and of its modules.
pub open spec fn crate_lines(c: CrateSource) -> nat {
    roots_lines(c.roots@, c.roots@.len() as int) + forest_lines(c.modules@, c.modules@.len() as int)
}

/// The node a crate gives and the commits under it: named after the crate,
/// on its manifest, holding a leaf per root file first, then the nodes of its
/// modules that give one, with the lines of all and the commits of any.
pub open spec fn crate_model(c: CrateSource, root: Seq<char>) -> (NodeModel, Set<Seq<char>>) {
    let files = roots_model(c.roots@, root, c.roots@.len() as int);
    let kids = forest_model(c.modules@, root, c.modules@.len() as int);
    let set = files.1.union(kids.1);
    (
        NodeModel {
            name: c.name@,
            kind: HotspotKind::Crate,
            file: relative_of(root, c.manifest@),
            lines: crate_lines(c) as usize,
            commits: set.len() as usize,
            children: files.0 + kids.0,
        },
        set,
    )
}

/// The lines of a prefix of files are no more than those of a longer one.
pub proof fn lemma_roots_lines_le(fs: Seq<FileStats>, j: int, k: int)
    requires
        0 <= j <= k <= fs.len(),
    ensures
        roots_lines(fs, j) <= roots_lines(fs, k),
    decreases k - j,
{
    if j < k {
        lemma_roots_lines_le(fs, j, k - 1);
    }
}

/// Build a crate: a leaf per target root file, then its modules; also gives
/// the commits under it, each once.
pub fn build_crate(c: &CrateSource, workspace_root: &str) -> (res: (HotspotNode, StrSet))
    requires
        crate_lines(*c) <= usize::MAX,
    ensures
        crate_model(*c, workspace_root@) == (res.0@, commit_set(res.1)),
        res.1.item_seq().no_duplicates(),
        res.0.lines == crate_lines(*c),
{
    let ghost root = workspace_root@;
    let ghost fs = c.roots@;
    let ghost ms = c.modules@;
    let mut children: Vec<HotspotNode> = Vec::new();
    let mut set = StrSet::new();
    let mut lines: usize = 0;
    proof {
        assert(commit_set(set) =~= Set::<Seq<char>>::empty());
        lemma_roots_lines_le(fs, 0, fs.len() as int);
    }
    let mut i: usize = 0;
    while i < c.roots.len()
        invariant
            i <= fs.len(),
            fs == c.roots@,
            ms == c.modules@,
            root == workspace_root@,
            crate_lines(*c) <= usize::MAX,
            children@.len() == i,
            forall|j: int| 0 <= j < children@.len() ==> model_of(#[trigger] children@[j]) == roots_model(fs, root, i as int).0[j],
            roots_model(fs, root, i as int).0.len() == i,
            set.item_seq().no_duplicates(),
            commit_set(set) == roots_model(fs, root, i as int).1,
            lines == roots_lines(fs, i as int),
        decreases fs.len() - i,
    {
        proof {
            lemma_roots_lines_le(fs, i + 1, fs.len() as int);
        }
        let f = &c.roots[i];
        let own = own_commits(f);
        proof {
            lemma_commit_count(&own);
        }
        let node = file_leaf(f, workspace_root, own.len());
        absorb(&mut set, &own);
        lines = lines + f.lines;
        let ghost before = children@;
        children.push(node);
        proof {
            assert forall|j: int| 0 <= j < children@.len() implies model_of(#[trigger] children@[j]) == roots_model(fs, root, i + 1).0[j] by {
                if j < before.len() {
                    assert(children@[j] == before[j]);
                }
            }
            assert(commit_set(set) =~= roots_model(fs, root, i + 1).1);
        }
        i = i + 1;
    }
    let ghost files = roots_model(fs, root, fs.len() as int);
    proof {
        assert(forest_model(ms, root, 0) == (Seq::<NodeModel>::empty(), Set::<Seq<char>>::empty()));
        assert(files.0 + forest_model(ms, root, 0).0 =~= files.0);
        assert(commit_set(set) =~= files.1.union(forest_model(ms, root, 0).1));
    }
    let mut i: usize = 0;
    while i < c.modules.len()
        invariant
            i <= ms.len(),
            fs == c.roots@,
            ms == c.modules@,
            root == workspace_root@,
            crate_lines(*c) <= usize::MAX,
            files == roots_model(fs, root, fs.len() as int),
            files.0.len() == fs.len(),
            children@.len() == files.0.len() + forest_model(ms, root, i as int).0.len(),
            forall|j: int| 0 <= j < children@.len() ==> model_of(#[trigger] children@[j]) == (files.0 + forest_model(ms, root, i as int).0)[j],
            set.item_seq().no_duplicates(),
            commit_set(set) == files.1.union(forest_model(ms, root, i as int).1),
            lines == roots_lines(fs, fs.len() as int) + forest_lines(ms, i as int),
        decreases ms.len() - i,
    {
        proof {
            lemma_forest_lines_le(ms, i + 1, ms.len() as int);
        }
        let ghost before = children@;
        let ghost prev = forest_model(ms, root, i as int);
        match build_module(&c.modules[i], workspace_root) {
            Some((node, s)) => {
                lines = lines + node.lines;
                absorb(&mut set, &s);
                children.push(node);
                proof {
                    let now = forest_model(ms, root, i + 1);
                    assert(now.0 == prev.0.push(model_of(node)));
                    assert(files.0 + now.0 =~= (files.0 + prev.0).push(model_of(node)));
                    assert forall|j: int| 0 <= j < children@.len() implies model_of(#[trigger] children@[j]) == (files.0 + now.0)[j] by {
                        if j < before.len() {
                            assert(children@[j] == before[j]);
                        }
                    }
                    assert(commit_set(set) =~= files.1.union(now.1));
                }
            },
            None => {
                proof {
                    assert(forest_model(ms, root, i + 1) == prev);
                }
            },
        }
        i = i + 1;
    }
    proof {
        lemma_commit_count(&set);
        lemma_models_in(children@, children@.len() as int);
        assert(models_in(children@, children@.len() as int) =~= files.0 + forest_model(ms, root, ms.len() as int).0);
    }
    let count = set.len();
    let node = HotspotNode {
        name: c.name.clone(),
        kind: HotspotKind::Crate,
        file: crate::paths::relative(workspace_root, c.manifest.as_str()),
        lines,
        commits: count,
        children,
    };
    (node, set)
}


/// Two nodes at source positions `pi` and `pj` stand in this order when
/// sorted stably by name.
pub open spec fn name_pair(a: NodeModel, b: NodeModel, pi: int, pj: int) -> bool {
    seq_less(a.name, b.name) || (!seq_less(b.name, a.name) && pi < pj)
}

/// `s` is `src` sorted stably by name: each of its entries is the entry of
/// `src` at a distinct position `perm[i]`, in name order, nodes of equal
/// name in their order in `src`.
pub open spec fn stably_named(s: Seq<NodeModel>, src: Seq<NodeModel>, perm: Seq<int>) -> bool {
    &&& s.len() == perm.len()
    &&& forall|i: int| 0 <= i < s.len() ==> 0 <= #[trigger] perm[i] < src.len() && s[i] == src[perm[i]]
    &&& forall|i: int, j: int|
        0 <= i < j < s.len() ==> #[trigger] perm[i] != #[trigger] perm[j] && name_pair(s[i], s[j], perm[i], perm[j])
}

/// Where `a`'s name comes before `b`'s, every name comes after `a`'s or
/// before `b`'s.
pub proof fn lemma_name_weak(a: Seq<char>, b: Seq<char>, c: Seq<char>)
    requires
        seq_less(a, b),
    ensures
        seq_less(a, c) || seq_less(c, b),
{
    crate::sorting::lemma_less_total(a, c);
    if seq_less(c, a) {
        crate::sorting::lemma_less_transitive(c, a, b);
    }
}

/// The nodes sorted stably by name.
fn sort_by_name(nodes: Vec<HotspotNode>) -> (res: Vec<HotspotNode>)
    ensures
        res@.len() == nodes@.len(),
        exists|perm: Seq<int>| stably_named(node_models(res@), node_models(nodes@), perm),
{
    let ghost src = node_models(nodes@);
    let mut rest = nodes;
    let ghost all = rest@;
    let mut sorted: Vec<HotspotNode> = Vec::new();
    let ghost mut perm: Seq<int> = Seq::empty();
    let mut t: usize = 0;
    let len = rest.len();
    let mut pending: Vec<HotspotNode> = Vec::new();
    while rest.len() > 0
        invariant
            pending@.len() + rest@.len() == all.len(),
            forall|i: int| 0 <= i < pending@.len() ==> #[trigger] pending@[i] == all[all.len() - 1 - i],
            forall|i: int| 0 <= i < rest@.len() ==> #[trigger] rest@[i] == all[i],
        decreases rest@.len(),
    {
        let x = rest.pop().unwrap();
        pending.push(x);
    }
    proof {
        assert(src == node_models(all));
    }
    while pending.len() > 0
        invariant
            len == all.len(),
            src == node_models(all),
            t + pending@.len() == len,
            forall|i: int| 0 <= i < pending@.len() ==> #[trigger] pending@[i] == all[len - 1 - i],
            sorted@.len() == t,
            stably_named(node_models(sorted@), src, perm),
            forall|i: int| 0 <= i < perm.len() ==> #[trigger] perm[i] < t,
        decreases pending@.len(),
    {
        let c = pending.pop().unwrap();
        proof {
            assert(c == all[t as int]);
        }
        let cn = chars_of(c.name.as_str());
        let mut p: usize = 0;
        while p < sorted.len() && !less_than(&cn, &chars_of(sorted[p].name.as_str()))
            invariant
                p <= sorted@.len(),
                cn@ == c.name@,
                forall|q: int| 0 <= q < p ==> !seq_less(c.name@, (#[trigger] node_models(sorted@)[q]).name),
            decreases sorted.len() - p,
        {
            proof {
                assert(node_models(sorted@)[p as int] == model_of(sorted@[p as int]));
            }
            p = p + 1;
        }
        proof {
            if p < sorted@.len() {
                assert(node_models(sorted@)[p as int] == model_of(sorted@[p as int]));
            }
        }
        let ghost old_sorted = node_models(sorted@);
        let ghost old_perm = perm;
        let ghost cm = model_of(c);
        let ghost old_nodes = sorted@;
        sorted.insert(p, c);
        proof {
            assert(node_models(sorted@) =~= old_sorted.insert(p as int, cm)) by {
                assert(sorted@ == old_nodes.insert(p as int, c));
            }
            perm = old_perm.insert(p as int, t as int);
            assert(cm == src[t as int]);
            let rm = node_models(sorted@);
            assert forall|i: int| 0 <= i < rm.len() implies 0 <= #[trigger] perm[i] < src.len() && rm[i]
                == src[perm[i]] by {
                if i > p {
                    assert(rm[i] == old_sorted[i - 1] && perm[i] == old_perm[i - 1]);
                } else if i < p {
                    assert(rm[i] == old_sorted[i] && perm[i] == old_perm[i]);
                }
            }
            assert forall|i: int| 0 <= i < perm.len() implies #[trigger] perm[i] < t + 1 by {
                if i > p {
                    assert(perm[i] == old_perm[i - 1]);
                } else if i < p {
                    assert(perm[i] == old_perm[i]);
                }
            }
            assert forall|i: int, j: int| 0 <= i < j < rm.len() implies #[trigger] perm[i] != #[trigger] perm[j]
                && name_pair(rm[i], rm[j], perm[i], perm[j]) by {
                crate::sorting::lemma_less_irreflexive(cm.name);
                if j < p {
                    assert(rm[i] == old_sorted[i] && rm[j] == old_sorted[j]);
                    assert(perm[i] == old_perm[i] && perm[j] == old_perm[j]);
                } else if j == p {
                    assert(rm[i] == old_sorted[i] && perm[i] == old_perm[i]);
                    assert(old_perm[i] < t);
                } else if i < p {
                    assert(rm[i] == old_sorted[i] && rm[j] == old_sorted[j - 1]);
                    assert(perm[i] == old_perm[i] && perm[j] == old_perm[j - 1]);
                } else if i == p {
                    assert(rm[j] == old_sorted[j - 1] && perm[j] == old_perm[j - 1]);
                    assert(old_perm[j - 1] < t);
                    assert(seq_less(cm.name, old_sorted[p as int].name));
                    if j - 1 > p {
                        assert(name_pair(old_sorted[p as int], old_sorted[j - 1], old_perm[p as int], old_perm[j - 1]));
                        if seq_less(old_sorted[p as int].name, old_sorted[j - 1].name) {
                            crate::sorting::lemma_less_transitive(cm.name, old_sorted[p as int].name, old_sorted[j - 1].name);
                        }
                        lemma_name_weak(cm.name, old_sorted[p as int].name, old_sorted[j - 1].name);
                    }
                } else {
                    assert(rm[i] == old_sorted[i - 1] && rm[j] == old_sorted[j - 1]);
                    assert(perm[i] == old_perm[i - 1] && perm[j] == old_perm[j - 1]);
                }
            }
        }
        t = t + 1;
    }
    sorted
}

/// The name of the workspace node: the last component of the workspace
/// root, or nothing.
pub open spec fn workspace_name(root: Seq<char>) -> Seq<char> {
    match file_name_of(root) {
        Some(n) => n,
        None => Seq::empty(),
    }
}

/// The lines of the first `k` crates.
pub open spec fn crates_lines(cs: Seq<CrateSource>, k: int) -> nat
    decreases k,
{
    if k <= 0 || k > cs.len() {
        0
    } else {
        crates_lines(cs, k - 1) + crate_lines(cs[k - 1])
    }
}

/// The commits under the first `k` crates.
pub open spec fn crates_commits(cs: Seq<CrateSource>, root: Seq<char>, k: int) -> Set<Seq<char>>
    decreases k,
{
    if k <= 0 || k > cs.len() {
        Set::empty()
    } else {
        crates_commits(cs, root, k - 1).union(crate_model(cs[k - 1], root).1)
    }
}

/// The nodes of the crates, in order.
pub open spec fn crate_nodes(cs: Seq<CrateSource>, root: Seq<char>) -> Seq<NodeModel> {
    cs.map_values(|c: CrateSource| crate_model(c, root).0)
}

/// Whether `r` is the root of the hotspot tree of the crates `cs`: the one
/// crate's node where there is one; else a workspace node named after the
/// workspace root, on no file, with the lines of all crates, the commits of
/// any, and the crates' nodes sorted stably by name.
pub open spec fn tree_root(cs: Seq<CrateSource>, root: Seq<char>, r: NodeModel) -> bool {
    if cs.len() == 1 {
        r == crate_model(cs[0], root).0
    } else {
        &&& r.name == workspace_name(root)
        &&& r.kind == HotspotKind::Workspace
        &&& r.file == Seq::<char>::empty()
        &&& r.lines == crates_lines(cs, cs.len() as int)
        &&& r.commits == crates_commits(cs, root, cs.len() as int).len()
        &&& r.children.len() == cs.len()
        &&& exists|perm: Seq<int>| stably_named(r.children, crate_nodes(cs, root), perm)
    }
}

/// The lines of a prefix of crates are no more than those of a longer one.
pub proof fn lemma_crates_lines_le(cs: Seq<CrateSource>, j: int, k: int)
    requires
        0 <= j <= k <= cs.len(),
    ensures
        crates_lines(cs, j) <= crates_lines(cs, k),
    decreases k - j,
{
    if j < k {
        lemma_crates_lines_le(cs, j, k - 1);
    }
}

/// The workspace node over several crates: named after the workspace root,
/// its crates sorted by name, with their lines and commits.
fn build_workspace_root(crates: &Vec<CrateSource>, workspace_root: &str) -> (res: HotspotNode)
    requires
        crates_lines(crates@, crates@.len() as int) <= usize::MAX,
    ensures
        crates@.len() != 1 ==> tree_root(crates@, workspace_root@, res@),
{
    let ghost cs = crates@;
    let ghost root = workspace_root@;
    let mut nodes: Vec<HotspotNode> = Vec::new();
    let mut set = StrSet::new();
    let mut lines: usize = 0;
    proof {
        assert(commit_set(set) =~= Set::<Seq<char>>::empty());
    }
    let mut i: usize = 0;
    while i < crates.len()
        invariant
            i <= cs.len(),
            cs == crates@,
            root == workspace_root@,
            crates_lines(cs, cs.len() as int) <= usize::MAX,
            nodes@.len() == i,
            forall|j: int| 0 <= j < i ==> model_of(#[trigger] nodes@[j]) == crate_model(cs[j], root).0,
            set.item_seq().no_duplicates(),
            commit_set(set) == crates_commits(cs, root, i as int),
            lines == crates_lines(cs, i as int),
        decreases cs.len() - i,
    {
        proof {
            lemma_crates_lines_le(cs, i + 1, cs.len() as int);
        }
        let (node, s) = build_crate(&crates[i], workspace_root);
        lines = lines + node.lines;
        absorb(&mut set, &s);
        let ghost before = nodes@;
        nodes.push(node);
        proof {
            assert forall|j: int| 0 <= j < i + 1 implies model_of(#[trigger] nodes@[j]) == crate_model(cs[j], root).0 by {
                if j < i {
                    assert(nodes@[j] == before[j]);
                }
            }
            assert(commit_set(set) =~= crates_commits(cs, root, i + 1));
        }
        i = i + 1;
    }
    proof {
        assert(node_models(nodes@) =~= crate_nodes(cs, root));
        lemma_commit_count(&set);
    }
    let children = sort_by_name(nodes);
    let name = match crate::paths::file_name(workspace_root) {
        Some(n) => n,
        None => String::new(),
    };
    let count = set.len();
    let res = HotspotNode { name, kind: HotspotKind::Workspace, file: String::new(), lines, commits: count, children };
    proof {
        lemma_models_in(res.children@, res.children@.len() as int);
        assert(res@.children =~= node_models(res.children@));
        assert(res@.file =~= Seq::<char>::empty());
        assert(res@.name == workspace_name(root));
    }
    res
}

/// Build the hotspot tree of the workspace's crates: the crate's own node
/// where there is one crate, else a workspace node over them all; with the
/// highest single-file commit count, the workspace's commits, and the first
/// `n` file leaves with a score above zero by rank.
pub fn build(crates: &Vec<CrateSource>, workspace_root: &str, n: usize) -> (res: HotspotTree)
    requires
        crates_lines(crates@, crates@.len() as int) <= usize::MAX,
    ensures
        tree_root(crates@, workspace_root@, res.root@),
        res.max_file_commits == max_file_commits_of(res.root),
        res.total_commits == res.root.commits,
        exists|s: Seq<NodeModel>, perm: Seq<int>|
            {
                &&& s.len() == hot_leaves(leaves_of(res.root@)).len()
                &&& stably_ranked(s, hot_leaves(leaves_of(res.root@)), perm)
                &&& node_models(res.hotspots@) == s.take(if n < s.len() { n as int } else { s.len() as int })
            },
{
    let root = if crates.len() == 1 {
        proof {
            assert(crates_lines(crates@, 1) == crates_lines(crates@, 0) + crate_lines(crates@[0]));
        }
        build_crate(&crates[0], workspace_root).0
    } else {
        build_workspace_root(crates, workspace_root)
    };
    let max = max_file_commits(&root);
    let hotspots = rank_leaves(&root, n);
    let total = root.commits;
    HotspotTree { root, max_file_commits: max, total_commits: total, hotspots }
}


/// The lines of the nodes, added up.
pub open spec fn lines_of(nodes: Seq<NodeModel>) -> nat
    decreases nodes.len(),
{
    if nodes.len() == 0 {
        0
    } else {
        lines_of(nodes.drop_last()) + nodes.last().lines as nat
    }
}

/// Lines add up over a concatenation.
pub proof fn lemma_lines_of_add(a: Seq<NodeModel>, b: Seq<NodeModel>)
    ensures
        lines_of(a + b) == lines_of(a) + lines_of(b),
    decreases b.len(),
{
    if b.len() > 0 {
        lemma_lines_of_add(a, b.drop_last());
        assert((a + b).drop_last() =~= a + b.drop_last());
    } else {
        assert(a + b =~= a);
    }
}

/// The nodes the first `k` modules give hold their lines.
pub proof fn lemma_forest_lines_sum(ms: Seq<ModuleSource>, root: Seq<char>, k: int)
    requires
        0 <= k <= ms.len(),
        forest_lines(ms, k) <= usize::MAX,
    ensures
        lines_of(forest_model(ms, root, k).0) == forest_lines(ms, k),
    decreases k,
{
    if k > 0 {
        lemma_forest_lines_le(ms, k - 1, k);
        lemma_forest_lines_sum(ms, root, k - 1);
        let m = ms[k - 1];
        match module_model(m, root) {
            Some(r) => {
                let prev = forest_model(ms, root, k - 1);
                assert(forest_model(ms, root, k).0 == prev.0.push(r.0));
                assert(prev.0.push(r.0).drop_last() =~= prev.0);
                if m.children@.len() == 0 {
                    assert(forest_lines(m.children@, 0) == 0);
                }
            },
            None => {},
        }
    }
}

/// A module container's lines are those of its children added up: its own
/// file's and those of the modules under it.
pub proof fn lemma_module_lines_sum(m: ModuleSource, root: Seq<char>)
    requires
        module_lines(m) <= usize::MAX,
        module_model(m, root) is Some,
    ensures
        module_model(m, root) matches Some(r) && (r.0.kind == HotspotKind::File || r.0.lines == lines_of(
            r.0.children,
        )),
{
    let f = m.file->0;
    if m.children@.len() > 0 {
        let ms = m.children@;
        lemma_forest_lines_sum(ms, root, ms.len() as int);
        let kids = forest_model(ms, root, ms.len() as int);
        lemma_lines_of_add(seq![leaf_model(f, root)], kids.0);
        assert(seq![leaf_model(f, root)].drop_last() =~= Seq::<NodeModel>::empty());
        assert(lines_of(Seq::<NodeModel>::empty()) == 0);
        assert(seq![leaf_model(f, root)].last() == leaf_model(f, root));
        assert(lines_of(seq![leaf_model(f, root)]) == f.lines);
    }
}

/// The file leaves of the first `k` root files hold their lines.
pub proof fn lemma_roots_lines_sum(fs: Seq<FileStats>, root: Seq<char>, k: int)
    requires
        0 <= k <= fs.len(),
    ensures
        lines_of(roots_model(fs, root, k).0) == roots_lines(fs, k),
    decreases k,
{
    if k > 0 {
        lemma_roots_lines_sum(fs, root, k - 1);
        let prev = roots_model(fs, root, k - 1);
        assert(prev.0.push(leaf_model(fs[k - 1], root)).drop_last() =~= prev.0);
    }
}

/// A crate's lines are those of its children added up: its root files' and
/// its modules'.
pub proof fn lemma_crate_lines_sum(c: CrateSource, root: Seq<char>)
    requires
        crate_lines(c) <= usize::MAX,
    ensures
        crate_model(c, root).0.lines == lines_of(crate_model(c, root).0.children),
{
    let fs = c.roots@;
    let ms = c.modules@;
    lemma_roots_lines_sum(fs, root, fs.len() as int);
    lemma_forest_lines_sum(ms, root, ms.len() as int);
    lemma_lines_of_add(roots_model(fs, root, fs.len() as int).0, forest_model(ms, root, ms.len() as int).0);
}


/// The files of a node of the graph, as the hotspot map reads them: a
/// module's declaring file where it has one; a crate's manifest and target
/// root files.
pub struct NodeFiles {
    pub file: Option<FileStats>,
    pub manifest: String,
    pub roots: Vec<FileStats>,
}

/// The targets of the `Contains` edges out of `x` among the first `k`
/// edges, in the order the edges were added.
pub open spec fn contained(edges: Seq<(usize, usize, Edge)>, x: usize, k: int) -> Seq<usize>
    decreases k,
{
    if k <= 0 || k > edges.len() {
        Seq::empty()
    } else if edges[k - 1].0 == x && edges[k - 1].2 is Contains {
        contained(edges, x, k - 1).push(edges[k - 1].1)
    } else {
        contained(edges, x, k - 1)
    }
}

/// Whether two file figures are the same.
pub open spec fn same_stats(a: FileStats, b: FileStats) -> bool {
    a.path@ == b.path@ && a.lines == b.lines && a.commits.item_seq() == b.commits.item_seq()
}

/// Whether `m` is the module at node `x` of the graph, its contained
/// modules below it in the order they were contained, followed at most
/// `fuel` levels down.
pub open spec fn module_source_fits(m: ModuleSource, g: ArcGraph, files: Seq<NodeFiles>, x: usize, fuel: nat) -> bool
    decreases m, 1int,
{
    let kids = contained(g.edge_seq(), x, g.edge_seq().len() as int);
    &&& x < g.nodes().len()
    &&& m.name@ == node_name(g.nodes()[x as int])
    &&& match (m.file, files[x as int].file) {
        (Some(a), Some(b)) => same_stats(a, b),
        (None, None) => true,
        _ => false,
    }
    &&& if fuel == 0 {
        m.children@.len() == 0
    } else {
        m.children@.len() == kids.len() && sources_fit(m.children@, g, files, kids, (fuel - 1) as nat, kids.len() as int)
    }
}

/// Whether the first `k` of `ms` are the modules at the nodes `kids`.
pub open spec fn sources_fit(ms: Seq<ModuleSource>, g: ArcGraph, files: Seq<NodeFiles>, kids: Seq<usize>, fuel: nat, k: int) -> bool
    decreases ms, k,
{
    if k <= 0 {
        true
    } else if k > ms.len() || k > kids.len() {
        false
    } else {
        sources_fit(ms, g, files, kids, fuel, k - 1) && module_source_fits(ms[k - 1], g, files, kids[k - 1], fuel)
    }
}

/// Whether fitting the first `k` depends on the first `k` only.
pub proof fn lemma_sources_fit_prefix(a: Seq<ModuleSource>, b: Seq<ModuleSource>, g: ArcGraph, files: Seq<NodeFiles>, kids: Seq<usize>, fuel: nat, k: int)
    requires
        0 <= k <= a.len(),
        k <= b.len(),
        forall|q: int| 0 <= q < k ==> a[q] == b[q],
    ensures
        sources_fit(a, g, files, kids, fuel, k) == sources_fit(b, g, files, kids, fuel, k),
    decreases k,
{
    if k > 0 {
        lemma_sources_fit_prefix(a, b, g, files, kids, fuel, k - 1);
    }
}

/// A copy of a set of strings, member for member.
fn copy_set(s: &StrSet) -> (res: StrSet)
    ensures
        res.item_seq() == s.item_seq(),
{
    let mut items: Vec<String> = Vec::new();
    let mut i: usize = 0;
    while i < s.items.len()
        invariant
            i <= s.items@.len(),
            items@.len() == i,
            forall|q: int| 0 <= q < i ==> (#[trigger] items@[q])@ == s.items@[q]@,
        decreases s.items.len() - i,
    {
        items.push(s.items[i].clone());
        i = i + 1;
    }
    let res = StrSet { items };
    assert(res.item_seq() =~= s.item_seq());
    res
}

/// A copy of a file's figures.
fn copy_stats(f: &FileStats) -> (res: FileStats)
    ensures
        same_stats(res, *f),
{
    FileStats { path: f.path.clone(), lines: f.lines, commits: copy_set(&f.commits) }
}

/// The targets of the `Contains` edges out of `x`, in the order the edges
/// were added.
fn contained_nodes(g: &ArcGraph, x: usize) -> (res: Vec<usize>)
    ensures
        res@ == contained(g.edge_seq(), x, g.edge_seq().len() as int),
{
    let m = g.edge_count();
    let mut res: Vec<usize> = Vec::new();
    let mut k: usize = 0;
    while k < m
        invariant
            m == g.edge_seq().len(),
            k <= m,
            res@ == contained(g.edge_seq(), x, k as int),
        decreases m - k,
    {
        let (a, b, e) = g.edge(k);
        if a == x && matches!(e, Edge::Contains) {
            res.push(b);
        }
        k = k + 1;
    }
    res
}

/// The module at node `x` with the modules it contains, at most `fuel`
/// levels down.
pub fn module_source(g: &ArcGraph, files: &Vec<NodeFiles>, x: usize, fuel: usize) -> (res: ModuleSource)
    requires
        files@.len() == g.nodes().len(),
        x < g.nodes().len(),
    ensures
        module_source_fits(res, *g, files@, x, fuel as nat),
    decreases fuel,
{
    let n = g.node_count();
    let name = g.node(x).name().to_string();
    let file = match &files[x].file {
        Some(f) => Some(copy_stats(f)),
        None => None,
    };
    let mut children: Vec<ModuleSource> = Vec::new();
    if fuel > 0 {
        let kids = contained_nodes(g, x);
        let mut j: usize = 0;
        while j < kids.len()
            invariant
                files@.len() == g.nodes().len(),
                n == g.nodes().len(),
                arc_edges_within(g.edge_seq(), n as nat),
                fuel > 0,
                kids@ == contained(g.edge_seq(), x, g.edge_seq().len() as int),
                j <= kids@.len(),
                children@.len() == j,
                sources_fit(children@, *g, files@, kids@, (fuel - 1) as nat, j as int),
            decreases kids.len() - j,
        {
            let kid = kids[j];
            assert(kid < n) by {
                lemma_contained_within(g.edge_seq(), x, g.edge_seq().len() as int, n as nat, j as int);
            }
            let child = module_source(g, files, kid, fuel - 1);
            let ghost before = children@;
            children.push(child);
            proof {
                lemma_sources_fit_prefix(before, children@, *g, files@, kids@, (fuel - 1) as nat, j as int);
            }
            j = j + 1;
        }
    }
    ModuleSource { name, file, children }
}

/// The `Contains` targets lie among the nodes.
pub proof fn lemma_contained_within(edges: Seq<(usize, usize, Edge)>, x: usize, k: int, n: nat, j: int)
    requires
        arc_edges_within(edges, n),
        0 <= j < contained(edges, x, k).len(),
    ensures
        contained(edges, x, k)[j] < n,
    decreases k,
{
    if k > 0 && k <= edges.len() {
        if edges[k - 1].0 == x && edges[k - 1].2 is Contains && j == contained(edges, x, k - 1).len() {
            assert(edges[k - 1].1 < n);
        } else {
            lemma_contained_within(edges, x, k - 1, n, j);
        }
    }
}

/// Whether `c` is the crate at node `x`: its name, manifest and target root
/// files, and the modules it contains, at most as many levels down as the
/// graph has nodes.
pub open spec fn crate_source_fits(c: CrateSource, g: ArcGraph, files: Seq<NodeFiles>, x: usize) -> bool {
    let kids = contained(g.edge_seq(), x, g.edge_seq().len() as int);
    &&& c.name@ == node_name(g.nodes()[x as int])
    &&& c.manifest@ == files[x as int].manifest@
    &&& c.roots@.len() == files[x as int].roots@.len()
    &&& forall|q: int| 0 <= q < c.roots@.len() ==> same_stats(#[trigger] c.roots@[q], files[x as int].roots@[q])
    &&& c.modules@.len() == kids.len()
    &&& sources_fit(c.modules@, g, files, kids, g.nodes().len(), kids.len() as int)
}

/// The crates of the graph, in index order.
pub open spec fn crate_nodes_upto(nodes: Seq<Node>, k: int) -> Seq<usize>
    decreases k,
{
    if k <= 0 || k > nodes.len() {
        Seq::empty()
    } else if nodes[k - 1] is Crate {
        crate_nodes_upto(nodes, k - 1).push((k - 1) as usize)
    } else {
        crate_nodes_upto(nodes, k - 1)
    }
}

/// What the hotspot tree is built from: each crate of the graph in index
/// order, with its files and the modules it contains by `Contains` edges.
pub fn hotspot_sources(g: &ArcGraph, files: &Vec<NodeFiles>) -> (res: Vec<CrateSource>)
    requires
        files@.len() == g.nodes().len(),
    ensures
        res@.len() == crate_nodes_upto(g.nodes(), g.nodes().len() as int).len(),
        forall|q: int| 0 <= q < res@.len() ==> crate_source_fits(
            #[trigger] res@[q],
            *g,
            files@,
            crate_nodes_upto(g.nodes(), g.nodes().len() as int)[q],
        ),
{
    let n = g.node_count();
    let mut res: Vec<CrateSource> = Vec::new();
    let mut x: usize = 0;
    while x < n
        invariant
            files@.len() == g.nodes().len(),
            n == g.nodes().len(),
            arc_edges_within(g.edge_seq(), n as nat),
            x <= n,
            res@.len() == crate_nodes_upto(g.nodes(), x as int).len(),
            forall|q: int| 0 <= q < res@.len() ==> crate_source_fits(#[trigger] res@[q], *g, files@, crate_nodes_upto(g.nodes(), x as int)[q]),
        decreases n - x,
    {
        if g.node(x).is_crate() {
            let name = g.node(x).name().to_string();
            let mut roots: Vec<FileStats> = Vec::new();
            let src = &files[x].roots;
            let mut q: usize = 0;
            while q < src.len()
                invariant
                    q <= src@.len(),
                    roots@.len() == q,
                    forall|r: int| 0 <= r < q ==> same_stats(#[trigger] roots@[r], src@[r]),
                decreases src.len() - q,
            {
                roots.push(copy_stats(&src[q]));
                q = q + 1;
            }
            let kids = contained_nodes(g, x);
            let mut modules: Vec<ModuleSource> = Vec::new();
            let mut j: usize = 0;
            while j < kids.len()
                invariant
                    files@.len() == g.nodes().len(),
                    n == g.nodes().len(),
                    arc_edges_within(g.edge_seq(), n as nat),
                    kids@ == contained(g.edge_seq(), x, g.edge_seq().len() as int),
                    j <= kids@.len(),
                    modules@.len() == j,
                    sources_fit(modules@, *g, files@, kids@, n as nat, j as int),
                decreases kids.len() - j,
            {
                let kid = kids[j];
                assert(kid < n) by {
                    lemma_contained_within(g.edge_seq(), x, g.edge_seq().len() as int, n as nat, j as int);
                }
                let m = module_source(g, files, kid, n);
                let ghost before = modules@;
                modules.push(m);
                proof {
                    lemma_sources_fit_prefix(before, modules@, *g, files@, kids@, n as nat, j as int);
                }
                j = j + 1;
            }
            let c = CrateSource { name, manifest: files[x].manifest.clone(), roots, modules };
            assert(crate_source_fits(c, *g, files@, x));
            let ghost before = res@;
            res.push(c);
            proof {
                assert(crate_nodes_upto(g.nodes(), x + 1) == crate_nodes_upto(g.nodes(), x as int).push(x));
                assert forall|r: int| 0 <= r < res@.len() implies crate_source_fits(#[trigger] res@[r], *g, files@, crate_nodes_upto(g.nodes(), x + 1)[r]) by {
                    if r < before.len() {
                        assert(res@[r] == before[r]);
                    }
                }
            }
        }
        x = x + 1;
    }
    res
}

} // verus!
