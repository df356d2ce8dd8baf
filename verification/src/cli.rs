//! The command line as plain values: the subcommands and flags, the
//! decisions taken from them, and the exit status a run's judgment maps to.

use vstd::prelude::*;

use crate::analyze::exports::owned;
use crate::collections::StrMap;
use crate::hotspots::{HotspotKind, HotspotNode, HotspotTree};
use crate::layout::jump::{JumpTable, LocationId};
use crate::model::{clone_strings, CrateInfo};
use crate::paths::{join, join_of, parent, parent_of};

verus! {

/// The `cargo` wrapper of `cargo arc`.
#[derive(Debug)]
pub enum Cargo {
    /// Visualize workspace dependencies or check architecture rules.
    Arc(ArcCommand),
}

/// The flags of `cargo arc`.
#[derive(Debug)]
pub struct ArcCommand {
    pub command: Option<Command>,
    pub common: CommonArgs,
    /// Output file (default: stdout).
    pub output: Option<String>,
    /// Print the volatility report instead of the diagram.
    pub volatility: bool,
    /// Disable git volatility analysis in the diagram.
    pub no_volatility: bool,
    /// Volatility analysis period in months.
    pub volatility_months: usize,
    /// Low volatility threshold.
    pub volatility_low: usize,
    /// High volatility threshold.
    pub volatility_high: usize,
    /// Include outside crate dependencies in the diagram.
    pub externals: bool,
    /// Include transitive outside dependencies.
    pub transitive_deps: bool,
    /// Initial expand level of the diagram.
    pub expand_level: Option<usize>,
    /// The theme the diagram is pinned to, by name.
    pub theme: Option<String>,
}

/// The subcommands.
#[derive(Debug)]
pub enum Command {
    /// Check architecture rules against the dependency graph.
    Check(CheckArgs),
    /// Serve the diagram and resolve jump targets for an editor plugin.
    Ui(UiArgs),
    /// Render the hotspot map.
    Hotspots(HotspotsArgs),
}

/// The flags of `ui`.
#[derive(Debug)]
pub struct UiArgs {
    /// Port to serve on; a free one where none is given.
    pub port: Option<u16>,
}

/// The flags of `check`.
#[derive(Debug)]
pub struct CheckArgs {
    /// Path to the rules file.
    pub rules: Option<String>,
    /// List the silenced violations instead of only counting them.
    pub show_silenced: bool,
    /// Rewrite the baseline instead of checking.
    pub generate_baseline: bool,
}

/// The flags of `hotspots`.
#[derive(Debug)]
pub struct HotspotsArgs {
    /// Output file (default: stdout).
    pub output: Option<String>,
    /// Number of top hotspots to rank.
    pub hotspots: usize,
}

/// The default of `--hotspots`, and the count `ui` ranks its map with.
pub const DEFAULT_HOTSPOTS: usize = 10;

/// The flags shared by the diagram and check modes.
#[derive(Debug)]
pub struct CommonArgs {
    /// Path to `Cargo.toml`.
    pub manifest_path: String,
    /// Features to activate.
    pub features: Vec<String>,
    pub all_features: bool,
    pub no_default_features: bool,
    /// Include test code in the analysis.
    pub include_tests: bool,
    /// Include pure re-export cycles in cycle analysis.
    pub include_reexports: bool,
    /// Debug output to stderr.
    pub debug: bool,
}

/// What a run judged. A run that errored judged nothing.
#[derive(Clone, Copy, Debug, PartialEq, Eq, Structural)]
pub enum Judgment {
    Clean,
    Negative,
}

impl Judgment {
    /// The process exit status: 0 for a clean run, 1 for a negative one.
    pub fn exit_code(self) -> (res: u8)
        ensures
            self == Judgment::Clean ==> res == 0,
            self == Judgment::Negative ==> res == 1,
    {
        match self {
            Judgment::Clean => 0,
            Judgment::Negative => 1,
        }
    }
}

/// What a run of `cargo arc` does, by its flags.
#[derive(Clone, Copy, Debug, PartialEq, Eq, Structural)]
pub enum RunMode {
    Check,
    Ui,
    Hotspots,
    VolatilityReport,
    Diagram,
}

impl ArcCommand {
    /// What this command line runs: a subcommand where one is given, else
    /// the volatility report where asked for, else the diagram.
    pub fn mode(&self) -> (res: RunMode)
        ensures
            res == match self.command {
                Some(Command::Check(_)) => RunMode::Check,
                Some(Command::Ui(_)) => RunMode::Ui,
                Some(Command::Hotspots(_)) => RunMode::Hotspots,
                None => if self.volatility {
                    RunMode::VolatilityReport
                } else {
                    RunMode::Diagram
                },
            },
    {
        match &self.command {
            Some(Command::Check(_)) => RunMode::Check,
            Some(Command::Ui(_)) => RunMode::Ui,
            Some(Command::Hotspots(_)) => RunMode::Hotspots,
            None => if self.volatility {
                RunMode::VolatilityReport
            } else {
                RunMode::Diagram
            },
        }
    }
}

/// Which features the analysis activates, and whether it reads tests.
#[derive(Debug)]
pub struct FeatureConfig {
    pub features: Vec<String>,
    pub all_features: bool,
    pub no_default_features: bool,
    pub include_tests: bool,
    pub debug: bool,
}

/// The feature configuration the shared flags ask for.
pub fn build_feature_config(common: &CommonArgs) -> (res: FeatureConfig)
    ensures
        res.features@ == common.features@,
        res.all_features == common.all_features,
        res.no_default_features == common.no_default_features,
        res.include_tests == common.include_tests,
        res.debug == common.debug,
{
    FeatureConfig {
        features: clone_strings(&common.features),
        all_features: common.all_features,
        no_default_features: common.no_default_features,
        include_tests: common.include_tests,
        debug: common.debug,
    }
}

/// The directory of the manifest, where the repository is looked for: the
/// manifest's parent, or `.` where it has none or an empty one.
pub open spec fn repo_path_of(manifest: Seq<char>) -> Seq<char> {
    match parent_of(manifest) {
        Some(p) => if p.len() > 0 {
            p
        } else {
            seq!['.']
        },
        None => seq!['.'],
    }
}

/// The directory of the manifest, where the repository is looked for.
pub fn resolve_repo_path(manifest_path: &str) -> (res: String)
    ensures
        res@ == repo_path_of(manifest_path@),
{
    match parent(manifest_path) {
        Some(p) => if p.as_str().is_empty() {
            let dot = vec!['.'];
            assert(dot@ =~= seq!['.']);
            crate::text::string_of(dot.as_slice())
        } else {
            p
        },
        None => {
            let dot = vec!['.'];
            assert(dot@ =~= seq!['.']);
            crate::text::string_of(dot.as_slice())
        },
    }
}

/// Read the workspace root off the crates, all of whose members share it;
/// `None` when the workspace has no crates to determine it from.
pub fn workspace_root_of(crates: &[CrateInfo]) -> (res: Option<String>)
    ensures
        crates@.len() == 0 ==> res is None,
        crates@.len() > 0 ==> (res matches Some(r) && r@ == crates@[0].workspace_root@),
{
    if crates.len() == 0 {
        None
    } else {
        Some(crates[0].workspace_root.clone())
    }
}

/// The files of the file leaves under `node`, in walk order.
pub open spec fn file_leaves(node: HotspotNode) -> Seq<Seq<char>>
    decreases node, 1int,
{
    (if node.kind == HotspotKind::File {
        seq![node.file@]
    } else {
        Seq::empty()
    }) + children_leaves(node.children@, node.children@.len() as int)
}

/// The files of the file leaves under the first `k` nodes, in walk order.
pub open spec fn children_leaves(nodes: Seq<HotspotNode>, k: int) -> Seq<Seq<char>>
    decreases nodes, k,
{
    if k <= 0 || k > nodes.len() {
        Seq::empty()
    } else {
        children_leaves(nodes, k - 1) + file_leaves(nodes[k - 1])
    }
}

/// The table's entries for the leaves: each leaf's file below the
/// workspace root, at line 1.
pub open spec fn leaf_entries(root: Seq<char>, leaves: Seq<Seq<char>>) -> Seq<(Seq<char>, usize)> {
    leaves.map_values(|f: Seq<char>| (join_of(root, f), 1usize))
}

/// Each leaf's file mapped to the id its entry got, the first of the
/// leaves getting `base`; a later leaf of the same file wins.
pub open spec fn leaf_ids(leaves: Seq<Seq<char>>, base: int) -> Map<Seq<char>, int>
    decreases leaves.len(),
{
    if leaves.len() == 0 {
        Map::empty()
    } else {
        leaf_ids(leaves.drop_last(), base).insert(leaves.last(), base + leaves.len() - 1)
    }
}

/// The ids of a map of jump targets, as numbers.
pub open spec fn id_numbers(m: Map<Seq<char>, LocationId>) -> Map<Seq<char>, int> {
    m.map_values(|l: LocationId| l.index() as int)
}

/// Register the file leaves under `node`, in walk order.
fn register_walk(
    node: &HotspotNode,
    table: &mut JumpTable,
    workspace_root: &str,
    targets: &mut StrMap<LocationId>,
)
    ensures
        final(table).entries_view() == old(table).entries_view() + leaf_entries(workspace_root@, file_leaves(*node)),
        final(table).files_view() == old(table).files_view(),
        id_numbers(final(targets)@) == id_numbers(old(targets)@).union_prefer_right(
            leaf_ids(file_leaves(*node), old(table).entries_view().len() as int),
        ),
    decreases *node, 1int,
{
    let ghost start_entries = table.entries_view();
    let ghost start_targets = id_numbers(targets@);
    if node.kind == HotspotKind::File {
        let id = table.insert(join(workspace_root, node.file.as_str()), 1);
        targets.insert(node.file.clone(), id);
        proof {
            assert(id_numbers(targets@) =~= start_targets.insert(node.file@, start_entries.len() as int));
        }
    }
    let ghost own = if node.kind == HotspotKind::File {
        seq![node.file@]
    } else {
        Seq::<Seq<char>>::empty()
    };
    proof {
        assert(table.entries_view() =~= start_entries + leaf_entries(workspace_root@, own));
        assert(leaf_ids(own, start_entries.len() as int) =~= if node.kind == HotspotKind::File {
            Map::<Seq<char>, int>::empty().insert(node.file@, start_entries.len() as int)
        } else {
            Map::<Seq<char>, int>::empty()
        }) by {
            if node.kind == HotspotKind::File {
                assert(own.drop_last() =~= Seq::<Seq<char>>::empty());
                assert(leaf_ids(Seq::<Seq<char>>::empty(), start_entries.len() as int) =~= Map::<Seq<char>, int>::empty());
            } else {
                assert(leaf_ids(own, start_entries.len() as int) =~= Map::<Seq<char>, int>::empty());
            }
        }
        assert(id_numbers(targets@) =~= start_targets.union_prefer_right(leaf_ids(own, start_entries.len() as int)));
    }
    register_children(&node.children, node.children.len(), table, workspace_root, targets);
    proof {
        lemma_leaves_concat(own, children_leaves(node.children@, node.children@.len() as int), workspace_root@, start_entries, start_targets);
    }
}

/// Entries and ids of two runs of leaves, one after the other, are those of
/// the runs joined.
proof fn lemma_leaves_concat(
    a: Seq<Seq<char>>,
    b: Seq<Seq<char>>,
    root: Seq<char>,
    entries: Seq<(Seq<char>, usize)>,
    targets: Map<Seq<char>, int>,
)
    ensures
        entries + leaf_entries(root, a) + leaf_entries(root, b) == entries + leaf_entries(root, a + b),
        targets.union_prefer_right(leaf_ids(a, entries.len() as int)).union_prefer_right(
            leaf_ids(b, (entries.len() + a.len()) as int),
        ) == targets.union_prefer_right(leaf_ids(a + b, entries.len() as int)),
    decreases b.len(),
{
    assert(leaf_entries(root, a + b) =~= leaf_entries(root, a) + leaf_entries(root, b));
    if b.len() == 0 {
        assert(a + b =~= a);
        assert(targets.union_prefer_right(leaf_ids(a, entries.len() as int)).union_prefer_right(
            leaf_ids(b, (entries.len() + a.len()) as int),
        ) =~= targets.union_prefer_right(leaf_ids(a, entries.len() as int)));
    } else {
        lemma_leaves_concat(a, b.drop_last(), root, entries, targets);
        let n = entries.len() as int;
        let m = (entries.len() + a.len()) as int;
        let l = targets.union_prefer_right(leaf_ids(a, n));
        let k = b.last();
        let v = n + a.len() + b.len() - 1;
        assert((a + b).drop_last() =~= a + b.drop_last());
        assert((a + b).last() == k);
        assert(leaf_ids(b, m) == leaf_ids(b.drop_last(), m).insert(k, v));
        assert(leaf_ids(a + b, n) == leaf_ids(a + b.drop_last(), n).insert(k, v));
        assert(l.union_prefer_right(leaf_ids(b, m)) =~= l.union_prefer_right(leaf_ids(b.drop_last(), m)).insert(k, v));
        assert(targets.union_prefer_right(leaf_ids(a + b, n)) =~= targets.union_prefer_right(
            leaf_ids(a + b.drop_last(), n),
        ).insert(k, v));
    }
}

/// Register the file leaves under the first `n` nodes, in walk order.
fn register_children(
    nodes: &Vec<HotspotNode>,
    n: usize,
    table: &mut JumpTable,
    workspace_root: &str,
    targets: &mut StrMap<LocationId>,
)
    requires
        n <= nodes.len(),
    ensures
        final(table).entries_view() == old(table).entries_view() + leaf_entries(workspace_root@, children_leaves(nodes@, n as int)),
        final(table).files_view() == old(table).files_view(),
        id_numbers(final(targets)@) == id_numbers(old(targets)@).union_prefer_right(
            leaf_ids(children_leaves(nodes@, n as int), old(table).entries_view().len() as int),
        ),
    decreases nodes@, n,
{
    if n == 0 {
        assert(leaf_entries(workspace_root@, Seq::<Seq<char>>::empty()) =~= Seq::<(Seq<char>, usize)>::empty());
        assert(table.entries_view() + leaf_entries(workspace_root@, Seq::<Seq<char>>::empty()) =~= table.entries_view());
        assert(id_numbers(targets@).union_prefer_right(Map::<Seq<char>, int>::empty()) =~= id_numbers(targets@));
        return;
    }
    let ghost start_entries = table.entries_view();
    let ghost start_targets = id_numbers(targets@);
    register_children(nodes, n - 1, table, workspace_root, targets);
    let ghost mid_entries = table.entries_view();
    register_walk(&nodes[n - 1], table, workspace_root, targets);
    proof {
        let a = children_leaves(nodes@, n - 1);
        let b = file_leaves(nodes@[n - 1]);
        assert(mid_entries.len() == start_entries.len() + a.len());
        lemma_leaves_concat(a, b, workspace_root@, start_entries, start_targets);
    }
}

/// Add a line-1 jump target to `table` for every file leaf of `tree`, and
/// return each leaf's file mapped to its id. The table's node-file lookup
/// stays as it was.
pub fn register_hotspot_targets(table: &mut JumpTable, tree: &HotspotTree, workspace_root: &str) -> (res: StrMap<
    LocationId,
>)
    ensures
        final(table).entries_view() == old(table).entries_view() + leaf_entries(workspace_root@, file_leaves(tree.root)),
        final(table).files_view() == old(table).files_view(),
        id_numbers(res@) == leaf_ids(file_leaves(tree.root), old(table).entries_view().len() as int),
{
    let mut targets: StrMap<LocationId> = StrMap::new();
    assert(id_numbers(targets@) =~= Map::<Seq<char>, int>::empty());
    let ghost base = old(table).entries_view().len() as int;
    register_walk(&tree.root, table, workspace_root, &mut targets);
    assert(Map::<Seq<char>, int>::empty().union_prefer_right(leaf_ids(file_leaves(tree.root), base))
        =~= leaf_ids(file_leaves(tree.root), base));
    targets
}

} // verus!
