//! The shared vocabulary: crate names, where an edge stands (production or
//! test), what a use takes from an item, and the dependency one `use` or path
//! resolves to.

use vstd::prelude::*;

use crate::collections::{StrMap, StrSet};
use crate::text::{chars_of, colons, string_of};

verus! {

/// `name` with every `-` replaced by `_`, the form code uses for a package.
pub open spec fn normalized(name: Seq<char>) -> Seq<char> {
    name.map_values(|c: char| if c == '-' { '_' } else { c })
}

/// Replace every `-` in a crate name by `_`.
pub fn normalize_crate_name(name: &str) -> (res: String)
    ensures
        res@ == normalized(name@),
{
    let chars = chars_of(name);
    let mut out: Vec<char> = Vec::new();
    let mut i: usize = 0;
    while i < chars.len()
        invariant
            i <= chars.len(),
            chars@ == name@,
            out@ == normalized(chars@.take(i as int)),
        decreases chars.len() - i,
    {
        let c = chars[i];
        out.push(if c == '-' { '_' } else { c });
        i = i + 1;
        assert(out@ =~= normalized(chars@.take(i as int)));
    }
    assert(chars@.take(chars.len() as int) =~= chars@);
    string_of(out.as_slice())
}

/// A copy of every string of `v`.
pub fn clone_strings(v: &Vec<String>) -> (res: Vec<String>)
    ensures
        res@ == v@,
{
    let mut res: Vec<String> = Vec::new();
    let mut i: usize = 0;
    while i < v.len()
        invariant
            i <= v.len(),
            res@ == v@.take(i as int),
        decreases v.len() - i,
    {
        res.push(v[i].clone());
        i = i + 1;
        assert(res@ =~= v@.take(i as int));
    }
    assert(v@.take(v.len() as int) =~= v@);
    res
}

/// A copy of an optional string.
pub fn clone_opt(o: &Option<String>) -> (res: Option<String>)
    ensures
        res == *o,
{
    match o {
        Some(s) => Some(s.clone()),
        None => None,
    }
}

/// The kind of test an edge is seen from.
#[derive(Clone, Copy, Debug, PartialEq, Eq, Structural)]
pub enum TestKind {
    Unit,
    Integration,
}

/// Whether an edge ships or is seen from tests only.
#[derive(Clone, Copy, Debug, PartialEq, Eq, Structural)]
pub enum UsageKind {
    Production,
    Test(TestKind),
}

/// Where a dependency stands: production or test code, and under which
/// features.
#[derive(Debug, PartialEq, Eq)]
pub struct EdgeContext {
    pub kind: UsageKind,
    pub features: Vec<String>,
}

impl View for EdgeContext {
    type V = (UsageKind, Seq<String>);

    open spec fn view(&self) -> (UsageKind, Seq<String>) {
        (self.kind, self.features@)
    }
}

impl EdgeContext {
    /// Production code under no feature.
    pub fn production() -> (res: Self)
        ensures
            res@ == (UsageKind::Production, Seq::<String>::empty()),
    {
        EdgeContext { kind: UsageKind::Production, features: Vec::new() }
    }

    /// Test code of the given kind, under no feature.
    pub fn test(kind: TestKind) -> (res: Self)
        ensures
            res@ == (UsageKind::Test(kind), Seq::<String>::empty()),
    {
        EdgeContext { kind: UsageKind::Test(kind), features: Vec::new() }
    }

    /// A copy.
    pub fn duplicate(&self) -> (res: Self)
        ensures
            res@ == self@,
    {
        EdgeContext { kind: self.kind, features: clone_strings(&self.features) }
    }
}

/// What a use takes from the item it names.
#[derive(Clone, Copy, Debug, PartialEq, Eq, Structural)]
pub enum UseCategory {
    Types,
    Fns,
    Values,
}

/// One use of an imported item: where, and what it takes from the item.
#[derive(Clone, Copy, Debug, PartialEq, Eq, Structural)]
pub struct SymbolUse {
    pub line: usize,
    pub category: UseCategory,
    /// A trait imported and never named, there for its methods.
    pub imported_for_methods: bool,
}

/// What a public definition is.
#[derive(Clone, Copy, Debug, PartialEq, Eq, Structural)]
pub enum DefKind {
    Fn,
    Struct,
    Enum,
    Trait,
    Const,
    Static,
    Type,
}

/// A public definition: its kind and the line it stands on.
#[derive(Clone, Copy, Debug, PartialEq, Eq, Structural)]
pub struct Definition {
    pub kind: DefKind,
    pub line: usize,
}

/// A workspace member as the analysis reads it: its name, its directory,
/// the workspace root it shares with every member, its target root files,
/// its manifest and its dependencies.
#[derive(Debug)]
pub struct CrateInfo {
    pub name: String,
    pub path: String,
    pub workspace_root: String,
    pub target_roots: Vec<String>,
    pub manifest: String,
    pub dependencies: Vec<String>,
    pub dev_dependencies: Vec<String>,
}

/// A module of a crate's tree: its name, its path from the crate root, its
/// child modules and the dependencies its file writes.
#[derive(Debug)]
pub struct ModuleInfo {
    pub name: String,
    pub full_path: String,
    pub children: Vec<ModuleInfo>,
    pub dependencies: Vec<DependencyRef>,
}

/// The module tree of one crate.
#[derive(Debug)]
pub struct ModuleTree {
    pub root: ModuleInfo,
}

/// The workspace's crates, by package name.
pub type WorkspaceCrates = StrSet;

/// Crate name (underscored) → the crate's module paths.
pub type ModulePathMap = StrMap<StrSet>;

/// Crate name (underscored) → the names the crate root exports.
pub type CrateExportMap = StrMap<StrSet>;

/// One dependency a file writes: the crate, module and item it points at,
/// where it is written, and the uses that name the item.
#[derive(Debug)]
pub struct DependencyRef {
    pub target_crate: String,
    /// Crate-relative module path; empty for the crate root.
    pub target_module: String,
    pub target_item: Option<String>,
    pub source_file: String,
    pub line: usize,
    pub context: EdgeContext,
    /// Written by a `use` that republishes the name.
    pub via_reexport: bool,
    pub uses: Vec<SymbolUse>,
}

/// A dependency as plain values.
pub ghost struct DepView {
    pub target_crate: Seq<char>,
    pub target_module: Seq<char>,
    pub target_item: Option<Seq<char>>,
    pub source_file: Seq<char>,
    pub line: usize,
    pub context: (UsageKind, Seq<String>),
    pub via_reexport: bool,
    pub uses: Seq<SymbolUse>,
}

/// The view of an optional string.
pub open spec fn opt_view(o: Option<String>) -> Option<Seq<char>> {
    match o {
        Some(s) => Some(s@),
        None => None,
    }
}

impl View for DependencyRef {
    type V = DepView;

    open spec fn view(&self) -> DepView {
        DepView {
            target_crate: self.target_crate@,
            target_module: self.target_module@,
            target_item: opt_view(self.target_item),
            source_file: self.source_file@,
            line: self.line,
            context: self.context@,
            via_reexport: self.via_reexport,
            uses: self.uses@,
        }
    }
}

/// `crate[::module]`: the crate, and the module where it is not the root.
pub open spec fn module_target_of(d: DepView) -> Seq<char> {
    if d.target_module.len() == 0 {
        d.target_crate
    } else {
        d.target_crate + colons() + d.target_module
    }
}

/// `crate[::module][::item]`: the crate, the module where it is not the
/// root, and the item where there is one.
pub open spec fn full_target_of(d: DepView) -> Seq<char> {
    let base = if d.target_module.len() == 0 {
        d.target_crate
    } else {
        d.target_crate + colons() + d.target_module
    };
    match d.target_item {
        Some(item) => base + colons() + item,
        None => base,
    }
}

/// What two dependencies must share to be one: the full target and the kind
/// of code they stand in.
pub open spec fn dep_key(d: DepView) -> (Seq<char>, UsageKind) {
    (full_target_of(d), d.context.0)
}

/// The views of a list of dependencies.
pub open spec fn dep_views(deps: Seq<DependencyRef>) -> Seq<DepView> {
    deps.map_values(|d: DependencyRef| d@)
}

/// The first index at or after `i` of a dependency with `key`, or -1.
pub open spec fn index_of_key(deps: Seq<DepView>, key: (Seq<char>, UsageKind), i: int) -> int
    decreases deps.len() - i,
{
    if i < 0 || i >= deps.len() {
        -1
    } else if dep_key(deps[i]) == key {
        i
    } else {
        index_of_key(deps, key, i + 1)
    }
}

pub proof fn lemma_index_of_key(deps: Seq<DepView>, key: (Seq<char>, UsageKind), i: int)
    requires
        0 <= i,
    ensures
        -1 <= index_of_key(deps, key, i) < deps.len(),
        index_of_key(deps, key, i) >= 0 ==> i <= index_of_key(deps, key, i) && dep_key(
            deps[index_of_key(deps, key, i)],
        ) == key,
        index_of_key(deps, key, i) < 0 ==> forall|j: int|
            i <= j < deps.len() ==> dep_key(#[trigger] deps[j]) != key,
    decreases deps.len() - i,
{
    if i < deps.len() && dep_key(deps[i]) != key {
        lemma_index_of_key(deps, key, i + 1);
    }
}

/// Whether a feature of that name is in the list.
pub open spec fn has_feature(fs: Seq<String>, f: String) -> bool {
    exists|i: int| 0 <= i < fs.len() && #[trigger] fs[i]@ == f@
}

/// `a` followed by each feature of `b` not yet there, in order.
pub open spec fn merged_features(a: Seq<String>, b: Seq<String>) -> Seq<String>
    decreases b.len(),
{
    if b.len() == 0 {
        a
    } else {
        let m = merged_features(a, b.drop_last());
        if has_feature(m, b.last()) {
            m
        } else {
            m.push(b.last())
        }
    }
}

/// `deps` with `dep` merged in: a dependency with the same key takes
/// `dep`'s uses after its own and the features it lacks, and otherwise
/// `dep` is appended.
pub open spec fn dedup_pushed(deps: Seq<DepView>, dep: DepView) -> Seq<DepView> {
    let i = index_of_key(deps, dep_key(dep), 0);
    if i < 0 {
        deps.push(dep)
    } else {
        deps.update(
            i,
            DepView {
                uses: deps[i].uses + dep.uses,
                context: (deps[i].context.0, merged_features(deps[i].context.1, dep.context.1)),
                ..deps[i]
            },
        )
    }
}

/// `deps` with each of `new` merged in, in order.
pub open spec fn dedup_pushed_all(deps: Seq<DepView>, new: Seq<DepView>) -> Seq<DepView>
    decreases new.len(),
{
    if new.len() == 0 {
        deps
    } else {
        dedup_pushed(dedup_pushed_all(deps, new.drop_last()), new.last())
    }
}

/// No two dependencies share their full target and kind.
pub open spec fn keys_distinct(deps: Seq<DepView>) -> bool {
    forall|i: int, j: int| 0 <= i < j < deps.len() ==> dep_key(#[trigger] deps[i]) != dep_key(#[trigger] deps[j])
}

/// The keys of a list of dependencies.
pub open spec fn dep_keys(deps: Seq<DepView>) -> Set<(Seq<char>, UsageKind)> {
    deps.map_values(|d: DepView| dep_key(d)).to_set()
}

/// Merging one dependency keeps the keys distinct and adds its key.
pub proof fn lemma_dedup_pushed_keys(deps: Seq<DepView>, dep: DepView)
    requires
        keys_distinct(deps),
    ensures
        keys_distinct(dedup_pushed(deps, dep)),
        dep_keys(dedup_pushed(deps, dep)) == dep_keys(deps).insert(dep_key(dep)),
{
    lemma_index_of_key(deps, dep_key(dep), 0);
    let i = index_of_key(deps, dep_key(dep), 0);
    let r = dedup_pushed(deps, dep);
    let f = |d: DepView| dep_key(d);
    if i < 0 {
        assert(r == deps.push(dep));
        assert forall|a: int, b: int| 0 <= a < b < r.len() implies dep_key(#[trigger] r[a]) != dep_key(#[trigger] r[b]) by {
            if b < deps.len() {
                assert(r[a] == deps[a] && r[b] == deps[b]);
            } else {
                assert(r[a] == deps[a]);
            }
        }
        assert(r.map_values(f) =~= deps.map_values(f).push(dep_key(dep)));
        deps.map_values(f).lemma_push_to_set_commute(dep_key(dep));
    } else {
        assert forall|a: int| 0 <= a < r.len() implies dep_key(#[trigger] r[a]) == dep_key(deps[a]) by {}
        assert(r.map_values(f) =~= deps.map_values(f));
        assert(deps.map_values(f)[i] == dep_key(dep));
        assert(dep_keys(deps).contains(dep_key(dep)));
        assert(dep_keys(deps).insert(dep_key(dep)) =~= dep_keys(deps));
    }
}

/// Merging keeps the keys of a list distinct: after any merges, no two
/// dependencies share their full target and kind, and the keys are those
/// of the list and of everything merged in.
pub proof fn lemma_dedup_keeps_keys_distinct(deps: Seq<DepView>, new: Seq<DepView>)
    requires
        keys_distinct(deps),
    ensures
        keys_distinct(dedup_pushed_all(deps, new)),
        dep_keys(dedup_pushed_all(deps, new)) == dep_keys(deps).union(dep_keys(new)),
    decreases new.len(),
{
    let f = |d: DepView| dep_key(d);
    if new.len() == 0 {
        assert(dep_keys(new) =~= Set::<(Seq<char>, UsageKind)>::empty());
        assert(dep_keys(deps).union(dep_keys(new)) =~= dep_keys(deps));
    } else {
        lemma_dedup_keeps_keys_distinct(deps, new.drop_last());
        lemma_dedup_pushed_keys(dedup_pushed_all(deps, new.drop_last()), new.last());
        assert(new.map_values(f) =~= new.drop_last().map_values(f).push(dep_key(new.last())));
        new.drop_last().map_values(f).lemma_push_to_set_commute(dep_key(new.last()));
        assert(dep_keys(deps).union(dep_keys(new.drop_last())).insert(dep_key(new.last())) =~= dep_keys(
            deps,
        ).union(dep_keys(new)));
    }
}

impl DependencyRef {
    /// A copy.
    pub fn duplicate(&self) -> (res: Self)
        ensures
            res@ == self@,
    {
        let mut uses: Vec<SymbolUse> = Vec::new();
        let mut i: usize = 0;
        while i < self.uses.len()
            invariant
                i <= self.uses.len(),
                uses@ == self.uses@.take(i as int),
            decreases self.uses.len() - i,
        {
            uses.push(self.uses[i]);
            i = i + 1;
            assert(uses@ =~= self.uses@.take(i as int));
        }
        assert(self.uses@.take(self.uses.len() as int) =~= self.uses@);
        DependencyRef {
            target_crate: self.target_crate.clone(),
            target_module: self.target_module.clone(),
            target_item: clone_opt(&self.target_item),
            source_file: self.source_file.clone(),
            line: self.line,
            context: self.context.duplicate(),
            via_reexport: self.via_reexport,
            uses,
        }
    }

    /// `crate[::module]`: the node a dependency points at.
    pub fn module_target(&self) -> (res: String)
        ensures
            res@ == module_target_of(self@),
    {
        let mut out = chars_of(self.target_crate.as_str());
        if !self.target_module.as_str().is_empty() {
            push_segment(&mut out, self.target_module.as_str());
        }
        string_of(out.as_slice())
    }

    /// `crate[::module][::item]`.
    pub fn full_target(&self) -> (res: String)
        ensures
            res@ == full_target_of(self@),
    {
        let mut out = chars_of(self.target_crate.as_str());
        if !self.target_module.as_str().is_empty() {
            push_segment(&mut out, self.target_module.as_str());
        }
        if let Some(item) = &self.target_item {
            push_segment(&mut out, item.as_str());
        }
        string_of(out.as_slice())
    }

    /// Merge `dep` into `deps`: where a dependency with the same full target
    /// and kind stands, it takes `dep`'s uses; otherwise `dep` is appended.
    pub fn dedup_push(deps: &mut Vec<DependencyRef>, dep: DependencyRef)
        ensures
            dep_views(final(deps)@) == dedup_pushed(dep_views(old(deps)@), dep@),
    {
        let ghost old_deps = deps@;
        let ghost views = dep_views(deps@);
        let key = dep.full_target();
        let mut i: usize = 0;
        proof {
            lemma_index_of_key(views, dep_key(dep@), 0);
        }
        while i < deps.len()
            invariant
                i <= deps@.len(),
                deps@ == old_deps,
                old_deps == old(deps)@,
                key@ == full_target_of(dep@),
                views == dep_views(deps@),
                index_of_key(views, dep_key(dep@), 0) == index_of_key(views, dep_key(dep@), i as int),
            decreases deps.len() - i,
        {
            assert(views[i as int] == deps@[i as int]@);
            let k = deps[i].full_target();
            if k == key && deps[i].context.kind == dep.context.kind {
                let mut merged = deps[i].duplicate();
                let mut j: usize = 0;
                let ghost base = merged.uses@;
                while j < dep.uses.len()
                    invariant
                        j <= dep.uses.len(),
                        i < deps@.len(),
                        merged@ == (DepView { uses: base + dep.uses@.take(j as int), ..deps@[i as int]@ }),
                    decreases dep.uses.len() - j,
                {
                    merged.uses.push(dep.uses[j]);
                    j = j + 1;
                    assert(merged.uses@ =~= base + dep.uses@.take(j as int));
                }
                assert(dep.uses@.take(dep.uses.len() as int) =~= dep.uses@);
                let ghost base_features = merged.context.features@;
                let mut f: usize = 0;
                while f < dep.context.features.len()
                    invariant
                        f <= dep.context.features.len(),
                        i < deps@.len(),
                        merged.context.features@ == merged_features(base_features, dep.context.features@.take(f as int)),
                        merged@ == (DepView {
                            uses: base + dep.uses@,
                            context: (deps@[i as int]@.context.0, merged.context.features@),
                            ..deps@[i as int]@
                        }),
                    decreases dep.context.features.len() - f,
                {
                    let feature = &dep.context.features[f];
                    let mut present = false;
                    let mut q: usize = 0;
                    while q < merged.context.features.len()
                        invariant
                            q <= merged.context.features@.len(),
                            present == exists|r: int| 0 <= r < q && #[trigger] merged.context.features@[r]@ == feature@,
                        decreases merged.context.features.len() - q,
                    {
                        if crate::collections::str_eq(merged.context.features[q].as_str(), feature.as_str()) {
                            present = true;
                        }
                        q = q + 1;
                    }
                    proof {
                        assert(dep.context.features@.take(f + 1).drop_last() =~= dep.context.features@.take(f as int));
                        assert(dep.context.features@.take(f + 1).last() == *feature);
                    }
                    if !present {
                        merged.context.features.push(feature.clone());
                    }
                    f = f + 1;
                }
                assert(dep.context.features@.take(f as int) =~= dep.context.features@);
                assert(dep_key(deps@[i as int]@) == dep_key(dep@));
                assert(index_of_key(views, dep_key(dep@), i as int) == i);
                deps.set(i, merged);
                assert(dep_views(deps@) =~= dedup_pushed(views, dep@));
                return;
            }
            i = i + 1;
        }
        deps.push(dep);
        assert(dep_views(deps@) =~= dedup_pushed(views, dep@));
    }
}

/// Append `::` and `seg` to `out`.
fn push_segment(out: &mut Vec<char>, seg: &str)
    ensures
        final(out)@ == old(out)@ + colons() + seg@,
{
    out.push(':');
    out.push(':');
    let chars = chars_of(seg);
    let ghost before = out@;
    let mut i: usize = 0;
    while i < chars.len()
        invariant
            i <= chars.len(),
            out@ == before + chars@.take(i as int),
        decreases chars.len() - i,
    {
        out.push(chars[i]);
        i = i + 1;
        assert(out@ =~= before + chars@.take(i as int));
    }
    assert(chars@.take(chars.len() as int) =~= chars@);
    assert(out@ =~= old(out)@ + colons() + seg@);
}

} // verus!
