//! What every name of one file means, per binding region: module aliases,
//! names bound to something outside the crate, names bound to items, glob
//! imports, and the names the file defines itself.
//!
//! A `use` binds in its enclosing module or block only. A reference sees a
//! binding when the binding's region is the reference's own region or one
//! enclosing it; the innermost region that binds the name wins.

use vstd::prelude::*;

use crate::analyze::crate_prefix;
use crate::analyze::categories::{glob_payload_known, star};
use crate::analyze::exports::{module_info_of, owned};
use crate::analyze::resolution::{
    bare_module_dep, parse_bare_module_import, resolve_single_path, single_path_dep, CtxView,
    ResolutionContext,
};
use crate::analyze::use_tree::{is_reexport_visibility, reexports, resolve_use_tree, tree_paths, CollectedUse};
use crate::collections::{str_eq, StrSet};
use crate::model::{full_target_of, normalize_crate_name, normalized, DepView, DependencyRef, EdgeContext, UsageKind};
use crate::text::{chars_of, colons, find, find_from, occurs_at, slice_of, string_of};

verus! {

/// The regions around `r`, innermost first: `r` itself, then its parent,
/// up to the file.
pub open spec fn enclosing_of(parents: Seq<Option<usize>>, r: usize) -> Seq<usize>
    decreases r,
{
    if r < parents.len() && parents[r as int] is Some && parents[r as int]->0 < r {
        seq![r] + enclosing_of(parents, parents[r as int]->0)
    } else {
        seq![r]
    }
}

/// The binding regions of one file, as parent links. Region 0 is the file
/// itself; every other region has a parent opened before it.
#[derive(Debug)]
pub struct BindingRegions {
    pub parents: Vec<Option<usize>>,
}

impl BindingRegions {
    /// The file region comes first and has no parent; every other region's
    /// parent comes before it.
    pub open spec fn wf(&self) -> bool {
        &&& self.parents@.len() >= 1
        &&& self.parents@[0] is None
        &&& forall|i: int|
            1 <= i < self.parents@.len() ==> (#[trigger] self.parents@[i] is Some
                && self.parents@[i]->0 < i)
    }

    /// The file region alone.
    pub fn new() -> (res: Self)
        ensures
            res.wf(),
            res.parents@ == seq![None::<usize>],
    {
        let res = BindingRegions { parents: vec![None] };
        assert(res.parents@ =~= seq![None::<usize>]);
        res
    }

    /// Open a region inside `parent`; its number.
    pub fn open(&mut self, parent: usize) -> (res: usize)
        requires
            old(self).wf(),
            parent < old(self).parents@.len(),
        ensures
            final(self).wf(),
            res == old(self).parents@.len(),
            final(self).parents@ == old(self).parents@.push(Some(parent)),
    {
        let res = self.parents.len();
        self.parents.push(Some(parent));
        res
    }

    /// The number of regions.
    pub fn count(&self) -> (res: usize)
        ensures
            res == self.parents@.len(),
    {
        self.parents.len()
    }

    /// A region and everything enclosing it, innermost first.
    pub fn enclosing(&self, region: usize) -> (res: Vec<usize>)
        ensures
            res@ == enclosing_of(self.parents@, region),
        decreases region,
    {
        if region < self.parents.len() {
            match self.parents[region] {
                Some(p) => {
                    if p < region {
                        let rest = self.enclosing(p);
                        let mut res = vec![region];
                        let mut k: usize = 0;
                        while k < rest.len()
                            invariant
                                k <= rest.len(),
                                res@ == seq![region] + rest@.take(k as int),
                            decreases rest.len() - k,
                        {
                            res.push(rest[k]);
                            k = k + 1;
                            assert(res@ =~= seq![region] + rest@.take(k as int));
                        }
                        assert(rest@.take(rest.len() as int) =~= rest@);
                        return res;
                    }
                },
                None => {},
            }
        }
        let res = vec![region];
        assert(res@ =~= seq![region]);
        res
    }
}

/// The last start at or before `i` of `pat` in `s`, or -1.
pub open spec fn rfind_from(s: Seq<char>, pat: Seq<char>, i: int) -> int
    decreases i + 1,
{
    if i < 0 {
        -1
    } else if occurs_at(s, pat, i) {
        i
    } else {
        rfind_from(s, pat, i - 1)
    }
}

/// The segment before the first `::`, or the whole path.
pub open spec fn first_segment(path: Seq<char>) -> Seq<char> {
    let i = find_from(path, colons(), 0);
    if i < 0 {
        path
    } else {
        path.take(i)
    }
}

/// What follows the first `::`, where there is one.
pub open spec fn after_first(path: Seq<char>) -> Option<Seq<char>> {
    let i = find_from(path, colons(), 0);
    if i < 0 {
        None
    } else {
        Some(path.skip(i + 2))
    }
}

/// The segment after the last `::`, or the whole path: what
/// `rsplit("::").next()` gives.
pub open spec fn last_segment(path: Seq<char>) -> Seq<char> {
    let i = rfind_from(path, colons(), path.len() - 2);
    if i < 0 {
        path
    } else {
        path.skip(i + 2)
    }
}

/// The segment before the first `::`, and what follows it.
pub fn split_first_segment(path: &str) -> (res: (String, Option<String>))
    ensures
        res.0@ == first_segment(path@),
        match res.1 {
            Some(r) => after_first(path@) == Some(r@),
            None => after_first(path@) is None,
        },
{
    let chars = chars_of(path);
    let sep = vec![':', ':'];
    assert(sep@ =~= colons());
    match find(&chars, &sep, 0) {
        None => (owned(path), None),
        Some(i) => {
            proof {
                crate::text::lemma_find_from(path@, colons(), 0);
            }
            assert(sep@.len() == 2);
            assert(i + 2 <= chars@.len());
            let n = chars.len();
            assert(i + 2 <= n);
            let head = slice_of(&chars, 0, i);
            let tail = slice_of(&chars, i + 2, chars.len());
            assert(head@ =~= path@.take(i as int));
            assert(tail@ =~= path@.skip(i + 2));
            (string_of(head.as_slice()), Some(string_of(tail.as_slice())))
        },
    }
}

/// The segment after the last `::`, or the whole path.
pub fn last_path_segment(path: &str) -> (res: String)
    ensures
        res@ == last_segment(path@),
{
    let chars = chars_of(path);
    if chars.len() < 2 {
        assert(rfind_from(path@, colons(), path@.len() - 2) == -1);
        return owned(path);
    }
    let mut i: usize = chars.len() - 2;
    loop
        invariant
            i + 2 <= chars.len(),
            chars@ == path@,
            rfind_from(path@, colons(), path@.len() - 2) == rfind_from(path@, colons(), i as int),
        decreases i,
    {
        if chars[i] == ':' && chars[i + 1] == ':' {
            assert(occurs_at(path@, colons(), i as int)) by {
                assert(path@.subrange(i as int, i + 2) =~= colons());
            }
            let tail = slice_of(&chars, i + 2, chars.len());
            assert(tail@ =~= path@.skip(i + 2));
            return string_of(tail.as_slice());
        }
        assert(!occurs_at(path@, colons(), i as int)) by {
            if occurs_at(path@, colons(), i as int) {
                assert(path@.subrange(i as int, i + 2)[0] == path@[i as int]);
                assert(path@.subrange(i as int, i + 2)[1] == path@[i + 1]);
            }
        }
        if i == 0 {
            assert(rfind_from(path@, colons(), -1) == -1);
            return owned(path);
        }
        i = i - 1;
    }
}

/// The module a name is bound to in region `r` by the last of the first `k`
/// module bindings that bind it there.
pub open spec fn module_bound(e: Seq<(usize, Seq<char>, Seq<char>)>, r: usize, name: Seq<char>, k: int) -> Option<
    Seq<char>,
>
    decreases k,
{
    if k <= 0 || k > e.len() {
        None
    } else if e[k - 1].0 == r && e[k - 1].1 == name {
        Some(e[k - 1].2)
    } else {
        module_bound(e, r, name, k - 1)
    }
}

/// The dependency a name is bound to in region `r` by the last of the first
/// `k` item bindings that bind it there.
pub open spec fn item_bound(e: Seq<(usize, Seq<char>, DepView)>, r: usize, name: Seq<char>, k: int) -> Option<
    DepView,
>
    decreases k,
{
    if k <= 0 || k > e.len() {
        None
    } else if e[k - 1].0 == r && e[k - 1].1 == name {
        Some(e[k - 1].2)
    } else {
        item_bound(e, r, name, k - 1)
    }
}

/// Whether a name is bound to something outside the crate in region `r`.
pub open spec fn bound_elsewhere(e: Seq<(usize, Seq<char>)>, r: usize, name: Seq<char>) -> bool {
    exists|i: int| 0 <= i < e.len() && #[trigger] e[i] == (r, name)
}

/// The glob imports of region `r` among the first `k`, in order.
pub open spec fn region_globs(g: Seq<(usize, DepView)>, r: usize, k: int) -> Seq<DepView>
    decreases k,
{
    if k <= 0 || k > g.len() {
        Seq::empty()
    } else if g[k - 1].0 == r {
        region_globs(g, r, k - 1).push(g[k - 1].1)
    } else {
        region_globs(g, r, k - 1)
    }
}

/// What one path reference stands for, given the bindings around it.
#[derive(Debug)]
pub enum PathBinding {
    /// A path to run through the resolution chain, with a bound module alias
    /// replaced by the module's absolute path.
    Path(String),
    /// An occurrence of an item a `use` binds, plus the associated item the
    /// path goes on to name: `Config::new` on the binding `Config` leaves
    /// `new`.
    Item(DependencyRef, Option<String>),
    /// A path whose first segment is bound to something this crate does not
    /// contain.
    Elsewhere,
    /// A bare name nothing binds, and what the path names after it.
    Unbound(String, Option<String>),
}

/// A path binding as plain values.
pub ghost enum BindingView {
    Path(Seq<char>),
    Item(DepView, Option<Seq<char>>),
    Elsewhere,
    Unbound(Seq<char>, Option<Seq<char>>),
}

/// The view of an optional string.
pub open spec fn opt_str(o: Option<String>) -> Option<Seq<char>> {
    match o {
        Some(s) => Some(s@),
        None => None,
    }
}

/// The view of a path binding.
pub open spec fn binding_view(b: PathBinding) -> BindingView {
    match b {
        PathBinding::Path(p) => BindingView::Path(p@),
        PathBinding::Item(d, a) => BindingView::Item(d@, opt_str(a)),
        PathBinding::Elsewhere => BindingView::Elsewhere,
        PathBinding::Unbound(n, a) => BindingView::Unbound(n@, opt_str(a)),
    }
}

/// What every name in one file means, per region.
#[derive(Debug)]
pub struct FileBindings {
    pub regions: BindingRegions,
    /// Region, binding name, the absolute path of the module it names.
    pub modules: Vec<(usize, String, String)>,
    /// Region and the names bound to something this crate does not contain.
    pub elsewhere: Vec<(usize, String)>,
    /// Region, binding name, the dependency the `use` resolved to.
    pub items: Vec<(usize, String, DependencyRef)>,
    /// Region and the glob imports whose payload the map knows, with the
    /// `*` still in place.
    pub globs: Vec<(usize, DependencyRef)>,
    /// The names of the items the file defines, at any depth.
    pub local_definitions: StrSet,
}

/// What a reference standing in the first of `regions` stands for, asking
/// the regions innermost first.
pub open spec fn binding_in(
    b: BindingsView,
    regions: Seq<usize>,
    first: Seq<char>,
    rest: Option<Seq<char>>,
    last: Option<Seq<char>>,
) -> BindingView
    decreases regions.len(),
{
    if regions.len() == 0 {
        BindingView::Unbound(first, last)
    } else {
        let r = regions[0];
        let m = module_bound(b.state.modules, r, first, b.state.modules.len() as int);
        let it = item_bound(b.state.items, r, first, b.state.items.len() as int);
        if m is Some && rest is Some {
            BindingView::Path(m->0 + colons() + rest->0)
        } else if it is Some {
            BindingView::Item(it->0, last)
        } else if bound_elsewhere(b.state.elsewhere, r, first) {
            BindingView::Elsewhere
        } else {
            binding_in(b, regions.drop_first(), first, rest, last)
        }
    }
}

/// What a reference to `path` standing in `region` stands for.
pub open spec fn binding_at(b: BindingsView, path: Seq<char>, region: usize) -> BindingView {
    let rest = after_first(path);
    let last = match rest {
        Some(r) => Some(last_segment(r)),
        None => None,
    };
    binding_in(b, enclosing_of(b.parents, region), first_segment(path), rest, last)
}

/// The glob imports of the given regions, region by region.
pub open spec fn globs_in(b: BindingsView, regions: Seq<usize>) -> Seq<DepView>
    decreases regions.len(),
{
    if regions.len() == 0 {
        Seq::empty()
    } else {
        region_globs(b.state.globs, regions[0], b.state.globs.len() as int) + globs_in(b, regions.drop_first())
    }
}

/// The glob imports a name standing in `region` may come from, innermost
/// first; none where the file defines the name itself.
pub open spec fn globs_at(b: BindingsView, name: Seq<char>, region: usize) -> Seq<DepView> {
    if b.local.contains(name) {
        Seq::empty()
    } else {
        globs_in(b, enclosing_of(b.parents, region))
    }
}

impl FileBindings {
    /// No bindings, over the given regions and local definitions.
    pub fn new(regions: BindingRegions, local_definitions: StrSet) -> (res: Self)
        ensures
            res.regions == regions,
            res.local_definitions == local_definitions,
            res.modules@.len() == 0,
            res.elsewhere@.len() == 0,
            res.items@.len() == 0,
            res.globs@.len() == 0,
    {
        FileBindings {
            regions,
            modules: Vec::new(),
            elsewhere: Vec::new(),
            items: Vec::new(),
            globs: Vec::new(),
            local_definitions,
        }
    }

    /// The module `name` is bound to in region `r`.
    fn module_in(&self, r: usize, name: &str) -> (res: Option<&String>)
        ensures
            match res {
                Some(m) => module_bound(state_of(*self).modules, r, name@, self.modules@.len() as int) == Some(m@),
                None => module_bound(state_of(*self).modules, r, name@, self.modules@.len() as int) is None,
            },
    {
        let ghost e = state_of(*self).modules;
        let mut k = self.modules.len();
        while k > 0
            invariant
                k <= self.modules@.len(),
                e == state_of(*self).modules,
                module_bound(e, r, name@, self.modules@.len() as int) == module_bound(
                    e,
                    r,
                    name@,
                    k as int,
                ),
            decreases k,
        {
            let entry = &self.modules[k - 1];
            assert(e[k - 1] == (entry.0, entry.1@, entry.2@));
            if entry.0 == r && str_eq(entry.1.as_str(), name) {
                return Some(&entry.2);
            }
            k = k - 1;
        }
        None
    }

    /// The dependency `name` is bound to in region `r`.
    fn item_in(&self, r: usize, name: &str) -> (res: Option<&DependencyRef>)
        ensures
            match res {
                Some(d) => item_bound(state_of(*self).items, r, name@, self.items@.len() as int) == Some(d@),
                None => item_bound(state_of(*self).items, r, name@, self.items@.len() as int) is None,
            },
    {
        let ghost e = state_of(*self).items;
        let mut k = self.items.len();
        while k > 0
            invariant
                k <= self.items@.len(),
                e == state_of(*self).items,
                item_bound(e, r, name@, self.items@.len() as int) == item_bound(
                    e,
                    r,
                    name@,
                    k as int,
                ),
            decreases k,
        {
            let entry = &self.items[k - 1];
            assert(e[k - 1] == (entry.0, entry.1@, entry.2@));
            if entry.0 == r && str_eq(entry.1.as_str(), name) {
                return Some(&entry.2);
            }
            k = k - 1;
        }
        None
    }

    /// Whether `name` is bound to something outside the crate in region `r`.
    fn elsewhere_in(&self, r: usize, name: &str) -> (res: bool)
        ensures
            res == bound_elsewhere(state_of(*self).elsewhere, r, name@),
    {
        let ghost e = state_of(*self).elsewhere;
        let mut k: usize = 0;
        while k < self.elsewhere.len()
            invariant
                k <= self.elsewhere@.len(),
                e == state_of(*self).elsewhere,
                forall|i: int| 0 <= i < k ==> #[trigger] e[i] != (r, name@),
            decreases self.elsewhere.len() - k,
        {
            assert(e[k as int] == (self.elsewhere@[k as int].0, self.elsewhere@[k as int].1@));
            if self.elsewhere[k].0 == r && str_eq(self.elsewhere[k].1.as_str(), name) {
                return true;
            }
            k = k + 1;
        }
        false
    }

    /// Look up what a reference to `path` standing in `region` stands for.
    ///
    /// `queue::TempResource` under `queue → crate::device::queue` is the path
    /// `crate::device::queue::TempResource`. `Config::new` under an item
    /// binding `Config` is an occurrence of that item. A first segment bound
    /// elsewhere rules out the module beside the file. A path nothing binds
    /// is `Unbound`.
    pub fn binding_of(&self, path: &str, region: usize) -> (res: PathBinding)
        ensures
            binding_view(res) == binding_at(view_of(*self), path@, region),
    {
        let (first, rest) = split_first_segment(path);
        let last = match &rest {
            Some(r) => Some(last_path_segment(r.as_str())),
            None => None,
        };
        let regions = self.regions.enclosing(region);
        let ghost rs = regions@;
        let mut k: usize = 0;
        assert(rs.skip(0) =~= rs);
        while k < regions.len()
            invariant
                k <= regions@.len(),
                rs == regions@,
                binding_at(view_of(*self), path@, region) == binding_in(
                    view_of(*self),
                    rs.skip(k as int),
                    first@,
                    opt_str(rest),
                    opt_str(last),
                ),
            decreases regions.len() - k,
        {
            let r = regions[k];
            assert(rs.skip(k as int)[0] == r);
            assert(rs.skip(k as int).drop_first() =~= rs.skip(k + 1));
            let m = self.module_in(r, first.as_str());
            if m.is_some() && rest.is_some() {
                let target = m.unwrap();
                let tail = rest.unwrap();
                let mut out = chars_of(target.as_str());
                out.push(':');
                out.push(':');
                let t = chars_of(tail.as_str());
                let ghost base = out@;
                let mut j: usize = 0;
                while j < t.len()
                    invariant
                        j <= t.len(),
                        out@ == base + t@.take(j as int),
                    decreases t.len() - j,
                {
                    out.push(t[j]);
                    j = j + 1;
                    assert(out@ =~= base + t@.take(j as int));
                }
                assert(t@.take(t.len() as int) =~= t@);
                assert(out@ =~= target@ + colons() + tail@);
                return PathBinding::Path(string_of(out.as_slice()));
            }
            match self.item_in(r, first.as_str()) {
                Some(dep) => {
                    return PathBinding::Item(dep.duplicate(), last);
                },
                None => {},
            }
            if self.elsewhere_in(r, first.as_str()) {
                return PathBinding::Elsewhere;
            }
            k = k + 1;
        }
        assert(rs.skip(k as int).len() == 0);
        PathBinding::Unbound(first, last)
    }

    /// The glob imports of region `r`, in order.
    fn globs_of_region(&self, r: usize) -> (res: Vec<DependencyRef>)
        ensures
            crate::model::dep_views(res@) == region_globs(state_of(*self).globs, r, self.globs@.len() as int),
    {
        let ghost e = state_of(*self).globs;
        let mut res: Vec<DependencyRef> = Vec::new();
        let mut k: usize = 0;
        assert(crate::model::dep_views(res@) =~= Seq::<DepView>::empty());
        while k < self.globs.len()
            invariant
                k <= self.globs@.len(),
                e == state_of(*self).globs,
                crate::model::dep_views(res@) == region_globs(e, r, k as int),
            decreases self.globs.len() - k,
        {
            assert(e[k as int] == (self.globs@[k as int].0, self.globs@[k as int].1@));
            if self.globs[k].0 == r {
                let ghost before = res@;
                let d = self.globs[k].1.duplicate();
                res.push(d);
                assert(crate::model::dep_views(res@) =~= crate::model::dep_views(before).push(d@));
            }
            k = k + 1;
        }
        res
    }

    /// List the glob imports a name standing in `region` may come from,
    /// innermost first. Empty when the file defines the name itself.
    pub fn globs_for(&self, name: &str, region: usize) -> (res: Vec<DependencyRef>)
        ensures
            crate::model::dep_views(res@) == globs_at(view_of(*self), name@, region),
    {
        let mut res: Vec<DependencyRef> = Vec::new();
        if self.local_definitions.contains(name) {
            assert(crate::model::dep_views(res@) =~= Seq::<DepView>::empty());
            return res;
        }
        let regions = self.regions.enclosing(region);
        let ghost rs = regions@;
        let mut k = regions.len();
        assert(crate::model::dep_views(res@) =~= globs_in(view_of(*self), rs.skip(k as int)));
        while k > 0
            invariant
                k <= regions@.len(),
                rs == regions@,
                crate::model::dep_views(res@) == globs_in(view_of(*self), rs.skip(k as int)),
            decreases k,
        {
            let r = regions[k - 1];
            let mine = self.globs_of_region(r);
            let ghost tail = crate::model::dep_views(res@);
            let mut combined = mine;
            let mut j: usize = 0;
            let ghost head = crate::model::dep_views(combined@);
            while j < res.len()
                invariant
                    j <= res@.len(),
                    crate::model::dep_views(res@) == tail,
                    crate::model::dep_views(combined@) == head + tail.take(j as int),
                decreases res.len() - j,
            {
                let ghost before = combined@;
                let d = res[j].duplicate();
                combined.push(d);
                proof {
                    assert(tail[j as int] == res@[j as int]@);
                    assert(crate::model::dep_views(combined@) =~= crate::model::dep_views(before).push(d@));
                    assert(head + tail.take(j + 1) =~= (head + tail.take(j as int)).push(tail[j as int]));
                }
                j = j + 1;
            }
            assert(tail.take(j as int) =~= tail);
            res = combined;
            proof {
                assert(rs.skip(k - 1)[0] == r);
                assert(rs.skip(k - 1).drop_first() =~= rs.skip(k as int));
            }
            k = k - 1;
        }
        assert(rs.skip(0) =~= rs);
        res
    }
}

impl BindingRegions {
    /// A copy.
    pub fn duplicate(&self) -> (res: Self)
        ensures
            res.parents@ == self.parents@,
    {
        let mut parents: Vec<Option<usize>> = Vec::new();
        let mut i: usize = 0;
        while i < self.parents.len()
            invariant
                i <= self.parents@.len(),
                parents@ == self.parents@.take(i as int),
            decreases self.parents.len() - i,
        {
            parents.push(self.parents[i]);
            i = i + 1;
            assert(parents@ =~= self.parents@.take(i as int));
        }
        assert(self.parents@.take(i as int) =~= self.parents@);
        BindingRegions { parents }
    }
}

/// The `use` items of one file, with the regions they were written in.
#[derive(Debug)]
pub struct CollectedUses {
    pub items: Vec<CollectedUse>,
    pub regions: BindingRegions,
}

/// What one `use` binding means for later references to its name.
#[derive(Debug)]
pub enum Binding {
    /// Names a module: a later `binding::Item` resolves through this path.
    Module(String),
    /// Names something this crate does not contain.
    Elsewhere,
    /// Names an item of this crate: a later qualified path resolves on its
    /// own.
    OwnItem,
}

/// A binding's meaning as plain values.
pub ghost enum BindingKind {
    Module(Seq<char>),
    Elsewhere,
    OwnItem,
}

/// A module dependency as a path the resolution chain can resolve again
/// from anywhere in the file: `crate::module` for the current crate,
/// another crate's full target otherwise.
pub open spec fn absolute_path(c: CtxView, d: DepView) -> Seq<char> {
    if d.target_crate == normalized(c.current_crate) {
        crate_prefix() + d.target_module
    } else {
        full_target_of(d)
    }
}

/// Render a resolved module dependency as a path that the resolution chain
/// can re-resolve from any position in the file.
pub fn absolute_module_path(ctx: &ResolutionContext, dep: &DependencyRef) -> (res: String)
    ensures
        res@ == absolute_path(ctx@, dep@),
{
    let current = normalize_crate_name(ctx.current_crate);
    if str_eq(dep.target_crate.as_str(), current.as_str()) {
        let mut out = vec!['c', 'r', 'a', 't', 'e', ':', ':'];
        assert(out@ =~= crate_prefix());
        let m = chars_of(dep.target_module.as_str());
        let ghost base = out@;
        let mut k: usize = 0;
        while k < m.len()
            invariant
                k <= m.len(),
                out@ == base + m@.take(k as int),
            decreases m.len() - k,
        {
            out.push(m[k]);
            k = k + 1;
            assert(out@ =~= base + m@.take(k as int));
        }
        assert(m@.take(m.len() as int) =~= m@);
        string_of(out.as_slice())
    } else {
        dep.full_target()
    }
}

/// What a binding means: a path the chain cannot place is out of the
/// crate; a module, or another crate's root, is a module binding; an item
/// of this crate needs no entry; an item of another crate is a module
/// binding only where its name also names a module beside the file, which
/// the binding then hides.
pub open spec fn classify(c: CtxView, dep: Option<DepView>, binding: Seq<char>) -> BindingKind {
    match dep {
        None => BindingKind::Elsewhere,
        Some(d) => if d.target_item is None {
            BindingKind::Module(absolute_path(c, d))
        } else if d.target_crate == normalized(c.current_crate) {
            BindingKind::OwnItem
        } else if bare_module_dep(c, binding, 0, (UsageKind::Production, Seq::empty())) is Some {
            BindingKind::Module(full_target_of(d))
        } else {
            BindingKind::Elsewhere
        },
    }
}

/// The view of a binding.
pub open spec fn binding_kind(b: Binding) -> BindingKind {
    match b {
        Binding::Module(p) => BindingKind::Module(p@),
        Binding::Elsewhere => BindingKind::Elsewhere,
        Binding::OwnItem => BindingKind::OwnItem,
    }
}

/// Classify one binding; `dep` is what its path resolved to.
pub fn classify_binding(ctx: &ResolutionContext, dep: Option<&DependencyRef>, binding: &str) -> (res: Binding)
    ensures
        binding_kind(res) == classify(
            ctx@,
            match dep {
                Some(d) => Some(d@),
                None => None,
            },
            binding@,
        ),
{
    let dep = match dep {
        None => {
            return Binding::Elsewhere;
        },
        Some(d) => d,
    };
    if dep.target_item.is_none() {
        return Binding::Module(absolute_module_path(ctx, dep));
    }
    let current = normalize_crate_name(ctx.current_crate);
    if str_eq(dep.target_crate.as_str(), current.as_str()) {
        return Binding::OwnItem;
    }
    let production = EdgeContext::production();
    if parse_bare_module_import(ctx, binding, 0, &production).is_some() {
        return Binding::Module(dep.full_target());
    }
    Binding::Elsewhere
}

/// The bindings as plain values.
pub ghost struct BindingsState {
    pub modules: Seq<(usize, Seq<char>, Seq<char>)>,
    pub elsewhere: Seq<(usize, Seq<char>)>,
    pub items: Seq<(usize, Seq<char>, DepView)>,
    pub globs: Seq<(usize, DepView)>,
}

/// The bindings of `b` as plain values.
pub open spec fn state_of(b: FileBindings) -> BindingsState {
    BindingsState {
        modules: b.modules@.map_values(|e: (usize, String, String)| (e.0, e.1@, e.2@)),
        elsewhere: b.elsewhere@.map_values(|e: (usize, String)| (e.0, e.1@)),
        items: b.items@.map_values(|e: (usize, String, DependencyRef)| (e.0, e.1@, e.2@)),
        globs: b.globs@.map_values(|e: (usize, DependencyRef)| (e.0, e.1@)),
    }
}

/// The bindings of a file with its regions and local definitions, as plain
/// values.
pub ghost struct BindingsView {
    pub state: BindingsState,
    pub parents: Seq<Option<usize>>,
    pub local: Set<Seq<char>>,
}

/// The view of a file's bindings.
pub open spec fn view_of(b: FileBindings) -> BindingsView {
    BindingsView { state: state_of(b), parents: b.regions.parents@, local: b.local_definitions@ }
}

/// A dependency with the re-export flag set.
pub open spec fn with_via(d: DepView, republish: bool) -> DepView {
    DepView { via_reexport: republish, ..d }
}

/// The bindings after one path of a `use`: the last segment of its alias
/// side is the name it binds, its original side what it resolves to.
pub open spec fn bind_pair(
    st: BindingsState,
    c: CtxView,
    u: CollectedUse,
    alias_path: Seq<char>,
    original: Seq<char>,
) -> BindingsState {
    let name = last_segment(alias_path);
    let dep = single_path_dep(c, original, u.line, u.context@, u.inline_depth as int);
    let republish = reexports(u.vis);
    if name == star() {
        match dep {
            Some(d) => if module_info_of(c.reexport_map, d.target_crate, d.target_module) is Some {
                BindingsState { globs: st.globs.push((u.region, with_via(d, republish))), ..st }
            } else {
                st
            },
            None => st,
        }
    } else {
        let classified = match classify(c, dep, name) {
            BindingKind::Module(p) => BindingsState { modules: st.modules.push((u.region, name, p)), ..st },
            BindingKind::Elsewhere => BindingsState { elsewhere: st.elsewhere.push((u.region, name)), ..st },
            BindingKind::OwnItem => st,
        };
        match dep {
            Some(d) => if d.target_item is Some {
                BindingsState {
                    items: classified.items.push((u.region, name, with_via(d, republish))),
                    ..classified
                }
            } else {
                classified
            },
            None => classified,
        }
    }
}

/// The bindings after the first `k` paths of a `use`.
pub open spec fn bind_pairs(
    st: BindingsState,
    c: CtxView,
    u: CollectedUse,
    aliases: Seq<Seq<char>>,
    originals: Seq<Seq<char>>,
    k: int,
) -> BindingsState
    decreases k,
{
    if k <= 0 {
        st
    } else {
        bind_pair(bind_pairs(st, c, u, aliases, originals, k - 1), c, u, aliases[k - 1], originals[k - 1])
    }
}

/// The bindings after one `use`: its alias paths paired with its original
/// paths.
pub open spec fn bind_use(st: BindingsState, c: CtxView, u: CollectedUse) -> BindingsState {
    let aliases = tree_paths(u.tree, Seq::empty(), true);
    let originals = tree_paths(u.tree, Seq::empty(), false);
    let n = if aliases.len() < originals.len() {
        aliases.len()
    } else {
        originals.len()
    };
    bind_pairs(st, c, u, aliases, originals, n as int)
}

/// The bindings after the given `use` items, in order.
pub open spec fn bind_uses(st: BindingsState, c: CtxView, uses: Seq<CollectedUse>) -> BindingsState
    decreases uses.len(),
{
    if uses.len() == 0 {
        st
    } else {
        bind_use(bind_uses(st, c, uses.drop_last()), c, uses.last())
    }
}

/// No bindings.
pub open spec fn no_bindings() -> BindingsState {
    BindingsState {
        modules: Seq::empty(),
        elsewhere: Seq::empty(),
        items: Seq::empty(),
        globs: Seq::empty(),
    }
}

impl FileBindings {
    /// Record the binding one path of a `use` makes.
    fn bind_path(&mut self, ctx: &ResolutionContext, u: &CollectedUse, alias_path: &str, original: &str)
        ensures
            state_of(*final(self)) == bind_pair(state_of(*old(self)), ctx@, *u, alias_path@, original@),
            final(self).regions == old(self).regions,
            final(self).local_definitions == old(self).local_definitions,
    {
        let name = last_path_segment(alias_path);
        let dep = resolve_single_path(ctx, original, u.line, &u.context, u.inline_depth);
        let star_chars = vec!['*'];
        assert(star_chars@ =~= star());
        let ghost st = state_of(*self);
        let republish = is_reexport_visibility(&u.vis);
        if crate::text::seq_eq(&chars_of(name.as_str()), &star_chars) {
            match dep {
                Some(mut d) => {
                    if glob_payload_known(&d, ctx.reexport_map) {
                        d.via_reexport = republish;
                        let ghost dv = d@;
                        self.globs.push((u.region, d));
                        assert(state_of(*self).globs =~= st.globs.push((u.region, dv)));
                        assert(state_of(*self) =~= bind_pair(st, ctx@, *u, alias_path@, original@));
                    }
                },
                None => {},
            }
            return;
        }
        let kind = classify_binding(ctx, dep.as_ref(), name.as_str());
        match kind {
            Binding::Module(p) => {
                let ghost pv = p@;
                self.modules.push((u.region, name.clone(), p));
                assert(state_of(*self).modules =~= st.modules.push((u.region, name@, pv)));
            },
            Binding::Elsewhere => {
                self.elsewhere.push((u.region, name.clone()));
                assert(state_of(*self).elsewhere =~= st.elsewhere.push((u.region, name@)));
            },
            Binding::OwnItem => {},
        }
        let ghost mid = state_of(*self);
        match dep {
            Some(mut d) => {
                if d.target_item.is_some() {
                    d.via_reexport = republish;
                    let ghost dv = d@;
                    self.items.push((u.region, name, d));
                    assert(state_of(*self).items =~= mid.items.push((u.region, last_segment(alias_path@), dv)));
                }
            },
            None => {},
        }
        assert(state_of(*self) =~= bind_pair(st, ctx@, *u, alias_path@, original@));
    }

    /// Build the bindings of one file from its `use` items and the names of
    /// the items it defines.
    ///
    /// `use crate::device::{queue, Device}` binds `queue` to the module
    /// `device::queue`; a later `queue::TempResource` is only resolvable
    /// against that binding.
    pub fn of(use_items: &CollectedUses, local_definitions: StrSet, ctx: &ResolutionContext) -> (res: FileBindings)
        ensures
            view_of(res) == (BindingsView {
                state: bind_uses(no_bindings(), ctx@, use_items.items@),
                parents: use_items.regions.parents@,
                local: local_definitions@,
            }),
    {
        let mut bindings = FileBindings::new(use_items.regions.duplicate(), local_definitions);
        assert(state_of(bindings).modules =~= no_bindings().modules);
        assert(state_of(bindings).elsewhere =~= no_bindings().elsewhere);
        assert(state_of(bindings).items =~= no_bindings().items);
        assert(state_of(bindings).globs =~= no_bindings().globs);
        let mut i: usize = 0;
        while i < use_items.items.len()
            invariant
                i <= use_items.items@.len(),
                state_of(bindings) == bind_uses(no_bindings(), ctx@, use_items.items@.take(i as int)),
                bindings.regions.parents@ == use_items.regions.parents@,
                bindings.local_definitions == local_definitions,
            decreases use_items.items.len() - i,
        {
            let u = &use_items.items[i];
            let empty = String::new();
            assert(empty@ =~= Seq::<char>::empty());
            let aliases = resolve_use_tree(&u.tree, empty.as_str(), true);
            let originals = resolve_use_tree(&u.tree, empty.as_str(), false);
            let ghost av = aliases@.map_values(|s: String| s@);
            let ghost ov = originals@.map_values(|s: String| s@);
            let n = if aliases.len() < originals.len() {
                aliases.len()
            } else {
                originals.len()
            };
            let ghost before = state_of(bindings);
            let mut j: usize = 0;
            while j < n
                invariant
                    j <= n,
                    n <= aliases@.len(),
                    n <= originals@.len(),
                    av == aliases@.map_values(|s: String| s@),
                    ov == originals@.map_values(|s: String| s@),
                    state_of(bindings) == bind_pairs(before, ctx@, *u, av, ov, j as int),
                    bindings.regions.parents@ == use_items.regions.parents@,
                    bindings.local_definitions == local_definitions,
                decreases n - j,
            {
                assert(av[j as int] == aliases@[j as int]@);
                assert(ov[j as int] == originals@[j as int]@);
                bindings.bind_path(ctx, u, aliases[j].as_str(), originals[j].as_str());
                j = j + 1;
            }
            proof {
                assert(use_items.items@.take(i + 1).drop_last() =~= use_items.items@.take(i as int));
            }
            i = i + 1;
        }
        assert(use_items.items@.take(i as int) =~= use_items.items@);
        bindings
    }
}

} // verus!
