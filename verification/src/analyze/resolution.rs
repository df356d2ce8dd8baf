//! The resolution chain for one path of a `use` or of a reference: relative
//! (`self::`, `super::`), crate-local (`crate::`), a module beside the file,
//! a workspace crate, and last an outside crate the metadata names.

use vstd::prelude::*;

use crate::analyze::crate_prefix;
use crate::analyze::exports::{owned, ReExportMap};
use crate::analyze::line_parser::{
    extract_item_from_parts, is_member, is_workspace_member, item_of_parts, keep_nonempty,
};
use crate::collections::{StrMap, StrSet};
use crate::model::{normalize_crate_name, normalized, opt_view, DepView, DependencyRef, EdgeContext, UsageKind};
use crate::text::{
    chars_of, colons, join_colons, join_on_colons, lemma_split_first, split_colons, split_on_colons,
    string_of, trim, trim_end_char, trim_end_matches, trim_seq,
};

verus! {

/// What resolution needs to know of the file a path stands in.
pub struct ResolutionContext<'a> {
    pub current_crate: &'a str,
    pub workspace_crates: &'a StrSet,
    pub source_file: &'a str,
    pub all_module_paths: &'a StrMap<StrSet>,
    pub crate_exports: &'a StrMap<StrSet>,
    /// The file's module path, crate-relative; empty for the crate root.
    pub current_module_path: &'a str,
    pub reexport_map: &'a ReExportMap,
    /// Code-side name → package id of the outside crates the current crate
    /// can see.
    pub external_crate_names: &'a StrMap<String>,
}

/// A resolution context as plain values.
pub ghost struct CtxView {
    pub current_crate: Seq<char>,
    pub workspace: Set<Seq<char>>,
    pub source_file: Seq<char>,
    pub module_paths: Map<Seq<char>, StrSet>,
    pub crate_exports: Map<Seq<char>, StrSet>,
    pub current_module: Seq<char>,
    pub reexport_map: ReExportMap,
    pub external: Set<Seq<char>>,
}

impl<'a> View for ResolutionContext<'a> {
    type V = CtxView;

    open spec fn view(&self) -> CtxView {
        CtxView {
            current_crate: self.current_crate@,
            workspace: self.workspace_crates@,
            source_file: self.source_file@,
            module_paths: self.all_module_paths@,
            crate_exports: self.crate_exports@,
            current_module: self.current_module_path@,
            reexport_map: *self.reexport_map,
            external: self.external_crate_names@.dom(),
        }
    }
}

/// The module paths of `krate`, none where the map lacks the crate.
pub open spec fn paths_of(mp: Map<Seq<char>, StrSet>, krate: Seq<char>) -> Set<Seq<char>> {
    if mp.dom().contains(krate) {
        mp[krate]@
    } else {
        Set::empty()
    }
}

/// The longest prefix of `parts` of at most `end` segments that `paths`
/// holds, joined with `::`, and its segment count; the first segment alone
/// where none is held.
pub open spec fn longest_from(parts: Seq<Seq<char>>, paths: Set<Seq<char>>, end: int) -> (Seq<char>, int)
    decreases end,
{
    if end < 1 {
        (parts[0], 1)
    } else if paths.contains(join_colons(parts.take(end))) {
        (join_colons(parts.take(end)), end)
    } else {
        longest_from(parts, paths, end - 1)
    }
}

/// The longest module path prefix of `parts` that `paths` holds.
pub open spec fn longest_prefix(parts: Seq<Seq<char>>, paths: Set<Seq<char>>) -> (Seq<char>, int) {
    longest_from(parts, paths, parts.len() as int)
}

/// A dependency the resolution chain produces: not a re-export, no uses yet.
pub open spec fn dep_at(
    file: Seq<char>,
    krate: Seq<char>,
    module: Seq<char>,
    item: Option<Seq<char>>,
    line: usize,
    context: (UsageKind, Seq<String>),
) -> DepView {
    DepView {
        target_crate: krate,
        target_module: module,
        target_item: item,
        source_file: file,
        line,
        context,
        via_reexport: false,
        uses: Seq::empty(),
    }
}

/// Pushing a vector pushes its view.
pub proof fn lemma_views_push(a: Seq<Vec<char>>, x: Vec<char>)
    ensures
        a.push(x).map_values(|v: Vec<char>| v@) == a.map_values(|v: Vec<char>| v@).push(x@),
{
    assert(a.push(x).map_values(|v: Vec<char>| v@) =~= a.map_values(|v: Vec<char>| v@).push(x@));
}

/// The first `end` parts joined with `::`.
fn join_first(parts: &Vec<Vec<char>>, end: usize) -> (res: Vec<char>)
    requires
        end <= parts.len(),
    ensures
        res@ == join_colons(parts@.map_values(|v: Vec<char>| v@).take(end as int)),
{
    let mut firsts: Vec<Vec<char>> = Vec::new();
    let mut i: usize = 0;
    while i < end
        invariant
            i <= end <= parts.len(),
            firsts@.map_values(|v: Vec<char>| v@) == parts@.map_values(|v: Vec<char>| v@).take(
                i as int,
            ),
        decreases end - i,
    {
        let ghost before = firsts@;
        let piece = parts[i].clone();
        assert(piece@ == parts@[i as int]@);
        firsts.push(piece);
        proof {
            lemma_views_push(before, piece);
            assert(parts@.map_values(|v: Vec<char>| v@).take(i + 1) =~= parts@.map_values(
                |v: Vec<char>| v@,
            ).take(i as int).push(parts@[i as int]@));
        }
        i = i + 1;
    }
    join_on_colons(&firsts)
}

/// The longest module path prefix of `parts` that `paths` holds, and its
/// segment count.
fn longest_prefix_of(parts: &Vec<Vec<char>>, paths: &StrSet) -> (res: (String, usize))
    requires
        parts.len() >= 1,
    ensures
        (res.0@, res.1 as int) == longest_prefix(parts@.map_values(|v: Vec<char>| v@), paths@),
        1 <= res.1 <= parts.len(),
{
    let ghost pv = parts@.map_values(|v: Vec<char>| v@);
    let mut end = parts.len();
    while end >= 1
        invariant
            end <= parts.len(),
            pv == parts@.map_values(|v: Vec<char>| v@),
            longest_from(pv, paths@, parts.len() as int) == longest_from(pv, paths@, end as int),
        decreases end,
    {
        let candidate = string_of(join_first(parts, end).as_slice());
        if paths.contains(candidate.as_str()) {
            return (candidate, end);
        }
        end = end - 1;
    }
    assert(pv[0] == parts@[0]@);
    (string_of(parts[0].as_slice()), 1)
}

/// Find the longest module path prefix of `parts` that `module_paths` holds,
/// trying from longest to shortest: `["analyze", "use_parser", "normalize"]`
/// checks `analyze::use_parser::normalize`, then `analyze::use_parser`, then
/// `analyze`. Returns the path and its segment count; the first segment
/// with count 1 where none matches.
pub fn find_longest_module_prefix(parts: &[&str], module_paths: &StrSet) -> (res: (String, usize))
    requires
        parts.len() >= 1,
    ensures
        (res.0@, res.1 as int) == longest_prefix(parts@.map_values(|p: &str| p@), module_paths@),
{
    let mut chars: Vec<Vec<char>> = Vec::new();
    let mut i: usize = 0;
    while i < parts.len()
        invariant
            i <= parts.len(),
            chars@.map_values(|v: Vec<char>| v@) == parts@.map_values(|p: &str| p@).take(i as int),
        decreases parts.len() - i,
    {
        let ghost before = chars@;
        let piece = chars_of(parts[i]);
        chars.push(piece);
        proof {
            lemma_views_push(before, piece);
            assert(parts@.map_values(|p: &str| p@).take(i + 1) =~= parts@.map_values(|p: &str| p@).take(
                i as int,
            ).push(parts@[i as int]@));
        }
        i = i + 1;
    }
    assert(parts@.map_values(|p: &str| p@).take(parts.len() as int) =~= parts@.map_values(
        |p: &str| p@,
    ));
    longest_prefix_of(&chars, module_paths)
}

/// The module paths of `krate`, or `empty` where the map lacks the crate.
fn paths_or_empty<'b>(mp: &'b StrMap<StrSet>, krate: &str, empty: &'b StrSet) -> (res: &'b StrSet)
    requires
        empty@ == Set::<Seq<char>>::empty(),
    ensures
        res@ == paths_of(mp@, krate@),
{
    match mp.get(krate) {
        Some(set) => set,
        None => empty,
    }
}

/// A dependency of the file in `ctx`, as the resolution chain makes it.
fn dep_in(
    ctx: &ResolutionContext,
    krate: String,
    module: String,
    item: Option<String>,
    line: usize,
    context: &EdgeContext,
) -> (res: DependencyRef)
    ensures
        res@ == dep_at(ctx.source_file@, krate@, module@, opt_view(item), line, context@),
{
    let res = DependencyRef {
        target_crate: krate,
        target_module: module,
        target_item: item,
        source_file: owned(ctx.source_file),
        line,
        context: context.duplicate(),
        via_reexport: false,
        uses: Vec::new(),
    };
    assert(res.uses@ =~= Seq::<crate::model::SymbolUse>::empty());
    res
}

/// `crate::module[::item]`: a dependency on the current crate, at the
/// longest known module prefix.
pub open spec fn crate_local_dep(
    c: CtxView,
    path: Seq<char>,
    line: usize,
    context: (UsageKind, Seq<String>),
) -> Option<DepView> {
    if crate_prefix().is_prefix_of(path) {
        let parts = split_colons(path.skip(7));
        let first = trim_seq(trim_end_char(parts[0], '{'));
        if first.len() == 0 {
            None
        } else {
            let krate = normalized(c.current_crate);
            let found = longest_prefix(parts, paths_of(c.module_paths, krate));
            Some(dep_at(c.source_file, krate, found.0, item_of_parts(parts, found.1), line, context))
        }
    } else {
        None
    }
}

/// The chars of `crate::`.
fn crate_prefix_chars() -> (res: Vec<char>)
    ensures
        res@ == crate_prefix(),
{
    let v = vec!['c', 'r', 'a', 't', 'e', ':', ':'];
    assert(v@ =~= crate_prefix());
    v
}

/// Parse a crate-local import: `crate::module[::item]`.
pub fn parse_crate_local_import(
    ctx: &ResolutionContext,
    path: &str,
    line_num: usize,
    context: &EdgeContext,
) -> (res: Option<DependencyRef>)
    ensures
        res matches Some(d) ==> crate_local_dep(ctx@, path@, line_num, context@) == Some(d@),
        res is None ==> crate_local_dep(ctx@, path@, line_num, context@) is None,
{
    let chars = chars_of(path);
    let prefix = crate_prefix_chars();
    if !crate::text::starts_with(&chars, &prefix) {
        return None;
    }
    let after = crate::text::slice_of(&chars, 7, chars.len());
    assert(after@ =~= path@.skip(7));
    let parts = split_on_colons(&after);
    proof {
        lemma_split_first(after@, colons());
    }
    assert(parts@.map_values(|v: Vec<char>| v@)[0] == parts@[0]@);
    let first = trim(&trim_end_matches(&parts[0], '{'));
    if first.len() == 0 {
        return None;
    }
    let krate = normalize_crate_name(ctx.current_crate);
    let empty = StrSet::new();
    let paths = paths_or_empty(ctx.all_module_paths, krate.as_str(), &empty);
    let (target_module, prefix_len) = longest_prefix_of(&parts, paths);
    let item = extract_item_from_parts(&parts, prefix_len);
    Some(dep_in(ctx, krate, target_module, item, line_num, context))
}

/// `module[::item]` where `module` is a child of the file's module: a
/// dependency on the current crate. From the crate root the child is a
/// top-level module; from any other file a top-level name is not in scope.
pub open spec fn bare_module_dep(
    c: CtxView,
    path: Seq<char>,
    line: usize,
    context: (UsageKind, Seq<String>),
) -> Option<DepView> {
    let parts = split_colons(path);
    let first = trim_seq(trim_end_char(parts[0], '{'));
    let krate = normalized(c.current_crate);
    let paths = paths_of(c.module_paths, krate);
    if first.len() == 0 {
        None
    } else if c.current_module.len() == 0 {
        if paths.contains(first) {
            let found = longest_prefix(parts, paths);
            Some(dep_at(c.source_file, krate, found.0, item_of_parts(parts, found.1), line, context))
        } else {
            None
        }
    } else if paths.contains(c.current_module + colons() + first) {
        let effective = split_colons(c.current_module) + parts;
        let found = longest_prefix(effective, paths);
        Some(dep_at(c.source_file, krate, found.0, item_of_parts(effective, found.1), line, context))
    } else {
        None
    }
}

/// Parse a bare module import: `use cli::Args` where `cli` is a module in
/// scope of the file, a child of the file's module.
pub fn parse_bare_module_import(
    ctx: &ResolutionContext,
    path: &str,
    line_num: usize,
    context: &EdgeContext,
) -> (res: Option<DependencyRef>)
    ensures
        res matches Some(d) ==> bare_module_dep(ctx@, path@, line_num, context@) == Some(d@),
        res is None ==> bare_module_dep(ctx@, path@, line_num, context@) is None,
{
    let chars = chars_of(path);
    let parts = split_on_colons(&chars);
    proof {
        lemma_split_first(path@, colons());
    }
    assert(parts@.map_values(|v: Vec<char>| v@)[0] == parts@[0]@);
    let first = trim(&trim_end_matches(&parts[0], '{'));
    if first.len() == 0 {
        return None;
    }
    let krate = normalize_crate_name(ctx.current_crate);
    let empty = StrSet::new();
    let paths = paths_or_empty(ctx.all_module_paths, krate.as_str(), &empty);
    if ctx.current_module_path.is_empty() {
        if !paths.contains(string_of(first.as_slice()).as_str()) {
            return None;
        }
        let (target_module, prefix_len) = longest_prefix_of(&parts, paths);
        let item = extract_item_from_parts(&parts, prefix_len);
        return Some(dep_in(ctx, krate, target_module, item, line_num, context));
    }
    let mut child = chars_of(ctx.current_module_path);
    child.push(':');
    child.push(':');
    let mut k: usize = 0;
    let ghost base = child@;
    while k < first.len()
        invariant
            k <= first.len(),
            child@ == base + first@.take(k as int),
        decreases first.len() - k,
    {
        child.push(first[k]);
        k = k + 1;
        assert(child@ =~= base + first@.take(k as int));
    }
    assert(first@.take(first.len() as int) =~= first@);
    assert(child@ =~= ctx.current_module_path@ + colons() + first@);
    if !paths.contains(string_of(child.as_slice()).as_str()) {
        return None;
    }
    let mut effective = split_on_colons(&chars_of(ctx.current_module_path));
    proof {
        lemma_split_first(ctx.current_module_path@, colons());
    }
    let ghost head = effective@.map_values(|v: Vec<char>| v@);
    let mut j: usize = 0;
    while j < parts.len()
        invariant
            j <= parts.len(),
            effective@.map_values(|v: Vec<char>| v@) == head + parts@.map_values(|v: Vec<char>| v@).take(
                j as int,
            ),
        decreases parts.len() - j,
    {
        let ghost before = effective@;
        let piece = parts[j].clone();
        assert(piece@ == parts@[j as int]@);
        effective.push(piece);
        proof {
            lemma_views_push(before, piece);
            assert(head + parts@.map_values(|v: Vec<char>| v@).take(j + 1) =~= (head + parts@.map_values(
                |v: Vec<char>| v@,
            ).take(j as int)).push(parts@[j as int]@));
        }
        j = j + 1;
    }
    assert(parts@.map_values(|v: Vec<char>| v@).take(parts.len() as int) =~= parts@.map_values(
        |v: Vec<char>| v@,
    ));
    let (target_module, prefix_len) = longest_prefix_of(&effective, paths);
    let item = extract_item_from_parts(&effective, prefix_len);
    Some(dep_in(ctx, krate, target_module, item, line_num, context))
}

/// `krate::module[::item]` where `krate` is a workspace crate, at the
/// longest known module prefix of that crate. A first segment that is no
/// module but a name the crate root exports makes an entry-point
/// dependency: the root module, with that name as item.
pub open spec fn workspace_dep(
    c: CtxView,
    path: Seq<char>,
    line: usize,
    context: (UsageKind, Seq<String>),
) -> Option<DepView> {
    let parts = split_colons(path);
    let name = trim_seq(parts[0]);
    if !is_member(name, c.workspace) || parts.len() < 2 {
        None
    } else {
        let segment = trim_seq(trim_end_char(trim_end_char(parts[1], '{'), ';'));
        if segment.len() == 0 {
            None
        } else {
            let target = normalized(name);
            let paths = paths_of(c.module_paths, target);
            let found = longest_prefix(parts.skip(1), paths);
            let entry_point = !paths.contains(found.0) && c.crate_exports.dom().contains(target)
                && c.crate_exports[target]@.contains(segment);
            if entry_point {
                Some(dep_at(c.source_file, name, Seq::empty(), Some(segment), line, context))
            } else {
                Some(dep_at(c.source_file, name, found.0, item_of_parts(parts, 1 + found.1), line, context))
            }
        }
    }
}

/// Parse a workspace crate import: `other_crate::module[::item]`.
pub fn parse_workspace_import(
    ctx: &ResolutionContext,
    path: &str,
    line_num: usize,
    context: &EdgeContext,
) -> (res: Option<DependencyRef>)
    ensures
        res matches Some(d) ==> workspace_dep(ctx@, path@, line_num, context@) == Some(d@),
        res is None ==> workspace_dep(ctx@, path@, line_num, context@) is None,
{
    let chars = chars_of(path);
    let parts = split_on_colons(&chars);
    let ghost pv = parts@.map_values(|v: Vec<char>| v@);
    proof {
        lemma_split_first(path@, colons());
    }
    assert(pv[0] == parts@[0]@);
    let name = string_of(trim(&parts[0]).as_slice());
    if !is_workspace_member(name.as_str(), ctx.workspace_crates) || parts.len() < 2 {
        return None;
    }
    assert(pv[1] == parts@[1]@);
    let segment = trim(&trim_end_matches(&trim_end_matches(&parts[1], '{'), ';'));
    if segment.len() == 0 {
        return None;
    }
    let target = normalize_crate_name(name.as_str());
    let empty = StrSet::new();
    let paths = paths_or_empty(ctx.all_module_paths, target.as_str(), &empty);
    let mut rest: Vec<Vec<char>> = Vec::new();
    let mut j: usize = 1;
    while j < parts.len()
        invariant
            1 <= j <= parts.len(),
            pv == parts@.map_values(|v: Vec<char>| v@),
            rest@.map_values(|v: Vec<char>| v@) == pv.subrange(1, j as int),
        decreases parts.len() - j,
    {
        let ghost before = rest@;
        let piece = parts[j].clone();
        assert(piece@ == pv[j as int]);
        rest.push(piece);
        proof {
            lemma_views_push(before, piece);
            assert(pv.subrange(1, j + 1) =~= pv.subrange(1, j as int).push(pv[j as int]));
        }
        j = j + 1;
    }
    assert(pv.subrange(1, parts.len() as int) =~= pv.skip(1));
    let (target_module, prefix_len) = longest_prefix_of(&rest, paths);
    let segment_name = string_of(segment.as_slice());
    let entry_point = !paths.contains(target_module.as_str()) && match ctx.crate_exports.get(
        target.as_str(),
    ) {
        Some(exports) => exports.contains(segment_name.as_str()),
        None => false,
    };
    if entry_point {
        let root = String::new();
        assert(root@ =~= Seq::<char>::empty());
        Some(dep_in(ctx, name, root, Some(segment_name), line_num, context))
    } else {
        let item = extract_item_from_parts(&parts, 1 + prefix_len);
        Some(dep_in(ctx, name, target_module, item, line_num, context))
    }
}

/// `super`
pub open spec fn super_word() -> Seq<char> {
    seq!['s', 'u', 'p', 'e', 'r']
}

/// `self`
pub open spec fn self_word() -> Seq<char> {
    seq!['s', 'e', 'l', 'f']
}

/// How many segments from `k` on are `super`, counting until the first
/// that is not.
pub open spec fn leading_supers(segs: Seq<Seq<char>>, k: int) -> int
    decreases segs.len() - k,
{
    if 0 <= k < segs.len() && segs[k] == super_word() {
        1 + leading_supers(segs, k + 1)
    } else {
        0
    }
}

/// `base` without its last `up` segments, followed by `suffix`, joined with
/// `::`; `None` where `base` has fewer than `up` segments.
pub open spec fn joined_segments(base: Seq<char>, up: int, suffix: Seq<Seq<char>>) -> Option<Seq<char>> {
    let segs = keep_nonempty(split_colons(base));
    if up > segs.len() {
        None
    } else {
        Some(join_colons(segs.take(segs.len() - up) + suffix))
    }
}

/// A `super::` or `self::` path made absolute, from the file's module and
/// the depth of inline modules around the path: each `super` first leaves
/// an inline module, then a module of the path; a `self::` inside an inline
/// module, and a `super::` that only leaves inline modules, stay relative.
pub open spec fn relative_path(path: Seq<char>, current: Seq<char>, depth: int) -> Option<Seq<char>> {
    let segs = split_colons(path);
    let supers = leading_supers(segs, 0);
    if supers > depth {
        joined_segments(current, supers - depth, segs.skip(supers))
    } else if segs[0] == self_word() && depth == 0 {
        joined_segments(current, 0, segs.skip(1))
    } else {
        None
    }
}

pub proof fn lemma_leading_supers(segs: Seq<Seq<char>>, k: int)
    requires
        0 <= k <= segs.len(),
    ensures
        0 <= leading_supers(segs, k) <= segs.len() - k,
        forall|j: int| k <= j < k + leading_supers(segs, k) ==> segs[j] == super_word(),
        k + leading_supers(segs, k) < segs.len() ==> segs[k + leading_supers(segs, k)] != super_word(),
    decreases segs.len() - k,
{
    if k < segs.len() && segs[k] == super_word() {
        lemma_leading_supers(segs, k + 1);
    }
}

/// The non-empty pieces, in order.
fn nonempty_pieces(pieces: &Vec<Vec<char>>) -> (res: Vec<Vec<char>>)
    ensures
        res@.map_values(|v: Vec<char>| v@) == keep_nonempty(pieces@.map_values(|v: Vec<char>| v@)),
{
    let ghost pv = pieces@.map_values(|v: Vec<char>| v@);
    let mut res: Vec<Vec<char>> = Vec::new();
    let mut i: usize = 0;
    assert(pv.take(0) =~= Seq::<Seq<char>>::empty());
    assert(res@.map_values(|v: Vec<char>| v@) =~= Seq::<Seq<char>>::empty());
    while i < pieces.len()
        invariant
            i <= pieces.len(),
            pv == pieces@.map_values(|v: Vec<char>| v@),
            res@.map_values(|v: Vec<char>| v@) == keep_nonempty(pv.take(i as int)),
        decreases pieces.len() - i,
    {
        assert(pv.take(i + 1).drop_last() =~= pv.take(i as int));
        assert(pv.take(i + 1).last() == pieces@[i as int]@);
        if pieces[i].len() > 0 {
            let ghost before = res@;
            let piece = pieces[i].clone();
            res.push(piece);
            proof {
                lemma_views_push(before, piece);
            }
        }
        i = i + 1;
    }
    assert(pv.take(pieces.len() as int) =~= pv);
    res
}

/// `base_path` without its last `levels_up` segments, followed by
/// `suffix`, joined with `::`.
fn join_module_segments(base_path: &str, levels_up: usize, suffix: &Vec<Vec<char>>) -> (res: Option<String>)
    ensures
        opt_view(res) == joined_segments(base_path@, levels_up as int, suffix@.map_values(|v: Vec<char>| v@)),
{
    let base = nonempty_pieces(&split_on_colons(&chars_of(base_path)));
    if levels_up > base.len() {
        return None;
    }
    let keep = base.len() - levels_up;
    let mut joined: Vec<Vec<char>> = Vec::new();
    let ghost bv = base@.map_values(|v: Vec<char>| v@);
    let ghost sv = suffix@.map_values(|v: Vec<char>| v@);
    let mut i: usize = 0;
    while i < keep
        invariant
            i <= keep <= base.len(),
            bv == base@.map_values(|v: Vec<char>| v@),
            joined@.map_values(|v: Vec<char>| v@) == bv.take(i as int),
        decreases keep - i,
    {
        let ghost before = joined@;
        let piece = base[i].clone();
        assert(piece@ == bv[i as int]);
        joined.push(piece);
        proof {
            lemma_views_push(before, piece);
            assert(bv.take(i + 1) =~= bv.take(i as int).push(bv[i as int]));
        }
        i = i + 1;
    }
    let mut j: usize = 0;
    while j < suffix.len()
        invariant
            j <= suffix.len(),
            sv == suffix@.map_values(|v: Vec<char>| v@),
            joined@.map_values(|v: Vec<char>| v@) == bv.take(keep as int) + sv.take(j as int),
        decreases suffix.len() - j,
    {
        let ghost before = joined@;
        let piece = suffix[j].clone();
        assert(piece@ == sv[j as int]);
        joined.push(piece);
        proof {
            lemma_views_push(before, piece);
            assert(bv.take(keep as int) + sv.take(j + 1) =~= (bv.take(keep as int) + sv.take(
                j as int,
            )).push(sv[j as int]));
        }
        j = j + 1;
    }
    assert(sv.take(suffix.len() as int) =~= sv);
    Some(string_of(join_on_colons(&joined).as_slice()))
}

/// Resolve a `super::` or `self::` path to an absolute crate-local path.
///
/// Returns `None` when the path is not relative, when `super::`/`self::`
/// is absorbed by the inline module depth, or when too many `super::` would
/// go above the crate root.
pub fn resolve_relative_path(path: &str, current_module_path: &str, inline_depth: usize) -> (res:
    Option<String>)
    ensures
        opt_view(res) == relative_path(path@, current_module_path@, inline_depth as int),
{
    let segments = split_on_colons(&chars_of(path));
    let ghost sv = segments@.map_values(|v: Vec<char>| v@);
    proof {
        lemma_split_first(path@, colons());
        lemma_leading_supers(sv, 0);
    }
    let super_chars = vec!['s', 'u', 'p', 'e', 'r'];
    assert(super_chars@ =~= super_word());
    let mut supers: usize = 0;
    while supers < segments.len() && crate::text::seq_eq(&segments[supers], &super_chars)
        invariant
            supers <= segments.len(),
            super_chars@ == super_word(),
            sv == segments@.map_values(|v: Vec<char>| v@),
            leading_supers(sv, 0) == supers + leading_supers(sv, supers as int),
        decreases segments.len() - supers,
    {
        assert(sv[supers as int] == segments@[supers as int]@);
        assert(sv[supers as int] == super_word());
        assert(leading_supers(sv, supers as int) == 1 + leading_supers(sv, supers + 1));
        supers = supers + 1;
    }
    if supers < segments.len() {
        assert(sv[supers as int] == segments@[supers as int]@);
    }
    assert(leading_supers(sv, supers as int) == 0);
    if supers > inline_depth {
        let mut rest: Vec<Vec<char>> = Vec::new();
        let mut k = supers;
        while k < segments.len()
            invariant
                supers <= k <= segments.len(),
                sv == segments@.map_values(|v: Vec<char>| v@),
                rest@.map_values(|v: Vec<char>| v@) == sv.subrange(supers as int, k as int),
            decreases segments.len() - k,
        {
            let ghost before = rest@;
            let piece = segments[k].clone();
            assert(piece@ == sv[k as int]);
            rest.push(piece);
            proof {
                lemma_views_push(before, piece);
                assert(sv.subrange(supers as int, k + 1) =~= sv.subrange(supers as int, k as int).push(
                    sv[k as int],
                ));
            }
            k = k + 1;
        }
        assert(sv.subrange(supers as int, segments.len() as int) =~= sv.skip(supers as int));
        return join_module_segments(current_module_path, supers - inline_depth, &rest);
    }
    let self_chars = vec!['s', 'e', 'l', 'f'];
    assert(self_chars@ =~= self_word());
    assert(sv[0] == segments@[0]@);
    if crate::text::seq_eq(&segments[0], &self_chars) && inline_depth == 0 {
        let mut rest: Vec<Vec<char>> = Vec::new();
        let mut k: usize = 1;
        while k < segments.len()
            invariant
                1 <= k <= segments.len(),
                sv == segments@.map_values(|v: Vec<char>| v@),
                rest@.map_values(|v: Vec<char>| v@) == sv.subrange(1, k as int),
            decreases segments.len() - k,
        {
            let ghost before = rest@;
            let piece = segments[k].clone();
            assert(piece@ == sv[k as int]);
            rest.push(piece);
            proof {
                lemma_views_push(before, piece);
                assert(sv.subrange(1, k + 1) =~= sv.subrange(1, k as int).push(sv[k as int]));
            }
            k = k + 1;
        }
        assert(sv.subrange(1, segments.len() as int) =~= sv.skip(1));
        return join_module_segments(current_module_path, 0, &rest);
    }
    None
}

/// `outside_crate[::rest]` where `outside_crate` is an outside crate the
/// metadata names: a dependency on its root, with the rest as item.
pub open spec fn external_dep(
    c: CtxView,
    path: Seq<char>,
    line: usize,
    context: (UsageKind, Seq<String>),
) -> Option<DepView> {
    let parts = split_colons(path);
    let first = trim_seq(parts[0]);
    if first.len() == 0 || !c.external.contains(first) {
        None
    } else {
        let item = if parts.len() > 1 {
            Some(join_colons(parts.skip(1)))
        } else {
            None
        };
        Some(dep_at(c.source_file, first, Seq::empty(), item, line, context))
    }
}

/// Parse an outside crate import: `use serde::Deserialize` where `serde` is
/// a known outside crate. The last link of the resolution chain.
pub fn parse_external_crate_import(
    ctx: &ResolutionContext,
    path: &str,
    line_num: usize,
    context: &EdgeContext,
) -> (res: Option<DependencyRef>)
    ensures
        res matches Some(d) ==> external_dep(ctx@, path@, line_num, context@) == Some(d@),
        res is None ==> external_dep(ctx@, path@, line_num, context@) is None,
{
    let parts = split_on_colons(&chars_of(path));
    let ghost pv = parts@.map_values(|v: Vec<char>| v@);
    proof {
        lemma_split_first(path@, colons());
    }
    assert(pv[0] == parts@[0]@);
    let first = string_of(trim(&parts[0]).as_slice());
    if first.as_str().is_empty() || !ctx.external_crate_names.contains_key(first.as_str()) {
        return None;
    }
    let item = if parts.len() > 1 {
        let mut rest: Vec<Vec<char>> = Vec::new();
        let mut j: usize = 1;
        while j < parts.len()
            invariant
                1 <= j <= parts.len(),
                pv == parts@.map_values(|v: Vec<char>| v@),
                rest@.map_values(|v: Vec<char>| v@) == pv.subrange(1, j as int),
            decreases parts.len() - j,
        {
            let ghost before = rest@;
            let piece = parts[j].clone();
            assert(piece@ == pv[j as int]);
            rest.push(piece);
            proof {
                lemma_views_push(before, piece);
                assert(pv.subrange(1, j + 1) =~= pv.subrange(1, j as int).push(pv[j as int]));
            }
            j = j + 1;
        }
        assert(pv.subrange(1, parts.len() as int) =~= pv.skip(1));
        Some(string_of(join_on_colons(&rest).as_slice()))
    } else {
        None
    };
    let root = String::new();
    assert(root@ =~= Seq::<char>::empty());
    Some(dep_in(ctx, first, root, item, line_num, context))
}

/// `::*`
pub open spec fn glob_tail() -> Seq<char> {
    seq![':', ':', '*']
}

/// The dependency one path resolves to: a relative path made absolute and
/// read as crate-local; a glob resolved by its base, with item `*`; else
/// the first of crate-local, bare module, workspace crate, a bare workspace
/// crate name, and outside crate that applies.
pub open spec fn single_path_dep(
    c: CtxView,
    path: Seq<char>,
    line: usize,
    context: (UsageKind, Seq<String>),
    depth: int,
) -> Option<DepView>
    decreases path.len(),
{
    match relative_path(path, c.current_module, depth) {
        Some(resolved) => crate_local_dep(c, crate_prefix() + resolved, line, context),
        None => if glob_tail().is_suffix_of(path) {
            match single_path_dep(c, path.take(path.len() - 3), line, context, depth) {
                Some(d) => Some(DepView { target_item: Some(seq!['*']), ..d }),
                None => None,
            }
        } else if crate_local_dep(c, path, line, context) is Some {
            crate_local_dep(c, path, line, context)
        } else if bare_module_dep(c, path, line, context) is Some {
            bare_module_dep(c, path, line, context)
        } else if workspace_dep(c, path, line, context) is Some {
            workspace_dep(c, path, line, context)
        } else if crate::text::find_from(path, colons(), 0) < 0 && is_member(path, c.workspace) {
            Some(dep_at(c.source_file, path, Seq::empty(), None, line, context))
        } else {
            external_dep(c, path, line, context)
        },
    }
}

/// Resolve a single path through the resolution chain: relative, then
/// crate-local, bare module, workspace crate, bare workspace crate name,
/// outside crate. A glob path (`crate::module::*`) resolves by its base and
/// gets `*` as item.
pub fn resolve_single_path(
    ctx: &ResolutionContext,
    path: &str,
    line_num: usize,
    context: &EdgeContext,
    inline_depth: usize,
) -> (res: Option<DependencyRef>)
    ensures
        res matches Some(d) ==> single_path_dep(ctx@, path@, line_num, context@, inline_depth as int)
            == Some(d@),
        res is None ==> single_path_dep(ctx@, path@, line_num, context@, inline_depth as int) is None,
    decreases path@.len(),
{
    match resolve_relative_path(path, ctx.current_module_path, inline_depth) {
        Some(resolved) => {
            let mut full = crate_prefix_chars();
            let r = chars_of(resolved.as_str());
            let mut k: usize = 0;
            let ghost base = full@;
            while k < r.len()
                invariant
                    k <= r.len(),
                    full@ == base + r@.take(k as int),
                decreases r.len() - k,
            {
                full.push(r[k]);
                k = k + 1;
                assert(full@ =~= base + r@.take(k as int));
            }
            assert(r@.take(r.len() as int) =~= r@);
            let full_path = string_of(full.as_slice());
            return parse_crate_local_import(ctx, full_path.as_str(), line_num, context);
        },
        None => {},
    }
    let chars = chars_of(path);
    let tail = vec![':', ':', '*'];
    assert(tail@ =~= glob_tail());
    if crate::text::ends_with(&chars, &tail) {
        let base = string_of(crate::text::slice_of(&chars, 0, chars.len() - 3).as_slice());
        assert(base@ =~= path@.take(path@.len() - 3));
        return match resolve_single_path(ctx, base.as_str(), line_num, context, inline_depth) {
            Some(dep) => {
                let mut dep = dep;
                let star_chars = vec!['*'];
                assert(star_chars@ =~= seq!['*']);
                let star = string_of(star_chars.as_slice());
                dep.target_item = Some(star);
                Some(dep)
            },
            None => None,
        };
    }
    match parse_crate_local_import(ctx, path, line_num, context) {
        Some(dep) => {
            return Some(dep);
        },
        None => {},
    }
    match parse_bare_module_import(ctx, path, line_num, context) {
        Some(dep) => {
            return Some(dep);
        },
        None => {},
    }
    match parse_workspace_import(ctx, path, line_num, context) {
        Some(dep) => {
            return Some(dep);
        },
        None => {},
    }
    let colons_chars = vec![':', ':'];
    assert(colons_chars@ =~= colons());
    if crate::text::find(&chars, &colons_chars, 0).is_none() && is_workspace_member(
        path,
        ctx.workspace_crates,
    ) {
        let root = String::new();
        assert(root@ =~= Seq::<char>::empty());
        return Some(dep_in(ctx, owned(path), root, None, line_num, context));
    }
    parse_external_crate_import(ctx, path, line_num, context)
}

/// Promote any context to a test context: production becomes a unit test,
/// a test context stays as it is.
pub open spec fn promoted(kind: UsageKind) -> UsageKind {
    match kind {
        UsageKind::Production => UsageKind::Test(crate::model::TestKind::Unit),
        other => other,
    }
}

/// Promote a context to a test context, keeping its features.
pub fn promote_to_test(base: &EdgeContext) -> (res: EdgeContext)
    ensures
        res@ == (promoted(base@.0), base@.1),
{
    EdgeContext {
        kind: match base.kind {
            UsageKind::Production => UsageKind::Test(crate::model::TestKind::Unit),
            already_test => already_test,
        },
        features: crate::model::clone_strings(&base.features),
    }
}

/// `prefix::segment`, or `segment` where the prefix is empty.
pub open spec fn appended(prefix: Seq<char>, segment: Seq<char>) -> Seq<char> {
    if prefix.len() == 0 {
        segment
    } else {
        prefix + colons() + segment
    }
}

/// Join a prefix and a segment with `::`, handling an empty prefix.
pub fn append_to_path(prefix: &str, segment: &str) -> (res: String)
    ensures
        res@ == appended(prefix@, segment@),
{
    if prefix.is_empty() {
        return owned(segment);
    }
    let mut out = chars_of(prefix);
    out.push(':');
    out.push(':');
    let s = chars_of(segment);
    let ghost base = out@;
    let mut k: usize = 0;
    while k < s.len()
        invariant
            k <= s.len(),
            out@ == base + s@.take(k as int),
        decreases s.len() - k,
    {
        out.push(s[k]);
        k = k + 1;
        assert(out@ =~= base + s@.take(k as int));
    }
    assert(s@.take(s.len() as int) =~= s@);
    assert(out@ =~= prefix@ + colons() + segment@);
    string_of(out.as_slice())
}

} // verus!
