//! Line-based `use` statement parsing for workspace dependency extraction:
//! each source line is read on its own, and a line that is a `use` of the
//! current crate or of a workspace crate yields the dependencies it names.

use vstd::prelude::*;

use crate::analyze::crate_prefix;
use crate::collections::StrSet;
use crate::model::{
    normalize_crate_name, normalized, opt_view, DepView, DependencyRef, EdgeContext, UsageKind,
    full_target_of, dep_views,
};
use crate::text::{
    chars_of, colons, find, find_char, find_from, lines, lines_seq, slice_of, split_colons,
    split_on, split_on_colons, split_seq, starts_with, strip_prefix, strip_prefix_seq, string_of,
    trim, trim_end_char, trim_end_matches, trim_end_matches_pat, trim_end_pat, trim_seq, ends_with,
    lemma_split_first,
};

verus! {

/// `use `
pub open spec fn use_prefix() -> Seq<char> {
    seq!['u', 's', 'e', ' ']
}

/// `::*`
pub open spec fn glob_suffix() -> Seq<char> {
    seq![':', ':', '*']
}

/// A dependency the line parser produces: production code, no re-export,
/// no uses.
pub open spec fn line_dep(
    krate: Seq<char>,
    module: Seq<char>,
    item: Option<Seq<char>>,
    file: Seq<char>,
    line: usize,
) -> DepView {
    DepView {
        target_crate: krate,
        target_module: module,
        target_item: item,
        source_file: file,
        line,
        context: (UsageKind::Production, Seq::empty()),
        via_reexport: false,
        uses: Seq::empty(),
    }
}

/// Whether `name` names a workspace crate, `-` and `_` alike.
pub open spec fn is_member(name: Seq<char>, ws: Set<Seq<char>>) -> bool {
    exists|w: Seq<char>| ws.contains(w) && normalized(w) == normalized(name)
}

/// The path of a `use` line: after `use `, without trailing `;`, trimmed.
pub open spec fn use_path_of(line: Seq<char>) -> Option<Seq<char>> {
    let t = trim_seq(line);
    if use_prefix().is_prefix_of(t) {
        Some(trim_seq(trim_end_char(t.skip(4), ';')))
    } else {
        None
    }
}

/// The part at `index` cut at `{` and `;` and trimmed, where it is a name.
pub open spec fn item_of_parts(parts: Seq<Seq<char>>, index: int) -> Option<Seq<char>> {
    if 0 <= index < parts.len() {
        let p = trim_seq(trim_end_char(trim_end_char(parts[index], '{'), ';'));
        if p.len() == 0 || p[0] == '{' {
            None
        } else {
            Some(p)
        }
    } else {
        None
    }
}

/// `crate::module[::item]`, as a dependency on the current crate.
pub open spec fn crate_local_of(path: Seq<char>, current: Seq<char>, file: Seq<char>, line: usize) -> Option<DepView> {
    match strip_prefix_seq(path, crate_prefix()) {
        None => None,
        Some(after) => {
            let parts = split_colons(after);
            let module = trim_seq(trim_end_char(parts[0], '{'));
            if module.len() == 0 {
                None
            } else {
                Some(line_dep(normalized(current), module, item_of_parts(parts, 1), file, line))
            }
        },
    }
}

/// `workspace_crate::module[::item]`.
pub open spec fn workspace_of(path: Seq<char>, ws: Set<Seq<char>>, file: Seq<char>, line: usize) -> Option<DepView> {
    let parts = split_colons(path);
    let name = trim_seq(parts[0]);
    if !is_member(name, ws) || parts.len() < 2 {
        None
    } else {
        let module = trim_seq(trim_end_char(trim_end_char(parts[1], '{'), ';'));
        if module.len() == 0 {
            None
        } else {
            Some(line_dep(name, module, item_of_parts(parts, 2), file, line))
        }
    }
}

/// The dependency a single `use` line names.
pub open spec fn use_statement_of(
    line: Seq<char>,
    n: usize,
    current: Seq<char>,
    ws: Set<Seq<char>>,
    file: Seq<char>,
) -> Option<DepView> {
    match use_path_of(line) {
        None => None,
        Some(path) => match crate_local_of(path, current, file, n) {
            Some(d) => Some(d),
            None => workspace_of(path, ws, file, n),
        },
    }
}

/// The crate and module a base path names (the part before `::*` or
/// `::{..}`).
pub open spec fn base_path_of(base: Seq<char>, current: Seq<char>, ws: Set<Seq<char>>) -> Option<(Seq<char>, Seq<char>)> {
    match strip_prefix_seq(base, crate_prefix()) {
        Some(after) => {
            let parts = split_colons(after);
            if parts[0].len() == 0 {
                None
            } else {
                Some((normalized(current), parts[0]))
            }
        },
        None => {
            let parts = split_colons(base);
            if parts.len() >= 2 && is_member(trim_seq(parts[0]), ws) {
                Some((trim_seq(parts[0]), parts[1]))
            } else {
                None
            }
        },
    }
}

/// Each piece trimmed.
pub open spec fn trim_all(pieces: Seq<Seq<char>>) -> Seq<Seq<char>> {
    pieces.map_values(|p: Seq<char>| trim_seq(p))
}

/// The non-empty pieces, in order.
pub open spec fn keep_nonempty(pieces: Seq<Seq<char>>) -> Seq<Seq<char>>
    decreases pieces.len(),
{
    if pieces.len() == 0 {
        Seq::empty()
    } else {
        let rest = keep_nonempty(pieces.drop_last());
        if pieces.last().len() > 0 {
            rest.push(pieces.last())
        } else {
            rest
        }
    }
}

/// The trimmed non-empty pieces of `s` between commas.
pub open spec fn symbols_of(s: Seq<char>) -> Seq<Seq<char>> {
    keep_nonempty(trim_all(split_seq(s, seq![','])))
}

/// One dependency on `c::m` per symbol, with the symbol as item.
pub open spec fn deps_for_symbols(
    syms: Seq<Seq<char>>,
    c: Seq<char>,
    m: Seq<char>,
    file: Seq<char>,
    n: usize,
) -> Seq<DepView>
    decreases syms.len(),
{
    if syms.len() == 0 {
        Seq::empty()
    } else {
        deps_for_symbols(syms.drop_last(), c, m, file, n).push(
            line_dep(c, m, Some(syms.last()), file, n),
        )
    }
}

/// The positions of the first `{` and the first `}` of a path, where it
/// has both.
pub open spec fn braces_of(path: Seq<char>) -> Option<(int, int)> {
    let open = find_from(path, seq!['{'], 0);
    let close = find_from(path, seq!['}'], 0);
    if open >= 0 && close >= 0 {
        Some((open, close))
    } else {
        None
    }
}

/// Whether the line is a `use` whose first `}` stands before its first `{`,
/// a line whose path cannot be split at its braces.
pub open spec fn braces_reversed(line: Seq<char>) -> bool {
    match use_path_of(line) {
        Some(path) => match braces_of(path) {
            Some((open, close)) => close < open,
            None => false,
        },
        None => false,
    }
}

/// The dependencies of one `use` line: one per symbol of a `{..}` group,
/// one with item `*` for a glob, or the single dependency of a plain `use`.
pub open spec fn use_statement_multi_of(
    line: Seq<char>,
    n: usize,
    current: Seq<char>,
    ws: Set<Seq<char>>,
    file: Seq<char>,
) -> Seq<DepView> {
    match use_path_of(line) {
        None => Seq::empty(),
        Some(path) => match braces_of(path) {
            Some((open, close)) => {
                let base = trim_end_char(path.take(open), ':');
                let symbols = symbols_of(path.subrange(open + 1, close));
                match base_path_of(base, current, ws) {
                    Some((c, m)) => deps_for_symbols(symbols, c, m, file, n),
                    None => Seq::empty(),
                }
            },
            None => if glob_suffix().is_suffix_of(path) {
                match base_path_of(trim_end_pat(path, glob_suffix()), current, ws) {
                    Some((c, m)) => seq![line_dep(c, m, Some(seq!['*']), file, n)],
                    None => Seq::empty(),
                }
            } else {
                match use_statement_of(line, n, current, ws, file) {
                    Some(d) => seq![d],
                    None => Seq::empty(),
                }
            },
        },
    }
}

/// `deps` with `d` appended unless a dependency on its full target is there.
pub open spec fn add_unseen(deps: Seq<DepView>, d: DepView) -> Seq<DepView> {
    if exists|i: int| 0 <= i < deps.len() && full_target_of(deps[i]) == full_target_of(d) {
        deps
    } else {
        deps.push(d)
    }
}

/// `deps` with each of `new` added unless seen, in order.
pub open spec fn add_all_unseen(deps: Seq<DepView>, new: Seq<DepView>) -> Seq<DepView>
    decreases new.len(),
{
    if new.len() == 0 {
        deps
    } else {
        add_all_unseen(add_unseen(deps, new[0]), new.drop_first())
    }
}

/// The dependencies of the first `k` lines, each full target once.
pub open spec fn workspace_deps_upto(
    lines: Seq<Seq<char>>,
    k: int,
    current: Seq<char>,
    ws: Set<Seq<char>>,
    file: Seq<char>,
) -> Seq<DepView>
    decreases k,
{
    if k <= 0 {
        Seq::empty()
    } else {
        add_all_unseen(
            workspace_deps_upto(lines, k - 1, current, ws, file),
            use_statement_multi_of(lines[k - 1], k as usize, current, ws, file),
        )
    }
}

/// A dependency of production code with no uses.
fn make_dep(krate: String, module: String, item: Option<String>, file: String, line: usize) -> (res: DependencyRef)
    ensures
        res@ == line_dep(krate@, module@, opt_view(item), file@, line),
{
    let res = DependencyRef {
        target_crate: krate,
        target_module: module,
        target_item: item,
        source_file: file,
        line,
        context: EdgeContext::production(),
        via_reexport: false,
        uses: Vec::new(),
    };
    assert(res.uses@ =~= Seq::<crate::model::SymbolUse>::empty());
    res
}

fn to_string(v: &Vec<char>) -> (res: String)
    ensures
        res@ == v@,
{
    string_of(v.as_slice())
}

/// Whether `name` names a workspace crate, `-` and `_` alike.
pub fn is_workspace_member(name: &str, workspace_crates: &StrSet) -> (res: bool)
    ensures
        res == is_member(name@, workspace_crates@),
{
    let normalized_name = normalize_crate_name(name);
    proof {
        workspace_crates.lemma_items();
    }
    let mut i: usize = 0;
    while i < workspace_crates.len()
        invariant
            i <= workspace_crates.item_seq().len(),
            normalized_name@ == normalized(name@),
            forall|j: int| 0 <= j < i ==> normalized(#[trigger] workspace_crates.item_seq()[j]) != normalized(name@),
            forall|k: Seq<char>| workspace_crates@.contains(k) <==> workspace_crates.item_seq().contains(k),
        decreases workspace_crates.item_seq().len() - i,
    {
        let w = normalize_crate_name(workspace_crates.item_at(i).as_str());
        if w == normalized_name {
            assert(workspace_crates.item_seq().contains(workspace_crates.item_seq()[i as int]));
            return true;
        }
        i = i + 1;
    }
    proof {
        if is_member(name@, workspace_crates@) {
            let w = choose|w: Seq<char>| workspace_crates@.contains(w) && normalized(w) == normalized(name@);
            let j = choose|j: int| 0 <= j < workspace_crates.item_seq().len() && workspace_crates.item_seq()[j] == w;
            assert(normalized(workspace_crates.item_seq()[j]) != normalized(name@));
        }
    }
    false
}

fn is_member_chars(name: &Vec<char>, ws: &StrSet) -> (res: bool)
    ensures
        res == is_member(name@, ws@),
{
    let s = to_string(name);
    is_workspace_member(s.as_str(), ws)
}

/// The path of a `use` line, as chars.
fn use_path(line: &Vec<char>) -> (res: Option<Vec<char>>)
    ensures
        res matches Some(p) ==> use_path_of(line@) == Some(p@),
        res is None ==> use_path_of(line@) is None,
{
    let t = trim(line);
    let prefix = vec!['u', 's', 'e', ' '];
    assert(prefix@ =~= use_prefix());
    if !starts_with(&t, &prefix) {
        return None;
    }
    let after = slice_of(&t, 4, t.len());
    assert(after@ =~= t@.skip(4));
    let cut = trim_end_matches(&after, ';');
    Some(trim(&cut))
}

/// Extract the use path from a line like `use crate::module;`: `crate::module`.
pub fn extract_use_path(line: &str) -> (res: Option<String>)
    ensures
        res matches Some(p) ==> use_path_of(line@) == Some(p@),
        res is None ==> use_path_of(line@) is None,
{
    match use_path(&chars_of(line)) {
        Some(p) => Some(to_string(&p)),
        None => None,
    }
}

/// The part at `index` of a split path, cut at `{` and `;` and trimmed,
/// where it is a name.
pub fn extract_item_from_parts(parts: &Vec<Vec<char>>, index: usize) -> (res: Option<String>)
    ensures
        opt_view(res) == item_of_parts(parts@.map_values(|v: Vec<char>| v@), index as int),
{
    if index >= parts.len() {
        return None;
    }
    assert(parts@.map_values(|v: Vec<char>| v@)[index as int] == parts@[index as int]@);
    let a = trim_end_matches(&parts[index], '{');
    let b = trim_end_matches(&a, ';');
    let p = trim(&b);
    if p.len() == 0 || p[0] == '{' {
        None
    } else {
        Some(to_string(&p))
    }
}

fn crate_prefix_chars() -> (res: Vec<char>)
    ensures
        res@ == crate_prefix(),
{
    let v = vec!['c', 'r', 'a', 't', 'e', ':', ':'];
    assert(v@ =~= crate_prefix());
    v
}

/// Parse a crate-local import: `crate::module[::item]`.
pub fn parse_crate_local_import(path: &Vec<char>, current_crate: &str, source_file: &str, line_num: usize) -> (res: Option<DependencyRef>)
    ensures
        res matches Some(d) ==> crate_local_of(path@, current_crate@, source_file@, line_num) == Some(d@),
        res is None ==> crate_local_of(path@, current_crate@, source_file@, line_num) is None,
{
    let after = match strip_prefix(path, &crate_prefix_chars()) {
        Some(a) => a,
        None => return None,
    };
    let parts = split_on_colons(&after);
    proof {
        lemma_split_first(after@, colons());
    }
    assert(parts@.map_values(|v: Vec<char>| v@)[0] == parts@[0]@);
    let a = trim_end_matches(&parts[0], '{');
    let module = trim(&a);
    if module.len() == 0 {
        return None;
    }
    let item = extract_item_from_parts(&parts, 1);
    Some(make_dep(normalize_crate_name(current_crate), to_string(&module), item, source_file.to_string(), line_num))
}

/// Parse a workspace crate import: `other_crate::module[::item]`, where
/// `other_crate` is a workspace member.
pub fn parse_workspace_import(path: &Vec<char>, workspace_crates: &StrSet, source_file: &str, line_num: usize) -> (res: Option<DependencyRef>)
    ensures
        res matches Some(d) ==> workspace_of(path@, workspace_crates@, source_file@, line_num) == Some(d@),
        res is None ==> workspace_of(path@, workspace_crates@, source_file@, line_num) is None,
{
    let parts = split_on_colons(path);
    let ghost pv = parts@.map_values(|v: Vec<char>| v@);
    proof {
        lemma_split_first(path@, colons());
    }
    assert(pv[0] == parts@[0]@);
    let name = trim(&parts[0]);
    if !is_member_chars(&name, workspace_crates) || parts.len() < 2 {
        return None;
    }
    assert(pv[1] == parts@[1]@);
    let a = trim_end_matches(&parts[1], '{');
    let b = trim_end_matches(&a, ';');
    let module = trim(&b);
    if module.len() == 0 {
        return None;
    }
    let item = extract_item_from_parts(&parts, 2);
    Some(make_dep(to_string(&name), to_string(&module), item, source_file.to_string(), line_num))
}

/// Process one `use` line into the dependency it names, where it is a
/// `use` of the current crate or of a workspace crate.
///
/// `use self::..`, `use super::..`, and imports of other crates name none.
pub fn process_use_statement(
    line: &str,
    line_num: usize,
    current_crate: &str,
    workspace_crates: &StrSet,
    source_file: &str,
) -> (res: Option<DependencyRef>)
    ensures
        res matches Some(d) ==> use_statement_of(line@, line_num, current_crate@, workspace_crates@, source_file@) == Some(d@),
        res is None ==> use_statement_of(line@, line_num, current_crate@, workspace_crates@, source_file@) is None,
{
    let path = match use_path(&chars_of(line)) {
        Some(p) => p,
        None => return None,
    };
    match parse_crate_local_import(&path, current_crate, source_file, line_num) {
        Some(d) => Some(d),
        None => parse_workspace_import(&path, workspace_crates, source_file, line_num),
    }
}

/// Parse a base path (before `::*` or `::{..}`) into crate and module.
pub fn parse_base_path(base_path: &Vec<char>, current_crate: &str, workspace_crates: &StrSet) -> (res: Option<(String, String)>)
    ensures
        res matches Some(cm) ==> base_path_of(base_path@, current_crate@, workspace_crates@) == Some((cm.0@, cm.1@)),
        res is None ==> base_path_of(base_path@, current_crate@, workspace_crates@) is None,
{
    match strip_prefix(base_path, &crate_prefix_chars()) {
        Some(after) => {
            let parts = split_on_colons(&after);
            proof {
                lemma_split_first(after@, colons());
            }
            assert(parts@.map_values(|v: Vec<char>| v@)[0] == parts@[0]@);
            if parts[0].len() == 0 {
                return None;
            }
            Some((normalize_crate_name(current_crate), to_string(&parts[0])))
        },
        None => {
            let parts = split_on_colons(base_path);
            let ghost pv = parts@.map_values(|v: Vec<char>| v@);
            proof {
                lemma_split_first(base_path@, colons());
            }
            if parts.len() >= 2 {
                assert(pv[0] == parts@[0]@);
                assert(pv[1] == parts@[1]@);
                let first = trim(&parts[0]);
                if is_member_chars(&first, workspace_crates) {
                    return Some((to_string(&first), to_string(&parts[1])));
                }
            }
            None
        },
    }
}

/// The trimmed non-empty pieces of `s` between commas.
fn symbols(s: &Vec<char>) -> (res: Vec<Vec<char>>)
    ensures
        res@.map_values(|v: Vec<char>| v@) == symbols_of(s@),
{
    let comma = vec![','];
    assert(comma@ =~= seq![',']);
    let pieces = split_on(s, &comma);
    let ghost pv = pieces@.map_values(|v: Vec<char>| v@);
    let ghost trimmed = trim_all(pv);
    let mut res: Vec<Vec<char>> = Vec::new();
    let mut i: usize = 0;
    assert(trimmed.take(0) =~= Seq::<Seq<char>>::empty());
    assert(res@.map_values(|v: Vec<char>| v@) =~= Seq::<Seq<char>>::empty());
    while i < pieces.len()
        invariant
            i <= pieces.len(),
            pv == pieces@.map_values(|v: Vec<char>| v@),
            trimmed == trim_all(pv),
            res@.map_values(|v: Vec<char>| v@) == keep_nonempty(trimmed.take(i as int)),
        decreases pieces.len() - i,
    {
        let t = trim(&pieces[i]);
        assert(trimmed[i as int] == t@);
        let ghost before = res@.map_values(|v: Vec<char>| v@);
        proof {
            assert(trimmed.take(i + 1).drop_last() =~= trimmed.take(i as int));
            assert(trimmed.take(i + 1).last() == t@);
        }
        if t.len() > 0 {
            res.push(t);
            assert(res@.map_values(|v: Vec<char>| v@) =~= before.push(t@));
        } else {
            assert(res@.map_values(|v: Vec<char>| v@) =~= before);
        }
        i = i + 1;
    }
    assert(trimmed.take(pieces.len() as int) =~= trimmed);
    res
}

/// Process a `use` line that may name several symbols (`{A, B}`) or a glob
/// (`*`): one dependency per symbol, one with item `*` for a glob, or the
/// single dependency of a plain `use`.
pub fn process_use_statement_multi(
    line: &str,
    line_num: usize,
    current_crate: &str,
    workspace_crates: &StrSet,
    source_file: &str,
) -> (res: Vec<DependencyRef>)
    requires
        !braces_reversed(line@),
    ensures
        dep_views(res@) == use_statement_multi_of(line@, line_num, current_crate@, workspace_crates@, source_file@),
{
    let path = match use_path(&chars_of(line)) {
        Some(p) => p,
        None => {
            let res: Vec<DependencyRef> = Vec::new();
            assert(dep_views(res@) =~= Seq::<DepView>::empty());
            return res;
        },
    };
    let ob = vec!['{'];
    let cb = vec!['}'];
    assert(ob@ =~= seq!['{']);
    assert(cb@ =~= seq!['}']);
    let open = find(&path, &ob, 0);
    let close = find(&path, &cb, 0);
    if let (Some(bs), Some(be)) = (open, close) {
        let head = slice_of(&path, 0, bs);
        assert(head@ =~= path@.take(bs as int));
        let base = trim_end_matches(&head, ':');
        let inner = slice_of(&path, bs + 1, be);
        let syms = symbols(&inner);
        let mut res: Vec<DependencyRef> = Vec::new();
        match parse_base_path(&base, current_crate, workspace_crates) {
            Some((c, m)) => {
                let ghost sv = syms@.map_values(|v: Vec<char>| v@);
                let mut i: usize = 0;
                assert(dep_views(res@) =~= deps_for_symbols(sv.take(0), c@, m@, source_file@, line_num));
                while i < syms.len()
                    invariant
                        i <= syms.len(),
                        sv == syms@.map_values(|v: Vec<char>| v@),
                        dep_views(res@) == deps_for_symbols(sv.take(i as int), c@, m@, source_file@, line_num),
                    decreases syms.len() - i,
                {
                    let d = make_dep(c.clone(), m.clone(), Some(to_string(&syms[i])), source_file.to_string(), line_num);
                    res.push(d);
                    i = i + 1;
                    assert(sv.take(i as int).drop_last() =~= sv.take(i - 1));
                    assert(dep_views(res@) =~= deps_for_symbols(sv.take(i as int), c@, m@, source_file@, line_num));
                }
                assert(sv.take(syms.len() as int) =~= sv);
                return res;
            },
            None => {
                assert(dep_views(res@) =~= Seq::<DepView>::empty());
                return res;
            },
        }
    }
    let suffix = vec![':', ':', '*'];
    assert(suffix@ =~= glob_suffix());
    let mut res: Vec<DependencyRef> = Vec::new();
    if ends_with(&path, &suffix) {
        let base = trim_end_matches_pat(&path, &suffix);
        if let Some((c, m)) = parse_base_path(&base, current_crate, workspace_crates) {
            let star = vec!['*'];
            let d = make_dep(c, m, Some(to_string(&star)), source_file.to_string(), line_num);
            assert(star@ =~= seq!['*']);
            res.push(d);
        }
        assert(dep_views(res@) =~= use_statement_multi_of(line@, line_num, current_crate@, workspace_crates@, source_file@));
        return res;
    }
    if let Some(d) = process_use_statement(line, line_num, current_crate, workspace_crates, source_file) {
        res.push(d);
    }
    assert(dep_views(res@) =~= use_statement_multi_of(line@, line_num, current_crate@, workspace_crates@, source_file@));
    res
}

/// Parse the `use` lines of a source file into the dependencies on the
/// current crate and on workspace crates they name, each full target once,
/// at its first line.
pub fn parse_workspace_dependencies(
    source: &str,
    current_crate: &str,
    workspace_crates: &StrSet,
    source_file: &str,
) -> (res: Vec<DependencyRef>)
    requires
        lines_seq(source@).len() < usize::MAX,
        forall|i: int| 0 <= i < lines_seq(source@).len() ==> !braces_reversed(#[trigger] lines_seq(source@)[i]),
    ensures
        dep_views(res@) == workspace_deps_upto(
            lines_seq(source@),
            lines_seq(source@).len() as int,
            current_crate@,
            workspace_crates@,
            source_file@,
        ),
        forall|i: int, j: int| 0 <= i < j < res@.len() ==> full_target_of(res@[i]@) != full_target_of(res@[j]@),
{
    let chars = chars_of(source);
    let ls = lines(&chars);
    let ghost lv = ls@.map_values(|v: Vec<char>| v@);
    let mut deps: Vec<DependencyRef> = Vec::new();
    let mut seen: Vec<String> = Vec::new();
    let mut k: usize = 0;
    while k < ls.len()
        invariant
            k <= ls.len(),
            lv == lines_seq(source@),
            lv == ls@.map_values(|v: Vec<char>| v@),
            ls.len() < usize::MAX,
            forall|i: int| 0 <= i < lv.len() ==> !braces_reversed(#[trigger] lv[i]),
            dep_views(deps@) == workspace_deps_upto(lv, k as int, current_crate@, workspace_crates@, source_file@),
            seen@.len() == deps@.len(),
            forall|i: int| 0 <= i < deps@.len() ==> #[trigger] seen@[i]@ == full_target_of(deps@[i]@),
            forall|i: int, j: int| 0 <= i < j < deps@.len() ==> full_target_of(deps@[i]@) != full_target_of(deps@[j]@),
        decreases ls.len() - k,
    {
        assert(lv[k as int] == ls@[k as int]@);
        let line = to_string(&ls[k]);
        let found = process_use_statement_multi(line.as_str(), k + 1, current_crate, workspace_crates, source_file);
        let ghost fv = dep_views(found@);
        let ghost start = dep_views(deps@);
        let mut m: usize = 0;
        assert(fv.take(0) =~= Seq::<DepView>::empty());
        while m < found.len()
            invariant
                m <= found.len(),
                fv == dep_views(found@),
                dep_views(deps@) == add_all_unseen(start, fv.take(m as int)),
                seen@.len() == deps@.len(),
                forall|i: int| 0 <= i < deps@.len() ==> #[trigger] seen@[i]@ == full_target_of(deps@[i]@),
                forall|i: int, j: int| 0 <= i < j < deps@.len() ==> full_target_of(deps@[i]@) != full_target_of(deps@[j]@),
            decreases found.len() - m,
        {
            let key = found[m].full_target();
            let mut present = false;
            let mut j: usize = 0;
            while j < seen.len()
                invariant
                    j <= seen@.len(),
                    seen@.len() == deps@.len(),
                    forall|i: int| 0 <= i < deps@.len() ==> #[trigger] seen@[i]@ == full_target_of(deps@[i]@),
                    present == (exists|i: int| 0 <= i < j && seen@[i]@ == key@),
                decreases seen.len() - j,
            {
                if seen[j] == key {
                    present = true;
                }
                j = j + 1;
            }
            let ghost cur = dep_views(deps@);
            proof {
                assert(fv[m as int] == found@[m as int]@);
                if present {
                    let i = choose|i: int| 0 <= i < j && seen@[i]@ == key@;
                    assert(cur[i] == deps@[i]@);
                } else {
                    assert forall|i: int| 0 <= i < cur.len() implies full_target_of(cur[i]) != full_target_of(fv[m as int]) by {
                        assert(cur[i] == deps@[i]@);
                        assert(seen@[i]@ == full_target_of(deps@[i]@));
                    }
                }
            }
            if !present {
                seen.push(key);
                deps.push(found[m].duplicate());
                assert(dep_views(deps@) =~= cur.push(fv[m as int]));
                assert forall|i: int, j: int| 0 <= i < j < deps@.len() implies full_target_of(deps@[i]@) != full_target_of(deps@[j]@) by {
                    assert(dep_views(deps@)[i] == deps@[i]@);
                    assert(dep_views(deps@)[j] == deps@[j]@);
                }
            }
            proof {
                assert(dep_views(deps@) == add_unseen(cur, fv[m as int]));
                lemma_add_all_unseen_step(start, fv, m as int);
            }
            m = m + 1;
        }
        assert(fv.take(found.len() as int) =~= fv);
        k = k + 1;
    }
    deps
}

/// Adding the first `m + 1` items is adding the first `m`, then item `m`.
proof fn lemma_add_all_unseen_step(start: Seq<DepView>, new: Seq<DepView>, m: int)
    requires
        0 <= m < new.len(),
    ensures
        add_all_unseen(start, new.take(m + 1)) == add_unseen(add_all_unseen(start, new.take(m)), new[m]),
    decreases m,
{
    if m == 0 {
        assert(new.take(1).drop_first() =~= Seq::<DepView>::empty());
        assert(new.take(1)[0] == new[0]);
        assert(new.take(0) =~= Seq::<DepView>::empty());
        assert(add_all_unseen(start, new.take(0)) == start);
        let e = Seq::<DepView>::empty();
        assert(add_all_unseen(add_unseen(start, new[0]), e) == add_unseen(start, new[0]));
        assert(add_all_unseen(start, new.take(1)) == add_all_unseen(
            add_unseen(start, new.take(1)[0]),
            new.take(1).drop_first(),
        ));
    } else {
        let rest = new.drop_first();
        lemma_add_all_unseen_step(add_unseen(start, new[0]), rest, m - 1);
        assert(new.take(m + 1).drop_first() =~= rest.take(m));
        assert(new.take(m).drop_first() =~= rest.take(m - 1));
        assert(new.take(m + 1)[0] == new[0]);
        assert(new.take(m)[0] == new[0]);
        assert(rest[m - 1] == new[m]);
        assert(add_all_unseen(start, new.take(m + 1)) == add_all_unseen(
            add_unseen(start, new.take(m + 1)[0]),
            new.take(m + 1).drop_first(),
        ));
        assert(add_all_unseen(start, new.take(m)) == add_all_unseen(
            add_unseen(start, new.take(m)[0]),
            new.take(m).drop_first(),
        ));
    }
}

/// Whether a line is one the `use` parsers read: not a `use` whose first
/// `}` stands before its first `{`.
fn braces_in_order(line: &Vec<char>) -> (res: bool)
    ensures
        res == !braces_reversed(line@),
{
    match use_path(line) {
        Some(path) => {
            let ob = vec!['{'];
            let cb = vec!['}'];
            assert(ob@ =~= seq!['{']);
            assert(cb@ =~= seq!['}']);
            match (find(&path, &ob, 0), find(&path, &cb, 0)) {
                (Some(bs), Some(be)) => bs <= be,
                _ => true,
            }
        },
        None => true,
    }
}

/// Whether `parse_workspace_dependencies` reads every line of the source:
/// none is a `use` whose first `}` stands before its first `{`.
pub fn readable_uses(source: &str) -> (res: bool)
    ensures
        res == (lines_seq(source@).len() < usize::MAX && forall|i: int|
            0 <= i < lines_seq(source@).len() ==> !braces_reversed(#[trigger] lines_seq(source@)[i])),
{
    let chars = chars_of(source);
    let ls = lines(&chars);
    let ghost lv = ls@.map_values(|v: Vec<char>| v@);
    assert(lv == lines_seq(source@));
    if ls.len() == usize::MAX {
        return false;
    }
    let mut i: usize = 0;
    while i < ls.len()
        invariant
            i <= ls@.len(),
            lv == ls@.map_values(|v: Vec<char>| v@),
            lv == lines_seq(source@),
            forall|j: int| 0 <= j < i ==> !braces_reversed(#[trigger] lv[j]),
        decreases ls.len() - i,
    {
        assert(lv[i as int] == ls@[i as int]@);
        if !braces_in_order(&ls[i]) {
            assert(braces_reversed(lines_seq(source@)[i as int]));
            return false;
        }
        i = i + 1;
    }
    true
}

} // verus!
