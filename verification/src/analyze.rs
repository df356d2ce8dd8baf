//! Workspace and module analysis: the crates of a workspace, their module
//! trees, and the crate-internal dependencies a source file writes.

pub mod bindings;
pub mod categories;
pub mod exports;
pub mod externals;
pub mod file_deps;
pub mod line_parser;
pub mod mod_resolver;
pub mod reexports;
pub mod resolution;
pub mod syntax;
pub mod tokens;
pub mod use_tree;

use vstd::prelude::*;

use crate::text::{
    chars_of, lines, lines_seq, split_colons, split_on_colons, starts_with, string_of, trim,
    trim_end_char, trim_end_matches, trim_seq,
};

verus! {

/// A member crate of the workspace.
#[derive(Debug)]
pub struct CrateInfo {
    pub name: String,
    /// The crate's directory.
    pub path: String,
    /// The workspace members it depends on through normal dependencies.
    pub dependencies: Vec<String>,
}

/// A crate-internal dependency: the module it points at and where it is
/// written.
#[derive(Debug)]
pub struct DependencyRef {
    pub target: String,
    pub source_file: String,
    pub line: usize,
}

/// A module and its children, with the dependencies its file writes.
#[derive(Debug)]
pub struct ModuleInfo {
    pub name: String,
    pub full_path: String,
    pub children: Vec<ModuleInfo>,
    pub dependencies: Vec<DependencyRef>,
}

/// The module tree of one crate.
#[derive(Debug)]
pub struct ModuleTree {
    pub root: ModuleInfo,
}

/// `use crate::`
pub open spec fn use_crate_prefix() -> Seq<char> {
    seq!['u', 's', 'e', ' ', 'c', 'r', 'a', 't', 'e', ':', ':']
}

/// `crate::`
pub open spec fn crate_prefix() -> Seq<char> {
    seq!['c', 'r', 'a', 't', 'e', ':', ':']
}

/// The target a line names when it is a `use crate::` statement:
/// `crate::<first segment>`, the segment cut at `;` and `{` and trimmed.
pub open spec fn crate_target_of_line(line: Seq<char>) -> Option<Seq<char>> {
    let t = trim_seq(line);
    if use_crate_prefix().is_prefix_of(t) {
        let first = split_colons(t.skip(11))[0];
        let module = trim_seq(trim_end_char(trim_end_char(first, ';'), '{'));
        if module.len() > 0 {
            Some(crate_prefix() + module)
        } else {
            None
        }
    } else {
        None
    }
}

/// Whether `target` stands in `deps`.
pub open spec fn has_target(deps: Seq<(Seq<char>, usize)>, target: Seq<char>) -> bool {
    exists|i: int| 0 <= i < deps.len() && deps[i].0 == target
}

/// The dependencies of the first `k` lines: each target once, at the first
/// line that names it (lines count from 1).
pub open spec fn crate_deps_upto(lines: Seq<Seq<char>>, k: int) -> Seq<(Seq<char>, usize)>
    decreases k,
{
    if k <= 0 {
        Seq::empty()
    } else {
        let prev = crate_deps_upto(lines, k - 1);
        match crate_target_of_line(lines[k - 1]) {
            Some(t) => if has_target(prev, t) {
                prev
            } else {
                prev.push((t, k as usize))
            },
            None => prev,
        }
    }
}

/// The view of a list of (target, line) pairs.
pub open spec fn pair_views(v: Seq<(String, usize)>) -> Seq<(Seq<char>, usize)> {
    v.map_values(|p: (String, usize)| (p.0@, p.1))
}

/// The target of one line, where it is a `use crate::` statement.
fn crate_target(line: &Vec<char>) -> (res: Option<Vec<char>>)
    ensures
        res matches Some(t) ==> crate_target_of_line(line@) == Some(t@),
        res is None ==> crate_target_of_line(line@) is None,
{
    let t = trim(line);
    let prefix = vec!['u', 's', 'e', ' ', 'c', 'r', 'a', 't', 'e', ':', ':'];
    assert(prefix@ =~= use_crate_prefix());
    if !starts_with(&t, &prefix) {
        return None;
    }
    let after = crate::text::slice_of(&t, 11, t.len());
    assert(after@ =~= t@.skip(11));
    let parts = split_on_colons(&after);
    proof {
        crate::text::lemma_split_first(after@, crate::text::colons());
    }
    assert(parts@.map_values(|v: Vec<char>| v@)[0] == parts@[0]@);
    let first = &parts[0];
    let a = trim_end_matches(first, ';');
    let b = trim_end_matches(&a, '{');
    let module = trim(&b);
    if module.len() == 0 {
        return None;
    }
    let mut out = vec!['c', 'r', 'a', 't', 'e', ':', ':'];
    let mut i: usize = 0;
    while i < module.len()
        invariant
            i <= module.len(),
            out@ == crate_prefix() + module@.take(i as int),
        decreases module.len() - i,
    {
        out.push(module[i]);
        i = i + 1;
        assert(out@ =~= crate_prefix() + module@.take(i as int));
    }
    assert(module@.take(module.len() as int) =~= module@);
    Some(out)
}

/// Parse `use crate::` statements from source code: the module each names
/// (`use crate::graph::Node` names `crate::graph`), each once, with the
/// 1-based line of its first statement.
pub fn parse_crate_dependencies(source: &str) -> (res: Vec<(String, usize)>)
    requires
        lines_seq(source@).len() < usize::MAX,
    ensures
        pair_views(res@) == crate_deps_upto(lines_seq(source@), lines_seq(source@).len() as int),
        forall|i: int, j: int| 0 <= i < j < res@.len() ==> res@[i].0@ != res@[j].0@,
        forall|i: int| 0 <= i < res@.len() ==> crate_prefix().is_prefix_of(#[trigger] res@[i].0@),
{
    let chars = chars_of(source);
    let ls = lines(&chars);
    let ghost lv = ls@.map_values(|v: Vec<char>| v@);
    let mut deps: Vec<(String, usize)> = Vec::new();
    let mut targets: Vec<Vec<char>> = Vec::new();
    let mut k: usize = 0;
    while k < ls.len()
        invariant
            k <= ls.len(),
            lv == lines_seq(source@),
            lv == ls@.map_values(|v: Vec<char>| v@),
            ls.len() < usize::MAX,
            pair_views(deps@) == crate_deps_upto(lv, k as int),
            targets@.len() == deps@.len(),
            forall|i: int| 0 <= i < deps@.len() ==> #[trigger] targets@[i]@ == deps@[i].0@,
            forall|i: int, j: int| 0 <= i < j < deps@.len() ==> deps@[i].0@ != deps@[j].0@,
            forall|i: int|
                0 <= i < deps@.len() ==> crate_prefix().is_prefix_of(#[trigger] deps@[i].0@),
        decreases ls.len() - k,
    {
        assert(lv[k as int] == ls@[k as int]@);
        match crate_target(&ls[k]) {
            Some(t) => {
                let mut seen = false;
                let mut j: usize = 0;
                while j < targets.len()
                    invariant
                        j <= targets@.len(),
                        targets@.len() == deps@.len(),
                        forall|i: int| 0 <= i < deps@.len() ==> #[trigger] targets@[i]@ == deps@[i].0@,
                        seen == (exists|i: int| 0 <= i < j && deps@[i].0@ == t@),
                    decreases targets.len() - j,
                {
                    if crate::text::seq_eq(&targets[j], &t) {
                        seen = true;
                    }
                    j = j + 1;
                }
                proof {
                    let prev = crate_deps_upto(lv, k as int);
                    assert(pair_views(deps@) == prev);
                    if has_target(prev, t@) {
                        let i = choose|i: int| 0 <= i < prev.len() && prev[i].0 == t@;
                        assert(pair_views(deps@)[i].0 == deps@[i].0@);
                    }
                    if seen {
                        let i = choose|i: int| 0 <= i < j && deps@[i].0@ == t@;
                        assert(pair_views(deps@)[i].0 == deps@[i].0@);
                    }
                }
                if !seen {
                    let s = string_of(t.as_slice());
                    deps.push((s, k + 1));
                    targets.push(t);
                    assert(pair_views(deps@) =~= crate_deps_upto(lv, k + 1));
                } else {
                    assert(pair_views(deps@) =~= crate_deps_upto(lv, k + 1));
                }
            },
            None => {
                assert(pair_views(deps@) =~= crate_deps_upto(lv, k + 1));
            },
        }
        k = k + 1;
    }
    deps
}

} // verus!
