//! What a use takes from the item it names, and the names a glob import
//! brings in.

use vstd::prelude::*;

use crate::analyze::exports::{module_info_of, AssociatedItems, ModuleExportInfo, ReExportMap};
use crate::analyze::resolution::ResolutionContext;
use crate::model::{dep_views, DefKind, DepView, DependencyRef, UseCategory};
use crate::sorting::{insert_sorted, lemma_sorted_of, sorted_of, strictly_sorted};

verus! {

/// Where a path stands. Together with what the path names, this decides the
/// category of the use.
#[derive(Clone, Copy, Debug, PartialEq, Eq, Structural)]
pub enum PathPosition {
    /// A type, a trait bound, or the trait of an `impl`.
    Type,
    /// The callee of a call expression, or the name of a macro.
    Call,
    /// The path of a struct expression or of a struct pattern.
    Construct,
    /// A path read as a value or matched as a pattern, and a path anywhere
    /// else, such as in an attribute.
    Value,
    /// A bare identifier in a pattern: it matches a const, a static or a unit
    /// struct a `use` brings in, and declares a fresh variable otherwise.
    Binding,
}

/// Whether `char::is_uppercase` holds of `c`: the Unicode `Uppercase`
/// property.
pub uninterp spec fn char_is_uppercase(c: char) -> bool;

/// Whether `char::is_lowercase` holds of `c`: the Unicode `Lowercase`
/// property.
pub uninterp spec fn char_is_lowercase(c: char) -> bool;

/// `char::is_uppercase`. Its result is named, not stated: it is a lookup in
/// the Unicode tables of the standard library, a function of `c` alone.
#[verifier::external_body]
fn is_uppercase(c: char) -> (res: bool)
    ensures
        res == char_is_uppercase(c),
{
    c.is_uppercase()
}

/// `char::is_lowercase`. Its result is named, not stated, as for
/// [`is_uppercase`].
#[verifier::external_body]
fn is_lowercase(c: char) -> (res: bool)
    ensures
        res == char_is_lowercase(c),
{
    c.is_lowercase()
}

/// The category of a name no definition explains, by its spelling: Rust
/// names constants in upper case, types in camel case, functions in snake
/// case.
pub open spec fn by_convention(name: Seq<char>) -> UseCategory {
    if name.len() > 0 && char_is_uppercase(name[0]) {
        if forall|i: int| 1 <= i < name.len() ==> !char_is_lowercase(#[trigger] name[i]) {
            UseCategory::Values
        } else {
            UseCategory::Types
        }
    } else {
        UseCategory::Fns
    }
}

/// Categorize a name by its spelling, where no definition says what it is.
pub fn category_by_convention(name: &str) -> (res: UseCategory)
    ensures
        res == by_convention(name@),
{
    let chars = crate::text::chars_of(name);
    if chars.len() == 0 || !is_uppercase(chars[0]) {
        return UseCategory::Fns;
    }
    let mut i: usize = 1;
    while i < chars.len()
        invariant
            1 <= i <= chars.len(),
            chars@ == name@,
            char_is_uppercase(name@[0]),
            forall|j: int| 1 <= j < i ==> !char_is_lowercase(#[trigger] name@[j]),
        decreases chars.len() - i,
    {
        if is_lowercase(chars[i]) {
            assert(char_is_lowercase(name@[i as int]));
            return UseCategory::Types;
        }
        i = i + 1;
    }
    UseCategory::Values
}

/// The category of a call of a name no definition explains: capitalised,
/// it constructs a tuple struct or a variant; otherwise it calls a fn.
pub open spec fn by_call_spelling(name: Seq<char>) -> UseCategory {
    if name.len() > 0 && char_is_uppercase(name[0]) {
        UseCategory::Types
    } else {
        UseCategory::Fns
    }
}

/// Categorize a call of a name no definition explains.
pub fn category_of_unknown_call(name: &str) -> (res: UseCategory)
    ensures
        res == by_call_spelling(name@),
{
    let chars = crate::text::chars_of(name);
    if chars.len() > 0 && is_uppercase(chars[0]) {
        UseCategory::Types
    } else {
        UseCategory::Fns
    }
}

/// The kind of the definition of `item` in the module a dependency points
/// at, where the map knows it.
pub open spec fn def_kind_of(map: ReExportMap, d: DepView, item: Seq<char>) -> Option<DefKind> {
    match module_info_of(map, d.target_crate, d.target_module) {
        Some(info) => if info.definitions@.dom().contains(item) {
            Some(info.definitions@[item].kind)
        } else {
            None
        },
        None => None,
    }
}

/// The kind of the definition of `item` where the map knows it.
pub fn definition_kind(ctx: &ResolutionContext, dep: &DependencyRef, item: &str) -> (res: Option<
    DefKind,
>)
    ensures
        res == def_kind_of(ctx@.reexport_map, dep@, item@),
{
    match ctx.reexport_map.module_info(dep) {
        Some(info) => match info.definitions.get(item) {
            Some(definition) => Some(definition.kind),
            None => None,
        },
        None => None,
    }
}

/// Whether a bare identifier pattern matches the dependency's item rather
/// than declaring a variable of that name: only a const, a static or a unit
/// struct can be matched so. An item the map does not know is taken for a
/// variable.
pub open spec fn matched_by_bare_pattern(map: ReExportMap, d: DepView) -> bool {
    match d.target_item {
        Some(item) => match def_kind_of(map, d, item) {
            Some(DefKind::Const) | Some(DefKind::Static) | Some(DefKind::Struct) => true,
            _ => false,
        },
        None => false,
    }
}

/// Whether a bare identifier pattern matches the dependency's item.
pub fn is_matched_by_a_bare_pattern(ctx: &ResolutionContext, dep: &DependencyRef) -> (res: bool)
    ensures
        res == matched_by_bare_pattern(ctx@.reexport_map, dep@),
{
    match &dep.target_item {
        Some(item) => match definition_kind(ctx, dep, item.as_str()) {
            Some(DefKind::Const) | Some(DefKind::Static) | Some(DefKind::Struct) => true,
            _ => false,
        },
        None => false,
    }
}

/// The associated items of `item` in the module a dependency points at.
pub open spec fn associated_of(map: ReExportMap, d: DepView, item: Seq<char>) -> Option<AssociatedItems> {
    match module_info_of(map, d.target_crate, d.target_module) {
        Some(info) => if info.associated@.dom().contains(item) {
            Some(info.associated@[item])
        } else {
            None
        },
        None => None,
    }
}

/// The category of one use: by what its position takes from the item and,
/// where the position leaves that open, by what the item is.
pub open spec fn category_of(
    map: ReExportMap,
    d: DepView,
    item: Seq<char>,
    position: PathPosition,
    associated: Option<Seq<char>>,
) -> UseCategory {
    let kind = def_kind_of(map, d, item);
    let items = associated_of(map, d, item);
    if position == PathPosition::Type || position == PathPosition::Construct {
        UseCategory::Types
    } else {
        match associated {
            Some(name) => if items is Some && items->0.variants@.contains(name) {
                UseCategory::Types
            } else if items is Some && items->0.fns@.contains(name) {
                UseCategory::Fns
            } else if items is Some && items->0.consts@.contains(name) {
                UseCategory::Values
            } else if position == PathPosition::Call {
                by_call_spelling(name)
            } else {
                by_convention(name)
            },
            None => if position == PathPosition::Call {
                match kind {
                    Some(DefKind::Struct) | Some(DefKind::Enum) => UseCategory::Types,
                    Some(_) => UseCategory::Fns,
                    None => by_call_spelling(item),
                }
            } else {
                match kind {
                    Some(DefKind::Const) | Some(DefKind::Static) => UseCategory::Values,
                    Some(DefKind::Fn) => UseCategory::Fns,
                    Some(_) => UseCategory::Types,
                    None => by_convention(item),
                }
            },
        }
    }
}

/// Categorize one use by what its position takes from the item and, where
/// the position leaves that open, by what the item is.
pub fn categorize(
    ctx: &ResolutionContext,
    dep: &DependencyRef,
    item: &str,
    position: PathPosition,
    associated: Option<&str>,
) -> (res: UseCategory)
    ensures
        res == category_of(
            ctx@.reexport_map,
            dep@,
            item@,
            position,
            match associated {
                Some(a) => Some(a@),
                None => None,
            },
        ),
{
    if position == PathPosition::Type || position == PathPosition::Construct {
        return UseCategory::Types;
    }
    let kind = definition_kind(ctx, dep, item);
    let items: Option<&AssociatedItems> = match ctx.reexport_map.module_info(dep) {
        Some(info) => info.associated.get(item),
        None => None,
    };
    match associated {
        Some(name) => {
            match items {
                Some(found) => {
                    if found.variants.contains(name) {
                        return UseCategory::Types;
                    }
                    if found.fns.contains(name) {
                        return UseCategory::Fns;
                    }
                    if found.consts.contains(name) {
                        return UseCategory::Values;
                    }
                },
                None => {},
            }
            if position == PathPosition::Call {
                category_of_unknown_call(name)
            } else {
                category_by_convention(name)
            }
        },
        None => {
            if position == PathPosition::Call {
                match kind {
                    Some(DefKind::Struct) | Some(DefKind::Enum) => UseCategory::Types,
                    Some(_) => UseCategory::Fns,
                    None => category_of_unknown_call(item),
                }
            } else {
                match kind {
                    Some(DefKind::Const) | Some(DefKind::Static) => UseCategory::Values,
                    Some(DefKind::Fn) => UseCategory::Fns,
                    Some(_) => UseCategory::Types,
                    None => category_by_convention(item),
                }
            }
        },
    }
}

/// `*`
pub open spec fn star() -> Seq<char> {
    seq!['*']
}

/// Whether a dependency is a glob import: its item is `*`.
pub fn is_glob(dep: &DependencyRef) -> (res: bool)
    ensures
        res == (dep@.target_item == Some(star())),
{
    match &dep.target_item {
        Some(item) => {
            let s = vec!['*'];
            assert(s@ =~= star());
            crate::text::seq_eq(&crate::text::chars_of(item.as_str()), &s)
        },
        None => false,
    }
}

/// Whether the map holds the module a glob imports from, and so can say
/// which names the glob brings in.
pub fn glob_payload_known(dep: &DependencyRef, reexport_map: &ReExportMap) -> (res: bool)
    ensures
        res == (module_info_of(*reexport_map, dep@.target_crate, dep@.target_module) is Some),
{
    reexport_map.module_info(dep).is_some()
}

/// The names a module brings into scope by a glob: its own definitions and
/// what it re-exports by name.
pub open spec fn payload_names(info: ModuleExportInfo) -> Set<Seq<char>> {
    info.definitions@.dom().union(info.explicit_reexports@.dom())
}

/// Add every key of `m` to the sorted list `names`.
fn add_keys<V>(names: &mut Vec<String>, m: &crate::collections::StrMap<V>)
    requires
        strictly_sorted(old(names)@.map_values(|x: String| x@)),
    ensures
        strictly_sorted(final(names)@.map_values(|x: String| x@)),
        final(names)@.map_values(|x: String| x@).to_set() == old(names)@.map_values(|x: String| x@).to_set().union(
            m@.dom(),
        ),
{
    let ghost start = names@.map_values(|x: String| x@).to_set();
    proof {
        m.lemma_entries();
    }
    let mut i: usize = 0;
    while i < m.len()
        invariant
            i <= m.size(),
            forall|k: Seq<char>| m@.dom().contains(k) <==> m.key_seq().contains(k),
            strictly_sorted(names@.map_values(|x: String| x@)),
            names@.map_values(|x: String| x@).to_set() == start.union(m.key_seq().take(i as int).to_set()),
        decreases m.size() - i,
    {
        let key = m.key_at(i).clone();
        insert_sorted(names, key);
        proof {
            m.key_seq().take(i as int).lemma_push_to_set_commute(m.key_seq()[i as int]);
            assert(m.key_seq().take(i + 1) =~= m.key_seq().take(i as int).push(m.key_seq()[i as int]));
        }
        i = i + 1;
        assert(names@.map_values(|x: String| x@).to_set() =~= start.union(m.key_seq().take(i as int).to_set()));
    }
    assert(m.key_seq().take(i as int) =~= m.key_seq());
    assert(m.key_seq().to_set() =~= m@.dom());
}

/// The names `use <module>::*` brings into scope, sorted and each once:
/// the module's own definitions plus what it re-exports by name. `None`
/// where the map lacks the module or the module exports nothing by name.
pub fn glob_payload(dep: &DependencyRef, reexport_map: &ReExportMap) -> (res: Option<Vec<String>>)
    ensures
        match module_info_of(*reexport_map, dep@.target_crate, dep@.target_module) {
            None => res is None,
            Some(info) => if payload_names(info).is_empty() {
                res is None
            } else {
                res matches Some(names) && names@.map_values(|x: String| x@) == sorted_of(
                    payload_names(info),
                )
            },
        },
{
    let info = match reexport_map.module_info(dep) {
        Some(info) => info,
        None => {
            return None;
        },
    };
    let mut names: Vec<String> = Vec::new();
    assert(names@.map_values(|x: String| x@).to_set() =~= Set::<Seq<char>>::empty());
    add_keys(&mut names, &info.definitions);
    add_keys(&mut names, &info.explicit_reexports);
    assert(names@.map_values(|x: String| x@).to_set() =~= payload_names(*info));
    if names.len() == 0 {
        assert(names@.map_values(|x: String| x@).to_set() =~= Set::<Seq<char>>::empty());
        return None;
    }
    assert(names@.map_values(|x: String| x@)[0] == names@[0]@);
    assert(names@.map_values(|x: String| x@).to_set().contains(names@[0]@));
    proof {
        lemma_sorted_of(names@.map_values(|x: String| x@), payload_names(*info));
    }
    Some(names)
}

/// A dependency with another item.
pub open spec fn with_item(d: DepView, name: Seq<char>) -> DepView {
    DepView { target_item: Some(name), ..d }
}

/// A glob split into one dependency per name it brings in, in sorted order;
/// any other dependency, and a glob whose payload is unknown or empty, as
/// it is.
pub open spec fn expanded(map: ReExportMap, d: DepView) -> Seq<DepView> {
    if d.target_item != Some(star()) {
        seq![d]
    } else {
        match module_info_of(map, d.target_crate, d.target_module) {
            None => seq![d],
            Some(info) => if payload_names(info).is_empty() {
                seq![d]
            } else {
                sorted_of(payload_names(info)).map_values(|n: Seq<char>| with_item(d, n))
            },
        }
    }
}

/// Split a glob into one dependency per name it republishes, so an edge
/// weighs what crosses it rather than the one line that spells it.
/// Non-globs pass through, and so does a glob whose payload is unknown: it
/// keeps the `*`, which scores as a single unnamed symbol.
pub fn expand_glob(dep: DependencyRef, reexport_map: &ReExportMap) -> (res: Vec<DependencyRef>)
    ensures
        dep_views(res@) == expanded(*reexport_map, dep@),
{
    if !is_glob(&dep) {
        let res = vec![dep];
        assert(dep_views(res@) =~= expanded(*reexport_map, dep@));
        return res;
    }
    let names = match glob_payload(&dep, reexport_map) {
        Some(names) => names,
        None => {
            let res = vec![dep];
            assert(dep_views(res@) =~= expanded(*reexport_map, dep@));
            return res;
        },
    };
    let ghost nv = names@.map_values(|x: String| x@);
    let mut res: Vec<DependencyRef> = Vec::new();
    let mut i: usize = 0;
    while i < names.len()
        invariant
            i <= names.len(),
            nv == names@.map_values(|x: String| x@),
            dep_views(res@) == nv.take(i as int).map_values(|n: Seq<char>| with_item(dep@, n)),
        decreases names.len() - i,
    {
        let mut d = dep.duplicate();
        d.target_item = Some(names[i].clone());
        let ghost before = res@;
        res.push(d);
        proof {
            assert(nv[i as int] == names@[i as int]@);
            assert(dep_views(res@) =~= dep_views(before).push(d@));
            assert(nv.take(i + 1).map_values(|n: Seq<char>| with_item(dep@, n)) =~= nv.take(
                i as int,
            ).map_values(|n: Seq<char>| with_item(dep@, n)).push(with_item(dep@, nv[i as int])));
        }
        i = i + 1;
    }
    assert(nv.take(names.len() as int) =~= nv);
    res
}

} // verus!
