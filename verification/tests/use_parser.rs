use cargo_arc::analyze::bindings::{BindingRegions, CollectedUses};
use cargo_arc::analyze::categories::PathPosition;
use cargo_arc::analyze::exports::{AssociatedItems, ModuleExportInfo, ReExportMap};
use cargo_arc::analyze::file_deps::{parse_file_dependencies, PathRef};
use cargo_arc::analyze::mod_resolver::{is_cfg_test, CfgAttribute, CfgMeta};
use cargo_arc::analyze::resolution::{promote_to_test, ResolutionContext};
use cargo_arc::analyze::tokens::{token_paths, Token};
use cargo_arc::analyze::use_tree::{CollectedUse, UseTree, Visibility};
use cargo_arc::collections::{StrMap, StrSet};
use cargo_arc::model::{DefKind, Definition, DependencyRef, EdgeContext, SymbolUse, TestKind, UseCategory};
use syn::punctuated::Punctuated;

// The syntax front end: what the command reads off a parsed file, handed to
// the library as plain values.

fn cfg_meta(meta: &syn::Meta) -> CfgMeta {
    let name = |path: &syn::Path| {
        path.segments.iter().map(|s| s.ident.to_string()).collect::<Vec<_>>().join("::")
    };
    match meta {
        syn::Meta::Path(p) => CfgMeta::Path(name(p)),
        syn::Meta::List(l) => CfgMeta::List(
            name(&l.path),
            l.parse_args_with(Punctuated::<syn::Meta, syn::token::Comma>::parse_terminated)
                .ok()
                .map(|nested| nested.iter().map(cfg_meta).collect()),
        ),
        syn::Meta::NameValue(_) => CfgMeta::Other,
    }
}

fn path_string(path: &syn::Path) -> String {
    path.segments.iter().map(|s| s.ident.to_string()).collect::<Vec<_>>().join("::")
}

fn use_tree(tree: &syn::UseTree) -> UseTree {
    match tree {
        syn::UseTree::Path(p) => UseTree::Path(p.ident.to_string(), Box::new(use_tree(&p.tree))),
        syn::UseTree::Name(n) => UseTree::Name(n.ident.to_string()),
        syn::UseTree::Rename(r) => UseTree::Rename(r.ident.to_string(), r.rename.to_string()),
        syn::UseTree::Glob(_) => UseTree::Glob,
        syn::UseTree::Group(g) => UseTree::Group(g.items.iter().map(use_tree).collect()),
    }
}

fn visibility(vis: &syn::Visibility) -> Visibility {
    match vis {
        syn::Visibility::Public(_) => Visibility::Public,
        syn::Visibility::Restricted(r) => {
            Visibility::Restricted { in_token: r.in_token.is_some(), path: path_string(&r.path) }
        }
        syn::Visibility::Inherited => Visibility::Inherited,
    }
}

fn cfg_attributes(attrs: &[syn::Attribute]) -> Vec<CfgAttribute> {
    attrs
        .iter()
        .map(|a| CfgAttribute {
            path: path_string(a.path()),
            meta: if a.path().is_ident("cfg") { a.parse_args::<syn::Meta>().ok().map(|m| cfg_meta(&m)) } else { None },
        })
        .collect()
}

fn line_of(span: proc_macro2::Span) -> usize {
    span.start().line
}

/// One file's `use` items, path references and defined names, each with the
/// binding region, test context and inline-module depth it stands in. The
/// traversal is syn's, so the positions follow its visit order.
struct FileCollector {
    uses: Vec<CollectedUse>,
    refs: Vec<PathRef>,
    defined: StrSet,
    context: EdgeContext,
    inline_depth: usize,
    regions: BindingRegions,
    region: usize,
    position: PathPosition,
}

impl FileCollector {
    fn in_position(&mut self, position: PathPosition, visit: impl FnOnce(&mut Self)) {
        let prev = self.position;
        self.position = position;
        visit(self);
        self.position = prev;
    }

    fn record(&mut self, path: String, line: usize, in_macro: bool) {
        self.refs.push(PathRef {
            path,
            line,
            context: self.context.duplicate(),
            inline_depth: self.inline_depth,
            region: self.region,
            position: self.position,
            in_macro,
        });
    }

    /// The paths of a token stream syn leaves unparsed, each recorded as a
    /// value in macro input.
    fn record_token_paths(&mut self, tokens: &proc_macro2::TokenStream) {
        for (path, line) in token_paths(&tokens_of(tokens)) {
            self.in_position(PathPosition::Value, |s| s.record(path, line, true));
        }
    }
}

/// A token stream as the library reads it.
fn tokens_of(stream: &proc_macro2::TokenStream) -> Vec<Token> {
    stream
        .clone()
        .into_iter()
        .map(|t| match t {
            proc_macro2::TokenTree::Group(g) => Token::Group(tokens_of(&g.stream())),
            proc_macro2::TokenTree::Ident(i) => Token::Ident { name: i.to_string(), line: line_of(i.span()) },
            proc_macro2::TokenTree::Punct(p) => {
                Token::Punct { ch: p.as_char(), joint: p.spacing() == proc_macro2::Spacing::Joint }
            }
            proc_macro2::TokenTree::Literal(_) => Token::Literal,
        })
        .collect()
}

impl<'ast> syn::visit::Visit<'ast> for FileCollector {
    fn visit_item(&mut self, node: &'ast syn::Item) {
        let ident = match node {
            syn::Item::Fn(i) => Some(&i.sig.ident),
            syn::Item::Struct(i) => Some(&i.ident),
            syn::Item::Enum(i) => Some(&i.ident),
            syn::Item::Union(i) => Some(&i.ident),
            syn::Item::Trait(i) => Some(&i.ident),
            syn::Item::Type(i) => Some(&i.ident),
            syn::Item::Const(i) => Some(&i.ident),
            syn::Item::Static(i) => Some(&i.ident),
            syn::Item::Mod(i) => Some(&i.ident),
            syn::Item::Macro(i) => i.ident.as_ref(),
            _ => None,
        };
        if let Some(ident) = ident {
            self.defined.insert(ident.to_string());
        }
        syn::visit::visit_item(self, node);
    }

    fn visit_item_use(&mut self, node: &'ast syn::ItemUse) {
        let context = if is_cfg_test(&cfg_attributes(&node.attrs)) {
            promote_to_test(&self.context)
        } else {
            self.context.duplicate()
        };
        self.uses.push(CollectedUse {
            tree: use_tree(&node.tree),
            vis: visibility(&node.vis),
            line: line_of(node.use_token.span),
            context,
            inline_depth: self.inline_depth,
            region: self.region,
        });
    }

    fn visit_item_mod(&mut self, node: &'ast syn::ItemMod) {
        let prev_context = self.context.duplicate();
        let (prev_depth, prev_region) = (self.inline_depth, self.region);
        if is_cfg_test(&cfg_attributes(&node.attrs)) {
            self.context = promote_to_test(&self.context);
        }
        if node.content.is_some() {
            self.inline_depth += 1;
            self.region = self.regions.open(prev_region);
        }
        syn::visit::visit_item_mod(self, node);
        self.context = prev_context;
        self.inline_depth = prev_depth;
        self.region = prev_region;
    }

    fn visit_block(&mut self, node: &'ast syn::Block) {
        let prev_region = self.region;
        self.region = self.regions.open(prev_region);
        syn::visit::visit_block(self, node);
        self.region = prev_region;
    }

    fn visit_path(&mut self, node: &'ast syn::Path) {
        let line = node.segments.first().map_or(0, |s| line_of(s.ident.span()));
        self.record(path_string(node), line, false);
        syn::visit::visit_path(self, node);
    }

    fn visit_pat_ident(&mut self, node: &'ast syn::PatIdent) {
        if node.by_ref.is_none() && node.mutability.is_none() && node.subpat.is_none() {
            let line = line_of(node.ident.span());
            self.in_position(PathPosition::Binding, |s| s.record(node.ident.to_string(), line, false));
        }
        syn::visit::visit_pat_ident(self, node);
    }

    fn visit_type_path(&mut self, node: &'ast syn::TypePath) {
        self.in_position(PathPosition::Type, |s| syn::visit::visit_type_path(s, node));
    }

    fn visit_trait_bound(&mut self, node: &'ast syn::TraitBound) {
        self.in_position(PathPosition::Type, |s| syn::visit::visit_trait_bound(s, node));
    }

    fn visit_item_impl(&mut self, node: &'ast syn::ItemImpl) {
        self.in_position(PathPosition::Type, |s| syn::visit::visit_item_impl(s, node));
    }

    fn visit_expr_path(&mut self, node: &'ast syn::ExprPath) {
        self.in_position(PathPosition::Value, |s| syn::visit::visit_expr_path(s, node));
    }

    fn visit_expr_call(&mut self, node: &'ast syn::ExprCall) {
        if let syn::Expr::Path(func) = &*node.func {
            self.in_position(PathPosition::Call, |s| syn::visit::visit_expr_path(s, func));
            for arg in &node.args {
                self.visit_expr(arg);
            }
        } else {
            syn::visit::visit_expr_call(self, node);
        }
    }

    fn visit_expr_struct(&mut self, node: &'ast syn::ExprStruct) {
        self.in_position(PathPosition::Construct, |s| syn::visit::visit_expr_struct(s, node));
    }

    fn visit_pat_struct(&mut self, node: &'ast syn::PatStruct) {
        self.in_position(PathPosition::Construct, |s| syn::visit::visit_pat_struct(s, node));
    }

    fn visit_pat_tuple_struct(&mut self, node: &'ast syn::PatTupleStruct) {
        self.in_position(PathPosition::Construct, |s| syn::visit::visit_pat_tuple_struct(s, node));
    }

    fn visit_macro(&mut self, node: &'ast syn::Macro) {
        self.in_position(PathPosition::Call, |s| syn::visit::visit_macro(s, node));
        self.record_token_paths(&node.tokens);
    }

    fn visit_meta_list(&mut self, node: &'ast syn::MetaList) {
        syn::visit::visit_meta_list(self, node);
        self.record_token_paths(&node.tokens);
    }

    fn visit_vis_restricted(&mut self, _node: &'ast syn::VisRestricted) {}
}


fn collect(source: &str) -> (CollectedUses, Vec<PathRef>, StrSet) {
    let syntax = syn::parse_file(source).unwrap();
    let mut collector = FileCollector {
        uses: Vec::new(),
        refs: Vec::new(),
        defined: StrSet::new(),
        context: EdgeContext::production(),
        inline_depth: 0,
        regions: BindingRegions::new(),
        region: 0,
        position: PathPosition::Value,
    };
    syn::visit::Visit::visit_file(&mut collector, &syntax);
    (CollectedUses { items: collector.uses, regions: collector.regions }, collector.refs, collector.defined)
}

fn set(items: &[&str]) -> StrSet {
    let mut s = StrSet::new();
    for item in items {
        s.insert(item.to_string());
    }
    s
}

fn deps_in(
    source: &str,
    source_file: &str,
    current_module: &str,
    module_paths: &StrMap<StrSet>,
    map: &ReExportMap,
) -> Vec<DependencyRef> {
    let workspace = StrSet::new();
    let exports: StrMap<StrSet> = StrMap::new();
    let names: StrMap<String> = StrMap::new();
    let ctx = ResolutionContext {
        current_crate: "my_crate",
        workspace_crates: &workspace,
        source_file,
        all_module_paths: module_paths,
        crate_exports: &exports,
        current_module_path: current_module,
        reexport_map: map,
        external_crate_names: &names,
    };
    let (uses, refs, defined) = collect(source);
    parse_file_dependencies(&uses, &refs, defined, &ctx)
}

fn definition(kind: DefKind) -> Definition {
    Definition { kind, line: 1 }
}

fn one_module_map(module: &str, info: ModuleExportInfo) -> ReExportMap {
    let mut modules = StrMap::new();
    modules.insert(module.to_string(), info);
    ReExportMap::from_entries(vec![("my_crate".to_string(), modules)])
}

fn analyze_map() -> ReExportMap {
    let mut info = ModuleExportInfo::new();
    info.definitions.insert("Walker".to_string(), definition(DefKind::Struct));
    info.definitions.insert("analyze_module".to_string(), definition(DefKind::Fn));
    one_module_map("analyze", info)
}

fn glob_deps(source: &str, map: &ReExportMap) -> Vec<DependencyRef> {
    deps_in(source, "src/cli.rs", "", &StrMap::new(), map)
}

fn items_of(deps: &[DependencyRef]) -> Vec<&str> {
    deps.iter().filter_map(|d| d.target_item.as_deref()).collect()
}

fn vocab_map() -> ReExportMap {
    let mut vocab = ModuleExportInfo::new();
    vocab.definitions.insert("Config".to_string(), definition(DefKind::Struct));
    vocab.definitions.insert("Mode".to_string(), definition(DefKind::Enum));
    vocab.definitions.insert("LIMIT".to_string(), definition(DefKind::Const));
    vocab.definitions.insert("TABLE".to_string(), definition(DefKind::Static));
    vocab.definitions.insert("build".to_string(), definition(DefKind::Fn));
    vocab.definitions.insert("Step".to_string(), definition(DefKind::Trait));
    let mut mode = AssociatedItems::new();
    mode.variants = set(&["Fast", "Slow"]);
    vocab.associated.insert("Mode".to_string(), mode);
    let mut config = AssociatedItems::new();
    config.fns = set(&["new"]);
    config.consts = set(&["MAX"]);
    vocab.associated.insert("Config".to_string(), config);
    let mut step = AssociatedItems::new();
    step.fns = set(&["run"]);
    vocab.associated.insert("Step".to_string(), step);
    one_module_map("vocab", vocab)
}

fn deps_of(source: &str) -> Vec<DependencyRef> {
    let mut paths = StrMap::new();
    paths.insert("my_crate".to_string(), set(&["vocab"]));
    deps_in(source, "src/user.rs", "user", &paths, &vocab_map())
}

fn uses_of<'a>(deps: &'a [DependencyRef], item: &str) -> &'a [SymbolUse] {
    let dep = deps
        .iter()
        .find(|d| d.target_item.as_deref() == Some(item))
        .unwrap_or_else(|| panic!("no dep on {item}: {deps:?}"));
    &dep.uses
}

fn use_at(line: usize, category: UseCategory) -> SymbolUse {
    SymbolUse { line, category, imported_for_methods: false }
}

#[test]
fn test_process_use_glob_expands_to_the_names_used() {
    let map = analyze_map();
    let deps = glob_deps("use crate::analyze::*;\nfn f(w: Walker) { analyze_module(); }", &map);
    assert_eq!(items_of(&deps), ["Walker", "analyze_module"], "deps: {deps:?}");
    assert!(deps.iter().all(|d| d.target_module == "analyze" && d.line == 1));
    assert_eq!(deps[0].uses, [SymbolUse { line: 2, category: UseCategory::Types, imported_for_methods: false }]);
    assert_eq!(deps[1].uses[0].category, UseCategory::Fns);
}

#[test]
fn test_process_pub_use_glob_carries_the_whole_payload() {
    let map = analyze_map();
    let deps = glob_deps("pub use crate::analyze::*;\nfn f(w: Walker) {}", &map);
    assert_eq!(items_of(&deps), ["Walker", "analyze_module"], "deps: {deps:?}");
    assert!(deps.iter().all(|d| d.via_reexport), "deps: {deps:?}");
    assert_eq!(deps[0].uses.len(), 1, "the parameter type: {deps:?}");
}

#[test]
fn test_process_use_glob_finds_names_in_macro_input() {
    let map = analyze_map();
    let deps = glob_deps("use crate::analyze::*;\nfn f() { assert!(analyze_module()); }", &map);
    assert_eq!(items_of(&deps), ["analyze_module"], "deps: {deps:?}");
}

#[test]
fn test_process_use_glob_unused_keeps_marker() {
    let map = analyze_map();
    let deps = glob_deps("use crate::analyze::*;\nfn f() {}", &map);
    assert_eq!(items_of(&deps), ["*"], "deps: {deps:?}");
}

#[test]
fn test_process_use_glob_yields_to_explicit_binding_and_local_definition() {
    let map = analyze_map();
    let deps = glob_deps(
        "use crate::analyze::*;\nuse crate::other::Walker;\nfn analyze_module() {}\n\
         fn f(w: Walker) { analyze_module(); }",
        &map,
    );
    assert!(
        !deps.iter().any(|d| d.target_module == "analyze" && d.target_item.as_deref() != Some("*")),
        "nothing from the glob is used: {deps:?}"
    );
}

#[test]
fn test_process_use_glob_binds_in_its_region() {
    let map = analyze_map();
    let deps = glob_deps(
        "fn f() { use crate::analyze::*; analyze_module(); }\nfn g() { analyze_module(); }",
        &map,
    );
    assert_eq!(items_of(&deps), ["analyze_module"], "deps: {deps:?}");
    assert_eq!(deps[0].uses.len(), 1, "the call in `g` is not the glob's");
}

#[test]
fn test_process_use_glob_expands_through_reexport() {
    let mut facade_info = ModuleExportInfo::new();
    facade_info.explicit_reexports.insert(
        "Widget".to_string(),
        cargo_arc::analyze::exports::ReExportTarget { module: "origin".to_string(), original_name: "Widget".to_string() },
    );
    let mut origin_info = ModuleExportInfo::new();
    origin_info.definitions.insert("Widget".to_string(), Definition { kind: DefKind::Struct, line: 1 });
    let mut modules = StrMap::new();
    modules.insert("facade".to_string(), facade_info);
    modules.insert("origin".to_string(), origin_info);
    let map = ReExportMap::from_entries(vec![("my_crate".to_string(), modules)]);

    let deps = glob_deps("use crate::facade::*;\nfn f(w: Widget) {}", &map);

    assert_eq!(deps.len(), 1, "deps: {deps:?}");
    assert_eq!(deps[0].target_item, Some("Widget".to_string()));
    assert_eq!(deps[0].target_module, "origin");
}

#[test]
fn test_process_use_glob_unknown_payload_keeps_marker() {
    let deps = glob_deps("use crate::analyze::*;\nfn f(w: Walker) {}", &ReExportMap::new());
    assert_eq!(deps.len(), 1, "deps: {deps:?}");
    assert_eq!(deps[0].target_item, Some("*".to_string()));
}

#[test]
fn a_bound_name_in_type_position_is_a_types_use() {
    let deps = deps_of("use crate::vocab::Config;\nfn f(x: Config) -> Option<Config> {}");
    assert_eq!(uses_of(&deps, "Config"), [use_at(2, UseCategory::Types), use_at(2, UseCategory::Types)]);
    assert_eq!(deps.len(), 1, "one dependency, at the import: {deps:?}");
    assert_eq!(deps[0].line, 1);
}

#[test]
fn a_free_fn_called_is_a_fns_use() {
    let deps = deps_of("use crate::vocab::build;\nfn f() { build(); crate::vocab::build(); }");
    assert_eq!(uses_of(&deps, "build"), [use_at(2, UseCategory::Fns), use_at(2, UseCategory::Fns)]);
}

#[test]
fn a_free_fn_passed_as_a_value_is_a_fns_use() {
    let deps = deps_of("fn f() { let g = crate::vocab::build; }");
    assert_eq!(uses_of(&deps, "build"), [use_at(1, UseCategory::Fns)]);
}

#[test]
fn a_const_or_static_read_is_a_values_use() {
    let deps = deps_of(
        "use crate::vocab::{LIMIT, TABLE};\n\
         fn f(n: usize) -> bool { match n { LIMIT => true, _ => n < crate::vocab::LIMIT } }\n\
         fn g() -> usize { TABLE.len() + crate::vocab::TABLE.len() }",
    );
    assert_eq!(uses_of(&deps, "LIMIT"), [use_at(2, UseCategory::Values), use_at(2, UseCategory::Values)]);
    assert_eq!(uses_of(&deps, "TABLE"), [use_at(3, UseCategory::Values), use_at(3, UseCategory::Values)]);
}

#[test]
fn a_variable_named_like_an_imported_fn_is_no_use() {
    let deps = deps_of(
        "use crate::vocab::{build, Config};\n\
         fn f(build: usize) { let build = 1; let Config = 2; }",
    );
    assert_eq!(uses_of(&deps, "build"), [use_at(1, UseCategory::Fns)]);
    assert_eq!(uses_of(&deps, "Config"), [use_at(2, UseCategory::Types)]);
}

#[test]
fn a_reexport_carries_no_use() {
    let deps = deps_of("pub use crate::vocab::{Step, Config};");
    assert!(deps.iter().all(|d| d.via_reexport && d.uses.is_empty()), "deps: {deps:?}");
}

#[test]
fn a_value_constructed_from_a_struct_or_variant_is_a_types_use() {
    let deps = deps_of(
        "use crate::vocab::{Config, Mode};\n\
         fn f() -> Mode { let c = Config { x: 1 }; let d = crate::vocab::Config(1); Mode::Slow(2) }\n\
         fn g(m: Mode) -> bool { matches!(m, Mode::Fast) && match m { Mode::Slow(_) => true } }",
    );
    assert_eq!(uses_of(&deps, "Config"), [use_at(2, UseCategory::Types), use_at(2, UseCategory::Types)]);
    assert_eq!(
        uses_of(&deps, "Mode"),
        [
            use_at(2, UseCategory::Types),
            use_at(2, UseCategory::Types),
            use_at(3, UseCategory::Types),
            use_at(3, UseCategory::Types),
            use_at(3, UseCategory::Types),
        ],
        "the return type, the constructed variant, the parameter type, the variant inside \
         `matches!`, the matched variant"
    );
}

#[test]
fn an_associated_fn_called_is_a_fns_use() {
    let deps = deps_of(
        "use crate::vocab::{Config, Step};\n\
         fn f() { let c = Config::new(); let n = Config::MAX; Step::run(&c); crate::vocab::Config::new(); }",
    );
    assert_eq!(
        uses_of(&deps, "Config"),
        [use_at(2, UseCategory::Fns), use_at(2, UseCategory::Values), use_at(2, UseCategory::Fns)]
    );
    assert_eq!(uses_of(&deps, "Step"), [use_at(2, UseCategory::Fns)]);
}

#[test]
fn an_unknown_associated_item_goes_by_position_then_spelling() {
    let deps = deps_of(
        "use crate::vocab::Config;\n\
         fn f() { Config::parse(); let a = Config::DEFAULT; let b = Config::Builder; }",
    );
    assert_eq!(
        uses_of(&deps, "Config"),
        [use_at(2, UseCategory::Fns), use_at(2, UseCategory::Values), use_at(2, UseCategory::Types)]
    );
}

#[test]
fn a_trait_imported_and_never_named_is_a_fns_use_by_inference() {
    let deps = deps_of("use crate::vocab::Step;\nfn f(w: Writer) { w.run(); }");
    assert_eq!(
        uses_of(&deps, "Step"),
        [SymbolUse { line: 1, category: UseCategory::Fns, imported_for_methods: true }]
    );
}

#[test]
fn a_trait_named_is_a_types_use_and_nothing_is_inferred() {
    let deps = deps_of("use crate::vocab::Step;\nimpl Step for Writer {}");
    assert_eq!(uses_of(&deps, "Step"), [use_at(2, UseCategory::Types)]);
}

#[test]
fn an_import_never_named_is_a_use_by_its_definition() {
    let deps = deps_of("use crate::vocab::{Config, LIMIT, build};");
    assert_eq!(uses_of(&deps, "Config"), [use_at(1, UseCategory::Types)]);
    assert_eq!(uses_of(&deps, "LIMIT"), [use_at(1, UseCategory::Values)]);
    assert_eq!(uses_of(&deps, "build"), [use_at(1, UseCategory::Fns)]);
}

#[test]
fn a_name_inside_macro_input_is_a_use_through_its_binding() {
    let deps = deps_of(
        "use crate::vocab::{Config, build};\n\
         fn f() { println!(\"{} {}\", build(), Config::MAX); assert!(crate::vocab::LIMIT > 1); }",
    );
    assert_eq!(uses_of(&deps, "build"), [use_at(2, UseCategory::Fns)]);
    assert_eq!(uses_of(&deps, "Config"), [use_at(2, UseCategory::Values)]);
    assert!(
        !deps.iter().any(|d| d.target_item.as_deref() == Some("LIMIT")),
        "a qualified path inside macro input is not resolved on its own: {deps:?}"
    );
}

#[test]
fn a_qualified_path_in_type_position_is_a_types_use() {
    let deps = deps_of("fn f(x: crate::vocab::Config) {}");
    assert_eq!(
        uses_of(&deps, "Config"),
        [SymbolUse { line: 1, category: UseCategory::Types, imported_for_methods: false }]
    );
}

fn uses_of_source(source: &str) -> Vec<CollectedUse> {
    collect(source).0.items
}

fn refs_of_source(source: &str) -> Vec<PathRef> {
    collect(source).1
}

fn unit_test() -> EdgeContext {
    EdgeContext::test(TestKind::Unit)
}

#[test]
fn top_level_use_found() {
    assert_eq!(uses_of_source("use foo::Bar;").len(), 1);
}

#[test]
fn use_in_fn_body_found() {
    let uses = uses_of_source("\nfn main() {\n    use foo::Bar;\n}\n");
    assert_eq!(uses.len(), 1, "use inside fn body must be found");
}

#[test]
fn use_in_nested_block_found() {
    let uses = uses_of_source("\nfn main() {\n    {\n        use foo::Bar;\n    }\n}\n");
    assert_eq!(uses.len(), 1, "use in nested block must be found");
}

#[test]
fn mixed_top_level_and_fn_body() {
    let uses = uses_of_source("\nuse crate::config;\n\nfn main() {\n    use other_crate::utils;\n}\n");
    assert_eq!(uses.len(), 2, "both top-level and fn-body uses must be found");
}

#[test]
fn use_in_cfg_block_inside_fn() {
    let source = r#"
fn main() {
    #[cfg(feature = "a")]
    {
        use my_lib::config::Config;
        use my_lib::engine::Engine;
    }
}
"#;
    assert_eq!(uses_of_source(source).len(), 2, "uses in cfg-gated block inside fn must be found");
}

#[test]
fn test_use_in_cfg_test_module_marked() {
    let uses = uses_of_source("\n#[cfg(test)]\nmod tests {\n    use other_crate::helper;\n}\n");
    assert_eq!(uses.len(), 1);
    assert_eq!(uses[0].context, unit_test());
}

#[test]
fn test_use_in_normal_module_not_marked() {
    let uses = uses_of_source("\nmod normal {\n    use other_crate::helper;\n}\n");
    assert_eq!(uses.len(), 1);
    assert_eq!(uses[0].context, EdgeContext::production());
}

#[test]
fn test_cfg_test_on_use_item_marked() {
    let uses = uses_of_source("\n#[cfg(test)]\nuse other_crate::test_helper;\n");
    assert_eq!(uses.len(), 1);
    assert_eq!(uses[0].context, unit_test());
}

#[test]
fn test_nested_cfg_test_scope() {
    let uses = uses_of_source("\n#[cfg(test)]\nmod tests {\n    mod inner {\n        use other_crate::deep_helper;\n    }\n}\n");
    assert_eq!(uses.len(), 1);
    assert_eq!(uses[0].context, unit_test());
}

#[test]
fn test_cfg_all_test_feature_marked() {
    let uses = uses_of_source("\n#[cfg(all(test, feature = \"hir\"))]\nmod hir_tests {\n    use other_crate::helper;\n}\n");
    assert_eq!(uses.len(), 1);
    assert_eq!(uses[0].context, unit_test());
}

#[test]
fn test_cfg_all_feature_then_test_marked() {
    let uses = uses_of_source("\n#[cfg(all(feature = \"hir\", test))]\nmod hir_tests {\n    use other_crate::helper;\n}\n");
    assert_eq!(uses.len(), 1);
    assert_eq!(uses[0].context, unit_test());
}

#[test]
fn test_cfg_test_on_fn_not_detected() {
    let uses = uses_of_source("\n#[cfg(test)]\nfn test_helper() {\n    use other_crate::helper;\n}\n");
    assert_eq!(uses.len(), 1);
    assert_eq!(uses[0].context, EdgeContext::production());
}

#[test]
fn test_collect_path_refs_expression() {
    let refs = refs_of_source("\nfn main() {\n    my_server::run();\n}\n");
    assert!(refs.iter().any(|r| r.path == "my_server::run"), "should collect my_server::run, found: {refs:?}");
}

#[test]
fn test_collect_path_refs_type_annotation() {
    let refs = refs_of_source("\nfn main() {\n    let _x: my_lib::Config = todo!();\n}\n");
    assert!(refs.iter().any(|r| r.path == "my_lib::Config"), "should collect my_lib::Config, found: {refs:?}");
}

#[test]
fn test_collect_path_refs_pattern() {
    let refs = refs_of_source("\nfn main() {\n    let x = 1;\n    match x {\n        _ if my_lib::check() => {}\n        _ => {}\n    }\n}\n");
    assert!(refs.iter().any(|r| r.path == "my_lib::check"), "should collect my_lib::check, found: {refs:?}");
}

#[test]
fn test_collect_path_refs_trait_bound() {
    let refs = refs_of_source("\nfn process<T: my_lib::Trait>(_t: T) {}\n");
    assert!(refs.iter().any(|r| r.path == "my_lib::Trait"), "should collect my_lib::Trait, found: {refs:?}");
}

#[test]
fn test_collect_path_refs_struct_literal() {
    let refs = refs_of_source("\nfn main() {\n    let _x = my_lib::Config { verbose: true };\n}\n");
    assert!(refs.iter().any(|r| r.path == "my_lib::Config"), "should collect my_lib::Config from struct literal, found: {refs:?}");
}

#[test]
fn test_unbound_single_segment_is_no_dependency() {
    let source = "\nfn main() {\n    let x = helper();\n}\n";
    let refs = refs_of_source(source);
    assert!(refs.iter().any(|r| r.path == "helper"), "the bare name is collected: {refs:?}");
    let mut paths = StrMap::new();
    paths.insert("my_crate".to_string(), set(&["helper"]));
    let deps = deps_in(source, "src/main.rs", "", &paths, &ReExportMap::from_entries(Vec::new()));
    assert!(deps.is_empty(), "no dependency from a bare name: {deps:?}");
}

#[test]
fn test_collect_path_refs_keeps_field_type_beside_visibility_scope() {
    let refs = refs_of_source("pub struct Wrapper(pub(in crate::environment) other::Inner);");
    assert!(refs.iter().any(|r| r.path == "other::Inner"), "should collect other::Inner, found: {refs:?}");
}

#[test]
fn test_collect_path_refs_ignores_visibility_scope() {
    for scope in ["crate::environment", "super::super"] {
        let refs = refs_of_source(&format!("pub struct Wrapper(pub(in {scope}) Inner);"));
        assert!(!refs.iter().any(|r| r.path == scope), "visibility scope should not be collected, found: {refs:?}");
    }
}

#[test]
fn test_collect_path_refs_method_chain() {
    let refs = refs_of_source("\nfn main() {\n    my_lib::Config::default();\n}\n");
    assert!(
        refs.iter().any(|r| r.path == "my_lib::Config::default"),
        "should collect full path my_lib::Config::default, found: {refs:?}"
    );
}

#[test]
fn test_collect_path_refs_multiple_in_file() {
    let refs = refs_of_source("\nfn main() {\n    my_server::run();\n    let _cfg: my_lib::Config = todo!();\n}\n");
    assert!(refs.iter().any(|r| r.path == "my_server::run"), "should collect my_server::run, found: {refs:?}");
    assert!(refs.iter().any(|r| r.path == "my_lib::Config"), "should collect my_lib::Config, found: {refs:?}");
}

#[test]
fn test_path_ref_in_cfg_test_marked() {
    let refs = refs_of_source("\n#[cfg(test)]\nmod tests {\n    fn check() {\n        other_crate::module::helper();\n    }\n}\n");
    let matching: Vec<_> = refs.iter().filter(|r| r.path == "other_crate::module::helper").collect();
    assert_eq!(matching.len(), 1);
    assert_eq!(matching[0].context, unit_test());
}

#[test]
fn test_path_ref_in_normal_code_production() {
    let refs = refs_of_source("\nfn main() {\n    other_crate::module::run();\n}\n");
    let matching: Vec<_> = refs.iter().filter(|r| r.path == "other_crate::module::run").collect();
    assert_eq!(matching.len(), 1);
    assert_eq!(matching[0].context, EdgeContext::production());
}

#[test]
fn test_collect_use_items_tracks_inline_depth() {
    let uses = uses_of_source("\nuse crate::top;\nmod inner {\n    use crate::nested;\n    mod deep {\n        use crate::very_deep;\n    }\n}\n");
    assert_eq!(uses.len(), 3);
    assert_eq!(uses[0].inline_depth, 0, "top-level use should have depth 0");
    assert_eq!(uses[1].inline_depth, 1, "use in mod inner should have depth 1");
    assert_eq!(uses[2].inline_depth, 2, "use in mod deep should have depth 2");
}
