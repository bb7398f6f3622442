use binjs::ast::annotation::{
    process_declarations_aux, process_declarations_field, process_references_aux, Annotator,
    Context, DeclContents, DeclPosition, RefContents, ScopeKind,
};
use binjs::ast::grammar::{ASTError, Syntax};
use binjs::ast::json::{JsonObject, JsonValue};
use binjs::ast::library::{
    BINJS_CAPTURED_NAME, BINJS_CONST_NAME, BINJS_DIRECT_EVAL, BINJS_LET_NAME, BINJS_VAR_NAME,
    SCOPE_NAME,
};
use binjs::ast::names::NameSet;

fn syntax() -> Syntax {
    let kinds = vec![
        "Program".to_string(),
        "FunctionDeclaration".to_string(),
        "VariableDeclaration".to_string(),
        "Identifier".to_string(),
    ];
    let fields = vec!["body".to_string(), "params".to_string(), "name".to_string()];
    Syntax::new("Program", &kinds, &fields)
}

fn sorted(names: &NameSet) -> Vec<String> {
    names.sorted()
}

fn strings(value: &JsonValue) -> Vec<String> {
    match value {
        JsonValue::Array(items) => items
            .iter()
            .map(|item| match item {
                JsonValue::Str(s) => s.clone(),
                _ => panic!("not a string"),
            })
            .collect(),
        _ => panic!("not an array"),
    }
}

fn scope_of(parent: &JsonObject) -> &JsonObject {
    match parent.get(SCOPE_NAME) {
        Some(JsonValue::Object(o)) => o,
        _ => panic!("no scope"),
    }
}

#[test]
fn new_context_is_root_and_scope() {
    let syntax = syntax();
    let ctx: Context<DeclContents> = Context::new(&syntax);
    assert_eq!(ctx.kind_str(), "Program");
    assert!(ctx.contents().field_str().is_none());
    assert!(ctx.lex_scope().is_some());
    assert!(ctx.var_scope().is_some());
    assert!(ctx.fun_scope().is_none());
    assert!(ctx.parent().is_none());
    assert!(!ctx.uses_strict());
    assert!(matches!(ctx.scope_kind(), ScopeKind::Nothing));
}

#[test]
fn enter_unknown_field_fails() {
    let syntax = syntax();
    let mut ctx: Context<DeclContents> = Context::new(&syntax);
    match ctx.enter_field("nope") {
        Err(ASTError::InvalidField(name)) => assert_eq!(name, "nope"),
        _ => panic!("expected InvalidField"),
    }
    assert_eq!(ctx.kind_str(), "Program");
}

#[test]
fn enter_unknown_kind_fails() {
    let syntax = syntax();
    let mut ctx: Context<RefContents> = Context::new(&syntax);
    match ctx.enter_obj("Nope") {
        Err(ASTError::InvalidKind(name)) => assert_eq!(name, "Nope"),
        _ => panic!("expected InvalidKind"),
    }
    assert_eq!(ctx.kind_str(), "Program");
}

#[test]
fn enter_field_keeps_kind() {
    let syntax = syntax();
    let mut ctx: Context<DeclContents> = Context::new(&syntax);
    ctx.enter_obj("FunctionDeclaration").unwrap();
    ctx.enter_field("body").unwrap();
    assert_eq!(ctx.kind_str(), "FunctionDeclaration");
    assert_eq!(ctx.contents().field_str(), Some("body"));
    assert_eq!(ctx.contents().position().kind().to_str(), "FunctionDeclaration");
}

#[test]
fn parent_skips_object_contexts() {
    let syntax = syntax();
    let mut ctx: Context<DeclContents> = Context::new(&syntax);
    ctx.enter_field("body").unwrap();
    ctx.enter_obj("FunctionDeclaration").unwrap();
    let parent = ctx.parent().expect("the field context");
    assert_eq!(parent.field_str(), Some("body"));
    assert!(parent.parent().is_none());
    ctx.enter_obj("Identifier").unwrap();
    let parent = ctx.parent().expect("the field context");
    assert_eq!(parent.field_str(), Some("body"));
}

#[test]
fn scopes_are_inherited_and_marked() {
    let syntax = syntax();
    let mut ctx: Context<RefContents> = Context::new(&syntax);
    ctx.enter_obj("FunctionDeclaration").unwrap();
    assert_eq!(ctx.lex_scope().unwrap().kind_str(), "Program");
    assert!(ctx.fun_scope().is_none());
    ctx.use_as_fun_scope();
    ctx.use_as_lex_scope();
    ctx.enter_field("body").unwrap();
    assert_eq!(ctx.fun_scope().unwrap().kind_str(), "FunctionDeclaration");
    assert_eq!(ctx.lex_scope().unwrap().kind_str(), "FunctionDeclaration");
    assert_eq!(ctx.var_scope().unwrap().kind_str(), "Program");
    ctx.use_as_var_scope();
    assert_eq!(ctx.var_scope().unwrap().field_str(), Some("body"));
}

#[test]
fn declared_names_reach_the_parent() {
    let syntax = syntax();
    let mut ctx: Context<DeclContents> = Context::new(&syntax);
    ctx.add_var_name("a");
    ctx.enter_obj("FunctionDeclaration").unwrap();
    ctx.add_var_name("x");
    ctx.add_let_name("y");
    ctx.add_const_name("z");
    assert!(ctx.is_lex_bound("y"));
    assert!(ctx.is_lex_bound("z"));
    assert!(!ctx.is_lex_bound("x"));
    ctx.exit();
    let data = ctx.contents().data();
    assert_eq!(sorted(data.var_names()), vec!["a", "x"]);
    assert_eq!(sorted(data.let_names()), vec!["y"]);
    assert_eq!(sorted(data.const_names()), vec!["z"]);
}

#[test]
fn exit_at_root_changes_nothing() {
    let syntax = syntax();
    let mut ctx: Context<DeclContents> = Context::new(&syntax);
    ctx.add_var_name("a");
    ctx.exit();
    assert_eq!(ctx.kind_str(), "Program");
    assert_eq!(sorted(ctx.contents().data().var_names()), vec!["a"]);
}

#[test]
fn clear_names() {
    let syntax = syntax();
    let mut ctx: Context<DeclContents> = Context::new(&syntax);
    ctx.add_var_name("a");
    ctx.add_let_name("b");
    ctx.add_const_name("c");
    ctx.clear_lex_names();
    assert_eq!(sorted(ctx.contents().data().var_names()), vec!["a"]);
    assert!(ctx.contents().data().let_names().names().is_empty());
    assert!(ctx.contents().data().const_names().names().is_empty());
    ctx.clear_var_names();
    assert!(ctx.contents().data().var_names().names().is_empty());
}

#[test]
fn scope_kind_and_strictness_are_inherited() {
    let syntax = syntax();
    let mut ctx: Context<DeclContents> = Context::new(&syntax);
    ctx.set_scope_kind(ScopeKind::LetDecl);
    ctx.set_uses_strict(true);
    ctx.enter_obj("VariableDeclaration").unwrap();
    assert!(matches!(ctx.scope_kind(), ScopeKind::LetDecl));
    assert!(ctx.uses_strict());
    ctx.set_scope_kind(ScopeKind::ConstDecl);
    assert!(matches!(ctx.scope_kind(), ScopeKind::ConstDecl));
    ctx.exit();
    assert!(matches!(ctx.scope_kind(), ScopeKind::LetDecl));
    ctx.set_uses_strict(false);
    assert!(!ctx.uses_strict());
}

#[test]
fn declaration_store_lists_sorted_names() {
    let syntax = syntax();
    let mut ctx: Context<DeclContents> = Context::new(&syntax);
    ctx.add_var_name("b");
    ctx.add_var_name("a");
    ctx.add_var_name("c");
    ctx.add_var_name("a");
    ctx.add_let_name("z");
    let mut node = JsonObject::new();
    node.insert("type".to_string(), JsonValue::Str("Program".to_string()));
    ctx.store(&mut node);
    let scope = scope_of(&node);
    match scope.get("type") {
        Some(JsonValue::Str(s)) => assert_eq!(s, "BINJS:Scope"),
        _ => panic!("no type"),
    }
    assert_eq!(strings(scope.get(BINJS_VAR_NAME).unwrap()), vec!["a", "b", "c"]);
    assert_eq!(strings(scope.get(BINJS_LET_NAME).unwrap()), vec!["z"]);
    assert!(strings(scope.get(BINJS_CONST_NAME).unwrap()).is_empty());
    assert!(node.contains_key("type"));
}

#[test]
fn stored_declarations_load_as_bindings() {
    let syntax = syntax();
    let mut decls: Context<DeclContents> = Context::new(&syntax);
    decls.add_var_name("v");
    decls.add_let_name("l");
    decls.add_const_name("c");
    let mut node = JsonObject::new();
    decls.store(&mut node);

    let mut refs: Context<RefContents> = Context::new(&syntax);
    assert!(!refs.is_bound("v"));
    refs.load(&node);
    assert!(refs.is_bound("v"));
    assert!(refs.is_bound("l"));
    assert!(refs.is_bound("c"));
    assert!(!refs.is_bound("other"));
    assert_eq!(sorted(refs.contents().bindings()), vec!["c", "l", "v"]);
}

#[test]
fn bindings_are_seen_from_inner_contexts() {
    let syntax = syntax();
    let mut ctx: Context<RefContents> = Context::new(&syntax);
    ctx.add_binding("x");
    ctx.enter_obj("FunctionDeclaration").unwrap();
    ctx.enter_field("body").unwrap();
    assert!(ctx.is_bound("x"));
    assert!(!ctx.is_bound("y"));
    assert!(ctx.contents().bindings().names().is_empty());
}

#[test]
fn free_names_propagate_unless_bound() {
    let syntax = syntax();
    let mut ctx: Context<RefContents> = Context::new(&syntax);
    ctx.enter_obj("VariableDeclaration").unwrap();
    ctx.add_free_name("x");
    ctx.add_free_name("y");
    ctx.add_binding("y");
    ctx.exit();
    let data = ctx.contents().data();
    assert_eq!(sorted(data.free()), vec!["x"]);
    assert!(data.binding().names().is_empty());
    assert!(data.free_in_nested_function().names().is_empty());
}

#[test]
fn function_boundary_captures_free_names() {
    let syntax = syntax();
    let mut ctx: Context<RefContents> = Context::new(&syntax);
    ctx.add_binding("x");
    ctx.enter_obj("FunctionDeclaration").unwrap();
    ctx.use_as_fun_scope();
    ctx.add_free_name("x");
    ctx.add_free_name("local");
    ctx.add_binding("local");
    ctx.exit();
    let data = ctx.contents().data();
    assert!(data.free().names().is_empty());
    assert_eq!(sorted(data.free_in_nested_function()), vec!["x"]);

    let mut node = JsonObject::new();
    let mut scope = JsonObject::new();
    scope.insert(BINJS_VAR_NAME.to_string(), JsonValue::Array(vec![]));
    node.insert(SCOPE_NAME.to_string(), JsonValue::Object(scope));
    ctx.store(&mut node);
    let scope = scope_of(&node);
    assert_eq!(strings(scope.get(BINJS_CAPTURED_NAME).unwrap()), vec!["x"]);
    assert!(matches!(scope.get(BINJS_DIRECT_EVAL), Some(JsonValue::Bool(false))));
    assert!(strings(scope.get(BINJS_LET_NAME).unwrap()).is_empty());
    assert!(strings(scope.get(BINJS_CONST_NAME).unwrap()).is_empty());
}

#[test]
fn direct_eval_propagates() {
    let syntax = syntax();
    let mut ctx: Context<RefContents> = Context::new(&syntax);
    ctx.enter_obj("FunctionDeclaration").unwrap();
    ctx.use_as_fun_scope();
    ctx.enter_obj("Identifier").unwrap();
    ctx.add_direct_eval();
    ctx.exit();
    ctx.exit();
    assert!(ctx.contents().data().has_direct_eval());

    let mut node = JsonObject::new();
    node.insert(SCOPE_NAME.to_string(), JsonValue::Object(JsonObject::new()));
    ctx.store(&mut node);
    let scope = scope_of(&node);
    assert!(matches!(scope.get(BINJS_DIRECT_EVAL), Some(JsonValue::Bool(true))));
    assert!(strings(scope.get(BINJS_CAPTURED_NAME).unwrap()).is_empty());
}

#[test]
fn contents_level_operations() {
    let syntax = syntax();
    let mut ctx: Context<DeclContents> = Context::new(&syntax);
    ctx.enter_obj("Identifier").unwrap();
    assert_eq!(ctx.contents().kind_str(), "Identifier");
    assert!(ctx.contents().field_str().is_none());
}

#[test]
fn decl_position_defaults_to_other() {
    assert!(matches!(DeclPosition::default(), DeclPosition::Other));
    assert!(matches!(DeclPosition::other("why"), DeclPosition::Other));
    assert!(matches!(ScopeKind::default(), ScopeKind::Nothing));
}

/// Collects `var` declarations: a `VariableDeclaration` declares the name in
/// its field `name`; other nodes are walked through their field `body`.
struct VarCollector;

impl Annotator for VarCollector {
    fn name(&self) -> String {
        "var collector".to_string()
    }

    fn process_declarations(
        &self,
        ctx: &mut Context<DeclContents>,
        object: &mut JsonObject,
    ) -> Result<(), ASTError> {
        if ctx.kind_str() == "VariableDeclaration" {
            if let Some(JsonValue::Str(name)) = object.get("name") {
                let name = name.clone();
                ctx.add_var_name(&name);
            }
            Ok(())
        } else {
            process_declarations_field(self, ctx, object, "body")
        }
    }

    fn process_references(
        &self,
        ctx: &mut Context<RefContents>,
        object: &mut JsonObject,
    ) -> Result<(), ASTError> {
        if let Some(JsonValue::Str(name)) = object.get("name") {
            let name = name.clone();
            if ctx.is_bound(&name) {
                return Ok(());
            }
            ctx.add_free_name(&name);
        }
        Ok(())
    }
}

fn declaration(name: &str) -> JsonValue {
    let mut object = JsonObject::new();
    object.insert("type".to_string(), JsonValue::Str("VariableDeclaration".to_string()));
    object.insert("name".to_string(), JsonValue::Str(name.to_string()));
    JsonValue::Object(object)
}

#[test]
fn walk_collects_declarations() {
    let syntax = syntax();
    let mut ctx: Context<DeclContents> = Context::new(&syntax);
    let mut function = JsonObject::new();
    function.insert("type".to_string(), JsonValue::Str("FunctionDeclaration".to_string()));
    function.insert(
        "body".to_string(),
        JsonValue::Array(vec![declaration("b"), JsonValue::Null, declaration("a")]),
    );
    let mut tree = JsonValue::Array(vec![JsonValue::Object(function), JsonValue::Bool(true)]);
    process_declarations_aux(&VarCollector, &mut ctx, &mut tree).unwrap();
    assert_eq!(ctx.kind_str(), "Program");
    assert_eq!(sorted(ctx.contents().data().var_names()), vec!["a", "b"]);
    assert_eq!(VarCollector.name(), "var collector");
}

#[test]
fn walk_skips_objects_without_type() {
    let syntax = syntax();
    let mut ctx: Context<DeclContents> = Context::new(&syntax);
    let mut object = JsonObject::new();
    object.insert("name".to_string(), JsonValue::Str("x".to_string()));
    let mut tree = JsonValue::Object(object);
    process_declarations_aux(&VarCollector, &mut ctx, &mut tree).unwrap();
    assert!(ctx.contents().data().var_names().names().is_empty());
}

#[test]
fn walk_rejects_unknown_kinds() {
    let syntax = syntax();
    let mut ctx: Context<DeclContents> = Context::new(&syntax);
    let mut object = JsonObject::new();
    object.insert("type".to_string(), JsonValue::Str("Mystery".to_string()));
    let mut tree = JsonValue::Array(vec![declaration("a"), JsonValue::Object(object), declaration("b")]);
    match process_declarations_aux(&VarCollector, &mut ctx, &mut tree) {
        Err(ASTError::InvalidKind(kind)) => assert_eq!(kind, "Mystery"),
        _ => panic!("expected InvalidKind"),
    }
    assert_eq!(ctx.kind_str(), "Program");
    assert_eq!(sorted(ctx.contents().data().var_names()), vec!["a"]);
}

#[test]
fn missing_field_is_reported() {
    let syntax = syntax();
    let mut ctx: Context<DeclContents> = Context::new(&syntax);
    let mut object = JsonObject::new();
    object.insert("type".to_string(), JsonValue::Str("FunctionDeclaration".to_string()));
    match process_declarations_field(&VarCollector, &mut ctx, &mut object, "body") {
        Err(ASTError::InvalidValue { got, expected }) => {
            assert_eq!(expected, "Field `body`");
            match got {
                JsonValue::Object(o) => match o.get("type") {
                    Some(JsonValue::Str(s)) => assert_eq!(s, "FunctionDeclaration"),
                    _ => panic!("copy lost its type"),
                },
                _ => panic!("expected the object"),
            }
        }
        _ => panic!("expected InvalidValue"),
    }
    assert!(object.contains_key("type"));
}

#[test]
fn reference_walk_records_free_names() {
    let syntax = syntax();
    let mut ctx: Context<RefContents> = Context::new(&syntax);
    ctx.add_binding("bound");
    let mut tree = JsonValue::Array(vec![declaration("bound"), declaration("loose")]);
    process_references_aux(&VarCollector, &mut ctx, &mut tree).unwrap();
    assert_eq!(sorted(ctx.contents().data().free()), vec!["loose"]);
}

#[test]
fn grammar_lookups() {
    let syntax = syntax();
    assert_eq!(syntax.root_kind().to_str(), "Program");
    assert_eq!(syntax.get_kind("Identifier").unwrap().to_str(), "Identifier");
    assert!(syntax.get_kind("body").is_none());
    assert_eq!(syntax.get_field_name("params").unwrap().to_str(), "params");
    assert!(syntax.get_field_name("Program").is_none());
}

#[test]
fn leaving_an_empty_context_changes_nothing() {
    let syntax = syntax();
    let mut ctx: Context<RefContents> = Context::new(&syntax);
    ctx.add_binding("b");
    ctx.add_free_name("f");
    ctx.enter_field("body").unwrap();
    ctx.exit();
    let data = ctx.contents().data();
    assert_eq!(sorted(data.binding()), vec!["b"]);
    assert_eq!(sorted(data.free()), vec!["f"]);
    assert!(data.free_in_nested_function().names().is_empty());
    assert!(!data.has_direct_eval());
    assert!(ctx.parent().is_none());
    assert!(ctx.lex_scope().is_some());
}

fn identifier(name: &str) -> JsonValue {
    let mut object = JsonObject::new();
    object.insert("type".to_string(), JsonValue::Str("Identifier".to_string()));
    object.insert("name".to_string(), JsonValue::Str(name.to_string()));
    JsonValue::Object(object)
}

#[test]
fn reference_walk_stops_at_first_error() {
    let syntax = syntax();
    let mut ctx: Context<RefContents> = Context::new(&syntax);
    let mut unknown = JsonObject::new();
    unknown.insert("type".to_string(), JsonValue::Str("Mystery".to_string()));
    let mut tree = JsonValue::Array(vec![
        identifier("x"),
        JsonValue::Object(unknown),
        identifier("y"),
    ]);
    match process_references_aux(&VarCollector, &mut ctx, &mut tree) {
        Err(ASTError::InvalidKind(kind)) => assert_eq!(kind, "Mystery"),
        _ => panic!("expected InvalidKind"),
    }
    assert_eq!(ctx.kind_str(), "Program");
    assert_eq!(sorted(ctx.contents().data().free()), vec!["x"]);
}

#[test]
fn reference_walk_of_scalars_succeeds() {
    let syntax = syntax();
    let mut ctx: Context<RefContents> = Context::new(&syntax);
    let mut tree = JsonValue::Array(vec![]);
    assert!(process_references_aux(&VarCollector, &mut ctx, &mut tree).is_ok());
    let mut tree = JsonValue::Array(vec![JsonValue::Null, JsonValue::Bool(false)]);
    assert!(process_references_aux(&VarCollector, &mut ctx, &mut tree).is_ok());
    assert!(ctx.contents().data().free().names().is_empty());
}

#[test]
fn field_walk_gives_the_walk_result() {
    let syntax = syntax();
    let mut ctx: Context<DeclContents> = Context::new(&syntax);
    let mut unknown = JsonObject::new();
    unknown.insert("type".to_string(), JsonValue::Str("Mystery".to_string()));
    let mut object = JsonObject::new();
    object.insert("body".to_string(), JsonValue::Object(unknown));
    match process_declarations_field(&VarCollector, &mut ctx, &mut object, "body") {
        Err(ASTError::InvalidKind(kind)) => assert_eq!(kind, "Mystery"),
        _ => panic!("expected InvalidKind"),
    }
    let mut object = JsonObject::new();
    object.insert("body".to_string(), JsonValue::Array(vec![declaration("q")]));
    process_declarations_field(&VarCollector, &mut ctx, &mut object, "body").unwrap();
    assert_eq!(sorted(ctx.contents().data().var_names()), vec!["q"]);
}

#[test]
fn names_sort_by_code_point() {
    let mut names = NameSet::new();
    names.insert("\u{e9}".to_string());
    names.insert("z".to_string());
    names.insert("ab".to_string());
    names.insert("a".to_string());
    assert_eq!(names.sorted(), vec!["a", "ab", "z", "\u{e9}"]);
}

#[test]
fn names_added_to_enclosing_scopes() {
    let syntax = syntax();
    let mut ctx: Context<DeclContents> = Context::new(&syntax);
    assert!(ctx.fun_scope_mut().is_none());
    ctx.enter_obj("FunctionDeclaration").unwrap();
    ctx.enter_field("body").unwrap();
    ctx.var_scope_mut().unwrap().add_var_name("x");
    ctx.lex_scope_mut().unwrap().add_let_name("y");
    assert!(ctx.contents().data().var_names().names().is_empty());
    assert_eq!(sorted(ctx.var_scope().unwrap().data().var_names()), vec!["x"]);
    assert!(ctx.is_lex_bound("y"));
    assert!(!ctx.is_lex_bound("x"));
    assert_eq!(ctx.kind_str(), "FunctionDeclaration");
    assert_eq!(ctx.contents().field_str(), Some("body"));
}

#[test]
fn bindings_added_to_function_scope() {
    let syntax = syntax();
    let mut ctx: Context<RefContents> = Context::new(&syntax);
    ctx.enter_obj("FunctionDeclaration").unwrap();
    ctx.use_as_fun_scope();
    ctx.enter_field("params").unwrap();
    ctx.fun_scope_mut().unwrap().add_binding("p");
    assert!(ctx.is_bound("p"));
    assert!(ctx.contents().bindings().names().is_empty());
    ctx.exit();
    assert_eq!(sorted(ctx.contents().bindings()), vec!["p"]);
}
