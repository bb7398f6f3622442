//! Names of the fields that the annotator adds to the tree.
use vstd::prelude::*;

verus! {

/// The field of a node that holds its scope information.
pub const SCOPE_NAME: &'static str = "BINJS:Scope";

/// The names declared with `var` in a scope.
pub const BINJS_VAR_NAME: &'static str = "BINJS:VarDeclaredNames";

/// The names declared with `let` in a scope.
pub const BINJS_LET_NAME: &'static str = "BINJS:LetDeclaredNames";

/// The names declared with `const` in a scope.
pub const BINJS_CONST_NAME: &'static str = "BINJS:ConstDeclaredNames";

/// The names of a scope that a nested function captures.
pub const BINJS_CAPTURED_NAME: &'static str = "BINJS:CapturedNames";

/// Whether a scope holds a direct call to `eval`.
pub const BINJS_DIRECT_EVAL: &'static str = "BINJS:HasDirectEval";

/// The field that names the kind of a node.
pub const TYPE_NAME: &'static str = "type";

/// The field names above are all different.
pub proof fn lemma_field_names_distinct()
    ensures
        SCOPE_NAME@ != TYPE_NAME@,
        BINJS_VAR_NAME@ != BINJS_LET_NAME@,
        BINJS_VAR_NAME@ != BINJS_CONST_NAME@,
        BINJS_LET_NAME@ != BINJS_CONST_NAME@,
        TYPE_NAME@ != BINJS_VAR_NAME@,
        TYPE_NAME@ != BINJS_LET_NAME@,
        TYPE_NAME@ != BINJS_CONST_NAME@,
        BINJS_CAPTURED_NAME@ != BINJS_DIRECT_EVAL@,
        BINJS_CAPTURED_NAME@ != BINJS_VAR_NAME@,
        BINJS_CAPTURED_NAME@ != BINJS_LET_NAME@,
        BINJS_CAPTURED_NAME@ != BINJS_CONST_NAME@,
        BINJS_DIRECT_EVAL@ != BINJS_VAR_NAME@,
        BINJS_DIRECT_EVAL@ != BINJS_LET_NAME@,
        BINJS_DIRECT_EVAL@ != BINJS_CONST_NAME@,
{
    reveal_strlit("BINJS:Scope");
    reveal_strlit("BINJS:VarDeclaredNames");
    reveal_strlit("BINJS:LetDeclaredNames");
    reveal_strlit("BINJS:ConstDeclaredNames");
    reveal_strlit("BINJS:CapturedNames");
    reveal_strlit("BINJS:HasDirectEval");
    reveal_strlit("type");
    assert(TYPE_NAME@.len() == 4);
    assert(SCOPE_NAME@.len() == 11);
    assert(BINJS_VAR_NAME@.len() == 22);
    assert(BINJS_LET_NAME@.len() == 22);
    assert(BINJS_CONST_NAME@.len() == 24);
    assert(BINJS_CAPTURED_NAME@.len() == 19);
    assert(BINJS_DIRECT_EVAL@.len() == 19);
    assert(BINJS_VAR_NAME@[6] != BINJS_LET_NAME@[6]);
    assert(BINJS_CAPTURED_NAME@[6] != BINJS_DIRECT_EVAL@[6]);
}

} // verus!
