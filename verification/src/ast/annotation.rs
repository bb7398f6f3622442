//! Annotating a tree with scope information.
//!
//! The annotator walks the tree and keeps a stack of contexts, one for each
//! node or field it is inside. Each context collects information (declared
//! names, free names, ...) and hands it to its parent when it is left.
//!
//! A context is the top of that stack: its contents own their parent's
//! contents, and so on down to the root. A context may be marked as the
//! lexical, variable or function scope of the contexts entered from it; the
//! scope of a context is then the nearest context, itself included, that
//! carries the mark.
use crate::ast::grammar::{ASTError, FieldName, Kind, Syntax};
use crate::ast::json::{
    lemma_same_json_refl,
    lemma_same_json_seq_pointwise,
    same_json_seq,
    is_sorted_names,
    is_strings,
    object_of,
    string_array,
    items_of,
    same_json,
    strings_of,
    text_of,
    JsonObject,
    JsonValue,
};
use crate::ast::library::{
    lemma_field_names_distinct,
    BINJS_CAPTURED_NAME,
    BINJS_CONST_NAME,
    BINJS_DIRECT_EVAL,
    BINJS_LET_NAME,
    BINJS_VAR_NAME,
    SCOPE_NAME,
    TYPE_NAME,
};
use crate::ast::names::{names_set, strictly_sorted, NameSet};
use vstd::prelude::*;

verus! {

/// An optional reference, read as the value it points to.
pub open spec fn deref_opt<X>(o: Option<&X>) -> Option<X> {
    match o {
        Some(r) => Some(*r),
        None => None,
    }
}

/// `found` is the first context of `chain` that `marked` holds of, or `None`
/// when it holds of none.
pub open spec fn first_marked<T>(
    chain: Seq<ContextContents<T>>,
    marked: spec_fn(ContextContents<T>) -> bool,
    found: Option<ContextContents<T>>,
) -> bool {
    match found {
        Some(f) => exists|i: int|
            0 <= i < chain.len() && #[trigger] chain[i] == f && marked(chain[i]) && forall|j: int|
                0 <= j < i ==> !marked(#[trigger] chain[j]),
        None => forall|j: int| 0 <= j < chain.len() ==> !marked(#[trigger] chain[j]),
    }
}

/// Whether `marked` holds of some context of `chain`.
pub open spec fn any_marked<T>(
    chain: Seq<ContextContents<T>>,
    marked: spec_fn(ContextContents<T>) -> bool,
) -> bool {
    exists|i: int| 0 <= i < chain.len() && marked(#[trigger] chain[i])
}

/// Whether `name` is bound in `c` or in a context it was entered from.
pub open spec fn bound_in(c: ContextContents<RefContents>, name: Seq<char>) -> bool {
    any_marked(c.chain(), |x: ContextContents<RefContents>| x.data_spec()@.binding.contains(name))
}

/// Whether `name` is declared with `let` or `const` in `c` or in a context
/// it was entered from.
pub open spec fn lex_bound_in(c: ContextContents<DeclContents>, name: Seq<char>) -> bool {
    any_marked(
        c.chain(),
        |x: ContextContents<DeclContents>|
            x.data_spec()@.let_names.contains(name) || x.data_spec()@.const_names.contains(name),
    )
}

/// Whether strict mode holds in `c` or in a context it was entered from.
pub open spec fn strict_in(c: ContextContents<DeclContents>) -> bool {
    any_marked(c.chain(), |x: ContextContents<DeclContents>| x.data_spec()@.uses_strict)
}

/// The position currently being examined.
#[derive(Clone)]
pub struct Position {
    /// The kind of object currently being examined.
    kind: Kind,
    /// If a field is being examined, its name.
    field: Option<FieldName>,
}

/// The text of an optional field name.
pub open spec fn field_view(field: Option<FieldName>) -> Option<Seq<char>> {
    match field {
        Some(f) => Some(f@),
        None => None,
    }
}

impl View for Position {
    type V = (Seq<char>, Option<Seq<char>>);

    closed spec fn view(&self) -> (Seq<char>, Option<Seq<char>>) {
        (self.kind@, field_view(self.field))
    }
}

impl Position {
    /// The position of `field` (if any) in an object of kind `kind`.
    pub fn new(kind: &Kind, field: Option<&FieldName>) -> (position: Self)
        ensures
            position@ == (kind@, field_view(deref_opt(field))),
    {
        let field = match field {
            Some(f) => Some(f.duplicate()),
            None => None,
        };
        Position { kind: kind.duplicate(), field }
    }

    /// The field being examined, if any.
    pub fn field(&self) -> (field: &Option<FieldName>)
        ensures
            field_view(*field) == self@.1,
    {
        &self.field
    }

    /// Get the name of the current field, if any.
    pub fn field_str(&self) -> (name: Option<&str>)
        ensures
            match name {
                Some(n) => self@.1 == Some(n@),
                None => self@.1 is None,
            },
    {
        match &self.field {
            None => None,
            Some(x) => Some(x.to_str()),
        }
    }

    /// The kind of the object being examined.
    pub fn kind(&self) -> (kind: &Kind)
        ensures
            kind@ == self@.0,
    {
        &self.kind
    }
}

/// The information collected in one context, with the contexts it is in.
pub struct ContextContents<T> {
    data: T,
    position: Position,
    parent: Option<Box<ContextContents<T>>>,
    is_function_toplevel: bool,
    is_lex_scope: bool,
    is_var_scope: bool,
}

impl<T> ContextContents<T> {
    /// The information collected here.
    pub closed spec fn data_spec(self) -> T {
        self.data
    }

    /// The position of this context.
    pub closed spec fn position_spec(self) -> Position {
        self.position
    }

    /// The context this one was entered from.
    pub closed spec fn parent_spec(self) -> Option<ContextContents<T>> {
        match self.parent {
            Some(p) => Some(*p),
            None => None,
        }
    }

    /// Whether this context is the top level of a function: its function scope.
    pub closed spec fn is_function_toplevel_spec(self) -> bool {
        self.is_function_toplevel
    }

    /// Whether this context is a lexical scope.
    pub closed spec fn is_lex_scope_spec(self) -> bool {
        self.is_lex_scope
    }

    /// Whether this context is a variable scope.
    pub closed spec fn is_var_scope_spec(self) -> bool {
        self.is_var_scope
    }

    /// This context, then its parent, and so on to the root.
    pub closed spec fn chain(self) -> Seq<ContextContents<T>>
        decreases self,
    {
        match self.parent {
            Some(p) => seq![self] + (*p).chain(),
            None => seq![self],
        }
    }

    /// The number of contexts from this one to the root, both included.
    pub open spec fn depth(self) -> nat {
        self.chain().len()
    }

    /// The same context, but for the information collected in it.
    pub open spec fn same_but_data(self, other: Self) -> bool {
        &&& self.same_place(other)
        &&& self.parent_spec() == other.parent_spec()
    }

    /// A context just entered from `parent`, at `position`, that collected
    /// nothing yet and carries no scope mark.
    pub open spec fn entered_from(
        self,
        parent: ContextContents<T>,
        position: (Seq<char>, Option<Seq<char>>),
    ) -> bool {
        &&& self.parent_spec() == Some(parent)
        &&& self.position_spec()@ == position
        &&& !self.is_function_toplevel_spec()
        &&& !self.is_lex_scope_spec()
        &&& !self.is_var_scope_spec()
    }

    /// The same context, marked as the top level of a function.
    pub closed spec fn with_function_scope(self) -> Self {
        ContextContents { is_function_toplevel: true, ..self }
    }

    /// The same context, marked as a lexical scope.
    pub closed spec fn with_lex_scope(self) -> Self {
        ContextContents { is_lex_scope: true, ..self }
    }

    /// The same context, marked as a variable scope.
    pub closed spec fn with_var_scope(self) -> Self {
        ContextContents { is_var_scope: true, ..self }
    }

    /// A mark changes that mark only: the data, the position, the parent
    /// and the other marks stay.
    pub proof fn lemma_with_marks(self)
        ensures
            self.with_function_scope().is_function_toplevel_spec(),
            self.with_function_scope().is_lex_scope_spec() == self.is_lex_scope_spec(),
            self.with_function_scope().is_var_scope_spec() == self.is_var_scope_spec(),
            self.with_function_scope().data_spec() == self.data_spec(),
            self.with_function_scope().position_spec() == self.position_spec(),
            self.with_function_scope().parent_spec() == self.parent_spec(),
            self.with_lex_scope().is_lex_scope_spec(),
            self.with_lex_scope().is_function_toplevel_spec() == self.is_function_toplevel_spec(),
            self.with_lex_scope().is_var_scope_spec() == self.is_var_scope_spec(),
            self.with_lex_scope().data_spec() == self.data_spec(),
            self.with_lex_scope().position_spec() == self.position_spec(),
            self.with_lex_scope().parent_spec() == self.parent_spec(),
            self.with_var_scope().is_var_scope_spec(),
            self.with_var_scope().is_function_toplevel_spec() == self.is_function_toplevel_spec(),
            self.with_var_scope().is_lex_scope_spec() == self.is_lex_scope_spec(),
            self.with_var_scope().data_spec() == self.data_spec(),
            self.with_var_scope().position_spec() == self.position_spec(),
            self.with_var_scope().parent_spec() == self.parent_spec(),
    {
    }

    /// The chain is this context followed by its parent's chain.
    pub proof fn lemma_chain(self)
        ensures
            self.chain().len() >= 1,
            self.chain()[0] == self,
            self.parent_spec() is None ==> self.chain().len() == 1,
            self.parent_spec() matches Some(p) ==> {
                &&& self.chain().len() == p.chain().len() + 1
                &&& forall|j: int|
                    1 <= j < self.chain().len() ==> #[trigger] self.chain()[j] == p.chain()[j - 1]
                &&& self.chain().drop_first() == p.chain()
            },
            self.parent_spec() is None ==> self.chain().drop_first().len() == 0,
    {
        match self.parent {
            Some(p) => {
                assert((seq![self] + (*p).chain())[0] == self);
                assert(self.chain().drop_first() =~= (*p).chain());
            },
            None => {},
        }
    }

    /// The first context of the chain with a mark is this one when it has the
    /// mark, and otherwise the first of the rest of the chain.
    pub proof fn lemma_first_marked(
        self,
        marked: spec_fn(ContextContents<T>) -> bool,
        found: Option<ContextContents<T>>,
    )
        ensures
            marked(self) ==> first_marked(self.chain(), marked, Some(self)),
            !marked(self) && first_marked(self.chain().drop_first(), marked, found)
                ==> first_marked(self.chain(), marked, found),
            self.parent_spec() matches Some(p) ==> self.chain().drop_first() == p.chain(),
            self.parent_spec() is None ==> self.chain().drop_first().len() == 0,
    {
        self.lemma_chain();
        let c = self.chain();
        let pc = c.drop_first();
        if let Some(p) = self.parent_spec() {
            assert(pc =~= p.chain());
        }
        if marked(self) {
            assert(c[0] == self);
        } else if first_marked(pc, marked, found) {
            match found {
                Some(f) => {
                    let i = choose|i: int|
                        0 <= i < pc.len() && #[trigger] pc[i] == f && marked(pc[i]) && forall|j: int|
                            0 <= j < i ==> !marked(#[trigger] pc[j]);
                    assert(c[i + 1] == pc[i]);
                    assert forall|j: int| 0 <= j < i + 1 implies !marked(#[trigger] c[j]) by {
                        if j > 0 {
                            assert(c[j] == pc[j - 1]);
                        }
                    }
                },
                None => {
                    assert forall|j: int| 0 <= j < c.len() implies !marked(#[trigger] c[j]) by {
                        if j > 0 {
                            assert(c[j] == pc[j - 1]);
                        }
                    }
                },
            }
        }
    }

    /// A mark holds somewhere on the chain when it holds here or somewhere
    /// on the rest of the chain.
    pub proof fn lemma_any_marked(self, marked: spec_fn(ContextContents<T>) -> bool)
        ensures
            any_marked(self.chain(), marked) == (marked(self) || any_marked(
                self.chain().drop_first(),
                marked,
            )),
            self.parent_spec() matches Some(p) ==> self.chain().drop_first() == p.chain(),
            self.parent_spec() is None ==> self.chain().drop_first().len() == 0,
    {
        self.lemma_first_marked(marked, None);
        let c = self.chain();
        let pc = c.drop_first();
        if any_marked(pc, marked) {
            let i = choose|i: int| 0 <= i < pc.len() && marked(#[trigger] pc[i]);
            assert(c[i + 1] == pc[i]);
        }
        if marked(self) {
            assert(c[0] == self);
        }
        if any_marked(c, marked) && !marked(self) {
            let i = choose|i: int| 0 <= i < c.len() && marked(#[trigger] c[i]);
            assert(i != 0);
            assert(pc[i - 1] == c[i]);
        }
    }

    /// Contexts with the same parent are equally deep; a context is one
    /// deeper than its parent.
    pub proof fn lemma_depth(self, other: Self)
        ensures
            self.parent_spec() == other.parent_spec() ==> self.depth() == other.depth(),
            self.parent_spec() matches Some(p) ==> self.depth() == p.depth() + 1,
            self.parent_spec() is None ==> self.depth() == 1,
    {
        self.lemma_chain();
        other.lemma_chain();
    }

    /// The same position and marks, whatever the parent and the data.
    pub open spec fn same_place(self, other: Self) -> bool {
        &&& self.position_spec() == other.position_spec()
        &&& self.is_function_toplevel_spec() == other.is_function_toplevel_spec()
        &&& self.is_lex_scope_spec() == other.is_lex_scope_spec()
        &&& self.is_var_scope_spec() == other.is_var_scope_spec()
    }

    /// Get the name of the current field, if any.
    pub fn field_str(&self) -> (name: Option<&str>)
        ensures
            match name {
                Some(n) => self.position_spec()@.1 == Some(n@),
                None => self.position_spec()@.1 is None,
            },
    {
        self.position.field_str()
    }

    /// The name of the kind of the current object.
    pub fn kind_str(&self) -> (name: &str)
        ensures
            name@ == self.position_spec()@.0,
    {
        self.position.kind.to_str()
    }

    /// The position of this context.
    pub fn position(&self) -> (position: &Position)
        ensures
            *position == self.position_spec(),
    {
        &self.position
    }

    /// The information collected here.
    pub fn data(&self) -> (data: &T)
        ensures
            *data == self.data_spec(),
    {
        &self.data
    }

    /// The nearest context above this one that examines a field: a context
    /// that examines a whole object is skipped.
    pub fn parent(&self) -> (parent: Option<&ContextContents<T>>)
        ensures
            first_marked(
                self.chain().drop_first(),
                |c: ContextContents<T>| c.position_spec()@.1 is Some,
                deref_opt(parent),
            ),
        decreases self,
    {
        let ghost marked = |c: ContextContents<T>| c.position_spec()@.1 is Some;
        proof {
            self.lemma_first_marked(marked, None);
        }
        match &self.parent {
            None => None,
            Some(p) => {
                let p: &ContextContents<T> = &**p;
                if p.field_str().is_none() {
                    let found = p.parent();
                    proof {
                        p.lemma_first_marked(marked, deref_opt(found));
                    }
                    found
                } else {
                    proof {
                        p.lemma_first_marked(marked, Some(*p));
                    }
                    Some(p)
                }
            },
        }
    }

    /// The function scope: the nearest context, this one included, that is
    /// the top level of a function.
    pub fn fun_scope(&self) -> (scope: Option<&ContextContents<T>>)
        ensures
            first_marked(
                self.chain(),
                |c: ContextContents<T>| c.is_function_toplevel_spec(),
                deref_opt(scope),
            ),
        decreases self,
    {
        let ghost marked = |c: ContextContents<T>| c.is_function_toplevel_spec();
        if self.is_function_toplevel {
            proof {
                self.lemma_first_marked(marked, Some(*self));
            }
            return Some(self);
        }
        match &self.parent {
            None => {
                proof {
                    self.lemma_first_marked(marked, None);
                }
                None
            },
            Some(p) => {
                let found = p.fun_scope();
                proof {
                    self.lemma_first_marked(marked, deref_opt(found));
                }
                found
            },
        }
    }

    /// The variable scope: the nearest context, this one included, marked
    /// as a variable scope.
    pub fn var_scope(&self) -> (scope: Option<&ContextContents<T>>)
        ensures
            first_marked(
                self.chain(),
                |c: ContextContents<T>| c.is_var_scope_spec(),
                deref_opt(scope),
            ),
        decreases self,
    {
        let ghost marked = |c: ContextContents<T>| c.is_var_scope_spec();
        if self.is_var_scope {
            proof {
                self.lemma_first_marked(marked, Some(*self));
            }
            return Some(self);
        }
        match &self.parent {
            None => {
                proof {
                    self.lemma_first_marked(marked, None);
                }
                None
            },
            Some(p) => {
                let found = p.var_scope();
                proof {
                    self.lemma_first_marked(marked, deref_opt(found));
                }
                found
            },
        }
    }

    /// The lexical scope: the nearest context, this one included, marked as
    /// a lexical scope.
    pub fn lex_scope(&self) -> (scope: Option<&ContextContents<T>>)
        ensures
            first_marked(
                self.chain(),
                |c: ContextContents<T>| c.is_lex_scope_spec(),
                deref_opt(scope),
            ),
        decreases self,
    {
        let ghost marked = |c: ContextContents<T>| c.is_lex_scope_spec();
        if self.is_lex_scope {
            proof {
                self.lemma_first_marked(marked, Some(*self));
            }
            return Some(self);
        }
        match &self.parent {
            None => {
                proof {
                    self.lemma_first_marked(marked, None);
                }
                None
            },
            Some(p) => {
                let found = p.lex_scope();
                proof {
                    self.lemma_first_marked(marked, deref_opt(found));
                }
                found
            },
        }
    }
}

/// One of the marks that make a context a scope.
pub enum ScopeMark {
    /// A lexical scope.
    Lex,
    /// A variable scope.
    Var,
    /// The top level of a function.
    Function,
}

impl<T> ContextContents<T> {
    /// Whether this context carries the mark `mark`.
    pub open spec fn has_mark(self, mark: ScopeMark) -> bool {
        match mark {
            ScopeMark::Lex => self.is_lex_scope_spec(),
            ScopeMark::Var => self.is_var_scope_spec(),
            ScopeMark::Function => self.is_function_toplevel_spec(),
        }
    }

    /// The nearest context, this one included, that carries `mark`.
    pub open spec fn scope_of(self, mark: ScopeMark) -> Option<ContextContents<T>>
        decreases self,
    {
        if self.has_mark(mark) {
            Some(self)
        } else {
            match self.parent_spec() {
                Some(p) => {
                    proof {
                        self.lemma_parent_decreases();
                    }
                    p.scope_of(mark)
                },
                None => None,
            }
        }
    }

    /// A context is bigger than its parent.
    pub proof fn lemma_parent_decreases(self)
        ensures
            self.parent_spec() matches Some(p) ==> decreases_to!(self => p),
    {
        if let Some(b) = self.parent {
            assert(decreases_to!(self => self.parent));
        }
    }

    /// This context with the nearest one that carries `mark` replaced by
    /// `scope`; the contexts below it keep their place and data.
    pub closed spec fn with_scope(self, mark: ScopeMark, scope: ContextContents<T>) -> Self
        decreases self,
    {
        if self.has_mark(mark) {
            scope
        } else {
            match self.parent {
                Some(p) => ContextContents { parent: Some(Box::new((*p).with_scope(mark, scope))), ..self },
                None => self,
            }
        }
    }

    /// Replacing the nearest scope: a context with the mark is replaced; one
    /// without it keeps its place and data, and its parent's nearest scope is
    /// replaced.
    pub proof fn lemma_with_scope(self, mark: ScopeMark, scope: ContextContents<T>)
        ensures
            self.has_mark(mark) ==> self.with_scope(mark, scope) == scope,
            !self.has_mark(mark) ==> {
                &&& self.with_scope(mark, scope).same_place(self)
                &&& self.with_scope(mark, scope).data_spec() == self.data_spec()
                &&& match self.parent_spec() {
                    Some(p) => self.with_scope(mark, scope).parent_spec() == Some(
                        p.with_scope(mark, scope),
                    ),
                    None => self.with_scope(mark, scope) == self,
                }
            },
    {
    }

    /// The nearest context with a mark, as [`first_marked`] finds it on the
    /// chain.
    pub proof fn lemma_scope_of(self, mark: ScopeMark)
        ensures
            first_marked(self.chain(), |c: ContextContents<T>| c.has_mark(mark), self.scope_of(mark)),
        decreases self,
    {
        let marked = |c: ContextContents<T>| c.has_mark(mark);
        self.lemma_first_marked(marked, self.scope_of(mark));
        if !self.has_mark(mark) {
            if let Some(p) = self.parent_spec() {
                self.lemma_parent_decreases();
                p.lemma_scope_of(mark);
            }
        }
    }

    /// Replacing the nearest scope by one at the same place and depth keeps
    /// the depth, and the replacement is then the nearest scope.
    pub proof fn lemma_with_scope_found(self, mark: ScopeMark, scope: ContextContents<T>)
        requires
            self.scope_of(mark) matches Some(found) && scope.same_place(found) && scope.depth()
                == found.depth(),
        ensures
            self.with_scope(mark, scope).scope_of(mark) == Some(scope),
            self.with_scope(mark, scope).depth() == self.depth(),
        decreases self,
    {
        self.lemma_with_scope(mark, scope);
        if !self.has_mark(mark) {
            let p = self.parent_spec()->Some_0;
            self.lemma_parent_decreases();
            p.lemma_with_scope_found(mark, scope);
            let r = self.with_scope(mark, scope);
            r.lemma_depth(r);
            self.lemma_depth(self);
        }
    }

    /// The nearest context, this one included, that carries `mark`, to be
    /// changed in place.
    pub fn scope_mut(&mut self, mark: ScopeMark) -> (scope: Option<&mut ContextContents<T>>)
        ensures
            match scope {
                Some(s) => {
                    &&& old(self).scope_of(mark) == Some(*s)
                    &&& *final(self) == old(self).with_scope(mark, *final(s))
                },
                None => {
                    &&& old(self).scope_of(mark) is None
                    &&& *final(self) == *old(self)
                },
            },
        decreases *old(self),
    {
        let here = match mark {
            ScopeMark::Lex => self.is_lex_scope,
            ScopeMark::Var => self.is_var_scope,
            ScopeMark::Function => self.is_function_toplevel,
        };
        if here {
            return Some(self);
        }
        match &mut self.parent {
            Some(p) => p.scope_mut(mark),
            None => None,
        }
    }
}

impl<T: Default> ContextContents<T> {
    /// A context containing no data, no parent, at the root of the grammar.
    fn new(syntax: &Syntax) -> (contents: Self)
        ensures
            contents.parent_spec() is None,
            contents.position_spec()@ == (syntax.root_spec(), None::<Seq<char>>),
            !contents.is_function_toplevel_spec(),
            !contents.is_lex_scope_spec(),
            !contents.is_var_scope_spec(),
            call_ensures(T::default, (), contents.data_spec()),
    {
        let root = syntax.root_kind();
        ContextContents {
            data: T::default(),
            position: Position::new(&root, None),
            parent: None,
            is_function_toplevel: false,
            is_lex_scope: false,
            is_var_scope: false,
        }
    }
}

/// Storage for information collected while annotating an AST: the innermost
/// context, which owns the ones it was entered from.
pub struct Context<'a, T> {
    grammar: &'a Syntax,
    contents: ContextContents<T>,
}

impl<'a, T> Context<'a, T> {
    /// The innermost context.
    pub closed spec fn frame(&self) -> ContextContents<T> {
        self.contents
    }

    /// The grammar of the tree being annotated.
    pub closed spec fn syntax(&self) -> Syntax {
        *self.grammar
    }

    /// The number of contexts entered and not left, the root included.
    pub open spec fn depth(&self) -> nat {
        self.frame().depth()
    }

    /// The lexical scope of the innermost context.
    pub fn lex_scope(&self) -> (scope: Option<&ContextContents<T>>)
        ensures
            first_marked(
                self.frame().chain(),
                |c: ContextContents<T>| c.is_lex_scope_spec(),
                deref_opt(scope),
            ),
    {
        self.contents.lex_scope()
    }

    /// The function scope of the innermost context.
    pub fn fun_scope(&self) -> (scope: Option<&ContextContents<T>>)
        ensures
            first_marked(
                self.frame().chain(),
                |c: ContextContents<T>| c.is_function_toplevel_spec(),
                deref_opt(scope),
            ),
    {
        self.contents.fun_scope()
    }

    /// The variable scope of the innermost context.
    pub fn var_scope(&self) -> (scope: Option<&ContextContents<T>>)
        ensures
            first_marked(
                self.frame().chain(),
                |c: ContextContents<T>| c.is_var_scope_spec(),
                deref_opt(scope),
            ),
    {
        self.contents.var_scope()
    }

    /// The lexical scope of the innermost context, to be changed in place: what
    /// is changed there is seen by every context entered from it.
    pub fn lex_scope_mut(&mut self) -> (scope: Option<&mut ContextContents<T>>)
        ensures
            final(self).syntax() == old(self).syntax(),
            match scope {
                Some(s) => {
                    &&& old(self).frame().scope_of(ScopeMark::Lex) == Some(*s)
                    &&& final(self).frame() == old(self).frame().with_scope(
                        ScopeMark::Lex,
                        *final(s),
                    )
                },
                None => {
                    &&& old(self).frame().scope_of(ScopeMark::Lex) is None
                    &&& final(self).frame() == old(self).frame()
                },
            },
    {
        self.contents.scope_mut(ScopeMark::Lex)
    }

    /// The variable scope of the innermost context, to be changed in place: what
    /// is changed there is seen by every context entered from it.
    pub fn var_scope_mut(&mut self) -> (scope: Option<&mut ContextContents<T>>)
        ensures
            final(self).syntax() == old(self).syntax(),
            match scope {
                Some(s) => {
                    &&& old(self).frame().scope_of(ScopeMark::Var) == Some(*s)
                    &&& final(self).frame() == old(self).frame().with_scope(
                        ScopeMark::Var,
                        *final(s),
                    )
                },
                None => {
                    &&& old(self).frame().scope_of(ScopeMark::Var) is None
                    &&& final(self).frame() == old(self).frame()
                },
            },
    {
        self.contents.scope_mut(ScopeMark::Var)
    }

    /// The function scope of the innermost context, to be changed in place: what
    /// is changed there is seen by every context entered from it.
    pub fn fun_scope_mut(&mut self) -> (scope: Option<&mut ContextContents<T>>)
        ensures
            final(self).syntax() == old(self).syntax(),
            match scope {
                Some(s) => {
                    &&& old(self).frame().scope_of(ScopeMark::Function) == Some(*s)
                    &&& final(self).frame() == old(self).frame().with_scope(
                        ScopeMark::Function,
                        *final(s),
                    )
                },
                None => {
                    &&& old(self).frame().scope_of(ScopeMark::Function) is None
                    &&& final(self).frame() == old(self).frame()
                },
            },
    {
        self.contents.scope_mut(ScopeMark::Function)
    }

    /// Makes the innermost context the top level of a function: its own
    /// function scope, and that of the contexts entered from it.
    pub fn use_as_fun_scope(&mut self)
        ensures
            final(self).syntax() == old(self).syntax(),
            final(self).frame() == old(self).frame().with_function_scope(),
    {
        self.contents.is_function_toplevel = true;
    }

    /// Makes the innermost context a lexical scope.
    pub fn use_as_lex_scope(&mut self)
        ensures
            final(self).syntax() == old(self).syntax(),
            final(self).frame() == old(self).frame().with_lex_scope(),
    {
        self.contents.is_lex_scope = true;
    }

    /// Makes the innermost context a variable scope.
    pub fn use_as_var_scope(&mut self)
        ensures
            final(self).syntax() == old(self).syntax(),
            final(self).frame() == old(self).frame().with_var_scope(),
    {
        self.contents.is_var_scope = true;
    }

    /// The name of the kind of the object being examined.
    pub fn kind_str(&self) -> (name: &str)
        ensures
            name@ == self.frame().position_spec()@.0,
    {
        self.contents.kind_str()
    }

    /// The innermost context.
    pub fn contents(&self) -> (contents: &ContextContents<T>)
        ensures
            *contents == self.frame(),
    {
        &self.contents
    }

    /// The nearest context above the innermost one that examines a field.
    pub fn parent(&self) -> (parent: Option<&ContextContents<T>>)
        ensures
            first_marked(
                self.frame().chain().drop_first(),
                |c: ContextContents<T>| c.position_spec()@.1 is Some,
                deref_opt(parent),
            ),
    {
        self.contents.parent()
    }
}

impl<'a, T: Default> Context<'a, T> {
    /// The root context of a tree of grammar `syntax`: a lexical and
    /// variable scope, with nothing collected yet.
    pub fn new(syntax: &'a Syntax) -> (ctx: Self)
        ensures
            ctx.syntax() == *syntax,
            ctx.frame().parent_spec() is None,
            ctx.frame().position_spec()@ == (syntax.root_spec(), None::<Seq<char>>),
            !ctx.frame().is_function_toplevel_spec(),
            ctx.frame().is_lex_scope_spec(),
            ctx.frame().is_var_scope_spec(),
            call_ensures(T::default, (), ctx.frame().data_spec()),
    {
        let contents = ContextContents::new(syntax);
        let mut result = Context { grammar: syntax, contents };
        result.use_as_lex_scope();
        result.use_as_var_scope();
        result
    }

    /// Enters the field `field` of the object being examined.
    ///
    /// Fails, and changes nothing, when the grammar has no such field.
    pub fn enter_field(&mut self, field: &str) -> (res: Result<(), ASTError>)
        ensures
            final(self).syntax() == old(self).syntax(),
            old(self).syntax().has_field(field@) ==> {
                &&& res is Ok
                &&& final(self).frame().entered_from(
                    old(self).frame(),
                    (old(self).frame().position_spec()@.0, Some(field@)),
                )
                &&& call_ensures(T::default, (), final(self).frame().data_spec())
            },
            !old(self).syntax().has_field(field@) ==> {
                &&& (res matches Err(ASTError::InvalidField(name)) && name@ == field@)
                &&& final(self).frame() == old(self).frame()
            },
    {
        let field_name = match self.grammar.get_field_name(field) {
            Some(f) => f,
            None => {
                return Err(ASTError::InvalidField(field.to_owned()));
            },
        };
        let position = Position::new(self.contents.position.kind(), Some(&field_name));
        self.push(position);
        Ok(())
    }

    /// Enters an object of kind `kind`.
    ///
    /// Fails, and changes nothing, when the grammar has no such kind.
    pub fn enter_obj(&mut self, kind: &str) -> (res: Result<(), ASTError>)
        ensures
            final(self).syntax() == old(self).syntax(),
            old(self).syntax().has_kind(kind@) ==> {
                &&& res is Ok
                &&& final(self).frame().entered_from(old(self).frame(), (kind@, None::<Seq<char>>))
                &&& call_ensures(T::default, (), final(self).frame().data_spec())
            },
            !old(self).syntax().has_kind(kind@) ==> {
                &&& (res matches Err(ASTError::InvalidKind(name)) && name@ == kind@)
                &&& final(self).frame() == old(self).frame()
            },
    {
        let kind = match self.grammar.get_kind(kind) {
            Some(k) => k,
            None => {
                return Err(ASTError::InvalidKind(kind.to_owned()));
            },
        };
        let position = Position::new(&kind, None);
        self.push(position);
        Ok(())
    }

    /// Makes a new innermost context at `position`, entered from the current one.
    fn push(&mut self, position: Position)
        ensures
            final(self).syntax() == old(self).syntax(),
            final(self).frame().entered_from(old(self).frame(), position@),
            call_ensures(T::default, (), final(self).frame().data_spec()),
    {
        let mut child = ContextContents {
            data: T::default(),
            position,
            parent: None,
            is_function_toplevel: false,
            is_lex_scope: false,
            is_var_scope: false,
        };
        std::mem::swap(&mut self.contents, &mut child);
        self.contents.parent = Some(Box::new(child));
    }
}

/// The contents of a context used to annotate use of variables.
pub struct RefContents {
    /// Bound names. Not propagated upwards.
    binding: NameSet,
    /// Free names. Converted to free_in_nested_function when crossing function boundaries.
    free: NameSet,
    /// Free names captured by a nested function.
    free_in_nested_function: NameSet,
    /// `true` if we have detected a call `eval("foo")` anywhere in the subtree
    /// (including subfunctions), where `eval` is a free name.
    has_direct_eval: bool,
}

/// What a [`RefContents`] holds.
#[verifier::ext_equal]
pub struct RefView {
    pub binding: Set<Seq<char>>,
    pub free: Set<Seq<char>>,
    pub free_in_nested_function: Set<Seq<char>>,
    pub has_direct_eval: bool,
}

impl View for RefContents {
    type V = RefView;

    closed spec fn view(&self) -> RefView {
        RefView {
            binding: self.binding@,
            free: self.free@,
            free_in_nested_function: self.free_in_nested_function@,
            has_direct_eval: self.has_direct_eval,
        }
    }
}

/// Nothing collected.
pub open spec fn empty_refs() -> RefView {
    RefView {
        binding: Set::empty(),
        free: Set::empty(),
        free_in_nested_function: Set::empty(),
        has_direct_eval: false,
    }
}

/// What a context `parent` holds once a context `child` entered from it is
/// left: names bound in the child stop being free; a function's free names
/// become names captured by a nested function; a direct `eval` is remembered.
pub open spec fn ref_exit_view(parent: RefView, child: RefView, function_toplevel: bool) -> RefView {
    let free = if function_toplevel {
        Set::empty()
    } else {
        child.free
    };
    let nested = if function_toplevel {
        child.free_in_nested_function.union(child.free)
    } else {
        child.free_in_nested_function
    };
    RefView {
        binding: parent.binding,
        free: parent.free.union(free.difference(child.binding)),
        free_in_nested_function: parent.free_in_nested_function.union(
            nested.difference(child.binding),
        ),
        has_direct_eval: parent.has_direct_eval || child.has_direct_eval,
    }
}

impl Default for RefContents {
    fn default() -> (contents: Self)
        ensures
            contents@ == empty_refs(),
    {
        RefContents {
            binding: NameSet::new(),
            free: NameSet::new(),
            free_in_nested_function: NameSet::new(),
            has_direct_eval: false,
        }
    }
}

impl RefContents {
    /// The names bound here.
    pub fn binding(&self) -> (names: &NameSet)
        ensures
            names@ == self@.binding,
    {
        &self.binding
    }

    /// The names used here and not bound where they were used.
    pub fn free(&self) -> (names: &NameSet)
        ensures
            names@ == self@.free,
    {
        &self.free
    }

    /// The free names of the functions nested here.
    pub fn free_in_nested_function(&self) -> (names: &NameSet)
        ensures
            names@ == self@.free_in_nested_function,
    {
        &self.free_in_nested_function
    }

    /// Whether a direct call to `eval` was seen here or below.
    pub fn has_direct_eval(&self) -> (seen: bool)
        ensures
            seen == self@.has_direct_eval,
    {
        self.has_direct_eval
    }
}

impl ContextContents<RefContents> {
    /// Records a use of `name` that nothing here binds yet.
    pub fn add_free_name(&mut self, name: &str)
        ensures
            final(self).same_but_data(*old(self)),
            final(self).data_spec()@ == (RefView {
                free: old(self).data_spec()@.free.insert(name@),
                ..old(self).data_spec()@
            }),
    {
        self.data.free.insert(name.to_owned());
    }

    /// Records that `name` is bound here.
    pub fn add_binding(&mut self, name: &str)
        ensures
            final(self).same_but_data(*old(self)),
            final(self).data_spec()@ == (RefView {
                binding: old(self).data_spec()@.binding.insert(name@),
                ..old(self).data_spec()@
            }),
    {
        self.data.binding.insert(name.to_owned());
    }

    /// Records a direct call to `eval`.
    pub fn add_direct_eval(&mut self)
        ensures
            final(self).same_but_data(*old(self)),
            final(self).data_spec()@ == (RefView { has_direct_eval: true, ..old(self).data_spec()@ }),
    {
        self.data.has_direct_eval = true;
    }

    /// Whether `name` is bound here or in a context this one was entered from.
    pub fn is_bound(&self, name: &str) -> (bound: bool)
        ensures
            bound == bound_in(*self, name@),
        decreases self,
    {
        let ghost marked = |c: ContextContents<RefContents>| c.data_spec()@.binding.contains(name@);
        proof {
            self.lemma_any_marked(marked);
        }
        if self.data.binding.contains(name) {
            return true;
        }
        match &self.parent {
            Some(parent) => parent.is_bound(name),
            None => false,
        }
    }

    /// The names bound here.
    pub fn bindings(&self) -> (names: &NameSet)
        ensures
            names@ == self.data_spec()@.binding,
    {
        &self.data.binding
    }

    /// Hands what was collected here to the parent: see [`ref_exit_view`].
    /// The names collected here are cleared. Without a parent, nothing changes.
    pub fn dispose(&mut self)
        ensures
            old(self).parent_spec() is None ==> *final(self) == *old(self),
            old(self).parent_spec() matches Some(p) ==> {
                &&& final(self).same_place(*old(self))
                &&& final(self).parent_spec() is Some
                &&& final(self).parent_spec()->Some_0.same_but_data(p)
                &&& final(self).parent_spec()->Some_0.data_spec()@ == ref_exit_view(
                    p.data_spec()@,
                    old(self).data_spec()@,
                    old(self).is_function_toplevel_spec(),
                )
                &&& final(self).data_spec()@ == (RefView {
                    has_direct_eval: old(self).data_spec()@.has_direct_eval,
                    ..empty_refs()
                })
            },
    {
        match self.parent.take() {
            None => {},
            Some(boxed) => {
                let mut parent: ContextContents<RefContents> = *boxed;
                parent.data.has_direct_eval = parent.data.has_direct_eval || self.data.has_direct_eval;
                let mut binding = NameSet::new();
                std::mem::swap(&mut self.data.binding, &mut binding);
                if self.is_function_toplevel {
                    let mut free = NameSet::new();
                    std::mem::swap(&mut self.data.free, &mut free);
                    self.data.free_in_nested_function.extend(&free);
                }
                parent.data.free.extend_except(&self.data.free, &binding);
                parent.data.free_in_nested_function.extend_except(
                    &self.data.free_in_nested_function,
                    &binding,
                );
                self.data.free.clear();
                self.data.free_in_nested_function.clear();
                self.parent = Some(Box::new(parent));
            },
        }
    }
}

/// Whether `scope` keeps the value of `key` that `before` had, or holds an
/// empty array there when `before` had none.
pub open spec fn kept_or_empty(
    before: Map<Seq<char>, JsonValue>,
    scope: Map<Seq<char>, JsonValue>,
    key: Seq<char>,
) -> bool {
    &&& scope.contains_key(key)
    &&& before.contains_key(key) ==> scope[key] == before[key]
    &&& !before.contains_key(key) ==> scope[key] is Array && items_of(scope[key]).len() == 0
}

/// Whether `after` has the value `before` has at `key`, or lacks it as `before` does.
pub open spec fn same_at(
    before: Map<Seq<char>, JsonValue>,
    after: Map<Seq<char>, JsonValue>,
    key: Seq<char>,
) -> bool {
    &&& after.contains_key(key) == before.contains_key(key)
    &&& before.contains_key(key) ==> after[key] == before[key]
}

/// Whether `parent` holds scope information that can be loaded: an object
/// whose declared-name fields are arrays of strings.
pub open spec fn loadable_scope(parent: Map<Seq<char>, JsonValue>) -> bool {
    &&& parent.contains_key(SCOPE_NAME@)
    &&& parent[SCOPE_NAME@] is Object
    &&& object_of(parent[SCOPE_NAME@]).contains_key(BINJS_VAR_NAME@)
    &&& object_of(parent[SCOPE_NAME@]).contains_key(BINJS_LET_NAME@)
    &&& object_of(parent[SCOPE_NAME@]).contains_key(BINJS_CONST_NAME@)
    &&& is_strings(object_of(parent[SCOPE_NAME@])[BINJS_VAR_NAME@])
    &&& is_strings(object_of(parent[SCOPE_NAME@])[BINJS_LET_NAME@])
    &&& is_strings(object_of(parent[SCOPE_NAME@])[BINJS_CONST_NAME@])
}

/// The names that the scope information of `parent` declares.
pub open spec fn declared_in_scope(parent: Map<Seq<char>, JsonValue>) -> Set<Seq<char>> {
    let scope = object_of(parent[SCOPE_NAME@]);
    strings_of(scope[BINJS_VAR_NAME@]).union(strings_of(scope[BINJS_LET_NAME@])).union(
        strings_of(scope[BINJS_CONST_NAME@]),
    )
}

impl<'a> Context<'a, RefContents> {
    /// The names bound here that a nested function uses.
    fn captured_names(&self) -> (names: NameSet)
        ensures
            names@ == self.frame().data_spec()@.free_in_nested_function.intersect(
                self.frame().data_spec()@.binding,
            ),
    {
        self.contents.data.free_in_nested_function.intersection(&self.contents.data.binding)
    }

    /// Records a direct call to `eval`.
    pub fn add_direct_eval(&mut self)
        ensures
            final(self).syntax() == old(self).syntax(),
            final(self).frame().same_but_data(old(self).frame()),
            final(self).frame().data_spec()@ == (RefView {
                has_direct_eval: true,
                ..old(self).frame().data_spec()@
            }),
    {
        self.contents.add_direct_eval();
    }

    /// Records a use of `name`.
    pub fn add_free_name(&mut self, name: &str)
        ensures
            final(self).syntax() == old(self).syntax(),
            final(self).frame().same_but_data(old(self).frame()),
            final(self).frame().data_spec()@ == (RefView {
                free: old(self).frame().data_spec()@.free.insert(name@),
                ..old(self).frame().data_spec()@
            }),
    {
        self.contents.add_free_name(name);
    }

    /// Records that `name` is bound here.
    pub fn add_binding(&mut self, name: &str)
        ensures
            final(self).syntax() == old(self).syntax(),
            final(self).frame().same_but_data(old(self).frame()),
            final(self).frame().data_spec()@ == (RefView {
                binding: old(self).frame().data_spec()@.binding.insert(name@),
                ..old(self).frame().data_spec()@
            }),
    {
        self.contents.add_binding(name);
    }

    /// Check whether the name is bound somewhere on the stack.
    pub fn is_bound(&self, name: &str) -> (bound: bool)
        ensures
            bound == bound_in(self.frame(), name@),
    {
        self.contents.is_bound(name)
    }

    /// Leaves the innermost context, handing what it collected to its parent:
    /// see [`ref_exit_view`]. At the root, nothing changes.
    pub fn exit(&mut self)
        ensures
            final(self).syntax() == old(self).syntax(),
            old(self).frame().parent_spec() is None ==> final(self).frame() == old(self).frame(),
            old(self).frame().parent_spec() matches Some(p) ==> {
                &&& final(self).frame().same_but_data(p)
                &&& final(self).frame().data_spec()@ == ref_exit_view(
                    p.data_spec()@,
                    old(self).frame().data_spec()@,
                    old(self).frame().is_function_toplevel_spec(),
                )
            },
    {
        if self.contents.parent.is_none() {
            return;
        }
        self.contents.dispose();
        let parent = self.contents.parent.take().unwrap();
        self.contents = *parent;
    }

    /// Stores the names captured here, and whether a direct `eval` was seen,
    /// in the scope information of `parent`; adds empty lists of declared
    /// names where it had none.
    ///
    /// The scope information must be there, and must not hold captured names
    /// or the `eval` flag yet.
    pub fn store(&self, parent: &mut JsonObject)
        requires
            old(parent)@.contains_key(SCOPE_NAME@),
            old(parent)@[SCOPE_NAME@] is Object,
            !object_of(old(parent)@[SCOPE_NAME@]).contains_key(BINJS_CAPTURED_NAME@),
            !object_of(old(parent)@[SCOPE_NAME@]).contains_key(BINJS_DIRECT_EVAL@),
        ensures
            final(parent)@.remove(SCOPE_NAME@) == old(parent)@.remove(SCOPE_NAME@),
            final(parent)@.contains_key(SCOPE_NAME@),
            final(parent)@[SCOPE_NAME@] is Object,
            ({
                let before = object_of(old(parent)@[SCOPE_NAME@]);
                let scope = object_of(final(parent)@[SCOPE_NAME@]);
                let data = self.frame().data_spec()@;
                &&& kept_or_empty(before, scope, BINJS_VAR_NAME@)
                &&& kept_or_empty(before, scope, BINJS_LET_NAME@)
                &&& kept_or_empty(before, scope, BINJS_CONST_NAME@)
                &&& scope.contains_key(BINJS_CAPTURED_NAME@)
                &&& is_sorted_names(
                    scope[BINJS_CAPTURED_NAME@],
                    data.free_in_nested_function.intersect(data.binding),
                )
                &&& scope.contains_key(BINJS_DIRECT_EVAL@)
                &&& scope[BINJS_DIRECT_EVAL@] == JsonValue::Bool(data.has_direct_eval)
                &&& forall|key: Seq<char>|
                    key != BINJS_VAR_NAME@ && key != BINJS_LET_NAME@ && key != BINJS_CONST_NAME@
                        && key != BINJS_CAPTURED_NAME@ && key != BINJS_DIRECT_EVAL@ ==> same_at(
                        before,
                        scope,
                        key,
                    )
            }),
    {
        proof {
            lemma_field_names_distinct();
        }
        let removed = parent.remove(SCOPE_NAME);
        let value = removed.unwrap();
        if let JsonValue::Object(mut object) = value {
            let ghost before = object@;
            if !object.contains_key(BINJS_VAR_NAME) {
                object.insert(BINJS_VAR_NAME.to_owned(), JsonValue::Array(Vec::new()));
            }
            if !object.contains_key(BINJS_LET_NAME) {
                object.insert(BINJS_LET_NAME.to_owned(), JsonValue::Array(Vec::new()));
            }
            if !object.contains_key(BINJS_CONST_NAME) {
                object.insert(BINJS_CONST_NAME.to_owned(), JsonValue::Array(Vec::new()));
            }
            let captured_names = self.captured_names().sorted();
            object.insert(BINJS_CAPTURED_NAME.to_owned(), string_array(captured_names));
            object.insert(
                BINJS_DIRECT_EVAL.to_owned(),
                JsonValue::Bool(self.contents.data.has_direct_eval),
            );
            let ghost scope = object@;
            parent.insert(SCOPE_NAME.to_owned(), JsonValue::Object(object));
            proof {
                assert(parent@.remove(SCOPE_NAME@) =~= old(parent)@.remove(SCOPE_NAME@));
                assert(object_of(parent@[SCOPE_NAME@]) == scope);
            }
        }
    }

    /// Loads the declared names stored in the scope information of `parent`
    /// as names bound here.
    pub fn load(&mut self, parent: &JsonObject)
        requires
            loadable_scope(parent@),
        ensures
            final(self).syntax() == old(self).syntax(),
            final(self).frame().same_but_data(old(self).frame()),
            final(self).frame().data_spec()@ == (RefView {
                binding: old(self).frame().data_spec()@.binding.union(declared_in_scope(parent@)),
                ..old(self).frame().data_spec()@
            }),
    {
        let object = match parent.get(SCOPE_NAME) {
            Some(JsonValue::Object(object)) => object,
            _ => {
                return;
            },
        };
        let ghost start = self.contents.data@;
        let var_decl_names = object.get(BINJS_VAR_NAME).unwrap();
        self.contents.data.binding.add_strings(var_decl_names);
        let let_names = object.get(BINJS_LET_NAME).unwrap();
        self.contents.data.binding.add_strings(let_names);
        let const_names = object.get(BINJS_CONST_NAME).unwrap();
        self.contents.data.binding.add_strings(const_names);
        assert(self.contents.data@ =~= (RefView {
            binding: start.binding.union(declared_in_scope(parent@)),
            ..start
        }));
    }
}

/// Where a declaration stands.
#[derive(Clone)]
pub enum DeclPosition {
    Function,
    FunctionArguments,
    Block,
    VarDecl,
    LexDecl,
    Expression,
    Callee,
    Other,
}

impl Default for DeclPosition {
    fn default() -> (position: Self)
        ensures
            position is Other,
    {
        DeclPosition::other("uninitialized")
    }
}

impl DeclPosition {
    /// A position of no particular kind; the text only says why.
    pub fn other(_reason: &str) -> (position: Self)
        ensures
            position is Other,
    {
        DeclPosition::Other
    }
}

/// Which declarations a context introduces.
#[derive(Clone, Copy)]
pub enum ScopeKind {
    VarDecl,
    LetDecl,
    ConstDecl,
    Nothing,
}

impl Default for ScopeKind {
    fn default() -> (kind: Self)
        ensures
            kind is Nothing,
    {
        ScopeKind::Nothing
    }
}

/// The contents of a context used to collect declared names.
pub struct DeclContents {
    const_names: NameSet,
    let_names: NameSet,
    var_names: NameSet,
    scope_kind: ScopeKind,
    uses_strict: bool,
}

/// What a [`DeclContents`] holds.
#[verifier::ext_equal]
pub struct DeclView {
    pub const_names: Set<Seq<char>>,
    pub let_names: Set<Seq<char>>,
    pub var_names: Set<Seq<char>>,
    pub scope_kind: ScopeKind,
    pub uses_strict: bool,
}

impl View for DeclContents {
    type V = DeclView;

    closed spec fn view(&self) -> DeclView {
        DeclView {
            const_names: self.const_names@,
            let_names: self.let_names@,
            var_names: self.var_names@,
            scope_kind: self.scope_kind,
            uses_strict: self.uses_strict,
        }
    }
}

/// Nothing collected, no scope kind, not strict.
pub open spec fn empty_decls() -> DeclView {
    DeclView {
        const_names: Set::empty(),
        let_names: Set::empty(),
        var_names: Set::empty(),
        scope_kind: ScopeKind::Nothing,
        uses_strict: false,
    }
}

/// What a context `parent` holds once a context `child` entered from it is
/// left: every name declared in the child is declared in the parent.
pub open spec fn decl_exit_view(parent: DeclView, child: DeclView) -> DeclView {
    DeclView {
        const_names: parent.const_names.union(child.const_names),
        let_names: parent.let_names.union(child.let_names),
        var_names: parent.var_names.union(child.var_names),
        ..parent
    }
}

/// The scope kind of the first context of `chain` that has one.
pub open spec fn first_scope_kind(chain: Seq<ContextContents<DeclContents>>) -> ScopeKind
    decreases chain.len(),
{
    if chain.len() == 0 {
        ScopeKind::Nothing
    } else if !(chain[0].data_spec()@.scope_kind is Nothing) {
        chain[0].data_spec()@.scope_kind
    } else {
        first_scope_kind(chain.drop_first())
    }
}

impl Default for DeclContents {
    fn default() -> (contents: Self)
        ensures
            contents@ == empty_decls(),
    {
        DeclContents {
            const_names: NameSet::new(),
            let_names: NameSet::new(),
            var_names: NameSet::new(),
            scope_kind: ScopeKind::default(),
            uses_strict: false,
        }
    }
}

impl DeclContents {
    /// The names declared with `var`.
    pub fn var_names(&self) -> (names: &NameSet)
        ensures
            names@ == self@.var_names,
    {
        &self.var_names
    }

    /// The names declared with `let`.
    pub fn let_names(&self) -> (names: &NameSet)
        ensures
            names@ == self@.let_names,
    {
        &self.let_names
    }

    /// The names declared with `const`.
    pub fn const_names(&self) -> (names: &NameSet)
        ensures
            names@ == self@.const_names,
    {
        &self.const_names
    }
}

impl ContextContents<DeclContents> {
    /// Whether strict mode holds here or in a context this one was entered from.
    pub fn uses_strict(&self) -> (strict: bool)
        ensures
            strict == strict_in(*self),
        decreases self,
    {
        let ghost marked = |c: ContextContents<DeclContents>| c.data_spec()@.uses_strict;
        proof {
            self.lemma_any_marked(marked);
        }
        if self.data.uses_strict {
            return true;
        }
        match &self.parent {
            Some(parent) => parent.uses_strict(),
            None => false,
        }
    }

    /// Sets whether strict mode holds here.
    pub fn set_uses_strict(&mut self, value: bool)
        ensures
            final(self).same_but_data(*old(self)),
            final(self).data_spec()@ == (DeclView { uses_strict: value, ..old(self).data_spec()@ }),
    {
        self.data.uses_strict = value
    }

    /// Whether `name` is declared with `let` or `const` here or in a context
    /// this one was entered from.
    pub fn is_lex_bound(&self, name: &str) -> (bound: bool)
        ensures
            bound == lex_bound_in(*self, name@),
        decreases self,
    {
        let ghost marked = |c: ContextContents<DeclContents>|
            c.data_spec()@.let_names.contains(name@) || c.data_spec()@.const_names.contains(name@);
        proof {
            self.lemma_any_marked(marked);
        }
        if self.data.let_names.contains(name) {
            return true;
        }
        if self.data.const_names.contains(name) {
            return true;
        }
        match &self.parent {
            Some(parent) => parent.is_lex_bound(name),
            None => false,
        }
    }

    /// The scope kind of the nearest context, this one included, that has one.
    pub fn scope_kind(&self) -> (kind: ScopeKind)
        ensures
            kind == first_scope_kind(self.chain()),
        decreases self,
    {
        proof {
            self.lemma_chain();
        }
        if let ScopeKind::Nothing = self.data.scope_kind {
            if let Some(parent) = &self.parent {
                return parent.scope_kind();
            }
            assert(first_scope_kind(self.chain().drop_first()) == ScopeKind::Nothing);
            return ScopeKind::Nothing;
        }
        self.data.scope_kind
    }

    /// Records `name` as declared with `var`.
    pub fn add_var_name(&mut self, name: &str)
        ensures
            final(self).same_but_data(*old(self)),
            final(self).data_spec()@ == (DeclView {
                var_names: old(self).data_spec()@.var_names.insert(name@),
                ..old(self).data_spec()@
            }),
    {
        self.data.var_names.insert(name.to_owned());
    }

    /// Records `name` as declared with `let`.
    pub fn add_let_name(&mut self, name: &str)
        ensures
            final(self).same_but_data(*old(self)),
            final(self).data_spec()@ == (DeclView {
                let_names: old(self).data_spec()@.let_names.insert(name@),
                ..old(self).data_spec()@
            }),
    {
        self.data.let_names.insert(name.to_owned());
    }

    /// Records `name` as declared with `const`.
    pub fn add_const_name(&mut self, name: &str)
        ensures
            final(self).same_but_data(*old(self)),
            final(self).data_spec()@ == (DeclView {
                const_names: old(self).data_spec()@.const_names.insert(name@),
                ..old(self).data_spec()@
            }),
    {
        self.data.const_names.insert(name.to_owned());
    }

    /// Hands the names declared here to the parent: see [`decl_exit_view`].
    /// The names declared here are cleared. Without a parent, nothing changes.
    pub fn dispose(&mut self)
        ensures
            old(self).parent_spec() is None ==> *final(self) == *old(self),
            old(self).parent_spec() matches Some(p) ==> {
                &&& final(self).same_place(*old(self))
                &&& final(self).parent_spec() is Some
                &&& final(self).parent_spec()->Some_0.same_but_data(p)
                &&& final(self).parent_spec()->Some_0.data_spec()@ == decl_exit_view(
                    p.data_spec()@,
                    old(self).data_spec()@,
                )
                &&& final(self).data_spec()@ == (DeclView {
                    const_names: Set::empty(),
                    let_names: Set::empty(),
                    var_names: Set::empty(),
                    ..old(self).data_spec()@
                })
            },
    {
        match self.parent.take() {
            None => {},
            Some(boxed) => {
                let mut parent: ContextContents<DeclContents> = *boxed;
                parent.data.var_names.extend(&self.data.var_names);
                parent.data.let_names.extend(&self.data.let_names);
                parent.data.const_names.extend(&self.data.const_names);
                self.data.var_names.clear();
                self.data.let_names.clear();
                self.data.const_names.clear();
                self.parent = Some(Box::new(parent));
            },
        }
    }
}

/// Whether `parent` holds, in its field "BINJS:Scope", the scope information
/// of `data`: an object of type "BINJS:Scope" whose declared-name fields list
/// the names of `data`, each kind in increasing order.
pub open spec fn decl_scope_stored(parent: Map<Seq<char>, JsonValue>, data: DeclView) -> bool {
    &&& parent.contains_key(SCOPE_NAME@)
    &&& parent[SCOPE_NAME@] is Object
    &&& ({
        let scope = object_of(parent[SCOPE_NAME@]);
        &&& scope.dom() == set![TYPE_NAME@, BINJS_VAR_NAME@, BINJS_LET_NAME@, BINJS_CONST_NAME@]
        &&& text_of(scope[TYPE_NAME@]) == Some(SCOPE_NAME@)
        &&& is_sorted_names(scope[BINJS_VAR_NAME@], data.var_names)
        &&& is_sorted_names(scope[BINJS_LET_NAME@], data.let_names)
        &&& is_sorted_names(scope[BINJS_CONST_NAME@], data.const_names)
    })
}

impl<'a> Context<'a, DeclContents> {
    /// Records `name` as declared with `var`.
    pub fn add_var_name(&mut self, name: &str)
        ensures
            final(self).syntax() == old(self).syntax(),
            final(self).frame().same_but_data(old(self).frame()),
            final(self).frame().data_spec()@ == (DeclView {
                var_names: old(self).frame().data_spec()@.var_names.insert(name@),
                ..old(self).frame().data_spec()@
            }),
    {
        self.contents.add_var_name(name)
    }

    /// Records `name` as declared with `let`.
    pub fn add_let_name(&mut self, name: &str)
        ensures
            final(self).syntax() == old(self).syntax(),
            final(self).frame().same_but_data(old(self).frame()),
            final(self).frame().data_spec()@ == (DeclView {
                let_names: old(self).frame().data_spec()@.let_names.insert(name@),
                ..old(self).frame().data_spec()@
            }),
    {
        self.contents.add_let_name(name);
    }

    /// Records `name` as declared with `const`.
    pub fn add_const_name(&mut self, name: &str)
        ensures
            final(self).syntax() == old(self).syntax(),
            final(self).frame().same_but_data(old(self).frame()),
            final(self).frame().data_spec()@ == (DeclView {
                const_names: old(self).frame().data_spec()@.const_names.insert(name@),
                ..old(self).frame().data_spec()@
            }),
    {
        self.contents.add_const_name(name);
    }

    /// Check whether the name is lexically bound somewhere on the stack.
    pub fn is_lex_bound(&self, name: &str) -> (bound: bool)
        ensures
            bound == lex_bound_in(self.frame(), name@),
    {
        self.contents.is_lex_bound(name)
    }

    /// The scope kind of the nearest context that has one.
    pub fn scope_kind(&self) -> (kind: ScopeKind)
        ensures
            kind == first_scope_kind(self.frame().chain()),
    {
        self.contents.scope_kind()
    }

    /// Sets the scope kind of the innermost context.
    pub fn set_scope_kind(&mut self, kind: ScopeKind)
        ensures
            final(self).syntax() == old(self).syntax(),
            final(self).frame().same_but_data(old(self).frame()),
            final(self).frame().data_spec()@ == (DeclView {
                scope_kind: kind,
                ..old(self).frame().data_spec()@
            }),
    {
        self.contents.data.scope_kind = kind
    }

    /// Forgets the names declared with `var` in the innermost context.
    pub fn clear_var_names(&mut self)
        ensures
            final(self).syntax() == old(self).syntax(),
            final(self).frame().same_but_data(old(self).frame()),
            final(self).frame().data_spec()@ == (DeclView {
                var_names: Set::empty(),
                ..old(self).frame().data_spec()@
            }),
    {
        self.contents.data.var_names.clear();
    }

    /// Forgets the names declared with `let` or `const` in the innermost context.
    pub fn clear_lex_names(&mut self)
        ensures
            final(self).syntax() == old(self).syntax(),
            final(self).frame().same_but_data(old(self).frame()),
            final(self).frame().data_spec()@ == (DeclView {
                let_names: Set::empty(),
                const_names: Set::empty(),
                ..old(self).frame().data_spec()@
            }),
    {
        self.contents.data.let_names.clear();
        self.contents.data.const_names.clear();
    }

    /// Whether strict mode holds somewhere on the stack.
    pub fn uses_strict(&self) -> (strict: bool)
        ensures
            strict == strict_in(self.frame()),
    {
        self.contents.uses_strict()
    }

    /// Sets whether strict mode holds in the innermost context.
    pub fn set_uses_strict(&mut self, value: bool)
        ensures
            final(self).syntax() == old(self).syntax(),
            final(self).frame().same_but_data(old(self).frame()),
            final(self).frame().data_spec()@ == (DeclView {
                uses_strict: value,
                ..old(self).frame().data_spec()@
            }),
    {
        self.contents.set_uses_strict(value)
    }

    /// Leaves the innermost context, handing the names it declares to its
    /// parent: see [`decl_exit_view`]. At the root, nothing changes.
    pub fn exit(&mut self)
        ensures
            final(self).syntax() == old(self).syntax(),
            old(self).frame().parent_spec() is None ==> final(self).frame() == old(self).frame(),
            old(self).frame().parent_spec() matches Some(p) ==> {
                &&& final(self).frame().same_but_data(p)
                &&& final(self).frame().data_spec()@ == decl_exit_view(
                    p.data_spec()@,
                    old(self).frame().data_spec()@,
                )
            },
    {
        if self.contents.parent.is_none() {
            return;
        }
        self.contents.dispose();
        let parent = self.contents.parent.take().unwrap();
        self.contents = *parent;
    }

    /// Store scope information in a field "BINJS:Scope" of the node: the
    /// names declared here, each kind in increasing order.
    ///
    /// The node must not have that field yet.
    pub fn store(&self, parent: &mut JsonObject)
        requires
            !old(parent)@.contains_key(SCOPE_NAME@),
        ensures
            final(parent)@.remove(SCOPE_NAME@) == old(parent)@,
            decl_scope_stored(final(parent)@, self.frame().data_spec()@),
    {
        proof {
            lemma_field_names_distinct();
        }
        let var_decl_names = self.contents.data.var_names.sorted();
        let let_decl_names = self.contents.data.let_names.sorted();
        let const_decl_names = self.contents.data.const_names.sorted();
        let mut object = JsonObject::new();
        object.insert(TYPE_NAME.to_owned(), JsonValue::Str(SCOPE_NAME.to_owned()));
        object.insert(BINJS_VAR_NAME.to_owned(), string_array(var_decl_names));
        object.insert(BINJS_LET_NAME.to_owned(), string_array(let_decl_names));
        object.insert(BINJS_CONST_NAME.to_owned(), string_array(const_decl_names));
        let ghost scope = object@;
        parent.insert(SCOPE_NAME.to_owned(), JsonValue::Object(object));
        proof {
            assert(parent@.remove(SCOPE_NAME@) =~= old(parent)@);
            assert(object_of(parent@[SCOPE_NAME@]) == scope);
            assert(scope.dom() =~= set![
                TYPE_NAME@,
                BINJS_VAR_NAME@,
                BINJS_LET_NAME@,
                BINJS_CONST_NAME@,
            ]);
        }
    }
}

/// What the declaration pass stores is what the reference pass loads: once
/// the scope information of a context has been stored in a node, it can be
/// loaded, and the names it gives are exactly the names declared there.
pub proof fn lemma_store_then_load(parent: Map<Seq<char>, JsonValue>, data: DeclView)
    requires
        decl_scope_stored(parent, data),
    ensures
        loadable_scope(parent),
        declared_in_scope(parent) == data.var_names.union(data.let_names).union(data.const_names),
{
    lemma_field_names_distinct();
    let scope = object_of(parent[SCOPE_NAME@]);
    assert(scope.dom().contains(BINJS_VAR_NAME@));
    assert(scope.dom().contains(BINJS_LET_NAME@));
    assert(scope.dom().contains(BINJS_CONST_NAME@));
}

/// Leaving a context never adds to the names bound in its parent, keeps
/// every name already free or captured in the parent, and keeps a direct
/// `eval` once seen.
pub proof fn lemma_exit_refs(parent: RefView, child: RefView, function_toplevel: bool)
    ensures
        ref_exit_view(parent, child, function_toplevel).binding == parent.binding,
        parent.free.subset_of(ref_exit_view(parent, child, function_toplevel).free),
        parent.free_in_nested_function.subset_of(
            ref_exit_view(parent, child, function_toplevel).free_in_nested_function,
        ),
        child.has_direct_eval ==> ref_exit_view(parent, child, function_toplevel).has_direct_eval,
{
}

/// Leaving a context, name by name: a name is captured by a nested function
/// in the parent when it was captured there already, or when the child
/// captured it (or, at a function boundary, used it freely) without binding
/// it; a name is free in the parent when it was free there already, or when
/// the child, not at a function boundary, used it freely without binding it.
pub proof fn lemma_exit_refs_names(
    parent: RefView,
    child: RefView,
    function_toplevel: bool,
    name: Seq<char>,
)
    ensures
        ref_exit_view(parent, child, function_toplevel).free_in_nested_function.contains(name)
            <==> (parent.free_in_nested_function.contains(name) || (!child.binding.contains(name)
            && (child.free_in_nested_function.contains(name) || (function_toplevel
            && child.free.contains(name))))),
        ref_exit_view(parent, child, function_toplevel).free.contains(name) <==> (
        parent.free.contains(name) || (!function_toplevel && child.free.contains(name)
            && !child.binding.contains(name))),
        ref_exit_view(parent, child, function_toplevel).binding.contains(name)
            <==> parent.binding.contains(name),
        ref_exit_view(parent, child, function_toplevel).has_direct_eval <==> (
        parent.has_direct_eval || child.has_direct_eval),
{
}

/// Names bound in a context are not free above it: a name free in the child
/// and bound there does not become free or captured in the parent.
pub proof fn lemma_exit_bound_names_stay(
    parent: RefView,
    child: RefView,
    function_toplevel: bool,
    name: Seq<char>,
)
    requires
        child.binding.contains(name),
    ensures
        ref_exit_view(parent, child, function_toplevel).free.contains(name) == parent.free.contains(
            name,
        ),
        ref_exit_view(parent, child, function_toplevel).free_in_nested_function.contains(name)
            == parent.free_in_nested_function.contains(name),
{
}

/// Crossing a function boundary: when the child is the top level of a
/// function, the parent gains no free names, and each name free in the child
/// but not bound there becomes a name captured by a nested function.
pub proof fn lemma_exit_function(parent: RefView, child: RefView, name: Seq<char>)
    ensures
        ref_exit_view(parent, child, true).free == parent.free,
        child.free.contains(name) && !child.binding.contains(name) ==> ref_exit_view(
            parent,
            child,
            true,
        ).free_in_nested_function.contains(name),
{
    assert(ref_exit_view(parent, child, true).free =~= parent.free);
}

/// Leaving a context that collected nothing leaves its parent as it was.
pub proof fn lemma_exit_empty(refs: RefView, decls: DeclView)
    ensures
        ref_exit_view(refs, empty_refs(), false) == refs,
        decl_exit_view(decls, empty_decls()) == decls,
{
    assert(ref_exit_view(refs, empty_refs(), false) =~= refs);
    assert(decl_exit_view(decls, empty_decls()) =~= decls);
}

/// Leaving a context propagates every declared name to the parent, and
/// loses none of the parent's.
pub proof fn lemma_exit_decls(parent: DeclView, child: DeclView)
    ensures
        child.var_names.subset_of(decl_exit_view(parent, child).var_names),
        child.let_names.subset_of(decl_exit_view(parent, child).let_names),
        child.const_names.subset_of(decl_exit_view(parent, child).const_names),
        parent.var_names.subset_of(decl_exit_view(parent, child).var_names),
        parent.let_names.subset_of(decl_exit_view(parent, child).let_names),
        parent.const_names.subset_of(decl_exit_view(parent, child).const_names),
        decl_exit_view(parent, child).scope_kind == parent.scope_kind,
        decl_exit_view(parent, child).uses_strict == parent.uses_strict,
{
}

/// Leaving a context, name by name: a name is declared in the parent with
/// `var`, `let` or `const` exactly when it was declared so in the parent or
/// in the child; the parent's scope kind and strict mode stay.
pub proof fn lemma_exit_decls_names(parent: DeclView, child: DeclView, name: Seq<char>)
    ensures
        decl_exit_view(parent, child).var_names.contains(name) <==> (parent.var_names.contains(
            name,
        ) || child.var_names.contains(name)),
        decl_exit_view(parent, child).let_names.contains(name) <==> (parent.let_names.contains(
            name,
        ) || child.let_names.contains(name)),
        decl_exit_view(parent, child).const_names.contains(name) <==> (
        parent.const_names.contains(name) || child.const_names.contains(name)),
        decl_exit_view(parent, child).scope_kind == parent.scope_kind,
        decl_exit_view(parent, child).uses_strict == parent.uses_strict,
{
}

/// A context just entered shares the scopes of the context it was entered
/// from, until it is itself marked as one.
pub proof fn lemma_scope_inherited<T>(
    child: ContextContents<T>,
    parent: ContextContents<T>,
    position: (Seq<char>, Option<Seq<char>>),
    found: Option<ContextContents<T>>,
)
    requires
        child.entered_from(parent, position),
    ensures
        first_marked(parent.chain(), |c: ContextContents<T>| c.is_lex_scope_spec(), found)
            ==> first_marked(child.chain(), |c: ContextContents<T>| c.is_lex_scope_spec(), found),
        first_marked(parent.chain(), |c: ContextContents<T>| c.is_var_scope_spec(), found)
            ==> first_marked(child.chain(), |c: ContextContents<T>| c.is_var_scope_spec(), found),
        first_marked(parent.chain(), |c: ContextContents<T>| c.is_function_toplevel_spec(), found)
            ==> first_marked(
            child.chain(),
            |c: ContextContents<T>| c.is_function_toplevel_spec(),
            found,
        ),
{
    child.lemma_first_marked(|c: ContextContents<T>| c.is_lex_scope_spec(), found);
    child.lemma_first_marked(|c: ContextContents<T>| c.is_var_scope_spec(), found);
    child.lemma_first_marked(|c: ContextContents<T>| c.is_function_toplevel_spec(), found);
}

/// A context marked as a scope is its own scope.
pub proof fn lemma_scope_here<T>(contents: ContextContents<T>)
    ensures
        contents.is_lex_scope_spec() ==> first_marked(
            contents.chain(),
            |c: ContextContents<T>| c.is_lex_scope_spec(),
            Some(contents),
        ),
        contents.is_var_scope_spec() ==> first_marked(
            contents.chain(),
            |c: ContextContents<T>| c.is_var_scope_spec(),
            Some(contents),
        ),
        contents.is_function_toplevel_spec() ==> first_marked(
            contents.chain(),
            |c: ContextContents<T>| c.is_function_toplevel_spec(),
            Some(contents),
        ),
{
    contents.lemma_first_marked(|c: ContextContents<T>| c.is_lex_scope_spec(), None);
    contents.lemma_first_marked(|c: ContextContents<T>| c.is_var_scope_spec(), None);
    contents.lemma_first_marked(|c: ContextContents<T>| c.is_function_toplevel_spec(), None);
}

/// Entering a context goes one level deeper; leaving it comes back to the
/// depth of the context it was entered from.
pub proof fn lemma_enter_exit_depth<T>(
    parent: ContextContents<T>,
    child: ContextContents<T>,
    position: (Seq<char>, Option<Seq<char>>),
    after: ContextContents<T>,
)
    requires
        child.entered_from(parent, position),
        after.same_but_data(parent),
    ensures
        child.depth() == parent.depth() + 1,
        after.depth() == parent.depth(),
{
    child.lemma_depth(child);
    after.lemma_depth(parent);
}

/// A context changed in place keeps the contexts above it: a mark holds on
/// its chain when it holds of the changed context or above the context as
/// it was.
pub proof fn lemma_any_marked_updated<T>(
    before: ContextContents<T>,
    after: ContextContents<T>,
    marked: spec_fn(ContextContents<T>) -> bool,
)
    requires
        after.same_but_data(before),
    ensures
        any_marked(after.chain(), marked) == (marked(after) || any_marked(
            before.chain().drop_first(),
            marked,
        )),
{
    after.lemma_any_marked(marked);
    before.lemma_chain();
    after.lemma_chain();
    assert(after.chain().drop_first() =~= before.chain().drop_first());
}

/// A context just entered sees every mark that holds on the chain of the
/// context it was entered from.
pub proof fn lemma_any_marked_entered<T>(
    child: ContextContents<T>,
    parent: ContextContents<T>,
    position: (Seq<char>, Option<Seq<char>>),
    marked: spec_fn(ContextContents<T>) -> bool,
)
    requires
        child.entered_from(parent, position),
    ensures
        any_marked(child.chain(), marked) == (marked(child) || any_marked(parent.chain(), marked)),
{
    child.lemma_any_marked(marked);
}

/// A name declared with `let` or `const` in a context is lexically bound there.
pub proof fn lemma_lex_declared_is_lex_bound(c: ContextContents<DeclContents>, name: Seq<char>)
    requires
        c.data_spec()@.let_names.contains(name) || c.data_spec()@.const_names.contains(name),
    ensures
        lex_bound_in(c, name),
{
    c.lemma_chain();
    let marked = |x: ContextContents<DeclContents>|
        x.data_spec()@.let_names.contains(name) || x.data_spec()@.const_names.contains(name);
    assert(marked(c.chain()[0]));
}

/// Changing a context without touching its `let` and `const` names (adding a
/// `var` name, say) leaves every name as lexically bound as it was.
pub proof fn lemma_var_names_leave_lex_bound(
    before: ContextContents<DeclContents>,
    after: ContextContents<DeclContents>,
    name: Seq<char>,
)
    requires
        after.same_but_data(before),
        after.data_spec()@.let_names == before.data_spec()@.let_names,
        after.data_spec()@.const_names == before.data_spec()@.const_names,
    ensures
        lex_bound_in(after, name) == lex_bound_in(before, name),
{
    let marked = |x: ContextContents<DeclContents>|
        x.data_spec()@.let_names.contains(name) || x.data_spec()@.const_names.contains(name);
    lemma_any_marked_updated(before, after, marked);
    before.lemma_any_marked(marked);
}

/// A name declared with `let` or `const` in the nearest lexical scope of a
/// context is lexically bound in that context.
pub proof fn lemma_scope_declared_is_lex_bound(c: ContextContents<DeclContents>, name: Seq<char>)
    requires
        c.scope_of(ScopeMark::Lex) matches Some(s) && (s.data_spec()@.let_names.contains(name)
            || s.data_spec()@.const_names.contains(name)),
    ensures
        lex_bound_in(c, name),
{
    c.lemma_scope_of(ScopeMark::Lex);
    let s = c.scope_of(ScopeMark::Lex)->Some_0;
    let i = choose|i: int|
        0 <= i < c.chain().len() && #[trigger] c.chain()[i] == s && (|x: ContextContents<
            DeclContents,
        >| x.has_mark(ScopeMark::Lex))(c.chain()[i]) && forall|j: int|
            0 <= j < i ==> !(|x: ContextContents<DeclContents>| x.has_mark(ScopeMark::Lex))(
                #[trigger] c.chain()[j],
            );
    let marked = |x: ContextContents<DeclContents>|
        x.data_spec()@.let_names.contains(name) || x.data_spec()@.const_names.contains(name);
    assert(marked(c.chain()[i]));
}

/// A name bound in the nearest scope of a context that carries `mark` is
/// bound in that context.
pub proof fn lemma_scope_binding_is_bound(
    c: ContextContents<RefContents>,
    mark: ScopeMark,
    name: Seq<char>,
)
    requires
        c.scope_of(mark) matches Some(s) && s.data_spec()@.binding.contains(name),
    ensures
        bound_in(c, name),
{
    c.lemma_scope_of(mark);
    let s = c.scope_of(mark)->Some_0;
    let i = choose|i: int|
        0 <= i < c.chain().len() && #[trigger] c.chain()[i] == s && (|x: ContextContents<
            RefContents,
        >| x.has_mark(mark))(c.chain()[i]) && forall|j: int|
            0 <= j < i ==> !(|x: ContextContents<RefContents>| x.has_mark(mark))(
                #[trigger] c.chain()[j],
            );
    let marked = |x: ContextContents<RefContents>| x.data_spec()@.binding.contains(name);
    assert(marked(c.chain()[i]));
}

/// A name bound in a context is bound there.
pub proof fn lemma_binding_is_bound(c: ContextContents<RefContents>, name: Seq<char>)
    requires
        c.data_spec()@.binding.contains(name),
    ensures
        bound_in(c, name),
{
    c.lemma_chain();
    let marked = |x: ContextContents<RefContents>| x.data_spec()@.binding.contains(name);
    assert(marked(c.chain()[0]));
}

/// Changing a context without touching its bindings (adding a free name,
/// say) leaves every name as bound as it was.
pub proof fn lemma_free_names_leave_bound(
    before: ContextContents<RefContents>,
    after: ContextContents<RefContents>,
    name: Seq<char>,
)
    requires
        after.same_but_data(before),
        after.data_spec()@.binding == before.data_spec()@.binding,
    ensures
        bound_in(after, name) == bound_in(before, name),
{
    let marked = |x: ContextContents<RefContents>| x.data_spec()@.binding.contains(name);
    lemma_any_marked_updated(before, after, marked);
    before.lemma_any_marked(marked);
}

/// A name bound in a context is bound in every context entered from it.
pub proof fn lemma_bound_seen_from_child(
    child: ContextContents<RefContents>,
    parent: ContextContents<RefContents>,
    position: (Seq<char>, Option<Seq<char>>),
    name: Seq<char>,
)
    requires
        child.entered_from(parent, position),
        bound_in(parent, name),
    ensures
        bound_in(child, name),
{
    let marked = |x: ContextContents<RefContents>| x.data_spec()@.binding.contains(name);
    lemma_any_marked_entered(child, parent, position, marked);
}

/// Strict mode that holds above a context cannot be turned off from it:
/// whatever the context itself says, it is strict when a context it was
/// entered from is.
pub proof fn lemma_strict_from_above(
    before: ContextContents<DeclContents>,
    after: ContextContents<DeclContents>,
)
    requires
        after.same_but_data(before),
        any_marked(
            before.chain().drop_first(),
            |x: ContextContents<DeclContents>| x.data_spec()@.uses_strict,
        ),
    ensures
        strict_in(after),
{
    lemma_any_marked_updated(
        before,
        after,
        |x: ContextContents<DeclContents>| x.data_spec()@.uses_strict,
    );
}

/// The scope kind at the start of `chain` is that of its first context that
/// has one, or `Nothing` when none has.
pub proof fn lemma_first_scope_kind(chain: Seq<ContextContents<DeclContents>>)
    ensures
        (first_scope_kind(chain) is Nothing) <==> forall|j: int|
            0 <= j < chain.len() ==> (#[trigger] chain[j]).data_spec()@.scope_kind is Nothing,
        !(first_scope_kind(chain) is Nothing) ==> exists|i: int|
            0 <= i < chain.len() && (#[trigger] chain[i]).data_spec()@.scope_kind
                == first_scope_kind(chain) && forall|j: int|
                0 <= j < i ==> (#[trigger] chain[j]).data_spec()@.scope_kind is Nothing,
    decreases chain.len(),
{
    if chain.len() > 0 {
        let rest = chain.drop_first();
        lemma_first_scope_kind(rest);
        if chain[0].data_spec()@.scope_kind is Nothing {
            assert forall|j: int| 0 < j < chain.len() implies #[trigger] chain[j] == rest[j - 1] by {}
            if !(first_scope_kind(chain) is Nothing) {
                let i = choose|i: int|
                    0 <= i < rest.len() && (#[trigger] rest[i]).data_spec()@.scope_kind
                        == first_scope_kind(rest) && forall|j: int|
                        0 <= j < i ==> (#[trigger] rest[j]).data_spec()@.scope_kind is Nothing;
                assert(chain[i + 1] == rest[i]);
                assert forall|j: int| 0 <= j < i + 1 implies (
                #[trigger] chain[j]).data_spec()@.scope_kind is Nothing by {
                    if j > 0 {
                        assert(chain[j] == rest[j - 1]);
                    }
                }
            } else {
                assert forall|j: int| 0 <= j < chain.len() implies (
                #[trigger] chain[j]).data_spec()@.scope_kind is Nothing by {
                    if j > 0 {
                        assert(chain[j] == rest[j - 1]);
                    }
                }
            }
        } else {
            assert(chain[0].data_spec()@.scope_kind == first_scope_kind(chain));
        }
    }
}

/// A context without a scope kind of its own has the scope kind of the
/// context it was entered from; one with a kind has its own.
pub proof fn lemma_scope_kind_inherited(c: ContextContents<DeclContents>)
    ensures
        !(c.data_spec()@.scope_kind is Nothing) ==> first_scope_kind(c.chain())
            == c.data_spec()@.scope_kind,
        c.data_spec()@.scope_kind is Nothing ==> match c.parent_spec() {
            Some(p) => first_scope_kind(c.chain()) == first_scope_kind(p.chain()),
            None => first_scope_kind(c.chain()) is Nothing,
        },
{
    c.lemma_chain();
    assert(c.chain()[0] == c);
    assert(c.chain().len() > 0);
    if let Some(p) = c.parent_spec() {
        assert(c.chain().drop_first() == p.chain());
    } else {
        assert(c.chain().drop_first().len() == 0);
        assert(first_scope_kind(c.chain().drop_first()) is Nothing);
    }
}

/// Strict mode holds at a context exactly when some context on its chain,
/// this one or one it was entered from, set it: it holds here when set here
/// or when it holds at the parent.
pub proof fn lemma_strict_anywhere(c: ContextContents<DeclContents>)
    ensures
        strict_in(c) <==> exists|i: int|
            0 <= i < c.chain().len() && (#[trigger] c.chain()[i]).data_spec()@.uses_strict,
        strict_in(c) <==> (c.data_spec()@.uses_strict || match c.parent_spec() {
            Some(p) => strict_in(p),
            None => false,
        }),
{
    let marked = |x: ContextContents<DeclContents>| x.data_spec()@.uses_strict;
    c.lemma_any_marked(marked);
    if exists|i: int| 0 <= i < c.chain().len() && (#[trigger] c.chain()[i]).data_spec()@.uses_strict {
        let i = choose|i: int|
            0 <= i < c.chain().len() && (#[trigger] c.chain()[i]).data_spec()@.uses_strict;
        assert(marked(c.chain()[i]));
    }
    c.lemma_chain();
    if c.parent_spec() is None {
        assert(!any_marked(c.chain().drop_first(), marked));
    }
}

/// A name is lexically bound at a context exactly when some context on its
/// chain declares it with `let` or `const`, whatever marks the contexts
/// carry: it is bound here when declared here or bound at the parent.
pub proof fn lemma_lex_bound_anywhere(c: ContextContents<DeclContents>, name: Seq<char>)
    ensures
        lex_bound_in(c, name) <==> exists|i: int|
            0 <= i < c.chain().len() && ((#[trigger] c.chain()[i]).data_spec()@.let_names.contains(
                name,
            ) || c.chain()[i].data_spec()@.const_names.contains(name)),
        lex_bound_in(c, name) <==> (c.data_spec()@.let_names.contains(name)
            || c.data_spec()@.const_names.contains(name) || match c.parent_spec() {
            Some(p) => lex_bound_in(p, name),
            None => false,
        }),
{
    let marked = |x: ContextContents<DeclContents>|
        x.data_spec()@.let_names.contains(name) || x.data_spec()@.const_names.contains(name);
    c.lemma_any_marked(marked);
    if exists|i: int|
        0 <= i < c.chain().len() && ((#[trigger] c.chain()[i]).data_spec()@.let_names.contains(name)
            || c.chain()[i].data_spec()@.const_names.contains(name)) {
        let i = choose|i: int|
            0 <= i < c.chain().len() && ((#[trigger] c.chain()[i]).data_spec()@.let_names.contains(
                name,
            ) || c.chain()[i].data_spec()@.const_names.contains(name));
        assert(marked(c.chain()[i]));
    }
    c.lemma_chain();
    if c.parent_spec() is None {
        assert(!any_marked(c.chain().drop_first(), marked));
    }
}

/// A name is bound at a context in the reference pass exactly when some
/// context on its chain binds it, whatever marks the contexts carry: it is
/// bound here when bound here or bound at the parent.
pub proof fn lemma_bound_anywhere(c: ContextContents<RefContents>, name: Seq<char>)
    ensures
        bound_in(c, name) <==> exists|i: int|
            0 <= i < c.chain().len() && (#[trigger] c.chain()[i]).data_spec()@.binding.contains(
                name,
            ),
        bound_in(c, name) <==> (c.data_spec()@.binding.contains(name) || match c.parent_spec() {
            Some(p) => bound_in(p, name),
            None => false,
        }),
{
    let marked = |x: ContextContents<RefContents>| x.data_spec()@.binding.contains(name);
    c.lemma_any_marked(marked);
    if exists|i: int|
        0 <= i < c.chain().len() && (#[trigger] c.chain()[i]).data_spec()@.binding.contains(name) {
        let i = choose|i: int|
            0 <= i < c.chain().len() && (#[trigger] c.chain()[i]).data_spec()@.binding.contains(
                name,
            );
        assert(marked(c.chain()[i]));
    }
    c.lemma_chain();
    if c.parent_spec() is None {
        assert(!any_marked(c.chain().drop_first(), marked));
    }
}

/// The message of a missing field `key`.
pub open spec fn field_message(key: Seq<char>) -> Seq<char> {
    "Field `"@ + key + "`"@
}

/// The message of a missing field `key`.
fn missing_field_message(key: &str) -> (message: String)
    ensures
        message@ == field_message(key@),
{
    let mut message = "Field `".to_owned();
    message.append(key);
    message.append("`");
    message
}

/// A pass over a tree that annotates it.
pub trait Annotator {
    /// The name of the pass.
    fn name(&self) -> String;

    /// Processes an object in its own context.
    ///
    /// At the end of this pass:
    /// - LexicallyDeclaredNames is correct;
    /// - VarDeclaredNames is correct;
    ///
    /// It leaves as many contexts open as it found.
    fn process_declarations(
        &self,
        ctx: &mut Context<DeclContents>,
        object: &mut JsonObject,
    ) -> (res: Result<(), ASTError>)
        ensures
            final(ctx).syntax() == old(ctx).syntax(),
            final(ctx).depth() == old(ctx).depth(),
            self.declarations_pass(
                old(ctx).syntax(),
                old(ctx).frame(),
                *old(object),
                final(ctx).frame(),
                *final(object),
                res,
            ),
    ;

    /// What [`Annotator::process_declarations`] does to one object, as the
    /// implementation has it: a relation between the grammar, the innermost
    /// context and the object before the call, the same after it, and the
    /// result. By default it relates any of them; an implementation that
    /// states more gives its own.
    closed spec fn declarations_pass(
        &self,
        syntax: Syntax,
        before: ContextContents<DeclContents>,
        object: JsonObject,
        after: ContextContents<DeclContents>,
        object_after: JsonObject,
        res: Result<(), ASTError>,
    ) -> bool {
        true
    }

    /// Processes an object in its own context.
    ///
    /// At the START of this pass:
    /// - LexicallyDeclaredNames MUST BE correct;
    /// - VarDeclaredNames MUST BE correct;
    ///
    /// At the END of this pass:
    /// - LexicallyDeclaredNames is correct;
    /// - VarDeclaredNames is correct;
    /// - CapturedNames is correct;
    /// - HasDirectEval is correct;
    ///
    /// It leaves as many contexts open as it found.
    fn process_references(
        &self,
        ctx: &mut Context<RefContents>,
        object: &mut JsonObject,
    ) -> (res: Result<(), ASTError>)
        ensures
            final(ctx).syntax() == old(ctx).syntax(),
            final(ctx).depth() == old(ctx).depth(),
            self.references_pass(
                old(ctx).syntax(),
                old(ctx).frame(),
                *old(object),
                final(ctx).frame(),
                *final(object),
                res,
            ),
    ;

    /// What [`Annotator::process_references`] does to one object, as the
    /// implementation has it: a relation between the grammar, the innermost
    /// context and the object before the call, the same after it, and the
    /// result. By default it relates any of them; an implementation that
    /// states more gives its own.
    closed spec fn references_pass(
        &self,
        syntax: Syntax,
        before: ContextContents<RefContents>,
        object: JsonObject,
        after: ContextContents<RefContents>,
        object_after: JsonObject,
        res: Result<(), ASTError>,
    ) -> bool {
        true
    }
}

/// The kind that an object names in its field "type", if it names one.
pub open spec fn type_of(object: Map<Seq<char>, JsonValue>) -> Option<Seq<char>> {
    if object.contains_key(TYPE_NAME@) {
        text_of(object[TYPE_NAME@])
    } else {
        None
    }
}

/// The kind that `object` names in its field "type", if it names one.
fn object_type(object: &JsonObject) -> (kind: Option<String>)
    ensures
        match kind {
            Some(k) => type_of(object@) == Some(k@),
            None => type_of(object@) is None,
        },
{
    match object.get(TYPE_NAME) {
        Some(JsonValue::Str(kind)) => Some(kind.clone()),
        _ => None,
    }
}

/// What a walk does before it runs any pass: meets no object that names a
/// kind, meets first an object whose kind the grammar lacks, or runs a pass.
pub enum WalkOutcome {
    Inert,
    Fails(Seq<char>),
    RunsPass,
}

/// What walking `v` does before it runs a pass: objects are looked at for
/// their kind; array items in order, the first item that is not inert
/// deciding.
pub open spec fn walk_outcome(v: JsonValue, syntax: Syntax) -> WalkOutcome
    decreases v,
{
    match v {
        JsonValue::Array(items) => items_outcome(items@, syntax),
        JsonValue::Object(o) => match type_of(o@) {
            None => WalkOutcome::Inert,
            Some(k) => if syntax.has_kind(k) {
                WalkOutcome::RunsPass
            } else {
                WalkOutcome::Fails(k)
            },
        },
        _ => WalkOutcome::Inert,
    }
}

/// What walking the items `s` in order does before it runs a pass.
pub open spec fn items_outcome(s: Seq<JsonValue>, syntax: Syntax) -> WalkOutcome
    decreases s,
{
    if s.len() == 0 {
        WalkOutcome::Inert
    } else {
        match walk_outcome(s[0], syntax) {
            WalkOutcome::Inert => items_outcome(s.drop_first(), syntax),
            other => other,
        }
    }
}

/// Whether the items after index `k` are as they were.
pub open spec fn untouched_after(before: Seq<JsonValue>, after: Seq<JsonValue>, k: int) -> bool {
    forall|j: int| k < j < before.len() ==> #[trigger] after[j] == before[j]
}

/// Whether the first `i` items are inert.
pub open spec fn inert_prefix(s: Seq<JsonValue>, i: int, syntax: Syntax) -> bool {
    forall|j: int| 0 <= j < i ==> #[trigger] walk_outcome(s[j], syntax) is Inert
}

/// The items from `i` on: an inert item passes the decision to the next.
pub proof fn lemma_items_outcome_step(s: Seq<JsonValue>, i: int, syntax: Syntax)
    requires
        0 <= i < s.len(),
    ensures
        items_outcome(s.skip(i), syntax) == (if walk_outcome(s[i], syntax) is Inert {
            items_outcome(s.skip(i + 1), syntax)
        } else {
            walk_outcome(s[i], syntax)
        }),
{
    assert(s.skip(i)[0] == s[i]);
    assert(s.skip(i).drop_first() =~= s.skip(i + 1));
}

/// A relation between the context and the object before a pass and after
/// it, and the pass's result.
pub type PassRelation<T> = spec_fn(
    ContextContents<T>,
    JsonObject,
    ContextContents<T>,
    JsonObject,
    Result<(), ASTError>,
) -> bool;

/// A relation between a context before it is left and the one that is
/// innermost afterwards.
pub type LeaveRelation<T> = spec_fn(ContextContents<T>, ContextContents<T>) -> bool;

/// What a walk went through, as a witness of [`walked`]: for an array, the
/// context each item was walked from, the result of the items before it,
/// and what walking it went through.
pub enum WalkTrace<T> {
    Leaf,
    Items(Seq<ContextContents<T>>, Seq<Result<(), ASTError>>, Seq<WalkTrace<T>>),
}

/// Walking `tree` from the context `before` may give `tree_after`, the
/// context `after` and the result `res`, through `trace`, where `pass` is
/// what one pass over an object does and `leave` what leaving a context
/// does.
///
/// An object that names a kind of the grammar is handed, as it is, to one
/// pass in a fresh context entered from `before` for that kind; that context
/// is left afterwards and the pass's result is the result. An object that
/// names an unknown kind fails with that kind; other objects and scalars are
/// skipped. Arrays are walked item by item: see [`items_walked`].
pub open spec fn walked<T: Default>(
    pass: PassRelation<T>,
    leave: LeaveRelation<T>,
    syntax: Syntax,
    trace: WalkTrace<T>,
    before: ContextContents<T>,
    tree: JsonValue,
    after: ContextContents<T>,
    tree_after: JsonValue,
    res: Result<(), ASTError>,
) -> bool
    decreases tree,
{
    match tree {
        JsonValue::Array(items) => match trace {
            WalkTrace::Items(contexts, results, traces) => {
                &&& tree_after is Array
                &&& items_walked(
                    pass,
                    leave,
                    syntax,
                    contexts,
                    results,
                    traces,
                    before,
                    items@,
                    after,
                    items_of(tree_after),
                    res,
                )
            },
            WalkTrace::Leaf => false,
        },
        JsonValue::Object(o) => match type_of(o@) {
            Some(k) => if syntax.has_kind(k) {
                exists|entered: ContextContents<T>, passed: ContextContents<T>, o2: JsonObject|
                    #[trigger] pass(entered, o, passed, o2, res) && entered.entered_from(
                        before,
                        (k, None::<Seq<char>>),
                    ) && call_ensures(T::default, (), entered.data_spec()) && leave(
                        passed,
                        after,
                    ) && tree_after == JsonValue::Object(o2)
            } else {
                &&& after == before
                &&& tree_after == tree
                &&& res matches Err(ASTError::InvalidKind(name)) && name@ == k
            },
            None => after == before && tree_after == tree && res is Ok,
        },
        _ => after == before && tree_after == tree && res is Ok,
    }
}

/// Walking the items `items` in order from the context `before` may give
/// the items `items_after`, the context `after` and the result `res`: item
/// `j` is walked from `contexts[j]`, the context the items before it left,
/// through `traces[j]`, as long as the walks before it succeeded
/// (`results[j]` is their result); the first error is the result, and the
/// items after it are left as they are.
pub open spec fn items_walked<T: Default>(
    pass: PassRelation<T>,
    leave: LeaveRelation<T>,
    syntax: Syntax,
    contexts: Seq<ContextContents<T>>,
    results: Seq<Result<(), ASTError>>,
    traces: Seq<WalkTrace<T>>,
    before: ContextContents<T>,
    items: Seq<JsonValue>,
    after: ContextContents<T>,
    items_after: Seq<JsonValue>,
    res: Result<(), ASTError>,
) -> bool
    decreases items,
{
    &&& contexts.len() == items.len()
    &&& results.len() == items.len()
    &&& traces.len() == items.len()
    &&& items_after.len() == items.len()
    &&& if items.len() == 0 {
        after == before && res is Ok
    } else {
        let k = items.len() - 1;
        &&& items_walked(
            pass,
            leave,
            syntax,
            contexts.drop_last(),
            results.drop_last(),
            traces.drop_last(),
            before,
            items.drop_last(),
            contexts[k],
            items_after.drop_last(),
            results[k],
        )
        &&& if results[k] is Ok {
            walked(pass, leave, syntax, traces[k], contexts[k], items[k], after, items_after[k], res)
        } else {
            res == results[k] && after == contexts[k] && items_after[k] == items[k]
        }
    }
}

/// Leaving `inner` in the declaration pass makes `outer` innermost: its
/// parent, with the names `inner` declares handed to it.
pub open spec fn decl_left(
    inner: ContextContents<DeclContents>,
    outer: ContextContents<DeclContents>,
) -> bool {
    match inner.parent_spec() {
        Some(p) => outer.same_but_data(p) && outer.data_spec()@ == decl_exit_view(
            p.data_spec()@,
            inner.data_spec()@,
        ),
        None => outer == inner,
    }
}

/// Leaving `inner` in the reference pass makes `outer` innermost: its
/// parent, with what `inner` collected handed to it.
pub open spec fn ref_left(
    inner: ContextContents<RefContents>,
    outer: ContextContents<RefContents>,
) -> bool {
    match inner.parent_spec() {
        Some(p) => outer.same_but_data(p) && outer.data_spec()@ == ref_exit_view(
            p.data_spec()@,
            inner.data_spec()@,
            inner.is_function_toplevel_spec(),
        ),
        None => outer == inner,
    }
}

/// One pass of `me` over an object for the declaration pass.
pub open spec fn declarations_step<A: Annotator>(me: A, syntax: Syntax) -> PassRelation<
    DeclContents,
> {
    |before: ContextContents<DeclContents>, object: JsonObject, after: ContextContents<DeclContents>, object_after: JsonObject, res: Result<(), ASTError>|
        me.declarations_pass(syntax, before, object, after, object_after, res)
}

/// One pass of `me` over an object for the reference pass.
pub open spec fn references_step<A: Annotator>(me: A, syntax: Syntax) -> PassRelation<
    RefContents,
> {
    |before: ContextContents<RefContents>, object: JsonObject, after: ContextContents<RefContents>, object_after: JsonObject, res: Result<(), ASTError>|
        me.references_pass(syntax, before, object, after, object_after, res)
}

/// Leaving a context in the declaration pass.
pub open spec fn decl_leave() -> LeaveRelation<DeclContents> {
    |inner: ContextContents<DeclContents>, outer: ContextContents<DeclContents>|
        decl_left(inner, outer)
}

/// Leaving a context in the reference pass.
pub open spec fn ref_leave() -> LeaveRelation<RefContents> {
    |inner: ContextContents<RefContents>, outer: ContextContents<RefContents>|
        ref_left(inner, outer)
}

/// The first items walked to `middle`, then the next item walked from there
/// through `trace` with result `res`, are the items so far and that one
/// walked.
proof fn lemma_items_walked_push<T: Default>(
    pass: PassRelation<T>,
    leave: LeaveRelation<T>,
    syntax: Syntax,
    contexts: Seq<ContextContents<T>>,
    results: Seq<Result<(), ASTError>>,
    traces: Seq<WalkTrace<T>>,
    before: ContextContents<T>,
    items: Seq<JsonValue>,
    middle: ContextContents<T>,
    items_after: Seq<JsonValue>,
    item: JsonValue,
    trace: WalkTrace<T>,
    after: ContextContents<T>,
    item_after: JsonValue,
    res: Result<(), ASTError>,
)
    requires
        items_walked(
            pass,
            leave,
            syntax,
            contexts,
            results,
            traces,
            before,
            items,
            middle,
            items_after,
            Ok(()),
        ),
        walked(pass, leave, syntax, trace, middle, item, after, item_after, res),
    ensures
        items_walked(
            pass,
            leave,
            syntax,
            contexts.push(middle),
            results.push(Ok(())),
            traces.push(trace),
            before,
            items.push(item),
            after,
            items_after.push(item_after),
            res,
        ),
{
    assert(contexts.push(middle).drop_last() =~= contexts);
    assert(results.push(Ok(())).drop_last() =~= results);
    assert(traces.push(trace).drop_last() =~= traces);
    assert(items.push(item).drop_last() =~= items);
    assert(items_after.push(item_after).drop_last() =~= items_after);
}

/// A walk that failed leaves the items after the failing one as they are:
/// the items so far and the ones after them are walked with that error.
proof fn lemma_items_walked_stop<T: Default>(
    pass: PassRelation<T>,
    leave: LeaveRelation<T>,
    syntax: Syntax,
    contexts: Seq<ContextContents<T>>,
    results: Seq<Result<(), ASTError>>,
    traces: Seq<WalkTrace<T>>,
    before: ContextContents<T>,
    items: Seq<JsonValue>,
    after: ContextContents<T>,
    items_after: Seq<JsonValue>,
    rest: Seq<JsonValue>,
    res: Result<(), ASTError>,
)
    requires
        res is Err,
        items_walked(
            pass,
            leave,
            syntax,
            contexts,
            results,
            traces,
            before,
            items,
            after,
            items_after,
            res,
        ),
    ensures
        items_walked(
            pass,
            leave,
            syntax,
            contexts + Seq::new(rest.len(), |j: int| after),
            results + Seq::new(rest.len(), |j: int| res),
            traces + Seq::new(rest.len(), |j: int| WalkTrace::<T>::Leaf),
            before,
            items + rest,
            after,
            items_after + rest,
            res,
        ),
    decreases rest.len(),
{
    if rest.len() > 0 {
        let shorter = rest.drop_last();
        lemma_items_walked_stop(
            pass,
            leave,
            syntax,
            contexts,
            results,
            traces,
            before,
            items,
            after,
            items_after,
            shorter,
            res,
        );
        let c = contexts + Seq::new(rest.len(), |j: int| after);
        let r = results + Seq::new(rest.len(), |j: int| res);
        let t = traces + Seq::new(rest.len(), |j: int| WalkTrace::<T>::Leaf);
        assert(c.drop_last() =~= contexts + Seq::new(shorter.len(), |j: int| after));
        assert(r.drop_last() =~= results + Seq::new(shorter.len(), |j: int| res));
        assert(t.drop_last() =~= traces + Seq::new(shorter.len(), |j: int| WalkTrace::<T>::Leaf));
        assert((items + rest).drop_last() =~= items + shorter);
        assert((items_after + rest).drop_last() =~= items_after + shorter);
    } else {
        assert(contexts + Seq::new(rest.len(), |j: int| after) =~= contexts);
        assert(results + Seq::new(rest.len(), |j: int| res) =~= results);
        assert(traces + Seq::new(rest.len(), |j: int| WalkTrace::<T>::Leaf) =~= traces);
        assert(items + rest =~= items);
        assert(items_after + rest =~= items_after);
    }
}

/// Items that are each the same as before, with those after `i` untouched,
/// make the same array.
proof fn lemma_walk_done(s: Seq<JsonValue>, items: Seq<JsonValue>, i: int)
    requires
        s.len() == items.len(),
        0 <= i <= s.len(),
        forall|j: int| 0 <= j < i ==> same_json(#[trigger] s[j], items[j]),
        i < s.len() ==> same_json(s[i], items[i]),
        forall|j: int| i < j < s.len() ==> items[j] == s[j],
    ensures
        same_json_seq(s, items),
{
    assert forall|j: int| 0 <= j < s.len() implies same_json(#[trigger] s[j], items[j]) by {
        if j > i {
            lemma_same_json_refl(s[j]);
        }
    }
    lemma_same_json_seq_pointwise(s, items);
}

/// Walks `tree` for the declaration pass: each object that names its kind
/// is processed by `me` in a context entered for it, and that context is
/// left afterwards; arrays are walked item by item, in order, up to the
/// first error; other values are skipped. The tree, the context and the
/// result are related as [`walked`] states, for what `me` does to one
/// object.
///
/// Where the walk meets no kind before its end or before an unknown kind
/// (see [`walk_outcome`]), it succeeds or fails with that kind, and changes
/// nothing.
pub fn process_declarations_aux<A: Annotator>(
    me: &A,
    ctx: &mut Context<DeclContents>,
    tree: &mut JsonValue,
) -> (res: Result<(), ASTError>)
    ensures
        final(ctx).syntax() == old(ctx).syntax(),
        final(ctx).depth() == old(ctx).depth(),
        walk_outcome(*old(tree), old(ctx).syntax()) is Inert ==> {
            &&& res is Ok
            &&& same_json(*old(tree), *final(tree))
            &&& *final(ctx) == *old(ctx)
        },
        walk_outcome(*old(tree), old(ctx).syntax()) is Fails ==> {
            &&& (res matches Err(ASTError::InvalidKind(name)) && name@ == walk_outcome(
                *old(tree),
                old(ctx).syntax(),
            )->Fails_0)
            &&& same_json(*old(tree), *final(tree))
            &&& *final(ctx) == *old(ctx)
        },
        !(*old(tree) is Array) && !(*old(tree) is Object) ==> *final(tree) == *old(tree),
        *old(tree) is Object && !(walk_outcome(*old(tree), old(ctx).syntax()) is RunsPass)
            ==> *final(tree) == *old(tree),
        *old(tree) is Object ==> *final(tree) is Object,
        *old(tree) is Array ==> {
            &&& *final(tree) is Array
            &&& items_of(*final(tree)).len() == items_of(*old(tree)).len()
        },
        *old(tree) is Array && res is Err ==> exists|k: int|
            0 <= k < items_of(*old(tree)).len() && #[trigger] untouched_after(
                items_of(*old(tree)),
                items_of(*final(tree)),
                k,
            ),
        exists|trace: WalkTrace<DeclContents>|
            #[trigger] walked(
                declarations_step(*me, old(ctx).syntax()),
                decl_leave(),
                old(ctx).syntax(),
                trace,
                old(ctx).frame(),
                *old(tree),
                final(ctx).frame(),
                *final(tree),
                res,
            ),
    decreases *old(tree),
{
    let ghost pass = declarations_step(*me, ctx.syntax());
    let ghost leave = decl_leave();
    let ghost syntax = ctx.syntax();
    let mut value = JsonValue::Null;
    std::mem::swap(&mut value, tree);
    match value {
        JsonValue::Array(mut items) => {
            let ghost original: Vec<JsonValue> = items;
            let ghost s = original@;
            let mut i: usize = 0;
            let n = items.len();
            let ghost mut contexts: Seq<ContextContents<DeclContents>> = Seq::empty();
            let ghost mut results: Seq<Result<(), ASTError>> = Seq::empty();
            let ghost mut traces: Seq<WalkTrace<DeclContents>> = Seq::empty();
            proof {
                assert(s.skip(0) =~= s);
                assert(s.take(0) =~= Seq::<JsonValue>::empty());
                assert(items@.take(0) =~= Seq::<JsonValue>::empty());
            }
            while i < n
                invariant
                    0 <= i <= n,
                    n == items.len(),
                    original.len() == n,
                    s == original@,
                    *old(tree) == JsonValue::Array(original),
                    syntax == old(ctx).syntax(),
                    forall|j: int| i <= j < n ==> items@[j] == s[j],
                    ctx.syntax() == old(ctx).syntax(),
                    ctx.depth() == old(ctx).depth(),
                    !(items_outcome(s, syntax) is RunsPass) ==> inert_prefix(s, i as int, syntax),
                    inert_prefix(s, i as int, syntax) ==> {
                        &&& *ctx == *old(ctx)
                        &&& forall|j: int| 0 <= j < i ==> same_json(#[trigger] s[j], items@[j])
                        &&& items_outcome(s, syntax) == items_outcome(s.skip(i as int), syntax)
                    },
                    pass == declarations_step(*me, syntax),
                    leave == decl_leave(),
                    items_walked(
                        pass,
                        leave,
                        syntax,
                        contexts,
                        results,
                        traces,
                        old(ctx).frame(),
                        s.take(i as int),
                        ctx.frame(),
                        items@.take(i as int),
                        Ok(()),
                    ),
                decreases n - i,
            {
                let ghost loop_items = items@;
                let mut child = JsonValue::Null;
                std::mem::swap(&mut child, &mut items[i]);
                proof {
                    vstd::std_specs::vec::axiom_vec_index_decreases(original, i as int);
                    assert(decreases_to!(*old(tree) => (*old(tree))->Array_0));
                    lemma_items_outcome_step(s, i as int, syntax);
                }
                let ghost before_items = items@;
                let ghost was_inert = inert_prefix(s, i as int, syntax);
                let ghost ctx_before = ctx.frame();
                let result = process_declarations_aux(me, ctx, &mut child);
                let ghost sub = choose|t: WalkTrace<DeclContents>|
                    walked(pass, leave, syntax, t, ctx_before, s[i as int], ctx.frame(), child, result);
                std::mem::swap(&mut child, &mut items[i]);
                proof {
                    assert(items@ == before_items.update(i as int, items@[i as int]));
                    assert(before_items.take(i as int) =~= loop_items.take(i as int));
                    lemma_items_walked_push(
                        pass,
                        leave,
                        syntax,
                        contexts,
                        results,
                        traces,
                        old(ctx).frame(),
                        s.take(i as int),
                        ctx_before,
                        before_items.take(i as int),
                        s[i as int],
                        sub,
                        ctx.frame(),
                        items@[i as int],
                        result,
                    );
                    assert(s.take(i + 1) =~= s.take(i as int).push(s[i as int]));
                    assert(items@.take(i + 1) =~= before_items.take(i as int).push(items@[i as int]));
                    contexts = contexts.push(ctx_before);
                    results = results.push(Ok(()));
                    traces = traces.push(sub);
                }
                if result.is_err() {
                    *tree = JsonValue::Array(items);
                    proof {
                        let rest = s.skip(i + 1);
                        lemma_items_walked_stop(
                            pass,
                            leave,
                            syntax,
                            contexts,
                            results,
                            traces,
                            old(ctx).frame(),
                            s.take(i + 1),
                            ctx.frame(),
                            items@.take(i + 1),
                            rest,
                            result,
                        );
                        assert(s.take(i + 1) + rest =~= s);
                        assert(items@.take(i + 1) + rest =~= items@);
                        assert(walked(
                            pass,
                            leave,
                            syntax,
                            WalkTrace::Items(
                                contexts + Seq::new(rest.len(), |j: int| ctx.frame()),
                                results + Seq::new(rest.len(), |j: int| result),
                                traces + Seq::new(rest.len(), |j: int| WalkTrace::<DeclContents>::Leaf),
                            ),
                            old(ctx).frame(),
                            *old(tree),
                            ctx.frame(),
                            *tree,
                            result,
                        ));
                        if was_inert && walk_outcome(s[i as int], syntax) is Fails {
                            lemma_walk_done(s, items_of(*tree), i as int);
                        }
                        assert(untouched_after(items_of(*old(tree)), items_of(*tree), i as int));
                    }
                    return result;
                }
                proof {
                    assert(result is Ok);
                    assert(result->Ok_0 == ());
                    assert(result == Ok::<(), ASTError>(()));
                    if was_inert && walk_outcome(s[i as int], syntax) is Inert {
                        assert(s.skip(i as int).drop_first() =~= s.skip(i + 1));
                        assert forall|j: int| 0 <= j < i + 1 implies same_json(
                            #[trigger] s[j],
                            items@[j],
                        ) by {}
                    }
                }
                i = i + 1;
            }
            *tree = JsonValue::Array(items);
            proof {
                assert(s.take(n as int) =~= s);
                assert(items@.take(n as int) =~= items@);
                assert(walked(
                    pass,
                    leave,
                    syntax,
                    WalkTrace::Items(contexts, results, traces),
                    old(ctx).frame(),
                    *old(tree),
                    ctx.frame(),
                    *tree,
                    Ok(()),
                ));
                if inert_prefix(s, n as int, syntax) {
                    lemma_walk_done(s, items_of(*tree), n as int);
                    assert(s.skip(n as int).len() == 0);
                }
            }
            Ok(())
        },
        JsonValue::Object(mut object) => {
            proof {
                lemma_same_json_refl(*old(tree));
            }
            if let Some(kind) = object_type(&object) {
                let ghost start = ctx.frame();
                match ctx.enter_obj(kind.as_str()) {
                    Ok(()) => {},
                    Err(e) => {
                        *tree = JsonValue::Object(object);
                        proof {
                            assert(walked(
                                pass,
                                leave,
                                syntax,
                                WalkTrace::Leaf,
                                old(ctx).frame(),
                                *old(tree),
                                ctx.frame(),
                                *tree,
                                Err(e),
                            ));
                        }
                        return Err(e);
                    },
                }
                proof {
                    ctx.frame().lemma_depth(start);
                }
                let ghost entered = ctx.frame();
                let ghost object_before = object;
                let result = me.process_declarations(ctx, &mut object);
                let ghost inner = ctx.frame();
                ctx.exit();
                proof {
                    inner.lemma_depth(inner);
                    ctx.frame().lemma_depth(inner);
                    if let Some(p) = inner.parent_spec() {
                        ctx.frame().lemma_depth(p);
                    }
                }
                *tree = JsonValue::Object(object);
                proof {
                    assert(pass(entered, object_before, inner, object, result));
                    assert(leave(inner, ctx.frame()));
                    assert(walked(
                        pass,
                        leave,
                        syntax,
                        WalkTrace::Leaf,
                        old(ctx).frame(),
                        *old(tree),
                        ctx.frame(),
                        *tree,
                        result,
                    ));
                }
                result
            } else {
                *tree = JsonValue::Object(object);
                proof {
                    assert(walked(
                        pass,
                        leave,
                        syntax,
                        WalkTrace::Leaf,
                        old(ctx).frame(),
                        *old(tree),
                        ctx.frame(),
                        *tree,
                        Ok(()),
                    ));
                }
                Ok(())
            }
        },
        other => {
            *tree = other;
            proof {
                lemma_same_json_refl(*old(tree));
                assert(walked(
                    pass,
                    leave,
                    syntax,
                    WalkTrace::Leaf,
                    old(ctx).frame(),
                    *old(tree),
                    ctx.frame(),
                    *tree,
                    Ok(()),
                ));
            }
            Ok(())
        },
    }
}

/// Walks the field `key` of `object` for the declaration pass: see
/// [`process_declarations_aux`].
///
/// Fails, and changes nothing, when the object has no such field.
pub fn process_declarations_field<A: Annotator>(
    me: &A,
    ctx: &mut Context<DeclContents>,
    object: &mut JsonObject,
    key: &str,
) -> (res: Result<(), ASTError>)
    ensures
        final(ctx).syntax() == old(ctx).syntax(),
        final(ctx).depth() == old(ctx).depth(),
        old(object)@.contains_key(key@) ==> final(object)@.dom() == old(object)@.dom(),
        old(object)@.contains_key(key@) ==> final(object)@.remove(key@) == old(object)@.remove(key@),
        old(object)@.contains_key(key@) && walk_outcome(old(object)@[key@], old(ctx).syntax()) is Inert
            ==> {
            &&& res is Ok
            &&& same_json(old(object)@[key@], final(object)@[key@])
            &&& *final(ctx) == *old(ctx)
        },
        old(object)@.contains_key(key@) && walk_outcome(old(object)@[key@], old(ctx).syntax()) is Fails
            ==> {
            &&& (res matches Err(ASTError::InvalidKind(name)) && name@ == walk_outcome(
                old(object)@[key@],
                old(ctx).syntax(),
            )->Fails_0)
            &&& same_json(old(object)@[key@], final(object)@[key@])
            &&& *final(ctx) == *old(ctx)
        },
        old(object)@.contains_key(key@) ==> exists|trace: WalkTrace<DeclContents>|
            #[trigger] walked(
                declarations_step(*me, old(ctx).syntax()),
                decl_leave(),
                old(ctx).syntax(),
                trace,
                old(ctx).frame(),
                old(object)@[key@],
                final(ctx).frame(),
                final(object)@[key@],
                res,
            ),
        !old(object)@.contains_key(key@) ==> {
            &&& (res matches Err(ASTError::InvalidValue { got, expected }) && same_json(
                JsonValue::Object(*old(object)),
                got,
            ) && expected@ == field_message(key@))
            &&& *final(object) == *old(object)
            &&& *final(ctx) == *old(ctx)
        },
{
    if !object.contains_key(key) {
        let got = JsonValue::Object(object.deep_copy());
        return Err(ASTError::InvalidValue { got, expected: missing_field_message(key) });
    }
    let mut json = object.remove(key).unwrap();
    let ghost json_before = json;
    let ghost ctx_before = ctx.frame();
    let result = process_declarations_aux(me, ctx, &mut json);
    let ghost trace = choose|t: WalkTrace<DeclContents>|
        walked(
            declarations_step(*me, ctx.syntax()),
            decl_leave(),
            ctx.syntax(),
            t,
            ctx_before,
            json_before,
            ctx.frame(),
            json,
            result,
        );
    object.insert(key.to_owned(), json);
    proof {
        assert(walked(
            declarations_step(*me, old(ctx).syntax()),
            decl_leave(),
            old(ctx).syntax(),
            trace,
            old(ctx).frame(),
            old(object)@[key@],
            ctx.frame(),
            object@[key@],
            result,
        ));
        assert(object@.dom() =~= old(object)@.dom());
        assert(object@.remove(key@) =~= old(object)@.remove(key@));
    }
    result
}

/// Walks `tree` for the reference pass: each object that names its kind
/// is processed by `me` in a context entered for it, and that context is
/// left afterwards; arrays are walked item by item, in order, up to the
/// first error; other values are skipped. The tree, the context and the
/// result are related as [`walked`] states, for what `me` does to one
/// object.
///
/// Where the walk meets no kind before its end or before an unknown kind
/// (see [`walk_outcome`]), it succeeds or fails with that kind, and changes
/// nothing.
pub fn process_references_aux<A: Annotator>(
    me: &A,
    ctx: &mut Context<RefContents>,
    tree: &mut JsonValue,
) -> (res: Result<(), ASTError>)
    ensures
        final(ctx).syntax() == old(ctx).syntax(),
        final(ctx).depth() == old(ctx).depth(),
        walk_outcome(*old(tree), old(ctx).syntax()) is Inert ==> {
            &&& res is Ok
            &&& same_json(*old(tree), *final(tree))
            &&& *final(ctx) == *old(ctx)
        },
        walk_outcome(*old(tree), old(ctx).syntax()) is Fails ==> {
            &&& (res matches Err(ASTError::InvalidKind(name)) && name@ == walk_outcome(
                *old(tree),
                old(ctx).syntax(),
            )->Fails_0)
            &&& same_json(*old(tree), *final(tree))
            &&& *final(ctx) == *old(ctx)
        },
        !(*old(tree) is Array) && !(*old(tree) is Object) ==> *final(tree) == *old(tree),
        *old(tree) is Object && !(walk_outcome(*old(tree), old(ctx).syntax()) is RunsPass)
            ==> *final(tree) == *old(tree),
        *old(tree) is Object ==> *final(tree) is Object,
        *old(tree) is Array ==> {
            &&& *final(tree) is Array
            &&& items_of(*final(tree)).len() == items_of(*old(tree)).len()
        },
        *old(tree) is Array && res is Err ==> exists|k: int|
            0 <= k < items_of(*old(tree)).len() && #[trigger] untouched_after(
                items_of(*old(tree)),
                items_of(*final(tree)),
                k,
            ),
        exists|trace: WalkTrace<RefContents>|
            #[trigger] walked(
                references_step(*me, old(ctx).syntax()),
                ref_leave(),
                old(ctx).syntax(),
                trace,
                old(ctx).frame(),
                *old(tree),
                final(ctx).frame(),
                *final(tree),
                res,
            ),
    decreases *old(tree),
{
    let ghost pass = references_step(*me, ctx.syntax());
    let ghost leave = ref_leave();
    let ghost syntax = ctx.syntax();
    let mut value = JsonValue::Null;
    std::mem::swap(&mut value, tree);
    match value {
        JsonValue::Array(mut items) => {
            let ghost original: Vec<JsonValue> = items;
            let ghost s = original@;
            let mut i: usize = 0;
            let n = items.len();
            let ghost mut contexts: Seq<ContextContents<RefContents>> = Seq::empty();
            let ghost mut results: Seq<Result<(), ASTError>> = Seq::empty();
            let ghost mut traces: Seq<WalkTrace<RefContents>> = Seq::empty();
            proof {
                assert(s.skip(0) =~= s);
                assert(s.take(0) =~= Seq::<JsonValue>::empty());
                assert(items@.take(0) =~= Seq::<JsonValue>::empty());
            }
            while i < n
                invariant
                    0 <= i <= n,
                    n == items.len(),
                    original.len() == n,
                    s == original@,
                    *old(tree) == JsonValue::Array(original),
                    syntax == old(ctx).syntax(),
                    forall|j: int| i <= j < n ==> items@[j] == s[j],
                    ctx.syntax() == old(ctx).syntax(),
                    ctx.depth() == old(ctx).depth(),
                    !(items_outcome(s, syntax) is RunsPass) ==> inert_prefix(s, i as int, syntax),
                    inert_prefix(s, i as int, syntax) ==> {
                        &&& *ctx == *old(ctx)
                        &&& forall|j: int| 0 <= j < i ==> same_json(#[trigger] s[j], items@[j])
                        &&& items_outcome(s, syntax) == items_outcome(s.skip(i as int), syntax)
                    },
                    pass == references_step(*me, syntax),
                    leave == ref_leave(),
                    items_walked(
                        pass,
                        leave,
                        syntax,
                        contexts,
                        results,
                        traces,
                        old(ctx).frame(),
                        s.take(i as int),
                        ctx.frame(),
                        items@.take(i as int),
                        Ok(()),
                    ),
                decreases n - i,
            {
                let ghost loop_items = items@;
                let mut child = JsonValue::Null;
                std::mem::swap(&mut child, &mut items[i]);
                proof {
                    vstd::std_specs::vec::axiom_vec_index_decreases(original, i as int);
                    assert(decreases_to!(*old(tree) => (*old(tree))->Array_0));
                    lemma_items_outcome_step(s, i as int, syntax);
                }
                let ghost before_items = items@;
                let ghost was_inert = inert_prefix(s, i as int, syntax);
                let ghost ctx_before = ctx.frame();
                let result = process_references_aux(me, ctx, &mut child);
                let ghost sub = choose|t: WalkTrace<RefContents>|
                    walked(pass, leave, syntax, t, ctx_before, s[i as int], ctx.frame(), child, result);
                std::mem::swap(&mut child, &mut items[i]);
                proof {
                    assert(items@ == before_items.update(i as int, items@[i as int]));
                    assert(before_items.take(i as int) =~= loop_items.take(i as int));
                    lemma_items_walked_push(
                        pass,
                        leave,
                        syntax,
                        contexts,
                        results,
                        traces,
                        old(ctx).frame(),
                        s.take(i as int),
                        ctx_before,
                        before_items.take(i as int),
                        s[i as int],
                        sub,
                        ctx.frame(),
                        items@[i as int],
                        result,
                    );
                    assert(s.take(i + 1) =~= s.take(i as int).push(s[i as int]));
                    assert(items@.take(i + 1) =~= before_items.take(i as int).push(items@[i as int]));
                    contexts = contexts.push(ctx_before);
                    results = results.push(Ok(()));
                    traces = traces.push(sub);
                }
                if result.is_err() {
                    *tree = JsonValue::Array(items);
                    proof {
                        let rest = s.skip(i + 1);
                        lemma_items_walked_stop(
                            pass,
                            leave,
                            syntax,
                            contexts,
                            results,
                            traces,
                            old(ctx).frame(),
                            s.take(i + 1),
                            ctx.frame(),
                            items@.take(i + 1),
                            rest,
                            result,
                        );
                        assert(s.take(i + 1) + rest =~= s);
                        assert(items@.take(i + 1) + rest =~= items@);
                        assert(walked(
                            pass,
                            leave,
                            syntax,
                            WalkTrace::Items(
                                contexts + Seq::new(rest.len(), |j: int| ctx.frame()),
                                results + Seq::new(rest.len(), |j: int| result),
                                traces + Seq::new(rest.len(), |j: int| WalkTrace::<RefContents>::Leaf),
                            ),
                            old(ctx).frame(),
                            *old(tree),
                            ctx.frame(),
                            *tree,
                            result,
                        ));
                        if was_inert && walk_outcome(s[i as int], syntax) is Fails {
                            lemma_walk_done(s, items_of(*tree), i as int);
                        }
                        assert(untouched_after(items_of(*old(tree)), items_of(*tree), i as int));
                    }
                    return result;
                }
                proof {
                    assert(result is Ok);
                    assert(result->Ok_0 == ());
                    assert(result == Ok::<(), ASTError>(()));
                    if was_inert && walk_outcome(s[i as int], syntax) is Inert {
                        assert(s.skip(i as int).drop_first() =~= s.skip(i + 1));
                        assert forall|j: int| 0 <= j < i + 1 implies same_json(
                            #[trigger] s[j],
                            items@[j],
                        ) by {}
                    }
                }
                i = i + 1;
            }
            *tree = JsonValue::Array(items);
            proof {
                assert(s.take(n as int) =~= s);
                assert(items@.take(n as int) =~= items@);
                assert(walked(
                    pass,
                    leave,
                    syntax,
                    WalkTrace::Items(contexts, results, traces),
                    old(ctx).frame(),
                    *old(tree),
                    ctx.frame(),
                    *tree,
                    Ok(()),
                ));
                if inert_prefix(s, n as int, syntax) {
                    lemma_walk_done(s, items_of(*tree), n as int);
                    assert(s.skip(n as int).len() == 0);
                }
            }
            Ok(())
        },
        JsonValue::Object(mut object) => {
            proof {
                lemma_same_json_refl(*old(tree));
            }
            if let Some(kind) = object_type(&object) {
                let ghost start = ctx.frame();
                match ctx.enter_obj(kind.as_str()) {
                    Ok(()) => {},
                    Err(e) => {
                        *tree = JsonValue::Object(object);
                        proof {
                            assert(walked(
                                pass,
                                leave,
                                syntax,
                                WalkTrace::Leaf,
                                old(ctx).frame(),
                                *old(tree),
                                ctx.frame(),
                                *tree,
                                Err(e),
                            ));
                        }
                        return Err(e);
                    },
                }
                proof {
                    ctx.frame().lemma_depth(start);
                }
                let ghost entered = ctx.frame();
                let ghost object_before = object;
                let result = me.process_references(ctx, &mut object);
                let ghost inner = ctx.frame();
                ctx.exit();
                proof {
                    inner.lemma_depth(inner);
                    ctx.frame().lemma_depth(inner);
                    if let Some(p) = inner.parent_spec() {
                        ctx.frame().lemma_depth(p);
                    }
                }
                *tree = JsonValue::Object(object);
                proof {
                    assert(pass(entered, object_before, inner, object, result));
                    assert(leave(inner, ctx.frame()));
                    assert(walked(
                        pass,
                        leave,
                        syntax,
                        WalkTrace::Leaf,
                        old(ctx).frame(),
                        *old(tree),
                        ctx.frame(),
                        *tree,
                        result,
                    ));
                }
                result
            } else {
                *tree = JsonValue::Object(object);
                proof {
                    assert(walked(
                        pass,
                        leave,
                        syntax,
                        WalkTrace::Leaf,
                        old(ctx).frame(),
                        *old(tree),
                        ctx.frame(),
                        *tree,
                        Ok(()),
                    ));
                }
                Ok(())
            }
        },
        other => {
            *tree = other;
            proof {
                lemma_same_json_refl(*old(tree));
                assert(walked(
                    pass,
                    leave,
                    syntax,
                    WalkTrace::Leaf,
                    old(ctx).frame(),
                    *old(tree),
                    ctx.frame(),
                    *tree,
                    Ok(()),
                ));
            }
            Ok(())
        },
    }
}

/// Walks the field `key` of `object` for the reference pass: see
/// [`process_references_aux`].
///
/// Fails, and changes nothing, when the object has no such field.
pub fn process_references_field<A: Annotator>(
    me: &A,
    ctx: &mut Context<RefContents>,
    object: &mut JsonObject,
    key: &str,
) -> (res: Result<(), ASTError>)
    ensures
        final(ctx).syntax() == old(ctx).syntax(),
        final(ctx).depth() == old(ctx).depth(),
        old(object)@.contains_key(key@) ==> final(object)@.dom() == old(object)@.dom(),
        old(object)@.contains_key(key@) ==> final(object)@.remove(key@) == old(object)@.remove(key@),
        old(object)@.contains_key(key@) && walk_outcome(old(object)@[key@], old(ctx).syntax()) is Inert
            ==> {
            &&& res is Ok
            &&& same_json(old(object)@[key@], final(object)@[key@])
            &&& *final(ctx) == *old(ctx)
        },
        old(object)@.contains_key(key@) && walk_outcome(old(object)@[key@], old(ctx).syntax()) is Fails
            ==> {
            &&& (res matches Err(ASTError::InvalidKind(name)) && name@ == walk_outcome(
                old(object)@[key@],
                old(ctx).syntax(),
            )->Fails_0)
            &&& same_json(old(object)@[key@], final(object)@[key@])
            &&& *final(ctx) == *old(ctx)
        },
        old(object)@.contains_key(key@) ==> exists|trace: WalkTrace<RefContents>|
            #[trigger] walked(
                references_step(*me, old(ctx).syntax()),
                ref_leave(),
                old(ctx).syntax(),
                trace,
                old(ctx).frame(),
                old(object)@[key@],
                final(ctx).frame(),
                final(object)@[key@],
                res,
            ),
        !old(object)@.contains_key(key@) ==> {
            &&& (res matches Err(ASTError::InvalidValue { got, expected }) && same_json(
                JsonValue::Object(*old(object)),
                got,
            ) && expected@ == field_message(key@))
            &&& *final(object) == *old(object)
            &&& *final(ctx) == *old(ctx)
        },
{
    if !object.contains_key(key) {
        let got = JsonValue::Object(object.deep_copy());
        return Err(ASTError::InvalidValue { got, expected: missing_field_message(key) });
    }
    let mut json = object.remove(key).unwrap();
    let ghost json_before = json;
    let ghost ctx_before = ctx.frame();
    let result = process_references_aux(me, ctx, &mut json);
    let ghost trace = choose|t: WalkTrace<RefContents>|
        walked(
            references_step(*me, ctx.syntax()),
            ref_leave(),
            ctx.syntax(),
            t,
            ctx_before,
            json_before,
            ctx.frame(),
            json,
            result,
        );
    object.insert(key.to_owned(), json);
    proof {
        assert(walked(
            references_step(*me, old(ctx).syntax()),
            ref_leave(),
            old(ctx).syntax(),
            trace,
            old(ctx).frame(),
            old(object)@[key@],
            ctx.frame(),
            object@[key@],
            result,
        ));
        assert(object@.dom() =~= old(object)@.dom());
        assert(object@.remove(key@) =~= old(object)@.remove(key@));
    }
    result
}

} // verus!
