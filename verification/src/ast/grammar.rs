//! The part of the grammar that the annotator consults: which node kinds and
//! which field names exist, and the kind of the root.
use crate::ast::json::JsonValue;
use vstd::prelude::*;

verus! {

/// The kind of a node, such as `Program` or `FunctionDeclaration`.
#[derive(Clone)]
pub struct Kind {
    name: String,
}

/// The name of a field of a node.
#[derive(Clone)]
pub struct FieldName {
    name: String,
}

impl View for Kind {
    type V = Seq<char>;

    closed spec fn view(&self) -> Seq<char> {
        self.name@
    }
}

impl View for FieldName {
    type V = Seq<char>;

    closed spec fn view(&self) -> Seq<char> {
        self.name@
    }
}

impl Kind {
    /// The kind named `name`.
    pub fn new(name: &str) -> (kind: Kind)
        ensures
            kind@ == name@,
    {
        Kind { name: name.to_owned() }
    }

    /// The name of the kind.
    pub fn to_str(&self) -> (name: &str)
        ensures
            name@ == self@,
    {
        self.name.as_str()
    }

    /// Another kind with the same name.
    pub fn duplicate(&self) -> (kind: Kind)
        ensures
            kind@ == self@,
    {
        Kind { name: self.name.clone() }
    }
}

impl FieldName {
    /// The name of the field.
    pub fn to_str(&self) -> (name: &str)
        ensures
            name@ == self@,
    {
        self.name.as_str()
    }

    /// Another field name with the same text.
    pub fn duplicate(&self) -> (field: FieldName)
        ensures
            field@ == self@,
    {
        FieldName { name: self.name.clone() }
    }
}

/// Errors met while walking a tree.
#[derive(Debug)]
pub enum ASTError {
    /// A field name that the grammar does not know.
    InvalidField(String),
    /// A node kind that the grammar does not know.
    InvalidKind(String),
    /// A value that lacks what was expected of it.
    InvalidValue { got: JsonValue, expected: String },
}

/// The names the grammar knows.
pub struct Syntax {
    root: Kind,
    kinds: Vec<Kind>,
    fields: Vec<FieldName>,
}

impl Syntax {
    /// The kind of the root of a tree.
    pub closed spec fn root_spec(&self) -> Seq<char> {
        self.root@
    }

    /// Whether `name` is a kind of the grammar.
    pub closed spec fn has_kind(&self, name: Seq<char>) -> bool {
        exists|i: int| 0 <= i < self.kinds@.len() && #[trigger] self.kinds@[i]@ == name
    }

    /// Whether `name` is a field name of the grammar.
    pub closed spec fn has_field(&self, name: Seq<char>) -> bool {
        exists|i: int| 0 <= i < self.fields@.len() && #[trigger] self.fields@[i]@ == name
    }

    /// A grammar with root kind `root`, the kinds `kinds` and the field names `fields`.
    pub fn new(root: &str, kinds: &Vec<String>, fields: &Vec<String>) -> (syntax: Syntax)
        ensures
            syntax.root_spec() == root@,
            forall|name: Seq<char>|
                #[trigger] syntax.has_kind(name) <==> exists|i: int|
                    0 <= i < kinds@.len() && #[trigger] kinds@[i]@ == name,
            forall|name: Seq<char>|
                #[trigger] syntax.has_field(name) <==> exists|i: int|
                    0 <= i < fields@.len() && #[trigger] fields@[i]@ == name,
    {
        let mut kind_list: Vec<Kind> = Vec::new();
        let mut i: usize = 0;
        while i < kinds.len()
            invariant
                0 <= i <= kinds@.len(),
                kind_list@.len() == i,
                forall|j: int| 0 <= j < i ==> #[trigger] kind_list@[j]@ == kinds@[j]@,
            decreases kinds@.len() - i,
        {
            kind_list.push(Kind { name: kinds[i].clone() });
            i = i + 1;
        }
        let mut field_list: Vec<FieldName> = Vec::new();
        let mut i: usize = 0;
        while i < fields.len()
            invariant
                0 <= i <= fields@.len(),
                field_list@.len() == i,
                forall|j: int| 0 <= j < i ==> #[trigger] field_list@[j]@ == fields@[j]@,
            decreases fields@.len() - i,
        {
            field_list.push(FieldName { name: fields[i].clone() });
            i = i + 1;
        }
        let syntax = Syntax { root: Kind::new(root), kinds: kind_list, fields: field_list };
        assert forall|name: Seq<char>| #[trigger] syntax.has_kind(name) <==> exists|i: int|
            0 <= i < kinds@.len() && #[trigger] kinds@[i]@ == name by {
            if syntax.has_kind(name) {
                let i = choose|i: int| 0 <= i < syntax.kinds@.len() && #[trigger] syntax.kinds@[i]@ == name;
                assert(kinds@[i]@ == name);
            }
            if exists|i: int| 0 <= i < kinds@.len() && #[trigger] kinds@[i]@ == name {
                let i = choose|i: int| 0 <= i < kinds@.len() && #[trigger] kinds@[i]@ == name;
                assert(syntax.kinds@[i]@ == name);
            }
        }
        assert forall|name: Seq<char>| #[trigger] syntax.has_field(name) <==> exists|i: int|
            0 <= i < fields@.len() && #[trigger] fields@[i]@ == name by {
            if syntax.has_field(name) {
                let i = choose|i: int| 0 <= i < syntax.fields@.len() && #[trigger] syntax.fields@[i]@ == name;
                assert(fields@[i]@ == name);
            }
            if exists|i: int| 0 <= i < fields@.len() && #[trigger] fields@[i]@ == name {
                let i = choose|i: int| 0 <= i < fields@.len() && #[trigger] fields@[i]@ == name;
                assert(syntax.fields@[i]@ == name);
            }
        }
        syntax
    }

    /// The kind of the root of a tree.
    pub fn root_kind(&self) -> (kind: Kind)
        ensures
            kind@ == self.root_spec(),
    {
        self.root.duplicate()
    }

    /// The kind named `name`, if the grammar has one.
    pub fn get_kind(&self, name: &str) -> (kind: Option<Kind>)
        ensures
            kind is Some == self.has_kind(name@),
            kind matches Some(k) ==> k@ == name@,
    {
        let wanted = name.to_owned();
        let mut i: usize = 0;
        while i < self.kinds.len()
            invariant
                0 <= i <= self.kinds@.len(),
                wanted@ == name@,
                forall|j: int| 0 <= j < i ==> self.kinds@[j]@ != name@,
            decreases self.kinds@.len() - i,
        {
            if self.kinds[i].name == wanted {
                assert(self.kinds@[i as int]@ == name@);
                return Some(self.kinds[i].duplicate());
            }
            i = i + 1;
        }
        None
    }

    /// The field named `name`, if the grammar has one.
    pub fn get_field_name(&self, name: &str) -> (field: Option<FieldName>)
        ensures
            field is Some == self.has_field(name@),
            field matches Some(f) ==> f@ == name@,
    {
        let wanted = name.to_owned();
        let mut i: usize = 0;
        while i < self.fields.len()
            invariant
                0 <= i <= self.fields@.len(),
                wanted@ == name@,
                forall|j: int| 0 <= j < i ==> self.fields@[j]@ != name@,
            decreases self.fields@.len() - i,
        {
            if self.fields[i].name == wanted {
                assert(self.fields@[i as int]@ == name@);
                return Some(self.fields[i].duplicate());
            }
            i = i + 1;
        }
        None
    }
}

} // verus!
