//! A language-agnostic model of source code, from which graphs are built.
//!
//! There are three kinds of symbols: functions, variables (global variables and
//! fields, no locals) and types. A method or field names its type as its enclosing
//! symbol. References record how symbols are used.

use crate::domain::node;
use crate::domain::symbol_table::SymbolTable;
use crate::domain::text::same_text;
use vstd::prelude::*;

verus! {

/// Globally unique symbol identifier.
pub type SymbolId = String;

/// Reference to a type definition.
pub type TypeRef = SymbolId;

/// The semantic model of a project.
#[derive(Debug, Clone)]
pub struct SemanticData {
    /// Root directory of the project.
    pub project_root: String,
    /// One entry for each source file.
    pub documents: Vec<DocumentSemantics>,
    /// Symbols of libraries outside of the project.
    pub external_symbols: Vec<SymbolDefinition>,
}

/// The semantic model of one source file.
#[derive(Debug, Clone)]
pub struct DocumentSemantics {
    /// Path relative to the project root.
    pub relative_path: String,
    pub language: String,
    pub definitions: Vec<SymbolDefinition>,
    pub references: Vec<SymbolReference>,
}

/// The definition of a symbol.
#[derive(Debug, Clone)]
pub struct SymbolDefinition {
    pub symbol_id: SymbolId,
    pub kind: SymbolKind,
    /// Short name.
    pub name: String,
    pub display_name: String,
    pub location: SourceLocation,
    pub span: SourceSpan,
    /// The type of a method or field, or another symbol that encloses this one.
    pub enclosing_symbol: Option<SymbolId>,
    pub is_external: bool,
    pub documentation: Vec<String>,
    pub details: SymbolDetails,
}

/// The kind of a symbol.
#[derive(Debug, Clone, Copy, PartialEq, Eq, Structural)]
pub enum SymbolKind {
    Function,
    Variable,
    Type,
}

/// What is particular to a kind of symbol.
#[derive(Debug, Clone)]
pub enum SymbolDetails {
    Function(FunctionDetails),
    Variable(VariableDetails),
    Type(TypeDetails),
}

/// Details of a function, method or constructor.
#[derive(Debug, Clone)]
pub struct FunctionDetails {
    pub parameters: Vec<Parameter>,
    pub return_types: Vec<TypeRef>,
    pub type_params: Vec<TypeParam>,
    /// Source spans that state the contract, if the extractor tells them apart.
    pub surface_spans: Vec<SourceSpan>,
    /// Source spans of the body, if the extractor tells them apart.
    pub implementation_spans: Vec<SourceSpan>,
    pub modifiers: FunctionModifiers,
}

/// A parameter of a function.
#[derive(Debug, Clone)]
pub struct Parameter {
    pub name: String,
    /// The declared type.
    pub param_type: Option<TypeRef>,
    /// Whether the type leaves much freedom (a dictionary, a list, a string).
    pub is_high_freedom_type: bool,
    pub has_default: bool,
    pub is_variadic: bool,
}

/// A generic type parameter.
#[derive(Debug, Clone)]
pub struct TypeParam {
    pub name: String,
    pub bounds: Vec<TypeRef>,
}

/// Modifiers of a function.
#[derive(Debug, Clone, Copy, PartialEq, Eq, Structural)]
pub struct FunctionModifiers {
    pub is_async: bool,
    pub is_generator: bool,
    pub is_static: bool,
    /// Whether the function is declared without a body.
    pub is_abstract: bool,
    pub is_constructor: bool,
    /// Whether the function is wired by dependency injection.
    pub is_di_wired: bool,
    /// Whether only the signature counts for the size.
    pub use_signature_only_for_size: bool,
    pub visibility: Visibility,
}

/// Details of a variable.
#[derive(Debug, Clone)]
pub struct VariableDetails {
    /// The declared type.
    pub var_type: Option<TypeRef>,
    pub mutability: Mutability,
    pub scope: VariableScope,
    pub visibility: Visibility,
}

/// Mutability of a variable or field.
#[derive(Debug, Clone, Copy, PartialEq, Eq, Structural)]
pub enum Mutability {
    Const,
    Immutable,
    Mutable,
}

/// Where a variable is declared.
#[derive(Debug, Clone, Copy, PartialEq, Eq, Structural)]
pub enum VariableScope {
    Global,
    Field,
}

/// Details of a type.
#[derive(Debug, Clone)]
pub struct TypeDetails {
    pub kind: TypeKind,
    pub is_abstract: bool,
    pub is_final: bool,
    pub visibility: Visibility,
    pub type_params: Vec<TypeParam>,
    pub fields: Vec<Field>,
    /// Base types.
    pub inherits: Vec<TypeRef>,
    /// Implemented interfaces.
    pub implements: Vec<TypeRef>,
}

/// The kind of a type.
#[derive(Debug, Clone, Copy, PartialEq, Eq, Structural)]
pub enum TypeKind {
    Class,
    /// Interface, protocol or trait.
    Interface,
    Struct,
    Enum,
    TypeAlias,
    Union,
    Intersection,
    /// Generic type variable.
    TypeVar,
}

/// A field of a type.
#[derive(Debug, Clone)]
pub struct Field {
    pub name: String,
    pub field_type: Option<TypeRef>,
    pub mutability: Mutability,
    pub visibility: Visibility,
    /// The variable definition of the field.
    pub symbol_id: SymbolId,
}

/// Visibility of a symbol.
#[derive(Debug, Clone, Copy, PartialEq, Eq, Structural)]
pub enum Visibility {
    Public,
    Private,
    Protected,
    Internal,
}

/// A use of a symbol.
#[derive(Debug, Clone)]
pub struct SymbolReference {
    /// The symbol that is used, if it is known.
    pub target_symbol: Option<SymbolId>,
    pub location: SourceLocation,
    /// The symbol in which the use occurs.
    pub enclosing_symbol: SymbolId,
    pub role: ReferenceRole,
    /// The variable on which a method is called.
    pub receiver: Option<SymbolId>,
    pub method_name: Option<String>,
    /// The variable that the result of a call is assigned to.
    pub assigned_to: Option<SymbolId>,
}

/// How a symbol is used.
#[derive(Debug, Clone, Copy, PartialEq, Eq, Structural)]
pub enum ReferenceRole {
    Call,
    Read,
    Write,
    Decorate,
}

/// A place in a source file.
#[derive(Debug, Clone, PartialEq, Eq)]
pub struct SourceLocation {
    pub file_path: String,
    pub line: u32,
    pub column: u32,
}

/// A range in a source file.
#[derive(Debug, Clone, Copy, PartialEq, Eq, Structural)]
pub struct SourceSpan {
    pub start_line: u32,
    pub start_column: u32,
    pub end_line: u32,
    pub end_column: u32,
}

impl Default for FunctionModifiers {
    fn default() -> (r: Self)
        ensures
            r == (FunctionModifiers {
                is_async: false,
                is_generator: false,
                is_static: false,
                is_abstract: false,
                is_constructor: false,
                is_di_wired: false,
                use_signature_only_for_size: false,
                visibility: Visibility::Public,
            }),
    {
        FunctionModifiers {
            is_async: false,
            is_generator: false,
            is_static: false,
            is_abstract: false,
            is_constructor: false,
            is_di_wired: false,
            use_signature_only_for_size: false,
            visibility: Visibility::Public,
        }
    }
}

impl Default for FunctionDetails {
    fn default() -> (r: Self)
        ensures
            r.parameters@.len() == 0,
            r.return_types@.len() == 0,
            r.type_params@.len() == 0,
            r.surface_spans@.len() == 0,
            r.implementation_spans@.len() == 0,
            r.modifiers == (FunctionModifiers {
                is_async: false,
                is_generator: false,
                is_static: false,
                is_abstract: false,
                is_constructor: false,
                is_di_wired: false,
                use_signature_only_for_size: false,
                visibility: Visibility::Public,
            }),
    {
        FunctionDetails {
            parameters: Vec::new(),
            return_types: Vec::new(),
            type_params: Vec::new(),
            surface_spans: Vec::new(),
            implementation_spans: Vec::new(),
            modifiers: FunctionModifiers::default(),
        }
    }
}

impl Default for Parameter {
    fn default() -> (r: Self)
        ensures
            r.name@ == Seq::<char>::empty(),
            r.param_type is None,
            !r.is_high_freedom_type,
            !r.has_default,
            !r.is_variadic,
    {
        Parameter {
            name: String::new(),
            param_type: None,
            is_high_freedom_type: false,
            has_default: false,
            is_variadic: false,
        }
    }
}

impl Default for VariableDetails {
    fn default() -> (r: Self)
        ensures
            r.var_type is None,
            r.mutability == Mutability::Mutable,
            r.scope == VariableScope::Global,
            r.visibility == Visibility::Public,
    {
        VariableDetails {
            var_type: None,
            mutability: Mutability::Mutable,
            scope: VariableScope::Global,
            visibility: Visibility::Public,
        }
    }
}

impl Default for TypeDetails {
    fn default() -> (r: Self)
        ensures
            r.kind == TypeKind::Class,
            !r.is_abstract,
            !r.is_final,
            r.visibility == Visibility::Public,
            r.type_params@.len() == 0,
            r.fields@.len() == 0,
            r.inherits@.len() == 0,
            r.implements@.len() == 0,
    {
        TypeDetails {
            kind: TypeKind::Class,
            is_abstract: false,
            is_final: false,
            visibility: Visibility::Public,
            type_params: Vec::new(),
            fields: Vec::new(),
            inherits: Vec::new(),
            implements: Vec::new(),
        }
    }
}

/// The definitions of a list of documents, in order.
pub open spec fn document_definitions(
    documents: Seq<DocumentSemantics>,
) -> Seq<SymbolDefinition>
    decreases documents.len(),
{
    if documents.len() == 0 {
        Seq::empty()
    } else {
        document_definitions(documents.drop_last()) + documents.last().definitions@
    }
}

/// For each symbol of a list that has an enclosing symbol, that symbol. Of several
/// definitions of one symbol the last counts.
pub open spec fn enclosing_of(definitions: Seq<SymbolDefinition>) -> Map<Seq<char>, Seq<char>>
    decreases definitions.len(),
{
    if definitions.len() == 0 {
        Map::empty()
    } else {
        let rest = enclosing_of(definitions.drop_last());
        match definitions.last().enclosing_symbol {
            Some(parent) => rest.insert(definitions.last().symbol_id@, parent@),
            None => rest,
        }
    }
}

/// The texts in a table.
pub open spec fn table_texts(table: SymbolTable<SymbolId>) -> Map<Seq<char>, Seq<char>> {
    table@.map_values(|symbol: SymbolId| symbol@)
}

impl SemanticData {
    /// All definitions: those of the documents, and then those of external symbols.
    pub open spec fn definitions(&self) -> Seq<SymbolDefinition> {
        document_definitions(self.documents@) + self.external_symbols@
    }

    /// The definitions of the documents.
    pub fn document_definitions(&self) -> (r: Vec<&SymbolDefinition>)
        ensures
            r@.map_values(|def: &SymbolDefinition| *def) == document_definitions(self.documents@),
    {
        let mut r: Vec<&SymbolDefinition> = Vec::new();
        let mut i: usize = 0;
        while i < self.documents.len()
            invariant
                i <= self.documents@.len(),
                r@.map_values(|def: &SymbolDefinition| *def) == document_definitions(
                    self.documents@.take(i as int),
                ),
            decreases self.documents@.len() - i,
        {
            let defs = &self.documents[i].definitions;
            let ghost before = r@.map_values(|def: &SymbolDefinition| *def);
            push_all(&mut r, defs);
            assert(r@.map_values(|def: &SymbolDefinition| *def) =~= before + defs@);
            assert(self.documents@.take(i + 1).drop_last() =~= self.documents@.take(i as int));
            i += 1;
        }
        assert(self.documents@.take(i as int) =~= self.documents@);
        r
    }

    /// All definitions: those of the documents, and then those of external symbols.
    pub fn all_definitions(&self) -> (r: Vec<&SymbolDefinition>)
        ensures
            r@.map_values(|def: &SymbolDefinition| *def) == self.definitions(),
    {
        let mut r = self.document_definitions();
        let ghost before = r@.map_values(|def: &SymbolDefinition| *def);
        push_all(&mut r, &self.external_symbols);
        assert(r@.map_values(|def: &SymbolDefinition| *def) =~= before + self.external_symbols@);
        r
    }

    /// The enclosing symbol of each symbol that has one.
    pub fn build_enclosing_map(&self) -> (map: SymbolTable<SymbolId>)
        ensures
            map.wf(),
            table_texts(map) == enclosing_of(self.definitions()),
    {
        let all = self.all_definitions();
        let ghost list = self.definitions();
        let mut map: SymbolTable<SymbolId> = SymbolTable::new();
        let mut i: usize = 0;
        assert(list.take(0) =~= Seq::empty());
        assert(table_texts(map) =~= Map::empty());
        while i < all.len()
            invariant
                map.wf(),
                list == all@.map_values(|def: &SymbolDefinition| *def),
                i <= all@.len(),
                table_texts(map) == enclosing_of(list.take(i as int)),
            decreases all@.len() - i,
        {
            let def: &SymbolDefinition = all[i];
            assert(list[i as int] == *def);
            assert(list.take(i + 1).drop_last() =~= list.take(i as int));
            if let Some(parent) = &def.enclosing_symbol {
                let ghost before = table_texts(map);
                map.insert(def.symbol_id.clone(), parent.clone());
                assert(table_texts(map) =~= before.insert(def.symbol_id@, parent@));
            }
            i += 1;
        }
        assert(list.take(i as int) =~= list);
        map
    }

    /// The first definition of a symbol.
    pub fn find_definition(&self, symbol_id: &str) -> (r: Option<&SymbolDefinition>)
        ensures
            match r {
                Some(def) => exists|i: int|
                    0 <= i < self.definitions().len() && #[trigger] self.definitions()[i] == *def
                        && def.symbol_id@ == symbol_id@ && forall|j: int|
                        0 <= j < i ==> (#[trigger] self.definitions()[j]).symbol_id@ != symbol_id@,
                None => forall|j: int|
                    0 <= j < self.definitions().len() ==> (
                    #[trigger] self.definitions()[j]).symbol_id@ != symbol_id@,
            },
    {
        let all = self.all_definitions();
        let ghost list = self.definitions();
        let mut i: usize = 0;
        while i < all.len()
            invariant
                list == self.definitions(),
                list == all@.map_values(|def: &SymbolDefinition| *def),
                i <= all@.len(),
                forall|j: int| 0 <= j < i ==> (#[trigger] list[j]).symbol_id@ != symbol_id@,
            decreases all@.len() - i,
        {
            let def: &SymbolDefinition = all[i];
            assert(list[i as int] == *def);
            if same_text(def.symbol_id.as_str(), symbol_id) {
                return Some(def);
            }
            i += 1;
        }
        None
    }
}

fn push_all<'a>(list: &mut Vec<&'a SymbolDefinition>, more: &'a Vec<SymbolDefinition>)
    ensures
        final(list)@.map_values(|def: &SymbolDefinition| *def) == old(list)@.map_values(
            |def: &SymbolDefinition| *def,
        ) + more@,
{
    let ghost before = list@.map_values(|def: &SymbolDefinition| *def);
    let mut i: usize = 0;
    assert(before + more@.take(0) =~= before);
    while i < more.len()
        invariant
            i <= more@.len(),
            list@.map_values(|def: &SymbolDefinition| *def) == before + more@.take(i as int),
        decreases more@.len() - i,
    {
        let ghost middle = list@;
        list.push(&more[i]);
        assert(list@.map_values(|def: &SymbolDefinition| *def) =~= middle.map_values(
            |def: &SymbolDefinition| *def,
        ).push(more@[i as int]));
        assert(more@.take(i + 1) =~= more@.take(i as int).push(more@[i as int]));
        i += 1;
    }
    assert(more@.take(i as int) =~= more@);
}

impl SymbolDefinition {
    /// Whether this is a function with an enclosing symbol.
    pub fn is_method(&self) -> (r: bool)
        ensures
            r == (self.kind == SymbolKind::Function && self.enclosing_symbol is Some),
    {
        if self.kind != SymbolKind::Function {
            return false;
        }
        self.enclosing_symbol.is_some()
    }

    /// Whether this is a variable that is declared as a field.
    pub fn is_field(&self) -> (r: bool)
        ensures
            r == (self.kind == SymbolKind::Variable && match self.details {
                SymbolDetails::Variable(v) => v.scope == VariableScope::Field,
                _ => false,
            }),
    {
        if self.kind != SymbolKind::Variable {
            return false;
        }
        match &self.details {
            SymbolDetails::Variable(v) => v.scope == VariableScope::Field,
            _ => false,
        }
    }

    pub open spec fn spec_as_function(&self) -> Option<&FunctionDetails> {
        match &self.details {
            SymbolDetails::Function(f) => Some(f),
            _ => None,
        }
    }

    #[verifier::when_used_as_spec(spec_as_function)]
    pub fn as_function(&self) -> (r: Option<&FunctionDetails>)
        ensures
            r == self.spec_as_function(),
    {
        match &self.details {
            SymbolDetails::Function(f) => Some(f),
            _ => None,
        }
    }

    pub fn as_variable(&self) -> (r: Option<&VariableDetails>)
        ensures
            r == match &self.details {
                SymbolDetails::Variable(v) => Some(v),
                _ => None,
            },
    {
        match &self.details {
            SymbolDetails::Variable(v) => Some(v),
            _ => None,
        }
    }

    pub fn as_type(&self) -> (r: Option<&TypeDetails>)
        ensures
            r == match &self.details {
                SymbolDetails::Type(t) => Some(t),
                _ => None,
            },
    {
        match &self.details {
            SymbolDetails::Type(t) => Some(t),
            _ => None,
        }
    }
}

impl FunctionDetails {
    /// Count of parameters with a declared type.
    pub fn typed_param_count(&self) -> (n: usize)
        ensures
            n == node::count_where(self.parameters@, |p: Parameter| p.param_type is Some),
    {
        let ghost condition = |p: Parameter| p.param_type is Some;
        let mut n: usize = 0;
        let mut i: usize = 0;
        while i < self.parameters.len()
            invariant
                i <= self.parameters@.len(),
                n <= i,
                condition == |p: Parameter| p.param_type is Some,
                n == node::count_where(self.parameters@.take(i as int), condition),
            decreases self.parameters@.len() - i,
        {
            assert(self.parameters@.take(i + 1).drop_last() =~= self.parameters@.take(i as int));
            if self.parameters[i].param_type.is_some() {
                n += 1;
            }
            i += 1;
        }
        assert(self.parameters@.take(i as int) =~= self.parameters@);
        n
    }

    pub fn param_count(&self) -> (n: usize)
        ensures
            n == self.parameters@.len(),
    {
        self.parameters.len()
    }

    pub fn has_return_type(&self) -> (r: bool)
        ensures
            r == (self.return_types@.len() > 0),
    {
        !self.return_types.is_empty()
    }

    /// Whether all parameters are typed and there is a return type.
    pub fn is_signature_complete(&self) -> (r: bool)
        ensures
            r == ((forall|i: int|
                0 <= i < self.parameters@.len() ==> (
                #[trigger] self.parameters@[i]).param_type is Some) && self.return_types@.len()
                > 0),
    {
        proof {
            let condition = |p: Parameter| p.param_type is Some;
            node::lemma_count_where_all(self.parameters@, condition);
            assert(forall|i: int|
                0 <= i < self.parameters@.len() ==> condition(#[trigger] self.parameters@[i])
                    == self.parameters@[i].param_type is Some);
        }
        self.typed_param_count() == self.param_count() && self.has_return_type()
    }
}

} // verus!
