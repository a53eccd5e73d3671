//! Code units: functions and variables, and the fragments of source they consist of.

use crate::domain::score::Score;
use crate::domain::text;
use crate::domain::text::push_decimal;
use crate::domain::type_registry::{TypeInfo, TypeRegistry};
use vstd::prelude::*;
use vstd::string::StringExecFns;

verus! {

/// Unique identifier for a node in the graph.
pub type NodeId = u32;

/// Scope identifier (module or namespace).
pub type ScopeId = String;

/// Source code span.
#[derive(Debug, Clone, Copy, PartialEq, Eq, Hash, Structural)]
pub struct SourceSpan {
    pub start_line: u32,
    pub start_column: u32,
    pub end_line: u32,
    pub end_column: u32,
}

/// Stable identifier for a separately loadable piece of source context.
pub type ContextFragmentId = String;

/// A source fragment that is independently reached and charged by traversal.
#[derive(Debug, Clone, PartialEq, Eq)]
pub struct ContextFragment {
    pub id: ContextFragmentId,
    pub span: Option<SourceSpan>,
    pub normalized_text: Option<String>,
    pub context_size: u32,
}

impl ContextFragment {
    pub fn new(
        id: ContextFragmentId,
        span: Option<SourceSpan>,
        normalized_text: Option<String>,
        context_size: u32,
    ) -> (r: Self)
        ensures
            r == (ContextFragment { id, span, normalized_text, context_size }),
    {
        ContextFragment { id, span, normalized_text, context_size }
    }
}

/// Attributes shared by all nodes.
#[derive(Debug, Clone)]
pub struct NodeCore {
    pub id: NodeId,
    pub name: String,
    pub scope: Option<ScopeId>,
    /// Sum of the two fragments. Footprints charge the fragments themselves.
    pub context_size: u32,
    pub surface_fragment: ContextFragment,
    pub implementation_fragment: Option<ContextFragment>,
    pub span: SourceSpan,
    /// Documentation quality score.
    pub doc_score: Score,
    pub documentation: Vec<String>,
    pub is_external: bool,
    /// Path to the source file, relative to the project root.
    pub file_path: String,
}

/// The identifier of the surface of a node that was made without fragments.
pub open spec fn node_surface_id(id: NodeId) -> Seq<char> {
    "node:"@ + text::decimal(id as nat) + ":surface"@
}

impl NodeCore {
    /// A node whose only fragment is a surface of the whole context size.
    pub fn new(
        id: NodeId,
        name: String,
        scope: Option<ScopeId>,
        context_size: u32,
        span: SourceSpan,
        doc_score: Score,
        is_external: bool,
        file_path: String,
    ) -> (r: Self)
        ensures
            r.id == id,
            r.name == name,
            r.scope == scope,
            r.context_size == context_size,
            r.surface_fragment.id@ == node_surface_id(id),
            r.surface_fragment.span == Some(span),
            r.surface_fragment.normalized_text is None,
            r.surface_fragment.context_size == context_size,
            r.implementation_fragment is None,
            r.span == span,
            r.doc_score == doc_score,
            r.documentation@.len() == 0,
            r.is_external == is_external,
            r.file_path == file_path,
    {
        let mut fragment_id = String::from_str("node:");
        push_decimal(&mut fragment_id, id as u128);
        fragment_id.append(":surface");
        let surface_fragment = ContextFragment::new(fragment_id, Some(span), None, context_size);
        NodeCore {
            id,
            name,
            scope,
            context_size,
            surface_fragment,
            implementation_fragment: None,
            span,
            doc_score,
            documentation: Vec::new(),
            is_external,
            file_path,
        }
    }

    /// A node made of the given fragments. Its context size is their sum, held at
    /// the largest size that can be represented.
    pub fn with_fragments(
        id: NodeId,
        name: String,
        scope: Option<ScopeId>,
        surface_fragment: ContextFragment,
        implementation_fragment: Option<ContextFragment>,
        span: SourceSpan,
        doc_score: Score,
        documentation: Vec<String>,
        is_external: bool,
        file_path: String,
    ) -> (r: Self)
        ensures
            r == (NodeCore {
                id,
                name,
                scope,
                context_size: r.context_size,
                surface_fragment,
                implementation_fragment,
                span,
                doc_score,
                documentation,
                is_external,
                file_path,
            }),
            ({
                let sum = surface_fragment.context_size + match implementation_fragment {
                    Some(fragment) => fragment.context_size as int,
                    None => 0,
                };
                r.context_size == if sum <= u32::MAX { sum } else { u32::MAX as int }
            }),
    {
        let implementation_size: u32 = match &implementation_fragment {
            Some(fragment) => fragment.context_size,
            None => 0,
        };
        let context_size: u32 = surface_fragment.context_size.saturating_add(implementation_size);
        NodeCore {
            id,
            name,
            scope,
            context_size,
            surface_fragment,
            implementation_fragment,
            span,
            doc_score,
            documentation,
            is_external,
            file_path,
        }
    }
}

/// Visibility level.
#[derive(Debug, Clone, Copy, PartialEq, Eq, Structural)]
pub enum Visibility {
    Public,
    Private,
    Protected,
    Internal,
}

/// Function node.
#[derive(Debug, Clone)]
pub struct FunctionNode {
    pub core: NodeCore,
    pub is_async: bool,
    pub is_generator: bool,
    pub visibility: Visibility,
    pub parameters: Vec<Parameter>,
    /// Type identifiers of the return types.
    pub return_types: Vec<String>,
    /// Whether the method is declared by an interface, protocol, trait or abstract class.
    pub is_interface_method: bool,
    /// Whether the function constructs a type.
    pub is_constructor: bool,
    /// Whether the function is wired by dependency injection.
    pub is_di_wired: bool,
}

/// How many elements of a list satisfy a condition.
pub open spec fn count_where<A>(list: Seq<A>, condition: spec_fn(A) -> bool) -> nat
    decreases list.len(),
{
    if list.len() == 0 {
        0
    } else if condition(list.last()) {
        count_where(list.drop_last(), condition) + 1
    } else {
        count_where(list.drop_last(), condition)
    }
}

/// A count reaches the length exactly where every element satisfies the condition.
pub proof fn lemma_count_where_all<A>(list: Seq<A>, condition: spec_fn(A) -> bool)
    ensures
        count_where(list, condition) <= list.len(),
        count_where(list, condition) == list.len() <==> forall|i: int|
            0 <= i < list.len() ==> condition(#[trigger] list[i]),
    decreases list.len(),
{
    if list.len() > 0 {
        let rest = list.drop_last();
        lemma_count_where_all(rest, condition);
        assert(forall|i: int| 0 <= i < rest.len() ==> rest[i] == list[i]);
        if condition(list.last()) {
            if count_where(list, condition) == list.len() {
                assert forall|i: int| 0 <= i < list.len() implies condition(#[trigger] list[i]) by {
                    if i < rest.len() {
                        assert(condition(rest[i]));
                    }
                }
            }
            if forall|i: int| 0 <= i < list.len() ==> condition(#[trigger] list[i]) {
                assert forall|i: int| 0 <= i < rest.len() implies condition(#[trigger] rest[i]) by {
                    assert(condition(list[i]));
                }
            }
        } else {
            assert(!condition(list[list.len() - 1]));
        }
    }
}

impl FunctionNode {
    /// Whether every parameter has a type annotation and there is a return type.
    pub open spec fn signature_complete(&self) -> bool {
        &&& forall|i: int|
            0 <= i < self.parameters@.len() ==> (#[trigger] self.parameters@[i]).param_type is Some
        &&& self.return_types@.len() > 0
    }

    /// Whether every parameter is effectively typed and there is a return type.
    pub open spec fn signature_complete_with(&self, types: Map<Seq<char>, TypeInfo>) -> bool {
        &&& forall|i: int|
            0 <= i < self.parameters@.len() ==> effectively_typed(
                #[trigger] self.parameters@[i],
                types,
            )
        &&& self.return_types@.len() > 0
    }

    /// Count of parameters with type annotations.
    pub fn typed_param_count(&self) -> (n: usize)
        ensures
            n == count_where(self.parameters@, |p: Parameter| p.param_type is Some),
    {
        let ghost condition = |p: Parameter| p.param_type is Some;
        let mut n: usize = 0;
        let mut i: usize = 0;
        while i < self.parameters.len()
            invariant
                i <= self.parameters@.len(),
                n <= i,
                condition == |p: Parameter| p.param_type is Some,
                n == count_where(self.parameters@.take(i as int), condition),
            decreases self.parameters@.len() - i,
        {
            assert(self.parameters@.take(i + 1).drop_last() =~= self.parameters@.take(i as int));
            if self.parameters[i].param_type.is_some() {
                n += 1;
            }
            i += 1;
        }
        assert(self.parameters@.take(i as int) =~= self.parameters@);
        n
    }

    /// Count of parameters that are effectively typed: one that is typed with a
    /// type variable without bound and constraints is not.
    pub fn effectively_typed_param_count(&self, type_registry: &TypeRegistry) -> (n: usize)
        requires
            type_registry.wf(),
        ensures
            n == count_where(
                self.parameters@,
                |p: Parameter| effectively_typed(p, type_registry@),
            ),
    {
        let ghost condition = |p: Parameter| effectively_typed(p, type_registry@);
        let mut n: usize = 0;
        let mut i: usize = 0;
        while i < self.parameters.len()
            invariant
                type_registry.wf(),
                i <= self.parameters@.len(),
                n <= i,
                condition == |p: Parameter| effectively_typed(p, type_registry@),
                n == count_where(self.parameters@.take(i as int), condition),
            decreases self.parameters@.len() - i,
        {
            assert(self.parameters@.take(i + 1).drop_last() =~= self.parameters@.take(i as int));
            if is_param_effectively_typed(&self.parameters[i], type_registry) {
                n += 1;
            }
            i += 1;
        }
        assert(self.parameters@.take(i as int) =~= self.parameters@);
        n
    }

    /// Total parameter count.
    pub fn param_count(&self) -> (n: usize)
        ensures
            n == self.parameters@.len(),
    {
        self.parameters.len()
    }

    /// Whether there is a return type annotation.
    pub fn has_return_type(&self) -> (r: bool)
        ensures
            r == (self.return_types@.len() > 0),
    {
        !self.return_types.is_empty()
    }

    /// Whether all parameters are typed and there is a return type, without regard
    /// to type variables.
    pub fn is_signature_complete(&self) -> (r: bool)
        ensures
            r == self.signature_complete(),
    {
        proof {
            lemma_count_where_all(self.parameters@, |p: Parameter| p.param_type is Some);
            let condition = |p: Parameter| p.param_type is Some;
            assert(forall|i: int|
                0 <= i < self.parameters@.len() ==> condition(#[trigger] self.parameters@[i])
                    == self.parameters@[i].param_type is Some);
        }
        self.typed_param_count() == self.param_count() && self.has_return_type()
    }

    /// Whether all parameters are effectively typed and there is a return type.
    pub fn is_signature_complete_with_registry(&self, type_registry: &TypeRegistry) -> (r: bool)
        requires
            type_registry.wf(),
        ensures
            r == self.signature_complete_with(type_registry@),
    {
        proof {
            let condition = |p: Parameter| effectively_typed(p, type_registry@);
            lemma_count_where_all(self.parameters@, condition);
            assert(forall|i: int|
                0 <= i < self.parameters@.len() ==> condition(#[trigger] self.parameters@[i])
                    == effectively_typed(self.parameters@[i], type_registry@));
        }
        self.effectively_typed_param_count(type_registry) == self.param_count()
            && self.has_return_type()
    }

    /// Type identifiers of the return types.
    pub fn return_type_ids(&self) -> (r: &[String])
        ensures
            r@ == self.return_types@,
    {
        self.return_types.as_slice()
    }
}

/// Function parameter.
#[derive(Debug, Clone)]
pub struct Parameter {
    pub name: String,
    /// Type identifier of the parameter type.
    pub param_type: Option<String>,
    /// Whether the type leaves much freedom (a dictionary, a list, a string).
    pub is_high_freedom_type: bool,
}

/// Whether the annotation of a parameter says something about its values. A type
/// that is not registered does; a type variable does as far as it is limited.
pub open spec fn effectively_typed(param: Parameter, types: Map<Seq<char>, TypeInfo>) -> bool {
    match param.param_type {
        None => false,
        Some(type_id) => !types.contains_key(type_id@) || {
            let info = types[type_id@];
            info.is_type_var() ==> match info.definition.type_var_info {
                Some(limits) => limits.is_effectively_typed(),
                None => false,
            }
        },
    }
}

/// Tells whether a parameter is effectively typed.
pub fn is_param_effectively_typed(param: &Parameter, type_registry: &TypeRegistry) -> (r: bool)
    requires
        type_registry.wf(),
    ensures
        r == effectively_typed(*param, type_registry@),
{
    match &param.param_type {
        None => false,
        Some(type_id) => match type_registry.get(type_id.as_str()) {
            None => true,
            Some(info) => {
                if info.is_type_var() {
                    match &info.definition.type_var_info {
                        Some(limits) => limits.is_effectively_typed(),
                        None => false,
                    }
                } else {
                    true
                }
            },
        },
    }
}

/// Mutability of a variable.
#[derive(Debug, Clone, Copy, PartialEq, Eq, Structural)]
pub enum Mutability {
    /// Compile-time constant.
    Const,
    /// Never changes once the program runs.
    Immutable,
    /// May change, so that its writers matter.
    Mutable,
}

/// Where a variable lives.
#[derive(Debug, Clone, Copy, PartialEq, Eq, Structural)]
pub enum VariableKind {
    Global,
    ClassField,
    Local,
}

/// Variable node.
#[derive(Debug, Clone)]
pub struct VariableNode {
    pub core: NodeCore,
    /// Type identifier of the variable.
    pub var_type: Option<String>,
    pub mutability: Mutability,
    pub variable_kind: VariableKind,
}

/// A code unit.
#[derive(Debug, Clone)]
pub enum Node {
    Function(FunctionNode),
    Variable(VariableNode),
}

impl Node {
    pub open spec fn spec_node_core(&self) -> &NodeCore {
        match self {
            Node::Function(f) => &f.core,
            Node::Variable(v) => &v.core,
        }
    }

    #[verifier::when_used_as_spec(spec_node_core)]
    pub fn node_core(&self) -> (core: &NodeCore)
        ensures
            core == self.spec_node_core(),
    {
        match self {
            Node::Function(f) => &f.core,
            Node::Variable(v) => &v.core,
        }
    }

    /// The node with another core.
    pub open spec fn with_core(self, core: NodeCore) -> Node {
        match self {
            Node::Function(f) => Node::Function(FunctionNode { core, ..f }),
            Node::Variable(v) => Node::Variable(VariableNode { core, ..v }),
        }
    }

    pub fn core_mut(&mut self) -> (core: &mut NodeCore)
        ensures
            *core == *old(self).node_core(),
            *final(self) == old(self).with_core(*final(core)),
    {
        match self {
            Node::Function(f) => &mut f.core,
            Node::Variable(v) => &mut v.core,
        }
    }
}

/// A fragment as a value of the specification.
#[verifier::ext_equal]
pub struct FragmentView {
    pub id: Seq<char>,
    pub span: Option<SourceSpan>,
    pub normalized_text: Option<Seq<char>>,
    pub context_size: u32,
}

impl View for ContextFragment {
    type V = FragmentView;

    open spec fn view(&self) -> FragmentView {
        FragmentView {
            id: self.id@,
            span: self.span,
            normalized_text: text::optional_text(self.normalized_text),
            context_size: self.context_size,
        }
    }
}

/// A fragment that may be absent, as a value of the specification.
pub open spec fn optional_fragment(fragment: Option<ContextFragment>) -> Option<FragmentView> {
    match fragment {
        Some(f) => Some(f@),
        None => None,
    }
}

/// A core as a value of the specification.
#[verifier::ext_equal]
pub struct CoreView {
    pub id: NodeId,
    pub name: Seq<char>,
    pub scope: Option<Seq<char>>,
    pub context_size: u32,
    pub surface_fragment: FragmentView,
    pub implementation_fragment: Option<FragmentView>,
    pub span: SourceSpan,
    pub doc_score: Score,
    pub documentation: Seq<Seq<char>>,
    pub is_external: bool,
    pub file_path: Seq<char>,
}

impl View for NodeCore {
    type V = CoreView;

    open spec fn view(&self) -> CoreView {
        CoreView {
            id: self.id,
            name: self.name@,
            scope: text::optional_text(self.scope),
            context_size: self.context_size,
            surface_fragment: self.surface_fragment@,
            implementation_fragment: optional_fragment(self.implementation_fragment),
            span: self.span,
            doc_score: self.doc_score,
            documentation: text::texts(self.documentation@),
            is_external: self.is_external,
            file_path: self.file_path@,
        }
    }
}

/// A parameter as a value of the specification.
#[verifier::ext_equal]
pub struct ParameterView {
    pub name: Seq<char>,
    pub param_type: Option<Seq<char>>,
    pub is_high_freedom_type: bool,
}

impl View for Parameter {
    type V = ParameterView;

    open spec fn view(&self) -> ParameterView {
        ParameterView {
            name: self.name@,
            param_type: text::optional_text(self.param_type),
            is_high_freedom_type: self.is_high_freedom_type,
        }
    }
}

/// A function as a value of the specification.
#[verifier::ext_equal]
pub struct FunctionView {
    pub core: CoreView,
    pub is_async: bool,
    pub is_generator: bool,
    pub visibility: Visibility,
    pub parameters: Seq<ParameterView>,
    pub return_types: Seq<Seq<char>>,
    pub is_interface_method: bool,
    pub is_constructor: bool,
    pub is_di_wired: bool,
}

impl View for FunctionNode {
    type V = FunctionView;

    open spec fn view(&self) -> FunctionView {
        FunctionView {
            core: self.core@,
            is_async: self.is_async,
            is_generator: self.is_generator,
            visibility: self.visibility,
            parameters: self.parameters@.map_values(|p: Parameter| p@),
            return_types: text::texts(self.return_types@),
            is_interface_method: self.is_interface_method,
            is_constructor: self.is_constructor,
            is_di_wired: self.is_di_wired,
        }
    }
}

/// A variable as a value of the specification.
#[verifier::ext_equal]
pub struct VariableView {
    pub core: CoreView,
    pub var_type: Option<Seq<char>>,
    pub mutability: Mutability,
    pub variable_kind: VariableKind,
}

impl View for VariableNode {
    type V = VariableView;

    open spec fn view(&self) -> VariableView {
        VariableView {
            core: self.core@,
            var_type: text::optional_text(self.var_type),
            mutability: self.mutability,
            variable_kind: self.variable_kind,
        }
    }
}

/// A node as a value of the specification.
#[verifier::ext_equal]
pub enum NodeView {
    Function(FunctionView),
    Variable(VariableView),
}

impl NodeView {
    pub open spec fn node_core(self) -> CoreView {
        match self {
            NodeView::Function(f) => f.core,
            NodeView::Variable(v) => v.core,
        }
    }
}

impl View for Node {
    type V = NodeView;

    open spec fn view(&self) -> NodeView {
        match self {
            Node::Function(f) => NodeView::Function(f@),
            Node::Variable(v) => NodeView::Variable(v@),
        }
    }
}

} // verus!
