//! What a definition becomes: fragments of source, nodes and types.

use crate::domain::node::{
    ContextFragment, CoreView, FragmentView, FunctionNode, FunctionView,
    Mutability as NodeMutability, Node, NodeCore, NodeView, Parameter as NodeParameter,
    ParameterView, SourceSpan, VariableKind, VariableNode, VariableView,
    Visibility as NodeVisibility,
};
use crate::domain::policy::{NodeType, SizeFunction};
use crate::domain::score::Score;
use crate::domain::semantic;
use crate::domain::semantic::{
    FunctionDetails, Mutability, Parameter, SourceSpan as SemanticSpan, SymbolDefinition,
    SymbolDetails, SymbolKind, TypeDetails, VariableScope, Visibility,
};
use crate::domain::text;
use crate::domain::text::{
    copy_texts, count_bytes, cut_bytes, format_list, join, low_word, split_lines,
};
use crate::domain::type_registry::{
    TypeDefAttribute, TypeInfo, TypeInfoView, TypeKind, TypeVarInfo, TypeVarView,
};
use vstd::prelude::*;
use vstd::string::StringExecFns;

verus! {

/// The span of a node for a span of the semantic model.
pub open spec fn span_of(span: SemanticSpan) -> SourceSpan {
    SourceSpan {
        start_line: span.start_line,
        start_column: span.start_column,
        end_line: span.end_line,
        end_column: span.end_column,
    }
}

pub fn convert_span(span: &SemanticSpan) -> (r: SourceSpan)
    ensures
        r == span_of(*span),
{
    SourceSpan {
        start_line: span.start_line,
        start_column: span.start_column,
        end_line: span.end_line,
        end_column: span.end_column,
    }
}

pub open spec fn visibility_of(visibility: Visibility) -> NodeVisibility {
    match visibility {
        Visibility::Public => NodeVisibility::Public,
        Visibility::Private => NodeVisibility::Private,
        Visibility::Protected => NodeVisibility::Protected,
        Visibility::Internal => NodeVisibility::Internal,
    }
}

pub fn convert_visibility(visibility: &Visibility) -> (r: NodeVisibility)
    ensures
        r == visibility_of(*visibility),
{
    match visibility {
        Visibility::Public => NodeVisibility::Public,
        Visibility::Private => NodeVisibility::Private,
        Visibility::Protected => NodeVisibility::Protected,
        Visibility::Internal => NodeVisibility::Internal,
    }
}

pub open spec fn mutability_of(mutability: Mutability) -> NodeMutability {
    match mutability {
        Mutability::Const => NodeMutability::Const,
        Mutability::Immutable => NodeMutability::Immutable,
        Mutability::Mutable => NodeMutability::Mutable,
    }
}

pub fn convert_mutability(mutability: &Mutability) -> (r: NodeMutability)
    ensures
        r == mutability_of(*mutability),
{
    match mutability {
        Mutability::Const => NodeMutability::Const,
        Mutability::Immutable => NodeMutability::Immutable,
        Mutability::Mutable => NodeMutability::Mutable,
    }
}

pub open spec fn node_type_of(kind: SymbolKind) -> NodeType {
    match kind {
        SymbolKind::Function => NodeType::Function,
        SymbolKind::Variable => NodeType::Variable,
        SymbolKind::Type => NodeType::Variable,
    }
}

pub fn infer_node_type_from_kind(kind: &SymbolKind) -> (r: NodeType)
    ensures
        r == node_type_of(*kind),
{
    match kind {
        SymbolKind::Function => NodeType::Function,
        SymbolKind::Variable => NodeType::Variable,
        SymbolKind::Type => NodeType::Variable,
    }
}

/// How a parameter reads in a signature.
pub open spec fn parameter_text(p: Parameter) -> Seq<char> {
    match p.param_type {
        Some(type_id) => p.name@ + ": "@ + type_id@,
        None => p.name@,
    }
}

/// A signature: the parameters of a function, and its results.
pub open spec fn signature_with(parameters: Seq<Parameter>, results: Seq<char>) -> Seq<char> {
    "("@ + text::joined(parameters.map_values(|p: Parameter| parameter_text(p)), ", "@)
        + ") -> "@ + results
}

/// Writes a signature, given the return types in words.
pub fn format_signature(parameters: &Vec<Parameter>, results: &str) -> (r: String)
    ensures
        r@ == signature_with(parameters@, results@),
{
    let ghost all = parameters@.map_values(|p: Parameter| parameter_text(p));
    let mut params: Vec<String> = Vec::new();
    let mut i: usize = 0;
    while i < parameters.len()
        invariant
            all == parameters@.map_values(|p: Parameter| parameter_text(p)),
            i <= parameters@.len(),
            text::texts(params@) == all.take(i as int),
        decreases parameters@.len() - i,
    {
        let p = &parameters[i];
        let mut part = p.name.clone();
        if let Some(type_id) = &p.param_type {
            part.append(": ");
            part.append(type_id.as_str());
        }
        let ghost before = text::texts(params@);
        params.push(part);
        assert(text::texts(params@) =~= before.push(part@));
        assert(all.take(i + 1) =~= before.push(all[i as int]));
        i += 1;
    }
    assert(all.take(i as int) =~= all);
    let mut signature = String::from_str("(");
    signature.append(join(&params, ", ").as_str());
    signature.append(") -> ");
    signature.append(results);
    signature
}

/// The signature of a function, with its return types in the debug format of a list.
pub open spec fn signature_text(def: SymbolDefinition) -> Option<Seq<char>> {
    match def.details {
        SymbolDetails::Function(f) => Some(
            signature_with(f.parameters@, text::quoted_list(text::texts(f.return_types@))),
        ),
        _ => None,
    }
}

/// The signature of a function as a text.
pub fn extract_signature(def: &SymbolDefinition) -> (r: Option<String>)
    ensures
        text::optional_text(r) == signature_text(*def),
{
    match &def.details {
        SymbolDetails::Function(f) => Some(
            format_signature(&f.parameters, format_list(&f.return_types).as_str()),
        ),
        _ => None,
    }
}

/// The first line from some line on that holds a colon or a semicolon, or the number
/// of lines.
pub open spec fn first_marked_line(lines: Seq<Seq<char>>, from: int) -> int
    decreases lines.len() - from,
{
    if from >= lines.len() {
        lines.len() as int
    } else if lines[from].contains(':') || lines[from].contains(';') {
        from
    } else {
        first_marked_line(lines, from + 1)
    }
}

/// The span of a signature: from the start of a definition to the end of the first
/// line with a colon or a semicolon. Where there is none it is the whole span. Line
/// numbers and columns are held in 32 bits.
pub open spec fn signature_span(span: SemanticSpan, source: Seq<char>) -> SourceSpan {
    let lines = text::lines(source);
    let last = first_marked_line(lines, span.start_line as int);
    if last < lines.len() {
        SourceSpan {
            start_line: span.start_line,
            start_column: span.start_column,
            end_line: (last % 0x1_0000_0000) as u32,
            end_column: (text::byte_len(lines[last]) % 0x1_0000_0000) as u32,
        }
    } else {
        span_of(span)
    }
}

fn is_marked(line: &str) -> (r: bool)
    ensures
        r == (line@.contains(':') || line@.contains(';')),
{
    let chars = text::chars_of(line);
    let mut i: usize = 0;
    while i < chars.len()
        invariant
            chars@ == line@,
            i <= chars@.len(),
            forall|k: int| 0 <= k < i ==> #[trigger] line@[k] != ':' && line@[k] != ';',
        decreases chars@.len() - i,
    {
        if chars[i] == ':' || chars[i] == ';' {
            assert(line@.contains(line@[i as int]));
            return true;
        }
        i += 1;
    }
    false
}

/// The signature portion of the span of a function.
pub fn extract_signature_span(span: &SemanticSpan, source_code: &str) -> (r: SourceSpan)
    ensures
        r == signature_span(*span, source_code@),
{
    let lines = split_lines(source_code);
    let ghost all = text::lines(source_code@);
    let ghost start = span.start_line as int;
    let mut i: usize = span.start_line as usize;
    if i >= lines.len() {
        return convert_span(span);
    }
    while i < lines.len()
        invariant
            all == text::lines(source_code@),
            text::texts(lines@) == all,
            start == span.start_line,
            start <= i <= lines@.len(),
            first_marked_line(all, start) == first_marked_line(all, i as int),
        decreases lines@.len() - i,
    {
        assert(all[i as int] == lines@[i as int]@);
        if is_marked(lines[i].as_str()) {
            let bytes: u128 = count_bytes(lines[i].as_str());
            let end_column: u32 = (bytes % 0x1_0000_0000) as u32;
            return SourceSpan {
                start_line: span.start_line,
                start_column: span.start_column,
                end_line: low_word(i),
                end_column,
            };
        }
        i += 1;
    }
    convert_span(span)
}

/// The span of a whole text, in 32 bits.
pub open spec fn whole_span(source: Seq<char>) -> SourceSpan {
    let lines = text::lines(source);
    SourceSpan {
        start_line: 0,
        start_column: 0,
        end_line: if lines.len() > 0 {
            ((lines.len() - 1) % 0x1_0000_0000) as u32
        } else {
            0
        },
        end_column: if lines.len() > 0 {
            (lines.last().len() % 0x1_0000_0000) as u32
        } else {
            0
        },
    }
}

/// The size of a text by itself. An empty text has none.
pub open spec fn text_size<S: SizeFunction>(size_function: S, source: Seq<char>) -> u32 {
    if source.len() == 0 {
        0
    } else {
        size_function.size(source, whole_span(source), Seq::empty())
    }
}

/// The number of lines of a text, and the length of its last line in characters.
fn measure_lines(source: &str) -> (r: (usize, usize))
    ensures
        r.0 == text::lines(source@).len(),
        r.1 == if text::lines(source@).len() > 0 {
            text::lines(source@).last().len()
        } else {
            0
        },
{
    let lines = split_lines(source);
    let count: usize = lines.len();
    assert(text::texts(lines@).len() == lines@.len());
    if count == 0 {
        return (0, 0);
    }
    let last = text::chars_of(lines[count - 1].as_str());
    assert(text::texts(lines@).last() == lines@[count - 1]@);
    (count, last.len())
}

pub fn compute_text_size<S: SizeFunction>(size_function: &S, source: &str) -> (r: u32)
    ensures
        r == text_size(*size_function, source@),
{
    if source.is_empty() {
        return 0;
    }
    let (count, width) = measure_lines(source);
    let end_line: u32 = if count > 0 {
        low_word(count - 1)
    } else {
        0
    };
    let span = SourceSpan {
        start_line: 0,
        start_column: 0,
        end_line,
        end_column: low_word(width),
    };
    let none: Vec<String> = Vec::new();
    assert(text::texts(none@) =~= Seq::empty());
    size_function.compute(source, &span, none.as_slice())
}

/// The sum of the sizes of some spans.
pub open spec fn span_total<S: SizeFunction>(
    size_function: S,
    source: Seq<char>,
    spans: Seq<SemanticSpan>,
) -> nat
    decreases spans.len(),
{
    if spans.len() == 0 {
        0
    } else {
        span_total(size_function, source, spans.drop_last()) + size_function.size(
            source,
            span_of(spans.last()),
            Seq::empty(),
        ) as nat
    }
}

proof fn lemma_span_total_bound<S: SizeFunction>(
    size_function: S,
    source: Seq<char>,
    spans: Seq<SemanticSpan>,
)
    ensures
        span_total(size_function, source, spans) <= spans.len() * u32::MAX,
    decreases spans.len(),
{
    if spans.len() > 0 {
        let rest = spans.drop_last();
        lemma_span_total_bound(size_function, source, rest);
        assert((rest.len() + 1) * u32::MAX == rest.len() * u32::MAX + u32::MAX)
            by (nonlinear_arith);
    }
}

fn sum_spans<S: SizeFunction>(
    size_function: &S,
    source: &str,
    spans: &Vec<SemanticSpan>,
) -> (r: u128)
    ensures
        r == span_total(*size_function, source@, spans@),
{
    let none: Vec<String> = Vec::new();
    assert(text::texts(none@) =~= Seq::empty());
    let mut sum: u128 = 0;
    let mut i: usize = 0;
    assert(spans@.take(0) =~= Seq::empty());
    while i < spans.len()
        invariant
            text::texts(none@) == Seq::<Seq<char>>::empty(),
            i <= spans@.len(),
            sum == span_total(*size_function, source@, spans@.take(i as int)),
        decreases spans@.len() - i,
    {
        proof {
            assert(spans@.take(i + 1).drop_last() =~= spans@.take(i as int));
            lemma_span_total_bound(*size_function, source@, spans@.take(i as int));
            let n = i as int;
            assert(n * u32::MAX < 0x1_0000_0000_0000_0000_0000_0000) by (nonlinear_arith)
                requires
                    n <= 0xffff_ffff_ffff_ffff,
            ;
        }
        let part: u32 = size_function.compute(source, &convert_span(&spans[i]), none.as_slice());
        sum = sum + part as u128;
        i += 1;
    }
    assert(spans@.take(i as int) =~= spans@);
    sum
}

/// The span of a list of one span.
pub open spec fn only_span(spans: Seq<SemanticSpan>) -> Option<SourceSpan> {
    if spans.len() == 1 {
        Some(span_of(spans[0]))
    } else {
        None
    }
}

/// Whether only the signature of a function counts.
pub open spec fn signature_only(def: SymbolDefinition, is_interface_method: bool) -> bool {
    is_interface_method || match def.details {
        SymbolDetails::Function(f) => f.modifiers.use_signature_only_for_size,
        _ => false,
    }
}

/// The documentation of a definition as one text.
pub open spec fn documentation_text(def: SymbolDefinition) -> Seq<char> {
    text::joined(text::texts(def.documentation@), "\n\n"@)
}

/// A text, or nothing if it is empty.
pub open spec fn unless_empty(source: Seq<char>) -> Option<Seq<char>> {
    if source.len() == 0 {
        None
    } else {
        Some(source)
    }
}

pub open spec fn surface_id(def: SymbolDefinition) -> Seq<char> {
    def.symbol_id@ + ":surface"@
}

pub open spec fn implementation_id(def: SymbolDefinition) -> Seq<char> {
    def.symbol_id@ + ":implementation"@
}

/// The fragments of a definition.
pub struct Fragments {
    pub surface: FragmentView,
    pub implementation: Option<FragmentView>,
}

/// Whether the spans of a function are told apart by the model.
pub open spec fn has_explicit_spans(def: SymbolDefinition) -> bool {
    match def.details {
        SymbolDetails::Function(f) => f.surface_spans@.len() > 0,
        _ => false,
    }
}

/// Whether sizes of spans that are told apart add up to sizes that can be
/// represented.
pub open spec fn spans_representable<S: SizeFunction>(
    def: SymbolDefinition,
    source: Seq<char>,
    size_function: S,
) -> bool {
    match def.details {
        SymbolDetails::Function(f) => def.kind == SymbolKind::Function && f.surface_spans@.len()
            > 0 ==> span_total(size_function, source, f.surface_spans@) <= u32::MAX && span_total(
            size_function,
            source,
            f.implementation_spans@,
        ) <= u32::MAX,
        _ => true,
    }
}

/// The fragments of a function whose spans are told apart.
pub open spec fn explicit_fragments<S: SizeFunction>(
    def: SymbolDefinition,
    f: FunctionDetails,
    source: Seq<char>,
    size_function: S,
    signature_only: bool,
) -> Fragments {
    Fragments {
        surface: FragmentView {
            id: surface_id(def),
            span: only_span(f.surface_spans@),
            normalized_text: None,
            context_size: span_total(size_function, source, f.surface_spans@) as u32,
        },
        implementation: if !signature_only && f.implementation_spans@.len() > 0 {
            Some(
                FragmentView {
                    id: implementation_id(def),
                    span: only_span(f.implementation_spans@),
                    normalized_text: None,
                    context_size: span_total(
                        size_function,
                        source,
                        f.implementation_spans@,
                    ) as u32,
                },
            )
        } else {
            None
        },
    }
}

/// The fragments of a function whose spans are not told apart. The surface is the
/// signature with the documentation. The implementation is the rest: the whole
/// without documentation, less the signature.
pub open spec fn derived_fragments<S: SizeFunction>(
    def: SymbolDefinition,
    source: Seq<char>,
    size_function: S,
    signature_only: bool,
) -> Fragments {
    let span = signature_span(def.span, source);
    let signature_size = size_function.size(source, span, Seq::empty());
    let surface_size = signature_size + text_size(size_function, documentation_text(def));
    let logic_size = size_function.size(
        source,
        span_of(def.span),
        text::texts(def.documentation@),
    );
    Fragments {
        surface: FragmentView {
            id: surface_id(def),
            span: Some(span),
            normalized_text: unless_empty(documentation_text(def)),
            context_size: if surface_size <= u32::MAX {
                surface_size as u32
            } else {
                u32::MAX
            },
        },
        implementation: if signature_only {
            None
        } else {
            Some(
                FragmentView {
                    id: implementation_id(def),
                    span: Some(span_of(def.span)),
                    normalized_text: None,
                    context_size: if logic_size >= signature_size {
                        (logic_size - signature_size) as u32
                    } else {
                        0
                    },
                },
            )
        },
    }
}

/// The fragments of a definition. Only a function has an implementation.
pub open spec fn fragments_of<S: SizeFunction>(
    def: SymbolDefinition,
    source: Seq<char>,
    size_function: S,
    is_interface_method: bool,
) -> Fragments {
    if def.kind != SymbolKind::Function {
        Fragments {
            surface: FragmentView {
                id: surface_id(def),
                span: Some(span_of(def.span)),
                normalized_text: None,
                context_size: size_function.size(source, span_of(def.span), Seq::empty()),
            },
            implementation: None,
        }
    } else {
        let signature_only = signature_only(def, is_interface_method);
        match def.details {
            SymbolDetails::Function(f) => if f.surface_spans@.len() > 0 {
                explicit_fragments(def, f, source, size_function, signature_only)
            } else {
                derived_fragments(def, source, size_function, signature_only)
            },
            _ => derived_fragments(def, source, size_function, signature_only),
        }
    }
}

fn with_suffix(symbol: &String, suffix: &str) -> (r: String)
    ensures
        r@ == symbol@ + suffix@,
{
    let mut r = symbol.clone();
    r.append(suffix);
    r
}

fn single_span(spans: &Vec<SemanticSpan>) -> (r: Option<SourceSpan>)
    ensures
        r == only_span(spans@),
{
    if spans.len() == 1 {
        Some(convert_span(&spans[0]))
    } else {
        None
    }
}

/// Whether the sizes of spans that are told apart can be represented.
pub fn check_spans<S: SizeFunction>(
    def: &SymbolDefinition,
    source_code: &str,
    size_function: &S,
) -> (r: bool)
    ensures
        r == spans_representable(*def, source_code@, *size_function),
{
    match &def.details {
        SymbolDetails::Function(f) => {
            if def.kind != SymbolKind::Function || f.surface_spans.is_empty() {
                return true;
            }
            sum_spans(size_function, source_code, &f.surface_spans) <= u32::MAX as u128
                && sum_spans(size_function, source_code, &f.implementation_spans)
                <= u32::MAX as u128
        },
        _ => true,
    }
}

/// Makes the fragments of a definition.
pub fn create_context_fragments<S: SizeFunction>(
    def: &SymbolDefinition,
    source_code: &str,
    size_function: &S,
    is_interface_method: bool,
) -> (r: (ContextFragment, Option<ContextFragment>))
    requires
        spans_representable(*def, source_code@, *size_function),
    ensures
        ({
            let fragments = fragments_of(*def, source_code@, *size_function, is_interface_method);
            &&& r.0@ == fragments.surface
            &&& crate::domain::node::optional_fragment(r.1) == fragments.implementation
        }),
{
    let full_span = convert_span(&def.span);
    let surface_name = with_suffix(&def.symbol_id, ":surface");
    let none: Vec<String> = Vec::new();
    assert(text::texts(none@) =~= Seq::empty());
    if def.kind != SymbolKind::Function {
        let surface_size: u32 = size_function.compute(source_code, &full_span, none.as_slice());
        return (ContextFragment::new(surface_name, Some(full_span), None, surface_size), None);
    }
    let use_signature_only: bool = is_interface_method || match &def.details {
        SymbolDetails::Function(f) => f.modifiers.use_signature_only_for_size,
        _ => false,
    };
    if let SymbolDetails::Function(f) = &def.details {
        if !f.surface_spans.is_empty() {
            let surface_size: u128 = sum_spans(size_function, source_code, &f.surface_spans);
            let surface = ContextFragment::new(
                surface_name,
                single_span(&f.surface_spans),
                None,
                surface_size as u32,
            );
            let implementation_size: u128 = sum_spans(
                size_function,
                source_code,
                &f.implementation_spans,
            );
            let implementation = if !use_signature_only && !f.implementation_spans.is_empty() {
                Some(
                    ContextFragment::new(
                        with_suffix(&def.symbol_id, ":implementation"),
                        single_span(&f.implementation_spans),
                        None,
                        implementation_size as u32,
                    ),
                )
            } else {
                None
            };
            return (surface, implementation);
        }
    }
    let sig_span = extract_signature_span(&def.span, source_code);
    let signature_size: u32 = size_function.compute(source_code, &sig_span, none.as_slice());
    let documentation = join(&def.documentation, "\n\n");
    let documentation_size: u32 = compute_text_size(size_function, documentation.as_str());
    let surface_size: u32 = signature_size.saturating_add(documentation_size);
    let surface_text = if documentation.as_str().is_empty() {
        None
    } else {
        Some(documentation)
    };
    let surface = ContextFragment::new(surface_name, Some(sig_span), surface_text, surface_size);
    if use_signature_only {
        return (surface, None);
    }
    let logic_size: u32 = size_function.compute(
        source_code,
        &full_span,
        def.documentation.as_slice(),
    );
    let implementation_size: u32 = logic_size.saturating_sub(signature_size);
    let implementation = ContextFragment::new(
        with_suffix(&def.symbol_id, ":implementation"),
        Some(full_span),
        None,
        implementation_size,
    );
    (surface, Some(implementation))
}

/// The first lines of a text, indented.
pub open spec fn indented(source: Seq<char>, limit: int) -> Seq<Seq<char>> {
    let lines = text::lines(source);
    lines.take(
        if lines.len() < limit {
            lines.len() as int
        } else {
            limit
        },
    ).map_values(|line: Seq<char>| "    "@ + line)
}

/// The lines that stand for an external symbol: its signature, and the beginning of
/// its first documentation.
pub open spec fn external_lines(
    signature: Option<Seq<char>>,
    doc_texts: Seq<Seq<char>>,
) -> Seq<Seq<char>> {
    let first = match signature {
        Some(signature) => seq![signature],
        None => Seq::empty(),
    };
    if doc_texts.len() > 0 {
        first + indented(doc_texts[0], 5)
    } else {
        first
    }
}

/// Makes a source for an external symbol, for display: its signature and up to five
/// lines of documentation.
pub fn build_external_source(signature: &Option<String>, doc_texts: &Vec<String>) -> (r: String)
    ensures
        ({
            let lines = external_lines(text::optional_text(*signature), text::texts(doc_texts@));
            r@ == if lines.len() == 0 {
                "pass"@
            } else {
                text::joined(lines, "\n"@)
            }
        }),
{
    let mut lines: Vec<String> = Vec::new();
    if let Some(sig) = signature {
        lines.push(sig.clone());
    }
    let ghost first = text::texts(lines@);
    proof {
        match signature {
            Some(sig) => {
                assert(first =~= seq![sig@]);
            },
            None => {
                assert(first =~= Seq::empty());
            },
        }
    }
    if doc_texts.len() > 0 {
        let all = split_lines(doc_texts[0].as_str());
        let ghost wanted = indented(doc_texts@[0]@, 5);
        let count: usize = if all.len() < 5 {
            all.len()
        } else {
            5
        };
        let mut i: usize = 0;
        proof {
            assert(text::texts(all@).len() == all@.len());
            assert(first + wanted.take(0) =~= first);
        }
        while i < count
            invariant
                text::texts(all@) == text::lines(doc_texts@[0]@),
                wanted == indented(doc_texts@[0]@, 5),
                count == wanted.len(),
                i <= count <= all@.len(),
                text::texts(lines@) == first + wanted.take(i as int),
            decreases count - i,
        {
            let mut line = String::from_str("    ");
            line.append(all[i].as_str());
            let ghost before = text::texts(lines@);
            lines.push(line);
            proof {
                assert(text::lines(doc_texts@[0]@)[i as int] == all@[i as int]@);
                assert(text::texts(lines@) =~= before.push(line@));
                assert(first + wanted.take(i + 1) =~= before.push(wanted[i as int]));
            }
            i += 1;
        }
        assert(wanted.take(i as int) =~= wanted);
    }
    assert(text::texts(lines@).len() == lines@.len());
    if lines.is_empty() {
        String::from_str("pass")
    } else {
        join(&lines, "\n")
    }
}

/// Length at which the signature of an external symbol is cut off.
pub const EXTERNAL_SIGNATURE_TRUNCATE_LEN: usize = 200;

/// Largest size of an external symbol. Bodies of libraries are not looked into.
pub const EXTERNAL_SYMBOL_MAX_TOKENS: u32 = 50;

/// The source of an external symbol: its name, and its signature, of which a long one
/// is cut off.
pub open spec fn external_signature(
    def: SymbolDefinition,
    signature: Option<Seq<char>>,
) -> Seq<char> {
    match signature {
        Some(signature) => def.name@ + " "@ + if text::byte_len(signature)
            > EXTERNAL_SIGNATURE_TRUNCATE_LEN {
            text::byte_prefix(signature, EXTERNAL_SIGNATURE_TRUNCATE_LEN as int) + "..."@
        } else {
            signature
        },
        None => def.name@,
    }
}

/// Makes the source of an external symbol from its name and signature.
pub fn build_external_signature_only(signature: &Option<String>, def: &SymbolDefinition) -> (r:
    String)
    ensures
        r@ == external_signature(*def, text::optional_text(*signature)),
{
    let mut r = def.name.clone();
    if let Some(sig) = signature {
        r.append(" ");
        let ghost start = r@;
        if count_bytes(sig.as_str()) > EXTERNAL_SIGNATURE_TRUNCATE_LEN as u128 {
            r.append(cut_bytes(sig.as_str(), EXTERNAL_SIGNATURE_TRUNCATE_LEN).as_str());
            r.append("...");
            assert(r@ =~= start + (text::byte_prefix(
                sig@,
                EXTERNAL_SIGNATURE_TRUNCATE_LEN as int,
            ) + "..."@));
        } else {
            r.append(sig.as_str());
        }
    }
    r
}

/// The source of an external symbol with its documentation.
pub open spec fn external_source(
    def: SymbolDefinition,
    signature: Option<Seq<char>>,
) -> Seq<char> {
    if def.documentation@.len() > 0 {
        external_signature(def, signature).push('\n') + documentation_text(def)
    } else {
        external_signature(def, signature)
    }
}

/// The span of the source of an external symbol, in 32 bits.
pub open spec fn external_span(source: Seq<char>) -> SourceSpan {
    let lines = text::lines(source);
    let count = (if lines.len() > 1 { lines.len() } else { 1 }) % 0x1_0000_0000;
    SourceSpan {
        start_line: 0,
        start_column: 0,
        end_line: if count > 0 {
            (count - 1) as u32
        } else {
            0
        },
        end_column: if lines.len() > 0 {
            (lines.last().len() % 0x1_0000_0000) as u32
        } else {
            0
        },
    }
}

/// The surface of an external symbol.
pub open spec fn external_surface<S: SizeFunction>(
    def: SymbolDefinition,
    signature: Option<Seq<char>>,
    size_function: S,
) -> FragmentView {
    let source = external_source(def, signature);
    let size = size_function.size(source, external_span(source), Seq::empty());
    FragmentView {
        id: surface_id(def),
        span: None,
        normalized_text: Some(source),
        context_size: if size <= EXTERNAL_SYMBOL_MAX_TOKENS {
            size
        } else {
            EXTERNAL_SYMBOL_MAX_TOKENS
        },
    }
}

/// Makes the surface of an external symbol.
pub fn create_external_surface<S: SizeFunction>(
    def: &SymbolDefinition,
    signature: &Option<String>,
    size_function: &S,
) -> (r: ContextFragment)
    ensures
        r@ == external_surface(*def, text::optional_text(*signature), *size_function),
{
    let mut source = build_external_signature_only(signature, def);
    if !def.documentation.is_empty() {
        source.push('\n');
        source.append(join(&def.documentation, "\n\n").as_str());
    }
    let (count, width) = measure_lines(source.as_str());
    let line_count: u32 = low_word(if count > 1 { count } else { 1 });
    let span = SourceSpan {
        start_line: 0,
        start_column: 0,
        end_line: line_count.saturating_sub(1),
        end_column: low_word(width),
    };
    let none: Vec<String> = Vec::new();
    assert(text::texts(none@) =~= Seq::empty());
    let raw_size: u32 = size_function.compute(source.as_str(), &span, none.as_slice());
    let context_size: u32 = if raw_size <= EXTERNAL_SYMBOL_MAX_TOKENS {
        raw_size
    } else {
        EXTERNAL_SYMBOL_MAX_TOKENS
    };
    ContextFragment::new(
        with_suffix(&def.symbol_id, ":surface"),
        None,
        Some(source),
        context_size,
    )
}

pub open spec fn parameter_of(p: Parameter) -> ParameterView {
    ParameterView {
        name: p.name@,
        param_type: text::optional_text(p.param_type),
        is_high_freedom_type: p.is_high_freedom_type,
    }
}

/// The node of a definition. A type has none.
pub open spec fn node_of(
    core_view: CoreView,
    def: SymbolDefinition,
    is_interface_method: bool,
) -> Option<NodeView> {
    match def.details {
        SymbolDetails::Function(f) => Some(
            NodeView::Function(
                FunctionView {
                    core: core_view,
                    is_async: f.modifiers.is_async,
                    is_generator: f.modifiers.is_generator,
                    visibility: visibility_of(f.modifiers.visibility),
                    parameters: f.parameters@.map_values(|p: Parameter| parameter_of(p)),
                    return_types: text::texts(f.return_types@),
                    is_interface_method,
                    is_constructor: f.modifiers.is_constructor,
                    is_di_wired: f.modifiers.is_di_wired,
                },
            ),
        ),
        SymbolDetails::Variable(v) => Some(
            NodeView::Variable(
                VariableView {
                    core: core_view,
                    var_type: text::optional_text(v.var_type),
                    mutability: mutability_of(v.mutability),
                    variable_kind: match v.scope {
                        VariableScope::Global => VariableKind::Global,
                        VariableScope::Field => VariableKind::ClassField,
                    },
                },
            ),
        ),
        SymbolDetails::Type(_) => None,
    }
}

fn copy_optional(source: &Option<String>) -> (r: Option<String>)
    ensures
        r == *source,
{
    match source {
        Some(t) => Some(t.clone()),
        None => None,
    }
}

/// Makes the node of a definition. A type cannot become a node.
pub fn create_node_from_definition(
    core_value: NodeCore,
    def: &SymbolDefinition,
    is_interface_method: bool,
) -> (r: Option<Node>)
    ensures
        match r {
            Some(node) => node_of(core_value@, *def, is_interface_method) == Some(node@),
            None => node_of(core_value@, *def, is_interface_method) is None,
        },
{
    match &def.details {
        SymbolDetails::Function(f) => {
            let mut parameters: Vec<NodeParameter> = Vec::new();
            let ghost all = f.parameters@.map_values(|p: Parameter| parameter_of(p));
            let mut i: usize = 0;
            while i < f.parameters.len()
                invariant
                    all == f.parameters@.map_values(|p: Parameter| parameter_of(p)),
                    i <= f.parameters@.len(),
                    parameters@.map_values(|p: NodeParameter| p@) == all.take(i as int),
                decreases f.parameters@.len() - i,
            {
                let p = &f.parameters[i];
                let parameter = NodeParameter {
                    name: p.name.clone(),
                    param_type: copy_optional(&p.param_type),
                    is_high_freedom_type: p.is_high_freedom_type,
                };
                let ghost before = parameters@;
                parameters.push(parameter);
                assert(parameters@.map_values(|p: NodeParameter| p@) =~= before.map_values(
                    |p: NodeParameter| p@,
                ).push(parameter@));
                assert(all.take(i + 1) =~= all.take(i as int).push(all[i as int]));
                i += 1;
            }
            assert(all.take(i as int) =~= all);
            Some(
                Node::Function(
                    FunctionNode {
                        core: core_value,
                        parameters,
                        is_async: f.modifiers.is_async,
                        is_generator: f.modifiers.is_generator,
                        visibility: convert_visibility(&f.modifiers.visibility),
                        return_types: copy_texts(&f.return_types),
                        is_interface_method,
                        is_constructor: f.modifiers.is_constructor,
                        is_di_wired: f.modifiers.is_di_wired,
                    },
                ),
            )
        },
        SymbolDetails::Variable(v) => {
            let variable_kind = match v.scope {
                VariableScope::Global => VariableKind::Global,
                VariableScope::Field => VariableKind::ClassField,
            };
            Some(
                Node::Variable(
                    VariableNode {
                        core: core_value,
                        var_type: copy_optional(&v.var_type),
                        mutability: convert_mutability(&v.mutability),
                        variable_kind,
                    },
                ),
            )
        },
        SymbolDetails::Type(_) => None,
    }
}

/// The kind of a type. Unions and intersections count as classes.
pub open spec fn type_kind_of(kind: semantic::TypeKind) -> TypeKind {
    match kind {
        semantic::TypeKind::Class => TypeKind::Class,
        semantic::TypeKind::Interface => TypeKind::Interface,
        semantic::TypeKind::Struct => TypeKind::Struct,
        semantic::TypeKind::Enum => TypeKind::Enum,
        semantic::TypeKind::TypeAlias => TypeKind::TypeAlias,
        semantic::TypeKind::TypeVar => TypeKind::TypeVar,
        semantic::TypeKind::Union | semantic::TypeKind::Intersection => TypeKind::Class,
    }
}

/// The limits of a type variable: its first bound, and all of them as constraints if
/// there are several.
pub open spec fn type_var_of(t: TypeDetails) -> Option<TypeVarView> {
    if t.kind == semantic::TypeKind::TypeVar {
        let bounds = if t.type_params@.len() > 0 {
            text::texts(t.type_params@[0].bounds@)
        } else {
            Seq::empty()
        };
        Some(
            TypeVarView {
                bound: if bounds.len() > 0 {
                    Some(bounds[0])
                } else {
                    None
                },
                constraints: if bounds.len() > 1 {
                    bounds
                } else {
                    Seq::empty()
                },
            },
        )
    } else {
        None
    }
}

/// What is registered of a definition of a type.
pub open spec fn type_info_of(
    def: SymbolDefinition,
    surface: FragmentView,
    doc_score: Score,
) -> TypeInfoView {
    TypeInfoView {
        type_kind: match def.details {
            SymbolDetails::Type(t) => type_kind_of(t.kind),
            _ => TypeKind::Class,
        },
        is_abstract: match def.details {
            SymbolDetails::Type(t) => t.is_abstract,
            _ => false,
        },
        type_param_count: match def.details {
            SymbolDetails::Type(t) => (t.type_params@.len() % 0x1_0000_0000) as u32,
            _ => 0,
        },
        type_var: match def.details {
            SymbolDetails::Type(t) => type_var_of(t),
            _ => None,
        },
        context_size: surface.context_size,
        surface_fragment: surface,
        doc_score,
        documentation: text::texts(def.documentation@),
    }
}

fn type_var_limits(t: &TypeDetails) -> (r: Option<TypeVarInfo>)
    ensures
        match r {
            Some(limits) => type_var_of(*t) == Some(limits@),
            None => type_var_of(*t) is None,
        },
{
    if t.kind != semantic::TypeKind::TypeVar {
        return None;
    }
    if t.type_params.is_empty() {
        let limits = TypeVarInfo { bound: None, constraints: Vec::new() };
        assert(text::texts(limits.constraints@) =~= Seq::empty());
        return Some(limits);
    }
    let bounds = &t.type_params[0].bounds;
    let bound = if bounds.is_empty() {
        None
    } else {
        Some(bounds[0].clone())
    };
    let constraints = if bounds.len() > 1 {
        copy_texts(bounds)
    } else {
        Vec::new()
    };
    let limits = TypeVarInfo { bound, constraints };
    proof {
        if bounds@.len() <= 1 {
            assert(text::texts(limits.constraints@) =~= Seq::empty());
        }
        assert(text::texts(bounds@).len() == bounds@.len());
    }
    Some(limits)
}

/// Makes what is registered of a definition of a type.
pub fn create_type_info(
    def: &SymbolDefinition,
    surface_fragment: ContextFragment,
    doc_score: Score,
) -> (r: TypeInfo)
    ensures
        r@ == type_info_of(*def, surface_fragment@, doc_score),
{
    let definition = match &def.details {
        SymbolDetails::Type(t) => {
            let type_kind = match t.kind {
                semantic::TypeKind::Class => TypeKind::Class,
                semantic::TypeKind::Interface => TypeKind::Interface,
                semantic::TypeKind::Struct => TypeKind::Struct,
                semantic::TypeKind::Enum => TypeKind::Enum,
                semantic::TypeKind::TypeAlias => TypeKind::TypeAlias,
                semantic::TypeKind::TypeVar => TypeKind::TypeVar,
                _ => TypeKind::Class,
            };
            TypeDefAttribute {
                type_kind,
                is_abstract: t.is_abstract,
                type_param_count: low_word(t.type_params.len()),
                type_var_info: type_var_limits(t),
            }
        },
        _ => TypeDefAttribute {
            type_kind: TypeKind::Class,
            is_abstract: false,
            type_param_count: 0,
            type_var_info: None,
        },
    };
    let context_size: u32 = surface_fragment.context_size;
    TypeInfo {
        definition,
        context_size,
        surface_fragment,
        doc_score,
        documentation: copy_texts(&def.documentation),
    }
}

} // verus!
