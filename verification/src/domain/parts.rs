//! What the fragments of a definition are, said over the definition and its source.

use crate::domain::fragments;
use crate::domain::node::SourceSpan;
use crate::domain::policy::SizeFunction;
use crate::domain::score::Score;
use crate::domain::semantic;
use crate::domain::semantic::{
    SourceSpan as SemanticSpan, SymbolDefinition, SymbolDetails, SymbolKind,
};
use crate::domain::text;
use crate::domain::type_registry::TypeKind;
use vstd::prelude::*;

verus! {

/// A signature starts where its definition starts. It ends with the first line from
/// there on that holds a colon or a semicolon, at the last byte of that line; where no
/// line does, it is the whole definition.
pub proof fn law_signature_ends_at_the_first_mark(
    span: SemanticSpan,
    source: Seq<char>,
    last: int,
)
    requires
        span.start_line <= last,
        last <= text::lines(source).len(),
        last <= u32::MAX,
        forall|j: int|
            span.start_line <= j < last ==> !(#[trigger] text::lines(source)[j]).contains(':')
                && !text::lines(source)[j].contains(';'),
        last < text::lines(source).len() ==> {
            let line = text::lines(source)[last];
            (line.contains(':') || line.contains(';')) && text::byte_len(line) <= u32::MAX
        },
    ensures
        ({
            let r = fragments::signature_span(span, source);
            let lines = text::lines(source);
            &&& r.start_line == span.start_line
            &&& r.start_column == span.start_column
            &&& last < lines.len() ==> r.end_line == last && r.end_column == text::byte_len(
                lines[last],
            )
            &&& last == lines.len() ==> r.end_line == span.end_line && r.end_column
                == span.end_column
        }),
{
    lemma_first_mark(text::lines(source), span.start_line as int, last);
}

proof fn lemma_first_mark(lines: Seq<Seq<char>>, from: int, last: int)
    requires
        from <= last <= lines.len(),
        forall|j: int|
            from <= j < last ==> !(#[trigger] lines[j]).contains(':') && !lines[j].contains(';'),
        last < lines.len() ==> lines[last].contains(':') || lines[last].contains(';'),
        0 <= from,
    ensures
        fragments::first_marked_line(lines, from) == last,
    decreases last - from,
{
    if from < last {
        lemma_first_mark(lines, from + 1, last);
    }
}

/// The size of a text by itself: nothing for an empty text, and else its size from the
/// first character of its first line to the last of its last.
pub open spec fn standalone_size<S: SizeFunction>(size_function: S, source: Seq<char>) -> int {
    let lines = text::lines(source);
    if source.len() == 0 {
        0
    } else {
        size_function.size(
            source,
            SourceSpan {
                start_line: 0,
                start_column: 0,
                end_line: (if lines.len() > 0 { (lines.len() - 1) % 0x1_0000_0000 } else { 0 }) as u32,
                end_column: (if lines.len() > 0 {
                    lines.last().len() as int % 0x1_0000_0000
                } else {
                    0
                }) as u32,
            },
            Seq::empty(),
        ) as int
    }
}

/// The fragments of a function whose spans are not told apart by its model. The surface
/// has the size of the signature and that of the documentation together. There is an
/// implementation unless only the signature counts; together with the signature it has
/// the size of the whole without documentation, unless the signature alone is larger.
pub proof fn law_functions_are_split_at_their_signatures<S: SizeFunction>(
    def: SymbolDefinition,
    source: Seq<char>,
    size_function: S,
    is_interface_method: bool,
)
    requires
        def.kind == SymbolKind::Function,
        def.details matches SymbolDetails::Function(f) && f.surface_spans@.len() == 0,
    ensures
        ({
            let r = fragments::fragments_of(def, source, size_function, is_interface_method);
            let span = fragments::signature_span(def.span, source);
            let signature = size_function.size(source, span, Seq::empty());
            let texts = def.documentation@.map_values(|part: String| part@);
            let documentation = text::joined(texts, "\n\n"@);
            let surface = signature + standalone_size(size_function, documentation);
            let whole = size_function.size(
                source,
                SourceSpan {
                    start_line: def.span.start_line,
                    start_column: def.span.start_column,
                    end_line: def.span.end_line,
                    end_column: def.span.end_column,
                },
                texts,
            );
            &&& r.surface.span == Some(span)
            &&& surface <= u32::MAX ==> r.surface.context_size == surface
            &&& surface > u32::MAX ==> r.surface.context_size == u32::MAX
            &&& r.implementation is None <==> is_interface_method
                || def.details->Function_0.modifiers.use_signature_only_for_size
            &&& r.implementation is Some ==> r.implementation->0.context_size + signature == if whole
                >= signature {
                whole
            } else {
                signature
            }
        }),
{
    assert(text::texts(def.documentation@) =~= def.documentation@.map_values(
        |part: String| part@,
    ));
}

/// The fragments of a function whose spans are told apart by its model: each has the size
/// of its spans together. There is an implementation exactly if it has spans and not only
/// the signature counts.
pub proof fn law_spans_that_are_told_apart_are_summed<S: SizeFunction>(
    def: SymbolDefinition,
    source: Seq<char>,
    size_function: S,
    is_interface_method: bool,
)
    requires
        def.kind == SymbolKind::Function,
        def.details matches SymbolDetails::Function(f) && f.surface_spans@.len() > 0,
        fragments::spans_representable(def, source, size_function),
    ensures
        ({
            let r = fragments::fragments_of(def, source, size_function, is_interface_method);
            let f = def.details->Function_0;
            let add_size = |total: int, span: SemanticSpan|
                total + size_function.size(
                    source,
                    SourceSpan {
                        start_line: span.start_line,
                        start_column: span.start_column,
                        end_line: span.end_line,
                        end_column: span.end_column,
                    },
                    Seq::empty(),
                );
            &&& r.surface.context_size == f.surface_spans@.fold_left(0int, add_size)
            &&& r.implementation is Some <==> f.implementation_spans@.len() > 0
                && !is_interface_method && !f.modifiers.use_signature_only_for_size
            &&& r.implementation is Some ==> r.implementation->0.context_size
                == f.implementation_spans@.fold_left(0int, add_size)
            &&& r.surface.normalized_text is None
        }),
{
    let f = def.details->Function_0;
    lemma_span_total(size_function, source, f.surface_spans@);
    lemma_span_total(size_function, source, f.implementation_spans@);
}

proof fn lemma_span_total<S: SizeFunction>(
    size_function: S,
    source: Seq<char>,
    spans: Seq<SemanticSpan>,
)
    ensures
        fragments::span_total(size_function, source, spans) == spans.fold_left(
            0int,
            |total: int, span: SemanticSpan|
                total + size_function.size(
                    source,
                    SourceSpan {
                        start_line: span.start_line,
                        start_column: span.start_column,
                        end_line: span.end_line,
                        end_column: span.end_column,
                    },
                    Seq::empty(),
                ),
        ),
    decreases spans.len(),
{
    if spans.len() > 0 {
        lemma_span_total(size_function, source, spans.drop_last());
    }
}

/// What is no function has a surface alone, with the size of its span.
pub proof fn law_only_functions_have_implementations<S: SizeFunction>(
    def: SymbolDefinition,
    source: Seq<char>,
    size_function: S,
    is_interface_method: bool,
)
    requires
        def.kind != SymbolKind::Function,
    ensures
        ({
            let r = fragments::fragments_of(def, source, size_function, is_interface_method);
            let span = SourceSpan {
                start_line: def.span.start_line,
                start_column: def.span.start_column,
                end_line: def.span.end_line,
                end_column: def.span.end_column,
            };
            &&& r.implementation is None
            &&& r.surface.span == Some(span)
            &&& r.surface.context_size == size_function.size(source, span, Seq::empty())
        }),
{
}

/// An external symbol is shown by its name and signature, of which no more than two
/// hundred bytes count, and its documentation in further lines. It never has more than
/// fifty tokens.
pub proof fn law_external_symbols_are_small<S: SizeFunction>(
    def: SymbolDefinition,
    signature: Option<Seq<char>>,
    size_function: S,
)
    ensures
        ({
            let r = fragments::external_surface(def, signature, size_function);
            let shown = r.normalized_text->0;
            let texts = def.documentation@.map_values(|part: String| part@);
            let head = match signature {
                None => def.name@,
                Some(s) => if text::byte_len(s) <= 200 {
                    def.name@ + " "@ + s
                } else {
                    def.name@ + " "@ + text::byte_prefix(s, 200) + "..."@
                },
            };
            &&& r.span is None
            &&& r.normalized_text is Some
            &&& r.context_size <= 50
            &&& r.context_size < 50 ==> r.context_size == size_function.size(
                shown,
                fragments::external_span(shown),
                Seq::empty(),
            )
            &&& texts.len() == 0 ==> shown == head
            &&& texts.len() > 0 ==> shown == head + seq!['\n'] + text::joined(texts, "\n\n"@)
        }),
{
    let texts = def.documentation@.map_values(|part: String| part@);
    assert(text::texts(def.documentation@) =~= texts);
    let r = fragments::external_surface(def, signature, size_function);
    let head = fragments::external_signature(def, signature);
    assert(head.push('\n') =~= head + seq!['\n']);
    if let Some(s) = signature {
        assert(def.name@ + " "@ + (text::byte_prefix(s, 200) + "..."@) =~= def.name@ + " "@
            + text::byte_prefix(s, 200) + "..."@);
    }
}

/// What is registered of a type: whether it is abstract, its kind, where unions and
/// intersections count as classes, and the limits of a type variable: the first of its
/// bounds, and all of them where there are several.
pub proof fn law_types_show_their_definitions(
    def: SymbolDefinition,
    surface: crate::domain::node::FragmentView,
    doc_score: Score,
)
    requires
        def.details is Type,
    ensures
        ({
            let t = def.details->Type_0;
            let r = fragments::type_info_of(def, surface, doc_score);
            let bounds = t.type_params@[0].bounds@;
            let bounded = t.type_params@.len() > 0 && bounds.len() > 0;
            &&& r.is_abstract == t.is_abstract
            &&& r.doc_score == doc_score
            &&& r.surface_fragment == surface
            &&& r.context_size == surface.context_size
            &&& r.type_kind == TypeKind::TypeVar <==> t.kind == semantic::TypeKind::TypeVar
            &&& r.type_kind == TypeKind::Interface <==> t.kind == semantic::TypeKind::Interface
            &&& r.type_kind == TypeKind::Struct <==> t.kind == semantic::TypeKind::Struct
            &&& r.type_kind == TypeKind::Enum <==> t.kind == semantic::TypeKind::Enum
            &&& r.type_kind == TypeKind::TypeAlias <==> t.kind == semantic::TypeKind::TypeAlias
            &&& r.type_var is Some <==> t.kind == semantic::TypeKind::TypeVar
            &&& r.type_var matches Some(limits) ==> {
                &&& limits.bound is Some <==> bounded
                &&& bounded ==> limits.bound->0 == bounds[0]@
                &&& limits.constraints.len() == if bounded && bounds.len() > 1 {
                    bounds.len()
                } else {
                    0
                }
                &&& forall|i: int|
                    0 <= i < limits.constraints.len() ==> #[trigger] limits.constraints[i]
                        == bounds[i]@
            }
        }),
{
    let t = def.details->Type_0;
    if t.type_params@.len() > 0 {
        assert(text::texts(t.type_params@[0].bounds@).len() == t.type_params@[0].bounds@.len());
    }
}

/// A signature lists the parameters of a function in brackets, each with its type where
/// it has one, and behind an arrow its return types as a list of quoted texts. What is no
/// function has none.
pub proof fn law_signatures_list_parameters(
    def: SymbolDefinition,
    parts: Seq<Seq<char>>,
    quoted: Seq<Seq<char>>,
)
    requires
        def.details matches SymbolDetails::Function(f) ==> {
            &&& parts.len() == f.parameters@.len()
            &&& forall|i: int|
                0 <= i < parts.len() ==> #[trigger] parts[i] == match f.parameters@[i].param_type {
                    Some(type_id) => f.parameters@[i].name@ + ": "@ + type_id@,
                    None => f.parameters@[i].name@,
                }
            &&& quoted.len() == f.return_types@.len()
            &&& forall|i: int|
                0 <= i < quoted.len() ==> #[trigger] quoted[i] == text::quoted_of(
                    f.return_types@[i]@,
                )
        },
    ensures
        fragments::signature_text(def) is Some <==> def.details is Function,
        def.details is Function ==> fragments::signature_text(def)->0 == "("@ + text::joined(
            parts,
            ", "@,
        ) + ") -> "@ + ("["@ + text::joined(quoted, ", "@) + "]"@),
{
    if let SymbolDetails::Function(f) = def.details {
        assert(f.parameters@.map_values(
            |p: semantic::Parameter| fragments::parameter_text(p),
        ) =~= parts);
        assert(text::texts(f.return_types@).map_values(
            |item: Seq<char>| text::quoted_of(item),
        ) =~= quoted);
    }
}

} // verus!
