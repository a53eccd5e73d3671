//! What parts of texts and scores are, said over texts and bit patterns.

use crate::domain::score::Score;
use crate::domain::text;
use vstd::prelude::*;

verus! {

/// The extension of a path is what stands behind its last full stop, or the whole path
/// where there is none.
pub proof fn law_extension_is_behind_the_last_stop(before: Seq<char>, end: Seq<char>)
    requires
        !end.contains('.'),
    ensures
        text::extension(before.push('.') + end) == end,
        text::extension(end) == end,
    decreases end.len(),
{
    let path = before.push('.') + end;
    if end.len() == 0 {
        assert(path =~= before.push('.'));
        assert(text::extension(path) =~= end);
        assert(text::extension(end) =~= end);
    } else {
        let shorter = end.drop_last();
        assert(!shorter.contains('.')) by {
            if shorter.contains('.') {
                let k = choose|k: int| 0 <= k < shorter.len() && shorter[k] == '.';
                assert(end[k] == '.');
            }
        }
        assert(end[end.len() - 1] != '.');
        law_extension_is_behind_the_last_stop(before, shorter);
        assert(path.drop_last() =~= before.push('.') + shorter);
        assert(path.last() == end.last());
        assert(shorter.push(end.last()) =~= end);
    }
}

/// A line is what stands before a line feed, without a carriage return at its end; what
/// stands behind it are the further lines. A text without a line feed is one line, unless
/// it is empty.
pub proof fn law_lines_end_at_line_feeds(first: Seq<char>, rest: Seq<char>)
    requires
        !first.contains('\n'),
    ensures
        ({
            let line = if first.len() > 0 && first.last() == '\r' {
                first.drop_last()
            } else {
                first
            };
            text::lines(first.push('\n') + rest) == seq![line] + text::lines(rest)
        }),
        first.len() > 0 ==> text::lines(first) == seq![first],
        text::lines(Seq::empty()) == Seq::<Seq<char>>::empty(),
{
    let whole = first.push('\n') + rest;
    let k = first.len() as int;
    assert forall|i: int| 0 <= i < k implies #[trigger] first[i] != '\n' by {
        assert(first.contains(first[i]));
    }
    assert forall|i: int| 0 <= i < k implies #[trigger] whole[i] != '\n' by {
        assert(whole[i] == first[i]);
    }
    assert(whole[k] == '\n');
    lemma_line_feed(whole, k);
    assert(whole.take(k) =~= first);
    assert(whole.skip(k + 1) =~= rest);
    if first.len() > 0 {
        lemma_line_feed(first, k);
    }
}

proof fn lemma_line_feed(source: Seq<char>, k: int)
    requires
        0 <= k <= source.len(),
        forall|i: int| 0 <= i < k ==> source[i] != '\n',
        k < source.len() ==> source[k] == '\n',
    ensures
        text::first_line_feed(source) == k,
    decreases k,
{
    if k > 0 {
        assert(source[0] != '\n');
        let rest = source.skip(1);
        assert forall|i: int| 0 <= i < k - 1 implies rest[i] != '\n' by {
            assert(rest[i] == source[i + 1]);
        }
        lemma_line_feed(rest, k - 1);
    }
}

/// Texts are joined one after the other, with the separator between them and nowhere
/// else.
pub proof fn law_separators_stand_between_texts(
    parts: Seq<Seq<char>>,
    separator: Seq<char>,
    last: Seq<char>,
)
    ensures
        text::joined(Seq::empty(), separator) == Seq::<char>::empty(),
        parts.len() == 0 ==> text::joined(parts.push(last), separator) == last,
        parts.len() > 0 ==> text::joined(parts.push(last), separator) == text::joined(
            parts,
            separator,
        ) + separator + last,
{
    assert(parts.push(last).drop_last() =~= parts);
}

/// A text takes as many bytes as its parts together. A character takes one byte up to
/// the code point 0x7f, two up to 0x7ff, three up to 0xffff, and else four.
pub proof fn law_bytes_add_up(a: Seq<char>, b: Seq<char>, c: char)
    ensures
        text::byte_len(a + b) == text::byte_len(a) + text::byte_len(b),
        text::byte_len(seq![c]) == if c as int <= 0x7f {
            1nat
        } else if c as int <= 0x7ff {
            2
        } else if c as int <= 0xffff {
            3
        } else {
            4
        },
    decreases b.len(),
{
    assert(seq![c].drop_last() =~= Seq::empty());
    assert(text::byte_len(seq![c].drop_last()) == 0);
    if b.len() == 0 {
        assert(a + b =~= a);
    } else {
        law_bytes_add_up(a, b.drop_last(), c);
        assert((a + b).drop_last() =~= a + b.drop_last());
    }
}

/// A text that is cut off after so many bytes keeps its beginning, takes no more bytes,
/// and misses something only if its next character would take more.
pub proof fn law_texts_are_cut_between_characters(source: Seq<char>, limit: int)
    requires
        limit >= 0,
    ensures
        ({
            let r = text::byte_prefix(source, limit);
            &&& r.len() <= source.len()
            &&& r == source.take(r.len() as int)
            &&& text::byte_len(r) <= limit
            &&& r.len() < source.len() ==> text::byte_len(source.take(r.len() as int + 1)) > limit
        }),
    decreases source.len(),
{
    let r = text::byte_prefix(source, limit);
    if source.len() == 0 || text::utf8_len(source[0]) > limit {
        assert(r =~= source.take(0));
        if source.len() > 0 {
            assert(source.take(1) =~= seq![source[0]]);
            assert(seq![source[0]].drop_last() =~= Seq::empty());
            assert(text::byte_len(seq![source[0]].drop_last()) == 0);
        }
    } else {
        let rest = source.skip(1);
        let left = limit - text::utf8_len(source[0]);
        let more = text::byte_prefix(rest, left);
        let first = seq![source[0]];
        law_texts_are_cut_between_characters(rest, left);
        assert(first.drop_last() =~= Seq::empty());
        assert(text::byte_len(first.drop_last()) == 0);
        law_bytes_add_up(first, more, source[0]);
        assert(r =~= source.take(r.len() as int));
        if r.len() < source.len() {
            law_bytes_add_up(first, rest.take(more.len() as int + 1), source[0]);
            assert(source.take(r.len() as int + 1) =~= first + rest.take(more.len() as int + 1));
        }
    }
}

/// Scores are compared as the numbers that they stand for: without a sign bit the larger
/// pattern is the larger number, with a sign bit it is the smaller one, and a number with
/// a sign bit is never larger than one without. What is no number is neither at least nor
/// below anything.
pub proof fn law_scores_are_compared_as_numbers(a: Score, b: Score)
    ensures
        a.bits < 0x8000_0000 && b.bits < 0x8000_0000 && a.bits <= 0x7f80_0000 && b.bits
            <= 0x7f80_0000 ==> (a.spec_at_least(b) <==> a.bits >= b.bits),
        0x8000_0000 <= a.bits <= 0xff80_0000 && 0x8000_0000 <= b.bits <= 0xff80_0000 ==> (
        a.spec_at_least(b) <==> a.bits <= b.bits),
        a.bits <= 0x7f80_0000 && 0x8000_0000 <= b.bits <= 0xff80_0000 ==> a.spec_at_least(b),
        0x8000_0000 < a.bits <= 0xff80_0000 && b.bits <= 0x7f80_0000 ==> !a.spec_at_least(b),
        (0x7f80_0000 < a.bits < 0x8000_0000 || 0xff80_0000 < a.bits) ==> !a.spec_at_least(b)
            && !b.spec_at_least(a) && !a.spec_below(b) && !b.spec_below(a),
        a.spec_below(b) ==> !a.spec_at_least(b) && b.spec_at_least(a),
        (a.bits <= 0x7f80_0000 || 0x8000_0000 <= a.bits <= 0xff80_0000) && (b.bits <= 0x7f80_0000
            || 0x8000_0000 <= b.bits <= 0xff80_0000) ==> (a.spec_below(b)
            <==> !a.spec_at_least(b)),
{
}

} // verus!
