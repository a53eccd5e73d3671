//! Text: order, equality and decimal numerals.

use vstd::prelude::*;
use vstd::string::StringExecFns;

verus! {

/// `String::push` appends the character to the end of the string.
pub assume_specification[ String::push ](s: &mut String, ch: char)
    ensures
        final(s)@ == old(s)@.push(ch),
;

/// Lexicographic order by code points: `a` comes strictly before `b`.
pub open spec fn text_before(a: Seq<char>, b: Seq<char>) -> bool
    decreases b.len(),
{
    if b.len() == 0 {
        false
    } else if a.len() == 0 {
        true
    } else if a[0] != b[0] {
        a[0] < b[0]
    } else {
        text_before(a.drop_first(), b.drop_first())
    }
}

/// The order is total: of two texts one comes first, or they are equal.
pub proof fn lemma_text_order_total(a: Seq<char>, b: Seq<char>)
    ensures
        text_before(a, b) || text_before(b, a) || a == b,
    decreases a.len(),
{
    if a.len() > 0 && b.len() > 0 && a[0] == b[0] {
        lemma_text_order_total(a.drop_first(), b.drop_first());
        if a.drop_first() == b.drop_first() {
            assert(a =~= seq![a[0]] + a.drop_first());
            assert(b =~= seq![b[0]] + b.drop_first());
        }
    } else if a.len() == 0 && b.len() == 0 {
        assert(a =~= b);
    }
}

/// No text comes before itself, nor two texts before each other.
pub proof fn lemma_text_order_strict(a: Seq<char>, b: Seq<char>)
    ensures
        !(text_before(a, b) && text_before(b, a)),
    decreases a.len(),
{
    if a.len() > 0 && b.len() > 0 && a[0] == b[0] {
        lemma_text_order_strict(a.drop_first(), b.drop_first());
    }
}

/// The order is transitive.
pub proof fn lemma_text_order_transitive(a: Seq<char>, b: Seq<char>, c: Seq<char>)
    requires
        text_before(a, b),
        text_before(b, c),
    ensures
        text_before(a, c),
    decreases a.len(),
{
    if a.len() > 0 && b.len() > 0 && c.len() > 0 && a[0] == b[0] && b[0] == c[0] {
        lemma_text_order_transitive(a.drop_first(), b.drop_first(), c.drop_first());
    }
}

/// How two texts stand to each other.
#[derive(Debug, Clone, Copy, PartialEq, Eq, Structural)]
pub enum TextOrder {
    Before,
    Same,
    After,
}

/// Tells which of two texts comes first.
pub fn text_order(a: &str, b: &str) -> (r: TextOrder)
    ensures
        r is Before <==> text_before(a@, b@),
        r is Same <==> a@ == b@,
        r is After <==> text_before(b@, a@),
{
    let mut left = a.chars();
    let mut right = b.chars();
    let ghost mut at: int = 0;
    proof {
        assert(a@.skip(0) =~= a@);
        assert(b@.skip(0) =~= b@);
        lemma_text_order_strict(a@, a@);
        lemma_text_order_strict(a@, b@);
    }
    loop
        invariant
            0 <= at <= a@.len(),
            at <= b@.len(),
            a@.take(at) == b@.take(at),
            vstd::std_specs::iter::IteratorSpec::remaining(&left) == a@.skip(at),
            vstd::std_specs::iter::IteratorSpec::remaining(&right) == b@.skip(at),
            text_before(a@, b@) == text_before(a@.skip(at), b@.skip(at)),
            text_before(b@, a@) == text_before(b@.skip(at), a@.skip(at)),
            !text_before(a@, a@),
            !(text_before(a@, b@) && text_before(b@, a@)),
        decreases a@.len() - at,
    {
        let x = left.next();
        let y = right.next();
        match (x, y) {
            (Some(c), Some(d)) => {
                assert(c == a@[at]);
                assert(d == b@[at]);
                if c < d {
                    return TextOrder::Before;
                }
                if d < c {
                    return TextOrder::After;
                }
                proof {
                    assert(a@.skip(at).drop_first() =~= a@.skip(at + 1));
                    assert(b@.skip(at).drop_first() =~= b@.skip(at + 1));
                    assert(a@.take(at + 1) =~= a@.take(at).push(c));
                    assert(b@.take(at + 1) =~= b@.take(at).push(d));
                    at = at + 1;
                }
            },
            (None, Some(_)) => {
                return TextOrder::Before;
            },
            (Some(_), None) => {
                return TextOrder::After;
            },
            (None, None) => {
                assert(a@ =~= a@.take(at));
                assert(b@ =~= b@.take(at));
                return TextOrder::Same;
            },
        }
    }
}

/// Whether two texts are the same.
pub fn same_text(a: &str, b: &str) -> (r: bool)
    ensures
        r == (a@ == b@),
{
    match text_order(a, b) {
        TextOrder::Same => true,
        _ => false,
    }
}

/// A text that may be absent, as a value of the specification.
pub open spec fn optional_text(text: Option<String>) -> Option<Seq<char>> {
    match text {
        Some(t) => Some(t@),
        None => None,
    }
}

/// The texts of a list.
pub open spec fn texts(list: Seq<String>) -> Seq<Seq<char>> {
    list.map_values(|text: String| text@)
}

/// The decimal digit of a number below ten.
pub open spec fn digit(d: int) -> char {
    (d + 48) as char
}

/// The decimal numeral of a number, without leading zeros.
pub open spec fn decimal(n: nat) -> Seq<char>
    decreases n,
{
    if n < 10 {
        seq![digit(n as int)]
    } else {
        decimal(n / 10).push(digit((n % 10) as int))
    }
}

/// Appends the decimal numeral of `n`.
pub fn push_decimal(text: &mut String, n: u128)
    ensures
        final(text)@ == old(text)@ + decimal(n as nat),
    decreases n,
{
    if n < 10 {
        text.push((n as u8 + 48) as char);
        assert(text@ =~= old(text)@ + decimal(n as nat));
    } else {
        push_decimal(text, n / 10);
        text.push(((n % 10) as u8 + 48) as char);
        assert(text@ =~= old(text)@ + decimal(n as nat));
    }
}

/// The characters of a text.
pub fn chars_of(text: &str) -> (r: Vec<char>)
    ensures
        r@ == text@,
{
    let mut rest = text.chars();
    let mut r: Vec<char> = Vec::new();
    let ghost mut at: int = 0;
    assert(text@.skip(0) =~= text@);
    loop
        invariant
            0 <= at <= text@.len(),
            r@ == text@.take(at),
            vstd::std_specs::iter::IteratorSpec::remaining(&rest) == text@.skip(at),
        decreases text@.len() - at,
    {
        match rest.next() {
            Some(c) => {
                r.push(c);
                proof {
                    assert(text@.skip(at).drop_first() =~= text@.skip(at + 1));
                    assert(text@.take(at + 1) =~= text@.take(at).push(c));
                    at = at + 1;
                }
            },
            None => {
                assert(text@.take(at) =~= text@);
                return r;
            },
        }
    }
}

/// The text of a range of characters.
pub fn text_of(chars: &Vec<char>, from: usize, to: usize) -> (r: String)
    requires
        from <= to <= chars@.len(),
    ensures
        r@ == chars@.subrange(from as int, to as int),
{
    let mut r = String::new();
    let mut i: usize = from;
    assert(r@ =~= chars@.subrange(from as int, from as int));
    while i < to
        invariant
            from <= i <= to <= chars@.len(),
            r@ == chars@.subrange(from as int, i as int),
        decreases to - i,
    {
        r.push(chars[i]);
        i += 1;
        assert(r@ =~= chars@.subrange(from as int, i as int));
    }
    r
}

/// The position of the first line feed, or the length.
pub open spec fn first_line_feed(text: Seq<char>) -> int
    decreases text.len(),
{
    if text.len() == 0 || text[0] == '\n' {
        0
    } else {
        1 + first_line_feed(text.skip(1))
    }
}

/// A text without a carriage return at its end.
pub open spec fn without_return(line: Seq<char>) -> Seq<char> {
    if line.len() > 0 && line.last() == '\r' {
        line.drop_last()
    } else {
        line
    }
}

/// The lines of a text. A line ends with a line feed, which a carriage return may
/// precede; the last line may end with the text.
pub open spec fn lines(text: Seq<char>) -> Seq<Seq<char>>
    decreases text.len(),
{
    if text.len() == 0 {
        Seq::empty()
    } else {
        let k = first_line_feed(text);
        if 0 <= k < text.len() {
            seq![without_return(text.take(k))] + lines(text.skip(k + 1))
        } else {
            seq![text]
        }
    }
}

proof fn lemma_first_line_feed(text: Seq<char>, k: int)
    requires
        0 <= k <= text.len(),
        forall|i: int| 0 <= i < k ==> text[i] != '\n',
        k < text.len() ==> text[k] == '\n',
    ensures
        first_line_feed(text) == k,
    decreases k,
{
    if k > 0 {
        let rest = text.skip(1);
        assert(forall|i: int| 0 <= i < k - 1 ==> rest[i] == text[i + 1]);
        if k < text.len() {
            assert(rest[k - 1] == text[k]);
        }
        lemma_first_line_feed(rest, k - 1);
    }
}

/// Splits a text into lines.
pub fn split_lines(text: &str) -> (r: Vec<String>)
    ensures
        texts(r@) == lines(text@),
{
    let chars = chars_of(text);
    let ghost all = text@;
    let mut r: Vec<String> = Vec::new();
    let mut start: usize = 0;
    let mut i: usize = 0;
    proof {
        assert(all.skip(0) =~= all);
        assert(texts(r@) + lines(all) =~= lines(all));
    }
    while i < chars.len()
        invariant
            chars@ == all,
            start <= i <= all.len(),
            texts(r@) + lines(all.skip(start as int)) == lines(all),
            forall|k: int| start <= k < i ==> all[k] != '\n',
        decreases all.len() - i,
    {
        if chars[i] == '\n' {
            let end: usize = if i > start && chars[i - 1] == '\r' {
                i - 1
            } else {
                i
            };
            let line = text_of(&chars, start, end);
            let ghost before = texts(r@);
            r.push(line);
            proof {
                let rest = all.skip(start as int);
                let k = i - start;
                assert(forall|j: int| 0 <= j < k ==> rest[j] == all[start + j]);
                assert(rest[k] == all[i as int]);
                lemma_first_line_feed(rest, k);
                assert(rest.take(k) =~= all.subrange(start as int, i as int));
                assert(line@ =~= without_return(rest.take(k)));
                assert(rest.skip(k + 1) =~= all.skip(i + 1));
                assert(texts(r@) =~= before.push(line@));
                assert(before + (seq![line@] + lines(all.skip(i + 1))) =~= before.push(line@)
                    + lines(all.skip(i + 1)));
            }
            start = i + 1;
        }
        i += 1;
    }
    let ghost before = texts(r@);
    if start < chars.len() {
        let line = text_of(&chars, start, chars.len());
        r.push(line);
        proof {
            let rest = all.skip(start as int);
            assert(forall|j: int| 0 <= j < rest.len() ==> rest[j] == all[start + j]);
            lemma_first_line_feed(rest, rest.len() as int);
            assert(line@ =~= rest);
            assert(texts(r@) =~= before.push(line@));
            assert(before + seq![rest] =~= before.push(line@));
        }
    } else {
        assert(all.skip(start as int) =~= Seq::empty());
        assert(before + Seq::<Seq<char>>::empty() =~= before);
    }
    r
}

/// Texts joined by a separator.
pub open spec fn joined(parts: Seq<Seq<char>>, separator: Seq<char>) -> Seq<char>
    decreases parts.len(),
{
    if parts.len() == 0 {
        Seq::empty()
    } else if parts.len() == 1 {
        parts[0]
    } else {
        joined(parts.drop_last(), separator) + separator + parts.last()
    }
}

/// Joins texts by a separator.
pub fn join(parts: &Vec<String>, separator: &str) -> (r: String)
    ensures
        r@ == joined(texts(parts@), separator@),
{
    let mut r = String::new();
    let ghost all = texts(parts@);
    let mut i: usize = 0;
    assert(all.take(0) =~= Seq::empty());
    while i < parts.len()
        invariant
            all == texts(parts@),
            i <= parts@.len(),
            r@ == joined(all.take(i as int), separator@),
        decreases parts@.len() - i,
    {
        if i > 0 {
            r.append(separator);
        }
        r.append(parts[i].as_str());
        proof {
            let more = all.take(i + 1);
            assert(more.drop_last() =~= all.take(i as int));
            assert(more.last() == parts@[i as int]@);
            if i == 0 {
                assert(r@ =~= more[0]);
            }
        }
        i += 1;
    }
    assert(all.take(i as int) =~= all);
    r
}

/// How many bytes a character takes in UTF-8.
pub open spec fn utf8_len(c: char) -> nat {
    if (c as u32) < 0x80 {
        1
    } else if (c as u32) < 0x800 {
        2
    } else if (c as u32) < 0x1_0000 {
        3
    } else {
        4
    }
}

/// How many bytes a text takes in UTF-8.
pub open spec fn byte_len(text: Seq<char>) -> nat
    decreases text.len(),
{
    if text.len() == 0 {
        0
    } else {
        byte_len(text.drop_last()) + utf8_len(text.last())
    }
}

fn char_bytes(c: char) -> (n: u8)
    ensures
        n == utf8_len(c),
{
    if (c as u32) < 0x80 {
        1
    } else if (c as u32) < 0x800 {
        2
    } else if (c as u32) < 0x1_0000 {
        3
    } else {
        4
    }
}

proof fn lemma_byte_len_bound(text: Seq<char>)
    ensures
        byte_len(text) <= 4 * text.len(),
    decreases text.len(),
{
    if text.len() > 0 {
        lemma_byte_len_bound(text.drop_last());
    }
}

/// Counts the bytes that a text takes in UTF-8.
pub fn count_bytes(text: &str) -> (n: u128)
    ensures
        n == byte_len(text@),
{
    let chars = chars_of(text);
    let mut n: u128 = 0;
    let mut i: usize = 0;
    assert(text@.take(0) =~= Seq::empty());
    while i < chars.len()
        invariant
            chars@ == text@,
            i <= chars@.len(),
            n == byte_len(text@.take(i as int)),
        decreases chars@.len() - i,
    {
        proof {
            assert(text@.take(i + 1).drop_last() =~= text@.take(i as int));
            lemma_byte_len_bound(text@.take(i as int));
        }
        n = n + char_bytes(chars[i]) as u128;
        i += 1;
    }
    assert(text@.take(i as int) =~= text@);
    n
}

/// The longest part at the start of a text that takes no more than so many bytes.
pub open spec fn byte_prefix(text: Seq<char>, limit: int) -> Seq<char>
    decreases text.len(),
{
    if text.len() == 0 || utf8_len(text[0]) > limit {
        Seq::empty()
    } else {
        seq![text[0]] + byte_prefix(text.skip(1), limit - utf8_len(text[0]))
    }
}

/// Cuts a text off after so many bytes, or before the character that stands there.
pub fn cut_bytes(text: &str, limit: usize) -> (r: String)
    ensures
        r@ == byte_prefix(text@, limit as int),
{
    let chars = chars_of(text);
    let mut r = String::new();
    let mut left: usize = limit;
    let mut i: usize = 0;
    proof {
        assert(text@.skip(0) =~= text@);
        assert(r@ + byte_prefix(text@, limit as int) =~= byte_prefix(text@, limit as int));
    }
    while i < chars.len() && char_bytes(chars[i]) as usize <= left
        invariant
            chars@ == text@,
            i <= chars@.len(),
            r@ + byte_prefix(text@.skip(i as int), left as int) == byte_prefix(
                text@,
                limit as int,
            ),
        decreases chars@.len() - i,
    {
        let c: char = chars[i];
        let ghost before = r@;
        let size: usize = char_bytes(c) as usize;
        r.push(c);
        proof {
            let rest = text@.skip(i as int);
            assert(rest[0] == c);
            assert(rest.skip(1) =~= text@.skip(i + 1));
            let tail = byte_prefix(text@.skip(i + 1), left - size);
            assert(before + (seq![c] + tail) =~= before.push(c) + tail);
        }
        left = left - size;
        i += 1;
    }
    proof {
        assert(byte_prefix(text@.skip(i as int), left as int) =~= Seq::empty());
        assert(r@ + Seq::<char>::empty() =~= r@);
    }
    r
}

/// The part of a text behind its last full stop, or all of it.
pub open spec fn extension(text: Seq<char>) -> Seq<char>
    decreases text.len(),
{
    if text.len() == 0 || text.last() == '.' {
        Seq::empty()
    } else {
        extension(text.drop_last()).push(text.last())
    }
}

/// The part of a text behind its last full stop, or all of it.
pub fn extension_of(text: &str) -> (r: String)
    ensures
        r@ == extension(text@),
{
    let chars = chars_of(text);
    let mut start: usize = chars.len();
    proof {
        assert(text@.take(start as int) =~= text@);
        assert(extension(text@) + text@.skip(start as int) =~= extension(text@));
    }
    while start > 0 && chars[start - 1] != '.'
        invariant
            chars@ == text@,
            start <= chars@.len(),
            extension(text@) == extension(text@.take(start as int)) + text@.skip(start as int),
        decreases start,
    {
        proof {
            let part = text@.take(start as int);
            assert(part.drop_last() =~= text@.take(start - 1));
            assert(extension(part).push(part.last()) == extension(part).push(part.last()));
            assert(extension(text@.take(start - 1)).push(part.last()) + text@.skip(start as int)
                =~= extension(text@.take(start - 1)) + text@.skip(start - 1));
        }
        start = start - 1;
    }
    proof {
        assert(extension(text@.take(start as int)) =~= Seq::empty());
        assert(extension(text@) =~= text@.subrange(start as int, text@.len() as int));
    }
    text_of(&chars, start, chars.len())
}

/// Whether one text occurs in another.
pub open spec fn occurs(needle: Seq<char>, text: Seq<char>) -> bool {
    exists|i: int|
        0 <= i <= text.len() - needle.len() && #[trigger] text.subrange(i, i + needle.len())
            == needle
}

/// Tells whether one text occurs in another.
pub fn contains_text(text: &str, needle: &str) -> (r: bool)
    ensures
        r == occurs(needle@, text@),
{
    let chars = chars_of(text);
    let wanted = chars_of(needle);
    if wanted.len() > chars.len() {
        return false;
    }
    let total: usize = chars.len();
    let last: usize = total - wanted.len();
    let mut i: usize = 0;
    while i <= last
        invariant
            chars@ == text@,
            wanted@ == needle@,
            total == text@.len(),
            last == total - needle@.len(),
            i <= last + 1,
            last < usize::MAX || i <= last,
            forall|k: int|
                0 <= k < i ==> #[trigger] text@.subrange(k, k + needle@.len()) != needle@,
        decreases last + 1 - i,
    {
        let mut j: usize = 0;
        while j < wanted.len() && chars[i + j] == wanted[j]
            invariant
                chars@ == text@,
                wanted@ == needle@,
                total == text@.len(),
                last == total - needle@.len(),
                i <= last,
                j <= wanted@.len(),
                forall|k: int| 0 <= k < j ==> text@[i + k] == #[trigger] needle@[k],
            decreases wanted@.len() - j,
        {
            j += 1;
        }
        if j == wanted.len() {
            assert(text@.subrange(i as int, i + needle@.len()) =~= needle@);
            return true;
        }
        assert(text@.subrange(i as int, i + needle@.len())[j as int] != needle@[j as int]);
        if i == last {
            return false;
        }
        i += 1;
    }
    false
}

/// What `str::to_lowercase` makes of a text.
pub uninterp spec fn lowercase_of(text: Seq<char>) -> Seq<char>;

/// `str::to_lowercase` maps the characters of a text to lower case by the tables of
/// Unicode. Its result is named; nothing else is claimed of it.
#[verifier::external_body]
pub(crate) fn lowercase(text: &str) -> (r: String)
    ensures
        r@ == lowercase_of(text@),
{
    text.to_lowercase()
}

/// What the debug format makes of a text.
pub uninterp spec fn quoted_of(text: Seq<char>) -> Seq<char>;

/// The debug format of `str` puts a text in quotation marks and escapes characters
/// in it. Its result is named; nothing else is claimed of it.
#[verifier::external_body]
pub(crate) fn quoted(text: &str) -> (r: String)
    ensures
        r@ == quoted_of(text@),
{
    format!("{:?}", text)
}

/// The debug format of a list of texts.
pub open spec fn quoted_list(list: Seq<Seq<char>>) -> Seq<char> {
    "["@ + joined(list.map_values(|text: Seq<char>| quoted_of(text)), ", "@) + "]"@
}

/// Writes a list of texts in quotation marks.
pub fn format_list(list: &Vec<String>) -> (r: String)
    ensures
        r@ == quoted_list(texts(list@)),
{
    let ghost all = texts(list@).map_values(|text: Seq<char>| quoted_of(text));
    let mut parts: Vec<String> = Vec::new();
    let mut i: usize = 0;
    while i < list.len()
        invariant
            all == texts(list@).map_values(|text: Seq<char>| quoted_of(text)),
            i <= list@.len(),
            texts(parts@) == all.take(i as int),
        decreases list@.len() - i,
    {
        let ghost before = texts(parts@);
        let part = quoted(list[i].as_str());
        parts.push(part);
        assert(texts(parts@) =~= before.push(part@));
        assert(all.take(i + 1) =~= before.push(all[i as int]));
        i += 1;
    }
    assert(all.take(i as int) =~= all);
    let mut r = String::from_str("[");
    r.append(join(&parts, ", ").as_str());
    r.append("]");
    r
}

/// Copies a list of texts.
pub fn copy_texts(list: &Vec<String>) -> (r: Vec<String>)
    ensures
        r@ == list@,
{
    let mut r: Vec<String> = Vec::new();
    let mut i: usize = 0;
    while i < list.len()
        invariant
            i <= list@.len(),
            r@ == list@.take(i as int),
        decreases list@.len() - i,
    {
        r.push(list[i].clone());
        i += 1;
        assert(r@ =~= list@.take(i as int));
    }
    assert(list@.take(i as int) =~= list@);
    r
}

/// The low 32 bits of a count.
pub fn low_word(n: usize) -> (r: u32)
    ensures
        r == n as int % 0x1_0000_0000,
{
    let wide: u64 = n as u64;
    let rest: u64 = wide % 0x1_0000_0000;
    rest as u32
}

} // verus!
