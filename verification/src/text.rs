//! Text as sequences of characters: what it is for one text to contain
//! another or to start with it, what the lines of a text are, and functions
//! that decide and compute these on strings, working on their bytes.

use crate::encoding::{
    cut, is_ascii_char, lemma_boundary_splits, lemma_byte_absent, lemma_encode_ascii,
    lemma_encode_concat, lemma_encode_injective, lemma_encode_len, lemma_encoded_prefix,
    lemma_prefix_encoded,
};
use vstd::prelude::*;
use vstd::utf8::*;

verus! {

/// `needle` stands in `hay` at index `at`, element for element.
pub open spec fn occurs_at<T>(hay: Seq<T>, needle: Seq<T>, at: int) -> bool {
    &&& 0 <= at
    &&& at + needle.len() <= hay.len()
    &&& hay.subrange(at, at + needle.len()) == needle
}

/// The text `needle` is a contiguous part of the text `hay`.
pub open spec fn contains_text(hay: Seq<char>, needle: Seq<char>) -> bool {
    exists|at: int| occurs_at(hay, needle, at)
}

/// The bytes `needle` are a contiguous part of the bytes `hay`.
pub open spec fn contains_bytes(hay: Seq<u8>, needle: Seq<u8>) -> bool {
    exists|at: int| occurs_at(hay, needle, at)
}

/// The number of characters of `text` before the first `stop`; the length of
/// `text` where it holds none.
pub open spec fn len_before(text: Seq<char>, stop: char) -> int
    decreases text.len(),
{
    if text.len() == 0 || text[0] == stop {
        0
    } else {
        1 + len_before(text.drop_first(), stop)
    }
}

/// The number of characters of `text` before its first line feed.
pub open spec fn first_line_len(text: Seq<char>) -> int {
    len_before(text, '\n')
}

/// `line` without the carriage return that it ends with, if it ends with one.
pub open spec fn without_carriage_return(line: Seq<char>) -> Seq<char> {
    if line.len() > 0 && line.last() == '\r' {
        line.drop_last()
    } else {
        line
    }
}

/// The lines of `text`. A line ends at a line feed, or at a carriage return
/// directly followed by one; neither is part of the line. What follows the
/// last line feed is a line of its own unless it is empty, and keeps a
/// carriage return that it may end with.
pub open spec fn lines(text: Seq<char>) -> Seq<Seq<char>>
    decreases text.len(),
{
    if text.len() == 0 {
        Seq::empty()
    } else {
        let n = first_line_len(text);
        if 0 <= n < text.len() {
            seq![without_carriage_return(text.take(n))] + lines(text.skip(n + 1))
        } else {
            seq![text]
        }
    }
}

/// `len_before` is the least index that holds `stop`, or the length.
pub proof fn lemma_len_before(text: Seq<char>, stop: char)
    ensures
        0 <= len_before(text, stop) <= text.len(),
        forall|i: int| 0 <= i < len_before(text, stop) ==> text[i] != stop,
        len_before(text, stop) < text.len() ==> text[len_before(text, stop)] == stop,
    decreases text.len(),
{
    if text.len() == 0 || text[0] == stop {
    } else {
        let rest = text.drop_first();
        let n = len_before(text, stop);
        lemma_len_before(rest, stop);
        assert forall|i: int| 0 <= i < n implies text[i] != stop by {
            if i > 0 {
                assert(text[i] == rest[i - 1]);
            }
        }
        if n < text.len() {
            assert(text[n] == rest[n - 1]);
        }
    }
}

/// An index that holds `stop`, or the length, before which `stop` does not
/// occur is `len_before`.
pub proof fn lemma_len_before_is(text: Seq<char>, stop: char, n: int)
    requires
        0 <= n <= text.len(),
        forall|i: int| 0 <= i < n ==> text[i] != stop,
        n < text.len() ==> text[n] == stop,
    ensures
        len_before(text, stop) == n,
{
    lemma_len_before(text, stop);
}

/// No line holds a line feed.
pub proof fn lemma_lines_hold_no_line_feed(text: Seq<char>, i: int)
    requires
        0 <= i < lines(text).len(),
    ensures
        forall|j: int| 0 <= j < lines(text)[i].len() ==> lines(text)[i][j] != '\n',
    decreases text.len(),
{
    lemma_len_before(text, '\n');
    let n = first_line_len(text);
    let line = lines(text)[i];
    if n < text.len() {
        let rest = lines(text.skip(n + 1));
        assert(lines(text) == seq![without_carriage_return(text.take(n))] + rest);
        if i > 0 {
            lemma_lines_hold_no_line_feed(text.skip(n + 1), i - 1);
            assert(line == rest[i - 1]);
        } else {
            assert(line == without_carriage_return(text.take(n)));
            assert forall|j: int| 0 <= j < line.len() implies line[j] != '\n' by {
                assert(line[j] == text[j]);
            }
        }
    } else {
        assert(line == text);
    }
}

/// A line feed at the very end of a text adds no line: a text that ends
/// with neither a line feed nor a carriage return has the same lines with
/// a line feed behind it.
pub proof fn lemma_lines_final_line_feed(text: Seq<char>)
    requires
        text.len() > 0,
        text.last() != '\n',
        text.last() != '\r',
    ensures
        lines(text.push('\n')) == lines(text),
    decreases text.len(),
{
    let longer = text.push('\n');
    let n = first_line_len(text);
    lemma_len_before(text, '\n');
    lemma_len_before_is(longer, '\n', n);
    assert(longer.take(n) =~= text.take(n));
    if n < text.len() {
        let rest = text.skip(n + 1);
        assert(longer.skip(n + 1) =~= rest.push('\n'));
        assert(rest.len() > 0 && rest.last() == text.last());
        lemma_lines_final_line_feed(rest);
    } else {
        assert(text.take(n) =~= text);
        assert(longer.skip(n + 1) =~= Seq::<char>::empty());
        assert(lines(longer.skip(n + 1)) =~= Seq::<Seq<char>>::empty());
        assert(lines(longer) =~= seq![text]);
    }
}

/// Whether `a` and `b` hold the same characters.
pub fn same_text(a: &str, b: &str) -> (same: bool)
    ensures
        same == (a@ == b@),
{
    let left = a.as_bytes();
    let right = b.as_bytes();
    if left.len() != right.len() {
        return false;
    }
    let mut i: usize = 0;
    while i < left.len()
        invariant
            left@ == encode_utf8(a@),
            right@ == encode_utf8(b@),
            left@.len() == right@.len(),
            i <= left@.len(),
            forall|j: int| 0 <= j < i ==> left@[j] == right@[j],
        decreases left@.len() - i,
    {
        if left[i] != right[i] {
            return false;
        }
        i += 1;
    }
    proof {
        assert(left@ =~= right@);
        lemma_encode_injective(a@, b@);
    }
    true
}

/// Whether `needle` stands in `hay` at index `at`.
fn matches_at(hay: &[u8], needle: &[u8], at: usize) -> (found: bool)
    requires
        at + needle@.len() <= hay@.len(),
    ensures
        found == occurs_at(hay@, needle@, at as int),
{
    let size: usize = hay.len();
    let mut k: usize = 0;
    while k < needle.len()
        invariant
            k <= needle@.len(),
            at + needle@.len() <= hay@.len() == size,
            forall|j: int| 0 <= j < k ==> hay@[at + j] == needle@[j],
        decreases needle@.len() - k,
    {
        if hay[at + k] != needle[k] {
            proof {
                let part = hay@.subrange(at as int, at + needle@.len());
                assert(part[k as int] == hay@[at + k]);
            }
            return false;
        }
        k += 1;
    }
    assert(hay@.subrange(at as int, at + needle@.len()) =~= needle@);
    true
}

/// Whether the bytes `needle` are a contiguous part of the bytes `hay`.
pub fn bytes_contain(hay: &[u8], needle: &[u8]) -> (found: bool)
    ensures
        found == contains_bytes(hay@, needle@),
{
    let size: usize = hay.len();
    let width: usize = needle.len();
    if width == 0 {
        assert(hay@.subrange(0, 0) =~= needle@);
        assert(occurs_at(hay@, needle@, 0));
        return true;
    }
    let mut at: usize = 0;
    while width <= size - at
        invariant
            size == hay@.len(),
            width == needle@.len(),
            0 < width,
            at <= size,
            forall|i: int| 0 <= i < at ==> !occurs_at(hay@, needle@, i),
        decreases size - at,
    {
        if matches_at(hay, needle, at) {
            return true;
        }
        at += 1;
    }
    false
}

/// One text contains another exactly where the encoding of the one contains
/// the encoding of the other.
pub proof fn lemma_contains_encoded(hay: Seq<char>, needle: Seq<char>)
    ensures
        contains_text(hay, needle) <==> contains_bytes(encode_utf8(hay), encode_utf8(needle)),
{
    let wide = encode_utf8(hay);
    let narrow = encode_utf8(needle);
    if contains_text(hay, needle) {
        let at = choose|at: int| occurs_at(hay, needle, at);
        let before = hay.take(at);
        let after = hay.skip(at + needle.len());
        assert(hay =~= before + (needle + after));
        lemma_encode_concat(before, needle + after);
        lemma_encode_concat(needle, after);
        let start = encode_utf8(before).len() as int;
        assert(wide.subrange(start, start + narrow.len()) =~= narrow);
        assert(occurs_at(wide, narrow, start));
    }
    if contains_bytes(wide, narrow) {
        let start = choose|start: int| occurs_at(wide, narrow, start);
        if needle.len() == 0 {
            assert(hay.subrange(0, 0) =~= needle);
            assert(occurs_at(hay, needle, 0));
        } else {
            lemma_encode_len(needle);
            encode_utf8_first_scalar(needle);
            assert(wide[start] == wide.subrange(start, start + narrow.len())[0]);
            assert(!is_continuation_byte(narrow[0]));
            lemma_boundary_splits(hay, start);
            let at = choose|k: int|
                0 <= k <= hay.len() && encode_utf8(#[trigger] hay.take(k)).len() == start
                    && encode_utf8(hay.skip(k)) == wide.skip(start);
            assert(narrow =~= wide.skip(start).subrange(0, narrow.len() as int));
            lemma_encoded_prefix(needle, hay.skip(at));
            assert(hay.subrange(at, at + needle.len()) =~= hay.skip(at).subrange(
                0,
                needle.len() as int,
            ));
            assert(occurs_at(hay, needle, at));
        }
    }
}

/// Whether `needle` is a contiguous part of `hay`.
pub fn contains(hay: &str, needle: &str) -> (found: bool)
    ensures
        found == contains_text(hay@, needle@),
{
    proof {
        lemma_contains_encoded(hay@, needle@);
    }
    bytes_contain(hay.as_bytes(), needle.as_bytes())
}

/// Whether `text` starts with `prefix`.
pub fn starts_with(text: &str, prefix: &str) -> (found: bool)
    ensures
        found == prefix@.is_prefix_of(text@),
{
    let wide = text.as_bytes();
    let narrow = prefix.as_bytes();
    proof {
        if prefix@.is_prefix_of(text@) {
            lemma_prefix_encoded(prefix@, text@);
        }
        if narrow@.is_prefix_of(wide@) {
            lemma_encoded_prefix(prefix@, text@);
        }
    }
    narrow.len() <= wide.len() && matches_at(wide, narrow, 0)
}

/// What follows `prefix` in `text`, where `text` starts with `prefix`.
pub fn strip_prefix<'a>(text: &'a str, prefix: &str) -> (out: Option<&'a str>)
    ensures
        match out {
            Some(rest) => prefix@.is_prefix_of(text@) && rest@ == text@.skip(
                prefix@.len() as int,
            ),
            None => !prefix@.is_prefix_of(text@),
        },
{
    if !starts_with(text, prefix) {
        return None;
    }
    let mid: usize = prefix.as_bytes().len();
    proof {
        let rest = text@.skip(prefix@.len() as int);
        assert(text@ =~= prefix@ + rest);
        lemma_encode_concat(prefix@, rest);
        if rest.len() > 0 {
            encode_utf8_first_scalar(rest);
            assert(encode_utf8(text@)[mid as int] == encode_utf8(rest)[0]);
        } else {
            lemma_encode_len(rest);
        }
        lemma_boundary_splits(text@, mid as int);
    }
    let (head, rest) = cut(text, mid);
    proof {
        lemma_prefix_encoded(prefix@, text@);
        assert(encode_utf8(head@) =~= encode_utf8(prefix@));
        lemma_encode_injective(head@, prefix@);
        assert(rest@ =~= text@.skip(prefix@.len() as int));
    }
    Some(rest)
}

/// What stands in `text` before the first `stop`, and what follows that
/// `stop`; nothing follows where `text` holds no `stop`.
pub(crate) fn split_at_first<'a>(text: &'a str, stop: char) -> (parts: (&'a str, Option<&'a str>))
    requires
        is_ascii_char(stop),
    ensures
        parts.0@ == text@.take(len_before(text@, stop)),
        match parts.1 {
            Some(rest) => len_before(text@, stop) < text@.len() && rest@ == text@.skip(
                len_before(text@, stop) + 1,
            ),
            None => len_before(text@, stop) == text@.len(),
        },
{
    let bytes = text.as_bytes();
    let size: usize = bytes.len();
    let mark: u8 = stop as u8;
    let mut at: usize = 0;
    while at < size && bytes[at] != mark
        invariant
            size == bytes@.len(),
            at <= size,
            forall|j: int| 0 <= j < at ==> bytes@[j] != mark,
        decreases size - at,
    {
        at += 1;
    }
    if at == size {
        proof {
            lemma_byte_absent(text@, stop);
            lemma_len_before_is(text@, stop, text@.len() as int);
            assert(text@.take(text@.len() as int) =~= text@);
        }
        return (text, None);
    }
    proof {
        lemma_boundary_splits(text@, at as int);
    }
    let (head, tail) = cut(text, at);
    proof {
        encode_utf8_valid_utf8(tail@);
        let rest = encode_utf8(tail@);
        assert(rest[0] == mark);
        assert(length_of_first_scalar(rest) == 1);
        assert(is_char_boundary(pop_first_scalar(rest), 0));
        assert(is_char_boundary(rest, 1));
    }
    let (single, rest) = cut(tail, 1);
    proof {
        lemma_encode_ascii(stop);
        assert(encode_utf8(single@) =~= seq![mark]);
        lemma_encode_injective(single@, seq![stop]);
        lemma_byte_absent(head@, stop);
        assert(text@ =~= head@ + (seq![stop] + rest@));
        lemma_len_before_is(text@, stop, head@.len() as int);
        assert(text@.take(head@.len() as int) =~= head@);
        assert(text@.skip(head@.len() as int + 1) =~= rest@);
    }
    (head, Some(rest))
}

/// The first line of `text` as it stands, and what follows the line feed that
/// ends it; nothing follows where `text` holds no line feed.
pub fn split_first_line<'a>(text: &'a str) -> (parts: (&'a str, Option<&'a str>))
    ensures
        parts.0@ == text@.take(first_line_len(text@)),
        match parts.1 {
            Some(rest) => first_line_len(text@) < text@.len() && rest@ == text@.skip(
                first_line_len(text@) + 1,
            ),
            None => first_line_len(text@) == text@.len(),
        },
{
    split_at_first(text, '\n')
}

/// `line` without the carriage return that it ends with, if it ends with one.
pub fn trim_carriage_return<'a>(line: &'a str) -> (out: &'a str)
    ensures
        out@ == without_carriage_return(line@),
{
    let bytes = line.as_bytes();
    let size: usize = bytes.len();
    proof {
        encode_utf8_valid_utf8(line@);
    }
    if size > 0 && bytes[size - 1] == 0x0D {
        proof {
            is_char_boundary_iff_not_is_continuation_byte(bytes@, size - 1);
        }
        let (head, tail) = cut(line, size - 1);
        proof {
            lemma_encode_ascii('\r');
            assert(encode_utf8(tail@) =~= seq![0x0Du8]);
            lemma_encode_injective(tail@, seq!['\r']);
            assert(line@.drop_last() =~= head@);
        }
        head
    } else {
        proof {
            if line@.len() > 0 && line@.last() == '\r' {
                assert(line@ =~= line@.drop_last() + seq!['\r']);
                lemma_encode_concat(line@.drop_last(), seq!['\r']);
                lemma_encode_ascii('\r');
            }
        }
        line
    }
}

/// The lines of `text`, each a part of `text` itself.
pub fn lines_of<'a>(text: &'a str) -> (out: Vec<&'a str>)
    ensures
        out.deep_view() == lines(text@),
{
    let mut out: Vec<&'a str> = Vec::new();
    let mut rest: &'a str = text;
    while !rest.is_empty()
        invariant
            lines(text@) == out.deep_view() + lines(rest@),
        decreases rest@.len(),
    {
        let ghost before = out.deep_view();
        let (head, tail) = split_first_line(rest);
        match tail {
            Some(next) => {
                let line = trim_carriage_return(head);
                out.push(line);
                proof {
                    lemma_len_before(rest@, '\n');
                    assert(lines(rest@) == seq![line@] + lines(next@));
                    assert(out.deep_view() =~= before + seq![line@]);
                    assert(lines(text@) =~= out.deep_view() + lines(next@));
                }
                rest = next;
            },
            None => {
                out.push(head);
                proof {
                    reveal_strlit("");
                    assert(head@ =~= rest@);
                    assert(out.deep_view() =~= before + seq![head@]);
                    assert(lines(text@) =~= out.deep_view() + lines(""@));
                }
                rest = "";
            },
        }
    }
    proof {
        assert(out.deep_view() + lines(rest@) =~= out.deep_view());
    }
    out
}

} // verus!
