//! Text: what the protocols of this crate do with characters.

use vstd::prelude::*;
use vstd::slice::slice_subrange;
use vstd::utf8::{decode_utf8, encode_utf8, valid_utf8};

verus! {

/// `str::from_utf8`: the text some bytes are the UTF-8 encoding of, if they
/// are one.
#[verifier::external_body]
pub(crate) fn utf8(bytes: &[u8]) -> (text: Option<&str>)
    ensures
        text is Some <==> valid_utf8(bytes@),
        text matches Some(text) ==> text@ == decode_utf8(bytes@),
{
    match std::str::from_utf8(bytes) {
        Ok(text) => Some(text),
        Err(_) => None,
    }
}

/// `String::push`: appends one character.
pub assume_specification[ std::string::String::push ](text: &mut std::string::String, c: char)
    ensures
        final(text)@ == old(text)@.push(c),
;

/// Texts with one encoding are one text.
pub proof fn lemma_encoding_is_injective(a: Seq<char>, b: Seq<char>)
    requires
        encode_utf8(a) == encode_utf8(b),
    ensures
        a == b,
{
    broadcast use vstd::utf8::encode_utf8_decode_utf8;

    assert(decode_utf8(encode_utf8(a)) == a);
    assert(decode_utf8(encode_utf8(b)) == b);
}

/// Whether two runs of bytes are the same.
pub(crate) fn same_bytes(a: &[u8], b: &[u8]) -> (same: bool)
    ensures
        same == (a@ == b@),
{
    if a.len() != b.len() {
        return false;
    }
    let mut i: usize = 0;
    while i < a.len()
        invariant
            i <= a@.len(),
            a@.len() == b@.len(),
            forall|j: int| 0 <= j < i ==> a@[j] == b@[j],
        decreases a@.len() - i,
    {
        if a[i] != b[i] {
            return false;
        }
        i = i + 1;
    }
    assert(a@ =~= b@);
    true
}

/// Whether two texts are the same.
pub(crate) fn same_text(a: &str, b: &str) -> (same: bool)
    ensures
        same == (a@ == b@),
{
    let same = same_bytes(a.as_bytes(), b.as_bytes());
    proof {
        if same {
            lemma_encoding_is_injective(a@, b@);
        }
    }
    same
}

/// A hexadecimal digit, in lower case.
pub open spec fn hex_digit(n: int) -> char {
    if n < 10 {
        (0x30 + n) as u8 as char
    } else {
        (0x61 + (n - 10)) as u8 as char
    }
}

/// A byte in two hexadecimal digits.
pub open spec fn hex_byte(byte: u8) -> Seq<char> {
    seq![hex_digit(byte as int / 16), hex_digit(byte as int % 16)]
}

/// Bytes in two hexadecimal digits each.
pub open spec fn hex_text(bytes: Seq<u8>) -> Seq<char>
    decreases bytes.len(),
{
    if bytes.len() == 0 {
        Seq::empty()
    } else {
        hex_text(bytes.drop_last()) + hex_byte(bytes.last())
    }
}

fn digit(n: u8) -> (c: char)
    requires
        n < 16,
    ensures
        c == hex_digit(n as int),
{
    if n < 10 {
        (0x30 + n) as char
    } else {
        (0x61 + (n - 10)) as char
    }
}

/// Appends a byte in two hexadecimal digits.
pub(crate) fn push_hex(text: &mut String, byte: u8)
    ensures
        final(text)@ == old(text)@ + hex_byte(byte),
{
    text.push(digit(byte / 16));
    text.push(digit(byte % 16));
    assert(text@ =~= old(text)@ + hex_byte(byte));
}

/// Appends text.
pub(crate) fn push_text(text: &mut String, more: &str)
    ensures
        final(text)@ == old(text)@ + more@,
{
    text.append(more);
}

/// Text on end is encoded as its parts are.
pub proof fn lemma_encoding_joins(a: Seq<char>, b: Seq<char>)
    ensures
        encode_utf8(a + b) == encode_utf8(a) + encode_utf8(b),
    decreases a.len(),
{
    if a.len() == 0 {
        assert(a + b =~= b);
        assert(encode_utf8(a) + encode_utf8(b) =~= encode_utf8(b));
    } else {
        lemma_encoding_joins(a.drop_first(), b);
        assert((a + b).drop_first() =~= a.drop_first() + b);
        assert(encode_utf8(a + b) =~= encode_utf8(a) + encode_utf8(b));
    }
}

/// A character is encoded in one to four bytes.
pub proof fn lemma_encoded_length(text: Seq<char>)
    ensures
        text.len() <= encode_utf8(text).len() <= 4 * text.len(),
    decreases text.len(),
{
    if text.len() > 0 {
        lemma_encoded_length(text.drop_first());
    }
}

/// A part of a text is encoded in no more bytes than the whole.
pub proof fn lemma_part_encodes_shorter(text: Seq<char>, from: int, to: int)
    requires
        0 <= from <= to <= text.len(),
    ensures
        encode_utf8(text.subrange(from, to)).len() <= encode_utf8(text).len(),
{
    let (before, part, after) = (text.take(from), text.subrange(from, to), text.skip(to));
    lemma_encoding_joins(before, part);
    lemma_encoding_joins(before + part, after);
    assert(before + part + after =~= text);
}

/// The characters of a text.
pub(crate) fn characters(text: &str) -> (characters: Vec<char>)
    ensures
        characters@ == text@,
{
    let mut characters: Vec<char> = Vec::new();
    for c in iter: text.chars()
        invariant
            iter.seq() == text@,
            characters@ == text@.take(iter.index()),
    {
        characters.push(c);
        assert(characters@ =~= text@.take(iter.index() + 1));
    }
    assert(characters@ =~= text@);
    characters
}

/// The text that characters make.
pub(crate) fn text_of(characters: &[char]) -> (text: String)
    ensures
        text@ == characters@,
{
    let mut text = String::new();
    let mut i: usize = 0;
    while i < characters.len()
        invariant
            i <= characters@.len(),
            text@ == characters@.take(i as int),
        decreases characters@.len() - i,
    {
        text.push(characters[i]);
        i = i + 1;
        assert(text@ =~= characters@.take(i as int));
    }
    assert(text@ =~= characters@);
    text
}

/// What is cut from the ends of a text.
#[derive(Clone, Copy)]
pub enum Edge {
    Slash,
    Whitespace,
}

/// Whether a character is white space, as Unicode has it.
pub open spec fn is_space(c: char) -> bool {
    let n = c as u32;
    ||| 0x09 <= n <= 0x0d
    ||| n == 0x20
    ||| n == 0x85
    ||| n == 0xa0
    ||| n == 0x1680
    ||| 0x2000 <= n <= 0x200a
    ||| n == 0x2028
    ||| n == 0x2029
    ||| n == 0x202f
    ||| n == 0x205f
    ||| n == 0x3000
}

pub(crate) fn space(c: char) -> (space: bool)
    ensures
        space == is_space(c),
{
    let n: u32 = c as u32;
    (0x09 <= n && n <= 0x0d) || n == 0x20 || n == 0x85 || n == 0xa0 || n == 0x1680 || (0x2000 <= n
        && n <= 0x200a) || n == 0x2028 || n == 0x2029 || n == 0x202f || n == 0x205f || n == 0x3000
}

impl Edge {
    /// Whether a character is cut.
    pub open spec fn cuts(self, c: char) -> bool {
        match self {
            Edge::Slash => c == '/',
            Edge::Whitespace => is_space(c),
        }
    }

    fn is_cut(self, c: char) -> (cut: bool)
        ensures
            cut == self.cuts(c),
    {
        match self {
            Edge::Slash => c == '/',
            Edge::Whitespace => space(c),
        }
    }
}

/// A text without what is cut from its start.
pub open spec fn trim_start(text: Seq<char>, edge: Edge) -> Seq<char>
    decreases text.len(),
{
    if text.len() > 0 && edge.cuts(text.first()) {
        trim_start(text.drop_first(), edge)
    } else {
        text
    }
}

/// A text without what is cut from its end.
pub open spec fn trim_end(text: Seq<char>, edge: Edge) -> Seq<char>
    decreases text.len(),
{
    if text.len() > 0 && edge.cuts(text.last()) {
        trim_end(text.drop_last(), edge)
    } else {
        text
    }
}

/// A text without what is cut from its ends.
pub open spec fn trim(text: Seq<char>, edge: Edge) -> Seq<char> {
    trim_end(trim_start(text, edge), edge)
}

/// A trimmed text is part of the text.
pub proof fn lemma_trim_is_part(text: Seq<char>, edge: Edge)
    ensures
        exists|from: int, to: int|
            0 <= from <= to <= text.len() && trim(text, edge) == #[trigger] text.subrange(from, to),
{
    lemma_trim_start_is_part(text, edge);
    let from = text.len() - trim_start(text, edge).len();
    let rest = trim_start(text, edge);
    lemma_trim_end_is_part(rest, edge);
    let to = from + trim(text, edge).len();
    assert(trim(text, edge) =~= text.subrange(from, to));
}

proof fn lemma_trim_start_is_part(text: Seq<char>, edge: Edge)
    ensures
        trim_start(text, edge).len() <= text.len(),
        trim_start(text, edge) == text.skip(text.len() - trim_start(text, edge).len()),
    decreases text.len(),
{
    if text.len() > 0 && edge.cuts(text.first()) {
        lemma_trim_start_is_part(text.drop_first(), edge);
    }
    assert(trim_start(text, edge) =~= text.skip(text.len() - trim_start(text, edge).len()));
}

proof fn lemma_trim_end_is_part(text: Seq<char>, edge: Edge)
    ensures
        trim_end(text, edge).len() <= text.len(),
        trim_end(text, edge) == text.take(trim_end(text, edge).len() as int),
    decreases text.len(),
{
    if text.len() > 0 && edge.cuts(text.last()) {
        lemma_trim_end_is_part(text.drop_last(), edge);
    }
    assert(trim_end(text, edge) =~= text.take(trim_end(text, edge).len() as int));
}

/// Cuts the ends off a text.
pub(crate) fn trim_chars(text: &[char], edge: Edge) -> (trimmed: &[char])
    ensures
        trimmed@ == trim(text@, edge),
{
    let mut from: usize = 0;
    assert(text@.skip(0) =~= text@);
    while from < text.len() && edge.is_cut(text[from])
        invariant
            from <= text@.len(),
            trim_start(text@, edge) == trim_start(text@.skip(from as int), edge),
        decreases text@.len() - from,
    {
        assert(text@.skip(from as int).drop_first() =~= text@.skip(from + 1));
        from = from + 1;
    }
    let ghost rest = text@.skip(from as int);
    assert(trim_start(text@, edge) == rest);
    let mut to: usize = text.len();
    assert(rest.take(to - from) =~= rest);
    while to > from && edge.is_cut(text[to - 1])
        invariant
            from <= to <= text@.len(),
            rest == text@.skip(from as int),
            trim_end(rest, edge) == trim_end(rest.take(to - from), edge),
        decreases to,
    {
        assert(rest.take(to - from).drop_last() =~= rest.take(to - from - 1));
        assert(rest.take(to - from).last() == text@[to - 1]);
        to = to - 1;
    }
    let trimmed = slice_subrange(text, from, to);
    assert(trimmed@ =~= rest.take(to - from));
    proof {
        if to > from {
            assert(rest.take(to - from).last() == text@[to - 1]);
        }
    }
    trimmed
}

/// What comes before the first of a character, or all of the text.
pub open spec fn before(text: Seq<char>, c: char) -> Seq<char>
    decreases text.len(),
{
    if text.len() == 0 || text.first() == c {
        Seq::empty()
    } else {
        seq![text.first()] + before(text.drop_first(), c)
    }
}

/// Where a character first is in a text, or where the text ends.
pub(crate) fn position(text: &[char], c: char) -> (at: usize)
    ensures
        at <= text@.len(),
        at < text@.len() ==> text@[at as int] == c,
        forall|i: int| 0 <= i < at ==> text@[i] != c,
        before(text@, c) == text@.take(at as int),
{
    let mut at: usize = 0;
    while at < text.len() && text[at] != c
        invariant
            at <= text@.len(),
            forall|i: int| 0 <= i < at ==> text@[i] != c,
        decreases text@.len() - at,
    {
        at = at + 1;
    }
    proof {
        lemma_before(text@, c, at as int);
    }
    at
}

proof fn lemma_before(text: Seq<char>, c: char, at: int)
    requires
        0 <= at <= text.len(),
        at < text.len() ==> text[at] == c,
        forall|i: int| 0 <= i < at ==> text[i] != c,
    ensures
        before(text, c) == text.take(at),
    decreases at,
{
    if at > 0 {
        lemma_before(text.drop_first(), c, at - 1);
        assert(text.take(at) =~= seq![text.first()] + text.drop_first().take(at - 1));
    } else {
        assert(text.take(0) =~= Seq::empty());
    }
}

/// What each of a list of parts says.
pub open spec fn texts(parts: Seq<&[char]>) -> Seq<Seq<char>> {
    parts.map_values(|part: &[char]| part@)
}

/// The parts of a text between one character and the next.
pub open spec fn parts_between(text: Seq<char>, c: char) -> Seq<Seq<char>>
    decreases text.len(),
{
    let first = before(text, c);
    if first.len() < text.len() {
        seq![first] + parts_between(text.skip(first.len() as int + 1), c)
    } else {
        seq![text]
    }
}

/// Splits a text at each of a character.
pub(crate) fn split_at_each(text: &[char], c: char) -> (parts: Vec<&[char]>)
    ensures
        texts(parts@) == parts_between(text@, c),
{
    let mut parts: Vec<&[char]> = Vec::new();
    let mut rest: &[char] = text;
    assert(texts(parts@) + parts_between(rest@, c) =~= parts_between(text@, c));
    loop
        invariant
            texts(parts@) + parts_between(rest@, c) == parts_between(text@, c),
        decreases rest@.len(),
    {
        let end: usize = position(rest, c);
        if end == rest.len() {
            assert(rest@.take(end as int) =~= rest@);
            let ghost done = parts@;
            parts.push(rest);
            assert(texts(parts@) =~= texts(done) + seq![rest@]);
            return parts;
        }
        let first = slice_subrange(rest, 0, end);
        let next = slice_subrange(rest, end + 1, rest.len());
        assert(first@ =~= rest@.take(end as int));
        assert(next@ =~= rest@.skip(end + 1));
        let ghost done = parts@;
        parts.push(first);
        proof {
            let others = parts_between(next@, c);
            assert(texts(parts@) =~= texts(done).push(first@));
            assert(texts(parts@) + others =~= texts(done) + (seq![first@] + others));
        }
        rest = next;
    }
}

/// What is before and after the first of a character, if it is there.
pub open spec fn split_once(text: Seq<char>, c: char) -> Option<(Seq<char>, Seq<char>)> {
    let first = before(text, c);
    if first.len() < text.len() {
        Some((first, text.skip(first.len() as int + 1)))
    } else {
        None
    }
}

/// Splits a text at the first of a character.
pub(crate) fn split_at_first(text: &[char], c: char) -> (parts: Option<(&[char], &[char])>)
    ensures
        match parts {
            Some((first, rest)) => split_once(text@, c) == Some((first@, rest@)),
            None => split_once(text@, c) is None,
        },
{
    let end: usize = position(text, c);
    if end == text.len() {
        return None;
    }
    let first = slice_subrange(text, 0, end);
    let rest = slice_subrange(text, end + 1, text.len());
    assert(first@ =~= text@.take(end as int));
    assert(rest@ =~= text@.skip(end + 1));
    Some((first, rest))
}

/// Whether a line ends at `at`: a carriage return and a line feed.
pub open spec fn line_ends(text: Seq<char>, at: int) -> bool {
    at + 1 < text.len() && text[at] == '\r' && text[at + 1] == '\n'
}

/// Where the line that is under way at `from` ends: at the first line end, or
/// where the text does.
pub open spec fn line_end(text: Seq<char>, from: int) -> int
    decreases text.len() - from,
{
    if from >= text.len() || line_ends(text, from) {
        from
    } else {
        line_end(text, from + 1)
    }
}

/// The lines of a text from `from` on, without what ends them.
pub open spec fn lines(text: Seq<char>, from: int) -> Seq<Seq<char>>
    decreases text.len() - from,
{
    let end = line_end(text, from);
    if from <= end && end + 2 <= text.len() {
        seq![text.subrange(from, end)] + lines(text, end + 2)
    } else {
        seq![text.skip(from)]
    }
}

fn find_line_end(text: &[char], from: usize) -> (end: usize)
    requires
        from <= text@.len(),
    ensures
        end == line_end(text@, from as int),
        from <= end <= text@.len(),
        end < text@.len() ==> end + 2 <= text@.len(),
{
    let mut at: usize = from;
    while at < text.len()
        invariant
            from <= at <= text@.len(),
            line_end(text@, from as int) == line_end(text@, at as int),
        decreases text@.len() - at,
    {
        if text.len() - at >= 2 && text[at] == '\r' && text[at + 1] == '\n' {
            return at;
        }
        at = at + 1;
    }
    at
}

/// Splits a text into lines.
pub(crate) fn split_lines(text: &[char]) -> (parts: Vec<&[char]>)
    ensures
        texts(parts@) == lines(text@, 0),
        parts@.len() > 0,
{
    let mut parts: Vec<&[char]> = Vec::new();
    let mut from: usize = 0;
    assert(texts(parts@) + lines(text@, 0) =~= lines(text@, 0));
    loop
        invariant
            from <= text@.len(),
            texts(parts@) + lines(text@, from as int) == lines(text@, 0),
        decreases text@.len() - from,
    {
        let end: usize = find_line_end(text, from);
        let line = slice_subrange(text, from, end);
        let ghost done = parts@;
        parts.push(line);
        assert(texts(parts@) =~= texts(done).push(line@));
        if end == text.len() {
            assert(line@ =~= text@.skip(from as int));
            assert(texts(parts@) =~= texts(done) + seq![line@]);
            return parts;
        }
        proof {
            let others = lines(text@, end + 2);
            assert(texts(parts@) + others =~= texts(done) + (seq![line@] + others));
        }
        from = end + 2;
    }
}

/// The run of characters that are not white space at the start of a text.
pub open spec fn first_word(text: Seq<char>) -> Seq<char>
    decreases text.len(),
{
    if text.len() == 0 || is_space(text.first()) {
        Seq::empty()
    } else {
        seq![text.first()] + first_word(text.drop_first())
    }
}

/// The words of a text: what white space is between.
pub open spec fn words(text: Seq<char>) -> Seq<Seq<char>>
    decreases text.len(),
{
    let rest = trim_start(text, Edge::Whitespace);
    let word = first_word(rest);
    if 0 < word.len() <= rest.len() <= text.len() {
        seq![word] + words(rest.skip(word.len() as int))
    } else {
        Seq::empty()
    }
}

proof fn lemma_first_word(text: Seq<char>, end: int)
    requires
        0 <= end <= text.len(),
        end < text.len() ==> is_space(text[end]),
        forall|i: int| 0 <= i < end ==> !is_space(text[i]),
    ensures
        first_word(text) == text.take(end),
    decreases end,
{
    if end > 0 {
        lemma_first_word(text.drop_first(), end - 1);
        assert(text.take(end) =~= seq![text.first()] + text.drop_first().take(end - 1));
    } else {
        assert(text.take(0) =~= Seq::empty());
    }
}

proof fn lemma_trim_start(text: Seq<char>, from: int)
    requires
        0 <= from <= text.len(),
        from < text.len() ==> !is_space(text[from]),
        forall|i: int| 0 <= i < from ==> is_space(text[i]),
    ensures
        trim_start(text, Edge::Whitespace) == text.skip(from),
    decreases from,
{
    if from > 0 {
        lemma_trim_start(text.drop_first(), from - 1);
        assert(text.drop_first().skip(from - 1) =~= text.skip(from));
    } else {
        assert(text.skip(0) =~= text);
    }
}

/// Splits a text into words.
pub(crate) fn split_words(text: &[char]) -> (parts: Vec<&[char]>)
    ensures
        texts(parts@) == words(text@),
{
    let mut parts: Vec<&[char]> = Vec::new();
    let mut rest: &[char] = text;
    assert(texts(parts@) + words(rest@) =~= words(text@));
    loop
        invariant
            texts(parts@) + words(rest@) == words(text@),
        decreases rest@.len(),
    {
        let mut from: usize = 0;
        while from < rest.len() && space(rest[from])
            invariant
                from <= rest@.len(),
                forall|i: int| 0 <= i < from ==> is_space(rest@[i]),
            decreases rest@.len() - from,
        {
            from = from + 1;
        }
        let mut to: usize = from;
        while to < rest.len() && !space(rest[to])
            invariant
                from <= to <= rest@.len(),
                forall|i: int| from <= i < to ==> !is_space(rest@[i]),
            decreases rest@.len() - to,
        {
            to = to + 1;
        }
        let ghost left = rest@.skip(from as int);
        proof {
            lemma_trim_start(rest@, from as int);
            lemma_first_word(left, to - from);
        }
        if to == from {
            assert(texts(parts@) + words(rest@) =~= texts(parts@));
            return parts;
        }
        let word = slice_subrange(rest, from, to);
        let next = slice_subrange(rest, to, rest.len());
        let ghost done = parts@;
        parts.push(word);
        proof {
            assert(word@ =~= left.take(to - from));
            assert(next@ =~= left.skip(to - from));
            let others = words(next@);
            assert(texts(parts@) =~= texts(done).push(word@));
            assert(texts(parts@) + others =~= texts(done) + (seq![word@] + others));
        }
        rest = next;
    }
}

/// A letter in lower case, where it is an ASCII one.
pub open spec fn lower(c: char) -> char {
    if 'A' <= c <= 'Z' {
        (c as u8 + 32) as u8 as char
    } else {
        c
    }
}

/// Whether two texts are the same but for the case of ASCII letters.
pub open spec fn same_but_case(a: Seq<char>, b: Seq<char>) -> bool {
    a.len() == b.len() && forall|i: int| 0 <= i < a.len() ==> lower(#[trigger] a[i]) == lower(b[i])
}

fn to_lower(c: char) -> (l: char)
    ensures
        l == lower(c),
{
    if 'A' <= c && c <= 'Z' {
        (c as u8 + 32) as char
    } else {
        c
    }
}

/// Whether two texts are the same but for the case of ASCII letters.
pub(crate) fn same_ignoring_case(a: &str, b: &str) -> (same: bool)
    ensures
        same == same_but_case(a@, b@),
{
    let first = characters(a);
    let second = characters(b);
    if first.len() != second.len() {
        return false;
    }
    let mut i: usize = 0;
    while i < first.len()
        invariant
            first@ == a@,
            second@ == b@,
            a@.len() == b@.len(),
            i <= a@.len(),
            forall|j: int| 0 <= j < i ==> lower(#[trigger] a@[j]) == lower(b@[j]),
        decreases a@.len() - i,
    {
        if to_lower(first[i]) != to_lower(second[i]) {
            assert(lower(a@[i as int]) != lower(b@[i as int]));
            return false;
        }
        i = i + 1;
    }
    true
}

/// Whether characters are those of a text.
pub(crate) fn same_chars(a: &[char], b: &str) -> (same: bool)
    ensures
        same == (a@ == b@),
{
    let other = characters(b);
    if a.len() != other.len() {
        return false;
    }
    let mut i: usize = 0;
    while i < a.len()
        invariant
            other@ == b@,
            a@.len() == b@.len(),
            i <= a@.len(),
            forall|j: int| 0 <= j < i ==> a@[j] == b@[j],
        decreases a@.len() - i,
    {
        if a[i] != other[i] {
            return false;
        }
        i = i + 1;
    }
    assert(a@ =~= b@);
    true
}

/// Whether a text starts with another.
pub open spec fn starts_with(text: Seq<char>, start: Seq<char>) -> bool {
    start.len() <= text.len() && text.take(start.len() as int) == start
}

/// Whether a text ends with another.
pub open spec fn ends_with(text: Seq<char>, end: Seq<char>) -> bool {
    end.len() <= text.len() && text.skip(text.len() - end.len()) == end
}

pub(crate) fn has_start(text: &[char], start: &str) -> (starts: bool)
    ensures
        starts == starts_with(text@, start@),
{
    let count: usize = characters(start).len();
    if text.len() < count {
        return false;
    }
    let part = slice_subrange(text, 0, count);
    assert(part@ =~= text@.take(count as int));
    same_chars(part, start)
}

pub(crate) fn has_end(text: &[char], end: &str) -> (ends: bool)
    ensures
        ends == ends_with(text@, end@),
{
    let count: usize = characters(end).len();
    if text.len() < count {
        return false;
    }
    let part = slice_subrange(text, text.len() - count, text.len());
    assert(part@ =~= text@.skip(text@.len() - count));
    same_chars(part, end)
}

/// A decimal digit.
pub open spec fn decimal_digit(n: int) -> char {
    (0x30 + n) as u8 as char
}

/// A number in decimal.
pub open spec fn decimal(n: nat) -> Seq<char>
    decreases n,
{
    if n < 10 {
        seq![decimal_digit(n as int)]
    } else {
        decimal(n / 10).push(decimal_digit(n as int % 10))
    }
}

/// Appends a number in decimal.
pub(crate) fn push_decimal(text: &mut String, n: u64)
    ensures
        final(text)@ == old(text)@ + decimal(n as nat),
    decreases n,
{
    if n < 10 {
        text.push((0x30 + n as u8) as char);
    } else {
        push_decimal(text, n / 10);
        text.push((0x30 + (n % 10) as u8) as char);
    }
    assert(text@ =~= old(text)@ + decimal(n as nat));
}

/// Whether a text is decimal digits and nothing else.
pub open spec fn all_digits(text: Seq<char>) -> bool {
    forall|i: int| 0 <= i < text.len() ==> '0' <= #[trigger] text[i] <= '9'
}

/// The number that decimal digits write.
pub open spec fn digits_value(text: Seq<char>) -> nat
    decreases text.len(),
{
    if text.len() == 0 {
        0
    } else {
        digits_value(text.drop_last()) * 10 + (text.last() as nat - 0x30) as nat
    }
}

/// The number a text is, where it is one of at most `limit`: decimal digits,
/// with or without a plus in front.
pub open spec fn number_of(text: Seq<char>, limit: nat) -> Option<nat> {
    let digits = if text.len() > 0 && text.first() == '+' {
        text.drop_first()
    } else {
        text
    };
    if digits.len() > 0 && all_digits(digits) && digits_value(digits) <= limit {
        Some(digits_value(digits))
    } else {
        None
    }
}

proof fn lemma_digits_grow(text: Seq<char>, count: int)
    requires
        0 <= count <= text.len(),
    ensures
        digits_value(text.take(count)) <= digits_value(text),
    decreases text.len() - count,
{
    if count < text.len() {
        lemma_digits_grow(text, count + 1);
        assert(text.take(count + 1).drop_last() =~= text.take(count));
    } else {
        assert(text.take(count) =~= text);
    }
}

/// Reads a number of at most `limit`.
pub(crate) fn read_number(text: &[char], limit: u64) -> (number: Option<u64>)
    ensures
        match number {
            Some(number) => number_of(text@, limit as nat) == Some(number as nat),
            None => number_of(text@, limit as nat) is None,
        },
{
    let digits: &[char] = if text.len() > 0 && text[0] == '+' {
        slice_subrange(text, 1, text.len())
    } else {
        text
    };
    assert(text@.len() > 0 && text@[0] == '+' ==> digits@ =~= text@.drop_first());
    if digits.len() == 0 {
        return None;
    }
    let mut value: u64 = 0;
    let mut i: usize = 0;
    assert(digits@.take(0) =~= Seq::empty());
    while i < digits.len()
        invariant
            i <= digits@.len(),
            value <= limit,
            value == digits_value(digits@.take(i as int)),
            all_digits(digits@.take(i as int)),
            digits@.len() > 0,
            digits@ == if text@.len() > 0 && text@.first() == '+' {
                text@.drop_first()
            } else {
                text@
            },
        decreases digits@.len() - i,
    {
        let c: char = digits[i];
        if c < '0' || c > '9' {
            assert(!all_digits(digits@));
            return None;
        }
        let digit: u64 = c as u64 - 0x30;
        let ghost longer = digits@.take(i + 1);
        proof {
            assert(longer.drop_last() =~= digits@.take(i as int));
            assert(longer.last() == c);
            lemma_digits_grow(digits@, i + 1);
        }
        let next: u128 = value as u128 * 10 + digit as u128;
        if next > limit as u128 {
            return None;
        }
        value = next as u64;
        i = i + 1;
    }
    assert(digits@.take(i as int) =~= digits@);
    Some(value)
}

/// A number in decimal is digits, and reads back as the number.
pub proof fn lemma_decimal_reads(n: nat)
    ensures
        decimal(n).len() > 0,
        all_digits(decimal(n)),
        digits_value(decimal(n)) == n,
    decreases n,
{
    let text = decimal(n);
    if n < 10 {
        assert(text.drop_last() =~= Seq::empty());
        assert(digits_value(text.drop_last()) == 0);
    } else {
        lemma_decimal_reads(n / 10);
        assert(text.drop_last() =~= decimal(n / 10));
        assert forall|i: int| 0 <= i < text.len() implies '0' <= #[trigger] text[i] <= '9' by {
            if i < text.len() - 1 {
                assert(text[i] == decimal(n / 10)[i]);
            }
        }
    }
}

/// Whether a character is nowhere in a text.
pub open spec fn lacks(text: Seq<char>, c: char) -> bool {
    forall|i: int| 0 <= i < text.len() ==> text[i] != c
}

/// A text that a character is not in has one part.
pub proof fn lemma_unsplit(text: Seq<char>, c: char)
    requires
        lacks(text, c),
    ensures
        before(text, c) == text,
        split_once(text, c) is None,
        parts_between(text, c) == seq![text],
{
    lemma_before(text, c, text.len() as int);
    assert(text.take(text.len() as int) =~= text);
}

/// A text splits where a character was put after a part that it is not in.
pub proof fn lemma_split_joined(first: Seq<char>, c: char, rest: Seq<char>)
    requires
        lacks(first, c),
    ensures
        split_once(first.push(c) + rest, c) == Some((first, rest)),
        parts_between(first.push(c) + rest, c) == seq![first] + parts_between(rest, c),
{
    let text = first.push(c) + rest;
    let at = first.len() as int;
    assert forall|i: int| 0 <= i < at implies text[i] != c by {
        assert(text[i] == first[i]);
    }
    lemma_before(text, c, at);
    assert(text.take(at) =~= first);
    assert(text.skip(at + 1) =~= rest);
}

/// Reading lines from a place on is reading what stands there.
proof fn lemma_lines_from(before: Seq<char>, text: Seq<char>, from: int)
    requires
        0 <= from <= text.len(),
    ensures
        line_end(before + text, before.len() + from) == before.len() + line_end(text, from),
        lines(before + text, before.len() + from) == lines(text, from),
        from <= line_end(text, from) <= text.len(),
    decreases text.len() - from,
{
    lemma_line_end_from(before, text, from);
    let whole = before + text;
    let end = line_end(text, from);
    if end + 2 <= text.len() {
        lemma_lines_from(before, text, end + 2);
        assert(whole.subrange(before.len() + from, before.len() + end) =~= text.subrange(
            from,
            end,
        ));
    } else {
        assert(whole.skip(before.len() + from) =~= text.skip(from));
    }
}

proof fn lemma_line_end_from(before: Seq<char>, text: Seq<char>, from: int)
    requires
        0 <= from <= text.len(),
    ensures
        line_end(before + text, before.len() + from) == before.len() + line_end(text, from),
        from <= line_end(text, from) <= text.len(),
    decreases text.len() - from,
{
    let whole = before + text;
    if from < text.len() {
        assert(whole[before.len() + from] == text[from]);
        if from + 1 < text.len() {
            assert(whole[before.len() + from + 1] == text[from + 1]);
        }
        if !line_ends(text, from) {
            lemma_line_end_from(before, text, from + 1);
        }
    }
}

proof fn lemma_line_end(text: Seq<char>, from: int, end: int)
    requires
        0 <= from <= end,
        line_ends(text, end),
        forall|i: int| from <= i < end ==> text[i] != '\r',
    ensures
        line_end(text, from) == end,
    decreases end - from,
{
    if from < end {
        lemma_line_end(text, from + 1, end);
    }
}

/// A line with what ends it, and what follows, reads as that line and then the
/// lines of what follows.
pub proof fn lemma_line_reads(first: Seq<char>, rest: Seq<char>)
    requires
        lacks(first, '\r'),
    ensures
        lines(first + "\r\n"@ + rest, 0) == seq![first] + lines(rest, 0),
{
    reveal_strlit("\r\n");
    let text = first + "\r\n"@ + rest;
    let end = first.len() as int;
    assert(text[end] == "\r\n"@[0] && text[end + 1] == "\r\n"@[1]);
    assert(forall|i: int| 0 <= i < end ==> text[i] == first[i]);
    lemma_line_end(text, 0, end);
    assert(text.subrange(0, end) =~= first);
    lemma_lines_from(first + "\r\n"@, rest, 0);
    assert((first + "\r\n"@).len() == end + 2);
}

/// The four bits that a hexadecimal digit stands for.
pub open spec fn hex_value(c: char) -> int {
    if '0' <= c <= '9' {
        c as int - '0' as int
    } else {
        c as int - 'a' as int + 10
    }
}

/// The bytes that two hexadecimal digits each stand for.
pub open spec fn hex_bytes(text: Seq<char>) -> Seq<u8>
    decreases text.len(),
{
    if text.len() < 2 {
        Seq::empty()
    } else {
        hex_bytes(text.drop_last().drop_last()).push(
            (hex_value(text[text.len() - 2]) * 16 + hex_value(text.last())) as u8,
        )
    }
}

/// What was written in hexadecimal reads back, two digits to the byte and none of
/// them a capital.
pub proof fn law_hexadecimal_reads_back(bytes: Seq<u8>)
    ensures
        hex_bytes(hex_text(bytes)) == bytes,
        hex_text(bytes).len() == 2 * bytes.len(),
        forall|i: int|
            0 <= i < hex_text(bytes).len() ==> {
                ||| '0' <= #[trigger] hex_text(bytes)[i] <= '9'
                ||| 'a' <= hex_text(bytes)[i] <= 'f'
            },
    decreases bytes.len(),
{
    if bytes.len() == 0 {
        assert(hex_bytes(hex_text(bytes)) =~= bytes);
    } else {
        law_hexadecimal_reads_back(bytes.drop_last());
        let text = hex_text(bytes);
        assert(text.drop_last().drop_last() =~= hex_text(bytes.drop_last()));
        let last = bytes.last();
        let (high, low) = (last as int / 16, last as int % 16);
        assert(hex_value(hex_digit(high)) == high && hex_value(hex_digit(low)) == low);
        assert(text[text.len() - 2] == hex_digit(high) && text.last() == hex_digit(low));
        assert(hex_bytes(text) =~= bytes);
        assert forall|i: int| 0 <= i < text.len() implies {
            ||| '0' <= #[trigger] text[i] <= '9'
            ||| 'a' <= text[i] <= 'f'
        } by {
            if i < text.len() - 2 {
                assert(text[i] == hex_text(bytes.drop_last())[i]);
            }
        }
    }
}

/// Trimming takes off what it cuts at both ends and nothing else: what it leaves
/// begins and ends with something that it does not cut.
pub proof fn law_trimming_takes_off_the_edges(
    left: Seq<char>,
    text: Seq<char>,
    right: Seq<char>,
    edge: Edge,
)
    requires
        forall|i: int| 0 <= i < left.len() ==> edge.cuts(#[trigger] left[i]),
        forall|i: int| 0 <= i < right.len() ==> edge.cuts(#[trigger] right[i]),
        text.len() > 0 ==> !edge.cuts(text.first()) && !edge.cuts(text.last()),
    ensures
        trim(left + text + right, edge) == text,
{
    if text.len() == 0 {
        let all = left + text + right;
        assert forall|i: int| 0 <= i < all.len() implies edge.cuts(#[trigger] all[i]) by {
            if i < left.len() {
                assert(all[i] == left[i]);
            } else {
                assert(all[i] == right[i - left.len()]);
            }
        }
        lemma_trim_start_cuts(all, Seq::empty(), edge);
        assert(all + Seq::<char>::empty() =~= all);
        assert(trim_end(Seq::empty(), edge) =~= text);
    } else {
        let rest = text + right;
        assert(left + text + right =~= left + rest);
        assert(rest.first() == text.first());
        lemma_trim_start_cuts(left, rest, edge);
        lemma_trim_end_cuts(text, right, edge);
    }
}

proof fn lemma_trim_start_cuts(left: Seq<char>, text: Seq<char>, edge: Edge)
    requires
        forall|i: int| 0 <= i < left.len() ==> edge.cuts(#[trigger] left[i]),
        text.len() > 0 ==> !edge.cuts(text.first()),
    ensures
        trim_start(left + text, edge) == text,
    decreases left.len(),
{
    if left.len() == 0 {
        assert(left + text =~= text);
    } else {
        assert((left + text).first() == left[0]);
        assert((left + text).drop_first() =~= left.drop_first() + text);
        assert forall|i: int| 0 <= i < left.drop_first().len() implies edge.cuts(
            #[trigger] left.drop_first()[i],
        ) by {
            assert(left.drop_first()[i] == left[i + 1]);
        }
        lemma_trim_start_cuts(left.drop_first(), text, edge);
    }
}

proof fn lemma_trim_end_cuts(text: Seq<char>, right: Seq<char>, edge: Edge)
    requires
        forall|i: int| 0 <= i < right.len() ==> edge.cuts(#[trigger] right[i]),
        text.len() > 0 ==> !edge.cuts(text.last()),
    ensures
        trim_end(text + right, edge) == text,
    decreases right.len(),
{
    if right.len() == 0 {
        assert(text + right =~= text);
    } else {
        assert((text + right).last() == right[right.len() - 1]);
        assert((text + right).drop_last() =~= text + right.drop_last());
        assert forall|i: int| 0 <= i < right.drop_last().len() implies edge.cuts(
            #[trigger] right.drop_last()[i],
        ) by {
            assert(right.drop_last()[i] == right[i]);
        }
        lemma_trim_end_cuts(text, right.drop_last(), edge);
    }
}

/// What white space is among the characters of ASCII: the tab, what ends a line
/// or a page, and the space.
pub proof fn law_white_space_in_ascii(c: char)
    requires
        (c as u32) < 0x80,
    ensures
        is_space(c) <==> {
            ||| c == ' '
            ||| c == '\t'
            ||| c == '\n'
            ||| c == '\r'
            ||| c as u32 == 0x0b
            ||| c as u32 == 0x0c
        },
{
}

/// A text is its first word, whatever space is in front of it, and then the words
/// of what follows; space alone is none.
pub proof fn law_words_stand_between_spaces(lead: Seq<char>, word: Seq<char>, rest: Seq<char>)
    requires
        forall|i: int| 0 <= i < lead.len() ==> is_space(#[trigger] lead[i]),
        forall|i: int| 0 <= i < word.len() ==> !is_space(#[trigger] word[i]),
        rest.len() > 0 ==> is_space(rest[0]),
        word.len() > 0,
    ensures
        words(lead) == Seq::<Seq<char>>::empty(),
        words(lead + word + rest) == seq![word] + words(rest),
{
    let none = Seq::<char>::empty();
    lemma_trim_start_cuts(lead, none, Edge::Whitespace);
    assert(lead + none =~= lead);
    assert(first_word(none) == none);
    let (text, tail) = (lead + word + rest, word + rest);
    assert(text =~= lead + tail);
    assert(tail.first() == word[0]);
    lemma_trim_start_cuts(lead, tail, Edge::Whitespace);
    assert(forall|i: int| 0 <= i < word.len() ==> tail[i] == word[i]);
    if rest.len() > 0 {
        assert(tail[word.len() as int] == rest[0]);
    }
    lemma_first_word(tail, word.len() as int);
    assert(tail.take(word.len() as int) =~= word);
    assert(tail.skip(word.len() as int) =~= rest);
}

/// Two texts are the same but for case where each letter of the one is that of the
/// other or its other form, and everything else is the same.
pub proof fn law_case_is_all_that_may_differ(a: Seq<char>, b: Seq<char>)
    ensures
        same_but_case(a, b) <==> a.len() == b.len() && forall|i: int|
            0 <= i < a.len() ==> {
                ||| #[trigger] a[i] == b[i]
                ||| 'A' <= a[i] <= 'Z' && b[i] as u32 == a[i] as u32 + 32
                ||| 'A' <= b[i] <= 'Z' && a[i] as u32 == b[i] as u32 + 32
            },
{
    if same_but_case(a, b) {
        assert forall|i: int| 0 <= i < a.len() implies {
            ||| #[trigger] a[i] == b[i]
            ||| 'A' <= a[i] <= 'Z' && b[i] as u32 == a[i] as u32 + 32
            ||| 'A' <= b[i] <= 'Z' && a[i] as u32 == b[i] as u32 + 32
        } by {
            assert(lower(a[i]) == lower(b[i]));
        }
    }
}

/// A number written out reads back where it is within the limit, with a plus in
/// front of it or without, and what is no digit is no number.
pub proof fn law_numbers_read_back(n: nat, limit: nat, text: Seq<char>)
    ensures
        number_of(decimal(n), limit) == (if n <= limit {
            Some(n)
        } else {
            None
        }),
        number_of(seq!['+'] + decimal(n), limit) == number_of(decimal(n), limit),
        number_of(Seq::empty(), limit) is None,
        number_of(seq!['+'], limit) is None,
        (exists|i: int|
            0 <= i < text.len() && !('0' <= #[trigger] text[i] <= '9') && (i > 0 || text[i]
                != '+')) ==> number_of(text, limit) is None,
{
    lemma_decimal_reads(n);
    assert(decimal(n)[0] != '+');
    assert((seq!['+'] + decimal(n)).drop_first() =~= decimal(n));
    assert(seq!['+'].drop_first() =~= Seq::<char>::empty());
    if exists|i: int|
        0 <= i < text.len() && !('0' <= #[trigger] text[i] <= '9') && (i > 0 || text[i] != '+') {
        let i = choose|i: int|
            0 <= i < text.len() && !('0' <= #[trigger] text[i] <= '9') && (i > 0 || text[i] != '+');
        if text.first() == '+' {
            assert(text.drop_first()[i - 1] == text[i]);
            assert(!all_digits(text.drop_first()));
        } else {
            assert(!all_digits(text));
        }
    }
}

/// The number that a text writes is its digits in tens, the highest first.
pub proof fn law_digits_count_in_tens(text: Seq<char>, digit: char)
    requires
        '0' <= digit <= '9',
    ensures
        digits_value(Seq::empty()) == 0,
        digits_value(text.push(digit)) == digits_value(text) * 10 + (digit as int - '0' as int),
{
    assert(text.push(digit).drop_last() =~= text);
}

/// The parts of two texts with a separator between them are those of the one and
/// then those of the other.
pub proof fn law_parts_add_up(first: Seq<char>, c: char, second: Seq<char>)
    ensures
        parts_between(first.push(c) + second, c) == parts_between(first, c) + parts_between(
            second,
            c,
        ),
    decreases first.len(),
{
    if lacks(first, c) {
        lemma_split_joined(first, c, second);
        lemma_unsplit(first, c);
    } else {
        let head = before(first, c);
        lemma_before_lacks(first, c);
        let rest = first.skip(head.len() as int + 1);
        assert(first =~= head.push(c) + rest);
        assert(first.push(c) + second =~= head.push(c) + (rest.push(c) + second));
        lemma_split_joined(head, c, rest);
        lemma_split_joined(head, c, rest.push(c) + second);
        law_parts_add_up(rest, c, second);
        assert(seq![head] + (parts_between(rest, c) + parts_between(second, c)) =~= (seq![head]
            + parts_between(rest, c)) + parts_between(second, c));
    }
}

/// What stands before the first of a character has none of it, and the first of it
/// follows where there is one.
pub proof fn lemma_before_lacks(text: Seq<char>, c: char)
    ensures
        lacks(before(text, c), c),
        before(text, c).len() <= text.len(),
        before(text, c) == text.take(before(text, c).len() as int),
        before(text, c).len() < text.len() ==> text[before(text, c).len() as int] == c,
        lacks(text, c) <==> before(text, c).len() == text.len(),
    decreases text.len(),
{
    if text.len() > 0 && text.first() != c {
        lemma_before_lacks(text.drop_first(), c);
        assert(before(text, c) =~= text.take(before(text, c).len() as int));
        if lacks(text, c) {
            assert forall|i: int| 0 <= i < text.drop_first().len() implies text.drop_first()[i]
                != c by {
                assert(text.drop_first()[i] == text[i + 1]);
            }
        }
        if lacks(text.drop_first(), c) {
            assert forall|i: int| 0 <= i < text.len() implies text[i] != c by {
                if i > 0 {
                    assert(text.drop_first()[i - 1] == text[i]);
                }
            }
        }
    } else if text.len() > 0 {
        assert(text[0] == c);
    }
}

/// A number is written without a zero in front, but for the one that is zero.
pub proof fn law_numbers_have_no_zero_in_front(n: nat)
    ensures
        n < 10 ==> decimal(n).len() == 1,
        n > 0 ==> decimal(n)[0] != '0',
    decreases n,
{
    if n >= 10 {
        law_numbers_have_no_zero_in_front(n / 10);
        lemma_decimal_reads(n / 10);
        assert(decimal(n)[0] == decimal(n / 10)[0]);
    }
}

} // verus!
