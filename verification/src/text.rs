//! Text as a sequence of characters, and the few ways of cutting it up that
//! the benchmark format needs: into lines, into fields, into words, and into
//! decimal numbers.
//!
//! The executable functions never copy text. They take the characters of the
//! whole input and a [`Span`] to work in, and hand back spans of the same
//! input.

use vstd::prelude::*;

verus! {

/// A stretch of a text: the characters from `start` up to, not including, `end`.
#[derive(Clone, Copy, Debug)]
pub struct Span {
    pub start: usize,
    pub end: usize,
}

impl Span {
    /// The span lies inside a text of `len` characters.
    pub open spec fn fits(self, len: nat) -> bool {
        self.start <= self.end <= len
    }
}

/// The characters of `text` that `span` covers.
pub open spec fn cut(text: Seq<char>, span: Span) -> Seq<char> {
    text.subrange(span.start as int, span.end as int)
}

/// The characters that each of `spans` covers, in order.
pub open spec fn cuts(text: Seq<char>, spans: Seq<Span>) -> Seq<Seq<char>> {
    Seq::new(spans.len(), |i: int| cut(text, spans[i]))
}

/// Every one of `spans` lies inside a text of `len` characters.
pub open spec fn all_fit(spans: Seq<Span>, len: nat) -> bool {
    forall|i: int| 0 <= i < spans.len() ==> (#[trigger] spans[i]).fits(len)
}

/// The characters of a string, one by one.
pub fn to_chars(s: &str) -> (chars: Vec<char>)
    ensures
        chars@ == s@,
{
    let mut chars: Vec<char> = Vec::new();
    for c in it: s.chars()
        invariant
            chars@ == it.seq().take(it.index()),
            it.seq() == s@,
    {
        chars.push(c);
    }
    chars
}

/// Whether `c` is white space, as Unicode defines it.
pub open spec fn is_space(c: char) -> bool {
    let n = c as int;
    ||| 0x09 <= n <= 0x0D
    ||| n == 0x20
    ||| n == 0x85
    ||| n == 0xA0
    ||| n == 0x1680
    ||| 0x2000 <= n <= 0x200A
    ||| n == 0x2028
    ||| n == 0x2029
    ||| n == 0x202F
    ||| n == 0x205F
    ||| n == 0x3000
}

/// What separates one piece of a text from the next.
#[derive(Clone, Copy, Debug)]
pub enum Delimiter {
    /// This one character.
    Exactly(char),
    /// Any white space character.
    Whitespace,
}

impl Delimiter {
    /// Whether `c` is a separator.
    pub open spec fn matches(self, c: char) -> bool {
        match self {
            Delimiter::Exactly(d) => c == d,
            Delimiter::Whitespace => is_space(c),
        }
    }

    /// Tests whether `c` is a separator.
    pub fn test(&self, c: char) -> (b: bool)
        ensures
            b == self.matches(c),
    {
        match self {
            Delimiter::Exactly(d) => c == *d,
            Delimiter::Whitespace => {
                let n: u32 = c as u32;
                (0x09 <= n && n <= 0x0D) || n == 0x20 || n == 0x85 || n == 0xA0 || n == 0x1680 || (
                0x2000 <= n && n <= 0x200A) || n == 0x2028 || n == 0x2029 || n == 0x202F || n
                    == 0x205F || n == 0x3000
            },
        }
    }
}

/// The pieces of `s` between its separators. A text with `n` separators has
/// `n + 1` pieces, some of which may be empty; the empty text has one empty
/// piece.
pub open spec fn split(s: Seq<char>, d: Delimiter) -> Seq<Seq<char>>
    decreases s.len(),
{
    if s.len() == 0 {
        seq![Seq::<char>::empty()]
    } else {
        let before = split(s.drop_last(), d);
        if d.matches(s.last()) {
            before.push(Seq::<char>::empty())
        } else {
            before.update(before.len() - 1, before.last().push(s.last()))
        }
    }
}

/// The spans follow one another from `start` to `end`, with one character,
/// the separator, left out between each two.
#[verifier::opaque]
pub open spec fn tiles(spans: Seq<Span>, start: int, end: int) -> bool {
    &&& spans.len() >= 1
    &&& spans[0].start == start
    &&& spans.last().end == end
    &&& forall|i: int| 0 <= i < spans.len() ==> (#[trigger] spans[i]).start <= spans[i].end
    &&& forall|i: int, j: int|
        0 <= i && j == i + 1 && j < spans.len() ==> (#[trigger] spans[i]).end + 1 == (
        #[trigger] spans[j]).start
}

/// A split always has at least one piece.
pub proof fn lemma_split_nonempty(s: Seq<char>, d: Delimiter)
    ensures
        split(s, d).len() >= 1,
    decreases s.len(),
{
    if s.len() > 0 {
        lemma_split_nonempty(s.drop_last(), d);
    }
}

/// Covering one more span adds its characters as one more piece.
pub proof fn lemma_cuts_push(text: Seq<char>, spans: Seq<Span>, span: Span)
    ensures
        cuts(text, spans.push(span)) == cuts(text, spans).push(cut(text, span)),
{
    assert(cuts(text, spans.push(span)) =~= cuts(text, spans).push(cut(text, span)));
}

/// How a split grows when one character is added at the end of the text.
pub proof fn lemma_split_push(s: Seq<char>, c: char, d: Delimiter)
    ensures
        split(s, d).len() >= 1,
        d.matches(c) ==> split(s.push(c), d) == split(s, d).push(Seq::<char>::empty()),
        !d.matches(c) ==> split(s.push(c), d) == split(s, d).update(
            split(s, d).len() - 1,
            split(s, d).last().push(c),
        ),
{
    lemma_split_nonempty(s, d);
    assert(s.push(c).drop_last() =~= s);
    assert(s.push(c).last() == c);
}

/// No piece of a split holds a separator.
pub proof fn lemma_split_pieces_hold_no_separator(s: Seq<char>, d: Delimiter)
    ensures
        forall|i: int, j: int|
            0 <= i < split(s, d).len() && 0 <= j < split(s, d)[i].len() ==> !d.matches(
                #[trigger] split(s, d)[i][j],
            ),
    decreases s.len(),
{
    if s.len() > 0 {
        let before = split(s.drop_last(), d);
        let pieces = split(s, d);
        lemma_split_pieces_hold_no_separator(s.drop_last(), d);
        lemma_split_nonempty(s.drop_last(), d);
        assert forall|i: int, j: int|
            0 <= i < pieces.len() && 0 <= j < pieces[i].len() implies !d.matches(
            #[trigger] pieces[i][j],
        ) by {
            if i < before.len() && j < before[i].len() {
                assert(pieces[i][j] == before[i][j]);
            }
        }
    }
}

/// The pieces put together again, with `c` between each two.
pub open spec fn joined(pieces: Seq<Seq<char>>, c: char) -> Seq<char>
    decreases pieces.len(),
{
    if pieces.len() == 0 {
        Seq::<char>::empty()
    } else if pieces.len() == 1 {
        pieces[0]
    } else {
        joined(pieces.drop_last(), c).push(c) + pieces.last()
    }
}

/// A text split at a character and joined with that character is the text
/// again.
pub proof fn lemma_split_joins_back(s: Seq<char>, c: char)
    ensures
        joined(split(s, Delimiter::Exactly(c)), c) == s,
    decreases s.len(),
{
    let d = Delimiter::Exactly(c);
    if s.len() == 0 {
        assert(joined(split(s, d), c) =~= s);
    } else {
        let front = s.drop_last();
        let before = split(front, d);
        let pieces = split(s, d);
        lemma_split_joins_back(front, c);
        lemma_split_nonempty(front, d);
        assert(front.push(s.last()) =~= s);
        if d.matches(s.last()) {
            assert(pieces.drop_last() =~= before);
            assert(joined(pieces, c) =~= front.push(c));
        } else if before.len() == 1 {
            assert(joined(pieces, c) =~= front.push(s.last()));
        } else {
            assert(pieces.drop_last() =~= before.drop_last());
            assert(joined(pieces, c) =~= joined(before, c).push(s.last()));
        }
    }
}

/// Every word has a character, and none that is white space.
pub proof fn lemma_words_are_words(s: Seq<char>)
    ensures
        forall|i: int| 0 <= i < words_of(s).len() ==> (#[trigger] words_of(s)[i]).len() > 0,
        forall|i: int, j: int|
            0 <= i < words_of(s).len() && 0 <= j < words_of(s)[i].len() ==> !is_space(
                #[trigger] words_of(s)[i][j],
            ),
{
    let pieces = split(s, Delimiter::Whitespace);
    let words = words_of(s);
    lemma_split_pieces_hold_no_separator(s, Delimiter::Whitespace);
    assert forall|i: int| 0 <= i < words.len() implies (#[trigger] words[i]).len() > 0 by {
        pieces.lemma_filter_pred(has_chars(), i);
    }
    assert forall|i: int, j: int| 0 <= i < words.len() && 0 <= j < words[i].len() implies !is_space(
    #[trigger] words[i][j]) by {
        assert(pieces.filter(has_chars()).contains(words[i]));
        pieces.lemma_filter_contains_rev(has_chars(), words[i]);
        let k = choose|k: int| 0 <= k < pieces.len() && pieces[k] == words[i];
        assert(!Delimiter::Whitespace.matches(pieces[k][j]));
    }
}

/// Cuts the part of `text` inside `within` at every separator.
pub fn split_spans(text: &Vec<char>, within: Span, d: Delimiter) -> (spans: Vec<Span>)
    requires
        within.fits(text@.len()),
    ensures
        cuts(text@, spans@) == split(cut(text@, within), d),
        tiles(spans@, within.start as int, within.end as int),
        all_fit(spans@, text@.len()),
{
    let mut spans: Vec<Span> = Vec::new();
    let mut start: usize = within.start;
    let mut pos: usize = within.start;
    proof {
        assert(text@.subrange(start as int, pos as int) =~= Seq::<char>::empty());
        assert(cuts(text@, spans@).push(Seq::<char>::empty()) =~= seq![Seq::<char>::empty()]);
    }
    while pos < within.end
        invariant
            within.fits(text@.len()),
            within.start <= start <= pos <= within.end,
            cuts(text@, spans@).push(text@.subrange(start as int, pos as int)) == split(
                text@.subrange(within.start as int, pos as int),
                d,
            ),
            all_fit(spans@, text@.len()),
            spans@.len() == 0 ==> start == within.start,
            spans@.len() > 0 ==> spans@[0].start == within.start && spans@.last().end + 1 == start,
            forall|i: int| 0 <= i < spans@.len() ==> (#[trigger] spans@[i]).start <= spans@[i].end,
            forall|i: int, j: int|
                0 <= i && j == i + 1 && j < spans@.len() ==> (#[trigger] spans@[i]).end + 1 == (
                #[trigger] spans@[j]).start,
        decreases within.end - pos,
    {
        let ghost seen = text@.subrange(within.start as int, pos as int);
        let ghost piece = text@.subrange(start as int, pos as int);
        let ghost old_spans = spans@;
        let c = text[pos];
        proof {
            lemma_split_push(seen, c, d);
            assert(seen.push(c) =~= text@.subrange(within.start as int, pos + 1));
        }
        if d.test(c) {
            let span = Span { start, end: pos };
            spans.push(span);
            start = pos + 1;
            proof {
                lemma_cuts_push(text@, old_spans, span);
                assert(text@.subrange(start as int, start as int) =~= Seq::<char>::empty());
            }
        } else {
            proof {
                assert(piece.push(c) =~= text@.subrange(start as int, pos + 1));
                assert(cuts(text@, old_spans).push(piece).update(
                    old_spans.len() as int,
                    piece.push(c),
                ) =~= cuts(text@, old_spans).push(piece.push(c)));
            }
        }
        pos = pos + 1;
    }
    let ghost old_spans = spans@;
    let span = Span { start, end: within.end };
    spans.push(span);
    proof {
        lemma_cuts_push(text@, old_spans, span);
        reveal(tiles);
    }
    spans
}

/// Whether a piece of text has any character in it.
pub open spec fn has_chars() -> spec_fn(Seq<char>) -> bool {
    |piece: Seq<char>| piece.len() > 0
}

/// The words of `s`: what stands between stretches of white space.
pub open spec fn words_of(s: Seq<char>) -> Seq<Seq<char>> {
    split(s, Delimiter::Whitespace).filter(has_chars())
}

/// Filtering a sequence with one more element at its end.
pub proof fn lemma_filter_push<A>(s: Seq<A>, x: A, keep: spec_fn(A) -> bool)
    ensures
        s.push(x).filter(keep) == if keep(x) {
            s.filter(keep).push(x)
        } else {
            s.filter(keep)
        },
{
    reveal(Seq::filter);
    assert(s.push(x).drop_last() =~= s);
}

/// Cuts the part of `text` inside `within` into its words.
pub fn word_spans(text: &Vec<char>, within: Span) -> (words: Vec<Span>)
    requires
        within.fits(text@.len()),
    ensures
        cuts(text@, words@) == words_of(cut(text@, within)),
        all_fit(words@, text@.len()),
{
    let pieces = split_spans(text, within, Delimiter::Whitespace);
    let mut words: Vec<Span> = Vec::new();
    let mut i: usize = 0;
    proof {
        assert(pieces@.take(0) =~= Seq::<Span>::empty());
        assert(cuts(text@, Seq::<Span>::empty()) =~= Seq::<Seq<char>>::empty());
        reveal(Seq::filter);
        assert(cuts(text@, words@) =~= Seq::<Seq<char>>::empty());
    }
    while i < pieces.len()
        invariant
            i <= pieces.len(),
            all_fit(pieces@, text@.len()),
            all_fit(words@, text@.len()),
            cuts(text@, words@) == cuts(text@, pieces@.take(i as int)).filter(has_chars()),
        decreases pieces.len() - i,
    {
        let piece = pieces[i];
        proof {
            assert(pieces@[i as int].fits(text@.len()));
            assert(pieces@.take(i + 1) =~= pieces@.take(i as int).push(piece));
            lemma_cuts_push(text@, pieces@.take(i as int), piece);
            lemma_filter_push(
                cuts(text@, pieces@.take(i as int)),
                cut(text@, piece),
                has_chars(),
            );
            lemma_cuts_push(text@, words@, piece);
        }
        if piece.start < piece.end {
            words.push(piece);
        }
        i = i + 1;
    }
    proof {
        assert(pieces@.take(i as int) =~= pieces@);
    }
    words
}

/// A line without the carriage return that may end it.
pub open spec fn strip_cr(line: Seq<char>) -> Seq<char> {
    if line.len() > 0 && line.last() == '\r' {
        line.drop_last()
    } else {
        line
    }
}

/// The lines of `s`. A line ends at a line feed, or at a carriage return
/// and a line feed; neither belongs to the line. What follows the last line
/// feed is a line too, unless it is empty.
pub open spec fn lines_of(s: Seq<char>) -> Seq<Seq<char>> {
    let pieces = split(s, Delimiter::Exactly('\n'));
    let ended = Seq::new((pieces.len() - 1) as nat, |i: int| strip_cr(pieces[i]));
    if pieces.last().len() == 0 {
        ended
    } else {
        ended.push(pieces.last())
    }
}

/// The lines of a text are the pieces between its line feeds, each
/// without the carriage return that may end it, and what follows the last
/// line feed, as it is, unless it is empty.
proof fn lemma_lines_from_pieces(text: Seq<char>, pieces: Seq<Span>, lines: Seq<Span>)
    requires
        cuts(text, pieces) == split(text, Delimiter::Exactly('\n')),
        pieces.len() >= 1,
        lines.len() == if pieces.last().start < pieces.last().end {
            pieces.len() as int
        } else {
            pieces.len() - 1
        },
        forall|j: int|
            0 <= j < pieces.len() - 1 ==> cut(text, #[trigger] lines[j]) == strip_cr(
                cut(text, pieces[j]),
            ),
        pieces.last().start < pieces.last().end ==> lines.last() == pieces.last(),
        pieces.last().start <= pieces.last().end <= text.len(),
    ensures
        cuts(text, lines) == lines_of(text),
{
    let parts = split(text, Delimiter::Exactly('\n'));
    let last = pieces.last();
    assert(parts.len() == pieces.len());
    assert(parts.last() == cut(text, last)) by {
        assert(cuts(text, pieces)[pieces.len() - 1] == cut(text, pieces[pieces.len() - 1]));
    }
    assert(cut(text, last).len() == last.end - last.start);
    let stripped = Seq::new((parts.len() - 1) as nat, |i: int| strip_cr(parts[i]));
    assert forall|j: int| 0 <= j < lines.len() implies cuts(text, lines)[j] == lines_of(
        text,
    )[j] by {
        if j < pieces.len() - 1 {
            assert(cuts(text, pieces)[j] == cut(text, pieces[j]));
            assert(stripped[j] == strip_cr(parts[j]));
        }
    }
    assert(cuts(text, lines) =~= lines_of(text));
}

/// Cuts `text` into its lines.
pub fn line_spans(text: &Vec<char>) -> (lines: Vec<Span>)
    ensures
        cuts(text@, lines@) == lines_of(text@),
        all_fit(lines@, text@.len()),
{
    let pieces = split_spans(text, Span { start: 0, end: text.len() }, Delimiter::Exactly('\n'));
    proof {
        assert(cuts(text@, pieces@) == split(text@, Delimiter::Exactly('\n'))) by {
            assert(text@.subrange(0, text@.len() as int) =~= text@);
        }
        lemma_split_nonempty(text@, Delimiter::Exactly('\n'));
        assert(cuts(text@, pieces@).len() == pieces@.len());
    }
    let ended = pieces.len() - 1;
    let mut lines: Vec<Span> = Vec::new();
    let mut i: usize = 0;
    while i < ended
        invariant
            ended + 1 == pieces@.len(),
            i <= ended,
            all_fit(pieces@, text@.len()),
            all_fit(lines@, text@.len()),
            lines@.len() == i,
            forall|j: int|
                0 <= j < i ==> cut(text@, #[trigger] lines@[j]) == strip_cr(
                    cut(text@, pieces@[j]),
                ),
        decreases ended - i,
    {
        let piece = pieces[i];
        proof {
            assert(pieces@[i as int].fits(text@.len()));
        }
        let line = if piece.start < piece.end && text[piece.end - 1] == '\r' {
            Span { start: piece.start, end: piece.end - 1 }
        } else {
            piece
        };
        proof {
            assert(cut(text@, line) =~= strip_cr(cut(text@, piece)));
        }
        lines.push(line);
        i = i + 1;
    }
    let last = pieces[ended];
    proof {
        assert(pieces@[ended as int].fits(text@.len()));
    }
    if last.start < last.end {
        lines.push(last);
    }
    proof {
        lemma_lines_from_pieces(text@, pieces@, lines@);
    }
    lines
}

/// Whether the part of `text` inside `span` reads exactly as `other`.
pub fn same_text(text: &Vec<char>, span: Span, other: &Vec<char>) -> (same: bool)
    requires
        span.fits(text@.len()),
    ensures
        same == (cut(text@, span) == other@),
{
    if span.end - span.start != other.len() {
        return false;
    }
    let mut i: usize = 0;
    while i < other.len()
        invariant
            span.fits(text@.len()),
            span.end - span.start == other@.len(),
            i <= other@.len(),
            forall|j: int| 0 <= j < i ==> text@[span.start + j] == other@[j],
        decreases other.len() - i,
    {
        if text[span.start + i] != other[i] {
            proof {
                assert(cut(text@, span)[i as int] == text@[span.start + i]);
            }
            return false;
        }
        i = i + 1;
    }
    proof {
        assert(cut(text@, span) =~= other@);
    }
    true
}

/// Whether `c` is one of the ten decimal digits.
pub open spec fn is_digit(c: char) -> bool {
    '0' <= c <= '9'
}

/// The number that the digit `c` stands for.
pub open spec fn digit_value(c: char) -> nat {
    (c as int - '0' as int) as nat
}

/// Whether every character of `s` is a decimal digit.
pub open spec fn all_digits(s: Seq<char>) -> bool {
    forall|i: int| 0 <= i < s.len() ==> is_digit(#[trigger] s[i])
}

/// The number that a run of decimal digits stands for.
pub open spec fn digits_value(s: Seq<char>) -> nat
    decreases s.len(),
{
    if s.len() == 0 {
        0
    } else {
        digits_value(s.drop_last()) * 10 + digit_value(s.last())
    }
}

/// A numeral without the plus sign that may lead it.
pub open spec fn unsigned_part(s: Seq<char>) -> Seq<char> {
    if s.len() > 0 && s[0] == '+' {
        s.drop_first()
    } else {
        s
    }
}

/// The number that `s` stands for, if `s` is a numeral: one or more decimal
/// digits, with or without a plus sign before them.
pub open spec fn number_of(s: Seq<char>) -> Option<nat> {
    let digits = unsigned_part(s);
    if digits.len() > 0 && all_digits(digits) {
        Some(digits_value(digits))
    } else {
        None
    }
}

/// The number that `s` stands for, if `s` is a numeral and the number fits
/// in 64 bits.
pub open spec fn u64_of(s: Seq<char>) -> Option<u64> {
    match number_of(s) {
        Some(n) => if n <= u64::MAX {
            Some(n as u64)
        } else {
            None
        },
        None => None,
    }
}

/// The number that `s` stands for, if `s` is a numeral and the number fits
/// in a `usize`.
pub open spec fn usize_of(s: Seq<char>) -> Option<usize> {
    match number_of(s) {
        Some(n) => if n <= usize::MAX {
            Some(n as usize)
        } else {
            None
        },
        None => None,
    }
}

/// The first digits of a numeral stand for no more than the whole of it.
pub proof fn lemma_digits_prefix(s: Seq<char>, k: int)
    requires
        0 <= k <= s.len(),
    ensures
        digits_value(s.take(k)) <= digits_value(s),
    decreases s.len(),
{
    if k == s.len() {
        assert(s.take(k) =~= s);
    } else {
        lemma_digits_prefix(s.drop_last(), k);
        assert(s.drop_last().take(k) =~= s.take(k));
    }
}

/// The number that `c` stands for, if `c` is a decimal digit.
pub fn digit_of(c: char) -> (digit: Option<u64>)
    ensures
        digit is Some == is_digit(c),
        digit is Some ==> digit->0 == digit_value(c),
{
    if '0' <= c && c <= '9' {
        Some((c as u32 - '0' as u32) as u64)
    } else {
        None
    }
}

/// Reads the part of `text` inside `span` as a 64-bit number.
pub fn parse_u64(text: &Vec<char>, span: Span) -> (number: Option<u64>)
    requires
        span.fits(text@.len()),
    ensures
        number == u64_of(cut(text@, span)),
{
    let ghost s = cut(text@, span);
    let mut pos: usize = span.start;
    if pos < span.end && text[pos] == '+' {
        pos = pos + 1;
    }
    let first = pos;
    let ghost digits = text@.subrange(first as int, span.end as int);
    proof {
        assert(s.len() > 0 ==> s[0] == text@[span.start as int]);
        assert(digits =~= unsigned_part(s));
    }
    if pos == span.end {
        return None;
    }
    let mut value: u64 = 0;
    while pos < span.end
        invariant
            span.fits(text@.len()),
            span.start <= first <= pos <= span.end,
            digits == text@.subrange(first as int, span.end as int),
            digits == unsigned_part(cut(text@, span)),
            digits.len() > 0,
            all_digits(digits.take(pos - first)),
            value == digits_value(digits.take(pos - first)),
        decreases span.end - pos,
    {
        let c = text[pos];
        let ghost seen = digits.take(pos - first);
        let ghost more = digits.take(pos + 1 - first);
        proof {
            assert(digits[pos - first] == c);
            assert(more.drop_last() =~= seen);
            assert(more.last() == c);
        }
        let digit = match digit_of(c) {
            Some(digit) => digit,
            None => {
                return None;
            },
        };
        if value > (u64::MAX - digit) / 10 {
            proof {
                if all_digits(digits) {
                    lemma_digits_prefix(digits, pos + 1 - first);
                }
            }
            return None;
        }
        value = value * 10 + digit;
        pos = pos + 1;
    }
    proof {
        assert(digits.take(pos - first) =~= digits);
    }
    Some(value)
}

/// Reads the part of `text` inside `span` as a number that fits in a `usize`.
pub fn parse_usize(text: &Vec<char>, span: Span) -> (number: Option<usize>)
    requires
        span.fits(text@.len()),
    ensures
        number == usize_of(cut(text@, span)),
{
    match parse_u64(text, span) {
        Some(n) => if n <= usize::MAX as u64 {
            Some(n as usize)
        } else {
            None
        },
        None => None,
    }
}

/// Whether `a` stands before `b` in a dictionary that orders characters by
/// their code points, or is `b`.
pub open spec fn text_le(a: Seq<char>, b: Seq<char>) -> bool
    decreases a.len(),
{
    if a.len() == 0 {
        true
    } else if b.len() == 0 {
        false
    } else if a[0] != b[0] {
        a[0] < b[0]
    } else {
        text_le(a.drop_first(), b.drop_first())
    }
}

/// Of two texts, one stands before the other or they are the same.
pub proof fn lemma_text_le_total(a: Seq<char>, b: Seq<char>)
    ensures
        text_le(a, b) || text_le(b, a),
    decreases a.len(),
{
    if a.len() > 0 && b.len() > 0 && a[0] == b[0] {
        lemma_text_le_total(a.drop_first(), b.drop_first());
    }
}

/// What stands before a text that stands before a third stands before the
/// third.
pub proof fn lemma_text_le_transitive(a: Seq<char>, b: Seq<char>, c: Seq<char>)
    requires
        text_le(a, b),
        text_le(b, c),
    ensures
        text_le(a, c),
    decreases a.len(),
{
    if a.len() > 0 && b.len() > 0 && c.len() > 0 && a[0] == b[0] && b[0] == c[0] {
        lemma_text_le_transitive(a.drop_first(), b.drop_first(), c.drop_first());
    }
}

/// Two texts that each stand before the other, or are it, are the same.
pub proof fn lemma_text_le_antisymmetric(a: Seq<char>, b: Seq<char>)
    requires
        text_le(a, b),
        text_le(b, a),
    ensures
        a == b,
    decreases a.len(),
{
    if a.len() > 0 && b.len() > 0 {
        lemma_text_le_antisymmetric(a.drop_first(), b.drop_first());
        assert(a =~= seq![a[0]] + a.drop_first());
        assert(b =~= seq![b[0]] + b.drop_first());
    } else {
        assert(a =~= b);
    }
}

/// Tests whether the code point of `a` is lower than that of `b`.
pub fn char_lt(a: char, b: char) -> (lt: bool)
    ensures
        lt == (a < b),
{
    a < b
}

/// Tests whether `a` stands before `b` in a dictionary that orders
/// characters by their code points, or is `b`.
pub fn comes_first(a: &str, b: &str) -> (le: bool)
    ensures
        le == text_le(a@, b@),
{
    let left = to_chars(a);
    let right = to_chars(b);
    let mut i: usize = 0;
    proof {
        assert(left@.skip(0) =~= left@);
        assert(right@.skip(0) =~= right@);
    }
    while i < left.len() && i < right.len()
        invariant
            left@ == a@,
            right@ == b@,
            i <= left@.len(),
            i <= right@.len(),
            text_le(a@, b@) == text_le(left@.skip(i as int), right@.skip(i as int)),
        decreases left@.len() - i,
    {
        proof {
            assert(left@.skip(i as int)[0] == left@[i as int]);
            assert(right@.skip(i as int)[0] == right@[i as int]);
            assert(left@.skip(i as int).drop_first() =~= left@.skip(i + 1));
            assert(right@.skip(i as int).drop_first() =~= right@.skip(i + 1));
        }
        if left[i] != right[i] {
            return char_lt(left[i], right[i]);
        }
        i = i + 1;
    }
    i == left.len()
}

} // verus!
