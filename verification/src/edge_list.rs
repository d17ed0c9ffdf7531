//! The edge-list text format.
//!
//! A text is a sequence of lines, separated by line feeds. A line that starts
//! with `#` is a comment. Any other line is cut into words at white space; a
//! line of fewer than two words says nothing, and a line of two or more words
//! must consist of unsigned decimal numbers, of which the first two are the
//! source and the destination of an edge.

use crate::graph::{adjacency_of, Graph};
use vstd::prelude::*;

verus! {

/// The characters that separate words: those with the Unicode property
/// `White_Space`.
pub open spec fn is_whitespace(c: char) -> bool {
    let u = c as u32;
    ||| 0x09 <= u <= 0x0D
    ||| u == 0x20
    ||| u == 0x85
    ||| u == 0xA0
    ||| u == 0x1680
    ||| 0x2000 <= u <= 0x200A
    ||| u == 0x2028
    ||| u == 0x2029
    ||| u == 0x202F
    ||| u == 0x205F
    ||| u == 0x3000
}

/// Whether `c` is one of the decimal digits `0` to `9`.
pub open spec fn is_digit(c: char) -> bool {
    '0' <= c <= '9'
}

/// The value of a decimal digit.
pub open spec fn digit_value(c: char) -> nat {
    (c as int - 48) as nat
}

/// The number that a sequence of decimal digits denotes.
pub open spec fn decimal_value(digits: Seq<char>) -> nat
    decreases digits.len(),
{
    if digits.len() == 0 {
        0
    } else {
        10 * decimal_value(digits.drop_last()) + digit_value(digits.last())
    }
}

/// A word without its leading `+`, if it has one.
pub open spec fn unsigned_part(token: Seq<char>) -> Seq<char> {
    if token.len() > 0 && token[0] == '+' {
        token.drop_first()
    } else {
        token
    }
}

/// Whether every character of `s` is a decimal digit.
pub open spec fn all_digits(s: Seq<char>) -> bool {
    forall|i: int| 0 <= i < s.len() ==> is_digit(#[trigger] s[i])
}

/// The number that a word denotes: an optional `+`, then one or more decimal
/// digits whose value fits the vertex type. Any other word denotes none.
pub open spec fn token_number(token: Seq<char>) -> Option<usize> {
    let digits = unsigned_part(token);
    if digits.len() > 0 && all_digits(digits) && decimal_value(digits) <= usize::MAX {
        Some(decimal_value(digits) as usize)
    } else {
        None
    }
}

/// The number of characters of `s` before the first one at which `stop`
/// holds; all of them, if there is none.
pub open spec fn prefix_len(s: Seq<char>, stop: spec_fn(char) -> bool) -> nat
    decreases s.len(),
{
    if s.len() == 0 || stop(s[0]) {
        0
    } else {
        1 + prefix_len(s.drop_first(), stop)
    }
}

/// `prefix_len` is at most the length of the sequence.
pub proof fn lemma_prefix_len_bound(s: Seq<char>, stop: spec_fn(char) -> bool)
    ensures
        prefix_len(s, stop) <= s.len(),
    decreases s.len(),
{
    if s.len() > 0 && !stop(s[0]) {
        lemma_prefix_len_bound(s.drop_first(), stop);
    }
}

/// `prefix_len` is the one position up to which `stop` fails and at which it
/// holds or the sequence ends.
pub proof fn lemma_prefix_len_is(s: Seq<char>, stop: spec_fn(char) -> bool, n: int)
    requires
        0 <= n <= s.len(),
        forall|k: int| 0 <= k < n ==> !stop(#[trigger] s[k]),
        n == s.len() || stop(s[n]),
    ensures
        prefix_len(s, stop) == n,
    decreases s.len(),
{
    if n > 0 {
        assert(!stop(s[0]));
        let rest = s.drop_first();
        assert forall|k: int| 0 <= k < n - 1 implies !stop(#[trigger] rest[k]) by {
            assert(rest[k] == s[k + 1]);
        }
        lemma_prefix_len_is(rest, stop, n - 1);
    }
}

/// The length of the first word of `s`, which is 0 where `s` starts with
/// white space.
pub open spec fn word_len(s: Seq<char>) -> nat {
    prefix_len(s, |c: char| is_whitespace(c))
}

/// The length of the first line of `s`, without its line feed.
pub open spec fn line_len(s: Seq<char>) -> nat {
    prefix_len(s, |c: char| c == '\n')
}

/// The words of a line: its maximal runs of characters that are not white
/// space, from left to right.
pub open spec fn tokens(s: Seq<char>) -> Seq<Seq<char>>
    decreases s.len(),
    via tokens_decreases
{
    if s.len() == 0 {
        Seq::empty()
    } else if is_whitespace(s[0]) {
        tokens(s.drop_first())
    } else {
        seq![s.take(word_len(s) as int)] + tokens(s.skip(word_len(s) as int))
    }
}

#[via_fn]
proof fn tokens_decreases(s: Seq<char>) {
    lemma_prefix_len_bound(s, |c: char| is_whitespace(c));
}

/// The lines of a text. A line feed ends a line; what follows the last line
/// feed is a line only if it is not empty.
pub open spec fn lines_of(text: Seq<char>) -> Seq<Seq<char>>
    decreases text.len(),
    via lines_of_decreases
{
    if text.len() == 0 {
        Seq::empty()
    } else if line_len(text) == text.len() {
        seq![text]
    } else {
        seq![text.take(line_len(text) as int)] + lines_of(text.skip(line_len(text) as int + 1))
    }
}

#[via_fn]
proof fn lines_of_decreases(text: Seq<char>) {
    lemma_prefix_len_bound(text, |c: char| c == '\n');
}

/// What one line of an edge list says.
#[derive(Clone, Copy, Debug, PartialEq, Eq, Structural)]
pub enum LineMeaning {
    /// A comment, or a line of fewer than two words.
    Skipped,
    /// An edge from the first number to the second.
    Edge(usize, usize),
    /// A line of two or more words, one of which is no number.
    Malformed,
}

/// Whether some word of `words` denotes no number.
pub open spec fn has_bad_word(words: Seq<Seq<char>>) -> bool {
    exists|t: int| 0 <= t < words.len() && token_number(#[trigger] words[t]) is None
}

/// What a line says. A comment and a line of fewer than two words say
/// nothing, whatever their words are; in a line of two or more words every
/// word must denote a number, also those after the second.
pub open spec fn line_meaning(line: Seq<char>) -> LineMeaning {
    let words = tokens(line);
    if line.len() > 0 && line[0] == '#' {
        LineMeaning::Skipped
    } else if words.len() < 2 {
        LineMeaning::Skipped
    } else if has_bad_word(words) {
        LineMeaning::Malformed
    } else {
        LineMeaning::Edge(token_number(words[0]).unwrap(), token_number(words[1]).unwrap())
    }
}

/// The edges that the lines give, in the order of the lines.
pub open spec fn edges_in(lines: Seq<Seq<char>>) -> Seq<(usize, usize)> {
    lines.filter_map(
        |line: Seq<char>|
            match line_meaning(line) {
                LineMeaning::Edge(from, to) => Some((from, to)),
                _ => None,
            },
    )
}

/// Whether some line of `lines` is malformed.
pub open spec fn has_malformed_line(lines: Seq<Seq<char>>) -> bool {
    exists|i: int| 0 <= i < lines.len() && line_meaning(#[trigger] lines[i]) is Malformed
}

/// Whether line `i`, counted from 0, is malformed and no line before it is.
pub open spec fn is_first_malformed_line(lines: Seq<Seq<char>>, i: int) -> bool {
    &&& 0 <= i < lines.len()
    &&& line_meaning(lines[i]) is Malformed
    &&& forall|j: int| 0 <= j < i ==> !(line_meaning(#[trigger] lines[j]) is Malformed)
}

/// What to do with a malformed line.
#[derive(Clone, Copy, Debug, PartialEq, Eq, Structural)]
pub enum OnMalformed {
    /// Give up at the first malformed line.
    Reject,
    /// Pass over malformed lines as over comments.
    Skip,
}

/// Says which line of a text is its first malformed one.
#[derive(Clone, Copy, Debug, PartialEq, Eq, Structural)]
pub struct ParseError {
    /// The number of the line, counted from 1.
    pub line: usize,
}

/// Whether `c` separates words.
fn is_space(c: char) -> (r: bool)
    ensures
        r == is_whitespace(c),
{
    let u: u32 = c as u32;
    (0x09 <= u && u <= 0x0D) || u == 0x20 || u == 0x85 || u == 0xA0 || u == 0x1680 || (0x2000 <= u
        && u <= 0x200A) || u == 0x2028 || u == 0x2029 || u == 0x202F || u == 0x205F || u == 0x3000
}

/// The value of a decimal digit; none for any other character.
fn decimal_digit(c: char) -> (digit: Option<usize>)
    ensures
        digit == if is_digit(c) {
            Some(digit_value(c) as usize)
        } else {
            None
        },
        digit matches Some(d) ==> d <= 9,
{
    let u: u32 = c as u32;
    if 48 <= u && u <= 57 {
        Some((u - 48) as usize)
    } else {
        None
    }
}

/// A prefix of a sequence of digits denotes no more than the whole.
proof fn lemma_decimal_value_prefix(digits: Seq<char>, n: int)
    requires
        0 <= n <= digits.len(),
    ensures
        decimal_value(digits.take(n)) <= decimal_value(digits),
    decreases digits.len(),
{
    if n == digits.len() {
        assert(digits.take(n) =~= digits);
    } else {
        assert(digits.drop_last().take(n) =~= digits.take(n));
        lemma_decimal_value_prefix(digits.drop_last(), n);
    }
}

/// Reads the word `chars[lo..hi]` as a number.
fn scan_number(chars: &[char], lo: usize, hi: usize) -> (value: Option<usize>)
    requires
        lo < hi <= chars.len(),
    ensures
        value == token_number(chars@.subrange(lo as int, hi as int)),
{
    let ghost token = chars@.subrange(lo as int, hi as int);
    let from = if chars[lo] == '+' {
        lo + 1
    } else {
        lo
    };
    let ghost digits = chars@.subrange(from as int, hi as int);
    assert(token[0] == chars[lo as int]);
    assert(digits =~= unsigned_part(token));
    if from == hi {
        return None;
    }
    let mut value: usize = 0;
    let mut i = from;
    while i < hi
        invariant
            lo < hi,
            from <= i <= hi <= chars.len(),
            token == chars@.subrange(lo as int, hi as int),
            digits == chars@.subrange(from as int, hi as int),
            digits == unsigned_part(token),
            forall|k: int| 0 <= k < i - from ==> is_digit(#[trigger] digits[k]),
            value == decimal_value(digits.take(i - from)),
        decreases hi - i,
    {
        assert(digits[i - from] == chars[i as int]);
        let d: usize = match decimal_digit(chars[i]) {
            Some(d) => d,
            None => {
                assert(!all_digits(digits));
                return None;
            },
        };
        proof {
            assert(digits.take(i - from + 1).drop_last() =~= digits.take(i - from));
            assert(digits.take(i - from + 1).last() == chars[i as int]);
            assert(decimal_value(digits.take(i - from + 1)) == 10 * value + d);
        }
        if value > (usize::MAX - d) / 10 {
            proof {
                lemma_decimal_value_prefix(digits, i - from + 1);
            }
            return None;
        }
        value = value * 10 + d;
        i += 1;
    }
    assert(digits.take(hi - from) =~= digits);
    Some(value)
}

/// Reads the line `chars[lo..hi]`.
fn scan_line(chars: &[char], lo: usize, hi: usize) -> (meaning: LineMeaning)
    requires
        lo <= hi <= chars.len(),
    ensures
        meaning == line_meaning(chars@.subrange(lo as int, hi as int)),
{
    let ghost line = chars@.subrange(lo as int, hi as int);
    if lo < hi && chars[lo] == '#' {
        assert(line[0] == '#');
        return LineMeaning::Skipped;
    }
    assert(!(line.len() > 0 && line[0] == '#'));
    let mut i = lo;
    let mut count: usize = 0;
    let mut first: usize = 0;
    let mut second: usize = 0;
    let mut bad = false;
    let ghost mut seen: Seq<Seq<char>> = Seq::empty();
    assert(line.skip(0) =~= line);
    while i < hi
        invariant
            lo <= i <= hi <= chars.len(),
            line == chars@.subrange(lo as int, hi as int),
            tokens(line) == seen + tokens(line.skip(i - lo)),
            count == seen.len(),
            count <= i - lo,
            bad <==> has_bad_word(seen),
            count >= 1 && !bad ==> token_number(seen[0]) == Some(first),
            count >= 2 && !bad ==> token_number(seen[1]) == Some(second),
        decreases hi - i,
    {
        let ghost rest = line.skip(i - lo);
        assert(rest[0] == chars[i as int]);
        if is_space(chars[i]) {
            assert(rest.drop_first() =~= line.skip(i - lo + 1));
            i += 1;
        } else {
            let mut j = i + 1;
            while j < hi && !is_space(chars[j])
                invariant
                    i < j <= hi <= chars.len(),
                    forall|k: int| i <= k < j ==> !is_whitespace(#[trigger] chars[k]),
                decreases hi - j,
            {
                j += 1;
            }
            let value = scan_number(chars, i, j);
            let ghost word = chars@.subrange(i as int, j as int);
            proof {
                let stop = |c: char| is_whitespace(c);
                assert forall|k: int| 0 <= k < j - i implies !stop(#[trigger] rest[k]) by {
                    assert(rest[k] == chars[i + k]);
                }
                if j < hi {
                    assert(rest[j - i] == chars[j as int]);
                }
                lemma_prefix_len_is(rest, stop, j - i);
                assert(rest.take(j - i) =~= word);
                assert(rest.skip(j - i) =~= line.skip(j - lo));
                assert(tokens(rest) == seq![word] + tokens(line.skip(j - lo)));
                assert(seen + (seq![word] + tokens(line.skip(j - lo))) =~= seen.push(word)
                    + tokens(line.skip(j - lo)));
                let longer = seen.push(word);
                if has_bad_word(seen) {
                    let t = choose|t: int|
                        0 <= t < seen.len() && token_number(#[trigger] seen[t]) is None;
                    assert(token_number(longer[t]) is None);
                }
                if value is None {
                    assert(token_number(longer[seen.len() as int]) is None);
                }
                if has_bad_word(longer) {
                    let t = choose|t: int|
                        0 <= t < longer.len() && token_number(#[trigger] longer[t]) is None;
                    if t < seen.len() {
                        assert(token_number(seen[t]) is None);
                    }
                }
                seen = longer;
            }
            match value {
                Some(v) => {
                    if count == 0 {
                        first = v;
                    } else if count == 1 {
                        second = v;
                    }
                },
                None => {
                    bad = true;
                },
            }
            count += 1;
            i = j;
        }
    }
    assert(tokens(line) =~= seen);
    if count < 2 {
        LineMeaning::Skipped
    } else if bad {
        LineMeaning::Malformed
    } else {
        LineMeaning::Edge(first, second)
    }
}

/// The characters of a string.
fn chars_of(text: &str) -> (chars: Vec<char>)
    ensures
        chars@ == text@,
{
    let mut chars: Vec<char> = Vec::new();
    for c in it: text.chars()
        invariant
            chars@ == it.seq().take(it.index()),
            it.seq() == text@,
    {
        chars.push(c);
    }
    assert(chars@ =~= text@);
    chars
}

/// Says what one line says.
pub fn parse_line(line: &str) -> (meaning: LineMeaning)
    ensures
        meaning == line_meaning(line@),
{
    let chars = chars_of(line);
    assert(chars@.subrange(0, chars@.len() as int) =~= line@);
    scan_line(chars.as_slice(), 0, chars.len())
}

/// Reads the edges of a text in the edge-list format, in the order of its
/// lines.
///
/// With `OnMalformed::Skip` every text gives a list. With
/// `OnMalformed::Reject` a text with a malformed line gives the number of the
/// first such line, and no other text fails.
pub fn parse_edge_list(text: &str, on_malformed: OnMalformed) -> (result: Result<
    Vec<(usize, usize)>,
    ParseError,
>)
    ensures
        match result {
            Ok(edges) => {
                &&& edges@ == edges_in(lines_of(text@))
                &&& on_malformed is Skip || !has_malformed_line(lines_of(text@))
            },
            Err(error) => {
                &&& on_malformed is Reject
                &&& is_first_malformed_line(lines_of(text@), error.line - 1)
            },
        },
{
    let chars = chars_of(text);
    let mut edges: Vec<(usize, usize)> = Vec::new();
    let mut start: usize = 0;
    let mut line_index: usize = 0;
    let ghost mut done: Seq<Seq<char>> = Seq::empty();
    assert(chars@.skip(0) =~= chars@);
    while start < chars.len()
        invariant
            chars@ == text@,
            start <= chars.len(),
            line_index <= start,
            line_index == done.len(),
            lines_of(chars@) == done + lines_of(chars@.skip(start as int)),
            edges@ == edges_in(done),
            on_malformed is Reject ==> !has_malformed_line(done),
        decreases chars.len() - start,
    {
        let mut end = start;
        while end < chars.len() && chars[end] != '\n'
            invariant
                start <= end <= chars.len(),
                forall|k: int| start <= k < end ==> #[trigger] chars[k] != '\n',
            decreases chars.len() - end,
        {
            end += 1;
        }
        let meaning = scan_line(chars.as_slice(), start, end);
        let ghost line = chars@.subrange(start as int, end as int);
        let ghost rest = chars@.skip(start as int);
        let next = if end < chars.len() {
            end + 1
        } else {
            end
        };
        proof {
            let stop = |c: char| c == '\n';
            assert forall|k: int| 0 <= k < end - start implies !stop(#[trigger] rest[k]) by {
                assert(rest[k] == chars[start + k]);
            }
            if end < chars.len() {
                assert(rest[end - start] == chars[end as int]);
            }
            lemma_prefix_len_is(rest, stop, end - start);
            assert(rest.take(end - start) =~= line);
            if end < chars.len() {
                assert(rest.skip(end - start + 1) =~= chars@.skip(next as int));
            } else {
                assert(rest =~= line);
                assert(chars@.skip(next as int).len() == 0);
            }
            assert(lines_of(rest) =~= seq![line] + lines_of(chars@.skip(next as int)));
            assert(done + (seq![line] + lines_of(chars@.skip(next as int))) =~= done.push(line)
                + lines_of(chars@.skip(next as int)));
            let longer = done.push(line);
            assert(longer.drop_last() =~= done);
            assert(longer.last() == line);
            if has_malformed_line(longer) && !(meaning is Malformed) {
                let t = choose|t: int|
                    0 <= t < longer.len() && line_meaning(#[trigger] longer[t]) is Malformed;
                assert(line_meaning(done[t]) is Malformed);
            }
        }
        match meaning {
            LineMeaning::Edge(from, to) => {
                edges.push((from, to));
            },
            LineMeaning::Malformed => {
                match on_malformed {
                    OnMalformed::Reject => {
                        proof {
                            let lines = lines_of(text@);
                            let at = line_index as int;
                            assert(lines[at] == line);
                            assert forall|j: int| 0 <= j < at implies !(line_meaning(
                                #[trigger] lines[j],
                            ) is Malformed) by {
                                assert(lines[j] == done[j]);
                            }
                        }
                        return Err(ParseError { line: line_index + 1 });
                    },
                    OnMalformed::Skip => {},
                }
            },
            LineMeaning::Skipped => {},
        }
        proof {
            done = done.push(line);
        }
        line_index += 1;
        start = next;
    }
    proof {
        assert(lines_of(chars@.skip(start as int)) =~= Seq::<Seq<char>>::empty());
        assert(lines_of(text@) =~= done);
    }
    Ok(edges)
}

/// Reads a text in the edge-list format and builds its graph.
pub fn parse_graph(text: &str, on_malformed: OnMalformed) -> (result: Result<Graph, ParseError>)
    ensures
        match result {
            Ok(graph) => {
                &&& graph@ == adjacency_of(edges_in(lines_of(text@)))
                &&& on_malformed is Skip || !has_malformed_line(lines_of(text@))
            },
            Err(error) => {
                &&& on_malformed is Reject
                &&& is_first_malformed_line(lines_of(text@), error.line - 1)
            },
        },
{
    match parse_edge_list(text, on_malformed) {
        Ok(edges) => Ok(Graph::from_edges(edges.as_slice())),
        Err(error) => Err(error),
    }
}

} // verus!
