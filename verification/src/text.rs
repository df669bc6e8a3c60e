//! The text form of a grid: tokens separated by commas, each token either a
//! number or blank.
//!
//! A token is a number when it is an optional `+` followed by one or more
//! decimal digits. Every other token, the empty one included, is blank.

use crate::board::Cells;
use vstd::prelude::*;
use vstd::slice::slice_subrange;

verus! {

/// Whether `c` has the Unicode property `White_Space`.
pub open spec fn spec_is_whitespace(c: char) -> bool {
    let n = c as u32;
    ||| 0x09 <= n <= 0x0D
    ||| n == 0x20
    ||| n == 0x85
    ||| n == 0xA0
    ||| n == 0x1680
    ||| 0x2000 <= n <= 0x200A
    ||| n == 0x2028
    ||| n == 0x2029
    ||| n == 0x202F
    ||| n == 0x205F
    ||| n == 0x3000
}

/// Whether `c` has the Unicode property `White_Space`.
#[verifier::when_used_as_spec(spec_is_whitespace)]
pub fn is_whitespace(c: char) -> (b: bool)
    ensures
        b == spec_is_whitespace(c),
{
    let n: u32 = c as u32;
    (0x09 <= n && n <= 0x0D) || n == 0x20 || n == 0x85 || n == 0xA0 || n == 0x1680 || (0x2000 <= n
        && n <= 0x200A) || n == 0x2028 || n == 0x2029 || n == 0x202F || n == 0x205F || n == 0x3000
}

/// Whether `c` is one of the decimal digits `0` to `9`.
pub open spec fn spec_is_digit(c: char) -> bool {
    0x30 <= c as u32 <= 0x39
}

/// Whether `c` is one of the decimal digits `0` to `9`.
#[verifier::when_used_as_spec(spec_is_digit)]
pub fn is_digit(c: char) -> (b: bool)
    ensures
        b == spec_is_digit(c),
{
    let n: u32 = c as u32;
    0x30 <= n && n <= 0x39
}

/// The number that the digit `c` stands for.
pub open spec fn digit_value(c: char) -> nat
    recommends
        spec_is_digit(c),
{
    (c as u32 - 0x30) as nat
}

/// The number written by `digits` in base ten; the empty text writes zero.
pub open spec fn decimal_value(digits: Seq<char>) -> nat
    decreases digits.len(),
{
    if digits.len() == 0 {
        0
    } else {
        decimal_value(digits.drop_last()) * 10 + digit_value(digits.last())
    }
}

/// The part of `token` after its sign: a leading `+` is dropped.
pub open spec fn unsigned_part(token: Seq<char>) -> Seq<char> {
    if token.len() > 0 && token[0] == '+' {
        token.skip(1)
    } else {
        token
    }
}

/// Whether `token` is written as a number: an optional `+`, then at least one
/// digit and nothing but digits.
pub open spec fn is_numeral(token: Seq<char>) -> bool {
    let digits = unsigned_part(token);
    &&& digits.len() > 0
    &&& forall|i: int| 0 <= i < digits.len() ==> spec_is_digit(#[trigger] digits[i])
}

/// What a token was read as.
#[derive(Clone, Copy, Debug, PartialEq, Eq)]
pub enum Token {
    /// Not a number.
    Blank,
    /// A number, with its value.
    Number(usize),
    /// A number whose value does not fit in a machine word.
    Overlong,
}

/// The value of a token that is a number.
pub open spec fn token_value(token: Seq<char>) -> Option<nat> {
    if is_numeral(token) {
        Some(decimal_value(unsigned_part(token)))
    } else {
        None
    }
}

/// What `token` is read as.
pub open spec fn read(token: Seq<char>) -> Token {
    match token_value(token) {
        None => Token::Blank,
        Some(value) => if value <= usize::MAX {
            Token::Number(value as usize)
        } else {
            Token::Overlong
        },
    }
}

/// `text` cut at every occurrence of `sep`. There is always at least one
/// piece: a text without `sep` is its own single piece, and the empty text
/// gives one empty piece.
pub open spec fn split(text: Seq<char>, sep: char) -> Seq<Seq<char>>
    decreases text.len(),
{
    if text.len() == 0 {
        seq![Seq::<char>::empty()]
    } else {
        let before = split(text.drop_last(), sep);
        if text.last() == sep {
            before.push(Seq::<char>::empty())
        } else {
            before.drop_last().push(before.last().push(text.last()))
        }
    }
}

/// What the comma-separated tokens of `text` are read as, in order.
pub open spec fn read_all(text: Seq<char>) -> Seq<Token> {
    let tokens = split(text, ',');
    Seq::new(tokens.len(), |k: int| read(tokens[k]))
}

/// The cell that a token gives: the value of a number, and an empty cell
/// for every other token.
pub open spec fn cell_of(token: Token) -> Option<usize> {
    match token {
        Token::Number(value) => Some(value),
        _ => None,
    }
}

/// The cells that `tokens` give, in order.
pub open spec fn cells_of(tokens: Seq<Token>) -> Cells {
    Seq::new(tokens.len(), |k: int| cell_of(tokens[k]))
}

/// `text` with every white-space character removed.
pub open spec fn without_whitespace(text: Seq<char>) -> Seq<char> {
    text.filter(|c: char| !spec_is_whitespace(c))
}

/// The pieces put together again, with `sep` between neighbours.
pub open spec fn join(pieces: Seq<Seq<char>>, sep: char) -> Seq<char>
    decreases pieces.len(),
{
    if pieces.len() == 0 {
        Seq::<char>::empty()
    } else if pieces.len() == 1 {
        pieces[0]
    } else {
        join(pieces.drop_last(), sep).push(sep) + pieces.last()
    }
}

/// Whether no piece holds `sep`.
pub open spec fn free_of(pieces: Seq<Seq<char>>, sep: char) -> bool {
    forall|k: int, i: int|
        0 <= k < pieces.len() && 0 <= i < pieces[k].len() ==> #[trigger] pieces[k][i] != sep
}

/// The test for the character `sep`.
pub open spec fn is_char(sep: char) -> spec_fn(char) -> bool {
    |c: char| c == sep
}

/// A text has one piece more than it has separators.
pub proof fn lemma_split_len(text: Seq<char>, sep: char)
    ensures
        split(text, sep).len() == text.filter(is_char(sep)).len() + 1,
    decreases text.len(),
{
    text.lemma_filter_len(is_char(sep));
    if text.len() > 0 {
        let front = text.drop_last();
        lemma_split_len(front, sep);
        front.lemma_filter_push(text.last(), is_char(sep));
        assert(front.push(text.last()) =~= text);
    }
}

/// The pieces of a text are free of the separator, and joining them gives
/// the text back.
pub proof fn lemma_join_split(text: Seq<char>, sep: char)
    ensures
        split(text, sep).len() >= 1,
        free_of(split(text, sep), sep),
        join(split(text, sep), sep) == text,
    decreases text.len(),
{
    if text.len() > 0 {
        let front = text.drop_last();
        let before = split(front, sep);
        let pieces = split(text, sep);
        lemma_join_split(front, sep);
        if text.last() == sep {
            // a further piece, empty so far
            assert(pieces.drop_last() =~= before);
        } else {
            // the last piece grows by one character
            assert(free_of(pieces, sep));
            if before.len() > 1 {
                assert(pieces.drop_last() =~= before.drop_last());
                assert(join(pieces, sep) =~= (join(before.drop_last(), sep).push(sep)
                    + before.last()).push(text.last()));
            }
        }
    }
}

/// Cutting a joined text gives the pieces back, where none of them holds
/// the separator. So the pieces of a text are the one list of pieces free
/// of the separator that join to it.
pub proof fn lemma_split_join(pieces: Seq<Seq<char>>, sep: char)
    requires
        pieces.len() >= 1,
        free_of(pieces, sep),
    ensures
        split(join(pieces, sep), sep) == pieces,
    decreases join(pieces, sep).len(),
{
    let text = join(pieces, sep);
    let last = pieces.last();
    if last.len() == 0 {
        assert(last =~= Seq::<char>::empty());
        if pieces.len() > 1 {
            // the text ends in the separator that stands before the empty last piece
            let front = pieces.drop_last();
            assert(free_of(front, sep));
            assert(text.drop_last() =~= join(front, sep));
            lemma_split_join(front, sep);
        }
    } else {
        // the text ends in the last character of the last piece
        let shorter = pieces.drop_last().push(last.drop_last());
        assert(shorter.drop_last() =~= pieces.drop_last());
        assert(free_of(shorter, sep));
        assert(join(shorter, sep) =~= text.drop_last());
        lemma_split_join(shorter, sep);
        assert(last.drop_last().push(text.last()) =~= last);
    }
}

/// The characters of `text`, in order.
pub fn chars_of(text: &str) -> (chars: Vec<char>)
    ensures
        chars@ == text@,
{
    let mut chars: Vec<char> = Vec::new();
    for c in it: text.chars()
        invariant
            it.seq() == text@,
            chars@ == text@.take(it.index() as int),
    {
        chars.push(c);
    }
    chars
}

/// The characters of `text` that are not white space, in order.
pub fn strip_whitespace(text: &str) -> (chars: Vec<char>)
    ensures
        chars@ == without_whitespace(text@),
{
    let mut chars: Vec<char> = Vec::new();
    for c in it: text.chars()
        invariant
            it.seq() == text@,
            chars@ == without_whitespace(text@.take(it.index() as int)),
    {
        proof {
            let seen = text@.take(it.index() as int);
            seen.lemma_filter_push(c, |c: char| !spec_is_whitespace(c));
            assert(text@.take(it.index() + 1) =~= seen.push(c));
        }
        if !is_whitespace(c) {
            chars.push(c);
        }
    }
    assert(text@.take(text@.len() as int) =~= text@);
    chars
}

/// Reads one token.
pub fn read_token(token: &[char]) -> (out: Token)
    ensures
        out == read(token@),
{
    let n = token.len();
    let first: usize = if n > 0 && token[0] == '+' {
        1
    } else {
        0
    };
    if first == n {
        return Token::Blank;
    }
    let ghost digits = unsigned_part(token@);
    let mut value: usize = 0;
    let mut fits: bool = true;
    let mut i: usize = first;
    while i < n
        invariant
            first <= i <= n,
            n == token@.len(),
            digits == unsigned_part(token@),
            digits == token@.skip(first as int),
            forall|k: int| 0 <= k < i - first ==> spec_is_digit(#[trigger] digits[k]),
            fits ==> value == decimal_value(digits.take(i - first)),
            !fits ==> decimal_value(digits.take(i - first)) > usize::MAX,
        decreases n - i,
    {
        let c = token[i];
        assert(c == digits[i - first]);
        if !is_digit(c) {
            return Token::Blank;
        }
        let digit: usize = (c as u32 - 0x30) as usize;
        proof {
            assert(digits.take(i - first + 1).drop_last() =~= digits.take(i - first));
        }
        if fits {
            match value.checked_mul(10) {
                None => {
                    fits = false;
                },
                Some(tens) => match tens.checked_add(digit) {
                    None => {
                        fits = false;
                    },
                    Some(next) => {
                        value = next;
                    },
                },
            }
        }
        i += 1;
    }
    assert(digits.take(n - first) =~= digits);
    if fits {
        Token::Number(value)
    } else {
        Token::Overlong
    }
}

/// Reads every comma-separated token of `chars`.
pub fn read_tokens(chars: &Vec<char>) -> (tokens: Vec<Token>)
    ensures
        tokens@ == read_all(chars@),
{
    let mut tokens: Vec<Token> = Vec::new();
    let mut start: usize = 0;
    let mut i: usize = 0;
    while i < chars.len()
        invariant
            start <= i <= chars.len(),
            split(chars@.take(i as int), ',').len() == tokens.len() + 1,
            split(chars@.take(i as int), ',').last() == chars@.subrange(start as int, i as int),
            forall|k: int|
                0 <= k < tokens.len() ==> tokens[k] == read(
                    #[trigger] split(chars@.take(i as int), ',')[k],
                ),
        decreases chars.len() - i,
    {
        proof {
            assert(chars@.take(i + 1).drop_last() =~= chars@.take(i as int));
        }
        if chars[i] == ',' {
            // the token that ends here
            tokens.push(read_token(slice_subrange(chars.as_slice(), start, i)));
            start = i + 1;
        } else {
            proof {
                assert(chars@.subrange(start as int, i + 1) =~= chars@.subrange(
                    start as int,
                    i as int,
                ).push(chars[i as int]));
            }
        }
        i += 1;
    }
    tokens.push(read_token(slice_subrange(chars.as_slice(), start, i)));
    proof {
        assert(chars@.take(i as int) =~= chars@);
    }
    tokens
}

} // verus!
