//! Reading a line of text: white space, the tokens between it, and the
//! numbers that tokens write.

use vstd::prelude::*;

verus! {

/// Whether `c` is white space: one of the characters with the Unicode
/// property `White_Space`.
pub open spec fn is_space(c: char) -> bool {
    let u = c as u32;
    ||| 0x09 <= u <= 0x0D
    ||| u == 0x20
    ||| u == 0x85
    ||| u == 0xA0
    ||| u == 0x1680
    ||| 0x2000 <= u <= 0x200A
    ||| u == 0x2028
    ||| u == 0x2029
    ||| u == 0x202F
    ||| u == 0x205F
    ||| u == 0x3000
}

/// Whether `c` is one of the digits `0` to `9`.
pub open spec fn is_digit(c: char) -> bool {
    0x30 <= c as u32 <= 0x39
}

/// The number of white-space characters that `s` begins with.
pub open spec fn leading_spaces(s: Seq<char>) -> nat
    decreases s.len(),
{
    if s.len() > 0 && is_space(s[0]) {
        1 + leading_spaces(s.drop_first())
    } else {
        0
    }
}

/// The number of characters other than white space that `s` begins with.
pub open spec fn run_length(s: Seq<char>) -> nat
    decreases s.len(),
{
    if s.len() > 0 && !is_space(s[0]) {
        1 + run_length(s.drop_first())
    } else {
        0
    }
}

/// The tokens of `s`: its longest runs of characters other than white space,
/// from left to right.
pub open spec fn tokens(s: Seq<char>) -> Seq<Seq<char>>
    decreases s.len(),
    via tokens_decreases
{
    let rest = s.skip(leading_spaces(s) as int);
    if rest.len() == 0 {
        Seq::empty()
    } else {
        let k = run_length(rest) as int;
        seq![rest.take(k)] + tokens(rest.skip(k))
    }
}

#[via_fn]
proof fn tokens_decreases(s: Seq<char>) {
    lemma_leading_spaces(s);
    let rest = s.skip(leading_spaces(s) as int);
    if rest.len() > 0 {
        lemma_run_length(rest);
    }
}

/// The white space that `s` begins with ends within `s`, before a character
/// that is none.
pub proof fn lemma_leading_spaces(s: Seq<char>)
    ensures
        leading_spaces(s) <= s.len(),
        forall|i: int| 0 <= i < leading_spaces(s) ==> is_space(#[trigger] s[i]),
        leading_spaces(s) < s.len() ==> !is_space(s[leading_spaces(s) as int]),
    decreases s.len(),
{
    if s.len() > 0 && is_space(s[0]) {
        let rest = s.drop_first();
        lemma_leading_spaces(rest);
        assert forall|i: int| 0 <= i < leading_spaces(s) implies is_space(#[trigger] s[i]) by {
            if i > 0 {
                assert(s[i] == rest[i - 1]);
            }
        }
    }
}

/// The run that `s` begins with ends within `s`, before a white-space
/// character, and is not empty where `s` begins with another character.
pub proof fn lemma_run_length(s: Seq<char>)
    ensures
        run_length(s) <= s.len(),
        forall|i: int| 0 <= i < run_length(s) ==> !is_space(#[trigger] s[i]),
        run_length(s) < s.len() ==> is_space(s[run_length(s) as int]),
        s.len() > 0 && !is_space(s[0]) ==> run_length(s) >= 1,
    decreases s.len(),
{
    if s.len() > 0 && !is_space(s[0]) {
        let rest = s.drop_first();
        lemma_run_length(rest);
        assert forall|i: int| 0 <= i < run_length(s) implies !is_space(#[trigger] s[i]) by {
            if i > 0 {
                assert(s[i] == rest[i - 1]);
            }
        }
    }
}

/// Every token has a character, and none that is white space.
pub proof fn lemma_tokens(s: Seq<char>)
    ensures
        forall|i: int| 0 <= i < tokens(s).len() ==> (#[trigger] tokens(s)[i]).len() > 0,
        forall|i: int, j: int|
            0 <= i < tokens(s).len() && 0 <= j < tokens(s)[i].len() ==> !is_space(
                #[trigger] tokens(s)[i][j],
            ),
    decreases s.len(),
{
    lemma_leading_spaces(s);
    let rest = s.skip(leading_spaces(s) as int);
    if rest.len() > 0 {
        lemma_run_length(rest);
        let k = run_length(rest) as int;
        let first = rest.take(k);
        let others = tokens(rest.skip(k));
        lemma_tokens(rest.skip(k));
        assert(tokens(s) == seq![first] + others);
        assert forall|i: int| 0 <= i < tokens(s).len() implies (#[trigger] tokens(s)[i]).len()
            > 0 by {
            if i > 0 {
                assert(tokens(s)[i] == others[i - 1]);
            }
        }
        assert forall|i: int, j: int|
            0 <= i < tokens(s).len() && 0 <= j < tokens(s)[i].len() implies !is_space(
            #[trigger] tokens(s)[i][j],
        ) by {
            if i > 0 {
                assert(tokens(s)[i] == others[i - 1]);
            } else {
                assert(first[j] == rest[j]);
            }
        }
    }
}

/// Whether `c` is white space.
pub fn is_whitespace(c: char) -> (space: bool)
    ensures
        space == is_space(c),
{
    let u: u32 = c as u32;
    (0x09 <= u && u <= 0x0D) || u == 0x20 || u == 0x85 || u == 0xA0 || u == 0x1680 || (0x2000 <= u
        && u <= 0x200A) || u == 0x2028 || u == 0x2029 || u == 0x202F || u == 0x205F || u == 0x3000
}

/// The place at or after `from` of the first character that is no white
/// space, or the length of `chars` where there is none.
pub fn skip_spaces(chars: &[char], from: usize) -> (to: usize)
    requires
        from <= chars.len(),
    ensures
        to == from + leading_spaces(chars@.skip(from as int)),
        to <= chars.len(),
{
    let mut i: usize = from;
    while i < chars.len() && is_whitespace(chars[i])
        invariant
            from <= i <= chars.len(),
            leading_spaces(chars@.skip(from as int)) == (i - from) + leading_spaces(
                chars@.skip(i as int),
            ),
        decreases chars.len() - i,
    {
        assert(chars@.skip(i as int).drop_first() =~= chars@.skip(i + 1));
        i = i + 1;
    }
    i
}

/// The place at or after `from` of the first white-space character, or the
/// length of `chars` where there is none.
pub fn token_end(chars: &[char], from: usize) -> (to: usize)
    requires
        from <= chars.len(),
    ensures
        to == from + run_length(chars@.skip(from as int)),
        to <= chars.len(),
{
    let mut i: usize = from;
    while i < chars.len() && !is_whitespace(chars[i])
        invariant
            from <= i <= chars.len(),
            run_length(chars@.skip(from as int)) == (i - from) + run_length(chars@.skip(i as int)),
        decreases chars.len() - i,
    {
        assert(chars@.skip(i as int).drop_first() =~= chars@.skip(i + 1));
        i = i + 1;
    }
    i
}

/// The number that the decimal digits `s` write.
pub open spec fn digits_value(s: Seq<char>) -> nat
    decreases s.len(),
{
    if s.len() == 0 {
        0
    } else {
        10 * digits_value(s.drop_last()) + (s.last() as u32 - 0x30) as nat
    }
}

/// Whether `s` is made of decimal digits, at least one.
pub open spec fn is_number(s: Seq<char>) -> bool {
    s.len() > 0 && forall|i: int| 0 <= i < s.len() ==> is_digit(#[trigger] s[i])
}

/// The vertex number that the token `token` writes: decimal digits, with or
/// without a plus sign before them, whose value fits a `usize`.
pub open spec fn parse_index(token: Seq<char>) -> Option<usize> {
    let digits = if token.len() > 0 && token[0] == '+' {
        token.drop_first()
    } else {
        token
    };
    if is_number(digits) && digits_value(digits) <= usize::MAX {
        Some(digits_value(digits) as usize)
    } else {
        None
    }
}

/// Digits written after a number make it no smaller.
pub proof fn lemma_digits_value_grows(s: Seq<char>, k: int)
    requires
        0 <= k <= s.len(),
        forall|i: int| 0 <= i < s.len() ==> is_digit(#[trigger] s[i]),
    ensures
        digits_value(s.take(k)) <= digits_value(s),
    decreases s.len() - k,
{
    if k == s.len() {
        assert(s.take(k) =~= s);
    } else {
        assert(s.take(k + 1).drop_last() =~= s.take(k));
        assert(is_digit(s[k]));
        lemma_digits_value_grows(s, k + 1);
    }
}

/// The tokens of what follows the place `from` in `s`: none where only
/// white space is left, else the run that begins after the white space, and
/// then the tokens of what follows it.
pub proof fn lemma_tokens_from(s: Seq<char>, from: int)
    requires
        0 <= from <= s.len(),
    ensures
        ({
            let start = from + leading_spaces(s.skip(from));
            let end = start + run_length(s.skip(start));
            &&& start <= s.len()
            &&& end <= s.len()
            &&& start == s.len() ==> tokens(s.skip(from)).len() == 0
            &&& start < s.len() ==> start < end && tokens(s.skip(from)) == seq![
                s.subrange(start, end),
            ] + tokens(s.skip(end))
        }),
{
    let tail = s.skip(from);
    lemma_leading_spaces(tail);
    let start = from + leading_spaces(tail);
    let rest = tail.skip(leading_spaces(tail) as int);
    assert(rest =~= s.skip(start));
    lemma_run_length(rest);
    let k = run_length(rest) as int;
    if start < s.len() {
        assert(!is_space(rest[0]));
        assert(rest.take(k) =~= s.subrange(start, start + k));
        assert(rest.skip(k) =~= s.skip(start + k));
    }
}

/// The vertex number that `token` writes, if it writes one.
pub fn index_from_chars(token: &[char]) -> (index: Option<usize>)
    ensures
        index == parse_index(token@),
{
    let from: usize = if token.len() > 0 && token[0] == '+' {
        1
    } else {
        0
    };
    let ghost digits = token@.skip(from as int);
    proof {
        assert(token@.skip(0) =~= token@);
        assert(token@.skip(1) =~= token@.drop_first());
    }
    assert(digits == if token@.len() > 0 && token@[0] == '+' {
        token@.drop_first()
    } else {
        token@
    });
    if from == token.len() {
        return None;
    }
    let mut value: usize = 0;
    let mut i: usize = from;
    proof {
        assert(digits.take(0) =~= Seq::<char>::empty());
    }
    while i < token.len()
        invariant
            from <= i <= token.len(),
            digits == token@.skip(from as int),
            digits.len() > 0,
            parse_index(token@) == if is_number(digits) && digits_value(digits) <= usize::MAX {
                Some(digits_value(digits) as usize)
            } else {
                None
            },
            forall|j: int| 0 <= j < i - from ==> is_digit(#[trigger] digits[j]),
            value == digits_value(digits.take(i - from)),
        decreases token.len() - i,
    {
        let u: u32 = token[i] as u32;
        assert(digits[i - from] == token@[i as int]);
        if u < 0x30 || u > 0x39 {
            return None;
        }
        let d: usize = (u - 0x30) as usize;
        proof {
            assert(digits.take(i + 1 - from).drop_last() =~= digits.take(i - from));
        }
        if value > (usize::MAX - d) / 10 {
            proof {
                if is_number(digits) {
                    lemma_digits_value_grows(digits, i + 1 - from);
                }
            }
            return None;
        }
        value = value * 10 + d;
        i = i + 1;
    }
    proof {
        assert(digits.take(i - from) =~= digits);
    }
    Some(value)
}

/// The characters of `s`, one by one.
pub fn chars_of(s: &str) -> (chars: Vec<char>)
    ensures
        chars@ == s@,
{
    broadcast use vstd::string::group_string_axioms;

    let mut chars: Vec<char> = Vec::new();
    for c in it: s.chars()
        invariant
            it.seq() == s@,
            chars@ == it.seq().take(it.index()),
    {
        chars.push(c);
        assert(it.seq().take(it.index() + 1) =~= it.seq().take(it.index()).push(c));
    }
    assert(chars@ =~= s@);
    chars
}

} // verus!
