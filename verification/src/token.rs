//! The text of a ballot paper: splitting a preference string into its boxes
//! and reading the number written in a box.

use vstd::prelude::*;

verus! {

/// The boxes of a preference string: the pieces between its commas.
///
/// A string with `n` commas has `n + 1` boxes, so the empty string has one
/// empty box, and no box contains a comma.
pub open spec fn tokens_of(s: Seq<char>) -> Seq<Seq<char>>
    decreases s.len(),
{
    if s.len() == 0 {
        seq![Seq::empty()]
    } else {
        let before = tokens_of(s.drop_last());
        if s.last() == ',' {
            before.push(Seq::empty())
        } else {
            before.drop_last().push(before.last().push(s.last()))
        }
    }
}

/// The contents of a list of boxes, each as a sequence of characters.
pub open spec fn token_views(tokens: Seq<Vec<char>>) -> Seq<Seq<char>> {
    tokens.map_values(|t: Vec<char>| t@)
}

/// Every preference string has at least one box.
pub proof fn lemma_tokens_nonempty(s: Seq<char>)
    ensures
        tokens_of(s).len() >= 1,
    decreases s.len(),
{
    if s.len() > 0 {
        lemma_tokens_nonempty(s.drop_last());
    }
}

/// A list of boxes written out as one string, with a comma between each
/// two.
pub open spec fn joined(tokens: Seq<Seq<char>>) -> Seq<char>
    decreases tokens.len(),
{
    if tokens.len() == 0 {
        Seq::empty()
    } else if tokens.len() == 1 {
        tokens[0]
    } else {
        joined(tokens.drop_last()).push(',') + tokens.last()
    }
}

/// Whether no box of a list contains a comma.
pub open spec fn comma_free(tokens: Seq<Seq<char>>) -> bool {
    forall|i: int, j: int|
        0 <= i < tokens.len() && 0 <= j < tokens[i].len() ==> #[trigger] tokens[i][j] != ','
}

/// The boxes of a string contain no comma, and written out with commas
/// between them they give the string back.
pub proof fn law_split_then_join(s: Seq<char>)
    ensures
        tokens_of(s).len() >= 1,
        comma_free(tokens_of(s)),
        joined(tokens_of(s)) == s,
    decreases s.len(),
{
    if s.len() > 0 {
        let front = s.drop_last();
        let before = tokens_of(front);
        law_split_then_join(front);
        if s.last() == ',' {
            assert(before.push(Seq::empty()).drop_last() =~= before);
        } else {
            let tokens = before.drop_last().push(before.last().push(s.last()));
            assert(tokens.drop_last() =~= before.drop_last());
            if before.len() > 1 {
                assert(joined(tokens) =~= joined(before).push(s.last()));
            }
        }
    }
}

/// Text without a comma, put after a string, goes into the string's last
/// box.
proof fn lemma_tokens_of_extended(s: Seq<char>, text: Seq<char>)
    requires
        forall|j: int| 0 <= j < text.len() ==> text[j] != ',',
    ensures
        tokens_of(s).len() >= 1,
        tokens_of(s + text) == tokens_of(s).drop_last().push(tokens_of(s).last() + text),
    decreases text.len(),
{
    lemma_tokens_nonempty(s);
    let tokens = tokens_of(s);
    if text.len() > 0 {
        lemma_tokens_of_extended(s, text.drop_last());
        assert((s + text).drop_last() =~= s + text.drop_last());
        assert((tokens.last() + text.drop_last()).push(text.last()) =~= tokens.last() + text);
    }
}

/// Boxes without a comma, written out as one string, are the boxes of that
/// string: splitting undoes joining.
pub proof fn law_join_then_split(tokens: Seq<Seq<char>>)
    requires
        tokens.len() >= 1,
        comma_free(tokens),
    ensures
        tokens_of(joined(tokens)) == tokens,
    decreases tokens.len(),
{
    if tokens.len() == 1 {
        lemma_tokens_of_extended(Seq::empty(), tokens[0]);
    } else {
        let front = tokens.drop_last();
        law_join_then_split(front);
        let head = joined(front).push(',');
        assert(head.drop_last() =~= joined(front));
        lemma_tokens_of_extended(head, tokens.last());
    }
}

/// Splits a preference string at its commas.
pub fn split_preferences(pref_string: &str) -> (tokens: Vec<Vec<char>>)
    ensures
        token_views(tokens@) == tokens_of(pref_string@),
{
    let mut tokens: Vec<Vec<char>> = Vec::new();
    let mut current: Vec<char> = Vec::new();
    for c in it: pref_string.chars()
        invariant
            it.seq() == pref_string@,
            token_views(tokens@).push(current@) == tokens_of(pref_string@.take(it.index())),
    {
        proof {
            let seen = pref_string@.take(it.index());
            assert(pref_string@.take(it.index() + 1).drop_last() =~= seen);
            lemma_tokens_nonempty(seen);
        }
        if c == ',' {
            tokens.push(current);
            current = Vec::new();
        } else {
            current.push(c);
        }
    }
    tokens.push(current);
    proof {
        assert(pref_string@.take(pref_string@.len() as int) =~= pref_string@);
    }
    tokens
}

/// Whether `c` is one of the ten decimal digits.
pub open spec fn is_digit(c: char) -> bool {
    '0' <= c <= '9'
}

/// The number that a run of decimal digits spells; 0 for the empty run.
pub open spec fn decimal_value(digits: Seq<char>) -> nat
    decreases digits.len(),
{
    if digits.len() == 0 {
        0
    } else {
        (10 * decimal_value(digits.drop_last()) + (digits.last() as nat - '0' as nat)) as nat
    }
}

/// The digits of a box: its text without one leading `+`, if it has one.
pub open spec fn digits_of(token: Seq<char>) -> Seq<char> {
    if token.len() > 0 && token[0] == '+' {
        token.drop_first()
    } else {
        token
    }
}

/// The preference number written in a box, if its text is one.
///
/// A preference number is an optional `+` followed by one or more decimal
/// digits that spell a value of at most `u32::MAX`. Anything else, the empty
/// text included, is no number.
pub open spec fn preference_number(token: Seq<char>) -> Option<u32> {
    let digits = digits_of(token);
    if digits.len() > 0 && (forall|i: int| 0 <= i < digits.len() ==> is_digit(#[trigger] digits[i]))
        && decimal_value(digits) <= u32::MAX {
        Some(decimal_value(digits) as u32)
    } else {
        None
    }
}

/// Reading more digits never makes the number smaller.
proof fn lemma_decimal_value_grows(digits: Seq<char>, n: int)
    requires
        0 <= n <= digits.len(),
        forall|i: int| 0 <= i < digits.len() ==> is_digit(#[trigger] digits[i]),
    ensures
        decimal_value(digits.take(n)) <= decimal_value(digits),
    decreases digits.len() - n,
{
    if n == digits.len() {
        assert(digits.take(n) =~= digits);
    } else {
        let longer = digits.take(n + 1);
        assert(longer.drop_last() =~= digits.take(n));
        lemma_decimal_value_grows(digits, n + 1);
    }
}

/// Reads the preference number written in a box.
pub fn parse_preference(token: &[char]) -> (number: Option<u32>)
    ensures
        number == preference_number(token@),
{
    let n = token.len();
    let start: usize = if n > 0 && token[0] == '+' { 1 } else { 0 };
    if start == n {
        return None;
    }
    let ghost digits = digits_of(token@);
    let mut value: u32 = 0;
    let mut i: usize = start;
    while i < n
        invariant
            start <= i <= n,
            n == token@.len(),
            digits == token@.skip(start as int),
            digits == digits_of(token@),
            forall|j: int| 0 <= j < i - start ==> is_digit(#[trigger] digits[j]),
            value == decimal_value(digits.take(i - start)),
        decreases n - i,
    {
        let c = token[i];
        assert(c == digits[i - start]);
        if c < '0' || c > '9' {
            return None;
        }
        let digit: u64 = (c as u32 - '0' as u32) as u64;
        let next: u64 = (value as u64) * 10 + digit;
        proof {
            let longer = digits.take(i - start + 1);
            assert(longer.drop_last() =~= digits.take(i - start));
            if next > u32::MAX {
                if forall|j: int| 0 <= j < digits.len() ==> is_digit(#[trigger] digits[j]) {
                    lemma_decimal_value_grows(digits, i - start + 1);
                }
            }
        }
        if next > u32::MAX as u64 {
            return None;
        }
        value = next as u32;
        i += 1;
    }
    assert(digits.take(i - start) =~= digits);
    Some(value)
}

} // verus!
