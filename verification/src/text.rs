//! The diagnostic line of an array: one entry `[value-count]; ` for each run.

use vstd::prelude::*;
use vstd::string::{to_string_from_display_ensures, StringExecFns};

verus! {

/// The character of one decimal digit.
pub open spec fn digit(d: nat) -> char {
    if d == 0 {
        '0'
    } else if d == 1 {
        '1'
    } else if d == 2 {
        '2'
    } else if d == 3 {
        '3'
    } else if d == 4 {
        '4'
    } else if d == 5 {
        '5'
    } else if d == 6 {
        '6'
    } else if d == 7 {
        '7'
    } else if d == 8 {
        '8'
    } else {
        '9'
    }
}

/// A number in decimal digits, without leading zeros.
pub open spec fn decimal(n: nat) -> Seq<char>
    decreases n,
{
    if n < 10 {
        seq![digit(n)]
    } else {
        decimal(n / 10).push(digit(n % 10))
    }
}

/// The entry of one run: `[`, the value's text, `-`, the count, `]; `.
pub open spec fn entry_text(value_text: Seq<char>, count: u8) -> Seq<char> {
    seq!['['] + value_text + seq!['-'] + decimal(count as nat) + seq![']', ';', ' ']
}

/// The entries of all runs, in order, where `texts[k]` is the text of the
/// value of run `k`.
pub open spec fn line_text<T>(runs: Seq<(T, u8)>, texts: Seq<String>) -> Seq<char>
    decreases runs.len(),
{
    if runs.len() == 0 || texts.len() != runs.len() {
        Seq::empty()
    } else {
        line_text(runs.drop_last(), texts.drop_last()) + entry_text(texts.last()@, runs.last().1)
    }
}

/// `texts[k]` is a text that the value of run `k` displays as.
pub open spec fn displayed<T: std::fmt::Display>(runs: Seq<(T, u8)>, texts: Seq<String>) -> bool {
    &&& texts.len() == runs.len()
    &&& forall|k: int|
        0 <= k < runs.len() ==> to_string_from_display_ensures::<T>(
            &(#[trigger] runs[k]).0,
            texts[k],
        )
}

/// One decimal digit as a string.
fn digit_str(d: u8) -> (text: &'static str)
    requires
        d < 10,
    ensures
        text@ == seq![digit(d as nat)],
{
    proof {
        reveal_strlit("0");
        reveal_strlit("1");
        reveal_strlit("2");
        reveal_strlit("3");
        reveal_strlit("4");
        reveal_strlit("5");
        reveal_strlit("6");
        reveal_strlit("7");
        reveal_strlit("8");
        reveal_strlit("9");
    }
    let text = if d == 0 {
        "0"
    } else if d == 1 {
        "1"
    } else if d == 2 {
        "2"
    } else if d == 3 {
        "3"
    } else if d == 4 {
        "4"
    } else if d == 5 {
        "5"
    } else if d == 6 {
        "6"
    } else if d == 7 {
        "7"
    } else if d == 8 {
        "8"
    } else {
        "9"
    };
    assert(text@ =~= seq![digit(d as nat)]);
    text
}

/// A count in decimal digits.
pub fn count_text(count: u8) -> (text: String)
    ensures
        text@ == decimal(count as nat),
{
    let mut text = String::new();
    if count >= 100 {
        text.append(digit_str(count / 100));
    }
    if count >= 10 {
        text.append(digit_str((count / 10) % 10));
    }
    text.append(digit_str(count % 10));
    proof {
        reveal_with_fuel(decimal, 3);
        assert(text@ =~= decimal(count as nat));
    }
    text
}

/// The entry of one run, from the text of its value and its count.
pub fn entry(value_text: &str, count: u8) -> (text: String)
    ensures
        text@ == entry_text(value_text@, count),
{
    let digits = count_text(count);
    let mut text = String::new();
    proof {
        reveal_strlit("[");
        reveal_strlit("-");
        reveal_strlit("]; ");
    }
    text.append("[");
    text.append(value_text);
    text.append("-");
    text.append(digits.as_str());
    text.append("]; ");
    assert(text@ =~= entry_text(value_text@, count));
    text
}

} // verus!
