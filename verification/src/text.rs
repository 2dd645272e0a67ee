//! Numbers as text, and the wording of what the writer rejects.

use vstd::prelude::*;
use vstd::string::StringExecFns;
use crate::bbi::Value;

verus! {

/// The character of a decimal digit.
pub open spec fn digit_char(d: int) -> char {
    if d == 0 {
        '0'
    } else if d == 1 {
        '1'
    } else if d == 2 {
        '2'
    } else if d == 3 {
        '3'
    } else if d == 4 {
        '4'
    } else if d == 5 {
        '5'
    } else if d == 6 {
        '6'
    } else if d == 7 {
        '7'
    } else if d == 8 {
        '8'
    } else {
        '9'
    }
}

/// `x` in decimal, without leading zeros.
pub open spec fn decimal(x: nat) -> Seq<char>
    decreases x,
{
    if x < 10 {
        seq![digit_char(x as int)]
    } else {
        decimal(x / 10).push(digit_char((x % 10) as int))
    }
}

/// The text of one decimal digit.
fn digit_str(d: u32) -> (r: &'static str)
    requires
        d < 10,
    ensures
        r@ == seq![digit_char(d as int)],
{
    proof {
        reveal_strlit("0");
        reveal_strlit("1");
        reveal_strlit("2");
        reveal_strlit("3");
        reveal_strlit("4");
        reveal_strlit("5");
        reveal_strlit("6");
        reveal_strlit("7");
        reveal_strlit("8");
        reveal_strlit("9");
    }
    let r = if d == 0 {
        "0"
    } else if d == 1 {
        "1"
    } else if d == 2 {
        "2"
    } else if d == 3 {
        "3"
    } else if d == 4 {
        "4"
    } else if d == 5 {
        "5"
    } else if d == 6 {
        "6"
    } else if d == 7 {
        "7"
    } else if d == 8 {
        "8"
    } else {
        "9"
    };
    assert(r@ =~= seq![digit_char(d as int)]);
    r
}

/// Appends `x` in decimal.
pub fn push_decimal(text: &mut String, x: u32)
    ensures
        final(text)@ == old(text)@ + decimal(x as nat),
    decreases x,
{
    if x >= 10 {
        push_decimal(text, x / 10);
    }
    let ghost before = text@;
    text.append(digit_str(x % 10));
    assert(text@ =~= old(text)@ + decimal(x as nat));
}

/// What is said of a record that ends before it starts.
pub open spec fn backwards_message(v: Value) -> Seq<char> {
    "Invalid bed graph: "@ + decimal(v.start as nat) + " > "@ + decimal(v.end as nat)
}

/// What is said of a record that ends past its chromosome.
pub open spec fn too_long_message(chrom: Seq<char>, v: Value, chrom_length: u32) -> Seq<char> {
    "Invalid bed graph: `"@ + decimal(v.end as nat) + "` is greater than the chromosome ("@
        + chrom + ") length ("@ + decimal(chrom_length as nat) + "): "@ + decimal(v.end as nat)
        + " > "@ + decimal(chrom_length as nat)
}

/// What is said of a record that starts before the one before it has ended.
pub open spec fn overlap_message(chrom: Seq<char>, v: Value, next: Value) -> Seq<char> {
    "Invalid bed graph: overlapping values on chromosome "@ + chrom + " at "@ + decimal(
        v.start as nat,
    ) + "-"@ + decimal(v.end as nat) + " and "@ + decimal(next.start as nat) + "-"@ + decimal(
        next.end as nat,
    )
}

/// What is said of chromosomes that do not come in the order of their names.
pub open spec fn unsorted_message() -> Seq<char> {
    "Input bedGraph not sorted by chromosome. Sort with `sort -k1,1 -k2,2n`."@
}

/// What is said of a chromosome whose length nobody gave.
pub open spec fn unknown_chrom_message(chrom: Seq<char>) -> Seq<char> {
    "Input bedGraph contains chromosome that isn't in the input chrom sizes: "@ + chrom
}

/// Words the rejection of a record that ends before it starts.
pub fn say_backwards(v: Value) -> (text: String)
    ensures
        text@ == backwards_message(v),
{
    let mut text = String::from_str("Invalid bed graph: ");
    push_decimal(&mut text, v.start);
    text.append(" > ");
    push_decimal(&mut text, v.end);
    text
}

/// Words the rejection of a record that ends past its chromosome.
pub fn say_too_long(chrom: &str, v: Value, chrom_length: u32) -> (text: String)
    ensures
        text@ == too_long_message(chrom@, v, chrom_length),
{
    let mut text = String::from_str("Invalid bed graph: `");
    push_decimal(&mut text, v.end);
    text.append("` is greater than the chromosome (");
    text.append(chrom);
    text.append(") length (");
    push_decimal(&mut text, chrom_length);
    text.append("): ");
    push_decimal(&mut text, v.end);
    text.append(" > ");
    push_decimal(&mut text, chrom_length);
    text
}

/// Words the rejection of two records that overlap.
pub fn say_overlap(chrom: &str, v: Value, next: Value) -> (text: String)
    ensures
        text@ == overlap_message(chrom@, v, next),
{
    let mut text = String::from_str("Invalid bed graph: overlapping values on chromosome ");
    text.append(chrom);
    text.append(" at ");
    push_decimal(&mut text, v.start);
    text.append("-");
    push_decimal(&mut text, v.end);
    text.append(" and ");
    push_decimal(&mut text, next.start);
    text.append("-");
    push_decimal(&mut text, next.end);
    text
}

/// Words the rejection of chromosomes out of order.
pub fn say_unsorted() -> (text: String)
    ensures
        text@ == unsorted_message(),
{
    String::from_str("Input bedGraph not sorted by chromosome. Sort with `sort -k1,1 -k2,2n`.")
}

/// Words the rejection of a chromosome without a length.
pub fn say_unknown_chrom(chrom: &str) -> (text: String)
    ensures
        text@ == unknown_chrom_message(chrom@),
{
    let mut text = String::from_str(
        "Input bedGraph contains chromosome that isn't in the input chrom sizes: ",
    );
    text.append(chrom);
    text
}

} // verus!
