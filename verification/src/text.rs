use vstd::prelude::*;
use vstd::string::*;

verus! {

/// A digit.
pub open spec fn digit(d: int) -> Seq<char> {
    if d == 0 {
        "0"@
    } else if d == 1 {
        "1"@
    } else if d == 2 {
        "2"@
    } else if d == 3 {
        "3"@
    } else if d == 4 {
        "4"@
    } else if d == 5 {
        "5"@
    } else if d == 6 {
        "6"@
    } else if d == 7 {
        "7"@
    } else if d == 8 {
        "8"@
    } else {
        "9"@
    }
}

/// A natural number in base ten, without leading zeros.
pub open spec fn decimal_nat(n: nat) -> Seq<char>
    decreases n,
{
    if n < 10 {
        digit(n as int)
    } else {
        decimal_nat(n / 10) + digit((n % 10) as int)
    }
}

/// An integer in base ten, without leading zeros.
pub open spec fn decimal(n: int) -> Seq<char> {
    if n < 0 {
        "-"@ + decimal_nat((-n) as nat)
    } else {
        decimal_nat(n as nat)
    }
}

/// So many spaces.
pub open spec fn spaces(n: nat) -> Seq<char>
    decreases n,
{
    if n == 0 {
        Seq::empty()
    } else {
        spaces((n - 1) as nat) + " "@
    }
}

/// The given text, with spaces in front of it up to the given width.
pub open spec fn aligned(text: Seq<char>, width: nat) -> Seq<char> {
    if text.len() < width {
        spaces((width - text.len()) as nat) + text
    } else {
        text
    }
}

/// The given words, with a space between any two.
pub open spec fn joined(words: Seq<Seq<char>>) -> Seq<char>
    decreases words.len(),
{
    if words.len() == 0 {
        Seq::empty()
    } else if words.len() == 1 {
        words[0]
    } else {
        joined(words.drop_last()) + " "@ + words.last()
    }
}

/// Returns the given digit.
fn digit_of(d: u64) -> (r: &'static str)
    requires
        d < 10,
    ensures
        r@ == digit(d as int),
{
    match d {
        0 => "0",
        1 => "1",
        2 => "2",
        3 => "3",
        4 => "4",
        5 => "5",
        6 => "6",
        7 => "7",
        8 => "8",
        _ => "9",
    }
}

/// Returns the given natural number in base ten.
fn decimal_nat_of(n: u64) -> (r: String)
    ensures
        r@ == decimal_nat(n as nat),
    decreases n,
{
    let mut text: String = if n < 10 {
        String::new()
    } else {
        decimal_nat_of(n / 10)
    };
    text.append(digit_of(n % 10));
    assert(text@ =~= decimal_nat(n as nat));
    text
}

/// Returns the given integer in base ten.
pub fn decimal_of(n: i32) -> (r: String)
    ensures
        r@ == decimal(n as int),
{
    if n < 0 {
        let mut text: String = String::new();
        text.append("-");
        text.append(decimal_nat_of((-(n as i64)) as u64).as_str());
        assert(text@ =~= decimal(n as int));
        text
    } else {
        decimal_nat_of(n as u64)
    }
}

/// Returns the given text, with spaces in front of it up to the given width.
pub fn align(text: &str, width: usize) -> (r: String)
    ensures
        r@ == aligned(text@, width as nat),
{
    let len: usize = text.unicode_len();
    let mut out: String = String::new();
    let mut n: usize = 0;
    while n < width && len < width - n
        invariant
            len == text@.len(),
            n <= width,
            n == 0 || len + n <= width,
            out@ == spaces(n as nat),
        decreases width - n,
    {
        out.append(" ");
        n += 1;
        assert(spaces(n as nat) == spaces((n - 1) as nat) + " "@);
    }
    out.append(text);
    assert(out@ =~= aligned(text@, width as nat));
    out
}

} // verus!
