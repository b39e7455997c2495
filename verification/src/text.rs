//! Text: equality, decimal numerals, and the names of source files.

use vstd::prelude::*;

verus! {

/// The decimal digit `d`.
pub open spec fn digit(d: nat) -> char {
    if d == 0 {
        '0'
    } else if d == 1 {
        '1'
    } else if d == 2 {
        '2'
    } else if d == 3 {
        '3'
    } else if d == 4 {
        '4'
    } else if d == 5 {
        '5'
    } else if d == 6 {
        '6'
    } else if d == 7 {
        '7'
    } else if d == 8 {
        '8'
    } else {
        '9'
    }
}

/// The decimal numeral of `n`, without leading zeros.
pub open spec fn decimal(n: nat) -> Seq<char>
    decreases n,
{
    if n < 10 {
        seq![digit(n)]
    } else {
        decimal(n / 10).push(digit(n % 10))
    }
}

/// Whether a file of this name holds Typst source: its extension is `typ`.
/// A name that is nothing but `.typ` has no extension.
pub open spec fn typst_source(name: Seq<char>) -> bool {
    name.len() > 4 && name.skip(name.len() - 4) == ".typ"@
}

/// Compares two texts.
pub fn same_text(a: &str, b: &str) -> (same: bool)
    ensures
        same == (a@ == b@),
{
    a.to_owned() == b.to_owned()
}

fn digit_text(d: u64) -> (text: &'static str)
    requires
        d < 10,
    ensures
        text@ == seq![digit(d as nat)],
{
    proof {
        reveal_strlit("0");
        reveal_strlit("1");
        reveal_strlit("2");
        reveal_strlit("3");
        reveal_strlit("4");
        reveal_strlit("5");
        reveal_strlit("6");
        reveal_strlit("7");
        reveal_strlit("8");
        reveal_strlit("9");
    }
    match d {
        0 => "0",
        1 => "1",
        2 => "2",
        3 => "3",
        4 => "4",
        5 => "5",
        6 => "6",
        7 => "7",
        8 => "8",
        _ => "9",
    }
}

/// Writes a number in decimal.
pub fn decimal_text(n: u64) -> (text: String)
    ensures
        text@ == decimal(n as nat),
    decreases n,
{
    if n < 10 {
        digit_text(n).to_owned()
    } else {
        let mut text = decimal_text(n / 10);
        text.append(digit_text(n % 10));
        text
    }
}

/// Tells from its name whether a file holds Typst source.
pub fn is_typst_source(name: &str) -> (yes: bool)
    ensures
        yes == typst_source(name@),
{
    let n: usize = name.unicode_len();
    if n <= 4 {
        return false;
    }
    let yes = name.get_char(n - 4) == '.' && name.get_char(n - 3) == 't' && name.get_char(n - 2)
        == 'y' && name.get_char(n - 1) == 'p';
    proof {
        reveal_strlit(".typ");
        let end = name@.skip(n - 4);
        assert(end[0] == name@[n - 4] && end[1] == name@[n - 3] && end[2] == name@[n - 2] && end[3]
            == name@[n - 1]);
        if yes {
            assert(end =~= ".typ"@);
        }
    }
    yes
}

} // verus!
