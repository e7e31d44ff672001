//! Short texts that the portfolio window shows.

use vstd::prelude::*;
use crate::format::{decimal, digit_char};
use crate::text::{chars_of, string_of};

verus! {

/// The decimal digits of `n`.
fn decimal_digits(n: usize) -> (r: Vec<char>)
    ensures
        r@ == decimal(n as nat),
    decreases n,
{
    if n < 10 {
        let c = ((n as u8) + 48) as char;
        assert(c == digit_char(n as nat));
        let mut v: Vec<char> = Vec::new();
        v.push(c);
        assert(v@ =~= decimal(n as nat));
        v
    } else {
        let mut v = decimal_digits(n / 10);
        let d = n % 10;
        let c = ((d as u8) + 48) as char;
        assert(c == digit_char((n % 10) as nat));
        v.push(c);
        v
    }
}

/// The count of positions under the portfolio's title: "1 position", or
/// the number followed by "positions".
pub fn positions_label(n: usize) -> (r: String)
    ensures
        r@ == if n == 1 {
            "1 position"@
        } else {
            decimal(n as nat) + " positions"@
        },
{
    if n == 1 {
        return string_of(&chars_of("1 position"));
    }
    let mut v = decimal_digits(n);
    let mut tail = chars_of(" positions");
    v.append(&mut tail);
    string_of(&v)
}

/// The question asked before a position is removed, naming its symbol
/// ("this stock" when it has none).
pub fn removal_question(symbol: &str) -> (r: String)
    ensures
        r@ == "Remove "@ + (if symbol@.len() == 0 {
            "this stock"@
        } else {
            symbol@
        }) + " from your portfolio?"@,
{
    let mut v = chars_of("Remove ");
    let mut name = if symbol.is_empty() {
        chars_of("this stock")
    } else {
        chars_of(symbol)
    };
    let mut tail = chars_of(" from your portfolio?");
    v.append(&mut name);
    v.append(&mut tail);
    string_of(&v)
}

} // verus!
