//! Decimal text of numbers and port labels.
use vstd::prelude::*;

verus! {

/// The character of decimal digit `d` (`0 <= d < 10`).
pub open spec fn digit_char(d: nat) -> char {
    (d + 48) as char
}

/// The decimal text of `n`, without sign or leading zeros.
pub open spec fn decimal(n: nat) -> Seq<char>
    decreases n,
{
    if n < 10 {
        seq![digit_char(n)]
    } else {
        decimal(n / 10).push(digit_char(n % 10))
    }
}

/// The text `name/index`.
pub open spec fn port_label_spec(name: Seq<char>, index: u32) -> Seq<char> {
    name + seq!['/'] + decimal(index as nat)
}

/// Formats `name/index` with `format!` (std's `Display` for `str` and
/// `u32`). The contract states the text that `Display` documents: the name,
/// a slash, and the index in decimal without leading zeros.
#[verifier::external_body]
pub fn port_label(name: &str, index: u32) -> (r: String)
    ensures
        r@ == port_label_spec(name@, index),
{
    format!("{name}/{index}")
}

/// Formats `n` in decimal with `format!` (std's `Display` for `usize`): the
/// digits of `n` without sign or leading zeros.
#[verifier::external_body]
pub fn decimal_text(n: usize) -> (r: String)
    ensures
        r@ == decimal(n as nat),
{
    format!("{n}")
}

/// The text std's `Debug` writes for the string `s`: the string in double
/// quotes, with quotes, backslashes and non-printable characters escaped.
pub uninterp spec fn debug_str_text(s: Seq<char>) -> Seq<char>;

/// Formats `s` with `format!("{s:?}")` (std's `Debug` for `str`). The
/// escaping rules depend on Unicode tables, so the contract names the
/// result as a function of `s` alone rather than spelling it out.
#[verifier::external_body]
pub fn debug_str(s: &str) -> (r: String)
    ensures
        r@ == debug_str_text(s@),
{
    format!("{s:?}")
}

} // verus!
