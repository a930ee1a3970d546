use vstd::prelude::*;
use crate::text::{all_ascii, ascii_chars, ascii_string};

verus! {

/// The ASCII digit for `d`, a number below ten.
pub open spec fn digit(d: nat) -> u8 {
    (48 + d) as u8
}

/// The decimal digits of a number below 1000, without leading zeros ("0" for zero).
pub open spec fn short_digits(n: nat) -> Seq<u8> {
    if n < 10 {
        seq![digit(n)]
    } else if n < 100 {
        seq![digit(n / 10), digit(n % 10)]
    } else {
        seq![digit(n / 100), digit((n / 10) % 10), digit(n % 10)]
    }
}

/// The decimal digits of `n`, in groups of three counted from the right, with a dot
/// between groups: 1234567 is "1.234.567".
pub open spec fn grouped_digits(n: nat) -> Seq<u8>
    decreases n,
{
    if n < 1000 {
        short_digits(n)
    } else {
        grouped_digits(n / 1000) + seq![46u8] + seq![digit((n % 1000) / 100), digit((n / 10) % 10), digit(n % 10)]
    }
}

fn grouped_bytes(n: u64) -> (r: Vec<u8>)
    ensures
        r@ == grouped_digits(n as nat),
        all_ascii(r@),
    decreases n,
{
    if n < 10 {
        vec![48 + n as u8]
    } else if n < 100 {
        vec![48 + (n / 10) as u8, 48 + (n % 10) as u8]
    } else if n < 1000 {
        vec![48 + (n / 100) as u8, 48 + ((n / 10) % 10) as u8, 48 + (n % 10) as u8]
    } else {
        let mut r = grouped_bytes(n / 1000);
        let ghost head = r@;
        r.push(46);
        r.push(48 + ((n % 1000) / 100) as u8);
        r.push(48 + ((n / 10) % 10) as u8);
        r.push(48 + (n % 10) as u8);
        proof {
            let tail = seq![46u8] + seq![
                digit(((n as nat) % 1000) / 100),
                digit(((n as nat) / 10) % 10),
                digit((n as nat) % 10),
            ];
            assert(r@ =~= head + tail);
        }
        r
    }
}

/// `n` in decimal with a dot between groups of three digits, counted from the right.
pub fn format_thousands(n: u64) -> (s: String)
    ensures
        s@ == ascii_chars(grouped_digits(n as nat)),
{
    ascii_string(grouped_bytes(n))
}

} // verus!
