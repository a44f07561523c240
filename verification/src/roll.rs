//! The roll command: a random number between 1 and a given bound.

use vstd::prelude::*;
use crate::text::{
    chars_vec, dec_str, dec_val, is_numeric, num_body, parse_u128, push_dec, string_from_chars,
    trim_spec, trim_vec,
};

verus! {

/// Relies on `rand::random_range`: returns a value drawn from the given
/// range; it panics only when the range is empty.
#[verifier::external_body]
fn random_below(x: u128) -> (r: u128)
    requires
        x > 0,
    ensures
        r < x,
{
    rand::random_range(0..x)
}

/// Answer the roll command: for a number greater than zero, a random
/// number between 1 and that number inclusive; any other input is
/// rejected with a reminder quoting the trimmed input.
pub fn roll_response(tail: &str) -> (r: String)
    ensures
        ({
            let t = trim_spec(tail@);
            let ok = is_numeric(t) && dec_val(num_body(t)) <= u128::MAX as nat && dec_val(
                num_body(t),
            ) > 0;
            &&& !ok ==> r@ == "Must provide number greater than 0 and less than 2^120, instead of "@
                + t
            &&& ok ==> (exists|n: nat| 1 <= n <= dec_val(num_body(t)) && r@ == dec_str(n))
        }),
{
    let v = chars_vec(tail);
    let t = trim_vec(&v);
    match parse_u128(&t) {
        Some(x) => {
            if x == 0 {
                let mut out = String::from_str(
                    "Must provide number greater than 0 and less than 2^120, instead of ",
                );
                let ts = string_from_chars(&t);
                out.append(ts.as_str());
                out
            } else {
                let num = random_below(x) + 1;
                let mut out = String::new();
                push_dec(&mut out, num);
                proof {
                    assert(Seq::<char>::empty() + dec_str(num as nat) =~= dec_str(num as nat));
                }
                out
            }
        },
        None => {
            let mut out = String::from_str(
                "Must provide number greater than 0 and less than 2^120, instead of ",
            );
            let ts = string_from_chars(&t);
            out.append(ts.as_str());
            out
        },
    }
}

} // verus!
