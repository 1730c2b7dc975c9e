//! Session tabs: what the "session ended" overlay says.

use vstd::prelude::*;

use crate::num::{decimal, decimal_chars_u128};
use crate::text::{append_chars, chars_of, string_of};

verus! {

/// `n.to_string()` for a signed number.
pub open spec fn signed_decimal(n: int) -> Seq<char> {
    if n < 0 {
        seq!['-'] + decimal((-n) as nat)
    } else {
        decimal(n as nat)
    }
}

/// The overlay text once `ssh` has exited with `status`: the status is shown when it is not 0.
pub open spec fn ended_label(status: int) -> Seq<char> {
    if status == 0 {
        "Sessão encerrada"@
    } else {
        "Sessão encerrada (código "@ + signed_decimal(status) + ")"@
    }
}

pub fn session_ended_label(status: i32) -> (r: String)
    ensures
        r@ == ended_label(status as int),
{
    if status == 0 {
        return String::from_str("Sessão encerrada");
    }
    let mut out = chars_of("Sessão encerrada (código ");
    if status < 0 {
        out.push('-');
        let magnitude: i128 = -(status as i128);
        let digits = decimal_chars_u128(magnitude as u128);
        append_chars(&mut out, &digits);
    } else {
        let digits = decimal_chars_u128(status as u128);
        append_chars(&mut out, &digits);
    }
    let close = chars_of(")");
    append_chars(&mut out, &close);
    proof {
        let head = "Sessão encerrada (código "@;
        if status < 0 {
            assert(out@ =~= head + (seq!['-'] + decimal((-(status as int)) as nat)) + ")"@);
        } else {
            assert(out@ =~= head + decimal(status as nat) + ")"@);
        }
    }
    string_of(out.as_slice())
}

} // verus!
