use vstd::prelude::*;
use vstd::string::StringExecFns;

verus! {

pub open spec fn digit_char(d: int) -> char {
    seq!['0', '1', '2', '3', '4', '5', '6', '7', '8', '9'][d]
}

/// Decimal digits of `n`, without leading zeros.
pub open spec fn digits(n: nat) -> Seq<char>
    decreases n,
{
    if n < 10 {
        seq![digit_char(n as int)]
    } else {
        digits(n / 10) + seq![digit_char((n % 10) as int)]
    }
}

/// `n` written in decimal, with a leading `-` when negative.
pub open spec fn decimal(n: int) -> Seq<char> {
    if n < 0 {
        seq!['-'] + digits((-n) as nat)
    } else {
        digits(n as nat)
    }
}

/// Relies on `i32::to_string` (its `Display`): plain decimal, `-` before a negative value.
#[verifier::external_body]
fn decimal_text(n: i32) -> (r: String)
    ensures
        r@ == decimal(n as int),
{
    n.to_string()
}

/// What a cell shows: without the overlay, `GO` on the start and `END` on the
/// end; with it, the cell's hop count where it has one; otherwise nothing.
pub fn get_cell_text(is_start: bool, is_end: bool, distance: Option<&i32>, has_overlay: bool) -> (r:
    String)
    ensures
        r@ == (if !has_overlay {
            if is_start {
                seq!['G', 'O']
            } else if is_end {
                seq!['E', 'N', 'D']
            } else {
                Seq::<char>::empty()
            }
        } else {
            match distance {
                Some(d) => decimal(*d as int),
                None => Seq::<char>::empty(),
            }
        }),
{
    proof {
        reveal_strlit("GO");
        reveal_strlit("END");
        reveal_strlit("");
    }
    if !has_overlay {
        if is_start {
            return String::from_str("GO");
        } else if is_end {
            return String::from_str("END");
        }
    } else if let Some(distance) = distance {
        return decimal_text(*distance);
    }
    String::from_str("")
}

} // verus!
