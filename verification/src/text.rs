use vstd::prelude::*;
use vstd::string::*;

verus! {

/// The character of the decimal digit `d`.
pub open spec fn digit_char(d: nat) -> char {
    ((48 + d) as u8) as char
}

/// The decimal notation of `n`, without leading zeros (`"0"` for zero).
pub open spec fn decimal(n: nat) -> Seq<char>
    decreases n,
{
    if n < 10 {
        seq![digit_char(n)]
    } else {
        decimal(n / 10) + seq![digit_char(n % 10)]
    }
}

/// The decimal notation of a signed integer: a minus sign before the digits
/// of a negative one.
pub open spec fn signed_decimal(n: int) -> Seq<char> {
    if n < 0 {
        seq!['-'] + decimal((-n) as nat)
    } else {
        decimal(n as nat)
    }
}

/// The decimal notations of `values`, separated by a comma and a space.
pub open spec fn joined_decimals(values: Seq<usize>) -> Seq<char>
    decreases values.len(),
{
    if values.len() == 0 {
        Seq::empty()
    } else if values.len() == 1 {
        decimal(values[0] as nat)
    } else {
        joined_decimals(values.drop_last()) + seq![',', ' '] + decimal(values.last() as nat)
    }
}

/// A JSON array of the decimal notations of `values`.
pub open spec fn json_array_text(values: Seq<usize>) -> Seq<char> {
    seq!['['] + joined_decimals(values) + seq![']']
}

/// The one-character string of the decimal digit `d`.
fn digit_str(d: u8) -> (s: &'static str)
    requires
        d < 10,
    ensures
        s@ == seq![digit_char(d as nat)],
{
    match d {
        0 => {
            proof {
                reveal_strlit("0");
            }
            "0"
        },
        1 => {
            proof {
                reveal_strlit("1");
            }
            "1"
        },
        2 => {
            proof {
                reveal_strlit("2");
            }
            "2"
        },
        3 => {
            proof {
                reveal_strlit("3");
            }
            "3"
        },
        4 => {
            proof {
                reveal_strlit("4");
            }
            "4"
        },
        5 => {
            proof {
                reveal_strlit("5");
            }
            "5"
        },
        6 => {
            proof {
                reveal_strlit("6");
            }
            "6"
        },
        7 => {
            proof {
                reveal_strlit("7");
            }
            "7"
        },
        8 => {
            proof {
                reveal_strlit("8");
            }
            "8"
        },
        _ => {
            proof {
                reveal_strlit("9");
            }
            "9"
        },
    }
}

/// Appends the decimal notation of `n` to `out`.
pub fn push_decimal(out: &mut String, n: u128)
    ensures
        final(out)@ == old(out)@ + decimal(n as nat),
    decreases n,
{
    if n >= 10 {
        push_decimal(out, n / 10);
    }
    let d = (n % 10) as u8;
    out.append(digit_str(d));
    proof {
        if n >= 10 {
            assert(old(out)@ + decimal((n / 10) as nat) + seq![digit_char((n % 10) as nat)]
                =~= old(out)@ + decimal(n as nat));
        } else {
            assert(n % 10 == n);
        }
    }
}

/// Appends the decimal notation of the signed integer `n` to `out`.
pub fn push_signed_decimal(out: &mut String, n: i128)
    ensures
        final(out)@ == old(out)@ + signed_decimal(n as int),
{
    if n < 0 {
        proof {
            reveal_strlit("-");
        }
        out.append("-");
        let magnitude: u128 = if n == i128::MIN {
            170141183460469231731687303715884105728u128
        } else {
            (-n) as u128
        };
        push_decimal(out, magnitude);
        proof {
            assert(old(out)@ + seq!['-'] + decimal(magnitude as nat) =~= old(out)@ + (seq!['-']
                + decimal(magnitude as nat)));
        }
    } else {
        push_decimal(out, n as u128);
    }
}

/// The decimal notation of `n` as a string.
pub fn decimal_string(n: u128) -> (s: String)
    ensures
        s@ == decimal(n as nat),
{
    let mut s = String::new();
    push_decimal(&mut s, n);
    proof {
        assert(Seq::<char>::empty() + decimal(n as nat) =~= decimal(n as nat));
    }
    s
}

/// The values as a JSON array of numbers: `[a, b, c]`, and `[]` for none.
pub fn json_usize_array(values: &[usize]) -> (json: String)
    ensures
        json@ == json_array_text(values@),
{
    let mut json = String::new();
    proof {
        reveal_strlit("[");
        reveal_strlit(", ");
        reveal_strlit("]");
    }
    json.append("[");
    let mut i: usize = 0;
    while i < values.len()
        invariant
            i <= values.len(),
            json@ == seq!['['] + joined_decimals(values@.take(i as int)),
            ", "@ == seq![',', ' '],
            "]"@ == seq![']'],
        decreases values.len() - i,
    {
        let ghost before = json@;
        proof {
            assert(values@.take(i + 1).drop_last() =~= values@.take(i as int));
        }
        if i > 0 {
            json.append(", ");
        }
        push_decimal(&mut json, values[i] as u128);
        proof {
            if i == 0 {
                assert(json@ =~= seq!['['] + joined_decimals(values@.take(1)));
            } else {
                assert(json@ =~= seq!['['] + joined_decimals(values@.take(i + 1)));
            }
        }
        i = i + 1;
    }
    json.append("]");
    proof {
        assert(values@.take(values.len() as int) =~= values@);
    }
    json
}

} // verus!
