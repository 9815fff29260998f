//! Human-readable renderings of numbers and byte strings: decimal for integers, lowercase
//! hexadecimal for bytes. Error messages are built from these.
use crate::bytes::Bytes32;
use vstd::prelude::*;
use vstd::string::StringExecFns;

verus! {

/// The character of digit `d` (`0`–`9`, then `a`–`f`).
pub open spec fn digit_char(d: int) -> char {
    if d == 0 {
        '0'
    } else if d == 1 {
        '1'
    } else if d == 2 {
        '2'
    } else if d == 3 {
        '3'
    } else if d == 4 {
        '4'
    } else if d == 5 {
        '5'
    } else if d == 6 {
        '6'
    } else if d == 7 {
        '7'
    } else if d == 8 {
        '8'
    } else if d == 9 {
        '9'
    } else if d == 10 {
        'a'
    } else if d == 11 {
        'b'
    } else if d == 12 {
        'c'
    } else if d == 13 {
        'd'
    } else if d == 14 {
        'e'
    } else {
        'f'
    }
}

/// The decimal digits of `x`, most significant first, without leading zeros.
pub open spec fn spec_decimal(x: nat) -> Seq<char>
    decreases x,
{
    if x < 10 {
        seq![digit_char(x as int)]
    } else {
        spec_decimal(x / 10) + seq![digit_char((x % 10) as int)]
    }
}

/// Decimal rendering of a signed integer: a minus sign before the digits of a negative value.
pub open spec fn spec_signed_decimal(x: int) -> Seq<char> {
    if x < 0 {
        seq!['-'] + spec_decimal((-x) as nat)
    } else {
        spec_decimal(x as nat)
    }
}

/// Lowercase hexadecimal rendering of `b`, two digits per byte.
pub open spec fn spec_hex(b: Seq<u8>) -> Seq<char>
    decreases b.len(),
{
    if b.len() == 0 {
        Seq::empty()
    } else {
        spec_hex(b.drop_last()) + seq![
            digit_char((b.last() / 16) as int),
            digit_char((b.last() % 16) as int),
        ]
    }
}

/// The one-character text of digit `d`.
fn digit_text(d: u64) -> (r: &'static str)
    requires
        d < 16,
    ensures
        r@ == seq![digit_char(d as int)],
{
    match d {
        0 => {
            proof {
                reveal_strlit("0");
            }
            "0"
        },
        1 => {
            proof {
                reveal_strlit("1");
            }
            "1"
        },
        2 => {
            proof {
                reveal_strlit("2");
            }
            "2"
        },
        3 => {
            proof {
                reveal_strlit("3");
            }
            "3"
        },
        4 => {
            proof {
                reveal_strlit("4");
            }
            "4"
        },
        5 => {
            proof {
                reveal_strlit("5");
            }
            "5"
        },
        6 => {
            proof {
                reveal_strlit("6");
            }
            "6"
        },
        7 => {
            proof {
                reveal_strlit("7");
            }
            "7"
        },
        8 => {
            proof {
                reveal_strlit("8");
            }
            "8"
        },
        9 => {
            proof {
                reveal_strlit("9");
            }
            "9"
        },
        10 => {
            proof {
                reveal_strlit("a");
            }
            "a"
        },
        11 => {
            proof {
                reveal_strlit("b");
            }
            "b"
        },
        12 => {
            proof {
                reveal_strlit("c");
            }
            "c"
        },
        13 => {
            proof {
                reveal_strlit("d");
            }
            "d"
        },
        14 => {
            proof {
                reveal_strlit("e");
            }
            "e"
        },
        _ => {
            proof {
                reveal_strlit("f");
            }
            "f"
        },
    }
}

/// Append the decimal digits of `x` to `out`.
pub fn push_decimal(out: &mut String, x: u64)
    ensures
        final(out)@ == old(out)@ + spec_decimal(x as nat),
    decreases x,
{
    if x >= 10 {
        push_decimal(out, x / 10);
    }
    out.append(digit_text(x % 10));
    proof {
        if x >= 10 {
            assert(old(out)@ + spec_decimal((x / 10) as nat) + seq![digit_char((x % 10) as int)]
                =~= old(out)@ + spec_decimal(x as nat));
        } else {
            assert(x % 10 == x);
        }
    }
}

/// Append the decimal rendering of the signed `x` to `out`.
pub fn push_signed_decimal(out: &mut String, x: i64)
    ensures
        final(out)@ == old(out)@ + spec_signed_decimal(x as int),
{
    if x < 0 {
        out.append("-");
        proof {
            reveal_strlit("-");
        }
        let magnitude: u64 = (0i128 - (x as i128)) as u64;
        push_decimal(out, magnitude);
        assert(out@ =~= old(out)@ + spec_signed_decimal(x as int));
    } else {
        push_decimal(out, x as u64);
    }
}

/// Append the lowercase hexadecimal rendering of `b` to `out`.
pub fn push_hex(out: &mut String, b: &Bytes32)
    ensures
        final(out)@ == old(out)@ + spec_hex(b@),
{
    let ghost start = out@;
    let mut i: usize = 0;
    while i < 32
        invariant
            i <= 32,
            b@.len() == 32,
            out@ == start + spec_hex(b@.take(i as int)),
        decreases 32 - i,
    {
        let byte = b.bytes[i];
        out.append(digit_text((byte / 16) as u64));
        out.append(digit_text((byte % 16) as u64));
        proof {
            let t = b@.take(i + 1);
            assert(t.drop_last() =~= b@.take(i as int));
            assert(t.last() == byte);
        }
        i = i + 1;
    }
    assert(b@.take(32) =~= b@);
}

} // verus!
