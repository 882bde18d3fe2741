//! Receiver-address validation: a chain account address is 20 bytes,
//! written as exactly 40 hexadecimal digits with an optional `0x` prefix.

use vstd::prelude::*;
use vstd::string::StrSliceExecFns;
use vstd::string::StringExecFns;
use crate::error::TransferError;

verus! {

/// Whether `c` is a hexadecimal digit, either case.
pub open spec fn is_hex_digit(c: char) -> bool {
    ||| '0' as u32 <= c as u32 && c as u32 <= '9' as u32
    ||| 'a' as u32 <= c as u32 && c as u32 <= 'f' as u32
    ||| 'A' as u32 <= c as u32 && c as u32 <= 'F' as u32
}

/// The value of the hexadecimal digit `c`.
pub open spec fn hex_digit_val(c: char) -> nat {
    if '0' as u32 <= c as u32 && c as u32 <= '9' as u32 {
        (c as u32 - '0' as u32) as nat
    } else if 'a' as u32 <= c as u32 && c as u32 <= 'f' as u32 {
        (c as u32 - 'a' as u32 + 10) as nat
    } else {
        (c as u32 - 'A' as u32 + 10) as nat
    }
}

/// `s` without its `0x` prefix, when it has one.
pub open spec fn hex_body(s: Seq<char>) -> Seq<char> {
    if s.len() >= 2 && s[0] == '0' && s[1] == 'x' {
        s.skip(2)
    } else {
        s
    }
}

/// A well-formed receiver address: exactly 40 hexadecimal digits after the
/// optional prefix.
pub open spec fn is_address_string(s: Seq<char>) -> bool {
    &&& hex_body(s).len() == 40
    &&& forall|i: int| 0 <= i < 40 ==> is_hex_digit(#[trigger] hex_body(s)[i])
}

/// The 20 bytes spelled by 40 hexadecimal digits, high nibble first.
pub open spec fn address_bytes(h: Seq<char>) -> Seq<u8> {
    Seq::new(20, |i: int| (hex_digit_val(h[2 * i]) * 16 + hex_digit_val(h[2 * i + 1])) as u8)
}

/// The value of `c` as a hexadecimal digit, if it is one.
fn hex_of(c: char) -> (r: Option<u8>)
    ensures
        r is Some <==> is_hex_digit(c),
        r matches Some(v) ==> v as nat == hex_digit_val(c) && v <= 15,
{
    let u = c as u32;
    if 48 <= u && u <= 57 {
        Some((u - 48) as u8)
    } else if 97 <= u && u <= 102 {
        Some((u - 97 + 10) as u8)
    } else if 65 <= u && u <= 70 {
        Some((u - 65 + 10) as u8)
    } else {
        None
    }
}

/// Decodes `receiver` into the 20 bytes of the chain account address it
/// spells, or rejects it with `InvalidReceiverAddress`.
pub fn validate_receiver(receiver: &str) -> (r: Result<Vec<u8>, TransferError>)
    ensures
        r matches Ok(b) ==> is_address_string(receiver@) && b@ == address_bytes(
            hex_body(receiver@),
        ),
        r matches Err(e) ==> !is_address_string(receiver@) && (e matches
            TransferError::InvalidReceiverAddress(m) && m@ == "expected 40 hexadecimal digits"@),
{
    let ghost s = receiver@;
    let n = receiver.unicode_len();
    let off: usize = if n >= 2 && receiver.get_char(0) == '0' && receiver.get_char(1) == 'x' {
        2
    } else {
        0
    };
    let ghost h = hex_body(s);
    proof {
        if off == 0 {
            assert(s.skip(0) =~= s);
        }
        assert(h == s.skip(off as int));
    }
    if n - off != 40 {
        proof {
            assert(h.len() != 40);
        }
        return Err(
            TransferError::InvalidReceiverAddress(
                String::from_str("expected 40 hexadecimal digits"),
            ),
        );
    }
    let mut out: Vec<u8> = Vec::new();
    let mut i: usize = 0;
    while i < 20
        invariant
            i <= 20,
            s == receiver@,
            n == s.len(),
            off + 40 == n,
            h == hex_body(s),
            h == s.skip(off as int),
            h.len() == 40,
            out@.len() == i as int,
            forall|q: int| 0 <= q < 2 * i ==> is_hex_digit(#[trigger] h[q]),
            forall|q: int|
                0 <= q < i ==> out@[q] == (hex_digit_val(h[2 * q]) * 16 + hex_digit_val(
                    h[2 * q + 1],
                )) as u8,
        decreases 20 - i,
    {
        let hi = receiver.get_char(off + 2 * i);
        let lo = receiver.get_char(off + 2 * i + 1);
        proof {
            assert(h[2 * i as int] == s[off + 2 * i as int]);
            assert(h[2 * i + 1 as int] == s[off + 2 * i + 1 as int]);
        }
        let hv = match hex_of(hi) {
            Some(v) => v,
            None => {
                proof {
                    assert(!is_hex_digit(h[2 * i as int]));
                }
                return Err(
                    TransferError::InvalidReceiverAddress(
                        String::from_str("expected 40 hexadecimal digits"),
                    ),
                );
            },
        };
        let lv = match hex_of(lo) {
            Some(v) => v,
            None => {
                proof {
                    assert(!is_hex_digit(h[2 * i + 1 as int]));
                }
                return Err(
                    TransferError::InvalidReceiverAddress(
                        String::from_str("expected 40 hexadecimal digits"),
                    ),
                );
            },
        };
        out.push(hv * 16 + lv);
        i = i + 1;
    }
    proof {
        assert(is_address_string(s));
        assert(out@ =~= address_bytes(h));
    }
    Ok(out)
}

} // verus!
