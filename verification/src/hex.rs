//! Hashes as a ledger shows them: in hex digits, the last byte first.

use vstd::prelude::*;
use vstd::string::StringExecFns;

verus! {

/// The sixteen hex digits, in order.
pub open spec fn hex_digits() -> Seq<char> {
    seq!['0', '1', '2', '3', '4', '5', '6', '7', '8', '9', 'a', 'b', 'c', 'd', 'e', 'f']
}

/// The hex digits of `bytes` read from the last byte to the first: two digits
/// for each byte, the high half of a byte before its low half.
pub open spec fn hex_swapped(bytes: Seq<u8>) -> Seq<char> {
    Seq::new(
        2 * bytes.len(),
        |i: int|
            {
                let byte = bytes[bytes.len() - 1 - i / 2];
                if i % 2 == 0 {
                    hex_digits()[byte as int / 16]
                } else {
                    hex_digits()[byte as int % 16]
                }
            },
    )
}

/// The hex digit for `nibble`, as a string of one character.
fn hex_digit(nibble: u8) -> (digit: &'static str)
    requires
        nibble < 16,
    ensures
        digit@ == seq![hex_digits()[nibble as int]],
{
    proof {
        reveal_strlit("0");
        reveal_strlit("1");
        reveal_strlit("2");
        reveal_strlit("3");
        reveal_strlit("4");
        reveal_strlit("5");
        reveal_strlit("6");
        reveal_strlit("7");
        reveal_strlit("8");
        reveal_strlit("9");
        reveal_strlit("a");
        reveal_strlit("b");
        reveal_strlit("c");
        reveal_strlit("d");
        reveal_strlit("e");
        reveal_strlit("f");
    }
    let digit = match nibble {
        0 => "0",
        1 => "1",
        2 => "2",
        3 => "3",
        4 => "4",
        5 => "5",
        6 => "6",
        7 => "7",
        8 => "8",
        9 => "9",
        10 => "a",
        11 => "b",
        12 => "c",
        13 => "d",
        14 => "e",
        _ => "f",
    };
    digit
}

/// Writes `data` in hex digits, from its last byte to its first.
pub fn arr_to_hex_swapped(data: &[u8]) -> (hex: String)
    ensures
        hex@ == hex_swapped(data@),
{
    let mut hex = String::new();
    let mut i: usize = data.len();
    while i > 0
        invariant
            i <= data@.len(),
            hex@ == hex_swapped(data@).take(2 * (data@.len() - i)),
        decreases i,
    {
        i -= 1;
        let byte = data[i];
        hex.append(hex_digit(byte / 16));
        hex.append(hex_digit(byte % 16));
        proof {
            let all = hex_swapped(data@);
            let done = 2 * (data@.len() - i) - 2;
            assert(all[done] == hex_digits()[byte as int / 16]);
            assert(all[done + 1] == hex_digits()[byte as int % 16]);
            assert(hex@ =~= all.take(done + 2));
        }
    }
    assert(hex_swapped(data@).take(2 * (data@.len() - 0)) =~= hex_swapped(data@));
    hex
}

} // verus!
