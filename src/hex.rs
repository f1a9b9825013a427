//! Lower-case hexadecimal text for byte strings, as used to turn keys into
//! archive entry names.
use crate::text::push_char;
use vstd::prelude::*;
use vstd::string::StringSliceAdditionalSpecFns;

verus! {

/// The sixteen digits, lower case.
pub open spec fn hex_digits() -> Seq<char> {
    seq!['0', '1', '2', '3', '4', '5', '6', '7', '8', '9', 'a', 'b', 'c', 'd', 'e', 'f']
}

/// Two digits per byte, high nibble first.
pub open spec fn hex_of(b: Seq<u8>) -> Seq<char> {
    Seq::new(
        2 * b.len(),
        |i: int|
            if i % 2 == 0 {
                hex_digits()[b[i / 2] as int / 16]
            } else {
                hex_digits()[b[i / 2] as int % 16]
            },
    )
}

/// The value of an ASCII hex digit, either case.
pub open spec fn nibble_of(c: u8) -> Option<u8> {
    if 48 <= c <= 57 {
        Some((c - 48) as u8)
    } else if 97 <= c <= 102 {
        Some((c - 87) as u8)
    } else if 65 <= c <= 70 {
        Some((c - 55) as u8)
    } else {
        None
    }
}

/// The bytes that hex text `t` spells: `None` for an odd length or a non-digit.
pub open spec fn hex_decode(t: Seq<u8>) -> Option<Seq<u8>> {
    if t.len() % 2 != 0 {
        None
    } else if forall|i: int| 0 <= i < t.len() ==> #[trigger] nibble_of(t[i]) is Some {
        Some(
            Seq::new(
                t.len() / 2,
                |i: int| (nibble_of(t[2 * i])->Some_0 * 16 + nibble_of(t[2 * i + 1])->Some_0) as u8,
            ),
        )
    } else {
        None
    }
}

/// Lower-case hex text of `data`.
pub fn encode(data: &[u8]) -> (r: String)
    ensures
        r@ == hex_of(data@),
{
    let digits: Vec<char> = vec!['0', '1', '2', '3', '4', '5', '6', '7', '8', '9', 'a', 'b', 'c', 'd', 'e', 'f'];
    let mut result = String::new();
    let mut i: usize = 0;
    while i < data.len()
        invariant
            i <= data@.len(),
            digits@ == hex_digits(),
            result@ == hex_of(data@.subrange(0, i as int)),
        decreases data@.len() - i,
    {
        let byte = data[i];
        push_char(&mut result, digits[(byte / 16) as usize]);
        push_char(&mut result, digits[(byte % 16) as usize]);
        proof {
            assert(result@ =~= hex_of(data@.subrange(0, i + 1)));
        }
        i = i + 1;
    }
    proof {
        assert(data@.subrange(0, i as int) =~= data@);
    }
    result
}

/// The bytes that the hex text `s` spells, in either case; `None` for an odd
/// length or a character that is not a hex digit.
pub fn decode(s: &str) -> (r: Option<Vec<u8>>)
    ensures
        match r {
            Some(v) => hex_decode(s.spec_bytes()) == Some(v@),
            None => hex_decode(s.spec_bytes()) is None,
        },
{
    let bytes = s.as_bytes();
    if bytes.len() % 2 != 0 {
        return None;
    }
    let ghost t = bytes@;
    let mut result: Vec<u8> = Vec::with_capacity(bytes.len() / 2);
    let mut i: usize = 0;
    while i < bytes.len() / 2
        invariant
            t == bytes@,
            t == s.spec_bytes(),
            t.len() % 2 == 0,
            i <= t.len() / 2,
            forall|j: int| 0 <= j < 2 * i ==> #[trigger] nibble_of(t[j]) is Some,
            result@ == Seq::new(
                i as nat,
                |k: int| (nibble_of(t[2 * k])->Some_0 * 16 + nibble_of(t[2 * k + 1])->Some_0) as u8,
            ),
        decreases t.len() / 2 - i,
    {
        proof {
            assert(2 * i + 1 < t.len());
        }
        let high = match hex_char_to_nibble(bytes[2 * i]) {
            Some(n) => n,
            None => {
                proof {
                    assert(nibble_of(t[2 * i as int]) is None);
                    assert(!(forall|j: int| 0 <= j < t.len() ==> #[trigger] nibble_of(t[j]) is Some));
                }
                return None;
            },
        };
        let low = match hex_char_to_nibble(bytes[2 * i + 1]) {
            Some(n) => n,
            None => {
                proof {
                    assert(nibble_of(t[2 * i + 1]) is None);
                    assert(!(forall|j: int| 0 <= j < t.len() ==> #[trigger] nibble_of(t[j]) is Some));
                }
                return None;
            },
        };
        result.push(high * 16 + low);
        proof {
            assert(result@ =~= Seq::new(
                (i + 1) as nat,
                |k: int| (nibble_of(t[2 * k])->Some_0 * 16 + nibble_of(t[2 * k + 1])->Some_0) as u8,
            ));
        }
        i = i + 1;
    }
    Some(result)
}

/// The value of one ASCII hex digit, either case.
pub fn hex_char_to_nibble(c: u8) -> (r: Option<u8>)
    ensures
        r == nibble_of(c),
        r matches Some(n) ==> n < 16,
{
    if c >= 48 && c <= 57 {
        Some(c - 48)
    } else if c >= 97 && c <= 102 {
        Some(c - 87)
    } else if c >= 65 && c <= 70 {
        Some(c - 55)
    } else {
        None
    }
}

} // verus!
