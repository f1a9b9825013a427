//! Standard base64 (RFC 4648 alphabet, `=` padding), used to store binary
//! keys in text files.
use crate::text::push_char;
use vstd::prelude::*;
use vstd::string::StringSliceAdditionalSpecFns;

verus! {

/// The 64 digits: `A`-`Z`, `a`-`z`, `0`-`9`, `+`, `/`.
pub open spec fn b64_digits() -> Seq<char> {
    seq![
        'A', 'B', 'C', 'D', 'E', 'F', 'G', 'H', 'I', 'J', 'K', 'L', 'M', 'N', 'O', 'P', 'Q', 'R',
        'S', 'T', 'U', 'V', 'W', 'X', 'Y', 'Z', 'a', 'b', 'c', 'd', 'e', 'f', 'g', 'h', 'i', 'j',
        'k', 'l', 'm', 'n', 'o', 'p', 'q', 'r', 's', 't', 'u', 'v', 'w', 'x', 'y', 'z', '0', '1',
        '2', '3', '4', '5', '6', '7', '8', '9', '+', '/',
    ]
}

/// The four characters for up to three bytes: the first `n` of `b0`, `b1`,
/// `b2` are present and the missing ones count as zero; each absent byte
/// turns one trailing character into `=`.
pub open spec fn b64_group(b0: u8, b1: u8, b2: u8, n: nat) -> Seq<char> {
    seq![
        b64_digits()[b0 as int / 4],
        b64_digits()[(b0 as int % 4) * 16 + b1 as int / 16],
        if n >= 2 {
            b64_digits()[(b1 as int % 16) * 4 + b2 as int / 64]
        } else {
            '='
        },
        if n >= 3 {
            b64_digits()[b2 as int % 64]
        } else {
            '='
        },
    ]
}

/// Base64 text of `d`, three bytes at a time.
pub open spec fn base64_of(d: Seq<u8>) -> Seq<char>
    decreases d.len(),
{
    if d.len() == 0 {
        Seq::empty()
    } else if d.len() >= 3 {
        b64_group(d[0], d[1], d[2], 3) + base64_of(d.skip(3))
    } else if d.len() == 2 {
        b64_group(d[0], d[1], 0, 2)
    } else {
        b64_group(d[0], 0, 0, 1)
    }
}

/// The 6-bit value of a base64 character; `=` counts as zero.
pub open spec fn b64_value(c: u8) -> Option<u8> {
    if 65 <= c <= 90 {
        Some((c - 65) as u8)
    } else if 97 <= c <= 122 {
        Some((c - 71) as u8)
    } else if 48 <= c <= 57 {
        Some((c + 4) as u8)
    } else if c == 43 {
        Some(62)
    } else if c == 47 {
        Some(63)
    } else if c == 61 {
        Some(0)
    } else {
        None
    }
}

/// The bytes of one 4-character group: the second byte is left out when the
/// third character is `=`, the third byte when the fourth is.
pub open spec fn b64_chunk(c0: u8, c1: u8, c2: u8, c3: u8) -> Seq<u8> {
    let v0 = b64_value(c0)->Some_0 as int;
    let v1 = b64_value(c1)->Some_0 as int;
    let v2 = b64_value(c2)->Some_0 as int;
    let v3 = b64_value(c3)->Some_0 as int;
    seq![(v0 * 4 + v1 / 16) as u8] + (if c2 != 61 {
        seq![((v1 % 16) * 16 + v2 / 4) as u8]
    } else {
        Seq::empty()
    }) + (if c3 != 61 {
        seq![((v2 % 4) * 64 + v3) as u8]
    } else {
        Seq::empty()
    })
}

/// The bytes of the 4-character groups of `t`.
pub open spec fn b64_chunks(t: Seq<u8>) -> Seq<u8>
    decreases t.len(),
{
    if t.len() < 4 {
        Seq::empty()
    } else {
        b64_chunk(t[0], t[1], t[2], t[3]) + b64_chunks(t.skip(4))
    }
}

/// The bytes that base64 text `t` spells: `None` unless its length is a
/// multiple of four and every character is a base64 digit or `=`.
pub open spec fn base64_decoded(t: Seq<u8>) -> Option<Seq<u8>> {
    if t.len() % 4 == 0 && forall|i: int| 0 <= i < t.len() ==> #[trigger] b64_value(t[i]) is Some {
        Some(b64_chunks(t))
    } else {
        None
    }
}

/// Base64 text of `data`, with `=` padding.
pub fn base64_encode(data: &[u8]) -> (r: String)
    ensures
        r@ == base64_of(data@),
{
    let digits: Vec<char> = vec![
        'A', 'B', 'C', 'D', 'E', 'F', 'G', 'H', 'I', 'J', 'K', 'L', 'M', 'N', 'O', 'P', 'Q', 'R',
        'S', 'T', 'U', 'V', 'W', 'X', 'Y', 'Z', 'a', 'b', 'c', 'd', 'e', 'f', 'g', 'h', 'i', 'j',
        'k', 'l', 'm', 'n', 'o', 'p', 'q', 'r', 's', 't', 'u', 'v', 'w', 'x', 'y', 'z', '0', '1',
        '2', '3', '4', '5', '6', '7', '8', '9', '+', '/',
    ];
    let mut result = String::new();
    let mut i: usize = 0;
    let ghost d = data@;
    proof {
        assert(d.skip(0) =~= d);
        assert(result@ + base64_of(d.skip(0)) =~= base64_of(d));
    }
    while i < data.len()
        invariant
            d == data@,
            digits@ == b64_digits(),
            i <= d.len() || d.len() == 0,
            i < d.len() ==> result@ + base64_of(d.skip(i as int)) == base64_of(d),
            i >= d.len() ==> result@ == base64_of(d),
        decreases d.len() - i,
    {
        let rest = data.len() - i;
        let b0 = data[i];
        let b1 = if rest > 1 {
            data[i + 1]
        } else {
            0
        };
        let b2 = if rest > 2 {
            data[i + 2]
        } else {
            0
        };
        let ghost before = result@;
        let ghost s = d.skip(i as int);
        push_char(&mut result, digits[(b0 / 4) as usize]);
        push_char(&mut result, digits[((b0 % 4) * 16 + b1 / 16) as usize]);
        if rest > 1 {
            push_char(&mut result, digits[((b1 % 16) * 4 + b2 / 64) as usize]);
        } else {
            push_char(&mut result, '=');
        }
        if rest > 2 {
            push_char(&mut result, digits[(b2 % 64) as usize]);
        } else {
            push_char(&mut result, '=');
        }
        proof {
            let n: nat = if rest >= 3 {
                3
            } else {
                rest as nat
            };
            assert(s[0] == b0);
            assert(result@ =~= before + b64_group(b0, b1, b2, n));
            if rest >= 3 {
                assert(s[1] == b1 && s[2] == b2);
                assert(s.skip(3) =~= d.skip(i + 3));
            } else if rest == 2 {
                assert(s[1] == b1);
            }
        }
        if rest < 3 {
            i = data.len();
        } else {
            i = i + 3;
        }
    }
    result
}

/// The bytes that the base64 text `s` spells; `None` when its length is not
/// a multiple of four or it holds a character outside the alphabet and `=`.
pub fn base64_decode(s: &str) -> (r: Option<Vec<u8>>)
    ensures
        match r {
            Some(v) => base64_decoded(s.spec_bytes()) == Some(v@),
            None => base64_decoded(s.spec_bytes()) is None,
        },
{
    let t = s.as_bytes();
    if t.len() % 4 != 0 {
        return None;
    }
    let ghost tv = t@;
    let mut result: Vec<u8> = Vec::new();
    let mut i: usize = 0;
    proof {
        assert(tv.skip(0) =~= tv);
    }
    while i < t.len()
        invariant
            tv == t@,
            tv == s.spec_bytes(),
            tv.len() % 4 == 0,
            i % 4 == 0,
            i <= tv.len(),
            tv.len() == t.len(),
            forall|j: int| 0 <= j < i ==> #[trigger] b64_value(tv[j]) is Some,
            result@ + b64_chunks(tv.skip(i as int)) == b64_chunks(tv),
        decreases tv.len() - i,
    {
        let mut vals: [u8; 4] = [0u8; 4];
        let mut k: usize = 0;
        while k < 4
            invariant
                tv == t@,
                tv == s.spec_bytes(),
                tv.len() % 4 == 0,
                i + 4 <= tv.len(),
                i + 4 <= t.len(),
                k <= 4,
                forall|j: int| 0 <= j < i ==> #[trigger] b64_value(tv[j]) is Some,
                forall|j: int| 0 <= j < k ==> b64_value(#[trigger] tv[i + j]) == Some(vals@[j]),
            decreases 4 - k,
        {
            match char_value(t[i + k]) {
                Some(v) => {
                    vals[k] = v;
                },
                None => {
                    proof {
                        assert(b64_value(tv[i + k]) is None);
                        assert(!(forall|j: int| 0 <= j < tv.len() ==> #[trigger] b64_value(tv[j]) is Some));
                    }
                    return None;
                },
            }
            k = k + 1;
        }
        let (v0, v1, v2, v3) = (vals[0], vals[1], vals[2], vals[3]);
        let ghost before = result@;
        result.push(v0 * 4 + v1 / 16);
        if t[i + 2] != 61 {
            result.push((v1 % 16) * 16 + v2 / 4);
        }
        if t[i + 3] != 61 {
            result.push((v2 % 4) * 64 + v3);
        }
        proof {
            let sk = tv.skip(i as int);
            assert(sk[0] == tv[i as int] && sk[1] == tv[i + 1] && sk[2] == tv[i + 2] && sk[3]
                == tv[i + 3]);
            assert(b64_value(tv[i + 0]) == Some(vals@[0]));
            assert(b64_value(tv[i + 1]) == Some(vals@[1]));
            assert(b64_value(tv[i + 2]) == Some(vals@[2]));
            assert(b64_value(tv[i + 3]) == Some(vals@[3]));
            assert(result@ =~= before + b64_chunk(tv[i as int], tv[i + 1], tv[i + 2], tv[i + 3]));
            assert(sk.skip(4) =~= tv.skip(i + 4));
            assert(forall|j: int| 0 <= j < i + 4 ==> #[trigger] b64_value(tv[j]) is Some) by {
                assert forall|j: int| 0 <= j < i + 4 implies #[trigger] b64_value(tv[j]) is Some by {
                    if j >= i {
                        assert(b64_value(tv[i + (j - i)]) == Some(vals@[j - i]));
                    }
                }
            }
        }
        i = i + 4;
    }
    proof {
        assert(b64_chunks(tv.skip(i as int)) =~= Seq::<u8>::empty());
        assert(result@ =~= b64_chunks(tv));
    }
    Some(result)
}

/// The 6-bit value of one base64 character; `=` counts as zero.
fn char_value(c: u8) -> (r: Option<u8>)
    ensures
        r == b64_value(c),
        r matches Some(v) ==> v < 64,
{
    if c >= 65 && c <= 90 {
        Some(c - 65)
    } else if c >= 97 && c <= 122 {
        Some(c - 71)
    } else if c >= 48 && c <= 57 {
        Some(c + 4)
    } else if c == 43 {
        Some(62)
    } else if c == 47 {
        Some(63)
    } else if c == 61 {
        Some(0)
    } else {
        None
    }
}

} // verus!
