//! Lower-case hexadecimal text for byte strings.

use vstd::prelude::*;
use vstd::string::StrSliceExecFns;

verus! {

/// The hexadecimal digit that stands for a value below sixteen.
pub open spec fn hex_digit(nibble: int) -> char {
    if nibble == 0 {
        '0'
    } else if nibble == 1 {
        '1'
    } else if nibble == 2 {
        '2'
    } else if nibble == 3 {
        '3'
    } else if nibble == 4 {
        '4'
    } else if nibble == 5 {
        '5'
    } else if nibble == 6 {
        '6'
    } else if nibble == 7 {
        '7'
    } else if nibble == 8 {
        '8'
    } else if nibble == 9 {
        '9'
    } else if nibble == 10 {
        'a'
    } else if nibble == 11 {
        'b'
    } else if nibble == 12 {
        'c'
    } else if nibble == 13 {
        'd'
    } else if nibble == 14 {
        'e'
    } else {
        'f'
    }
}

/// The hexadecimal text of `bytes`: two digits for each byte, the high
/// half first.
pub open spec fn hex_encoding(bytes: Seq<u8>) -> Seq<char> {
    Seq::new(
        2 * bytes.len(),
        |i: int|
            if i % 2 == 0 {
                hex_digit(bytes[i / 2] as int / 16)
            } else {
                hex_digit(bytes[i / 2] as int % 16)
            },
    )
}

/// The one-digit text for a value below sixteen.
pub fn digit_str(nibble: u8) -> (s: &'static str)
    requires
        nibble < 16,
    ensures
        s@ == seq![hex_digit(nibble as int)],
{
    proof {
        reveal_strlit("0");
        reveal_strlit("1");
        reveal_strlit("2");
        reveal_strlit("3");
        reveal_strlit("4");
        reveal_strlit("5");
        reveal_strlit("6");
        reveal_strlit("7");
        reveal_strlit("8");
        reveal_strlit("9");
        reveal_strlit("a");
        reveal_strlit("b");
        reveal_strlit("c");
        reveal_strlit("d");
        reveal_strlit("e");
        reveal_strlit("f");
    }
    let s = match nibble {
        0 => "0",
        1 => "1",
        2 => "2",
        3 => "3",
        4 => "4",
        5 => "5",
        6 => "6",
        7 => "7",
        8 => "8",
        9 => "9",
        10 => "a",
        11 => "b",
        12 => "c",
        13 => "d",
        14 => "e",
        _ => "f",
    };
    assert(s@ =~= seq![hex_digit(nibble as int)]);
    s
}

/// Writes `bytes` as hexadecimal text.
pub fn easy_encode_to_string(bytes: &[u8]) -> (s: String)
    ensures
        s@ == hex_encoding(bytes@),
{
    let mut s = String::new();
    let mut i: usize = 0;
    while i < bytes.len()
        invariant
            i <= bytes.len(),
            s@ == hex_encoding(bytes@.subrange(0, i as int)),
        decreases bytes.len() - i,
    {
        let ghost before = s@;
        let b = bytes[i];
        s.append(digit_str(b / 16));
        s.append(digit_str(b % 16));
        proof {
            let longer = bytes@.subrange(0, i + 1);
            let shorter = bytes@.subrange(0, i as int);
            assert(s@ =~= before + seq![hex_digit(b as int / 16)] + seq![hex_digit(b as int % 16)]);
            assert forall|j: int| 0 <= j < 2 * (i + 1) implies s@[j] == hex_encoding(longer)[j] by {
                if j < 2 * i {
                    assert(s@[j] == hex_encoding(shorter)[j]);
                    assert(shorter[j / 2] == longer[j / 2]);
                } else {
                    assert(longer[j / 2] == b);
                }
            }
            assert(s@ =~= hex_encoding(longer));
        }
        i += 1;
    }
    assert(bytes@.subrange(0, bytes@.len() as int) =~= bytes@);
    s
}

/// The text of any byte string is twice as long as the string and holds
/// nothing but the digits `0` to `9` and `a` to `f`.
pub proof fn lemma_hex_encoding_shape(bytes: Seq<u8>)
    ensures
        hex_encoding(bytes).len() == 2 * bytes.len(),
        forall|i: int|
            0 <= i < hex_encoding(bytes).len() ==> {
                let c = #[trigger] hex_encoding(bytes)[i];
                ('0' <= c <= '9') || ('a' <= c <= 'f')
            },
{
}

/// The value of a hexadecimal digit; `None` for any other character.
pub fn decode_digit(c: char) -> (r: Option<u8>)
    ensures
        r matches Some(n) ==> n < 16 && hex_digit(n as int) == c,
        r is None ==> forall|n: int| 0 <= n < 16 ==> hex_digit(n) != c,
{
    match c {
        '0' => Some(0),
        '1' => Some(1),
        '2' => Some(2),
        '3' => Some(3),
        '4' => Some(4),
        '5' => Some(5),
        '6' => Some(6),
        '7' => Some(7),
        '8' => Some(8),
        '9' => Some(9),
        'a' => Some(10),
        'b' => Some(11),
        'c' => Some(12),
        'd' => Some(13),
        'e' => Some(14),
        'f' => Some(15),
        _ => None,
    }
}

/// Reads hexadecimal text back into bytes; `None` unless the text is the
/// hexadecimal text of some bytes.
pub fn easy_decode(text: &str) -> (r: Option<Vec<u8>>)
    ensures
        r matches Some(bytes) ==> text@ == hex_encoding(bytes@),
        r is None ==> forall|bytes: Seq<u8>| text@ != hex_encoding(bytes),
{
    let n = text.unicode_len();
    if n % 2 != 0 {
        assert forall|bytes: Seq<u8>| text@ != hex_encoding(bytes) by {
            assert(hex_encoding(bytes).len() == 2 * bytes.len());
        }
        return None;
    }
    let mut out: Vec<u8> = Vec::new();
    let mut i: usize = 0;
    while i < n / 2
        invariant
            n == text@.len(),
            n % 2 == 0,
            i <= n / 2,
            out@.len() == i,
            text@.subrange(0, 2 * i) == hex_encoding(out@),
        decreases n / 2 - i,
    {
        let ghost before = out@;
        let hi = decode_digit(text.get_char(2 * i));
        let lo = decode_digit(text.get_char(2 * i + 1));
        match (hi, lo) {
            (Some(hi), Some(lo)) => {
                let b = hi * 16 + lo;
                out.push(b);
                proof {
                    let longer = text@.subrange(0, 2 * (i + 1));
                    assert forall|j: int| 0 <= j < 2 * (i + 1) implies longer[j] == hex_encoding(
                        out@,
                    )[j] by {
                        if j < 2 * i {
                            assert(text@.subrange(0, 2 * i)[j] == hex_encoding(before)[j]);
                            assert(before[j / 2] == out@[j / 2]);
                        } else {
                            assert(out@[j / 2] == b);
                            assert(b as int / 16 == hi && b as int % 16 == lo);
                        }
                    }
                    assert(longer =~= hex_encoding(out@));
                }
            },
            _ => {
                assert forall|bytes: Seq<u8>| text@ != hex_encoding(bytes) by {
                    if text@ == hex_encoding(bytes) {
                        let j = if hi is None {
                            2 * i
                        } else {
                            2 * i + 1
                        };
                        assert(text@[j] == hex_encoding(bytes)[j]);
                    }
                }
                return None;
            },
        }
        i += 1;
    }
    assert(text@.subrange(0, n as int) =~= text@);
    Some(out)
}

} // verus!
