//! Decimal and hexadecimal text.

use vstd::prelude::*;
use vstd::string::*;

verus! {

/// The lower-case hexadecimal digit for `n`.
pub open spec fn hex_char(n: int) -> char {
    if n == 0 {
        '0'
    } else if n == 1 {
        '1'
    } else if n == 2 {
        '2'
    } else if n == 3 {
        '3'
    } else if n == 4 {
        '4'
    } else if n == 5 {
        '5'
    } else if n == 6 {
        '6'
    } else if n == 7 {
        '7'
    } else if n == 8 {
        '8'
    } else if n == 9 {
        '9'
    } else if n == 10 {
        'a'
    } else if n == 11 {
        'b'
    } else if n == 12 {
        'c'
    } else if n == 13 {
        'd'
    } else if n == 14 {
        'e'
    } else {
        'f'
    }
}

/// The lower-case hexadecimal digit for `n`, as text.
pub fn hex_digit(n: u8) -> (digit: &'static str)
    requires
        n < 16,
    ensures
        digit@ == seq![hex_char(n as int)],
{
    proof {
        reveal_strlit("0");
        reveal_strlit("1");
        reveal_strlit("2");
        reveal_strlit("3");
        reveal_strlit("4");
        reveal_strlit("5");
        reveal_strlit("6");
        reveal_strlit("7");
        reveal_strlit("8");
        reveal_strlit("9");
        reveal_strlit("a");
        reveal_strlit("b");
        reveal_strlit("c");
        reveal_strlit("d");
        reveal_strlit("e");
        reveal_strlit("f");
    }
    let digit = match n {
        0 => "0",
        1 => "1",
        2 => "2",
        3 => "3",
        4 => "4",
        5 => "5",
        6 => "6",
        7 => "7",
        8 => "8",
        9 => "9",
        10 => "a",
        11 => "b",
        12 => "c",
        13 => "d",
        14 => "e",
        _ => "f",
    };
    assert(digit@ =~= seq![hex_char(n as int)]);
    digit
}

/// Two hexadecimal digits for each byte.
pub open spec fn hex(bytes: Seq<u8>) -> Seq<char>
    decreases bytes.len(),
{
    if bytes.len() == 0 {
        Seq::empty()
    } else {
        hex(bytes.drop_last()) + seq![
            hex_char(bytes.last() as int / 16),
            hex_char(bytes.last() as int % 16),
        ]
    }
}

/// Two hexadecimal digits for each byte.
pub fn to_hex(bytes: &[u8]) -> (text: String)
    ensures
        text@ == hex(bytes@),
{
    let mut text = String::new();
    let mut i: usize = 0;
    assert(bytes@.subrange(0, 0) =~= Seq::empty());
    assert(text@ =~= Seq::empty());
    while i < bytes.len()
        invariant
            i <= bytes@.len(),
            text@ == hex(bytes@.subrange(0, i as int)),
        decreases bytes@.len() - i,
    {
        let ghost before = text@;
        text.append(hex_digit(bytes[i] / 16));
        text.append(hex_digit(bytes[i] % 16));
        i += 1;
        assert(bytes@.subrange(0, i as int).drop_last() =~= bytes@.subrange(0, i - 1));
        assert(text@ =~= hex(bytes@.subrange(0, i as int)));
    }
    assert(bytes@.subrange(0, bytes@.len() as int) =~= bytes@);
    text
}

/// The value of a lower-case hexadecimal digit.
pub open spec fn nibble(digit: u8) -> Option<u8> {
    if 48 <= digit <= 57 {
        Some((digit - 48) as u8)
    } else if 97 <= digit <= 102 {
        Some((digit - 87) as u8)
    } else {
        None
    }
}

/// Whether all digits are lower-case hexadecimal ones.
pub open spec fn hexadecimal(digits: Seq<u8>) -> bool {
    forall|i: int| 0 <= i < digits.len() ==> nibble(#[trigger] digits[i]) is Some
}

/// The bytes that pairs of digits stand for.
pub open spec fn unhex(digits: Seq<u8>) -> Seq<u8> {
    Seq::new(
        digits.len() / 2,
        |i: int| (16 * nibble(digits[2 * i]).unwrap() + nibble(digits[2 * i + 1]).unwrap()) as u8,
    )
}

/// The value of a lower-case hexadecimal digit.
fn read_nibble(digit: u8) -> (value: Option<u8>)
    ensures
        value == nibble(digit),
        value matches Some(n) ==> n < 16,
{
    if digit >= 48 && digit <= 57 {
        Some(digit - 48)
    } else if digit >= 97 && digit <= 102 {
        Some(digit - 87)
    } else {
        None
    }
}

/// The bytes that pairs of digits stand for, if all are lower-case hexadecimal.
pub fn from_hex(digits: &[u8]) -> (bytes: Option<Vec<u8>>)
    requires
        digits@.len() % 2 == 0,
    ensures
        match bytes {
            Some(bytes) => hexadecimal(digits@) && bytes@ == unhex(digits@),
            None => !hexadecimal(digits@),
        },
{
    let mut bytes: Vec<u8> = Vec::new();
    let half: usize = digits.len() / 2;
    let mut i: usize = 0;
    while i < half
        invariant
            i <= half,
            digits@.len() == 2 * half,
            bytes@.len() == i,
            forall|k: int| 0 <= k < 2 * i ==> nibble(#[trigger] digits@[k]) is Some,
            forall|k: int| 0 <= k < i ==> #[trigger] bytes@[k] == unhex(digits@)[k],
        decreases half - i,
    {
        let high: u8 = match read_nibble(digits[2 * i]) {
            Some(n) => n,
            None => {
                assert(nibble(digits@[2 * i]) is None);
                return None;
            },
        };
        let low: u8 = match read_nibble(digits[2 * i + 1]) {
            Some(n) => n,
            None => {
                assert(nibble(digits@[2 * i + 1]) is None);
                return None;
            },
        };
        bytes.push(16 * high + low);
        i += 1;
    }
    assert(bytes@ =~= unhex(digits@));
    Some(bytes)
}

/// The codes of some ASCII characters.
pub open spec fn codes(text: Seq<char>) -> Seq<u8> {
    text.map_values(|c: char| c as u8)
}

/// Hexadecimal text stands for the bytes that it was made from.
pub proof fn hexadecimal_text_is_read_back(bytes: Seq<u8>)
    ensures
        hex(bytes).len() == 2 * bytes.len(),
        hexadecimal(codes(hex(bytes))),
        unhex(codes(hex(bytes))) == bytes,
        vstd::utf8::encode_utf8(hex(bytes)) == codes(hex(bytes)),
    decreases bytes.len(),
{
    let text = hex(bytes);
    lemma_hex(bytes);
    assert forall|i: int| 0 <= i < text.len() implies nibble(#[trigger] codes(text)[i]) is Some by {
        assert(text[i] == if i % 2 == 0 {
            hex_char(bytes[i / 2] as int / 16)
        } else {
            hex_char(bytes[i / 2] as int % 16)
        });
    }
    assert(unhex(codes(text)) =~= bytes) by {
        assert forall|i: int| 0 <= i < bytes.len() implies #[trigger] unhex(codes(text))[i]
            == bytes[i] by {
            assert(text[2 * i] == hex_char(bytes[i] as int / 16));
            assert(text[2 * i + 1] == hex_char(bytes[i] as int % 16));
        }
    }
    vstd::utf8::is_ascii_chars_encode_utf8(text);
    assert(vstd::utf8::encode_utf8(text) =~= codes(text));
}

proof fn lemma_hex(bytes: Seq<u8>)
    ensures
        hex(bytes).len() == 2 * bytes.len(),
        forall|i: int|
            0 <= i < 2 * bytes.len() ==> #[trigger] hex(bytes)[i] == if i % 2 == 0 {
                hex_char(bytes[i / 2] as int / 16)
            } else {
                hex_char(bytes[i / 2] as int % 16)
            },
        forall|i: int| 0 <= i < 2 * bytes.len() ==> (#[trigger] hex(bytes)[i] as u32) < 128,
    decreases bytes.len(),
{
    if bytes.len() > 0 {
        lemma_hex(bytes.drop_last());
    }
}

/// The decimal digits of `n`.
pub open spec fn decimal(n: nat) -> Seq<char>
    decreases n,
{
    if n < 10 {
        seq![hex_char(n as int)]
    } else {
        decimal(n / 10) + seq![hex_char((n % 10) as int)]
    }
}

/// The decimal digits of `n`.
pub fn to_decimal(n: u64) -> (text: String)
    ensures
        text@ == decimal(n as nat),
    decreases n,
{
    let mut text = if n < 10 {
        String::new()
    } else {
        to_decimal(n / 10)
    };
    let ghost before = text@;
    text.append(hex_digit((n % 10) as u8));
    assert(text@ =~= decimal(n as nat)) by {
        if n < 10 {
            assert(before =~= Seq::empty());
        }
    }
    text
}

} // verus!
