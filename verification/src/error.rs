//! The errors of the download engine.
use vstd::prelude::*;

use crate::text;

verus! {

/// Why a step of a download failed.
#[derive(Debug)]
pub enum CoreError {
    /// A server broke the protocol.
    Nntp(String),
    /// A server could not be reached.
    NntpConnect(String),
    /// A server refused the user name or the password.
    NtpAuthFailed,
    /// An article could not be decoded.
    Yenc(String),
    /// An article has a wrong checksum.
    YencCrc { expected: u32, actual: u32 },
    /// An NZB file could not be read.
    NzbParse(String),
    /// Any other reason.
    Other(String),
}

/// What a [`CoreError`] says.
pub enum CoreErrorView {
    Nntp(Seq<char>),
    NntpConnect(Seq<char>),
    NtpAuthFailed,
    Yenc(Seq<char>),
    YencCrc { expected: u32, actual: u32 },
    NzbParse(Seq<char>),
    Other(Seq<char>),
}

impl View for CoreError {
    type V = CoreErrorView;

    open spec fn view(&self) -> CoreErrorView {
        match self {
            CoreError::Nntp(m) => CoreErrorView::Nntp(m@),
            CoreError::NntpConnect(m) => CoreErrorView::NntpConnect(m@),
            CoreError::NtpAuthFailed => CoreErrorView::NtpAuthFailed,
            CoreError::Yenc(m) => CoreErrorView::Yenc(m@),
            CoreError::YencCrc { expected, actual } => CoreErrorView::YencCrc {
                expected: *expected,
                actual: *actual,
            },
            CoreError::NzbParse(m) => CoreErrorView::NzbParse(m@),
            CoreError::Other(m) => CoreErrorView::Other(m@),
        }
    }
}

/// A digit of a hexadecimal number, in lower case.
pub open spec fn hex_digit(n: int) -> char {
    if n < 10 {
        (48 + n) as char
    } else {
        (87 + n) as char
    }
}

/// The last `width` hexadecimal digits of a number.
pub open spec fn hex_digits(n: int, width: nat) -> Seq<char>
    decreases width,
{
    if width == 0 {
        Seq::empty()
    } else {
        hex_digits(n / 16, (width - 1) as nat).push(hex_digit(n % 16))
    }
}

/// A 32-bit number as `0x` and eight hexadecimal digits.
pub open spec fn hex(n: u32) -> Seq<char> {
    "0x"@ + hex_digits(n as int, 8)
}

fn to_hex_digit(n: u32) -> (r: char)
    requires
        n < 16,
    ensures
        r == hex_digit(n as int),
{
    match n {
        0 => '0',
        1 => '1',
        2 => '2',
        3 => '3',
        4 => '4',
        5 => '5',
        6 => '6',
        7 => '7',
        8 => '8',
        9 => '9',
        10 => 'a',
        11 => 'b',
        12 => 'c',
        13 => 'd',
        14 => 'e',
        _ => 'f',
    }
}

/// A 32-bit number as `0x` and eight hexadecimal digits.
pub fn to_hex(n: u32) -> (r: String)
    ensures
        r@ == hex(n),
{
    let mut left: u32 = n;
    let mut digits: Vec<char> = Vec::new();
    let mut k: usize = 0;
    assert(hex_digits(n as int, 8) + Seq::<char>::empty() == hex_digits(n as int, 8));
    while k < 8
        invariant
            k <= 8,
            digits.len() == k,
            hex_digits(n as int, 8) == hex_digits(left as int, (8 - k) as nat) + digits@.reverse(),
        decreases 8 - k,
    {
        let d: char = to_hex_digit(left % 16);
        let ghost was = digits@;
        digits.push(d);
        assert(digits@.reverse() =~= seq![d] + was.reverse());
        assert(hex_digits(left as int, (8 - k) as nat) == hex_digits(
            left as int / 16,
            (7 - k) as nat,
        ).push(d));
        assert(hex_digits(left as int, (8 - k) as nat) + was.reverse() =~= hex_digits(
            left as int / 16,
            (7 - k) as nat,
        ) + digits@.reverse());
        left = left / 16;
        k += 1;
    }
    assert(hex_digits(left as int, 0) + digits@.reverse() =~= digits@.reverse());
    let mut out = "0x".to_owned();
    let mut i: usize = 8;
    assert(digits@.reverse().take(0) =~= Seq::empty());
    while i > 0
        invariant
            i <= 8,
            digits.len() == 8,
            out@ == "0x"@ + digits@.reverse().take(8 - i),
        decreases i,
    {
        i -= 1;
        out.push(digits[i]);
        assert(digits@.reverse().take(8 - i) =~= digits@.reverse().take(7 - i).push(
            digits@[i as int],
        ));
    }
    assert(digits@.reverse().take(8) =~= digits@.reverse());
    out
}

impl CoreErrorView {
    /// The error in words.
    pub open spec fn words(self) -> Seq<char> {
        match self {
            CoreErrorView::Nntp(m) => "NNTP protocol error: "@ + m,
            CoreErrorView::NntpConnect(m) => "NNTP connection failed: "@ + m,
            CoreErrorView::NtpAuthFailed => "NNTP authentication failed"@,
            CoreErrorView::Yenc(m) => "yEnc decode error: "@ + m,
            CoreErrorView::YencCrc { expected, actual } => "yEnc CRC mismatch: expected "@ + hex(
                expected,
            ) + ", got "@ + hex(actual),
            CoreErrorView::NzbParse(m) => "NZB parse error: "@ + m,
            CoreErrorView::Other(m) => "other: "@ + m,
        }
    }
}

/// `head` with `tail` behind it.
pub fn concat(head: &str, tail: &str) -> (r: String)
    ensures
        r@ == head@ + tail@,
{
    let mut r = head.to_owned();
    r.append(tail);
    r
}

impl CoreError {
    /// The error in words.
    pub fn message(&self) -> (r: String)
        ensures
            r@ == self@.words(),
    {
        match self {
            CoreError::Nntp(m) => concat("NNTP protocol error: ", m),
            CoreError::NntpConnect(m) => concat("NNTP connection failed: ", m),
            CoreError::NtpAuthFailed => "NNTP authentication failed".to_owned(),
            CoreError::Yenc(m) => concat("yEnc decode error: ", m),
            CoreError::YencCrc { expected, actual } => {
                let mut r = concat("yEnc CRC mismatch: expected ", &to_hex(*expected));
                r.append(", got ");
                r.append(&to_hex(*actual));
                r
            },
            CoreError::NzbParse(m) => concat("NZB parse error: ", m),
            CoreError::Other(m) => concat("other: ", m),
        }
    }
}

/// A number is written with different digits than any other, behind `0x` and in eight places.
pub proof fn hexadecimals_differ(a: u32, b: u32)
    ensures
        hex(a).len() == 10,
        hex(a).take(2) == "0x"@,
        hex(a) == hex(b) ==> a == b,
{
    reveal_strlit("0x");
    lemma_hex_length(a as int, 8);
    lemma_hex_length(b as int, 8);
    assert(hex(a).take(2) =~= "0x"@);
    if hex(a) == hex(b) {
        assert(hex(a).skip(2) =~= hex_digits(a as int, 8));
        assert(hex(b).skip(2) =~= hex_digits(b as int, 8));
        assert(vstd::arithmetic::power::pow(16, 8) == 0x1_0000_0000) by {
            reveal_with_fuel(vstd::arithmetic::power::pow, 9);
        }
        lemma_hex_differs(a as int, b as int, 8);
    }
}

proof fn lemma_hex_length(n: int, width: nat)
    ensures
        hex_digits(n, width).len() == width,
    decreases width,
{
    if width > 0 {
        lemma_hex_length(n / 16, (width - 1) as nat);
    }
}

proof fn lemma_hex_differs(a: int, b: int, width: nat)
    requires
        0 <= a < vstd::arithmetic::power::pow(16, width),
        0 <= b < vstd::arithmetic::power::pow(16, width),
        hex_digits(a, width) == hex_digits(b, width),
    ensures
        a == b,
    decreases width,
{
    reveal(vstd::arithmetic::power::pow);
    if width > 0 {
        let w = (width - 1) as nat;
        let x = hex_digits(a / 16, w);
        let y = hex_digits(b / 16, w);
        assert(hex_digits(a, width).drop_last() =~= x);
        assert(hex_digits(b, width).drop_last() =~= y);
        assert(hex_digits(a, width).last() == hex_digit(a % 16));
        assert(hex_digits(b, width).last() == hex_digit(b % 16));
        assert(a % 16 == b % 16) by {
            assert(hex_digit(a % 16) as u32 == if a % 16 < 10 {
                48 + a % 16
            } else {
                87 + a % 16
            });
            assert(hex_digit(b % 16) as u32 == if b % 16 < 10 {
                48 + b % 16
            } else {
                87 + b % 16
            });
        }
        lemma_hex_differs(a / 16, b / 16, w);
    }
}

/// The digits of a hexadecimal number are `0` to `9` and then `a` to `f`.
pub proof fn hexadecimal_digits_go_on_with_letters(n: int)
    ensures
        0 <= n < 10 ==> hex_digit(n) as u32 == '0' as u32 + n,
        10 <= n < 16 ==> hex_digit(n) as u32 == 'a' as u32 + n - 10,
{
}

/// An error in words tells what kind it is, and ends in its message; of a wrong checksum it tells
/// the right one and then the one that was found.
pub proof fn errors_tell_their_messages(m: Seq<char>, expected: u32, actual: u32)
    ensures
        CoreErrorView::NtpAuthFailed.words() == "NNTP authentication failed"@,
        (CoreErrorView::YencCrc { expected, actual }).words() == "yEnc CRC mismatch: expected "@
            + hex(expected) + ", got "@ + hex(actual),
        CoreErrorView::Nntp(m).words() == "NNTP protocol error: "@ + m,
        CoreErrorView::NntpConnect(m).words() == "NNTP connection failed: "@ + m,
        CoreErrorView::Yenc(m).words() == "yEnc decode error: "@ + m,
        CoreErrorView::NzbParse(m).words() == "NZB parse error: "@ + m,
        CoreErrorView::Other(m).words() == "other: "@ + m,
{
}

} // verus!
