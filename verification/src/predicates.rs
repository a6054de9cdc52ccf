//! Byte classes and scan predicates.
//!
//! A predicate answers, for the byte under the cursor and up to two bytes of
//! context (the byte just before it in the line and the byte just after it),
//! whether the byte still belongs to the field being scanned. The stateless
//! classes are plain functions; the two quoted-field predicates carry a small
//! counter and are built fresh for every field scan.

use vstd::prelude::*;

verus! {

/// True iff `x` is an ASCII digit (`'0'..='9'`).
pub open spec fn is_digit_byte(x: u8) -> bool {
    48 <= x <= 57
}

/// True iff `x` is a digit or `'.'`.
pub open spec fn is_digit_dot_byte(x: u8) -> bool {
    is_digit_byte(x) || x == 46
}

/// True iff `x` can occur in a client address: digits, `'.'`, `':'`,
/// or a lowercase letter (IPv4, IPv6 text form, hostnames).
pub open spec fn is_addr_byte(x: u8) -> bool {
    (48 <= x <= 58) || x == 46 || (97 <= x <= 122)
}

/// True iff `x` is a digit, `'.'` or `'-'`.
pub open spec fn is_digit_dot_minus_byte(x: u8) -> bool {
    is_digit_byte(x) || x == 46 || x == 45
}

/// The scan goes on unless the current byte is a space whose predecessor
/// was a digit or `'-'`.
pub open spec fn digit_or_none_continues(x: u8, y: u8) -> bool {
    !(x == 32 && (is_digit_byte(y) || y == 45))
}

/// True iff `x` is not a space.
pub open spec fn is_non_space_byte(x: u8) -> bool {
    x != 32
}

/// Byte class of digit fields (status code, bytes sent).
pub fn digital(x: u8, _y: u8) -> (r: bool)
    ensures
        r == is_digit_byte(x),
{
    48 <= x && x <= 57
}

/// Byte class of digits and dots.
pub fn digital_dot(x: u8, _y: u8) -> (r: bool)
    ensures
        r == is_digit_dot_byte(x),
{
    (48 <= x && x <= 57) || x == 46
}

/// Byte class of the client-address field.
pub fn digital_dot_colon(x: u8, _y: u8) -> (r: bool)
    ensures
        r == is_addr_byte(x),
{
    (48 <= x && x <= 58) || x == 46 || (97 <= x && x <= 122)
}

/// Byte class of digits, dots and minus signs.
pub fn digital_dot_minus(x: u8, _y: u8) -> (r: bool)
    ensures
        r == is_digit_dot_minus_byte(x),
{
    (48 <= x && x <= 57) || x == 46 || x == 45
}

/// Boundary test for a field of digits or `'-'`: the scan stops at a space
/// that follows a digit or `'-'`. `y` is the byte before `x` in the line.
pub fn digital_or_none_end(x: u8, y: u8) -> (r: bool)
    ensures
        r == digit_or_none_continues(x, y),
{
    !(x == 32 && ((48 <= y && y <= 57) || y == 45))
}

/// Byte class of space-free fields.
pub fn not_space(x: u8, _y: u8) -> (r: bool)
    ensures
        r == is_non_space_byte(x),
{
    x != 32
}

/// A scan predicate: one byte class or boundary rule, with the counter the
/// two stateful rules need. A value is made fresh for each field scan.
#[derive(Clone, Copy)]
pub enum Pred {
    /// Digits only.
    Digits,
    /// Digits and dots.
    DigitsDot,
    /// Client-address bytes.
    AddressChars,
    /// Digits, dots and minus signs.
    DigitsDotMinus,
    /// Stops at a space preceded by a digit or `'-'`.
    DigitOrNoneEnd,
    /// Anything but a space.
    NonSpace,
    /// Stops at a `']'` that is followed by a space.
    BracketClose,
    /// Stops at the second `'"'` seen since the scan began; `seen` counts
    /// the quotes met so far.
    QuoteEnd { seen: u64 },
    /// Stops at a `'"'` between an HTTP-version digit (`'0'` or `'1'`) and a
    /// space, or at the third space; `spaces` counts the spaces met so far.
    ReqLineEnd { spaces: u64 },
}

/// A predicate whose counters have not advanced yet.
pub open spec fn pred_fresh(p: Pred) -> bool {
    match p {
        Pred::QuoteEnd { seen } => seen == 0,
        Pred::ReqLineEnd { spaces } => spaces == 0,
        _ => true,
    }
}

/// What `advance` answers, given the predicate's current counters: `true`
/// to keep scanning, `false` to end the field at this byte.
pub open spec fn pred_decision(p: Pred, x: u8, prev: u8, next: u8) -> bool {
    match p {
        Pred::Digits => is_digit_byte(x),
        Pred::DigitsDot => is_digit_dot_byte(x),
        Pred::AddressChars => is_addr_byte(x),
        Pred::DigitsDotMinus => is_digit_dot_minus_byte(x),
        Pred::DigitOrNoneEnd => digit_or_none_continues(x, prev),
        Pred::NonSpace => is_non_space_byte(x),
        Pred::BracketClose => !(x == 93 && next == 32),
        Pred::QuoteEnd { seen } => !(x == 34 && seen >= 1),
        Pred::ReqLineEnd { spaces } => !((x == 34 && next == 32 && (prev == 48 || prev == 49))
            || (x == 32 && spaces >= 2)),
    }
}

/// How one step of `advance` moves the counters.
pub open spec fn pred_step(p: Pred, x: u8) -> Pred {
    match p {
        Pred::QuoteEnd { seen } => Pred::QuoteEnd {
            seen: if x == 34 && seen < 2 { (seen + 1) as u64 } else { seen },
        },
        Pred::ReqLineEnd { spaces } => Pred::ReqLineEnd {
            spaces: if x == 32 && spaces < 3 { (spaces + 1) as u64 } else { spaces },
        },
        _ => p,
    }
}

impl Pred {
    /// One step of the predicate: `x` is the byte under the cursor, `prev`
    /// the byte before it in the line (0 at the line start), `next` the byte
    /// after it (0 at the line end). Returns whether the scan continues.
    pub fn advance(&mut self, x: u8, prev: u8, next: u8) -> (r: bool)
        ensures
            r == pred_decision(*old(self), x, prev, next),
            *final(self) == pred_step(*old(self), x),
    {
        match self {
            Pred::Digits => 48 <= x && x <= 57,
            Pred::DigitsDot => (48 <= x && x <= 57) || x == 46,
            Pred::AddressChars => (48 <= x && x <= 58) || x == 46 || (97 <= x && x <= 122),
            Pred::DigitsDotMinus => (48 <= x && x <= 57) || x == 46 || x == 45,
            Pred::DigitOrNoneEnd => !(x == 32 && ((48 <= prev && prev <= 57) || prev == 45)),
            Pred::NonSpace => x != 32,
            Pred::BracketClose => !(x == 93 && next == 32),
            Pred::QuoteEnd { seen } => {
                let stop = x == 34 && *seen >= 1;
                if x == 34 && *seen < 2 {
                    *seen = *seen + 1;
                }
                !stop
            },
            Pred::ReqLineEnd { spaces } => {
                let stop = (x == 34 && next == 32 && (prev == 48 || prev == 49))
                    || (x == 32 && *spaces >= 2);
                if x == 32 && *spaces < 3 {
                    *spaces = *spaces + 1;
                }
                !stop
            },
        }
    }
}

} // verus!
