//! Times in seconds, and the shapes in which a text writes one.
//!
//! A time is a binary floating-point number of 64 bits. The library never
//! computes with such numbers: it holds the 64 bits of a time's encoding
//! and only compares two of them, which needs the bits alone.

use vstd::prelude::*;
use vstd::string::*;
use crate::text::{fields, split, texts, trim, trimmed};

verus! {

/// The bit that holds the sign of an encoded number.
pub const SIGN_BIT: u64 = 0x8000_0000_0000_0000;

/// The encoding of positive infinity. A larger magnitude encodes no number.
pub const INFINITY_BITS: u64 = 0x7ff0_0000_0000_0000;

/// A time in seconds, as the bits of its encoding.
///
/// `==` compares the bits. It tells two encodings of zero apart, which
/// `at_most` does not.
#[derive(Clone, Copy, Debug, PartialEq, Eq)]
pub struct Seconds {
    pub bits: u64,
}

impl Seconds {
    /// The encoding without its sign.
    pub open spec fn magnitude(self) -> int {
        if self.bits >= SIGN_BIT {
            self.bits - SIGN_BIT
        } else {
            self.bits as int
        }
    }

    /// Whether the bits encode a number, finite or infinite.
    pub open spec fn is_number(self) -> bool {
        self.magnitude() <= INFINITY_BITS
    }

    /// The place of the encoded number in the order of all numbers: a
    /// number is smaller than another exactly when its rank is. Both zeros
    /// have rank 0.
    pub open spec fn rank(self) -> int {
        if self.bits >= SIGN_BIT {
            -self.magnitude()
        } else {
            self.magnitude()
        }
    }

    /// Whether this time is at most `other`. Nothing compares with bits
    /// that encode no number.
    pub open spec fn at_most(self, other: Seconds) -> bool {
        self.is_number() && other.is_number() && self.rank() <= other.rank()
    }

    /// Whether this time is above zero.
    pub open spec fn positive(self) -> bool {
        self.is_number() && self.rank() > 0
    }

    /// The time with the encoding `bits`.
    pub fn from_bits(bits: u64) -> (r: Seconds)
        ensures
            r.bits == bits,
    {
        Seconds { bits }
    }

    /// The encoding of this time.
    pub fn to_bits(&self) -> (r: u64)
        ensures
            r == self.bits,
    {
        self.bits
    }

    /// Whether this time is at most `other`.
    pub fn le(&self, other: &Seconds) -> (r: bool)
        ensures
            r == self.at_most(*other),
    {
        let negative = self.bits >= SIGN_BIT;
        let other_negative = other.bits >= SIGN_BIT;
        let size: u64 = if negative {
            self.bits - SIGN_BIT
        } else {
            self.bits
        };
        let other_size: u64 = if other_negative {
            other.bits - SIGN_BIT
        } else {
            other.bits
        };
        if size > INFINITY_BITS || other_size > INFINITY_BITS {
            false
        } else if negative {
            if other_negative {
                size >= other_size
            } else {
                true
            }
        } else if other_negative {
            size == 0 && other_size == 0
        } else {
            size <= other_size
        }
    }

    /// Whether this time is above zero.
    pub fn is_positive(&self) -> (r: bool)
        ensures
            r == self.positive(),
    {
        0 < self.bits && self.bits <= INFINITY_BITS
    }
}

/// The shape of a text that may write a time.
pub enum TimeShape {
    /// The text writes no time.
    Absent,
    /// Minutes and seconds, which stood on the two sides of one colon.
    MinutesSeconds { minutes: Seq<char>, seconds: Seq<char> },
    /// One number of seconds.
    Decimal { seconds: Seq<char> },
}

/// What a text cell says about a time, before any number is read from it.
#[derive(Clone, Debug, PartialEq, Eq)]
pub enum TimeText {
    /// The text writes no time.
    Absent,
    /// Minutes and seconds, which stood on the two sides of one colon. The
    /// time is sixty times the first number plus the second.
    MinutesSeconds { minutes: String, seconds: String },
    /// One number of seconds.
    Decimal { seconds: String },
}

impl View for TimeText {
    type V = TimeShape;

    open spec fn view(&self) -> TimeShape {
        match *self {
            TimeText::Absent => TimeShape::Absent,
            TimeText::MinutesSeconds { minutes, seconds } => TimeShape::MinutesSeconds {
                minutes: minutes@,
                seconds: seconds@,
            },
            TimeText::Decimal { seconds } => TimeShape::Decimal { seconds: seconds@ },
        }
    }
}

/// Whether `s` is the word `nan`, in upper or lower case.
pub open spec fn is_nan_word(s: Seq<char>) -> bool {
    &&& s.len() == 3
    &&& (s[0] == 'n' || s[0] == 'N')
    &&& (s[1] == 'a' || s[1] == 'A')
    &&& (s[2] == 'n' || s[2] == 'N')
}

/// The shape of the time that `raw` writes.
///
/// The text is trimmed. An empty text and the word `nan` write no time. A
/// text with one colon writes minutes and seconds; with more than one, no
/// time. Any other text is one number of seconds.
pub open spec fn time_shape(raw: Seq<char>) -> TimeShape {
    let text = trimmed(raw);
    let parts = fields(text, ':');
    if text.len() == 0 || is_nan_word(text) {
        TimeShape::Absent
    } else if parts.len() == 1 {
        TimeShape::Decimal { seconds: text }
    } else if parts.len() == 2 {
        TimeShape::MinutesSeconds { minutes: parts[0], seconds: parts[1] }
    } else {
        TimeShape::Absent
    }
}

/// Whether `s` is the word `nan`, in upper or lower case.
pub fn is_nan_text(s: &str) -> (r: bool)
    ensures
        r == is_nan_word(s@),
{
    s.unicode_len() == 3 && (s.get_char(0) == 'n' || s.get_char(0) == 'N') && (s.get_char(1) == 'a'
        || s.get_char(1) == 'A') && (s.get_char(2) == 'n' || s.get_char(2) == 'N')
}

/// Says in which shape `raw` writes a time. Which numbers its parts write
/// is left to the caller.
pub fn time_text(raw: &str) -> (r: TimeText)
    ensures
        r@ == time_shape(raw@),
{
    let text = trim(raw);
    if text.unicode_len() == 0 || is_nan_text(text) {
        return TimeText::Absent;
    }
    let mut parts = split(text, ':');
    assert(texts(parts@).len() == parts.len());
    if parts.len() == 1 {
        TimeText::Decimal { seconds: String::from_str(text) }
    } else if parts.len() == 2 {
        assert(texts(parts@)[0] == parts@[0]@);
        assert(texts(parts@)[1] == parts@[1]@);
        let seconds = parts.pop().unwrap();
        let minutes = parts.pop().unwrap();
        TimeText::MinutesSeconds { minutes, seconds }
    } else {
        TimeText::Absent
    }
}

} // verus!
