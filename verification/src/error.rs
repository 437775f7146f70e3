//! Errors of the builders, the allocators and the buffers.
use vstd::prelude::*;
use vstd::string::*;

verus! {

/// Allocation failed.
#[derive(Debug, Clone, Copy, PartialEq, Eq, Structural)]
pub enum AllocError {
    /// All slots are in use.
    ArenaFull,
}

impl AllocError {
    /// The text of the error.
    pub open spec fn text(self) -> Seq<char> {
        "arena is full"@
    }

    /// The error as a message for people.
    pub fn to_string(&self) -> (r: String)
        ensures
            r@ == self.text(),
            r@ == "arena is full"@,
    {
        String::from_str("arena is full")
    }
}

/// Builder configuration error.
#[derive(Debug, Clone, Copy, PartialEq, Eq, Structural)]
pub enum BuildError {
    /// The total arena size overflows `usize` or cannot be allocated at all.
    SizeOverflow,
    /// Alignment is not a power of 2.
    InvalidAlignment,
    /// Buddy arena geometry is invalid.
    InvalidGeometry,
    /// Requested slot size exceeds backing memory length.
    SlotSizeExceedsBacking,
    /// No usable slots or blocks fit in the provided backing memory.
    ZeroUsableSlots,
    /// No region was provided to `from_raw`.
    NullPointer,
}

impl BuildError {
    /// The text of the error.
    pub open spec fn text(self) -> Seq<char> {
        match self {
            BuildError::SizeOverflow => "total arena size overflows usize"@,
            BuildError::InvalidAlignment => "alignment must be a power of 2"@,
            BuildError::InvalidGeometry =>
                "buddy arena geometry must be a power-of-two multiple of min block size"@,
            BuildError::SlotSizeExceedsBacking =>
                "requested slot size exceeds backing memory length"@,
            BuildError::ZeroUsableSlots => "no usable slots fit in the provided backing memory"@,
            BuildError::NullPointer => "null pointer provided to from_raw"@,
        }
    }

    /// The error as a message for people.
    pub fn to_string(&self) -> (r: String)
        ensures
            r@ == self.text(),
            self is SizeOverflow ==> r@ == "total arena size overflows usize"@,
            self is InvalidAlignment ==> r@ == "alignment must be a power of 2"@,
            self is InvalidGeometry ==> r@
                == "buddy arena geometry must be a power-of-two multiple of min block size"@,
            self is SlotSizeExceedsBacking ==> r@
                == "requested slot size exceeds backing memory length"@,
            self is ZeroUsableSlots ==> r@ == "no usable slots fit in the provided backing memory"@,
            self is NullPointer ==> r@ == "null pointer provided to from_raw"@,
    {
        match self {
            BuildError::SizeOverflow => String::from_str("total arena size overflows usize"),
            BuildError::InvalidAlignment => String::from_str("alignment must be a power of 2"),
            BuildError::InvalidGeometry => String::from_str(
                "buddy arena geometry must be a power-of-two multiple of min block size",
            ),
            BuildError::SlotSizeExceedsBacking => String::from_str(
                "requested slot size exceeds backing memory length",
            ),
            BuildError::ZeroUsableSlots => String::from_str(
                "no usable slots fit in the provided backing memory",
            ),
            BuildError::NullPointer => String::from_str("null pointer provided to from_raw"),
        }
    }
}

/// Buffer capacity exceeded.
#[derive(Debug, Clone, Copy, PartialEq, Eq, Structural)]
pub struct BufferFullError {
    /// Bytes remaining in the buffer.
    pub remaining: usize,
    /// Bytes that were requested.
    pub requested: usize,
}

impl BufferFullError {
    /// The text of the error.
    pub open spec fn text(self) -> Seq<char> {
        "buffer full: "@ + decimal(self.requested as nat) + " bytes requested, "@ + decimal(
            self.remaining as nat,
        ) + " bytes remaining"@
    }

    /// The error as a message for people.
    pub fn to_string(&self) -> (r: String)
        ensures
            r@ == self.text(),
            r@ == "buffer full: "@ + decimal(self.requested as nat) + " bytes requested, "@
                + decimal(self.remaining as nat) + " bytes remaining"@,
    {
        let mut text = String::from_str("buffer full: ");
        push_decimal(&mut text, self.requested);
        text.append(" bytes requested, ");
        push_decimal(&mut text, self.remaining);
        text.append(" bytes remaining");
        text
    }
}

/// The decimal digit of a number below 10.
pub open spec fn digit(d: nat) -> char {
    if d == 0 {
        '0'
    } else if d == 1 {
        '1'
    } else if d == 2 {
        '2'
    } else if d == 3 {
        '3'
    } else if d == 4 {
        '4'
    } else if d == 5 {
        '5'
    } else if d == 6 {
        '6'
    } else if d == 7 {
        '7'
    } else if d == 8 {
        '8'
    } else {
        '9'
    }
}

/// `n` in decimal, without leading zeros.
pub open spec fn decimal(n: nat) -> Seq<char>
    decreases n,
{
    if n < 10 {
        seq![digit(n)]
    } else {
        decimal(n / 10).push(digit(n % 10))
    }
}

/// Appends the decimal digits of `n`.
pub(crate) fn push_decimal(text: &mut String, n: usize)
    ensures
        final(text)@ == old(text)@ + decimal(n as nat),
    decreases n,
{
    if n >= 10 {
        push_decimal(text, n / 10);
    }
    let ghost before = text@;
    let d: usize = n % 10;
    proof {
        reveal_strlit("0");
        reveal_strlit("1");
        reveal_strlit("2");
        reveal_strlit("3");
        reveal_strlit("4");
        reveal_strlit("5");
        reveal_strlit("6");
        reveal_strlit("7");
        reveal_strlit("8");
        reveal_strlit("9");
    }
    let s: &str = match d {
        0 => "0",
        1 => "1",
        2 => "2",
        3 => "3",
        4 => "4",
        5 => "5",
        6 => "6",
        7 => "7",
        8 => "8",
        _ => "9",
    };
    assert(s@ =~= seq![digit(d as nat)]);
    text.append(s);
    assert(text@ =~= old(text)@ + decimal(n as nat));
}

/// The number that a sequence of decimal digits stands for.
pub open spec fn reads_as(text: Seq<char>) -> int
    decreases text.len(),
{
    if text.len() == 0 {
        0
    } else {
        10 * reads_as(text.drop_last()) + (text.last() as int - '0' as int)
    }
}

/// A number in decimal consists of digits, starts with none that is superfluous
/// and reads back as the number.
pub proof fn law_decimals_read_back(n: nat)
    ensures
        reads_as(decimal(n)) == n,
        decimal(n).len() > 0,
        n > 0 ==> decimal(n)[0] != '0',
        n == 0 ==> decimal(n).len() == 1,
        forall|i: int| 0 <= i < decimal(n).len() ==> '0' <= #[trigger] decimal(n)[i] <= '9',
    decreases n,
{
    if n < 10 {
        let text = decimal(n);
        assert(text.drop_last() =~= Seq::empty());
        assert(reads_as(text.drop_last()) == 0);
        assert(text.last() as int - '0' as int == n);
    } else {
        let rest = decimal(n / 10);
        law_decimals_read_back(n / 10);
        assert(decimal(n).drop_last() =~= rest);
        assert(decimal(n).last() as int - '0' as int == n % 10);
    }
}

} // verus!
