//! Limits on the metadata text. The JSON parser is handed a text only
//! where its brackets nest no deeper than `MAX_NESTING`, no key of an object
//! is longer than `MAX_KEY` bytes, no exponent has more than `MAX_EXPONENT`
//! digits, and no comma stands directly before the `}` of an object.

use vstd::prelude::*;

verus! {

/// The deepest that arrays and objects may nest.
pub const MAX_NESTING: u8 = 128;

/// The most bytes that may stand between the quotes of a key.
pub const MAX_KEY: u16 = 511;

/// The most digits that the exponent of a number may have.
pub const MAX_EXPONENT: u8 = 9;

/// Where a scan of a text stands behind some of its bytes.
#[derive(Clone, Copy, Debug, PartialEq, Eq, Structural)]
pub struct Scan {
    /// Inside a string: behind a quote that no later quote has closed.
    pub in_string: bool,
    /// Inside a string, directly behind a backslash that escapes the next
    /// byte.
    pub escaped: bool,
    /// The brackets that are open, outside strings.
    pub depth: u8,
    /// The bytes between the quotes of the string that is being read, or
    /// was read last, counted no further than `MAX_KEY + 1`.
    pub string_len: u16,
    /// The last byte outside strings that is not white space; the closing
    /// quote directly behind a string; 0 at the start.
    pub last: u8,
    /// Outside strings: 0 where no exponent is being read, 1 directly behind
    /// `e` or `E`, and 2 more than the digits read so far behind that.
    pub exponent: u8,
    /// Whether no limit has been passed yet.
    pub within: bool,
}

/// The scan before the first byte.
pub open spec fn start() -> Scan {
    Scan { in_string: false, escaped: false, depth: 0, string_len: 0, last: 0, exponent: 0, within: true }
}

/// Whether a byte is a decimal digit.
pub open spec fn is_digit_byte(byte: u8) -> bool {
    48 <= byte <= 57
}

/// Whether a byte is white space between the tokens of JSON: space, tab,
/// line feed or carriage return.
pub open spec fn is_space_byte(byte: u8) -> bool {
    byte == 32 || byte == 9 || byte == 10 || byte == 13
}

/// The scan with one more byte counted in its string.
pub open spec fn lengthened(scan: Scan) -> Scan {
    if scan.string_len <= MAX_KEY {
        (Scan { string_len: (scan.string_len + 1) as u16, ..scan })
    } else {
        scan
    }
}

/// The scan behind one more byte of a string: a backslash escapes the next
/// byte, and a quote that is not escaped closes the string.
pub open spec fn step_in_string(scan: Scan, byte: u8) -> Scan {
    if scan.escaped {
        (Scan { escaped: false, ..lengthened(scan) })
    } else if byte == 92 {
        (Scan { escaped: true, ..lengthened(scan) })
    } else if byte == 34 {
        (Scan { in_string: false, last: 34, ..scan })
    } else {
        lengthened(scan)
    }
}

/// The state of the exponent behind one more byte outside strings: `e` or
/// `E` starts one, a sign directly behind that goes on with it, and so
/// does every digit; `None` where the digit is one too many.
pub open spec fn exponent_after(exponent: u8, byte: u8) -> Option<u8> {
    if byte == 101 || byte == 69 {
        Some(1u8)
    } else if byte == 43 || byte == 45 {
        if exponent == 1 {
            Some(2u8)
        } else {
            Some(0u8)
        }
    } else if is_digit_byte(byte) {
        if exponent == 0 {
            Some(0u8)
        } else if exponent == 1 {
            Some(3u8)
        } else if exponent < MAX_EXPONENT + 2 {
            Some((exponent + 1) as u8)
        } else {
            None
        }
    } else {
        Some(0u8)
    }
}

/// Whether one more byte outside strings passes a limit: a bracket that
/// opens level `MAX_NESTING + 1`; a colon behind a string of more than
/// `MAX_KEY` bytes, which is then a key; a `}` with nothing but white space
/// between it and a comma; or one digit too many in an exponent.
pub open spec fn passes_limit(scan: Scan, byte: u8) -> bool {
    ||| (byte == 91 || byte == 123) && scan.depth >= MAX_NESTING
    ||| byte == 58 && scan.last == 34 && scan.string_len > MAX_KEY
    ||| byte == 125 && scan.last == 44
    ||| exponent_after(scan.exponent, byte) is None
}

/// The brackets that are open behind one more byte outside strings.
pub open spec fn depth_after(depth: u8, byte: u8) -> u8 {
    if (byte == 91 || byte == 123) && depth < MAX_NESTING {
        (depth + 1) as u8
    } else if (byte == 93 || byte == 125) && depth > 0 {
        (depth - 1) as u8
    } else {
        depth
    }
}

/// The scan behind one more byte outside strings.
pub open spec fn step_outside(scan: Scan, byte: u8) -> Scan {
    if passes_limit(scan, byte) {
        (Scan { within: false, ..scan })
    } else if byte == 34 {
        (Scan { in_string: true, string_len: 0, exponent: 0, ..scan })
    } else if is_space_byte(byte) {
        (Scan { exponent: 0, ..scan })
    } else {
        (Scan {
            depth: depth_after(scan.depth, byte),
            last: byte,
            exponent: exponent_after(scan.exponent, byte)->0,
            ..scan
        })
    }
}

/// The scan behind one more byte. A scan that has passed a limit stays as
/// it is.
pub open spec fn step(scan: Scan, byte: u8) -> Scan {
    if !scan.within {
        scan
    } else if scan.in_string {
        step_in_string(scan, byte)
    } else {
        step_outside(scan, byte)
    }
}

/// The scan behind all bytes of a text.
pub open spec fn scanned(text: Seq<u8>) -> Scan
    decreases text.len(),
{
    if text.len() == 0 {
        start()
    } else {
        step(scanned(text.drop_last()), text.last())
    }
}

/// Whether a text keeps within the limits: it has no more bytes than 32
/// bits count, and a scan of it passes no limit. Outside strings, then, at
/// no place more than `MAX_NESTING` brackets are open, no string of more
/// than `MAX_KEY` bytes is followed by a colon, no `e` or `E` is followed,
/// behind at most one sign, by more than `MAX_EXPONENT` digits, and no comma
/// is followed by `}` with only white space between them.
pub open spec fn within_limits(text: Seq<u8>) -> bool {
    text.len() <= 0xffff_ffff && scanned(text).within
}

/// Whether the counters of a scan are in their ranges.
pub open spec fn in_range(scan: Scan) -> bool {
    &&& scan.depth <= MAX_NESTING
    &&& scan.string_len <= MAX_KEY + 1
    &&& scan.exponent <= MAX_EXPONENT + 2
}

/// Advances the exponent state by one byte outside strings.
pub fn advance_exponent(exponent: u8, byte: u8) -> (r: Option<u8>)
    requires
        exponent <= MAX_EXPONENT + 2,
    ensures
        r == exponent_after(exponent, byte),
        r matches Some(next) ==> next <= MAX_EXPONENT + 2,
{
    if byte == 101 || byte == 69 {
        Some(1)
    } else if byte == 43 || byte == 45 {
        if exponent == 1 {
            Some(2)
        } else {
            Some(0)
        }
    } else if 48 <= byte && byte <= 57 {
        if exponent == 0 {
            Some(0)
        } else if exponent == 1 {
            Some(3)
        } else if exponent < MAX_EXPONENT + 2 {
            Some(exponent + 1)
        } else {
            None
        }
    } else {
        Some(0)
    }
}

/// Advances a scan by one byte.
pub fn advance(scan: Scan, byte: u8) -> (next: Scan)
    requires
        in_range(scan),
    ensures
        next == step(scan, byte),
        in_range(next),
{
    let mut next = scan;
    if !scan.within {
        return next;
    }
    if scan.in_string {
        if !scan.escaped && byte == 34 {
            next.in_string = false;
            next.last = 34;
            return next;
        }
        next.escaped = !scan.escaped && byte == 92;
        if scan.string_len <= MAX_KEY {
            next.string_len = scan.string_len + 1;
        }
        return next;
    }
    let exponent = advance_exponent(scan.exponent, byte);
    let opens = byte == 91 || byte == 123;
    let closes = byte == 93 || byte == 125;
    if (opens && scan.depth >= MAX_NESTING) || (byte == 58 && scan.last == 34 && scan.string_len > MAX_KEY)
        || (byte == 125 && scan.last == 44) {
        next.within = false;
        return next;
    }
    match exponent {
        None => {
            next.within = false;
        },
        Some(e) => {
            if byte == 34 {
                next.in_string = true;
                next.string_len = 0;
                next.exponent = 0;
            } else if byte == 32 || byte == 9 || byte == 10 || byte == 13 {
                next.exponent = 0;
            } else {
                if opens {
                    next.depth = scan.depth + 1;
                } else if closes && scan.depth > 0 {
                    next.depth = scan.depth - 1;
                }
                next.last = byte;
                next.exponent = e;
            }
        },
    }
    next
}

/// Tells whether a text keeps within the limits.
pub fn check_limits(text: &[u8]) -> (ok: bool)
    ensures
        ok == within_limits(text@),
{
    if text.len() > 0xffff_ffff {
        return false;
    }
    let mut scan = Scan {
        in_string: false,
        escaped: false,
        depth: 0,
        string_len: 0,
        last: 0,
        exponent: 0,
        within: true,
    };
    let mut i: usize = 0;
    assert(text@.take(0) =~= Seq::<u8>::empty());
    while i < text.len()
        invariant
            i <= text@.len(),
            scan == scanned(text@.take(i as int)),
            in_range(scan),
        decreases text@.len() - i,
    {
        assert(text@.take(i + 1).drop_last() =~= text@.take(i as int));
        scan = advance(scan, text[i]);
        i = i + 1;
    }
    assert(text@.take(text@.len() as int) =~= text@);
    scan.within
}

} // verus!
