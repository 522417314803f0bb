//! Byte classification: which bytes may appear inside a URL span, which may
//! end one, and the value of a hexadecimal digit.

use vstd::prelude::*;

verus! {

/// The value stored in a hex table for a byte that is not a hex digit.
pub const NOT_HEX: u8 = 255;

/// ASCII letter or digit.
pub open spec fn is_alnum(b: u8) -> bool {
    ||| 0x30 <= b <= 0x39
    ||| 0x41 <= b <= 0x5a
    ||| 0x61 <= b <= 0x7a
}

/// The punctuation accepted at the end of a URL: `- + & @ # / % = ~ _ |`.
pub open spec fn is_url_end_symbol(b: u8) -> bool {
    ||| b == 0x2d
    ||| b == 0x2b
    ||| b == 0x26
    ||| b == 0x40
    ||| b == 0x23
    ||| b == 0x2f
    ||| b == 0x25
    ||| b == 0x3d
    ||| b == 0x7e
    ||| b == 0x5f
    ||| b == 0x7c
}

/// The punctuation accepted inside a URL: the end symbols and `? ! : , . ;`.
pub open spec fn is_url_symbol(b: u8) -> bool {
    ||| is_url_end_symbol(b)
    ||| b == 0x3f
    ||| b == 0x21
    ||| b == 0x3a
    ||| b == 0x2c
    ||| b == 0x2e
    ||| b == 0x3b
}

/// A byte that may appear inside a URL span.
pub open spec fn is_url_char(b: u8) -> bool {
    is_alnum(b) || is_url_symbol(b)
}

/// A byte that may be the last byte of a URL.
pub open spec fn is_url_end_char(b: u8) -> bool {
    is_alnum(b) || is_url_end_symbol(b)
}

/// ASCII hexadecimal digit, either case.
pub open spec fn is_hex_digit(b: u8) -> bool {
    ||| 0x30 <= b <= 0x39
    ||| 0x41 <= b <= 0x46
    ||| 0x61 <= b <= 0x66
}

/// Numeric value of a hex digit, `NOT_HEX` for any other byte.
pub open spec fn hex_digit_value(b: u8) -> u8 {
    if 0x30 <= b <= 0x39 {
        (b - 0x30) as u8
    } else if 0x41 <= b <= 0x46 {
        (b - 0x41 + 10) as u8
    } else if 0x61 <= b <= 0x66 {
        (b - 0x61 + 10) as u8
    } else {
        NOT_HEX
    }
}

/// Builds the 256-entry membership table of the letters, the digits and the
/// bytes of `symbols`.
pub fn gen_url_map(symbols: &[u8]) -> (map: [bool; 256])
    ensures
        forall|b: u8| #[trigger] map[b as int] == (is_alnum(b) || symbols@.contains(b)),
{
    let mut map: [bool; 256] = [false; 256];
    let mut c: usize = 0;
    while c < 256
        invariant
            c <= 256,
            forall|b: u8| (b as int) < c ==> #[trigger] map[b as int] == is_alnum(b),
            forall|b: u8| (b as int) >= c ==> #[trigger] map[b as int] == false,
        decreases 256 - c,
    {
        let alnum = (0x30 <= c && c <= 0x39) || (0x41 <= c && c <= 0x5a) || (0x61 <= c && c <= 0x7a);
        map[c] = alnum;
        c += 1;
    }
    let mut i: usize = 0;
    while i < symbols.len()
        invariant
            i <= symbols.len(),
            forall|b: u8| #[trigger]
                map[b as int] == (is_alnum(b) || symbols@.take(i as int).contains(b)),
        decreases symbols.len() - i,
    {
        let s = symbols[i];
        map[s as usize] = true;
        proof {
            let before = symbols@.take(i as int);
            let after = symbols@.take(i + 1);
            assert(after =~= before.push(s));
            assert forall|b: u8| after.contains(b) == (before.contains(b) || b == s) by {
                if before.contains(b) {
                    let k = choose|k: int| 0 <= k < before.len() && before[k] == b;
                    assert(after[k] == b);
                }
                if b == s {
                    assert(after[i as int] == b);
                }
            }
        }
        i += 1;
    }
    proof {
        assert(symbols@.take(symbols.len() as int) =~= symbols@);
    }
    map
}

/// Builds the 256-entry table of hex digit values.
pub fn gen_hex_map() -> (map: [u8; 256])
    ensures
        forall|b: u8| #[trigger] map[b as int] == hex_digit_value(b),
{
    let mut map: [u8; 256] = [NOT_HEX; 256];
    let mut i: u8 = 0;
    while i < 10
        invariant
            i <= 10,
            forall|b: u8|
                #[trigger] map[b as int] == (if 0x30 <= b < 0x30 + i {
                    (b - 0x30) as u8
                } else {
                    NOT_HEX
                }),
        decreases 10 - i,
    {
        map[(0x30 + i) as usize] = i;
        i += 1;
    }
    let mut i: u8 = 0;
    while i < 6
        invariant
            i <= 6,
            forall|b: u8|
                #[trigger] map[b as int] == (if 0x30 <= b <= 0x39 {
                    (b - 0x30) as u8
                } else if 0x41 <= b < 0x41 + i {
                    (b - 0x41 + 10) as u8
                } else if 0x61 <= b < 0x61 + i {
                    (b - 0x61 + 10) as u8
                } else {
                    NOT_HEX
                }),
        decreases 6 - i,
    {
        map[(0x61 + i) as usize] = 10 + i;
        map[(0x41 + i) as usize] = 10 + i;
        i += 1;
    }
    map
}

/// The three lookup tables of the decoder, computed once and shared by every
/// decode call made with the same context.
pub struct CharTables {
    url_char: [bool; 256],
    url_end_char: [bool; 256],
    hex: [u8; 256],
}

impl CharTables {
    /// Every entry of every table agrees with the classification it stands for.
    pub closed spec fn wf(&self) -> bool {
        &&& forall|b: u8| #[trigger] self.url_char[b as int] == is_url_char(b)
        &&& forall|b: u8| #[trigger] self.url_end_char[b as int] == is_url_end_char(b)
        &&& forall|b: u8| #[trigger] self.hex[b as int] == hex_digit_value(b)
    }

    /// Computes the tables.
    pub fn new() -> (tables: CharTables)
        ensures
            tables.wf(),
    {
        let end_symbols: [u8; 11] = [0x2d, 0x2b, 0x26, 0x40, 0x23, 0x2f, 0x25, 0x3d, 0x7e, 0x5f, 0x7c];
        let symbols: [u8; 17] = [
            0x2d, 0x2b, 0x26, 0x40, 0x23, 0x2f, 0x25, 0x3f, 0x3d, 0x7e, 0x5f, 0x7c, 0x21, 0x3a,
            0x2c, 0x2e, 0x3b,
        ];
        let url_char = gen_url_map(symbols.as_slice());
        let url_end_char = gen_url_map(end_symbols.as_slice());
        let hex = gen_hex_map();
        proof {
            let s = symbols@;
            let e = end_symbols@;
            assert forall|b: u8| s.contains(b) == is_url_symbol(b) by {
                if is_url_symbol(b) {
                    let k = choose|k: int| 0 <= k < 17 && s[k] == b;
                    assert(s[k] == b);
                }
            }
            assert forall|b: u8| e.contains(b) == is_url_end_symbol(b) by {
                if is_url_end_symbol(b) {
                    let k = choose|k: int| 0 <= k < 11 && e[k] == b;
                    assert(e[k] == b);
                }
            }
        }
        CharTables { url_char, url_end_char, hex }
    }

    /// Whether `b` may appear inside a URL span.
    pub fn is_url_char(&self, b: u8) -> (r: bool)
        requires
            self.wf(),
        ensures
            r == is_url_char(b),
    {
        self.url_char[b as usize]
    }

    /// Whether `b` may be the last byte of a URL.
    pub fn is_url_end_char(&self, b: u8) -> (r: bool)
        requires
            self.wf(),
        ensures
            r == is_url_end_char(b),
    {
        self.url_end_char[b as usize]
    }
}

/// Whether `c` is a hexadecimal digit.
pub fn is_hex(tables: &CharTables, c: u8) -> (r: bool)
    requires
        tables.wf(),
    ensures
        r == is_hex_digit(c),
{
    tables.hex[c as usize] != NOT_HEX
}

/// The value of the hexadecimal digit `c`, `NOT_HEX` if it is none.
pub fn from_hex(tables: &CharTables, c: u8) -> (v: u8)
    requires
        tables.wf(),
    ensures
        v == hex_digit_value(c),
        is_hex_digit(c) ==> v < 16,
{
    tables.hex[c as usize]
}

} // verus!
