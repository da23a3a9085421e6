//! Fixed-width content-hash identifiers and their hexadecimal text form.

use vstd::prelude::*;

verus! {

/// Number of bytes in a binary object identifier.
pub const ID_LEN: usize = 20;

/// Number of characters in the hexadecimal text form of an identifier.
pub const HEX_LEN: usize = 40;

/// Construction-time validation failure: wrong length, or non-hex text.
#[derive(Clone, Copy, Debug, PartialEq, Eq, Structural)]
pub struct MalformedIdentifier;

/// An opaque, comparable value addressing a stored object: a fixed-width
/// binary content hash. Immutable once constructed.
#[derive(Debug)]
pub struct Identifier {
    bytes: Vec<u8>,
}

impl View for Identifier {
    type V = Seq<u8>;

    closed spec fn view(&self) -> Seq<u8> {
        self.bytes@
    }
}

/// True for the bytes that denote a hexadecimal digit in ASCII.
pub open spec fn is_hex_digit(c: u8) -> bool {
    ||| 48 <= c <= 57
    ||| 97 <= c <= 102
    ||| 65 <= c <= 70
}

/// Numeric value of an ASCII hexadecimal digit.
pub open spec fn hex_digit_value(c: u8) -> int {
    if 48 <= c <= 57 {
        c - 48
    } else if 97 <= c <= 102 {
        c - 87
    } else {
        c - 55
    }
}

/// The byte denoted by a pair of hexadecimal digits.
pub open spec fn hex_pair_value(hi: u8, lo: u8) -> int {
    hex_digit_value(hi) * 16 + hex_digit_value(lo)
}

/// Lower-case ASCII hexadecimal digit for a value below 16.
pub open spec fn hex_digit_char(v: int) -> u8 {
    if v < 10 {
        (48 + v) as u8
    } else {
        (87 + v) as u8
    }
}

impl Identifier {
    /// A well-formed identifier holds exactly [`ID_LEN`] bytes.
    pub open spec fn wf(&self) -> bool {
        self@.len() == ID_LEN
    }

    /// Construct from raw bytes; fails unless exactly [`ID_LEN`] bytes are given.
    pub fn from_bytes(bytes: Vec<u8>) -> (r: Result<Identifier, MalformedIdentifier>)
        ensures
            bytes@.len() == ID_LEN ==> (r matches Ok(id) && id@ == bytes@ && id.wf()),
            bytes@.len() != ID_LEN ==> r is Err,
    {
        if bytes.len() == ID_LEN {
            Ok(Identifier { bytes })
        } else {
            Err(MalformedIdentifier)
        }
    }

    /// The raw bytes of the identifier.
    pub fn as_bytes(&self) -> (r: &Vec<u8>)
        ensures
            r@ == self@,
    {
        &self.bytes
    }

    /// Byte-exact equality of two identifiers.
    pub fn eq_id(&self, other: &Identifier) -> (r: bool)
        ensures
            r == (self@ == other@),
    {
        if self.bytes.len() != other.bytes.len() {
            assert(self@.len() != other@.len());
            return false;
        }
        let n = self.bytes.len();
        let mut i: usize = 0;
        while i < n
            invariant
                n == self@.len(),
                n == other@.len(),
                i <= n,
                forall|j: int| 0 <= j < i ==> self@[j] == other@[j],
            decreases n - i,
        {
            if self.bytes[i] != other.bytes[i] {
                return false;
            }
            i += 1;
        }
        assert(self@ =~= other@);
        true
    }
}

impl Clone for Identifier {
    /// The clone denotes the same content address.
    fn clone(&self) -> (r: Self)
        ensures
            r@ == self@,
    {
        let mut copy: Vec<u8> = Vec::new();
        let n = self.bytes.len();
        let mut i: usize = 0;
        while i < n
            invariant
                n == self@.len(),
                i <= n,
                copy@ == self@.take(i as int),
            decreases n - i,
        {
            copy.push(self.bytes[i]);
            assert(copy@ =~= self@.take(i + 1));
            i += 1;
        }
        assert(copy@ =~= self@);
        Identifier { bytes: copy }
    }
}

impl PartialEq for Identifier {
    fn eq(&self, other: &Identifier) -> (r: bool) {
        self.eq_id(other)
    }
}

impl vstd::std_specs::cmp::PartialEqSpecImpl for Identifier {
    open spec fn obeys_eq_spec() -> bool {
        true
    }

    open spec fn eq_spec(&self, other: &Identifier) -> bool {
        self@ == other@
    }
}

impl Identifier {
    /// Construct from hexadecimal text; fails on wrong length or non-hex bytes.
    pub fn from_hex(hex: &Vec<u8>) -> (r: Result<Identifier, MalformedIdentifier>)
        ensures
            r is Ok <==> (hex@.len() == HEX_LEN && forall|i: int|
                0 <= i < HEX_LEN ==> is_hex_digit(hex@[i])),
            r matches Ok(id) ==> id.wf() && forall|i: int|
                0 <= i < ID_LEN ==> id@[i] == hex_pair_value(hex@[2 * i], hex@[2 * i + 1]),
    {
        if hex.len() != HEX_LEN {
            return Err(MalformedIdentifier);
        }
        let mut bytes: Vec<u8> = Vec::new();
        let mut i: usize = 0;
        while i < ID_LEN
            invariant
                hex@.len() == HEX_LEN,
                i <= ID_LEN,
                bytes@.len() == i,
                forall|j: int| 0 <= j < 2 * i ==> is_hex_digit(hex@[j]),
                forall|j: int| 0 <= j < i ==> bytes@[j] == hex_pair_value(
                    hex@[2 * j],
                    hex@[2 * j + 1],
                ),
            decreases ID_LEN - i,
        {
            let hi = match hex_value_of(hex[2 * i]) {
                Some(v) => v,
                None => {
                    return Err(MalformedIdentifier);
                },
            };
            let lo = match hex_value_of(hex[2 * i + 1]) {
                Some(v) => v,
                None => {
                    return Err(MalformedIdentifier);
                },
            };
            bytes.push(hi * 16 + lo);
            i += 1;
        }
        Ok(Identifier { bytes })
    }

    /// Canonical lower-case hexadecimal text form.
    pub fn to_hex(&self) -> (r: Vec<u8>)
        requires
            self.wf(),
        ensures
            r@.len() == HEX_LEN,
            forall|i: int| 0 <= i < ID_LEN ==> {
                &&& r@[2 * i] == hex_digit_char(self@[i] as int / 16)
                &&& r@[2 * i + 1] == hex_digit_char(self@[i] as int % 16)
            },
    {
        let mut out: Vec<u8> = Vec::new();
        let mut i: usize = 0;
        while i < ID_LEN
            invariant
                self.wf(),
                i <= ID_LEN,
                out@.len() == 2 * i,
                forall|j: int| 0 <= j < i ==> {
                    &&& out@[2 * j] == hex_digit_char(self@[j] as int / 16)
                    &&& out@[2 * j + 1] == hex_digit_char(self@[j] as int % 16)
                },
            decreases ID_LEN - i,
        {
            let b = self.bytes[i];
            let hi = b / 16;
            let lo = b % 16;
            out.push(if hi < 10 {
                48 + hi
            } else {
                87 + hi
            });
            out.push(if lo < 10 {
                48 + lo
            } else {
                87 + lo
            });
            i += 1;
        }
        out
    }
}

/// Numeric value of one hexadecimal byte, or `None` for any other byte.
fn hex_value_of(c: u8) -> (r: Option<u8>)
    ensures
        r is Some <==> is_hex_digit(c),
        r matches Some(v) ==> v == hex_digit_value(c) && v < 16,
{
    if 48 <= c && c <= 57 {
        Some(c - 48)
    } else if 97 <= c && c <= 102 {
        Some(c - 87)
    } else if 65 <= c && c <= 70 {
        Some(c - 55)
    } else {
        None
    }
}

} // verus!
