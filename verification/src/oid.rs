//! Commit identifiers.
//!
//! A commit id is a 20-byte content-addressed hash. Hooks report ids as
//! hexadecimal text, where the all-zero id is a sentinel meaning
//! "absent/deleted". The two flavors are kept apart at the type level:
//! [`NonZeroOid`] always names a real object, [`MaybeZeroOid`] may be the
//! zero sentinel.

use vstd::prelude::*;

use crate::bytes::clone_bytes;
use crate::CoreError;

verus! {

/// Number of bytes in an object id.
pub const OID_NUM_BYTES: usize = 20;

/// Whether `c` is an ASCII hexadecimal digit.
pub open spec fn is_hex_digit(c: u8) -> bool {
    (48 <= c <= 57) || (97 <= c <= 102) || (65 <= c <= 70)
}

/// Numeric value of an ASCII hexadecimal digit (0 for other bytes).
pub open spec fn hex_val(c: u8) -> u8 {
    if 48 <= c <= 57 {
        (c - 48) as u8
    } else if 97 <= c <= 102 {
        (c - 87) as u8
    } else if 65 <= c <= 70 {
        (c - 55) as u8
    } else {
        0
    }
}

/// Lowercase hexadecimal digit for a value below 16.
pub open spec fn hex_char(n: u8) -> u8 {
    if n < 10 {
        (n + 48) as u8
    } else {
        (n + 87) as u8
    }
}

/// A hexadecimal object-id field: between 1 and 40 hex digits.
/// Shorter input denotes an id whose remaining bytes are zero.
pub open spec fn valid_hex_oid(s: Seq<u8>) -> bool {
    1 <= s.len() <= 40 && (forall|i: int| 0 <= i < s.len() ==> is_hex_digit(s[i]))
}

/// The nibble at position `i` of the hex text, zero past its end.
pub open spec fn nibble_at(s: Seq<u8>, i: int) -> u8 {
    if 0 <= i < s.len() {
        hex_val(s[i])
    } else {
        0
    }
}

/// The 20 id bytes denoted by the hex text `s`.
pub open spec fn oid_bytes_of_hex(s: Seq<u8>) -> Seq<u8> {
    Seq::new(20, |j: int| (16 * nibble_at(s, 2 * j) + nibble_at(s, 2 * j + 1)) as u8)
}

/// Whether every byte of `s` is zero.
pub open spec fn all_zero(s: Seq<u8>) -> bool {
    forall|i: int| 0 <= i < s.len() ==> s[i] == 0
}

/// Lowercase hex rendering of a byte sequence, two digits per byte.
pub open spec fn hex_of_bytes(s: Seq<u8>) -> Seq<u8> {
    Seq::new(
        s.len() * 2,
        |i: int|
            if i % 2 == 0 {
                hex_char((s[i / 2] / 16) as u8)
            } else {
                hex_char((s[i / 2] % 16) as u8)
            },
    )
}

/// An object id that is guaranteed not to be the zero sentinel.
#[derive(Clone, Debug, PartialEq, Eq)]
pub struct NonZeroOid {
    pub bytes: Vec<u8>,
}

impl View for NonZeroOid {
    type V = Seq<u8>;

    open spec fn view(&self) -> Seq<u8> {
        self.bytes@
    }
}

impl NonZeroOid {
    /// Well-formed: exactly 20 bytes, not all zero.
    pub open spec fn wf(&self) -> bool {
        self.bytes@.len() == 20 && !all_zero(self.bytes@)
    }

    /// Copy with an identical id.
    pub fn duplicate(&self) -> (r: NonZeroOid)
        ensures
            r@ == self@,
            r.wf() == self.wf(),
    {
        NonZeroOid { bytes: clone_bytes(&self.bytes) }
    }
}

/// An object id that may be the zero sentinel ("absent/deleted"),
/// as Git hooks report for created or deleted references.
#[derive(Clone, Debug, PartialEq, Eq)]
pub enum MaybeZeroOid {
    Zero,
    NonZero(NonZeroOid),
}

impl View for MaybeZeroOid {
    type V = Option<Seq<u8>>;

    open spec fn view(&self) -> Option<Seq<u8>> {
        match self {
            MaybeZeroOid::Zero => None,
            MaybeZeroOid::NonZero(o) => Some(o@),
        }
    }
}

impl MaybeZeroOid {
    pub open spec fn wf(&self) -> bool {
        match self {
            MaybeZeroOid::Zero => true,
            MaybeZeroOid::NonZero(o) => o.wf(),
        }
    }

    /// Copy with an identical id.
    pub fn duplicate(&self) -> (r: MaybeZeroOid)
        ensures
            r@ == self@,
            r.wf() == self.wf(),
    {
        match self {
            MaybeZeroOid::Zero => MaybeZeroOid::Zero,
            MaybeZeroOid::NonZero(o) => MaybeZeroOid::NonZero(o.duplicate()),
        }
    }
}

/// The id denoted by a valid hex field: `None` for the zero sentinel.
pub open spec fn hex_oid_model(s: Seq<u8>) -> Option<Seq<u8>> {
    if all_zero(oid_bytes_of_hex(s)) {
        None
    } else {
        Some(oid_bytes_of_hex(s))
    }
}

/// Value of one hex digit, or `None` for any other byte.
fn hex_digit_value(c: u8) -> (r: Option<u8>)
    ensures
        r is Some <==> is_hex_digit(c),
        r is Some ==> r->0 == hex_val(c) && r->0 < 16,
{
    if 48 <= c && c <= 57 {
        Some(c - 48)
    } else if 97 <= c && c <= 102 {
        Some(c - 87)
    } else if 65 <= c && c <= 70 {
        Some(c - 55)
    } else {
        None
    }
}

/// Decodes a hex object-id field into its 20 id bytes.
fn parse_oid_bytes(s: &Vec<u8>) -> (r: Result<Vec<u8>, CoreError>)
    ensures
        r is Ok <==> valid_hex_oid(s@),
        r is Ok ==> r->Ok_0@ == oid_bytes_of_hex(s@),
        r is Err ==> r == Result::<Vec<u8>, CoreError>::Err(CoreError::InvalidOid),
{
    if s.len() < 1 || s.len() > 40 {
        return Err(CoreError::InvalidOid);
    }
    let mut out: Vec<u8> = Vec::new();
    let mut j: usize = 0;
    while j < 20
        invariant
            1 <= s@.len() <= 40,
            j <= 20,
            out@ =~= oid_bytes_of_hex(s@).take(j as int),
            forall|i: int| 0 <= i < s@.len() && i < 2 * j ==> is_hex_digit(s@[i]),
        decreases 20 - j,
    {
        let hi: u8 = if 2 * j < s.len() {
            match hex_digit_value(s[2 * j]) {
                Some(v) => v,
                None => {
                    return Err(CoreError::InvalidOid);
                },
            }
        } else {
            0
        };
        let lo: u8 = if 2 * j + 1 < s.len() {
            match hex_digit_value(s[2 * j + 1]) {
                Some(v) => v,
                None => {
                    return Err(CoreError::InvalidOid);
                },
            }
        } else {
            0
        };
        assert(hi == nibble_at(s@, 2 * (j as int)));
        assert(lo == nibble_at(s@, 2 * (j as int) + 1));
        assert(hi < 16 && lo < 16);
        out.push(16 * hi + lo);
        proof {
            assert(out@ =~= oid_bytes_of_hex(s@).take(j + 1 as int));
        }
        j += 1;
    }
    proof {
        assert(forall|i: int| 0 <= i < s@.len() ==> i < 40 && is_hex_digit(s@[i]));
        assert(out@ =~= oid_bytes_of_hex(s@));
    }
    Ok(out)
}

/// Whether every byte of `v` is zero.
fn bytes_all_zero(v: &Vec<u8>) -> (r: bool)
    ensures
        r == all_zero(v@),
{
    let mut i: usize = 0;
    while i < v.len()
        invariant
            i <= v.len(),
            forall|j: int| 0 <= j < i ==> v@[j] == 0,
        decreases v.len() - i,
    {
        if v[i] != 0 {
            return false;
        }
        i += 1;
    }
    true
}

/// Parses a hex object-id field that may denote the zero sentinel.
pub fn parse_maybe_zero_oid(s: &Vec<u8>) -> (r: Result<MaybeZeroOid, CoreError>)
    ensures
        r is Ok <==> valid_hex_oid(s@),
        r is Ok ==> r->Ok_0.wf() && r->Ok_0@ == hex_oid_model(s@),
        r is Err ==> r == Result::<MaybeZeroOid, CoreError>::Err(CoreError::InvalidOid),
{
    let bytes = match parse_oid_bytes(s) {
        Ok(bytes) => bytes,
        Err(e) => {
            return Err(e);
        },
    };
    if bytes_all_zero(&bytes) {
        Ok(MaybeZeroOid::Zero)
    } else {
        Ok(MaybeZeroOid::NonZero(NonZeroOid { bytes }))
    }
}

/// Parses a hex object-id field that must not denote the zero sentinel.
pub fn parse_non_zero_oid(s: &Vec<u8>) -> (r: Result<NonZeroOid, CoreError>)
    ensures
        r is Ok <==> valid_hex_oid(s@) && !all_zero(oid_bytes_of_hex(s@)),
        r is Ok ==> r->Ok_0.wf() && r->Ok_0@ == oid_bytes_of_hex(s@),
        r is Err ==> r == Result::<NonZeroOid, CoreError>::Err(CoreError::InvalidOid),
{
    let bytes = match parse_oid_bytes(s) {
        Ok(bytes) => bytes,
        Err(e) => {
            return Err(e);
        },
    };
    if bytes_all_zero(&bytes) {
        Err(CoreError::InvalidOid)
    } else {
        Ok(NonZeroOid { bytes })
    }
}

/// Lowercase 40-digit hex rendering of an id.
pub fn oid_to_hex(oid: &NonZeroOid) -> (r: Vec<u8>)
    ensures
        r@ == hex_of_bytes(oid@),
{
    let mut out: Vec<u8> = Vec::new();
    let mut i: usize = 0;
    while i < oid.bytes.len()
        invariant
            i <= oid.bytes@.len(),
            out@ =~= hex_of_bytes(oid@).take(2 * i as int),
        decreases oid.bytes.len() - i,
    {
        let b = oid.bytes[i];
        let hi: u8 = b / 16;
        let lo: u8 = b % 16;
        out.push(if hi < 10 {
            hi + 48
        } else {
            hi + 87
        });
        out.push(if lo < 10 {
            lo + 48
        } else {
            lo + 87
        });
        proof {
            assert(out@ =~= hex_of_bytes(oid@).take(2 * (i + 1) as int));
        }
        i += 1;
    }
    proof {
        assert(out@ =~= hex_of_bytes(oid@));
    }
    out
}

/// The 40-digit rendering of the zero sentinel.
pub fn zero_oid_hex() -> (r: Vec<u8>)
    ensures
        r@.len() == 40,
        forall|i: int| 0 <= i < 40 ==> r@[i] == 48,
{
    let mut out: Vec<u8> = Vec::new();
    let mut i: usize = 0;
    while i < 40
        invariant
            i <= 40,
            out@.len() == i,
            forall|j: int| 0 <= j < i ==> out@[j] == 48,
        decreases 40 - i,
    {
        out.push(48);
        i += 1;
    }
    out
}

} // verus!
