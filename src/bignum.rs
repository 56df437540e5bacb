//! The magnitude of a big integer on the wire: little-endian base-256
//! bytes, packed into and unpacked from base-2^32 digits.
use vstd::prelude::*;
use crate::term::BigNum;

verus! {

/// The four little-endian bytes of a digit.
pub open spec fn digit_bytes(d: u32) -> Seq<u8> {
    seq![d as u8, (d >> 8u32) as u8, (d >> 16u32) as u8, (d >> 24u32) as u8]
}

/// All digits as little-endian bytes, four per digit.
pub open spec fn digits_to_bytes(ds: Seq<u32>) -> Seq<u8>
    decreases ds.len(),
{
    if ds.len() == 0 {
        Seq::empty()
    } else {
        digits_to_bytes(ds.drop_last()) + digit_bytes(ds.last())
    }
}

/// Drops the zero bytes at the most significant end.
pub open spec fn trim_bytes(b: Seq<u8>) -> Seq<u8>
    decreases b.len(),
{
    if b.len() > 0 && b.last() == 0 {
        trim_bytes(b.drop_last())
    } else {
        b
    }
}

/// Drops the zero digits at the most significant end.
pub open spec fn trim_digits(ds: Seq<u32>) -> Seq<u32>
    decreases ds.len(),
{
    if ds.len() > 0 && ds.last() == 0 {
        trim_digits(ds.drop_last())
    } else {
        ds
    }
}

/// The shortest little-endian base-256 magnitude of a digit sequence
/// (empty for zero).
pub open spec fn magnitude(ds: Seq<u32>) -> Seq<u8> {
    trim_bytes(digits_to_bytes(ds))
}

/// Byte `i` of `b`, or zero past its end.
pub open spec fn byte_or_zero(b: Seq<u8>, i: int) -> u8 {
    if 0 <= i < b.len() {
        b[i]
    } else {
        0
    }
}

/// Four little-endian bytes as one digit.
pub open spec fn le4(b0: u8, b1: u8, b2: u8, b3: u8) -> u32 {
    (b0 as u32) | (b1 as u32) << 8u32 | (b2 as u32) << 16u32 | (b3 as u32) << 24u32
}

/// The digit made of the (up to) four bytes of `b` from `start` on.
pub open spec fn le_digit(b: Seq<u8>, start: int) -> u32 {
    le4(
        byte_or_zero(b, start),
        byte_or_zero(b, start + 1),
        byte_or_zero(b, start + 2),
        byte_or_zero(b, start + 3),
    )
}

/// Bytes combined four at a time, least significant first; a short last
/// group makes a last digit of its own.
pub open spec fn pack_digits(b: Seq<u8>) -> Seq<u32> {
    Seq::new(((b.len() + 3) / 4) as nat, |j: int| le_digit(b, 4 * j))
}

/// The digits in normal form: no zero digit at the most significant end.
pub open spec fn digits_normal(ds: Seq<u32>) -> bool {
    ds.len() > 0 ==> ds.last() != 0
}

fn le4_exec(b0: u8, b1: u8, b2: u8, b3: u8) -> (r: u32)
    ensures
        r == le4(b0, b1, b2, b3),
{
    (b0 as u32) | (b1 as u32) << 8u32 | (b2 as u32) << 16u32 | (b3 as u32) << 24u32
}

proof fn lemma_le4_digit_bytes(d: u32)
    ensures
        le4(d as u8, (d >> 8u32) as u8, (d >> 16u32) as u8, (d >> 24u32) as u8) == d,
        le4(0, 0, 0, 0) == 0,
{
    assert((((d as u8) as u32) | (((d >> 8u32) as u8) as u32) << 8u32 | (((d >> 16u32) as u8)
        as u32) << 16u32 | (((d >> 24u32) as u8) as u32) << 24u32) == d) by (bit_vector);
    assert(((0u8 as u32) | (0u8 as u32) << 8u32 | (0u8 as u32) << 16u32 | (0u8 as u32) << 24u32)
        == 0u32) by (bit_vector);
}

proof fn lemma_trim_digits(ds: Seq<u32>)
    ensures
        digits_normal(trim_digits(ds)),
        digits_normal(ds) ==> trim_digits(ds) == ds,
    decreases ds.len(),
{
    if ds.len() > 0 && ds.last() == 0 {
        lemma_trim_digits(ds.drop_last());
    }
}

proof fn lemma_trim_bytes_to(b: Seq<u8>, q: int)
    requires
        0 <= q <= b.len(),
        forall|i: int| q <= i < b.len() ==> b[i] == 0,
        q > 0 ==> b[q - 1] != 0,
    ensures
        trim_bytes(b) == b.subrange(0, q),
    decreases b.len(),
{
    if b.len() > q {
        lemma_trim_bytes_to(b.drop_last(), q);
        assert(b.drop_last().subrange(0, q) =~= b.subrange(0, q));
    } else {
        assert(b.subrange(0, q) =~= b);
    }
}

proof fn lemma_digits_to_bytes_index(ds: Seq<u32>)
    ensures
        digits_to_bytes(ds).len() == 4 * ds.len(),
        forall|j: int, r: int|
            0 <= j < ds.len() && 0 <= r < 4 ==> #[trigger] digits_to_bytes(ds)[4 * j + r]
                == digit_bytes(ds[j])[r],
    decreases ds.len(),
{
    if ds.len() > 0 {
        lemma_digits_to_bytes_index(ds.drop_last());
        let f = digits_to_bytes(ds);
        let g = digits_to_bytes(ds.drop_last());
        assert forall|j: int, r: int| 0 <= j < ds.len() && 0 <= r < 4 implies #[trigger] f[4 * j + r]
            == digit_bytes(ds[j])[r] by {
            if j < ds.len() - 1 {
                assert(f[4 * j + r] == g[4 * j + r]);
                assert(ds.drop_last()[j] == ds[j]);
            }
        }
    }
}

/// The shortest magnitude of digits in normal form packs back into the
/// same digits.
pub proof fn lemma_magnitude_packs_back(ds: Seq<u32>)
    requires
        digits_normal(ds),
    ensures
        trim_digits(pack_digits(magnitude(ds))) == ds,
        ds.len() > 0 ==> magnitude(ds).len() > 4 * (ds.len() - 1),
        magnitude(ds).len() <= 4 * ds.len(),
{
    let n = ds.len() as int;
    let f = digits_to_bytes(ds);
    lemma_digits_to_bytes_index(ds);
    if n == 0 {
        assert(pack_digits(magnitude(ds)) =~= ds);
        lemma_trim_digits(ds);
    } else {
        let d = ds[n - 1];
        lemma_le4_digit_bytes(d);
        let b = digit_bytes(d);
        let k: int = if b[3] != 0 {
            4
        } else if b[2] != 0 {
            3
        } else if b[1] != 0 {
            2
        } else {
            1
        };
        let q = 4 * (n - 1) + k;
        assert forall|i: int| q <= i < f.len() implies f[i] == 0 by {
            assert(f[4 * (n - 1) + (i - 4 * (n - 1))] == b[i - 4 * (n - 1)]);
        }
        assert(f[4 * (n - 1) + (k - 1)] == b[k - 1]);
        lemma_trim_bytes_to(f, q);
        let m = magnitude(ds);
        assert(m == f.subrange(0, q));
        let p = pack_digits(m);
        assert(p.len() == n);
        assert forall|j: int| 0 <= j < n implies p[j] == ds[j] by {
            assert(f[4 * j + 0] == digit_bytes(ds[j])[0]);
            assert(f[4 * j + 1] == digit_bytes(ds[j])[1]);
            assert(f[4 * j + 2] == digit_bytes(ds[j])[2]);
            assert(f[4 * j + 3] == digit_bytes(ds[j])[3]);
            lemma_le4_digit_bytes(ds[j]);
        }
        assert(p =~= ds);
        lemma_trim_digits(ds);
    }
}

impl BigNum {
    /// Normal form: no zero digit at the top, and zero is not negative.
    pub open spec fn wf(&self) -> bool {
        &&& digits_normal(self.digits@)
        &&& self.digits@.len() == 0 ==> !self.negative
    }

    /// The sign and digits that a wire sign byte and magnitude stand for.
    pub open spec fn wire_view(sign: u8, mag: Seq<u8>) -> (bool, Seq<u32>) {
        let ds = trim_digits(pack_digits(mag));
        (sign != 0 && ds.len() > 0, ds)
    }

    /// Builds a big integer from a sign and digits, least significant first,
    /// and brings it to normal form.
    pub fn new(negative: bool, digits: Vec<u32>) -> (r: BigNum)
        ensures
            r.wf(),
            r.digits@ == trim_digits(digits@),
            r.negative == (negative && r.digits@.len() > 0),
    {
        let ghost given = digits@;
        let mut digits = digits;
        while digits.len() > 0 && digits[digits.len() - 1] == 0
            invariant
                trim_digits(digits@) == trim_digits(given),
            decreases digits.len(),
        {
            digits.pop();
        }
        proof {
            lemma_trim_digits(digits@);
        }
        BigNum { negative: negative && digits.len() > 0, digits }
    }

    /// Decodes a sign byte (zero for non-negative) and a little-endian
    /// magnitude: the bytes are packed into digits four at a time, a short
    /// last group making a last digit, and the result is brought to normal
    /// form.
    pub fn from_wire(sign: u8, mag: &[u8]) -> (r: BigNum)
        ensures
            r.wf(),
            (r.negative, r.digits@) == BigNum::wire_view(sign, mag@),
    {
        let mut numbers: Vec<u32> = Vec::new();
        let len: usize = mag.len();
        let full: usize = len / 4;
        let mut j: usize = 0;
        assert(4 * full <= mag@.len() < 4 * full + 4);
        while j < full
            invariant
                len == mag@.len(),
                full == mag@.len() / 4,
                4 * full <= mag@.len() < 4 * full + 4,
                0 <= j <= full,
                numbers@.len() == j,
                forall|m: int| 0 <= m < j ==> numbers@[m] == le_digit(mag@, 4 * m),
            decreases full - j,
        {
            let s: usize = 4 * j;
            let d = le4_exec(mag[s], mag[s + 1], mag[s + 2], mag[s + 3]);
            numbers.push(d);
            j = j + 1;
        }
        let s: usize = 4 * full;
        let rem: usize = len - s;
        if rem > 0 {
            let b1: u8 = if rem > 1 { mag[s + 1] } else { 0 };
            let b2: u8 = if rem > 2 { mag[s + 2] } else { 0 };
            let d = le4_exec(mag[s], b1, b2, 0);
            numbers.push(d);
        }
        assert(numbers@ =~= pack_digits(mag@));
        BigNum::new(sign != 0, numbers)
    }

    /// The shortest little-endian base-256 magnitude (empty for zero).
    pub fn magnitude_bytes(&self) -> (r: Vec<u8>)
        ensures
            r@ == magnitude(self.digits@),
    {
        let mut bytes: Vec<u8> = Vec::new();
        let mut i: usize = 0;
        while i < self.digits.len()
            invariant
                0 <= i <= self.digits@.len(),
                bytes@ == digits_to_bytes(self.digits@.subrange(0, i as int)),
            decreases self.digits@.len() - i,
        {
            let d = self.digits[i];
            bytes.push(d as u8);
            bytes.push((d >> 8u32) as u8);
            bytes.push((d >> 16u32) as u8);
            bytes.push((d >> 24u32) as u8);
            proof {
                let next = self.digits@.subrange(0, i + 1);
                assert(next.drop_last() =~= self.digits@.subrange(0, i as int));
                assert(bytes@ =~= digits_to_bytes(next));
            }
            i = i + 1;
        }
        assert(self.digits@.subrange(0, i as int) =~= self.digits@);
        let ghost all = bytes@;
        while bytes.len() > 0 && bytes[bytes.len() - 1] == 0
            invariant
                trim_bytes(bytes@) == trim_bytes(all),
            decreases bytes.len(),
        {
            bytes.pop();
        }
        bytes
    }
}

} // verus!
