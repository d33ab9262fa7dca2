//! Self-Delimiting Numeric Values: variable-length unsigned integers.
//!
//! Every byte carries seven bits of the value, most significant group first. The
//! top bit of a byte says whether another byte follows.

use crate::buffer;
use bytes::BytesMut;
use vstd::arithmetic::power2;
use vstd::prelude::*;

verus! {

/// Maximum number of bytes an SDNV can occupy for a `u64` value.
/// 10 bytes of 7 bits give 70 bits, sufficient for 64-bit values.
pub const MAX_SDNV_BYTES: usize = 10;

/// Errors that can occur when decoding an SDNV.
#[derive(Debug, Clone, Copy, PartialEq, Eq, Structural)]
pub enum SdnvError {
    /// The SDNV byte sequence exceeds 10 bytes, which would overflow a `u64`.
    Overflow,
    /// The SDNV byte sequence is truncated (the buffer ran out while the
    /// continuation bit was still set on the last byte read).
    Incomplete,
}

/// The encoding of the groups that stand before the last one: each group of
/// seven bits with the continuation bit set, without leading zero groups.
pub open spec fn leading_groups(v: nat) -> Seq<u8>
    decreases v,
{
    if v == 0 {
        Seq::empty()
    } else {
        leading_groups(v / 128).push((128 + v % 128) as u8)
    }
}

/// The SDNV of `v`: its groups of seven bits, most significant first, with the
/// continuation bit set on all of them but the last.
pub open spec fn sdnv(v: nat) -> Seq<u8> {
    leading_groups(v / 128).push((v % 128) as u8)
}

/// The number that the seven low bits of the bytes of `s` write in base 128.
pub open spec fn base128(s: Seq<u8>) -> nat
    decreases s.len(),
{
    if s.len() == 0 {
        0
    } else {
        base128(s.drop_last()) * 128 + s.last() as nat % 128
    }
}

/// The number of bytes with the continuation bit that `s` starts with.
pub open spec fn continued(s: Seq<u8>) -> nat
    decreases s.len(),
{
    if s.len() == 0 || s[0] < 128 {
        0
    } else {
        1 + continued(s.drop_first())
    }
}

/// What reading an SDNV from the front of `s` gives, and the bytes left behind.
///
/// The number ends at the first byte without the continuation bit. It is read
/// modulo `2^64`, so the excess bits of a ten-byte number are dropped. A number
/// of more than ten bytes overflows at its eleventh byte.
pub open spec fn read_sdnv(s: Seq<u8>) -> (Result<u64, SdnvError>, Seq<u8>) {
    let n = continued(s);
    if n >= MAX_SDNV_BYTES && s.len() > MAX_SDNV_BYTES {
        (Err(SdnvError::Overflow), s.skip(MAX_SDNV_BYTES + 1))
    } else if n == s.len() {
        (Err(SdnvError::Incomplete), Seq::empty())
    } else {
        (Ok((base128(s.take(n as int + 1)) % 0x1_0000_0000_0000_0000) as u64), s.skip(n as int + 1))
    }
}

/// The number of leading groups of a value, by the powers of 128 that it lies between.
proof fn lemma_leading_groups_len(w: nat, n: nat)
    requires
        w < power2::pow2(7 * n),
        n > 0 ==> w >= power2::pow2((7 * n - 7) as nat),
    ensures
        leading_groups(w).len() == n,
    decreases n,
{
    power2::lemma2_to64();
    if n > 0 {
        power2::lemma_pow2_adds(7, (7 * n - 7) as nat);
        power2::lemma_pow2_pos((7 * n - 7) as nat);
        if n > 1 {
            power2::lemma_pow2_adds(7, (7 * n - 14) as nat);
        }
        lemma_leading_groups_len(w / 128, (n - 1) as nat);
    }
}

/// The length of an SDNV, by the powers of 128 that the value lies between.
proof fn lemma_sdnv_len(v: nat, n: nat)
    requires
        n >= 1,
        v < power2::pow2(7 * n),
        n > 1 ==> v >= power2::pow2((7 * n - 7) as nat),
    ensures
        sdnv(v).len() == n,
{
    power2::lemma2_to64();
    power2::lemma_pow2_adds(7, (7 * n - 7) as nat);
    if n > 1 {
        power2::lemma_pow2_adds(7, (7 * n - 14) as nat);
    }
    lemma_leading_groups_len(v / 128, (n - 1) as nat);
}

proof fn lemma_quotient_bounds(v: nat, d: nat)
    by (nonlinear_arith)
    requires
        d > 0,
    ensures
        v / d == 0 <==> v < d,
{
}

/// Returns the number of bytes needed to encode `value` as an SDNV.
pub fn encoded_len(value: u64) -> (n: usize)
    ensures
        n == sdnv(value as nat).len(),
        1 <= n <= MAX_SDNV_BYTES,
{
    if value == 0 {
        return 1;
    }
    let lz: u32 = value.leading_zeros();
    proof {
        vstd::std_specs::bits::axiom_u64_leading_zeros(value);
    }
    // Number of bits needed to represent the value
    let bits: usize = 64 - lz as usize;
    // Each SDNV byte carries 7 value bits
    let n: usize = (bits + 6) / 7;
    proof {
        let b: nat = bits as nat;
        power2::lemma2_to64();
        power2::lemma_pow2_pos((b - 1) as nat);
        let top: u64 = value >> ((b - 1) as u64);
        assert(top & 1 != 0 ==> top != 0) by (bit_vector);
        vstd::bits::lemma_u64_shr_is_div(value, (b - 1) as u64);
        lemma_quotient_bounds(value as nat, power2::pow2((b - 1) as nat));
        if b < 64 {
            power2::lemma_pow2_pos(b);
            vstd::bits::lemma_u64_shr_is_div(value, b as u64);
            lemma_quotient_bounds(value as nat, power2::pow2(b));
        }
        if b < 7 * n {
            power2::lemma_pow2_strictly_increases(b, 7 * n as nat);
        }
        if 7 * n - 7 < b - 1 {
            power2::lemma_pow2_strictly_increases((7 * n - 7) as nat, (b - 1) as nat);
        }
        lemma_sdnv_len(value as nat, n as nat);
    }
    n
}

/// The byte that carries the group at place `i` of `v`, counted from the least
/// significant one.
pub open spec fn group_byte(v: nat, i: nat) -> u8 {
    if i == 0 {
        (v % 128) as u8
    } else {
        (128 + (v / power2::pow2(7 * i)) % 128) as u8
    }
}

proof fn lemma_leading_groups_bytes(w: nat, k: int)
    requires
        0 <= k < leading_groups(w).len(),
    ensures
        leading_groups(w)[k] == (128 + (w / power2::pow2(
            (7 * (leading_groups(w).len() - 1 - k)) as nat,
        )) % 128) as u8,
    decreases w,
{
    let n = leading_groups(w).len();
    power2::lemma2_to64();
    if k < n - 1 {
        let i = (n - 2 - k) as nat;
        lemma_leading_groups_bytes(w / 128, k);
        power2::lemma_pow2_pos(7 * i);
        power2::lemma_pow2_adds(7, 7 * i);
        vstd::arithmetic::div_mod::lemma_div_denominator(w as int, 128, power2::pow2(7 * i) as int);
    } else {
        vstd::arithmetic::div_mod::lemma_div_basics_2(w as int);
    }
}

/// Each byte of an SDNV carries the group at its place.
proof fn lemma_sdnv_bytes(v: nat, k: int)
    requires
        0 <= k < sdnv(v).len(),
    ensures
        sdnv(v)[k] == group_byte(v, (sdnv(v).len() - 1 - k) as nat),
{
    let n = sdnv(v).len();
    power2::lemma2_to64();
    if k < n - 1 {
        let i = (n - 2 - k) as nat;
        lemma_leading_groups_bytes(v / 128, k);
        power2::lemma_pow2_pos(7 * i);
        power2::lemma_pow2_adds(7, 7 * i);
        vstd::arithmetic::div_mod::lemma_div_denominator(v as int, 128, power2::pow2(7 * i) as int);
    }
}

/// Extracts the seven bits at place `i` (from the least significant side) and
/// sets the continuation bit unless they are the last ones.
fn extract_group(value: u64, i: usize) -> (byte: u8)
    requires
        i < MAX_SDNV_BYTES,
    ensures
        byte == group_byte(value as nat, i as nat),
{
    let w: u64 = value >> (i * 7);
    proof {
        power2::lemma2_to64();
        vstd::bits::lemma_u64_shr_is_div(value, (i * 7) as u64);
        vstd::arithmetic::div_mod::lemma_div_basics_2(value as int);
        assert(w & 0x7F == w % 128) by (bit_vector);
    }
    let byte: u8 = (w & 0x7F) as u8;
    if i == 0 {
        byte
    } else {
        assert(byte | 0x80 == 128 + byte) by (bit_vector)
            requires
                byte < 128,
        ;
        byte | 0x80
    }
}

/// Encodes a `u64` value as an SDNV into the provided buffer.
///
/// Each byte contributes 7 value bits. The MSB is a continuation flag:
/// 1 = more bytes follow, 0 = final byte. Bytes are written in big-endian
/// order (most significant value bits first).
pub fn encode(value: u64, buf: &mut BytesMut)
    requires
        buffer::buffer_content(*old(buf)).len() + sdnv(value as nat).len() <= isize::MAX,
    ensures
        buffer::buffer_content(*final(buf)) == buffer::buffer_content(*old(buf)) + sdnv(
            value as nat,
        ),
{
    let len: usize = encoded_len(value);
    let ghost start = buffer::buffer_content(*buf);
    let ghost code = sdnv(value as nat);
    let mut i: usize = len;
    assert(start + code.take(0) == start);
    while i > 0
        invariant
            i <= len <= MAX_SDNV_BYTES,
            code == sdnv(value as nat),
            code.len() == len,
            start.len() + len <= isize::MAX,
            buffer::buffer_content(*buf) == start + code.take(len - i),
        decreases i,
    {
        i = i - 1;
        buffer::buffer_put_u8(buf, extract_group(value, i));
        proof {
            lemma_sdnv_bytes(value as nat, len - 1 - i);
            assert(code.take(len - i) == code.take(len - 1 - i).push(code[len - 1 - i]));
        }
    }
    assert(code.take(len as int) == code);
}

proof fn lemma_continued_least(s: Seq<u8>, n: nat)
    requires
        n <= s.len(),
        forall|i: int| 0 <= i < n ==> s[i] >= 128,
    ensures
        continued(s) >= n,
        n == s.len() || s[n as int] < 128 ==> continued(s) == n,
    decreases n,
{
    if n > 0 {
        lemma_continued_least(s.drop_first(), (n - 1) as nat);
    }
}

/// Decodes an SDNV from the provided buffer, returning the `u64` value.
///
/// Returns `SdnvError::Overflow` if the encoded value exceeds 10 bytes
/// (would overflow a `u64`). Returns `SdnvError::Incomplete` if the buffer
/// is exhausted while the continuation bit is still set.
pub fn decode(buf: &mut &[u8]) -> (r: Result<u64, SdnvError>)
    ensures
        r == read_sdnv(old(buf)@).0,
        final(buf)@ == read_sdnv(old(buf)@).1,
{
    let ghost s = buf@;
    let mut value: u64 = 0;
    let mut bytes_read: usize = 0;
    assert(s.skip(0) == s);
    loop
        invariant
            bytes_read <= MAX_SDNV_BYTES,
            bytes_read <= s.len(),
            s == old(buf)@,
            buf@ == s.skip(bytes_read as int),
            forall|i: int| 0 <= i < bytes_read ==> s[i] >= 128,
            value == base128(s.take(bytes_read as int)) % 0x1_0000_0000_0000_0000,
        decreases s.len() - bytes_read,
    {
        proof {
            lemma_continued_least(s, bytes_read as nat);
        }
        if !buffer::reader_has_remaining(*buf) {
            assert(buf@ == Seq::<u8>::empty());
            return Err(SdnvError::Incomplete);
        }
        let byte: u8 = buffer::reader_get_u8(buf);
        assert(byte == s[bytes_read as int]);
        assert(buf@ == s.skip(bytes_read + 1));
        bytes_read = bytes_read + 1;
        if bytes_read > MAX_SDNV_BYTES {
            return Err(SdnvError::Overflow);
        }
        proof {
            let low: u64 = (byte & 0x7F) as u64;
            assert(byte & 0x7F == byte % 128) by (bit_vector);
            assert((value << 7) | low == (value * 128 + low) % 0x1_0000_0000_0000_0000)
                by (bit_vector)
                requires
                    low < 128,
            ;
            let head = s.take(bytes_read as int);
            assert(head.drop_last() == s.take(bytes_read - 1));
            let b = base128(head.drop_last()) as int;
            vstd::arithmetic::div_mod::lemma_fundamental_div_mod(b, 0x1_0000_0000_0000_0000);
            vstd::arithmetic::div_mod::lemma_mod_multiples_vanish(
                (b / 0x1_0000_0000_0000_0000) * 128,
                value * 128 + low,
                0x1_0000_0000_0000_0000,
            );
            assert(byte & 0x80 == 0 <==> byte < 128) by (bit_vector);
        }
        // Shift existing value left by 7 and add the 7 value bits
        value = (value << 7) | (byte & 0x7F) as u64;
        // If MSB is 0, this is the final byte
        if byte & 0x80 == 0 {
            return Ok(value);
        }
    }
}

/// Pre-cached SDNV for frequently-used values (e.g., local engine ID).
///
/// Stores the pre-encoded byte representation to avoid repeated encoding
/// on the transmit path.
#[derive(Debug)]
pub struct CachedSdnv {
    bytes: [u8; MAX_SDNV_BYTES],
    len: u8,
}

impl View for CachedSdnv {
    type V = Seq<u8>;

    closed spec fn view(&self) -> Seq<u8> {
        self.bytes@.take(self.len as int)
    }
}

impl Clone for CachedSdnv {
    fn clone(&self) -> (r: Self)
        ensures
            r@ == self@,
    {
        proof {
            use_type_invariant(self);
        }
        CachedSdnv { bytes: self.bytes, len: self.len }
    }
}

impl CachedSdnv {
    #[verifier::type_invariant]
    spec fn fits(self) -> bool {
        self.len <= MAX_SDNV_BYTES
    }

    /// Creates a new `CachedSdnv` by encoding the given value.
    pub fn new(value: u64) -> (r: Self)
        ensures
            r@ == sdnv(value as nat),
    {
        let mut bytes: [u8; MAX_SDNV_BYTES] = [0u8;MAX_SDNV_BYTES];
        let len: usize = encoded_len(value);
        let ghost code = sdnv(value as nat);
        let mut i: usize = len;
        while i > 0
            invariant
                i <= len <= MAX_SDNV_BYTES,
                code == sdnv(value as nat),
                code.len() == len,
                bytes@.len() == MAX_SDNV_BYTES,
                forall|k: int| 0 <= k < len - i ==> bytes@[k] == code[k],
            decreases i,
        {
            i = i - 1;
            let idx: usize = len - 1 - i;
            bytes[idx] = extract_group(value, i);
            proof {
                lemma_sdnv_bytes(value as nat, idx as int);
            }
        }
        assert(bytes@.take(len as int) == code);
        CachedSdnv { bytes, len: len as u8 }
    }

    /// Returns the pre-encoded SDNV bytes.
    pub fn as_bytes(&self) -> (r: &[u8])
        ensures
            r@ == self@,
    {
        proof {
            use_type_invariant(self);
        }
        vstd::slice::slice_subrange(vstd::array::array_as_slice(&self.bytes), 0, self.len as usize)
    }

    /// Writes the pre-encoded SDNV bytes into the buffer.
    pub fn put(&self, buf: &mut BytesMut)
        requires
            buffer::buffer_content(*old(buf)).len() + self@.len() <= isize::MAX,
        ensures
            buffer::buffer_content(*final(buf)) == buffer::buffer_content(*old(buf)) + self@,
    {
        buffer::buffer_put_slice(buf, self.as_bytes());
    }
}

impl SdnvError {
    /// The message that describes the error.
    pub open spec fn message(self) -> Seq<char> {
        match self {
            SdnvError::Overflow => "SDNV exceeds 10 bytes (64-bit overflow)"@,
            SdnvError::Incomplete => "SDNV truncated (continuation bit set on final byte)"@,
        }
    }

    /// Returns the message that describes the error.
    pub fn to_string(&self) -> (r: String)
        ensures
            r@ == self.message(),
    {
        match self {
            SdnvError::Overflow => String::from_str("SDNV exceeds 10 bytes (64-bit overflow)"),
            SdnvError::Incomplete => String::from_str(
                "SDNV truncated (continuation bit set on final byte)",
            ),
        }
    }
}

proof fn lemma_leading_groups_value(w: nat)
    ensures
        base128(leading_groups(w)) == w,
        forall|i: int| 0 <= i < leading_groups(w).len() ==> leading_groups(w)[i] >= 128,
    decreases w,
{
    if w > 0 {
        lemma_leading_groups_value(w / 128);
        let head = leading_groups(w / 128);
        assert(leading_groups(w).drop_last() == head);
    }
}

/// An SDNV ends at its only byte without the continuation bit, has at most ten
/// bytes, and its groups write the value in base 128.
pub proof fn sdnv_shape(v: u64)
    ensures
        1 <= sdnv(v as nat).len() <= MAX_SDNV_BYTES,
        forall|i: int| 0 <= i < sdnv(v as nat).len() - 1 ==> sdnv(v as nat)[i] >= 128,
        sdnv(v as nat).last() < 128,
        base128(sdnv(v as nat)) == v,
{
    lemma_leading_groups_value(v as nat / 128);
    assert(sdnv(v as nat).drop_last() == leading_groups(v as nat / 128));
    power2::lemma2_to64_rest();
    lemma_leading_groups_at_most(v as nat / 128, 9);
}

proof fn lemma_leading_groups_at_most(w: nat, n: nat)
    requires
        w < power2::pow2(7 * n),
    ensures
        leading_groups(w).len() <= n,
    decreases n,
{
    power2::lemma2_to64();
    if w > 0 {
        assert(n > 0);
        power2::lemma_pow2_adds(7, (7 * n - 7) as nat);
        lemma_leading_groups_at_most(w / 128, (n - 1) as nat);
    }
}

/// Reading back an encoded value gives the value, whatever follows it, and
/// leaves exactly what follows.
pub proof fn sdnv_round_trip(v: u64, tail: Seq<u8>)
    ensures
        read_sdnv(sdnv(v as nat) + tail) == (Ok::<u64, SdnvError>(v), tail),
{
    let code = sdnv(v as nat);
    let s = code + tail;
    sdnv_shape(v);
    lemma_continued_least(s, (code.len() - 1) as nat);
    assert(s.take(code.len() as int) == code);
    assert(s.skip(code.len() as int) == tail);
}

/// An encoded value that was cut short is reported as incomplete.
pub proof fn sdnv_cut_short(v: u64, n: int)
    requires
        0 <= n < sdnv(v as nat).len(),
    ensures
        read_sdnv(sdnv(v as nat).take(n)) == (
            Err::<u64, SdnvError>(SdnvError::Incomplete),
            Seq::<u8>::empty(),
        ),
{
    let s = sdnv(v as nat).take(n);
    sdnv_shape(v);
    lemma_continued_least(s, n as nat);
}

/// A number that goes on after its tenth byte overflows.
pub proof fn sdnv_overlong(s: Seq<u8>)
    requires
        s.len() > MAX_SDNV_BYTES,
        forall|i: int| 0 <= i < MAX_SDNV_BYTES ==> s[i] >= 128,
    ensures
        read_sdnv(s).0 == Err::<u64, SdnvError>(SdnvError::Overflow),
{
    lemma_continued_least(s, MAX_SDNV_BYTES as nat);
}

/// No encoding is the start of another: equal encodings come from equal values,
/// and a value can be read off without knowing where it ends.
pub proof fn sdnv_prefix_free(v: u64, w: u64, tail: Seq<u8>)
    requires
        sdnv(v as nat) + tail == sdnv(w as nat),
    ensures
        v == w,
        tail.len() == 0,
{
    sdnv_round_trip(v, tail);
    sdnv_round_trip(w, Seq::empty());
    assert(sdnv(w as nat) + Seq::<u8>::empty() == sdnv(w as nat));
}

/// What a read leaves behind is a suffix of what it was given.
pub proof fn read_leaves_a_suffix(s: Seq<u8>)
    ensures
        read_sdnv(s).1.len() <= s.len(),
        read_sdnv(s).1 == s.skip(s.len() - read_sdnv(s).1.len()),
{
    lemma_continued_at_most(s);
}

proof fn lemma_continued_at_most(s: Seq<u8>)
    ensures
        continued(s) <= s.len(),
    decreases s.len(),
{
    if s.len() > 0 && s[0] >= 128 {
        lemma_continued_at_most(s.drop_first());
    }
}

// ---------------------------------------------------------------------------
// The bytes
// ---------------------------------------------------------------------------
/// What the bytes of an SDNV are. Read in base 128, the low seven bits of the
/// bytes are the digits of the value, the most significant first; there is no
/// byte more than the value needs; and the top bit is set on all but the last.
pub proof fn sdnv_bytes_are_the_digits(v: u64)
    ensures
        ({
            let s = sdnv(v as nat);
            let n = s.len();
            &&& 1 <= n <= 10
            &&& v < power2::pow2(7 * n)
            &&& n > 1 ==> v >= power2::pow2((7 * (n - 1)) as nat)
            &&& forall|k: int|
                0 <= k < n ==> #[trigger] s[k] as nat == (v as nat / power2::pow2(
                    (7 * (n - 1 - k)) as nat,
                )) % 128 + if k < n - 1 {
                    128nat
                } else {
                    0nat
                }
        }),
{
    let s = sdnv(v as nat);
    let n = s.len();
    sdnv_shape(v);
    lemma_base128_digits(s);
    power2::lemma2_to64();
    if n > 1 {
        lemma_leading_groups_high(v as nat / 128);
        let w = v as nat / 128;
        assert(leading_groups(w).len() == n - 1);
        power2::lemma_pow2_adds(7, (7 * (n - 2)) as nat);
        assert(w >= power2::pow2((7 * (n - 2)) as nat));
    }
    assert forall|k: int| 0 <= k < n implies #[trigger] s[k] as nat == (v as nat / power2::pow2(
        (7 * (n - 1 - k)) as nat,
    )) % 128 + if k < n - 1 {
        128nat
    } else {
        0nat
    } by {
        assert((base128(s) / power2::pow2((7 * (n - 1 - k)) as nat)) % 128 == s[k] as nat % 128);
    }
}

proof fn lemma_leading_groups_high(w: nat)
    ensures
        w > 0 ==> leading_groups(w).len() > 0 && w >= power2::pow2(
            (7 * (leading_groups(w).len() - 1)) as nat,
        ),
    decreases w,
{
    power2::lemma2_to64();
    if w > 0 {
        lemma_leading_groups_high(w / 128);
        let n = leading_groups(w).len();
        if w / 128 > 0 {
            power2::lemma_pow2_adds(7, (7 * (n - 2)) as nat);
        } else {
            assert(leading_groups(0).len() == 0);
        }
    }
}

/// The low seven bits of the bytes are the digits in base 128.
proof fn lemma_base128_digits(s: Seq<u8>)
    ensures
        base128(s) < power2::pow2(7 * s.len()),
        forall|k: int|
            0 <= k < s.len() ==> (base128(s) / power2::pow2((7 * (s.len() - 1 - k)) as nat)) % 128
                == #[trigger] s[k] as nat % 128,
    decreases s.len(),
{
    power2::lemma2_to64();
    let n = s.len();
    if n > 0 {
        let head = s.drop_last();
        let b = base128(head);
        lemma_base128_digits(head);
        power2::lemma_pow2_adds(7, (7 * (n - 1)) as nat);
        assert forall|k: int| 0 <= k < n implies (base128(s) / power2::pow2(
            (7 * (n - 1 - k)) as nat,
        )) % 128 == #[trigger] s[k] as nat % 128 by {
            if k < n - 1 {
                let e = (7 * (n - 2 - k)) as nat;
                power2::lemma_pow2_pos(e);
                power2::lemma_pow2_adds(7, e);
                vstd::arithmetic::div_mod::lemma_div_denominator(
                    base128(s) as int,
                    128,
                    power2::pow2(e) as int,
                );
                assert(base128(s) / 128 == b);
                assert(head[k] == s[k]);
            } else {
                vstd::arithmetic::div_mod::lemma_div_basics_2(base128(s) as int);
            }
        }
    }
}

/// The digits that a number keeps when it is cut down to 64 bits.
proof fn lemma_low_digits(v: nat, e: nat)
    requires
        e <= 63,
    ensures
        (v % 0x1_0000_0000_0000_0000) / power2::pow2(e) == (v / power2::pow2(e)) % power2::pow2(
            (64 - e) as nat,
        ),
        e <= 57 ==> ((v % 0x1_0000_0000_0000_0000) / power2::pow2(e)) % 128 == (v / power2::pow2(
            e,
        )) % 128,
{
    let y = power2::pow2(e) as int;
    let z = power2::pow2((64 - e) as nat) as int;
    power2::lemma2_to64();
    power2::lemma2_to64_rest();
    power2::lemma_pow2_pos(e);
    power2::lemma_pow2_pos((64 - e) as nat);
    power2::lemma_pow2_adds(e, (64 - e) as nat);
    vstd::arithmetic::div_mod::lemma_mod_breakdown(v as int, y, z);
    let q = (v as int / y) % z;
    vstd::arithmetic::div_mod::lemma_div_multiples_vanish_fancy(q, v as int % y, y);
    if e <= 57 {
        power2::lemma_pow2_pos((57 - e) as nat);
        power2::lemma_pow2_adds(7, (57 - e) as nat);
        vstd::arithmetic::div_mod::lemma_mod_mod(
            v as int / y,
            128,
            power2::pow2((57 - e) as nat) as int,
        );
    }
}

/// What reading gives, on the bytes. A number of `n` bytes, of which the last is
/// the first without the top bit, is read and taken off. The low seven bits of
/// its bytes are the digits of the value in base 128. Of the first of ten bytes
/// only the lowest bit is left.
pub proof fn number_is_read_off(s: Seq<u8>, n: int)
    requires
        1 <= n <= 10,
        n <= s.len(),
        forall|i: int| 0 <= i < n - 1 ==> s[i] >= 128,
        s[n - 1] < 128,
    ensures
        ({
            let (r, rest) = read_sdnv(s);
            &&& rest == s.skip(n)
            &&& r matches Ok(v) && {
                &&& n < 10 ==> v < power2::pow2((7 * n) as nat)
                &&& n == 10 ==> v as nat / power2::pow2(63) == s[0] as nat % 2
                &&& forall|k: int|
                    0 <= k < n && n - 1 - k < 9 ==> (v as nat / power2::pow2(
                        (7 * (n - 1 - k)) as nat,
                    )) % 128 == #[trigger] s[k] as nat % 128
            }
        }),
{
    let t = s.take(n);
    let b = base128(t);
    let v = b % 0x1_0000_0000_0000_0000;
    lemma_continued_least(s, (n - 1) as nat);
    lemma_base128_digits(t);
    power2::lemma2_to64();
    power2::lemma2_to64_rest();
    assert(read_sdnv(s).0 == Ok::<u64, SdnvError>(v as u64));
    if n < 10 {
        if n < 9 {
            power2::lemma_pow2_strictly_increases((7 * n) as nat, 63);
        }
        assert(b < power2::pow2(64));
    } else {
        lemma_low_digits(b, 63);
        assert(t[0] == s[0]);
        assert((b / power2::pow2(63)) % 128 == t[0] as nat % 128);
        power2::lemma_pow2_adds(63, 7);
        vstd::arithmetic::div_mod::lemma_fundamental_div_mod(b as int, power2::pow2(63) as int);
    }
    assert forall|k: int| 0 <= k < n && n - 1 - k < 9 implies (v / power2::pow2(
        (7 * (n - 1 - k)) as nat,
    )) % 128 == #[trigger] s[k] as nat % 128 by {
        assert(t[k] == s[k]);
        lemma_low_digits(b, (7 * (n - 1 - k)) as nat);
    }
}

/// What is not read as a number, on the bytes: where the top bit is set on all
/// the bytes there are, and these are ten at most, the number is incomplete and
/// the bytes are gone; where it is set on the first ten of more, the number
/// overflows and eleven bytes are gone.
pub proof fn endless_number_is_an_error(s: Seq<u8>)
    ensures
        s.len() <= 10 && (forall|i: int| 0 <= i < s.len() ==> s[i] >= 128) <==> read_sdnv(s).0
            == Err::<u64, SdnvError>(SdnvError::Incomplete),
        s.len() > 10 && (forall|i: int| 0 <= i < 10 ==> s[i] >= 128) <==> read_sdnv(s).0 == Err::<
            u64,
            SdnvError,
        >(SdnvError::Overflow),
        read_sdnv(s).0 == Err::<u64, SdnvError>(SdnvError::Incomplete) ==> read_sdnv(s).1.len()
            == 0,
        read_sdnv(s).0 == Err::<u64, SdnvError>(SdnvError::Overflow) ==> read_sdnv(s).1 == s.skip(
            11,
        ),
{
    let n = continued(s) as int;
    lemma_continued_at_most(s);
    lemma_continued_is_the_start(s);
    if s.len() <= 10 && (forall|i: int| 0 <= i < s.len() ==> s[i] >= 128) {
        lemma_continued_least(s, s.len());
    }
    if s.len() > 10 && (forall|i: int| 0 <= i < 10 ==> s[i] >= 128) {
        lemma_continued_least(s, 10);
    }
}

proof fn lemma_continued_is_the_start(s: Seq<u8>)
    ensures
        forall|i: int| 0 <= i < continued(s) ==> #[trigger] s[i] >= 128,
        continued(s) < s.len() ==> s[continued(s) as int] < 128,
    decreases s.len(),
{
    if s.len() > 0 && s[0] >= 128 {
        let rest = s.drop_first();
        lemma_continued_at_most(rest);
        lemma_continued_is_the_start(rest);
        assert forall|i: int| 0 <= i < continued(s) implies #[trigger] s[i] >= 128 by {
            if i > 0 {
                assert(rest[i - 1] == s[i]);
            }
        }
        if continued(s) < s.len() {
            assert(rest[continued(rest) as int] == s[continued(s) as int]);
        }
    }
}

/// A number that is read does not depend on what follows it.
pub proof fn read_stops_at_the_number(code: Seq<u8>, v: u64, tail: Seq<u8>)
    requires
        read_sdnv(code) == (Ok::<u64, SdnvError>(v), Seq::<u8>::empty()),
    ensures
        read_sdnv(code + tail) == (Ok::<u64, SdnvError>(v), tail),
{
    let n = continued(code);
    lemma_continued_at_most(code);
    lemma_continued_is_the_start(code);
    assert(code.skip(n as int + 1).len() == 0);
    let s = code + tail;
    lemma_continued_least(s, n);
    assert(s.take(n as int + 1) == code.take(n as int + 1));
    assert(s.skip(n as int + 1) == tail);
}

/// What is read does not depend on what follows it: where a number is read, it is
/// read with more bytes behind it too, and they are left behind what was left.
pub proof fn read_does_not_look_ahead(s: Seq<u8>, tail: Seq<u8>)
    requires
        read_sdnv(s).0 is Ok,
    ensures
        read_sdnv(s + tail) == (read_sdnv(s).0, read_sdnv(s).1 + tail),
{
    let n = continued(s);
    let t = s + tail;
    lemma_continued_at_most(s);
    lemma_continued_is_the_start(s);
    assert forall|i: int| 0 <= i < n implies t[i] >= 128 by {
        assert(s[i] >= 128);
    }
    lemma_continued_least(t, n);
    assert(t.take(n as int + 1) == s.take(n as int + 1));
    assert(t.skip(n as int + 1) == s.skip(n as int + 1) + tail);
}

} // verus!
