use crate::errors::DeserializationError;
use vstd::prelude::*;

verus! {

/// `256^n`: the number of values that `n` bytes can hold.
pub open spec fn pow256(n: nat) -> nat
    decreases n,
{
    if n == 0 {
        1
    } else {
        256 * pow256((n - 1) as nat)
    }
}

/// The value that a little-endian byte sequence stands for.
pub open spec fn le_bytes_to_nat(s: Seq<u8>) -> nat
    decreases s.len(),
{
    if s.len() == 0 {
        0
    } else {
        (s[0] + 256 * le_bytes_to_nat(s.skip(1))) as nat
    }
}

/// The `n` little-endian bytes of `v` (modulo `256^n`).
pub open spec fn nat_to_le_bytes(v: nat, n: nat) -> Seq<u8>
    decreases n,
{
    if n == 0 {
        Seq::empty()
    } else {
        seq![(v % 256) as u8] + nat_to_le_bytes(v / 256, (n - 1) as nat)
    }
}

pub proof fn lemma_nat_to_le_bytes_len(v: nat, n: nat)
    ensures
        nat_to_le_bytes(v, n).len() == n,
    decreases n,
{
    if n > 0 {
        lemma_nat_to_le_bytes_len(v / 256, (n - 1) as nat);
    }
}

pub proof fn lemma_le_bytes_bound(s: Seq<u8>)
    ensures
        le_bytes_to_nat(s) < pow256(s.len()),
    decreases s.len(),
{
    if s.len() > 0 {
        lemma_le_bytes_bound(s.skip(1));
    }
}

pub proof fn lemma_pow256_monotone(m: nat, n: nat)
    requires
        m <= n,
    ensures
        pow256(m) <= pow256(n),
    decreases n,
{
    if m < n {
        lemma_pow256_monotone(m, (n - 1) as nat);
    }
}

/// Writing `n` bytes of `v` and reading them back yields `v` when it fits.
pub proof fn lemma_le_round_trip(v: nat, n: nat)
    requires
        v < pow256(n),
    ensures
        le_bytes_to_nat(nat_to_le_bytes(v, n)) == v,
    decreases n,
{
    if n > 0 {
        let s = nat_to_le_bytes(v, n);
        lemma_le_round_trip(v / 256, (n - 1) as nat);
        assert(s.skip(1) =~= nat_to_le_bytes(v / 256, (n - 1) as nat));
    }
}

/// The byte-count powers that the fixed-width readers and writers use.
pub proof fn lemma_pow256_values()
    ensures
        pow256(1) == 0x100,
        pow256(4) == 0x100000000,
        pow256(8) == 0x10000000000000000,
        pow256(16) == 0x100000000000000000000000000000000,
{
    reveal_with_fuel(pow256, 17);
}

/// Appends the `n`-byte little-endian form of `v` to `buffer`.
fn write_le_bytes(buffer: &mut Vec<u8>, v: u128, n: usize)
    requires
        n <= 16,
        v < pow256(n as nat),
    ensures
        final(buffer)@ == old(buffer)@ + nat_to_le_bytes(v as nat, n as nat),
    decreases n,
{
    if n == 0 {
        assert(final(buffer)@ =~= old(buffer)@ + nat_to_le_bytes(v as nat, 0));
    } else {
        let byte: u8 = (v % 256) as u8;
        buffer.push(byte);
        write_le_bytes(buffer, v / 256, n - 1);
        assert(final(buffer)@ =~= old(buffer)@ + nat_to_le_bytes(v as nat, n as nat));
    }
}

/// Appends the four little-endian bytes of `num` to `buffer`.
pub fn write_u32_to_vec(buffer: &mut Vec<u8>, num: u32)
    ensures
        final(buffer)@ == old(buffer)@ + nat_to_le_bytes(num as nat, 4),
{
    proof {
        lemma_pow256_values();
    }
    write_le_bytes(buffer, num as u128, 4)
}

/// Appends the eight little-endian bytes of `num` to `buffer`.
pub fn write_u64_to_vec(buffer: &mut Vec<u8>, num: u64)
    ensures
        final(buffer)@ == old(buffer)@ + nat_to_le_bytes(num as nat, 8),
{
    proof {
        lemma_pow256_values();
    }
    write_le_bytes(buffer, num as u128, 8)
}

/// Appends the sixteen little-endian bytes of `num` to `buffer`.
pub fn write_u128_to_vec(buffer: &mut Vec<u8>, num: u128)
    ensures
        final(buffer)@ == old(buffer)@ + nat_to_le_bytes(num as nat, 16),
{
    proof {
        lemma_pow256_values();
        lemma_le_bytes_bound(nat_to_le_bytes(num as nat, 16));
    }
    write_le_bytes(buffer, num, 16)
}

/// Reads the `n`-byte little-endian value at `pos`.
fn read_le_bytes(bytes: &Vec<u8>, pos: usize, n: usize) -> (r: u128)
    requires
        n <= 16,
        pos + n <= bytes@.len(),
    ensures
        r == le_bytes_to_nat(bytes@.subrange(pos as int, pos + n)),
        r < pow256(n as nat),
    decreases n,
{
    let ghost blen: usize = bytes.len();
    proof {
        lemma_le_bytes_bound(bytes@.subrange(pos as int, pos + n));
    }
    if n == 0 {
        assert(bytes@.subrange(pos as int, pos as int) =~= Seq::<u8>::empty());
        0
    } else {
        let b: u8 = bytes[pos];
        let rest: u128 = read_le_bytes(bytes, pos + 1, n - 1);
        proof {
            let s = bytes@.subrange(pos as int, pos + n);
            assert(s.skip(1) =~= bytes@.subrange(pos + 1, pos + 1 + (n - 1)));
            assert(s[0] == bytes@[pos as int]);
            lemma_pow256_monotone(n as nat, 16);
            lemma_pow256_values();
            assert(256 * rest <= 256 * (pow256((n - 1) as nat) - 1)) by (nonlinear_arith)
                requires
                    rest < pow256((n - 1) as nat),
            ;
        }
        b as u128 + 256 * rest
    }
}

/// A cursor over a serialized payload. Reads consume little-endian integers
/// from the front; a read past the end yields zero and records
/// `MalformedInput` in `error`.
pub struct Deserializer {
    bytes: Vec<u8>,
    pos: usize,
    error: Option<DeserializationError>,
}

impl Deserializer {
    /// The whole payload.
    pub closed spec fn bytes_view(&self) -> Seq<u8> {
        self.bytes@
    }

    /// How many bytes have been consumed.
    pub closed spec fn pos_view(&self) -> int {
        self.pos as int
    }

    /// The first failure observed, if any.
    pub closed spec fn error_view(&self) -> Option<DeserializationError> {
        self.error
    }

    /// A cursor's position never precedes the start of the payload.
    pub proof fn lemma_pos_nonneg(&self)
        ensures
            self.pos_view() >= 0,
    {
    }

    /// Returns the first failure observed, if any.
    pub fn error(&self) -> (r: Option<DeserializationError>)
        ensures
            r == self.error_view(),
    {
        self.error
    }

    /// A cursor that has consumed `pos` bytes of `bytes` without failing.
    pub open spec fn is_at(&self, bytes: Seq<u8>, pos: int) -> bool {
        &&& self.bytes_view() == bytes
        &&& self.pos_view() == pos
        &&& self.error_view() is None
    }

    /// Starts a cursor at the beginning of `bytes`.
    pub fn new(bytes: &[u8]) -> (r: Deserializer)
        ensures
            r.is_at(bytes@, 0),
    {
        let mut copied: Vec<u8> = Vec::new();
        let mut i: usize = 0;
        while i < bytes.len()
            invariant
                i <= bytes@.len(),
                copied@ == bytes@.subrange(0, i as int),
            decreases bytes@.len() - i,
        {
            copied.push(bytes[i]);
            proof {
                assert(copied@ =~= bytes@.subrange(0, i + 1));
            }
            i = i + 1;
        }
        proof {
            assert(copied@ =~= bytes@);
        }
        Deserializer { bytes: copied, pos: 0, error: None }
    }

    /// How many bytes remain unread.
    pub fn remaining_len(&self) -> (r: usize)
        requires
            self.pos_view() <= self.bytes_view().len(),
        ensures
            r == self.bytes_view().len() - self.pos_view(),
    {
        self.bytes.len() - self.pos
    }

    /// Consumes `n` bytes as a little-endian value, or records an error.
    fn consume_le(&mut self, n: usize) -> (r: u128)
        requires
            n <= 16,
        ensures
            final(self).bytes_view() == old(self).bytes_view(),
            if old(self).error_view() is None && old(self).pos_view() + n
                <= old(self).bytes_view().len() {
                &&& r == le_bytes_to_nat(
                    old(self).bytes_view().subrange(
                        old(self).pos_view(),
                        old(self).pos_view() + n,
                    ),
                )
                &&& r < pow256(n as nat)
                &&& final(self).pos_view() == old(self).pos_view() + n
                &&& final(self).error_view() is None
            } else {
                &&& r == 0
                &&& final(self).pos_view() == old(self).pos_view()
                &&& final(self).error_view() is Some
            },
    {
        if self.error.is_some() {
            return 0;
        }
        if self.pos > self.bytes.len() || self.bytes.len() - self.pos < n {
            self.error = Some(DeserializationError::MalformedInput);
            return 0;
        }
        let r = read_le_bytes(&self.bytes, self.pos, n);
        self.pos = self.pos + n;
        r
    }

    /// Consumes one byte.
    pub fn consume_u8(&mut self) -> (r: u8)
        ensures
            final(self).bytes_view() == old(self).bytes_view(),
            if old(self).error_view() is None && old(self).pos_view() + 1
                <= old(self).bytes_view().len() {
                &&& r == le_bytes_to_nat(
                    old(self).bytes_view().subrange(
                        old(self).pos_view(),
                        old(self).pos_view() + 1,
                    ),
                )
                &&& final(self).pos_view() == old(self).pos_view() + 1
                &&& final(self).error_view() is None
            } else {
                &&& r == 0
                &&& final(self).pos_view() == old(self).pos_view()
                &&& final(self).error_view() is Some
            },
    {
        proof {
            lemma_pow256_values();
        }
        self.consume_le(1) as u8
    }

    /// Consumes four bytes as a little-endian `u32`.
    pub fn consume_u32(&mut self) -> (r: u32)
        ensures
            final(self).bytes_view() == old(self).bytes_view(),
            if old(self).error_view() is None && old(self).pos_view() + 4
                <= old(self).bytes_view().len() {
                &&& r == le_bytes_to_nat(
                    old(self).bytes_view().subrange(
                        old(self).pos_view(),
                        old(self).pos_view() + 4,
                    ),
                )
                &&& final(self).pos_view() == old(self).pos_view() + 4
                &&& final(self).error_view() is None
            } else {
                &&& r == 0
                &&& final(self).pos_view() == old(self).pos_view()
                &&& final(self).error_view() is Some
            },
    {
        proof {
            lemma_pow256_values();
        }
        self.consume_le(4) as u32
    }

    /// Consumes eight bytes as a little-endian `u64`.
    pub fn consume_u64(&mut self) -> (r: u64)
        ensures
            final(self).bytes_view() == old(self).bytes_view(),
            if old(self).error_view() is None && old(self).pos_view() + 8
                <= old(self).bytes_view().len() {
                &&& r == le_bytes_to_nat(
                    old(self).bytes_view().subrange(
                        old(self).pos_view(),
                        old(self).pos_view() + 8,
                    ),
                )
                &&& final(self).pos_view() == old(self).pos_view() + 8
                &&& final(self).error_view() is None
            } else {
                &&& r == 0
                &&& final(self).pos_view() == old(self).pos_view()
                &&& final(self).error_view() is Some
            },
    {
        proof {
            lemma_pow256_values();
        }
        self.consume_le(8) as u64
    }

    /// Consumes sixteen bytes as a little-endian `u128`.
    pub fn consume_u128(&mut self) -> (r: u128)
        ensures
            final(self).bytes_view() == old(self).bytes_view(),
            if old(self).error_view() is None && old(self).pos_view() + 16
                <= old(self).bytes_view().len() {
                &&& r == le_bytes_to_nat(
                    old(self).bytes_view().subrange(
                        old(self).pos_view(),
                        old(self).pos_view() + 16,
                    ),
                )
                &&& final(self).pos_view() == old(self).pos_view() + 16
                &&& final(self).error_view() is None
            } else {
                &&& r == 0
                &&& final(self).pos_view() == old(self).pos_view()
                &&& final(self).error_view() is Some
            },
    {
        self.consume_le(16)
    }

    /// Consumes eight bytes as a `u64`, handing the cursor back by value.
    pub fn take_u64(self) -> (r: (u64, Deserializer))
        ensures
            final_take_result(self, 8, r.0 as int, r.1),
    {
        let mut d = self;
        let v = d.consume_u64();
        (v, d)
    }

    /// Consumes sixteen bytes as a `u128`, handing the cursor back by value.
    pub fn take_u128(self) -> (r: (u128, Deserializer))
        ensures
            final_take_result(self, 16, r.0 as int, r.1),
    {
        let mut d = self;
        let v = d.consume_u128();
        (v, d)
    }

    /// Consumes eight bytes as a `u64` into `out`.
    pub fn take_and_write_u64(self, out: &mut u64) -> (r: Deserializer)
        ensures
            final_take_result(self, 8, *final(out) as int, r),
    {
        let (v, d) = self.take_u64();
        *out = v;
        d
    }
}

/// What a by-value read of `n` bytes from cursor `d` yields: the value `v`
/// and the advanced cursor `r`, or zero and a recorded error.
pub open spec fn final_take_result(d: Deserializer, n: int, v: int, r: Deserializer) -> bool {
    &&& r.bytes_view() == d.bytes_view()
    &&& if d.error_view() is None && d.pos_view() + n <= d.bytes_view().len() {
        &&& v == le_bytes_to_nat(d.bytes_view().subrange(d.pos_view(), d.pos_view() + n))
        &&& r.pos_view() == d.pos_view() + n
        &&& r.error_view() is None
    } else {
        &&& v == 0
        &&& r.pos_view() == d.pos_view()
        &&& r.error_view() is Some
    }
}

} // verus!
