//! Big-endian views of NBT numbers.
//!
//! NBT stores numbers big-endian. Each wrapper here keeps the bytes as
//! written, so that a value read from a document keeps the exact spelling it
//! had; [`U64Be::get`] yields the number and [`U64Be::new`] spells one.

use vstd::prelude::*;

verus! {

/// `256` to the power `n`: the number of values `n` bytes can spell.
pub open spec fn pow256(n: nat) -> nat
    decreases n,
{
    if n == 0 {
        1
    } else {
        256 * pow256((n - 1) as nat)
    }
}

/// The unsigned number that `bytes` spell, most significant byte first.
pub open spec fn be_uint(bytes: Seq<u8>) -> nat
    decreases bytes.len(),
{
    if bytes.len() == 0 {
        0
    } else {
        be_uint(bytes.drop_last()) * 256 + bytes.last() as nat
    }
}

/// The two's complement number that `bytes` spell, most significant byte first.
pub open spec fn be_sint(bytes: Seq<u8>) -> int {
    let u = be_uint(bytes);
    if 2 * u >= pow256(bytes.len()) {
        u - pow256(bytes.len())
    } else {
        u as int
    }
}

/// The `n` big-endian bytes of `v`, taken modulo `256^n`.
pub open spec fn be_encode(v: nat, n: nat) -> Seq<u8>
    decreases n,
{
    if n == 0 {
        Seq::empty()
    } else {
        be_encode(v / 256, (n - 1) as nat).push((v % 256) as u8)
    }
}

/// The `n` big-endian two's complement bytes of `v`.
pub open spec fn be_encode_signed(v: int, n: nat) -> Seq<u8> {
    if v < 0 {
        be_encode((v + pow256(n)) as nat, n)
    } else {
        be_encode(v as nat, n)
    }
}

/// Every power of 256 is at least one.
pub proof fn lemma_pow256_positive(n: nat)
    ensures
        pow256(n) >= 1,
    decreases n,
{
    if n > 0 {
        lemma_pow256_positive((n - 1) as nat);
    }
}

/// `n` bytes spell a number below `256^n`.
pub proof fn lemma_be_uint_bound(bytes: Seq<u8>)
    ensures
        be_uint(bytes) < pow256(bytes.len()),
    decreases bytes.len(),
{
    if bytes.len() > 0 {
        lemma_be_uint_bound(bytes.drop_last());
    }
}

/// Bytes spell zero exactly when every one of them is zero.
pub proof fn lemma_be_uint_zero(bytes: Seq<u8>)
    ensures
        be_uint(bytes) == 0 <==> forall|i: int| 0 <= i < bytes.len() ==> bytes[i] == 0,
    decreases bytes.len(),
{
    if bytes.len() > 0 {
        let init = bytes.drop_last();
        lemma_be_uint_zero(init);
        if be_uint(bytes) == 0 {
            assert forall|i: int| 0 <= i < bytes.len() implies bytes[i] == 0 by {
                if i < init.len() {
                    assert(bytes[i] == init[i]);
                }
            }
        }
        if forall|i: int| 0 <= i < bytes.len() ==> bytes[i] == 0 {
            assert forall|i: int| 0 <= i < init.len() implies init[i] == 0 by {
                assert(init[i] == bytes[i]);
            }
            assert(bytes.last() == bytes[bytes.len() - 1]);
        }
    }
}

/// Spelling a number in `n` bytes takes `n` bytes.
pub proof fn lemma_be_encode_len(v: nat, n: nat)
    ensures
        be_encode(v, n).len() == n,
    decreases n,
{
    if n > 0 {
        lemma_be_encode_len(v / 256, (n - 1) as nat);
    }
}

/// Reading back the bytes a number was spelled as gives the number.
pub proof fn lemma_be_encode_decode(v: nat, n: nat)
    requires
        v < pow256(n),
    ensures
        be_encode(v, n).len() == n,
        be_uint(be_encode(v, n)) == v,
    decreases n,
{
    lemma_be_encode_len(v, n);
    if n > 0 {
        lemma_be_encode_decode(v / 256, (n - 1) as nat);
        let s = be_encode(v, n);
        assert(s.drop_last() =~= be_encode(v / 256, (n - 1) as nat));
    }
}

/// Spelling `v` in `m + n` bytes spells its high part in the first `m`,
/// then its low part in the last `n`.
pub proof fn lemma_be_encode_split(v: nat, m: nat, n: nat)
    ensures
        be_encode(v, m + n) == be_encode(v / pow256(n), m) + be_encode(v % pow256(n), n),
    decreases n,
{
    if n == 0 {
        assert(pow256(0) == 1);
        assert(v / 1 == v && v % 1 == 0) by (nonlinear_arith);
        assert(be_encode(v, m) + Seq::<u8>::empty() =~= be_encode(v, m));
    } else {
        let k = (n - 1) as nat;
        let p = pow256(k);
        lemma_pow256_positive(k);
        lemma_be_encode_split(v / 256, m, k);
        assert(pow256(n) == 256 * p);
        vstd::arithmetic::div_mod::lemma_div_denominator(v as int, 256, p as int);
        vstd::arithmetic::div_mod::lemma_mod_mod(v as int, 256, p as int);
        vstd::arithmetic::div_mod::lemma_mod_breakdown(v as int, 256, p as int);
        let low = v % pow256(n);
        let q = (v / 256) % p;
        assert(low == 256 * q + v % 256);
        assert(low / 256 == q && low % 256 == v % 256) by (nonlinear_arith)
            requires
                low == 256 * q + v % 256,
                0 <= v % 256 < 256,
                q >= 0,
        ;
        assert(be_encode(low, n) == be_encode(low / 256, k).push((low % 256) as u8));
        assert(be_encode(v, m + n) == be_encode(v / 256, m + k).push((v % 256) as u8));
        assert(be_encode(v, m + n) =~= be_encode(v / pow256(n), m) + be_encode(low, n));
    }
}

/// Spelling the number that bytes spell gives back the bytes.
pub proof fn lemma_be_decode_encode(bytes: Seq<u8>)
    ensures
        be_encode(be_uint(bytes), bytes.len()) == bytes,
    decreases bytes.len(),
{
    if bytes.len() > 0 {
        let init = bytes.drop_last();
        lemma_be_decode_encode(init);
        let u = be_uint(bytes);
        assert(u / 256 == be_uint(init));
        assert(u % 256 == bytes.last());
        assert(be_encode(u, bytes.len()) =~= bytes);
    }
}

/// Reading back the two's complement bytes a number was spelled as gives
/// the number.
pub proof fn lemma_be_signed_encode_decode(v: int, n: nat)
    requires
        n > 0,
        -pow256(n) <= 2 * v < pow256(n),
    ensures
        be_encode_signed(v, n).len() == n,
        be_sint(be_encode_signed(v, n)) == v,
{
    if v < 0 {
        lemma_be_encode_decode((v + pow256(n)) as nat, n);
    } else {
        lemma_be_encode_decode(v as nat, n);
    }
}

/// Spelling the two's complement number that bytes spell gives back the
/// bytes.
pub proof fn lemma_be_signed_decode_encode(bytes: Seq<u8>)
    ensures
        be_encode_signed(be_sint(bytes), bytes.len()) == bytes,
{
    lemma_be_uint_bound(bytes);
    lemma_be_decode_encode(bytes);
}

/// A `TAG_Short` kept as the two big-endian bytes NBT stores.
///
/// [`U16Be::get`] reads them as an `u16`.
///
/// Big-endian bytes order as the numbers they spell, so the derived order
/// is the numeric one.
#[derive(Clone, Copy, PartialEq, Eq, Hash, Default, Debug, PartialOrd, Ord)]
pub struct U16Be([u8; 2]);

impl View for U16Be {
    type V = Seq<u8>;

    closed spec fn view(&self) -> Seq<u8> {
        self.0@
    }
}

impl DeepView for U16Be {
    type V = Seq<u8>;

    open spec fn deep_view(&self) -> Seq<u8> {
        self@
    }
}

impl U16Be {
    /// The bytes always number 2.
    pub proof fn lemma_len(self)
        ensures
            self@.len() == 2,
    {
    }

    /// The value as the bytes NBT stores.
    pub fn new(value: u16) -> (r: Self)
        ensures
            r@ == be_encode(value as nat, 2),
    {
        let u: u16 = value;
        let mut v: u16 = u;
        let b1 = (v % 256) as u8;
        v = v / 256;
        let b0 = (v % 256) as u8;
        proof {
            reveal_with_fuel(be_encode, 3);
            reveal_with_fuel(pow256, 3);
        }
        let r = U16Be([b0, b1]);
        assert(r@ =~= be_encode(u as nat, 2));
        r
    }

    /// The number the bytes encode.
    pub fn get(self) -> (value: u16)
        ensures
            value as int == be_uint(self@),
    {
        let b = self.0;
        proof {
            reveal_with_fuel(be_uint, 3);
            reveal_with_fuel(pow256, 3);
        }
        let u: u16 = ((b[0] as u16) * 256 + b[1] as u16);
        assert(u as int == be_uint(self@));
        u
    }

    /// The bytes as written, without decoding them.
    pub fn as_bytes(&self) -> (bytes: &[u8; 2])
        ensures
            bytes@ == self@,
    {
        &self.0
    }

    /// A value from its big-endian bytes.
    pub fn from_bytes(bytes: [u8; 2]) -> (r: Self)
        ensures
            r@ == bytes@,
    {
        U16Be(bytes)
    }
}

/// A `TAG_Short` kept as the two big-endian bytes NBT stores.
///
/// [`I16Be::get`] reads them as an `i16`.
#[derive(Clone, Copy, PartialEq, Eq, Hash, Default, Debug)]
pub struct I16Be([u8; 2]);

impl View for I16Be {
    type V = Seq<u8>;

    closed spec fn view(&self) -> Seq<u8> {
        self.0@
    }
}

impl DeepView for I16Be {
    type V = Seq<u8>;

    open spec fn deep_view(&self) -> Seq<u8> {
        self@
    }
}

impl I16Be {
    /// The bytes always number 2.
    pub proof fn lemma_len(self)
        ensures
            self@.len() == 2,
    {
    }

    /// The value as the bytes NBT stores.
    pub fn new(value: i16) -> (r: Self)
        ensures
            r@ == be_encode_signed(value as int, 2),
    {
        let u: u16 = if value < 0 {
            (value as i32 + 65536) as u16
        } else {
            value as u16
        };
        let mut v: u16 = u;
        let b1 = (v % 256) as u8;
        v = v / 256;
        let b0 = (v % 256) as u8;
        proof {
            reveal_with_fuel(be_encode, 3);
            reveal_with_fuel(pow256, 3);
        }
        let r = I16Be([b0, b1]);
        assert(r@ =~= be_encode(u as nat, 2));
        r
    }

    /// The number the bytes encode.
    pub fn get(self) -> (value: i16)
        ensures
            value as int == be_sint(self@),
    {
        let b = self.0;
        proof {
            reveal_with_fuel(be_uint, 3);
            reveal_with_fuel(pow256, 3);
        }
        let u: u16 = ((b[0] as u16) * 256 + b[1] as u16);
        assert(u as int == be_uint(self@));
        if u >= 32768 {
            (u as i32 - 65536) as i16
        } else {
            u as i16
        }
    }

    /// The bytes as written, without decoding them.
    pub fn as_bytes(&self) -> (bytes: &[u8; 2])
        ensures
            bytes@ == self@,
    {
        &self.0
    }

    /// A value from its big-endian bytes.
    pub fn from_bytes(bytes: [u8; 2]) -> (r: Self)
        ensures
            r@ == bytes@,
    {
        I16Be(bytes)
    }
}

/// A `TAG_Int` kept as the four big-endian bytes NBT stores.
///
/// [`U32Be::get`] reads them as an `u32`.
///
/// Big-endian bytes order as the numbers they spell, so the derived order
/// is the numeric one.
#[derive(Clone, Copy, PartialEq, Eq, Hash, Default, Debug, PartialOrd, Ord)]
pub struct U32Be([u8; 4]);

impl View for U32Be {
    type V = Seq<u8>;

    closed spec fn view(&self) -> Seq<u8> {
        self.0@
    }
}

impl DeepView for U32Be {
    type V = Seq<u8>;

    open spec fn deep_view(&self) -> Seq<u8> {
        self@
    }
}

impl U32Be {
    /// The bytes always number 4.
    pub proof fn lemma_len(self)
        ensures
            self@.len() == 4,
    {
    }

    /// The value as the bytes NBT stores.
    pub fn new(value: u32) -> (r: Self)
        ensures
            r@ == be_encode(value as nat, 4),
    {
        let u: u32 = value;
        let mut v: u32 = u;
        let b3 = (v % 256) as u8;
        v = v / 256;
        let b2 = (v % 256) as u8;
        v = v / 256;
        let b1 = (v % 256) as u8;
        v = v / 256;
        let b0 = (v % 256) as u8;
        proof {
            reveal_with_fuel(be_encode, 5);
            reveal_with_fuel(pow256, 5);
        }
        let r = U32Be([b0, b1, b2, b3]);
        assert(r@ =~= be_encode(u as nat, 4));
        r
    }

    /// The number the bytes encode.
    pub fn get(self) -> (value: u32)
        ensures
            value as int == be_uint(self@),
    {
        let b = self.0;
        proof {
            reveal_with_fuel(be_uint, 5);
            reveal_with_fuel(pow256, 5);
        }
        let u: u32 = ((((b[0] as u32) * 256 + b[1] as u32) * 256 + b[2] as u32) * 256 + b[3] as u32);
        assert(u as int == be_uint(self@));
        u
    }

    /// The bytes as written, without decoding them.
    pub fn as_bytes(&self) -> (bytes: &[u8; 4])
        ensures
            bytes@ == self@,
    {
        &self.0
    }

    /// A value from its big-endian bytes.
    pub fn from_bytes(bytes: [u8; 4]) -> (r: Self)
        ensures
            r@ == bytes@,
    {
        U32Be(bytes)
    }
}

/// A `TAG_Int` kept as the four big-endian bytes NBT stores.
///
/// [`I32Be::get`] reads them as an `i32`.
#[derive(Clone, Copy, PartialEq, Eq, Hash, Default, Debug)]
pub struct I32Be([u8; 4]);

impl View for I32Be {
    type V = Seq<u8>;

    closed spec fn view(&self) -> Seq<u8> {
        self.0@
    }
}

impl DeepView for I32Be {
    type V = Seq<u8>;

    open spec fn deep_view(&self) -> Seq<u8> {
        self@
    }
}

impl I32Be {
    /// The bytes always number 4.
    pub proof fn lemma_len(self)
        ensures
            self@.len() == 4,
    {
    }

    /// The value as the bytes NBT stores.
    pub fn new(value: i32) -> (r: Self)
        ensures
            r@ == be_encode_signed(value as int, 4),
    {
        let u: u32 = if value < 0 {
            (value as i64 + 4294967296) as u32
        } else {
            value as u32
        };
        let mut v: u32 = u;
        let b3 = (v % 256) as u8;
        v = v / 256;
        let b2 = (v % 256) as u8;
        v = v / 256;
        let b1 = (v % 256) as u8;
        v = v / 256;
        let b0 = (v % 256) as u8;
        proof {
            reveal_with_fuel(be_encode, 5);
            reveal_with_fuel(pow256, 5);
        }
        let r = I32Be([b0, b1, b2, b3]);
        assert(r@ =~= be_encode(u as nat, 4));
        r
    }

    /// The number the bytes encode.
    pub fn get(self) -> (value: i32)
        ensures
            value as int == be_sint(self@),
    {
        let b = self.0;
        proof {
            reveal_with_fuel(be_uint, 5);
            reveal_with_fuel(pow256, 5);
        }
        let u: u32 = ((((b[0] as u32) * 256 + b[1] as u32) * 256 + b[2] as u32) * 256 + b[3] as u32);
        assert(u as int == be_uint(self@));
        if u >= 2147483648 {
            (u as i64 - 4294967296) as i32
        } else {
            u as i32
        }
    }

    /// The bytes as written, without decoding them.
    pub fn as_bytes(&self) -> (bytes: &[u8; 4])
        ensures
            bytes@ == self@,
    {
        &self.0
    }

    /// A value from its big-endian bytes.
    pub fn from_bytes(bytes: [u8; 4]) -> (r: Self)
        ensures
            r@ == bytes@,
    {
        I32Be(bytes)
    }
}

/// A `TAG_Long` kept as the eight big-endian bytes NBT stores.
///
/// [`U64Be::get`] reads them as an `u64`.
///
/// Big-endian bytes order as the numbers they spell, so the derived order
/// is the numeric one.
#[derive(Clone, Copy, PartialEq, Eq, Hash, Default, Debug, PartialOrd, Ord)]
pub struct U64Be([u8; 8]);

impl View for U64Be {
    type V = Seq<u8>;

    closed spec fn view(&self) -> Seq<u8> {
        self.0@
    }
}

impl DeepView for U64Be {
    type V = Seq<u8>;

    open spec fn deep_view(&self) -> Seq<u8> {
        self@
    }
}

impl U64Be {
    /// The bytes always number 8.
    pub proof fn lemma_len(self)
        ensures
            self@.len() == 8,
    {
    }

    /// The value as the bytes NBT stores.
    pub fn new(value: u64) -> (r: Self)
        ensures
            r@ == be_encode(value as nat, 8),
    {
        let u: u64 = value;
        let mut v: u64 = u;
        let b7 = (v % 256) as u8;
        v = v / 256;
        let b6 = (v % 256) as u8;
        v = v / 256;
        let b5 = (v % 256) as u8;
        v = v / 256;
        let b4 = (v % 256) as u8;
        v = v / 256;
        let b3 = (v % 256) as u8;
        v = v / 256;
        let b2 = (v % 256) as u8;
        v = v / 256;
        let b1 = (v % 256) as u8;
        v = v / 256;
        let b0 = (v % 256) as u8;
        proof {
            reveal_with_fuel(be_encode, 9);
            reveal_with_fuel(pow256, 9);
        }
        let r = U64Be([b0, b1, b2, b3, b4, b5, b6, b7]);
        assert(r@ =~= be_encode(u as nat, 8));
        r
    }

    /// The number the bytes encode.
    pub fn get(self) -> (value: u64)
        ensures
            value as int == be_uint(self@),
    {
        let b = self.0;
        proof {
            reveal_with_fuel(be_uint, 9);
            reveal_with_fuel(pow256, 9);
        }
        let u: u64 = ((((((((b[0] as u64) * 256 + b[1] as u64) * 256 + b[2] as u64) * 256 + b[3] as u64) * 256 + b[4] as u64) * 256 + b[5] as u64) * 256 + b[6] as u64) * 256 + b[7] as u64);
        assert(u as int == be_uint(self@));
        u
    }

    /// The bytes as written, without decoding them.
    pub fn as_bytes(&self) -> (bytes: &[u8; 8])
        ensures
            bytes@ == self@,
    {
        &self.0
    }

    /// A value from its big-endian bytes.
    pub fn from_bytes(bytes: [u8; 8]) -> (r: Self)
        ensures
            r@ == bytes@,
    {
        U64Be(bytes)
    }
}

/// A `TAG_Long` kept as the eight big-endian bytes NBT stores.
///
/// [`I64Be::get`] reads them as an `i64`.
#[derive(Clone, Copy, PartialEq, Eq, Hash, Default, Debug)]
pub struct I64Be([u8; 8]);

impl View for I64Be {
    type V = Seq<u8>;

    closed spec fn view(&self) -> Seq<u8> {
        self.0@
    }
}

impl DeepView for I64Be {
    type V = Seq<u8>;

    open spec fn deep_view(&self) -> Seq<u8> {
        self@
    }
}

impl I64Be {
    /// The bytes always number 8.
    pub proof fn lemma_len(self)
        ensures
            self@.len() == 8,
    {
    }

    /// The value as the bytes NBT stores.
    pub fn new(value: i64) -> (r: Self)
        ensures
            r@ == be_encode_signed(value as int, 8),
    {
        let u: u64 = if value < 0 {
            (value as i128 + 18446744073709551616) as u64
        } else {
            value as u64
        };
        let mut v: u64 = u;
        let b7 = (v % 256) as u8;
        v = v / 256;
        let b6 = (v % 256) as u8;
        v = v / 256;
        let b5 = (v % 256) as u8;
        v = v / 256;
        let b4 = (v % 256) as u8;
        v = v / 256;
        let b3 = (v % 256) as u8;
        v = v / 256;
        let b2 = (v % 256) as u8;
        v = v / 256;
        let b1 = (v % 256) as u8;
        v = v / 256;
        let b0 = (v % 256) as u8;
        proof {
            reveal_with_fuel(be_encode, 9);
            reveal_with_fuel(pow256, 9);
        }
        let r = I64Be([b0, b1, b2, b3, b4, b5, b6, b7]);
        assert(r@ =~= be_encode(u as nat, 8));
        r
    }

    /// The number the bytes encode.
    pub fn get(self) -> (value: i64)
        ensures
            value as int == be_sint(self@),
    {
        let b = self.0;
        proof {
            reveal_with_fuel(be_uint, 9);
            reveal_with_fuel(pow256, 9);
        }
        let u: u64 = ((((((((b[0] as u64) * 256 + b[1] as u64) * 256 + b[2] as u64) * 256 + b[3] as u64) * 256 + b[4] as u64) * 256 + b[5] as u64) * 256 + b[6] as u64) * 256 + b[7] as u64);
        assert(u as int == be_uint(self@));
        if u >= 9223372036854775808 {
            (u as i128 - 18446744073709551616) as i64
        } else {
            u as i64
        }
    }

    /// The bytes as written, without decoding them.
    pub fn as_bytes(&self) -> (bytes: &[u8; 8])
        ensures
            bytes@ == self@,
    {
        &self.0
    }

    /// A value from its big-endian bytes.
    pub fn from_bytes(bytes: [u8; 8]) -> (r: Self)
        ensures
            r@ == bytes@,
    {
        I64Be(bytes)
    }
}

/// A `TAG_Float` kept as the four big-endian bytes NBT stores.
///
/// The number itself is a float, which this library does not compute with:
/// the bytes are what it reads, keeps and writes.
#[derive(Clone, Copy, Default, Debug)]
pub struct F32Be([u8; 4]);

impl View for F32Be {
    type V = Seq<u8>;

    closed spec fn view(&self) -> Seq<u8> {
        self.0@
    }
}

impl DeepView for F32Be {
    type V = Seq<u8>;

    open spec fn deep_view(&self) -> Seq<u8> {
        self@
    }
}

impl F32Be {
    /// The bytes always number 4.
    pub proof fn lemma_len(self)
        ensures
            self@.len() == 4,
    {
    }

    /// The bytes as written, without decoding them.
    pub fn as_bytes(&self) -> (bytes: &[u8; 4])
        ensures
            bytes@ == self@,
    {
        &self.0
    }

    /// A value from its big-endian bytes.
    pub fn from_bytes(bytes: [u8; 4]) -> (r: Self)
        ensures
            r@ == bytes@,
    {
        F32Be(bytes)
    }
}

/// A `TAG_Double` kept as the eight big-endian bytes NBT stores.
///
/// The number itself is a float, which this library does not compute with:
/// the bytes are what it reads, keeps and writes.
#[derive(Clone, Copy, Default, Debug)]
pub struct F64Be([u8; 8]);

impl View for F64Be {
    type V = Seq<u8>;

    closed spec fn view(&self) -> Seq<u8> {
        self.0@
    }
}

impl DeepView for F64Be {
    type V = Seq<u8>;

    open spec fn deep_view(&self) -> Seq<u8> {
        self@
    }
}

impl F64Be {
    /// The bytes always number 8.
    pub proof fn lemma_len(self)
        ensures
            self@.len() == 8,
    {
    }

    /// The bytes as written, without decoding them.
    pub fn as_bytes(&self) -> (bytes: &[u8; 8])
        ensures
            bytes@ == self@,
    {
        &self.0
    }

    /// A value from its big-endian bytes.
    pub fn from_bytes(bytes: [u8; 8]) -> (r: Self)
        ensures
            r@ == bytes@,
    {
        F64Be(bytes)
    }
}

/// The sixteen big-endian bytes of a `u128`.
pub fn u128_to_be(v: u128) -> (bytes: Vec<u8>)
    ensures
        bytes@ == be_encode(v as nat, 16),
{
    let hi = U64Be::new((v >> 64) as u64);
    let lo = U64Be::new(v as u64);
    let mut out: Vec<u8> = Vec::new();
    let h = hi.as_bytes();
    let l = lo.as_bytes();
    let mut i: usize = 0;
    while i < 8
        invariant
            i <= 8,
            h@.len() == 8,
            out@ == h@.take(i as int),
        decreases 8 - i,
    {
        out.push(h[i]);
        i = i + 1;
        assert(out@ =~= h@.take(i as int));
    }
    let mut j: usize = 0;
    while j < 8
        invariant
            j <= 8,
            h@.len() == 8,
            l@.len() == 8,
            out@ == h@ + l@.take(j as int),
        decreases 8 - j,
    {
        out.push(l[j]);
        j = j + 1;
        assert(out@ =~= h@ + l@.take(j as int));
    }
    proof {
        reveal_with_fuel(pow256, 9);
        assert(h@.take(8) =~= h@);
        assert(l@.take(8) =~= l@);
        assert(pow256(8) == 0x1_0000_0000_0000_0000);
        assert((v >> 64) as u64 == v as nat / 0x1_0000_0000_0000_0000) by (bit_vector);
        assert(v as u64 == v as nat % 0x1_0000_0000_0000_0000) by (bit_vector);
        lemma_be_encode_split(v as nat, 8, 8);
    }
    out
}

/// The `u128` sixteen big-endian bytes spell.
pub fn u128_from_be(bytes: &[u8]) -> (v: u128)
    requires
        bytes@.len() == 16,
    ensures
        v as nat == be_uint(bytes@),
{
    let mut acc: u128 = 0;
    let mut i: usize = 0;
    proof {
        reveal_with_fuel(pow256, 17);
        assert(bytes@.take(0) =~= Seq::<u8>::empty());
    }
    while i < 16
        invariant
            i <= 16,
            bytes@.len() == 16,
            acc == be_uint(bytes@.take(i as int)),
            acc < pow256(i as nat),
            pow256(16) == 0x1_0000_0000_0000_0000_0000_0000_0000_0000,
            forall|j: nat| j <= 16 ==> #[trigger] pow256(j) <= pow256(16),
        decreases 16 - i,
    {
        assert(bytes@.take(i + 1).drop_last() =~= bytes@.take(i as int));
        assert(pow256((i + 1) as nat) == 256 * pow256(i as nat));
        assert(pow256((i + 1) as nat) <= pow256(16));
        assert(acc * 256 + bytes[i as int] < pow256((i + 1) as nat)) by (nonlinear_arith)
            requires
                acc < pow256(i as nat),
                bytes[i as int] < 256,
                pow256((i + 1) as nat) == 256 * pow256(i as nat),
        ;
        acc = acc * 256 + bytes[i] as u128;
        i = i + 1;
    }
    assert(bytes@.take(16) =~= bytes@);
    acc
}

} // verus!
