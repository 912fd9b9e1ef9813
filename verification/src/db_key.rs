//! Spatial keys: a detail level plus a Morton code, encoded to a fixed-width
//! big-endian byte string whose lexicographic order equals Morton order within
//! a level. The level occupies the most significant byte, so one range scan
//! over a level is contiguous.

use vstd::prelude::*;
use crate::bytes::{
    be_bytes, from_be, lex_lt, lemma_be_bytes_from_be, lemma_be_bytes_len, lemma_be_bytes_order,
    lemma_from_be_be_bytes, lemma_from_be_bound, lemma_pow256_widths, pow256, u128_to_be_bytes,
    be_bytes_to_u128,
};
use crate::Level;

verus! {

/// A key of the store: its encoded form is one level byte followed by the
/// big-endian Morton bytes.
pub trait DbKey: Sized + Copy {
    /// Whether the key's Morton code fits its width.
    spec fn wf(self) -> bool;

    /// The key's detail level.
    spec fn level_spec(self) -> u8;

    /// The key's Morton code, as a number.
    spec fn morton_spec(self) -> nat;

    /// How many bytes the Morton code occupies in the encoded form.
    spec fn width() -> nat;

    /// The encoded form: level byte, then big-endian Morton bytes.
    spec fn encode_spec(self) -> Seq<u8>;

    /// The key a correctly sized byte string denotes.
    spec fn decode_spec(b: Seq<u8>) -> Self;

    /// The length of an encoded key.
    fn key_width() -> (r: usize)
        ensures
            r as nat == 1 + Self::width(),
    ;

    /// Encodes the key for the engine.
    fn as_sled_key(&self) -> (r: Vec<u8>)
        requires
            self.wf(),
        ensures
            r@ == self.encode_spec(),
            r@.len() == 1 + Self::width(),
    ;

    /// Decodes a key from its encoded form.
    fn from_sled_key(bytes: &Vec<u8>) -> (r: Self)
        requires
            bytes@.len() == 1 + Self::width(),
        ensures
            r == Self::decode_spec(bytes@),
            r.wf(),
    ;

    /// Whether this key comes strictly before `other` in key order.
    fn key_lt(&self, other: &Self) -> (r: bool)
        requires
            self.wf(),
            other.wf(),
        ensures
            r == (self.level_spec() < other.level_spec() || (self.level_spec()
                == other.level_spec() && self.morton_spec() < other.morton_spec())),
    ;

    /// Whether this key equals `other`.
    fn key_eq(&self, other: &Self) -> (r: bool)
        requires
            self.wf(),
            other.wf(),
        ensures
            r == (*self == *other),
    ;

    /// A key is nothing but its level and Morton code.
    proof fn lemma_eq_by_parts(self, other: Self)
        requires
            self.wf(),
            other.wf(),
            self.level_spec() == other.level_spec(),
            self.morton_spec() == other.morton_spec(),
        ensures
            self == other,
    ;

    /// Decoding an encoded key returns the key.
    proof fn lemma_round_trip(self)
        requires
            self.wf(),
        ensures
            Self::decode_spec(self.encode_spec()) == self,
            self.encode_spec().len() == 1 + Self::width(),
    ;

    /// Encoding a decoded byte string returns the bytes.
    proof fn lemma_decode_encode(b: Seq<u8>)
        requires
            b.len() == 1 + Self::width(),
        ensures
            Self::decode_spec(b).wf(),
            Self::decode_spec(b).encode_spec() == b,
    ;

    /// The encoded byte order is exactly the key order: levels first, then
    /// Morton codes within a level.
    proof fn lemma_encode_order(self, other: Self)
        requires
            self.wf(),
            other.wf(),
        ensures
            lex_lt(self.encode_spec(), other.encode_spec()) <==> (self.level_spec()
                < other.level_spec() || (self.level_spec() == other.level_spec()
                && self.morton_spec() < other.morton_spec())),
    ;
}

/// Key order: by level, then by Morton code.
pub open spec fn key_lt_spec<K: DbKey>(a: K, b: K) -> bool {
    a.level_spec() < b.level_spec() || (a.level_spec() == b.level_spec() && a.morton_spec()
        < b.morton_spec())
}

/// A quadtree key: a level and a 64-bit Morton code, encoded in 9 bytes.
#[derive(Clone, Copy, Debug, PartialEq, Eq, Structural, PartialOrd, Ord, Hash)]
pub struct DbKey2i32 {
    pub level: Level,
    pub morton: u64,
}

impl DbKey2i32 {
    pub fn new(level: Level, morton: u64) -> (r: Self)
        ensures
            r.level == level,
            r.morton == morton,
    {
        Self { level, morton }
    }
}

/// An octree key: a level and a 96-bit Morton code, encoded in 13 bytes.
#[derive(Clone, Copy, Debug, PartialEq, Eq, Structural, PartialOrd, Ord, Hash)]
pub struct DbKey3i32 {
    pub level: Level,
    pub morton: u128,
}

/// The least Morton code that does not fit an octree key's 12 bytes.
pub open spec fn morton3_limit() -> nat {
    0x1000000000000000000000000
}

impl DbKey3i32 {
    pub fn new(level: Level, morton: u128) -> (r: Self)
        requires
            morton < 0x1000000000000000000000000u128,
        ensures
            r.level == level,
            r.morton == morton,
    {
        Self { level, morton }
    }
}

impl DbKey for DbKey2i32 {
    open spec fn wf(self) -> bool {
        true
    }

    open spec fn level_spec(self) -> u8 {
        self.level
    }

    open spec fn morton_spec(self) -> nat {
        self.morton as nat
    }

    open spec fn width() -> nat {
        8
    }

    open spec fn encode_spec(self) -> Seq<u8> {
        seq![self.level] + be_bytes(self.morton as nat, 8)
    }

    open spec fn decode_spec(b: Seq<u8>) -> Self {
        DbKey2i32 { level: b[0], morton: from_be(b.subrange(1, 9)) as u64 }
    }

    fn key_width() -> (r: usize) {
        9
    }

    fn as_sled_key(&self) -> (r: Vec<u8>) {
        proof {
            lemma_pow256_widths();
            lemma_be_bytes_len(self.morton as nat, 8);
        }
        let mut v = u128_to_be_bytes(self.morton as u128, 8);
        v.insert(0, self.level);
        proof {
            assert(v@ =~= seq![self.level] + be_bytes(self.morton as nat, 8));
        }
        v
    }

    fn from_sled_key(bytes: &Vec<u8>) -> (r: Self) {
        let level = bytes[0];
        proof {
            lemma_pow256_widths();
            lemma_from_be_bound(bytes@.subrange(1, 9));
        }
        let morton = be_bytes_to_u128(bytes, 1, 9) as u64;
        DbKey2i32 { level, morton }
    }

    fn key_lt(&self, other: &Self) -> (r: bool) {
        self.level < other.level || (self.level == other.level && self.morton < other.morton)
    }

    fn key_eq(&self, other: &Self) -> (r: bool) {
        self.level == other.level && self.morton == other.morton
    }

    proof fn lemma_eq_by_parts(self, other: Self) {
    }

    proof fn lemma_round_trip(self) {
        lemma_pow256_widths();
        lemma_be_bytes_len(self.morton as nat, 8);
        let e = self.encode_spec();
        assert(e.subrange(1, 9) =~= be_bytes(self.morton as nat, 8));
        lemma_from_be_be_bytes(self.morton as nat, 8);
    }

    proof fn lemma_decode_encode(b: Seq<u8>) {
        lemma_pow256_widths();
        let sub = b.subrange(1, 9);
        lemma_from_be_bound(sub);
        lemma_be_bytes_from_be(sub);
        let k = Self::decode_spec(b);
        assert(k.encode_spec() =~= b);
    }

    proof fn lemma_encode_order(self, other: Self) {
        lemma_pow256_widths();
        lemma_be_bytes_len(self.morton as nat, 8);
        lemma_be_bytes_len(other.morton as nat, 8);
        let ea = self.encode_spec();
        let eb = other.encode_spec();
        assert(ea[0] == self.level && eb[0] == other.level);
        assert(ea.drop_first() =~= be_bytes(self.morton as nat, 8));
        assert(eb.drop_first() =~= be_bytes(other.morton as nat, 8));
        lemma_be_bytes_order(self.morton as nat, other.morton as nat, 8);
    }
}

impl DbKey for DbKey3i32 {
    open spec fn wf(self) -> bool {
        (self.morton as nat) < morton3_limit()
    }

    open spec fn level_spec(self) -> u8 {
        self.level
    }

    open spec fn morton_spec(self) -> nat {
        self.morton as nat
    }

    open spec fn width() -> nat {
        12
    }

    open spec fn encode_spec(self) -> Seq<u8> {
        seq![self.level] + be_bytes(self.morton as nat, 12)
    }

    open spec fn decode_spec(b: Seq<u8>) -> Self {
        DbKey3i32 { level: b[0], morton: from_be(b.subrange(1, 13)) as u128 }
    }

    fn key_width() -> (r: usize) {
        13
    }

    fn as_sled_key(&self) -> (r: Vec<u8>) {
        proof {
            lemma_pow256_widths();
            lemma_be_bytes_len(self.morton as nat, 12);
        }
        let mut v = u128_to_be_bytes(self.morton, 12);
        v.insert(0, self.level);
        proof {
            assert(v@ =~= seq![self.level] + be_bytes(self.morton as nat, 12));
        }
        v
    }

    fn from_sled_key(bytes: &Vec<u8>) -> (r: Self) {
        let level = bytes[0];
        proof {
            lemma_pow256_widths();
            lemma_from_be_bound(bytes@.subrange(1, 13));
        }
        let morton = be_bytes_to_u128(bytes, 1, 13);
        DbKey3i32 { level, morton }
    }

    fn key_lt(&self, other: &Self) -> (r: bool) {
        self.level < other.level || (self.level == other.level && self.morton < other.morton)
    }

    fn key_eq(&self, other: &Self) -> (r: bool) {
        self.level == other.level && self.morton == other.morton
    }

    proof fn lemma_eq_by_parts(self, other: Self) {
    }

    proof fn lemma_round_trip(self) {
        lemma_pow256_widths();
        lemma_be_bytes_len(self.morton as nat, 12);
        let e = self.encode_spec();
        assert(e.subrange(1, 13) =~= be_bytes(self.morton as nat, 12));
        lemma_from_be_be_bytes(self.morton as nat, 12);
    }

    proof fn lemma_decode_encode(b: Seq<u8>) {
        lemma_pow256_widths();
        let sub = b.subrange(1, 13);
        lemma_from_be_bound(sub);
        lemma_be_bytes_from_be(sub);
        let k = Self::decode_spec(b);
        assert(k.encode_spec() =~= b);
    }

    proof fn lemma_encode_order(self, other: Self) {
        lemma_pow256_widths();
        lemma_be_bytes_len(self.morton as nat, 12);
        lemma_be_bytes_len(other.morton as nat, 12);
        let ea = self.encode_spec();
        let eb = other.encode_spec();
        assert(ea[0] == self.level && eb[0] == other.level);
        assert(ea.drop_first() =~= be_bytes(self.morton as nat, 12));
        assert(eb.drop_first() =~= be_bytes(other.morton as nat, 12));
        lemma_be_bytes_order(self.morton as nat, other.morton as nat, 12);
    }
}

/// Keys with equal encodings are equal.
pub proof fn lemma_encode_injective<K: DbKey>(a: K, b: K)
    requires
        a.wf(),
        b.wf(),
        a.encode_spec() == b.encode_spec(),
    ensures
        a == b,
{
    a.lemma_round_trip();
    b.lemma_round_trip();
}

/// The least and greatest keys of a level, in encoded order.
impl DbKey2i32 {
    /// The inclusive key range of a level over a Morton interval.
    pub fn extent_range(level: u8, min_morton: u64, max_morton: u64) -> (r: (Self, Self))
        ensures
            r.0.level == level,
            r.0.morton == min_morton,
            r.1.level == level,
            r.1.morton == max_morton,
    {
        (Self { level, morton: min_morton }, Self { level, morton: max_morton })
    }

    pub fn min_key(level: u8) -> (r: Self)
        ensures
            r.level == level,
            r.morton == 0,
    {
        Self { level, morton: 0 }
    }

    pub fn max_key(level: u8) -> (r: Self)
        ensures
            r.level == level,
            r.morton == u64::MAX,
    {
        Self { level, morton: u64::MAX }
    }
}

impl DbKey3i32 {
    /// The inclusive key range of a level over a Morton interval.
    pub fn extent_range(level: u8, min_morton: u128, max_morton: u128) -> (r: (Self, Self))
        requires
            min_morton < 0x1000000000000000000000000u128,
            max_morton < 0x1000000000000000000000000u128,
        ensures
            r.0.level == level,
            r.0.morton == min_morton,
            r.1.level == level,
            r.1.morton == max_morton,
    {
        (Self { level, morton: min_morton }, Self { level, morton: max_morton })
    }

    pub fn min_key(level: u8) -> (r: Self)
        ensures
            r.level == level,
            r.morton == 0,
    {
        Self { level, morton: 0 }
    }

    pub fn max_key(level: u8) -> (r: Self)
        ensures
            r.level == level,
            r.morton as nat == morton3_limit() - 1,
    {
        Self { level, morton: 0xffffffffffffffffffffffffu128 }
    }
}

} // verus!
