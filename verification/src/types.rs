use vstd::prelude::*;
use crate::constants::WORD_SIZE;

verus! {

/// A quantity counted in machine words.
#[derive(Clone, Copy, Debug, PartialEq, Eq, Structural)]
pub struct Words<A>(pub A);

/// A quantity counted in bytes.
#[derive(Clone, Copy, Debug, PartialEq, Eq, Structural)]
pub struct Bytes<A>(pub A);

/// Number of words needed to hold `bytes` bytes.
pub open spec fn bytes_to_words(bytes: int) -> int {
    (bytes + 3) / 4
}

impl Words<u32> {
    /// The same quantity in bytes.
    pub fn to_bytes(self) -> (b: Bytes<u32>)
        requires
            self.0 * 4 <= u32::MAX,
        ensures
            b.0 == self.0 * 4,
    {
        Bytes(self.0 * WORD_SIZE)
    }

    pub fn as_u32(self) -> (n: u32)
        ensures
            n == self.0,
    {
        self.0
    }

    pub fn as_usize(self) -> (n: usize)
        ensures
            n == self.0,
    {
        self.0 as usize
    }
}

impl Bytes<u32> {
    /// The number of whole words that hold this many bytes, rounding up.
    pub fn to_words(self) -> (w: Words<u32>)
        ensures
            w.0 == bytes_to_words(self.0 as int),
            w.0 as int * 4 >= self.0,
            w.0 as int * 4 < self.0 + 4,
    {
        let rest: u32 = self.0 % WORD_SIZE;
        let whole: u32 = self.0 / WORD_SIZE;
        if rest == 0 {
            Words(whole)
        } else {
            Words(whole + 1)
        }
    }

    pub fn as_u32(self) -> (n: u32)
        ensures
            n == self.0,
    {
        self.0
    }

    pub fn as_usize(self) -> (n: usize)
        ensures
            n == self.0,
    {
        self.0 as usize
    }
}

/// The first word of every heap object.
pub type Tag = u32;

pub const TAG_OBJECT: Tag = 1;

pub const TAG_OBJ_IND: Tag = 3;

pub const TAG_ARRAY: Tag = 5;

pub const TAG_BITS64: Tag = 7;

pub const TAG_MUTBOX: Tag = 9;

pub const TAG_CLOSURE: Tag = 11;

pub const TAG_SOME: Tag = 13;

pub const TAG_VARIANT: Tag = 15;

pub const TAG_BLOB: Tag = 17;

pub const TAG_INDIRECTION: Tag = 19;

pub const TAG_BITS32: Tag = 21;

pub const TAG_BIGINT: Tag = 23;

pub const TAG_CONCAT: Tag = 25;

pub const TAG_NULL: Tag = 27;

pub const TAG_FWD_PTR: Tag = 29;

pub const TAG_ONE_WORD_FILLER: Tag = 31;

pub const TAG_FREE_SPACE: Tag = 33;

/// A tag that a live object of the mutator may carry.
pub open spec fn is_object_tag(tag: Tag) -> bool {
    TAG_OBJECT <= tag <= TAG_NULL && tag % 2 == 1
}

/// A tag of the tag space, the transient and the filler tags included.
pub open spec fn is_tag(tag: Tag) -> bool {
    TAG_OBJECT <= tag <= TAG_FREE_SPACE && tag % 2 == 1
}

/// Decides `is_object_tag`.
pub fn tag_is_object(tag: Tag) -> (b: bool)
    ensures
        b == is_object_tag(tag),
{
    tag >= TAG_OBJECT && tag <= TAG_NULL && tag % 2 == 1
}

/// Raw word of the pointer that stands for the word-aligned address `addr`.
pub open spec fn skew(addr: int) -> int {
    addr + 1
}

/// Address that the pointer word `raw` stands for.
pub open spec fn unskew(raw: int) -> int {
    raw - 1
}

/// A tagged 32-bit word: a scalar, whose two low bits are `00`, or a pointer,
/// whose two low bits are `01` and which stands for the address one below.
#[derive(Clone, Copy, Debug, PartialEq, Eq, Structural)]
pub struct Value(pub u32);

impl Value {
    pub open spec fn spec_is_ptr(self) -> bool {
        self.0 % 4 == 1
    }

    pub open spec fn spec_is_scalar(self) -> bool {
        self.0 % 4 == 0
    }

    pub open spec fn spec_get_ptr(self) -> int {
        if self.0 == 0 {
            0xffff_ffff
        } else {
            self.0 - 1
        }
    }

    pub open spec fn spec_from_ptr(addr: int) -> Value {
        Value(
            if addr == 0xffff_ffff {
                0u32
            } else {
                (addr + 1) as u32
            },
        )
    }

    pub open spec fn spec_get_scalar(self) -> int {
        (self.0 / 4) as int
    }

    pub open spec fn spec_from_scalar(n: int) -> Value {
        Value(((n * 4) % 0x1_0000_0000) as u32)
    }

    pub fn from_raw(raw: u32) -> (v: Value)
        ensures
            v == Value(raw),
    {
        Value(raw)
    }

    pub fn get_raw(self) -> (raw: u32)
        ensures
            raw == self.0,
    {
        self.0
    }

    /// Whether the two low bits say pointer.
    pub fn is_ptr(self) -> (b: bool)
        ensures
            b == self.spec_is_ptr(),
    {
        self.0 % 4 == 1
    }

    /// Whether the two low bits say scalar.
    pub fn is_scalar(self) -> (b: bool)
        ensures
            b == self.spec_is_scalar(),
    {
        self.0 % 4 == 0
    }

    /// The address one below the raw word, wrapping at zero.
    pub fn get_ptr(self) -> (addr: usize)
        ensures
            addr == self.spec_get_ptr(),
            self.spec_is_ptr() ==> addr == unskew(self.0 as int) && addr % 4 == 0,
    {
        self.0.wrapping_sub(1) as usize
    }

    /// The pointer for the address `addr`, wrapping at the top of the
    /// address space.
    pub fn from_ptr(addr: usize) -> (v: Value)
        requires
            addr <= 0xffff_ffff,
        ensures
            v == Value::spec_from_ptr(addr as int),
            addr % 4 == 0 ==> v.spec_is_ptr() && v.0 == skew(addr as int),
    {
        Value((addr as u32).wrapping_add(1))
    }

    /// The unboxed integer in the upper 30 bits.
    pub fn get_scalar(self) -> (n: u32)
        ensures
            n == self.spec_get_scalar(),
    {
        self.0 / 4
    }

    /// The scalar that carries the low 30 bits of `n`.
    pub fn from_scalar(n: u32) -> (v: Value)
        ensures
            v == Value::spec_from_scalar(n as int),
            v.spec_is_scalar(),
            n < 0x4000_0000 ==> v.0 == n * 4,
    {
        let low: u32 = n % 0x4000_0000;
        assert(low * 4 == (n * 4) % 0x1_0000_0000) by (nonlinear_arith)
            requires
                low == n % 0x4000_0000,
        ;
        Value(low * 4)
    }
}

/// Pointers round-trip: the address of the pointer made for a 32-bit address
/// is that address.
pub proof fn lemma_ptr_round_trip(addr: int)
    requires
        0 <= addr <= 0xffff_ffff,
    ensures
        Value::spec_from_ptr(addr).spec_get_ptr() == addr,
        addr % 4 == 0 ==> Value::spec_from_ptr(addr).spec_is_ptr(),
{
}

/// A pointer is determined by its address: the pointer made for the address
/// of a value is that value.
pub proof fn lemma_ptr_round_trip_value(v: Value)
    ensures
        Value::spec_from_ptr(v.spec_get_ptr()) == v,
{
}

/// No word is both a scalar and a pointer, and the two constructors land on
/// their own side.
pub proof fn lemma_scalar_ptr_disjoint(v: Value, addr: int, n: int)
    requires
        0 <= addr <= 0xffff_ffff,
        addr % 4 == 0,
        0 <= n,
    ensures
        !(v.spec_is_ptr() && v.spec_is_scalar()),
        Value::spec_from_ptr(addr).spec_is_ptr(),
        !Value::spec_from_ptr(addr).spec_is_scalar(),
        Value::spec_from_scalar(n).spec_is_scalar(),
        !Value::spec_from_scalar(n).spec_is_ptr(),
        Value::spec_from_ptr(addr) != Value::spec_from_scalar(n),
{
    assert(((n * 4) % 0x1_0000_0000) % 4 == 0) by (nonlinear_arith)
        requires
            0 <= n,
    ;
}

/// Scalars round-trip on the 30 bits that a scalar carries.
pub proof fn lemma_scalar_round_trip(n: int)
    requires
        0 <= n < 0x4000_0000,
    ensures
        Value::spec_from_scalar(n).spec_get_scalar() == n,
{
}

/// Tags are odd, so no tag is a word-aligned address.
pub proof fn lemma_tag_is_not_address(tag: Tag)
    requires
        is_tag(tag),
    ensures
        tag % 2 == 1,
        tag % 4 != 0,
{
}

} // verus!
