//! Coordinate types that an index can be built over.
use vstd::prelude::*;
use crate::bytes::{pow256, repr_max, repr_min};

verus! {

/// A coordinate type that an index can store.
///
/// Each type has a type tag and an element width in the flat buffer layout (the typed-array
/// numbering of the JavaScript `flatbush` and `kdbush` libraries), and a range of values.
/// Coordinates are handled as mathematical integers in specifications.
pub trait IndexableNum: Copy + Sized {
    /// The mathematical value of a coordinate.
    spec fn value(self) -> int;

    /// The smallest value of this type.
    spec fn spec_min() -> int;

    /// The largest value of this type.
    spec fn spec_max() -> int;

    /// The type tag written in the buffer header.
    spec fn spec_type_index() -> u8;

    /// The number of bytes of one coordinate in the buffer.
    spec fn spec_bytes_per_element() -> usize;

    /// Whether the type is signed (two's complement in the buffer).
    spec fn spec_signed() -> bool;

    /// The width, the range and the type tag agree.
    proof fn lemma_layout()
        ensures
            Self::spec_bytes_per_element() == 1 || Self::spec_bytes_per_element() == 2
                || Self::spec_bytes_per_element() == 4,
            Self::spec_min() == repr_min(Self::spec_bytes_per_element() as nat, Self::spec_signed()),
            Self::spec_max() == repr_max(Self::spec_bytes_per_element() as nat, Self::spec_signed()),
            Self::spec_type_index() < 16,
    ;

    /// The type tag written in the buffer header.
    fn type_index() -> (r: u8)
        ensures
            r == Self::spec_type_index(),
    ;

    /// The number of bytes of one coordinate in the buffer.
    fn bytes_per_element() -> (r: usize)
        ensures
            r == Self::spec_bytes_per_element(),
    ;

    /// Whether the type is signed.
    fn signed() -> (r: bool)
        ensures
            r == Self::spec_signed(),
    ;

    /// The smallest value of this type.
    fn min_value() -> (r: Self)
        ensures
            r.value() == Self::spec_min(),
    ;

    /// The largest value of this type.
    fn max_value() -> (r: Self)
        ensures
            r.value() == Self::spec_max(),
    ;

    /// The value as an `i64`.
    fn to_i64(self) -> (r: i64)
        ensures
            r as int == self.value(),
            Self::spec_min() <= r <= Self::spec_max(),
    ;

    /// The coordinate of the given value.
    fn from_i64(v: i64) -> (r: Self)
        requires
            Self::spec_min() <= v <= Self::spec_max(),
        ensures
            r.value() == v as int,
    ;
}

impl IndexableNum for i8 {
    open spec fn value(self) -> int {
        self as int
    }

    open spec fn spec_min() -> int {
        -128
    }

    open spec fn spec_max() -> int {
        127
    }

    open spec fn spec_type_index() -> u8 {
        0
    }

    open spec fn spec_bytes_per_element() -> usize {
        1
    }

    open spec fn spec_signed() -> bool {
        true
    }

    proof fn lemma_layout() {
        reveal_with_fuel(pow256, 5);
    }

    fn type_index() -> (r: u8) {
        0
    }

    fn bytes_per_element() -> (r: usize) {
        1
    }

    fn signed() -> (r: bool) {
        true
    }

    fn min_value() -> (r: Self) {
        i8::MIN
    }

    fn max_value() -> (r: Self) {
        i8::MAX
    }

    fn to_i64(self) -> (r: i64) {
        self as i64
    }

    fn from_i64(v: i64) -> (r: Self) {
        v as i8
    }
}

impl IndexableNum for u8 {
    open spec fn value(self) -> int {
        self as int
    }

    open spec fn spec_min() -> int {
        0
    }

    open spec fn spec_max() -> int {
        255
    }

    open spec fn spec_type_index() -> u8 {
        1
    }

    open spec fn spec_bytes_per_element() -> usize {
        1
    }

    open spec fn spec_signed() -> bool {
        false
    }

    proof fn lemma_layout() {
        reveal_with_fuel(pow256, 5);
    }

    fn type_index() -> (r: u8) {
        1
    }

    fn bytes_per_element() -> (r: usize) {
        1
    }

    fn signed() -> (r: bool) {
        false
    }

    fn min_value() -> (r: Self) {
        u8::MIN
    }

    fn max_value() -> (r: Self) {
        u8::MAX
    }

    fn to_i64(self) -> (r: i64) {
        self as i64
    }

    fn from_i64(v: i64) -> (r: Self) {
        v as u8
    }
}

impl IndexableNum for i16 {
    open spec fn value(self) -> int {
        self as int
    }

    open spec fn spec_min() -> int {
        -32768
    }

    open spec fn spec_max() -> int {
        32767
    }

    open spec fn spec_type_index() -> u8 {
        3
    }

    open spec fn spec_bytes_per_element() -> usize {
        2
    }

    open spec fn spec_signed() -> bool {
        true
    }

    proof fn lemma_layout() {
        reveal_with_fuel(pow256, 5);
    }

    fn type_index() -> (r: u8) {
        3
    }

    fn bytes_per_element() -> (r: usize) {
        2
    }

    fn signed() -> (r: bool) {
        true
    }

    fn min_value() -> (r: Self) {
        i16::MIN
    }

    fn max_value() -> (r: Self) {
        i16::MAX
    }

    fn to_i64(self) -> (r: i64) {
        self as i64
    }

    fn from_i64(v: i64) -> (r: Self) {
        v as i16
    }
}

impl IndexableNum for u16 {
    open spec fn value(self) -> int {
        self as int
    }

    open spec fn spec_min() -> int {
        0
    }

    open spec fn spec_max() -> int {
        65535
    }

    open spec fn spec_type_index() -> u8 {
        4
    }

    open spec fn spec_bytes_per_element() -> usize {
        2
    }

    open spec fn spec_signed() -> bool {
        false
    }

    proof fn lemma_layout() {
        reveal_with_fuel(pow256, 5);
    }

    fn type_index() -> (r: u8) {
        4
    }

    fn bytes_per_element() -> (r: usize) {
        2
    }

    fn signed() -> (r: bool) {
        false
    }

    fn min_value() -> (r: Self) {
        u16::MIN
    }

    fn max_value() -> (r: Self) {
        u16::MAX
    }

    fn to_i64(self) -> (r: i64) {
        self as i64
    }

    fn from_i64(v: i64) -> (r: Self) {
        v as u16
    }
}

impl IndexableNum for i32 {
    open spec fn value(self) -> int {
        self as int
    }

    open spec fn spec_min() -> int {
        -2147483648
    }

    open spec fn spec_max() -> int {
        2147483647
    }

    open spec fn spec_type_index() -> u8 {
        5
    }

    open spec fn spec_bytes_per_element() -> usize {
        4
    }

    open spec fn spec_signed() -> bool {
        true
    }

    proof fn lemma_layout() {
        reveal_with_fuel(pow256, 5);
    }

    fn type_index() -> (r: u8) {
        5
    }

    fn bytes_per_element() -> (r: usize) {
        4
    }

    fn signed() -> (r: bool) {
        true
    }

    fn min_value() -> (r: Self) {
        i32::MIN
    }

    fn max_value() -> (r: Self) {
        i32::MAX
    }

    fn to_i64(self) -> (r: i64) {
        self as i64
    }

    fn from_i64(v: i64) -> (r: Self) {
        v as i32
    }
}

impl IndexableNum for u32 {
    open spec fn value(self) -> int {
        self as int
    }

    open spec fn spec_min() -> int {
        0
    }

    open spec fn spec_max() -> int {
        4294967295
    }

    open spec fn spec_type_index() -> u8 {
        6
    }

    open spec fn spec_bytes_per_element() -> usize {
        4
    }

    open spec fn spec_signed() -> bool {
        false
    }

    proof fn lemma_layout() {
        reveal_with_fuel(pow256, 5);
    }

    fn type_index() -> (r: u8) {
        6
    }

    fn bytes_per_element() -> (r: usize) {
        4
    }

    fn signed() -> (r: bool) {
        false
    }

    fn min_value() -> (r: Self) {
        u32::MIN
    }

    fn max_value() -> (r: Self) {
        u32::MAX
    }

    fn to_i64(self) -> (r: i64) {
        self as i64
    }

    fn from_i64(v: i64) -> (r: Self) {
        v as u32
    }
}

} // verus!
