//! Data structures to hold insertion and internal tree indices that may be either `u16` or `u32`
//! to save space.
use vstd::prelude::*;
use crate::bytes::{encode_seq, lemma_pow256_facts, pow256, push_le, to_repr};

verus! {

/// A mutable array of indices that may be either `u16` or `u32`.
pub enum MutableIndices {
    /// Indices stored as `u16`
    U16(Vec<u16>),
    /// Indices stored as `u32`
    U32(Vec<u32>),
}

/// An array of indices that may be either `u16` or `u32`.
pub enum Indices {
    /// Indices stored as `u16`
    U16(Vec<u16>),
    /// Indices stored as `u32`
    U32(Vec<u32>),
}

impl View for MutableIndices {
    type V = Seq<nat>;

    open spec fn view(&self) -> Seq<nat> {
        match self {
            MutableIndices::U16(v) => v@.map_values(|x: u16| x as nat),
            MutableIndices::U32(v) => v@.map_values(|x: u32| x as nat),
        }
    }
}

impl View for Indices {
    type V = Seq<nat>;

    open spec fn view(&self) -> Seq<nat> {
        match self {
            Indices::U16(v) => v@.map_values(|x: u16| x as nat),
            Indices::U32(v) => v@.map_values(|x: u32| x as nat),
        }
    }
}

impl MutableIndices {
    /// The largest index value that the element type holds.
    pub open spec fn max_index(&self) -> nat {
        match self {
            MutableIndices::U16(_) => 65535,
            MutableIndices::U32(_) => 4294967295,
        }
    }

    /// Whether the elements are `u16`.
    pub open spec fn is_u16(&self) -> bool {
        self is U16
    }

    /// Every index is at most the largest value of the element type.
    pub proof fn lemma_bounded(&self)
        ensures
            forall|i: int| 0 <= i < self@.len() ==> #[trigger] self@[i] <= self.max_index(),
    {
    }

    /// `len` zeroed indices, stored as `u16` when `small`, else as `u32`.
    pub fn zeroed(len: usize, small: bool) -> (r: Self)
        ensures
            r@ == Seq::new(len as nat, |i: int| 0nat),
            r.is_u16() == small,
    {
        if small {
            let mut v: Vec<u16> = Vec::new();
            let mut i: usize = 0;
            while i < len
                invariant
                    i <= len,
                    v@.len() == i,
                    forall|k: int| 0 <= k < i ==> v@[k] == 0,
                decreases len - i,
            {
                v.push(0);
                i = i + 1;
            }
            let r = MutableIndices::U16(v);
            assert(r@ =~= Seq::new(len as nat, |i: int| 0nat));
            r
        } else {
            let mut v: Vec<u32> = Vec::new();
            let mut i: usize = 0;
            while i < len
                invariant
                    i <= len,
                    v@.len() == i,
                    forall|k: int| 0 <= k < i ==> v@[k] == 0,
                decreases len - i,
            {
                v.push(0);
                i = i + 1;
            }
            let r = MutableIndices::U32(v);
            assert(r@ =~= Seq::new(len as nat, |i: int| 0nat));
            r
        }
    }

    /// The number of bytes of one element.
    pub fn bytes_per_element(&self) -> (r: usize)
        ensures
            r == (if self.is_u16() {
                2usize
            } else {
                4usize
            }),
    {
        match self {
            MutableIndices::U16(_) => 2,
            MutableIndices::U32(_) => 4,
        }
    }

    /// The number of indices.
    pub fn len(&self) -> (r: usize)
        ensures
            r == self@.len(),
    {
        match self {
            MutableIndices::U16(v) => v.len(),
            MutableIndices::U32(v) => v.len(),
        }
    }

    /// Swaps the indices at `a` and `b`.
    pub fn swap(&mut self, a: usize, b: usize)
        requires
            a < old(self)@.len(),
            b < old(self)@.len(),
        ensures
            final(self)@ == old(self)@.update(a as int, old(self)@[b as int]).update(
                b as int,
                old(self)@[a as int],
            ),
            final(self).is_u16() == old(self).is_u16(),
    {
        match self {
            MutableIndices::U16(v) => {
                let x = v[a];
                let y = v[b];
                v.set(a, y);
                v.set(b, x);
            },
            MutableIndices::U32(v) => {
                let x = v[a];
                let y = v[b];
                v.set(a, y);
                v.set(b, x);
            },
        }
        proof {
            assert(self@ =~= old(self)@.update(a as int, old(self)@[b as int]).update(
                b as int,
                old(self)@[a as int],
            ));
        }
    }

    /// The index at `index`.
    pub fn get(&self, index: usize) -> (r: usize)
        requires
            index < self@.len(),
        ensures
            r == self@[index as int],
    {
        match self {
            MutableIndices::U16(v) => v[index] as usize,
            MutableIndices::U32(v) => v[index] as usize,
        }
    }

    /// Sets the index at `index` to `value`.
    pub fn set(&mut self, index: usize, value: usize)
        requires
            index < old(self)@.len(),
            value <= old(self).max_index(),
        ensures
            final(self)@ == old(self)@.update(index as int, value as nat),
            final(self).is_u16() == old(self).is_u16(),
    {
        match self {
            MutableIndices::U16(v) => v.set(index, value as u16),
            MutableIndices::U32(v) => v.set(index, value as u32),
        }
        proof {
            assert(self@ =~= old(self)@.update(index as int, value as nat));
        }
    }

    /// The read-only indices with the same contents.
    pub fn into_indices(self) -> (r: Indices)
        ensures
            r@ == self@,
            r.is_u16() == self.is_u16(),
    {
        match self {
            MutableIndices::U16(v) => Indices::U16(v),
            MutableIndices::U32(v) => Indices::U32(v),
        }
    }
}

impl Indices {
    /// Every index is below `2^16` for `u16` elements, below `2^32` for `u32` elements.
    pub proof fn lemma_bounded(&self)
        ensures
            forall|i: int|
                0 <= i < self@.len() ==> #[trigger] self@[i] < (if self.is_u16() {
                    65536nat
                } else {
                    4294967296nat
                }),
    {
    }

    /// The indices of the given values, stored as `u16` when `small`, else as `u32`.
    pub fn from_values(vals: Vec<i64>, small: bool) -> (r: Self)
        requires
            forall|i: int|
                0 <= i < vals@.len() ==> 0 <= #[trigger] vals@[i] && (if small {
                    vals@[i] <= 65535
                } else {
                    vals@[i] <= 4294967295
                }),
        ensures
            r@.len() == vals@.len(),
            forall|i: int| 0 <= i < vals@.len() ==> #[trigger] r@[i] == vals@[i],
            r.is_u16() == small,
    {
        if small {
            let mut v: Vec<u16> = Vec::new();
            let mut i: usize = 0;
            while i < vals.len()
                invariant
                    i <= vals@.len(),
                    v@.len() == i,
                    small,
                    forall|k: int|
                        0 <= k < vals@.len() ==> 0 <= #[trigger] vals@[k] && vals@[k] <= 65535,
                    forall|k: int| 0 <= k < i ==> #[trigger] v@[k] == vals@[k],
                decreases vals@.len() - i,
            {
                v.push(vals[i] as u16);
                i = i + 1;
            }
            Indices::U16(v)
        } else {
            let mut v: Vec<u32> = Vec::new();
            let mut i: usize = 0;
            while i < vals.len()
                invariant
                    i <= vals@.len(),
                    v@.len() == i,
                    !small,
                    forall|k: int|
                        0 <= k < vals@.len() ==> 0 <= #[trigger] vals@[k] && vals@[k]
                            <= 4294967295,
                    forall|k: int| 0 <= k < i ==> #[trigger] v@[k] == vals@[k],
                decreases vals@.len() - i,
            {
                v.push(vals[i] as u32);
                i = i + 1;
            }
            Indices::U32(v)
        }
    }

    /// Appends the little-endian encoding of each index (2 bytes each for `u16`, else 4).
    pub fn push_bytes(&self, out: &mut Vec<u8>)
        ensures
            final(out)@ == old(out)@ + encode_seq(
                self@.map_values(|x: nat| x as int),
                if self.is_u16() {
                    2
                } else {
                    4
                },
            ),
    {
        let ghost w: nat = if self.is_u16() {
            2
        } else {
            4
        };
        let ghost ints = self@.map_values(|x: nat| x as int);
        let wx: usize = match self {
            Indices::U16(_) => 2,
            Indices::U32(_) => 4,
        };
        let mut i: usize = 0;
        proof {
            assert(ints.take(0) =~= Seq::<int>::empty());
            assert(old(out)@ + encode_seq(ints.take(0), w) =~= old(out)@);
            lemma_pow256_facts();
        }
        while i < self.len()
            invariant
                i <= self@.len(),
                wx == w,
                w == (if self.is_u16() {
                    2nat
                } else {
                    4nat
                }),
                ints == self@.map_values(|x: nat| x as int),
                out@ == old(out)@ + encode_seq(ints.take(i as int), w),
                pow256(2) == 65536,
                pow256(4) == 4294967296,
            decreases self@.len() - i,
        {
            let v = self.get(i);
            proof {
                match self {
                    Indices::U16(a) => {
                        assert(v == a@[i as int]);
                    },
                    Indices::U32(a) => {
                        assert(v == a@[i as int]);
                    },
                }
                assert(v < pow256(w));
            }
            push_le(out, v as u64, wx);
            proof {
                assert(ints.take(i + 1).drop_last() =~= ints.take(i as int));
                assert(ints.take(i + 1).last() == v as int);
                assert(to_repr(v as int, w) == v);
            }
            i = i + 1;
            proof {
                assert(out@ =~= old(out)@ + encode_seq(ints.take(i as int), w));
            }
        }
        proof {
            assert(ints.take(self@.len() as int) =~= ints);
        }
    }

    /// Whether the elements are `u16`.
    pub open spec fn is_u16(&self) -> bool {
        self is U16
    }

    /// The number of indices in this array
    pub fn len(&self) -> (r: usize)
        ensures
            r == self@.len(),
    {
        match self {
            Indices::U16(arr) => arr.len(),
            Indices::U32(arr) => arr.len(),
        }
    }

    /// Whether this array is empty
    pub fn is_empty(&self) -> (r: bool)
        ensures
            r == (self@.len() == 0),
    {
        self.len() == 0
    }

    /// A helper to access a single index from this array.
    ///
    /// Values are cast from u16 or u32 to usize.
    pub fn get(&self, index: usize) -> (r: usize)
        requires
            index < self@.len(),
        ensures
            r == self@[index as int],
    {
        match self {
            Indices::U16(arr) => arr[index] as usize,
            Indices::U32(arr) => arr[index] as usize,
        }
    }
}

} // verus!
