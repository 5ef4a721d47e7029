//! Small utilities shared between the kernel and user-side code: address
//! alignment, bit-array scans and bit-range updates.

use vstd::prelude::*;

verus! {

/// Align the address to the previous multiple of `align`.
///
/// The alignment should be a power of two to get coherent results; this
/// implementation reads it through remainders, which agrees with bit
/// masking on every power of two and never on zero, which is rejected.
pub fn align_down(addr: usize, align: usize) -> (r: usize)
    requires
        align >= 1,
    ensures
        r == addr as int - addr as int % align as int,
        r as int % align as int == 0,
        r <= addr,
{
    proof {
        vstd::arithmetic::div_mod::lemma_fundamental_div_mod(addr as int, align as int);
        vstd::arithmetic::div_mod::lemma_mod_multiples_basic(
            addr as int / align as int,
            align as int,
        );
        vstd::arithmetic::mul::lemma_mul_is_commutative(
            addr as int / align as int,
            align as int,
        );
        assert(((addr as int / align as int) * align as int) % align as int == 0);
    }
    addr - addr % align
}

/// Align the address to the next multiple of `align`.
///
/// The alignment should be a power of two to get coherent results. The
/// intermediate sum `addr + (align - 1)` must fit the machine word; use
/// [`align_up_checked`] when it might not.
pub fn align_up(addr: usize, align: usize) -> (r: usize)
    requires
        align >= 1,
        addr + align - 1 <= usize::MAX,
    ensures
        r as int % align as int == 0,
        addr <= r < addr + align,
{
    let r = align_down(addr + (align - 1), align);
    proof {
        vstd::arithmetic::div_mod::lemma_fundamental_div_mod(
            addr as int + align - 1,
            align as int,
        );
    }
    r
}

/// [`align_up`], but reports an overflowing result instead of requiring
/// room for it: `None` exactly when the aligned address would not fit the
/// machine word.
pub fn align_up_checked(addr: usize, align: usize) -> (r: Option<usize>)
    requires
        align >= 1,
    ensures
        (r matches Some(v) ==> v as int % align as int == 0 && addr <= v < addr + align),
        (r is None <==> (addr as int % align as int != 0 && addr + (align - addr as int % align
            as int) > usize::MAX)),
{
    proof {
        vstd::arithmetic::div_mod::lemma_fundamental_div_mod(addr as int, align as int);
    }
    if addr % align == 0 {
        Some(addr)
    } else {
        let bump = align - addr % align;
        let r = addr.checked_add(bump);
        proof {
            let q = addr as int / align as int;
            assert(addr + bump == (q + 1) * align) by (nonlinear_arith)
                requires
                    addr as int == align as int * q + (addr as int % align as int),
                    bump == align - addr as int % align as int,
            ;
            vstd::arithmetic::div_mod::lemma_mod_multiples_basic(q + 1, align as int);
        }
        r
    }
}

/// Counts the number of `b` in `a`, rounding the result up: how many
/// containers of size `b` are needed to hold `a` items.
pub fn div_ceil(a: usize, b: usize) -> (r: usize)
    requires
        b >= 1,
    ensures
        a as int % b as int == 0 ==> r == a as int / b as int,
        a as int % b as int != 0 ==> r == a as int / b as int + 1,
{
    proof {
        vstd::arithmetic::div_mod::lemma_fundamental_div_mod(a as int, b as int);
        if a % b != 0 {
            assert(b >= 2) by {
                if b == 1 {
                    assert(a as int % 1 == 0);
                }
            }
            assert((a as int / b as int) < a) by (nonlinear_arith)
                requires
                    a as int == b * (a as int / b as int) + (a as int % b as int),
                    0 <= (a as int % b as int) < b,
                    (a as int % b as int) != 0,
                    b >= 2,
            ;
        }
    }
    if a % b != 0 {
        a / b + 1
    } else {
        a / b
    }
}

/// Whether bit `i` of a byte string is set, bytes in order, least
/// significant bit of each byte first.
pub open spec fn bit_of(bytes: Seq<u8>, i: int) -> bool {
    bytes[i / 8] & (1u8 << (i % 8) as u8) != 0
}

/// Returns the index of the first 0 in a bit array, or `None` when every
/// bit is 1.
pub fn bit_array_first_zero(bitarray: &[u8]) -> (r: Option<usize>)
    requires
        bitarray@.len() * 8 <= usize::MAX,
    ensures
        (r matches Some(i) ==> i < bitarray@.len() * 8 && !bit_of(bitarray@, i as int) && (forall|
            j: int,
        | 0 <= j < i ==> bit_of(bitarray@, j))),
        r is None ==> forall|j: int| 0 <= j < bitarray@.len() * 8 ==> bit_of(bitarray@, j),
{
    let n = bitarray.len();
    let mut index: usize = 0;
    while index < n
        invariant
            n == bitarray@.len(),
            n * 8 <= usize::MAX,
            index <= n,
            forall|j: int| 0 <= j < index * 8 ==> bit_of(bitarray@, j),
        decreases n - index,
    {
        let byte = bitarray[index];
        if byte == 0xFF {
            proof {
                assert forall|j: int| index * 8 <= j < (index + 1) * 8 implies bit_of(
                    bitarray@,
                    j,
                ) by {
                    crate::hierarchy::lemma_page_split(j, 8, index as int, j - index * 8);
                    let k = (j - index * 8) as u8;
                    assert(byte & (1u8 << k) != 0) by (bit_vector)
                        requires
                            byte == 0xFF,
                            k < 8,
                    ;
                    assert((j % 8) as u8 == k);
                }
            }
            index = index + 1;
            continue ;
        }
        let mut offset: usize = 0;
        while offset < 8
            invariant
                n == bitarray@.len(),
                n * 8 <= usize::MAX,
                index < n,
                offset <= 8,
                byte == bitarray@[index as int],
                forall|j: int| 0 <= j < index * 8 + offset ==> bit_of(bitarray@, j),
            decreases 8 - offset,
        {
            if byte & (1u8 << offset) == 0 {
                proof {
                    crate::hierarchy::lemma_page_split(
                        index * 8 + offset,
                        8,
                        index as int,
                        offset as int,
                    );
                }
                return Some(index * 8 + offset);
            }
            proof {
                crate::hierarchy::lemma_page_split(
                    index * 8 + offset,
                    8,
                    index as int,
                    offset as int,
                );
            }
            offset = offset + 1;
        }
        index = index + 1;
    }
    None
}

/// Returns the index of the first 1 in a bit array, or `None` when every
/// bit is 0.
pub fn bit_array_first_one(bitarray: &[u8]) -> (r: Option<usize>)
    requires
        bitarray@.len() * 8 <= usize::MAX,
    ensures
        (r matches Some(i) ==> i < bitarray@.len() * 8 && bit_of(bitarray@, i as int) && (forall|
            j: int,
        | 0 <= j < i ==> !bit_of(bitarray@, j))),
        r is None ==> forall|j: int| 0 <= j < bitarray@.len() * 8 ==> !bit_of(bitarray@, j),
{
    let n = bitarray.len();
    let mut index: usize = 0;
    while index < n
        invariant
            n == bitarray@.len(),
            n * 8 <= usize::MAX,
            index <= n,
            forall|j: int| 0 <= j < index * 8 ==> !bit_of(bitarray@, j),
        decreases n - index,
    {
        let byte = bitarray[index];
        if byte == 0x00 {
            proof {
                assert forall|j: int| index * 8 <= j < (index + 1) * 8 implies !bit_of(
                    bitarray@,
                    j,
                ) by {
                    crate::hierarchy::lemma_page_split(j, 8, index as int, j - index * 8);
                    let k = (j - index * 8) as u8;
                    assert(byte & (1u8 << k) == 0) by (bit_vector)
                        requires
                            byte == 0x00,
                            k < 8,
                    ;
                    assert((j % 8) as u8 == k);
                }
            }
            index = index + 1;
            continue ;
        }
        let mut offset: usize = 0;
        while offset < 8
            invariant
                n == bitarray@.len(),
                n * 8 <= usize::MAX,
                index < n,
                offset <= 8,
                byte == bitarray@[index as int],
                forall|j: int| 0 <= j < index * 8 + offset ==> !bit_of(bitarray@, j),
            decreases 8 - offset,
        {
            if byte & (1u8 << offset) != 0 {
                proof {
                    crate::hierarchy::lemma_page_split(
                        index * 8 + offset,
                        8,
                        index as int,
                        offset as int,
                    );
                }
                return Some(index * 8 + offset);
            }
            proof {
                crate::hierarchy::lemma_page_split(
                    index * 8 + offset,
                    8,
                    index as int,
                    offset as int,
                );
            }
            offset = offset + 1;
        }
        index = index + 1;
    }
    None
}

/// Whether `count` consecutive set bits start at index `i`.
pub open spec fn run_of_ones(bytes: Seq<u8>, i: int, count: int) -> bool {
    forall|k: int| i <= k < i + count ==> bit_of(bytes, k)
}

/// Returns the index of the first run of `count` contiguous 1s in a bit
/// array: the smallest `i` such that bits `i` up to `i + count` are all
/// set. `None` when no such run exists, and always when `count` is 0.
pub fn bit_array_first_count_one(bitarray: &[u8], count: usize) -> (r: Option<usize>)
    requires
        bitarray@.len() * 8 <= usize::MAX,
    ensures
        count == 0 ==> r is None,
        r matches Some(i) ==> count >= 1 && i + count <= bitarray@.len() * 8 && run_of_ones(
            bitarray@,
            i as int,
            count as int,
        ) && (forall|j: int| 0 <= j < i ==> !run_of_ones(bitarray@, j, count as int)),
        r is None && count >= 1 ==> forall|j: int|
            0 <= j && j + count <= bitarray@.len() * 8 ==> !run_of_ones(
                bitarray@,
                j,
                count as int,
            ),
{
    let n = bitarray.len();
    let mut curcount: usize = 0;
    let mut index: usize = 0;
    while index < n
        invariant
            n == bitarray@.len(),
            n * 8 <= usize::MAX,
            index <= n,
            curcount <= index * 8,
            count >= 1 ==> curcount < count,
            forall|k: int| index * 8 - curcount <= k < index * 8 ==> bit_of(bitarray@, k),
            curcount == index * 8 || !bit_of(bitarray@, index * 8 - curcount - 1),
            count >= 1 ==> forall|j: int|
                0 <= j && j + count <= index * 8 ==> !run_of_ones(bitarray@, j, count as int),
        decreases n - index,
    {
        let byte = bitarray[index];
        if byte == 0x00 {
            proof {
                assert forall|t: int| index * 8 <= t < (index + 1) * 8 implies !bit_of(
                    bitarray@,
                    t,
                ) by {
                    crate::hierarchy::lemma_page_split(t, 8, index as int, t - index * 8);
                    let k = (t - index * 8) as u8;
                    assert(byte & (1u8 << k) == 0) by (bit_vector)
                        requires
                            byte == 0x00,
                            k < 8,
                    ;
                    assert((t % 8) as u8 == k);
                }
                if count >= 1 {
                    assert forall|j: int|
                        0 <= j && j + count <= (index + 1) * 8 implies !run_of_ones(
                        bitarray@,
                        j,
                        count as int,
                    ) by {
                        if j + count > index * 8 {
                            let w = j + count - 1;
                            assert(index * 8 <= w < (index + 1) * 8);
                            assert(!bit_of(bitarray@, w));
                        }
                    }
                }
            }
            curcount = 0;
            index = index + 1;
            continue ;
        }
        let mut offset: usize = 0;
        while offset < 8
            invariant
                n == bitarray@.len(),
                n * 8 <= usize::MAX,
                index < n,
                offset <= 8,
                byte == bitarray@[index as int],
                curcount <= index * 8 + offset,
                count >= 1 ==> curcount < count,
                forall|k: int|
                    index * 8 + offset - curcount <= k < index * 8 + offset ==> bit_of(
                        bitarray@,
                        k,
                    ),
                curcount == index * 8 + offset || !bit_of(
                    bitarray@,
                    index * 8 + offset - curcount - 1,
                ),
                count >= 1 ==> forall|j: int|
                    0 <= j && j + count <= index * 8 + offset ==> !run_of_ones(
                        bitarray@,
                        j,
                        count as int,
                    ),
            decreases 8 - offset,
        {
            let ghost t = index * 8 + offset;
            proof {
                crate::hierarchy::lemma_page_split(
                    index * 8 + offset,
                    8,
                    index as int,
                    offset as int,
                );
            }
            if byte & (1u8 << offset) != 0 {
                curcount = curcount + 1;
                if curcount == count {
                    proof {
                        assert(bit_of(bitarray@, t));
                        assert forall|k: int| t + 1 - count <= k < t + 1 implies bit_of(
                            bitarray@,
                            k,
                        ) by {}
                    }
                    return Some((index * 8 + offset) - (count - 1));
                }
                proof {
                    assert(bit_of(bitarray@, t));
                    if count >= 1 {
                        assert forall|j: int|
                            0 <= j && j + count <= t + 1 implies !run_of_ones(
                            bitarray@,
                            j,
                            count as int,
                        ) by {
                            if j + count == t + 1 {
                                let w = t - curcount;
                                assert(j <= w < j + count);
                                assert(!bit_of(bitarray@, w));
                                assert(!run_of_ones(bitarray@, j, count as int));
                            }
                        }
                    }
                }
            } else {
                proof {
                    assert(!bit_of(bitarray@, t));
                    if count >= 1 {
                        assert forall|j: int|
                            0 <= j && j + count <= t + 1 implies !run_of_ones(
                            bitarray@,
                            j,
                            count as int,
                        ) by {
                            if j + count == t + 1 {
                                assert(j <= t < j + count);
                            }
                        }
                    }
                }
                curcount = 0;
            }
            offset = offset + 1;
        }
        index = index + 1;
    }
    None
}

/// One end of a bit range: open, closed on an index, or open-ended past an
/// index.
#[derive(Debug, Clone, Copy, PartialEq, Eq, Structural)]
pub enum BitBound {
    Unbounded,
    Included(usize),
    Excluded(usize),
}

/// The first bit index a range starting at `start` covers.
pub open spec fn area_start(start: BitBound) -> int {
    match start {
        BitBound::Unbounded => 0,
        BitBound::Included(b) => b as int,
        BitBound::Excluded(b) => b as int,
    }
}

/// The last bit index a range ending at `end` covers, in a value of `len`
/// bits; one less than the start when the range is empty.
pub open spec fn area_end(end: BitBound, len: int) -> int {
    match end {
        BitBound::Unbounded => len - 1,
        BitBound::Included(b) => b as int,
        BitBound::Excluded(b) => b as int - 1,
    }
}

/// Extension of a bit-array value (an array of words treated as one long
/// bit string) with the `set_bits_area` operation.
pub trait BitArrayExt: Sized {
    /// The bits of the value, in index order: bit `i` lives in word
    /// `i / 32`, least significant bit first.
    spec fn view_bits(&self) -> Seq<bool>;

    /// Total number of bits.
    fn bit_length(&self) -> (n: usize)
        requires
            self.view_bits().len() <= usize::MAX,
        ensures
            n == self.view_bits().len(),
    ;

    /// Sets bit `bit` to `value`.
    fn set_bit(&mut self, bit: usize, value: bool)
        requires
            old(self).view_bits().len() <= usize::MAX,
            bit < old(self).view_bits().len(),
        ensures
            final(self).view_bits() == old(self).view_bits().update(bit as int, value),
    ;

    /// Sets a range of bits to `value`. An `Excluded` start is not
    /// meaningful; a range ending before it starts sets nothing; the last
    /// covered bit must exist.
    fn set_bits_area(&mut self, start: BitBound, end: BitBound, value: bool)
        requires
            old(self).view_bits().len() <= usize::MAX,
            !(start is Excluded),
            area_start(start) <= area_end(end, old(self).view_bits().len() as int) ==> area_end(
                end,
                old(self).view_bits().len() as int,
            ) < old(self).view_bits().len(),
        ensures
            final(self).view_bits().len() == old(self).view_bits().len(),
            forall|i: int|
                0 <= i < old(self).view_bits().len() ==> final(self).view_bits()[i] == (if
                area_start(start) <= i <= area_end(end, old(self).view_bits().len() as int) {
                    value
                } else {
                    old(self).view_bits()[i]
                }),
    ;
}

/// Extension of a single bit-field word with the `set_bits_area`
/// operation.
pub trait BitFieldExt: Sized {
    /// The bits of the value, least significant first.
    spec fn view_bits(&self) -> Seq<bool>;

    /// Total number of bits.
    fn bit_length(&self) -> (n: usize)
        ensures
            n == self.view_bits().len(),
    ;

    /// Sets bit `bit` to `value`.
    fn set_bit(&mut self, bit: usize, value: bool)
        requires
            bit < old(self).view_bits().len(),
        ensures
            final(self).view_bits() == old(self).view_bits().update(bit as int, value),
    ;

    /// Sets a range of bits to `value`, with the same range reading as
    /// [`BitArrayExt::set_bits_area`].
    fn set_bits_area(&mut self, start: BitBound, end: BitBound, value: bool)
        requires
            !(start is Excluded),
            area_start(start) <= area_end(end, old(self).view_bits().len() as int) ==> area_end(
                end,
                old(self).view_bits().len() as int,
            ) < old(self).view_bits().len(),
        ensures
            final(self).view_bits().len() == old(self).view_bits().len(),
            forall|i: int|
                0 <= i < old(self).view_bits().len() ==> final(self).view_bits()[i] == (if
                area_start(start) <= i <= area_end(end, old(self).view_bits().len() as int) {
                    value
                } else {
                    old(self).view_bits()[i]
                }),
    ;
}

/// Writing one bit of a word leaves every other bit as it was.
proof fn lemma_u32_set_bit(w: u32, k: u32, j: u32, value: bool)
    requires
        k < 32,
        j < 32,
    ensures
        value ==> ((w | (1u32 << k)) >> j) & 1u32 == (if j == k {
            1u32
        } else {
            (w >> j) & 1u32
        }),
        !value ==> ((w & !(1u32 << k)) >> j) & 1u32 == (if j == k {
            0u32
        } else {
            (w >> j) & 1u32
        }),
{
    assert(((w | (1u32 << k)) >> j) & 1u32 == (if j == k {
        1u32
    } else {
        (w >> j) & 1u32
    })) by (bit_vector)
        requires
            k < 32,
            j < 32,
    ;
    assert(((w & !(1u32 << k)) >> j) & 1u32 == (if j == k {
        0u32
    } else {
        (w >> j) & 1u32
    })) by (bit_vector)
        requires
            k < 32,
            j < 32,
    ;
}

impl BitArrayExt for Vec<u32> {
    open spec fn view_bits(&self) -> Seq<bool> {
        Seq::new(self@.len() * 32, |i: int| (self@[i / 32] >> ((i % 32) as u32)) & 1u32 == 1u32)
    }

    fn bit_length(&self) -> (n: usize) {
        self.len() * 32
    }

    fn set_bit(&mut self, bit: usize, value: bool) {
        let word = bit / 32;
        let k = (bit % 32) as u32;
        let w = self[word];
        let updated = if value {
            w | (1u32 << k)
        } else {
            w & !(1u32 << k)
        };
        self[word] = updated;
        proof {
            let pre = old(self)@;
            assert(self@ == pre.update(word as int, updated));
            assert forall|i: int| 0 <= i < pre.len() * 32 implies self.view_bits()[i] == old(
                self,
            ).view_bits().update(bit as int, value)[i] by {
                crate::hierarchy::lemma_page_index_bound(i, 32, pre.len() as int);
                lemma_u32_set_bit(pre[bit as int / 32], k, (i % 32) as u32, value);
                if i / 32 == bit as int / 32 {
                    assert(self@[i / 32] == updated);
                    if i != bit {
                        assert((i % 32) as u32 != k) by {
                            crate::hierarchy::lemma_page_split(
                                bit as int,
                                32,
                                bit as int / 32,
                                bit as int % 32,
                            );
                        }
                    }
                } else {
                    assert(self@[i / 32] == pre[i / 32]);
                }
            }
            assert(self.view_bits() =~= old(self).view_bits().update(bit as int, value));
        }
    }

    fn set_bits_area(&mut self, start: BitBound, end: BitBound, value: bool) {
        let len = self.bit_length();
        let s: usize = match start {
            BitBound::Unbounded => 0,
            BitBound::Included(b) => b,
            BitBound::Excluded(_) => vstd::pervasive::unreached(),
        };
        let e_plus_one: usize = match end {
            BitBound::Unbounded => len,
            BitBound::Included(b) => {
                if b == usize::MAX {
                    proof {
                        assert(s as int <= area_end(end, len as int));
                    }
                    vstd::pervasive::unreached()
                } else {
                    b + 1
                }
            },
            BitBound::Excluded(b) => b,
        };
        let mut i = s;
        while i < e_plus_one
            invariant
                self.view_bits().len() == old(self).view_bits().len(),
                old(self).view_bits().len() <= usize::MAX,
                len == old(self).view_bits().len(),
                s <= i,
                e_plus_one as int == area_end(end, old(self).view_bits().len() as int) + 1,
                i == s || i <= e_plus_one,
                s == area_start(start),
                area_start(start) <= area_end(end, old(self).view_bits().len() as int)
                    ==> area_end(end, old(self).view_bits().len() as int) < old(
                    self,
                ).view_bits().len(),
                forall|j: int|
                    0 <= j < old(self).view_bits().len() ==> self.view_bits()[j] == (if s <= j
                        < i {
                        value
                    } else {
                        old(self).view_bits()[j]
                    }),
            decreases e_plus_one - i,
        {
            self.set_bit(i, value);
            i = i + 1;
        }
    }
}

impl BitFieldExt for u32 {
    open spec fn view_bits(&self) -> Seq<bool> {
        Seq::new(32, |i: int| (*self >> (i as u32)) & 1u32 == 1u32)
    }

    fn bit_length(&self) -> (n: usize) {
        32
    }

    fn set_bit(&mut self, bit: usize, value: bool) {
        let k = bit as u32;
        let updated = if value {
            *self | (1u32 << k)
        } else {
            *self & !(1u32 << k)
        };
        *self = updated;
        proof {
            let pre = *old(self);
            assert forall|i: int| 0 <= i < 32 implies self.view_bits()[i] == old(
                self,
            ).view_bits().update(bit as int, value)[i] by {
                lemma_u32_set_bit(pre, k, i as u32, value);
            }
            assert(self.view_bits() =~= old(self).view_bits().update(bit as int, value));
        }
    }

    fn set_bits_area(&mut self, start: BitBound, end: BitBound, value: bool) {
        let s: usize = match start {
            BitBound::Unbounded => 0,
            BitBound::Included(b) => b,
            BitBound::Excluded(_) => vstd::pervasive::unreached(),
        };
        let e_plus_one: usize = match end {
            BitBound::Unbounded => 32,
            BitBound::Included(b) => {
                if b == usize::MAX {
                    proof {
                        assert(s as int <= area_end(end, 32));
                    }
                    vstd::pervasive::unreached()
                } else {
                    b + 1
                }
            },
            BitBound::Excluded(b) => b,
        };
        let mut i = s;
        while i < e_plus_one
            invariant
                self.view_bits().len() == 32,
                s <= i,
                e_plus_one as int == area_end(end, 32) + 1,
                i == s || i <= e_plus_one,
                s == area_start(start),
                area_start(start) <= area_end(end, 32) ==> area_end(end, 32) < 32,
                forall|j: int|
                    0 <= j < 32 ==> self.view_bits()[j] == (if s <= j < i {
                        value
                    } else {
                        old(self).view_bits()[j]
                    }),
            decreases e_plus_one - i,
        {
            self.set_bit(i, value);
            i = i + 1;
        }
    }
}

/// The ASCII code of one hexadecimal digit.
pub open spec fn hex_digit(n: nat) -> u8 {
    if n < 10 {
        (48 + n) as u8
    } else {
        (87 + n) as u8
    }
}

/// The minimal hexadecimal digit string of a number, most significant
/// digit first.
pub open spec fn hex_digits(a: nat) -> Seq<u8>
    decreases a,
{
    if a < 16 {
        seq![hex_digit(a)]
    } else {
        hex_digits(a / 16) + seq![hex_digit(a % 16)]
    }
}

/// One dumped cell: the two hex digits of a byte where the chunk has one,
/// two spaces where it ends early.
pub open spec fn dump_cell(chunk: Seq<u8>, i: int) -> Seq<u8> {
    if 0 <= i < chunk.len() {
        seq![hex_digit((chunk[i] >> 4) as nat), hex_digit((chunk[i] & 0xF) as nat)]
    } else {
        seq![32u8, 32u8]
    }
}

/// The eight space-separated byte pairs of one dump line, from pair
/// `from` on.
pub open spec fn dump_pairs(chunk: Seq<u8>, from: int) -> Seq<u8>
    decreases 8 - from,
{
    if from >= 8 {
        Seq::empty()
    } else {
        seq![32u8] + dump_cell(chunk, 2 * from) + dump_cell(chunk, 2 * from + 1) + dump_pairs(
            chunk,
            from + 1,
        )
    }
}

/// A byte as the character column shows it: itself when printable, a dot
/// otherwise.
pub open spec fn dump_char(b: u8) -> u8 {
    if 0x21 <= b <= 0x7E {
        b
    } else {
        46u8
    }
}

/// The character column of one dump line.
pub open spec fn dump_chars(chunk: Seq<u8>) -> Seq<u8> {
    chunk.map_values(|b: u8| dump_char(b))
}

/// One whole dump line: address, byte pairs, character column, newline.
pub open spec fn dump_line(chunk: Seq<u8>, addr: nat) -> Seq<u8> {
    seq![48u8, 120u8] + hex_digits(addr) + seq![58u8] + dump_pairs(chunk, 0) + seq![32u8, 32u8]
        + dump_chars(chunk) + seq![10u8]
}

/// A whole hexdump: one line per sixteen bytes, the last line short when
/// the memory is.
pub open spec fn dump_lines(mem: Seq<u8>, addr: nat) -> Seq<u8>
    decreases mem.len(),
{
    if mem.len() == 0 {
        Seq::empty()
    } else if mem.len() <= 16 {
        dump_line(mem, addr)
    } else {
        dump_line(mem.take(16), addr) + dump_lines(mem.skip(16), (addr + 16) as nat)
    }
}

/// Appends the ASCII hexadecimal digits of `a`, most significant first.
fn push_hex_digits(f: &mut Vec<u8>, a: usize)
    ensures
        final(f)@ == old(f)@ + hex_digits(a as nat),
    decreases a,
{
    if a < 16 {
        let d = a as u8;
        if d < 10 {
            f.push(48 + d);
        } else {
            f.push(87 + d);
        }
        proof {
            assert(final(f)@ =~= old(f)@ + hex_digits(a as nat));
        }
    } else {
        push_hex_digits(f, a / 16);
        let d = (a % 16) as u8;
        if d < 10 {
            f.push(48 + d);
        } else {
            f.push(87 + d);
        }
        proof {
            assert(final(f)@ =~= old(f)@ + hex_digits(a as nat));
        }
    }
}

/// Makes a hexdump of a slice into `f`, sixteen bytes a line, each line
/// showing an address, the bytes in hexadecimal and their printable
/// characters. The addresses shown start at `display_addr`: used for
/// displaying memory areas whose own addresses are elsewhere, such as
/// ranges not identity-mapped in the current page tables.
pub fn print_hexdump_as_if_at_addr(f: &mut Vec<u8>, mem: &[u8], display_addr: usize)
    requires
        mem@.len() + display_addr <= usize::MAX,
    ensures
        final(f)@ == old(f)@ + dump_lines(mem@, display_addr as nat),
{
    let n = mem.len();
    let mut offset: usize = 0;
    proof {
        assert(mem@.skip(0) =~= mem@);
    }
    while offset < n
        invariant
            n == mem@.len(),
            n + display_addr <= usize::MAX,
            offset <= n,
            f@ + dump_lines(mem@.skip(offset as int), (display_addr + offset) as nat) == old(f)@
                + dump_lines(mem@, display_addr as nat),
        decreases n - offset,
    {
        let ghost pre = f@;
        let ghost done = mem@.take(offset as int);
        let chunk_len: usize = if n - offset < 16 {
            n - offset
        } else {
            16
        };
        let ghost chunk = mem@.skip(offset as int).take(chunk_len as int);
        let line_addr = display_addr + offset;
        f.push(48);
        f.push(120);
        push_hex_digits(f, line_addr);
        f.push(58);
        proof {
            assert(f@ =~= pre + seq![48u8, 120u8] + hex_digits(line_addr as nat) + seq![58u8]);
            lemma_dump_pairs_shape(chunk, 0);
            assert(f@ =~= pre + seq![48u8, 120u8] + hex_digits(line_addr as nat) + seq![58u8] + (
            dump_pairs(chunk, 0).take(0)));
        }
        let mut pair: usize = 0;
        while pair < 8
            invariant
                n == mem@.len(),
                offset < n,
                chunk_len == if n - offset < 16 {
                    n - offset
                } else {
                    16
                },
                chunk == mem@.skip(offset as int).take(chunk_len as int),
                pair <= 8,
                f@ == pre + seq![48u8, 120u8] + hex_digits((display_addr + offset) as nat) + seq![
                    58u8,
                ] + (dump_pairs(chunk, 0).take(5 * pair as int)),
                dump_pairs(chunk, 0).len() == 40,
            decreases 8 - pair,
        {
            let ghost fpre = f@;
            f.push(32);
            let mut half: usize = 0;
            while half < 2
                invariant
                    n == mem@.len(),
                    offset < n,
                    chunk_len == if n - offset < 16 {
                        n - offset
                    } else {
                        16
                    },
                    chunk == mem@.skip(offset as int).take(chunk_len as int),
                    pair < 8,
                    half <= 2,
                    f@ == fpre + seq![32u8] + (if half >= 1 {
                        dump_cell(chunk, 2 * pair as int)
                    } else {
                        Seq::empty()
                    }) + (if half >= 2 {
                        dump_cell(chunk, 2 * pair as int + 1)
                    } else {
                        Seq::empty()
                    }),
                decreases 2 - half,
            {
                let i = 2 * pair + half;
                let ghost hpre = f@;
                if i < chunk_len {
                    let b = mem[offset + i];
                    proof {
                        assert(chunk[i as int] == mem@[offset + i]);
                    }
                    let hi = b >> 4;
                    let lo = b & 0xF;
                    if hi < 10 {
                        f.push(48 + hi);
                    } else {
                        proof {
                            assert(b >> 4 < 16 && b & 0xF < 16) by (bit_vector);
                        }
                        f.push(87 + hi);
                    }
                    if lo < 10 {
                        f.push(48 + lo);
                    } else {
                        proof {
                            assert(b & 0xF < 16) by (bit_vector);
                        }
                        f.push(87 + lo);
                    }
                    proof {
                        assert(b >> 4 < 16 && b & 0xF < 16) by (bit_vector);
                        assert(f@ =~= hpre + dump_cell(chunk, i as int));
                    }
                } else {
                    f.push(32);
                    f.push(32);
                    proof {
                        assert(f@ =~= hpre + dump_cell(chunk, i as int));
                    }
                }
                half = half + 1;
                proof {
                    assert(f@ =~= fpre + seq![32u8] + (if half >= 1 {
                        dump_cell(chunk, 2 * pair as int)
                    } else {
                        Seq::<u8>::empty()
                    }) + (if half >= 2 {
                        dump_cell(chunk, 2 * pair as int + 1)
                    } else {
                        Seq::<u8>::empty()
                    }));
                }
            }
            pair = pair + 1;
            proof {
                lemma_dump_pairs_take(chunk, pair as int);
                assert(f@ =~= pre + seq![48u8, 120u8] + hex_digits((display_addr + offset) as nat)
                    + seq![58u8] + (dump_pairs(chunk, 0).take(5 * pair as int)));
            }
        }
        f.push(32);
        f.push(32);
        let mut ci: usize = 0;
        let ghost cpre = f@;
        while ci < chunk_len
            invariant
                n == mem@.len(),
                offset < n,
                chunk_len <= n - offset,
                chunk_len <= 16,
                chunk == mem@.skip(offset as int).take(chunk_len as int),
                ci <= chunk_len,
                f@ == cpre + dump_chars(chunk).take(ci as int),
            decreases chunk_len - ci,
        {
            let b = mem[offset + ci];
            proof {
                assert(chunk[ci as int] == mem@[offset + ci]);
            }
            if 0x21 <= b && b <= 0x7E {
                f.push(b);
            } else {
                f.push(46);
            }
            ci = ci + 1;
            proof {
                assert(f@ =~= cpre + dump_chars(chunk).take(ci as int));
            }
        }
        f.push(10);
        proof {
            assert(dump_pairs(chunk, 0).take(40) =~= dump_pairs(chunk, 0));
            assert(dump_chars(chunk).take(chunk_len as int) =~= dump_chars(chunk));
            assert(f@ =~= pre + dump_line(chunk, (display_addr + offset) as nat));
            // The undumped suffix loses exactly this line.
            let so = mem@.skip(offset as int);
            if chunk_len < 16 {
                assert(chunk =~= so);
                assert(offset + chunk_len == n);
                assert(mem@.skip(offset + chunk_len) =~= Seq::<u8>::empty());
                assert(dump_lines(so, (display_addr + offset) as nat) == dump_line(
                    chunk,
                    (display_addr + offset) as nat,
                ));
            } else {
                assert(so.take(16) =~= chunk);
                assert(so.skip(16) =~= mem@.skip(offset + 16));
                if so.len() <= 16 {
                    assert(offset + chunk_len == n);
                    assert(mem@.skip(offset + chunk_len) =~= Seq::<u8>::empty());
                    assert(dump_lines(mem@.skip(offset + chunk_len), (display_addr + offset
                        + 16) as nat) =~= Seq::<u8>::empty());
                    assert(chunk =~= so);
                }
                assert(dump_lines(so, (display_addr + offset) as nat) =~= dump_line(
                    chunk,
                    (display_addr + offset) as nat,
                ) + dump_lines(mem@.skip(offset + 16), (display_addr + offset + 16) as nat));
            }
            assert(f@ + dump_lines(
                mem@.skip(offset + chunk_len),
                (display_addr + offset + chunk_len) as nat,
            ) =~= (pre + dump_line(chunk, (display_addr + offset) as nat)) + dump_lines(
                mem@.skip(offset + chunk_len),
                (display_addr + offset + chunk_len) as nat,
            ));
            assert((pre + dump_line(chunk, (display_addr + offset) as nat)) + dump_lines(
                mem@.skip(offset + chunk_len),
                (display_addr + offset + chunk_len) as nat,
            ) =~= pre + dump_lines(so, (display_addr + offset) as nat));
        }
        offset = offset + chunk_len;
    }
    proof {
        assert(mem@.skip(n as int) =~= Seq::<u8>::empty());
        assert(f@ =~= f@ + dump_lines(mem@.skip(n as int), (display_addr + n) as nat));
        assert(f@ =~= old(f)@ + dump_lines(mem@, display_addr as nat));
    }
}

/// One more pair extends the dumped prefix by five bytes.
proof fn lemma_dump_pairs_take(chunk: Seq<u8>, upto: int)
    requires
        1 <= upto <= 8,
    ensures
        dump_pairs(chunk, 0).len() == 40,
        dump_pairs(chunk, 0).take(5 * upto) =~= dump_pairs(chunk, 0).take(5 * (upto - 1)) + seq![
            32u8,
        ] + dump_cell(chunk, 2 * (upto - 1)) + dump_cell(chunk, 2 * (upto - 1) + 1),
{
    lemma_dump_pairs_shape(chunk, 0);
    assert forall|k: int| 0 <= k < 8 implies #[trigger] dump_pairs(chunk, 0).subrange(
        5 * k,
        5 * k + 5,
    ) =~= seq![32u8] + dump_cell(chunk, 2 * k) + dump_cell(chunk, 2 * k + 1) by {
        lemma_dump_pairs_index(chunk, 0, k);
    }
    assert(dump_pairs(chunk, 0).take(5 * upto) =~= dump_pairs(chunk, 0).take(5 * (upto - 1))
        + dump_pairs(chunk, 0).subrange(5 * (upto - 1), 5 * upto));
}

/// The pair stream from `from` has five bytes per remaining pair.
proof fn lemma_dump_pairs_shape(chunk: Seq<u8>, from: int)
    requires
        0 <= from <= 8,
    ensures
        dump_pairs(chunk, from).len() == 5 * (8 - from),
    decreases 8 - from,
{
    if from < 8 {
        lemma_dump_pairs_shape(chunk, from + 1);
    }
}

/// The five bytes of pair `k` within the stream from `from`.
proof fn lemma_dump_pairs_index(chunk: Seq<u8>, from: int, k: int)
    requires
        0 <= from <= k < 8,
    ensures
        dump_pairs(chunk, from).subrange(5 * (k - from), 5 * (k - from) + 5) =~= seq![32u8]
            + dump_cell(chunk, 2 * k) + dump_cell(chunk, 2 * k + 1),
    decreases 8 - from,
{
    lemma_dump_pairs_shape(chunk, from);
    lemma_dump_pairs_shape(chunk, from + 1);
    if k == from {
        assert(dump_pairs(chunk, from).subrange(0, 5) =~= seq![32u8] + dump_cell(chunk, 2 * from)
            + dump_cell(chunk, 2 * from + 1));
    } else {
        lemma_dump_pairs_index(chunk, from + 1, k);
        assert(dump_pairs(chunk, from).subrange(5 * (k - from), 5 * (k - from) + 5)
            =~= dump_pairs(chunk, from + 1).subrange(5 * (k - from - 1), 5 * (k - from - 1) + 5));
    }
}

/// Makes a hexdump of a slice into `f`, with the addresses shown starting
/// at zero. Displaying the buffer at the address it actually occupies is
/// the embedder's variant: it reads the buffer's address and calls
/// [`print_hexdump_as_if_at_addr`] with it.
pub fn print_hexdump(f: &mut Vec<u8>, mem: &[u8])
    ensures
        final(f)@ == old(f)@ + dump_lines(mem@, 0),
{
    let n = mem.len();
    print_hexdump_as_if_at_addr(f, mem, 0)
}

} // verus!
