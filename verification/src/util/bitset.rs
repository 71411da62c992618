//! A fixed-length set of flags packed eight to a byte.
use vstd::prelude::*;

verus! {

/// Bit `k` (0 = least significant) of `b`.
pub open spec fn byte_bit(b: u8, k: int) -> bool {
    (b >> (k as u8)) & 1u8 == 1u8
}

/// Flag `i` of a packed buffer: bit `i % 8` of byte `i / 8`.
pub open spec fn packed_bit(bytes: Seq<u8>, i: int) -> bool {
    byte_bit(bytes[i / 8], i % 8)
}

/// The first `count` flags of a packed buffer.
pub open spec fn packed_bits(bytes: Seq<u8>, count: nat) -> Seq<bool> {
    Seq::new(count, |i: int| packed_bit(bytes, i))
}

/// Number of bytes that hold `count` flags.
pub open spec fn byte_count(count: nat) -> nat {
    ((count + 7) / 8) as nat
}

/// `b` with bit `k` set to `value`.
pub open spec fn with_bit(b: u8, k: int, value: bool) -> u8 {
    if value {
        b | (1u8 << (k as u8))
    } else {
        b & !(1u8 << (k as u8))
    }
}

/// `b` with bit `k` flipped.
pub open spec fn flip_bit(b: u8, k: int) -> u8 {
    b ^ (1u8 << (k as u8))
}

proof fn lemma_byte_bits(b: u8, k: u8, j: u8)
    requires
        k < 8,
        j < 8,
    ensures
        byte_bit(with_bit(b, k as int, true), j as int) == (j == k || byte_bit(b, j as int)),
        byte_bit(with_bit(b, k as int, false), j as int) == (j != k && byte_bit(b, j as int)),
        byte_bit(flip_bit(b, k as int), j as int) == (if j == k {
            !byte_bit(b, j as int)
        } else {
            byte_bit(b, j as int)
        }),
{
    assert(((b | (1u8 << k)) >> j) & 1u8 == 1u8 <==> (j == k || (b >> j) & 1u8 == 1u8))
        by (bit_vector)
        requires
            k < 8,
            j < 8,
    ;
    assert(((b & !(1u8 << k)) >> j) & 1u8 == 1u8 <==> (j != k && (b >> j) & 1u8 == 1u8))
        by (bit_vector)
        requires
            k < 8,
            j < 8,
    ;
    assert(((b ^ (1u8 << k)) >> j) & 1u8 == 1u8 <==> (if j == k {
        !((b >> j) & 1u8 == 1u8)
    } else {
        (b >> j) & 1u8 == 1u8
    })) by (bit_vector)
        requires
            k < 8,
            j < 8,
    ;
}

proof fn lemma_zero_byte_bits(k: u8)
    by (bit_vector)
    ensures
        (0u8 >> k) & 1u8 == 0u8,
{
}

/// A packed buffer whose byte `index / 8` is replaced by `new_byte` keeps every flag that
/// does not live in that byte, and flag `index` and its neighbours take the bits of
/// `new_byte`.
proof fn lemma_update_byte(bytes: Seq<u8>, index: int, new_byte: u8, i: int)
    requires
        0 <= index,
        0 <= i,
        index / 8 < bytes.len(),
        i / 8 < bytes.len(),
    ensures
        packed_bit(bytes.update(index / 8, new_byte), i) == if i / 8 == index / 8 {
            byte_bit(new_byte, i % 8)
        } else {
            packed_bit(bytes, i)
        },
{
}

/// A set of `len` flags stored in a byte buffer, flag `i` being bit `i % 8` of byte `i / 8`.
pub struct BitSet {
    inner: Vec<u8>,
    count: usize,
}

impl View for BitSet {
    type V = Seq<bool>;

    closed spec fn view(&self) -> Seq<bool> {
        packed_bits(self.inner@, self.count as nat)
    }
}

impl BitSet {
    #[verifier::type_invariant]
    spec fn buffer_fits(self) -> bool {
        self.inner.len() == byte_count(self.count as nat)
    }

    /// The byte buffer, including any bits past the last flag.
    pub closed spec fn bytes(&self) -> Seq<u8> {
        self.inner@
    }

    /// The flags are the first bits of the buffer.
    pub proof fn lemma_view(&self)
        ensures
            self@ == packed_bits(self.bytes(), self@.len()),
    {
    }

    /// `bit_count` cleared flags.
    pub fn new(bit_count: usize) -> (s: Self)
        ensures
            s@ == Seq::new(bit_count as nat, |i: int| false),
            s.bytes() == Seq::new(byte_count(bit_count as nat), |i: int| 0u8),
    {
        let n = bit_count / 8 + if bit_count % 8 == 0 { 0 } else { 1 };
        let s = Self { inner: vec![0; n], count: bit_count };
        proof {
            assert(s.inner@ =~= Seq::new(byte_count(bit_count as nat), |i: int| 0u8));
            assert forall|i: int| 0 <= i < bit_count implies !packed_bit(s.inner@, i) by {
                assert(s.inner@[i / 8] == 0u8);
                lemma_zero_byte_bits((i % 8) as u8);
            }
            assert(s@ =~= Seq::new(bit_count as nat, |i: int| false));
        }
        s
    }

    /// Grows the set to `count` flags; a smaller count leaves it as it is. Bytes that the
    /// buffer gains are zero; flags that fall in bytes it already had keep the bits they had
    /// there.
    pub fn resize(&mut self, count: usize)
        ensures
            final(self).bytes().len() == byte_count(final(self)@.len()),
            count < old(self)@.len() ==> final(self)@ == old(self)@ && final(self).bytes()
                == old(self).bytes(),
            count >= old(self)@.len() ==> final(self).bytes() == old(self).bytes() + Seq::new(
                (byte_count(count as nat) - old(self).bytes().len()) as nat,
                |i: int| 0u8,
            ) && final(self)@ == packed_bits(final(self).bytes(), count as nat),
    {
        proof { use_type_invariant(&*self); }
        if count < self.count {
            return;
        }
        let byte_count = count / 8 + if count % 8 == 0 { 0 } else { 1 };
        let ghost old_bytes = self.inner@;
        let mut taken = Self { inner: Vec::new(), count: 0 };
        std::mem::swap(&mut taken, self);
        let Self { mut inner, count: _ } = taken;
        if byte_count > inner.len() {
            inner.resize(byte_count, 0);
        }
        proof {
            assert(inner@ =~= old_bytes + Seq::new((byte_count - old_bytes.len()) as nat, |i: int| 0u8));
        }
        *self = Self { inner, count };
    }

    /// The set whose flags are the first `bit_count` bits of `bytes`.
    pub fn from_raw(bytes: Vec<u8>, bit_count: usize) -> (s: Self)
        requires
            bytes.len() == byte_count(bit_count as nat),
        ensures
            s@ == packed_bits(bytes@, bit_count as nat),
            s.bytes() == bytes@,
    {
        Self { inner: bytes, count: bit_count }
    }

    pub fn len(&self) -> (n: usize)
        ensures
            n == self@.len(),
    {
        self.count
    }

    pub fn is_empty(&self) -> (b: bool)
        ensures
            b == (self@.len() == 0),
    {
        self.count == 0
    }

    /// The byte buffer that holds the flags.
    pub fn as_bytes(&self) -> (b: &[u8])
        ensures
            b@ == self.bytes(),
    {
        self.inner.as_slice()
    }

    /// Flag `index`, if the set has it.
    pub fn get(&self, index: usize) -> (r: Option<bool>)
        ensures
            r == if index < self@.len() {
                Some(self@[index as int])
            } else {
                None::<bool>
            },
    {
        proof { use_type_invariant(self); }
        if index >= self.count {
            return None;
        }
        let byte_index = index / 8;
        let shift = (index % 8) as u8;
        let byte = self.inner[byte_index];
        Some((byte >> shift) & 1 == 1)
    }

    /// Sets flag `index` to `value` and returns `value`, or `None` if the set has no such
    /// flag.
    pub fn set(&mut self, index: usize, value: bool) -> (r: Option<bool>)
        ensures
            old(self).bytes().len() == byte_count(old(self)@.len()),
            final(self).bytes().len() == byte_count(final(self)@.len()),
            index >= old(self)@.len() ==> r is None && final(self)@ == old(self)@ && final(self).bytes() == old(self).bytes(),
            index < old(self)@.len() ==> r == Some(value) && final(self)@ == old(self)@.update(
                index as int,
                value,
            ) && final(self).bytes() == old(self).bytes().update(
                index as int / 8,
                with_bit(old(self).bytes()[index as int / 8], index as int % 8, value),
            ),
    {
        proof { use_type_invariant(&*self); }
        if index >= self.count {
            return None;
        }
        let byte_index = index / 8;
        let shift = (index % 8) as u8;
        let bitmask: u8 = 1 << shift;
        let old_byte = self.inner[byte_index];
        let new_byte = if value { old_byte | bitmask } else { old_byte & !bitmask };
        let ghost old_bytes = self.inner@;
        let mut taken = Self { inner: Vec::new(), count: 0 };
        std::mem::swap(&mut taken, self);
        let Self { mut inner, count } = taken;
        inner.set(byte_index, new_byte);
        proof {
            assert forall|i: int| 0 <= i < count implies #[trigger] packed_bit(inner@, i) == (
            if i == index {
                value
            } else {
                packed_bit(old_bytes, i)
            }) by {
                lemma_update_byte(old_bytes, index as int, new_byte, i);
                if i / 8 == index / 8 {
                    lemma_byte_bits(old_byte, shift, (i % 8) as u8);
                }
            }
            assert(packed_bits(inner@, count as nat) =~= packed_bits(old_bytes, count as nat).update(
                index as int,
                value,
            ));
        }
        *self = Self { inner, count };
        Some(value)
    }

    /// Flips flag `index` and returns its new value, or `None` if the set has no such flag.
    pub fn toggle(&mut self, index: usize) -> (r: Option<bool>)
        ensures
            old(self).bytes().len() == byte_count(old(self)@.len()),
            final(self).bytes().len() == byte_count(final(self)@.len()),
            index >= old(self)@.len() ==> r is None && final(self)@ == old(self)@ && final(self).bytes() == old(self).bytes(),
            index < old(self)@.len() ==> r == Some(!old(self)@[index as int]) && final(self)@
                == old(self)@.update(index as int, !old(self)@[index as int]) && final(self).bytes()
                == old(self).bytes().update(
                index as int / 8,
                flip_bit(old(self).bytes()[index as int / 8], index as int % 8),
            ),
    {
        proof { use_type_invariant(&*self); }
        if index >= self.count {
            return None;
        }
        let byte_index = index / 8;
        let shift = (index % 8) as u8;
        let bitmask: u8 = 1 << shift;
        let old_byte = self.inner[byte_index];
        let new_byte = old_byte ^ bitmask;
        let ghost old_bytes = self.inner@;
        let mut taken = Self { inner: Vec::new(), count: 0 };
        std::mem::swap(&mut taken, self);
        let Self { mut inner, count } = taken;
        inner.set(byte_index, new_byte);
        proof {
            assert forall|i: int| 0 <= i < count implies #[trigger] packed_bit(inner@, i) == (
            if i == index {
                !packed_bit(old_bytes, i)
            } else {
                packed_bit(old_bytes, i)
            }) by {
                lemma_update_byte(old_bytes, index as int, new_byte, i);
                if i / 8 == index / 8 {
                    lemma_byte_bits(old_byte, shift, (i % 8) as u8);
                }
            }
            assert(packed_bits(inner@, count as nat) =~= packed_bits(old_bytes, count as nat).update(
                index as int,
                !packed_bit(old_bytes, index as int),
            ));
        }
        *self = Self { inner, count };
        proof {
            lemma_byte_bits(old_byte, shift, shift);
            assert(((new_byte & (1u8 << shift)) != 0u8) == ((new_byte >> shift) & 1u8 == 1u8))
                by (bit_vector)
                requires
                    shift < 8,
            ;
        }
        Some((new_byte & bitmask) != 0)
    }
}

/// Toggling a flag twice leaves its storage bytes as they were: flipping bit `i % 8` of
/// byte `i / 8` twice restores the byte.
pub proof fn lemma_flip_twice(bytes: Seq<u8>, i: int)
    requires
        0 <= i,
        i / 8 < bytes.len(),
    ensures
        ({
            let once = bytes.update(i / 8, flip_bit(bytes[i / 8], i % 8));
            once.update(i / 8, flip_bit(once[i / 8], i % 8)) == bytes
        }),
{
    let b = bytes[i / 8];
    let k = (i % 8) as u8;
    assert((b ^ (1u8 << k)) ^ (1u8 << k) == b) by (bit_vector);
    let once = bytes.update(i / 8, flip_bit(b, i % 8));
    assert(once.update(i / 8, flip_bit(once[i / 8], i % 8)) =~= bytes);
}

/// Toggling a flag twice leaves the flags as they were; setting a flag and reading it gives
/// the value set, and leaves the other flags alone.
pub proof fn lemma_flag_updates(flags: Seq<bool>, i: int, j: int, value: bool)
    requires
        0 <= i < flags.len(),
        0 <= j < flags.len(),
    ensures
        flags.update(i, !flags[i]).update(i, !flags.update(i, !flags[i])[i]) == flags,
        flags.update(i, value)[i] == value,
        i != j ==> flags.update(i, value)[j] == flags[j],
{
    assert(flags.update(i, !flags[i]).update(i, !flags.update(i, !flags[i])[i]) =~= flags);
}

} // verus!
