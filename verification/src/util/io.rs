//! Integers read from and written to byte buffers in little- or big-endian order.
use vstd::prelude::*;

verus! {

/// The `n` least significant bytes of `value`, least significant first.
pub open spec fn le_seq(value: nat, n: nat) -> Seq<u8>
    decreases n,
{
    if n == 0 {
        Seq::empty()
    } else {
        seq![(value % 256) as u8] + le_seq(value / 256, (n - 1) as nat)
    }
}

/// The number that the bytes `bytes` stand for, least significant first.
pub open spec fn le_value(bytes: Seq<u8>) -> nat
    decreases bytes.len(),
{
    if bytes.len() == 0 {
        0
    } else {
        (bytes[0] + 256 * le_value(bytes.drop_first())) as nat
    }
}

/// The `n` least significant bytes of `value`, most significant first.
pub open spec fn be_seq(value: nat, n: nat) -> Seq<u8> {
    le_seq(value, n).reverse()
}

/// The number that the bytes `bytes` stand for, most significant first.
pub open spec fn be_value(bytes: Seq<u8>) -> nat {
    le_value(bytes.reverse())
}

/// Writing the `n` low bytes of a number below `256^n` and reading them back gives the number.
pub proof fn lemma_le_round_trip(value: nat, n: nat)
    requires
        value < pow256(n),
    ensures
        le_seq(value, n).len() == n,
        le_value(le_seq(value, n)) == value,
    decreases n,
{
    if n > 0 {
        lemma_le_round_trip(value / 256, (n - 1) as nat);
        assert(le_seq(value, n).drop_first() =~= le_seq(value / 256, (n - 1) as nat));
    }
}

/// `256` to the power `n`.
pub open spec fn pow256(n: nat) -> nat
    decreases n,
{
    if n == 0 {
        1
    } else {
        256 * pow256((n - 1) as nat)
    }
}

/// Appends the `n` low bytes of `value` to `out`, least significant first.
fn push_le(out: &mut Vec<u8>, value: u64, n: usize)
    ensures
        final(out)@ == old(out)@ + le_seq(value as nat, n as nat),
{
    let mut v = value;
    let mut i: usize = 0;
    while i < n
        invariant
            i <= n,
            old(out)@ + le_seq(value as nat, n as nat) == out@ + le_seq(v as nat, (n - i) as nat),
        decreases n - i,
    {
        proof {
            assert(le_seq(v as nat, (n - i) as nat) =~= seq![(v % 256) as u8] + le_seq(
                (v / 256) as nat,
                (n - i - 1) as nat,
            ));
        }
        out.push((v % 256) as u8);
        v = v / 256;
        i += 1;
        proof {
            assert(out@ + le_seq(v as nat, (n - i) as nat) =~= old(out)@ + le_seq(value as nat, n as nat));
        }
    }
    proof {
        assert(out@ + le_seq(v as nat, 0) =~= out@);
    }
}

/// Appends the `n` low bytes of `value` to `out`, most significant first.
fn push_be(out: &mut Vec<u8>, value: u64, n: usize)
    requires
        n <= 8,
    ensures
        final(out)@ == old(out)@ + be_seq(value as nat, n as nat),
{
    let mut tmp: Vec<u8> = Vec::new();
    push_le(&mut tmp, value, n);
    proof {
        assert(tmp@ =~= le_seq(value as nat, n as nat));
    }
    let len = tmp.len();
    let mut i: usize = 0;
    while i < len
        invariant
            i <= len,
            len == tmp@.len(),
            tmp@ == le_seq(value as nat, n as nat),
            out@ == old(out)@ + tmp@.reverse().take(i as int),
        decreases len - i,
    {
        out.push(tmp[len - 1 - i]);
        i += 1;
        proof {
            assert(out@ =~= old(out)@ + tmp@.reverse().take(i as int));
        }
    }
    proof {
        assert(tmp@.reverse().take(len as int) =~= tmp@.reverse());
    }
}

/// A number that can be written as bytes in either order.
pub trait WriteEndian: Sized {
    /// The bytes of the number, least significant first.
    spec fn le_bytes(self) -> Seq<u8>;

    /// Appends the bytes of the number, least significant first.
    fn write_le(self, writer: &mut Vec<u8>)
        ensures
            final(writer)@ == old(writer)@ + self.le_bytes(),
    ;

    /// Appends the bytes of the number, most significant first.
    fn write_be(self, writer: &mut Vec<u8>)
        ensures
            final(writer)@ == old(writer)@ + self.le_bytes().reverse(),
    ;
}

impl WriteEndian for u8 {
    open spec fn le_bytes(self) -> Seq<u8> {
        le_seq(self as nat, 1)
    }

    fn write_le(self, writer: &mut Vec<u8>) {
        push_le(writer, self as u64, 1);
    }

    fn write_be(self, writer: &mut Vec<u8>) {
        push_be(writer, self as u64, 1);
    }
}

impl WriteEndian for u16 {
    open spec fn le_bytes(self) -> Seq<u8> {
        le_seq(self as nat, 2)
    }

    fn write_le(self, writer: &mut Vec<u8>) {
        push_le(writer, self as u64, 2);
    }

    fn write_be(self, writer: &mut Vec<u8>) {
        push_be(writer, self as u64, 2);
    }
}

impl WriteEndian for u32 {
    open spec fn le_bytes(self) -> Seq<u8> {
        le_seq(self as nat, 4)
    }

    fn write_le(self, writer: &mut Vec<u8>) {
        push_le(writer, self as u64, 4);
    }

    fn write_be(self, writer: &mut Vec<u8>) {
        push_be(writer, self as u64, 4);
    }
}

impl WriteEndian for u64 {
    open spec fn le_bytes(self) -> Seq<u8> {
        le_seq(self as nat, 8)
    }

    fn write_le(self, writer: &mut Vec<u8>) {
        push_le(writer, self, 8);
    }

    fn write_be(self, writer: &mut Vec<u8>) {
        push_be(writer, self, 8);
    }
}

impl WriteEndian for i8 {
    /// The two's complement bytes of the number.
    open spec fn le_bytes(self) -> Seq<u8> {
        le_seq((self as u8) as nat, 1)
    }

    fn write_le(self, writer: &mut Vec<u8>) {
        push_le(writer, (self as u8) as u64, 1);
    }

    fn write_be(self, writer: &mut Vec<u8>) {
        push_be(writer, (self as u8) as u64, 1);
    }
}

impl WriteEndian for i16 {
    /// The two's complement bytes of the number.
    open spec fn le_bytes(self) -> Seq<u8> {
        le_seq((self as u16) as nat, 2)
    }

    fn write_le(self, writer: &mut Vec<u8>) {
        push_le(writer, (self as u16) as u64, 2);
    }

    fn write_be(self, writer: &mut Vec<u8>) {
        push_be(writer, (self as u16) as u64, 2);
    }
}

impl WriteEndian for i32 {
    /// The two's complement bytes of the number.
    open spec fn le_bytes(self) -> Seq<u8> {
        le_seq((self as u32) as nat, 4)
    }

    fn write_le(self, writer: &mut Vec<u8>) {
        push_le(writer, (self as u32) as u64, 4);
    }

    fn write_be(self, writer: &mut Vec<u8>) {
        push_be(writer, (self as u32) as u64, 4);
    }
}

impl WriteEndian for i64 {
    /// The two's complement bytes of the number.
    open spec fn le_bytes(self) -> Seq<u8> {
        le_seq((self as u64) as nat, 8)
    }

    fn write_le(self, writer: &mut Vec<u8>) {
        push_le(writer, self as u64, 8);
    }

    fn write_be(self, writer: &mut Vec<u8>) {
        push_be(writer, self as u64, 8);
    }
}

/// A read that ran past the end of the data.
#[derive(Debug, Clone, Copy, PartialEq, Eq, Structural)]
pub enum ReadError {
    UnexpectedEof,
}

/// Reads bytes in order from a borrowed buffer.
pub struct SliceReader<'a> {
    data: &'a [u8],
    pos: usize,
}

impl<'a> View for SliceReader<'a> {
    /// The bytes not read yet.
    type V = Seq<u8>;

    closed spec fn view(&self) -> Seq<u8> {
        self.data@.subrange(self.pos as int, self.data@.len() as int)
    }
}

impl<'a> SliceReader<'a> {
    #[verifier::type_invariant]
    spec fn in_bounds(self) -> bool {
        self.pos <= self.data@.len()
    }

    /// A reader at the start of `data`.
    pub fn new(data: &'a [u8]) -> (r: Self)
        ensures
            r@ == data@,
            r.data() == data@,
            r.position() == 0,
    {
        proof {
            assert(data@.subrange(0, data@.len() as int) =~= data@);
        }
        SliceReader { data, pos: 0 }
    }

    /// The whole buffer being read.
    pub closed spec fn data(&self) -> Seq<u8> {
        self.data@
    }

    /// How many bytes of the buffer have been read.
    pub closed spec fn position(&self) -> nat {
        self.pos as nat
    }

    /// The bytes not read yet are the buffer from the read position on.
    pub proof fn lemma_view_is_unread(&self)
        ensures
            self@ == self.data().subrange(self.position() as int, self.data().len() as int),
    {
    }

    /// How many bytes are left.
    pub fn len(&self) -> (n: usize)
        ensures
            n == self@.len(),
    {
        proof { use_type_invariant(self); }
        self.data.len() - self.pos
    }

    /// Whether every byte has been read.
    pub fn is_empty(&self) -> (b: bool)
        ensures
            b == (self@.len() == 0),
    {
        proof { use_type_invariant(self); }
        self.pos == self.data.len()
    }

    /// Takes the next `n` bytes and returns the number they stand for, least significant
    /// first; refused, with nothing taken, when fewer are left.
    fn take_le(&mut self, n: usize) -> (r: Result<u64, ReadError>)
        requires
            n <= 8,
        ensures
            old(self)@.len() >= n ==> r == Ok::<u64, ReadError>(le_value(old(self)@.take(n as int)) as u64)
                && le_value(old(self)@.take(n as int)) < pow256(n as nat) && final(self)@ == old(self)@.skip(n as int),
            old(self)@.len() < n ==> r == Err::<u64, ReadError>(ReadError::UnexpectedEof) && final(self)@ == old(self)@,
    {
        proof { use_type_invariant(&*self); }
        if self.data.len() - self.pos < n {
            return Err(ReadError::UnexpectedEof);
        }
        let ghost bytes = old(self)@.take(n as int);
        let len = self.data.len();
        let mut acc: u64 = 0;
        let mut i: usize = n;
        proof {
            assert(bytes.subrange(n as int, n as int) =~= Seq::<u8>::empty());
        }
        while i > 0
            invariant
                i <= n,
                n <= 8,
                len == self.data@.len(),
                self.pos + n <= len,
                bytes == self.data@.subrange(self.pos as int, self.pos + n),
                acc == le_value(bytes.subrange(i as int, n as int)),
                acc < pow256((n - i) as nat),
            decreases i,
        {
            i -= 1;
            let b = self.data[self.pos + i];
            proof {
                assert(bytes.subrange(i as int, n as int).drop_first() =~= bytes.subrange(i + 1, n as int));
                lemma_pow256_bound((n - i - 1) as nat);
            }
            acc = b as u64 + 256 * acc;
        }
        proof {
            assert(bytes.subrange(0, n as int) =~= bytes);
            assert(old(self)@.skip(n as int) =~= self.data@.subrange(self.pos + n, self.data@.len() as int));
        }
        self.pos = self.pos + n;
        Ok(acc)
    }

    /// Takes the next `n` bytes and returns the number they stand for, most significant
    /// first; refused, with nothing taken, when fewer are left.
    fn take_be(&mut self, n: usize) -> (r: Result<u64, ReadError>)
        requires
            n <= 8,
        ensures
            old(self)@.len() >= n ==> r == Ok::<u64, ReadError>(be_value(old(self)@.take(n as int)) as u64)
                && be_value(old(self)@.take(n as int)) < pow256(n as nat) && final(self)@ == old(self)@.skip(n as int),
            old(self)@.len() < n ==> r == Err::<u64, ReadError>(ReadError::UnexpectedEof) && final(self)@ == old(self)@,
    {
        proof { use_type_invariant(&*self); }
        if self.data.len() - self.pos < n {
            return Err(ReadError::UnexpectedEof);
        }
        let ghost bytes = old(self)@.take(n as int);
        let len = self.data.len();
        let mut acc: u64 = 0;
        let mut i: usize = 0;
        proof {
            assert(bytes.reverse().subrange(n as int, n as int) =~= Seq::<u8>::empty());
        }
        while i < n
            invariant
                i <= n,
                n <= 8,
                len == self.data@.len(),
                self.pos + n <= len,
                bytes == self.data@.subrange(self.pos as int, self.pos + n),
                acc == le_value(bytes.reverse().subrange((n - i) as int, n as int)),
                acc < pow256(i as nat),
            decreases n - i,
        {
            let b = self.data[self.pos + i];
            proof {
                let k = (n - i - 1) as int;
                assert(bytes.reverse()[k] == b);
                assert(bytes.reverse().subrange(k, n as int).drop_first() =~= bytes.reverse().subrange(
                    k + 1,
                    n as int,
                ));
                lemma_pow256_bound(i as nat);
            }
            acc = b as u64 + 256 * acc;
            i += 1;
        }
        proof {
            assert(bytes.reverse().subrange(0, n as int) =~= bytes.reverse());
            assert(old(self)@.skip(n as int) =~= self.data@.subrange(self.pos + n, self.data@.len() as int));
        }
        self.pos = self.pos + n;
        Ok(acc)
    }
}

/// `256^n` is at most `2^64` for `n` up to 8, and grows by 256 at each step.
/// The powers of 256 that the integer types' sizes give.
pub proof fn lemma_pow256_values()
    ensures
        pow256(1) == 0x100,
        pow256(2) == 0x1_0000,
        pow256(4) == 0x1_0000_0000,
        pow256(8) == 0x1_0000_0000_0000_0000,
{
    reveal_with_fuel(pow256, 9);
}

proof fn lemma_pow256_bound(n: nat)
    requires
        n < 8,
    ensures
        256 * pow256(n) == pow256(n + 1),
        pow256(n + 1) <= 0x1_0000_0000_0000_0000,
{
    reveal_with_fuel(pow256, 9);
}

/// A number that can be read from bytes in either order.
pub trait ReadEndian: Sized {
    /// How many bytes the number takes.
    spec fn byte_len() -> nat;

    /// The number that `bytes`, least significant first, stand for.
    spec fn from_le(bytes: Seq<u8>) -> Self;

    /// Reads the number from the next bytes, least significant first; refused, with nothing
    /// read, when too few are left.
    fn get_le(reader: &mut SliceReader) -> (r: Result<Self, ReadError>)
        ensures
            old(reader)@.len() >= Self::byte_len() ==> r == Ok::<Self, ReadError>(
                Self::from_le(old(reader)@.take(Self::byte_len() as int)),
            ) && final(reader)@ == old(reader)@.skip(Self::byte_len() as int),
            old(reader)@.len() < Self::byte_len() ==> r == Err::<Self, ReadError>(
                ReadError::UnexpectedEof,
            ) && final(reader)@ == old(reader)@,
    ;

    /// Reads the number from the next bytes, most significant first; refused, with nothing
    /// read, when too few are left.
    fn read_be(reader: &mut SliceReader) -> (r: Result<Self, ReadError>)
        ensures
            old(reader)@.len() >= Self::byte_len() ==> r == Ok::<Self, ReadError>(
                Self::from_le(old(reader)@.take(Self::byte_len() as int).reverse()),
            ) && final(reader)@ == old(reader)@.skip(Self::byte_len() as int),
            old(reader)@.len() < Self::byte_len() ==> r == Err::<Self, ReadError>(
                ReadError::UnexpectedEof,
            ) && final(reader)@ == old(reader)@,
    ;
}

impl ReadEndian for u8 {
    open spec fn byte_len() -> nat {
        1
    }

    open spec fn from_le(bytes: Seq<u8>) -> u8 {
        le_value(bytes) as u8
    }

    fn get_le(reader: &mut SliceReader) -> (r: Result<u8, ReadError>) {
        proof { lemma_pow256_values(); }
        match reader.take_le(1) {
            Ok(acc) => Ok(acc as u8),
            Err(e) => Err(e),
        }
    }

    fn read_be(reader: &mut SliceReader) -> (r: Result<u8, ReadError>) {
        proof { lemma_pow256_values(); }
        match reader.take_be(1) {
            Ok(acc) => Ok(acc as u8),
            Err(e) => Err(e),
        }
    }
}

impl ReadEndian for u16 {
    open spec fn byte_len() -> nat {
        2
    }

    open spec fn from_le(bytes: Seq<u8>) -> u16 {
        le_value(bytes) as u16
    }

    fn get_le(reader: &mut SliceReader) -> (r: Result<u16, ReadError>) {
        proof { lemma_pow256_values(); }
        match reader.take_le(2) {
            Ok(acc) => Ok(acc as u16),
            Err(e) => Err(e),
        }
    }

    fn read_be(reader: &mut SliceReader) -> (r: Result<u16, ReadError>) {
        proof { lemma_pow256_values(); }
        match reader.take_be(2) {
            Ok(acc) => Ok(acc as u16),
            Err(e) => Err(e),
        }
    }
}

impl ReadEndian for u32 {
    open spec fn byte_len() -> nat {
        4
    }

    open spec fn from_le(bytes: Seq<u8>) -> u32 {
        le_value(bytes) as u32
    }

    fn get_le(reader: &mut SliceReader) -> (r: Result<u32, ReadError>) {
        proof { lemma_pow256_values(); }
        match reader.take_le(4) {
            Ok(acc) => Ok(acc as u32),
            Err(e) => Err(e),
        }
    }

    fn read_be(reader: &mut SliceReader) -> (r: Result<u32, ReadError>) {
        proof { lemma_pow256_values(); }
        match reader.take_be(4) {
            Ok(acc) => Ok(acc as u32),
            Err(e) => Err(e),
        }
    }
}

impl ReadEndian for u64 {
    open spec fn byte_len() -> nat {
        8
    }

    open spec fn from_le(bytes: Seq<u8>) -> u64 {
        le_value(bytes) as u64
    }

    fn get_le(reader: &mut SliceReader) -> (r: Result<u64, ReadError>) {
        proof { lemma_pow256_values(); }
        match reader.take_le(8) {
            Ok(acc) => Ok(acc),
            Err(e) => Err(e),
        }
    }

    fn read_be(reader: &mut SliceReader) -> (r: Result<u64, ReadError>) {
        proof { lemma_pow256_values(); }
        match reader.take_be(8) {
            Ok(acc) => Ok(acc),
            Err(e) => Err(e),
        }
    }
}

impl ReadEndian for i8 {
    open spec fn byte_len() -> nat {
        1
    }

    open spec fn from_le(bytes: Seq<u8>) -> i8 {
        (le_value(bytes) as u8) as i8
    }

    fn get_le(reader: &mut SliceReader) -> (r: Result<i8, ReadError>) {
        proof { lemma_pow256_values(); }
        match reader.take_le(1) {
            Ok(acc) => Ok((acc as u8) as i8),
            Err(e) => Err(e),
        }
    }

    fn read_be(reader: &mut SliceReader) -> (r: Result<i8, ReadError>) {
        proof { lemma_pow256_values(); }
        match reader.take_be(1) {
            Ok(acc) => Ok((acc as u8) as i8),
            Err(e) => Err(e),
        }
    }
}

impl ReadEndian for i16 {
    open spec fn byte_len() -> nat {
        2
    }

    open spec fn from_le(bytes: Seq<u8>) -> i16 {
        (le_value(bytes) as u16) as i16
    }

    fn get_le(reader: &mut SliceReader) -> (r: Result<i16, ReadError>) {
        proof { lemma_pow256_values(); }
        match reader.take_le(2) {
            Ok(acc) => Ok((acc as u16) as i16),
            Err(e) => Err(e),
        }
    }

    fn read_be(reader: &mut SliceReader) -> (r: Result<i16, ReadError>) {
        proof { lemma_pow256_values(); }
        match reader.take_be(2) {
            Ok(acc) => Ok((acc as u16) as i16),
            Err(e) => Err(e),
        }
    }
}

impl ReadEndian for i32 {
    open spec fn byte_len() -> nat {
        4
    }

    open spec fn from_le(bytes: Seq<u8>) -> i32 {
        (le_value(bytes) as u32) as i32
    }

    fn get_le(reader: &mut SliceReader) -> (r: Result<i32, ReadError>) {
        proof { lemma_pow256_values(); }
        match reader.take_le(4) {
            Ok(acc) => Ok((acc as u32) as i32),
            Err(e) => Err(e),
        }
    }

    fn read_be(reader: &mut SliceReader) -> (r: Result<i32, ReadError>) {
        proof { lemma_pow256_values(); }
        match reader.take_be(4) {
            Ok(acc) => Ok((acc as u32) as i32),
            Err(e) => Err(e),
        }
    }
}

impl ReadEndian for i64 {
    open spec fn byte_len() -> nat {
        8
    }

    open spec fn from_le(bytes: Seq<u8>) -> i64 {
        (le_value(bytes) as u64) as i64
    }

    fn get_le(reader: &mut SliceReader) -> (r: Result<i64, ReadError>) {
        proof { lemma_pow256_values(); }
        match reader.take_le(8) {
            Ok(acc) => Ok(acc as i64),
            Err(e) => Err(e),
        }
    }

    fn read_be(reader: &mut SliceReader) -> (r: Result<i64, ReadError>) {
        proof { lemma_pow256_values(); }
        match reader.take_be(8) {
            Ok(acc) => Ok(acc as i64),
            Err(e) => Err(e),
        }
    }
}

/// Reading numbers and fixed runs of bytes, in order.
pub trait ReadExt {
    /// The bytes not read yet.
    spec fn unread(&self) -> Seq<u8>;

    /// The next `N` bytes; refused, with nothing read, when fewer are left.
    fn get_bytes<const N: usize>(&mut self) -> (r: Result<[u8; N], ReadError>)
        ensures
            old(self).unread().len() >= N ==> (r matches Ok(bytes) && bytes@ == old(self).unread().take(
                N as int,
            ) && final(self).unread() == old(self).unread().skip(N as int)),
            old(self).unread().len() < N ==> r == Err::<[u8; N], ReadError>(ReadError::UnexpectedEof)
                && final(self).unread() == old(self).unread(),
    ;

    /// The number that the next bytes stand for, least significant first.
    fn get_le<T: ReadEndian>(&mut self) -> (r: Result<T, ReadError>)
        ensures
            old(self).unread().len() >= T::byte_len() ==> r == Ok::<T, ReadError>(
                T::from_le(old(self).unread().take(T::byte_len() as int)),
            ) && final(self).unread() == old(self).unread().skip(T::byte_len() as int),
            old(self).unread().len() < T::byte_len() ==> r == Err::<T, ReadError>(
                ReadError::UnexpectedEof,
            ) && final(self).unread() == old(self).unread(),
    ;

    /// The number that the next bytes stand for, most significant first.
    fn get_be<T: ReadEndian>(&mut self) -> (r: Result<T, ReadError>)
        ensures
            old(self).unread().len() >= T::byte_len() ==> r == Ok::<T, ReadError>(
                T::from_le(old(self).unread().take(T::byte_len() as int).reverse()),
            ) && final(self).unread() == old(self).unread().skip(T::byte_len() as int),
            old(self).unread().len() < T::byte_len() ==> r == Err::<T, ReadError>(
                ReadError::UnexpectedEof,
            ) && final(self).unread() == old(self).unread(),
    ;
}

impl<'a> ReadExt for SliceReader<'a> {
    open spec fn unread(&self) -> Seq<u8> {
        self@
    }

    fn get_bytes<const N: usize>(&mut self) -> (r: Result<[u8; N], ReadError>) {
        proof { use_type_invariant(&*self); }
        if self.data.len() - self.pos < N {
            return Err(ReadError::UnexpectedEof);
        }
        let mut buf = [0u8; N];
        let mut i: usize = 0;
        let len = self.data.len();
        while i < N
            invariant
                i <= N,
                len == self.data@.len(),
                self.pos + N <= len,
                forall|j: int| 0 <= j < i ==> #[trigger] buf@[j] == self.data@[self.pos + j],
            decreases N - i,
        {
            buf[i] = self.data[self.pos + i];
            i += 1;
        }
        proof {
            assert(buf@ =~= old(self)@.take(N as int));
            assert(old(self)@.skip(N as int) =~= self.data@.subrange(self.pos + N, self.data@.len() as int));
        }
        self.pos = self.pos + N;
        Ok(buf)
    }

    fn get_le<T: ReadEndian>(&mut self) -> (r: Result<T, ReadError>) {
        T::get_le(self)
    }

    fn get_be<T: ReadEndian>(&mut self) -> (r: Result<T, ReadError>) {
        T::read_be(self)
    }
}

/// Writing numbers and runs of bytes at the end of what was written.
pub trait WriteExt {
    /// Everything written so far.
    spec fn written(&self) -> Seq<u8>;

    /// Appends `bytes`.
    fn put_bytes(&mut self, bytes: &[u8])
        ensures
            final(self).written() == old(self).written() + bytes@,
    ;

    /// Appends the bytes of `value`, least significant first.
    fn put_le<T: WriteEndian>(&mut self, value: T)
        ensures
            final(self).written() == old(self).written() + value.le_bytes(),
    ;

    /// Appends the bytes of `value`, most significant first.
    fn put_be<T: WriteEndian>(&mut self, value: T)
        ensures
            final(self).written() == old(self).written() + value.le_bytes().reverse(),
    ;
}

impl WriteExt for Vec<u8> {
    open spec fn written(&self) -> Seq<u8> {
        self@
    }

    fn put_bytes(&mut self, bytes: &[u8]) {
        let mut i: usize = 0;
        while i < bytes.len()
            invariant
                i <= bytes@.len(),
                self@ == old(self)@ + bytes@.take(i as int),
            decreases bytes@.len() - i,
        {
            self.push(bytes[i]);
            i += 1;
            proof {
                assert(self@ =~= old(self)@ + bytes@.take(i as int));
            }
        }
        proof {
            assert(bytes@.take(bytes@.len() as int) =~= bytes@);
        }
    }

    fn put_le<T: WriteEndian>(&mut self, value: T) {
        value.write_le(self);
    }

    fn put_be<T: WriteEndian>(&mut self, value: T) {
        value.write_be(self);
    }
}

/// Numbers that read back as written.
pub trait EndianRoundTrip: ReadEndian + WriteEndian {
    /// Reading back the bytes written for `v`, in either order, gives `v`.
    proof fn lemma_round_trip(v: Self)
        ensures
            v.le_bytes().len() == Self::byte_len(),
            Self::from_le(v.le_bytes()) == v,
            Self::from_le(v.le_bytes().reverse().reverse()) == v,
    ;
}

impl EndianRoundTrip for u8 {
    proof fn lemma_round_trip(v: u8) {
        lemma_pow256_values();
        lemma_le_round_trip(v as nat, 1);
        assert(v.le_bytes().reverse().reverse() =~= v.le_bytes());
    }
}

impl EndianRoundTrip for u16 {
    proof fn lemma_round_trip(v: u16) {
        lemma_pow256_values();
        lemma_le_round_trip(v as nat, 2);
        assert(v.le_bytes().reverse().reverse() =~= v.le_bytes());
    }
}

impl EndianRoundTrip for u32 {
    proof fn lemma_round_trip(v: u32) {
        lemma_pow256_values();
        lemma_le_round_trip(v as nat, 4);
        assert(v.le_bytes().reverse().reverse() =~= v.le_bytes());
    }
}

impl EndianRoundTrip for u64 {
    proof fn lemma_round_trip(v: u64) {
        lemma_pow256_values();
        lemma_le_round_trip(v as nat, 8);
        assert(v.le_bytes().reverse().reverse() =~= v.le_bytes());
    }
}

impl EndianRoundTrip for i8 {
    proof fn lemma_round_trip(v: i8) {
        lemma_pow256_values();
        lemma_le_round_trip((v as u8) as nat, 1);
        assert(v.le_bytes().reverse().reverse() =~= v.le_bytes());
        assert(((v as u8) as i8) == v) by (bit_vector);
    }
}

impl EndianRoundTrip for i16 {
    proof fn lemma_round_trip(v: i16) {
        lemma_pow256_values();
        lemma_le_round_trip((v as u16) as nat, 2);
        assert(v.le_bytes().reverse().reverse() =~= v.le_bytes());
        assert(((v as u16) as i16) == v) by (bit_vector);
    }
}

impl EndianRoundTrip for i32 {
    proof fn lemma_round_trip(v: i32) {
        lemma_pow256_values();
        lemma_le_round_trip((v as u32) as nat, 4);
        assert(v.le_bytes().reverse().reverse() =~= v.le_bytes());
        assert(((v as u32) as i32) == v) by (bit_vector);
    }
}

impl EndianRoundTrip for i64 {
    proof fn lemma_round_trip(v: i64) {
        lemma_pow256_values();
        lemma_le_round_trip((v as u64) as nat, 8);
        assert(v.le_bytes().reverse().reverse() =~= v.le_bytes());
        assert(((v as u64) as i64) == v) by (bit_vector);
    }
}

} // verus!
