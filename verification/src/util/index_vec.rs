//! A vector stored as its length, in a chosen integer type, followed by its items.
use vstd::prelude::*;
use core::marker::PhantomData;
use crate::util::io::{EndianRoundTrip, ReadEndian, WriteEndian, ReadError, SliceReader};

verus! {

/// An integer type that can hold the length of an `IndexVec`.
pub trait IndexType: Sized + Copy {
    /// The number the value stands for.
    spec fn index_value(self) -> nat;

    /// The largest length the type can hold.
    spec fn max_len() -> nat;

    /// The value as a `usize`.
    fn to_usize(self) -> (n: usize)
        ensures
            n == self.index_value(),
    ;

    /// The length `n` in this type, if it fits.
    fn try_from_len(n: usize) -> (r: Option<Self>)
        ensures
            n <= Self::max_len() ==> (r matches Some(v) && v.index_value() == n),
            n > Self::max_len() ==> r is None,
    ;
}

impl IndexType for u8 {
    open spec fn index_value(self) -> nat {
        self as nat
    }

    open spec fn max_len() -> nat {
        u8::MAX as nat
    }

    fn to_usize(self) -> (n: usize) {
        self as usize
    }

    fn try_from_len(n: usize) -> (r: Option<u8>) {
        if n <= u8::MAX as usize {
            Some(n as u8)
        } else {
            None
        }
    }
}

impl IndexType for u16 {
    open spec fn index_value(self) -> nat {
        self as nat
    }

    open spec fn max_len() -> nat {
        u16::MAX as nat
    }

    fn to_usize(self) -> (n: usize) {
        self as usize
    }

    fn try_from_len(n: usize) -> (r: Option<u16>) {
        if n <= u16::MAX as usize {
            Some(n as u16)
        } else {
            None
        }
    }
}

/// Why a vector could not be written.
#[derive(Debug, Clone, Copy, PartialEq, Eq, Structural)]
pub enum WriteError {
    /// The length does not fit in the index type.
    LengthTooLarge,
}

/// What reading `count` items of `V` from `bytes` gives: the items read, the bytes left, and
/// whether all `count` were there. Reading stops at the first item that is cut short.
pub open spec fn read_items<V: ReadEndian>(bytes: Seq<u8>, count: nat, big_endian: bool) -> (
    Seq<V>,
    Seq<u8>,
    bool,
)
    decreases count,
{
    if count == 0 {
        (Seq::empty(), bytes, true)
    } else if bytes.len() < V::byte_len() {
        (Seq::empty(), bytes, false)
    } else {
        let item_bytes = bytes.take(V::byte_len() as int);
        let item = if big_endian {
            V::from_le(item_bytes.reverse())
        } else {
            V::from_le(item_bytes)
        };
        let (rest, left, complete) = read_items::<V>(
            bytes.skip(V::byte_len() as int),
            (count - 1) as nat,
            big_endian,
        );
        (seq![item] + rest, left, complete)
    }
}

/// The bytes of `items`, each least significant first.
pub open spec fn le_concat<V: WriteEndian>(items: Seq<V>) -> Seq<u8>
    decreases items.len(),
{
    if items.len() == 0 {
        Seq::empty()
    } else {
        items[0].le_bytes() + le_concat(items.drop_first())
    }
}

/// Appending the bytes of one more item extends the concatenation by them.
pub proof fn lemma_le_concat_push<V: WriteEndian>(items: Seq<V>, v: V)
    ensures
        le_concat(items.push(v)) == le_concat(items) + v.le_bytes(),
    decreases items.len(),
{
    if items.len() == 0 {
        assert(items.push(v).drop_first() =~= Seq::<V>::empty());
        assert(le_concat(Seq::<V>::empty()) == Seq::<u8>::empty());
        assert(le_concat(items.push(v)) =~= le_concat(items) + v.le_bytes());
    } else {
        assert(items.push(v).drop_first() =~= items.drop_first().push(v));
        lemma_le_concat_push(items.drop_first(), v);
        assert(le_concat(items.push(v)) =~= le_concat(items) + v.le_bytes());
    }
}

/// Reading `count` items, after having read `done`, is reading the first item and then the
/// rest.
proof fn lemma_read_items_step<V: ReadEndian>(bytes: Seq<u8>, count: nat, big_endian: bool)
    requires
        count > 0,
        bytes.len() >= V::byte_len(),
    ensures
        ({
            let (all, left, ok) = read_items::<V>(bytes, count, big_endian);
            let (rest, left2, ok2) = read_items::<V>(
                bytes.skip(V::byte_len() as int),
                (count - 1) as nat,
                big_endian,
            );
            &&& left == left2
            &&& ok == ok2
            &&& all.len() > 0
            &&& all.drop_first() == rest
        }),
{
    let (rest, left2, ok2) = read_items::<V>(bytes.skip(V::byte_len() as int), (count - 1) as nat, big_endian);
    let item_bytes = bytes.take(V::byte_len() as int);
    let item = if big_endian {
        V::from_le(item_bytes.reverse())
    } else {
        V::from_le(item_bytes)
    };
    assert((seq![item] + rest).drop_first() =~= rest);
}

/// Reading `items.len()` items from the bytes written for `items` gives the items back, and
/// leaves what followed them.
pub proof fn lemma_read_written_items<V: EndianRoundTrip>(items: Seq<V>, rest: Seq<u8>)
    ensures
        read_items::<V>(le_concat(items) + rest, items.len(), false) == (items, rest, true),
    decreases items.len(),
{
    if items.len() == 0 {
        assert(le_concat(items) + rest =~= rest);
    } else {
        let head = items[0];
        let tail = items.drop_first();
        V::lemma_round_trip(head);
        lemma_read_written_items::<V>(tail, rest);
        let bytes = le_concat(items) + rest;
        assert(bytes =~= head.le_bytes() + (le_concat(tail) + rest));
        assert(bytes.take(V::byte_len() as int) =~= head.le_bytes());
        assert(bytes.skip(V::byte_len() as int) =~= le_concat(tail) + rest);
        assert(seq![head] + tail =~= items);
    }
}

/// What `write_le` writes for a vector, `read_le` reads back: the length comes first, then
/// the items, and whatever followed them is left unread.
pub proof fn lemma_write_then_read_le<I: IndexType + EndianRoundTrip, V: EndianRoundTrip>(
    len: I,
    items: Seq<V>,
    rest: Seq<u8>,
)
    requires
        len.index_value() == items.len(),
    ensures
        ({
            let bytes = len.le_bytes() + le_concat(items) + rest;
            &&& bytes.len() >= I::byte_len()
            &&& I::from_le(bytes.take(I::byte_len() as int)).index_value() == items.len()
            &&& read_items::<V>(bytes.skip(I::byte_len() as int), items.len(), false) == (
                items,
                rest,
                true,
            )
        }),
{
    I::lemma_round_trip(len);
    lemma_read_written_items::<V>(items, rest);
    let bytes = len.le_bytes() + le_concat(items) + rest;
    assert(bytes.take(I::byte_len() as int) =~= len.le_bytes());
    assert(bytes.skip(I::byte_len() as int) =~= le_concat(items) + rest);
}

/// A vector whose stored form starts with its length as an `I`.
pub struct IndexVec<I, V> {
    items: Vec<V>,
    index: PhantomData<I>,
}

impl<I, V> View for IndexVec<I, V> {
    type V = Seq<V>;

    closed spec fn view(&self) -> Seq<V> {
        self.items@
    }
}

impl<I, V> IndexVec<I, V> {
    /// The vector holding `items`.
    pub fn from_vec(items: Vec<V>) -> (v: Self)
        ensures
            v@ == items@,
    {
        IndexVec { items, index: PhantomData }
    }

    /// The items, as a `Vec`.
    pub fn into_vec(self) -> (items: Vec<V>)
        ensures
            items@ == self@,
    {
        self.items
    }

    /// The items.
    pub fn as_vec(&self) -> (items: &Vec<V>)
        ensures
            items@ == self@,
    {
        &self.items
    }
}

impl<I: ReadEndian + IndexType, V: ReadEndian> IndexVec<I, V> {
    fn read_with(reader: &mut SliceReader, big_endian: bool) -> (r: Result<Self, ReadError>)
        ensures
            old(reader)@.len() < I::byte_len() ==> r == Err::<Self, ReadError>(
                ReadError::UnexpectedEof,
            ) && final(reader)@ == old(reader)@,
            old(reader)@.len() >= I::byte_len() ==> {
                let len_bytes = old(reader)@.take(I::byte_len() as int);
                let n = if big_endian {
                    I::from_le(len_bytes.reverse()).index_value()
                } else {
                    I::from_le(len_bytes).index_value()
                };
                let (items, left, complete) = read_items::<V>(
                    old(reader)@.skip(I::byte_len() as int),
                    n,
                    big_endian,
                );
                &&& final(reader)@ == left
                &&& complete ==> (r matches Ok(v) && v@ == items)
                &&& !complete ==> r == Err::<Self, ReadError>(ReadError::UnexpectedEof)
            },
    {
        let len_value = if big_endian {
            I::read_be(reader)
        } else {
            I::get_le(reader)
        };
        let len = match len_value {
            Ok(l) => l.to_usize(),
            Err(e) => return Err(e),
        };
        let ghost start = reader@;
        let mut items: Vec<V> = Vec::new();
        let mut i: usize = 0;
        proof {
            let (all, left, complete) = read_items::<V>(start, len as nat, big_endian);
            assert(Seq::<V>::empty() + all =~= all);
        }
        while i < len
            invariant
                i <= len,
                items@.len() == i,
                old(reader)@.len() >= I::byte_len(),
                start == old(reader)@.skip(I::byte_len() as int),
                len == (if big_endian {
                    I::from_le(old(reader)@.take(I::byte_len() as int).reverse()).index_value()
                } else {
                    I::from_le(old(reader)@.take(I::byte_len() as int)).index_value()
                }),
                ({
                    let (all, left, complete) = read_items::<V>(start, len as nat, big_endian);
                    let (rest, left2, complete2) = read_items::<V>(reader@, (len - i) as nat, big_endian);
                    &&& left == left2
                    &&& complete == complete2
                    &&& complete2 ==> all == items@ + rest
                }),
            decreases len - i,
        {
            let ghost before = reader@;
            let item = if big_endian {
                V::read_be(reader)
            } else {
                V::get_le(reader)
            };
            match item {
                Ok(v) => {
                    proof {
                        lemma_read_items_step::<V>(before, (len - i) as nat, big_endian);
                        let (rest, l, c) = read_items::<V>(before, (len - i) as nat, big_endian);
                        assert(rest[0] == v);
                        assert(rest =~= seq![v] + rest.drop_first());
                        assert(items@.push(v) + rest.drop_first() =~= items@ + rest);
                    }
                    items.push(v);
                },
                Err(e) => {
                    proof {
                        assert(read_items::<V>(before, (len - i) as nat, big_endian) == (
                            Seq::<V>::empty(),
                            before,
                            false,
                        ));
                    }
                    return Err(e);
                },
            }
            i += 1;
        }
        proof {
            let (all, left, complete) = read_items::<V>(start, len as nat, big_endian);
            assert(items@ + Seq::<V>::empty() =~= items@);
        }
        Ok(IndexVec { items, index: PhantomData })
    }

    /// Reads the length as an `I`, then that many items, all least significant byte first.
    /// Refused with `UnexpectedEof` at the first value that is cut short; what was read
    /// before it stays read.
    pub fn read_le(reader: &mut SliceReader) -> (r: Result<Self, ReadError>)
        ensures
            old(reader)@.len() < I::byte_len() ==> r == Err::<Self, ReadError>(
                ReadError::UnexpectedEof,
            ) && final(reader)@ == old(reader)@,
            old(reader)@.len() >= I::byte_len() ==> {
                let n = I::from_le(old(reader)@.take(I::byte_len() as int)).index_value();
                let (items, left, complete) = read_items::<V>(
                    old(reader)@.skip(I::byte_len() as int),
                    n,
                    false,
                );
                &&& final(reader)@ == left
                &&& complete ==> (r matches Ok(v) && v@ == items)
                &&& !complete ==> r == Err::<Self, ReadError>(ReadError::UnexpectedEof)
            },
    {
        Self::read_with(reader, false)
    }

    /// Reads the length as an `I`, then that many items, all most significant byte first.
    pub fn read_be(reader: &mut SliceReader) -> (r: Result<Self, ReadError>)
        ensures
            old(reader)@.len() < I::byte_len() ==> r == Err::<Self, ReadError>(
                ReadError::UnexpectedEof,
            ) && final(reader)@ == old(reader)@,
            old(reader)@.len() >= I::byte_len() ==> {
                let n = I::from_le(old(reader)@.take(I::byte_len() as int).reverse()).index_value();
                let (items, left, complete) = read_items::<V>(
                    old(reader)@.skip(I::byte_len() as int),
                    n,
                    true,
                );
                &&& final(reader)@ == left
                &&& complete ==> (r matches Ok(v) && v@ == items)
                &&& !complete ==> r == Err::<Self, ReadError>(ReadError::UnexpectedEof)
            },
    {
        Self::read_with(reader, true)
    }
}

impl<I: WriteEndian + IndexType, V: WriteEndian> IndexVec<I, V> {
    fn write_items(items: Vec<V>, writer: &mut Vec<u8>)
        ensures
            final(writer)@ == old(writer)@ + le_concat(items@),
    {
        let ghost all = items@;
        for v in it: items
            invariant
                it.seq() == all,
                writer@ == old(writer)@ + le_concat(all.take(it.index() as int)),
        {
            proof {
                assert(all.take(it.index() as int).push(v) =~= all.take(it.index() + 1));
                lemma_le_concat_push(all.take(it.index() as int), v);
            }
            v.write_le(writer);
        }
        proof {
            assert(all.take(all.len() as int) =~= all);
        }
    }

    /// Writes the length as an `I`, then each item, all least significant byte first. Refused,
    /// with nothing written, when the length does not fit in an `I`.
    pub fn write_le(self, writer: &mut Vec<u8>) -> (r: Result<(), WriteError>)
        ensures
            self@.len() > I::max_len() ==> r == Err::<(), WriteError>(WriteError::LengthTooLarge)
                && final(writer)@ == old(writer)@,
            self@.len() <= I::max_len() ==> r == Ok::<(), WriteError>(()) && exists|len: I|
                #![trigger len.index_value()]
                len.index_value() == self@.len() && final(writer)@ == old(writer)@ + len.le_bytes()
                    + le_concat(self@),
    {
        let len = match I::try_from_len(self.items.len()) {
            Some(l) => l,
            None => return Err(WriteError::LengthTooLarge),
        };
        len.write_le(writer);
        Self::write_items(self.items, writer);
        Ok(())
    }

    /// Writes the length as an `I`, most significant byte first, then each item, least
    /// significant byte first.
    pub fn write_be(self, writer: &mut Vec<u8>) -> (r: Result<(), WriteError>)
        ensures
            self@.len() > I::max_len() ==> r == Err::<(), WriteError>(WriteError::LengthTooLarge)
                && final(writer)@ == old(writer)@,
            self@.len() <= I::max_len() ==> r == Ok::<(), WriteError>(()) && exists|len: I|
                #![trigger len.index_value()]
                len.index_value() == self@.len() && final(writer)@ == old(writer)@
                    + len.le_bytes().reverse() + le_concat(self@),
    {
        let len = match I::try_from_len(self.items.len()) {
            Some(l) => l,
            None => return Err(WriteError::LengthTooLarge),
        };
        len.write_be(writer);
        Self::write_items(self.items, writer);
        Ok(())
    }
}

} // verus!
