//! The header of an `SM2MPX10` archive: its name, then one record per file with the file's
//! name, where its data starts and how long it is.
use vstd::prelude::*;
use crate::util::io::{WriteEndian, WriteExt};

verus! {

/// Each file's data starts at a multiple of this.
pub const ALIGN: u32 = 16;
/// Where the file records start.
pub const TABLE_START: u32 = 32;
/// The size of one file record.
pub const RECORD_LEN: u32 = 20;
/// The size of a name in the header.
pub const NAME_LEN: usize = 12;

/// The magic bytes at the start of an archive: `SM2MPX10`.
pub open spec fn magic() -> Seq<u8> {
    seq![83u8, 77, 50, 77, 80, 88, 49, 48]
}

/// A file to pack: its name and its length.
pub struct PackEntry {
    pub filename: Vec<u8>,
    pub size: u32,
}

/// Why a header could not be made.
#[derive(Debug)]
pub enum PackError {
    /// This file name is not ASCII, or longer than twelve bytes.
    IllegalFilename(Vec<u8>),
}

/// `x` rounded up to a multiple of `ALIGN`.
pub open spec fn align_up(x: nat) -> nat {
    ((x + 15) / 16 * 16) as nat
}

/// Whether `name` is ASCII and at most twelve bytes long.
pub open spec fn legal_filename(name: Seq<u8>) -> bool {
    name.len() <= NAME_LEN && forall|i: int| 0 <= i < name.len() ==> #[trigger] name[i] < 0x80
}

/// `name` padded with zeros to twelve bytes.
pub open spec fn padded_name(name: Seq<u8>) -> Seq<u8> {
    name + Seq::new((NAME_LEN - name.len()) as nat, |i: int| 0u8)
}

/// The records of the files from `k` on, the first of them at `addr`; each next file starts
/// at the end of the one before, rounded up to `ALIGN`.
pub open spec fn records(entries: Seq<PackEntry>, k: nat, addr: nat) -> Seq<u8>
    decreases entries.len() - k,
{
    if k >= entries.len() {
        Seq::empty()
    } else {
        padded_name(entries[k as int].filename@) + (addr as u32).le_bytes() + entries[k as int].size.le_bytes()
            + records(entries, k + 1, align_up((addr + entries[k as int].size) as nat))
    }
}

/// The first file, from `k` on, whose name is illegal.
pub open spec fn first_illegal(entries: Seq<PackEntry>, k: nat) -> Option<nat>
    decreases entries.len() - k,
{
    if k >= entries.len() {
        None
    } else if !legal_filename(entries[k as int].filename@) {
        Some(k)
    } else {
        first_illegal(entries, k + 1)
    }
}

/// Whether the start of each file, up to the first illegal name, fits in a `u32`.
pub open spec fn addresses_fit(entries: Seq<PackEntry>, k: nat, addr: nat) -> bool
    decreases entries.len() - k,
{
    if k >= entries.len() || !legal_filename(entries[k as int].filename@) {
        true
    } else {
        addr + entries[k as int].size + 15 <= u32::MAX && addresses_fit(
            entries,
            k + 1,
            align_up((addr + entries[k as int].size) as nat),
        )
    }
}

/// The length of the header of `n` files, before the padding.
pub open spec fn header_len(n: nat) -> nat {
    (TABLE_START + RECORD_LEN * n) as nat
}

/// The archive header for the files `entries`, the archive named `name`: the magic, the
/// file count, the header length, the name, where the records start, the records, then
/// zeros up to the first file's data.
pub open spec fn header_bytes(name: Seq<u8>, entries: Seq<PackEntry>) -> Seq<u8> {
    let n = entries.len();
    let data_start = align_up(header_len(n));
    magic() + (n as u32).le_bytes() + (header_len(n) as u32).le_bytes() + name + TABLE_START.le_bytes()
        + records(entries, 0, data_start) + Seq::new((data_start - header_len(n)) as nat, |i: int| 0u8)
}

/// The first multiple of `ALIGN` at or after `x`.
fn next_multiple_of_align(x: u32) -> (r: u32)
    requires
        x + 15 <= u32::MAX,
    ensures
        r == align_up(x as nat),
{
    (x + 15) / 16 * 16
}

/// Whether `name` is ASCII and at most twelve bytes long.
fn is_legal_filename(name: &Vec<u8>) -> (b: bool)
    ensures
        b == legal_filename(name@),
{
    if name.len() > NAME_LEN {
        return false;
    }
    let mut i: usize = 0;
    while i < name.len()
        invariant
            i <= name@.len(),
            forall|j: int| 0 <= j < i ==> name@[j] < 0x80,
        decreases name@.len() - i,
    {
        if name[i] >= 0x80 {
            return false;
        }
        i += 1;
    }
    true
}

/// Whether every position in the header of the files `entries` fits in a `u32`: the start
/// of the data, and the start of each file up to the first one with an illegal name.
pub fn header_fits(entries: &[PackEntry]) -> (b: bool)
    ensures
        b == (align_up(header_len(entries@.len() as nat)) <= u32::MAX && addresses_fit(
            entries@,
            0,
            align_up(header_len(entries@.len() as nat)),
        )),
{
    let n = entries.len();
    if n > 0xffff_ffff {
        return false;
    }
    let n64 = n as u64;
    let data_start: u64 = (32 + 20 * n64 + 15) / 16 * 16;
    if data_start > 0xffff_ffff {
        return false;
    }
    let mut addr: u64 = data_start;
    let mut k: usize = 0;
    while k < n
        invariant
            k <= n,
            n == entries@.len(),
            addr <= u32::MAX,
            data_start <= u32::MAX,
            data_start == align_up(header_len(n as nat)),
            addresses_fit(entries@, 0, data_start as nat) == addresses_fit(entries@, k as nat, addr as nat),
        decreases n - k,
    {
        let entry = &entries[k];
        if !is_legal_filename(&entry.filename) {
            assert(addresses_fit(entries@, k as nat, addr as nat));
            return true;
        }
        let size = entry.size as u64;
        if addr + size + 15 > 0xffff_ffff {
            return false;
        }
        addr = (addr + size + 15) / 16 * 16;
        k += 1;
    }
    true
}

/// The header of an archive named `name` that holds the files `entries`, in that order;
/// refused at the first file whose name is not ASCII or longer than twelve bytes.
pub fn create_header(name: [u8; 12], entries: &[PackEntry]) -> (r: Result<Vec<u8>, PackError>)
    requires
        align_up(header_len(entries@.len() as nat)) <= u32::MAX,
        addresses_fit(entries@, 0, align_up(header_len(entries@.len() as nat))),
    ensures
        match first_illegal(entries@, 0) {
            Some(k) => r matches Err(PackError::IllegalFilename(f)) && f@ == entries@[k as int].filename@,
            None => r matches Ok(bytes) && bytes@ == header_bytes(name@, entries@),
        },
{
    let n = entries.len();
    let count = n as u32;
    let table_start: u32 = TABLE_START;
    let header_len = table_start + count * RECORD_LEN;
    let data_start = next_multiple_of_align(header_len);
    let mut header: Vec<u8> = vec![83u8, 77, 50, 77, 80, 88, 49, 48];
    header.put_le(count);
    header.put_le(header_len);
    header.put_bytes(name.as_slice());
    header.put_le(table_start);
    let ghost prefix = header@;
    let mut addr = data_start;
    let mut k: usize = 0;
    proof {
        assert(header@.len() == 32) by {
            crate::util::io::lemma_pow256_values();
            crate::util::io::lemma_le_round_trip(count as nat, 4);
            crate::util::io::lemma_le_round_trip(header_len as nat, 4);
            crate::util::io::lemma_le_round_trip(table_start as nat, 4);
        }
    }
    while k < n
        invariant
            k <= n,
            n == entries@.len(),
            first_illegal(entries@, 0) == first_illegal(entries@, k as nat),
            addresses_fit(entries@, k as nat, addr as nat),
            records(entries@, 0, data_start as nat) == header@.subrange(32, header@.len() as int)
                + records(entries@, k as nat, addr as nat),
            header@.len() >= 32,
            header@.subrange(0, 32) == prefix,
            header@.len() == 32 + 20 * k,
        decreases n - k,
    {
        let entry = &entries[k];
        let filename = &entry.filename;
        let legal = is_legal_filename(filename);
        if !legal {
            return Err(PackError::IllegalFilename(vstd::slice::slice_to_vec(filename.as_slice())));
        }
        let ghost before = header@;
        let mut j: usize = 0;
        while j < NAME_LEN
            invariant
                j <= NAME_LEN,
                filename@.len() <= NAME_LEN,
                header@ == before + padded_name(filename@).take(j as int),
            decreases NAME_LEN - j,
        {
            if j < filename.len() {
                header.push(filename[j]);
            } else {
                header.push(0);
            }
            j += 1;
            proof {
                assert(header@ =~= before + padded_name(filename@).take(j as int));
            }
        }
        header.put_le(addr);
        header.put_le(entry.size);
        proof {
            crate::util::io::lemma_pow256_values();
            crate::util::io::lemma_le_round_trip(addr as nat, 4);
            crate::util::io::lemma_le_round_trip(entry.size as nat, 4);
            assert(padded_name(filename@).take(NAME_LEN as int) =~= padded_name(filename@));
            let rec = padded_name(filename@) + addr.le_bytes() + entry.size.le_bytes();
            assert(header@ =~= before + rec);
            assert(header@.subrange(32, header@.len() as int) =~= before.subrange(32, before.len() as int) + rec);
            assert(header@.subrange(0, 32) =~= before.subrange(0, 32));
        }
        addr = next_multiple_of_align(addr + entry.size);
        k += 1;
    }
    let header_end = header.len();
    if header_end != data_start as usize {
        header.resize(data_start as usize, 0);
    }
    proof {
        assert(header@ =~= header_bytes(name@, entries@));
    }
    Ok(header)
}

} // verus!
