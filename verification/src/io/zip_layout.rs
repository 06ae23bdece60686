//! The layout that a ZIP archive must have before the `oxiarc-archive`
//! reader is handed it: an end record found as that reader finds it, and a
//! central directory that the reader walks to its end without falling back
//! to scanning local headers, whose entries are all stored uncompressed.

use vstd::prelude::*;

verus! {

/// The little-endian 16-bit value at `i`.
pub open spec fn le16(b: Seq<u8>, i: int) -> int {
    b[i] as int + 256 * (b[i + 1] as int)
}

/// The little-endian 32-bit value at `i`.
pub open spec fn le32(b: Seq<u8>, i: int) -> int {
    le16(b, i) + 65536 * le16(b, i + 2)
}

/// The four bytes at `i` are `PK` followed by `c` and `d`.
pub open spec fn pk_at(b: Seq<u8>, i: int, c: u8, d: u8) -> bool {
    &&& 0 <= i
    &&& i + 4 <= b.len()
    &&& b[i] == 0x50u8
    &&& b[i + 1] == 0x4bu8
    &&& b[i + 2] == c
    &&& b[i + 3] == d
}

/// Where the reader starts looking for the end record: at most 65557
/// bytes from the end.
pub open spec fn search_start(len: int) -> int {
    if len > 65557 {
        len - 65557
    } else {
        0
    }
}

/// The last position at or below `i` (and not below the search start) of
/// the end-record signature `PK\x05\x06`.
pub open spec fn last_end_record(b: Seq<u8>, i: int) -> Option<int>
    decreases i + 1,
{
    if i < search_start(b.len() as int) || i < 0 {
        None
    } else if pk_at(b, i, 5u8, 6u8) {
        Some(i)
    } else {
        last_end_record(b, i - 1)
    }
}

/// The `k` central-directory records from `pos` on each lie inside the
/// bytes with their signature, name the method `stored` (0, no
/// decompression), carry no Zip64 marker, and point at a local header whose
/// length fields lie inside the bytes.
pub open spec fn records_sound(b: Seq<u8>, pos: int, k: nat) -> bool
    decreases k,
{
    if k == 0 {
        true
    } else {
        let next = pos + 46 + le16(b, pos + 28) + le16(b, pos + 30) + le16(b, pos + 32);
        &&& pos + 46 <= b.len()
        &&& pk_at(b, pos, 1u8, 2u8)
        &&& le16(b, pos + 10) == 0
        &&& le32(b, pos + 20) != 0xffff_ffff
        &&& le32(b, pos + 24) != 0xffff_ffff
        &&& le32(b, pos + 42) != 0xffff_ffff
        &&& le32(b, pos + 42) + 30 <= b.len()
        &&& next <= b.len()
        &&& records_sound(b, next, (k - 1) as nat)
    }
}

/// The archive has the layout the reader opens through its central
/// directory: the last end record (searched as the reader searches) has
/// no Zip64 locator before it, holds 22 bytes, names disk 0, declares no
/// more records than the bytes can hold, and its records are sound.
pub open spec fn zip_sound(b: Seq<u8>) -> bool {
    match last_end_record(b, b.len() - 4) {
        None => false,
        Some(e) => {
            &&& e >= 20 ==> !pk_at(b, e - 20, 6u8, 7u8)
            &&& e + 22 <= b.len()
            &&& le16(b, e + 4) == 0
            &&& le16(b, e + 6) == 0
            &&& le16(b, e + 10) <= b.len() / 46 + 1
            &&& records_sound(b, le32(b, e + 16), le16(b, e + 10) as nat)
        },
    }
}

/// The little-endian 16-bit value at `i`.
fn read16(b: &[u8], i: usize) -> (r: u64)
    requires
        i + 2 <= b@.len(),
    ensures
        r == le16(b@, i as int),
{
    let _n = b.len();
    b[i] as u64 + 256 * (b[i + 1] as u64)
}

/// The little-endian 32-bit value at `i`.
fn read32(b: &[u8], i: usize) -> (r: u64)
    requires
        i + 4 <= b@.len(),
    ensures
        r == le32(b@, i as int),
{
    let _n = b.len();
    read16(b, i) + 65536 * read16(b, i + 2)
}

/// The four bytes at `i` are `PK` followed by `c` and `d`.
fn pk_exec(b: &[u8], i: usize, c: u8, d: u8) -> (r: bool)
    ensures
        r == pk_at(b@, i as int, c, d),
{
    if i > b.len() || b.len() - i < 4 {
        return false;
    }
    b[i] == 0x50u8 && b[i + 1] == 0x4bu8 && b[i + 2] == c && b[i + 3] == d
}

/// Whether the `k` records from `pos` on are sound.
fn records_sound_exec(b: &[u8], pos: usize, k: u64) -> (r: bool)
    ensures
        r == records_sound(b@, pos as int, k as nat),
{
    let len = b.len();
    let mut p = pos;
    let mut left = k;
    while left > 0
        invariant
            len == b@.len(),
            records_sound(b@, pos as int, k as nat) == records_sound(b@, p as int, left as nat),
        decreases left,
    {
        if p > len || len - p < 46 {
            return false;
        }
        if !pk_exec(b, p, 1u8, 2u8) {
            return false;
        }
        if read16(b, p + 10) != 0 {
            return false;
        }
        let csize = read32(b, p + 20);
        let usize_field = read32(b, p + 24);
        let off = read32(b, p + 42);
        if csize == 0xffff_ffff || usize_field == 0xffff_ffff || off == 0xffff_ffff {
            return false;
        }
        if off + 30 > len as u64 {
            return false;
        }
        let step = read16(b, p + 28) + read16(b, p + 30) + read16(b, p + 32);
        if step > (len - p - 46) as u64 {
            return false;
        }
        p = p + 46 + step as usize;
        left = left - 1;
    }
    true
}

/// Whether the archive has the layout of `zip_sound`.
pub fn zip_sound_exec(b: &[u8]) -> (r: bool)
    ensures
        r == zip_sound(b@),
{
    let len = b.len();
    if len < 4 {
        assert(last_end_record(b@, b@.len() - 4) is None);
        return false;
    }
    let start: usize = if len > 65557 {
        len - 65557
    } else {
        0
    };
    let mut i: usize = len - 4;
    let ghost top = b@.len() - 4;
    loop
        invariant
            len == b@.len(),
            len >= 4,
            start as int == search_start(len as int),
            i <= len - 4,
            top == len - 4,
            last_end_record(b@, top) == last_end_record(b@, i as int),
        ensures
            pk_at(b@, i as int, 5u8, 6u8),
            last_end_record(b@, top) == Some(i as int),
        decreases i,
    {
        if i < start {
            return false;
        }
        if pk_exec(b, i, 5u8, 6u8) {
            break;
        }
        if i == 0 {
            assert(last_end_record(b@, -1) is None);
            return false;
        }
        i = i - 1;
    }
    let e = i;
    if e >= 20 && pk_exec(b, e - 20, 6u8, 7u8) {
        return false;
    }
    if len - e < 22 {
        return false;
    }
    if read16(b, e + 4) != 0 || read16(b, e + 6) != 0 {
        return false;
    }
    let n = read16(b, e + 10);
    if n > (len / 46 + 1) as u64 {
        return false;
    }
    let off = read32(b, e + 16);
    if off > len as u64 {
        assert(!records_sound(b@, off as int, n as nat) || n == 0);
        if n == 0 {
            return true;
        }
        return false;
    }
    records_sound_exec(b, off as usize, n)
}

} // verus!
