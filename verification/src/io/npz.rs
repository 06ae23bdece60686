//! NumPy `.npz` archives: ZIP archives whose entries are `.npy` files
//! named after the arrays they hold.

use vstd::prelude::*;
use vstd::string::StrSliceExecFns;
use vstd::string::StringExecFns;
use crate::array::{Array, ArrayModel};
use crate::error::{NumRs2Error, Result, message};
use crate::io::npy::NpyDtype;
use crate::io::npy_data::{read_npy, read_npy_spec, npy_bytes, npy_file};
use crate::io::convert::SerializeFormat;
use crate::io::zip_layout::{zip_sound, zip_sound_exec};
use oxiarc_archive::zip::{ZipCompressionLevel, ZipReader, ZipWriter};

verus! {

/// An archive being written: the ZIP writer of the `oxiarc-archive`
/// crate over a byte buffer, held opaque (the writer type's parameter is
/// bound by `std::io::Write`, so it is not declared as an outside type).
#[verifier::external_body]
pub struct ArchiveWriter {
    inner: ZipWriter<Vec<u8>>,
}

/// The names of the entries of the ZIP archive `bytes`, in archive order,
/// or `None` when `oxiarc-archive` cannot open it.
pub uninterp spec fn zip_entry_names_of(bytes: Seq<u8>) -> Option<Seq<Seq<char>>>;

/// The decompressed contents of entry `index` of the ZIP archive `bytes`,
/// or `None` when the archive lacks the layout of `zip_sound` or cannot be opened, has no such entry, or the
/// entry cannot be extracted.
pub uninterp spec fn zip_entry_data_of(bytes: Seq<u8>, index: nat) -> Option<Seq<u8>>;

/// The entry names of the archive `bytes` as this library opens it: none
/// unless the bytes have the `zip_sound` layout.
pub open spec fn zip_names(bytes: Seq<u8>) -> Option<Seq<Seq<char>>> {
    if zip_sound(bytes) {
        zip_entry_names_of(bytes)
    } else {
        None
    }
}

/// `ZipReader::new` over the bytes, then the `name` of each of its
/// `entries()`. Claimed: the result is `zip_entry_names_of(bytes)`, a
/// function of the bytes alone. The bytes have the `zip_sound` layout, so
/// the reader opens them through the central directory: it never falls
/// back to scanning local headers (which loops without end on some crafted
/// bytes), and no offset is a 64-bit one that could overflow.
#[verifier::external_body]
fn zip_entry_names(bytes: &[u8]) -> (r: Option<Vec<String>>)
    requires
        zip_sound(bytes@),
    ensures
        match zip_entry_names_of(bytes@) {
            Some(names) => r matches Some(v) && v@.len() == names.len() && forall|i: int|
                0 <= i < names.len() ==> #[trigger] v@[i]@ == names[i],
            None => r is None,
        },
{
    let reader = ZipReader::new(std::io::Cursor::new(bytes.to_vec())).ok()?;
    Some(reader.entries().iter().map(|e| e.name.clone()).collect())
}

/// `ZipReader::new` over the bytes, then `extract` of the entry at
/// `index` of `entries()`. Claimed: the result is
/// `zip_entry_data_of(bytes, index)`, a function of its arguments alone.
/// The bytes have the `zip_sound` layout, as for `zip_entry_names`; every
/// entry there is stored, so `extract` copies the bytes and checks their
/// CRC, and runs no decompressor.
#[verifier::external_body]
fn zip_extract(bytes: &[u8], index: usize) -> (r: Option<Vec<u8>>)
    requires
        zip_sound(bytes@),
    ensures
        match zip_entry_data_of(bytes@, index as nat) {
            Some(data) => r matches Some(v) && v@ == data,
            None => r is None,
        },
{
    let mut reader = ZipReader::new(std::io::Cursor::new(bytes.to_vec())).ok()?;
    let entry = reader.entries().get(index)?.clone();
    reader.extract(&entry).ok()
}

/// The entries added so far to an archive being written, in order: each
/// entry's name and its uncompressed contents.
pub uninterp spec fn archive_entries_of(w: ArchiveWriter) -> Seq<(Seq<char>, Seq<u8>)>;

/// An upper bound on the size of the archive that holds `entries`, with
/// each name counted at four bytes per character: 30 bytes of local header
/// plus the name and the contents, 46 bytes of central directory record
/// plus the name, per entry, and 22 bytes of end record.
pub open spec fn zip_layout_bound(entries: Seq<(Seq<char>, Seq<u8>)>) -> int
    decreases entries.len(),
{
    if entries.len() == 0 {
        22
    } else {
        zip_layout_bound(entries.drop_last()) + 76 + 8 * entries.last().0.len()
            + entries.last().1.len()
    }
}

/// Written entries that the reader of `oxiarc-archive` finds again as
/// written: fewer than 0x4b50 entries, each name shorter than 16384
/// characters and free of the character U+0006, and an archive bound below
/// 0x054b5000 bytes.
pub open spec fn zip_readable(entries: Seq<(Seq<char>, Seq<u8>)>) -> bool {
    &&& entries.len() < 0x4b50
    &&& forall|i: int|
        0 <= i < entries.len() ==> (#[trigger] entries[i]).0.len() < 16384 && !entries[i].0.contains(
            '\u{6}',
        )
    &&& zip_layout_bound(entries) < 0x054b5000
}

/// The names of `entries`, in order.
pub open spec fn entry_names(entries: Seq<(Seq<char>, Seq<u8>)>) -> Seq<Seq<char>> {
    entries.map_values(|e: (Seq<char>, Seq<u8>)| e.0)
}

/// The archive `bytes` opens with exactly the entry names of `entries`, in
/// order, and entry `i` extracts to the contents of `entries[i]`.
pub open spec fn archive_holds(bytes: Seq<u8>, entries: Seq<(Seq<char>, Seq<u8>)>) -> bool {
    &&& zip_names(bytes) == Some(entry_names(entries))
    &&& forall|i: int|
        0 <= i < entries.len() ==> zip_entry_data_of(bytes, i as nat) == Some(
            (#[trigger] entries[i]).1,
        )
}

/// `ZipWriter::new` over an empty buffer. Claimed: the writer holds no
/// entry yet.
#[verifier::external_body]
fn zip_writer() -> (w: ArchiveWriter)
    ensures
        archive_entries_of(w) == Seq::<(Seq<char>, Seq<u8>)>::empty(),
{
    ArchiveWriter { inner: ZipWriter::new(Vec::new()) }
}

/// `ZipWriter::add_file_with_options` with `ZipCompressionLevel::Store`:
/// adds an uncompressed entry. Claimed: the call succeeds (the result is
/// `true`: the writer writes only into a `Vec<u8>`, and no step of the
/// stored path fails there), and the entry `(name, data)` follows the
/// earlier ones.
#[verifier::external_body]
fn zip_add_stored(w: &mut ArchiveWriter, name: &str, data: &[u8]) -> (r: bool)
    ensures
        r,
        archive_entries_of(*final(w)) == archive_entries_of(*old(w)).push((name@, data@)),
{
    w.inner.add_file_with_options(name, data, ZipCompressionLevel::Store).is_ok()
}

/// `ZipWriter::into_inner`: writes the central directory and end record
/// and hands back the buffer, or `None` when that fails. Claimed: when it
/// succeeds and the entries are `zip_readable`, `ZipReader` opens the bytes
/// with the entries' names in order and extracts each entry's contents
/// (`archive_holds`). The conditions come from the reader's source: it
/// finds the end record by the last occurrence of its signature and takes
/// a Zip64 locator by its signature 20 bytes before it, so no field and no
/// name near the end may spell either; names and counts are stored in
/// 16-bit fields. `archive_holds` includes that the bytes have the
/// `zip_sound` layout, which the written end record and central directory
/// have under the same conditions (every entry, added by `zip_add_stored`,
/// names the method `stored`). Also claimed: the call succeeds (writing the central
/// directory and end record into a `Vec<u8>` cannot fail). Not claimed:
/// the bytes themselves, which hold the time of writing.
#[verifier::external_body]
fn zip_finish(w: ArchiveWriter) -> (r: Option<Vec<u8>>)
    ensures
        r is Some,
        match r {
            Some(b) => zip_readable(archive_entries_of(w)) ==> archive_holds(
                b@,
                archive_entries_of(w),
            ),
            None => true,
        },
{
    w.inner.into_inner().ok()
}

/// `.npy`
pub open spec fn npy_suffix() -> Seq<char> {
    seq!['.', 'n', 'p', 'y']
}

/// The name ends with `.npy`.
pub open spec fn ends_with_npy(s: Seq<char>) -> bool {
    s.len() >= 4 && s.subrange(s.len() - 4, s.len() as int) == npy_suffix()
}

/// The name without all of its trailing `.npy` suffixes.
pub open spec fn strip_npy(s: Seq<char>) -> Seq<char>
    decreases s.len(),
{
    if ends_with_npy(s) {
        strip_npy(s.take(s.len() - 4))
    } else {
        s
    }
}

/// The array names of the `.npy` entries among `names`, in order: each
/// such entry name without its trailing `.npy` suffixes.
pub open spec fn npz_array_names(names: Seq<Seq<char>>) -> Seq<Seq<char>>
    decreases names.len(),
{
    if names.len() == 0 {
        seq![]
    } else {
        let front = npz_array_names(names.drop_last());
        if ends_with_npy(names.last()) {
            front.push(strip_npy(names.last()))
        } else {
            front
        }
    }
}

/// Index of the first name at or after `i` that satisfies `ends_with_npy`.
pub open spec fn first_npy_from(names: Seq<Seq<char>>, i: int) -> Option<int>
    decreases names.len() - i,
{
    if i < 0 || i >= names.len() {
        None
    } else if ends_with_npy(names[i]) {
        Some(i)
    } else {
        first_npy_from(names, i + 1)
    }
}

/// Index of the first name at or after `i` equal to `target`.
pub open spec fn first_named_from(names: Seq<Seq<char>>, target: Seq<char>, i: int) -> Option<int>
    decreases names.len() - i,
{
    if i < 0 || i >= names.len() {
        None
    } else if names[i] == target {
        Some(i)
    } else {
        first_named_from(names, target, i + 1)
    }
}

/// A first `.npy` entry lies among the names.
proof fn lemma_first_npy_in_range(names: Seq<Seq<char>>, i: int)
    ensures
        first_npy_from(names, i) matches Some(k) ==> 0 <= i <= k < names.len() && ends_with_npy(
            names[k],
        ),
    decreases names.len() - i,
{
    if 0 <= i < names.len() && !ends_with_npy(names[i]) {
        lemma_first_npy_in_range(names, i + 1);
    }
}

/// A first entry of a given name lies among the names.
proof fn lemma_first_named_in_range(names: Seq<Seq<char>>, target: Seq<char>, i: int)
    ensures
        first_named_from(names, target, i) matches Some(k) ==> 0 <= i <= k < names.len()
            && names[k] == target,
    decreases names.len() - i,
{
    if 0 <= i < names.len() && names[i] != target {
        lemma_first_named_in_range(names, target, i + 1);
    }
}

/// What reading the first `.npy` entry of archive `bytes` gives.
pub open spec fn read_npz_spec(bytes: Seq<u8>, d: NpyDtype) -> Option<(Seq<usize>, Seq<u64>)> {
    match zip_names(bytes) {
        None => None,
        Some(names) => match first_npy_from(names, 0) {
            None => None,
            Some(i) => match zip_entry_data_of(bytes, i as nat) {
                None => None,
                Some(data) => read_npy_spec(data, d),
            },
        },
    }
}

/// What reading the entry named `name` followed by `.npy` gives.
pub open spec fn load_npz_spec(bytes: Seq<u8>, name: Seq<char>, d: NpyDtype) -> Option<
    (Seq<usize>, Seq<u64>),
> {
    match zip_names(bytes) {
        None => None,
        Some(names) => match first_named_from(names, name + npy_suffix(), 0) {
            None => None,
            Some(i) => match zip_entry_data_of(bytes, i as nat) {
                None => None,
                Some(data) => read_npy_spec(data, d),
            },
        },
    }
}

/// The name ends with `.npy`.
fn ends_with_npy_exec(s: &str, k: usize) -> (r: bool)
    requires
        k <= s@.len(),
    ensures
        r == ends_with_npy(s@.take(k as int)),
{
    if k < 4 {
        return false;
    }
    let a = s.get_char(k - 4);
    let b = s.get_char(k - 3);
    let c = s.get_char(k - 2);
    let e = s.get_char(k - 1);
    let ghost t = s@.take(k as int);
    assert(t.subrange(k - 4, k as int)[0] == a);
    assert(t.subrange(k - 4, k as int)[1] == b);
    assert(t.subrange(k - 4, k as int)[2] == c);
    assert(t.subrange(k - 4, k as int)[3] == e);
    let r = a == '.' && b == 'n' && c == 'p' && e == 'y';
    if r {
        assert(t.subrange(k - 4, k as int) =~= npy_suffix());
    }
    r
}

/// The name without all of its trailing `.npy` suffixes.
fn strip_npy_exec(s: &str) -> (r: String)
    ensures
        r@ == strip_npy(s@),
{
    let mut k = s.unicode_len();
    assert(s@.take(k as int) =~= s@);
    while ends_with_npy_exec(s, k)
        invariant
            k <= s@.len(),
            strip_npy(s@.take(k as int)) == strip_npy(s@),
        decreases k,
    {
        assert(s@.take(k as int).take(k - 4) =~= s@.take(k - 4));
        k = k - 4;
    }
    s.substring_char(0, k).to_owned()
}

/// Whether the name equals `name` followed by `.npy`.
fn is_npy_entry_for(entry: &str, name: &str) -> (r: bool)
    ensures
        r == (entry@ == name@ + npy_suffix()),
{
    let n = name.unicode_len();
    let m = entry.unicode_len();
    if m < 4 || m - 4 != n {
        assert(entry@.len() != (name@ + npy_suffix()).len());
        return false;
    }
    let ghost target = name@ + npy_suffix();
    let mut i: usize = 0;
    while i < n
        invariant
            i <= n,
            n == name@.len(),
            m == n + 4,
            m == entry@.len(),
            target == name@ + npy_suffix(),
            forall|j: int| 0 <= j < i ==> entry@[j] == target[j],
        decreases n - i,
    {
        if entry.get_char(i) != name.get_char(i) {
            assert(target[i as int] == name@[i as int]);
            return false;
        }
        i = i + 1;
    }
    if !ends_with_npy_exec(entry, m) {
        assert(entry@.take(m as int) =~= entry@);
        assert(entry@.subrange(m - 4, m as int) != npy_suffix());
        assert(target.subrange(m - 4, m as int) =~= npy_suffix());
        return false;
    }
    assert(entry@.take(m as int) =~= entry@);
    assert forall|j: int| n <= j < m implies entry@[j] == target[j] by {
        assert(entry@[j] == entry@.subrange(m - 4, m as int)[j - n]);
    }
    assert(entry@ =~= target);
    true
}

/// The array names stored in the `.npz` archive `bytes`: the names of its
/// `.npy` entries without their `.npy` suffixes, in archive order.
///
/// Fails with `DeserializationError` when the archive lacks the layout of `zip_sound` or cannot be opened.
pub fn list_npz_arrays(bytes: &[u8]) -> (r: Result<Vec<String>>)
    ensures
        match zip_names(bytes@) {
            None => r matches Err(e) && e is DeserializationError,
            Some(names) => r matches Ok(v) && v@.len() == npz_array_names(names).len() && forall|
                i: int,
            | 0 <= i < v@.len() ==> #[trigger] v@[i]@ == npz_array_names(names)[i],
        },
{
    if !zip_sound_exec(bytes) {
        return Err(NumRs2Error::DeserializationError(message("failed to open NPZ file")));
    }
    let names = match zip_entry_names(bytes) {
        None => {
            return Err(NumRs2Error::DeserializationError(message("failed to open NPZ file")));
        },
        Some(v) => v,
    };
    let ghost all = zip_entry_names_of(bytes@).unwrap();
    let mut out: Vec<String> = Vec::new();
    let mut i: usize = 0;
    while i < names.len()
        invariant
            i <= names@.len(),
            names@.len() == all.len(),
            forall|j: int| 0 <= j < all.len() ==> #[trigger] names@[j]@ == all[j],
            out@.len() == npz_array_names(all.take(i as int)).len(),
            forall|j: int| 0 <= j < out@.len() ==> #[trigger] out@[j]@ == npz_array_names(all.take(i as int))[j],
        decreases names@.len() - i,
    {
        let name = names[i].as_str();
        let k = name.unicode_len();
        assert(name@.take(k as int) =~= name@);
        let ghost t = all.take(i + 1);
        assert(t.drop_last() =~= all.take(i as int));
        assert(t.last() == all[i as int]);
        if ends_with_npy_exec(name, k) {
            let stripped = strip_npy_exec(name);
            out.push(stripped);
        }
        i = i + 1;
    }
    assert(all.take(names@.len() as int) =~= all);
    Ok(out)
}

/// Index of the first `.npy` entry among the names.
fn first_npy_exec(names: &Vec<String>, all: Ghost<Seq<Seq<char>>>) -> (r: Option<usize>)
    requires
        names@.len() == all@.len(),
        forall|j: int| 0 <= j < all@.len() ==> #[trigger] names@[j]@ == all@[j],
    ensures
        match first_npy_from(all@, 0) {
            Some(i) => r == Some(i as usize),
            None => r is None,
        },
{
    let mut i: usize = names.len();
    let mut found: Option<usize> = None;
    while i > 0
        invariant
            i <= names@.len(),
            names@.len() == all@.len(),
            forall|j: int| 0 <= j < all@.len() ==> #[trigger] names@[j]@ == all@[j],
            match first_npy_from(all@, i as int) {
                Some(k) => found == Some(k as usize),
                None => found is None,
            },
        decreases i,
    {
        i = i - 1;
        let name = names[i].as_str();
        let k = name.unicode_len();
        assert(name@.take(k as int) =~= name@);
        if ends_with_npy_exec(name, k) {
            found = Some(i);
        }
    }
    found
}

/// Index of the first entry named `name` followed by `.npy`.
fn first_named_exec(names: &Vec<String>, name: &str, all: Ghost<Seq<Seq<char>>>) -> (r: Option<usize>)
    requires
        names@.len() == all@.len(),
        forall|j: int| 0 <= j < all@.len() ==> #[trigger] names@[j]@ == all@[j],
    ensures
        match first_named_from(all@, name@ + npy_suffix(), 0) {
            Some(i) => r == Some(i as usize),
            None => r is None,
        },
{
    let mut i: usize = names.len();
    let mut found: Option<usize> = None;
    while i > 0
        invariant
            i <= names@.len(),
            names@.len() == all@.len(),
            forall|j: int| 0 <= j < all@.len() ==> #[trigger] names@[j]@ == all@[j],
            match first_named_from(all@, name@ + npy_suffix(), i as int) {
                Some(k) => found == Some(k as usize),
                None => found is None,
            },
        decreases i,
    {
        i = i - 1;
        if is_npy_entry_for(names[i].as_str(), name) {
            found = Some(i);
        }
    }
    found
}

/// Reads the first `.npy` entry of the `.npz` archive `bytes`.
///
/// Fails with `DeserializationError` when the archive lacks the layout of `zip_sound` or cannot be opened,
/// holds no `.npy` entry, the entry cannot be extracted, or it is not a
/// readable `.npy` file of dtype `dtype`.
pub fn read_npz(bytes: &[u8], dtype: NpyDtype) -> (r: Result<Array<u64>>)
    ensures
        match read_npz_spec(bytes@, dtype) {
            Some((shape, data)) => r matches Ok(a) && a@.shape == shape && a@.data == data,
            None => r matches Err(e) && e is DeserializationError,
        },
{
    if !zip_sound_exec(bytes) {
        return Err(NumRs2Error::DeserializationError(message("failed to open NPZ file")));
    }
    let names = match zip_entry_names(bytes) {
        None => {
            return Err(NumRs2Error::DeserializationError(message("failed to open NPZ file")));
        },
        Some(v) => v,
    };
    let ghost all = zip_entry_names_of(bytes@).unwrap();
    let _count = names.len();
    proof {
        lemma_first_npy_in_range(all, 0);
    }
    let i = match first_npy_exec(&names, Ghost(all)) {
        None => {
            return Err(
                NumRs2Error::DeserializationError(message("no .npy files found in NPZ archive")),
            );
        },
        Some(i) => i,
    };
    assert(zip_entry_names_of(bytes@) == Some(all));
    assert(first_npy_from(all, 0) == Some(i as int));
    match zip_extract(bytes, i) {
        None => Err(
            NumRs2Error::DeserializationError(message("failed to extract NPY file from NPZ")),
        ),
        Some(data) => {
            assert(zip_entry_data_of(bytes@, i as nat) == Some(data@));
            read_npy(data.as_slice(), dtype)
        },
    }
}

/// Reads the array named `array_name` (its entry is `array_name` followed
/// by `.npy`; the first such entry) from the `.npz` archive `bytes`.
///
/// Fails with `DeserializationError` when the archive lacks the layout of `zip_sound` or cannot be opened,
/// holds no such entry, the entry cannot be extracted, or it is not a
/// readable `.npy` file of dtype `dtype`.
pub fn load_npz_array(bytes: &[u8], array_name: &str, dtype: NpyDtype) -> (r: Result<Array<u64>>)
    ensures
        match load_npz_spec(bytes@, array_name@, dtype) {
            Some((shape, data)) => r matches Ok(a) && a@.shape == shape && a@.data == data,
            None => r matches Err(e) && e is DeserializationError,
        },
{
    if !zip_sound_exec(bytes) {
        return Err(NumRs2Error::DeserializationError(message("failed to open NPZ file")));
    }
    let names = match zip_entry_names(bytes) {
        None => {
            return Err(NumRs2Error::DeserializationError(message("failed to open NPZ file")));
        },
        Some(v) => v,
    };
    let ghost all = zip_entry_names_of(bytes@).unwrap();
    let _count = names.len();
    proof {
        lemma_first_named_in_range(all, array_name@ + npy_suffix(), 0);
    }
    let i = match first_named_exec(&names, array_name, Ghost(all)) {
        None => {
            return Err(NumRs2Error::DeserializationError(message("array not found in NPZ archive")));
        },
        Some(i) => i,
    };
    match zip_extract(bytes, i) {
        None => Err(
            NumRs2Error::DeserializationError(message("failed to extract NPY file from NPZ")),
        ),
        Some(data) => read_npy(data.as_slice(), dtype),
    }
}

/// Position of the first pair whose key is `key`.
pub open spec fn key_position<V>(pairs: Seq<(Seq<char>, V)>, key: Seq<char>, i: int) -> Option<int>
    decreases pairs.len() - i,
{
    if i < 0 || i >= pairs.len() {
        None
    } else if pairs[i].0 == key {
        Some(i)
    } else {
        key_position(pairs, key, i + 1)
    }
}

/// The pairs after inserting `value` under `key` as a map does: the value
/// of an existing key is replaced in place, a new key is appended.
pub open spec fn insert_pair<V>(pairs: Seq<(Seq<char>, V)>, key: Seq<char>, value: V) -> Seq<
    (Seq<char>, V),
> {
    match key_position(pairs, key, 0) {
        Some(j) => pairs.update(j, (key, value)),
        None => pairs.push((key, value)),
    }
}

/// The arrays read from the `.npy` entries among the first `k` entries of
/// the archive `bytes` (whose entry names are `names`), keyed by array
/// name, or `None` when one of them cannot be extracted or read.
pub open spec fn load_all_upto(bytes: Seq<u8>, names: Seq<Seq<char>>, k: nat, d: NpyDtype) -> Option<
    Seq<(Seq<char>, (Seq<usize>, Seq<u64>))>,
>
    decreases k,
{
    if k == 0 {
        Some(seq![])
    } else {
        match load_all_upto(bytes, names, (k - 1) as nat, d) {
            None => None,
            Some(prev) => if !ends_with_npy(names[k - 1]) {
                Some(prev)
            } else {
                match zip_entry_data_of(bytes, (k - 1) as nat) {
                    None => None,
                    Some(data) => match read_npy_spec(data, d) {
                        None => None,
                        Some(arr) => Some(insert_pair(prev, strip_npy(names[k - 1]), arr)),
                    },
                }
            },
        }
    }
}

/// Once an entry fails, reading more entries fails too.
proof fn lemma_load_all_none_stays(bytes: Seq<u8>, names: Seq<Seq<char>>, k: nat, k2: nat, d: NpyDtype)
    requires
        k <= k2,
        load_all_upto(bytes, names, k, d) is None,
    ensures
        load_all_upto(bytes, names, k2, d) is None,
    decreases k2 - k,
{
    if k < k2 {
        lemma_load_all_none_stays(bytes, names, k, (k2 - 1) as nat, d);
    }
}

/// What reading all arrays of the archive `bytes` gives.
pub open spec fn load_all_spec(bytes: Seq<u8>, d: NpyDtype) -> Option<
    Seq<(Seq<char>, (Seq<usize>, Seq<u64>))>,
> {
    match zip_names(bytes) {
        None => None,
        Some(names) => load_all_upto(bytes, names, names.len(), d),
    }
}

/// The pairs of names and arrays have the keys and arrays of `m`.
pub open spec fn pairs_match(v: Seq<(String, Array<u64>)>, m: Seq<(Seq<char>, (Seq<usize>, Seq<u64>))>) -> bool {
    &&& v.len() == m.len()
    &&& forall|j: int|
        0 <= j < v.len() ==> (#[trigger] v[j]).0@ == m[j].0 && v[j].1@.shape == m[j].1.0
            && v[j].1@.data == m[j].1.1
}

/// Position of the pair keyed `key`, from position `i` on.
fn key_position_exec(out: &Vec<(String, Array<u64>)>, key: &String, m: Ghost<
    Seq<(Seq<char>, (Seq<usize>, Seq<u64>))>,
>) -> (r: Option<usize>)
    requires
        pairs_match(out@, m@),
    ensures
        match key_position(m@, key@, 0) {
            Some(j) => r == Some(j as usize),
            None => r is None,
        },
{
    let mut i: usize = out.len();
    let mut found: Option<usize> = None;
    while i > 0
        invariant
            i <= out@.len(),
            pairs_match(out@, m@),
            match key_position(m@, key@, i as int) {
                Some(j) => found == Some(j as usize),
                None => found is None,
            },
        decreases i,
    {
        i = i - 1;
        if out[i].0 == *key {
            found = Some(i);
        }
    }
    found
}

/// A key position lies among the pairs.
proof fn lemma_key_position_in_range<V>(pairs: Seq<(Seq<char>, V)>, key: Seq<char>, i: int)
    ensures
        key_position(pairs, key, i) matches Some(j) ==> 0 <= i <= j < pairs.len() && pairs[j].0
            == key,
    decreases pairs.len() - i,
{
    if 0 <= i < pairs.len() && pairs[i].0 != key {
        lemma_key_position_in_range(pairs, key, i + 1);
    }
}

/// Reads every `.npy` entry of the `.npz` archive `bytes`, keyed by array
/// name (the entry name without its `.npy` suffixes). Where two entries
/// give the same name, the later one's array is kept at the earlier one's
/// place.
///
/// Fails with `DeserializationError` when the archive lacks the layout of `zip_sound` or cannot be opened, or
/// a `.npy` entry cannot be extracted or is not a readable `.npy` file of
/// dtype `dtype`.
pub fn load_all_npz_arrays(bytes: &[u8], dtype: NpyDtype) -> (r: Result<Vec<(String, Array<u64>)>>)
    ensures
        match load_all_spec(bytes@, dtype) {
            Some(m) => r matches Ok(v) && pairs_match(v@, m),
            None => r matches Err(e) && e is DeserializationError,
        },
{
    if !zip_sound_exec(bytes) {
        return Err(NumRs2Error::DeserializationError(message("failed to open NPZ file")));
    }
    let names = match zip_entry_names(bytes) {
        None => {
            return Err(NumRs2Error::DeserializationError(message("failed to open NPZ file")));
        },
        Some(v) => v,
    };
    let ghost all = zip_entry_names_of(bytes@).unwrap();
    let mut out: Vec<(String, Array<u64>)> = Vec::new();
    let ghost mut m: Seq<(Seq<char>, (Seq<usize>, Seq<u64>))> = seq![];
    let mut i: usize = 0;
    while i < names.len()
        invariant
            i <= names@.len(),
            names@.len() == all.len(),
            zip_entry_names_of(bytes@) == Some(all),
            zip_sound(bytes@),
            forall|j: int| 0 <= j < all.len() ==> #[trigger] names@[j]@ == all[j],
            load_all_upto(bytes@, all, i as nat, dtype) == Some(m),
            pairs_match(out@, m),
        decreases names@.len() - i,
    {
        let name = names[i].as_str();
        let k = name.unicode_len();
        assert(name@.take(k as int) =~= name@);
        if ends_with_npy_exec(name, k) {
            let data = match zip_extract(bytes, i) {
                None => {
                    proof {
                        lemma_load_all_none_stays(bytes@, all, (i + 1) as nat, all.len(), dtype);
                    }
                    return Err(
                        NumRs2Error::DeserializationError(
                            message("failed to extract NPY file from NPZ"),
                        ),
                    );
                },
                Some(d) => d,
            };
            let arr = match read_npy(data.as_slice(), dtype) {
                Ok(a) => a,
                Err(e) => {
                    proof {
                        lemma_load_all_none_stays(bytes@, all, (i + 1) as nat, all.len(), dtype);
                    }
                    return Err(e);
                },
            };
            let key = strip_npy_exec(name);
            let ghost entry = (key@, (arr@.shape, arr@.data));
            assert(ends_with_npy(all[i as int]));
            assert(zip_entry_data_of(bytes@, i as nat) == Some(data@));
            assert(read_npy_spec(data@, dtype) == Some(entry.1));
            assert(load_all_upto(bytes@, all, (i + 1) as nat, dtype) == Some(
                insert_pair(m, key@, entry.1),
            ));
            let _olen = out.len();
            proof {
                lemma_key_position_in_range(m, key@, 0);
            }
            match key_position_exec(&out, &key, Ghost(m)) {
                Some(j) => {
                    out.set(j, (key, arr));
                    proof {
                        m = m.update(j as int, entry);
                    }
                },
                None => {
                    out.push((key, arr));
                    proof {
                        m = m.push(entry);
                    }
                },
            }
        } else {
            assert(load_all_upto(bytes@, all, (i + 1) as nat, dtype) == Some(m));
        }
        i = i + 1;
    }
    Ok(out)
}

/// Reads an array from the bytes of a file in `format`, expecting elements
/// of dtype `dtype`: a `.npy` file, or the first `.npy` entry of a `.npz`
/// archive.
///
/// Fails with `DeserializationError("Only NPY and NPZ formats are
/// supported")` for the other formats, and as `read_npy` or `read_npz` does.
pub fn deserialize_from_file(bytes: &[u8], format: SerializeFormat, dtype: NpyDtype) -> (r: Result<
    Array<u64>,
>)
    ensures
        match format {
            SerializeFormat::Npy => match read_npy_spec(bytes@, dtype) {
                Some((shape, data)) => r matches Ok(a) && a@.shape == shape && a@.data == data,
                None => r matches Err(e) && e is DeserializationError,
            },
            SerializeFormat::Npz => match read_npz_spec(bytes@, dtype) {
                Some((shape, data)) => r matches Ok(a) && a@.shape == shape && a@.data == data,
                None => r matches Err(e) && e is DeserializationError,
            },
            _ => r matches Err(NumRs2Error::DeserializationError(m)) && m@
                == "Only NPY and NPZ formats are supported"@,
        },
{
    match format {
        SerializeFormat::Npy => read_npy(bytes, dtype),
        SerializeFormat::Npz => read_npz(bytes, dtype),
        _ => Err(
            NumRs2Error::DeserializationError(message("Only NPY and NPZ formats are supported")),
        ),
    }
}

/// The entry name of an array: its name followed by `.npy`.
fn entry_name(name: &str) -> (r: String)
    ensures
        r@ == name@ + npy_suffix(),
{
    let suffix = ".npy";
    proof {
        reveal_strlit(".npy");
    }
    assert(suffix@ =~= npy_suffix());
    name.to_owned().concat(suffix)
}

/// The entries of the `.npz` archive that stores `arrays`: for each array,
/// its name followed by `.npy`, and the `.npy` file of the array.
pub open spec fn npz_entry_list(arrays: Seq<(String, Array<u64>)>, d: NpyDtype) -> Seq<
    (Seq<char>, Seq<u8>),
> {
    Seq::new(
        arrays.len(),
        |i: int| (arrays[i].0@ + npy_suffix(), npy_file(arrays[i].1@.shape, arrays[i].1@.data, d)),
    )
}

/// Stores arrays in a new `.npz` archive, each as an uncompressed `.npy`
/// entry named after it (the name followed by `.npy`) holding `npy_bytes`
/// of the array, in the order given.
///
/// The entries are stored whatever `compressed` says: the archives this
/// library reads back are those whose entries are all stored (see
/// `zip_sound`), so a deflated entry would not load again.
///
/// Fails with `InvalidOperation` when there is no array, and succeeds
/// otherwise.
pub fn save_npz_arrays(arrays: &[(String, Array<u64>)], dtype: NpyDtype, compressed: bool) -> (r:
    Result<Vec<u8>>)
    ensures
        arrays@.len() == 0 <==> (r matches Err(e) && e is InvalidOperation),
        arrays@.len() > 0 ==> r is Ok,
        match r {
            Ok(b) => zip_readable(npz_entry_list(arrays@, dtype)) ==> archive_holds(
                b@,
                npz_entry_list(arrays@, dtype),
            ),
            Err(e) => e is InvalidOperation || e is IOError,
        },
{
    if arrays.len() == 0 {
        return Err(NumRs2Error::InvalidOperation(message("cannot save an empty collection to NPZ")));
    }
    let ghost entries = npz_entry_list(arrays@, dtype);
    let mut w = zip_writer();
    let mut i: usize = 0;
    while i < arrays.len()
        invariant
            i <= arrays@.len(),
            arrays@.len() > 0,
            entries == npz_entry_list(arrays@, dtype),
            archive_entries_of(w) == entries.take(i as int),
        decreases arrays@.len() - i,
    {
        let fname = entry_name(arrays[i].0.as_str());
        let data = npy_bytes(&arrays[i].1, dtype);
        if !zip_add_stored(&mut w, fname.as_str(), data.as_slice()) {
            return Err(NumRs2Error::IOError(message("failed to add NPZ entry")));
        }
        assert(entries.take(i + 1) =~= entries.take(i as int).push((fname@, data@)));
        i = i + 1;
    }
    assert(entries.take(arrays@.len() as int) =~= entries);
    match zip_finish(w) {
        Some(b) => Ok(b),
        None => Err(NumRs2Error::IOError(message("failed to finalize NPZ file"))),
    }
}

/// The entry list of the archive that `npz_bytes` writes: `arr_0.npy`
/// holding the `.npy` file of the array.
pub open spec fn single_npz_entry(a: ArrayModel<u64>, d: NpyDtype) -> Seq<(Seq<char>, Seq<u8>)> {
    seq![(seq!['a', 'r', 'r', '_', '0'] + npy_suffix(), npy_file(a.shape, a.data, d))]
}

/// Stores one array in a new `.npz` archive as the uncompressed entry
/// `arr_0.npy` holding `npy_bytes` of the array.
///
/// Always succeeds.
pub fn npz_bytes(array: &Array<u64>, dtype: NpyDtype) -> (r: Result<Vec<u8>>)
    ensures
        match r {
            Ok(b) => zip_readable(single_npz_entry(array@, dtype)) ==> archive_holds(
                b@,
                single_npz_entry(array@, dtype),
            ),
            Err(e) => e is IOError,
        },
        r is Ok,
{
    let mut w = zip_writer();
    let data = npy_bytes(array, dtype);
    let name = "arr_0.npy";
    proof {
        reveal_strlit("arr_0.npy");
    }
    assert(name@ =~= seq!['a', 'r', 'r', '_', '0'] + npy_suffix());
    if !zip_add_stored(&mut w, name, data.as_slice()) {
        return Err(NumRs2Error::IOError(message("failed to add file to NPZ")));
    }
    assert(archive_entries_of(w) =~= single_npz_entry(array@, dtype));
    match zip_finish(w) {
        Some(b) => Ok(b),
        None => Err(NumRs2Error::IOError(message("failed to finalize NPZ file"))),
    }
}

} // verus!
