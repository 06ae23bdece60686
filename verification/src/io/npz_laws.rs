//! What reading gives back of an `.npz` archive that holds the entries
//! `save_npz_arrays` and `npz_bytes` write.

use vstd::prelude::*;
use crate::array::{Array, ArrayModel};
use crate::io::npy::{NpyDtype, padded_dict};
use crate::io::npy_data::{fits_dtype, read_npy_spec, npy_file, law_npy_file_roundtrip};
use crate::io::npz::{
    npy_suffix, ends_with_npy, strip_npy, npz_array_names, first_npy_from, first_named_from,
    read_npz_spec, load_npz_spec, key_position, insert_pair, load_all_upto, load_all_spec,
    archive_holds, entry_names, npz_entry_list, single_npz_entry,
};

verus! {

/// The array can be stored as a `.npy` file of dtype `d` and read back:
/// its buffer matches its shape, each element fits the dtype, and the
/// header dictionary is shorter than 65536 bytes.
pub open spec fn npy_storable(a: ArrayModel<u64>, d: NpyDtype) -> bool {
    &&& a.well_formed()
    &&& padded_dict(a.shape, d).len() < 65536
    &&& forall|i: int| 0 <= i < a.data.len() ==> fits_dtype(#[trigger] a.data[i], d)
}

/// A storable array reads back from its `.npy` file.
proof fn lemma_storable_roundtrip(a: ArrayModel<u64>, d: NpyDtype)
    requires
        npy_storable(a, d),
    ensures
        read_npy_spec(npy_file(a.shape, a.data, d), d) == Some((a.shape, a.data)),
{
    law_npy_file_roundtrip(a.shape, a.data, d);
}

/// A name followed by `.npy` ends with `.npy`.
proof fn lemma_ends_with_suffix(s: Seq<char>)
    ensures
        ends_with_npy(s + npy_suffix()),
{
    let t = s + npy_suffix();
    assert(t.subrange(t.len() - 4, t.len() as int) =~= npy_suffix());
}

/// Stripping the `.npy` appended to a name that does not end with `.npy`
/// gives the name.
proof fn lemma_strip_suffix(s: Seq<char>)
    requires
        !ends_with_npy(s),
    ensures
        strip_npy(s + npy_suffix()) == s,
{
    let t = s + npy_suffix();
    lemma_ends_with_suffix(s);
    assert(t.take(t.len() - 4) =~= s);
    assert(strip_npy(t) == strip_npy(t.take(t.len() - 4)));
}

/// Names that differ still differ with `.npy` appended.
proof fn lemma_suffix_injective(a: Seq<char>, b: Seq<char>)
    requires
        a + npy_suffix() == b + npy_suffix(),
    ensures
        a == b,
{
    assert((a + npy_suffix()).len() == (b + npy_suffix()).len());
    assert(a =~= (a + npy_suffix()).take(a.len() as int));
    assert(b =~= (b + npy_suffix()).take(b.len() as int));
}

/// The entry names of the archive of `arrays`.
proof fn lemma_entry_names(arrays: Seq<(String, Array<u64>)>, d: NpyDtype)
    ensures
        entry_names(npz_entry_list(arrays, d)).len() == arrays.len(),
        forall|j: int|
            0 <= j < arrays.len() ==> #[trigger] entry_names(npz_entry_list(arrays, d))[j]
                == arrays[j].0@ + npy_suffix(),
{
}

/// The first entry named `t` from position `i` on is at `k`, when `k` holds
/// that name and no entry between does.
proof fn lemma_first_named_is(names: Seq<Seq<char>>, t: Seq<char>, i: int, k: int)
    requires
        0 <= i <= k < names.len(),
        names[k] == t,
        forall|j: int| i <= j < k ==> names[j] != t,
    ensures
        first_named_from(names, t, i) == Some(k),
    decreases k - i,
{
    if i < k {
        lemma_first_named_is(names, t, i + 1, k);
    }
}

/// No pair from position `i` on has the key.
proof fn lemma_key_absent<V>(pairs: Seq<(Seq<char>, V)>, key: Seq<char>, i: int)
    requires
        0 <= i,
        forall|j: int| i <= j < pairs.len() ==> (#[trigger] pairs[j]).0 != key,
    ensures
        key_position(pairs, key, i) is None,
    decreases pairs.len() - i,
{
    if i < pairs.len() {
        lemma_key_absent(pairs, key, i + 1);
    }
}

/// Loading an array by name from an archive that holds the entries written
/// for `arrays` gives back the first array of that name.
pub proof fn law_npz_load_after_save(
    arrays: Seq<(String, Array<u64>)>,
    d: NpyDtype,
    bytes: Seq<u8>,
    k: int,
)
    requires
        archive_holds(bytes, npz_entry_list(arrays, d)),
        0 <= k < arrays.len(),
        forall|j: int| 0 <= j < k ==> arrays[j].0@ != arrays[k].0@,
        npy_storable(arrays[k].1@, d),
    ensures
        load_npz_spec(bytes, arrays[k].0@, d) == Some((arrays[k].1@.shape, arrays[k].1@.data)),
{
    let entries = npz_entry_list(arrays, d);
    let names = entry_names(entries);
    let t = arrays[k].0@ + npy_suffix();
    lemma_entry_names(arrays, d);
    assert forall|j: int| 0 <= j < k implies names[j] != t by {
        if names[j] == t {
            lemma_suffix_injective(arrays[j].0@, arrays[k].0@);
        }
    }
    lemma_first_named_is(names, t, 0, k);
    assert(zip_entry_data_holds(bytes, entries, k));
    lemma_storable_roundtrip(arrays[k].1@, d);
}

/// Entry `k` of the archive extracts to the contents of `entries[k]`.
spec fn zip_entry_data_holds(bytes: Seq<u8>, entries: Seq<(Seq<char>, Seq<u8>)>, k: int) -> bool {
    crate::io::npz::zip_entry_data_of(bytes, k as nat) == Some(entries[k].1)
}

/// Reading an archive that holds the entries written for `arrays` gives
/// back the first array.
pub proof fn law_npz_read_after_save(arrays: Seq<(String, Array<u64>)>, d: NpyDtype, bytes: Seq<u8>)
    requires
        archive_holds(bytes, npz_entry_list(arrays, d)),
        arrays.len() > 0,
        npy_storable(arrays[0].1@, d),
    ensures
        read_npz_spec(bytes, d) == Some((arrays[0].1@.shape, arrays[0].1@.data)),
{
    let entries = npz_entry_list(arrays, d);
    let names = entry_names(entries);
    lemma_entry_names(arrays, d);
    lemma_ends_with_suffix(arrays[0].0@);
    assert(first_npy_from(names, 0) == Some(0int));
    assert(zip_entry_data_holds(bytes, entries, 0));
    lemma_storable_roundtrip(arrays[0].1@, d);
}

/// Reading the archive that `npz_bytes` writes gives back its array.
pub proof fn law_npz_single_roundtrip(a: ArrayModel<u64>, d: NpyDtype, bytes: Seq<u8>)
    requires
        archive_holds(bytes, single_npz_entry(a, d)),
        npy_storable(a, d),
    ensures
        read_npz_spec(bytes, d) == Some((a.shape, a.data)),
{
    let entries = single_npz_entry(a, d);
    let names = entry_names(entries);
    lemma_ends_with_suffix(seq!['a', 'r', 'r', '_', '0']);
    assert(names[0] == entries[0].0);
    assert(first_npy_from(names, 0) == Some(0int));
    assert(zip_entry_data_holds(bytes, entries, 0));
    lemma_storable_roundtrip(a, d);
}

/// The names and arrays of `arrays`, as `load_all_npz_arrays` returns them.
pub open spec fn named_models(arrays: Seq<(String, Array<u64>)>) -> Seq<
    (Seq<char>, (Seq<usize>, Seq<u64>)),
> {
    Seq::new(arrays.len(), |i: int| (arrays[i].0@, (arrays[i].1@.shape, arrays[i].1@.data)))
}

/// The names of `arrays`.
pub open spec fn array_names(arrays: Seq<(String, Array<u64>)>) -> Seq<Seq<char>> {
    Seq::new(arrays.len(), |i: int| arrays[i].0@)
}

/// Reading all arrays of an archive that holds the entries written for
/// `arrays` gives back every array under its name, in order, when the
/// names differ and none ends with `.npy`.
pub proof fn law_npz_load_all_after_save(
    arrays: Seq<(String, Array<u64>)>,
    d: NpyDtype,
    bytes: Seq<u8>,
)
    requires
        archive_holds(bytes, npz_entry_list(arrays, d)),
        forall|i: int, j: int|
            0 <= i < j < arrays.len() ==> (#[trigger] arrays[i]).0@ != (#[trigger] arrays[j]).0@,
        forall|i: int| 0 <= i < arrays.len() ==> !ends_with_npy((#[trigger] arrays[i]).0@),
        forall|i: int| 0 <= i < arrays.len() ==> npy_storable((#[trigger] arrays[i]).1@, d),
    ensures
        load_all_spec(bytes, d) == Some(named_models(arrays)),
{
    let entries = npz_entry_list(arrays, d);
    let names = entry_names(entries);
    lemma_entry_names(arrays, d);
    lemma_load_all_prefix(arrays, d, bytes, names, arrays.len() as nat);
    assert(named_models(arrays).take(arrays.len() as int) =~= named_models(arrays));
}

/// The first `k` entries load as the first `k` named arrays.
proof fn lemma_load_all_prefix(
    arrays: Seq<(String, Array<u64>)>,
    d: NpyDtype,
    bytes: Seq<u8>,
    names: Seq<Seq<char>>,
    k: nat,
)
    requires
        archive_holds(bytes, npz_entry_list(arrays, d)),
        names == entry_names(npz_entry_list(arrays, d)),
        k <= arrays.len(),
        forall|i: int, j: int|
            0 <= i < j < arrays.len() ==> (#[trigger] arrays[i]).0@ != (#[trigger] arrays[j]).0@,
        forall|i: int| 0 <= i < arrays.len() ==> !ends_with_npy((#[trigger] arrays[i]).0@),
        forall|i: int| 0 <= i < arrays.len() ==> npy_storable((#[trigger] arrays[i]).1@, d),
    ensures
        load_all_upto(bytes, names, k, d) == Some(named_models(arrays).take(k as int)),
    decreases k,
{
    let m = named_models(arrays);
    if k == 0 {
        assert(m.take(0) =~= Seq::<(Seq<char>, (Seq<usize>, Seq<u64>))>::empty());
    } else {
        let i = k - 1;
        lemma_load_all_prefix(arrays, d, bytes, names, i as nat);
        lemma_entry_names(arrays, d);
        let prev = m.take(i);
        let entries = npz_entry_list(arrays, d);
        assert(names[i] == arrays[i].0@ + npy_suffix());
        lemma_ends_with_suffix(arrays[i].0@);
        assert(!ends_with_npy(arrays[i].0@));
        lemma_strip_suffix(arrays[i].0@);
        assert(zip_entry_data_holds(bytes, entries, i));
        assert(npy_storable(arrays[i].1@, d));
        lemma_storable_roundtrip(arrays[i].1@, d);
        assert forall|j: int| 0 <= j < prev.len() implies (#[trigger] prev[j]).0 != arrays[i].0@ by {
            assert(prev[j] == m[j]);
            assert(arrays[j].0@ != arrays[i].0@);
        }
        lemma_key_absent(prev, arrays[i].0@, 0);
        assert(insert_pair(prev, arrays[i].0@, (arrays[i].1@.shape, arrays[i].1@.data))
            == prev.push(m[i]));
        assert(prev.push(m[i]) =~= m.take(k as int));
    }
}

/// Listing the arrays of an archive that holds the entries written for
/// `arrays` gives back their names, in order, when no name ends with
/// `.npy`.
pub proof fn law_npz_list_after_save(arrays: Seq<(String, Array<u64>)>, d: NpyDtype, bytes: Seq<u8>)
    requires
        archive_holds(bytes, npz_entry_list(arrays, d)),
        forall|i: int| 0 <= i < arrays.len() ==> !ends_with_npy((#[trigger] arrays[i]).0@),
    ensures
        crate::io::npz::zip_names(bytes) matches Some(names) && npz_array_names(names)
            == array_names(arrays),
{
    let entries = npz_entry_list(arrays, d);
    let names = entry_names(entries);
    lemma_entry_names(arrays, d);
    lemma_list_prefix(arrays, d, names, arrays.len() as nat);
    assert(names.take(arrays.len() as int) =~= names);
    assert(array_names(arrays).take(arrays.len() as int) =~= array_names(arrays));
}

/// The first `k` entry names list as the first `k` array names.
proof fn lemma_list_prefix(
    arrays: Seq<(String, Array<u64>)>,
    d: NpyDtype,
    names: Seq<Seq<char>>,
    k: nat,
)
    requires
        names == entry_names(npz_entry_list(arrays, d)),
        k <= arrays.len(),
        forall|i: int| 0 <= i < arrays.len() ==> !ends_with_npy((#[trigger] arrays[i]).0@),
    ensures
        npz_array_names(names.take(k as int)) == array_names(arrays).take(k as int),
    decreases k,
{
    lemma_entry_names(arrays, d);
    if k == 0 {
        assert(array_names(arrays).take(0) =~= Seq::<Seq<char>>::empty());
    } else {
        let i = k - 1;
        lemma_list_prefix(arrays, d, names, i as nat);
        let t = names.take(k as int);
        assert(t.drop_last() =~= names.take(i));
        assert(t.last() == arrays[i].0@ + npy_suffix());
        lemma_ends_with_suffix(arrays[i].0@);
        assert(!ends_with_npy(arrays[i].0@));
        lemma_strip_suffix(arrays[i].0@);
        assert(array_names(arrays).take(i).push(arrays[i].0@) =~= array_names(arrays).take(
            k as int,
        ));
    }
}

} // verus!
