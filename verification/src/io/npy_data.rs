//! The data section of a `.npy` file: element values stored little-endian
//! after the header, and whole files read and written on bytes.
//!
//! Elements are carried as their bit patterns in a `u64`: an integer of a
//! narrower type by its two's complement bits, a float by its IEEE bits, a
//! boolean as `0` or `1`.

use vstd::prelude::*;
use crate::array::{Array, checked_shape_size};
use crate::error::{NumRs2Error, Result, message};
use crate::shape::shape_size;
use crate::io::npy::{
    NpyDtype, dtype_width, dtype_descr, le_bytes, le_value, npy_magic, npy_header, parse_header,
    npy_header_bytes, parse_npy_header, push_bytes, header_truncated_in_length, padded_dict,
    dict_text, dict_open,
};

verus! {

/// `256` to the power `n`.
pub open spec fn pow256(n: nat) -> nat
    decreases n,
{
    if n == 0 {
        1
    } else {
        256 * pow256((n - 1) as nat)
    }
}

/// The bytes that store element `v` for dtype `d`: its low
/// `dtype_width(d)` bytes, least significant first.
pub open spec fn element_bytes(v: u64, d: NpyDtype) -> Seq<u8> {
    le_bytes(v as nat, dtype_width(d))
}

/// The data section holding `data` as elements of dtype `d`.
pub open spec fn encode_elements(data: Seq<u64>, d: NpyDtype) -> Seq<u8>
    decreases data.len(),
{
    if data.len() == 0 {
        seq![]
    } else {
        encode_elements(data.drop_last(), d) + element_bytes(data.last(), d)
    }
}

/// A complete `.npy` file: the header for `shape` and `d`, then the data.
pub open spec fn npy_file(shape: Seq<usize>, data: Seq<u64>, d: NpyDtype) -> Seq<u8> {
    npy_header(shape, d) + encode_elements(data, d)
}

/// The element stored in the bytes `b` of one element of dtype `d`: the
/// little-endian value, except that a boolean is `1` when its byte is not
/// zero and `0` otherwise.
pub open spec fn decode_element(b: Seq<u8>, d: NpyDtype) -> u64 {
    if d is B1 {
        if b[0] != 0u8 {
            1
        } else {
            0
        }
    } else {
        le_value(b) as u64
    }
}

/// The first `n` elements of dtype `d` stored in `body`.
pub open spec fn decode_elements(body: Seq<u8>, d: NpyDtype, n: nat) -> Seq<u64> {
    let w = dtype_width(d) as int;
    Seq::new(n, |i: int| decode_element(body.subrange(i * w, i * w + w), d))
}

/// Length of the header that starts `b` (its ten fixed bytes and the
/// dictionary length stored in bytes 8 and 9).
pub open spec fn stored_header_len(b: Seq<u8>) -> int {
    10 + le_value(b.subrange(8, 10)) as int
}

/// What reading a `.npy` file `b` for elements of dtype `d` gives: the shape
/// and the elements, or `None` when the file is shorter than ten bytes, does
/// not start with the magic string, is shorter than its header, has a
/// malformed header (see `parse_header`), stores another type descriptor
/// than `d`'s, or is shorter than its data. Bytes after the data are
/// ignored.
pub open spec fn read_npy_spec(b: Seq<u8>, d: NpyDtype) -> Option<(Seq<usize>, Seq<u64>)> {
    if b.len() < 10 || b.subrange(0, 6) != npy_magic() {
        None
    } else {
        let hl = stored_header_len(b);
        if b.len() < hl {
            None
        } else {
            match parse_header(b.subrange(0, hl)) {
                None => None,
                Some((shape, descr)) => {
                    let n = shape_size(shape);
                    if descr != dtype_descr(d) || b.len() < hl + n * dtype_width(d) {
                        None
                    } else {
                        Some((shape, decode_elements(b.skip(hl), d, n)))
                    }
                },
            }
        }
    }
}

/// Number of bytes of one element of the dtype.
pub fn element_width(d: NpyDtype) -> (w: usize)
    ensures
        w == dtype_width(d),
        1 <= w <= 8,
{
    match d {
        NpyDtype::F4 => 4,
        NpyDtype::F8 => 8,
        NpyDtype::I1 => 1,
        NpyDtype::I2 => 2,
        NpyDtype::I4 => 4,
        NpyDtype::I8 => 8,
        NpyDtype::U1 => 1,
        NpyDtype::U2 => 2,
        NpyDtype::U4 => 4,
        NpyDtype::U8 => 8,
        NpyDtype::B1 => 1,
    }
}

/// Appends the low `w` bytes of `x`, least significant first.
fn push_le(out: &mut Vec<u8>, x: u64, w: usize)
    ensures
        final(out)@ == old(out)@ + le_bytes(x as nat, w as nat),
    decreases w,
{
    if w > 0 {
        out.push((x % 256) as u8);
        let ghost mid = out@;
        push_le(out, x / 256, w - 1);
        assert(out@ =~= old(out)@ + le_bytes(x as nat, w as nat));
    } else {
        assert(le_bytes(x as nat, 0) =~= Seq::<u8>::empty());
        assert(out@ =~= old(out)@ + le_bytes(x as nat, w as nat));
    }
}

/// A little-endian value of `n` bytes is below `256` to the power `n`.
pub proof fn lemma_le_value_bound(b: Seq<u8>)
    ensures
        le_value(b) < pow256(b.len()),
    decreases b.len(),
{
    if b.len() > 0 {
        lemma_le_value_bound(b.skip(1));
        let r = le_value(b.skip(1));
        let p = pow256((b.len() - 1) as nat);
        assert(b[0] as nat + 256 * r < 256 * p) by (nonlinear_arith)
            requires
                b[0] < 256,
                r < p,
        ;
    }
}

/// `256` to the power seven.
proof fn lemma_pow256_small(n: nat)
    requires
        n <= 7,
    ensures
        pow256(n) <= 72057594037927936,
{
    reveal_with_fuel(pow256, 8);
}

/// The little-endian value of `b[i..j]`, for at most eight bytes.
fn le_value_exec(b: &[u8], i: usize, j: usize) -> (r: u64)
    requires
        i <= j <= b@.len(),
        j - i <= 8,
    ensures
        r as nat == le_value(b@.subrange(i as int, j as int)),
    decreases j - i,
{
    if i == j {
        assert(b@.subrange(i as int, j as int) =~= Seq::<u8>::empty());
        0
    } else {
        let rest = le_value_exec(b, i + 1, j);
        let ghost s = b@.subrange(i as int, j as int);
        assert(s.skip(1) =~= b@.subrange(i + 1, j as int));
        proof {
            lemma_le_value_bound(s.skip(1));
            lemma_pow256_small(s.skip(1).len());
        }
        assert(s[0] == b@[i as int]);
        (b[i] as u64) + 256 * rest
    }
}

/// The element of dtype `d` stored in `b[i..i + width]`.
pub(crate) fn decode_element_exec(b: &[u8], i: usize, d: NpyDtype) -> (r: u64)
    requires
        i + dtype_width(d) <= b@.len(),
    ensures
        r == decode_element(b@.subrange(i as int, i + dtype_width(d)), d),
{
    let w = element_width(d);
    match d {
        NpyDtype::B1 => {
            assert(b@.subrange(i as int, i + 1)[0] == b@[i as int]);
            if b[i] != 0 {
                1
            } else {
                0
            }
        },
        _ => {
            let len = b.len();
            assert(i + w <= len);
            le_value_exec(b, i, i + w)
        },
    }
}

/// `(i + 1) * w <= n * w` for `i < n`.
pub(crate) proof fn lemma_slot_in_range(i: int, n: int, w: int)
    requires
        0 <= i < n,
        0 <= w,
    ensures
        0 <= i * w,
        i * w + w <= n * w,
{
    assert(i * w + w <= n * w) by (nonlinear_arith)
        requires
            0 <= i < n,
            0 <= w,
    ;
    assert(0 <= i * w) by (nonlinear_arith)
        requires
            0 <= i,
            0 <= w,
    ;
}

/// Reads a `.npy` file held in `bytes`, expecting elements of dtype `dtype`.
///
/// Fails with `DeserializationError` exactly where `read_npy_spec` gives
/// `None`; otherwise the array has the stored shape and elements.
pub fn read_npy(bytes: &[u8], dtype: NpyDtype) -> (r: Result<Array<u64>>)
    ensures
        match read_npy_spec(bytes@, dtype) {
            Some((shape, data)) => r matches Ok(a) && a@.shape == shape && a@.data == data,
            None => r matches Err(e) && e is DeserializationError,
        },
{
    let magic: [u8; 6] = [0x93u8, 78u8, 85u8, 77u8, 80u8, 89u8];
    assert(magic@ =~= npy_magic());
    if bytes.len() < 10 {
        return Err(NumRs2Error::DeserializationError(message("failed to read NPY header")));
    }
    let mut k: usize = 0;
    while k < 6
        invariant
            k <= 6,
            bytes@.len() >= 10,
            magic@ == npy_magic(),
            forall|j: int| 0 <= j < k ==> bytes@[j] == magic@[j],
        decreases 6 - k,
    {
        if bytes[k] != magic[k] {
            assert(bytes@.subrange(0, 6)[k as int] != npy_magic()[k as int]);
            return Err(NumRs2Error::DeserializationError(message("missing magic string")));
        }
        k = k + 1;
    }
    assert(bytes@.subrange(0, 6) =~= npy_magic());
    let ghost lenf = bytes@.subrange(8, 10);
    assert(lenf.skip(1).skip(1) =~= Seq::<u8>::empty());
    assert(lenf.skip(1)[0] == bytes@[9]);
    assert(lenf[0] == bytes@[8]);
    assert(le_value(lenf.skip(1).skip(1)) == 0);
    assert(le_value(lenf.skip(1)) == bytes@[9] as nat);
    assert(le_value(lenf) == bytes@[8] as nat + 256 * (bytes@[9] as nat));
    let hl: usize = 10 + (bytes[8] as usize) + 256 * (bytes[9] as usize);
    assert(hl == stored_header_len(bytes@));
    if bytes.len() < hl {
        return Err(NumRs2Error::DeserializationError(message("failed to read NPY header data")));
    }
    let header = vstd::slice::slice_subrange(bytes, 0, hl);
    assert(!header_truncated_in_length(header@));
    let (shape, descr) = match parse_npy_header(header) {
        Ok(p) => p,
        Err(e) => {
            return Err(e);
        },
    };
    let expected = crate::io::npy::descr_bytes(dtype);
    let mut same = descr.len() == expected.len();
    if same {
        let mut q: usize = 0;
        while q < descr.len()
            invariant
                q <= descr@.len(),
                descr@.len() == expected@.len(),
                same == (forall|j: int| 0 <= j < q ==> descr@[j] == expected@[j]),
            decreases descr@.len() - q,
        {
            if descr[q] != expected[q] {
                same = false;
            }
            q = q + 1;
        }
        if same {
            assert(descr@ =~= expected@);
        }
    }
    if !same {
        assert(descr@ != dtype_descr(dtype));
        return Err(NumRs2Error::DeserializationError(message("unexpected NPY dtype")));
    }
    let w = element_width(dtype);
    let n = match checked_shape_size(shape.as_slice()) {
        Some(n) => n,
        None => {
            assert(shape_size(shape@) * dtype_width(dtype) >= shape_size(shape@)) by (nonlinear_arith)
                requires
                    dtype_width(dtype) >= 1,
            ;
            return Err(NumRs2Error::DeserializationError(message("failed to read NPY data")));
        },
    };
    let avail = bytes.len() - hl;
    if n > 0 && avail / n < w {
        assert(n * w > avail) by (nonlinear_arith)
            requires
                n > 0,
                avail / n < w,
                avail >= 0,
        ;
        return Err(NumRs2Error::DeserializationError(message("failed to read NPY data")));
    }
    assert(n * w <= avail) by (nonlinear_arith)
        requires
            n == 0 || avail / n >= w,
            avail >= 0,
            w >= 0,
    ;
    let body = vstd::slice::slice_subrange(bytes, hl, bytes.len());
    assert(body@ =~= bytes@.skip(hl as int));
    let _blen = body.len();
    let mut data: Vec<u64> = Vec::with_capacity(n);
    let mut i: usize = 0;
    while i < n
        invariant
            i <= n,
            n * w <= body@.len(),
            body@.len() <= usize::MAX,
            w == dtype_width(dtype),
            w >= 1,
            data@ =~= decode_elements(body@, dtype, n as nat).take(i as int),
        decreases n - i,
    {
        proof {
            lemma_slot_in_range(i as int, n as int, w as int);
        }
        let x = decode_element_exec(body, i * w, dtype);
        data.push(x);
        i = i + 1;
        assert(data@ =~= decode_elements(body@, dtype, n as nat).take(i as int));
    }
    assert(data@ =~= decode_elements(body@, dtype, n as nat));
    Ok(Array::from_parts(shape, data))
}

/// Appends the stored bytes of the elements `data` for dtype `d`.
pub(crate) fn push_elements(out: &mut Vec<u8>, data: &[u64], d: NpyDtype)
    ensures
        final(out)@ == old(out)@ + encode_elements(data@, d),
{
    let w = element_width(d);
    let mut i: usize = 0;
    while i < data.len()
        invariant
            i <= data@.len(),
            w == dtype_width(d),
            out@ == old(out)@ + encode_elements(data@.take(i as int), d),
        decreases data@.len() - i,
    {
        let ghost before = out@;
        push_le(out, data[i], w);
        let ghost t = data@.take(i + 1);
        assert(t.drop_last() =~= data@.take(i as int));
        assert(t.last() == data@[i as int]);
        i = i + 1;
        assert(out@ =~= old(out)@ + encode_elements(data@.take(i as int), d));
    }
    assert(data@.take(data@.len() as int) =~= data@);
}

/// The `.npy` file that stores `array` with elements of dtype `dtype`: the
/// header for its shape, then each element's low bytes in row-major order.
pub fn npy_bytes(array: &Array<u64>, dtype: NpyDtype) -> (r: Vec<u8>)
    ensures
        r@ == npy_file(array@.shape, array@.data, dtype),
{
    let shape = array.shape();
    let data = array.to_vec();
    let mut out = npy_header_bytes(shape.as_slice(), dtype);
    push_elements(&mut out, data.as_slice(), dtype);
    out
}

/// The element `v` can be stored as dtype `d` and read back unchanged: it
/// fits the dtype's width, and a boolean is `0` or `1`.
pub open spec fn fits_dtype(v: u64, d: NpyDtype) -> bool {
    &&& (v as nat) < pow256(dtype_width(d))
    &&& d is B1 ==> v <= 1
}

/// The data section has one slot of the dtype's width per element.
pub proof fn lemma_encode_len(data: Seq<u64>, d: NpyDtype)
    ensures
        encode_elements(data, d).len() == data.len() * dtype_width(d),
    decreases data.len(),
{
    if data.len() > 0 {
        lemma_encode_len(data.drop_last(), d);
        lemma_le_bytes_len(data.last() as nat, dtype_width(d));
        assert((data.len() - 1) * dtype_width(d) + dtype_width(d) == data.len() * dtype_width(d))
            by (nonlinear_arith);
    }
}

/// `le_bytes(v, w)` has `w` bytes.
pub proof fn lemma_le_bytes_len(v: nat, w: nat)
    ensures
        le_bytes(v, w).len() == w,
    decreases w,
{
    if w > 0 {
        lemma_le_bytes_len(v / 256, (w - 1) as nat);
    }
}

/// Slot `i` of the data section holds the bytes of element `i`.
pub proof fn lemma_encode_slot(data: Seq<u64>, d: NpyDtype, i: int)
    requires
        0 <= i < data.len(),
    ensures
        encode_elements(data, d).subrange(i * dtype_width(d), i * dtype_width(d) + dtype_width(d))
            == element_bytes(data[i], d),
    decreases data.len(),
{
    let w = dtype_width(d) as int;
    let front = data.drop_last();
    lemma_encode_len(front, d);
    lemma_le_bytes_len(data.last() as nat, dtype_width(d));
    let e = encode_elements(data, d);
    let f = encode_elements(front, d);
    assert(e == f + element_bytes(data.last(), d));
    if i == data.len() - 1 {
        assert(i * w == front.len() * w);
        assert(e.subrange(i * w, i * w + w) =~= element_bytes(data.last(), d));
    } else {
        lemma_encode_slot(front, d, i);
        lemma_slot_in_range(i, front.len() as int, w);
        assert(e.subrange(i * w, i * w + w) =~= f.subrange(i * w, i * w + w));
    }
}

/// Little-endian bytes of a value that fits read back as the value.
pub proof fn lemma_le_roundtrip(v: nat, w: nat)
    requires
        v < pow256(w),
    ensures
        le_value(le_bytes(v, w)) == v,
    decreases w,
{
    if w > 0 {
        let b = le_bytes(v, w);
        assert(v / 256 < pow256((w - 1) as nat)) by (nonlinear_arith)
            requires
                v < 256 * pow256((w - 1) as nat),
        ;
        lemma_le_roundtrip(v / 256, (w - 1) as nat);
        assert(b.skip(1) =~= le_bytes(v / 256, (w - 1) as nat));
        assert(b[0] == (v % 256) as u8);
        assert(v == v % 256 + 256 * (v / 256));
    } else {
        assert(le_bytes(v, 0) =~= Seq::<u8>::empty());
    }
}

/// An element that fits its dtype reads back from its bytes unchanged.
pub proof fn lemma_decode_fit(v: u64, d: NpyDtype)
    requires
        fits_dtype(v, d),
    ensures
        decode_element(element_bytes(v, d), d) == v,
{
    lemma_le_roundtrip(v as nat, dtype_width(d));
    if d is B1 {
        let b = element_bytes(v, d);
        assert(b =~= seq![(v % 256) as u8] + le_bytes(v as nat / 256, 0));
        assert(b[0] == (v % 256) as u8);
    }
}

/// The type descriptor a written `.npy` file declares, at bytes 21 to 23
/// (after the ten bytes of magic, version and length, and `{'descr': '`),
/// is NumPy's for the dtype: `<` (little-endian; `|` for a boolean), the
/// kind (`u` for the unsigned dtypes, `i` for the signed ones, `f` for
/// floats, `b` for booleans) and the width in bytes.
pub proof fn law_npy_descriptor(shape: Seq<usize>, data: Seq<u64>, d: NpyDtype)
    ensures
        ({
            let f = npy_file(shape, data, d);
            &&& f.len() >= 24
            &&& f.subrange(21, 24) == match d {
                NpyDtype::F4 => seq![60u8, 102u8, 52u8],
                NpyDtype::F8 => seq![60u8, 102u8, 56u8],
                NpyDtype::I1 => seq![60u8, 105u8, 49u8],
                NpyDtype::I2 => seq![60u8, 105u8, 50u8],
                NpyDtype::I4 => seq![60u8, 105u8, 52u8],
                NpyDtype::I8 => seq![60u8, 105u8, 56u8],
                NpyDtype::U1 => seq![60u8, 117u8, 49u8],
                NpyDtype::U2 => seq![60u8, 117u8, 50u8],
                NpyDtype::U4 => seq![60u8, 117u8, 52u8],
                NpyDtype::U8 => seq![60u8, 117u8, 56u8],
                NpyDtype::B1 => seq![124u8, 98u8, 49u8],
            }
            &&& f[21] == (if d is B1 { 124u8 } else { 60u8 })
            &&& (d is U1 || d is U2 || d is U4 || d is U8) <==> f[22] == 117u8
            &&& (d is I1 || d is I2 || d is I4 || d is I8) <==> f[22] == 105u8
            &&& (d is F4 || d is F8) <==> f[22] == 102u8
            &&& d is B1 <==> f[22] == 98u8
            &&& f[23] == 48 + dtype_width(d)
        }),
{
    let dict = padded_dict(shape, d);
    let t = dict_text(shape, d);
    reveal_with_fuel(le_bytes, 3);
    let lb = le_bytes(dict.len() % 65536, 2);
    assert(lb.len() == 2);
    let h = npy_header(shape, d);
    let f = npy_file(shape, data, d);
    assert(dict_open().len() == 11);
    assert(t.len() >= 14);
    assert(h.len() >= 24);
    assert forall|k: int| 0 <= k < 3 implies f[21 + k] == #[trigger] dtype_descr(d)[k] by {
        assert(f[21 + k] == h[21 + k]);
        assert(h[21 + k] == dict[11 + k]);
        assert(dict[11 + k] == t[11 + k]);
    }
    assert(f.subrange(21, 24) =~= dtype_descr(d));
}

/// Reading a written `.npy` file gives back the shape and the elements,
/// provided each element fits the dtype and the header dictionary is
/// shorter than 65536 bytes (its length field holds 16 bits).
pub proof fn law_npy_file_roundtrip(shape: Seq<usize>, data: Seq<u64>, d: NpyDtype)
    requires
        data.len() == shape_size(shape),
        crate::io::npy::padded_dict(shape, d).len() < 65536,
        forall|i: int| 0 <= i < data.len() ==> fits_dtype(#[trigger] data[i], d),
    ensures
        read_npy_spec(npy_file(shape, data, d), d) == Some((shape, data)),
{
    let h = npy_header(shape, d);
    let e = encode_elements(data, d);
    let b = npy_file(shape, data, d);
    let dict = crate::io::npy::padded_dict(shape, d);
    let w = dtype_width(d) as int;
    crate::io::npy_laws::law_npy_header_roundtrip(shape, d);
    crate::io::npy_laws::lemma_le_u16(dict.len());
    lemma_le_bytes_len(dict.len() % 65536, 2);
    assert(h.len() == 10 + dict.len());
    assert(b.subrange(0, 6) =~= npy_magic());
    assert(b.subrange(8, 10) =~= h.subrange(8, 10));
    assert(h.subrange(8, 10) =~= le_bytes(dict.len() % 65536, 2));
    assert(dict.len() % 65536 == dict.len());
    assert(stored_header_len(b) == h.len());
    assert(b.subrange(0, h.len() as int) =~= h);
    lemma_encode_len(data, d);
    assert(b.skip(h.len() as int) =~= e);
    let dec = decode_elements(e, d, data.len());
    assert forall|i: int| 0 <= i < data.len() implies #[trigger] dec[i] == data[i] by {
        lemma_encode_slot(data, d, i);
        lemma_decode_fit(data[i], d);
    }
    assert(dec =~= data);
}

} // verus!
