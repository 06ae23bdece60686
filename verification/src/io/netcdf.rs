//! NetCDF-like variables: a JSON metadata text (variable name, shape,
//! element type, attributes) beside the elements, each stored in the
//! little-endian bytes of its dtype's width.

use vstd::prelude::*;
use crate::array::{Array, ArrayModel, checked_shape_size};
use crate::error::{NumRs2Error, Result, message};
use crate::io::npy::{NpyDtype, dtype_width, dtype_for_type_name, digits_value};
use crate::io::npy_data::{
    decode_elements, encode_elements, fits_dtype, element_width, decode_element_exec,
    lemma_slot_in_range, push_elements, lemma_encode_len, lemma_encode_slot, lemma_decode_fit,
};
use crate::shape::shape_size;
use crate::fft_params::same_text;

verus! {

/// What `serde_json` reads from a metadata text: `None` when the text is not
/// JSON; otherwise the field named `name_key` when it is a string, and the
/// field named `shape_key` when it is an array (inside, `None` when an entry
/// is not an unsigned 64-bit integer, else the entries).
pub uninterp spec fn netcdf_meta_of(text: Seq<char>, name_key: Seq<char>, shape_key: Seq<char>) -> Option<
    (Option<Seq<char>>, Option<Option<Seq<u64>>>),
>;

/// The metadata text that `serde_json` writes for an object of four fields:
/// a string, an array of unsigned integers, a string, and an object of
/// string pairs, each under the key given before it.
pub uninterp spec fn netcdf_meta_text_of(
    name_key: Seq<char>,
    var: Seq<char>,
    shape_key: Seq<char>,
    shape: Seq<usize>,
    type_key: Seq<char>,
    elem_name: Seq<char>,
    attrs_key: Seq<char>,
    attrs: Seq<(Seq<char>, Seq<char>)>,
) -> Seq<char>;

/// The key of the variable's name in the metadata: `variable_name`.
pub open spec fn name_key() -> Seq<char> {
    seq!['v', 'a', 'r', 'i', 'a', 'b', 'l', 'e', '_', 'n', 'a', 'm', 'e']
}

/// The key of the shape in the metadata: `shape`.
pub open spec fn shape_key() -> Seq<char> {
    seq!['s', 'h', 'a', 'p', 'e']
}

/// The key of the element type's name in the metadata: `dtype`.
pub open spec fn type_key() -> Seq<char> {
    seq!['d', 't', 'y', 'p', 'e']
}

/// The key of the attributes in the metadata: `attributes`.
pub open spec fn attrs_key() -> Seq<char> {
    seq!['a', 't', 't', 'r', 'i', 'b', 'u', 't', 'e', 's']
}

/// Four keys, no two alike.
pub open spec fn keys_distinct(k1: Seq<char>, k2: Seq<char>, k3: Seq<char>, k4: Seq<char>) -> bool {
    k1 != k2 && k1 != k3 && k1 != k4 && k2 != k3 && k2 != k4 && k3 != k4
}

/// The metadata's four keys differ.
pub proof fn lemma_keys_distinct()
    ensures
        keys_distinct(name_key(), shape_key(), type_key(), attrs_key()),
{
    assert(shape_key()[0] != type_key()[0]);
}

fn name_key_text() -> (r: &'static str)
    ensures
        r@ == name_key(),
{
    proof {
        reveal_strlit("variable_name");
    }
    "variable_name"
}

fn shape_key_text() -> (r: &'static str)
    ensures
        r@ == shape_key(),
{
    proof {
        reveal_strlit("shape");
    }
    "shape"
}

fn type_key_text() -> (r: &'static str)
    ensures
        r@ == type_key(),
{
    proof {
        reveal_strlit("dtype");
    }
    "dtype"
}

fn attrs_key_text() -> (r: &'static str)
    ensures
        r@ == attrs_key(),
{
    proof {
        reveal_strlit("attributes");
    }
    "attributes"
}

/// The view of read metadata.
pub open spec fn meta_view(m: Option<(Option<String>, Option<Option<Vec<u64>>>)>) -> Option<
    (Option<Seq<char>>, Option<Option<Seq<u64>>>),
> {
    match m {
        None => None,
        Some((n, s)) => Some(
            (
                match n {
                    Some(x) => Some(x@),
                    None => None,
                },
                match s {
                    None => None,
                    Some(None) => Some(None),
                    Some(Some(v)) => Some(Some(v@)),
                },
            ),
        ),
    }
}

/// The views of attribute pairs.
pub open spec fn attrs_view(attrs: Seq<(String, String)>) -> Seq<(Seq<char>, Seq<char>)> {
    attrs.map_values(|p: (String, String)| (p.0@, p.1@))
}

/// A shape as the unsigned 64-bit numbers the metadata stores.
pub open spec fn shape_numbers(shape: Seq<usize>) -> Seq<u64> {
    shape.map_values(|x: usize| x as u64)
}

/// `serde_json::from_str` of the text into a `serde_json::Value`, then
/// `as_str` of its field `name_key` and `as_array` of its field `shape_key`
/// with `as_u64` of each entry. Claimed: the result is
/// `netcdf_meta_of` of the text and the keys, a function of them alone.
#[verifier::external_body]
fn parse_netcdf_meta(text: &str, name_key: &str, shape_key: &str) -> (r: Option<
    (Option<String>, Option<Option<Vec<u64>>>),
>)
    ensures
        meta_view(r) == netcdf_meta_of(text@, name_key@, shape_key@),
{
    let v: serde_json::Value = serde_json::from_str(text).ok()?;
    let name = v[name_key].as_str().map(|s| s.to_string());
    let shape = v[shape_key].as_array().map(|a| a.iter().map(|x| x.as_u64()).collect());
    Some((name, shape))
}

/// A `serde_json::Map` holding, under the four keys given, the variable's
/// name, the shape, the element type's name and an object of the attribute
/// pairs, written by `serde_json::to_string`. Claimed: the text is
/// `netcdf_meta_text_of` of the arguments, and, where the keys differ,
/// `serde_json` reads from it the name and the shape that went in (a JSON
/// string and JSON unsigned integers read back as written).
#[verifier::external_body]
fn netcdf_meta_text(
    name_key: &str,
    var_name: &str,
    shape_key: &str,
    shape: &[usize],
    type_key: &str,
    elem_name: &str,
    attrs_key: &str,
    attrs: &[(String, String)],
) -> (r: String)
    ensures
        r@ == netcdf_meta_text_of(
            name_key@,
            var_name@,
            shape_key@,
            shape@,
            type_key@,
            elem_name@,
            attrs_key@,
            attrs_view(attrs@),
        ),
        keys_distinct(name_key@, shape_key@, type_key@, attrs_key@) ==> netcdf_meta_of(
            r@,
            name_key@,
            shape_key@,
        ) == Some((Some(var_name@), Some(Some(shape_numbers(shape@))))),
{
    let mut meta = serde_json::Map::new();
    meta.insert(name_key.to_string(), serde_json::Value::from(var_name));
    meta.insert(shape_key.to_string(), serde_json::Value::from(shape.to_vec()));
    meta.insert(type_key.to_string(), serde_json::Value::from(elem_name));
    let attributes: serde_json::Map<String, serde_json::Value> = attrs.iter().map(
        |(k, v)| (k.clone(), serde_json::Value::from(v.as_str())),
    ).collect();
    meta.insert(attrs_key.to_string(), serde_json::Value::Object(attributes));
    serde_json::Value::Object(meta).to_string()
}

/// Every stored dimension fits a `usize`.
pub open spec fn dims_fit(dims: Seq<u64>) -> bool {
    forall|i: int| 0 <= i < dims.len() ==> #[trigger] dims[i] <= usize::MAX
}

/// The stored dimensions as a shape.
pub open spec fn dims_shape(dims: Seq<u64>) -> Seq<usize> {
    dims.map_values(|x: u64| x as usize)
}

/// What reading a variable named `var` of dtype `d` gives from the read
/// metadata `meta` and the element bytes `data`: the shape and the
/// elements, or `None` when the metadata is not JSON, has no variable name,
/// names another variable, has no shape, has a shape entry that is not an
/// unsigned integer (or does not fit a `usize`), or when the bytes are not
/// exactly the shape's number of elements of the dtype's width.
pub open spec fn netcdf_read_spec(
    meta: Option<(Option<Seq<char>>, Option<Option<Seq<u64>>>)>,
    data: Seq<u8>,
    var: Seq<char>,
    d: NpyDtype,
) -> Option<(Seq<usize>, Seq<u64>)> {
    match meta {
        None => None,
        Some((name, shape)) => match name {
            None => None,
            Some(n) => if n != var {
                None
            } else {
                match shape {
                    None => None,
                    Some(None) => None,
                    Some(Some(dims)) => if !dims_fit(dims) {
                        None
                    } else {
                        let s = dims_shape(dims);
                        let count = shape_size(s);
                        if data.len() != count * dtype_width(d) {
                            None
                        } else {
                            Some((s, decode_elements(data, d, count)))
                        }
                    },
                }
            },
        },
    }
}

/// The stored dimensions as a shape, or `None` when one does not fit a
/// `usize`.
fn dims_to_shape(dims: &Vec<u64>) -> (r: Option<Vec<usize>>)
    ensures
        match r {
            Some(s) => dims_fit(dims@) && s@ == dims_shape(dims@),
            None => !dims_fit(dims@),
        },
{
    let mut out: Vec<usize> = Vec::with_capacity(dims.len());
    let mut i: usize = 0;
    while i < dims.len()
        invariant
            i <= dims@.len(),
            out@ == dims_shape(dims@).take(i as int),
            forall|j: int| 0 <= j < i ==> #[trigger] dims@[j] <= usize::MAX,
        decreases dims@.len() - i,
    {
        let x = dims[i];
        if x > usize::MAX as u64 {
            return None;
        }
        out.push(x as usize);
        i = i + 1;
        assert(out@ =~= dims_shape(dims@).take(i as int));
    }
    assert(out@ =~= dims_shape(dims@));
    Some(out)
}

/// Reads a variable from its read metadata and its element bytes.
///
/// Fails with `DeserializationError` exactly where `netcdf_read_spec` gives
/// `None`: invalid metadata, a missing or different variable name, a
/// missing or invalid shape, or a size mismatch.
pub fn netcdf_from_meta(
    meta: Option<(Option<String>, Option<Option<Vec<u64>>>)>,
    data: &[u8],
    var_name: &str,
    dtype: NpyDtype,
) -> (r: Result<Array<u64>>)
    ensures
        match netcdf_read_spec(meta_view(meta), data@, var_name@, dtype) {
            Some((shape, elems)) => r matches Ok(a) && a@.shape == shape && a@.data == elems,
            None => r matches Err(e) && e is DeserializationError,
        },
{
    let (name, shape_field) = match meta {
        None => {
            return Err(NumRs2Error::DeserializationError(message("Invalid metadata")));
        },
        Some(m) => m,
    };
    let stored = match name {
        None => {
            return Err(NumRs2Error::DeserializationError(message("Missing variable name")));
        },
        Some(n) => n,
    };
    if !same_text(stored.as_str(), var_name) {
        return Err(NumRs2Error::DeserializationError(message("Variable name mismatch")));
    }
    let dims = match shape_field {
        None => {
            return Err(NumRs2Error::DeserializationError(message("Missing shape")));
        },
        Some(None) => {
            return Err(NumRs2Error::DeserializationError(message("Invalid shape value")));
        },
        Some(Some(v)) => v,
    };
    let shape = match dims_to_shape(&dims) {
        None => {
            return Err(NumRs2Error::DeserializationError(message("Invalid shape value")));
        },
        Some(s) => s,
    };
    let w = element_width(dtype);
    let len = data.len();
    let n = match checked_shape_size(shape.as_slice()) {
        Some(n) => n,
        None => {
            assert(shape_size(shape@) * dtype_width(dtype) >= shape_size(shape@)) by (nonlinear_arith)
                requires
                    dtype_width(dtype) >= 1,
            ;
            return Err(NumRs2Error::DeserializationError(message("Data size mismatch")));
        },
    };
    if n > 0 && len / n != w || n > 0 && len % n != 0 || n == 0 && len != 0 {
        assert(len != n * w) by (nonlinear_arith)
            requires
                n > 0 && len / n != w || n > 0 && len % n != 0 || n == 0 && len != 0,
        ;
        return Err(NumRs2Error::DeserializationError(message("Data size mismatch")));
    }
    assert(len == n * w) by (nonlinear_arith)
        requires
            !(n > 0 && len / n != w || n > 0 && len % n != 0 || n == 0 && len != 0),
    ;
    let mut elems: Vec<u64> = Vec::with_capacity(n);
    let mut i: usize = 0;
    while i < n
        invariant
            i <= n,
            n * w == data@.len(),
            data@.len() <= usize::MAX,
            w == dtype_width(dtype),
            w >= 1,
            elems@ =~= decode_elements(data@, dtype, n as nat).take(i as int),
        decreases n - i,
    {
        proof {
            lemma_slot_in_range(i as int, n as int, w as int);
        }
        let x = decode_element_exec(data, i * w, dtype);
        elems.push(x);
        i = i + 1;
        assert(elems@ =~= decode_elements(data@, dtype, n as nat).take(i as int));
    }
    assert(elems@ =~= decode_elements(data@, dtype, n as nat));
    Ok(Array::from_parts(shape, elems))
}

/// Reads a variable from its metadata text and its element bytes: the text
/// is read by `serde_json`, then as `netcdf_from_meta` does.
pub fn netcdf_from_parts(meta_text: &str, data: &[u8], var_name: &str, dtype: NpyDtype) -> (r:
    Result<Array<u64>>)
    ensures
        match netcdf_read_spec(
            netcdf_meta_of(meta_text@, name_key(), shape_key()),
            data@,
            var_name@,
            dtype,
        ) {
            Some((shape, elems)) => r matches Ok(a) && a@.shape == shape && a@.data == elems,
            None => r matches Err(e) && e is DeserializationError,
        },
{
    let meta = parse_netcdf_meta(meta_text, name_key_text(), shape_key_text());
    netcdf_from_meta(meta, data, var_name, dtype)
}

/// The element type's name written in the metadata (`f64`, `i32`, `bool`,
/// ...).
pub open spec fn netcdf_type_name(d: NpyDtype) -> Seq<char> {
    match d {
        NpyDtype::F4 => seq!['f', '3', '2'],
        NpyDtype::F8 => seq!['f', '6', '4'],
        NpyDtype::I1 => seq!['i', '8'],
        NpyDtype::I2 => seq!['i', '1', '6'],
        NpyDtype::I4 => seq!['i', '3', '2'],
        NpyDtype::I8 => seq!['i', '6', '4'],
        NpyDtype::U1 => seq!['u', '8'],
        NpyDtype::U2 => seq!['u', '1', '6'],
        NpyDtype::U4 => seq!['u', '3', '2'],
        NpyDtype::U8 => seq!['u', '6', '4'],
        NpyDtype::B1 => seq!['b', 'o', 'o', 'l'],
    }
}

/// The type name as ASCII bytes.
pub open spec fn name_bytes(name: Seq<char>) -> Seq<u8> {
    name.map_values(|c: char| c as u8)
}

/// The element type's name written in the metadata names the Rust type of
/// the dtype: it is the name that `dtype_for_type_name` maps back to the
/// same dtype, and, for a number type, the digits after its kind letter
/// give the width in bits, eight times the bytes each element takes.
pub proof fn law_netcdf_type_name(d: NpyDtype)
    ensures
        dtype_for_type_name(name_bytes(netcdf_type_name(d))) == Some(d),
        !(d is B1) ==> digits_value(name_bytes(netcdf_type_name(d)).skip(1)) == 8 * dtype_width(d),
        d is B1 <==> netcdf_type_name(d) == seq!['b', 'o', 'o', 'l'],
{
    let t = name_bytes(netcdf_type_name(d));
    assert(t =~= match d {
        NpyDtype::F4 => seq![102u8, 51u8, 50u8],
        NpyDtype::F8 => seq![102u8, 54u8, 52u8],
        NpyDtype::I1 => seq![105u8, 56u8],
        NpyDtype::I2 => seq![105u8, 49u8, 54u8],
        NpyDtype::I4 => seq![105u8, 51u8, 50u8],
        NpyDtype::I8 => seq![105u8, 54u8, 52u8],
        NpyDtype::U1 => seq![117u8, 56u8],
        NpyDtype::U2 => seq![117u8, 49u8, 54u8],
        NpyDtype::U4 => seq![117u8, 51u8, 50u8],
        NpyDtype::U8 => seq![117u8, 54u8, 52u8],
        NpyDtype::B1 => seq![98u8, 111u8, 111u8, 108u8],
    });
    let digits = t.skip(1);
    reveal_with_fuel(digits_value, 3);
    if !(d is B1) {
        if t.len() == 3 {
            assert(digits.drop_last() =~= seq![t[1]]);
            assert(digits.drop_last().drop_last() =~= Seq::<u8>::empty());
        } else {
            assert(digits.drop_last() =~= Seq::<u8>::empty());
        }
    }
}

/// The element type's name written in the metadata.
fn elem_name(d: NpyDtype) -> (r: &'static str)
    ensures
        r@ == netcdf_type_name(d),
{
    match d {
        NpyDtype::F4 => {
            proof {
                reveal_strlit("f32");
            }
            "f32"
        },
        NpyDtype::F8 => {
            proof {
                reveal_strlit("f64");
            }
            "f64"
        },
        NpyDtype::I1 => {
            proof {
                reveal_strlit("i8");
            }
            "i8"
        },
        NpyDtype::I2 => {
            proof {
                reveal_strlit("i16");
            }
            "i16"
        },
        NpyDtype::I4 => {
            proof {
                reveal_strlit("i32");
            }
            "i32"
        },
        NpyDtype::I8 => {
            proof {
                reveal_strlit("i64");
            }
            "i64"
        },
        NpyDtype::U1 => {
            proof {
                reveal_strlit("u8");
            }
            "u8"
        },
        NpyDtype::U2 => {
            proof {
                reveal_strlit("u16");
            }
            "u16"
        },
        NpyDtype::U4 => {
            proof {
                reveal_strlit("u32");
            }
            "u32"
        },
        NpyDtype::U8 => {
            proof {
                reveal_strlit("u64");
            }
            "u64"
        },
        NpyDtype::B1 => {
            proof {
                reveal_strlit("bool");
            }
            "bool"
        },
    }
}

/// The metadata text and the element bytes that store `array` as the
/// variable `var_name` with attributes `attrs`, elements of dtype `dtype`.
pub fn netcdf_parts(array: &Array<u64>, var_name: &str, attrs: &[(String, String)], dtype: NpyDtype) -> (r:
    (String, Vec<u8>))
    ensures
        r.0@ == netcdf_meta_text_of(
            name_key(),
            var_name@,
            shape_key(),
            array@.shape,
            type_key(),
            netcdf_type_name(dtype),
            attrs_key(),
            attrs_view(attrs@),
        ),
        netcdf_meta_of(r.0@, name_key(), shape_key()) == Some(
            (Some(var_name@), Some(Some(shape_numbers(array@.shape)))),
        ),
        r.1@ == encode_elements(array@.data, dtype),
{
    let shape = array.shape();
    proof {
        lemma_keys_distinct();
    }
    let meta = netcdf_meta_text(
        name_key_text(),
        var_name,
        shape_key_text(),
        shape.as_slice(),
        type_key_text(),
        elem_name(dtype),
        attrs_key_text(),
        attrs,
    );
    let data = array.to_vec();
    let mut bytes: Vec<u8> = Vec::new();
    push_elements(&mut bytes, data.as_slice(), dtype);
    assert(bytes@ =~= encode_elements(array@.data, dtype));
    (meta, bytes)
}

/// Reading back what `netcdf_parts` writes gives the array, when each
/// element fits the dtype.
pub proof fn law_netcdf_roundtrip(a: ArrayModel<u64>, var: Seq<char>, text: Seq<char>, d: NpyDtype)
    requires
        a.well_formed(),
        forall|i: int| 0 <= i < a.data.len() ==> fits_dtype(#[trigger] a.data[i], d),
        netcdf_meta_of(text, name_key(), shape_key()) == Some(
            (Some(var), Some(Some(shape_numbers(a.shape)))),
        ),
    ensures
        netcdf_read_spec(
            netcdf_meta_of(text, name_key(), shape_key()),
            encode_elements(a.data, d),
            var,
            d,
        ) == Some(
            (a.shape, a.data),
        ),
{
    let dims = shape_numbers(a.shape);
    assert(dims_fit(dims));
    assert(dims_shape(dims) =~= a.shape);
    lemma_encode_len(a.data, d);
    let e = encode_elements(a.data, d);
    let dec = decode_elements(e, d, a.data.len());
    assert forall|i: int| 0 <= i < a.data.len() implies #[trigger] dec[i] == a.data[i] by {
        lemma_encode_slot(a.data, d, i);
        lemma_decode_fit(a.data[i], d);
    }
    assert(dec =~= a.data);
}

} // verus!
