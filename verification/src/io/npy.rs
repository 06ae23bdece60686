//! The NumPy `.npy` format: header construction and parsing, and the
//! little-endian encoding of element values.

use vstd::prelude::*;
use crate::error::{NumRs2Error, Result, message};
use crate::shape::shape_size;
use byteorder::{ByteOrder, LittleEndian};

verus! {

/// Element types that the `.npy` format stores here, with their NumPy
/// type descriptors.
#[derive(Clone, Copy, Debug, PartialEq, Eq)]
pub enum NpyDtype {
    /// `<f4`: 32-bit float.
    F4,
    /// `<f8`: 64-bit float.
    F8,
    /// `<i1`: 8-bit signed integer.
    I1,
    /// `<i2`: 16-bit signed integer.
    I2,
    /// `<i4`: 32-bit signed integer.
    I4,
    /// `<i8`: 64-bit signed integer.
    I8,
    /// `<u1`: 8-bit unsigned integer.
    U1,
    /// `<u2`: 16-bit unsigned integer.
    U2,
    /// `<u4`: 32-bit unsigned integer.
    U4,
    /// `<u8`: 64-bit unsigned integer.
    U8,
    /// `|b1`: boolean stored in one byte.
    B1,
}

/// The type descriptor of a dtype, as ASCII bytes (`<f4`, `<i8`, `|b1`, ...).
pub open spec fn dtype_descr(d: NpyDtype) -> Seq<u8> {
    match d {
        NpyDtype::F4 => seq![60u8, 102u8, 52u8],
        NpyDtype::F8 => seq![60u8, 102u8, 56u8],
        NpyDtype::I1 => seq![60u8, 105u8, 49u8],
        NpyDtype::I2 => seq![60u8, 105u8, 50u8],
        NpyDtype::I4 => seq![60u8, 105u8, 52u8],
        NpyDtype::I8 => seq![60u8, 105u8, 56u8],
        NpyDtype::U1 => seq![60u8, 117u8, 49u8],
        NpyDtype::U2 => seq![60u8, 117u8, 50u8],
        NpyDtype::U4 => seq![60u8, 117u8, 52u8],
        NpyDtype::U8 => seq![60u8, 117u8, 56u8],
        NpyDtype::B1 => seq![124u8, 98u8, 49u8],
    }
}

/// Number of bytes of one element of the dtype.
pub open spec fn dtype_width(d: NpyDtype) -> nat {
    match d {
        NpyDtype::F4 => 4,
        NpyDtype::F8 => 8,
        NpyDtype::I1 => 1,
        NpyDtype::I2 => 2,
        NpyDtype::I4 => 4,
        NpyDtype::I8 => 8,
        NpyDtype::U1 => 1,
        NpyDtype::U2 => 2,
        NpyDtype::U4 => 4,
        NpyDtype::U8 => 8,
        NpyDtype::B1 => 1,
    }
}

/// The dtype of a Rust element type, given the type's name as ASCII bytes
/// (`f32`, `f64`, `i8` ... `u64`, `bool`); `None` for any other type.
pub open spec fn dtype_for_type_name(name: Seq<u8>) -> Option<NpyDtype> {
    if name == seq![102u8, 51u8, 50u8] {
        Some(NpyDtype::F4)
    } else if name == seq![102u8, 54u8, 52u8] {
        Some(NpyDtype::F8)
    } else if name == seq![105u8, 56u8] {
        Some(NpyDtype::I1)
    } else if name == seq![105u8, 49u8, 54u8] {
        Some(NpyDtype::I2)
    } else if name == seq![105u8, 51u8, 50u8] {
        Some(NpyDtype::I4)
    } else if name == seq![105u8, 54u8, 52u8] {
        Some(NpyDtype::I8)
    } else if name == seq![117u8, 56u8] {
        Some(NpyDtype::U1)
    } else if name == seq![117u8, 49u8, 54u8] {
        Some(NpyDtype::U2)
    } else if name == seq![117u8, 51u8, 50u8] {
        Some(NpyDtype::U4)
    } else if name == seq![117u8, 54u8, 52u8] {
        Some(NpyDtype::U8)
    } else if name == seq![98u8, 111u8, 111u8, 108u8] {
        Some(NpyDtype::B1)
    } else {
        None
    }
}

/// Appends the bytes of `b` to `v`.
pub(crate) fn push_bytes(v: &mut Vec<u8>, b: &[u8])
    ensures
        final(v)@ == old(v)@ + b@,
{
    let mut i: usize = 0;
    while i < b.len()
        invariant
            i <= b@.len(),
            v@ == old(v)@ + b@.take(i as int),
        decreases b@.len() - i,
    {
        v.push(b[i]);
        i = i + 1;
        assert(v@ =~= old(v)@ + b@.take(i as int));
    }
    assert(b@.take(b@.len() as int) =~= b@);
}

fn bytes_eq(a: &[u8], b: &[u8]) -> (r: bool)
    ensures
        r == (a@ == b@),
{
    if a.len() != b.len() {
        return false;
    }
    let mut i: usize = 0;
    while i < a.len()
        invariant
            a@.len() == b@.len(),
            i <= a.len(),
            forall|j: int| 0 <= j < i ==> a@[j] == b@[j],
        decreases a.len() - i,
    {
        if a[i] != b[i] {
            return false;
        }
        i = i + 1;
    }
    assert(a@ =~= b@);
    true
}

/// The type descriptor of a dtype.
pub fn descr_bytes(d: NpyDtype) -> (r: Vec<u8>)
    ensures
        r@ == dtype_descr(d),
{
    let b: [u8; 3] = match d {
        NpyDtype::F4 => [60u8, 102u8, 52u8],
        NpyDtype::F8 => [60u8, 102u8, 56u8],
        NpyDtype::I1 => [60u8, 105u8, 49u8],
        NpyDtype::I2 => [60u8, 105u8, 50u8],
        NpyDtype::I4 => [60u8, 105u8, 52u8],
        NpyDtype::I8 => [60u8, 105u8, 56u8],
        NpyDtype::U1 => [60u8, 117u8, 49u8],
        NpyDtype::U2 => [60u8, 117u8, 50u8],
        NpyDtype::U4 => [60u8, 117u8, 52u8],
        NpyDtype::U8 => [60u8, 117u8, 56u8],
        NpyDtype::B1 => [124u8, 98u8, 49u8],
    };
    let mut v: Vec<u8> = Vec::new();
    push_bytes(&mut v, b.as_slice());
    assert(v@ =~= dtype_descr(d));
    v
}

/// The dtype named by a Rust type name.
pub fn dtype_from_type_name(name: &[u8]) -> (r: Option<NpyDtype>)
    ensures
        r == dtype_for_type_name(name@),
{
    let f32n: [u8; 3] = [102u8, 51u8, 50u8];
    let f64n: [u8; 3] = [102u8, 54u8, 52u8];
    let i8n: [u8; 2] = [105u8, 56u8];
    let i16n: [u8; 3] = [105u8, 49u8, 54u8];
    let i32n: [u8; 3] = [105u8, 51u8, 50u8];
    let i64n: [u8; 3] = [105u8, 54u8, 52u8];
    let u8n: [u8; 2] = [117u8, 56u8];
    let u16n: [u8; 3] = [117u8, 49u8, 54u8];
    let u32n: [u8; 3] = [117u8, 51u8, 50u8];
    let u64n: [u8; 3] = [117u8, 54u8, 52u8];
    let booln: [u8; 4] = [98u8, 111u8, 111u8, 108u8];
    assert(f32n@ =~= seq![102u8, 51u8, 50u8]);
    assert(f64n@ =~= seq![102u8, 54u8, 52u8]);
    assert(i8n@ =~= seq![105u8, 56u8]);
    assert(i16n@ =~= seq![105u8, 49u8, 54u8]);
    assert(i32n@ =~= seq![105u8, 51u8, 50u8]);
    assert(i64n@ =~= seq![105u8, 54u8, 52u8]);
    assert(u8n@ =~= seq![117u8, 56u8]);
    assert(u16n@ =~= seq![117u8, 49u8, 54u8]);
    assert(u32n@ =~= seq![117u8, 51u8, 50u8]);
    assert(u64n@ =~= seq![117u8, 54u8, 52u8]);
    assert(booln@ =~= seq![98u8, 111u8, 111u8, 108u8]);
    if bytes_eq(name, f32n.as_slice()) {
        Some(NpyDtype::F4)
    } else if bytes_eq(name, f64n.as_slice()) {
        Some(NpyDtype::F8)
    } else if bytes_eq(name, i8n.as_slice()) {
        Some(NpyDtype::I1)
    } else if bytes_eq(name, i16n.as_slice()) {
        Some(NpyDtype::I2)
    } else if bytes_eq(name, i32n.as_slice()) {
        Some(NpyDtype::I4)
    } else if bytes_eq(name, i64n.as_slice()) {
        Some(NpyDtype::I8)
    } else if bytes_eq(name, u8n.as_slice()) {
        Some(NpyDtype::U1)
    } else if bytes_eq(name, u16n.as_slice()) {
        Some(NpyDtype::U2)
    } else if bytes_eq(name, u32n.as_slice()) {
        Some(NpyDtype::U4)
    } else if bytes_eq(name, u64n.as_slice()) {
        Some(NpyDtype::U8)
    } else if bytes_eq(name, booln.as_slice()) {
        Some(NpyDtype::B1)
    } else {
        None
    }
}

/// `unknown`, as ASCII bytes.
pub open spec fn unknown_descr() -> Seq<u8> {
    seq![117u8, 110u8, 107u8, 110u8, 111u8, 119u8, 110u8]
}

/// The NumPy type descriptor for a Rust element type, given the type's name
/// as ASCII bytes: the descriptor of its dtype, or `unknown` for a type
/// without one (such as `usize`).
pub open spec fn numpy_descr_for(name: Seq<u8>) -> Seq<u8> {
    match dtype_for_type_name(name) {
        Some(d) => dtype_descr(d),
        None => unknown_descr(),
    }
}

/// The NumPy type descriptor for the Rust element type named `name`
/// (`<f4`, `<f8`, `<i4`, `<u1`, `|b1`, ...), or `unknown`.
pub fn get_numpy_dtype(name: &[u8]) -> (r: Vec<u8>)
    ensures
        r@ == numpy_descr_for(name@),
{
    match dtype_from_type_name(name) {
        Some(d) => descr_bytes(d),
        None => {
            let u: [u8; 7] = [117u8, 110u8, 107u8, 110u8, 111u8, 119u8, 110u8];
            let mut v: Vec<u8> = Vec::new();
            push_bytes(&mut v, u.as_slice());
            assert(v@ =~= unknown_descr());
            v
        },
    }
}

// ----------------------------------------------------------------------
// Header text
// ----------------------------------------------------------------------

/// Decimal digits of `n`, most significant first, as ASCII bytes.
pub open spec fn decimal(n: nat) -> Seq<u8>
    decreases n,
{
    if n < 10 {
        seq![(48 + n) as u8]
    } else {
        decimal(n / 10).push((48 + n % 10) as u8)
    }
}

/// The dimensions of a shape separated by `, ` (no trailing separator).
pub open spec fn join_dims(s: Seq<usize>) -> Seq<u8>
    decreases s.len(),
{
    if s.len() == 0 {
        seq![]
    } else if s.len() == 1 {
        decimal(s[0] as nat)
    } else {
        join_dims(s.drop_last()) + seq![44u8, 32u8] + decimal(s.last() as nat)
    }
}

/// The shape as written inside the parentheses of a Python tuple: a
/// one-element tuple carries a trailing comma.
pub open spec fn tuple_text(s: Seq<usize>) -> Seq<u8> {
    if s.len() == 1 {
        decimal(s[0] as nat).push(44u8)
    } else {
        join_dims(s)
    }
}

/// `{'descr': '`
pub open spec fn dict_open() -> Seq<u8> {
    seq![123u8, 39u8, 100u8, 101u8, 115u8, 99u8, 114u8, 39u8, 58u8, 32u8, 39u8]
}

/// `', 'fortran_order': False, 'shape': (`
pub open spec fn dict_middle() -> Seq<u8> {
    seq![
        39u8, 44u8, 32u8, 39u8, 102u8, 111u8, 114u8, 116u8, 114u8, 97u8, 110u8, 95u8, 111u8,
        114u8, 100u8, 101u8, 114u8, 39u8, 58u8, 32u8, 70u8, 97u8, 108u8, 115u8, 101u8, 44u8,
        32u8, 39u8, 115u8, 104u8, 97u8, 112u8, 101u8, 39u8, 58u8, 32u8, 40u8,
    ]
}

/// `), }`
pub open spec fn dict_close() -> Seq<u8> {
    seq![41u8, 44u8, 32u8, 125u8]
}

/// The header dictionary before padding.
pub open spec fn dict_text(s: Seq<usize>, d: NpyDtype) -> Seq<u8> {
    dict_open() + dtype_descr(d) + dict_middle() + tuple_text(s) + dict_close()
}

/// Number of spaces that pad a dictionary of `len` bytes so that the ten
/// bytes before it and the dictionary fill a multiple of sixteen bytes
/// (sixteen spaces when they already do).
pub open spec fn padding(len: nat) -> nat {
    (16 - ((len + 10) % 16)) as nat
}

/// The padded header dictionary.
pub open spec fn padded_dict(s: Seq<usize>, d: NpyDtype) -> Seq<u8> {
    let t = dict_text(s, d);
    t + Seq::new(padding(t.len()), |i: int| 32u8)
}

/// The `.npy` magic string: `\x93NUMPY`.
pub open spec fn npy_magic() -> Seq<u8> {
    seq![0x93u8, 78u8, 85u8, 77u8, 80u8, 89u8]
}

/// Little-endian bytes of the low `w` bytes of `v`.
pub open spec fn le_bytes(v: nat, w: nat) -> Seq<u8>
    decreases w,
{
    if w == 0 {
        seq![]
    } else {
        seq![(v % 256) as u8] + le_bytes(v / 256, (w - 1) as nat)
    }
}

/// The value of little-endian bytes.
pub open spec fn le_value(b: Seq<u8>) -> nat
    decreases b.len(),
{
    if b.len() == 0 {
        0
    } else {
        b[0] as nat + 256 * le_value(b.skip(1))
    }
}

/// The complete `.npy` header for shape `s` and dtype `d`: magic, version
/// 1.0, the dictionary length as a little-endian `u16` (taken modulo
/// 65536), and the padded dictionary.
pub open spec fn npy_header(s: Seq<usize>, d: NpyDtype) -> Seq<u8> {
    let dict = padded_dict(s, d);
    npy_magic() + seq![1u8, 0u8] + le_bytes(dict.len() % 65536, 2) + dict
}

/// `LittleEndian::write_u16` of the `byteorder` crate: writes `n` into the
/// first two bytes of a buffer, least significant byte first. Claimed: the
/// two bytes returned are `n % 256` and `n / 256`.
#[verifier::external_body]
fn le_u16_bytes(n: u16) -> (r: [u8; 2])
    ensures
        r@ == le_bytes(n as nat, 2),
{
    let mut b = [0u8; 2];
    LittleEndian::write_u16(&mut b, n);
    b
}

/// `LittleEndian::read_u16` of the `byteorder` crate: reads the first two
/// bytes of a buffer, least significant byte first. Claimed: the value is
/// `b[0] + 256 * b[1]`; the buffer must hold two bytes (the crate panics
/// otherwise).
#[verifier::external_body]
fn le_read_u16(b: &[u8]) -> (r: u16)
    requires
        b@.len() >= 2,
    ensures
        r as nat == le_value(b@.subrange(0, 2)),
{
    LittleEndian::read_u16(b)
}

/// Appends the decimal digits of `n`.
fn push_decimal(v: &mut Vec<u8>, n: usize)
    ensures
        final(v)@ == old(v)@ + decimal(n as nat),
    decreases n,
{
    if n < 10 {
        v.push((48 + n) as u8);
        assert(decimal(n as nat) =~= seq![(48 + n) as u8]);
    } else {
        push_decimal(v, n / 10);
        v.push((48 + n % 10) as u8);
        assert(decimal(n as nat) =~= decimal((n / 10) as nat).push((48 + n % 10) as u8));
    }
}

/// The padded header dictionary for a shape and dtype.
pub fn npy_dict(shape: &[usize], dtype: NpyDtype) -> (r: Vec<u8>)
    ensures
        r@ == padded_dict(shape@, dtype),
{
    let open: [u8; 11] = [123u8, 39u8, 100u8, 101u8, 115u8, 99u8, 114u8, 39u8, 58u8, 32u8, 39u8];
    let middle: [u8; 37] = [
        39u8, 44u8, 32u8, 39u8, 102u8, 111u8, 114u8, 116u8, 114u8, 97u8, 110u8, 95u8, 111u8,
        114u8, 100u8, 101u8, 114u8, 39u8, 58u8, 32u8, 70u8, 97u8, 108u8, 115u8, 101u8, 44u8,
        32u8, 39u8, 115u8, 104u8, 97u8, 112u8, 101u8, 39u8, 58u8, 32u8, 40u8,
    ];
    let close: [u8; 4] = [41u8, 44u8, 32u8, 125u8];
    assert(open@ =~= dict_open());
    assert(middle@ =~= dict_middle());
    assert(close@ =~= dict_close());
    let mut v: Vec<u8> = Vec::new();
    push_bytes(&mut v, open.as_slice());
    let descr = descr_bytes(dtype);
    push_bytes(&mut v, descr.as_slice());
    push_bytes(&mut v, middle.as_slice());
    let ghost before_dims = v@;
    let n = shape.len();
    let mut i: usize = 0;
    while i < n
        invariant
            i <= n,
            n == shape@.len(),
            v@ == before_dims + join_dims(shape@.take(i as int)),
        decreases n - i,
    {
        let ghost t = shape@.take(i + 1);
        assert(t.drop_last() =~= shape@.take(i as int));
        if i > 0 {
            v.push(44u8);
            v.push(32u8);
        }
        push_decimal(&mut v, shape[i]);
        proof {
            if i == 0 {
                assert(shape@.take(0) =~= Seq::<usize>::empty());
                assert(join_dims(t) == decimal(shape@[0] as nat));
            }
        }
        assert(v@ =~= before_dims + join_dims(t));
        i = i + 1;
    }
    assert(shape@.take(n as int) =~= shape@);
    if n == 1 {
        v.push(44u8);
        assert(join_dims(shape@) == decimal(shape@[0] as nat));
    }
    assert(v@ =~= dict_open() + dtype_descr(dtype) + dict_middle() + tuple_text(shape@));
    push_bytes(&mut v, close.as_slice());
    let ghost t = v@;
    assert(t =~= dict_text(shape@, dtype));
    let pad = 16 - ((v.len() % 16 + 10) % 16);
    assert(pad == padding(t.len())) by {
        assert((t.len() % 16 + 10) % 16 == (t.len() + 10) % 16) by (nonlinear_arith);
    }
    let mut k: usize = 0;
    while k < pad
        invariant
            k <= pad,
            v@ == t + Seq::new(k as nat, |i: int| 32u8),
        decreases pad - k,
    {
        v.push(32u8);
        k = k + 1;
        assert(v@ =~= t + Seq::new(k as nat, |i: int| 32u8));
    }
    v
}

/// Builds the `.npy` header for a shape and dtype.
pub fn npy_header_bytes(shape: &[usize], dtype: NpyDtype) -> (r: Vec<u8>)
    ensures
        r@ == npy_header(shape@, dtype),
{
    let dict = npy_dict(shape, dtype);
    let len16 = (dict.len() % 65536) as u16;
    let lb = le_u16_bytes(len16);
    let mut h: Vec<u8> = Vec::new();
    let magic: [u8; 6] = [0x93u8, 78u8, 85u8, 77u8, 80u8, 89u8];
    assert(magic@ =~= npy_magic());
    push_bytes(&mut h, magic.as_slice());
    h.push(1u8);
    h.push(0u8);
    push_bytes(&mut h, lb.as_slice());
    push_bytes(&mut h, dict.as_slice());
    assert(h@ =~= npy_header(shape@, dtype));
    h
}

/// Builds the `.npy` header for arrays of the given dtype and shape.
pub fn construct_npy_header(shape: &[usize], dtype: NpyDtype) -> (r: Result<Vec<u8>>)
    ensures
        r matches Ok(h) && h@ == npy_header(shape@, dtype),
{
    Ok(npy_header_bytes(shape, dtype))
}


// ----------------------------------------------------------------------
// Header parsing
// ----------------------------------------------------------------------

/// First position at or after `i` where `pat` occurs in `h`.
pub open spec fn find_from(h: Seq<u8>, pat: Seq<u8>, i: int) -> Option<int>
    decreases h.len() - i,
{
    if i < 0 || i + pat.len() > h.len() {
        None
    } else if h.subrange(i, i + pat.len() as int) == pat {
        Some(i)
    } else if i >= h.len() {
        None
    } else {
        find_from(h, pat, i + 1)
    }
}

/// First position where `pat` occurs in `h`.
pub open spec fn find_first(h: Seq<u8>, pat: Seq<u8>) -> Option<int> {
    find_from(h, pat, 0)
}

/// Length of the UTF-8 encoded whitespace character (in the sense of
/// `char::is_whitespace`) that starts `s`, or zero.
pub open spec fn ws_prefix(s: Seq<u8>) -> nat {
    if s.len() >= 1 && (s[0] == 32u8 || (9u8 <= s[0] && s[0] <= 13u8)) {
        1
    } else if s.len() >= 2 && s[0] == 0xC2u8 && (s[1] == 0x85u8 || s[1] == 0xA0u8) {
        2
    } else if s.len() >= 3 && ((s[0] == 0xE1u8 && s[1] == 0x9Au8 && s[2] == 0x80u8) || (s[0] == 0xE2u8
        && s[1] == 0x80u8 && ((0x80u8 <= s[2] && s[2] <= 0x8Au8) || s[2] == 0xA8u8 || s[2] == 0xA9u8
        || s[2] == 0xAFu8)) || (s[0] == 0xE2u8 && s[1] == 0x81u8 && s[2] == 0x9Fu8) || (s[0]
        == 0xE3u8 && s[1] == 0x80u8 && s[2] == 0x80u8)) {
        3
    } else {
        0
    }
}

/// Length of the UTF-8 encoded whitespace character that ends `s`, or zero.
pub open spec fn ws_suffix(s: Seq<u8>) -> nat {
    let n = s.len() as int;
    if n >= 1 && ws_prefix(s.subrange(n - 1, n)) == 1 {
        1
    } else if n >= 2 && ws_prefix(s.subrange(n - 2, n)) == 2 {
        2
    } else if n >= 3 && ws_prefix(s.subrange(n - 3, n)) == 3 {
        3
    } else {
        0
    }
}

/// `s` without leading whitespace.
pub open spec fn trim_start(s: Seq<u8>) -> Seq<u8>
    decreases s.len(),
{
    let k = ws_prefix(s);
    if k == 0 || k > s.len() {
        s
    } else {
        trim_start(s.skip(k as int))
    }
}

/// `s` without trailing whitespace.
pub open spec fn trim_end(s: Seq<u8>) -> Seq<u8>
    decreases s.len(),
{
    let k = ws_suffix(s);
    if k == 0 || k > s.len() {
        s
    } else {
        trim_end(s.take(s.len() - k))
    }
}

/// `s` without leading and trailing whitespace.
pub open spec fn trim(s: Seq<u8>) -> Seq<u8> {
    trim_end(trim_start(s))
}

/// Pieces of `s` between commas.
pub open spec fn split_commas(s: Seq<u8>) -> Seq<Seq<u8>>
    decreases s.len(),
{
    match find_first(s, seq![44u8]) {
        None => seq![s],
        Some(c) => if 0 <= c < s.len() {
            seq![s.take(c)] + split_commas(s.skip(c + 1))
        } else {
            seq![s]
        },
    }
}

/// All bytes are ASCII digits.
pub open spec fn all_digits(t: Seq<u8>) -> bool {
    forall|i: int| 0 <= i < t.len() ==> 48u8 <= #[trigger] t[i] && t[i] <= 57u8
}

/// The number written by ASCII decimal digits.
pub open spec fn digits_value(t: Seq<u8>) -> nat
    decreases t.len(),
{
    if t.len() == 0 {
        0
    } else {
        digits_value(t.drop_last()) * 10 + (t.last() - 48) as nat
    }
}

/// `usize::from_str` on ASCII text: an optional `+` and at least one decimal
/// digit, whose value must fit a `usize`.
pub open spec fn parse_usize(s: Seq<u8>) -> Option<usize> {
    let t = if s.len() > 0 && s[0] == 43u8 { s.skip(1) } else { s };
    if t.len() > 0 && all_digits(t) && digits_value(t) <= usize::MAX {
        Some(digits_value(t) as usize)
    } else {
        None
    }
}

/// Dimensions read from the pieces of a shape tuple: each piece is trimmed,
/// empty pieces are skipped, every other piece must be a `usize`.
pub open spec fn parse_dims(pieces: Seq<Seq<u8>>) -> Option<Seq<usize>>
    decreases pieces.len(),
{
    if pieces.len() == 0 {
        Some(seq![])
    } else {
        match parse_dims(pieces.drop_last()) {
            None => None,
            Some(front) => {
                let t = trim(pieces.last());
                if t.len() == 0 {
                    Some(front)
                } else {
                    match parse_usize(t) {
                        None => None,
                        Some(d) => Some(front.push(d)),
                    }
                }
            },
        }
    }
}

/// `'descr': '`
pub open spec fn descr_key() -> Seq<u8> {
    seq![39u8, 100u8, 101u8, 115u8, 99u8, 114u8, 39u8, 58u8, 32u8, 39u8]
}

/// `'shape': (`
pub open spec fn shape_key() -> Seq<u8> {
    seq![39u8, 115u8, 104u8, 97u8, 112u8, 101u8, 39u8, 58u8, 32u8, 40u8]
}

/// Shape and type descriptor read from a header dictionary, or `None`.
pub open spec fn parse_dict(dict: Seq<u8>) -> Option<(Seq<usize>, Seq<u8>)> {
    if !vstd::utf8::valid_utf8(dict) {
        None
    } else {
        match find_first(dict, descr_key()) {
            None => None,
            Some(a) => {
                let ds = a + 10;
                match find_first(dict.skip(ds), seq![39u8]) {
                    None => None,
                    Some(e) => {
                        let dtype = dict.subrange(ds, ds + e);
                        match find_first(dict, shape_key()) {
                            None => None,
                            Some(b) => {
                                let ss = b + 10;
                                match find_first(dict.skip(ss), seq![41u8]) {
                                    None => None,
                                    Some(f) => {
                                        let shape_text = trim(dict.subrange(ss, ss + f));
                                        if shape_text.len() == 0 {
                                            Some((seq![], dtype))
                                        } else {
                                            match parse_dims(split_commas(shape_text)) {
                                                None => None,
                                                Some(dims) => Some((dims, dtype)),
                                            }
                                        }
                                    },
                                }
                            },
                        }
                    },
                }
            },
        }
    }
}

/// The header is too short to hold its length field although its magic
/// string and version are right (reading the length then fails).
pub open spec fn header_truncated_in_length(h: Seq<u8>) -> bool {
    &&& 8 <= h.len() < 10
    &&& h.subrange(0, 6) == npy_magic()
    &&& h[6] == 1u8
    &&& h[7] == 0u8
}

/// Shape and type descriptor read from a `.npy` header, or `None` when the
/// header is malformed: wrong magic string, version other than 1.0,
/// shorter than its declared length, dictionary not UTF-8, or the keys
/// `'descr'` or `'shape'` missing or malformed.
pub open spec fn parse_header(h: Seq<u8>) -> Option<(Seq<usize>, Seq<u8>)> {
    if h.len() < 8 || h.subrange(0, 6) != npy_magic() {
        None
    } else if h[6] != 1u8 || h[7] != 0u8 {
        None
    } else {
        let hl = le_value(h.subrange(8, 10));
        if h.len() < 10 + hl {
            None
        } else {
            parse_dict(h.subrange(10, 10 + hl as int))
        }
    }
}

/// `std::str::from_utf8`: checks that bytes are UTF-8. Claimed, as its
/// documentation states: the call succeeds exactly on valid UTF-8.
#[verifier::external_body]
fn is_valid_utf8(b: &[u8]) -> (r: bool)
    ensures
        r == vstd::utf8::valid_utf8(b@),
{
    std::str::from_utf8(b).is_ok()
}

/// First position at or after `start` where `pat` occurs in `h`.
pub fn find_from_exec(h: &[u8], pat: &[u8], start: usize) -> (r: Option<usize>)
    requires
        start <= h@.len(),
    ensures
        match find_from(h@, pat@, start as int) {
            Some(i) => r == Some(i as usize),
            None => r is None,
        },
{
    if pat.len() == 0 {
        assert(h@.subrange(start as int, start as int) =~= pat@);
        return Some(start);
    }
    let mut i: usize = start;
    while pat.len() <= h.len() - i
        invariant
            start <= i <= h@.len(),
            pat@.len() > 0,
            find_from(h@, pat@, start as int) == find_from(h@, pat@, i as int),
        decreases h@.len() - i,
    {
        let window = vstd::slice::slice_subrange(h, i, i + pat.len());
        if bytes_eq(window, pat) {
            return Some(i);
        }
        i = i + 1;
    }
    None
}

fn ws_prefix_exec(s: &[u8], i: usize, j: usize) -> (k: usize)
    requires
        i <= j <= s@.len(),
    ensures
        k == ws_prefix(s@.subrange(i as int, j as int)),
{
    let n = j - i;
    let ghost t = s@.subrange(i as int, j as int);
    if n >= 1 && (s[i] == 32u8 || (9u8 <= s[i] && s[i] <= 13u8)) {
        1
    } else if n >= 2 && s[i] == 0xC2u8 && (s[i + 1] == 0x85u8 || s[i + 1] == 0xA0u8) {
        2
    } else if n >= 3 && ((s[i] == 0xE1u8 && s[i + 1] == 0x9Au8 && s[i + 2] == 0x80u8) || (s[i] == 0xE2u8
        && s[i + 1] == 0x80u8 && ((0x80u8 <= s[i + 2] && s[i + 2] <= 0x8Au8) || s[i + 2] == 0xA8u8
        || s[i + 2] == 0xA9u8 || s[i + 2] == 0xAFu8)) || (s[i] == 0xE2u8 && s[i + 1] == 0x81u8 && s[i
        + 2] == 0x9Fu8) || (s[i] == 0xE3u8 && s[i + 1] == 0x80u8 && s[i + 2] == 0x80u8)) {
        3
    } else {
        0
    }
}

/// Bounds of `trim(s[i..j])` inside `s`.
fn trim_exec(s: &[u8], i: usize, j: usize) -> (r: (usize, usize))
    requires
        i <= j <= s@.len(),
    ensures
        i <= r.0 <= r.1 <= j,
        s@.subrange(r.0 as int, r.1 as int) == trim(s@.subrange(i as int, j as int)),
{
    let mut a = i;
    loop
        invariant
            i <= a <= j,
            j <= s@.len(),
            trim_start(s@.subrange(i as int, j as int)) == trim_start(s@.subrange(a as int, j as int)),
        ensures
            i <= a <= j,
            trim_start(s@.subrange(i as int, j as int)) == s@.subrange(a as int, j as int),
        decreases j - a,
    {
        if a == j {
            assert(ws_prefix(s@.subrange(a as int, j as int)) == 0);
            break;
        }
        let k = ws_prefix_exec(s, a, j);
        if k == 0 || k > j - a {
            break;
        }
        assert(s@.subrange(a as int, j as int).skip(k as int) =~= s@.subrange(a + k, j as int));
        a = a + k;
    }
    let mut b = j;
    loop
        invariant
            a <= b <= j,
            j <= s@.len(),
            trim_end(s@.subrange(a as int, j as int)) == trim_end(s@.subrange(a as int, b as int)),
        ensures
            a <= b <= j,
            trim_end(s@.subrange(a as int, j as int)) == s@.subrange(a as int, b as int),
        decreases b - a,
    {
        let n = b - a;
        let ghost t = s@.subrange(a as int, b as int);
        if n == 0 {
            assert(ws_suffix(t) == 0);
            break;
        }
        let k: usize = if n >= 1 && ws_prefix_exec(s, b - 1, b) == 1 {
            1
        } else if n >= 2 && ws_prefix_exec(s, b - 2, b) == 2 {
            2
        } else if n >= 3 && ws_prefix_exec(s, b - 3, b) == 3 {
            3
        } else {
            0
        };
        proof {
            if n >= 1 {
                assert(t.subrange(n - 1, n as int) =~= s@.subrange(b - 1, b as int));
            }
            if n >= 2 {
                assert(t.subrange(n - 2, n as int) =~= s@.subrange(b - 2, b as int));
            }
            if n >= 3 {
                assert(t.subrange(n - 3, n as int) =~= s@.subrange(b - 3, b as int));
            }
        }
        assert(k == ws_suffix(t));
        if k == 0 {
            break;
        }
        assert(t.take(t.len() - k) =~= s@.subrange(a as int, b - k));
        b = b - k;
    }
    (a, b)
}

/// The value of ASCII digits, or `None` when it does not fit a `usize`.
fn digits_value_exec(s: &[u8], i: usize, j: usize) -> (r: Option<usize>)
    requires
        i <= j <= s@.len(),
        all_digits(s@.subrange(i as int, j as int)),
    ensures
        match r {
            Some(v) => v == digits_value(s@.subrange(i as int, j as int)),
            None => digits_value(s@.subrange(i as int, j as int)) > usize::MAX,
        },
{
    let mut v: usize = 0;
    let mut k = i;
    while k < j
        invariant
            i <= k <= j,
            j <= s@.len(),
            all_digits(s@.subrange(i as int, j as int)),
            v == digits_value(s@.subrange(i as int, k as int)),
        decreases j - k,
    {
        let ghost t = s@.subrange(i as int, k + 1);
        assert(t.drop_last() =~= s@.subrange(i as int, k as int));
        assert(s@.subrange(i as int, j as int)[k - i] == s@[k as int]);
        let d = (s[k] - 48u8) as usize;
        match v.checked_mul(10) {
            None => {
                proof {
                    lemma_digits_value_prefix_grows(s@.subrange(i as int, j as int), (k + 1 - i) as int);
                    assert(s@.subrange(i as int, j as int).take((k + 1 - i) as int) =~= t);
                }
                return None;
            },
            Some(m) => match m.checked_add(d) {
                None => {
                    proof {
                        lemma_digits_value_prefix_grows(s@.subrange(i as int, j as int), (k + 1 - i) as int);
                        assert(s@.subrange(i as int, j as int).take((k + 1 - i) as int) =~= t);
                    }
                    return None;
                },
                Some(w) => {
                    v = w;
                },
            },
        }
        k = k + 1;
    }
    Some(v)
}

/// The value of a digit prefix is at most the value of the whole.
proof fn lemma_digits_value_prefix_grows(t: Seq<u8>, k: int)
    requires
        0 <= k <= t.len(),
        all_digits(t),
    ensures
        digits_value(t.take(k)) <= digits_value(t),
    decreases t.len() - k,
{
    if k < t.len() {
        lemma_digits_value_prefix_grows(t, k + 1);
        let u = t.take(k + 1);
        assert(u.drop_last() =~= t.take(k));
        assert(u.last() == t[k]);
        assert(48u8 <= t[k]);
    } else {
        assert(t.take(k) =~= t);
    }
}

/// `usize::from_str` on `s[i..j]`.
fn parse_usize_exec(s: &[u8], i: usize, j: usize) -> (r: Option<usize>)
    requires
        i <= j <= s@.len(),
    ensures
        r == parse_usize(s@.subrange(i as int, j as int)),
{
    let ghost u = s@.subrange(i as int, j as int);
    let a = if i < j && s[i] == 43u8 {
        i + 1
    } else {
        i
    };
    let ghost t = s@.subrange(a as int, j as int);
    assert(t =~= if u.len() > 0 && u[0] == 43u8 { u.skip(1) } else { u });
    if a >= j {
        return None;
    }
    let mut k = a;
    while k < j
        invariant
            a <= k <= j,
            j <= s@.len(),
            t == s@.subrange(a as int, j as int),
            u == s@.subrange(i as int, j as int),
            t == if u.len() > 0 && u[0] == 43u8 { u.skip(1) } else { u },
            forall|q: int| a <= q < k ==> 48u8 <= #[trigger] s@[q] && s@[q] <= 57u8,
        decreases j - k,
    {
        if s[k] < 48u8 || s[k] > 57u8 {
            assert(!all_digits(t)) by {
                assert(t[k - a] == s@[k as int]);
            }
            return None;
        }
        k = k + 1;
    }
    assert(all_digits(t)) by {
        assert forall|q: int| 0 <= q < t.len() implies 48u8 <= #[trigger] t[q] && t[q] <= 57u8 by {
            assert(t[q] == s@[a + q]);
        }
    }
    digits_value_exec(s, a, j)
}

/// Dimensions read from the comma separated text `s[i..j]` (not itself
/// empty), or `None` when a piece is not a `usize`.
fn parse_dims_exec(s: &[u8], i: usize, j: usize) -> (r: Option<Vec<usize>>)
    requires
        i <= j <= s@.len(),
    ensures
        match parse_dims(split_commas(s@.subrange(i as int, j as int))) {
            Some(d) => r matches Some(v) && v@ == d,
            None => r is None,
        },
{
    let comma: [u8; 1] = [44u8];
    assert(comma@ =~= seq![44u8]);
    let mut dims: Vec<usize> = Vec::new();
    let mut start = i;
    let ghost mut done: Seq<Seq<u8>> = Seq::empty();
    loop
        invariant
            i <= start <= j,
            j <= s@.len(),
            comma@ == seq![44u8],
            split_commas(s@.subrange(i as int, j as int)) == done + split_commas(s@.subrange(start as int, j as int)),
            parse_dims(done) == Some(dims@),
        decreases j - start,
    {
        let ghost rest = s@.subrange(start as int, j as int);
        let region = vstd::slice::slice_subrange(s, start, j);
        let c = find_from_exec(region, comma.as_slice(), 0);
        proof {
            assert(region@ == rest);
            lemma_find_from_in_range(rest, seq![44u8], 0);
        }
        let end = match c {
            Some(c) => start + c,
            None => j,
        };
        let (a, b) = trim_exec(s, start, end);
        let ghost piece = s@.subrange(start as int, end as int);
        let ghost old_done = done;
        proof {
            done = done.push(piece);
            assert(done.drop_last() =~= old_done);
        }
        if a < b {
            match parse_usize_exec(s, a, b) {
                None => {
                    proof {
                        assert(parse_dims(done) is None);
                        match c {
                            Some(_) => {
                                assert(rest.take(end - start) =~= piece);
                                assert(rest.skip(end - start + 1) =~= s@.subrange(end + 1, j as int));
                                assert(split_commas(rest) =~= seq![piece] + split_commas(
                                    s@.subrange(end + 1, j as int),
                                ));
                                assert(old_done + split_commas(rest) =~= done + split_commas(
                                    s@.subrange(end + 1, j as int),
                                ));
                                lemma_parse_dims_none_prefix(
                                    done,
                                    split_commas(s@.subrange(end + 1, j as int)),
                                );
                            },
                            None => {
                                assert(rest.take(rest.len() as int) =~= piece);
                                assert(split_commas(rest) == seq![rest]);
                                assert(old_done + split_commas(rest) =~= done);
                            },
                        }
                    }
                    return None;
                },
                Some(d) => {
                    dims.push(d);
                },
            }
        }
        match c {
            None => {
                proof {
                    assert(rest.take(rest.len() as int) =~= piece);
                    assert(split_commas(rest) == seq![rest]);
                    assert(done =~= old_done + seq![rest]);
                }
                return Some(dims);
            },
            Some(_) => {
                proof {
                    assert(rest.take(end - start) =~= piece);
                    assert(rest.skip(end - start + 1) =~= s@.subrange(end + 1, j as int));
                    assert(split_commas(rest) =~= seq![piece] + split_commas(s@.subrange(end + 1, j as int)));
                    assert(old_done + split_commas(rest) =~= done + split_commas(s@.subrange(end + 1, j as int)));
                }
                start = end + 1;
            },
        }
    }
}

/// A position found lies inside the searched sequence.
proof fn lemma_find_from_in_range(h: Seq<u8>, pat: Seq<u8>, i: int)
    ensures
        find_from(h, pat, i) matches Some(k) ==> i <= k && k + pat.len() <= h.len(),
    decreases h.len() - i,
{
    if !(i < 0 || i + pat.len() > h.len()) && h.subrange(i, i + pat.len() as int) != pat && i < h.len() {
        lemma_find_from_in_range(h, pat, i + 1);
    }
}

/// Once a piece fails to parse, extending the pieces keeps the failure.
proof fn lemma_parse_dims_none_prefix(done: Seq<Seq<u8>>, more: Seq<Seq<u8>>)
    requires
        parse_dims(done) is None,
    ensures
        parse_dims(done + more) is None,
    decreases more.len(),
{
    if more.len() == 0 {
        assert(done + more =~= done);
    } else {
        lemma_parse_dims_none_prefix(done, more.drop_last());
        assert((done + more).drop_last() =~= done + more.drop_last());
    }
}

/// Reads the shape and type descriptor of a `.npy` header.
///
/// Fails with `DeserializationError` when the header is malformed (see
/// `parse_header`).
pub fn parse_npy_header(header: &[u8]) -> (r: Result<(Vec<usize>, Vec<u8>)>)
    requires
        !header_truncated_in_length(header@),
    ensures
        match parse_header(header@) {
            Some((shape, dtype)) => r matches Ok((s, d)) && s@ == shape && d@ == dtype,
            None => r matches Err(e) && e is DeserializationError,
        },
{
    let magic: [u8; 6] = [0x93u8, 78u8, 85u8, 77u8, 80u8, 89u8];
    assert(magic@ =~= npy_magic());
    if header.len() < 8 || !bytes_eq(vstd::slice::slice_subrange(header, 0, 6), magic.as_slice()) {
        return Err(NumRs2Error::DeserializationError(message("missing magic string")));
    }
    if header[6] != 1u8 || header[7] != 0u8 {
        return Err(NumRs2Error::DeserializationError(message("unsupported NPY version")));
    }
    let len_field = vstd::slice::slice_subrange(header, 8, 10);
    let hl = le_read_u16(len_field) as usize;
    assert(len_field@.subrange(0, 2) =~= header@.subrange(8, 10));
    if header.len() < 10 + hl {
        return Err(NumRs2Error::DeserializationError(message("header too short")));
    }
    let dict = vstd::slice::slice_subrange(header, 10, 10 + hl);
    match parse_dict_exec(dict) {
        Some((s, d)) => Ok((s, d)),
        None => Err(NumRs2Error::DeserializationError(message("malformed NPY header"))),
    }
}

/// `parse_dict` on machine values.
fn parse_dict_exec(dict: &[u8]) -> (r: Option<(Vec<usize>, Vec<u8>)>)
    ensures
        match parse_dict(dict@) {
            Some((shape, dtype)) => r matches Some((s, d)) && s@ == shape && d@ == dtype,
            None => r is None,
        },
{
    let _n = dict.len();
    if !is_valid_utf8(dict) {
        return None;
    }
    let dkey: [u8; 10] = [39u8, 100u8, 101u8, 115u8, 99u8, 114u8, 39u8, 58u8, 32u8, 39u8];
    let skey: [u8; 10] = [39u8, 115u8, 104u8, 97u8, 112u8, 101u8, 39u8, 58u8, 32u8, 40u8];
    let quote: [u8; 1] = [39u8];
    let paren: [u8; 1] = [41u8];
    assert(dkey@ =~= descr_key());
    assert(skey@ =~= shape_key());
    assert(quote@ =~= seq![39u8]);
    assert(paren@ =~= seq![41u8]);
    proof {
        lemma_find_from_in_range(dict@, descr_key(), 0);
    }
    let a = match find_from_exec(dict, dkey.as_slice(), 0) {
        None => {
            return None;
        },
        Some(a) => a,
    };
    let ds = a + 10;
    let tail = vstd::slice::slice_subrange(dict, ds, dict.len());
    assert(tail@ =~= dict@.skip(ds as int));
    proof {
        lemma_find_from_in_range(tail@, seq![39u8], 0);
    }
    let e = match find_from_exec(tail, quote.as_slice(), 0) {
        None => {
            return None;
        },
        Some(e) => e,
    };
    let dtype = vstd::slice::slice_to_vec(vstd::slice::slice_subrange(dict, ds, ds + e));
    proof {
        lemma_find_from_in_range(dict@, shape_key(), 0);
    }
    let b = match find_from_exec(dict, skey.as_slice(), 0) {
        None => {
            return None;
        },
        Some(b) => b,
    };
    let ss = b + 10;
    let tail2 = vstd::slice::slice_subrange(dict, ss, dict.len());
    assert(tail2@ =~= dict@.skip(ss as int));
    proof {
        lemma_find_from_in_range(tail2@, seq![41u8], 0);
    }
    let f = match find_from_exec(tail2, paren.as_slice(), 0) {
        None => {
            return None;
        },
        Some(f) => f,
    };
    let (p, q) = trim_exec(dict, ss, ss + f);
    if p == q {
        return Some((Vec::new(), dtype));
    }
    match parse_dims_exec(dict, p, q) {
        None => None,
        Some(dims) => Some((dims, dtype)),
    }
}

} // verus!
