//! Facts about the `.npy` header text, ending in the law that reading a
//! header gives back the shape and type descriptor it was built from.

use vstd::prelude::*;
use crate::io::npy::{
    NpyDtype, dtype_descr, decimal, join_dims, tuple_text, dict_open, dict_middle, dict_close,
    dict_text, padding, padded_dict, npy_magic, le_bytes, le_value, npy_header, find_from,
    find_first, ws_prefix, ws_suffix, trim_start, trim_end, trim, split_commas, all_digits,
    digits_value, parse_usize, parse_dims, descr_key, shape_key, parse_dict, parse_header,
};

verus! {

/// Every byte is ASCII.
pub open spec fn all_ascii(b: Seq<u8>) -> bool {
    forall|i: int| 0 <= i < b.len() ==> #[trigger] b[i] < 128u8
}

/// ASCII text is valid UTF-8.
pub proof fn lemma_ascii_valid_utf8(b: Seq<u8>)
    requires
        all_ascii(b),
    ensures
        vstd::utf8::valid_utf8(b),
    decreases b.len(),
{
    if b.len() > 0 {
        let c = b[0];
        assert(c < 128u8);
        assert((c & 0x7fu8) <= 0x7fu8) by (bit_vector);
        let rest = vstd::utf8::pop_first_scalar(b);
        assert(rest =~= b.subrange(1, b.len() as int));
        assert(all_ascii(rest)) by {
            assert forall|i: int| 0 <= i < rest.len() implies #[trigger] rest[i] < 128u8 by {
                assert(rest[i] == b[i + 1]);
            }
        }
        lemma_ascii_valid_utf8(rest);
    }
}

/// The decimal text of a number is a non-empty run of digits.
pub proof fn lemma_decimal_digits(n: nat)
    ensures
        decimal(n).len() > 0,
        all_digits(decimal(n)),
        digits_value(decimal(n)) == n,
    decreases n,
{
    let d = decimal(n);
    if n >= 10 {
        lemma_decimal_digits(n / 10);
        assert(d.drop_last() =~= decimal(n / 10));
        assert forall|i: int| 0 <= i < d.len() implies 48u8 <= #[trigger] d[i] && d[i] <= 57u8 by {
            if i < d.len() - 1 {
                assert(d[i] == decimal(n / 10)[i]);
            }
        }
        assert(d.last() == (48 + n % 10) as u8);
        assert(digits_value(d) == digits_value(decimal(n / 10)) * 10 + n % 10);
        assert(n == (n / 10) * 10 + n % 10);
    } else {
        assert(d.drop_last() =~= Seq::<u8>::empty());
        assert(digits_value(Seq::<u8>::empty()) == 0);
        assert(d.last() == (48 + n) as u8);
    }
}

/// A byte that starts no whitespace sequence.
pub open spec fn plain_byte(c: u8) -> bool {
    c != 32u8 && !(9u8 <= c && c <= 13u8) && c < 128u8
}

/// Text that starts with a plain ASCII byte has no leading whitespace.
pub proof fn lemma_trim_start_plain(s: Seq<u8>)
    requires
        s.len() > 0,
        plain_byte(s[0]),
    ensures
        trim_start(s) == s,
{
    assert(ws_prefix(s) == 0);
}

/// Text that ends with a plain ASCII byte has no trailing whitespace.
pub proof fn lemma_trim_end_plain(s: Seq<u8>)
    requires
        s.len() > 0,
        plain_byte(s[s.len() - 1]),
    ensures
        trim_end(s) == s,
{
    let n = s.len() as int;
    assert(s.subrange(n - 1, n)[0] == s[n - 1]);
    assert(ws_prefix(s.subrange(n - 1, n)) == 0);
    if n >= 2 {
        assert(s.subrange(n - 2, n)[1] == s[n - 1]);
        assert(ws_prefix(s.subrange(n - 2, n)) != 2);
    }
    if n >= 3 {
        assert(s.subrange(n - 3, n)[2] == s[n - 1]);
        assert(ws_prefix(s.subrange(n - 3, n)) != 3);
    }
    assert(ws_suffix(s) == 0);
}

/// A non-empty run of digits is its own trimmed form.
pub proof fn lemma_trim_digits(t: Seq<u8>)
    requires
        t.len() > 0,
        all_digits(t),
    ensures
        trim(t) == t,
{
    assert(48u8 <= t[0] && t[0] <= 57u8);
    assert(48u8 <= t[t.len() - 1] && t[t.len() - 1] <= 57u8);
    lemma_trim_start_plain(t);
    lemma_trim_end_plain(t);
}

/// A space before a run of digits is trimmed away.
pub proof fn lemma_trim_space_digits(t: Seq<u8>)
    requires
        t.len() > 0,
        all_digits(t),
    ensures
        trim(seq![32u8] + t) == t,
{
    let s = seq![32u8] + t;
    assert(ws_prefix(s) == 1);
    assert(s.skip(1) =~= t);
    assert(48u8 <= t[0] && t[0] <= 57u8);
    lemma_trim_start_plain(t);
    assert(trim_start(s) == t);
    assert(48u8 <= t[t.len() - 1] && t[t.len() - 1] <= 57u8);
    lemma_trim_end_plain(t);
}

/// The empty text trims to itself.
pub proof fn lemma_trim_empty()
    ensures
        trim(Seq::<u8>::empty()) == Seq::<u8>::empty(),
{
    assert(ws_prefix(Seq::<u8>::empty()) == 0);
    assert(ws_suffix(Seq::<u8>::empty()) == 0);
}

/// Reading the decimal text of a `usize` gives the number back.
pub proof fn lemma_parse_decimal(n: usize)
    ensures
        parse_usize(decimal(n as nat)) == Some(n),
{
    lemma_decimal_digits(n as nat);
    let d = decimal(n as nat);
    assert(48u8 <= d[0] && d[0] <= 57u8);
}

/// A search that finds no match before `k` and a match at `k` returns `k`.
pub proof fn lemma_find_from_at(h: Seq<u8>, pat: Seq<u8>, i: int, k: int)
    requires
        0 <= i <= k,
        k + pat.len() <= h.len(),
        h.subrange(k, k + pat.len() as int) == pat,
        forall|j: int| i <= j < k ==> #[trigger] h.subrange(j, j + pat.len() as int) != pat,
    ensures
        find_from(h, pat, i) == Some(k),
    decreases k - i,
{
    if i < k {
        assert(h.subrange(i, i + pat.len() as int) != pat);
        lemma_find_from_at(h, pat, i + 1, k);
    }
}

/// A search in text without a one-byte pattern finds nothing.
pub proof fn lemma_find_from_absent(h: Seq<u8>, c: u8, i: int)
    requires
        0 <= i,
        forall|j: int| i <= j < h.len() ==> #[trigger] h[j] != c,
    ensures
        find_from(h, seq![c], i) is None,
    decreases h.len() - i,
{
    if i + 1 <= h.len() {
        assert(h.subrange(i, i + 1)[0] == h[i]);
        assert(h.subrange(i, i + 1) != seq![c]);
        if i < h.len() {
            lemma_find_from_absent(h, c, i + 1);
        }
    }
}

/// Finds the first position of a one-byte pattern.
pub proof fn lemma_find_byte(h: Seq<u8>, c: u8, k: int)
    requires
        0 <= k < h.len(),
        h[k] == c,
        forall|j: int| 0 <= j < k ==> #[trigger] h[j] != c,
    ensures
        find_first(h, seq![c]) == Some(k),
{
    assert(h.subrange(k, k + 1) =~= seq![c]);
    assert forall|j: int| 0 <= j < k implies #[trigger] h.subrange(j, j + 1) != seq![c] by {
        assert(h.subrange(j, j + 1)[0] == h[j]);
    }
    lemma_find_from_at(h, seq![c], 0, k);
}

/// Splitting at a comma splits the two sides independently.
pub proof fn lemma_split_concat(x: Seq<u8>, y: Seq<u8>)
    ensures
        split_commas(x + seq![44u8] + y) == split_commas(x) + split_commas(y),
    decreases x.len(),
{
    let s = x + seq![44u8] + y;
    let comma = seq![44u8];
    match find_first(x, comma) {
        None => {
            assert forall|j: int| 0 <= j < x.len() implies #[trigger] x[j] != 44u8 by {
                if x[j] == 44u8 {
                    lemma_find_first_exists(x, 44u8, j);
                }
            }
            assert(s[x.len() as int] == 44u8);
            assert forall|j: int| 0 <= j < x.len() implies #[trigger] s[j] != 44u8 by {
                assert(s[j] == x[j]);
            }
            lemma_find_byte(s, 44u8, x.len() as int);
            assert(s.take(x.len() as int) =~= x);
            assert(s.skip((x.len() + 1) as int) =~= y);
        },
        Some(c) => {
            crate::io::npy_laws::lemma_find_first_in_range(x, comma);
            assert(x[c] == 44u8) by {
                assert(x.subrange(c, c + 1)[0] == x[c]);
            }
            assert forall|j: int| 0 <= j < c implies #[trigger] x[j] != 44u8 by {
                if x[j] == 44u8 {
                    lemma_find_first_earliest(x, 44u8, j);
                }
            }
            assert forall|j: int| 0 <= j < c implies #[trigger] s[j] != 44u8 by {
                assert(s[j] == x[j]);
            }
            assert(s[c] == 44u8);
            lemma_find_byte(s, 44u8, c);
            lemma_find_byte(x, 44u8, c);
            assert(s.take(c) =~= x.take(c));
            assert(s.skip(c + 1) =~= x.skip(c + 1) + seq![44u8] + y);
            lemma_split_concat(x.skip(c + 1), y);
            assert(split_commas(s) =~= seq![x.take(c)] + split_commas(x.skip(c + 1) + seq![44u8] + y));
            assert(split_commas(x) =~= seq![x.take(c)] + split_commas(x.skip(c + 1)));
        },
    }
}

/// A position found lies inside the text.
pub proof fn lemma_find_first_in_range(h: Seq<u8>, pat: Seq<u8>)
    ensures
        find_first(h, pat) matches Some(k) ==> 0 <= k && k + pat.len() <= h.len() && h.subrange(
            k,
            k + pat.len() as int,
        ) == pat,
{
    lemma_find_from_facts(h, pat, 0);
}

proof fn lemma_find_from_facts(h: Seq<u8>, pat: Seq<u8>, i: int)
    ensures
        find_from(h, pat, i) matches Some(k) ==> i <= k && k + pat.len() <= h.len() && h.subrange(
            k,
            k + pat.len() as int,
        ) == pat && forall|j: int| i <= j < k ==> #[trigger] h.subrange(j, j + pat.len() as int) != pat,
    decreases h.len() - i,
{
    if !(i < 0 || i + pat.len() > h.len()) && h.subrange(i, i + pat.len() as int) != pat && i < h.len() {
        lemma_find_from_facts(h, pat, i + 1);
    }
}

/// A byte that occurs makes the search for it succeed.
proof fn lemma_find_first_exists(h: Seq<u8>, c: u8, j: int)
    requires
        0 <= j < h.len(),
        h[j] == c,
    ensures
        find_first(h, seq![c]) is Some,
{
    lemma_find_from_exists(h, c, 0, j);
}

proof fn lemma_find_from_exists(h: Seq<u8>, c: u8, i: int, j: int)
    requires
        0 <= i <= j < h.len(),
        h[j] == c,
    ensures
        find_from(h, seq![c], i) is Some,
    decreases j - i,
{
    if h.subrange(i, i + 1) != seq![c] {
        if i == j {
            assert(h.subrange(i, i + 1) =~= seq![c]);
        } else {
            lemma_find_from_exists(h, c, i + 1, j);
        }
    }
}

/// The first match comes no later than any occurrence.
proof fn lemma_find_first_earliest(h: Seq<u8>, c: u8, j: int)
    requires
        0 <= j < h.len(),
        h[j] == c,
    ensures
        find_first(h, seq![c]) matches Some(k) && k <= j,
{
    lemma_find_first_exists(h, c, j);
    lemma_find_from_facts(h, seq![c], 0);
    let k = find_first(h, seq![c]).unwrap();
    if j < k {
        assert(h.subrange(j, j + 1) =~= seq![c]);
    }
}

/// Text without commas is a single piece.
pub proof fn lemma_split_no_comma(x: Seq<u8>)
    requires
        forall|j: int| 0 <= j < x.len() ==> #[trigger] x[j] != 44u8,
    ensures
        split_commas(x) == seq![x],
{
    lemma_find_from_absent(x, 44u8, 0);
}

/// The pieces of a joined shape read back as the shape.
pub proof fn lemma_parse_join_dims(s: Seq<usize>)
    requires
        s.len() > 0,
    ensures
        parse_dims(split_commas(join_dims(s))) == Some(s),
    decreases s.len(),
{
    if s.len() == 1 {
        let d = decimal(s[0] as nat);
        lemma_decimal_digits(s[0] as nat);
        lemma_no_comma_digits(d);
        lemma_split_no_comma(d);
        lemma_trim_digits(d);
        lemma_parse_decimal(s[0]);
        let pieces = seq![d];
        assert(join_dims(s) == d);
        assert(split_commas(join_dims(s)) == pieces);
        assert(pieces.drop_last() =~= Seq::<Seq<u8>>::empty());
        assert(parse_dims(pieces.drop_last()) == Some(Seq::<usize>::empty()));
        assert(pieces.last() == d);
        assert(trim(d) == d);
        assert(parse_usize(d) == Some(s[0]));
        assert(Seq::<usize>::empty().push(s[0]) =~= s);
        assert(parse_dims(pieces) == Some(s));
    } else {
        let front = s.drop_last();
        let d = decimal(s.last() as nat);
        lemma_parse_join_dims(front);
        lemma_decimal_digits(s.last() as nat);
        let tail = seq![32u8] + d;
        assert(join_dims(s) =~= join_dims(front) + seq![44u8] + tail);
        lemma_split_concat(join_dims(front), tail);
        assert forall|j: int| 0 <= j < tail.len() implies #[trigger] tail[j] != 44u8 by {
            if j > 0 {
                assert(tail[j] == d[j - 1]);
                assert(48u8 <= d[j - 1] && d[j - 1] <= 57u8);
            }
        }
        lemma_split_no_comma(tail);
        let pieces = split_commas(join_dims(front)) + seq![tail];
        assert(pieces.drop_last() =~= split_commas(join_dims(front)));
        assert(pieces.last() == tail);
        lemma_trim_space_digits(d);
        lemma_parse_decimal(s.last());
        assert(split_commas(join_dims(s)) == pieces);
        assert(parse_dims(pieces.drop_last()) == Some(front));
        assert(trim(pieces.last()) == d);
        assert(parse_usize(d) == Some(s.last()));
        assert(front.push(s.last()) =~= s);
        assert(parse_dims(pieces) == Some(s));
    }
}

/// Digits hold no comma.
proof fn lemma_no_comma_digits(d: Seq<u8>)
    requires
        all_digits(d),
    ensures
        forall|j: int| 0 <= j < d.len() ==> #[trigger] d[j] != 44u8,
{
    assert forall|j: int| 0 <= j < d.len() implies #[trigger] d[j] != 44u8 by {
        assert(48u8 <= d[j] && d[j] <= 57u8);
    }
}

/// The bytes of a joined shape are digits, commas and spaces.
pub proof fn lemma_join_dims_bytes(s: Seq<usize>)
    ensures
        forall|j: int|
            0 <= j < join_dims(s).len() ==> {
                let c = #[trigger] join_dims(s)[j];
                (48u8 <= c && c <= 57u8) || c == 44u8 || c == 32u8
            },
        s.len() > 0 ==> join_dims(s).len() > 0 && 48u8 <= join_dims(s)[0] && join_dims(s)[0] <= 57u8,
        s.len() > 0 ==> 48u8 <= join_dims(s).last() && join_dims(s).last() <= 57u8,
    decreases s.len(),
{
    if s.len() == 1 {
        lemma_decimal_digits(s[0] as nat);
    } else if s.len() > 1 {
        let front = s.drop_last();
        let d = decimal(s.last() as nat);
        lemma_join_dims_bytes(front);
        lemma_decimal_digits(s.last() as nat);
        let j0 = join_dims(front);
        let t = join_dims(s);
        assert(t =~= j0 + seq![44u8, 32u8] + d);
        assert forall|j: int| 0 <= j < t.len() implies {
            let c = #[trigger] t[j];
            (48u8 <= c && c <= 57u8) || c == 44u8 || c == 32u8
        } by {
            if j < j0.len() {
                assert(t[j] == j0[j]);
            } else if j >= j0.len() + 2 {
                assert(t[j] == d[j - j0.len() - 2]);
            }
        }
        assert(t[0] == j0[0]);
        assert(t.last() == d.last());
    }
}

/// The tuple text reads back as the shape.
pub proof fn lemma_parse_tuple_text(s: Seq<usize>)
    requires
        s.len() > 0,
    ensures
        trim(tuple_text(s)) == tuple_text(s),
        parse_dims(split_commas(tuple_text(s))) == Some(s),
{
    lemma_join_dims_bytes(s);
    let t = tuple_text(s);
    if s.len() == 1 {
        let d = decimal(s[0] as nat);
        lemma_decimal_digits(s[0] as nat);
        assert(t =~= d + seq![44u8] + Seq::<u8>::empty());
        lemma_split_concat(d, Seq::<u8>::empty());
        lemma_no_comma_digits(d);
        lemma_split_no_comma(d);
        lemma_find_from_absent(Seq::<u8>::empty(), 44u8, 0);
        let pieces = seq![d] + seq![Seq::<u8>::empty()];
        assert(split_commas(Seq::<u8>::empty()) == seq![Seq::<u8>::empty()]);
        assert(split_commas(t) == pieces);
        assert(pieces.drop_last() =~= seq![d]);
        assert(seq![d].drop_last() =~= Seq::<Seq<u8>>::empty());
        lemma_trim_empty();
        lemma_trim_digits(d);
        lemma_parse_decimal(s[0]);
        assert(Seq::<usize>::empty().push(s[0]) =~= s);
        assert(parse_dims(seq![d].drop_last()) == Some(Seq::<usize>::empty()));
        assert(seq![d].last() == d);
        assert(parse_dims(seq![d]) == Some(s));
        assert(pieces.last() == Seq::<u8>::empty());
        assert(parse_dims(pieces) == Some(s));
        assert(48u8 <= t[0] && t[0] <= 57u8);
        lemma_trim_start_plain(t);
        assert(t[t.len() - 1] == 44u8);
        lemma_trim_end_plain(t);
    } else {
        lemma_parse_join_dims(s);
        lemma_trim_start_plain(t);
        lemma_trim_end_plain(t);
    }
}

/// The little-endian bytes of a value below 65536 read back as it.
pub proof fn lemma_le_u16(v: nat)
    requires
        v < 65536,
    ensures
        le_value(le_bytes(v, 2)) == v,
        le_bytes(v, 2).len() == 2,
{
    let b = le_bytes(v, 2);
    let b1 = le_bytes(v / 256, 1);
    assert(le_bytes(v / 256 / 256, 0) =~= Seq::<u8>::empty());
    assert(b1 =~= seq![((v / 256) % 256) as u8]);
    assert(b =~= seq![(v % 256) as u8] + b1);
    assert(b.skip(1) =~= b1);
    assert(b1.skip(1) =~= Seq::<u8>::empty());
    assert(le_value(b1.skip(1)) == 0);
    assert(v / 256 < 256);
    assert(le_value(b1) == (v / 256) % 256);
    assert(v == v % 256 + 256 * (v / 256));
}

/// The searched keys sit where the dictionary text puts them: the type
/// descriptor key right after the brace, the shape key at the end of the
/// fixed middle part.
pub proof fn lemma_dict_keys(s: Seq<usize>, d: NpyDtype, rest: Seq<u8>)
    ensures
        ({
            let p = dict_open() + dtype_descr(d) + dict_middle() + rest;
            &&& find_first(p, descr_key()) == Some(1int)
            &&& find_first(p, shape_key()) == Some(41int)
            &&& find_first(p.skip(11), seq![39u8]) == Some(3int)
        }),
{
    let p = dict_open() + dtype_descr(d) + dict_middle() + rest;
    let q = dict_open() + dtype_descr(d) + dict_middle();
    assert(q.len() == 51);
    assert forall|j: int| 0 <= j < 51 implies #[trigger] p[j] == q[j] by {}
    // The descriptor key.
    assert(p.subrange(1, 11) =~= descr_key());
    assert(p.subrange(0, 10) != descr_key()) by {
        assert(p.subrange(0, 10)[0] == p[0]);
    }
    lemma_find_from_at(p, descr_key(), 0, 1);
    // The shape key.
    assert(p.subrange(41, 51) =~= shape_key());
    assert forall|j: int| 0 <= j < 41 implies #[trigger] p.subrange(j, j + 10) != shape_key() by {
        assert(p.subrange(j, j + 10)[0] == p[j]);
        assert(p.subrange(j, j + 10)[1] == p[j + 1]);
        assert(p[j] != 39u8 || p[j + 1] != 115u8);
    }
    lemma_find_from_at(p, shape_key(), 0, 41);
    // The closing quote of the descriptor.
    let t = p.skip(11);
    assert(t[3] == 39u8);
    assert forall|j: int| 0 <= j < 3 implies #[trigger] t[j] != 39u8 by {}
    lemma_find_byte(t, 39u8, 3);
}

/// The header's fixed prefix and length field frame the padded dictionary.
proof fn lemma_header_frames_dict(s: Seq<usize>, d: NpyDtype)
    requires
        padded_dict(s, d).len() < 65536,
    ensures
        parse_header(npy_header(s, d)) == parse_dict(padded_dict(s, d)),
{
    let dict = padded_dict(s, d);
    let h = npy_header(s, d);
    let len = dict.len();
    lemma_le_u16(len);
    assert(len % 65536 == len);
    assert(h.subrange(0, 6) =~= npy_magic());
    assert(h[6] == 1u8 && h[7] == 0u8);
    assert(h.subrange(8, 10) =~= le_bytes(len, 2));
    assert(h.subrange(10, 10 + len as int) =~= dict);
}

/// The bytes of the shape's tuple text are digits, commas and spaces.
proof fn lemma_tuple_text_bytes(s: Seq<usize>)
    ensures
        forall|j: int|
            0 <= j < tuple_text(s).len() ==> {
                let c = #[trigger] tuple_text(s)[j];
                (48u8 <= c && c <= 57u8) || c == 44u8 || c == 32u8
            },
{
    let tt = tuple_text(s);
    lemma_join_dims_bytes(s);
    if s.len() == 1 {
        lemma_decimal_digits(s[0] as nat);
        assert forall|j: int| 0 <= j < tt.len() implies {
            let c = #[trigger] tt[j];
            (48u8 <= c && c <= 57u8) || c == 44u8 || c == 32u8
        } by {
            if j < tt.len() - 1 {
                assert(tt[j] == decimal(s[0] as nat)[j]);
            }
        }
    }
}

/// The padded dictionary is the fixed text up to the shape, then the
/// shape, the closing text and the spaces.
proof fn lemma_padded_dict_parts(s: Seq<usize>, d: NpyDtype)
    ensures
        padded_dict(s, d) == dict_open() + dtype_descr(d) + dict_middle() + (tuple_text(s)
            + dict_close() + Seq::new(padding(dict_text(s, d).len()), |i: int| 32u8)),
        all_ascii(padded_dict(s, d)),
        padded_dict(s, d).skip(51) == tuple_text(s) + dict_close() + Seq::new(
            padding(dict_text(s, d).len()),
            |i: int| 32u8,
        ),
        padded_dict(s, d).subrange(11, 14) == dtype_descr(d),
{
    let tt = tuple_text(s);
    let dict = padded_dict(s, d);
    let rest = tt + dict_close() + Seq::new(padding(dict_text(s, d).len()), |i: int| 32u8);
    assert(dict =~= dict_open() + dtype_descr(d) + dict_middle() + rest);
    lemma_tuple_text_bytes(s);
    assert forall|j: int| 0 <= j < dict.len() implies #[trigger] dict[j] < 128u8 by {
        if 51 <= j < 51 + tt.len() {
            assert(dict[j] == tt[j - 51]);
        }
    }
    assert(dict.skip(51) =~= rest);
    assert(dict.subrange(11, 14) =~= dtype_descr(d));
}

/// The shape text runs from the shape key to the first closing parenthesis.
proof fn lemma_shape_span(s: Seq<usize>, d: NpyDtype)
    ensures
        find_first(padded_dict(s, d).skip(51), seq![41u8]) == Some(tuple_text(s).len() as int),
        padded_dict(s, d).subrange(51, 51 + tuple_text(s).len() as int) == tuple_text(s),
{
    let tt = tuple_text(s);
    let dict = padded_dict(s, d);
    lemma_padded_dict_parts(s, d);
    lemma_tuple_text_bytes(s);
    let after = dict.skip(51);
    assert(after[tt.len() as int] == 41u8);
    assert forall|j: int| 0 <= j < tt.len() implies #[trigger] after[j] != 41u8 by {
        assert(after[j] == tt[j]);
    }
    lemma_find_byte(after, 41u8, tt.len() as int);
    assert(dict.subrange(51, 51 + tt.len() as int) =~= tt);
}

/// The shape text reads back as the shape.
proof fn lemma_shape_text_reads(s: Seq<usize>)
    ensures
        trim(tuple_text(s)).len() == 0 <==> s.len() == 0,
        s.len() > 0 ==> parse_dims(split_commas(trim(tuple_text(s)))) == Some(s),
{
    if s.len() == 0 {
        assert(tuple_text(s) =~= Seq::<u8>::empty());
        lemma_trim_empty();
    } else {
        lemma_parse_tuple_text(s);
        if s.len() == 1 {
            assert(tuple_text(s).len() > 0);
        } else {
            lemma_join_dims_bytes(s);
        }
    }
}

/// Reading the padded dictionary gives back the shape and the descriptor.
proof fn lemma_parse_padded_dict(s: Seq<usize>, d: NpyDtype)
    ensures
        parse_dict(padded_dict(s, d)) == Some((s, dtype_descr(d))),
{
    let dict = padded_dict(s, d);
    let tt = tuple_text(s);
    lemma_padded_dict_parts(s, d);
    lemma_ascii_valid_utf8(dict);
    let rest = tt + dict_close() + Seq::new(padding(dict_text(s, d).len()), |i: int| 32u8);
    lemma_dict_keys(s, d, rest);
    lemma_shape_span(s, d);
    lemma_shape_text_reads(s);
}

/// Reading a header built for a shape and a dtype gives back the shape and
/// the dtype's type descriptor, provided the padded dictionary is shorter
/// than 65536 bytes (its length field holds 16 bits).
pub proof fn law_npy_header_roundtrip(s: Seq<usize>, d: NpyDtype)
    requires
        padded_dict(s, d).len() < 65536,
    ensures
        parse_header(npy_header(s, d)) == Some((s, dtype_descr(d))),
{
    lemma_header_frames_dict(s, d);
    lemma_parse_padded_dict(s, d);
}

} // verus!
