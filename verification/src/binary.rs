//! The binary encoder: a length-prefixed byte serialization of the
//! optional dataset, wrapped in base64 so the result is printable.
//!
//! The byte layout is the classic serde binary form: an option tag byte
//! (`0` absent, `1` present), every length as eight little-endian bytes,
//! strings as their UTF-8 bytes after their byte length, a sequence as
//! its element count followed by its elements, and a row as its entry
//! count followed by alternating key and value strings.  Encoding is
//! total over any dataset; only an astronomically long byte string, whose
//! base64 length cannot be computed in an address-sized integer, is
//! refused.
use vstd::prelude::*;

use crate::eval::RowV;
use crate::strmap::StrMap;
use vstd::utf8::encode_utf8;

verus! {

/// Eight little-endian bytes of a length.
pub open spec fn le64(n: u64) -> Seq<u8> {
    seq![
        (n & 0xff) as u8,
        ((n >> 8) & 0xff) as u8,
        ((n >> 16) & 0xff) as u8,
        ((n >> 24) & 0xff) as u8,
        ((n >> 32) & 0xff) as u8,
        ((n >> 40) & 0xff) as u8,
        ((n >> 48) & 0xff) as u8,
        ((n >> 56) & 0xff) as u8,
    ]
}

/// A string: its UTF-8 byte length, then its UTF-8 bytes.
pub open spec fn bin_string(s: Seq<char>) -> Seq<u8> {
    le64(encode_utf8(s).len() as u64) + encode_utf8(s)
}

pub open spec fn bin_fields(fields: RowV) -> Seq<u8>
    decreases fields.len(),
{
    if fields.len() == 0 {
        Seq::empty()
    } else {
        bin_string(fields[0].0) + bin_string(fields[0].1) + bin_fields(fields.drop_first())
    }
}

/// One row: its entry count, then its key and value strings in entry
/// order.
pub open spec fn bin_row(row: RowV) -> Seq<u8> {
    le64(row.len() as u64) + bin_fields(row)
}

pub open spec fn bin_rows(rows: Seq<RowV>) -> Seq<u8>
    decreases rows.len(),
{
    if rows.len() == 0 {
        Seq::empty()
    } else {
        bin_row(rows[0]) + bin_rows(rows.drop_first())
    }
}

/// The whole dataset: the option tag, then for a present dataset its row
/// count and rows.
pub open spec fn bin_of(data: Option<Seq<RowV>>) -> Seq<u8> {
    match data {
        None => seq![0u8],
        Some(rows) => seq![1u8] + le64(rows.len() as u64) + bin_rows(rows),
    }
}

/// The base64 text of a byte string, in the standard alphabet with
/// padding.
pub uninterp spec fn b64_of(bytes: Seq<u8>) -> Seq<char>;

/// Whether the base64 text of `n` bytes has a length an address-sized
/// integer can hold.
pub open spec fn b64_len_ok(n: int) -> bool {
    n <= usize::MAX - 2 && 4 * ((n + 2) / 3) <= usize::MAX
}

/// Relies on `base64::encode`: the standard alphabet with padding, four
/// output characters for every three input bytes.  The function panics
/// when that output length overflows, so such inputs are excluded.
#[verifier::external_body]
fn base64_encode(bytes: &Vec<u8>) -> (r: String)
    requires
        b64_len_ok(bytes@.len() as int),
    ensures
        r@ == b64_of(bytes@),
        r@.len() == 4 * ((bytes@.len() + 2) / 3),
{
    base64::encode(bytes.as_slice())
}

/// Append the eight little-endian bytes of `n`.
fn le64_exec(n: u64, out: &mut Vec<u8>)
    ensures
        final(out)@ == old(out)@ + le64(n),
{
    out.push((n & 0xff) as u8);
    out.push(((n >> 8) & 0xff) as u8);
    out.push(((n >> 16) & 0xff) as u8);
    out.push(((n >> 24) & 0xff) as u8);
    out.push(((n >> 32) & 0xff) as u8);
    out.push(((n >> 40) & 0xff) as u8);
    out.push(((n >> 48) & 0xff) as u8);
    out.push(((n >> 56) & 0xff) as u8);
    proof {
        assert(out@ =~= old(out)@ + le64(n));
    }
}

/// Append a length-prefixed string.
fn bin_string_exec(s: &String, out: &mut Vec<u8>)
    ensures
        final(out)@ == old(out)@ + bin_string(s@),
{
    let bytes = s.as_str().as_bytes();
    let len = bytes.len();
    proof {
        broadcast use vstd::slice::group_slice_axioms;

        assert(bytes@ == encode_utf8(s@));
        assert(len == encode_utf8(s@).len());
    }
    le64_exec(len as u64, out);
    let ghost mid = out@;
    out.extend_from_slice(bytes);
    proof {
        assert(out@ =~= mid + bytes@);
        assert(out@ =~= old(out)@ + bin_string(s@));
    }
}

/// Append one row: entry count, then keys and values.
fn bin_row_exec(row: &StrMap, out: &mut Vec<u8>)
    ensures
        final(out)@ == old(out)@ + bin_row(row@),
{
    let ghost rv = row@;
    let ghost out0 = out@;
    let m = row.len();
    le64_exec(m as u64, out);
    let mut j: usize = 0;
    proof {
        assert(rv.skip(0) =~= rv);
    }
    while j < m
        invariant
            0 <= j <= m == rv.len(),
            rv == row@,
            out0 + le64(m as u64) + bin_fields(rv) == out@ + bin_fields(rv.skip(j as int)),
        decreases m - j,
    {
        proof {
            assert(rv.skip(j as int)[0] == rv[j as int]);
            assert(rv.skip(j as int).drop_first() =~= rv.skip(j + 1));
        }
        bin_string_exec(row.key_at(j), out);
        bin_string_exec(row.val_at(j), out);
        j = j + 1;
    }
    proof {
        assert(rv.skip(m as int).len() == 0);
        assert(bin_fields(rv.skip(m as int)) =~= Seq::<u8>::empty());
        assert(out@ =~= out0 + bin_row(rv));
    }
}

/// Serialize the dataset to its byte form.
pub fn bin_encode(data: &Option<Vec<StrMap>>) -> (r: Vec<u8>)
    ensures
        r@ == bin_of(match data {
            Some(rows) => Some(rows.deep_view()),
            None => None,
        }),
{
    let mut out: Vec<u8> = Vec::new();
    match data {
        None => {
            out.push(0u8);
            proof {
                assert(out@ =~= seq![0u8]);
            }
        },
        Some(rows) => {
            let ghost dv = rows.deep_view();
            out.push(1u8);
            let n = rows.len();
            le64_exec(n as u64, &mut out);
            let mut i: usize = 0;
            proof {
                assert(dv.skip(0) =~= dv);
                assert(out@ =~= seq![1u8] + le64(n as u64));
            }
            while i < n
                invariant
                    0 <= i <= n == dv.len(),
                    dv == rows.deep_view(),
                    seq![1u8] + le64(n as u64) + bin_rows(dv) == out@ + bin_rows(
                        dv.skip(i as int),
                    ),
                decreases n - i,
            {
                proof {
                    assert(rows@[i as int].deep_view() == dv[i as int]);
                    assert(dv.skip(i as int)[0] == dv[i as int]);
                    assert(dv.skip(i as int).drop_first() =~= dv.skip(i + 1));
                }
                bin_row_exec(&rows[i], &mut out);
                i = i + 1;
            }
            proof {
                assert(dv.skip(n as int).len() == 0);
                assert(bin_rows(dv.skip(n as int)) =~= Seq::<u8>::empty());
                assert(out@ =~= seq![1u8] + le64(n as u64) + bin_rows(dv));
            }
        },
    }
    out
}

/// Serialize the dataset and wrap the bytes in base64; fails only when
/// the base64 length overflows an address-sized integer.
pub fn protobuf_encode(data: &Option<Vec<StrMap>>) -> (r: Result<String, crate::RenderError>)
    ensures
        ({
            let bytes = bin_of(match data {
                Some(rows) => Some(rows.deep_view()),
                None => None,
            });
            match r {
                Ok(s) => b64_len_ok(bytes.len() as int) && s@ == b64_of(bytes),
                Err(e) => !b64_len_ok(bytes.len() as int) && e is SerializationError,
            }
        }),
{
    let bytes = bin_encode(data);
    let n = bytes.len();
    if n <= usize::MAX - 2 && (n + 2) / 3 <= usize::MAX / 4 {
        proof {
            assert(4 * (((n as int) + 2) / 3) <= 4 * ((usize::MAX as int) / 4));
            assert(4 * ((usize::MAX as int) / 4) <= usize::MAX as int);
        }
        Ok(base64_encode(&bytes))
    } else {
        proof {
            if n <= usize::MAX - 2 {
                assert((n + 2) / 3 > usize::MAX / 4);
                assert(4 * (((n as int) + 2) / 3) >= 4 * ((usize::MAX as int) / 4 + 1));
                assert(4 * ((usize::MAX as int) / 4 + 1) > usize::MAX as int);
            }
        }
        Err(crate::RenderError::SerializationError(String::new()))
    }
}

} // verus!
