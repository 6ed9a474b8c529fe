//! Decoding the PostgreSQL `COPY ... WITH (FORMAT BINARY)` stream: an
//! 11-byte signature, a 32-bit flags field, a 32-bit header-extension length
//! and that many bytes, then one tuple after another, each a 16-bit field
//! count (-1 ends the stream) and, for the first field, a 32-bit length
//! (-1 for NULL) and that many bytes. All integers are big-endian.
use vstd::prelude::*;
use crate::copy_laws::{i16_be_bytes, i32_be_bytes, lemma_i16_be_bytes_of_read, lemma_i32_be_bytes_of_read};

verus! {

/// Why a stream could not be decoded.
#[derive(Debug, Clone, Copy, PartialEq, Eq, Structural)]
pub enum CopyError {
    /// The stream ended in the middle of the header or of a tuple.
    Truncated,
    /// A text field is not valid UTF-8.
    InvalidUtf8,
}

/// The big-endian 16-bit integer in `d[p..p + 2]`.
pub open spec fn be_i16_at(d: Seq<u8>, p: int) -> int {
    let u = d[p] * 256 + d[p + 1];
    if u >= 0x8000 {
        u - 0x1_0000
    } else {
        u
    }
}

/// The big-endian 32-bit integer in `d[p..p + 4]`.
pub open spec fn be_i32_at(d: Seq<u8>, p: int) -> int {
    let u = d[p] * 0x100_0000 + d[p + 1] * 0x1_0000 + d[p + 2] * 0x100 + d[p + 3];
    if u >= 0x8000_0000 {
        u - 0x1_0000_0000
    } else {
        u
    }
}

/// Where the first tuple starts: after the 19 fixed header bytes and the
/// header extension, if the stream holds them.
pub open spec fn header_end(d: Seq<u8>) -> Option<int> {
    if d.len() < 19 {
        None
    } else {
        let ext = be_i32_at(d, 15);
        if ext > 0 {
            if 19 + ext <= d.len() {
                Some(19 + ext)
            } else {
                None
            }
        } else {
            Some(19)
        }
    }
}

/// The values of the tuples from `p` on whose first field is 4 bytes long,
/// read as 32-bit integers; other fields are skipped. `None` where the stream
/// ends before its end-of-data marker.
pub open spec fn int_fields(d: Seq<u8>, p: int) -> Option<Seq<i32>>
    decreases d.len() - p,
{
    if p < 0 || p + 2 > d.len() {
        None
    } else if be_i16_at(d, p) == -1 {
        Some(Seq::empty())
    } else if p + 6 > d.len() {
        None
    } else {
        let len = be_i32_at(d, p + 2);
        if len == 4 {
            if p + 10 > d.len() {
                None
            } else {
                match int_fields(d, p + 10) {
                    Some(rest) => Some(seq![be_i32_at(d, p + 6) as i32] + rest),
                    None => None,
                }
            }
        } else if len > 0 {
            if p + 6 + len > d.len() {
                None
            } else {
                int_fields(d, p + 6 + len)
            }
        } else {
            int_fields(d, p + 6)
        }
    }
}

/// The bytes of the tuples from `p` on whose first field is not NULL and not
/// empty. `None` where the stream ends before its end-of-data marker.
pub open spec fn byte_fields(d: Seq<u8>, p: int) -> Option<Seq<Seq<u8>>>
    decreases d.len() - p,
{
    if p < 0 || p + 2 > d.len() {
        None
    } else if be_i16_at(d, p) == -1 {
        Some(Seq::empty())
    } else if p + 6 > d.len() {
        None
    } else {
        let len = be_i32_at(d, p + 2);
        if len > 0 {
            if p + 6 + len > d.len() {
                None
            } else {
                match byte_fields(d, p + 6 + len) {
                    Some(rest) => Some(seq![d.subrange(p + 6, p + 6 + len)] + rest),
                    None => None,
                }
            }
        } else {
            byte_fields(d, p + 6)
        }
    }
}

/// The 4-byte fields of a whole stream, as 32-bit integers.
pub open spec fn copy_int_fields(d: Seq<u8>) -> Option<Seq<i32>> {
    match header_end(d) {
        Some(h) => int_fields(d, h),
        None => None,
    }
}

/// The non-empty fields of a whole stream, as bytes.
pub open spec fn copy_byte_fields(d: Seq<u8>) -> Option<Seq<Seq<u8>>> {
    match header_end(d) {
        Some(h) => byte_fields(d, h),
        None => None,
    }
}

/// Reads the big-endian 16-bit integer at `pos`.
pub fn read_i16_be(data: &[u8], pos: usize) -> (r: Result<i16, CopyError>)
    ensures
        match r {
            Ok(v) => pos + 2 <= data@.len() && v == be_i16_at(data@, pos as int)
                && i16_be_bytes(v as int) == data@.subrange(pos as int, pos + 2),
            Err(e) => pos + 2 > data@.len() && e == CopyError::Truncated,
        },
{
    if pos > data.len() || data.len() - pos < 2 {
        return Err(CopyError::Truncated);
    }
    proof {
        lemma_i16_be_bytes_of_read(data@, pos as int);
    }
    let u: u32 = (data[pos] as u32) * 256 + (data[pos + 1] as u32);
    let v: i32 = if u >= 0x8000 { u as i32 - 0x1_0000 } else { u as i32 };
    Ok(v as i16)
}

/// Reads the big-endian 32-bit integer at `pos`.
pub fn read_i32_be(data: &[u8], pos: usize) -> (r: Result<i32, CopyError>)
    ensures
        match r {
            Ok(v) => pos + 4 <= data@.len() && v == be_i32_at(data@, pos as int)
                && i32_be_bytes(v as int) == data@.subrange(pos as int, pos + 4),
            Err(e) => pos + 4 > data@.len() && e == CopyError::Truncated,
        },
{
    if pos > data.len() || data.len() - pos < 4 {
        return Err(CopyError::Truncated);
    }
    proof {
        lemma_i32_be_bytes_of_read(data@, pos as int);
    }
    let u: u64 = (data[pos] as u64) * 0x100_0000 + (data[pos + 1] as u64) * 0x1_0000
        + (data[pos + 2] as u64) * 0x100 + (data[pos + 3] as u64);
    let v: i64 = if u >= 0x8000_0000 { u as i64 - 0x1_0000_0000 } else { u as i64 };
    Ok(v as i32)
}

/// Skips the header: the signature, the flags and the header extension.
/// Returns where the first tuple starts.
pub fn skip_binary_copy_header(data: &[u8]) -> (r: Result<usize, CopyError>)
    ensures
        match header_end(data@) {
            Some(h) => r == Ok::<usize, CopyError>(h as usize),
            None => r == Err::<usize, CopyError>(CopyError::Truncated),
        },
{
    if data.len() < 11 {
        return Err(CopyError::Truncated);
    }
    let _flags = match read_i32_be(data, 11) {
        Ok(v) => v,
        Err(e) => return Err(e),
    };
    let ext_len = match read_i32_be(data, 15) {
        Ok(v) => v,
        Err(e) => return Err(e),
    };
    if ext_len > 0 {
        let ext = ext_len as usize;
        if ext > data.len() - 19 {
            return Err(CopyError::Truncated);
        }
        return Ok(19 + ext);
    }
    Ok(19)
}

/// Decodes the 4-byte first fields of every tuple as 32-bit integers, skipping
/// fields of other lengths and NULLs, up to the end-of-data marker.
pub fn decode_int_column(data: &[u8]) -> (r: Result<Vec<i32>, CopyError>)
    ensures
        match copy_int_fields(data@) {
            Some(values) => r matches Ok(v) && v@ == values,
            None => r == Err::<Vec<i32>, CopyError>(CopyError::Truncated),
        },
{
    let mut pos = match skip_binary_copy_header(data) {
        Ok(p) => p,
        Err(e) => return Err(e),
    };
    let ghost start = pos as int;
    let mut out: Vec<i32> = Vec::new();
    let n = data.len();
    loop
        invariant
            n == data@.len(),
            pos <= n,
            copy_int_fields(data@) == int_fields(data@, start),
            int_fields(data@, start) == (match int_fields(data@, pos as int) {
                Some(rest) => Some(out@ + rest),
                None => None,
            }),
        decreases n - pos,
    {
        let num_fields = match read_i16_be(data, pos) {
            Ok(v) => v,
            Err(e) => {
                return Err(e);
            },
        };
        if num_fields == -1 {
            proof {
                assert(out@ + Seq::<i32>::empty() =~= out@);
            }
            return Ok(out);
        }
        let field_len = match read_i32_be(data, pos + 2) {
            Ok(v) => v,
            Err(e) => {
                return Err(e);
            },
        };
        if field_len == 4 {
            let value = match read_i32_be(data, pos + 6) {
                Ok(v) => v,
                Err(e) => {
                    return Err(e);
                },
            };
            proof {
                let old_out = out@;
                match int_fields(data@, pos + 10) {
                    Some(rest) => {
                        assert(old_out + (seq![value] + rest) =~= old_out.push(value) + rest);
                    },
                    None => {},
                }
            }
            out.push(value);
            pos = pos + 10;
        } else if field_len > 0 {
            let len = field_len as usize;
            if len > n - (pos + 6) {
                return Err(CopyError::Truncated);
            }
            pos = pos + 6 + len;
        } else {
            pos = pos + 6;
        }
    }
}

/// Collects the bytes of the first field of every tuple that is neither NULL
/// nor empty, up to the end-of-data marker.
pub fn decode_byte_column(data: &[u8]) -> (r: Result<Vec<Vec<u8>>, CopyError>)
    ensures
        match copy_byte_fields(data@) {
            Some(fields) => r matches Ok(v) && v.deep_view() == fields,
            None => r == Err::<Vec<Vec<u8>>, CopyError>(CopyError::Truncated),
        },
{
    let mut pos = match skip_binary_copy_header(data) {
        Ok(p) => p,
        Err(e) => return Err(e),
    };
    let ghost start = pos as int;
    let mut out: Vec<Vec<u8>> = Vec::new();
    let n = data.len();
    loop
        invariant
            n == data@.len(),
            pos <= n,
            copy_byte_fields(data@) == byte_fields(data@, start),
            byte_fields(data@, start) == (match byte_fields(data@, pos as int) {
                Some(rest) => Some(out.deep_view() + rest),
                None => None,
            }),
        decreases n - pos,
    {
        let num_fields = match read_i16_be(data, pos) {
            Ok(v) => v,
            Err(e) => {
                return Err(e);
            },
        };
        if num_fields == -1 {
            proof {
                assert(out.deep_view() + Seq::<Seq<u8>>::empty() =~= out.deep_view());
            }
            return Ok(out);
        }
        let field_len = match read_i32_be(data, pos + 2) {
            Ok(v) => v,
            Err(e) => {
                return Err(e);
            },
        };
        if field_len > 0 {
            let len = field_len as usize;
            if len > n - (pos + 6) {
                return Err(CopyError::Truncated);
            }
            let field = vstd::slice::slice_to_vec(vstd::slice::slice_subrange(data, pos + 6, pos + 6 + len));
            let ghost old_out = out.deep_view();
            let ghost field_view = field@;
            out.push(field);
            proof {
                assert(out@[out@.len() - 1].deep_view() =~= field_view);
                assert(out.deep_view() =~= old_out.push(field_view));
                match byte_fields(data@, pos + 6 + len) {
                    Some(rest) => {
                        assert(old_out + (seq![field_view] + rest) =~= old_out.push(field_view) + rest);
                    },
                    None => {},
                }
            }
            pos = pos + 6 + len;
        } else {
            pos = pos + 6;
        }
    }
}

} // verus!
