//! What decoding a binary COPY stream gives back, stated over streams built
//! by encoding values the way PostgreSQL writes them: integers as their
//! big-endian bytes (`to_be_bytes`), one tuple per row.
use vstd::prelude::*;
use crate::copy_binary::{be_i16_at, be_i32_at, byte_fields, copy_byte_fields, copy_int_fields, header_end, int_fields};
use crate::sorted::lemma_filter_push;

verus! {

/// `v.to_be_bytes()` for a 32-bit integer: the two's-complement value, most
/// significant byte first.
pub open spec fn i32_be_bytes(v: int) -> Seq<u8> {
    let u = if v >= 0 { v } else { v + 0x1_0000_0000 };
    seq![
        (u / 0x100_0000) as u8,
        (u / 0x1_0000 % 0x100) as u8,
        (u / 0x100 % 0x100) as u8,
        (u % 0x100) as u8,
    ]
}

/// `v.to_be_bytes()` for a 16-bit integer.
pub open spec fn i16_be_bytes(v: int) -> Seq<u8> {
    let u = if v >= 0 { v } else { v + 0x1_0000 };
    seq![(u / 0x100) as u8, (u % 0x100) as u8]
}

/// Reading four bytes back gives the 32-bit integer they encode.
pub proof fn lemma_i32_be_roundtrip(v: int)
    requires
        -0x8000_0000 <= v < 0x8000_0000,
    ensures
        be_i32_at(i32_be_bytes(v), 0) == v,
{
    let u = if v >= 0 { v } else { v + 0x1_0000_0000 };
    let b = i32_be_bytes(v);
    assert(b[0] == u / 0x100_0000 && b[1] == u / 0x1_0000 % 0x100 && b[2] == u / 0x100 % 0x100
        && b[3] == u % 0x100) by (nonlinear_arith)
        requires
            0 <= u < 0x1_0000_0000,
            b == seq![
                (u / 0x100_0000) as u8,
                (u / 0x1_0000 % 0x100) as u8,
                (u / 0x100 % 0x100) as u8,
                (u % 0x100) as u8,
            ];
    assert((u / 0x100_0000) * 0x100_0000 + (u / 0x1_0000 % 0x100) * 0x1_0000 + (u / 0x100 % 0x100) * 0x100
        + u % 0x100 == u) by (nonlinear_arith)
        requires 0 <= u;
}

/// Reading two bytes back gives the 16-bit integer they encode.
pub proof fn lemma_i16_be_roundtrip(v: int)
    requires
        -0x8000 <= v < 0x8000,
    ensures
        be_i16_at(i16_be_bytes(v), 0) == v,
{
    let u = if v >= 0 { v } else { v + 0x1_0000 };
    let b = i16_be_bytes(v);
    assert(b[0] == u / 0x100 && b[1] == u % 0x100) by (nonlinear_arith)
        requires
            0 <= u < 0x1_0000,
            b == seq![(u / 0x100) as u8, (u % 0x100) as u8];
    assert((u / 0x100) * 0x100 + u % 0x100 == u) by (nonlinear_arith)
        requires 0 <= u;
}

/// Any four bytes are the big-endian encoding of the 32-bit integer read from them.
pub proof fn lemma_i32_be_bytes_of_read(d: Seq<u8>, p: int)
    requires
        0 <= p,
        p + 4 <= d.len(),
    ensures
        -0x8000_0000 <= be_i32_at(d, p) < 0x8000_0000,
        i32_be_bytes(be_i32_at(d, p)) == d.subrange(p, p + 4),
{
    let (b0, b1, b2, b3) = (d[p] as int, d[p + 1] as int, d[p + 2] as int, d[p + 3] as int);
    let u = b0 * 0x100_0000 + b1 * 0x1_0000 + b2 * 0x100 + b3;
    assert(u / 0x100_0000 == b0 && u / 0x1_0000 % 0x100 == b1 && u / 0x100 % 0x100 == b2 && u % 0x100 == b3
        && 0 <= u < 0x1_0000_0000) by (nonlinear_arith)
        requires
            0 <= b0 < 0x100,
            0 <= b1 < 0x100,
            0 <= b2 < 0x100,
            0 <= b3 < 0x100,
            u == b0 * 0x100_0000 + b1 * 0x1_0000 + b2 * 0x100 + b3;
    assert(i32_be_bytes(be_i32_at(d, p)) =~= d.subrange(p, p + 4));
}

/// Any two bytes are the big-endian encoding of the 16-bit integer read from them.
pub proof fn lemma_i16_be_bytes_of_read(d: Seq<u8>, p: int)
    requires
        0 <= p,
        p + 2 <= d.len(),
    ensures
        -0x8000 <= be_i16_at(d, p) < 0x8000,
        i16_be_bytes(be_i16_at(d, p)) == d.subrange(p, p + 2),
{
    let (b0, b1) = (d[p] as int, d[p + 1] as int);
    let u = b0 * 0x100 + b1;
    assert(u / 0x100 == b0 && u % 0x100 == b1 && 0 <= u < 0x1_0000) by (nonlinear_arith)
        requires
            0 <= b0 < 0x100,
            0 <= b1 < 0x100,
            u == b0 * 0x100 + b1;
    assert(i16_be_bytes(be_i16_at(d, p)) =~= d.subrange(p, p + 2));
}

/// Reading at `p` inside `d` reads the bytes of `t` when `t` stands at `p`.
proof fn lemma_read_inside(d: Seq<u8>, p: int, t: Seq<u8>)
    requires
        0 <= p,
        p + t.len() <= d.len(),
        d.subrange(p, p + t.len()) == t,
    ensures
        forall|k: int| 0 <= k && k + 2 <= t.len() ==> be_i16_at(d, p + k) == #[trigger] be_i16_at(t, k),
        forall|k: int| 0 <= k && k + 4 <= t.len() ==> be_i32_at(d, p + k) == #[trigger] be_i32_at(t, k),
{
    assert forall|k: int| 0 <= k && k + 2 <= t.len() implies be_i16_at(d, p + k) == #[trigger] be_i16_at(t, k) by {
        assert(d[p + k] == t[k] && d[p + k + 1] == t[k + 1]);
    }
    assert forall|k: int| 0 <= k && k + 4 <= t.len() implies be_i32_at(d, p + k) == #[trigger] be_i32_at(t, k) by {
        assert(d[p + k] == t[k] && d[p + k + 1] == t[k + 1] && d[p + k + 2] == t[k + 2] && d[p + k + 3] == t[k + 3]);
    }
}

/// The 19 header bytes that PostgreSQL writes: the signature `PGCOPY\n\xff\r\n\0`,
/// flags 0 and an empty header extension.
pub open spec fn copy_header() -> Seq<u8> {
    seq![0x50u8, 0x47, 0x43, 0x4f, 0x50, 0x59, 0x0a, 0xff, 0x0d, 0x0a, 0x00] + i32_be_bytes(0) + i32_be_bytes(0)
}

/// The end-of-data marker: a field count of -1.
pub open spec fn copy_trailer() -> Seq<u8> {
    i16_be_bytes(-1)
}

/// A one-column tuple holding an `int4` value, or NULL.
pub open spec fn int_tuple(row: Option<i32>) -> Seq<u8> {
    match row {
        Some(v) => i16_be_bytes(1) + i32_be_bytes(4) + i32_be_bytes(v as int),
        None => i16_be_bytes(1) + i32_be_bytes(-1),
    }
}

/// A one-column tuple holding a byte string, or NULL.
pub open spec fn byte_tuple(row: Option<Seq<u8>>) -> Seq<u8> {
    match row {
        Some(b) => i16_be_bytes(1) + i32_be_bytes(b.len() as int) + b,
        None => i16_be_bytes(1) + i32_be_bytes(-1),
    }
}

/// The tuples of `rows`, one after another.
pub open spec fn int_tuples(rows: Seq<Option<i32>>) -> Seq<u8>
    decreases rows.len(),
{
    if rows.len() == 0 {
        Seq::empty()
    } else {
        int_tuple(rows[0]) + int_tuples(rows.drop_first())
    }
}

/// The tuples of `rows`, one after another.
pub open spec fn byte_tuples(rows: Seq<Option<Seq<u8>>>) -> Seq<u8>
    decreases rows.len(),
{
    if rows.len() == 0 {
        Seq::empty()
    } else {
        byte_tuple(rows[0]) + byte_tuples(rows.drop_first())
    }
}

/// The whole stream PostgreSQL writes for an `int4` column with these rows.
pub open spec fn int_stream(rows: Seq<Option<i32>>) -> Seq<u8> {
    copy_header() + int_tuples(rows) + copy_trailer()
}

/// The whole stream PostgreSQL writes for a text column with these rows.
pub open spec fn byte_stream(rows: Seq<Option<Seq<u8>>>) -> Seq<u8> {
    copy_header() + byte_tuples(rows) + copy_trailer()
}

/// Every byte string is short enough for a field length.
pub open spec fn fields_fit(rows: Seq<Option<Seq<u8>>>) -> bool {
    forall|i: int| 0 <= i < rows.len() && (#[trigger] rows[i]) is Some ==> rows[i]->0.len() < 0x8000_0000
}

/// The values of the rows that are not NULL, in row order.
pub open spec fn present_ints(rows: Seq<Option<i32>>) -> Seq<i32> {
    rows.filter(|o: Option<i32>| o is Some).map_values(|o: Option<i32>| o->0)
}

/// The byte strings of the rows that are neither NULL nor empty, in row order.
pub open spec fn present_bytes(rows: Seq<Option<Seq<u8>>>) -> Seq<Seq<u8>> {
    rows.filter(|o: Option<Seq<u8>>| o is Some && o->0.len() > 0).map_values(|o: Option<Seq<u8>>| o->0)
}

proof fn lemma_filter_map_front<A, B>(rows: Seq<A>, p: spec_fn(A) -> bool, f: spec_fn(A) -> B)
    requires
        rows.len() > 0,
    ensures
        rows.filter(p).map_values(f) == (if p(rows[0]) { seq![f(rows[0])] } else { Seq::<B>::empty() })
            + rows.drop_first().filter(p).map_values(f),
{
    let r0 = rows[0];
    assert(rows =~= seq![r0] + rows.drop_first());
    Seq::filter_distributes_over_add(seq![r0], rows.drop_first(), p);
    lemma_filter_push(Seq::<A>::empty(), r0, p);
    assert(Seq::<A>::empty().push(r0) =~= seq![r0]);
    assert(Seq::<A>::empty().filter(p) =~= Seq::<A>::empty()) by {
        reveal(Seq::filter);
    }
    let a = seq![r0].filter(p);
    let b = rows.drop_first().filter(p);
    assert((a + b).map_values(f) =~= a.map_values(f) + b.map_values(f));
    if p(r0) {
        assert(a =~= seq![r0]);
        assert(a.map_values(f) =~= seq![f(r0)]);
    } else {
        assert(a =~= Seq::<A>::empty());
        assert(a.map_values(f) =~= Seq::<B>::empty());
    }
}

proof fn lemma_header_end()
    ensures
        header_end(copy_header()) == Some(19int),
{
    let h = copy_header();
    lemma_i32_be_roundtrip(0);
    assert(h.len() == 19);
    assert(h.subrange(15, 19) =~= i32_be_bytes(0));
    lemma_read_inside(h, 15, i32_be_bytes(0));
}

proof fn lemma_int_fields_from(pre: Seq<u8>, rows: Seq<Option<i32>>)
    ensures
        int_fields(pre + int_tuples(rows) + copy_trailer(), pre.len() as int) == Some(present_ints(rows)),
    decreases rows.len(),
{
    let d = pre + int_tuples(rows) + copy_trailer();
    let p = pre.len() as int;
    lemma_i16_be_roundtrip(-1);
    lemma_i16_be_roundtrip(1);
    lemma_i32_be_roundtrip(4);
    lemma_i32_be_roundtrip(-1);
    if rows.len() == 0 {
        assert(d =~= pre + copy_trailer());
        assert(d.subrange(p, p + 2) =~= copy_trailer());
        lemma_read_inside(d, p, copy_trailer());
        assert(be_i16_at(copy_trailer(), 0) == -1);
        assert(present_ints(rows) =~= Seq::<i32>::empty()) by {
            reveal(Seq::filter);
        }
    } else {
        let t = int_tuple(rows[0]);
        let rest = rows.drop_first();
        assert(d =~= (pre + t) + int_tuples(rest) + copy_trailer());
        assert(d.subrange(p, p + t.len()) =~= t);
        lemma_read_inside(d, p, t);
        lemma_int_fields_from(pre + t, rest);
        lemma_filter_map_front(rows, |o: Option<i32>| o is Some, |o: Option<i32>| o->0);
        match rows[0] {
            Some(v) => {
                let a = i16_be_bytes(1);
                let b = i32_be_bytes(4);
                let c = i32_be_bytes(v as int);
                lemma_i32_be_roundtrip(v as int);
                assert(t.subrange(0, 2) =~= a);
                assert(t.subrange(2, 6) =~= b);
                assert(t.subrange(6, 10) =~= c);
                lemma_read_inside(t, 0, a);
                lemma_read_inside(t, 2, b);
                lemma_read_inside(t, 6, c);
                assert(be_i16_at(t, 0) == 1);
                assert(be_i32_at(t, 2) == 4);
                assert(be_i32_at(t, 6) == v);
                assert(be_i32_at(d, p + 6) == v);
            },
            None => {
                let a = i16_be_bytes(1);
                let b = i32_be_bytes(-1);
                assert(t.subrange(0, 2) =~= a);
                assert(t.subrange(2, 6) =~= b);
                lemma_read_inside(t, 0, a);
                lemma_read_inside(t, 2, b);
                assert(be_i16_at(t, 0) == 1);
                assert(be_i32_at(t, 2) == -1);
                assert(Seq::<i32>::empty() + present_ints(rest) =~= present_ints(rest));
            },
        }
    }
}

/// Decoding the stream of an `int4` column gives back exactly its values that
/// are not NULL, in row order, each the integer of its four bytes.
pub proof fn lemma_int_stream_decodes(rows: Seq<Option<i32>>)
    ensures
        copy_int_fields(int_stream(rows)) == Some(present_ints(rows)),
{
    lemma_header_end();
    let d = int_stream(rows);
    assert(d.subrange(0, 19) =~= copy_header());
    assert(header_end(d) == header_end(copy_header())) by {
        lemma_read_inside(d, 0, copy_header());
    }
    lemma_int_fields_from(copy_header(), rows);
}

proof fn lemma_byte_tuple_reads(row: Option<Seq<u8>>)
    requires
        row is Some ==> row->0.len() < 0x8000_0000,
    ensures
        be_i16_at(byte_tuple(row), 0) == 1,
        be_i32_at(byte_tuple(row), 2) == (match row {
            Some(f) => f.len() as int,
            None => -1,
        }),
        byte_tuple(row).len() == 6 + (match row {
            Some(f) => f.len() as int,
            None => 0,
        }),
        row is Some ==> byte_tuple(row).subrange(6, byte_tuple(row).len() as int) == row->0,
{
    let t = byte_tuple(row);
    let a = i16_be_bytes(1);
    lemma_i16_be_roundtrip(1);
    assert(t.subrange(0, 2) =~= a);
    lemma_read_inside(t, 0, a);
    let n: int = match row {
        Some(f) => f.len() as int,
        None => -1,
    };
    let b = i32_be_bytes(n);
    lemma_i32_be_roundtrip(n);
    assert(t.subrange(2, 6) =~= b);
    lemma_read_inside(t, 2, b);
    if row is Some {
        assert(t.subrange(6, t.len() as int) =~= row->0);
    }
}

proof fn lemma_byte_fields_from(pre: Seq<u8>, rows: Seq<Option<Seq<u8>>>)
    requires
        fields_fit(rows),
    ensures
        byte_fields(pre + byte_tuples(rows) + copy_trailer(), pre.len() as int) == Some(present_bytes(rows)),
    decreases rows.len(),
{
    let d = pre + byte_tuples(rows) + copy_trailer();
    let p = pre.len() as int;
    if rows.len() == 0 {
        lemma_i16_be_roundtrip(-1);
        assert(d =~= pre + copy_trailer());
        assert(d.subrange(p, p + 2) =~= copy_trailer());
        lemma_read_inside(d, p, copy_trailer());
        assert(be_i16_at(copy_trailer(), 0) == -1);
        assert(present_bytes(rows) =~= Seq::<Seq<u8>>::empty()) by {
            reveal(Seq::filter);
        }
    } else {
        let t = byte_tuple(rows[0]);
        let rest = rows.drop_first();
        assert forall|i: int| 0 <= i < rest.len() && (#[trigger] rest[i]) is Some implies rest[i]->0.len() < 0x8000_0000 by {
            assert(rest[i] == rows[i + 1]);
        }
        assert(rows[0] is Some ==> rows[0]->0.len() < 0x8000_0000);
        lemma_byte_tuple_reads(rows[0]);
        assert(d =~= (pre + t) + byte_tuples(rest) + copy_trailer());
        assert(d.subrange(p, p + t.len()) =~= t);
        lemma_read_inside(d, p, t);
        lemma_byte_fields_from(pre + t, rest);
        lemma_filter_map_front(rows, |o: Option<Seq<u8>>| o is Some && o->0.len() > 0, |o: Option<Seq<u8>>| o->0);
        if rows[0] is Some && rows[0]->0.len() > 0 {
            let f = rows[0]->0;
            assert(d.subrange(p + 6, p + 6 + f.len()) =~= t.subrange(6, t.len() as int));
        } else {
            assert(Seq::<Seq<u8>>::empty() + present_bytes(rest) =~= present_bytes(rest));
        }
    }
}

/// Decoding the stream of a text column gives back exactly its values that are
/// neither NULL nor empty, in row order, each whole.
pub proof fn lemma_byte_stream_decodes(rows: Seq<Option<Seq<u8>>>)
    requires
        fields_fit(rows),
    ensures
        copy_byte_fields(byte_stream(rows)) == Some(present_bytes(rows)),
{
    lemma_header_end();
    let d = byte_stream(rows);
    assert(d.subrange(0, 19) =~= copy_header());
    assert(header_end(d) == header_end(copy_header())) by {
        lemma_read_inside(d, 0, copy_header());
    }
    lemma_byte_fields_from(copy_header(), rows);
}

/// The 4-byte fields of the rows, each read as the 32-bit integer of its bytes;
/// NULLs and fields of other widths are left out.
pub open spec fn four_byte_values(rows: Seq<Option<Seq<u8>>>) -> Seq<i32> {
    rows.filter(|o: Option<Seq<u8>>| o is Some && o->0.len() == 4).map_values(|o: Option<Seq<u8>>| be_i32_at(o->0, 0) as i32)
}

proof fn lemma_int_fields_of_bytes_from(pre: Seq<u8>, rows: Seq<Option<Seq<u8>>>)
    requires
        fields_fit(rows),
    ensures
        int_fields(pre + byte_tuples(rows) + copy_trailer(), pre.len() as int) == Some(four_byte_values(rows)),
    decreases rows.len(),
{
    let d = pre + byte_tuples(rows) + copy_trailer();
    let p = pre.len() as int;
    if rows.len() == 0 {
        lemma_i16_be_roundtrip(-1);
        assert(d =~= pre + copy_trailer());
        assert(d.subrange(p, p + 2) =~= copy_trailer());
        lemma_read_inside(d, p, copy_trailer());
        assert(be_i16_at(copy_trailer(), 0) == -1);
        assert(four_byte_values(rows) =~= Seq::<i32>::empty()) by {
            reveal(Seq::filter);
        }
    } else {
        let t = byte_tuple(rows[0]);
        let rest = rows.drop_first();
        assert forall|i: int| 0 <= i < rest.len() && (#[trigger] rest[i]) is Some implies rest[i]->0.len() < 0x8000_0000 by {
            assert(rest[i] == rows[i + 1]);
        }
        assert(rows[0] is Some ==> rows[0]->0.len() < 0x8000_0000);
        lemma_byte_tuple_reads(rows[0]);
        assert(d =~= (pre + t) + byte_tuples(rest) + copy_trailer());
        assert(d.subrange(p, p + t.len()) =~= t);
        lemma_read_inside(d, p, t);
        lemma_int_fields_of_bytes_from(pre + t, rest);
        lemma_filter_map_front(rows, |o: Option<Seq<u8>>| o is Some && o->0.len() == 4,
            |o: Option<Seq<u8>>| be_i32_at(o->0, 0) as i32);
        if rows[0] is Some && rows[0]->0.len() == 4 {
            let f = rows[0]->0;
            assert(d.subrange(p + 6, p + 10) =~= f);
            lemma_read_inside(d, p + 6, f);
        } else {
            assert(Seq::<i32>::empty() + four_byte_values(rest) =~= four_byte_values(rest));
        }
    }
}

/// Decoding the stream of any column as `int4` keeps exactly the fields that are
/// four bytes wide, in row order, each read as the integer of those bytes, and
/// skips NULLs and fields of every other width whole.
pub proof fn lemma_int_column_of_any_stream(rows: Seq<Option<Seq<u8>>>)
    requires
        fields_fit(rows),
    ensures
        copy_int_fields(byte_stream(rows)) == Some(four_byte_values(rows)),
{
    lemma_header_end();
    let d = byte_stream(rows);
    assert(d.subrange(0, 19) =~= copy_header());
    assert(header_end(d) == header_end(copy_header())) by {
        lemma_read_inside(d, 0, copy_header());
    }
    lemma_int_fields_of_bytes_from(copy_header(), rows);
}

/// The first tuple starts right after the 11-byte signature, the 4-byte flags,
/// the 4-byte extension length and the extension itself, whatever they hold.
pub proof fn lemma_header_with_extension(signature: Seq<u8>, flags: int, ext: Seq<u8>, rest: Seq<u8>)
    requires
        signature.len() == 11,
        -0x8000_0000 <= flags < 0x8000_0000,
        ext.len() < 0x8000_0000,
    ensures
        header_end(signature + i32_be_bytes(flags) + i32_be_bytes(ext.len() as int) + ext + rest)
            == Some(19 + ext.len() as int),
{
    let d = signature + i32_be_bytes(flags) + i32_be_bytes(ext.len() as int) + ext + rest;
    lemma_i32_be_roundtrip(ext.len() as int);
    assert(d.subrange(15, 19) =~= i32_be_bytes(ext.len() as int));
    lemma_read_inside(d, 15, i32_be_bytes(ext.len() as int));
}

} // verus!
