//! What each SQL entry point computes between fetching its rows and handing
//! them back: decoding, UTF-8 checks and sorting.
use vstd::prelude::*;
use crate::copy_binary::{copy_byte_fields, copy_int_fields, decode_byte_column, decode_int_column, CopyError};
use crate::multimerge::ordenar_multi_merge_generic;
use crate::order::total_order;
use crate::parallel::par_sort_unstable_bytes;
use crate::sorted::{is_stable_sort_of, sorted};
use crate::text::{all_utf8, bytes_sorted, is_utf8};

verus! {

broadcast use vstd::seq_lib::group_to_multiset_ensures;

/// Decodes the 32-bit integers of a binary COPY stream and sorts them.
pub fn multimerge_binary_copy(data: &[u8]) -> (r: Result<Vec<i32>, CopyError>)
    ensures
        match copy_int_fields(data@) {
            Some(values) => r matches Ok(v) && sorted(v@) && v@.to_multiset() == values.to_multiset(),
            None => r == Err::<Vec<i32>, CopyError>(CopyError::Truncated),
        },
{
    let mut values = match decode_int_column(data) {
        Ok(v) => v,
        Err(e) => return Err(e),
    };
    ordenar_multi_merge_generic(values.as_mut_slice());
    Ok(values)
}

/// Decodes the text fields of a binary COPY stream, without checking that they
/// are UTF-8, and sorts them byte-wise.
pub fn multimerge_binary_copy_text(data: &[u8]) -> (r: Result<Vec<Vec<u8>>, CopyError>)
    ensures
        match copy_byte_fields(data@) {
            Some(fields) => r matches Ok(v) && bytes_sorted(v.deep_view())
                && v.deep_view().to_multiset() == fields.to_multiset(),
            None => r == Err::<Vec<Vec<u8>>, CopyError>(CopyError::Truncated),
        },
{
    let mut fields = match decode_byte_column(data) {
        Ok(v) => v,
        Err(e) => return Err(e),
    };
    par_sort_unstable_bytes(&mut fields);
    Ok(fields)
}

/// Decodes the text fields of a binary COPY stream, checks that each is UTF-8,
/// and sorts them byte-wise.
pub fn multimerge_binary_copy_text_arena(data: &[u8]) -> (r: Result<Vec<Vec<u8>>, CopyError>)
    ensures
        match copy_byte_fields(data@) {
            Some(fields) => if all_utf8(fields) {
                r matches Ok(v) && bytes_sorted(v.deep_view()) && all_utf8(v.deep_view())
                    && v.deep_view().to_multiset() == fields.to_multiset()
            } else {
                r == Err::<Vec<Vec<u8>>, CopyError>(CopyError::InvalidUtf8)
            },
            None => r == Err::<Vec<Vec<u8>>, CopyError>(CopyError::Truncated),
        },
{
    let mut fields = match decode_byte_column(data) {
        Ok(v) => v,
        Err(e) => return Err(e),
    };
    let mut i: usize = 0;
    while i < fields.len()
        invariant
            0 <= i <= fields@.len(),
            copy_byte_fields(data@) == Some(fields.deep_view()),
            forall|k: int| 0 <= k < i ==> vstd::utf8::valid_utf8(#[trigger] fields.deep_view()[k]),
        decreases fields@.len() - i,
    {
        if !is_utf8(fields[i].as_slice()) {
            proof {
                assert(fields@[i as int]@ =~= fields.deep_view()[i as int]);
            }
            return Err(CopyError::InvalidUtf8);
        }
        proof {
            assert(fields@[i as int]@ =~= fields.deep_view()[i as int]);
        }
        i += 1;
    }
    let ghost before = fields.deep_view();
    par_sort_unstable_bytes(&mut fields);
    proof {
        let after = fields.deep_view();
        assert forall|k: int| 0 <= k < after.len() implies vstd::utf8::valid_utf8(#[trigger] after[k]) by {
            assert(after.contains(after[k]));
            assert(after.to_multiset().count(after[k]) > 0);
            assert(before.to_multiset().count(after[k]) > 0);
            assert(before.contains(after[k]));
            let j = choose|j: int| 0 <= j < before.len() && before[j] == after[k];
            assert(vstd::utf8::valid_utf8(before[j]));
        }
    }
    Ok(fields)
}

/// The values of the rows that are not NULL, in row order.
pub open spec fn non_null<T>(rows: Seq<Option<T>>) -> Seq<T>
    decreases rows.len(),
{
    if rows.len() == 0 {
        Seq::empty()
    } else {
        let rest = non_null(rows.drop_last());
        match rows.last() {
            Some(v) => rest.push(v),
            None => rest,
        }
    }
}

/// `v` occurs in the values kept from `rows` as often as `rows` holds `Some(v)`.
pub proof fn lemma_non_null_counts<T>(rows: Seq<Option<T>>, v: T)
    ensures
        non_null(rows).to_multiset().count(v) == rows.filter(|o: Option<T>| o == Some(v)).len(),
    decreases rows.len(),
{
    reveal(Seq::filter);
    if rows.len() == 0 {
        assert(non_null(rows).to_multiset() =~= vstd::multiset::Multiset::empty());
    } else {
        lemma_non_null_counts(rows.drop_last(), v);
    }
}

/// Keeps the values of the rows that are not NULL and sorts them stably.
pub fn multimerge_stream<T: Ord + Copy + Send + Sync>(rows: &[Option<T>]) -> (r: Vec<T>)
    requires
        total_order::<T>(),
    ensures
        is_stable_sort_of(non_null(rows@), r@),
        forall|v: T| #[trigger] r@.to_multiset().count(v) == rows@.filter(|o: Option<T>| o == Some(v)).len(),
{
    let mut values: Vec<T> = Vec::new();
    let mut i: usize = 0;
    while i < rows.len()
        invariant
            i <= rows@.len(),
            values@ == non_null(rows@.subrange(0, i as int)),
        decreases rows@.len() - i,
    {
        proof {
            assert(rows@.subrange(0, i + 1).drop_last() =~= rows@.subrange(0, i as int));
        }
        match rows[i] {
            Some(v) => values.push(v),
            None => {},
        }
        i += 1;
    }
    proof {
        assert(rows@.subrange(0, rows@.len() as int) =~= rows@);
    }
    ordenar_multi_merge_generic(values.as_mut_slice());
    proof {
        assert forall|v: T| #[trigger] values@.to_multiset().count(v) == rows@.filter(|o: Option<T>| o == Some(v)).len() by {
            lemma_non_null_counts(rows@, v);
        }
    }
    values
}

} // verus!
