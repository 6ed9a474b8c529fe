//! What it means for a sequence to be sorted, and for one sequence to be a
//! stable sort of another, with the lemmas that the sorting code builds on.
use vstd::prelude::*;
use vstd::seq_lib::*;
use crate::order::{lemma_order_laws, ord_equiv, ord_le, ord_lt, total_order};

verus! {

broadcast use vstd::seq_lib::group_to_multiset_ensures;

/// Every element is `<=` every element after it.
pub open spec fn sorted<T: Ord>(s: Seq<T>) -> bool {
    forall|i: int, j: int| 0 <= i < j < s.len() ==> ord_le(#[trigger] s[i], #[trigger] s[j])
}

/// The elements that compare equal to `x`.
pub open spec fn tie_class<T: Ord>(x: T) -> spec_fn(T) -> bool {
    |y: T| ord_equiv(y, x)
}

/// For every group of elements that compare equal, `after` holds that group in
/// the same order as `before` does.
pub open spec fn keeps_tie_order<T: Ord>(before: Seq<T>, after: Seq<T>) -> bool {
    forall|x: T| #[trigger] after.filter(tie_class(x)) == before.filter(tie_class(x))
}

/// `after` is `before` sorted, with elements that compare equal kept in the
/// order they have in `before`.
pub open spec fn is_stable_sort_of<T: Ord>(before: Seq<T>, after: Seq<T>) -> bool {
    &&& after.len() == before.len()
    &&& sorted(after)
    &&& after.to_multiset() == before.to_multiset()
    &&& keeps_tie_order(before, after)
}

pub proof fn lemma_filter_push<T>(s: Seq<T>, v: T, p: spec_fn(T) -> bool)
    ensures
        s.push(v).filter(p) == (if p(v) { s.filter(p).push(v) } else { s.filter(p) }),
{
    reveal(Seq::filter);
    assert(s.push(v).drop_last() =~= s);
}

pub proof fn lemma_filter_count<T>(s: Seq<T>, p: spec_fn(T) -> bool, v: T)
    ensures
        s.filter(p).to_multiset().count(v) == (if p(v) { s.to_multiset().count(v) } else { 0 }),
    decreases s.len(),
{
    if s.len() == 0 {
        reveal(Seq::filter);
        assert(s.to_multiset() =~= vstd::multiset::Multiset::empty());
    } else {
        let t = s.drop_last();
        lemma_filter_count(t, p, v);
        assert(t.push(s.last()) =~= s);
        lemma_filter_push(t, s.last(), p);
    }
}

/// Keeping every group of ties in order keeps every element, as often as it occurs.
pub proof fn lemma_tie_order_same_multiset<T: Ord>(before: Seq<T>, after: Seq<T>)
    requires
        total_order::<T>(),
        keeps_tie_order(before, after),
    ensures
        after.to_multiset() == before.to_multiset(),
{
    lemma_order_laws::<T>();
    assert forall|v: T| after.to_multiset().count(v) == before.to_multiset().count(v) by {
        lemma_filter_count(after, tie_class(v), v);
        lemma_filter_count(before, tie_class(v), v);
        assert(after.filter(tie_class(v)) == before.filter(tie_class(v)));
        assert(tie_class(v)(v));
    }
    assert(after.to_multiset() =~= before.to_multiset());
}

pub proof fn lemma_tie_order_refl<T: Ord>(s: Seq<T>)
    ensures
        keeps_tie_order(s, s),
{
}

pub proof fn lemma_tie_order_trans<T: Ord>(a: Seq<T>, b: Seq<T>, c: Seq<T>)
    requires
        keeps_tie_order(a, b),
        keeps_tie_order(b, c),
    ensures
        keeps_tie_order(a, c),
{
    assert forall|x: T| #[trigger] c.filter(tie_class(x)) == a.filter(tie_class(x)) by {
        assert(c.filter(tie_class(x)) == b.filter(tie_class(x)));
        assert(b.filter(tie_class(x)) == a.filter(tie_class(x)));
    }
}

pub proof fn lemma_tie_order_concat<T: Ord>(a1: Seq<T>, b1: Seq<T>, a2: Seq<T>, b2: Seq<T>)
    requires
        keeps_tie_order(a1, b1),
        keeps_tie_order(a2, b2),
    ensures
        keeps_tie_order(a1 + a2, b1 + b2),
{
    assert forall|x: T| #[trigger] (b1 + b2).filter(tie_class(x)) == (a1 + a2).filter(tie_class(x)) by {
        Seq::filter_distributes_over_add(a1, a2, tie_class(x));
        Seq::filter_distributes_over_add(b1, b2, tie_class(x));
        assert(b1.filter(tie_class(x)) == a1.filter(tie_class(x)));
        assert(b2.filter(tie_class(x)) == a2.filter(tie_class(x)));
    }
}

/// Swapping two neighbours that do not compare equal keeps every group of ties in order.
pub proof fn lemma_tie_order_swap<T: Ord>(s: Seq<T>, i: int)
    requires
        total_order::<T>(),
        0 <= i,
        i + 1 < s.len(),
        !ord_equiv(s[i], s[i + 1]),
    ensures
        keeps_tie_order(s, s.update(i, s[i + 1]).update(i + 1, s[i])),
{
    lemma_order_laws::<T>();
    let t = s.update(i, s[i + 1]).update(i + 1, s[i]);
    let pre = s.subrange(0, i);
    let post = s.subrange(i + 2, s.len() as int);
    let u = s[i];
    let v = s[i + 1];
    assert(s =~= pre + seq![u, v] + post);
    assert(t =~= pre + seq![v, u] + post);
    assert forall|x: T| #[trigger] t.filter(tie_class(x)) == s.filter(tie_class(x)) by {
        let p = tie_class(x);
        Seq::filter_distributes_over_add(pre + seq![u, v], post, p);
        Seq::filter_distributes_over_add(pre, seq![u, v], p);
        Seq::filter_distributes_over_add(pre + seq![v, u], post, p);
        Seq::filter_distributes_over_add(pre, seq![v, u], p);
        lemma_filter_push(seq![u], v, p);
        lemma_filter_push(seq![v], u, p);
        lemma_filter_push(Seq::<T>::empty(), u, p);
        lemma_filter_push(Seq::<T>::empty(), v, p);
        assert(seq![u].push(v) =~= seq![u, v]);
        assert(seq![v].push(u) =~= seq![v, u]);
        assert(Seq::<T>::empty().push(u) =~= seq![u]);
        assert(Seq::<T>::empty().push(v) =~= seq![v]);
        reveal(Seq::filter);
        assert(Seq::<T>::empty().filter(p) =~= Seq::<T>::empty());
        assert(!(p(u) && p(v)));
        assert(seq![u, v].filter(p) =~= seq![v, u].filter(p));
    }
}

/// Each group of ties in `out` is that group in `left` followed by that group in `right`.
pub open spec fn ties_left_then_right<T: Ord>(out: Seq<T>, left: Seq<T>, right: Seq<T>) -> bool {
    forall|x: T| #[trigger] out.filter(tie_class(x)) == left.filter(tie_class(x)) + right.filter(tie_class(x))
}

pub proof fn lemma_filter_none<T>(s: Seq<T>, p: spec_fn(T) -> bool)
    requires
        forall|i: int| 0 <= i < s.len() ==> !p(#[trigger] s[i]),
    ensures
        s.filter(p) == Seq::<T>::empty(),
    decreases s.len(),
{
    reveal(Seq::filter);
    if s.len() > 0 {
        let t = s.drop_last();
        assert forall|i: int| 0 <= i < t.len() implies !p(#[trigger] t[i]) by {
            assert(t[i] == s[i]);
        }
        lemma_filter_none(t, p);
    }
}

/// A merge that keeps ties left-then-right, of `left` and `right`, keeps the ties
/// of `left + right`.
pub proof fn lemma_ties_left_then_right<T: Ord>(out: Seq<T>, left: Seq<T>, right: Seq<T>)
    requires
        ties_left_then_right(out, left, right),
    ensures
        keeps_tie_order(left + right, out),
{
    assert forall|x: T| #[trigger] out.filter(tie_class(x)) == (left + right).filter(tie_class(x)) by {
        Seq::filter_distributes_over_add(left, right, tie_class(x));
    }
}

pub proof fn lemma_sorted_concat<T: Ord>(a: Seq<T>, b: Seq<T>)
    requires
        sorted(a),
        sorted(b),
        forall|p: int, q: int| 0 <= p < a.len() && 0 <= q < b.len() ==> ord_le(#[trigger] a[p], #[trigger] b[q]),
    ensures
        sorted(a + b),
{
    let s = a + b;
    assert forall|i: int, j: int| 0 <= i < j < s.len() implies ord_le(#[trigger] s[i], #[trigger] s[j]) by {
        if j < a.len() {
            assert(s[i] == a[i] && s[j] == a[j]);
        } else if i >= a.len() {
            assert(s[i] == b[i - a.len()] && s[j] == b[j - a.len()]);
        } else {
            assert(s[i] == a[i] && s[j] == b[j - a.len()]);
        }
    }
}

pub proof fn lemma_sorted_push<T: Ord>(a: Seq<T>, x: T)
    requires
        sorted(a),
        forall|p: int| 0 <= p < a.len() ==> ord_le(#[trigger] a[p], x),
    ensures
        sorted(a.push(x)),
{
    let s = a.push(x);
    assert forall|i: int, j: int| 0 <= i < j < s.len() implies ord_le(#[trigger] s[i], #[trigger] s[j]) by {
        assert(s[i] == a[i]);
        if j < a.len() {
            assert(s[j] == a[j]);
        }
    }
}

pub proof fn lemma_sorted_subrange<T: Ord>(a: Seq<T>, lo: int, hi: int)
    requires
        sorted(a),
        0 <= lo <= hi <= a.len(),
    ensures
        sorted(a.subrange(lo, hi)),
{
    let s = a.subrange(lo, hi);
    assert forall|i: int, j: int| 0 <= i < j < s.len() implies ord_le(#[trigger] s[i], #[trigger] s[j]) by {
        assert(s[i] == a[lo + i] && s[j] == a[lo + j]);
    }
}

/// Taking the next element from the left run, which is greater than everything
/// taken from the right run so far.
pub proof fn lemma_merge_take_left<T: Ord>(out: Seq<T>, l: Seq<T>, r: Seq<T>, x: T)
    requires
        total_order::<T>(),
        ties_left_then_right(out, l, r),
        forall|q: int| 0 <= q < r.len() ==> ord_lt(#[trigger] r[q], x),
    ensures
        ties_left_then_right(out.push(x), l.push(x), r),
{
    lemma_order_laws::<T>();
    assert forall|y: T| #[trigger] out.push(x).filter(tie_class(y))
        == l.push(x).filter(tie_class(y)) + r.filter(tie_class(y)) by {
        let c = tie_class(y);
        lemma_filter_push(out, x, c);
        lemma_filter_push(l, x, c);
        assert(out.filter(c) == l.filter(c) + r.filter(c));
        if c(x) {
            assert forall|q: int| 0 <= q < r.len() implies !c(#[trigger] r[q]) by {
                assert(ord_lt(r[q], x));
            }
            lemma_filter_none(r, c);
            assert(l.filter(c) + r.filter(c) =~= l.filter(c));
            assert(l.filter(c).push(x) + r.filter(c) =~= l.filter(c).push(x));
        }
    }
}

/// Taking the next element from the right run.
pub proof fn lemma_merge_take_right<T: Ord>(out: Seq<T>, l: Seq<T>, r: Seq<T>, z: T)
    requires
        ties_left_then_right(out, l, r),
    ensures
        ties_left_then_right(out.push(z), l, r.push(z)),
{
    assert forall|y: T| #[trigger] out.push(z).filter(tie_class(y))
        == l.filter(tie_class(y)) + r.push(z).filter(tie_class(y)) by {
        let c = tie_class(y);
        lemma_filter_push(out, z, c);
        lemma_filter_push(r, z, c);
        assert(out.filter(c) == l.filter(c) + r.filter(c));
        assert((l.filter(c) + r.filter(c)).push(z) =~= l.filter(c) + r.filter(c).push(z));
    }
}

/// Appending the rest of the left run, all of it greater than the whole right run.
pub proof fn lemma_merge_rest_left<T: Ord>(out: Seq<T>, l1: Seq<T>, l2: Seq<T>, r: Seq<T>)
    requires
        total_order::<T>(),
        ties_left_then_right(out, l1, r),
        forall|q: int, p: int| 0 <= q < r.len() && 0 <= p < l2.len() ==> ord_lt(#[trigger] r[q], #[trigger] l2[p]),
    ensures
        ties_left_then_right(out + l2, l1 + l2, r),
{
    lemma_order_laws::<T>();
    assert forall|y: T| #[trigger] (out + l2).filter(tie_class(y))
        == (l1 + l2).filter(tie_class(y)) + r.filter(tie_class(y)) by {
        let c = tie_class(y);
        Seq::filter_distributes_over_add(out, l2, c);
        Seq::filter_distributes_over_add(l1, l2, c);
        assert(out.filter(c) == l1.filter(c) + r.filter(c));
        if exists|p: int| 0 <= p < l2.len() && c(#[trigger] l2[p]) {
            let p = choose|p: int| 0 <= p < l2.len() && c(#[trigger] l2[p]);
            assert forall|q: int| 0 <= q < r.len() implies !c(#[trigger] r[q]) by {
                assert(ord_lt(r[q], l2[p]));
            }
            lemma_filter_none(r, c);
        } else {
            lemma_filter_none(l2, c);
        }
        assert(l1.filter(c) + r.filter(c) + l2.filter(c) =~= l1.filter(c) + l2.filter(c) + r.filter(c));
    }
}

/// Appending the rest of the right run.
pub proof fn lemma_merge_rest_right<T: Ord>(out: Seq<T>, l: Seq<T>, r1: Seq<T>, r2: Seq<T>)
    requires
        ties_left_then_right(out, l, r1),
    ensures
        ties_left_then_right(out + r2, l, r1 + r2),
{
    assert forall|y: T| #[trigger] (out + r2).filter(tie_class(y))
        == l.filter(tie_class(y)) + (r1 + r2).filter(tie_class(y)) by {
        let c = tie_class(y);
        Seq::filter_distributes_over_add(out, r2, c);
        Seq::filter_distributes_over_add(r1, r2, c);
        assert(out.filter(c) == l.filter(c) + r1.filter(c));
        assert(l.filter(c) + r1.filter(c) + r2.filter(c) =~= l.filter(c) + (r1.filter(c) + r2.filter(c)));
    }
}

pub proof fn lemma_filter_members<T>(s: Seq<T>, p: spec_fn(T) -> bool, v: T)
    ensures
        s.filter(p).contains(v) ==> s.contains(v) && p(v),
    decreases s.len(),
{
    reveal(Seq::filter);
    if s.len() > 0 {
        let t = s.drop_last();
        lemma_filter_members(t, p, v);
        if s.filter(p).contains(v) {
            let k = choose|k: int| 0 <= k < s.filter(p).len() && s.filter(p)[k] == v;
            if p(s.last()) && k == s.filter(p).len() - 1 {
                assert(s[s.len() - 1] == v);
            } else {
                assert(t.filter(p)[k] == v);
                let j = choose|j: int| 0 <= j < t.len() && t[j] == v;
                assert(s[j] == v);
            }
        }
    }
}

proof fn lemma_push_injective<T>(a: Seq<T>, v: T, b: Seq<T>, w: T)
    requires
        a.push(v) == b.push(w),
    ensures
        a == b,
        v == w,
{
    assert(a =~= a.push(v).drop_last());
    assert(b =~= b.push(w).drop_last());
    assert(a.push(v)[a.len() as int] == v);
}

/// Two sorted sequences that hold every group of ties in the same order are equal.
pub proof fn lemma_sorted_same_ties_equal<T: Ord>(o1: Seq<T>, o2: Seq<T>)
    requires
        total_order::<T>(),
        sorted(o1),
        sorted(o2),
        o1.len() == o2.len(),
        keeps_tie_order(o1, o2),
    ensures
        o1 == o2,
    decreases o1.len(),
{
    lemma_order_laws::<T>();
    if o1.len() == 0 {
        assert(o1 =~= o2);
    } else {
        let n = o1.len() - 1;
        let x = o1.last();
        let y = o2.last();
        let a = o1.drop_last();
        let b = o2.drop_last();
        assert(a.push(x) =~= o1);
        assert(b.push(y) =~= o2);
        let cx = tie_class(x);
        let cy = tie_class(y);
        lemma_filter_push(a, x, cx);
        lemma_filter_push(b, y, cx);
        lemma_filter_push(a, x, cy);
        lemma_filter_push(b, y, cy);
        assert(o2.filter(cx) == o1.filter(cx));
        assert(o2.filter(cy) == o1.filter(cy));
        assert(cx(x));
        assert(cy(y));
        if !cx(y) {
            assert(o1.filter(cx).contains(x)) by {
                assert(o1.filter(cx)[o1.filter(cx).len() - 1] == x);
            }
            lemma_filter_members(o2, cx, x);
            let j = choose|j: int| 0 <= j < o2.len() && o2[j] == x;
            if j < n {
                assert(ord_le(o2[j], o2[n]));
            }
            assert(ord_le(x, y));
            assert(o2.filter(cy).contains(y)) by {
                assert(o2.filter(cy)[o2.filter(cy).len() - 1] == y);
            }
            lemma_filter_members(o1, cy, y);
            let i = choose|i: int| 0 <= i < o1.len() && o1[i] == y;
            if i < n {
                assert(ord_le(o1[i], o1[n]));
            }
            assert(ord_le(y, x));
            assert(false);
        }
        lemma_push_injective(a.filter(cx), x, b.filter(cx), y);
        assert forall|z: T| #[trigger] b.filter(tie_class(z)) == a.filter(tie_class(z)) by {
            let cz = tie_class(z);
            lemma_filter_push(a, x, cz);
            lemma_filter_push(b, y, cz);
            assert(o2.filter(cz) == o1.filter(cz));
            if cz(x) {
                lemma_push_injective(b.filter(cz), y, a.filter(cz), x);
            }
        }
        assert forall|i: int, j: int| 0 <= i < j < a.len() implies ord_le(#[trigger] a[i], #[trigger] a[j]) by {
            assert(a[i] == o1[i] && a[j] == o1[j]);
        }
        assert forall|i: int, j: int| 0 <= i < j < b.len() implies ord_le(#[trigger] b[i], #[trigger] b[j]) by {
            assert(b[i] == o2[i] && b[j] == o2[j]);
        }
        lemma_sorted_same_ties_equal(a, b);
    }
}

/// A stable sort is unique: any two stable sorts of the same sequence are equal.
pub proof fn lemma_stable_sort_unique<T: Ord>(input: Seq<T>, o1: Seq<T>, o2: Seq<T>)
    requires
        total_order::<T>(),
        is_stable_sort_of(input, o1),
        is_stable_sort_of(input, o2),
    ensures
        o1 == o2,
{
    assert forall|x: T| #[trigger] o2.filter(tie_class(x)) == o1.filter(tie_class(x)) by {
        assert(o2.filter(tie_class(x)) == input.filter(tie_class(x)));
        assert(o1.filter(tie_class(x)) == input.filter(tie_class(x)));
    }
    lemma_sorted_same_ties_equal(o1, o2);
}

/// Each element is `>` the next.
pub open spec fn strictly_falling<T: Ord>(s: Seq<T>) -> bool {
    forall|k: int| 1 <= k < s.len() ==> ord_lt(#[trigger] s[k], s[k - 1])
}

proof fn lemma_falling_pairwise<T: Ord>(s: Seq<T>, i: int, j: int)
    requires
        total_order::<T>(),
        strictly_falling(s),
        0 <= i < j < s.len(),
    ensures
        ord_lt(s[j], s[i]),
    decreases j - i,
{
    lemma_order_laws::<T>();
    assert(ord_lt(s[j], s[j - 1]));
    if j - 1 > i {
        lemma_falling_pairwise(s, i, j - 1);
    }
}

/// In a strictly falling sequence no two elements tie, so each group of ties
/// has at most one element, and reversing keeps every group as it is.
proof fn lemma_falling_reverse_filter<T: Ord>(s: Seq<T>, x: T)
    requires
        total_order::<T>(),
        strictly_falling(s),
    ensures
        s.filter(tie_class(x)).len() <= 1,
        s.reverse().filter(tie_class(x)) == s.filter(tie_class(x)),
    decreases s.len(),
{
    lemma_order_laws::<T>();
    let c = tie_class(x);
    if s.len() == 0 {
        assert(s.reverse() =~= s);
    } else {
        let t = s.drop_last();
        let v = s.last();
        assert(t.push(v) =~= s);
        assert forall|k: int| 1 <= k < t.len() implies ord_lt(#[trigger] t[k], t[k - 1]) by {
            assert(t[k] == s[k] && t[k - 1] == s[k - 1]);
        }
        lemma_falling_reverse_filter(t, x);
        assert(s.reverse() =~= seq![v] + t.reverse());
        Seq::filter_distributes_over_add(seq![v], t.reverse(), c);
        lemma_filter_push(t, v, c);
        lemma_filter_push(Seq::<T>::empty(), v, c);
        assert(Seq::<T>::empty().push(v) =~= seq![v]);
        assert(Seq::<T>::empty().filter(c) =~= Seq::<T>::empty()) by {
            reveal(Seq::filter);
        }
        if c(v) {
            assert forall|k: int| 0 <= k < t.len() implies !c(#[trigger] t[k]) by {
                lemma_falling_pairwise(s, k, s.len() - 1);
                assert(t[k] == s[k]);
            }
            lemma_filter_none(t, c);
            assert(seq![v] + Seq::<T>::empty() =~= Seq::<T>::empty().push(v));
        } else {
            assert(Seq::<T>::empty() + t.filter(c) =~= t.filter(c));
        }
    }
}

/// Reversing a strictly falling sequence is its stable sort.
pub proof fn lemma_falling_reverse_is_stable_sort<T: Ord>(s: Seq<T>)
    requires
        total_order::<T>(),
        strictly_falling(s),
    ensures
        is_stable_sort_of(s, s.reverse()),
{
    lemma_order_laws::<T>();
    let r = s.reverse();
    assert forall|i: int, j: int| 0 <= i < j < r.len() implies ord_le(#[trigger] r[i], #[trigger] r[j]) by {
        lemma_falling_pairwise(s, s.len() - 1 - j, s.len() - 1 - i);
    }
    assert forall|x: T| #[trigger] r.filter(tie_class(x)) == s.filter(tie_class(x)) by {
        lemma_falling_reverse_filter(s, x);
    }
    s.lemma_reverse_to_multiset();
}

} // verus!
