//! Mergesort, bottom up: runs of a given width are merged in pairs into a
//! buffer as long as the slice, the buffer is copied back, and the width
//! doubles, until one run is left. Stable, because a merge takes from the
//! left run whenever the two heads compare equal.

use vstd::prelude::*;
use vstd::seq_lib::to_multiset_build;
use crate::order::{
    at_most,
    le,
    lemma_le_trans,
    lemma_order_laws,
    lemma_trichotomy,
    lt,
    total_order,
};
use crate::slices::{copy_from, copy_of, faithful_clone};
use crate::sortedness::sorted;
use crate::stability::{
    class_of,
    lemma_stable_concat,
    lemma_stable_permutes,
    lemma_stable_sorting,
    lemma_stable_trans,
    stable,
    stably_sorted,
};
use crate::INSERTION_THRESHOLD;

verus! {

/// From `from` up to `to`, `s` is made of sorted runs of `width` elements
/// each, one after the other, the last of them shorter where `s` ends
/// before it is full.
pub open spec fn runs_between<T: Ord>(s: Seq<T>, width: int, from: int, to: int) -> bool
    decreases to - from,
{
    if from >= to || width <= 0 {
        from == to
    } else if from < 0 || s.len() < to {
        false
    } else {
        let next = if from + width <= s.len() {
            from + width
        } else {
            s.len() as int
        };
        &&& next <= to
        &&& sorted(s.subrange(from, next))
        &&& runs_between(s, width, next, to)
    }
}

/// Runs that reach `to` reach on to the end of one more sorted run.
proof fn lemma_runs_extend<T: Ord>(s: Seq<T>, width: int, from: int, to: int, next: int)
    requires
        width > 0,
        0 <= from <= to <= next <= s.len(),
        runs_between(s, width, from, to),
        next == if to + width <= s.len() {
            to + width
        } else {
            s.len() as int
        },
        sorted(s.subrange(to, next)),
    ensures
        runs_between(s, width, from, next),
    decreases to - from,
{
    if from < to {
        let step = if from + width <= s.len() {
            from + width
        } else {
            s.len() as int
        };
        lemma_runs_extend(s, width, step, to, next);
    } else if to < next {
        assert(runs_between(s, width, next, next));
    }
}

/// Whether `s` is in runs between two positions depends on what it holds
/// between them alone.
proof fn lemma_runs_frame<T: Ord>(s: Seq<T>, t: Seq<T>, width: int, from: int, to: int)
    requires
        s.len() == t.len(),
        0 <= from <= to <= s.len(),
        forall|k: int| from <= k < to ==> s[k] == t[k],
        runs_between(s, width, from, to),
    ensures
        runs_between(t, width, from, to),
    decreases to - from,
{
    if from < to && width > 0 {
        let next = if from + width <= s.len() {
            from + width
        } else {
            s.len() as int
        };
        assert(s.subrange(from, next) =~= t.subrange(from, next));
        lemma_runs_frame(s, t, width, next, to);
    }
}

/// Every sequence is in runs of one element.
proof fn lemma_unit_runs<T: Ord>(s: Seq<T>, from: int)
    requires
        0 <= from <= s.len(),
    ensures
        runs_between(s, 1, from, s.len() as int),
    decreases s.len() - from,
{
    if from < s.len() {
        lemma_unit_runs(s, from + 1);
    }
}

/// A sequence in runs at least as wide as itself is sorted, and a sorted
/// sequence is in runs of any such width.
proof fn lemma_one_run<T: Ord>(s: Seq<T>, width: int)
    requires
        width >= s.len(),
        width > 0,
    ensures
        runs_between(s, width, 0, s.len() as int) <==> sorted(s),
{
    let n = s.len() as int;
    assert(s.subrange(0, n) =~= s);
    if n > 0 {
        assert(runs_between(s, width, n, n));
    }
}

/// No element of `s` satisfies `p`: nothing passes the filter.
proof fn lemma_filter_none<T>(s: Seq<T>, p: spec_fn(T) -> bool)
    requires
        forall|k: int| 0 <= k < s.len() ==> !p(#[trigger] s[k]),
    ensures
        s.filter(p) == Seq::<T>::empty(),
    decreases s.len(),
{
    if s.len() == 0 {
        s.lemma_filter_len(p);
        assert(s.filter(p) =~= Seq::<T>::empty());
    } else {
        let r = s.drop_last();
        assert(s =~= r.push(s.last()));
        r.lemma_filter_push(s.last(), p);
        assert forall|k: int| 0 <= k < r.len() implies !p(#[trigger] r[k]) by {
            assert(r[k] == s[k]);
        }
        lemma_filter_none(r, p);
    }
}

/// The merge of `a` and `b`: the lesser of the two first elements goes
/// first, that of `a` where they compare equal, and the rest is merged in
/// the same way.
pub open spec fn merged<T: Ord>(a: Seq<T>, b: Seq<T>) -> Seq<T>
    decreases a.len() + b.len(),
{
    if a.len() == 0 {
        b
    } else if b.len() == 0 {
        a
    } else if le(a[0], b[0]) {
        seq![a[0]] + merged(a.subrange(1, a.len() as int), b)
    } else {
        seq![b[0]] + merged(a, b.subrange(1, b.len() as int))
    }
}

/// Merges the runs `l..r` and `r..e` of `xs` into `buf`, at the same
/// positions: the lesser of the two heads goes first, the left one where
/// they compare equal, until both runs are used up. The rest of `buf` stays
/// as it is.
///
/// What is written is a rearrangement of what the two runs hold. Where both
/// runs are sorted, it is sorted, and a stable rearrangement.
pub fn merge<T: Ord + Clone>(xs: &[T], buf: &mut [T], l: usize, r: usize, e: usize)
    requires
        total_order::<T>(),
        faithful_clone::<T>(),
        l <= r <= e <= xs@.len(),
        e <= old(buf)@.len(),
    ensures
        final(buf)@.subrange(l as int, e as int) == merged(
            xs@.subrange(l as int, r as int),
            xs@.subrange(r as int, e as int),
        ),
        final(buf)@.len() == old(buf)@.len(),
        forall|k: int| 0 <= k < l || e <= k < old(buf)@.len() ==> final(buf)@[k] == old(buf)@[k],
        final(buf)@.subrange(l as int, e as int).to_multiset() == xs@.subrange(
            l as int,
            e as int,
        ).to_multiset(),
        sorted(xs@.subrange(l as int, r as int)) && sorted(xs@.subrange(r as int, e as int)) ==> {
            &&& sorted(final(buf)@.subrange(l as int, e as int))
            &&& stable(xs@.subrange(l as int, e as int), final(buf)@.subrange(l as int, e as int))
        },
{
    let ghost orig = buf@;
    let ghost in_runs = sorted(xs@.subrange(l as int, r as int)) && sorted(
        xs@.subrange(r as int, e as int),
    );
    let mut il = l;
    let mut ir = r;
    let mut i = l;
    proof {
        lemma_order_laws::<T>();
        assert(buf@.subrange(l as int, i as int) =~= Seq::<T>::empty());
        assert(xs@.subrange(l as int, il as int) =~= Seq::<T>::empty());
        assert(xs@.subrange(r as int, ir as int) =~= Seq::<T>::empty());
        assert(Seq::<T>::empty() + Seq::<T>::empty() =~= Seq::<T>::empty());
        assert forall|x: T|
            #[trigger] Seq::<T>::empty().filter(class_of(x)) == Seq::<T>::empty() by {
            Seq::<T>::empty().lemma_filter_len(class_of(x));
            assert(Seq::<T>::empty().filter(class_of(x)) =~= Seq::<T>::empty());
        }
        assert forall|x: T| #[trigger]
            buf@.subrange(l as int, i as int).filter(class_of(x)) == xs@.subrange(
                l as int,
                il as int,
            ).filter(class_of(x)) + xs@.subrange(r as int, ir as int).filter(class_of(x)) by {
            assert(Seq::<T>::empty().filter(class_of(x)) == Seq::<T>::empty());
        }
    }
    while i < e
        invariant
            total_order::<T>(),
            faithful_clone::<T>(),
            l <= il <= r <= ir <= e <= xs@.len(),
            i == il + (ir - r),
            e <= buf@.len(),
            buf@.len() == orig.len(),
            in_runs == (sorted(xs@.subrange(l as int, r as int)) && sorted(
                xs@.subrange(r as int, e as int),
            )),
            forall|k: int| 0 <= k < l || i <= k < orig.len() ==> buf@[k] == orig[k],
            buf@.subrange(l as int, i as int) + merged(
                xs@.subrange(il as int, r as int),
                xs@.subrange(ir as int, e as int),
            ) == merged(xs@.subrange(l as int, r as int), xs@.subrange(r as int, e as int)),
            buf@.subrange(l as int, i as int).to_multiset() == (xs@.subrange(l as int, il as int)
                + xs@.subrange(r as int, ir as int)).to_multiset(),
            in_runs ==> forall|a: int, b: int|
                l <= a < b < i ==> le(#[trigger] buf@[a], #[trigger] buf@[b]),
            in_runs ==> forall|a: int, k: int|
                l <= a < i && (il <= k < r || ir <= k < e) ==> le(
                    #[trigger] buf@[a],
                    #[trigger] xs@[k],
                ),
            in_runs && il < r ==> forall|k: int|
                r <= k < ir ==> lt(#[trigger] xs@[k], xs@[il as int]),
            in_runs ==> forall|x: T| #[trigger]
                buf@.subrange(l as int, i as int).filter(class_of(x)) == xs@.subrange(
                    l as int,
                    il as int,
                ).filter(class_of(x)) + xs@.subrange(r as int, ir as int).filter(class_of(x)),
        decreases e - i,
    {
        let ghost before = buf@;
        let ghost done = before.subrange(l as int, i as int);
        let ghost left = xs@.subrange(l as int, il as int);
        let ghost right = xs@.subrange(r as int, ir as int);
        let ghost a = xs@.subrange(il as int, r as int);
        let ghost b = xs@.subrange(ir as int, e as int);
        proof {
            lemma_order_laws::<T>();
        }
        if il < r && (ir >= e || at_most(&xs[il], &xs[ir])) {
            let v = xs[il].clone();
            buf[i] = v;
            proof {
                let taken = xs@[il as int];
                assert(v == taken);
                assert(buf@.subrange(l as int, i + 1) =~= done.push(taken));
                let a_rest = a.subrange(1, a.len() as int);
                assert(a_rest =~= xs@.subrange(il + 1, r as int));
                assert(merged(a, b) =~= seq![taken] + merged(a_rest, b)) by {
                    if b.len() == 0 {
                        assert(merged(a_rest, b) =~= a_rest);
                    }
                }
                assert(done.push(taken) + merged(a_rest, b) =~= done + (seq![taken] + merged(
                    a_rest,
                    b,
                )));
                assert(xs@.subrange(l as int, il + 1) =~= left.push(taken));
                to_multiset_build(done, taken);
                to_multiset_build(left + right, taken);
                vstd::seq_lib::lemma_multiset_commutative(left, right);
                vstd::seq_lib::lemma_multiset_commutative(left.push(taken), right);
                to_multiset_build(left, taken);
                assert((left.push(taken) + right).to_multiset() =~= (left
                    + right).to_multiset().insert(taken)) by {
                    broadcast use vstd::multiset::group_multiset_axioms;

                }
                if in_runs {
                    let lrun = xs@.subrange(l as int, r as int);
                    let rrun = xs@.subrange(r as int, e as int);
                    assert forall|k: int| il < k < r implies le(taken, #[trigger] xs@[k]) by {
                        assert(le(lrun[il - l], lrun[k - l]));
                    }
                    assert forall|k: int| ir <= k < e implies le(taken, #[trigger] xs@[k]) by {
                        if k > ir {
                            assert(le(rrun[ir - r], rrun[k - r]));
                            lemma_le_trans(taken, xs@[ir as int], xs@[k]);
                        }
                    }
                    if il + 1 < r {
                        assert(le(lrun[il - l], lrun[il + 1 - l]));
                        assert forall|k: int| r <= k < ir implies lt(
                            #[trigger] xs@[k],
                            xs@[il + 1],
                        ) by {
                            lemma_le_trans(xs@[k], taken, xs@[il + 1]);
                        }
                    }
                    assert forall|x: T| #[trigger]
                        buf@.subrange(l as int, i + 1).filter(class_of(x)) == xs@.subrange(
                            l as int,
                            il + 1,
                        ).filter(class_of(x)) + right.filter(class_of(x)) by {
                        let p = class_of(x);
                        done.lemma_filter_push(taken, p);
                        left.lemma_filter_push(taken, p);
                        assert(done.filter(p) == left.filter(p) + right.filter(p));
                        if p(taken) {
                            assert forall|k: int| 0 <= k < right.len() implies !p(
                                #[trigger] right[k],
                            ) by {
                                assert(lt(xs@[r + k], taken));
                                if p(right[k]) {
                                    lemma_trichotomy(x, taken);
                                    crate::order::lemma_equiv_trans(taken, x, right[k]);
                                    lemma_trichotomy(taken, right[k]);
                                    lemma_trichotomy(right[k], taken);
                                }
                            }
                            lemma_filter_none(right, p);
                            let kept = left.filter(p);
                            let none = Seq::<T>::empty();
                            assert(kept.push(taken) + none =~= (kept + none).push(taken));
                        }
                    }
                }
            }
            il = il + 1;
        } else {
            let v = xs[ir].clone();
            buf[i] = v;
            proof {
                let taken = xs@[ir as int];
                assert(v == taken);
                assert(buf@.subrange(l as int, i + 1) =~= done.push(taken));
                let b_rest = b.subrange(1, b.len() as int);
                assert(b_rest =~= xs@.subrange(ir + 1, e as int));
                assert(merged(a, b) =~= seq![taken] + merged(a, b_rest)) by {
                    if a.len() == 0 {
                        assert(merged(a, b_rest) =~= b_rest);
                    }
                }
                assert(done.push(taken) + merged(a, b_rest) =~= done + (seq![taken] + merged(
                    a,
                    b_rest,
                )));
                assert(xs@.subrange(r as int, ir + 1) =~= right.push(taken));
                assert(left + right.push(taken) =~= (left + right).push(taken));
                to_multiset_build(done, taken);
                to_multiset_build(left + right, taken);
                if in_runs {
                    let lrun = xs@.subrange(l as int, r as int);
                    let rrun = xs@.subrange(r as int, e as int);
                    assert forall|k: int| ir < k < e implies le(taken, #[trigger] xs@[k]) by {
                        assert(le(rrun[ir - r], rrun[k - r]));
                    }
                    assert forall|k: int| il <= k < r implies le(taken, #[trigger] xs@[k]) by {
                        if k > il {
                            assert(le(lrun[il - l], lrun[k - l]));
                            lemma_le_trans(taken, xs@[il as int], xs@[k]);
                        }
                    }
                    assert forall|x: T| #[trigger]
                        buf@.subrange(l as int, i + 1).filter(class_of(x)) == left.filter(
                            class_of(x),
                        ) + xs@.subrange(r as int, ir + 1).filter(class_of(x)) by {
                        let p = class_of(x);
                        done.lemma_filter_push(taken, p);
                        right.lemma_filter_push(taken, p);
                        assert(done.filter(p) == left.filter(p) + right.filter(p));
                        if p(taken) {
                            assert(left.filter(p) + right.filter(p).push(taken) =~= (left.filter(p)
                                + right.filter(p)).push(taken));
                        }
                    }
                }
            }
            ir = ir + 1;
        }
        i = i + 1;
    }
    proof {
        let lrun = xs@.subrange(l as int, r as int);
        let rrun = xs@.subrange(r as int, e as int);
        let out = buf@.subrange(l as int, e as int);
        assert(lrun + rrun =~= xs@.subrange(l as int, e as int));
        assert(xs@.subrange(r as int, r as int).len() == 0);
        assert(out + merged(xs@.subrange(r as int, r as int), xs@.subrange(e as int, e as int))
            =~= out);
        if in_runs {
            assert forall|a: int, b: int| 0 <= a < b < out.len() implies le(
                #[trigger] out[a],
                #[trigger] out[b],
            ) by {
                assert(le(buf@[l + a], buf@[l + b]));
            }
            assert forall|x: T| #[trigger]
                out.filter(class_of(x)) == xs@.subrange(l as int, e as int).filter(class_of(x)) by {
                Seq::filter_distributes_over_add(lrun, rrun, class_of(x));
            }
        }
    }
}

/// Sorts a slice that is in sorted runs of `width` by merging the runs in
/// pairs, pass after pass, each pass into a buffer that is then copied
/// back, the width doubling from pass to pass.
fn merge_runs<T: Ord + Clone>(xs: &mut [T], width: usize)
    requires
        total_order::<T>(),
        faithful_clone::<T>(),
        width > 0,
        runs_between(old(xs)@, width as int, 0, old(xs)@.len() as int),
    ensures
        sorted(final(xs)@),
        stable(old(xs)@, final(xs)@),
        final(xs)@.len() == old(xs)@.len(),
{
    let ghost orig = xs@;
    let len = xs.len();
    let mut width = width;
    let mut buf = copy_of(xs);
    proof {
        assert(stable(orig, xs@));
    }
    while width < len
        invariant
            total_order::<T>(),
            faithful_clone::<T>(),
            xs@.len() == len,
            buf@.len() == len,
            orig.len() == len,
            width > 0,
            runs_between(xs@, width as int, 0, len as int),
            stable(orig, xs@),
        decreases len - width,
    {
        let mut start: usize = 0;
        proof {
            assert(xs@.subrange(0, 0) =~= buf@.subrange(0, 0));
        }
        while start < len
            invariant
                total_order::<T>(),
                faithful_clone::<T>(),
                xs@.len() == len,
                buf@.len() == len,
                0 < width < len,
                start <= len,
                runs_between(xs@, width as int, start as int, len as int),
                runs_between(buf@, 2 * width, 0, start as int),
                stable(xs@.subrange(0, start as int), buf@.subrange(0, start as int)),
            decreases len - start,
        {
            let mid = if len - start < width {
                len
            } else {
                start + width
            };
            let end = if len - mid < width {
                len
            } else {
                mid + width
            };
            let ghost before = buf@;
            proof {
                if mid < len {
                    assert(runs_between(xs@, width as int, mid as int, len as int));
                } else {
                    assert(xs@.subrange(mid as int, end as int) =~= Seq::<T>::empty());
                }
            }
            merge(xs, buf.as_mut_slice(), start, mid, end);
            proof {
                let s = start as int;
                let e = end as int;
                lemma_runs_frame(before, buf@, 2 * width, 0, s);
                lemma_runs_extend(buf@, 2 * width, 0, s, e);
                assert(before.subrange(0, s) =~= buf@.subrange(0, s));
                lemma_stable_concat(
                    xs@.subrange(0, s),
                    xs@.subrange(s, e),
                    buf@.subrange(0, s),
                    buf@.subrange(s, e),
                );
                assert(xs@.subrange(0, s) + xs@.subrange(s, e) =~= xs@.subrange(0, e));
                assert(buf@.subrange(0, s) + buf@.subrange(s, e) =~= buf@.subrange(0, e));
            }
            start = end;
        }
        let ghost merged = buf@;
        let ghost doubled = 2 * width;
        width = if width > len - width {
            len
        } else {
            width * 2
        };
        let ghost before = xs@;
        copy_from(xs, buf.as_slice());
        proof {
            assert(xs@ =~= merged);
            assert(before.subrange(0, len as int) =~= before);
            assert(merged.subrange(0, len as int) =~= merged);
            lemma_stable_trans(orig, before, xs@);
            if width != doubled {
                lemma_one_run(xs@, doubled);
                lemma_one_run(xs@, width as int);
            }
        }
    }
    proof {
        if len > 0 {
            lemma_one_run(xs@, width as int);
        }
    }
}

/// Mergesort, bottom up from runs of one element. Needs a buffer as long as
/// the slice. Stable.
pub fn sort<T: Ord + Clone>(xs: &mut [T])
    requires
        total_order::<T>(),
        faithful_clone::<T>(),
    ensures
        sorted(final(xs)@),
        stable(old(xs)@, final(xs)@),
        final(xs)@ == stably_sorted(old(xs)@),
        final(xs)@.to_multiset() == old(xs)@.to_multiset(),
        final(xs)@.len() == old(xs)@.len(),
        sorted(old(xs)@) ==> final(xs)@ == old(xs)@,
        old(xs)@.len() <= 1 ==> final(xs)@ == old(xs)@,
{
    let ghost orig = xs@;
    proof {
        lemma_unit_runs(orig, 0);
    }
    merge_runs(xs, 1);
    proof {
        lemma_stable_sorting(orig, xs@);
    }
}

/// Mergesort that first sorts each block of [`INSERTION_THRESHOLD`]
/// elements by insertion, and merges from runs of that width on. Stable.
pub fn insertion<T: Ord + Clone>(xs: &mut [T])
    requires
        total_order::<T>(),
        faithful_clone::<T>(),
    ensures
        sorted(final(xs)@),
        stable(old(xs)@, final(xs)@),
        final(xs)@ == stably_sorted(old(xs)@),
        final(xs)@.to_multiset() == old(xs)@.to_multiset(),
        final(xs)@.len() == old(xs)@.len(),
        sorted(old(xs)@) ==> final(xs)@ == old(xs)@,
        old(xs)@.len() <= 1 ==> final(xs)@ == old(xs)@,
{
    let ghost orig = xs@;
    let len = xs.len();
    let mut i: usize = 0;
    proof {
        assert(stable(orig, xs@));
    }
    while i < len
        invariant
            total_order::<T>(),
            xs@.len() == len,
            orig.len() == len,
            i <= len,
            runs_between(xs@, INSERTION_THRESHOLD as int, 0, i as int),
            stable(orig, xs@),
        decreases len - i,
    {
        let upto = if len - i < INSERTION_THRESHOLD {
            len
        } else {
            i + INSERTION_THRESHOLD
        };
        let ghost before = xs@;
        let (_, rest) = xs.split_at_mut(i);
        let (block, _) = rest.split_at_mut(upto - i);
        crate::insertion(block);
        proof {
            let a = i as int;
            let b = upto as int;
            let n = len as int;
            let head = before.subrange(0, a);
            let tail = before.subrange(b, n);
            assert(before.subrange(a, n).subrange(0, b - a) =~= before.subrange(a, b));
            assert(before.subrange(a, n).subrange(b - a, n - a) =~= tail);
            assert(xs@ =~= head + (block@ + tail));
            assert(before =~= head + (before.subrange(a, b) + tail));
            assert(stable(head, head));
            assert(stable(tail, tail));
            lemma_stable_concat(before.subrange(a, b), tail, block@, tail);
            lemma_stable_concat(head, before.subrange(a, b) + tail, head, block@ + tail);
            lemma_stable_trans(orig, before, xs@);
            lemma_stable_permutes(before.subrange(a, b), block@);
            lemma_runs_frame(before, xs@, INSERTION_THRESHOLD as int, 0, a);
            assert(xs@.subrange(a, b) =~= block@);
            lemma_runs_extend(xs@, INSERTION_THRESHOLD as int, 0, a, b);
        }
        i = upto;
    }
    merge_runs(xs, INSERTION_THRESHOLD);
    proof {
        lemma_stable_sorting(orig, xs@);
    }
}

} // verus!
