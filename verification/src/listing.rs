//! The order of the list of images: newest first, and otherwise as it was.
use std::sync::Arc;
use vstd::prelude::*;

use crate::app::{ImageFile, Mtime};

verus! {

/// Whether an image of time `a` may stand before one of time `b`: newer images
/// come first, those of unknown time last.
pub open spec fn before(a: Option<Mtime>, b: Option<Mtime>) -> bool {
    match b {
        None => true,
        Some(y) => match a {
            None => false,
            Some(x) => x.at_or_after(y),
        },
    }
}

/// Whether a list is ordered newest first.
pub open spec fn newest_first(s: Seq<Arc<ImageFile>>) -> bool {
    forall|i: int, j: int|
        0 <= i < j < s.len() ==> before(
            (#[trigger] s[i]).modified_at,
            (#[trigger] s[j]).modified_at,
        )
}

/// The images of a list that have the modification time `t`.
pub open spec fn of_time(s: Seq<Arc<ImageFile>>, t: Option<Mtime>) -> Seq<Arc<ImageFile>> {
    s.filter(|x: Arc<ImageFile>| x.modified_at == t)
}

/// Whether `r` is the list `s` in stable order, newest first: it is ordered, and
/// for each time it holds the same images as `s`, in the order of `s`.
pub open spec fn is_sorted_form(s: Seq<Arc<ImageFile>>, r: Seq<Arc<ImageFile>>) -> bool {
    &&& newest_first(r)
    &&& forall|t: Option<Mtime>| #[trigger] of_time(r, t) == of_time(s, t)
}

/// An ordered list with one more image, which stands after all images that may
/// stand before it.
pub open spec fn with_image(r: Seq<Arc<ImageFile>>, x: Arc<ImageFile>) -> Seq<Arc<ImageFile>>
    decreases r.len(),
{
    if r.len() == 0 || before(r.last().modified_at, x.modified_at) {
        r.push(x)
    } else {
        with_image(r.drop_last(), x).push(r.last())
    }
}

/// A list in stable order, newest first.
pub open spec fn sorted_form(s: Seq<Arc<ImageFile>>) -> Seq<Arc<ImageFile>>
    decreases s.len(),
{
    if s.len() == 0 {
        s
    } else {
        with_image(sorted_form(s.drop_last()), s.last())
    }
}

proof fn lemma_with_image_bound(r: Seq<Arc<ImageFile>>, x: Arc<ImageFile>, t: Option<Mtime>)
    requires
        forall|i: int| 0 <= i < r.len() ==> before((#[trigger] r[i]).modified_at, t),
        before(x.modified_at, t),
    ensures
        forall|i: int|
            0 <= i < with_image(r, x).len() ==> before(
                (#[trigger] with_image(r, x)[i]).modified_at,
                t,
            ),
    decreases r.len(),
{
    if !(r.len() == 0 || before(r.last().modified_at, x.modified_at)) {
        lemma_with_image_bound(r.drop_last(), x, t);
    }
}

proof fn lemma_with_image(r: Seq<Arc<ImageFile>>, x: Arc<ImageFile>)
    requires
        newest_first(r),
    ensures
        newest_first(with_image(r, x)),
        forall|t: Option<Mtime>| #[trigger]
            of_time(with_image(r, x), t) == of_time(r.push(x), t),
    decreases r.len(),
{
    if r.len() > 0 && !before(r.last().modified_at, x.modified_at) {
        let init = r.drop_last();
        let last = r.last();
        let tail = with_image(init, x);
        lemma_with_image(init, x);
        lemma_with_image_bound(init, x, last.modified_at);
        assert forall|t: Option<Mtime>| #[trigger]
            of_time(with_image(r, x), t) == of_time(r.push(x), t) by {
            lemma_of_time_push(tail, last, t);
            lemma_of_time_push(init, x, t);
            lemma_of_time_push(init, last, t);
            lemma_of_time_push(r, x, t);
            assert(init.push(last) == r);
            assert(of_time(tail, t) == of_time(init.push(x), t));
        }
    } else {
        assert forall|i: int, j: int| 0 <= i < j < r.push(x).len() implies before(
            (#[trigger] r.push(x)[i]).modified_at,
            (#[trigger] r.push(x)[j]).modified_at,
        ) by {
            if j == r.len() {
                if i < r.len() - 1 {
                    assert(before(r[i].modified_at, r.last().modified_at));
                }
            } else {
                assert(before(r[i].modified_at, r[j].modified_at));
            }
        }
    }
}

/// The sorted form of a list is ordered newest first, and images of the same
/// time keep the order that they had.
pub proof fn sorted_form_is_stable(s: Seq<Arc<ImageFile>>)
    ensures
        is_sorted_form(s, sorted_form(s)),
    decreases s.len(),
{
    if s.len() > 0 {
        let init = s.drop_last();
        let x = s.last();
        sorted_form_is_stable(init);
        lemma_with_image(sorted_form(init), x);
        assert forall|t: Option<Mtime>| #[trigger]
            of_time(sorted_form(s), t) == of_time(s, t) by {
            lemma_of_time_push(sorted_form(init), x, t);
            lemma_of_time_push(init, x, t);
            assert(init.push(x) == s);
            assert(of_time(sorted_form(init), t) == of_time(init, t));
        }
    }
}

proof fn lemma_of_time_first(s: Seq<Arc<ImageFile>>)
    requires
        s.len() > 0,
    ensures
        ({
            let x = s.first();
            let rest = s.drop_first();
            &&& of_time(s, x.modified_at) == seq![x] + of_time(rest, x.modified_at)
            &&& forall|t: Option<Mtime>|
                t != x.modified_at ==> #[trigger] of_time(s, t) == of_time(rest, t)
        }),
{
    let x = s.first();
    let rest = s.drop_first();
    assert(s == seq![x] + rest);
    assert forall|t: Option<Mtime>|
        #![trigger of_time(s, t)]
        of_time(s, t) == (if t == x.modified_at {
            seq![x]
        } else {
            Seq::empty()
        }) + of_time(rest, t) by {
        Seq::filter_distributes_over_add(seq![x], rest, |i: Arc<ImageFile>| i.modified_at == t);
        lemma_of_time_push(Seq::empty(), x, t);
        lemma_of_time_none(Seq::empty(), t);
        assert(Seq::<Arc<ImageFile>>::empty().push(x) == seq![x]);
    }
    assert forall|t: Option<Mtime>| t != x.modified_at implies #[trigger] of_time(s, t)
        == of_time(rest, t) by {
        assert(Seq::<Arc<ImageFile>>::empty() + of_time(rest, t) == of_time(rest, t));
    }
}

/// There is only one ordered list that holds, for each time, given images in a
/// given order.
pub proof fn sorted_form_is_unique(
    s: Seq<Arc<ImageFile>>,
    a: Seq<Arc<ImageFile>>,
    b: Seq<Arc<ImageFile>>,
)
    requires
        is_sorted_form(s, a),
        is_sorted_form(s, b),
    ensures
        a == b,
{
    assert forall|t: Option<Mtime>| #[trigger] of_time(a, t) == of_time(b, t) by {
        assert(of_time(a, t) == of_time(s, t));
        assert(of_time(b, t) == of_time(s, t));
    }
    lemma_same_order(a, b);
}

proof fn lemma_same_order(a: Seq<Arc<ImageFile>>, b: Seq<Arc<ImageFile>>)
    requires
        newest_first(a),
        newest_first(b),
        forall|t: Option<Mtime>| #[trigger] of_time(a, t) == of_time(b, t),
    ensures
        a == b,
    decreases a.len(),
{
    if a.len() == 0 {
        if b.len() > 0 {
            let t = b.first().modified_at;
            lemma_of_time_first(b);
            lemma_of_time_none(a, t);
            assert(of_time(a, t) == of_time(b, t));
            assert(false);
        }
        assert(a == b);
    } else if b.len() == 0 {
        let t = a.first().modified_at;
        lemma_of_time_first(a);
        lemma_of_time_none(b, t);
        assert(of_time(a, t) == of_time(b, t));
        assert(false);
    } else {
        let x = a.first();
        let y = b.first();
        lemma_of_time_first(a);
        lemma_of_time_first(b);
        lemma_leads(a, b);
        lemma_leads(b, a);
        let t = x.modified_at;
        assert(t == y.modified_at);
        assert(of_time(a, t) == of_time(b, t));
        assert((seq![x] + of_time(a.drop_first(), t))[0] == x);
        assert((seq![y] + of_time(b.drop_first(), t))[0] == y);
        assert(x == y);
        let ra = a.drop_first();
        let rb = b.drop_first();
        assert forall|u: Option<Mtime>| #[trigger] of_time(ra, u) == of_time(rb, u) by {
            assert(of_time(a, u) == of_time(b, u));
            if u == t {
                assert((seq![x] + of_time(ra, u)).drop_first() == of_time(ra, u));
                assert((seq![y] + of_time(rb, u)).drop_first() == of_time(rb, u));
            }
        }
        lemma_same_order(ra, rb);
        assert(a == seq![x] + ra);
        assert(b == seq![y] + rb);
    }
}

/// Where two ordered lists hold the same images per time, the first image of
/// `a` may stand before that of `b`.
proof fn lemma_leads(a: Seq<Arc<ImageFile>>, b: Seq<Arc<ImageFile>>)
    requires
        a.len() > 0,
        b.len() > 0,
        newest_first(a),
        forall|t: Option<Mtime>| #[trigger] of_time(a, t) == of_time(b, t),
    ensures
        before(a.first().modified_at, b.first().modified_at),
{
    let u = b.first().modified_at;
    if !before(a.first().modified_at, u) {
        assert forall|i: int| 0 <= i < a.len() implies (#[trigger] a[i]).modified_at != u by {
            if i > 0 {
                assert(before(a[0].modified_at, a[i].modified_at));
            }
        }
        lemma_of_time_none(a, u);
        lemma_of_time_first(b);
        assert(of_time(a, u) == of_time(b, u));
        assert(false);
    }
}

/// Ordering a list that is already ordered changes nothing.
pub proof fn sorting_twice_changes_nothing(s: Seq<Arc<ImageFile>>)
    requires
        newest_first(s),
    ensures
        sorted_form(s) == s,
{
    sorted_form_is_stable(s);
    sorted_form_is_unique(s, s, sorted_form(s));
}

proof fn lemma_with_image_multiset(r: Seq<Arc<ImageFile>>, x: Arc<ImageFile>)
    ensures
        with_image(r, x).to_multiset() == r.push(x).to_multiset(),
    decreases r.len(),
{
    broadcast use vstd::seq_lib::group_to_multiset_ensures;

    if r.len() > 0 && !before(r.last().modified_at, x.modified_at) {
        let init = r.drop_last();
        lemma_with_image_multiset(init, x);
        assert(r == init.push(r.last()));
        assert(with_image(r, x).to_multiset() =~= r.push(x).to_multiset());
    }
}

/// Ordering a list neither adds nor loses an image.
pub proof fn sorting_keeps_the_images(s: Seq<Arc<ImageFile>>)
    ensures
        sorted_form(s).to_multiset() == s.to_multiset(),
        sorted_form(s).len() == s.len(),
    decreases s.len(),
{
    broadcast use vstd::seq_lib::group_to_multiset_ensures;

    if s.len() > 0 {
        let init = s.drop_last();
        sorting_keeps_the_images(init);
        lemma_with_image_multiset(sorted_form(init), s.last());
        assert(s == init.push(s.last()));
        assert(sorted_form(s).to_multiset() =~= s.to_multiset());
    }
    assert(sorted_form(s).len() == sorted_form(s).to_multiset().len());
}

/// Whether an image of time `a` may stand before one of time `b`.
fn may_precede(a: &Option<Mtime>, b: &Option<Mtime>) -> (yes: bool)
    ensures
        yes == before(*a, *b),
{
    match b {
        None => true,
        Some(y) => match a {
            None => false,
            Some(x) => x.secs > y.secs || (x.secs == y.secs && x.nanos >= y.nanos),
        },
    }
}

proof fn lemma_of_time_push(s: Seq<Arc<ImageFile>>, x: Arc<ImageFile>, t: Option<Mtime>)
    ensures
        of_time(s.push(x), t) == if x.modified_at == t {
            of_time(s, t).push(x)
        } else {
            of_time(s, t)
        },
{
    reveal(Seq::filter);
    assert(s.push(x).drop_last() == s);
}

proof fn lemma_of_time_none(s: Seq<Arc<ImageFile>>, t: Option<Mtime>)
    requires
        forall|i: int| 0 <= i < s.len() ==> (#[trigger] s[i]).modified_at != t,
    ensures
        of_time(s, t) == Seq::<Arc<ImageFile>>::empty(),
    decreases s.len(),
{
    reveal(Seq::filter);
    if s.len() > 0 {
        lemma_of_time_none(s.drop_last(), t);
    }
}

/// Merges two ordered lists; of two images with the same time, that of the
/// first list comes first.
fn merge(a: &Vec<Arc<ImageFile>>, b: &Vec<Arc<ImageFile>>) -> (out: Vec<Arc<ImageFile>>)
    requires
        newest_first(a@),
        newest_first(b@),
    ensures
        is_sorted_form(a@ + b@, out@),
{
    let mut out: Vec<Arc<ImageFile>> = Vec::new();
    let mut i: usize = 0;
    let mut j: usize = 0;
    proof {
        reveal(Seq::filter);
    }
    while i < a.len() || j < b.len()
        invariant
            i <= a@.len(),
            j <= b@.len(),
            newest_first(a@),
            newest_first(b@),
            newest_first(out@),
            forall|t: Option<Mtime>| #[trigger]
                of_time(out@, t) == of_time(a@.take(i as int), t) + of_time(
                    b@.take(j as int),
                    t,
                ),
            forall|k: int, l: int|
                0 <= k < out@.len() && i <= l < a@.len() ==> before(
                    (#[trigger] out@[k]).modified_at,
                    (#[trigger] a@[l]).modified_at,
                ),
            forall|k: int, l: int|
                0 <= k < out@.len() && j <= l < b@.len() ==> before(
                    (#[trigger] out@[k]).modified_at,
                    (#[trigger] b@[l]).modified_at,
                ),
            forall|k: int, l: int|
                i <= k < a@.len() && 0 <= l < j ==> !before(
                    (#[trigger] a@[k]).modified_at,
                    (#[trigger] b@[l]).modified_at,
                ),
        decreases a@.len() - i + b@.len() - j,
    {
        let first = if i == a.len() {
            false
        } else if j == b.len() {
            true
        } else {
            may_precede(&a[i].modified_at, &b[j].modified_at)
        };
        let ghost old_out = out@;
        if first {
            let x = Arc::clone(&a[i]);
            out.push(x);
            proof {
                assert(a@.take(i + 1) == a@.take(i as int).push(x));
                assert forall|t: Option<Mtime>| #[trigger]
                    of_time(out@, t) == of_time(a@.take(i + 1), t) + of_time(
                        b@.take(j as int),
                        t,
                    ) by {
                    lemma_of_time_push(old_out, x, t);
                    lemma_of_time_push(a@.take(i as int), x, t);
                    let at = of_time(a@.take(i as int), t);
                    let bt = of_time(b@.take(j as int), t);
                    assert(of_time(old_out, t) == at + bt);
                    if x.modified_at == t {
                        assert forall|l: int| 0 <= l < b@.take(j as int).len() implies (
                        #[trigger] b@.take(j as int)[l]).modified_at != t by {
                            assert(!before(a@[i as int].modified_at, b@[l].modified_at));
                        }
                        lemma_of_time_none(b@.take(j as int), t);
                        assert((at + bt).push(x) == at.push(x) + bt);
                    }
                }
            }
            i = i + 1;
        } else {
            let x = Arc::clone(&b[j]);
            out.push(x);
            proof {
                assert(b@.take(j + 1) == b@.take(j as int).push(x));
                assert forall|t: Option<Mtime>| #[trigger]
                    of_time(out@, t) == of_time(a@.take(i as int), t) + of_time(
                        b@.take(j + 1),
                        t,
                    ) by {
                    lemma_of_time_push(old_out, x, t);
                    lemma_of_time_push(b@.take(j as int), x, t);
                    let at = of_time(a@.take(i as int), t);
                    let bt = of_time(b@.take(j as int), t);
                    assert(of_time(old_out, t) == at + bt);
                    assert((at + bt).push(x) == at + bt.push(x));
                }
                assert forall|k: int, l: int| i <= k < a@.len() && 0 <= l < j + 1 implies !before(
                    (#[trigger] a@[k]).modified_at,
                    (#[trigger] b@[l]).modified_at,
                ) by {
                    if l == j && k > i {
                        assert(before(a@[i as int].modified_at, a@[k].modified_at));
                    }
                }
            }
            j = j + 1;
        }
    }
    proof {
        assert(a@.take(a@.len() as int) == a@);
        assert(b@.take(b@.len() as int) == b@);
        assert forall|t: Option<Mtime>| #[trigger] of_time(out@, t) == of_time(a@ + b@, t) by {
            Seq::filter_distributes_over_add(a@, b@, |x: Arc<ImageFile>| x.modified_at == t);
        }
    }
    out
}

/// The part of `list` from `from` to `to` in stable order, newest first.
fn sorted_part(list: &Vec<Arc<ImageFile>>, from: usize, to: usize) -> (out: Vec<Arc<ImageFile>>)
    requires
        from <= to <= list@.len(),
    ensures
        is_sorted_form(list@.subrange(from as int, to as int), out@),
    decreases to - from,
{
    if to - from <= 1 {
        let mut out: Vec<Arc<ImageFile>> = Vec::new();
        if to - from == 1 {
            out.push(Arc::clone(&list[from]));
        }
        assert(out@ == list@.subrange(from as int, to as int));
        out
    } else {
        let mid: usize = from + (to - from) / 2;
        let a = sorted_part(list, from, mid);
        let b = sorted_part(list, mid, to);
        let out = merge(&a, &b);
        proof {
            let x = list@.subrange(from as int, mid as int);
            let y = list@.subrange(mid as int, to as int);
            assert(list@.subrange(from as int, to as int) == x + y);
            assert forall|t: Option<Mtime>| #[trigger] of_time(out@, t) == of_time(x + y, t) by {
                let pred = |i: Arc<ImageFile>| i.modified_at == t;
                Seq::filter_distributes_over_add(a@, b@, pred);
                Seq::filter_distributes_over_add(x, y, pred);
                assert(of_time(a@, t) == of_time(x, t));
                assert(of_time(b@, t) == of_time(y, t));
                assert(of_time(out@, t) == of_time(a@ + b@, t));
            }
        }
        out
    }
}

/// Orders a list newest first, keeping the order of images of the same time.
pub fn sort_image_list(list: &mut Vec<Arc<ImageFile>>)
    ensures
        final(list)@ == sorted_form(old(list)@),
        is_sorted_form(old(list)@, final(list)@),
{
    let n: usize = list.len();
    let out = sorted_part(list, 0, n);
    proof {
        assert(list@.subrange(0, n as int) == list@);
        sorted_form_is_stable(list@);
        sorted_form_is_unique(list@, out@, sorted_form(list@));
    }
    *list = out;
}

/// In the sorted form of a list no image stands behind an older one, nor a dated
/// image behind an undated one.
pub proof fn no_image_stands_behind_an_older_one(s: Seq<Arc<ImageFile>>, i: int, j: int)
    requires
        0 <= i < j < sorted_form(s).len(),
    ensures
        ({
            let a = sorted_form(s)[i].modified_at;
            let b = sorted_form(s)[j].modified_at;
            b matches Some(y) ==> (a matches Some(x) && (x.secs > y.secs || (x.secs == y.secs
                && x.nanos >= y.nanos)))
        }),
{
    sorted_form_is_stable(s);
}

/// Sorting takes each image once, and leaves those of the same time in the order
/// in which they were.
pub proof fn sorting_moves_images_of_one_time_together(
    s: Seq<Arc<ImageFile>>,
    t: Option<Mtime>,
    image: Arc<ImageFile>,
)
    ensures
        sorted_form(s).len() == s.len(),
        sorted_form(s).contains(image) <==> s.contains(image),
        sorted_form(s).filter(|x: Arc<ImageFile>| x.modified_at == t) == s.filter(
            |x: Arc<ImageFile>| x.modified_at == t,
        ),
{
    broadcast use vstd::seq_lib::group_to_multiset_ensures;

    sorted_form_is_stable(s);
    sorting_keeps_the_images(s);
    assert(of_time(sorted_form(s), t) == of_time(s, t));
    assert(sorted_form(s).to_multiset().count(image) == s.to_multiset().count(image));
}

/// A list is newest first exactly where no image stands behind an older one, nor
/// a dated image behind an undated one.
pub proof fn newest_first_in_words(s: Seq<Arc<ImageFile>>)
    ensures
        newest_first(s) <==> forall|i: int, j: int|
            0 <= i < j < s.len() ==> ((#[trigger] s[j]).modified_at matches Some(y) ==> ((
            #[trigger] s[i]).modified_at matches Some(x) && (x.secs > y.secs || (x.secs == y.secs
                && x.nanos >= y.nanos)))),
{
    if forall|i: int, j: int|
        0 <= i < j < s.len() ==> ((#[trigger] s[j]).modified_at matches Some(y) ==> ((
        #[trigger] s[i]).modified_at matches Some(x) && (x.secs > y.secs || (x.secs == y.secs
            && x.nanos >= y.nanos)))) {
        assert forall|i: int, j: int| 0 <= i < j < s.len() implies before(
            (#[trigger] s[i]).modified_at,
            (#[trigger] s[j]).modified_at,
        ) by {
            assert(s[j].modified_at matches Some(y) ==> (s[i].modified_at matches Some(x) && (
            x.secs > y.secs || (x.secs == y.secs && x.nanos >= y.nanos))));
        }
    }
}

} // verus!
