//! The in-memory index of all images: a map by key and a list in order.
use std::sync::Arc;
use vstd::hash_map::StringHashMap;
use vstd::prelude::*;

use crate::app::{ImageFile, Mtime};
use crate::listing::{
    is_sorted_form, newest_first, of_time, sort_image_list, sorted_form, sorted_form_is_stable,
    sorted_form_is_unique, sorting_keeps_the_images, sorting_twice_changes_nothing,
};
use crate::text::same;

verus! {

/// What the index holds.
#[verifier::ext_equal]
pub struct IndexView {
    /// The images by their key.
    pub images: Map<Seq<char>, Arc<ImageFile>>,
    /// The images as a list.
    pub list: Seq<Arc<ImageFile>>,
}

/// The images of a list by their paths; of two images with the same path the
/// later one counts.
pub open spec fn keyed(list: Seq<Arc<ImageFile>>) -> Map<Seq<char>, Arc<ImageFile>>
    decreases list.len(),
{
    if list.len() == 0 {
        Map::empty()
    } else {
        keyed(list.drop_last()).insert(list.last().path@, list.last())
    }
}

/// The images of a list whose path is not `path`.
pub open spec fn without_path(list: Seq<Arc<ImageFile>>, path: Seq<char>) -> Seq<Arc<ImageFile>> {
    list.filter(|i: Arc<ImageFile>| i.path@ != path)
}

/// Whether the list holds an image with the given path.
pub open spec fn lists_path(list: Seq<Arc<ImageFile>>, path: Seq<char>) -> bool {
    exists|i: int| 0 <= i < list.len() && (#[trigger] list[i]).path@ == path
}

/// The images of a list, each path once: of images with the same path the last
/// one stays.
pub open spec fn once_each(list: Seq<Arc<ImageFile>>) -> Seq<Arc<ImageFile>>
    decreases list.len(),
{
    if list.len() == 0 {
        Seq::empty()
    } else {
        let rest = list.drop_first();
        if lists_path(rest, list[0].path@) {
            once_each(rest)
        } else {
            seq![list[0]] + once_each(rest)
        }
    }
}

impl IndexView {
    /// The list is ordered newest first, it holds exactly the paths that the map
    /// has as keys, and every key is the path of its image.
    pub open spec fn wf(self) -> bool {
        &&& newest_first(self.list)
        &&& forall|p: Seq<char>|
            #![trigger self.images.contains_key(p)]
            #![trigger lists_path(self.list, p)]
            self.images.contains_key(p) <==> lists_path(self.list, p)
        &&& forall|p: Seq<char>| #[trigger]
            self.images.contains_key(p) ==> self.images[p].path@ == p
    }

    /// The map and the list hold the same images, each once.
    pub open spec fn in_sync(self) -> bool {
        &&& self.wf()
        &&& forall|i: int, j: int|
            0 <= i < j < self.list.len() ==> (#[trigger] self.list[i]).path@ != (
            #[trigger] self.list[j]).path@
        &&& forall|i: int|
            0 <= i < self.list.len() ==> self.images[(#[trigger] self.list[i]).path@]
                == self.list[i]
    }

    /// The index with an image added; one with the same path is replaced.
    pub open spec fn added(self, image: Arc<ImageFile>) -> IndexView {
        IndexView {
            images: self.images.insert(image.path@, image),
            list: sorted_form(without_path(self.list, image.path@).push(image)),
        }
    }

    /// Whether the image that the map has under a path is titled so.
    pub open spec fn titled_at(self, path: Seq<char>, title: Seq<char>) -> bool {
        self.images.contains_key(path) && self.images[path].titled(title)
    }

    /// The index without the images of the given title.
    pub open spec fn without_title(self, title: Seq<char>) -> IndexView {
        IndexView {
            images: self.images.remove_keys(
                Set::new(|p: Seq<char>| self.titled_at(p, title)),
            ),
            list: self.list.filter(|i: Arc<ImageFile>| !self.titled_at(i.path@, title)),
        }
    }

    /// Whether an index is this one with the values of the image at a path taken
    /// over.
    pub open spec fn refreshed(
        self,
        after: IndexView,
        path: Seq<char>,
        width: i32,
        height: i32,
        modified_at: Option<Mtime>,
    ) -> bool {
        exists|image: Arc<ImageFile>|
            {
                &&& image.path@ == path
                &&& image.title_view() == self.images[path].title_view()
                &&& image.width == width
                &&& image.height == height
                &&& image.modified_at == modified_at
                &&& after == #[trigger] self.added(image)
            }
    }

    /// Whether an image is indexed under the path and differs in size or time.
    pub open spec fn outdated(
        self,
        path: Seq<char>,
        width: i32,
        height: i32,
        modified_at: Option<Mtime>,
    ) -> bool {
        &&& self.images.contains_key(path)
        &&& (width != self.images[path].width || height != self.images[path].height
            || modified_at != self.images[path].modified_at)
    }
}

/// The map and the list of an index.
struct Tables {
    images: StringHashMap<Arc<ImageFile>>,
    list: Vec<Arc<ImageFile>>,
}

impl View for Tables {
    type V = IndexView;

    closed spec fn view(&self) -> IndexView {
        IndexView { images: self.images@, list: self.list@ }
    }
}

/// The in-memory index of all images. Its map and its list hold the same images
/// at all times.
pub struct ImageIndex {
    tables: Tables,
}

impl View for ImageIndex {
    type V = IndexView;

    closed spec fn view(&self) -> IndexView {
        self.tables@
    }
}

proof fn lemma_keyed(list: Seq<Arc<ImageFile>>, p: Seq<char>)
    ensures
        keyed(list).contains_key(p) <==> lists_path(list, p),
        keyed(list).contains_key(p) ==> keyed(list)[p].path@ == p,
    decreases list.len(),
{
    if list.len() > 0 {
        let init = list.drop_last();
        lemma_keyed(init, p);
        assert(list.last() == list[list.len() - 1]);
        if lists_path(init, p) {
            let i = choose|i: int| 0 <= i < init.len() && (#[trigger] init[i]).path@ == p;
            assert(list[i].path@ == p);
        }
        if lists_path(list, p) && list.last().path@ != p {
            let i = choose|i: int| 0 <= i < list.len() && (#[trigger] list[i]).path@ == p;
            assert(init[i].path@ == p);
        }
    }
}

/// An image in front of a list counts only where no later one has its path.
proof fn lemma_keyed_front(x: Arc<ImageFile>, rest: Seq<Arc<ImageFile>>)
    ensures
        keyed(seq![x] + rest) == if lists_path(rest, x.path@) {
            keyed(rest)
        } else {
            keyed(rest).insert(x.path@, x)
        },
    decreases rest.len(),
{
    let all = seq![x] + rest;
    lemma_keyed(rest, x.path@);
    if rest.len() == 0 {
        assert(all.drop_last() == Seq::<Arc<ImageFile>>::empty());
        assert(keyed(all.drop_last()) == Map::<Seq<char>, Arc<ImageFile>>::empty());
    } else {
        let init = rest.drop_last();
        assert(all.drop_last() == seq![x] + init);
        assert(all.last() == rest.last());
        lemma_keyed_front(x, init);
        lemma_keyed(init, x.path@);
        if x.path@ == rest.last().path@ {
            assert(rest[rest.len() - 1].path@ == x.path@);
        }
        assert(keyed(all) =~= if lists_path(rest, x.path@) {
            keyed(rest)
        } else {
            keyed(rest).insert(x.path@, x)
        });
    }
}

/// Leaving out repeated paths keeps the paths, the order and the map, and takes
/// every image from the list.
proof fn lemma_once_each(list: Seq<Arc<ImageFile>>)
    ensures
        forall|p: Seq<char>| #[trigger]
            lists_path(once_each(list), p) <==> lists_path(list, p),
        forall|i: int|
            0 <= i < once_each(list).len() ==> list.contains(#[trigger] once_each(list)[i]),
        forall|i: int, j: int|
            0 <= i < j < once_each(list).len() ==> (#[trigger] once_each(list)[i]).path@ != (
            #[trigger] once_each(list)[j]).path@,
        newest_first(list) ==> newest_first(once_each(list)),
        keyed(once_each(list)) == keyed(list),
    decreases list.len(),
{
    let r = once_each(list);
    if list.len() > 0 {
        let x = list[0];
        let rest = list.drop_first();
        let s = once_each(rest);
        lemma_once_each(rest);
        lemma_keyed_front(x, rest);
        lemma_keyed_front(x, s);
        assert(list == seq![x] + rest);
        assert forall|p: Seq<char>| #[trigger] lists_path(r, p) <==> lists_path(list, p) by {
            lemma_lists_front(x, rest, p);
            lemma_lists_front(x, s, p);
            assert(lists_path(s, p) <==> lists_path(rest, p));
        }
        assert(lists_path(s, x.path@) <==> lists_path(rest, x.path@));
        assert forall|i: int| 0 <= i < r.len() implies list.contains(#[trigger] r[i]) by {
            if r != s && i == 0 {
                assert(list[0] == r[i]);
            } else {
                let y = if r == s {
                    s[i]
                } else {
                    s[i - 1]
                };
                assert(r[i] == y);
                assert(rest.contains(y));
                let k = choose|k: int| 0 <= k < rest.len() && rest[k] == y;
                assert(list[k + 1] == y);
            }
        }
        if !lists_path(rest, x.path@) {
            assert forall|i: int, j: int| 0 <= i < j < r.len() implies (#[trigger] r[i]).path@
                != (#[trigger] r[j]).path@ by {
                assert(r[j] == s[j - 1]);
                if i > 0 {
                    assert(r[i] == s[i - 1]);
                }
            }
            if newest_first(list) {
                assert(newest_first(rest)) by {
                    assert forall|i: int, j: int| 0 <= i < j < rest.len() implies
                        crate::listing::before(
                        (#[trigger] rest[i]).modified_at,
                        (#[trigger] rest[j]).modified_at,
                    ) by {
                        assert(rest[i] == list[i + 1]);
                        assert(rest[j] == list[j + 1]);
                    }
                }
                assert forall|i: int, j: int| 0 <= i < j < r.len() implies
                    crate::listing::before(
                    (#[trigger] r[i]).modified_at,
                    (#[trigger] r[j]).modified_at,
                ) by {
                    assert(r[j] == s[j - 1]);
                    if i > 0 {
                        assert(r[i] == s[i - 1]);
                    } else {
                        assert(rest.contains(s[j - 1]));
                        let k = choose|k: int| 0 <= k < rest.len() && rest[k] == s[j - 1];
                        assert(list[k + 1] == r[j]);
                    }
                }
            }
        } else if newest_first(list) {
            assert forall|i: int, j: int| 0 <= i < j < rest.len() implies
                crate::listing::before(
                (#[trigger] rest[i]).modified_at,
                (#[trigger] rest[j]).modified_at,
            ) by {
                assert(rest[i] == list[i + 1]);
                assert(rest[j] == list[j + 1]);
            }
        }
    }
}

/// The paths of a list with an image in front.
proof fn lemma_lists_front(x: Arc<ImageFile>, rest: Seq<Arc<ImageFile>>, p: Seq<char>)
    ensures
        lists_path(seq![x] + rest, p) <==> x.path@ == p || lists_path(rest, p),
{
    let all = seq![x] + rest;
    assert(all[0] == x);
    if lists_path(rest, p) {
        let i = choose|i: int| 0 <= i < rest.len() && (#[trigger] rest[i]).path@ == p;
        assert(all[i + 1].path@ == p);
    }
    if lists_path(all, p) && x.path@ != p {
        let i = choose|i: int| 0 <= i < all.len() && (#[trigger] all[i]).path@ == p;
        assert(rest[i - 1].path@ == p);
    }
}

/// An index of the images that a scan found. An image that was found more than
/// once, because folders overlap, is indexed once.
pub fn scan_images(found: Vec<Arc<ImageFile>>) -> (index: ImageIndex)
    ensures
        index@.list == once_each(sorted_form(found@)),
        index@.images == keyed(sorted_form(found@)),
        index@.in_sync(),
        forall|p: Seq<char>| #[trigger]
            index@.images.contains_key(p) <==> lists_path(found@, p),
        forall|i: int|
            0 <= i < index@.list.len() ==> found@.contains(#[trigger] index@.list[i]),
{
    let mut sorted = found;
    sort_image_list(&mut sorted);
    let mut images: StringHashMap<Arc<ImageFile>> = StringHashMap::new();
    let mut kept: Vec<Arc<ImageFile>> = Vec::new();
    let mut i: usize = sorted.len();
    assert(sorted@.skip(i as int) == Seq::<Arc<ImageFile>>::empty());
    while i > 0
        invariant
            i <= sorted@.len(),
            images@ == keyed(sorted@.skip(i as int)),
            kept@.reverse() == once_each(sorted@.skip(i as int)),
        decreases i,
    {
        i = i - 1;
        let ghost rest = sorted@.skip(i + 1);
        let ghost all = sorted@.skip(i as int);
        let image = Arc::clone(&sorted[i]);
        proof {
            assert(all == seq![image] + rest);
            assert(all.drop_first() == rest);
            lemma_keyed_front(image, rest);
            lemma_keyed(rest, image.path@);
        }
        if !images.contains_key(&image.path) {
            images.insert(image.path.clone(), Arc::clone(&image));
            let ghost before = kept@;
            kept.push(image);
            assert(kept@.reverse() == seq![image] + before.reverse());
        }
    }
    assert(sorted@.skip(0) == sorted@);
    let ghost backwards = kept@;
    let mut list: Vec<Arc<ImageFile>> = Vec::new();
    let mut k: usize = kept.len();
    while k > 0
        invariant
            k <= kept@.len(),
            kept@ == backwards,
            list@ == backwards.reverse().take(backwards.len() - k),
        decreases k,
    {
        k = k - 1;
        list.push(Arc::clone(&kept[k]));
    }
    assert(list@ == backwards.reverse());
    proof {
        scan_is_in_sync(found@);
    }
    ImageIndex { tables: Tables { images, list } }
}

proof fn lemma_filter_push(
    s: Seq<Arc<ImageFile>>,
    x: Arc<ImageFile>,
    pred: spec_fn(Arc<ImageFile>) -> bool,
)
    ensures
        s.push(x).filter(pred) == if pred(x) {
            s.filter(pred).push(x)
        } else {
            s.filter(pred)
        },
{
    reveal(Seq::filter);
    assert(s.push(x).drop_last() == s);
}

/// A filtered list holds exactly the images that pass.
proof fn lemma_filter_has(
    s: Seq<Arc<ImageFile>>,
    pred: spec_fn(Arc<ImageFile>) -> bool,
    x: Arc<ImageFile>,
)
    ensures
        s.filter(pred).contains(x) <==> s.contains(x) && pred(x),
    decreases s.len(),
{
    reveal(Seq::filter);
    if s.len() > 0 {
        let init = s.drop_last();
        lemma_filter_has(init, pred, x);
        if init.contains(x) {
            let i = choose|i: int| 0 <= i < init.len() && init[i] == x;
            assert(s[i] == x);
        }
        if s.contains(x) && x != s.last() {
            let i = choose|i: int| 0 <= i < s.len() && s[i] == x;
            assert(init[i] == x);
        }
        if pred(s.last()) {
            let f = init.filter(pred);
            assert(f.push(s.last())[f.len() as int] == s.last());
            if f.contains(x) {
                let i = choose|i: int| 0 <= i < f.len() && f[i] == x;
                assert(f.push(s.last())[i] == x);
            }
            if f.push(s.last()).contains(x) && x != s.last() {
                let i = choose|i: int|
                    0 <= i < f.push(s.last()).len() && f.push(s.last())[i] == x;
                assert(f[i] == x);
            }
        }
        if s.last() == x {
            assert(s[s.len() - 1] == x);
        }
    }
}

/// Leaving images out keeps a list in order.
proof fn lemma_filter_ordered(s: Seq<Arc<ImageFile>>, pred: spec_fn(Arc<ImageFile>) -> bool)
    requires
        newest_first(s),
    ensures
        newest_first(s.filter(pred)),
    decreases s.len(),
{
    reveal(Seq::filter);
    if s.len() > 0 {
        let init = s.drop_last();
        let f = init.filter(pred);
        lemma_filter_ordered(init, pred);
        if pred(s.last()) {
            let r = f.push(s.last());
            assert forall|i: int, j: int| 0 <= i < j < r.len() implies crate::listing::before(
                (#[trigger] r[i]).modified_at,
                (#[trigger] r[j]).modified_at,
            ) by {
                if j == f.len() {
                    assert(f.contains(f[i]));
                    lemma_filter_has(init, pred, f[i]);
                    let k = choose|k: int| 0 <= k < init.len() && init[k] == f[i];
                    assert(s[k] == f[i]);
                }
            }
        }
    }
}

/// Leaving images out keeps paths distinct.
proof fn lemma_filter_distinct(s: Seq<Arc<ImageFile>>, pred: spec_fn(Arc<ImageFile>) -> bool)
    requires
        forall|i: int, j: int|
            0 <= i < j < s.len() ==> (#[trigger] s[i]).path@ != (#[trigger] s[j]).path@,
    ensures
        forall|i: int, j: int|
            0 <= i < j < s.filter(pred).len() ==> (#[trigger] s.filter(pred)[i]).path@ != (
            #[trigger] s.filter(pred)[j]).path@,
    decreases s.len(),
{
    reveal(Seq::filter);
    if s.len() > 0 {
        let init = s.drop_last();
        let f = init.filter(pred);
        lemma_filter_distinct(init, pred);
        if pred(s.last()) {
            let r = f.push(s.last());
            assert forall|i: int, j: int| 0 <= i < j < r.len() implies (#[trigger] r[i]).path@
                != (#[trigger] r[j]).path@ by {
                if j == f.len() {
                    assert(f.contains(f[i]));
                    lemma_filter_has(init, pred, f[i]);
                    let k = choose|k: int| 0 <= k < init.len() && init[k] == f[i];
                    assert(s[k] == f[i]);
                }
            }
        }
    }
}

proof fn lemma_sorted_has(s: Seq<Arc<ImageFile>>, x: Arc<ImageFile>)
    ensures
        sorted_form(s).contains(x) <==> s.contains(x),
{
    broadcast use vstd::seq_lib::group_to_multiset_ensures;

    sorting_keeps_the_images(s);
    assert(sorted_form(s).to_multiset().count(x) == s.to_multiset().count(x));
}

/// The images of the list after an addition: the new one and those with other
/// paths.
proof fn lemma_added_has(v: IndexView, image: Arc<ImageFile>, x: Arc<ImageFile>)
    ensures
        v.added(image).list.contains(x) <==> x == image || (v.list.contains(x) && x.path@
            != image.path@),
{
    let pred = |i: Arc<ImageFile>| i.path@ != image.path@;
    let kept = v.list.filter(pred);
    lemma_filter_has(v.list, pred, x);
    lemma_sorted_has(kept.push(image), x);
    assert(kept.push(image)[kept.len() as int] == image);
    if kept.contains(x) {
        let i = choose|i: int| 0 <= i < kept.len() && kept[i] == x;
        assert(kept.push(image)[i] == x);
    }
    if kept.push(image).contains(x) && x != image {
        let i = choose|i: int| 0 <= i < kept.push(image).len() && kept.push(image)[i] == x;
        assert(kept[i] == x);
    }
}

proof fn lemma_lists(list: Seq<Arc<ImageFile>>, x: Arc<ImageFile>)
    requires
        list.contains(x),
    ensures
        lists_path(list, x.path@),
{
    let i = choose|i: int| 0 <= i < list.len() && list[i] == x;
    assert(list[i].path@ == x.path@);
}

/// An addition keeps the index well-formed.
pub proof fn addition_keeps_order(v: IndexView, image: Arc<ImageFile>)
    requires
        v.wf(),
    ensures
        v.added(image).wf(),
{
    let w = v.added(image);
    sorted_form_is_stable(without_path(v.list, image.path@).push(image));
    assert forall|p: Seq<char>|
        #![trigger w.images.contains_key(p)]
        #![trigger lists_path(w.list, p)]
        w.images.contains_key(p) <==> lists_path(w.list, p) by {
        if p == image.path@ {
            lemma_added_has(v, image, image);
            lemma_lists(w.list, image);
        } else {
            if lists_path(v.list, p) {
                let i = choose|i: int| 0 <= i < v.list.len() && (#[trigger] v.list[i]).path@ == p;
                assert(v.list.contains(v.list[i]));
                lemma_added_has(v, image, v.list[i]);
                lemma_lists(w.list, v.list[i]);
            }
            if lists_path(w.list, p) {
                let i = choose|i: int| 0 <= i < w.list.len() && (#[trigger] w.list[i]).path@ == p;
                assert(w.list.contains(w.list[i]));
                lemma_added_has(v, image, w.list[i]);
                lemma_lists(v.list, w.list[i]);
            }
        }
    }
}

/// Sorting keeps paths distinct.
proof fn lemma_sorted_distinct(s: Seq<Arc<ImageFile>>)
    requires
        forall|i: int, j: int|
            0 <= i < j < s.len() ==> (#[trigger] s[i]).path@ != (#[trigger] s[j]).path@,
    ensures
        forall|i: int, j: int|
            0 <= i < j < sorted_form(s).len() ==> (#[trigger] sorted_form(s)[i]).path@ != (
            #[trigger] sorted_form(s)[j]).path@,
{
    let r = sorted_form(s);
    sorting_keeps_the_images(s);
    assert(s.no_duplicates()) by {
        assert forall|i: int, j: int| 0 <= i < s.len() && 0 <= j < s.len() && i != j implies s[i]
            != s[j] by {
            if i < j {
                assert(s[i].path@ != s[j].path@);
            } else {
                assert(s[j].path@ != s[i].path@);
            }
        }
    }
    s.lemma_multiset_has_no_duplicates();
    r.lemma_multiset_has_no_duplicates_conv();
    assert forall|i: int, j: int| 0 <= i < j < r.len() implies (#[trigger] r[i]).path@ != (
    #[trigger] r[j]).path@ by {
        assert(r.contains(r[i]));
        assert(r.contains(r[j]));
        lemma_sorted_has(s, r[i]);
        lemma_sorted_has(s, r[j]);
        let k = choose|k: int| 0 <= k < s.len() && s[k] == r[i];
        let l = choose|l: int| 0 <= l < s.len() && s[l] == r[j];
        assert(k != l);
        if k < l {
            assert(s[k].path@ != s[l].path@);
        } else {
            assert(s[l].path@ != s[k].path@);
        }
    }
}

/// Whatever a scan finds, and however often, it gives an index whose map and list
/// hold the same images, each once: one for every path that was found. Where each
/// path was found once, the list is all that was found.
pub proof fn scan_is_in_sync(found: Seq<Arc<ImageFile>>)
    ensures
        (IndexView { images: keyed(sorted_form(found)), list: once_each(sorted_form(found)) })
            .in_sync(),
        forall|p: Seq<char>| #[trigger]
            keyed(sorted_form(found)).contains_key(p) <==> lists_path(found, p),
        forall|i: int|
            0 <= i < once_each(sorted_form(found)).len() ==> found.contains(
                #[trigger] once_each(sorted_form(found))[i],
            ),
        (forall|i: int, j: int|
            0 <= i < j < found.len() ==> (#[trigger] found[i]).path@ != (
            #[trigger] found[j]).path@) ==> once_each(sorted_form(found)) == sorted_form(found),
{
    let sorted = sorted_form(found);
    let list = once_each(sorted);
    let v = IndexView { images: keyed(sorted), list };
    sorted_form_is_stable(found);
    lemma_once_each(sorted);
    assert forall|p: Seq<char>|
        #![trigger v.images.contains_key(p)]
        #![trigger lists_path(v.list, p)]
        (v.images.contains_key(p) <==> lists_path(v.list, p)) && (v.images.contains_key(p)
            ==> v.images[p].path@ == p) by {
        lemma_keyed(sorted, p);
    }
    assert forall|i: int| 0 <= i < list.len() implies v.images[(#[trigger] list[i]).path@]
        == list[i] by {
        lemma_keyed_at(list, i);
    }
    assert forall|p: Seq<char>| #[trigger]
        keyed(sorted).contains_key(p) <==> lists_path(found, p) by {
        lemma_keyed(sorted, p);
        if lists_path(sorted, p) {
            let i = choose|i: int| 0 <= i < sorted.len() && (#[trigger] sorted[i]).path@ == p;
            assert(sorted.contains(sorted[i]));
            lemma_sorted_has(found, sorted[i]);
            lemma_lists(found, sorted[i]);
        }
        if lists_path(found, p) {
            let i = choose|i: int| 0 <= i < found.len() && (#[trigger] found[i]).path@ == p;
            assert(found.contains(found[i]));
            lemma_sorted_has(found, found[i]);
            lemma_lists(sorted, found[i]);
        }
    }
    assert forall|i: int| 0 <= i < list.len() implies found.contains(#[trigger] list[i]) by {
        lemma_sorted_has(found, list[i]);
    }
    if forall|i: int, j: int|
        0 <= i < j < found.len() ==> (#[trigger] found[i]).path@ != (#[trigger] found[j]).path@ {
        lemma_sorted_distinct(found);
        lemma_once_each_distinct(sorted);
    }
}

/// A list without repeated paths stays as it is.
proof fn lemma_once_each_distinct(list: Seq<Arc<ImageFile>>)
    requires
        forall|i: int, j: int|
            0 <= i < j < list.len() ==> (#[trigger] list[i]).path@ != (#[trigger] list[j]).path@,
    ensures
        once_each(list) == list,
    decreases list.len(),
{
    if list.len() > 0 {
        let rest = list.drop_first();
        assert forall|i: int, j: int| 0 <= i < j < rest.len() implies (#[trigger] rest[i]).path@
            != (#[trigger] rest[j]).path@ by {
            assert(rest[i] == list[i + 1]);
            assert(rest[j] == list[j + 1]);
        }
        lemma_once_each_distinct(rest);
        if lists_path(rest, list[0].path@) {
            let k = choose|k: int|
                0 <= k < rest.len() && (#[trigger] rest[k]).path@ == list[0].path@;
            assert(list[k + 1] == rest[k]);
        }
        assert(list == seq![list[0]] + rest);
    }
}

proof fn lemma_keyed_at(list: Seq<Arc<ImageFile>>, i: int)
    requires
        0 <= i < list.len(),
        forall|k: int, l: int|
            0 <= k < l < list.len() ==> (#[trigger] list[k]).path@ != (#[trigger] list[l]).path@,
    ensures
        keyed(list)[list[i].path@] == list[i],
    decreases list.len(),
{
    let init = list.drop_last();
    if i < list.len() - 1 {
        lemma_keyed_at(init, i);
        assert(init[i] == list[i]);
        assert(list[i].path@ != list[list.len() - 1].path@);
    }
}

/// An addition keeps the map and the list in sync.
pub proof fn addition_keeps_sync(v: IndexView, image: Arc<ImageFile>)
    requires
        v.in_sync(),
    ensures
        v.added(image).in_sync(),
{
    let w = v.added(image);
    let pred = |i: Arc<ImageFile>| i.path@ != image.path@;
    let kept = v.list.filter(pred);
    addition_keeps_order(v, image);
    lemma_filter_distinct(v.list, pred);
    assert forall|i: int, j: int| 0 <= i < j < kept.push(image).len() implies (
    #[trigger] kept.push(image)[i]).path@ != (#[trigger] kept.push(image)[j]).path@ by {
        if j == kept.len() {
            assert(kept.contains(kept[i]));
            lemma_filter_has(v.list, pred, kept[i]);
        }
    }
    lemma_sorted_distinct(kept.push(image));
    assert forall|i: int| 0 <= i < w.list.len() implies w.images[(#[trigger] w.list[i]).path@]
        == w.list[i] by {
        let x = w.list[i];
        assert(w.list.contains(x));
        lemma_added_has(v, image, x);
        if x != image {
            let k = choose|k: int| 0 <= k < v.list.len() && v.list[k] == x;
            assert(v.images[v.list[k].path@] == v.list[k]);
        }
    }
}

/// Once added, an image is found under its path and stands in the list.
pub proof fn added_image_is_indexed(v: IndexView, image: Arc<ImageFile>)
    ensures
        v.added(image).images[image.path@] == image,
        v.added(image).list.contains(image),
{
    lemma_added_has(v, image, image);
}

/// A removal keeps the index well-formed.
pub proof fn removal_keeps_order(v: IndexView, title: Seq<char>)
    requires
        v.wf(),
    ensures
        v.without_title(title).wf(),
{
    let w = v.without_title(title);
    let pred = |i: Arc<ImageFile>| !v.titled_at(i.path@, title);
    lemma_filter_ordered(v.list, pred);
    assert forall|p: Seq<char>|
        #![trigger w.images.contains_key(p)]
        #![trigger lists_path(w.list, p)]
        w.images.contains_key(p) <==> lists_path(w.list, p) by {
        if w.images.contains_key(p) {
            assert(v.images.contains_key(p));
            assert(lists_path(v.list, p));
            let i = choose|i: int| 0 <= i < v.list.len() && (#[trigger] v.list[i]).path@ == p;
            assert(v.list.contains(v.list[i]));
            lemma_filter_has(v.list, pred, v.list[i]);
            lemma_lists(w.list, v.list[i]);
        }
        if lists_path(w.list, p) {
            let i = choose|i: int| 0 <= i < w.list.len() && (#[trigger] w.list[i]).path@ == p;
            assert(w.list.contains(w.list[i]));
            lemma_filter_has(v.list, pred, w.list[i]);
            lemma_lists(v.list, w.list[i]);
            assert(v.images.contains_key(p));
        }
    }
}

/// A removal keeps the map and the list in sync.
pub proof fn removal_keeps_sync(v: IndexView, title: Seq<char>)
    requires
        v.in_sync(),
    ensures
        v.without_title(title).in_sync(),
{
    let w = v.without_title(title);
    let pred = |i: Arc<ImageFile>| !v.titled_at(i.path@, title);
    removal_keeps_order(v, title);
    lemma_filter_distinct(v.list, pred);
    assert forall|i: int| 0 <= i < w.list.len() implies w.images[(#[trigger] w.list[i]).path@]
        == w.list[i] by {
        let x = w.list[i];
        assert(w.list.contains(x));
        lemma_filter_has(v.list, pred, x);
        lemma_lists(w.list, x);
        let k = choose|k: int| 0 <= k < v.list.len() && v.list[k] == x;
        assert(v.images[v.list[k].path@] == v.list[k]);
    }
}

/// After a removal no image of the title is left, and every other image is.
pub proof fn removal_takes_exactly_the_title(
    v: IndexView,
    title: Seq<char>,
    image: Arc<ImageFile>,
)
    requires
        v.in_sync(),
    ensures
        v.without_title(title).list.contains(image) <==> v.list.contains(image)
            && !image.titled(title),
        v.without_title(title).images.contains_value(image) <==> v.images.contains_value(image)
            && !image.titled(title),
{
    let w = v.without_title(title);
    let pred = |i: Arc<ImageFile>| !v.titled_at(i.path@, title);
    lemma_filter_has(v.list, pred, image);
    if v.list.contains(image) {
        let k = choose|k: int| 0 <= k < v.list.len() && v.list[k] == image;
        assert(v.images[v.list[k].path@] == v.list[k]);
        lemma_lists(v.list, image);
        assert(v.images.contains_key(image.path@));
    }
    if w.images.contains_value(image) {
        let p = choose|p: Seq<char>| #[trigger] w.images.dom().contains(p) && w.images[p] == image;
        assert(v.images.dom().contains(p) && v.images[p] == image);
    }
    if v.images.contains_value(image) && !image.titled(title) {
        let p = choose|p: Seq<char>| #[trigger] v.images.dom().contains(p) && v.images[p] == image;
        assert(w.images.dom().contains(p) && w.images[p] == image);
    }
}

proof fn lemma_filter_all(s: Seq<Arc<ImageFile>>, pred: spec_fn(Arc<ImageFile>) -> bool)
    requires
        forall|i: int| 0 <= i < s.len() ==> pred(#[trigger] s[i]),
    ensures
        s.filter(pred) == s,
    decreases s.len(),
{
    reveal(Seq::filter);
    if s.len() > 0 {
        lemma_filter_all(s.drop_last(), pred);
        assert(s.drop_last().push(s.last()) == s);
    }
}

proof fn lemma_filters_commute(
    s: Seq<Arc<ImageFile>>,
    p: spec_fn(Arc<ImageFile>) -> bool,
    q: spec_fn(Arc<ImageFile>) -> bool,
)
    ensures
        s.filter(p).filter(q) == s.filter(q).filter(p),
    decreases s.len(),
{
    if s.len() == 0 {
        reveal(Seq::filter);
    } else {
        let init = s.drop_last();
        let x = s.last();
        lemma_filters_commute(init, p, q);
        assert(init.push(x) == s);
        lemma_filter_push(init, x, p);
        lemma_filter_push(init, x, q);
        lemma_filter_push(init.filter(p), x, q);
        lemma_filter_push(init.filter(q), x, p);
    }
}

/// Leaving images out and sorting may change places.
proof fn lemma_filter_sorted(s: Seq<Arc<ImageFile>>, pred: spec_fn(Arc<ImageFile>) -> bool)
    ensures
        sorted_form(s).filter(pred) == sorted_form(s.filter(pred)),
{
    let r = sorted_form(s).filter(pred);
    sorted_form_is_stable(s);
    sorted_form_is_stable(s.filter(pred));
    lemma_filter_ordered(sorted_form(s), pred);
    assert forall|t: Option<Mtime>| #[trigger] of_time(r, t) == of_time(s.filter(pred), t) by {
        let at = |x: Arc<ImageFile>| x.modified_at == t;
        lemma_filters_commute(sorted_form(s), pred, at);
        lemma_filters_commute(s, pred, at);
        assert(of_time(sorted_form(s), t) == of_time(s, t));
    }
    assert(is_sorted_form(s.filter(pred), r));
    sorted_form_is_unique(s.filter(pred), r, sorted_form(s.filter(pred)));
}

/// Adding an image a second time changes nothing.
pub proof fn adding_twice_changes_nothing(v: IndexView, image: Arc<ImageFile>)
    requires
        v.wf(),
    ensures
        v.added(image).added(image) == v.added(image),
{
    let w = v.added(image);
    let pred = |i: Arc<ImageFile>| i.path@ != image.path@;
    let kept = v.list.filter(pred);
    lemma_filter_sorted(kept.push(image), pred);
    lemma_filter_push(kept, image, pred);
    assert forall|i: int| 0 <= i < kept.len() implies pred(#[trigger] kept[i]) by {
        assert(kept.contains(kept[i]));
        lemma_filter_has(v.list, pred, kept[i]);
    }
    lemma_filter_all(kept, pred);
    lemma_filter_ordered(v.list, pred);
    sorting_twice_changes_nothing(kept);
    assert(w.list.filter(pred) == kept);
    assert(w.added(image).images == w.images);
}

/// Removing the title of a new image takes back its addition.
pub proof fn removal_undoes_addition(v: IndexView, image: Arc<ImageFile>, title: Seq<char>)
    requires
        v.wf(),
        image.titled(title),
        !v.images.contains_key(image.path@),
        forall|p: Seq<char>| !#[trigger] v.titled_at(p, title),
    ensures
        v.added(image).without_title(title) == v,
{
    let w = v.added(image);
    let other = |i: Arc<ImageFile>| i.path@ != image.path@;
    let pred = |i: Arc<ImageFile>| !w.titled_at(i.path@, title);
    assert forall|i: int| 0 <= i < v.list.len() implies other(#[trigger] v.list[i]) && pred(
        v.list[i],
    ) by {
        assert(v.list.contains(v.list[i]));
        lemma_lists(v.list, v.list[i]);
        assert(v.images.contains_key(v.list[i].path@));
        assert(!v.titled_at(v.list[i].path@, title));
    }
    lemma_filter_all(v.list, other);
    lemma_filter_all(v.list, pred);
    lemma_filter_sorted(v.list.push(image), pred);
    lemma_filter_push(v.list, image, pred);
    assert(w.titled_at(image.path@, title));
    sorting_twice_changes_nothing(v.list);
    assert(w.without_title(title).list == v.list);
    assert forall|p: Seq<char>| w.without_title(title).images.contains_key(p)
        <==> v.images.contains_key(p) by {
        assert(!v.titled_at(p, title));
    }
    assert(w.without_title(title).images =~= v.images);
}

/// A change of the index.
pub enum IndexChange {
    /// An image is added, because its file appeared, changed or was uploaded.
    Add(Arc<ImageFile>),
    /// The images of a title are removed.
    Remove(Seq<char>),
}

/// The index after some changes, one after the other.
pub open spec fn after_changes(v: IndexView, changes: Seq<IndexChange>) -> IndexView
    decreases changes.len(),
{
    if changes.len() == 0 {
        v
    } else {
        let before = after_changes(v, changes.drop_last());
        match changes.last() {
            IndexChange::Add(image) => before.added(image),
            IndexChange::Remove(title) => before.without_title(title),
        }
    }
}

/// Whatever happens to the files, in whatever order it is reported: the map and
/// the list keep holding the same images, and the list stays ordered newest
/// first.
pub proof fn changes_keep_sync(v: IndexView, changes: Seq<IndexChange>)
    requires
        v.in_sync(),
    ensures
        after_changes(v, changes).in_sync(),
    decreases changes.len(),
{
    if changes.len() > 0 {
        let before = after_changes(v, changes.drop_last());
        changes_keep_sync(v, changes.drop_last());
        match changes.last() {
            IndexChange::Add(image) => {
                addition_keeps_sync(before, image);
            },
            IndexChange::Remove(title) => {
                removal_keeps_sync(before, title);
            },
        }
    }
}

impl Tables {
    /// Tables without images.
    fn new() -> (tables: Tables)
        ensures
            tables@.images == Map::<Seq<char>, Arc<ImageFile>>::empty(),
            tables@.list == Seq::<Arc<ImageFile>>::empty(),
            tables@.in_sync(),
    {
        Tables { images: StringHashMap::new(), list: Vec::new() }
    }

    /// Adds an image; one with the same path is replaced.
    fn add(&mut self, image: Arc<ImageFile>)
        requires
            old(self)@.in_sync(),
        ensures
            final(self)@ == old(self)@.added(image),
            final(self)@.in_sync(),
    {
        proof {
            addition_keeps_sync(self@, image);
        }
        let ghost before = self@;
        let ghost pred = |i: Arc<ImageFile>| i.path@ != image.path@;
        let mut kept: Vec<Arc<ImageFile>> = Vec::new();
        proof {
            reveal(Seq::filter);
        }
        for i in 0..self.list.len()
            invariant
                before == self@,
                pred == (|i: Arc<ImageFile>| i.path@ != image.path@),
                kept@ == self.list@.take(i as int).filter(pred),
        {
            let x = Arc::clone(&self.list[i]);
            proof {
                lemma_filter_push(self.list@.take(i as int), x, pred);
                assert(self.list@.take(i + 1) == self.list@.take(i as int).push(x));
            }
            if !same(&x.path, &image.path) {
                kept.push(x);
            }
        }
        assert(self.list@.take(self.list@.len() as int) == self.list@);
        self.images.insert(image.path.clone(), Arc::clone(&image));
        kept.push(image);
        sort_image_list(&mut kept);
        self.list = kept;
    }

    /// Removes the images of the given title.
    fn remove_titled(&mut self, title: &str)
        requires
            old(self)@.in_sync(),
        ensures
            final(self)@ == old(self)@.without_title(title@),
            final(self)@.in_sync(),
    {
        proof {
            removal_keeps_sync(self@, title@);
            reveal(Seq::filter);
        }
        let ghost before = self@;
        let ghost pred = |i: Arc<ImageFile>| !before.titled_at(i.path@, title@);
        let mut kept: Vec<Arc<ImageFile>> = Vec::new();
        let mut gone: Vec<String> = Vec::new();
        for i in 0..self.list.len()
            invariant
                before == self@,
                before.in_sync(),
                pred == (|i: Arc<ImageFile>| !before.titled_at(i.path@, title@)),
                kept@ == self.list@.take(i as int).filter(pred),
                forall|k: int|
                    0 <= k < gone@.len() ==> before.titled_at(#[trigger] gone@[k]@, title@),
                forall|k: int|
                    0 <= k < i && before.titled_at((#[trigger] self.list@[k]).path@, title@)
                        ==> exists|l: int|
                        0 <= l < gone@.len() && #[trigger] gone@[l]@ == self.list@[k].path@,
        {
            let x = Arc::clone(&self.list[i]);
            proof {
                lemma_filter_push(self.list@.take(i as int), x, pred);
                assert(self.list@.take(i + 1) == self.list@.take(i as int).push(x));
            }
            let hit = match self.images.get(&x.path) {
                Some(indexed) => match &indexed.title {
                    Some(t) => same(t, title),
                    None => false,
                },
                None => false,
            };
            if hit {
                let ghost gone_before = gone@;
                gone.push(x.path.clone());
                proof {
                    assert(gone@[gone@.len() - 1]@ == x.path@);
                    assert forall|k: int|
                        0 <= k < i + 1 && before.titled_at(
                            (#[trigger] self.list@[k]).path@,
                            title@,
                        ) implies exists|l: int|
                        0 <= l < gone@.len() && #[trigger] gone@[l]@ == self.list@[k].path@ by {
                        if k < i {
                            let l = choose|l: int|
                                0 <= l < gone_before.len() && #[trigger] gone_before[l]@
                                    == self.list@[k].path@;
                            assert(gone@[l]@ == self.list@[k].path@);
                        }
                    }
                }
            } else {
                kept.push(x);
            }
        }
        assert(self.list@.take(self.list@.len() as int) == self.list@);
        for i in 0..gone.len()
            invariant
                self.list@ == before.list,
                forall|p: Seq<char>| #[trigger]
                    self.images@.contains_key(p) <==> before.images.contains_key(p) && !(exists|
                        l: int,
                    |
                        0 <= l < i && #[trigger] gone@[l]@ == p),
                forall|p: Seq<char>| #[trigger]
                    self.images@.contains_key(p) ==> self.images@[p] == before.images[p],
        {
            let ghost prev = self.images@;
            self.images.remove(&gone[i]);
            proof {
                assert forall|p: Seq<char>| #[trigger]
                    self.images@.contains_key(p) <==> before.images.contains_key(p) && !(exists|
                        l: int,
                    |
                        0 <= l < i + 1 && #[trigger] gone@[l]@ == p) by {
                    assert(self.images@ == prev.remove(gone@[i as int]@));
                    assert(prev.contains_key(p) <==> before.images.contains_key(p) && !(exists|
                        l: int,
                    |
                        0 <= l < i && #[trigger] gone@[l]@ == p));
                }
            }
        }
        proof {
            let after = before.without_title(title@);
            assert forall|p: Seq<char>| #[trigger]
                self.images@.contains_key(p) <==> after.images.contains_key(p) by {
                if before.images.contains_key(p) && before.titled_at(p, title@) {
                    assert(lists_path(before.list, p));
                    let k = choose|k: int|
                        0 <= k < before.list.len() && (#[trigger] before.list[k]).path@ == p;
                    assert(before.titled_at(before.list[k].path@, title@));
                }
            }
            assert(self.images@ =~= after.images);
        }
        self.list = kept;
    }

    /// Takes over the size and time of a changed file; says whether they differ.
    fn refresh(
        &mut self,
        path: &str,
        width: i32,
        height: i32,
        modified_at: Option<Mtime>,
    ) -> (changed: bool)
        requires
            old(self)@.in_sync(),
        ensures
            changed == old(self)@.outdated(path@, width, height, modified_at),
            !changed ==> final(self)@ == old(self)@,
            changed ==> exists|image: Arc<ImageFile>|
                {
                    &&& image.path@ == path@
                    &&& image.title_view() == old(self)@.images[path@].title_view()
                    &&& image.width == width
                    &&& image.height == height
                    &&& image.modified_at == modified_at
                    &&& final(self)@ == #[trigger] old(self)@.added(image)
                },
            final(self)@.in_sync(),
    {
        let title = match self.images.get(path) {
            Some(image) => {
                let same_time = match (&image.modified_at, &modified_at) {
                    (Some(a), Some(b)) => a.secs == b.secs && a.nanos == b.nanos,
                    (None, None) => true,
                    _ => false,
                };
                if image.width == width && image.height == height && same_time {
                    return false;
                }
                match &image.title {
                    Some(t) => Some(t.clone()),
                    None => None,
                }
            },
            None => {
                return false;
            },
        };
        let image = Arc::new(ImageFile { path: path.to_owned(), title, width, height, modified_at });
        self.add(image);
        true
    }
}

impl ImageIndex {
    #[verifier::type_invariant]
    spec fn invariant_holds(self) -> bool {
        self.tables@.in_sync()
    }

    /// All images, newest first.
    pub fn list(&self) -> (list: &Vec<Arc<ImageFile>>)
        ensures
            list@ == self@.list,
            newest_first(list@),
    {
        proof {
            use_type_invariant(self);
        }
        &self.tables.list
    }

    /// The image indexed under a path.
    pub fn get(&self, path: &str) -> (image: Option<&Arc<ImageFile>>)
        ensures
            match image {
                Some(i) => self@.images.contains_key(path@) && *i == self@.images[path@],
                None => !self@.images.contains_key(path@),
            },
    {
        self.tables.images.get(path)
    }

    /// Adds an image; one with the same path is replaced.
    pub fn add(&mut self, image: Arc<ImageFile>)
        ensures
            final(self)@ == old(self)@.added(image),
            final(self)@.in_sync(),
    {
        proof {
            use_type_invariant(&*self);
        }
        let mut tables = Tables::new();
        core::mem::swap(&mut tables, &mut self.tables);
        tables.add(image);
        self.tables = tables;
    }

    /// Removes the images of the given title.
    pub fn remove_titled(&mut self, title: &str)
        ensures
            final(self)@ == old(self)@.without_title(title@),
            final(self)@.in_sync(),
    {
        proof {
            use_type_invariant(&*self);
        }
        let mut tables = Tables::new();
        core::mem::swap(&mut tables, &mut self.tables);
        tables.remove_titled(title);
        self.tables = tables;
    }

    /// Takes over the size and time of a changed file: nothing happens where no
    /// image is indexed under the path or nothing differs; otherwise the image is
    /// replaced by one with the new values and the old title. Says whether it was.
    pub fn refresh(
        &mut self,
        path: &str,
        width: i32,
        height: i32,
        modified_at: Option<Mtime>,
    ) -> (changed: bool)
        ensures
            changed == old(self)@.outdated(path@, width, height, modified_at),
            !changed ==> final(self)@ == old(self)@,
            changed ==> exists|image: Arc<ImageFile>|
                {
                    &&& image.path@ == path@
                    &&& image.title_view() == old(self)@.images[path@].title_view()
                    &&& image.width == width
                    &&& image.height == height
                    &&& image.modified_at == modified_at
                    &&& final(self)@ == #[trigger] old(self)@.added(image)
                },
            changed ==> old(self)@.refreshed(final(self)@, path@, width, height, modified_at),
            final(self)@.in_sync(),
    {
        proof {
            use_type_invariant(&*self);
        }
        let ghost before = self@;
        let mut tables = Tables::new();
        core::mem::swap(&mut tables, &mut self.tables);
        assert(tables@ == before);
        let changed = tables.refresh(path, width, height, modified_at);
        self.tables = tables;
        changed
    }
}

/// What an index in sync is: every listed image is the one that the map has under
/// its path, every key of the map is the path of a listed image, no path is
/// listed twice, and no image stands behind an older one.
pub proof fn index_holds_each_image_once(v: IndexView, i: int, j: int, p: Seq<char>)
    requires
        v.in_sync(),
    ensures
        0 <= i < v.list.len() ==> v.images.contains_key(v.list[i].path@)
            && v.images[v.list[i].path@] == v.list[i],
        0 <= i < j < v.list.len() ==> v.list[i].path@ != v.list[j].path@,
        v.images.contains_key(p) ==> v.images[p].path@ == p && v.list.contains(v.images[p]),
        0 <= i < j < v.list.len() ==> (v.list[j].modified_at matches Some(y) ==> (
        v.list[i].modified_at matches Some(x) && (x.secs > y.secs || (x.secs == y.secs && x.nanos
            >= y.nanos)))),
{
    crate::listing::newest_first_in_words(v.list);
    if 0 <= i < v.list.len() {
        assert(v.list.contains(v.list[i]));
        lemma_lists(v.list, v.list[i]);
    }
    if v.images.contains_key(p) {
        assert(lists_path(v.list, p));
        let k = choose|k: int| 0 <= k < v.list.len() && (#[trigger] v.list[k]).path@ == p;
        assert(v.images[v.list[k].path@] == v.list[k]);
    }
}

/// A path is listed exactly where some image of the list has it.
pub proof fn listed_path_is_that_of_an_image(list: Seq<Arc<ImageFile>>, p: Seq<char>)
    ensures
        lists_path(list, p) <==> !(forall|i: int|
            0 <= i < list.len() ==> (#[trigger] list[i]).path@ != p),
{
}

/// After a scan every image that was found is indexed under its path, by an image
/// that was found at that path, and nothing else is indexed.
pub proof fn scan_indexes_all_that_was_found(
    found: Seq<Arc<ImageFile>>,
    v: IndexView,
    i: int,
    p: Seq<char>,
)
    requires
        v.images == keyed(sorted_form(found)),
        v.list == once_each(sorted_form(found)),
    ensures
        0 <= i < found.len() ==> v.images.contains_key(found[i].path@),
        v.images.contains_key(p) ==> v.images[p].path@ == p && found.contains(v.images[p])
            && v.list.contains(v.images[p]),
        0 <= i < v.list.len() ==> found.contains(v.list[i]) && v.images[v.list[i].path@]
            == v.list[i],
{
    scan_is_in_sync(found);
    if 0 <= i < found.len() {
        assert(found.contains(found[i]));
        lemma_lists(found, found[i]);
    }
    index_holds_each_image_once(v, i, i, p);
    if v.images.contains_key(p) {
        let k = choose|k: int| 0 <= k < v.list.len() && v.list[k] == v.images[p];
        assert(found.contains(once_each(sorted_form(found))[k]));
    }
}

/// An addition puts the image under its path and into the list, takes out what was
/// there with the very same path, and leaves every other image.
pub proof fn addition_touches_one_path(
    v: IndexView,
    image: Arc<ImageFile>,
    other: Arc<ImageFile>,
    p: Seq<char>,
)
    ensures
        v.added(image).list == sorted_form(
            v.list.filter(|i: Arc<ImageFile>| i.path@ != image.path@).push(image),
        ),
        v.added(image).list.contains(other) <==> other == image || (v.list.contains(other)
            && other.path@ != image.path@),
        v.added(image).images.contains_key(p) <==> p == image.path@ || v.images.contains_key(p),
        v.added(image).images[image.path@] == image,
        p != image.path@ ==> v.added(image).images[p] == v.images[p],
{
    lemma_added_has(v, image, other);
}

proof fn lemma_filter_same(
    s: Seq<Arc<ImageFile>>,
    f: spec_fn(Arc<ImageFile>) -> bool,
    g: spec_fn(Arc<ImageFile>) -> bool,
)
    requires
        forall|i: int| 0 <= i < s.len() ==> f(#[trigger] s[i]) == g(s[i]),
    ensures
        s.filter(f) == s.filter(g),
    decreases s.len(),
{
    reveal(Seq::filter);
    if s.len() > 0 {
        let init = s.drop_last();
        assert forall|i: int| 0 <= i < init.len() implies f(#[trigger] init[i]) == g(init[i]) by {
            assert(init[i] == s[i]);
        }
        lemma_filter_same(init, f, g);
        assert(f(s[s.len() - 1]) == g(s[s.len() - 1]));
    }
}

/// A removal of a title takes out the images whose title reads exactly so, and
/// every image whose title reads otherwise, or that has none, stays: in the map,
/// and in its order in the list.
pub proof fn removal_keeps_every_other_title(v: IndexView, title: Seq<char>, image: Arc<ImageFile>)
    requires
        v.in_sync(),
    ensures
        v.without_title(title).list == v.list.filter(
            |i: Arc<ImageFile>| !(i.title matches Some(t) && t@ == title),
        ),
        v.list.contains(image) && (image.title matches Some(t) ==> t@ != title)
            ==> v.without_title(title).list.contains(image) && v.without_title(
            title,
        ).images.contains_key(image.path@) && v.without_title(title).images[image.path@] == image,
        (image.title matches Some(t) && t@ == title) ==> !v.without_title(title).list.contains(
            image,
        ) && (v.images.contains_key(image.path@) && v.images[image.path@] == image
            ==> !v.without_title(title).images.contains_key(image.path@)),
{
    let w = v.without_title(title);
    let pred = |i: Arc<ImageFile>| !v.titled_at(i.path@, title);
    let plain = |i: Arc<ImageFile>| !(i.title matches Some(t) && t@ == title);
    assert forall|i: int| 0 <= i < v.list.len() implies pred(#[trigger] v.list[i]) == plain(
        v.list[i],
    ) by {
        index_holds_each_image_once(v, i, i, v.list[i].path@);
    }
    lemma_filter_same(v.list, pred, plain);
    lemma_filter_has(v.list, plain, image);
    if v.list.contains(image) {
        let k = choose|k: int| 0 <= k < v.list.len() && v.list[k] == image;
        index_holds_each_image_once(v, k, k, image.path@);
    }
    if v.images.contains_key(image.path@) && v.images[image.path@] == image && (
    image.title matches Some(t) && t@ == title) {
        assert(v.titled_at(image.path@, title));
    }
}

/// A file counts as changed exactly where its image is indexed and its width, its
/// height or its time is another; once the new values are taken over it no longer
/// does.
pub proof fn change_is_noticed_once(
    v: IndexView,
    path: Seq<char>,
    width: i32,
    height: i32,
    modified_at: Option<Mtime>,
    image: Arc<ImageFile>,
)
    ensures
        !v.images.contains_key(path) ==> !v.outdated(path, width, height, modified_at),
        v.images.contains_key(path) && v.images[path].width != width ==> v.outdated(
            path,
            width,
            height,
            modified_at,
        ),
        v.images.contains_key(path) && v.images[path].height != height ==> v.outdated(
            path,
            width,
            height,
            modified_at,
        ),
        v.images.contains_key(path) && v.images[path].modified_at != modified_at ==> v.outdated(
            path,
            width,
            height,
            modified_at,
        ),
        v.images.contains_key(path) && v.images[path].width == width && v.images[path].height
            == height && v.images[path].modified_at == modified_at ==> !v.outdated(
            path,
            width,
            height,
            modified_at,
        ),
        image.path@ == path && image.width == width && image.height == height && image.modified_at
            == modified_at ==> !v.added(image).outdated(path, width, height, modified_at),
{
}

/// Changes take effect one after the other, each on what the ones before it left.
pub proof fn changes_take_effect_in_order(
    v: IndexView,
    changes: Seq<IndexChange>,
    image: Arc<ImageFile>,
    title: Seq<char>,
)
    ensures
        after_changes(v, Seq::<IndexChange>::empty()) == v,
        after_changes(v, changes.push(IndexChange::Add(image))) == after_changes(v, changes).added(
            image,
        ),
        after_changes(v, changes.push(IndexChange::Remove(title))) == after_changes(
            v,
            changes,
        ).without_title(title),
{
    assert(changes.push(IndexChange::Add(image)).drop_last() == changes);
    assert(changes.push(IndexChange::Remove(title)).drop_last() == changes);
}

/// A refresh gives the image at the path the new width, height and time, leaves
/// its title, and leaves every other image.
pub proof fn refresh_takes_over_the_new_values(
    v: IndexView,
    after: IndexView,
    path: Seq<char>,
    width: i32,
    height: i32,
    modified_at: Option<Mtime>,
    p: Seq<char>,
)
    requires
        v.refreshed(after, path, width, height, modified_at),
        v.images.contains_key(path),
    ensures
        after.images.contains_key(path),
        after.images[path].path@ == path,
        after.images[path].width == width,
        after.images[path].height == height,
        after.images[path].modified_at == modified_at,
        after.images[path].title is Some <==> v.images[path].title is Some,
        v.images[path].title is Some ==> after.images[path].title->0@ == v.images[path].title->0@,
        after.list.contains(after.images[path]),
        p != path ==> (after.images.contains_key(p) <==> v.images.contains_key(p))
            && after.images[p] == v.images[p],
{
    let image = choose|image: Arc<ImageFile>|
        {
            &&& image.path@ == path
            &&& image.title_view() == v.images[path].title_view()
            &&& image.width == width
            &&& image.height == height
            &&& image.modified_at == modified_at
            &&& after == #[trigger] v.added(image)
        };
    added_image_is_indexed(v, image);
    addition_touches_one_path(v, image, image, p);
}

} // verus!
