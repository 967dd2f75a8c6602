//! Lookups in the list of images and the pages that show it.
use std::sync::Arc;
use vstd::prelude::*;

use crate::app::ImageFile;
use crate::index::{added_image_is_indexed, IndexView};
use crate::listing::{sort_image_list, sorted_form, sorting_keeps_the_images};
use crate::status::NOT_FOUND;
use crate::text::same;

verus! {

/// How many images the gallery's index page shows at most.
pub const INDEX_LIMIT: usize = 500;

/// How many thumbnails the strip of a viewer page shows at most.
pub const THUMB_WINDOW: usize = 9;

/// How many thumbnails stand before the current one in the middle of the list.
pub const THUMBS_BEFORE: usize = 4;

/// Default width for the main image of a viewer page.
pub const MAIN_IMAGE_WIDTH: u32 = 1920;

/// Whether `k` is the first position of an image with the given title.
pub open spec fn first_titled(list: Seq<Arc<ImageFile>>, title: Seq<char>, k: int) -> bool {
    &&& 0 <= k < list.len()
    &&& list[k].titled(title)
    &&& forall|l: int| 0 <= l < k ==> !(#[trigger] list[l]).titled(title)
}

/// Resolves a file name (an image's title) to an indexed image: the first match
/// wins.
pub fn find_by_title(list: &[Arc<ImageFile>], title: &str) -> (found: Option<Arc<ImageFile>>)
    ensures
        match found {
            Some(image) => exists|k: int| #[trigger]
                first_titled(list@, title@, k) && list@[k] == image,
            None => forall|k: int| 0 <= k < list@.len() ==> !(#[trigger] list@[k]).titled(title@),
        },
        found matches Some(image) ==> list@.contains(image) && (image.title matches Some(t) && t@
            == title@),
        found is None ==> forall|k: int|
            0 <= k < list@.len() ==> ((#[trigger] list@[k]).title matches Some(t) ==> t@
                != title@),
{
    for i in 0..list.len()
        invariant
            forall|l: int| 0 <= l < i ==> !(#[trigger] list@[l]).titled(title@),
    {
        let hit = match &list[i].title {
            Some(t) => same(t, title),
            None => false,
        };
        if hit {
            assert(first_titled(list@, title@, i as int));
            return Some(Arc::clone(&list[i]));
        }
    }
    None
}

/// The image that a request for a title is about, or the status of the answer
/// where there is none.
pub fn requested_image(list: &[Arc<ImageFile>], title: &str) -> (found: Result<
    Arc<ImageFile>,
    u16,
>)
    ensures
        match found {
            Ok(image) => exists|k: int| #[trigger]
                first_titled(list@, title@, k) && list@[k] == image,
            Err(status) => status == NOT_FOUND && forall|k: int|
                0 <= k < list@.len() ==> !(#[trigger] list@[k]).titled(title@),
        },
        found matches Ok(image) ==> list@.contains(image) && (image.title matches Some(t) && t@
            == title@),
{
    match find_by_title(list, title) {
        Some(image) => Ok(image),
        None => Err(NOT_FOUND),
    }
}

/// What the gallery's index page shows.
#[derive(Debug)]
pub struct IndexPage {
    pub latest: Vec<Arc<ImageFile>>,
    pub count: usize,
}

/// The images of a list that the index page shows.
pub open spec fn on_index_page(list: Seq<Arc<ImageFile>>) -> Seq<Arc<ImageFile>> {
    if list.len() <= INDEX_LIMIT {
        list
    } else {
        list.take(INDEX_LIMIT as int)
    }
}

/// The gallery's index page: the first images of the list, up to a limit, and
/// their number.
pub fn render_index(list: &[Arc<ImageFile>]) -> (page: IndexPage)
    ensures
        list@.len() <= INDEX_LIMIT ==> page.latest@ == list@,
        list@.len() > INDEX_LIMIT ==> page.latest@ == list@.take(INDEX_LIMIT as int),
        page.count == page.latest@.len(),
        page.latest@ == on_index_page(list@),
{
    let n: usize = if list.len() < INDEX_LIMIT {
        list.len()
    } else {
        INDEX_LIMIT
    };
    let latest = part(list, 0, n);
    assert(list@.subrange(0, n as int) == list@.take(n as int));
    assert(list@.take(list@.len() as int) == list@);
    IndexPage { latest, count: n }
}

/// The images from `from` to `to`.
fn part(list: &[Arc<ImageFile>], from: usize, to: usize) -> (out: Vec<Arc<ImageFile>>)
    requires
        from <= to <= list@.len(),
    ensures
        out@ == list@.subrange(from as int, to as int),
{
    let mut out: Vec<Arc<ImageFile>> = Vec::new();
    for i in from..to
        invariant
            from <= to <= list@.len(),
            out@ == list@.subrange(from as int, i as int),
    {
        out.push(Arc::clone(&list[i]));
    }
    out
}

/// What the viewer page of one image shows.
#[derive(Debug)]
pub struct ViewPage {
    pub image: Arc<ImageFile>,
    /// The thumbnail strip: a part of the list around the image.
    pub thumbnails: Vec<Arc<ImageFile>>,
    /// The image's place in the strip, counted from 1.
    pub active_thumb_idx: i32,
    /// The image's place in the whole list, counted from 1.
    pub current_index: usize,
    pub total: usize,
    pub main_w: u32,
    /// Titles to navigate to; empty where there is no such image or title.
    pub prev_title: String,
    pub next_title: String,
    pub first_title: String,
    pub last_title: String,
}

/// Where the thumbnail strip starts for the image at `current` of `total`: four
/// images before it, but at the ends of the list shifted so that the strip is
/// full where the list is long enough.
pub open spec fn window_start(current: int, total: int) -> int {
    if total <= THUMB_WINDOW || current < THUMBS_BEFORE {
        0
    } else if current - THUMBS_BEFORE + THUMB_WINDOW > total {
        total - THUMB_WINDOW
    } else {
        current - THUMBS_BEFORE
    }
}

/// Where the thumbnail strip ends.
pub open spec fn window_end(current: int, total: int) -> int {
    if total <= THUMB_WINDOW {
        total
    } else {
        window_start(current, total) + THUMB_WINDOW
    }
}

/// The thumbnail strip always contains the current image, never leaves the list,
/// and is as wide as the list allows.
pub proof fn window_shows_current(current: int, total: int)
    requires
        0 <= current < total,
    ensures
        0 <= window_start(current, total) <= current < window_end(current, total) <= total,
        window_end(current, total) - window_start(current, total) == if total < THUMB_WINDOW {
            total
        } else {
            THUMB_WINDOW as int
        },
{
}

/// Away from the ends of the list the current image stands in the middle of the
/// strip, with as many images after it as before it.
pub proof fn window_is_centered(current: int, total: int)
    requires
        THUMBS_BEFORE <= current < total - THUMBS_BEFORE,
    ensures
        current - window_start(current, total) == THUMBS_BEFORE,
        window_end(current, total) - 1 - current == THUMBS_BEFORE,
{
}

/// The title of an image, or nothing where it has none.
pub open spec fn title_or_empty(image: ImageFile) -> Seq<char> {
    match image.title {
        Some(t) => t@,
        None => Seq::empty(),
    }
}

/// The title at a position of a list; nothing where the position is outside.
pub open spec fn title_at(list: Seq<Arc<ImageFile>>, k: int) -> Seq<char> {
    if 0 <= k < list.len() {
        title_or_empty(*list[k])
    } else {
        Seq::empty()
    }
}

/// Whether `k` is the first position of an image with the given path.
pub open spec fn first_at_path(list: Seq<Arc<ImageFile>>, path: Seq<char>, k: int) -> bool {
    &&& 0 <= k < list.len()
    &&& list[k].path@ == path
    &&& forall|l: int| 0 <= l < k ==> (#[trigger] list[l]).path@ != path
}

impl ViewPage {
    /// Whether the page is what a request for a title is answered with.
    pub open spec fn answers(self, list: Seq<Arc<ImageFile>>, title: Seq<char>) -> bool {
        exists|i: int, k: int|
            #![trigger first_titled(list, title, i), first_at_path(
                sorted_form(list),
                list[i].path@,
                k,
            )]
            first_titled(list, title, i) && first_at_path(sorted_form(list), list[i].path@, k)
                && self.is_of(list[i], sorted_form(list), k)
    }

    /// Whether the page shows the given image, which stands at `current` of the
    /// given list.
    pub open spec fn is_of(
        self,
        image: Arc<ImageFile>,
        list: Seq<Arc<ImageFile>>,
        current: int,
    ) -> bool {
        let total = list.len() as int;
        let start = window_start(current, total);
        &&& self.image == image
        &&& self.thumbnails@ == list.subrange(start, window_end(current, total))
        &&& self.active_thumb_idx == current - start + 1
        &&& self.current_index == current + 1
        &&& self.total == total
        &&& self.main_w == MAIN_IMAGE_WIDTH
        &&& self.prev_title@ == title_at(list, current - 1)
        &&& self.next_title@ == title_at(list, current + 1)
        &&& self.first_title@ == title_at(list, 0)
        &&& self.last_title@ == title_at(list, total - 1)
    }
}

/// The title of an image, or nothing where it has none.
fn title_text(image: &ImageFile) -> (title: String)
    ensures
        title@ == title_or_empty(*image),
{
    match &image.title {
        Some(t) => t.clone(),
        None => String::new(),
    }
}

/// The viewer page of an image, with its neighbours in the list ordered newest
/// first. There is none where the list does not hold the image's path.
pub fn view_page(image: &Arc<ImageFile>, list: &[Arc<ImageFile>]) -> (page: Option<ViewPage>)
    ensures
        match page {
            Some(p) => exists|k: int| #[trigger]
                first_at_path(sorted_form(list@), image.path@, k) && p.is_of(
                    *image,
                    sorted_form(list@),
                    k,
                ),
            None => forall|k: int|
                0 <= k < sorted_form(list@).len() ==> (#[trigger] sorted_form(list@)[k]).path@
                    != image.path@,
        },
{
    let mut sorted = part(list, 0, list.len());
    assert(list@.subrange(0, list@.len() as int) == list@);
    sort_image_list(&mut sorted);
    let total: usize = sorted.len();
    let mut current: usize = 0;
    while current < total && !same(&sorted[current].path, &image.path)
        invariant
            current <= total,
            total == sorted@.len(),
            forall|l: int| 0 <= l < current ==> (#[trigger] sorted@[l]).path@ != image.path@,
        decreases total - current,
    {
        current = current + 1;
    }
    if current == total {
        return None;
    }
    assert(first_at_path(sorted@, image.path@, current as int));
    let start: usize = if total <= THUMB_WINDOW || current < THUMBS_BEFORE {
        0
    } else if THUMB_WINDOW - THUMBS_BEFORE > total - current {
        total - THUMB_WINDOW
    } else {
        current - THUMBS_BEFORE
    };
    let end: usize = if total <= THUMB_WINDOW {
        total
    } else {
        start + THUMB_WINDOW
    };
    proof {
        window_shows_current(current as int, total as int);
    }
    let thumbnails = part(sorted.as_slice(), start, end);
    let prev_title = if current > 0 {
        title_text(&sorted[current - 1])
    } else {
        String::new()
    };
    let next_title = if current + 1 < total {
        title_text(&sorted[current + 1])
    } else {
        String::new()
    };
    Some(
        ViewPage {
            image: Arc::clone(image),
            thumbnails,
            active_thumb_idx: (current - start + 1) as i32,
            current_index: current + 1,
            total,
            main_w: MAIN_IMAGE_WIDTH,
            prev_title,
            next_title,
            first_title: title_text(&sorted[0]),
            last_title: title_text(&sorted[total - 1]),
        },
    )
}

/// Every image of a list has a viewer page: its path occurs in the ordered list.
pub proof fn listed_image_has_a_place(list: Seq<Arc<ImageFile>>, i: int)
    requires
        0 <= i < list.len(),
    ensures
        exists|k: int|
            0 <= k < sorted_form(list).len() && #[trigger] sorted_form(list)[k] == list[i],
{
    broadcast use vstd::seq_lib::group_to_multiset_ensures;

    sorting_keeps_the_images(list);
    assert(list.contains(list[i]));
    assert(list.to_multiset().count(list[i]) > 0);
    assert(sorted_form(list).contains(list[i]));
}

/// The viewer page that a request for a title is answered with, or the status of
/// the answer where no image of the list has that title.
pub fn render_view(list: &[Arc<ImageFile>], title: &str) -> (page: Result<ViewPage, u16>)
    ensures
        match page {
            Ok(p) => exists|i: int, k: int|
                #![trigger first_titled(list@, title@, i), first_at_path(
                    sorted_form(list@),
                    list@[i].path@,
                    k,
                )]
                first_titled(list@, title@, i) && first_at_path(
                    sorted_form(list@),
                    list@[i].path@,
                    k,
                ) && p.is_of(list@[i], sorted_form(list@), k),
            Err(status) => status == NOT_FOUND && forall|k: int|
                0 <= k < list@.len() ==> !(#[trigger] list@[k]).titled(title@),
        },
        page matches Ok(p) ==> p.answers(list@, title@),
{
    let image = requested_image(list, title)?;
    let ghost i = choose|i: int| #[trigger]
        first_titled(list@, title@, i) && list@[i] == image;
    match view_page(&image, list) {
        Some(page) => {
            assert(first_titled(list@, title@, i));
            Ok(page)
        },
        None => {
            proof {
                listed_image_has_a_place(list@, i);
            }
            Err(NOT_FOUND)
        },
    }
}

/// Two neighbours in the list lead to each other, and at the ends of the list
/// there is nowhere further to go.
pub proof fn neighbours_lead_to_each_other(
    list: Seq<Arc<ImageFile>>,
    k: int,
    page: ViewPage,
    next: ViewPage,
)
    requires
        0 <= k < list.len(),
        page.is_of(list[k], list, k),
    ensures
        k + 1 < list.len() && next.is_of(list[k + 1], list, k + 1) ==> page.next_title@
            == title_or_empty(*next.image) && next.prev_title@ == title_or_empty(*page.image),
        k == 0 ==> page.prev_title@ == Seq::<char>::empty(),
        k == list.len() - 1 ==> page.next_title@ == Seq::<char>::empty(),
{
}

/// A title that occurs in a list has a first place in it.
proof fn lemma_first_titled(list: Seq<Arc<ImageFile>>, title: Seq<char>, i: int) -> (k: int)
    requires
        0 <= i < list.len(),
        list[i].titled(title),
    ensures
        first_titled(list, title, k),
    decreases i,
{
    if exists|l: int| 0 <= l < i && (#[trigger] list[l]).titled(title) {
        let l = choose|l: int| 0 <= l < i && (#[trigger] list[l]).titled(title);
        lemma_first_titled(list, title, l)
    } else {
        i
    }
}

/// Once an image has been added to the index, whether by an upload or because
/// its file appeared, a request for its title finds an image.
pub proof fn added_image_can_be_opened(v: IndexView, image: Arc<ImageFile>, title: Seq<char>)
    requires
        image.titled(title),
    ensures
        exists|k: int| #[trigger] first_titled(v.added(image).list, title, k),
{
    let list = v.added(image).list;
    added_image_is_indexed(v, image);
    let i = choose|i: int| 0 <= i < list.len() && list[i] == image;
    let k = lemma_first_titled(list, title, i);
    assert(first_titled(list, title, k));
}

/// The image that a title is resolved to has exactly that title, and no image
/// before it has.
pub proof fn found_image_has_the_very_title(
    list: Seq<Arc<ImageFile>>,
    title: Seq<char>,
    k: int,
    l: int,
)
    requires
        first_titled(list, title, k),
    ensures
        0 <= k < list.len(),
        list[k].title matches Some(t) && t@ == title,
        0 <= l < k ==> (list[l].title matches Some(t) ==> t@ != title),
{
    if 0 <= l < k {
        assert(!list[l].titled(title));
    }
}

/// A title that some image of the list has, character for character, is resolved.
pub proof fn title_of_a_listed_image_is_found(
    list: Seq<Arc<ImageFile>>,
    title: Seq<char>,
    i: int,
) -> (k: int)
    requires
        0 <= i < list.len(),
        list[i].title matches Some(t) && t@ == title,
    ensures
        first_titled(list, title, k),
        k <= i,
    decreases i,
{
    if exists|l: int| 0 <= l < i && (#[trigger] list[l]).titled(title) {
        let l = choose|l: int| 0 <= l < i && (#[trigger] list[l]).titled(title);
        title_of_a_listed_image_is_found(list, title, l)
    } else {
        i
    }
}

/// At the start of the list the strip starts with the first image, and at its end
/// it ends with the last one.
pub proof fn window_reaches_the_ends(current: int, total: int)
    requires
        0 <= current < total,
    ensures
        current <= 4 ==> window_start(current, total) == 0,
        current >= total - 5 ==> window_end(current, total) == total,
        total <= 9 ==> window_start(current, total) == 0 && window_end(current, total) == total,
        total >= 9 ==> window_end(current, total) - window_start(current, total) == 9,
{
}

/// What a viewer page shows of the image at place `k` of a list: the image, its
/// place counted from 1, the length of the list, a strip of consecutive images in
/// which the marked one is the image, and the titles of the images before, after,
/// first and last.
pub proof fn page_shows_the_image_in_its_place(
    page: ViewPage,
    image: Arc<ImageFile>,
    list: Seq<Arc<ImageFile>>,
    k: int,
    i: int,
)
    requires
        page.is_of(image, list, k),
        0 <= k < list.len(),
    ensures
        page.image == image,
        page.current_index == k + 1,
        page.total == list.len(),
        page.main_w == 1920,
        1 <= page.active_thumb_idx <= page.thumbnails@.len(),
        page.thumbnails@[page.active_thumb_idx - 1] == list[k],
        page.thumbnails@.len() == if list.len() < 9 {
            list.len() as int
        } else {
            9
        },
        0 <= i < page.thumbnails@.len() ==> page.thumbnails@[i] == list[k + 1
            - page.active_thumb_idx + i],
        k > 0 && list[k - 1].title is Some ==> page.prev_title@ == list[k - 1].title->0@,
        k + 1 < list.len() && list[k + 1].title is Some ==> page.next_title@ == list[k
            + 1].title->0@,
        list[0].title is Some ==> page.first_title@ == list[0].title->0@,
        list[list.len() - 1].title is Some ==> page.last_title@ == list[list.len()
            - 1].title->0@,
        k == 0 ==> page.prev_title@.len() == 0,
        k == list.len() - 1 ==> page.next_title@.len() == 0,
{
    window_shows_current(k, list.len() as int);
    let start = window_start(k, list.len() as int);
    let end = window_end(k, list.len() as int);
    assert(page.thumbnails@ == list.subrange(start, end));
}

/// The place of a path in a list is the first one that has exactly that path.
pub proof fn place_of_a_path_is_exact(
    list: Seq<Arc<ImageFile>>,
    path: Seq<char>,
    k: int,
    l: int,
)
    requires
        first_at_path(list, path, k),
    ensures
        0 <= k < list.len(),
        list[k].path@ == path,
        0 <= l < k ==> list[l].path@ != path,
{
}

/// The index page shows every image of a list of up to 500, and of a longer list
/// the first 500, in their order.
pub proof fn index_page_shows_the_first_500(list: Seq<Arc<ImageFile>>, i: int)
    ensures
        list.len() <= 500 ==> on_index_page(list).len() == list.len(),
        list.len() > 500 ==> on_index_page(list).len() == 500,
        0 <= i < on_index_page(list).len() ==> on_index_page(list)[i] == list[i],
{
}

/// The page that a title is answered with shows an image of the list with exactly
/// that title, marks an image of the same path in the strip, and counts it at the
/// place where that stands in the order, newest first.
pub proof fn page_answers_with_the_very_image(
    page: ViewPage,
    list: Seq<Arc<ImageFile>>,
    title: Seq<char>,
)
    requires
        page.answers(list, title),
    ensures
        list.contains(page.image),
        page.image.title matches Some(t) && t@ == title,
        page.total == list.len(),
        1 <= page.current_index <= list.len(),
        sorted_form(list)[page.current_index - 1].path@ == page.image.path@,
        1 <= page.active_thumb_idx <= page.thumbnails@.len(),
        page.thumbnails@[page.active_thumb_idx - 1] == sorted_form(list)[page.current_index - 1],
{
    let (i, k) = choose|i: int, k: int|
        #![trigger first_titled(list, title, i), first_at_path(
            sorted_form(list),
            list[i].path@,
            k,
        )]
        first_titled(list, title, i) && first_at_path(sorted_form(list), list[i].path@, k)
            && page.is_of(list[i], sorted_form(list), k);
    found_image_has_the_very_title(list, title, i, i);
    sorting_keeps_the_images(list);
    place_of_a_path_is_exact(sorted_form(list), list[i].path@, k, k);
    page_shows_the_image_in_its_place(page, list[i], sorted_form(list), k, 0);
}

} // verus!
