use std::sync::Arc;

use crab_gallery::app::{ImageFile, Mtime};
use crab_gallery::pages::{
    find_by_title, render_index, render_view, requested_image, view_page, MAIN_IMAGE_WIDTH,
};
use crab_gallery::{load_image_info, scan_images};

/// Images `d/0.jpg`, `d/1.jpg` and so on, newest first.
fn gallery(n: usize) -> Vec<Arc<ImageFile>> {
    (0..n)
        .map(|i| {
            let time = Some(Mtime { secs: (n - i) as i64, nanos: 0 });
            load_image_info(&format!("d/{i}.jpg"), Some((1, 1)), time).unwrap()
        })
        .collect()
}

#[test]
fn index_page_is_capped() {
    let page = render_index(&gallery(3));
    assert_eq!(page.count, 3);
    assert_eq!(page.latest[2].path, "d/2.jpg");
    let page = render_index(&gallery(501));
    assert_eq!((page.count, page.latest.len()), (500, 500));
    assert_eq!(page.latest[499].path, "d/499.jpg");
    assert_eq!(render_index(&[]).count, 0);
}

#[test]
fn first_match_wins() {
    let list = vec![
        load_image_info("one/a.jpg", Some((1, 1)), None).unwrap(),
        load_image_info("two/a.jpg", Some((1, 1)), None).unwrap(),
    ];
    assert_eq!(find_by_title(&list, "a.jpg").unwrap().path, "one/a.jpg");
    assert!(find_by_title(&list, "one/a.jpg").is_none());
    assert_eq!(requested_image(&list, "a.jpg").unwrap().path, "one/a.jpg");
    assert_eq!(requested_image(&list, "b.jpg").unwrap_err(), 404);
}

#[test]
fn view_page_shows_its_surroundings() {
    let list = gallery(20);
    let page = render_view(&list, "10.jpg").unwrap();
    assert_eq!(page.image.path, "d/10.jpg");
    assert_eq!(page.thumbnails.len(), 9);
    assert_eq!(page.thumbnails[0].path, "d/6.jpg");
    assert_eq!(page.active_thumb_idx, 5);
    assert_eq!((page.current_index, page.total), (11, 20));
    assert_eq!(page.main_w, MAIN_IMAGE_WIDTH);
    assert_eq!(page.main_w, 1920);
    assert_eq!((page.prev_title.as_str(), page.next_title.as_str()), ("9.jpg", "11.jpg"));
    assert_eq!((page.first_title.as_str(), page.last_title.as_str()), ("0.jpg", "19.jpg"));
}

#[test]
fn window_is_shifted_at_the_ends() {
    let list = gallery(20);
    let expect = [(0, 0, 1), (3, 0, 4), (4, 0, 5), (5, 1, 5), (15, 11, 5), (16, 11, 6), (19, 11, 9)];
    for (i, start, active) in expect {
        let page = render_view(&list, &format!("{i}.jpg")).unwrap();
        assert_eq!(page.thumbnails.len(), 9);
        assert_eq!(page.thumbnails[0].path, format!("d/{start}.jpg"));
        assert_eq!(page.active_thumb_idx, active);
        assert_eq!(page.thumbnails[active as usize - 1].path, page.image.path);
    }
    let page = render_view(&gallery(4), "3.jpg").unwrap();
    assert_eq!((page.thumbnails.len(), page.active_thumb_idx), (4, 4));
}

#[test]
fn neighbours_link_back_and_ends_are_open() {
    let list = gallery(3);
    let first = render_view(&list, "0.jpg").unwrap();
    let second = render_view(&list, "1.jpg").unwrap();
    let last = render_view(&list, "2.jpg").unwrap();
    assert_eq!(first.prev_title, "");
    assert_eq!(first.next_title, "1.jpg");
    assert_eq!(second.prev_title, "0.jpg");
    assert_eq!(last.next_title, "");
}

#[test]
fn unknown_images_have_no_page() {
    let list = gallery(3);
    assert_eq!(render_view(&list, "x.jpg").unwrap_err(), 404);
    assert_eq!(render_view(&[], "0.jpg").unwrap_err(), 404);
    let stranger = load_image_info("e/0.jpg", Some((1, 1)), None).unwrap();
    assert!(view_page(&stranger, &list).is_none());
}

#[test]
fn view_page_orders_an_unordered_list() {
    let mut list = gallery(5);
    list.reverse();
    let page = render_view(&list, "1.jpg").unwrap();
    assert_eq!((page.prev_title.as_str(), page.next_title.as_str()), ("0.jpg", "2.jpg"));
}

#[test]
fn added_image_is_found_at_once() {
    let mut index = scan_images(gallery(2));
    index.add(load_image_info("d/new.png", Some((1, 1)), None).unwrap());
    assert_eq!(find_by_title(index.list(), "new.png").unwrap().path, "d/new.png");
    assert!(render_view(index.list(), "new.png").is_ok());
}
