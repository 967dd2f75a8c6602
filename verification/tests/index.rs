use std::sync::Arc;

use crab_gallery::app::{ImageFile, Mtime};
use crab_gallery::{load_image_info, scan_images, sort_image_list};

fn at(secs: i64) -> Option<Mtime> {
    Some(Mtime { secs, nanos: 0 })
}

fn image(path: &str, modified_at: Option<Mtime>) -> Arc<ImageFile> {
    load_image_info(path, Some((4, 3)), modified_at).unwrap()
}

fn paths(list: &[Arc<ImageFile>]) -> Vec<&str> {
    list.iter().map(|i| i.path.as_str()).collect()
}

#[test]
fn images_are_described_by_their_path() {
    let i = load_image_info("./images/a.jpg", Some((640, 480)), at(5)).unwrap();
    assert_eq!(i.path, "./images/a.jpg");
    assert_eq!(i.title.as_deref(), Some("a.jpg"));
    assert_eq!((i.width, i.height), (640, 480));
    assert_eq!(i.modified_at, at(5));
    assert!(load_image_info("./images/a.jpg", None, at(5)).is_none());
    assert_eq!(load_image_info("..", Some((1, 1)), None).unwrap().title, None);
}

#[test]
fn default_image_is_empty() {
    let i = ImageFile::default();
    assert_eq!(i.path, "");
    assert_eq!(i.title, None);
    assert_eq!((i.width, i.height, i.modified_at), (0, 0, None));
}

#[test]
fn newest_images_come_first() {
    let mut list = vec![
        image("d/none1", None),
        image("d/old", at(1)),
        image("d/new", at(9)),
        image("d/none2", None),
        image("d/old2", at(1)),
        image("d/mid", Some(Mtime { secs: 1, nanos: 5 })),
    ];
    sort_image_list(&mut list);
    assert_eq!(paths(&list), ["d/new", "d/mid", "d/old", "d/old2", "d/none1", "d/none2"]);
    let once = paths(&list).join(" ");
    let mut again = list.clone();
    sort_image_list(&mut again);
    assert_eq!(paths(&again).join(" "), once);
}

#[test]
fn sorting_agrees_with_a_stable_sort() {
    let mut list = Vec::new();
    let mut x: u32 = 1;
    for n in 0..300 {
        x = x.wrapping_mul(1103515245).wrapping_add(12345);
        let time = if x % 7 == 0 { None } else { at(i64::from(x / 65536 % 20) - 10) };
        list.push(image(&format!("d/{n}"), time));
    }
    let mut expected = list.clone();
    expected.sort_by_key(|i| std::cmp::Reverse(i.modified_at.map(|m| (m.secs, m.nanos))));
    sort_image_list(&mut list);
    assert_eq!(paths(&list), paths(&expected));
}

#[test]
fn scan_builds_map_and_list() {
    let index = scan_images(vec![image("d/a.jpg", at(1)), image("d/b.jpg", at(2))]);
    assert_eq!(paths(index.list()), ["d/b.jpg", "d/a.jpg"]);
    assert_eq!(index.get("d/a.jpg").unwrap().path, "d/a.jpg");
    assert!(index.get("d/c.jpg").is_none());
}

#[test]
fn addition_replaces_and_is_idempotent() {
    let mut index = scan_images(vec![image("d/a.jpg", at(1)), image("d/b.jpg", at(2))]);
    let newer = image("d/a.jpg", at(3));
    index.add(Arc::clone(&newer));
    assert_eq!(paths(index.list()), ["d/a.jpg", "d/b.jpg"]);
    assert_eq!(index.get("d/a.jpg").unwrap().modified_at, at(3));
    index.add(newer);
    assert_eq!(paths(index.list()), ["d/a.jpg", "d/b.jpg"]);
}

#[test]
fn removal_takes_all_images_of_a_title() {
    let mut index = scan_images(vec![
        image("d/a.jpg", at(1)),
        image("e/a.jpg", at(2)),
        image("d/b.jpg", at(3)),
    ]);
    index.remove_titled("a.jpg");
    assert_eq!(paths(index.list()), ["d/b.jpg"]);
    assert!(index.get("d/a.jpg").is_none());
    assert!(index.get("e/a.jpg").is_none());
    index.remove_titled("missing.jpg");
    assert_eq!(paths(index.list()), ["d/b.jpg"]);
}

#[test]
fn removal_takes_back_an_addition() {
    let mut index = scan_images(vec![image("d/b.jpg", at(3))]);
    index.add(image("d/a.jpg", at(4)));
    index.remove_titled("a.jpg");
    assert_eq!(paths(index.list()), ["d/b.jpg"]);
    assert!(index.get("d/a.jpg").is_none());
}

#[test]
fn refresh_updates_only_what_changed() {
    let mut index = scan_images(vec![image("d/a.jpg", at(1)), image("d/b.jpg", at(2))]);
    assert!(!index.refresh("d/a.jpg", 4, 3, at(1)));
    assert!(!index.refresh("d/c.jpg", 9, 9, at(9)));
    assert_eq!(paths(index.list()), ["d/b.jpg", "d/a.jpg"]);
    assert!(index.refresh("d/a.jpg", 8, 6, at(5)));
    assert_eq!(paths(index.list()), ["d/a.jpg", "d/b.jpg"]);
    let a = index.get("d/a.jpg").unwrap();
    assert_eq!((a.width, a.height, a.modified_at), (8, 6, at(5)));
    assert_eq!(a.title.as_deref(), Some("a.jpg"));
    assert!(index.refresh("d/a.jpg", 8, 6, None));
    assert_eq!(paths(index.list()), ["d/b.jpg", "d/a.jpg"]);
}

#[test]
fn overlapping_folders_are_indexed_once() {
    let index = scan_images(vec![
        image("a/b/x.jpg", at(2)),
        image("a/y.jpg", at(1)),
        image("a/b/x.jpg", at(2)),
        image("a/b/x.jpg", at(3)),
    ]);
    assert_eq!(paths(index.list()), ["a/b/x.jpg", "a/y.jpg"]);
    for i in index.list() {
        assert!(Arc::ptr_eq(i, index.get(&i.path).unwrap()));
    }
    assert_eq!(index.get("a/b/x.jpg").unwrap().modified_at, at(2));
}
