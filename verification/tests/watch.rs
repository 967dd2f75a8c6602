use crab_gallery::watch::{
    is_supported_path, load_step, plan_event, scan_key, LoadStep, WatchAction, WatchEvent,
};
use crab_gallery::ImageDir;

fn dirs() -> Vec<ImageDir> {
    vec![
        ImageDir { display: "./images".into(), canonical: b"/srv/images".to_vec() },
        ImageDir { display: "more".into(), canonical: b"/srv/more".to_vec() },
    ]
}

fn list(paths: &[&str]) -> Vec<Vec<u8>> {
    paths.iter().map(|p| p.as_bytes().to_vec()).collect()
}

fn told(event: WatchEvent) -> Vec<String> {
    plan_event(&event, &dirs())
        .iter()
        .map(|a| match a {
            WatchAction::Load { key } => format!("load {key}"),
            WatchAction::Outside { path } => format!("outside {}", String::from_utf8_lossy(path)),
            WatchAction::Remove { title } => format!("remove {title}"),
            WatchAction::Refresh { key } => format!("refresh {key}"),
        })
        .collect()
}

#[test]
fn new_files_are_loaded() {
    let event = WatchEvent::Create(list(&[
        "/srv/images/a.jpg",
        "/srv/images/notes.txt",
        "/srv/more/sub/b.PNG",
        "/elsewhere/c.jpg",
    ]));
    assert_eq!(
        told(event),
        ["load ./images/a.jpg", "load more/sub/b.PNG", "outside /elsewhere/c.jpg"]
    );
}

#[test]
fn gone_files_are_removed_by_title() {
    let mut paths = list(&["/srv/images/a.jpg", "/", "/elsewhere/notes.txt"]);
    paths.push(b"/srv/images/\xff.jpg".to_vec());
    assert_eq!(
        told(WatchEvent::Remove(paths)),
        ["remove a.jpg", "remove notes.txt", "remove \u{fffd}.jpg"]
    );
}

#[test]
fn only_the_first_modified_path_counts() {
    let event = WatchEvent::Modify(list(&["/srv/more/a.jpg", "/srv/more/b.jpg"]));
    assert_eq!(told(event), ["refresh more/a.jpg"]);
    assert!(told(WatchEvent::Modify(list(&["/srv/more/a.txt", "/srv/more/b.jpg"]))).is_empty());
    assert!(told(WatchEvent::Modify(list(&["/elsewhere/a.jpg"]))).is_empty());
    assert!(told(WatchEvent::Modify(vec![])).is_empty());
    assert!(told(WatchEvent::Other).is_empty());
}

#[test]
fn paths_that_are_not_text_are_not_images() {
    assert!(is_supported_path(b"/a/b.jpg"));
    assert!(!is_supported_path(b"/a/\xff.jpg"));
    assert!(told(WatchEvent::Create(vec![b"/srv/images/\xff.jpg".to_vec()])).is_empty());
}

#[test]
fn loading_is_tried_five_times() {
    for failures in 0..5 {
        assert_eq!(load_step(failures), LoadStep::Try);
    }
    assert_eq!(load_step(5), LoadStep::GiveUp);
    assert_eq!(load_step(u32::MAX), LoadStep::GiveUp);
}

#[test]
fn scan_and_watcher_use_the_same_keys() {
    let dir = &dirs()[1];
    let path = b"/srv/more/sub/b.PNG";
    assert_eq!(scan_key(path, true, dir).as_deref(), Some("more/sub/b.PNG"));
    assert_eq!(scan_key(path, false, dir), None);
    assert_eq!(scan_key(b"/srv/more/b.txt", true, dir), None);
    assert_eq!(scan_key(b"/srv/images/b.png", true, dir), None);
}
