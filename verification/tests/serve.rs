use crab_gallery::app::{ImageParams, PreviewCache, PreviewKey};
use crab_gallery::serve::{
    cached_preview, finish_original, finish_preview, mtime_secs, not_modified_reply, plan_image,
    FileStat, Generated, ImageStep, Reply,
};

fn params(w: Option<i32>, orig: Option<&str>) -> ImageParams {
    ImageParams { w, orig: orig.map(String::from) }
}

fn stat() -> Option<FileStat> {
    Some(FileStat { mtime_secs: 1700000000, len: 1234 })
}

fn preview(w: i32) -> PreviewKey {
    match plan_image("d/a.jpg", &params(Some(w), None), stat(), None) {
        ImageStep::Preview(key) => key,
        other => panic!("{other:?}"),
    }
}

fn header<'a>(reply: &'a Reply, name: &str) -> Option<&'a str> {
    reply.headers.iter().find(|h| h.0 == name).map(|h| h.1.as_str())
}

#[test]
fn original_is_asked_for_explicitly() {
    for (orig, wanted) in [
        (None, false),
        (Some(""), true),
        (Some("true"), true),
        (Some("false"), false),
        (Some("0"), false),
        (Some("False"), true),
    ] {
        assert_eq!(params(None, orig).wants_original(), wanted, "{orig:?}");
    }
}

#[test]
fn preview_widths_are_clamped() {
    for (w, width) in [(i32::MIN, 8), (-1, 8), (7, 8), (8, 8), (300, 300), (4096, 4096), (4097, 4096)] {
        assert_eq!(preview(w).width, width);
    }
    assert_eq!(preview(300).path, "d/a.jpg");
    assert_eq!(preview(300).mtime_secs, 1700000000);
}

#[test]
fn explicit_original_wins_over_width() {
    let step = plan_image("d/a.jpg", &params(Some(300), Some("")), stat(), None);
    assert!(matches!(step, ImageStep::ReadSource(etag) if etag == "\"1700000000-1234\""));
    let step = plan_image("d/a.jpg", &params(Some(300), Some("false")), stat(), None);
    assert!(matches!(step, ImageStep::Preview(_)));
}

#[test]
fn unreadable_and_unsupported_files() {
    let step = plan_image("d/a.jpg", &params(None, None), None, None);
    assert!(matches!(step, ImageStep::Fail(404)));
    for p in [params(Some(300), None), params(None, None), params(None, Some(""))] {
        let step = plan_image("d/a.gif", &p, stat(), Some("\"1700000000-1234\""));
        assert!(matches!(step, ImageStep::Fail(404)));
    }
}

#[test]
fn current_copies_are_not_sent_again() {
    let etag = "\"1700000000-1234\"";
    let step = plan_image("d/a.jpg", &params(None, None), stat(), Some(etag));
    assert!(matches!(step, ImageStep::NotModified(t) if t == etag));
    for other in ["\"1700000000-1235\"", "1700000000-1234", ""] {
        let step = plan_image("d/a.jpg", &params(None, None), stat(), Some(other));
        assert!(matches!(step, ImageStep::ReadSource(t) if t == etag));
    }
    let reply = not_modified_reply(etag.into());
    assert_eq!(reply.status, 304);
    assert_eq!(header(&reply, "etag"), Some(etag));
    assert!(reply.body.is_empty());
    assert_eq!(reply.headers.len(), 1);
}

#[test]
fn modification_times_in_seconds() {
    assert_eq!(mtime_secs(None), 0);
    assert_eq!(mtime_secs(Some(5)), 5);
    for s in [i64::MAX as u64, i64::MAX as u64 + 1, u64::MAX] {
        assert_eq!(mtime_secs(Some(s)), s as i64);
    }
}

#[test]
fn previews_are_made_once() {
    let mut cache = PreviewCache::new();
    let key = preview(300);
    assert!(cached_preview(&mut cache, &key).is_none());
    let made = finish_preview(&mut cache, &key, Generated::Bytes(vec![1, 2, 3])).unwrap();
    let again = cached_preview(&mut cache, &key).unwrap();
    for reply in [&made, &again] {
        assert_eq!(reply.status, 200);
        assert_eq!(reply.body, [1, 2, 3]);
        assert_eq!(header(reply, "content-type"), Some("image/jpeg"));
        assert_eq!(header(reply, "cache-control"), Some("public, max-age=86400"));
        assert_eq!(header(reply, "etag"), Some("\"d/a.jpg-300-1700000000\""));
        assert_eq!(reply.headers.len(), 3);
    }
}

#[test]
fn failed_previews_are_told_and_not_kept() {
    let mut cache = PreviewCache::new();
    let key = preview(300);
    assert_eq!(finish_preview(&mut cache, &key, Generated::Failed).unwrap_err(), 502);
    assert_eq!(finish_preview(&mut cache, &key, Generated::Aborted).unwrap_err(), 500);
    assert!(cache.get(&key).is_none());
}

#[test]
fn originals_are_sent_with_their_type() {
    let reply = finish_original("\"1-2\"".into(), "image/png".into(), Some(vec![9])).unwrap();
    assert_eq!(reply.status, 200);
    assert_eq!(reply.body, [9]);
    assert_eq!(header(&reply, "content-type"), Some("image/png"));
    assert_eq!(header(&reply, "cache-control"), Some("public, max-age=86400"));
    assert_eq!(header(&reply, "etag"), Some("\"1-2\""));
    assert_eq!(finish_original("\"1-2\"".into(), "image/png".into(), None).unwrap_err(), 404);
}

#[test]
fn entity_tags_tell_versions_apart() {
    let tag = |mtime_secs, len| {
        match plan_image("a.jpg", &params(None, None), Some(FileStat { mtime_secs, len }), None) {
            ImageStep::ReadSource(etag) => etag,
            other => panic!("{other:?}"),
        }
    };
    assert_eq!(tag(-1, 0), "\"-1-0\"");
    assert_ne!(tag(1, 12), tag(11, 2));
    assert_ne!(tag(-1, 2), tag(1, 2));
}
