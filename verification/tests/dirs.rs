use std::path::Path;

use crab_gallery::dirs::{default_upload_dir, dir_image_key, DirArg};
use crab_gallery::path::{find_below, find_file_name, find_spans};
use crab_gallery::{relative_image_key, resolve_dirs, ImageDir};

fn dir(display: &str, canonical: &str) -> ImageDir {
    ImageDir { display: display.into(), canonical: canonical.as_bytes().to_vec() }
}

fn std_key(p: &str, dirs: &[ImageDir]) -> Option<String> {
    for d in dirs {
        let base = std::str::from_utf8(&d.canonical).unwrap();
        if let Ok(rel) = Path::new(p).strip_prefix(base) {
            return Some(format!("{}/{}", d.display, rel.to_str()?));
        }
    }
    None
}

#[test]
fn keys_are_those_of_std() {
    let dirs = [
        dir("./images", "/srv/images"),
        dir("v", "/srv/vacation/2024"),
        dir("all", "/srv"),
        dir("rel", "a/./b"),
    ];
    let paths = [
        "/srv/images/a.jpg", "/srv/images", "/srv/images/", "/srv/imagesx/a.jpg", "/srv/images//a",
        "/srv/images/./a/", "/srv/images/a/.", "/srv/images/a//b/../c", "/srv/vacation/2024/x.png",
        "/srv/vacation", "srv/images/a.jpg", "//srv/images/a.jpg", "/", "", ".", "..", "/other/a",
        "/srv/./images/a.jpg", "a/b/c", "a/b", "./a/b/c", "a//b//c//", "/srv/../x",
    ];
    for p in paths {
        assert_eq!(relative_image_key(p.as_bytes(), &dirs), std_key(p, &dirs), "{p}");
    }
}

#[test]
fn spans_are_the_components_of_std() {
    for p in [
        "", "/", "a", "/a", "a/", "./a", "a/./b", "a/..", "../a", ".", "./", "//a//b//", "/./a",
        "a/.", "a/./.", "..", "/..", "a/b/c.d",
    ] {
        let spans = find_spans(p.as_bytes());
        let parts: Vec<&str> = spans.iter().map(|s| &p[s.0..s.1]).collect();
        let expected: Vec<String> = Path::new(p)
            .components()
            .map(|c| c.as_os_str().to_string_lossy().into_owned())
            .collect();
        assert_eq!(parts, expected, "{p}");
        let name = find_file_name(p.as_bytes()).map(|s| &p[s.0..s.1]);
        assert_eq!(name, Path::new(p).file_name().and_then(|f| f.to_str()), "{p}");
    }
}

#[test]
fn prefixes_are_those_of_std() {
    let samples = ["", ".", "a", "a/b", "a/b/", "/a/b", "./a", "a/./b/c", "/", "..", "a/..", "/a"];
    for p in samples {
        for base in samples {
            let below = find_below(p.as_bytes(), base.as_bytes()).map(|s| &p[s.0..s.1]);
            let expected = Path::new(p).strip_prefix(base).ok().and_then(|r| r.to_str());
            assert_eq!(below, expected, "{p} {base}");
        }
    }
}

#[test]
fn first_folder_wins() {
    let dirs = [dir("one", "/d"), dir("two", "/d/sub")];
    assert_eq!(relative_image_key(b"/d/sub/a.jpg", &dirs).as_deref(), Some("one/sub/a.jpg"));
    assert_eq!(dir_image_key(b"/d/sub/a.jpg", &dirs[1]).as_deref(), Some("two/a.jpg"));
}

#[test]
fn paths_outside_or_not_text_have_no_key() {
    let dirs = [dir("one", "/d")];
    assert_eq!(relative_image_key(b"/e/a.jpg", &dirs), None);
    assert_eq!(relative_image_key(b"/d/\xff.jpg", &dirs), None);
    assert_eq!(relative_image_key(b"/d/a.jpg", &[]), None);
}

#[test]
fn folders_are_normalized() {
    let dirs = resolve_dirs(vec![
        DirArg { given: b"./images//".to_vec(), canonical: Some(b"/srv/images".to_vec()) },
        DirArg { given: b"missing".to_vec(), canonical: None },
        DirArg { given: b"\xffx/".to_vec(), canonical: Some(b"/srv/\xffx".to_vec()) },
    ]);
    assert_eq!(dirs.len(), 2);
    assert_eq!(dirs[0].display, "./images");
    assert_eq!(dirs[0].canonical, b"/srv/images");
    assert_eq!(dirs[1].display, "\u{fffd}x");
    assert_eq!(dirs[1].canonical, b"/srv/\xffx");
    assert_eq!(default_upload_dir(&dirs).as_deref(), Some("./images"));
    assert_eq!(default_upload_dir(&[]), None);
}
