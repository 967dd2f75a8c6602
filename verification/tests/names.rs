use std::path::Path;

use crab_gallery::names::{
    clock_stamp, file_name_of, free_image_path, image_path, image_path_at, stamped_image_path,
    text_file_name, Clock,
};
use crab_gallery::{is_supported_image_ext, sanitize_filename, unique_image_path};

const SAMPLES: [&str; 36] = [
    "", ".", "..", "/", "//", "a", "a/", "a//", "a/.", "a/..", "a/../b", "./a", "/a", "/a/b.jpg",
    "a/b/.", "a/b/./.", "a/./b", ".hidden", ".hidden.png", "a.b.c", "a.", "a..", "...", "..a",
    "x/.jpg", "x/a.JPG/", "/./", "/.", "/..", "./.", "./", "a.jpeg/..", "\u{e9}/\u{fc}.PnG",
    "a b.jpg", "a//b//c.png", "..jpg",
];

fn std_supported(name: &str) -> bool {
    Path::new(name)
        .extension()
        .map(|e| {
            let lower = e.to_ascii_lowercase();
            lower == "jpg" || lower == "jpeg" || lower == "png"
        })
        .unwrap_or(false)
}

#[test]
fn file_names_are_those_of_std() {
    for s in SAMPLES {
        let expected = Path::new(s).file_name().map(|f| f.to_string_lossy().into_owned());
        assert_eq!(text_file_name(s), expected, "{s}");
        assert_eq!(file_name_of(s), expected.unwrap_or_else(|| s.to_string()), "{s}");
    }
}

#[test]
fn supported_types_are_those_of_std() {
    for s in SAMPLES {
        assert_eq!(is_supported_image_ext(s), std_supported(s), "{s}");
    }
    for a in SAMPLES {
        for b in SAMPLES {
            let joined = format!("{a}{b}");
            assert_eq!(is_supported_image_ext(&joined), std_supported(&joined), "{joined}");
        }
    }
}

#[test]
fn supported_types() {
    for name in ["a.jpg", "a.jpeg", "a.png", "a.JPG", "x/y/a.pNg", "a.b.jpg"] {
        assert!(is_supported_image_ext(name), "{name}");
    }
    for name in ["", "jpg", ".jpg", "a.gif", "a.jpg.txt", "a.jp", "a.jpgx", "a.jpg/b"] {
        assert!(!is_supported_image_ext(name), "{name}");
    }
}

#[test]
fn sanitize_edge_cases() {
    assert_eq!(sanitize_filename(".."), "upload");
    assert_eq!(sanitize_filename("/"), "upload");
    assert_eq!(sanitize_filename("___"), "upload");
    assert_eq!(sanitize_filename("__a__.jpg"), "a__.jpg");
    assert_eq!(sanitize_filename("\u{fc}ber.png"), "ber.png");
    assert_eq!(sanitize_filename("a/b/"), "b");
    assert_eq!(sanitize_filename("a\\b.jpg"), "a_b.jpg");
    assert_eq!(sanitize_filename(" .. "), "upload");
    assert_eq!(sanitize_filename("x/_._"), "upload");
    assert_eq!(sanitize_filename("_..._"), "...");
}

#[test]
fn sanitized_names_are_safe() {
    for s in SAMPLES {
        let name = sanitize_filename(s);
        assert!(!name.is_empty());
        assert!(name.chars().all(|c| c.is_ascii_alphanumeric() || "._-".contains(c)));
        assert!(!name.starts_with('_') && !name.ends_with('_'));
        assert!(name != "." && name != "..");
        assert_eq!(text_file_name(&name).as_deref(), Some(name.as_str()));
        assert_eq!(sanitize_filename(&name), name);
    }
}

#[test]
fn plain_and_stamped_paths() {
    assert_eq!(image_path("./images//", "a.jpg"), "./images/a.jpg");
    assert_eq!(image_path("", "a.jpg"), "/a.jpg");
    assert_eq!(
        stamped_image_path("./images/", "a.b.JPG", "20240102_030405"),
        "./images/a.b_20240102_030405.jpg"
    );
    assert_eq!(
        stamped_image_path("images", "upload", "20240102_030405"),
        "images/upload_20240102_030405"
    );
}

#[test]
fn unique_path_avoids_collisions() {
    let target = unique_image_path("./images", "exists_98765.jpg", &[]);
    let unique = unique_image_path("./images", "exists_98765.jpg", &[target.clone()]);
    assert_ne!(unique, target);
}

#[test]
fn free_plain_path_is_kept() {
    let used = ["./images/b.jpg".to_string(), "other/a.jpg".to_string()];
    assert_eq!(unique_image_path("./images/", "a.jpg", &used), "./images/a.jpg");
}

#[test]
fn unique_paths_are_never_in_use() {
    for name in ["a.jpg", "upload", "a.b.PNG"] {
        let mut used: Vec<String> = Vec::new();
        for _ in 0..20 {
            let path = unique_image_path("d/", name, &used);
            assert!(!used.contains(&path));
            assert_eq!(Path::new(&path).parent(), Some(Path::new("d")));
            used.push(path);
        }
    }
}

#[test]
fn further_attempts_are_numbered() {
    let stamp = "20240102_030405";
    let mut used = vec!["d/a.jpg".to_string()];
    for expected in ["d/a_20240102_030405.jpg", "d/a_20240102_030405_1.jpg", "d/a_20240102_030405_2.jpg"] {
        let path = free_image_path("d", "a.jpg", stamp, &used);
        assert_eq!(path, expected);
        used.push(path);
    }
    used.remove(1);
    assert_eq!(free_image_path("d", "a.jpg", stamp, &used), "d/a_20240102_030405.jpg");
}

#[test]
fn paths_tell_the_reading_of_the_clock() {
    let clock = Clock { year: 2024, month: 1, day: 2, hour: 3, minute: 4, second: 5 };
    let mut used = vec!["d/a.JPG".to_string()];
    assert_eq!(image_path_at("d/", "a.JPG", clock, &used), "d/a_20240102_030405.jpg");
    used.push("d/a_20240102_030405.jpg".to_string());
    assert_eq!(image_path_at("d/", "a.JPG", clock, &used), "d/a_20240102_030405_1.jpg");
    assert_eq!(image_path_at("d", "upload", clock, &used), "d/upload_20240102_030405");
}

#[test]
fn time_stamps_have_their_shape() {
    let path = unique_image_path("d", "a.PNG", &["d/a.PNG".to_string()]);
    let stamp = path.strip_prefix("d/a_").unwrap().strip_suffix(".png").unwrap();
    assert_eq!(stamp.len(), 15);
    assert!(stamp.chars().enumerate().all(|(i, c)| if i == 8 {
        c == '_'
    } else {
        c.is_ascii_digit()
    }));
}

#[test]
fn time_stamps_are_those_of_chrono() {
    for (year, month, day) in [(2024, 1, 2), (0, 12, 31), (7, 10, 9), (9999, 11, 30), (10000, 1, 1), (-1, 2, 3), (-20000, 4, 5)] {
        for (hour, minute, second) in [(0, 0, 0), (3, 4, 5), (23, 59, 59)] {
            let clock = Clock { year, month, day, hour, minute, second };
            let moment = chrono::NaiveDate::from_ymd_opt(year, month, day)
                .unwrap()
                .and_hms_opt(hour, minute, second)
                .unwrap();
            assert_eq!(clock_stamp(clock), moment.format("%Y%m%d_%H%M%S").to_string());
        }
    }
}

#[test]
fn time_stamps_tell_the_present() {
    let before = chrono::Local::now().naive_local();
    let path = unique_image_path("d", "a.png", &["d/a.png".to_string()]);
    let after = chrono::Local::now().naive_local();
    let stamp = path.strip_prefix("d/a_").unwrap().strip_suffix(".png").unwrap();
    let told = chrono::NaiveDateTime::parse_from_str(stamp, "%Y%m%d_%H%M%S").unwrap();
    assert!(told.and_utc().timestamp() >= before.and_utc().timestamp());
    assert!(told.and_utc().timestamp() <= after.and_utc().timestamp());
}

#[test]
fn different_stamps_give_different_paths() {
    for name in ["a.jpg", "upload"] {
        assert_ne!(
            stamped_image_path("d", name, "20240102_030405"),
            stamped_image_path("d", name, "20240102_030406")
        );
    }
}

#[test]
fn uploads_land_in_their_folder() {
    for raw in ["photo.jpg", "../../x.png", "a b/c d.JPEG", "notes", " .. ", ".hidden", "a."] {
        let name = sanitize_filename(raw);
        let plain = image_path("in/box/", &name);
        assert_eq!(Path::new(&plain).parent(), Some(Path::new("in/box")));
        assert_eq!(file_name_of(&plain), name);
        let stamped = stamped_image_path("in/box/", &name, "20240102_030405");
        assert_eq!(Path::new(&stamped).parent(), Some(Path::new("in/box")));
        assert_eq!(is_supported_image_ext(&plain), is_supported_image_ext(&name));
        assert!(!is_supported_image_ext(&name) || is_supported_image_ext(&stamped));
    }
}
