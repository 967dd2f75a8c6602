use base64::Engine;

use crab_gallery::app::UploadResponse;
use crab_gallery::codec::decode_base64;
use crab_gallery::pages::find_by_title;
use crab_gallery::upload::{
    check_key, check_upload, configured_api_key, decode_image, disk_error, finish_form,
    finish_save, read_form, refuse_body, refuse_multipart, start_multipart, upload_form,
    upload_format, upload_multipart, DiskStep, UploadFormat,
    MAX_IMAGE_BYTES, MAX_UPLOAD_BODY_BYTES,
};
use crab_gallery::{load_image_info, scan_images};

const DISABLED: &str =
    "uploads disabled: no API key configured (use --api-key or CRAB_GALLERY_API_KEY)";

fn pairs(fields: &[(&str, &str)]) -> Vec<(String, String)> {
    fields.iter().map(|f| (f.0.to_string(), f.1.to_string())).collect()
}

#[test]
fn limits() {
    assert_eq!(MAX_UPLOAD_BODY_BYTES, 134217728);
    assert_eq!(MAX_IMAGE_BYTES, 67108864);
    let r = refuse_body(true, "ignored");
    assert_eq!((r.status, r.message.as_str()), (413, "request body exceeds the 128MB limit"));
    let r = refuse_body(false, "gone");
    assert_eq!((r.status, r.message.as_str()), (400, "read error: gone"));
}

#[test]
fn format_is_chosen_by_content_type() {
    assert_eq!(upload_format("multipart/form-data; boundary=x"), UploadFormat::Multipart);
    assert_eq!(upload_format("application/x-www-form-urlencoded"), UploadFormat::Form);
    assert_eq!(upload_format(""), UploadFormat::Form);
}

#[test]
fn keys_are_checked() {
    let e = check_key(None, Some("k"), Some("k"), None).unwrap_err();
    assert_eq!((e.status, e.message.as_str()), (503, DISABLED));
    assert!(check_key(Some("k"), None, Some("k"), None).is_ok());
    assert!(check_key(Some("k"), None, None, Some("Bearer k")).is_ok());
    assert!(check_key(Some("k"), Some("k"), Some("x"), None).is_ok());
    for (form, header, authorization) in [
        (None, None, None),
        (None, Some("x"), None),
        (None, Some(""), Some("Bearer k")),
        (None, None, Some("bearer k")),
        (None, None, Some("k")),
        (None, None, Some("Bearer kk")),
        (Some("x"), Some("k"), Some("Bearer k")),
    ] {
        let e = check_key(Some("k"), form, header, authorization).unwrap_err();
        assert_eq!((e.status, e.message.as_str()), (401, "invalid or missing API key"));
    }
    assert_eq!(check_key(Some(""), None, Some(""), None).unwrap_err().status, 401);
}

#[test]
fn configured_key_comes_from_flag_or_environment() {
    let s = |t: &str| Some(t.to_string());
    assert_eq!(configured_api_key(s("a"), s("b")), s("a"));
    assert_eq!(configured_api_key(None, s("b")), s("b"));
    assert_eq!(configured_api_key(None, s("")), None);
    assert_eq!(configured_api_key(None, None), None);
    assert_eq!(configured_api_key(s(""), s("b")), s(""));
}

#[test]
fn forms_are_read() {
    let form = pairs(&[("key", "k"), ("file_name", "a.png"), ("image_data", "AAAA")]);
    let (name, data) = read_form(Some("k"), &form, None, None).unwrap();
    assert_eq!((name.as_str(), data.as_str()), ("a.png", "AAAA"));
    let e = read_form(None, &form, None, None).unwrap_err();
    assert_eq!(e.status, 503);
    let e = read_form(Some("other"), &form, Some("other"), None).unwrap_err();
    assert_eq!(e.status, 401);
    let form = pairs(&[("file_name", "a.png")]);
    let e = read_form(Some("k"), &form, Some("k"), None).unwrap_err();
    assert_eq!(
        (e.status, e.message.as_str()),
        (400, "missing 'image_data' field (expected base64-encoded image bytes)")
    );
}

#[test]
fn last_nonempty_value_of_a_field_counts() {
    let form = pairs(&[("image_data", "AA"), ("image_data", "BB"), ("image_data", ""), ("", "x")]);
    let (name, data) = read_form(Some("k"), &form, Some("k"), None).unwrap();
    assert_eq!((name.as_str(), data.as_str()), ("upload.jpg", "BB"));
    for blank in ["", " ", "\t\u{3000}"] {
        let form = pairs(&[("image_data", "AA"), ("file_name", blank)]);
        assert_eq!(read_form(Some("k"), &form, Some("k"), None).unwrap().0, "upload.jpg");
    }
}

#[test]
fn base64_is_decoded_with_or_without_padding() {
    for data in [&b""[..], b"f", b"fo", b"foo", b"foob", b"\x00\xff\xfe\x01\x80", b"~~~???>>>"] {
        let padded = base64::engine::general_purpose::STANDARD.encode(data);
        let bare = base64::engine::general_purpose::STANDARD_NO_PAD.encode(data);
        assert_eq!(decode_base64(padded.as_bytes()).unwrap(), data);
        assert_eq!(decode_base64(bare.as_bytes()).unwrap(), data);
        assert_eq!(decode_image(&padded).unwrap(), data);
    }
    assert_eq!(decode_base64(b"Zm9v").unwrap(), b"foo");
}

#[test]
fn what_is_not_base64_is_refused() {
    for text in ["A", "A===", "AA=", "AB", "AAB=", "AA==A", "A A=", "____", "AAAA\n", "=", "\u{e9}AA="] {
        let e = decode_image(text).unwrap_err();
        assert_eq!(e.status, 400);
        let detail = base64::engine::general_purpose::STANDARD_NO_PAD.decode(text).unwrap_err();
        assert_eq!(e.message, format!("'image_data' is not valid base64: {detail}"));
    }
}

#[test]
fn whole_forms_are_read_from_bytes() {
    let body = b"file_name=my+cat%21.png&key=k&image_data=Zm9v%2Bw%3D%3D&=&image_data=";
    let upload = upload_form(Some("k"), body, None, None).unwrap();
    assert_eq!(upload.raw_name, "my cat!.png");
    assert_eq!(upload.data, b"foo\xfb");
    let e = upload_form(Some("k"), b"image_data=Zm9v", None, Some("Bearer x")).unwrap_err();
    assert_eq!(e.status, 401);
    let e = upload_form(None, body, None, None).unwrap_err();
    assert_eq!((e.status, e.message.as_str()), (503, DISABLED));
    let e = upload_form(Some("k"), b"image_data=%2A", Some("k"), None).unwrap_err();
    assert_eq!(e.status, 400);
    assert!(e.message.starts_with("'image_data' is not valid base64: "));
}

#[test]
fn multipart_uploads_need_the_key() {
    let ty = "multipart/form-data; boundary=XyZ";
    assert_eq!(upload_multipart(Some("k"), Some("k"), None, ty).unwrap(), "XyZ");
    assert_eq!(upload_multipart(Some("k"), None, Some("Bearer k"), ty).unwrap(), "XyZ");
    assert_eq!(upload_multipart(None, Some("k"), None, ty).unwrap_err().status, 503);
    assert_eq!(upload_multipart(Some("k"), None, None, ty).unwrap_err().status, 401);
    let bad = "multipart/form-data";
    let e = upload_multipart(Some("k"), Some("k"), None, bad).unwrap_err();
    let detail = multer::parse_boundary(bad).unwrap_err();
    assert_eq!(e.status, 400);
    assert_eq!(e.message, format!("invalid multipart content-type: {detail:?}"));
    let e = start_multipart(Some("k"), Some("k"), None, Err("why".into())).unwrap_err();
    assert_eq!(e.message, "invalid multipart content-type: why");
    let e = start_multipart(Some("k"), Some("x"), None, Err("why".into())).unwrap_err();
    assert_eq!(e.status, 401);
}

#[test]
fn parts_are_sorted_out_by_name() {
    let mut response = UploadResponse::new();
    assert!(!response.take_part(None));
    assert!(response.take_part(Some("a b.jpg")));
    assert!(response.saved.is_empty() && response.errors.is_empty());
    assert!(!response.take_part(Some("a.gif")));
    assert_eq!(response.errors, ["\"a.gif\": unsupported type (jpg/jpeg/png only)"]);
    assert!(response.saved.is_empty());
    let e = refuse_multipart("broken");
    assert_eq!((e.status, e.message.as_str()), (400, "multipart error: broken"));
}

#[test]
fn files_are_checked_before_they_are_stored() {
    assert_eq!(check_upload("x/a b.JPG", MAX_IMAGE_BYTES).unwrap(), "a_b.JPG");
    assert_eq!(
        check_upload("a.jpg", MAX_IMAGE_BYTES + 1).unwrap_err(),
        "\"a.jpg\": exceeds 64MB limit"
    );
    assert_eq!(
        check_upload("x/a", 1).unwrap_err(),
        "\"x/a\": unsupported type (jpg/jpeg/png only)"
    );
    assert_eq!(disk_error(DiskStep::CreateDir, "no"), "cannot create upload dir: no");
    assert_eq!(disk_error(DiskStep::Write, "full"), "write error: full");
}

#[test]
fn stored_images_are_indexed_at_once() {
    let mut index = scan_images(vec![]);
    let image = load_image_info("in/a.jpg", Some((2, 2)), None);
    assert_eq!(finish_save(&mut index, "a.jpg", "in/a.jpg", image), Ok("a.jpg".to_string()));
    assert_eq!(find_by_title(index.list(), "a.jpg").unwrap().path, "in/a.jpg");
    assert_eq!(
        finish_save(&mut index, "b.jpg", "in/b.jpg", None),
        Err("\"b.jpg\": file could not be decoded as an image".to_string())
    );
    assert_eq!(index.list().len(), 1);
}

#[test]
fn responses_report_each_file() {
    let mut response = UploadResponse::new();
    response.record(Ok("a.jpg".into()));
    response.record(Err("bad".into()));
    response.record(Ok("b.jpg".into()));
    assert_eq!(response.saved, ["a.jpg", "b.jpg"]);
    assert_eq!(response.errors, ["bad"]);
}

#[test]
fn form_answers_have_their_status() {
    let answer = finish_form(Ok("a.jpg".into())).unwrap();
    assert_eq!((answer.saved.len(), answer.errors.len()), (1, 0));
    assert_eq!(answer.saved[0], "a.jpg");
    for (message, status) in [
        ("\"a.gif\": unsupported type (jpg/jpeg/png only)", 415),
        ("\"a.jpg\": exceeds 64MB limit", 413),
        ("\"a.jpg\": file could not be decoded as an image", 400),
        ("write error: full", 400),
    ] {
        let e = finish_form(Err(message.into())).unwrap_err();
        assert_eq!((e.status, e.message.as_str()), (status, message));
    }
    let e = finish_form(check_upload("unsupported type.jpg", MAX_IMAGE_BYTES + 1)).unwrap_err();
    assert_eq!(e.status, 415);
}
