//! Uploads: who may upload, how a request is read, and what becomes of a file.
use std::sync::Arc;
use vstd::prelude::*;
use vstd::utf8::encode_utf8;

use crate::app::{ImageFile, UploadResponse};
use crate::codec::{base64_complaint, decode_base64, is_base64_of};
use crate::index::ImageIndex;
use crate::names::{
    file_name_of, is_supported_image_ext, sanitize_filename, sanitized, supported_image,
};
use crate::path::file_name;
use crate::status::{
    BAD_REQUEST, PAYLOAD_TOO_LARGE, SERVICE_UNAVAILABLE, UNAUTHORIZED, UNSUPPORTED_MEDIA_TYPE,
};
use crate::text::{
    after_prefix, contains, decimal_nat, has_part, is_blank, is_white_space, push_nat, same,
    strip_prefix, text_of,
};

verus! {

/// Max total request body of an upload (raw bytes). Larger than the cap on one
/// image to allow for base64 inflation.
pub const MAX_UPLOAD_BODY_BYTES: usize = 128 * 1024 * 1024;

/// Max size of one uploaded image.
pub const MAX_IMAGE_BYTES: usize = 64 * 1024 * 1024;

/// The answer to a request that is refused.
#[derive(Debug)]
pub struct Refusal {
    pub status: u16,
    pub message: String,
}

impl View for Refusal {
    type V = (u16, Seq<char>);

    open spec fn view(&self) -> (u16, Seq<char>) {
        (self.status, self.message@)
    }
}

fn refuse(status: u16, message: &str) -> (refusal: Refusal)
    ensures
        refusal@ == (status, message@),
{
    Refusal { status, message: message.to_owned() }
}

/// A refusal whose message ends in the details of an error.
fn refuse_with(status: u16, message: &str, detail: &str) -> (refusal: Refusal)
    ensures
        refusal@ == (status, message@ + detail@),
{
    let mut text = message.to_owned();
    text.append(detail);
    Refusal { status, message: text }
}

/// The answer where the body of an upload could not be read, either because it
/// is too large or for the reason given.
pub open spec fn body_refusal(too_large: bool, detail: Seq<char>) -> (u16, Seq<char>) {
    if too_large {
        (
            PAYLOAD_TOO_LARGE,
            "request body exceeds the "@ + decimal_nat(
                (MAX_UPLOAD_BODY_BYTES / 1024 / 1024) as nat,
            ) + "MB limit"@,
        )
    } else {
        (BAD_REQUEST, "read error: "@ + detail)
    }
}

/// The answer where the body of an upload could not be read.
pub fn refuse_body(too_large: bool, detail: &str) -> (refusal: Refusal)
    ensures
        refusal@ == body_refusal(too_large, detail@),
{
    if too_large {
        let mut text = "request body exceeds the ".to_owned();
        push_nat(&mut text, (MAX_UPLOAD_BODY_BYTES / 1024 / 1024) as u64);
        text.append("MB limit");
        Refusal { status: PAYLOAD_TOO_LARGE, message: text }
    } else {
        refuse_with(BAD_REQUEST, "read error: ", detail)
    }
}

/// The formats of an upload.
#[derive(Clone, Copy, Debug, PartialEq, Eq, Structural)]
pub enum UploadFormat {
    /// One or more file parts.
    Multipart,
    /// A form with the fields `file_name`, `key` and `image_data`.
    Form,
}

/// Whether a content type is that of a multipart upload.
pub open spec fn is_multipart(content_type: Seq<char>) -> bool {
    has_part(content_type, "multipart/form-data"@)
}

/// The format of an upload, by its content type.
pub fn upload_format(content_type: &str) -> (format: UploadFormat)
    ensures
        format == if has_part(content_type@, "multipart/form-data"@) {
            UploadFormat::Multipart
        } else {
            UploadFormat::Form
        },
        format == UploadFormat::Multipart <==> is_multipart(content_type@),
{
    if contains(content_type, "multipart/form-data") {
        UploadFormat::Multipart
    } else {
        UploadFormat::Form
    }
}

/// The API key that a request comes with: that of the form, else that of the
/// header `X-Api-Key`, else that of `Authorization: Bearer`, else none.
pub open spec fn provided_key(
    form_key: Option<Seq<char>>,
    x_api_key: Option<Seq<char>>,
    authorization: Option<Seq<char>>,
) -> Seq<char> {
    match (form_key, x_api_key, authorization) {
        (Some(key), _, _) => key,
        (None, Some(key), _) => key,
        (None, None, Some(text)) => match after_prefix(text, "Bearer "@) {
            Some(key) => key,
            None => Seq::empty(),
        },
        (None, None, None) => Seq::empty(),
    }
}

/// Why a request that comes with the key `provided` may not upload, if so.
pub open spec fn key_refusal(
    configured: Option<Seq<char>>,
    provided: Seq<char>,
) -> Option<(u16, Seq<char>)> {
    match configured {
        None => Some(
            (
                SERVICE_UNAVAILABLE,
                "uploads disabled: no API key configured (use --api-key or CRAB_GALLERY_API_KEY)"@,
            ),
        ),
        Some(key) => if provided.len() == 0 || provided != key {
            Some((UNAUTHORIZED, "invalid or missing API key"@))
        } else {
            None
        },
    }
}

/// Whether a string is empty.
fn is_empty(s: &str) -> (empty: bool)
    ensures
        empty == (s@.len() == 0),
{
    proof {
        reveal_strlit("");
        assert(s@.len() == 0 ==> s@ == ""@);
    }
    same(s, "")
}

/// Checks the API key of an upload.
pub fn check_key(
    configured: Option<&str>,
    form_key: Option<&str>,
    x_api_key: Option<&str>,
    authorization: Option<&str>,
) -> (checked: Result<(), Refusal>)
    ensures
        ({
            let provided = provided_key(
                text_of(form_key),
                text_of(x_api_key),
                text_of(authorization),
            );
            match checked {
                Ok(_) => key_refusal(text_of(configured), provided) is None,
                Err(e) => key_refusal(text_of(configured), provided) == Some(e@),
            }
        }),
{
    let key = match configured {
        Some(key) => key,
        None => {
            return Err(
                refuse(
                    SERVICE_UNAVAILABLE,
                    "uploads disabled: no API key configured (use --api-key or CRAB_GALLERY_API_KEY)",
                ),
            );
        },
    };
    let provided: String = match form_key {
        Some(k) => k.to_owned(),
        None => match x_api_key {
            Some(k) => k.to_owned(),
            None => match authorization {
                Some(text) => match strip_prefix(text, "Bearer ") {
                    Some(k) => k,
                    None => String::new(),
                },
                None => String::new(),
            },
        },
    };
    if is_empty(&provided) || !same(&provided, key) {
        return Err(refuse(UNAUTHORIZED, "invalid or missing API key"));
    }
    Ok(())
}

/// The API key that the gallery is configured with, given that of the command line
/// and that of the environment.
pub open spec fn chosen_key(
    flag: Option<Seq<char>>,
    environment: Option<Seq<char>>,
) -> Option<Seq<char>> {
    if flag is Some {
        flag
    } else if environment is Some && environment->0.len() > 0 {
        environment
    } else {
        None
    }
}

/// The text of an optional string.
pub open spec fn string_view(s: Option<String>) -> Option<Seq<char>> {
    match s {
        Some(t) => Some(t@),
        None => None,
    }
}

/// The API key that the gallery is configured with: the one given on the command
/// line, else that of the environment, unless it is empty.
pub fn configured_api_key(flag: Option<String>, environment: Option<String>) -> (key: Option<
    String,
>)
    ensures
        key == match flag {
            Some(k) => Some(k),
            None => match environment {
                Some(k) => if k@.len() > 0 {
                    Some(k)
                } else {
                    None
                },
                None => None,
            },
        },
        string_view(key) == chosen_key(string_view(flag), string_view(environment)),
{
    match flag {
        Some(k) => Some(k),
        None => match environment {
            Some(k) => if is_empty(&k) {
                None
            } else {
                Some(k)
            },
            None => None,
        },
    }
}

/// The views of the fields of a form.
pub open spec fn pair_views(pairs: Seq<(String, String)>) -> Seq<(Seq<char>, Seq<char>)> {
    Seq::new(pairs.len(), |i: int| (pairs[i].0@, pairs[i].1@))
}

/// The fields of a form in the syntax `application/x-www-form-urlencoded`.
pub uninterp spec fn form_pairs(body: Seq<u8>) -> Seq<(Seq<char>, Seq<char>)>;

/// `form_urlencoded::parse`: the names and values of a form in their order,
/// percent-decoded. What they are is only named.
#[verifier::external_body]
fn parse_form(body: &[u8]) -> (pairs: Vec<(String, String)>)
    ensures
        pair_views(pairs@) == form_pairs(body@),
{
    form_urlencoded::parse(body).into_owned().collect()
}

/// The value of a field of a form: the last one that is not empty.
pub open spec fn form_value(
    pairs: Seq<(Seq<char>, Seq<char>)>,
    name: Seq<char>,
) -> Option<Seq<char>>
    decreases pairs.len(),
{
    if pairs.len() == 0 {
        None
    } else if pairs.last().0 == name && pairs.last().1.len() > 0 {
        Some(pairs.last().1)
    } else {
        form_value(pairs.drop_last(), name)
    }
}

/// The value of a field of a form.
fn field<'a>(pairs: &'a Vec<(String, String)>, name: &str) -> (value: Option<&'a str>)
    ensures
        text_of(value) == form_value(pair_views(pairs@), name@),
{
    let ghost all = pair_views(pairs@);
    let mut end: usize = pairs.len();
    assert(all.take(end as int) == all);
    while end > 0
        invariant
            end <= pairs.len(),
            all == pair_views(pairs@),
            form_value(all.take(end as int), name@) == form_value(all, name@),
        decreases end,
    {
        let i: usize = end - 1;
        assert(all.take(end as int).last() == all[i as int]);
        if same(&pairs[i].0, name) && !is_empty(&pairs[i].1) {
            return Some(pairs[i].1.as_str());
        }
        assert(all.take(end as int).drop_last() == all.take(i as int));
        end = i;
    }
    None
}

/// Whether a text holds nothing but white space.
pub open spec fn blank(s: Seq<char>) -> bool {
    forall|i: int| 0 <= i < s.len() ==> is_white_space(#[trigger] s[i])
}

/// The name of the file that a form carries.
pub open spec fn form_file_name(pairs: Seq<(Seq<char>, Seq<char>)>) -> Seq<char> {
    match form_value(pairs, "file_name"@) {
        Some(name) => if blank(name) {
            "upload.jpg"@
        } else {
            name
        },
        None => "upload.jpg"@,
    }
}

/// What a form asks for: to store the encoded image `.1` under the name `.0`;
/// or why it is refused.
pub open spec fn form_request(
    configured: Option<Seq<char>>,
    pairs: Seq<(Seq<char>, Seq<char>)>,
    x_api_key: Option<Seq<char>>,
    authorization: Option<Seq<char>>,
) -> Result<(Seq<char>, Seq<char>), (u16, Seq<char>)> {
    let provided = provided_key(form_value(pairs, "key"@), x_api_key, authorization);
    match key_refusal(configured, provided) {
        Some(refusal) => Err(refusal),
        None => match form_value(pairs, "image_data"@) {
            Some(data) => Ok((form_file_name(pairs), data)),
            None => Err(
                (
                    BAD_REQUEST,
                    "missing 'image_data' field (expected base64-encoded image bytes)"@,
                ),
            ),
        },
    }
}

/// Reads what a form asks for out of its fields.
pub fn read_form(
    configured: Option<&str>,
    pairs: &Vec<(String, String)>,
    x_api_key: Option<&str>,
    authorization: Option<&str>,
) -> (request: Result<(String, String), Refusal>)
    ensures
        ({
            let expected = form_request(
                text_of(configured),
                pair_views(pairs@),
                text_of(x_api_key),
                text_of(authorization),
            );
            match request {
                Ok((name, data)) => expected == Ok::<_, (u16, Seq<char>)>((name@, data@)),
                Err(e) => expected == Err::<(Seq<char>, Seq<char>), _>(e@),
            }
        }),
{
    match check_key(configured, field(pairs, "key"), x_api_key, authorization) {
        Ok(_) => {},
        Err(e) => {
            return Err(e);
        },
    }
    let data = match field(pairs, "image_data") {
        Some(data) => data.to_owned(),
        None => {
            return Err(
                refuse(
                    BAD_REQUEST,
                    "missing 'image_data' field (expected base64-encoded image bytes)",
                ),
            );
        },
    };
    let name = match field(pairs, "file_name") {
        Some(name) => if is_blank(name) {
            "upload.jpg".to_owned()
        } else {
            name.to_owned()
        },
        None => "upload.jpg".to_owned(),
    };
    Ok((name, data))
}

/// The answer to image data that is not base64.
pub open spec fn not_base64(text: Seq<u8>) -> (u16, Seq<char>) {
    (BAD_REQUEST, "'image_data' is not valid base64: "@ + base64_complaint(text))
}

/// Decodes the image data of a form.
pub fn decode_image(image_data: &str) -> (data: Result<Vec<u8>, Refusal>)
    ensures
        match data {
            Ok(d) => is_base64_of(encode_utf8(image_data@), d@),
            Err(e) => {
                &&& forall|d: Seq<u8>| !#[trigger] is_base64_of(encode_utf8(image_data@), d)
                &&& e@ == not_base64(encode_utf8(image_data@))
            },
        },
{
    match decode_base64(image_data.as_bytes()) {
        Ok(d) => Ok(d),
        Err(e) => Err(refuse_with(BAD_REQUEST, "'image_data' is not valid base64: ", &e)),
    }
}

/// An image that was uploaded in a form.
#[derive(Debug)]
pub struct FormUpload {
    pub raw_name: String,
    pub data: Vec<u8>,
}

/// Whether a file of this name and content is what a form with these fields
/// uploads.
pub open spec fn is_uploaded_by(
    raw_name: Seq<char>,
    data: Seq<u8>,
    configured: Option<Seq<char>>,
    pairs: Seq<(Seq<char>, Seq<char>)>,
    x_api_key: Option<Seq<char>>,
    authorization: Option<Seq<char>>,
) -> bool {
    form_request(configured, pairs, x_api_key, authorization) matches Ok(request) && raw_name
        == request.0 && is_base64_of(encode_utf8(request.1), data)
}

/// Reads an upload in the form format.
pub fn upload_form(
    configured: Option<&str>,
    body: &[u8],
    x_api_key: Option<&str>,
    authorization: Option<&str>,
) -> (upload: Result<FormUpload, Refusal>)
    ensures
        match form_request(
            text_of(configured),
            form_pairs(body@),
            text_of(x_api_key),
            text_of(authorization),
        ) {
            Ok((name, text)) => match upload {
                Ok(u) => u.raw_name@ == name && is_base64_of(encode_utf8(text), u.data@),
                Err(e) => {
                    &&& forall|d: Seq<u8>| !#[trigger] is_base64_of(encode_utf8(text), d)
                    &&& e@ == not_base64(encode_utf8(text))
                },
            },
            Err(refusal) => upload matches Err(e) && e@ == refusal,
        },
        upload matches Ok(u) ==> is_uploaded_by(
            u.raw_name@,
            u.data@,
            text_of(configured),
            form_pairs(body@),
            text_of(x_api_key),
            text_of(authorization),
        ),
{
    let pairs = parse_form(body);
    match read_form(configured, &pairs, x_api_key, authorization) {
        Ok((raw_name, text)) => match decode_image(&text) {
            Ok(data) => Ok(FormUpload { raw_name, data }),
            Err(e) => Err(e),
        },
        Err(e) => Err(e),
    }
}

/// The boundary that a multipart content type names, or what is wrong with it.
pub uninterp spec fn multipart_boundary(content_type: Seq<char>) -> Result<Seq<char>, Seq<char>>;

/// `multer::parse_boundary`: the boundary between the parts, or the error as
/// text. Which of them it is is only named.
#[verifier::external_body]
fn parse_boundary(content_type: &str) -> (boundary: Result<String, String>)
    ensures
        match boundary {
            Ok(b) => multipart_boundary(content_type@) == Ok::<_, Seq<char>>(b@),
            Err(e) => multipart_boundary(content_type@) == Err::<Seq<char>, _>(e@),
        },
{
    multer::parse_boundary(content_type).map_err(|e| format!("{e:?}"))
}

/// The boundary of a multipart upload, given what its content type names, or why
/// the upload is refused.
pub open spec fn multipart_start(
    configured: Option<Seq<char>>,
    x_api_key: Option<Seq<char>>,
    authorization: Option<Seq<char>>,
    boundary: Result<Seq<char>, Seq<char>>,
) -> Result<Seq<char>, (u16, Seq<char>)> {
    match key_refusal(configured, provided_key(None, x_api_key, authorization)) {
        Some(refusal) => Err(refusal),
        None => match boundary {
            Ok(b) => Ok(b),
            Err(e) => Err((BAD_REQUEST, "invalid multipart content-type: "@ + e)),
        },
    }
}

/// Lets a multipart upload begin, given what its content type names.
pub fn start_multipart(
    configured: Option<&str>,
    x_api_key: Option<&str>,
    authorization: Option<&str>,
    boundary: Result<String, String>,
) -> (start: Result<String, Refusal>)
    ensures
        ({
            let named = match boundary {
                Ok(b) => Ok(b@),
                Err(e) => Err(e@),
            };
            let expected = multipart_start(
                text_of(configured),
                text_of(x_api_key),
                text_of(authorization),
                named,
            );
            match start {
                Ok(b) => expected == Ok::<_, (u16, Seq<char>)>(b@),
                Err(e) => expected == Err::<Seq<char>, _>(e@),
            }
        }),
{
    match check_key(configured, None, x_api_key, authorization) {
        Ok(_) => {},
        Err(e) => {
            return Err(e);
        },
    }
    match boundary {
        Ok(b) => Ok(b),
        Err(e) => Err(refuse_with(BAD_REQUEST, "invalid multipart content-type: ", &e)),
    }
}

/// Lets a multipart upload of the given content type begin.
pub fn upload_multipart(
    configured: Option<&str>,
    x_api_key: Option<&str>,
    authorization: Option<&str>,
    content_type: &str,
) -> (start: Result<String, Refusal>)
    ensures
        ({
            let expected = multipart_start(
                text_of(configured),
                text_of(x_api_key),
                text_of(authorization),
                multipart_boundary(content_type@),
            );
            match start {
                Ok(b) => expected == Ok::<_, (u16, Seq<char>)>(b@),
                Err(e) => expected == Err::<Seq<char>, _>(e@),
            }
        }),
{
    start_multipart(configured, x_api_key, authorization, parse_boundary(content_type))
}

/// The answer where a multipart body is malformed.
pub open spec fn multipart_refusal(detail: Seq<char>) -> (u16, Seq<char>) {
    (BAD_REQUEST, "multipart error: "@ + detail)
}

/// The answer where a multipart body is malformed.
pub fn refuse_multipart(detail: &str) -> (refusal: Refusal)
    ensures
        refusal@ == (BAD_REQUEST, "multipart error: "@ + detail@),
        refusal@ == multipart_refusal(detail@),
{
    refuse_with(BAD_REQUEST, "multipart error: ", detail)
}

/// A complaint about the uploaded file `raw_name`.
pub open spec fn complaint(raw_name: Seq<char>, about: Seq<char>) -> Seq<char> {
    "\""@ + raw_name + "\": "@ + about
}

/// What is said of a file that is not of a supported type.
pub open spec fn unsupported_type(raw_name: Seq<char>) -> Seq<char> {
    complaint(raw_name, "unsupported type (jpg/jpeg/png only)"@)
}

/// What is said of a file that is too large.
pub open spec fn oversized(raw_name: Seq<char>) -> Seq<char> {
    complaint(raw_name, "exceeds 64MB limit"@)
}

/// What is said of a file that is no image.
pub open spec fn undecodable(raw_name: Seq<char>) -> Seq<char> {
    complaint(raw_name, "file could not be decoded as an image"@)
}

fn complain(raw_name: &str, about: &str) -> (message: String)
    ensures
        message@ == complaint(raw_name@, about@),
{
    let mut text = "\"".to_owned();
    text.append(raw_name);
    text.append("\": ");
    text.append(about);
    text
}

/// Why a file of the given name and size is not stored, if so.
pub open spec fn file_refusal(raw_name: Seq<char>, len: int) -> Option<Seq<char>> {
    if !supported_image(sanitized(raw_name)) {
        Some(unsupported_type(raw_name))
    } else if len > MAX_IMAGE_BYTES {
        Some(oversized(raw_name))
    } else {
        None
    }
}

/// The name under which an uploaded file is stored, or why it is not.
pub fn check_upload(raw_name: &str, len: usize) -> (name: Result<String, String>)
    ensures
        match name {
            Ok(n) => file_refusal(raw_name@, len as int) is None && n@ == sanitized(raw_name@),
            Err(message) => file_refusal(raw_name@, len as int) == Some(message@),
        },
{
    let base = sanitize_filename(raw_name);
    if !is_supported_image_ext(&base) {
        return Err(complain(raw_name, "unsupported type (jpg/jpeg/png only)"));
    }
    if len > MAX_IMAGE_BYTES {
        return Err(complain(raw_name, "exceeds 64MB limit"));
    }
    Ok(base)
}

/// What can go wrong on disk while a file is stored.
#[derive(Clone, Copy, Debug, PartialEq, Eq, Structural)]
pub enum DiskStep {
    /// Making the upload folder.
    CreateDir,
    /// Writing the file.
    Write,
}

/// What is said where storing a file fails on disk.
pub open spec fn disk_complaint(step: DiskStep, detail: Seq<char>) -> Seq<char> {
    match step {
        DiskStep::CreateDir => "cannot create upload dir: "@ + detail,
        DiskStep::Write => "write error: "@ + detail,
    }
}

/// What is said where storing a file fails on disk.
pub fn disk_error(step: DiskStep, detail: &str) -> (message: String)
    ensures
        message@ == match step {
            DiskStep::CreateDir => "cannot create upload dir: "@ + detail@,
            DiskStep::Write => "write error: "@ + detail@,
        },
        message@ == disk_complaint(step, detail@),
{
    let mut text = match step {
        DiskStep::CreateDir => "cannot create upload dir: ".to_owned(),
        DiskStep::Write => "write error: ".to_owned(),
    };
    text.append(detail);
    text
}

/// Concludes the storing of a file at `target`, given what could be read of it:
/// an image is indexed at once and its file name is returned, and of anything
/// else the index takes no notice.
pub fn finish_save(
    index: &mut ImageIndex,
    raw_name: &str,
    target: &str,
    image: Option<Arc<ImageFile>>,
) -> (name: Result<String, String>)
    ensures
        match image {
            Some(i) => {
                &&& final(index)@ == old(index)@.added(i)
                &&& name matches Ok(n) && n@ == match file_name(target@) {
                    Some(f) => f,
                    None => target@,
                }
                &&& name matches Ok(n) && n@ == crate::names::name_at(target@)
            },
            None => {
                &&& final(index)@ == old(index)@
                &&& name matches Err(message) && message@ == undecodable(raw_name@)
            },
        },
{
    match image {
        Some(i) => {
            index.add(i);
            Ok(file_name_of(target))
        },
        None => Err(complain(raw_name, "file could not be decoded as an image")),
    }
}

/// The texts of some strings.
pub open spec fn texts(strings: Seq<String>) -> Seq<Seq<char>> {
    Seq::new(strings.len(), |i: int| strings[i]@)
}

/// What a response reports: the names of saved files, and errors.
pub type Report = (Seq<Seq<char>>, Seq<Seq<char>>);

impl View for UploadResponse {
    type V = Report;

    open spec fn view(&self) -> Report {
        (texts(self.saved@), texts(self.errors@))
    }
}

/// A report with what became of one more file: the name under which it was
/// saved, or an error.
pub open spec fn recorded(report: Report, outcome: Result<Seq<char>, Seq<char>>) -> Report {
    match outcome {
        Ok(name) => (report.0.push(name), report.1),
        Err(message) => (report.0, report.1.push(message)),
    }
}

/// Whether a part of a multipart upload is to be read and stored, by the file
/// name that it carries: text fields have none and are passed over.
pub open spec fn is_stored(file_name: Option<Seq<char>>) -> bool {
    file_name matches Some(raw) && supported_image(sanitized(raw))
}

/// A report with one more part of a multipart upload, given what storing it
/// comes to.
pub open spec fn after_part(
    report: Report,
    file_name: Option<Seq<char>>,
    outcome: Result<Seq<char>, Seq<char>>,
) -> Report {
    match file_name {
        None => report,
        Some(raw) => if supported_image(sanitized(raw)) {
            recorded(report, outcome)
        } else {
            recorded(report, Err(unsupported_type(raw)))
        },
    }
}

/// The report on the parts of a multipart upload: the file names that they
/// carry, each with what storing the part comes to.
pub open spec fn reported(
    parts: Seq<(Option<Seq<char>>, Result<Seq<char>, Seq<char>>)>,
) -> Report
    decreases parts.len(),
{
    if parts.len() == 0 {
        (Seq::empty(), Seq::empty())
    } else {
        after_part(reported(parts.drop_last()), parts.last().0, parts.last().1)
    }
}

impl UploadResponse {
    /// A response that reports nothing yet.
    pub fn new() -> (response: UploadResponse)
        ensures
            response@ == (Seq::<Seq<char>>::empty(), Seq::<Seq<char>>::empty()),
    {
        let response = UploadResponse { saved: Vec::new(), errors: Vec::new() };
        assert(texts(response.saved@) == Seq::<Seq<char>>::empty());
        assert(texts(response.errors@) == Seq::<Seq<char>>::empty());
        response
    }

    /// Reports what became of one more file.
    pub fn record(&mut self, outcome: Result<String, String>)
        ensures
            final(self)@ == recorded(
                old(self)@,
                match outcome {
                    Ok(name) => Ok(name@),
                    Err(message) => Err(message@),
                },
            ),
    {
        match outcome {
            Ok(name) => {
                let ghost text = name@;
                self.saved.push(name);
                assert(texts(self.saved@) == texts(old(self).saved@).push(text));
            },
            Err(message) => {
                let ghost text = message@;
                self.errors.push(message);
                assert(texts(self.errors@) == texts(old(self).errors@).push(text));
            },
        }
    }

    /// Takes the next part of a multipart upload by the file name that it
    /// carries. Says whether the part is to be read and stored, which is to be
    /// recorded then; otherwise it is done with.
    pub fn take_part(&mut self, file_name: Option<&str>) -> (read: bool)
        ensures
            read == is_stored(text_of(file_name)),
            read ==> final(self)@ == old(self)@,
            !read ==> forall|outcome: Result<Seq<char>, Seq<char>>|
                final(self)@ == #[trigger] after_part(old(self)@, text_of(file_name), outcome),
    {
        match file_name {
            None => false,
            Some(raw) => {
                if is_supported_image_ext(&sanitize_filename(raw)) {
                    return true;
                }
                self.record(Err(complain(raw, "unsupported type (jpg/jpeg/png only)")));
                false
            },
        }
    }
}

/// The status of the answer to a form whose file was not stored.
pub open spec fn error_status(message: Seq<char>) -> u16 {
    if has_part(message, "unsupported type"@) {
        UNSUPPORTED_MEDIA_TYPE
    } else if has_part(message, "64MB"@) {
        PAYLOAD_TOO_LARGE
    } else {
        BAD_REQUEST
    }
}

/// The answer to a form, given what became of its file.
pub fn finish_form(outcome: Result<String, String>) -> (answer: Result<UploadResponse, Refusal>)
    ensures
        match outcome {
            Ok(name) => answer matches Ok(r) && r@ == (seq![name@], Seq::<Seq<char>>::empty()),
            Err(message) => answer matches Err(e) && e@ == (error_status(message@), message@),
        },
{
    match outcome {
        Ok(name) => {
            let mut response = UploadResponse::new();
            response.record(Ok(name));
            Ok(response)
        },
        Err(message) => {
            let status: u16 = if contains(&message, "unsupported type") {
                UNSUPPORTED_MEDIA_TYPE
            } else if contains(&message, "64MB") {
                PAYLOAD_TOO_LARGE
            } else {
                BAD_REQUEST
            };
            Err(Refusal { status, message })
        },
    }
}

/// Without a configured key every upload is refused as disabled, whatever it
/// comes with.
pub proof fn no_key_disables_uploads(
    pairs: Seq<(Seq<char>, Seq<char>)>,
    x_api_key: Option<Seq<char>>,
    authorization: Option<Seq<char>>,
    boundary: Result<Seq<char>, Seq<char>>,
)
    ensures
        form_request(None, pairs, x_api_key, authorization) matches Err(r) && r.0
            == SERVICE_UNAVAILABLE,
        multipart_start(None, x_api_key, authorization, boundary) matches Err(r) && r.0
            == SERVICE_UNAVAILABLE,
{
}

/// With a configured key, an upload of either format that does not come with
/// this very key is refused as unauthorized.
pub proof fn wrong_key_is_unauthorized(
    key: Seq<char>,
    pairs: Seq<(Seq<char>, Seq<char>)>,
    x_api_key: Option<Seq<char>>,
    authorization: Option<Seq<char>>,
    boundary: Result<Seq<char>, Seq<char>>,
)
    ensures
        provided_key(form_value(pairs, "key"@), x_api_key, authorization) != key ==> (form_request(
            Some(key),
            pairs,
            x_api_key,
            authorization,
        ) matches Err(r) && r.0 == UNAUTHORIZED),
        provided_key(None, x_api_key, authorization) != key ==> (multipart_start(
            Some(key),
            x_api_key,
            authorization,
            boundary,
        ) matches Err(r) && r.0 == UNAUTHORIZED),
{
}

/// A request without a key is never let in, not even where the configured key is
/// empty.
pub proof fn missing_key_is_refused(configured: Option<Seq<char>>)
    ensures
        key_refusal(configured, provided_key(None, None, None)) is Some,
{
}

/// The configured key lets an upload in from either header.
pub proof fn right_key_is_let_in(key: Seq<char>, authorization: Option<Seq<char>>)
    requires
        key.len() > 0,
    ensures
        key_refusal(Some(key), provided_key(None, Some(key), authorization)) is None,
        key_refusal(Some(key), provided_key(None, None, Some("Bearer "@ + key))) is None,
{
    let text = "Bearer "@ + key;
    assert("Bearer "@ == text.take("Bearer "@.len() as int));
    assert(text.skip("Bearer "@.len() as int) == key);
}

/// Every file of a multipart upload is reported exactly once, as saved or with
/// an error; parts that are no files are not reported.
pub proof fn every_file_is_reported_once(
    parts: Seq<(Option<Seq<char>>, Result<Seq<char>, Seq<char>>)>,
)
    ensures
        reported(parts).0.len() + reported(parts).1.len() == parts.filter(
            |p: (Option<Seq<char>>, Result<Seq<char>, Seq<char>>)| p.0 is Some,
        ).len(),
    decreases parts.len(),
{
    reveal(Seq::filter);
    if parts.len() > 0 {
        every_file_is_reported_once(parts.drop_last());
    }
}

/// What stands in one of two joined texts stands in the whole.
proof fn lemma_part_of_join(a: Seq<char>, b: Seq<char>, needle: Seq<char>)
    ensures
        has_part(a, needle) ==> has_part(a + b, needle),
        has_part(b, needle) ==> has_part(a + b, needle),
{
    if has_part(a, needle) {
        let i = choose|i: int|
            0 <= i <= a.len() - needle.len() && #[trigger] a.subrange(i, i + needle.len())
                == needle;
        assert((a + b).subrange(i, i + needle.len()) == needle);
    }
    if has_part(b, needle) {
        let i = choose|i: int|
            0 <= i <= b.len() - needle.len() && #[trigger] b.subrange(i, i + needle.len())
                == needle;
        let k = i + a.len();
        assert((a + b).subrange(k, k + needle.len()) == needle);
    }
}

/// A text without quotes stands in a complaint exactly where it stands in the
/// file name or in what follows its closing quote.
proof fn lemma_part_of_complaint(raw_name: Seq<char>, about: Seq<char>, needle: Seq<char>)
    requires
        needle.len() > 0,
        forall|i: int| 0 <= i < needle.len() ==> needle[i] != '"',
    ensures
        has_part(complaint(raw_name, about), needle) <==> has_part(raw_name, needle) || has_part(
            ": "@ + about,
            needle,
        ),
{
    reveal_strlit("\"");
    reveal_strlit("\": ");
    reveal_strlit(": ");
    let rest = ": "@ + about;
    let all = complaint(raw_name, about);
    let n = raw_name.len() as int;
    assert(all == ("\""@ + raw_name) + ("\""@ + rest));
    lemma_part_of_join("\""@, raw_name, needle);
    lemma_part_of_join("\""@, rest, needle);
    lemma_part_of_join("\""@ + raw_name, "\""@ + rest, needle);
    if has_part(all, needle) {
        let i = choose|i: int|
            0 <= i <= all.len() - needle.len() && #[trigger] all.subrange(i, i + needle.len())
                == needle;
        assert(all[0] == '"');
        assert(all[n + 1] == '"');
        assert forall|k: int| i <= k < i + needle.len() implies all[k] != '"' by {
            assert(all.subrange(i, i + needle.len())[k - i] == all[k]);
        }
        if i <= n {
            assert(i + needle.len() <= n + 1);
            assert(raw_name.subrange(i - 1, i - 1 + needle.len()) == needle) by {
                assert(all.subrange(i, i + needle.len()) =~= raw_name.subrange(
                    i - 1,
                    i - 1 + needle.len(),
                ));
            }
        } else {
            let j = i - n - 2;
            assert(rest.subrange(j, j + needle.len()) == needle) by {
                assert(all.subrange(i, i + needle.len()) =~= rest.subrange(j, j + needle.len()));
            }
        }
    }
}

/// A text does not stand where its first character does not.
proof fn lemma_no_part(hay: Seq<char>, needle: Seq<char>)
    requires
        needle.len() > 0,
        forall|i: int| 0 <= i < hay.len() ==> hay[i] != needle[0],
    ensures
        !has_part(hay, needle),
{
    if has_part(hay, needle) {
        let i = choose|i: int|
            0 <= i <= hay.len() - needle.len() && #[trigger] hay.subrange(i, i + needle.len())
                == needle;
        assert(hay.subrange(i, i + needle.len())[0] == hay[i]);
    }
}

/// A form with a file of an unsupported type is answered 415.
pub proof fn unsupported_type_is_told(raw_name: Seq<char>)
    ensures
        error_status(unsupported_type(raw_name)) == UNSUPPORTED_MEDIA_TYPE,
{
    reveal_strlit("unsupported type");
    reveal_strlit("unsupported type (jpg/jpeg/png only)");
    let about = "unsupported type (jpg/jpeg/png only)"@;
    assert(about.subrange(0, 0int + "unsupported type"@.len()) == "unsupported type"@);
    assert(has_part(about, "unsupported type"@));
    lemma_part_of_join(": "@, about, "unsupported type"@);
    lemma_part_of_complaint(raw_name, about, "unsupported type"@);
}

/// A form with a file that is too large is answered 413, unless its name speaks
/// of an unsupported type.
pub proof fn oversized_file_is_told(raw_name: Seq<char>)
    requires
        !has_part(raw_name, "unsupported type"@),
    ensures
        error_status(oversized(raw_name)) == PAYLOAD_TOO_LARGE,
{
    reveal_strlit("unsupported type");
    reveal_strlit("64MB");
    reveal_strlit(": ");
    reveal_strlit("exceeds 64MB limit");
    let about = "exceeds 64MB limit"@;
    assert(about.subrange(8, 8int + "64MB"@.len()) == "64MB"@);
    assert(has_part(about, "64MB"@));
    lemma_part_of_join(": "@, about, "64MB"@);
    lemma_part_of_complaint(raw_name, about, "64MB"@);
    lemma_no_part(": "@ + about, "unsupported type"@);
    lemma_part_of_complaint(raw_name, about, "unsupported type"@);
}

/// A form with a file that is no image is answered 400, unless its name speaks
/// of an unsupported type or of 64MB.
pub proof fn undecodable_file_is_told(raw_name: Seq<char>)
    requires
        !has_part(raw_name, "unsupported type"@),
        !has_part(raw_name, "64MB"@),
    ensures
        error_status(undecodable(raw_name)) == BAD_REQUEST,
{
    reveal_strlit("unsupported type");
    reveal_strlit("64MB");
    reveal_strlit(": ");
    reveal_strlit("file could not be decoded as an image");
    let about = "file could not be decoded as an image"@;
    let rest = ": "@ + about;
    lemma_no_part(rest, "64MB"@);
    lemma_part_of_complaint(raw_name, about, "64MB"@);
    assert forall|i: int| 0 <= i <= rest.len() - 16 implies #[trigger] rest.subrange(i, i + 16)
        != "unsupported type"@ by {
        assert(rest.subrange(i, i + 16)[1] == rest[i + 1]);
        assert(rest.subrange(i, i + 16)[0] == rest[i]);
    }
    lemma_part_of_complaint(raw_name, about, "unsupported type"@);
}

/// The value of a form field is what was written last under exactly that name and
/// is not empty, in full; fields of other names and empty values do not matter.
pub proof fn form_field_is_what_was_written_last(
    pairs: Seq<(Seq<char>, Seq<char>)>,
    name: Seq<char>,
    other: Seq<char>,
    value: Seq<char>,
)
    ensures
        value.len() > 0 ==> form_value(pairs.push((name, value)), name) == Some(value),
        value.len() == 0 || other != name ==> form_value(pairs.push((other, value)), name)
            == form_value(pairs, name),
        form_value(Seq::<(Seq<char>, Seq<char>)>::empty(), name) is None,
{
    assert(pairs.push((name, value)).drop_last() == pairs);
    assert(pairs.push((other, value)).drop_last() == pairs);
}

/// A form with the right key asks to store all that its field `image_data` holds,
/// however much that is; without the field it is refused.
pub proof fn form_asks_for_its_whole_image_data(
    key: Seq<char>,
    pairs: Seq<(Seq<char>, Seq<char>)>,
    x_api_key: Option<Seq<char>>,
    authorization: Option<Seq<char>>,
)
    requires
        key.len() > 0,
        form_value(pairs, seq!['k', 'e', 'y']) == Some(key) || (form_value(
            pairs,
            seq!['k', 'e', 'y'],
        ) is None && x_api_key == Some(key)) || (form_value(pairs, seq!['k', 'e', 'y']) is None
            && x_api_key is None && authorization == Some(
            seq!['B', 'e', 'a', 'r', 'e', 'r', ' '] + key,
        )),
    ensures
        ({
            let data = form_value(
                pairs,
                seq!['i', 'm', 'a', 'g', 'e', '_', 'd', 'a', 't', 'a'],
            );
            let request = form_request(Some(key), pairs, x_api_key, authorization);
            &&& data matches Some(d) ==> (request matches Ok(r) && r.1 == d && r.0
                == form_file_name(pairs))
            &&& data is None ==> (request matches Err(e) && e.0 == 400)
        }),
{
    reveal_strlit("key");
    reveal_strlit("image_data");
    reveal_strlit("Bearer ");
    assert("key"@ == seq!['k', 'e', 'y']);
    assert("image_data"@ == seq!['i', 'm', 'a', 'g', 'e', '_', 'd', 'a', 't', 'a']);
    assert("Bearer "@ == seq!['B', 'e', 'a', 'r', 'e', 'r', ' ']);
    if authorization == Some(seq!['B', 'e', 'a', 'r', 'e', 'r', ' '] + key) {
        crate::text::prefix_comes_off_as_it_was_put_on("Bearer "@, key, "Bearer "@ + key);
    }
}

/// The image that a form asks to store is the one that was encoded, byte for byte:
/// where the field `image_data` was filled with the base64 form of some bytes,
/// padded or not, nothing but those bytes can be decoded from the request.
pub proof fn uploaded_image_is_the_one_encoded(
    configured: Option<Seq<char>>,
    pairs: Seq<(Seq<char>, Seq<char>)>,
    x_api_key: Option<Seq<char>>,
    authorization: Option<Seq<char>>,
    written: Seq<char>,
    image: Seq<u8>,
    padded: bool,
    decoded: Seq<u8>,
)
    requires
        form_value(pairs, seq!['i', 'm', 'a', 'g', 'e', '_', 'd', 'a', 't', 'a']) == Some(written),
        encode_utf8(written) == crate::codec::base64_text(image, padded),
    ensures
        form_request(configured, pairs, x_api_key, authorization) matches Ok(request) ==> {
            &&& is_base64_of(encode_utf8(request.1), image)
            &&& is_base64_of(encode_utf8(request.1), decoded) ==> decoded == image
        },
{
    reveal_strlit("image_data");
    assert("image_data"@ == seq!['i', 'm', 'a', 'g', 'e', '_', 'd', 'a', 't', 'a']);
    crate::codec::bytes_survive_base64(image, padded, decoded);
}

/// The file name of a form is that of its field `file_name`, in full, as soon as
/// it holds a visible character; without the field, or where it holds only blanks,
/// it is `upload.jpg`.
pub proof fn form_names_its_file(pairs: Seq<(Seq<char>, Seq<char>)>, name: Seq<char>, i: int)
    requires
        name.len() > 0,
    ensures
        ({
            let field = seq!['f', 'i', 'l', 'e', '_', 'n', 'a', 'm', 'e'];
            let default = seq!['u', 'p', 'l', 'o', 'a', 'd', '.', 'j', 'p', 'g'];
            &&& form_value(pairs, field) == Some(name) && 0 <= i < name.len() && 0x21
                <= name[i] as int <= 0x7e ==> form_file_name(pairs) == name
            &&& form_value(pairs, field) == Some(name) && (forall|k: int|
                0 <= k < name.len() ==> name[k] == ' ' || name[k] == '\t' || name[k] == '\n')
                ==> form_file_name(pairs) == default
            &&& form_value(pairs, field) is None ==> form_file_name(pairs) == default
        }),
{
    reveal_strlit("file_name");
    reveal_strlit("upload.jpg");
    assert("file_name"@ == seq!['f', 'i', 'l', 'e', '_', 'n', 'a', 'm', 'e']);
    assert("upload.jpg"@ == seq!['u', 'p', 'l', 'o', 'a', 'd', '.', 'j', 'p', 'g']);
    if 0 <= i < name.len() {
        crate::text::white_space_is_not_visible(name[i]);
    }
    if forall|k: int|
        0 <= k < name.len() ==> name[k] == ' ' || name[k] == '\t' || name[k] == '\n' {
        assert forall|k: int| 0 <= k < name.len() implies is_white_space(#[trigger] name[k]) by {
            crate::text::white_space_is_not_visible(name[k]);
        }
    }
}

/// The key of a request is that of the form, else that of the one header, else
/// that of the other behind `Bearer `, each in full.
pub proof fn key_is_taken_from_the_first_place(
    key: Seq<char>,
    x_api_key: Option<Seq<char>>,
    authorization: Option<Seq<char>>,
    text: Seq<char>,
)
    ensures
        provided_key(Some(key), x_api_key, authorization) == key,
        provided_key(None, Some(key), authorization) == key,
        provided_key(None, None, Some(seq!['B', 'e', 'a', 'r', 'e', 'r', ' '] + key)) == key,
        provided_key(None, None, None).len() == 0,
        provided_key(None, None, Some(text)).len() == 0 || text == seq![
            'B',
            'e',
            'a',
            'r',
            'e',
            'r',
            ' ',
        ] + provided_key(None, None, Some(text)),
{
    reveal_strlit("Bearer ");
    assert("Bearer "@ == seq!['B', 'e', 'a', 'r', 'e', 'r', ' ']);
    crate::text::prefix_comes_off_as_it_was_put_on("Bearer "@, key, "Bearer "@ + key);
    crate::text::prefix_comes_off_as_it_was_put_on(
        "Bearer "@,
        provided_key(None, None, Some(text)),
        text,
    );
}

/// A request is let in exactly where a key is configured and the request comes
/// with that key, character for character, and it is not empty. Otherwise it is
/// answered 503 where no key is configured and 401 where one is.
pub proof fn only_the_configured_key_lets_in(configured: Option<Seq<char>>, provided: Seq<char>)
    ensures
        key_refusal(configured, provided) is None <==> configured == Some(provided)
            && provided.len() > 0,
        configured is None ==> (key_refusal(configured, provided) matches Some(r) && r.0 == 503),
        configured is Some && (configured != Some(provided) || provided.len() == 0) ==> (
        key_refusal(configured, provided) matches Some(r) && r.0 == 401),
{
}

/// A multipart upload with the right key begins with the boundary that its content
/// type names, unchanged; where that names none the upload is refused with what is
/// wrong with it.
pub proof fn multipart_upload_begins_with_its_boundary(
    key: Seq<char>,
    authorization: Option<Seq<char>>,
    boundary: Seq<char>,
    complaint: Seq<char>,
)
    requires
        key.len() > 0,
    ensures
        multipart_start(Some(key), Some(key), authorization, Ok(boundary)) == Ok::<
            _,
            (u16, Seq<char>),
        >(boundary),
        multipart_start(
            Some(key),
            None,
            Some(seq!['B', 'e', 'a', 'r', 'e', 'r', ' '] + key),
            Ok(boundary),
        ) == Ok::<_, (u16, Seq<char>)>(boundary),
        multipart_start(Some(key), Some(key), authorization, Err(complaint)) matches Err(r) && r.0
            == 400 && has_part(r.1, complaint),
{
    key_is_taken_from_the_first_place(key, None, authorization, key);
    let message = "invalid multipart content-type: "@;
    crate::text::part_between_is_found(message, complaint, Seq::<char>::empty());
    assert(message + complaint + Seq::<char>::empty() == message + complaint);
}

/// A file is refused exactly where its stored name is none of an image or it is
/// larger than 64 MB; the first is told before the second, and the file is named.
pub proof fn file_is_refused_by_type_or_size(raw_name: Seq<char>, len: int)
    ensures
        file_refusal(raw_name, len) is None <==> supported_image(sanitized(raw_name)) && len
            <= 67108864,
        file_refusal(raw_name, len) matches Some(m) ==> has_part(m, raw_name),
        !supported_image(sanitized(raw_name)) ==> file_refusal(raw_name, len) == Some(
            unsupported_type(raw_name),
        ),
        supported_image(sanitized(raw_name)) && len > 67108864 ==> file_refusal(raw_name, len)
            == Some(oversized(raw_name)),
{
    complaint_names_the_file(raw_name, "unsupported type (jpg/jpeg/png only)"@);
    complaint_names_the_file(raw_name, "exceeds 64MB limit"@);
}

/// Every upload named like an image and within the size is accepted: a stem of
/// which something is safe, a dot, and `jpg`, `jpeg` or `png` in whatever case.
pub proof fn image_within_the_size_is_accepted(
    folder: Seq<char>,
    stem: Seq<char>,
    ext: Seq<char>,
    word: Seq<char>,
    safe: int,
    len: int,
)
    requires
        word == seq!['j', 'p', 'g'] || word == seq!['j', 'p', 'e', 'g'] || word == seq![
            'p',
            'n',
            'g',
        ],
        ext.len() == word.len(),
        forall|i: int|
            0 <= i < word.len() ==> #[trigger] ext[i] == word[i] || ext[i] as int == word[i] as int
                - 32,
        forall|i: int| 0 <= i < stem.len() ==> stem[i] != '/',
        0 <= safe < stem.len(),
        ({
            let c = stem[safe];
            ('a' <= c <= 'z') || ('A' <= c <= 'Z') || ('0' <= c <= '9') || c == '.' || c == '-'
        }),
        len <= 67108864,
    ensures
        file_refusal(stem + seq!['.'] + ext, len) is None,
        file_refusal(folder + seq!['/'] + (stem + seq!['.'] + ext), len) is None,
        is_stored(Some(stem + seq!['.'] + ext)),
{
    crate::names::image_upload_stays_an_image(folder, stem, ext, word, safe);
}

/// A complaint holds the name of the file, between quotes and in full, and then
/// what it is about.
pub proof fn complaint_names_the_file(raw_name: Seq<char>, about: Seq<char>)
    ensures
        complaint(raw_name, about) == seq!['"'] + raw_name + seq!['"', ':', ' '] + about,
        has_part(complaint(raw_name, about), raw_name),
        has_part(complaint(raw_name, about), about),
{
    reveal_strlit("\"");
    reveal_strlit("\": ");
    assert("\""@ == seq!['"']);
    assert("\": "@ == seq!['"', ':', ' ']);
    let all = complaint(raw_name, about);
    let front = "\""@ + raw_name + "\": "@;
    crate::text::part_between_is_found("\""@, raw_name, "\": "@ + about);
    assert("\""@ + raw_name + ("\": "@ + about) == all);
    crate::text::part_between_is_found(front, about, Seq::<char>::empty());
    assert(front + about + Seq::<char>::empty() == all);
}

/// What a report gains from one more part: the name where a file was saved, the
/// message where it was not, that of an unsupported type where the part is a file
/// of one, and nothing where it is no file. What was reported before stays.
pub proof fn part_is_reported_as_it_went(
    report: Report,
    raw_name: Seq<char>,
    name: Seq<char>,
    message: Seq<char>,
    outcome: Result<Seq<char>, Seq<char>>,
)
    ensures
        after_part(report, None, outcome) == report,
        supported_image(sanitized(raw_name)) ==> {
            &&& after_part(report, Some(raw_name), Ok(name)) == (report.0.push(name), report.1)
            &&& after_part(report, Some(raw_name), Err(message)) == (
                report.0,
                report.1.push(message),
            )
        },
        !supported_image(sanitized(raw_name)) ==> after_part(report, Some(raw_name), outcome) == (
            report.0,
            report.1.push(unsupported_type(raw_name)),
        ),
        is_stored(Some(raw_name)) == supported_image(sanitized(raw_name)),
        !is_stored(None),
        recorded(report, Ok(name)) == (report.0.push(name), report.1),
        recorded(report, Err(message)) == (report.0, report.1.push(message)),
{
}

/// The report on an upload grows part by part.
pub proof fn parts_are_reported_in_order(
    parts: Seq<(Option<Seq<char>>, Result<Seq<char>, Seq<char>>)>,
    part: (Option<Seq<char>>, Result<Seq<char>, Seq<char>>),
)
    ensures
        reported(parts.push(part)) == after_part(reported(parts), part.0, part.1),
        reported(Seq::<(Option<Seq<char>>, Result<Seq<char>, Seq<char>>)>::empty()) == (
            Seq::<Seq<char>>::empty(),
            Seq::<Seq<char>>::empty(),
        ),
{
    assert(parts.push(part).drop_last() == parts);
}

/// The texts of strings and of form fields are those of each of them, in full and
/// in order; a refusal is seen with its status and its whole message.
pub proof fn strings_are_seen_in_full(
    strings: Seq<String>,
    pairs: Seq<(String, String)>,
    response: UploadResponse,
    refusal: Refusal,
    i: int,
)
    ensures
        texts(strings).len() == strings.len(),
        0 <= i < strings.len() ==> texts(strings)[i] == strings[i]@,
        pair_views(pairs).len() == pairs.len(),
        0 <= i < pairs.len() ==> pair_views(pairs)[i] == (pairs[i].0@, pairs[i].1@),
        response@.0.len() == response.saved@.len(),
        response@.1.len() == response.errors@.len(),
        0 <= i < response.saved@.len() ==> response@.0[i] == response.saved@[i]@,
        0 <= i < response.errors@.len() ==> response@.1[i] == response.errors@[i]@,
        refusal@ == (refusal.status, refusal.message@),
{
}

/// A body that could not be read is answered 413 where it is too large, with the
/// limit of 128 MB, and else 400, with the reason in full.
pub proof fn unread_body_is_told(detail: Seq<char>)
    ensures
        body_refusal(true, detail).0 == 413,
        has_part(body_refusal(true, detail).1, seq!['1', '2', '8', 'M', 'B']),
        body_refusal(false, detail).0 == 400,
        has_part(body_refusal(false, detail).1, detail),
{
    lemma_limit_text();
    let front = "request body exceeds the "@;
    let back = "MB limit"@.skip(2);
    let limit = decimal_nat((MAX_UPLOAD_BODY_BYTES / 1024 / 1024) as nat);
    assert(body_refusal(true, detail).1 == front + seq!['1', '2', '8', 'M', 'B'] + back) by {
        assert(front + limit + "MB limit"@ == front + (limit + "MB limit"@));
        assert(front + seq!['1', '2', '8', 'M', 'B'] + back == front + (seq![
            '1',
            '2',
            '8',
            'M',
            'B',
        ] + back));
    }
    crate::text::part_between_is_found(front, seq!['1', '2', '8', 'M', 'B'], back);
    crate::text::part_between_is_found("read error: "@, detail, Seq::<char>::empty());
    assert("read error: "@ + detail + Seq::<char>::empty() == "read error: "@ + detail);
}

/// How the limit of a body is written.
proof fn lemma_limit_text()
    ensures
        decimal_nat((MAX_UPLOAD_BODY_BYTES / 1024 / 1024) as nat) + "MB limit"@ == seq![
            '1',
            '2',
            '8',
            'M',
            'B',
        ] + "MB limit"@.skip(2),
{
    let limit = decimal_nat(128);
    assert(decimal_nat(1) == seq!['1']);
    assert(decimal_nat(12) == decimal_nat(1).push('2'));
    assert(limit == decimal_nat(12).push('8'));
    reveal_strlit("MB limit");
    let text = "MB limit"@;
    assert(text == seq!['M', 'B'] + text.skip(2));
    assert(limit + text == seq!['1', '2', '8', 'M', 'B'] + text.skip(2));
}

/// Image data that is not base64 is answered 400, with what is wrong with it.
pub proof fn undecodable_data_is_told(text: Seq<u8>)
    ensures
        not_base64(text).0 == 400,
        has_part(not_base64(text).1, base64_complaint(text)),
{
    let told = base64_complaint(text);
    let lead = "'image_data' is not valid base64: "@;
    crate::text::part_between_is_found(lead, told, Seq::<char>::empty());
    assert(lead + told + Seq::<char>::empty() == lead + told);
}

/// An upload is a multipart one exactly where its content type holds
/// `multipart/form-data`, whatever stands around it.
pub proof fn multipart_is_told_by_the_content_type(
    before: Seq<char>,
    after: Seq<char>,
    content_type: Seq<char>,
)
    ensures
        is_multipart(before + "multipart/form-data"@ + after),
        is_multipart(content_type) ==> exists|a: Seq<char>, b: Seq<char>|
            content_type == #[trigger] (a + "multipart/form-data"@ + b),
{
    crate::text::part_between_is_found(before, "multipart/form-data"@, after);
    if is_multipart(content_type) {
        let (a, b) = crate::text::found_part_stands_between(
            content_type,
            "multipart/form-data"@,
        );
        assert(content_type == a + "multipart/form-data"@ + b);
    }
}

/// The key of the command line counts before that of the environment, each in
/// full, and an empty one of the environment does not count.
pub proof fn key_of_the_command_line_counts_first(
    key: Seq<char>,
    environment: Option<Seq<char>>,
)
    ensures
        chosen_key(Some(key), environment) == Some(key),
        key.len() > 0 ==> chosen_key(None, Some(key)) == Some(key),
        chosen_key(None, Some(Seq::<char>::empty())) is None,
        chosen_key(None, None) is None,
{
}

/// A failure on disk is told with its reason in full.
pub proof fn failure_on_disk_is_told(step: DiskStep, detail: Seq<char>)
    ensures
        has_part(disk_complaint(step, detail), detail),
        disk_complaint(DiskStep::CreateDir, detail) == "cannot create upload dir: "@ + detail,
        disk_complaint(DiskStep::Write, detail) == "write error: "@ + detail,
{
    let e = Seq::<char>::empty();
    crate::text::part_between_is_found("cannot create upload dir: "@, detail, e);
    assert("cannot create upload dir: "@ + detail + e == "cannot create upload dir: "@ + detail);
    crate::text::part_between_is_found("write error: "@, detail, e);
    assert("write error: "@ + detail + e == "write error: "@ + detail);
}

/// The status of a refused form goes by what its message holds: 415 where it
/// speaks of an unsupported type, else 413 where it speaks of 64MB, else 400.
pub proof fn status_goes_by_the_message(a: Seq<char>, b: Seq<char>, message: Seq<char>)
    ensures
        error_status(a + "unsupported type"@ + b) == 415,
        !has_part(a + "64MB"@ + b, "unsupported type"@) ==> error_status(a + "64MB"@ + b) == 413,
        !has_part(message, "unsupported type"@) && !has_part(message, "64MB"@) ==> error_status(
            message,
        ) == 400,
{
    crate::text::part_between_is_found(a, "unsupported type"@, b);
    crate::text::part_between_is_found(a, "64MB"@, b);
}

/// What is said of a refused file is its name in full and the one reason.
pub proof fn reason_is_told_with_the_name(raw_name: Seq<char>)
    ensures
        unsupported_type(raw_name) == seq!['"'] + raw_name + seq!['"', ':', ' ']
            + "unsupported type (jpg/jpeg/png only)"@,
        oversized(raw_name) == seq!['"'] + raw_name + seq!['"', ':', ' '] + "exceeds 64MB limit"@,
        undecodable(raw_name) == seq!['"'] + raw_name + seq!['"', ':', ' ']
            + "file could not be decoded as an image"@,
{
    complaint_names_the_file(raw_name, "unsupported type (jpg/jpeg/png only)"@);
    complaint_names_the_file(raw_name, "exceeds 64MB limit"@);
    complaint_names_the_file(raw_name, "file could not be decoded as an image"@);
}

/// A malformed multipart body is answered 400, with what is wrong with it in full.
pub proof fn malformed_body_is_told(detail: Seq<char>)
    ensures
        multipart_refusal(detail).0 == 400,
        has_part(multipart_refusal(detail).1, detail),
{
    let e = Seq::<char>::empty();
    crate::text::part_between_is_found("multipart error: "@, detail, e);
    assert("multipart error: "@ + detail + e == "multipart error: "@ + detail);
}

/// What a form uploads is the image that was encoded into it, byte for byte and
/// whatever its size, under the name that the form gives; and the form came with
/// the configured key.
pub proof fn form_uploads_the_image_put_into_it(
    raw_name: Seq<char>,
    data: Seq<u8>,
    configured: Option<Seq<char>>,
    pairs: Seq<(Seq<char>, Seq<char>)>,
    x_api_key: Option<Seq<char>>,
    authorization: Option<Seq<char>>,
    written: Seq<char>,
    image: Seq<u8>,
    padded: bool,
)
    requires
        is_uploaded_by(raw_name, data, configured, pairs, x_api_key, authorization),
        form_value(pairs, seq!['i', 'm', 'a', 'g', 'e', '_', 'd', 'a', 't', 'a']) == Some(written),
        encode_utf8(written) == crate::codec::base64_text(image, padded),
    ensures
        data == image,
        raw_name == form_file_name(pairs),
        configured == Some(
            provided_key(form_value(pairs, seq!['k', 'e', 'y']), x_api_key, authorization),
        ),
{
    reveal_strlit("key");
    assert("key"@ == seq!['k', 'e', 'y']);
    uploaded_image_is_the_one_encoded(
        configured,
        pairs,
        x_api_key,
        authorization,
        written,
        image,
        padded,
        data,
    );
}

} // verus!
