//! The image endpoint: scaled previews from the cache, and original files with
//! entity tags.
use vstd::prelude::*;

use crate::app::ImageParams;
use crate::cache::{
    bytes_of, distinct_keys, stored, stored_bytes_are_found, used, Entries, KeyView, PreviewCache,
    PreviewKey,
};
use crate::names::{is_supported_image_ext, supported_image};
use crate::status::{BAD_GATEWAY, INTERNAL_SERVER_ERROR, NOT_FOUND, NOT_MODIFIED, OK};
use crate::text::{
    decimal, decimal_nat, lemma_decimal_injective, lemma_decimal_nat_injective, lemma_digits, push_int,
    push_nat, same, text_of,
};

verus! {

/// The widest preview that is made.
pub const MAX_PREVIEW_WIDTH: u32 = 4096;

/// The narrowest preview that is made.
pub const MIN_PREVIEW_WIDTH: u32 = 8;

/// What is known of a file on disk.
#[derive(Debug)]
pub struct FileStat {
    /// Modification time in seconds since the Unix epoch.
    pub mtime_secs: i64,
    /// Size in bytes.
    pub len: u64,
}

/// The modification time of a file in seconds, given how many seconds after the
/// Unix epoch it lies.
pub open spec fn unix_seconds(since_epoch: Option<u64>) -> int {
    match since_epoch {
        Some(s) => if s <= i64::MAX {
            s as int
        } else {
            s - 0x1_0000_0000_0000_0000
        },
        None => 0,
    }
}

/// The modification time of a file in seconds, given how many seconds after the
/// Unix epoch it lies: 0 where it is not known or lies before the epoch. Beyond
/// the range of the result the number wraps around.
pub fn mtime_secs(since_epoch: Option<u64>) -> (secs: i64)
    ensures
        match since_epoch {
            Some(s) => if s <= i64::MAX {
                secs == s
            } else {
                secs == s - 0x1_0000_0000_0000_0000
            },
            None => secs == 0,
        },
        secs == unix_seconds(since_epoch),
{
    match since_epoch {
        Some(s) => {
            if s <= 0x7fff_ffff_ffff_ffff {
                s as i64
            } else {
                let gap: u64 = 0xffff_ffff_ffff_ffff - s;
                -(gap as i64) - 1
            }
        },
        None => 0,
    }
}

/// The width of a preview for the width that was asked for.
pub open spec fn preview_width(w: i32) -> u32 {
    if w < MIN_PREVIEW_WIDTH {
        MIN_PREVIEW_WIDTH
    } else if w > MAX_PREVIEW_WIDTH {
        MAX_PREVIEW_WIDTH
    } else {
        w as u32
    }
}

/// The entity tag of a preview.
pub open spec fn preview_etag(key: KeyView) -> Seq<char> {
    "\""@ + key.path + "-"@ + decimal_nat(key.width as nat) + "-"@ + decimal(
        key.mtime_secs as int,
    ) + "\""@
}

/// The entity tag of an original file.
pub open spec fn original_etag(mtime_secs: i64, len: u64) -> Seq<char> {
    "\""@ + decimal(mtime_secs as int) + "-"@ + decimal_nat(len as nat) + "\""@
}

/// The next step of an image request.
#[derive(Debug)]
pub enum ImageStep {
    /// Answer with this status.
    Fail(u16),
    /// Answer with the preview of this key.
    Preview(PreviewKey),
    /// The client's copy, which has this entity tag, is current.
    NotModified(String),
    /// Read the file and answer with its bytes under this entity tag.
    ReadSource(String),
}

/// What a step stands for.
pub enum StepView {
    Fail(u16),
    Preview(KeyView),
    NotModified(Seq<char>),
    ReadSource(Seq<char>),
}

impl View for ImageStep {
    type V = StepView;

    open spec fn view(&self) -> StepView {
        match self {
            ImageStep::Fail(status) => StepView::Fail(*status),
            ImageStep::Preview(key) => StepView::Preview(key@),
            ImageStep::NotModified(etag) => StepView::NotModified(etag@),
            ImageStep::ReadSource(etag) => StepView::ReadSource(etag@),
        }
    }
}

/// How a request for the image at `path` goes on, given what is known of its
/// file (nothing where it could not be examined) and which entity tag the client
/// has. What is not there or is no supported image is not found; of an image the
/// original is sent where it is asked for explicitly or no width is given, and
/// else a preview.
pub open spec fn next_step(
    path: Seq<char>,
    params: ImageParams,
    stat: Option<FileStat>,
    if_none_match: Option<Seq<char>>,
) -> StepView {
    match stat {
        None => StepView::Fail(NOT_FOUND),
        Some(f) => if !supported_image(path) {
            StepView::Fail(NOT_FOUND)
        } else if params.w is Some && !params.original() {
            StepView::Preview(
                KeyView { path, width: preview_width(params.w->0), mtime_secs: f.mtime_secs },
            )
        } else {
            let etag = original_etag(f.mtime_secs, f.len);
            if if_none_match == Some(etag) {
                StepView::NotModified(etag)
            } else {
                StepView::ReadSource(etag)
            }
        },
    }
}

/// Decides how a request for the image at `path` goes on.
pub fn plan_image(
    path: &str,
    params: &ImageParams,
    stat: Option<FileStat>,
    if_none_match: Option<&str>,
) -> (step: ImageStep)
    ensures
        step@ == next_step(path@, *params, stat, text_of(if_none_match)),
{
    let f = match stat {
        Some(f) => f,
        None => {
            return ImageStep::Fail(NOT_FOUND);
        },
    };
    if !is_supported_image_ext(path) {
        return ImageStep::Fail(NOT_FOUND);
    }
    let original = params.wants_original();
    match params.w {
        Some(w) => {
            if !original {
                let width: u32 = if w < MIN_PREVIEW_WIDTH as i32 {
                    MIN_PREVIEW_WIDTH
                } else if w > MAX_PREVIEW_WIDTH as i32 {
                    MAX_PREVIEW_WIDTH
                } else {
                    w as u32
                };
                return ImageStep::Preview(
                    PreviewKey { path: path.to_owned(), width, mtime_secs: f.mtime_secs },
                );
            }
        },
        None => {},
    }
    let mut etag = "\"".to_owned();
    push_int(&mut etag, f.mtime_secs);
    etag.append("-");
    push_nat(&mut etag, f.len);
    etag.append("\"");
    let current = match if_none_match {
        Some(t) => same(t, &etag),
        None => false,
    };
    if current {
        ImageStep::NotModified(etag)
    } else {
        ImageStep::ReadSource(etag)
    }
}

/// An answer of the image endpoint.
#[derive(Debug)]
pub struct Reply {
    pub status: u16,
    pub headers: Vec<(String, String)>,
    pub body: Vec<u8>,
}

/// What an answer stands for.
#[verifier::ext_equal]
pub struct ReplyView {
    pub status: u16,
    pub headers: Seq<(Seq<char>, Seq<char>)>,
    pub body: Seq<u8>,
}

impl View for Reply {
    type V = ReplyView;

    open spec fn view(&self) -> ReplyView {
        ReplyView {
            status: self.status,
            headers: Seq::new(
                self.headers@.len(),
                |i: int| (self.headers@[i].0@, self.headers@[i].1@),
            ),
            body: self.body@,
        }
    }
}

/// How long clients may keep an image.
pub open spec fn keep_for_a_day() -> (Seq<char>, Seq<char>) {
    ("cache-control"@, "public, max-age=86400"@)
}

/// The answer that carries a preview.
pub open spec fn preview_reply(key: KeyView, bytes: Seq<u8>) -> ReplyView {
    ReplyView {
        status: OK,
        headers: seq![
            ("content-type"@, "image/jpeg"@),
            keep_for_a_day(),
            ("etag"@, preview_etag(key)),
        ],
        body: bytes,
    }
}

/// The answer that carries an original file.
pub open spec fn original_reply(etag: Seq<char>, mime: Seq<char>, bytes: Seq<u8>) -> ReplyView {
    ReplyView {
        status: OK,
        headers: seq![("content-type"@, mime), keep_for_a_day(), ("etag"@, etag)],
        body: bytes,
    }
}

/// The answer to a client whose copy is current.
pub open spec fn not_modified(etag: Seq<char>) -> ReplyView {
    ReplyView { status: NOT_MODIFIED, headers: seq![("etag"@, etag)], body: Seq::empty() }
}

fn image_reply(mime: String, etag: String, body: Vec<u8>) -> (reply: Reply)
    ensures
        reply@ == original_reply(etag@, mime@, body@),
{
    let mut headers: Vec<(String, String)> = Vec::new();
    headers.push(("content-type".to_owned(), mime));
    headers.push(("cache-control".to_owned(), "public, max-age=86400".to_owned()));
    headers.push(("etag".to_owned(), etag));
    let reply = Reply { status: OK, headers, body };
    assert(reply@ =~= original_reply(etag@, mime@, body@));
    reply
}

fn make_preview_reply(key: &PreviewKey, bytes: Vec<u8>) -> (reply: Reply)
    ensures
        reply@ == preview_reply(key@, bytes@),
{
    let mut etag = "\"".to_owned();
    etag.append(&key.path);
    etag.append("-");
    push_nat(&mut etag, key.width as u64);
    etag.append("-");
    push_int(&mut etag, key.mtime_secs);
    etag.append("\"");
    image_reply("image/jpeg".to_owned(), etag, bytes)
}

/// The answer to a client whose copy is current.
pub fn not_modified_reply(etag: String) -> (reply: Reply)
    ensures
        reply@ == not_modified(etag@),
{
    let mut headers: Vec<(String, String)> = Vec::new();
    headers.push(("etag".to_owned(), etag));
    let reply = Reply { status: NOT_MODIFIED, headers, body: Vec::new() };
    assert(reply@ =~= not_modified(etag@));
    reply
}

/// Answers with a preview from the cache, where it holds one.
pub fn cached_preview(cache: &mut PreviewCache, key: &PreviewKey) -> (reply: Option<Reply>)
    ensures
        final(cache)@ == used(old(cache)@, key@),
        match reply {
            Some(r) => bytes_of(old(cache)@, key@) is Some && r@ == preview_reply(
                key@,
                bytes_of(old(cache)@, key@)->0,
            ),
            None => bytes_of(old(cache)@, key@) is None,
        },
{
    match cache.get(key) {
        Some(bytes) => Some(make_preview_reply(key, crate::dirs::copy_bytes(bytes))),
        None => None,
    }
}

/// What came of making a preview.
#[derive(Debug)]
pub enum Generated {
    Bytes(Vec<u8>),
    /// The image could not be scaled or encoded.
    Failed,
    /// The work was broken off.
    Aborted,
}

/// Answers with a preview that was just made and keeps it in the cache, or says
/// why there is none.
pub fn finish_preview(
    cache: &mut PreviewCache,
    key: &PreviewKey,
    generated: Generated,
) -> (reply: Result<Reply, u16>)
    ensures
        match generated {
            Generated::Bytes(bytes) => {
                &&& reply matches Ok(r) && r@ == preview_reply(key@, bytes@)
                &&& final(cache)@ == stored(old(cache)@, key@, bytes@)
            },
            Generated::Failed => {
                &&& reply == Err::<Reply, u16>(BAD_GATEWAY)
                &&& final(cache)@ == old(cache)@
            },
            Generated::Aborted => {
                &&& reply == Err::<Reply, u16>(INTERNAL_SERVER_ERROR)
                &&& final(cache)@ == old(cache)@
            },
        },
{
    match generated {
        Generated::Bytes(bytes) => {
            let copy = crate::dirs::copy_bytes(bytes.as_slice());
            cache.insert(key.clone(), copy);
            Ok(make_preview_reply(key, bytes))
        },
        Generated::Failed => Err(BAD_GATEWAY),
        Generated::Aborted => Err(INTERNAL_SERVER_ERROR),
    }
}

/// Answers with an original file, or that it is not there where it could not be
/// read.
pub fn finish_original(
    etag: String,
    mime: String,
    content: Option<Vec<u8>>,
) -> (reply: Result<Reply, u16>)
    ensures
        match content {
            Some(bytes) => reply matches Ok(r) && r@ == original_reply(etag@, mime@, bytes@),
            None => reply == Err::<Reply, u16>(NOT_FOUND),
        },
{
    match content {
        Some(bytes) => Ok(image_reply(mime, etag, bytes)),
        None => Err(NOT_FOUND),
    }
}

/// Previews are never narrower than the narrowest nor wider than the widest
/// width, and a width between them is kept.
pub proof fn preview_width_is_bounded(w: i32)
    ensures
        MIN_PREVIEW_WIDTH <= preview_width(w) <= MAX_PREVIEW_WIDTH,
        MIN_PREVIEW_WIDTH <= w <= MAX_PREVIEW_WIDTH ==> preview_width(w) == w,
{
}

/// A preview that was made once is answered from the cache with the very same
/// answer the next time.
pub proof fn made_preview_is_served_again(cache: Entries, key: KeyView, bytes: Seq<u8>)
    requires
        distinct_keys(cache),
        cache.len() <= PreviewCache::CAPACITY,
    ensures
        bytes_of(stored(cache, key, bytes), key) is Some,
        preview_reply(key, bytes_of(stored(cache, key, bytes), key)->0) == preview_reply(
            key,
            bytes,
        ),
{
    stored_bytes_are_found(cache, key, bytes);
}

/// What stands before and after the last dash of a text is determined by it.
proof fn lemma_split_at_last_dash(
    a: Seq<char>,
    b: Seq<char>,
    c: Seq<char>,
    d: Seq<char>,
)
    requires
        a + seq!['-'] + b == c + seq!['-'] + d,
        forall|i: int| 0 <= i < b.len() ==> b[i] != '-',
        forall|i: int| 0 <= i < d.len() ==> d[i] != '-',
    ensures
        a == c,
        b == d,
{
    let s = a + seq!['-'] + b;
    let t = c + seq!['-'] + d;
    assert(s.len() == a.len() + 1 + b.len());
    assert(t.len() == c.len() + 1 + d.len());
    assert(s[a.len() as int] == '-');
    assert(t[c.len() as int] == '-');
    if a.len() < c.len() {
        assert(s[c.len() as int] == b[c.len() - a.len() - 1]);
    } else if c.len() < a.len() {
        assert(t[a.len() as int] == d[a.len() - c.len() - 1]);
    }
    assert(a == s.take(a.len() as int));
    assert(c == t.take(c.len() as int));
    assert(b == s.skip(a.len() as int + 1));
    assert(d == t.skip(c.len() as int + 1));
}

/// Two versions of a file have the same entity tag only where both their
/// modification time and their size agree.
pub proof fn original_etag_tells_versions_apart(m1: i64, l1: u64, m2: i64, l2: u64)
    requires
        original_etag(m1, l1) == original_etag(m2, l2),
    ensures
        m1 == m2,
        l1 == l2,
{
    reveal_strlit("\"");
    reveal_strlit("-");
    let x = original_etag(m1, l1);
    let a = decimal(m1 as int) + "-"@ + decimal_nat(l1 as nat);
    let b = decimal(m2 as int) + "-"@ + decimal_nat(l2 as nat);
    assert("-"@ == seq!['-']);
    assert(x == "\""@ + a + "\""@);
    assert(original_etag(m2, l2) == "\""@ + b + "\""@);
    assert(a == x.subrange(1, x.len() - 1));
    assert(b == x.subrange(1, x.len() - 1));
    lemma_digits(l1 as nat);
    lemma_digits(l2 as nat);
    lemma_split_at_last_dash(
        decimal(m1 as int),
        decimal_nat(l1 as nat),
        decimal(m2 as int),
        decimal_nat(l2 as nat),
    );
    lemma_decimal_injective(m1 as int, m2 as int);
    lemma_decimal_nat_injective(l1 as nat, l2 as nat);
}

/// The entity tags of two previews agree only where their keys do.
pub proof fn preview_etag_tells_previews_apart(j: KeyView, k: KeyView)
    requires
        preview_etag(j) == preview_etag(k),
    ensures
        j == k,
{
    reveal_strlit("\"");
    reveal_strlit("-");
    assert("-"@ == seq!['-']);
    let x = preview_etag(j);
    let a = j.path + "-"@ + decimal_nat(j.width as nat) + "-"@ + decimal(j.mtime_secs as int);
    let b = k.path + "-"@ + decimal_nat(k.width as nat) + "-"@ + decimal(k.mtime_secs as int);
    assert(x == "\""@ + a + "\""@);
    assert(preview_etag(k) == "\""@ + b + "\""@);
    assert(a == x.subrange(1, x.len() - 1));
    assert(b == x.subrange(1, x.len() - 1));
    // The digits of the time follow the last dash; before it stands a second
    // dash where the time is negative, and a digit where it is not.
    let ja = j.path + "-"@ + decimal_nat(j.width as nat);
    let ka = k.path + "-"@ + decimal_nat(k.width as nat);
    let jm = decimal_nat(magnitude(j.mtime_secs as int));
    let km = decimal_nat(magnitude(k.mtime_secs as int));
    let jp = if j.mtime_secs < 0 {
        ja + "-"@
    } else {
        ja
    };
    let kp = if k.mtime_secs < 0 {
        ka + "-"@
    } else {
        ka
    };
    assert(a == jp + "-"@ + jm);
    assert(b == kp + "-"@ + km);
    lemma_digits(magnitude(j.mtime_secs as int));
    lemma_digits(magnitude(k.mtime_secs as int));
    lemma_split_at_last_dash(jp, jm, kp, km);
    lemma_decimal_nat_injective(magnitude(j.mtime_secs as int), magnitude(k.mtime_secs as int));
    lemma_digits(j.width as nat);
    lemma_digits(k.width as nat);
    assert(ja.last() == decimal_nat(j.width as nat).last());
    assert(ka.last() == decimal_nat(k.width as nat).last());
    assert(j.mtime_secs < 0 <==> k.mtime_secs < 0);
    if j.mtime_secs < 0 {
        assert(ja == jp.drop_last());
        assert(ka == kp.drop_last());
    }
    lemma_split_at_last_dash(
        j.path,
        decimal_nat(j.width as nat),
        k.path,
        decimal_nat(k.width as nat),
    );
    lemma_decimal_nat_injective(j.width as nat, k.width as nat);
}

/// The absolute value of an integer.
pub open spec fn magnitude(n: int) -> nat {
    if n < 0 {
        (-n) as nat
    } else {
        n as nat
    }
}

/// What is not a supported image is not found, in whatever form it is asked for.
pub proof fn only_images_are_served(
    path: Seq<char>,
    params: ImageParams,
    stat: Option<FileStat>,
    if_none_match: Option<Seq<char>>,
)
    requires
        !supported_image(path),
    ensures
        next_step(path, params, stat, if_none_match) == StepView::Fail(NOT_FOUND),
{
}

/// A client that asks for an original with the entity tag of some version of the
/// file is told that its copy is current exactly where that version is the one
/// on disk.
pub proof fn revalidation_is_exact(
    path: Seq<char>,
    params: ImageParams,
    stat: FileStat,
    held_mtime: i64,
    held_len: u64,
)
    requires
        supported_image(path),
        params.w is None || params.original(),
    ensures
        next_step(path, params, Some(stat), Some(original_etag(held_mtime, held_len)))
            is NotModified <==> held_mtime == stat.mtime_secs && held_len == stat.len,
{
    if original_etag(held_mtime, held_len) == original_etag(stat.mtime_secs, stat.len) {
        original_etag_tells_versions_apart(held_mtime, held_len, stat.mtime_secs, stat.len);
    }
}

/// Every request for a width that does not ask for the original gets a preview of
/// that very image, whatever the size of its file and whatever the client holds:
/// as wide as asked for, but no narrower than 8 and no wider than 4096, of the
/// version of the file that is on disk.
pub proof fn width_gets_a_preview(
    path: Seq<char>,
    params: ImageParams,
    stat: FileStat,
    if_none_match: Option<Seq<char>>,
    w: i32,
)
    requires
        supported_image(path),
        params.w == Some(w),
        params.orig matches Some(t) ==> t@ == seq!['f', 'a', 'l', 's', 'e'] || t@ == seq!['0'],
    ensures
        next_step(path, params, Some(stat), if_none_match) matches StepView::Preview(key) && {
            &&& key.path == path
            &&& key.mtime_secs == stat.mtime_secs
            &&& w < 8 ==> key.width == 8
            &&& 8 <= w <= 4096 ==> key.width == w
            &&& w > 4096 ==> key.width == 4096
        },
{
    crate::app::original_is_asked_for_by_any_other_value(params);
}

/// Every other request for an image gets the file itself, whatever its size, under
/// the entity tag of the version on disk; it is not sent only where the client
/// holds exactly that version.
pub proof fn original_is_sent_unless_the_client_has_it(
    path: Seq<char>,
    params: ImageParams,
    stat: FileStat,
    if_none_match: Option<Seq<char>>,
)
    requires
        supported_image(path),
        params.w is None || (params.orig matches Some(t) && t@ != seq!['f', 'a', 'l', 's', 'e']
            && t@ != seq!['0']),
    ensures
        ({
            let etag = original_etag(stat.mtime_secs, stat.len);
            let step = next_step(path, params, Some(stat), if_none_match);
            &&& if_none_match == Some(etag) ==> step == StepView::NotModified(etag)
            &&& if_none_match != Some(etag) ==> step == StepView::ReadSource(etag)
        }),
{
    crate::app::original_is_asked_for_by_any_other_value(params);
}

/// A request for a file that cannot be examined is answered 404.
pub proof fn missing_file_is_not_found(
    path: Seq<char>,
    params: ImageParams,
    if_none_match: Option<Seq<char>>,
)
    ensures
        next_step(path, params, None, if_none_match) == StepView::Fail(404),
{
}

/// The entity tag of a file reads, between quotes, its time, a dash and its size.
pub proof fn original_etag_reads_time_and_size(mtime_secs: i64, len: u64)
    ensures
        ({
            let e = original_etag(mtime_secs, len);
            let d = decimal(mtime_secs as int).len() as int + 1;
            &&& e[0] == '"' && e.last() == '"'
            &&& e[d] == '-'
            &&& e.subrange(1, d) == decimal(mtime_secs as int)
            &&& crate::text::number_of(e.subrange(d + 1, e.len() - 1)) == len
        }),
{
    reveal_strlit("\"");
    reveal_strlit("-");
    crate::text::decimal_reads_back(len as nat);
    let e = original_etag(mtime_secs, len);
    let d = decimal(mtime_secs as int).len() as int + 1;
    assert(e.subrange(1, d) == decimal(mtime_secs as int));
    assert(e.subrange(d + 1, e.len() - 1) == decimal_nat(len as nat));
}

/// The entity tag of a preview reads, between quotes, the path, the width and the
/// time of its key, with dashes between them.
pub proof fn preview_etag_reads_the_key(key: KeyView)
    ensures
        ({
            let e = preview_etag(key);
            let a = 1 + key.path.len() as int;
            let b = a + 1 + decimal_nat(key.width as nat).len() as int;
            &&& e[0] == '"' && e.last() == '"'
            &&& e.subrange(1, a) == key.path
            &&& e[a] == '-'
            &&& crate::text::number_of(e.subrange(a + 1, b)) == key.width
            &&& e[b] == '-'
            &&& e.subrange(b + 1, e.len() - 1) == decimal(key.mtime_secs as int)
        }),
{
    reveal_strlit("\"");
    reveal_strlit("-");
    crate::text::decimal_reads_back(key.width as nat);
    let e = preview_etag(key);
    let a = 1 + key.path.len() as int;
    let b = a + 1 + decimal_nat(key.width as nat).len() as int;
    assert(e.subrange(1, a) == key.path);
    assert(e.subrange(a + 1, b) == decimal_nat(key.width as nat));
    assert(e.subrange(b + 1, e.len() - 1) == decimal(key.mtime_secs as int));
}

/// Answers carry what they are about, byte for byte, with its type and its tag: a
/// preview its bytes as a JPEG, an original its bytes under its own type, both to
/// be kept for a day; and where the client's copy is current, the tag and no body.
pub proof fn answers_carry_the_whole_content(
    key: KeyView,
    etag: Seq<char>,
    mime: Seq<char>,
    bytes: Seq<u8>,
)
    ensures
        ({
            let p = preview_reply(key, bytes);
            let o = original_reply(etag, mime, bytes);
            let n = not_modified(etag);
            &&& p.status == 200 && p.body == bytes
            &&& p.headers.contains(("content-type"@, "image/jpeg"@))
            &&& p.headers.contains(("cache-control"@, "public, max-age=86400"@))
            &&& p.headers.contains(("etag"@, preview_etag(key)))
            &&& p.headers.len() == 3
            &&& o.status == 200 && o.body == bytes
            &&& o.headers.contains(("content-type"@, mime))
            &&& o.headers.contains(("cache-control"@, "public, max-age=86400"@))
            &&& o.headers.contains(("etag"@, etag))
            &&& o.headers.len() == 3
            &&& n.status == 304 && n.body == Seq::<u8>::empty()
            &&& n.headers.contains(("etag"@, etag))
            &&& n.headers.len() == 1
        }),
{
    let p = preview_reply(key, bytes).headers;
    let o = original_reply(etag, mime, bytes).headers;
    let n = not_modified(etag).headers;
    assert(p[0] == ("content-type"@, "image/jpeg"@));
    assert(p[1] == ("cache-control"@, "public, max-age=86400"@));
    assert(p[2] == ("etag"@, preview_etag(key)));
    assert(o[0] == ("content-type"@, mime));
    assert(o[1] == ("cache-control"@, "public, max-age=86400"@));
    assert(o[2] == ("etag"@, etag));
    assert(n[0] == ("etag"@, etag));
}

/// A step and an answer are seen as they are: with the whole key, the whole tag,
/// and the whole body.
pub proof fn steps_and_answers_are_seen_in_full(step: ImageStep, reply: Reply, i: int)
    ensures
        match step {
            ImageStep::Fail(status) => step@ == StepView::Fail(status),
            ImageStep::Preview(key) => step@ == StepView::Preview(
                KeyView { path: key.path@, width: key.width, mtime_secs: key.mtime_secs },
            ),
            ImageStep::NotModified(etag) => step@ == StepView::NotModified(etag@),
            ImageStep::ReadSource(etag) => step@ == StepView::ReadSource(etag@),
        },
        reply@.status == reply.status,
        reply@.body == reply.body@,
        reply@.headers.len() == reply.headers@.len(),
        0 <= i < reply.headers@.len() ==> reply@.headers[i] == (
            reply.headers@[i].0@,
            reply.headers@[i].1@,
        ),
{
}

/// A time after the epoch counts its seconds, one at a time; an unknown one counts
/// as the epoch. Beyond the range of a signed number it wraps around.
pub proof fn seconds_are_counted_one_by_one(s: u64)
    ensures
        s < 0x8000_0000_0000_0000 ==> unix_seconds(Some(s)) == s,
        s >= 0x8000_0000_0000_0000 ==> unix_seconds(Some(s)) + 0xffff_ffff_ffff_ffff + 1 == s,
        unix_seconds(None) == 0,
{
}

} // verus!
