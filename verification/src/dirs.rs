//! The configured image folders and the keys of the images in them.
use vstd::prelude::*;
use vstd::utf8::{
    decode_utf8, decode_utf8_encode_utf8, encode_utf8, encode_utf8_decode_utf8,
    encode_utf8_valid_utf8, valid_utf8,
};

use crate::path::{
    below, below_undoes_append, find_below, is_trimmed, plain_relative_path_is_trimmed,
};
use crate::text::{trim_end, trimming_takes_back_what_was_appended, without_trailing_slashes};

verus! {

/// One configured image folder: how it looks in keys and URLs, and its
/// canonical location on disk, as the bytes of its path.
#[derive(Clone, Debug)]
pub struct ImageDir {
    pub display: String,
    pub canonical: Vec<u8>,
}

impl View for ImageDir {
    type V = (Seq<char>, Seq<u8>);

    open spec fn view(&self) -> (Seq<char>, Seq<u8>) {
        (self.display@, self.canonical@)
    }
}

/// The views of a list of folders.
pub open spec fn dir_views(dirs: Seq<ImageDir>) -> Seq<(Seq<char>, Seq<u8>)> {
    Seq::new(dirs.len(), |i: int| dirs[i]@)
}

/// One folder as the user named it, with its canonical location where it exists.
#[derive(Debug)]
pub struct DirArg {
    pub given: Vec<u8>,
    pub canonical: Option<Vec<u8>>,
}

/// What `String::from_utf8_lossy` of std makes of bytes that are not UTF-8.
pub uninterp spec fn repaired(bytes: Seq<u8>) -> Seq<char>;

/// The text of some bytes, with replacements where they are not UTF-8.
pub open spec fn lossy(bytes: Seq<u8>) -> Seq<char> {
    if valid_utf8(bytes) {
        decode_utf8(bytes)
    } else {
        repaired(bytes)
    }
}

/// `String::from_utf8_lossy` of std: text that is valid UTF-8 is decoded as it
/// stands. What is made of other input is only named.
#[verifier::external_body]
pub(crate) fn lossy_text(bytes: &[u8]) -> (text: String)
    ensures
        valid_utf8(bytes@) ==> text@ == decode_utf8(bytes@),
        !valid_utf8(bytes@) ==> text@ == repaired(bytes@),
{
    String::from_utf8_lossy(bytes).into_owned()
}

/// `std::str::from_utf8`: gives the text of valid UTF-8 and nothing for other
/// input.
#[verifier::external_body]
pub(crate) fn utf8_text(bytes: &[u8]) -> (text: Option<&str>)
    ensures
        match text {
            Some(t) => valid_utf8(bytes@) && t@ == decode_utf8(bytes@),
            None => !valid_utf8(bytes@),
        },
{
    std::str::from_utf8(bytes).ok()
}

/// The folders that exist, in the order given.
pub open spec fn resolved(args: Seq<DirArg>) -> Seq<(Seq<char>, Seq<u8>)>
    decreases args.len(),
{
    if args.len() == 0 {
        Seq::empty()
    } else {
        let before = resolved(args.drop_last());
        match args.last().canonical {
            Some(c) => before.push((trim_end(lossy(args.last().given@), '/'), c@)),
            None => before,
        }
    }
}

/// Normalizes the configured folders. Keys keep a folder as the user typed it,
/// without trailing slashes; folders that do not exist are left out.
pub fn resolve_dirs(args: Vec<DirArg>) -> (dirs: Vec<ImageDir>)
    ensures
        dir_views(dirs@) == resolved(args@),
{
    let mut out: Vec<ImageDir> = Vec::new();
    for i in 0..args.len()
        invariant
            dir_views(out@) == resolved(args@.take(i as int)),
    {
        assert(args@.take(i + 1).drop_last() == args@.take(i as int));
        match &args[i].canonical {
            Some(c) => {
                let display = without_trailing_slashes(&lossy_text(args[i].given.as_slice()));
                let ghost before = dir_views(out@);
                out.push(ImageDir { display, canonical: copy_bytes(c.as_slice()) });
                assert(dir_views(out@) == before.push(out@.last()@));
            },
            None => {},
        }
    }
    assert(args@.take(args@.len() as int) == args@);
    out
}

/// A copy of some bytes.
pub(crate) fn copy_bytes(bytes: &[u8]) -> (out: Vec<u8>)
    ensures
        out@ == bytes@,
{
    let mut out: Vec<u8> = Vec::new();
    out.extend_from_slice(bytes);
    assert(out@ == bytes@);
    out
}

/// What the first of some folders displays.
pub open spec fn first_display(dirs: Seq<(Seq<char>, Seq<u8>)>) -> Option<Seq<char>> {
    if dirs.len() == 0 {
        None
    } else {
        Some(dirs[0].0)
    }
}

/// The folder that uploads go to where none is configured: the first one, as
/// the user typed it.
pub fn default_upload_dir(dirs: &[ImageDir]) -> (dir: Option<String>)
    ensures
        match dir {
            Some(d) => dirs@.len() > 0 && d@ == dirs@[0].display@,
            None => dirs@.len() == 0,
        },
        shows(dir, first_display(dir_views(dirs@))),
{
    if dirs.len() == 0 {
        None
    } else {
        Some(dirs[0].display.clone())
    }
}

/// The key `<dir>/<file>` of a path in the folder `dir`; none where the path
/// lies elsewhere or its part below the folder is not text.
pub open spec fn key_in(p: Seq<u8>, dir: (Seq<char>, Seq<u8>)) -> Option<Seq<char>> {
    match below(p, dir.1) {
        Some(rel) => if valid_utf8(rel) {
            Some(dir.0 + "/"@ + decode_utf8(rel))
        } else {
            None
        },
        None => None,
    }
}

/// The key of a path: that in the first folder which contains it.
pub open spec fn key_among(p: Seq<u8>, dirs: Seq<(Seq<char>, Seq<u8>)>) -> Option<Seq<char>>
    decreases dirs.len(),
{
    if dirs.len() == 0 {
        None
    } else if below(p, dirs[0].1) is Some {
        key_in(p, dirs[0])
    } else {
        key_among(p, dirs.skip(1))
    }
}

/// Whether an optional string shows the given optional text.
pub open spec fn shows(s: Option<String>, text: Option<Seq<char>>) -> bool {
    match s {
        Some(t) => text == Some(t@),
        None => text is None,
    }
}

/// The key of a path in one folder.
pub fn dir_image_key(p: &[u8], dir: &ImageDir) -> (key: Option<String>)
    ensures
        shows(key, key_in(p@, dir@)),
{
    match find_below(p, dir.canonical.as_slice()) {
        Some((i, j)) => {
            let rel = vstd::slice::slice_subrange(p, i, j);
            match utf8_text(rel) {
                Some(text) => {
                    let mut key = dir.display.clone();
                    key.append("/");
                    key.append(text);
                    Some(key)
                },
                None => None,
            }
        },
        None => None,
    }
}

/// Maps an absolute path to its key `<dir>/<file>`.
pub fn relative_image_key(p: &[u8], dirs: &[ImageDir]) -> (key: Option<String>)
    ensures
        shows(key, key_among(p@, dir_views(dirs@))),
{
    let ghost all = dir_views(dirs@);
    assert(all.skip(0) == all);
    for i in 0..dirs.len()
        invariant
            all == dir_views(dirs@),
            key_among(p@, all.skip(i as int)) == key_among(p@, all),
    {
        assert(all.skip(i as int)[0] == dirs@[i as int]@);
        if find_below(p, dirs[i].canonical.as_slice()).is_some() {
            return dir_image_key(p, &dirs[i]);
        }
        assert(all.skip(i as int).skip(1) == all.skip(i + 1));
    }
    None
}

/// A path has a key exactly where some folder contains it and its part below
/// the first such folder is text; the key then is the one in that folder, so a
/// scan of the folder and a report of the path agree on it.
pub proof fn key_is_that_of_first_folder(
    p: Seq<u8>,
    dirs: Seq<(Seq<char>, Seq<u8>)>,
    first: int,
)
    requires
        0 <= first < dirs.len(),
        below(p, dirs[first].1) is Some,
        forall|i: int| 0 <= i < first ==> below(p, (#[trigger] dirs[i]).1) is None,
    ensures
        key_among(p, dirs) == key_in(p, dirs[first]),
    decreases first,
{
    if first > 0 {
        let rest = dirs.skip(1);
        assert(below(p, dirs[0].1) is None);
        assert forall|i: int| 0 <= i < first - 1 implies below(p, (#[trigger] rest[i]).1)
            is None by {
            assert(rest[i] == dirs[i + 1]);
        }
        assert(rest[first - 1] == dirs[first]);
        key_is_that_of_first_folder(p, rest, first - 1);
    }
}

/// A path that has a key lies in some folder.
pub proof fn keyed_path_lies_in_a_folder(p: Seq<u8>, dirs: Seq<(Seq<char>, Seq<u8>)>) -> (dir: int)
    requires
        key_among(p, dirs) is Some,
    ensures
        0 <= dir < dirs.len(),
        key_among(p, dirs) == key_in(p, dirs[dir]),
    decreases dirs.len(),
{
    if below(p, dirs[0].1) is Some {
        0
    } else {
        keyed_path_lies_in_a_folder(p, dirs.skip(1)) + 1
    }
}

/// A path outside every folder has no key.
pub proof fn outside_path_has_no_key(p: Seq<u8>, dirs: Seq<(Seq<char>, Seq<u8>)>)
    requires
        forall|i: int| 0 <= i < dirs.len() ==> below(p, (#[trigger] dirs[i]).1) is None,
    ensures
        key_among(p, dirs) is None,
    decreases dirs.len(),
{
    if dirs.len() > 0 {
        let rest = dirs.skip(1);
        assert(below(p, dirs[0].1) is None);
        assert forall|i: int| 0 <= i < rest.len() implies below(p, (#[trigger] rest[i]).1)
            is None by {
            assert(rest[i] == dirs[i + 1]);
        }
        outside_path_has_no_key(p, rest);
    }
}

/// The key of a file below a folder is the folder as displayed, a slash, and
/// the file's path below the folder.
pub proof fn key_of_file_in_folder(dir: (Seq<char>, Seq<u8>), rel: Seq<u8>)
    requires
        dir.1.len() > 0,
        is_trimmed(rel),
        valid_utf8(rel),
    ensures
        key_in(dir.1 + seq![47u8] + rel, dir) == Some(dir.0 + "/"@ + decode_utf8(rel)),
{
    below_undoes_append(dir.1, rel);
}

/// The text of bytes that are text is that text.
pub proof fn bytes_of_a_text_read_back(text: Seq<char>)
    ensures
        lossy(encode_utf8(text)) == text,
{
    broadcast use {decode_utf8_encode_utf8, encode_utf8_decode_utf8, encode_utf8_valid_utf8};

}

/// A folder that exists is kept as the user typed it, without the slashes at its
/// end, and in its place; one that does not exist is left out.
pub proof fn folder_is_kept_as_typed(
    args: Seq<DirArg>,
    arg: DirArg,
    typed: Seq<char>,
    slashes: nat,
)
    requires
        typed.len() == 0 || typed.last() != '/',
        arg.given@ == encode_utf8(typed + Seq::new(slashes, |i: int| '/')),
    ensures
        arg.canonical matches Some(c) ==> resolved(args.push(arg)) == resolved(args).push(
            (typed, c@),
        ),
        arg.canonical is None ==> resolved(args.push(arg)) == resolved(args),
        resolved(Seq::<DirArg>::empty()) == Seq::<(Seq<char>, Seq<u8>)>::empty(),
{
    assert(args.push(arg).drop_last() == args);
    bytes_of_a_text_read_back(typed + Seq::new(slashes, |i: int| '/'));
    trimming_takes_back_what_was_appended(typed, '/', slashes);
}

/// The key of a file below a folder, at whatever depth and under whatever names:
/// the folder as displayed, a slash, and the file's path below the folder,
/// unchanged.
pub proof fn key_is_the_path_below_the_folder(dir: (Seq<char>, Seq<u8>), rel: Seq<char>)
    requires
        dir.1.len() > 0,
        ({
            let r = encode_utf8(rel);
            &&& r.len() > 0
            &&& r[0] != 47
            &&& r.last() != 47
            &&& r != seq![46u8]
            &&& !(r.len() >= 2 && r[0] == 46 && r[1] == 47)
            &&& !(r.len() >= 2 && r[r.len() - 2] == 47 && r.last() == 46)
        }),
    ensures
        key_in(dir.1 + seq![47u8] + encode_utf8(rel), dir) == Some(dir.0 + seq!['/'] + rel),
        key_among(dir.1 + seq![47u8] + encode_utf8(rel), seq![dir]) == Some(
            dir.0 + seq!['/'] + rel,
        ),
{
    broadcast use {decode_utf8_encode_utf8, encode_utf8_decode_utf8, encode_utf8_valid_utf8};

    reveal_strlit("/");
    assert("/"@ == seq!['/']);
    let r = encode_utf8(rel);
    plain_relative_path_is_trimmed(r);
    key_of_file_in_folder(dir, r);
    below_undoes_append(dir.1, r);
    let p = dir.1 + seq![47u8] + r;
    assert(below(p, seq![dir][0].1) is Some);
}

/// Further folders do not change the key of a path that an earlier one contains,
/// and a folder that does not contain the path is passed over.
pub proof fn folders_are_asked_in_order(
    p: Seq<u8>,
    dir: (Seq<char>, Seq<u8>),
    dirs: Seq<(Seq<char>, Seq<u8>)>,
)
    ensures
        below(p, dir.1) is Some ==> key_among(p, seq![dir] + dirs) == key_in(p, dir),
        below(p, dir.1) is None ==> key_among(p, seq![dir] + dirs) == key_among(p, dirs),
        below(p, dir.1) is None ==> key_in(p, dir) is None,
        key_among(p, Seq::<(Seq<char>, Seq<u8>)>::empty()) is None,
{
    let all = seq![dir] + dirs;
    assert(all[0] == dir);
    assert(all.skip(1) == dirs);
}

/// A string shows a text exactly where it reads the same.
pub proof fn shown_text_is_exact(s: Option<String>, text: Option<Seq<char>>)
    ensures
        shows(s, text) <==> (s is Some <==> text is Some) && (s matches Some(t) ==> text == Some(
            t@,
        )),
{
}

/// The views of folders are those of each folder, in order: what it displays and
/// where it is.
pub proof fn folders_are_seen_in_full(dirs: Seq<ImageDir>, i: int)
    requires
        0 <= i < dirs.len(),
    ensures
        dir_views(dirs).len() == dirs.len(),
        dir_views(dirs)[i] == (dirs[i].display@, dirs[i].canonical@),
{
}

/// Uploads go by default to the first folder, whatever others there are.
pub proof fn uploads_go_to_the_first_folder(
    dir: (Seq<char>, Seq<u8>),
    dirs: Seq<(Seq<char>, Seq<u8>)>,
)
    ensures
        first_display(seq![dir] + dirs) == Some(dir.0),
        first_display(Seq::<(Seq<char>, Seq<u8>)>::empty()) is None,
{
    assert((seq![dir] + dirs)[0] == dir);
}

/// A file whose path below the folder is not text has no key.
pub proof fn path_that_is_no_text_has_no_key(p: Seq<u8>, dir: (Seq<char>, Seq<u8>))
    ensures
        key_in(p, dir) is Some <==> (below(p, dir.1) matches Some(rel) && valid_utf8(rel)),
        below(p, dir.1) matches Some(rel) && valid_utf8(rel) ==> key_in(p, dir) == Some(
            dir.0 + "/"@ + decode_utf8(below(p, dir.1)->0),
        ),
{
}

} // verus!
