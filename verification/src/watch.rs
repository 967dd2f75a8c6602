//! What a scan of the folders and a report of the file watcher lead to.
use vstd::prelude::*;
use vstd::utf8::{
    decode_utf8, decode_utf8_encode_utf8, encode_utf8, encode_utf8_decode_utf8,
    encode_utf8_valid_utf8, valid_utf8,
};

use crate::dirs::{
    bytes_of_a_text_read_back, copy_bytes, dir_image_key, dir_views, key_among, key_in,
    key_is_that_of_first_folder, key_is_the_path_below_the_folder, keyed_path_lies_in_a_folder, lossy, lossy_text, relative_image_key, shows, utf8_text, ImageDir,
};
use crate::encoding::{file_name_as_text_and_bytes, lemma_encode_concat};
use crate::names::{is_supported_image_ext, supported_image};
use crate::path::{
    below, components, file_name, file_name_at_end, find_file_name, lemma_span_pieces, lemma_spans,
    spans, spans_from,
};

verus! {

/// How often loading a new image is tried before it is given up.
pub const LOAD_ATTEMPTS: u32 = 5;

/// How long to wait after a failed attempt, in milliseconds.
pub const LOAD_RETRY_MILLIS: u64 = 100;

/// A report of the file watcher: what happened, and to which paths.
#[derive(Debug)]
pub enum WatchEvent {
    Create(Vec<Vec<u8>>),
    Remove(Vec<Vec<u8>>),
    Modify(Vec<Vec<u8>>),
    Other,
}

/// What there is to do about a report.
#[derive(Debug)]
pub enum WatchAction {
    /// Load the image with this key and add it to the index.
    Load { key: String },
    /// Nothing: a new image lies outside the configured folders.
    Outside { path: Vec<u8> },
    /// Remove the images of this title from the index.
    Remove { title: String },
    /// Read the image with this key again and refresh the index.
    Refresh { key: String },
}

/// What an action stands for.
pub enum ActionView {
    Load(Seq<char>),
    Outside(Seq<u8>),
    Remove(Seq<char>),
    Refresh(Seq<char>),
}

impl View for WatchAction {
    type V = ActionView;

    open spec fn view(&self) -> ActionView {
        match self {
            WatchAction::Load { key } => ActionView::Load(key@),
            WatchAction::Outside { path } => ActionView::Outside(path@),
            WatchAction::Remove { title } => ActionView::Remove(title@),
            WatchAction::Refresh { key } => ActionView::Refresh(key@),
        }
    }
}

/// The views of a list of actions.
pub open spec fn action_views(actions: Seq<WatchAction>) -> Seq<ActionView> {
    Seq::new(actions.len(), |i: int| actions[i]@)
}

/// Whether a path names an image that the gallery handles; one that is not text
/// never does.
pub open spec fn supported_path(p: Seq<u8>) -> bool {
    valid_utf8(p) && supported_image(decode_utf8(p))
}

/// What to do about a new file.
pub open spec fn on_create(p: Seq<u8>, dirs: Seq<(Seq<char>, Seq<u8>)>) -> Option<ActionView> {
    if supported_path(p) {
        match key_among(p, dirs) {
            Some(key) => Some(ActionView::Load(key)),
            None => Some(ActionView::Outside(p)),
        }
    } else {
        None
    }
}

/// What to do about a file that is gone.
pub open spec fn on_remove(p: Seq<u8>) -> Option<ActionView> {
    match file_name(p) {
        Some(name) => Some(ActionView::Remove(lossy(name))),
        None => None,
    }
}

/// What to do about a file that has changed.
pub open spec fn on_modify(p: Seq<u8>, dirs: Seq<(Seq<char>, Seq<u8>)>) -> Option<ActionView> {
    if supported_path(p) {
        match key_among(p, dirs) {
            Some(key) => Some(ActionView::Refresh(key)),
            None => None,
        }
    } else {
        None
    }
}

/// The actions for each path in order, where there is one.
pub open spec fn for_each(
    paths: Seq<Vec<u8>>,
    on: spec_fn(Seq<u8>) -> Option<ActionView>,
) -> Seq<ActionView>
    decreases paths.len(),
{
    if paths.len() == 0 {
        Seq::empty()
    } else {
        match on(paths.last()@) {
            Some(action) => for_each(paths.drop_last(), on).push(action),
            None => for_each(paths.drop_last(), on),
        }
    }
}

/// What there is to do about a report. Of a modification only the first path
/// counts.
pub open spec fn planned(
    event: WatchEvent,
    dirs: Seq<(Seq<char>, Seq<u8>)>,
) -> Seq<ActionView> {
    match event {
        WatchEvent::Create(paths) => for_each(paths@, |p: Seq<u8>| on_create(p, dirs)),
        WatchEvent::Remove(paths) => for_each(paths@, |p: Seq<u8>| on_remove(p)),
        WatchEvent::Modify(paths) => for_each(
            if paths@.len() > 0 {
                paths@.take(1)
            } else {
                paths@
            },
            |p: Seq<u8>| on_modify(p, dirs),
        ),
        WatchEvent::Other => Seq::empty(),
    }
}

/// Whether an optional action shows the given one.
pub open spec fn shows_action(a: Option<WatchAction>, view: Option<ActionView>) -> bool {
    match a {
        Some(action) => view == Some(action@),
        None => view is None,
    }
}

/// Whether a path names an image that the gallery handles.
pub fn is_supported_path(p: &[u8]) -> (supported: bool)
    ensures
        supported == supported_path(p@),
{
    match utf8_text(p) {
        Some(text) => is_supported_image_ext(text),
        None => false,
    }
}

fn create_action(p: &[u8], dirs: &[ImageDir]) -> (action: Option<WatchAction>)
    ensures
        shows_action(action, on_create(p@, dir_views(dirs@))),
{
    if !is_supported_path(p) {
        return None;
    }
    match relative_image_key(p, dirs) {
        Some(key) => Some(WatchAction::Load { key }),
        None => Some(WatchAction::Outside { path: copy_bytes(p) }),
    }
}

fn remove_action(p: &[u8]) -> (action: Option<WatchAction>)
    ensures
        shows_action(action, on_remove(p@)),
{
    match find_file_name(p) {
        Some((i, j)) => {
            let name = vstd::slice::slice_subrange(p, i, j);
            Some(WatchAction::Remove { title: lossy_text(name) })
        },
        None => None,
    }
}

fn modify_action(p: &[u8], dirs: &[ImageDir]) -> (action: Option<WatchAction>)
    ensures
        shows_action(action, on_modify(p@, dir_views(dirs@))),
{
    if !is_supported_path(p) {
        return None;
    }
    match relative_image_key(p, dirs) {
        Some(key) => Some(WatchAction::Refresh { key }),
        None => None,
    }
}

fn push_action(actions: &mut Vec<WatchAction>, action: Option<WatchAction>)
    ensures
        action matches Some(a) ==> action_views(final(actions)@) == action_views(
            old(actions)@,
        ).push(a@),
        action is None ==> final(actions)@ == old(actions)@,
{
    match action {
        Some(a) => {
            let ghost before = action_views(actions@);
            let ghost view = a@;
            actions.push(a);
            assert(action_views(actions@) == before.push(view));
        },
        None => {},
    }
}

/// What there is to do about a report of the file watcher.
pub fn plan_event(event: &WatchEvent, dirs: &[ImageDir]) -> (actions: Vec<WatchAction>)
    ensures
        action_views(actions@) == planned(*event, dir_views(dirs@)),
{
    let mut actions: Vec<WatchAction> = Vec::new();
    let ghost views = dir_views(dirs@);
    match event {
        WatchEvent::Create(paths) => {
            let ghost on = |p: Seq<u8>| on_create(p, views);
            for i in 0..paths.len()
                invariant
                    views == dir_views(dirs@),
                    on == (|p: Seq<u8>| on_create(p, views)),
                    action_views(actions@) == for_each(paths@.take(i as int), on),
            {
                let action = create_action(paths[i].as_slice(), dirs);
                push_action(&mut actions, action);
                assert(paths@.take(i + 1).drop_last() == paths@.take(i as int));
            }
            assert(paths@.take(paths@.len() as int) == paths@);
        },
        WatchEvent::Remove(paths) => {
            let ghost on = |p: Seq<u8>| on_remove(p);
            for i in 0..paths.len()
                invariant
                    on == (|p: Seq<u8>| on_remove(p)),
                    action_views(actions@) == for_each(paths@.take(i as int), on),
            {
                let action = remove_action(paths[i].as_slice());
                push_action(&mut actions, action);
                assert(paths@.take(i + 1).drop_last() == paths@.take(i as int));
            }
            assert(paths@.take(paths@.len() as int) == paths@);
        },
        WatchEvent::Modify(paths) => {
            let ghost on = |p: Seq<u8>| on_modify(p, views);
            if paths.len() > 0 {
                let action = modify_action(paths[0].as_slice(), dirs);
                push_action(&mut actions, action);
                assert(paths@.take(1).drop_last() == Seq::<Vec<u8>>::empty());
                assert(for_each(Seq::<Vec<u8>>::empty(), on) == Seq::<ActionView>::empty());
            }
        },
        WatchEvent::Other => {},
    }
    actions
}

/// What to do next about a new image that could not be loaded yet.
#[derive(Debug, PartialEq, Eq, Structural)]
pub enum LoadStep {
    /// Try to load it; after a failure wait and ask again.
    Try,
    GiveUp,
}

/// Whether loading a new image is tried after the given number of failures.
pub open spec fn is_tried_again(failures: int) -> bool {
    failures < LOAD_ATTEMPTS
}

/// What to do about a new image after the given number of failed attempts: the
/// file may still be being written, so loading it is tried a few times.
pub fn load_step(failures: u32) -> (step: LoadStep)
    ensures
        step is Try <==> failures < LOAD_ATTEMPTS,
        step is Try <==> is_tried_again(failures as int),
{
    if failures < LOAD_ATTEMPTS {
        LoadStep::Try
    } else {
        LoadStep::GiveUp
    }
}

/// The key of a file that a scan of a folder met; none where it is no image
/// file.
pub open spec fn scanned_key(
    p: Seq<u8>,
    is_file: bool,
    dir: (Seq<char>, Seq<u8>),
) -> Option<Seq<char>> {
    if is_file && supported_path(p) {
        key_in(p, dir)
    } else {
        None
    }
}

/// The key of a file that a scan of a folder met.
pub fn scan_key(p: &[u8], is_file: bool, dir: &ImageDir) -> (key: Option<String>)
    ensures
        shows(key, scanned_key(p@, is_file, dir@)),
{
    if is_file && is_supported_path(p) {
        dir_image_key(p, dir)
    } else {
        None
    }
}

/// A scan of the first folder that contains a file and a report of the file's
/// creation lead to the same key.
pub proof fn scan_and_creation_agree(
    p: Seq<u8>,
    dirs: Seq<(Seq<char>, Seq<u8>)>,
    first: int,
    key: Seq<char>,
)
    requires
        0 <= first < dirs.len(),
        below(p, dirs[first].1) is Some,
        forall|i: int| 0 <= i < first ==> below(p, (#[trigger] dirs[i]).1) is None,
    ensures
        scanned_key(p, true, dirs[first]) == Some(key) <==> on_create(p, dirs) == Some(
            ActionView::Load(key),
        ),
{
    key_is_that_of_first_folder(p, dirs, first);
}

/// A removal is reported under the title that the image got when its creation
/// was reported, provided that the path is not one of the folders itself.
pub proof fn creation_and_removal_agree(
    p: Seq<u8>,
    dirs: Seq<(Seq<char>, Seq<u8>)>,
    key: Seq<char>,
)
    requires
        on_create(p, dirs) == Some(ActionView::Load(key)),
        forall|i: int|
            0 <= i < dirs.len() ==> below(p, (#[trigger] dirs[i]).1) != Some(Seq::<u8>::empty()),
    ensures
        file_name(key) is Some,
        on_remove(p) == Some(ActionView::Remove(file_name(key)->0)),
{
    broadcast use {decode_utf8_encode_utf8, encode_utf8_decode_utf8, encode_utf8_valid_utf8};

    let s = decode_utf8(p);
    let title = file_name(s)->0;
    file_name_as_text_and_bytes(s);
    assert(encode_utf8(s) == p);
    let name = encode_utf8(title);
    assert(file_name(p) == Some(name));
    // The part below the folder ends in the file name.
    let d = keyed_path_lies_in_a_folder(p, dirs);
    let dir = dirs[d];
    let n = components(dir.1).len() as int;
    let rel = below(p, dir.1)->0;
    lemma_spans(p);
    let (a, _) = spans(p)[n];
    let (b, c) = spans(p).last();
    assert(components(p).last() == p.subrange(b, c));
    assert(n < spans(p).len()) by {
        if n == components(p).len() {
            assert(rel == Seq::<u8>::empty());
        }
    }
    assert(rel == p.subrange(a, c));
    assert(a <= b) by {
        if n < spans(p).len() - 1 {
            assert(spans(p)[n].1 <= spans(p)[spans(p).len() - 1].0);
        }
    }
    lemma_last_piece(p);
    // So does the key.
    let head = encode_utf8(dir.0);
    lemma_encode_concat(dir.0 + "/"@, decode_utf8(rel));
    lemma_encode_concat(dir.0, "/"@);
    reveal_strlit("/");
    lemma_slash_encoded();
    let k = encode_utf8(key);
    assert(k == head + seq![47u8] + rel);
    let m = head.len() + 1 + (b - a);
    assert(k[m - 1] == 47) by {
        if b > a {
            assert(k[m - 1] == rel[b - a - 1]);
            assert(rel[b - a - 1] == p[b - 1]);
        }
    }
    assert forall|l: int| m <= l < k.len() implies k[l] != 47 by {
        assert(k[l] == rel[l - head.len() - 1]);
        assert(k[l] == p[l - head.len() - 1 + a]);
    }
    assert(k.skip(m) == name);
    file_name_at_end(k, m);
    file_name_as_text_and_bytes(key);
    let from_key = file_name(key)->0;
    assert(encode_utf8(from_key) == name);
    assert(decode_utf8(encode_utf8(from_key)) == decode_utf8(name));
}

/// The last component of a path with a file name holds no separator and follows
/// one, unless it is the whole path.
proof fn lemma_last_piece(p: Seq<u8>)
    requires
        file_name(p) is Some,
    ensures
        ({
            let (b, c) = spans(p).last();
            &&& b == 0 || p[b - 1] == 47
            &&& forall|l: int| b <= l < c ==> p[l] != 47
        }),
{
    lemma_spans(p);
    lemma_span_pieces(p, 0);
    lemma_span_pieces(p, 1);
    let last = spans(p).last();
    if p.len() > 0 && p[0] == 47 {
        let rest = spans_from(p, 1);
        if rest.len() == 0 {
            assert(last == (0int, 1int));
            assert(components(p).last() == seq![47u8]);
        } else {
            assert(last == rest[rest.len() - 1]);
        }
    } else {
        assert(last == spans_from(p, 0)[spans_from(p, 0).len() - 1]);
    }
}

proof fn lemma_slash_encoded()
    ensures
        encode_utf8("/"@) == seq![47u8],
{
    reveal_strlit("/");
    assert("/"@ == seq!['/']);
    vstd::utf8::is_ascii_chars_encode_utf8(seq!['/']);
    assert(encode_utf8(seq!['/']) == seq![47u8]);
}

/// A modification is reported under the key that the creation was.
pub proof fn creation_and_modification_agree(
    p: Seq<u8>,
    dirs: Seq<(Seq<char>, Seq<u8>)>,
    key: Seq<char>,
)
    ensures
        on_create(p, dirs) == Some(ActionView::Load(key)) <==> on_modify(p, dirs) == Some(
            ActionView::Refresh(key),
        ),
{
}

/// A path that is text is one of an image exactly where that text is, whatever
/// characters it holds; a path that is not text never is.
pub proof fn path_is_judged_by_its_text(text: Seq<char>, p: Seq<u8>)
    ensures
        supported_path(encode_utf8(text)) == supported_image(text),
        !valid_utf8(p) ==> !supported_path(p),
{
    broadcast use {decode_utf8_encode_utf8, encode_utf8_decode_utf8, encode_utf8_valid_utf8};

}

/// A file below a configured folder, at whatever depth and under whatever name, is
/// indexed by a scan, loaded when it appears and refreshed when it changes, each
/// time under the folder as displayed, a slash and its path below the folder:
/// exactly where its extension is one of an image.
pub proof fn image_below_a_folder_is_noticed(
    display: Seq<char>,
    folder: Seq<char>,
    rel: Seq<char>,
)
    requires
        encode_utf8(folder).len() > 0,
        ({
            let r = encode_utf8(rel);
            &&& r.len() > 0
            &&& r[0] != 47
            &&& r.last() != 47
            &&& r != seq![46u8]
            &&& !(r.len() >= 2 && r[0] == 46 && r[1] == 47)
            &&& !(r.len() >= 2 && r[r.len() - 2] == 47 && r.last() == 46)
        }),
    ensures
        ({
            let dir = (display, encode_utf8(folder));
            let text = folder + seq!['/'] + rel;
            let p = encode_utf8(text);
            let key = display + seq!['/'] + rel;
            &&& supported_image(text) ==> {
                &&& scanned_key(p, true, dir) == Some(key)
                &&& on_create(p, seq![dir]) == Some(ActionView::Load(key))
                &&& on_modify(p, seq![dir]) == Some(ActionView::Refresh(key))
            }
            &&& !supported_image(text) ==> {
                &&& scanned_key(p, true, dir) is None
                &&& on_create(p, seq![dir]) is None
                &&& on_modify(p, seq![dir]) is None
            }
            &&& scanned_key(p, false, dir) is None
        }),
{
    let dir = (display, encode_utf8(folder));
    let text = folder + seq!['/'] + rel;
    reveal_strlit("/");
    assert("/"@ == seq!['/']);
    lemma_slash_encoded();
    lemma_encode_concat(folder + seq!['/'], rel);
    lemma_encode_concat(folder, seq!['/']);
    assert(encode_utf8(text) == dir.1 + seq![47u8] + encode_utf8(rel));
    path_is_judged_by_its_text(text, encode_utf8(text));
    key_is_the_path_below_the_folder(dir, rel);
}

/// The same of every file that is named like an image: a stem, a dot and `jpg`,
/// `jpeg` or `png` in whatever case.
pub proof fn file_named_like_an_image_is_noticed(
    display: Seq<char>,
    folder: Seq<char>,
    stem: Seq<char>,
    ext: Seq<char>,
    word: Seq<char>,
)
    requires
        encode_utf8(folder).len() > 0,
        stem.len() > 0,
        forall|i: int| 0 <= i < stem.len() ==> stem[i] != '/',
        word == seq!['j', 'p', 'g'] || word == seq!['j', 'p', 'e', 'g'] || word == seq![
            'p',
            'n',
            'g',
        ],
        ext.len() == word.len(),
        forall|i: int|
            0 <= i < word.len() ==> #[trigger] ext[i] == word[i] || ext[i] as int == word[i] as int
                - 32,
    ensures
        ({
            let dir = (display, encode_utf8(folder));
            let name = stem + seq!['.'] + ext;
            let p = encode_utf8(folder + seq!['/'] + name);
            let key = display + seq!['/'] + name;
            &&& scanned_key(p, true, dir) == Some(key)
            &&& on_create(p, seq![dir]) == Some(ActionView::Load(key))
            &&& on_modify(p, seq![dir]) == Some(ActionView::Refresh(key))
            &&& on_remove(p) == Some(ActionView::Remove(name))
        }),
{
    broadcast use {decode_utf8_encode_utf8, encode_utf8_decode_utf8, encode_utf8_valid_utf8};

    let name = stem + seq!['.'] + ext;
    let k = stem.len() as int;
    assert forall|i: int| 0 <= i < ext.len() implies #[trigger] ext[i] != '/' && ext[i]
        != '.' by {
        assert('a' <= word[i] <= 'z');
        assert(ext[i] == word[i] || ext[i] as int == word[i] as int - 32);
    }
    assert forall|i: int| 0 <= i < name.len() implies name[i] != '/' by {
        if i < k {
            assert(name[i] == stem[i]);
        } else if i > k {
            assert(name[i] == ext[i - k - 1]);
        }
    }
    crate::names::image_is_told_by_its_extension(folder, stem, ext);
    assert(supported_image(folder + seq!['/'] + name));
    crate::names::file_name_follows_the_last_slash(folder, name);
    file_name_as_text_and_bytes(name);
    file_name_as_text_and_bytes(folder + seq!['/'] + name);
    let r = encode_utf8(name);
    assert(file_name(r) == Some(r));
    bytes_of_a_text_read_back(name);
    lemma_name_bytes(name);
    image_below_a_folder_is_noticed(display, folder, name);
}

/// The bytes of a name without slashes hold none.
proof fn lemma_name_bytes(name: Seq<char>)
    requires
        name.len() > 1,
        forall|i: int| 0 <= i < name.len() ==> name[i] != '/',
        file_name(encode_utf8(name)) == Some(encode_utf8(name)),
    ensures
        ({
            let r = encode_utf8(name);
            &&& r.len() > 0
            &&& forall|i: int| 0 <= i < r.len() ==> r[i] != 47
            &&& r != seq![46u8]
        }),
{
    let r = encode_utf8(name);
    lemma_last_piece(r);
    lemma_spans(r);
    let (b, c) = spans(r).last();
    assert(components(r).last() == r.subrange(b, c));
    assert(r.subrange(b, c).len() == r.len());
    assert(b == 0 && c == r.len());
}

/// An event about several files is what the events about each of them are, one
/// after the other: no file is passed over and none is handled twice.
pub proof fn files_of_an_event_are_handled_one_by_one(
    all: Vec<Vec<u8>>,
    first: Vec<Vec<u8>>,
    rest: Vec<Vec<u8>>,
    dirs: Seq<(Seq<char>, Seq<u8>)>,
)
    requires
        all@ == first@ + rest@,
    ensures
        planned(WatchEvent::Create(all), dirs) == planned(WatchEvent::Create(first), dirs)
            + planned(WatchEvent::Create(rest), dirs),
        planned(WatchEvent::Remove(all), dirs) == planned(WatchEvent::Remove(first), dirs)
            + planned(WatchEvent::Remove(rest), dirs),
        first@.len() > 0 ==> planned(WatchEvent::Modify(all), dirs) == planned(
            WatchEvent::Modify(first),
            dirs,
        ),
        planned(WatchEvent::Other, dirs) == Seq::<ActionView>::empty(),
{
    lemma_for_each_join(first@, rest@, |p: Seq<u8>| on_create(p, dirs));
    lemma_for_each_join(first@, rest@, |p: Seq<u8>| on_remove(p));
    if first@.len() > 0 {
        assert(all@.take(1) == first@.take(1));
    }
}

proof fn lemma_for_each_join(
    a: Seq<Vec<u8>>,
    b: Seq<Vec<u8>>,
    on: spec_fn(Seq<u8>) -> Option<ActionView>,
)
    ensures
        for_each(a + b, on) == for_each(a, on) + for_each(b, on),
    decreases b.len(),
{
    if b.len() == 0 {
        assert(a + b == a);
    } else {
        lemma_for_each_join(a, b.drop_last(), on);
        assert((a + b).drop_last() == a + b.drop_last());
        assert((a + b).last() == b.last());
    }
}

/// An event about one file is what its path calls for, and nothing where it calls
/// for nothing.
pub proof fn event_about_one_file(paths: Vec<Vec<u8>>, p: Seq<u8>, dirs: Seq<(Seq<char>, Seq<u8>)>)
    requires
        paths@.len() == 1,
        paths@[0]@ == p,
    ensures
        planned(WatchEvent::Create(paths), dirs) == match on_create(p, dirs) {
            Some(action) => seq![action],
            None => Seq::empty(),
        },
        planned(WatchEvent::Remove(paths), dirs) == match on_remove(p) {
            Some(action) => seq![action],
            None => Seq::empty(),
        },
        planned(WatchEvent::Modify(paths), dirs) == match on_modify(p, dirs) {
            Some(action) => seq![action],
            None => Seq::empty(),
        },
{
    assert(paths@.drop_last() == Seq::<Vec<u8>>::empty());
    assert(paths@.take(1) == paths@);
    let on = |q: Seq<u8>| on_create(q, dirs);
    assert(for_each(Seq::<Vec<u8>>::empty(), on) == Seq::<ActionView>::empty());
    let gone = |q: Seq<u8>| on_remove(q);
    assert(for_each(Seq::<Vec<u8>>::empty(), gone) == Seq::<ActionView>::empty());
    let changed = |q: Seq<u8>| on_modify(q, dirs);
    assert(for_each(Seq::<Vec<u8>>::empty(), changed) == Seq::<ActionView>::empty());
    assert(planned(WatchEvent::Create(paths), dirs) == for_each(paths@, on));
    assert(planned(WatchEvent::Remove(paths), dirs) == for_each(paths@, gone));
    assert(planned(WatchEvent::Modify(paths), dirs) == for_each(paths@, changed));
}

/// A new image that lies in no folder is passed over, and so is a changed one.
pub proof fn image_outside_the_folders_is_passed_over(
    p: Seq<u8>,
    dirs: Seq<(Seq<char>, Seq<u8>)>,
)
    requires
        key_among(p, dirs) is None,
    ensures
        on_create(p, dirs) == (if supported_path(p) {
            Some(ActionView::Outside(p))
        } else {
            None
        }),
        on_modify(p, dirs) is None,
{
}

/// An action is seen with its whole key, path or title, and actions in order.
pub proof fn actions_are_seen_in_full(actions: Seq<WatchAction>, i: int)
    requires
        0 <= i < actions.len(),
    ensures
        action_views(actions).len() == actions.len(),
        action_views(actions)[i] == match actions[i] {
            WatchAction::Load { key } => ActionView::Load(key@),
            WatchAction::Outside { path } => ActionView::Outside(path@),
            WatchAction::Remove { title } => ActionView::Remove(title@),
            WatchAction::Refresh { key } => ActionView::Refresh(key@),
        },
{
}

/// A new image is given up after five failures and not before.
pub proof fn five_failures_are_enough(failures: int)
    ensures
        failures <= 4 ==> is_tried_again(failures),
        failures >= 5 ==> !is_tried_again(failures),
{
}

/// A file that is gone is removed by what follows the last slash of its path, in
/// full, whatever its folder and whether or not it is text.
pub proof fn gone_file_is_removed_by_its_name(folder: Seq<u8>, name: Seq<u8>)
    requires
        name.len() > 0,
        name != seq![46u8],
        name != seq![46u8, 46u8],
        forall|i: int| 0 <= i < name.len() ==> name[i] != 47,
    ensures
        on_remove(folder + seq![47u8] + name) == Some(ActionView::Remove(lossy(name))),
{
    let p = folder + seq![47u8] + name;
    let m = folder.len() as int + 1;
    assert(name != seq![47u8]) by {
        assert(name[0] != 47);
    }
    assert forall|k: int| m <= k < p.len() implies p[k] != 47 by {
        assert(p[k] == name[k - m]);
    }
    assert(p.skip(m) == name);
    file_name_at_end(p, m);
}

/// A path of an image that has a key, in whichever of the folders, is loaded under
/// that key when it appears and refreshed under it when it changes, and a scan of
/// a folder gives the key in it; a path of anything else is passed over.
pub proof fn image_is_noticed_under_its_key(
    p: Seq<u8>,
    dirs: Seq<(Seq<char>, Seq<u8>)>,
    dir: (Seq<char>, Seq<u8>),
    key: Seq<char>,
)
    ensures
        supported_path(p) && key_among(p, dirs) == Some(key) ==> on_create(p, dirs) == Some(
            ActionView::Load(key),
        ) && on_modify(p, dirs) == Some(ActionView::Refresh(key)),
        supported_path(p) ==> scanned_key(p, true, dir) == key_in(p, dir),
        !supported_path(p) ==> on_create(p, dirs) is None && on_modify(p, dirs) is None
            && scanned_key(p, true, dir) is None,
        scanned_key(p, false, dir) is None,
{
}

} // verus!
