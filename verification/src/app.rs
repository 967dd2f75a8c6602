//! The values that the gallery works on.
use std::sync::Arc;
use vstd::prelude::*;

pub use crate::cache::{PreviewCache, PreviewKey};
use crate::dirs::shows;
use crate::names::text_file_name;
use crate::path::file_name;
use crate::text::same;

verus! {

/// Query parameters of the image endpoint.
#[derive(Debug)]
pub struct ImageParams {
    /// Request a scaled preview at this width (px). Omit to get the raw source.
    pub w: Option<i32>,
    /// Explicitly request the raw, unmodified source file. Accepted as a bare
    /// `?orig` (no value) or `?orig=true`; `false` and `0` fall through to
    /// normal handling.
    pub orig: Option<String>,
}

impl ImageParams {
    /// Whether the raw source file is asked for explicitly.
    pub open spec fn original(self) -> bool {
        match self.orig {
            Some(s) => s@ != "false"@ && s@ != "0"@,
            None => false,
        }
    }

    /// Whether the raw source file is asked for explicitly.
    pub fn wants_original(&self) -> (wanted: bool)
        ensures
            wanted == self.original(),
    {
        match &self.orig {
            Some(s) => !same(s, "false") && !same(s, "0"),
            None => false,
        }
    }
}

/// A moment in time: seconds since the Unix epoch and nanoseconds past them.
#[derive(Clone, Copy, Debug, PartialEq, Eq, Structural, Hash)]
pub struct Mtime {
    pub secs: i64,
    pub nanos: u32,
}

impl Mtime {
    /// Whether `self` is `other` or a later moment.
    pub open spec fn at_or_after(self, other: Mtime) -> bool {
        self.secs > other.secs || (self.secs == other.secs && self.nanos >= other.nanos)
    }
}

/// One indexed image.
#[derive(Clone, Debug)]
pub struct ImageFile {
    /// The key `<dir>/<file>`.
    pub path: String,
    /// The file name.
    pub title: Option<String>,
    pub width: i32,
    pub height: i32,
    pub modified_at: Option<Mtime>,
}

impl ImageFile {
    /// Whether the image has the given title.
    pub open spec fn titled(&self, title: Seq<char>) -> bool {
        self.title matches Some(t) && t@ == title
    }

    /// Whether the image is the one of the file at `path`, as far as could be read
    /// of it.
    pub open spec fn describes(
        &self,
        path: Seq<char>,
        dimensions: Option<(i32, i32)>,
        modified_at: Option<Mtime>,
    ) -> bool {
        &&& dimensions == Some((self.width, self.height))
        &&& self.path@ == path
        &&& self.title_view() == file_name(path)
        &&& self.modified_at == modified_at
    }

    /// The title as text.
    pub open spec fn title_view(&self) -> Option<Seq<char>> {
        match self.title {
            Some(t) => Some(t@),
            None => None,
        }
    }
}

impl Default for ImageFile {
    fn default() -> (image: ImageFile)
        ensures
            image.path@ == Seq::<char>::empty(),
            image.title is None,
            image.width == 0,
            image.height == 0,
            image.modified_at is None,
    {
        ImageFile { path: String::new(), title: None, width: 0, height: 0, modified_at: None }
    }
}

/// Describes an image file from what could be read of it: nothing where its
/// dimensions could not be decoded, and otherwise an image whose title is the
/// file name of its path.
pub fn load_image_info(
    path_str: &str,
    dimensions: Option<(i32, i32)>,
    modified_at: Option<Mtime>,
) -> (image: Option<Arc<ImageFile>>)
    ensures
        match image {
            Some(i) => {
                &&& dimensions == Some((i.width, i.height))
                &&& i.path@ == path_str@
                &&& shows(i.title, file_name(path_str@))
                &&& i.modified_at == modified_at
            },
            None => dimensions is None,
        },
        image matches Some(i) ==> i.describes(path_str@, dimensions, modified_at),
{
    match dimensions {
        Some((width, height)) => {
            let path = path_str.to_owned();
            let title = text_file_name(path_str);
            Some(Arc::new(ImageFile { path, title, width, height, modified_at }))
        },
        None => None,
    }
}

/// The response to an upload: the names under which files were saved, and what
/// went wrong with the others.
#[derive(Debug)]
pub struct UploadResponse {
    pub saved: Vec<String>,
    pub errors: Vec<String>,
}

/// The raw source is asked for by every value of the parameter but two, and not
/// where the parameter is missing.
pub proof fn original_is_asked_for_by_any_other_value(params: ImageParams)
    ensures
        params.orig is None ==> !params.original(),
        params.orig matches Some(t) ==> (params.original() <==> t@ != seq![
            'f',
            'a',
            'l',
            's',
            'e',
        ] && t@ != seq!['0']),
{
    reveal_strlit("false");
    reveal_strlit("0");
    assert("false"@ == seq!['f', 'a', 'l', 's', 'e']);
    assert("0"@ == seq!['0']);
}

/// An image has a title exactly where its own title reads the same, character for
/// character.
pub proof fn title_counts_in_full(image: ImageFile, title: Seq<char>)
    ensures
        image.titled(title) <==> (image.title matches Some(t) && t@.len() == title.len()
            && forall|i: int| 0 <= i < title.len() ==> t@[i] == title[i]),
        image.title_view() == Some(title) <==> image.titled(title),
        image.title_view() is None <==> image.title is None,
{
    if let Some(t) = image.title {
        if t@.len() == title.len() && forall|i: int| 0 <= i < title.len() ==> t@[i] == title[i] {
            assert(t@ == title);
        }
    }
}

/// Of two moments one is at or after the other; both are only where they are the
/// same; and a later second is later whatever the nanoseconds.
pub proof fn moments_are_in_order(a: Mtime, b: Mtime, c: Mtime)
    ensures
        a.at_or_after(b) || b.at_or_after(a),
        a.at_or_after(b) && b.at_or_after(a) ==> a == b,
        a.at_or_after(b) && b.at_or_after(c) ==> a.at_or_after(c),
        a.secs > b.secs ==> a.at_or_after(b),
        a.secs == b.secs && a.nanos > b.nanos ==> a.at_or_after(b),
{
}

/// An image carries the path, the dimensions and the time of its file, and its
/// title is what follows the last slash of the path, in full.
pub proof fn image_is_titled_by_its_file_name(
    image: ImageFile,
    folder: Seq<char>,
    name: Seq<char>,
    width: i32,
    height: i32,
    modified_at: Option<Mtime>,
)
    requires
        image.describes(folder + seq!['/'] + name, Some((width, height)), modified_at),
        name.len() > 0,
        name != seq!['.'],
        name != seq!['.', '.'],
        forall|i: int| 0 <= i < name.len() ==> name[i] != '/',
    ensures
        image.path@ == folder + seq!['/'] + name,
        image.title matches Some(t) && t@ == name,
        image.width == width,
        image.height == height,
        image.modified_at == modified_at,
{
    crate::names::file_name_follows_the_last_slash(folder, name);
}

} // verus!
