//! File names of images: which are served, how uploads are named and placed.
use chrono::{Datelike, Timelike};
use vstd::prelude::*;

use crate::path::{
    appended_name_is_one_more_component, components, extension, file_name, file_name_at_end,
    find_file_name, is_name, lemma_last_span, root_is_one_component, trailing_dot_is_ignored,
    trailing_separator_is_ignored,
};
use crate::text::{
    chars_of, decimal_nat, last_dot, last_index, lemma_decimal_nat_injective, lemma_digits,
    lemma_last_index, lemma_padded, lemma_two_digits, number_of, padded, padded_number_reads_back, push_nat, push_padded, same,
    string_of, trim_end, trim_start, trimming_takes_back_what_was_appended,
    trimming_the_end_cuts_only_the_run, trimming_the_start_cuts_only_the_run,
    without_outer_underscores, without_trailing_slashes,
};

verus! {

/// The lower-case form of an ASCII letter; any other character as it is.
pub open spec fn lower(c: char) -> char {
    if 'A' <= c <= 'Z' {
        (c as int + 32) as char
    } else {
        c
    }
}

/// A text with its ASCII letters in lower case.
pub open spec fn ascii_lower(s: Seq<char>) -> Seq<char> {
    Seq::new(s.len(), |i: int| lower(s[i]))
}

/// Whether a path names an image that the gallery handles: its extension is
/// `jpg`, `jpeg` or `png` in any case.
pub open spec fn supported_image(name: Seq<char>) -> bool {
    match extension(name) {
        Some(e) => {
            ||| ascii_lower(e) == "jpg"@
            ||| ascii_lower(e) == "jpeg"@
            ||| ascii_lower(e) == "png"@
        },
        None => false,
    }
}

/// The characters that stay in an uploaded file name.
pub open spec fn is_safe(c: char) -> bool {
    ||| 'a' <= c <= 'z'
    ||| 'A' <= c <= 'Z'
    ||| '0' <= c <= '9'
    ||| c == '.'
    ||| c == '_'
    ||| c == '-'
}

/// A text with every unsafe character replaced by an underscore.
pub open spec fn masked(s: Seq<char>) -> Seq<char> {
    Seq::new(
        s.len(),
        |i: int|
            if is_safe(s[i]) {
                s[i]
            } else {
                '_'
            },
    )
}

/// The basename of a path, or nothing where it has none.
pub open spec fn base_name(name: Seq<char>) -> Seq<char> {
    match file_name(name) {
        Some(b) => b,
        None => Seq::empty(),
    }
}

/// The name under which an upload is stored: the basename with unsafe
/// characters masked and the underscores at either end dropped, or `upload`
/// where nothing is left, or only what stands for a folder.
pub open spec fn sanitized(name: Seq<char>) -> Seq<char> {
    let kept = trim_end(trim_start(masked(base_name(name)), '_'), '_');
    if kept.len() == 0 || kept == "."@ || kept == ".."@ {
        "upload"@
    } else {
        kept
    }
}

/// The path of the file `filename` in the folder `dir`.
pub open spec fn image_path_spec(dir: Seq<char>, filename: Seq<char>) -> Seq<char> {
    trim_end(dir, '/') + "/"@ + filename
}

/// A file name with a time stamp at its end: before the extension, which is
/// written in lower case, where the name has a dot.
pub open spec fn stamped_name(filename: Seq<char>, stamp: Seq<char>) -> Seq<char> {
    let k = last_index(filename, '.');
    if k >= 0 {
        filename.take(k) + "_"@ + stamp + "."@ + ascii_lower(filename.skip(k + 1))
    } else {
        filename + "_"@ + stamp
    }
}

/// The path that an upload takes where the plain one is in use.
pub open spec fn stamped_path_spec(
    dir: Seq<char>,
    filename: Seq<char>,
    stamp: Seq<char>,
) -> Seq<char> {
    image_path_spec(dir, stamped_name(filename, stamp))
}

/// A time stamp with the number of a further attempt.
pub open spec fn numbered(stamp: Seq<char>, attempt: nat) -> Seq<char> {
    if attempt == 0 {
        stamp
    } else {
        stamp + "_"@ + decimal_nat(attempt)
    }
}

/// The path that is tried for an upload after `attempt` stamped paths were found
/// in use.
pub open spec fn attempt_path(
    dir: Seq<char>,
    filename: Seq<char>,
    stamp: Seq<char>,
    attempt: nat,
) -> Seq<char> {
    stamped_path_spec(dir, filename, numbered(stamp, attempt))
}

/// Whether a path is one of those in use.
pub open spec fn occupied(existing: Seq<String>, path: Seq<char>) -> bool {
    exists|i: int| 0 <= i < existing.len() && (#[trigger] existing[i])@ == path
}

/// Whether a path is the first of the stamped ones that is not in use.
pub open spec fn is_first_free(
    path: Seq<char>,
    dir: Seq<char>,
    filename: Seq<char>,
    stamp: Seq<char>,
    existing: Seq<String>,
    attempt: nat,
) -> bool {
    &&& path == attempt_path(dir, filename, stamp, attempt)
    &&& !occupied(existing, path)
    &&& forall|m: nat|
        m < attempt ==> occupied(existing, #[trigger] attempt_path(dir, filename, stamp, m))
}

/// Whether a character is a decimal digit.
pub open spec fn is_digit(c: char) -> bool {
    '0' <= c <= '9'
}

/// The shape of a time stamp `YYYYMMDD_HHMMSS`. A year outside 0 to 9999 is
/// written with a sign and as many digits as it needs.
pub open spec fn is_stamp(s: Seq<char>) -> bool {
    let n = s.len() as int;
    &&& n >= 15
    &&& s[n - 7] == '_'
    &&& is_digit(s[0]) || s[0] == '+' || s[0] == '-'
    &&& forall|i: int| 1 <= i < n && i != n - 7 ==> is_digit(#[trigger] s[i])
}

/// A reading of the clock in local time.
#[derive(Clone, Copy, Debug, PartialEq, Eq, Structural)]
pub struct Clock {
    pub year: i32,
    pub month: u32,
    pub day: u32,
    pub hour: u32,
    pub minute: u32,
    pub second: u32,
}

impl Clock {
    /// Whether each field is within its range.
    pub open spec fn in_range(self) -> bool {
        &&& 1 <= self.month <= 12
        &&& 1 <= self.day <= 31
        &&& self.hour < 24
        &&& self.minute < 60
        &&& self.second < 60
    }
}

/// A year as a time stamp shows it.
pub open spec fn year_text(year: int) -> Seq<char> {
    if year < 0 {
        "-"@ + padded((-year) as nat, 4)
    } else if year <= 9999 {
        padded(year as nat, 4)
    } else {
        "+"@ + padded(year as nat, 4)
    }
}

/// The time stamp `YYYYMMDD_HHMMSS` of a reading of the clock.
pub open spec fn stamp_of(clock: Clock) -> Seq<char> {
    year_text(clock.year as int) + padded(clock.month as nat, 2) + padded(clock.day as nat, 2)
        + "_"@ + padded(clock.hour as nat, 2) + padded(clock.minute as nat, 2) + padded(
        clock.second as nat,
        2,
    )
}

/// Whether a path is the first of the stamped ones that is not in use, at the
/// time of a reading of the clock.
pub open spec fn is_path_at(
    path: Seq<char>,
    dir: Seq<char>,
    filename: Seq<char>,
    clock: Clock,
    existing: Seq<String>,
) -> bool {
    &&& clock.in_range()
    &&& exists|attempt: nat| #[trigger]
        is_first_free(path, dir, filename, stamp_of(clock), existing, attempt)
}

/// The time stamp of a reading of the clock.
pub fn clock_stamp(clock: Clock) -> (stamp: String)
    ensures
        stamp@ == stamp_of(clock),
{
    let year: i64 = clock.year as i64;
    let mut out = String::new();
    if year < 0 {
        out.append("-");
        push_padded(&mut out, (-year) as u64, 4);
    } else {
        if year > 9999 {
            out.append("+");
        }
        push_padded(&mut out, year as u64, 4);
    }
    assert(out@ == year_text(clock.year as int));
    push_padded(&mut out, clock.month as u64, 2);
    push_padded(&mut out, clock.day as u64, 2);
    out.append("_");
    push_padded(&mut out, clock.hour as u64, 2);
    push_padded(&mut out, clock.minute as u64, 2);
    push_padded(&mut out, clock.second as u64, 2);
    out
}

/// The stamp of a reading within range has the shape of a time stamp.
pub proof fn stamp_has_its_shape(clock: Clock)
    requires
        clock.in_range(),
    ensures
        is_stamp(stamp_of(clock)),
{
    reveal_strlit("_");
    reveal_strlit("-");
    reveal_strlit("+");
    let y = clock.year as int;
    let size: nat = if y < 0 {
        (-y) as nat
    } else {
        y as nat
    };
    lemma_padded(size, 4);
    lemma_padded(clock.month as nat, 2);
    lemma_padded(clock.day as nat, 2);
    lemma_padded(clock.hour as nat, 2);
    lemma_padded(clock.minute as nat, 2);
    lemma_padded(clock.second as nat, 2);
    lemma_two_digits(clock.month as nat);
    lemma_two_digits(clock.day as nat);
    lemma_two_digits(clock.hour as nat);
    lemma_two_digits(clock.minute as nat);
    lemma_two_digits(clock.second as nat);
    let year = year_text(y);
    let s = stamp_of(clock);
    let k = year.len() as int;
    assert(s.len() == k + 11);
    assert forall|i: int| 1 <= i < k implies is_digit(#[trigger] year[i]) by {
        let digits = padded(size, 4);
        if y < 0 || y > 9999 {
            assert(year[i] == digits[i - 1]);
        } else {
            assert(year[i] == digits[i]);
        }
    }
    assert(s[0] == year[0]);
    assert forall|i: int| 1 <= i < s.len() && i != s.len() - 7 implies is_digit(
        #[trigger] s[i],
    ) by {
        if i < k {
            assert(s[i] == year[i]);
        } else if i < k + 2 {
            assert(s[i] == padded(clock.month as nat, 2)[i - k]);
        } else if i < k + 4 {
            assert(s[i] == padded(clock.day as nat, 2)[i - k - 2]);
        } else if i < k + 7 {
            assert(s[i] == padded(clock.hour as nat, 2)[i - k - 5]);
        } else if i < k + 9 {
            assert(s[i] == padded(clock.minute as nat, 2)[i - k - 7]);
        } else {
            assert(s[i] == padded(clock.second as nat, 2)[i - k - 9]);
        }
    }
}

/// A text with its ASCII letters in lower case.
fn to_lower(chars: &Vec<char>, from: usize) -> (out: String)
    requires
        from <= chars@.len(),
    ensures
        out@ == ascii_lower(chars@.skip(from as int)),
{
    let mut out = String::new();
    for i in from..chars.len()
        invariant
            from <= chars@.len(),
            out@ == ascii_lower(chars@.skip(from as int)).take(i - from),
    {
        let c: char = chars[i];
        if 'A' <= c && c <= 'Z' {
            out.push((c as u8 + 32) as char);
        } else {
            out.push(c);
        }
    }
    assert(out@ == ascii_lower(chars@.skip(from as int)));
    out
}

/// The file name of a text path.
pub fn text_file_name(path: &str) -> (name: Option<String>)
    ensures
        match name {
            Some(n) => file_name(path@) == Some(n@),
            None => file_name(path@) is None,
        },
{
    let chars = chars_of(path);
    match find_file_name(chars.as_slice()) {
        Some((i, j)) => {
            let mut out: Vec<char> = Vec::new();
            for k in i..j
                invariant
                    i < j <= chars@.len(),
                    out@ == chars@.subrange(i as int, k as int),
            {
                out.push(chars[k]);
            }
            Some(string_of(out.as_slice()))
        },
        None => None,
    }
}

/// Whether a path names an image that the gallery handles.
pub fn is_supported_image_ext(name: &str) -> (supported: bool)
    ensures
        supported == supported_image(name@),
{
    match text_file_name(name) {
        Some(n) => {
            let chars = chars_of(&n);
            proof {
                lemma_last_index(chars@, '.');
            }
            match last_dot(&chars) {
                Some(k) => {
                    if k == 0 {
                        return false;
                    }
                    let ext = to_lower(&chars, k + 1);
                    same(&ext, "jpg") || same(&ext, "jpeg") || same(&ext, "png")
                },
                None => false,
            }
        },
        None => false,
    }
}

/// Makes an uploaded file name safe to use directly on disk: only the basename
/// is kept, `[A-Za-z0-9._-]` stay, everything else becomes `_`.
pub fn sanitize_filename(name: &str) -> (out: String)
    ensures
        out@ == sanitized(name@),
{
    let base = match text_file_name(name) {
        Some(b) => b,
        None => String::new(),
    };
    assert(base@ == base_name(name@));
    let chars = chars_of(&base);
    let mut mask: Vec<char> = Vec::new();
    for i in 0..chars.len()
        invariant
            chars@ == base@,
            mask@ == masked(base@).take(i as int),
    {
        let c: char = chars[i];
        let safe = ('a' <= c && c <= 'z') || ('A' <= c && c <= 'Z') || ('0' <= c && c <= '9') || c
            == '.' || c == '_' || c == '-';
        if safe {
            mask.push(c);
        } else {
            mask.push('_');
        }
    }
    assert(mask@ == masked(base@));
    let kept = string_of(without_outer_underscores(&mask).as_slice());
    proof {
        reveal_strlit("");
        assert(kept@.len() == 0 ==> kept@ == ""@);
    }
    if same(&kept, "") || same(&kept, ".") || same(&kept, "..") {
        "upload".to_owned()
    } else {
        kept
    }
}

/// The file name of a path, or the path itself where it has none.
pub open spec fn name_at(path: Seq<char>) -> Seq<char> {
    match file_name(path) {
        Some(n) => n,
        None => path,
    }
}

/// The file name of a path, or the path itself where it has none.
pub fn file_name_of(path: &str) -> (name: String)
    ensures
        name@ == match file_name(path@) {
            Some(n) => n,
            None => path@,
        },
        name@ == name_at(path@),
{
    match text_file_name(path) {
        Some(n) => n,
        None => path.to_owned(),
    }
}

/// The path of the file `filename` in the folder `dir`.
pub fn image_path(dir: &str, filename: &str) -> (path: String)
    ensures
        path@ == image_path_spec(dir@, filename@),
{
    let mut out = without_trailing_slashes(dir);
    out.append("/");
    out.append(filename);
    out
}

/// The path that an upload takes where the plain one is in use.
pub fn stamped_image_path(dir: &str, filename: &str, stamp: &str) -> (path: String)
    ensures
        path@ == stamped_path_spec(dir@, filename@, stamp@),
{
    let chars = chars_of(filename);
    let mut name = String::new();
    match last_dot(&chars) {
        Some(k) => {
            for i in 0..k
                invariant
                    k < chars@.len(),
                    name@ == chars@.take(i as int),
            {
                name.push(chars[i]);
            }
            name.append("_");
            name.append(stamp);
            name.append(".");
            name.append(&to_lower(&chars, k + 1));
        },
        None => {
            name.append(filename);
            name.append("_");
            name.append(stamp);
        },
    }
    assert(name@ == stamped_name(filename@, stamp@));
    image_path(dir, &name)
}

/// The current local time, from `chrono::Local::now` and the accessors of
/// `chrono::DateTime` for its fields. Only the ranges of the fields are claimed;
/// which moment they tell is up to the machine's clock and time zone. chrono
/// panics where that clock stands before the Unix epoch.
#[verifier::external_body]
fn local_clock() -> (clock: Clock)
    ensures
        clock.in_range(),
{
    let now = chrono::Local::now();
    Clock {
        year: now.year(),
        month: now.month(),
        day: now.day(),
        hour: now.hour(),
        minute: now.minute(),
        second: now.second(),
    }
}

fn is_occupied(existing: &[String], path: &str) -> (found: bool)
    ensures
        found == occupied(existing@, path@),
{
    for i in 0..existing.len()
        invariant
            forall|k: int| 0 <= k < i ==> (#[trigger] existing@[k])@ != path@,
    {
        if same(&existing[i], path) {
            assert(existing@[i as int]@ == path@);
            return true;
        }
    }
    false
}

/// Picks a path inside `dir` that is not in use, for an upload at the time of the
/// given stamp: the stamped path, and where that is in use the first one with a
/// number behind the stamp.
pub fn free_image_path(dir: &str, filename: &str, stamp: &str, existing: &[String]) -> (path:
    String)
    ensures
        exists|attempt: nat| #[trigger]
            is_first_free(path@, dir@, filename@, stamp@, existing@, attempt),
{
    let limit: usize = existing.len();
    let mut attempt: usize = 0;
    let mut path = stamped_image_path(dir, filename, stamp);
    while is_occupied(existing, &path)
        invariant
            limit == existing@.len(),
            attempt <= limit,
            path@ == attempt_path(dir@, filename@, stamp@, attempt as nat),
            forall|m: nat|
                m < attempt ==> occupied(
                    existing@,
                    #[trigger] attempt_path(dir@, filename@, stamp@, m),
                ),
        decreases limit - attempt,
    {
        proof {
            lemma_some_attempt_is_free(dir@, filename@, stamp@, existing@);
            assert(attempt < limit);
        }
        attempt = attempt + 1;
        let mut text = stamp.to_owned();
        text.append("_");
        push_nat(&mut text, attempt as u64);
        path = stamped_image_path(dir, filename, &text);
    }
    assert(is_first_free(path@, dir@, filename@, stamp@, existing@, attempt as nat));
    path
}

/// Picks a path inside `dir` that is not in use, for an upload at the time of the
/// given reading of the clock.
pub fn image_path_at(dir: &str, filename: &str, clock: Clock, existing: &[String]) -> (path: String)
    ensures
        exists|attempt: nat| #[trigger]
            is_first_free(path@, dir@, filename@, stamp_of(clock), existing@, attempt),
{
    let stamp = clock_stamp(clock);
    free_image_path(dir, filename, &stamp, existing)
}

/// Picks a target path inside `dir` for an upload that is none of the paths in
/// use: the plain path where it is free, and one with a time stamp where it is
/// not.
pub fn unique_image_path(dir: &str, filename: &str, existing: &[String]) -> (path: String)
    ensures
        forall|i: int| 0 <= i < existing@.len() ==> (#[trigger] existing@[i])@ != path@,
        !occupied(existing@, image_path_spec(dir@, filename@)) ==> path@ == image_path_spec(
            dir@,
            filename@,
        ),
        occupied(existing@, image_path_spec(dir@, filename@)) ==> exists|clock: Clock| #[trigger]
            is_path_at(path@, dir@, filename@, clock, existing@),
{
    let plain = image_path(dir, filename);
    if is_occupied(existing, &plain) {
        let clock = local_clock();
        let path = image_path_at(dir, filename, clock, existing);
        assert(is_path_at(path@, dir@, filename@, clock, existing@));
        path
    } else {
        plain
    }
}

/// Among more stamped paths than there are paths in use, one is free.
proof fn lemma_some_attempt_is_free(
    dir: Seq<char>,
    filename: Seq<char>,
    stamp: Seq<char>,
    existing: Seq<String>,
)
    ensures
        exists|m: nat|
            m <= existing.len() && !occupied(
                existing,
                #[trigger] attempt_path(dir, filename, stamp, m),
            ),
{
    let tried = Seq::new(
        existing.len() + 1,
        |m: int| attempt_path(dir, filename, stamp, m as nat),
    );
    let used = Seq::new(existing.len(), |i: int| existing[i]@);
    if forall|m: nat|
        m <= existing.len() ==> occupied(existing, #[trigger] attempt_path(dir, filename, stamp, m)) {
        assert forall|i: int, j: int| 0 <= i < j < tried.len() implies tried[i] != tried[j] by {
            attempts_give_different_paths(dir, filename, stamp, i as nat, j as nat);
        }
        tried.unique_seq_to_set();
        used.lemma_cardinality_of_set();
        assert forall|p: Seq<char>| tried.to_set().contains(p) implies used.to_set().contains(
            p,
        ) by {
            let m = choose|m: int| 0 <= m < tried.len() && tried[m] == p;
            assert(occupied(existing, attempt_path(dir, filename, stamp, m as nat)));
            let i = choose|i: int| 0 <= i < existing.len() && (#[trigger] existing[i])@ == p;
            assert(used[i] == p);
        }
        vstd::seq_lib::seq_to_set_is_finite(used);
        vstd::set_lib::lemma_len_subset(tried.to_set(), used.to_set());
    }
}

/// An upload that clashes with nothing but the file at its plain path gets that
/// path with the time stamp and no number.
pub proof fn lone_clash_takes_no_number(
    path: Seq<char>,
    dir: Seq<char>,
    filename: Seq<char>,
    stamp: Seq<char>,
    existing: Seq<String>,
    attempt: nat,
)
    requires
        is_first_free(path, dir, filename, stamp, existing, attempt),
        forall|i: int|
            0 <= i < existing.len() ==> (#[trigger] existing[i])@ == image_path_spec(dir, filename),
    ensures
        path == stamped_path_spec(dir, filename, stamp),
{
    stamped_path_is_another(dir, filename, stamp);
    if attempt > 0 {
        assert(occupied(existing, attempt_path(dir, filename, stamp, 0)));
    }
}

/// Further attempts at the same time give different paths.
pub proof fn attempts_give_different_paths(
    dir: Seq<char>,
    filename: Seq<char>,
    stamp: Seq<char>,
    attempt: nat,
    other: nat,
)
    requires
        attempt != other,
    ensures
        attempt_path(dir, filename, stamp, attempt) != attempt_path(dir, filename, stamp, other),
{
    reveal_strlit("_");
    let a = numbered(stamp, attempt);
    let b = numbered(stamp, other);
    let n = stamp.len() as int + 1;
    if a == b {
        assert(attempt != 0 && other != 0);
        assert(a.skip(n) == decimal_nat(attempt));
        assert(b.skip(n) == decimal_nat(other));
        lemma_decimal_nat_injective(attempt, other);
    }
    stamps_tell_uploads_apart(dir, filename, a, b);
}

/// A path with a time stamp is never the plain path.
pub proof fn stamped_path_is_another(dir: Seq<char>, filename: Seq<char>, stamp: Seq<char>)
    ensures
        stamped_path_spec(dir, filename, stamp) != image_path_spec(dir, filename),
{
    lemma_last_index(filename, '.');
    reveal_strlit("/");
    reveal_strlit("_");
    reveal_strlit(".");
    assert(stamped_path_spec(dir, filename, stamp).len() > image_path_spec(dir, filename).len());
}

/// Two uploads of the same name whose time stamps differ get different paths.
pub proof fn stamps_tell_uploads_apart(
    dir: Seq<char>,
    filename: Seq<char>,
    stamp: Seq<char>,
    other: Seq<char>,
)
    requires
        stamp != other,
    ensures
        stamped_path_spec(dir, filename, stamp) != stamped_path_spec(dir, filename, other),
{
    lemma_last_index(filename, '.');
    let k = last_index(filename, '.');
    let folder = trim_end(dir, '/') + "/"@;
    let (before, after) = if k >= 0 {
        (folder + filename.take(k) + "_"@, "."@ + ascii_lower(filename.skip(k + 1)))
    } else {
        (folder + filename + "_"@, Seq::<char>::empty())
    };
    let p = stamped_path_spec(dir, filename, stamp);
    let q = stamped_path_spec(dir, filename, other);
    assert(p == before + stamp + after);
    assert(q == before + other + after);
    let n = before.len() as int;
    assert(stamp == p.subrange(n, p.len() - after.len()));
    assert(other == q.subrange(n, q.len() - after.len()));
}

proof fn lemma_trim_end_part(s: Seq<char>, c: char)
    ensures
        trim_end(s, c).len() <= s.len(),
        trim_end(s, c) == s.take(trim_end(s, c).len() as int),
        trim_end(s, c).len() > 0 ==> trim_end(s, c).last() != c,
    decreases s.len(),
{
    if s.len() > 0 && s.last() == c {
        lemma_trim_end_part(s.drop_last(), c);
        let n = trim_end(s, c).len() as int;
        assert(s.drop_last().take(n) == s.take(n));
    } else {
        assert(s == s.take(s.len() as int));
    }
}

proof fn lemma_trim_start_part(s: Seq<char>, c: char)
    ensures
        trim_start(s, c).len() <= s.len(),
        trim_start(s, c) == s.skip(s.len() - trim_start(s, c).len()),
        trim_start(s, c).len() > 0 ==> trim_start(s, c).first() != c,
    decreases s.len(),
{
    if s.len() > 0 && s.first() == c {
        lemma_trim_start_part(s.drop_first(), c);
        let n = trim_start(s, c).len() as int;
        assert(s.drop_first().skip(s.len() - 1 - n) == s.skip(s.len() - n));
    } else {
        assert(s == s.skip(0));
    }
}

/// A stored name is never empty, holds safe characters only, and neither starts
/// nor ends with an underscore. In particular it holds no separator.
pub proof fn sanitized_is_safe(name: Seq<char>)
    ensures
        sanitized(name).len() > 0,
        forall|i: int| 0 <= i < sanitized(name).len() ==> is_safe(#[trigger] sanitized(name)[i]),
        sanitized(name).first() != '_',
        sanitized(name).last() != '_',
{
    reveal_strlit("upload");
    let m = masked(base_name(name));
    let left = trim_start(m, '_');
    let kept = trim_end(left, '_');
    lemma_trim_start_part(m, '_');
    lemma_trim_end_part(left, '_');
    assert forall|i: int| 0 <= i < sanitized(name).len() implies is_safe(
        #[trigger] sanitized(name)[i],
    ) by {
        if sanitized(name) == kept {
            assert(kept[i] == left[i]);
            assert(left[i] == m[i + m.len() - left.len()]);
        }
    }
    if sanitized(name) == kept {
        assert(kept[0] == left[0]);
    }
}

/// The name of a file in a folder is the file name of its path.
pub proof fn file_name_in_folder(folder: Seq<char>, name: Seq<char>)
    requires
        is_name(name),
        forall|i: int| 0 <= i < name.len() ==> name[i] != '/',
    ensures
        file_name(folder + "/"@ + name) == Some(name),
{
    reveal_strlit("/");
    let p = folder + "/"@ + name;
    let m: int = folder.len() as int + 1;
    assert(p[m - 1] == '/');
    assert forall|k: int| m <= k < p.len() implies p[k] != '/' by {
        assert(p[k] == name[k - m]);
    }
    assert(p.skip(m) == name);
    file_name_at_end(p, m);
}

/// An ordinary name without separators is its own file name.
proof fn lemma_plain_name(name: Seq<char>)
    requires
        is_name(name),
        forall|i: int| 0 <= i < name.len() ==> name[i] != '/',
    ensures
        file_name(name) == Some(name),
{
    lemma_last_span(name, 0, 0);
    assert(name.subrange(0, name.len() as int) == name);
}

/// Every stored name is one ordinary path component: it is its own file name, it
/// holds no separator, and it is neither `.` nor `..`.
pub proof fn sanitized_is_a_name(name: Seq<char>)
    ensures
        is_name(sanitized(name)),
        file_name(sanitized(name)) == Some(sanitized(name)),
        forall|i: int| 0 <= i < sanitized(name).len() ==> #[trigger] sanitized(name)[i] != '/',
{
    reveal_strlit("upload");
    reveal_strlit(".");
    reveal_strlit("..");
    let stored = sanitized(name);
    sanitized_is_safe(name);
    assert forall|i: int| 0 <= i < stored.len() implies #[trigger] stored[i] != '/' by {
        assert(is_safe(stored[i]));
    }
    assert("."@ == seq!['.']);
    assert(".."@ == seq!['.', '.']);
    assert(stored != seq!['/']) by {
        assert(is_safe(stored[0]));
    }
    lemma_plain_name(stored);
}

/// Every upload is stored directly in the upload folder, under its sanitized
/// name, and it is an image there where it is one by that name.
pub proof fn upload_lands_in_folder(dir: Seq<char>, raw_name: Seq<char>)
    ensures
        file_name(image_path_spec(dir, sanitized(raw_name))) == Some(sanitized(raw_name)),
        supported_image(image_path_spec(dir, sanitized(raw_name))) == supported_image(
            sanitized(raw_name),
        ),
{
    sanitized_is_a_name(raw_name);
    file_name_in_folder(trim_end(dir, '/'), sanitized(raw_name));
}

/// What a time stamp with the number of an attempt is made of.
proof fn lemma_numbered(stamp: Seq<char>, attempt: nat)
    requires
        is_stamp(stamp),
    ensures
        numbered(stamp, attempt).len() > 0,
        forall|i: int|
            0 <= i < numbered(stamp, attempt).len() ==> #[trigger] numbered(stamp, attempt)[i]
                != '/' && numbered(stamp, attempt)[i] != '.',
{
    reveal_strlit("_");
    lemma_digits(attempt);
    let t = numbered(stamp, attempt);
    let n = stamp.len() as int;
    assert forall|i: int| 0 <= i < t.len() implies #[trigger] t[i] != '/' && t[i] != '.' by {
        if i < n {
            assert(t[i] == stamp[i]);
            assert(i == 0 || i == n - 7 || is_digit(stamp[i]));
        } else if i > n {
            assert(t[i] == decimal_nat(attempt)[i - n - 1]);
        }
    }
}

/// An upload whose plain path is in use is stored directly in the upload folder
/// all the same, at whatever attempt: under an ordinary name, which is one of an
/// image where the sanitized name is.
pub proof fn stamped_upload_lands_in_folder(
    dir: Seq<char>,
    raw_name: Seq<char>,
    stamp: Seq<char>,
    attempt: nat,
)
    requires
        is_stamp(stamp),
    ensures
        ({
            let stored = stamped_name(sanitized(raw_name), numbered(stamp, attempt));
            let path = attempt_path(dir, sanitized(raw_name), stamp, attempt);
            &&& is_name(stored)
            &&& path == trim_end(dir, '/') + "/"@ + stored
            &&& file_name(path) == Some(stored)
            &&& supported_image(sanitized(raw_name)) ==> supported_image(path)
        }),
{
    reveal_strlit("_");
    reveal_strlit(".");
    let name = sanitized(raw_name);
    let t = numbered(stamp, attempt);
    let k = last_index(name, '.');
    let ext = name.skip(k + 1);
    let low = ascii_lower(ext);
    let head = if k >= 0 {
        name.take(k) + "_"@ + t
    } else {
        name + "_"@ + t
    };
    let stem = head.len() - t.len() - 1;
    let stored = stamped_name(name, t);
    sanitized_is_a_name(raw_name);
    lemma_last_index(name, '.');
    lemma_numbered(stamp, attempt);
    if k >= 0 {
        assert forall|i: int| 0 <= i < low.len() implies low[i] != '/' && low[i] != '.' by {
            assert(ext[i] == name[i + k + 1]);
        }
    }
    assert forall|i: int| 0 <= i < stored.len() implies stored[i] != '/' by {
        if i < stem {
            assert(stored[i] == name[i]);
        } else if i == stem {
            assert(stored[i] == '_');
        } else if i < head.len() {
            assert(stored[i] == t[i - stem - 1]);
        } else if i == head.len() {
            assert(stored[i] == '.');
        } else {
            assert(stored[i] == low[i - head.len() - 1]);
        }
    }
    assert(t.len() >= 15);
    file_name_in_folder(trim_end(dir, '/'), stored);
    if supported_image(name) {
        assert(k > 0);
        lemma_last_index(stored, '.');
        assert(stored[head.len() as int] == '.');
        assert(last_index(stored, '.') == head.len()) by {
            let l = last_index(stored, '.');
            if l > head.len() {
                assert(stored[l] == low[l - head.len() - 1]);
            }
        }
        assert(stored.skip(head.len() as int + 1) == low);
        assert(ascii_lower(low) == low) by {
            assert forall|i: int| 0 <= i < low.len() implies lower(low[i]) == low[i] by {
                assert(low[i] == lower(ext[i]));
                if 'A' <= ext[i] <= 'Z' {
                    assert(97 <= low[i] as int <= 122);
                }
            }
        }
    }
}

/// The file name of a path is what follows its last slash, whatever characters
/// it is made of, unless it is `.` or `..`.
pub proof fn file_name_follows_the_last_slash(folder: Seq<char>, name: Seq<char>)
    requires
        name.len() > 0,
        name != seq!['.'],
        name != seq!['.', '.'],
        forall|i: int| 0 <= i < name.len() ==> name[i] != '/',
    ensures
        file_name(name) == Some(name),
        file_name(folder + seq!['/'] + name) == Some(name),
{
    reveal_strlit("/");
    assert("/"@ == seq!['/']);
    assert(name != seq!['/']) by {
        assert(name[0] != '/');
    }
    lemma_plain_name(name);
    file_name_in_folder(folder, name);
}

/// Slashes and lone dots at the end of a path do not count, and a path that ends
/// in two dots has no file name.
pub proof fn end_of_a_path_without_a_name(p: Seq<char>)
    ensures
        file_name(p + seq!['/']) == file_name(p),
        file_name(p + seq!['/'] + seq!['.']) == file_name(p),
        file_name(p + seq!['/'] + seq!['.', '.']) is None,
        file_name(Seq::<char>::empty()) is None,
        supported_image(p + seq!['/']) == supported_image(p),
        supported_image(p + seq!['/'] + seq!['.']) == supported_image(p),
        !supported_image(p + seq!['/'] + seq!['.', '.']),
{
    root_is_one_component::<char>();
    if p.len() > 0 {
        trailing_separator_is_ignored(p);
        trailing_dot_is_ignored(p);
        appended_name_is_one_more_component(p, seq!['.', '.']);
    } else {
        assert(p + seq!['/'] == seq!['/']);
        let r = seq!['/', '.'];
        assert(p + seq!['/'] + seq!['.'] == r);
        assert(crate::path::spans(r) == seq![(0int, 1int)]) by {
            reveal_with_fuel(crate::path::piece_end, 3);
            reveal_with_fuel(crate::path::spans_from, 3);
            assert(crate::path::piece_end(r, 1) == 2);
            assert(crate::path::spans_from(r, 1) == Seq::<(int, int)>::empty());
        }
        assert(components(r).last() == r.subrange(0, 1));
        assert(r.subrange(0, 1) == seq!['/']);
        crate::path::name_below_the_root(seq!['.', '.']);
        assert(p + seq!['/'] + seq!['.', '.'] == seq!['/'] + seq!['.', '.']);
    }
}

/// Whether a path is one of an image is told by its extension alone: what follows
/// the last dot of its file name reads `jpg`, `jpeg` or `png` in whatever case.
/// The folder and the name before the dot do not matter.
pub proof fn image_is_told_by_its_extension(folder: Seq<char>, stem: Seq<char>, ext: Seq<char>)
    requires
        stem.len() > 0,
        forall|i: int| 0 <= i < stem.len() ==> stem[i] != '/',
        forall|i: int| 0 <= i < ext.len() ==> ext[i] != '/' && ext[i] != '.',
    ensures
        ({
            let reads = |t: Seq<char>|
                ext.len() == t.len() && forall|i: int|
                    0 <= i < t.len() ==> #[trigger] ext[i] == t[i] || ext[i] as int == t[i] as int
                        - 32;
            let image = reads(seq!['j', 'p', 'g']) || reads(seq!['j', 'p', 'e', 'g']) || reads(
                seq!['p', 'n', 'g'],
            );
            &&& supported_image(stem + seq!['.'] + ext) == image
            &&& supported_image(folder + seq!['/'] + (stem + seq!['.'] + ext)) == image
        }),
{
    reveal_strlit("jpg");
    reveal_strlit("jpeg");
    reveal_strlit("png");
    assert("jpg"@ == seq!['j', 'p', 'g']);
    assert("jpeg"@ == seq!['j', 'p', 'e', 'g']);
    assert("png"@ == seq!['p', 'n', 'g']);
    let name = stem + seq!['.'] + ext;
    let k = stem.len() as int;
    assert forall|i: int| 0 <= i < name.len() implies name[i] != '/' by {
        if i < k {
            assert(name[i] == stem[i]);
        } else if i > k {
            assert(name[i] == ext[i - k - 1]);
        }
    }
    lemma_last_index(name, '.');
    assert(name[k] == '.');
    assert(last_index(name, '.') == k) by {
        let l = last_index(name, '.');
        if l > k {
            assert(name[l] == ext[l - k - 1]);
        }
    }
    assert(name.skip(k + 1) == ext);
    lemma_reads(ext, seq!['j', 'p', 'g']);
    lemma_reads(ext, seq!['j', 'p', 'e', 'g']);
    lemma_reads(ext, seq!['p', 'n', 'g']);
    if name == seq!['.', '.'] {
        assert(ext.len() == 0);
        crate::path::name_alone_is_one_component(name);
        assert(file_name(name) is None);
        end_of_a_path_without_a_name(folder);
    } else {
        assert(name != seq!['.']) by {
            assert(name.len() > 1);
        }
        file_name_follows_the_last_slash(folder, name);
    }
}

/// A text reads like a lower-case word in any case exactly where its lower-case
/// form is the word.
proof fn lemma_reads(ext: Seq<char>, t: Seq<char>)
    requires
        forall|i: int| 0 <= i < t.len() ==> 'a' <= #[trigger] t[i] <= 'z',
    ensures
        ascii_lower(ext) == t <==> (ext.len() == t.len() && forall|i: int|
            0 <= i < t.len() ==> #[trigger] ext[i] == t[i] || ext[i] as int == t[i] as int - 32),
{
    let low = ascii_lower(ext);
    if ext.len() == t.len() && forall|i: int|
        0 <= i < t.len() ==> #[trigger] ext[i] == t[i] || ext[i] as int == t[i] as int - 32 {
        assert forall|i: int| 0 <= i < t.len() implies low[i] == t[i] by {
            assert('a' <= t[i] <= 'z');
            assert(ext[i] == t[i] || ext[i] as int == t[i] as int - 32);
            assert(low[i] as int == t[i] as int);
        }
        assert(low == t);
    }
    if low == t {
        assert forall|i: int| 0 <= i < t.len() implies #[trigger] ext[i] == t[i] || ext[i] as int
            == t[i] as int - 32 by {
            assert(low[i] == lower(ext[i]));
            assert('a' <= t[i] <= 'z');
            if 'A' <= ext[i] <= 'Z' {
                assert(low[i] as int == ext[i] as int + 32);
            }
        }
    }
}

/// A name whose only dot, if any, stands at its start is none of an image.
pub proof fn name_without_extension_is_no_image(folder: Seq<char>, name: Seq<char>)
    requires
        name.len() > 0,
        name != seq!['.'],
        name != seq!['.', '.'],
        forall|i: int| 0 <= i < name.len() ==> name[i] != '/',
        forall|i: int| 1 <= i < name.len() ==> name[i] != '.',
    ensures
        !supported_image(name),
        !supported_image(folder + seq!['/'] + name),
{
    lemma_last_index(name, '.');
    file_name_follows_the_last_slash(folder, name);
}

/// What becomes of the file name of an upload: every letter, digit, dot, dash and
/// underscore stays, every other character becomes an underscore, and of the
/// result nothing but the underscores before `ends.0` and from `ends.1` on is cut
/// off. Only where nothing, `.` or `..` is left, the name is `upload`. The folder
/// that the upload names does not matter.
pub proof fn sanitizing_masks_and_trims(folder: Seq<char>, base: Seq<char>) -> (ends: (int, int))
    requires
        base.len() > 0,
        base != seq!['.'],
        base != seq!['.', '.'],
        forall|i: int| 0 <= i < base.len() ==> base[i] != '/',
    ensures
        ({
            let shown = |c: char|
                if ('a' <= c <= 'z') || ('A' <= c <= 'Z') || ('0' <= c <= '9') || c == '.' || c
                    == '-' {
                    c
                } else {
                    '_'
                };
            let (a, b) = ends;
            let nothing = a == b || (b - a == 1 && base[a] == '.') || (b - a == 2 && base[a] == '.'
                && base[a + 1] == '.');
            &&& 0 <= a <= b <= base.len()
            &&& forall|i: int| 0 <= i < a || b <= i < base.len() ==> shown(#[trigger] base[i])
                == '_'
            &&& a < b ==> shown(base[a]) != '_' && shown(base[b - 1]) != '_'
            &&& nothing ==> sanitized(base) == seq!['u', 'p', 'l', 'o', 'a', 'd']
            &&& !nothing ==> sanitized(base).len() == b - a && forall|i: int|
                0 <= i < b - a ==> #[trigger] sanitized(base)[i] == shown(base[a + i])
            &&& sanitized(folder + seq!['/'] + base) == sanitized(base)
        }),
{
    reveal_strlit(".");
    reveal_strlit("..");
    reveal_strlit("upload");
    assert("."@ == seq!['.']);
    assert(".."@ == seq!['.', '.']);
    assert("upload"@ == seq!['u', 'p', 'l', 'o', 'a', 'd']);
    file_name_follows_the_last_slash(folder, base);
    let shown = |c: char|
        if ('a' <= c <= 'z') || ('A' <= c <= 'Z') || ('0' <= c <= '9') || c == '.' || c == '-' {
            c
        } else {
            '_'
        };
    let m = masked(base);
    let left = trim_start(m, '_');
    let rest = trim_end(left, '_');
    trimming_the_start_cuts_only_the_run(m, '_');
    trimming_the_end_cuts_only_the_run(left, '_');
    let a = m.len() - left.len();
    let b = a + rest.len();
    let kept = Seq::new((b - a) as nat, |i: int| shown(base[a + i]));
    assert forall|i: int| 0 <= i < base.len() implies m[i] == shown(#[trigger] base[i]) by {}
    assert forall|i: int| 0 <= i < a || b <= i < base.len() implies shown(#[trigger] base[i])
        == '_' by {
        assert(m[i] == shown(base[i]));
        if b <= i {
            assert(left[i - a] == m[i]);
        }
    }
    assert forall|i: int| 0 <= i < rest.len() implies rest[i] == kept[i] by {
        assert(rest[i] == left[i]);
        assert(left[i] == m[a + i]);
        assert(m[a + i] == shown(base[a + i]));
    }
    assert(rest == kept);
    if a < b {
        assert(rest[0] == left[0]);
        assert(kept[0] == shown(base[a]));
        assert(kept[b - a - 1] == shown(base[b - 1]));
    }
    if b - a == 1 && base[a] == '.' {
        assert(kept == seq!['.']);
    } else if b - a == 2 && base[a] == '.' && base[a + 1] == '.' {
        assert(kept[1] == '.');
        assert(kept == seq!['.', '.']);
    } else if a < b {
        assert(kept != seq!['.']) by {
            if kept == seq!['.'] {
                assert(kept[0] == '.');
            }
        }
        assert(kept != seq!['.', '.']) by {
            if kept == seq!['.', '.'] {
                assert(kept[0] == '.');
                assert(kept[1] == '.');
                assert(kept[1] == shown(base[a + 1]));
            }
        }
    }
    (a, b)
}

/// An upload whose name is safe already is stored under that very name, however
/// long it is.
pub proof fn safe_name_is_kept(folder: Seq<char>, name: Seq<char>)
    requires
        name.len() > 0,
        name != seq!['.'],
        name != seq!['.', '.'],
        name[0] != '_',
        name.last() != '_',
        forall|i: int|
            0 <= i < name.len() ==> {
                let c = #[trigger] name[i];
                ('a' <= c <= 'z') || ('A' <= c <= 'Z') || ('0' <= c <= '9') || c == '.' || c == '-'
                    || c == '_'
            },
    ensures
        sanitized(name) == name,
        sanitized(folder + seq!['/'] + name) == name,
{
    assert forall|i: int| 0 <= i < name.len() implies name[i] != '/' by {}
    let (a, b) = sanitizing_masks_and_trims(folder, name);
    if a > 0 {
        assert(name[0] == '_');
    }
    if b < name.len() {
        assert(name[name.len() - 1] == '_');
    }
    if name.len() == 1 && name[0] == '.' {
        assert(name == seq!['.']);
    }
    if name.len() == 2 && name[0] == '.' && name[1] == '.' {
        assert(name == seq!['.', '.']);
    }
    assert(sanitized(name) == name);
}

/// An upload whose path names no file is stored as `upload`.
pub proof fn nameless_upload_gets_a_name(folder: Seq<char>)
    ensures
        sanitized(folder + seq!['/'] + seq!['.', '.']) == seq!['u', 'p', 'l', 'o', 'a', 'd'],
        sanitized(Seq::<char>::empty()) == seq!['u', 'p', 'l', 'o', 'a', 'd'],
        sanitized(folder + seq!['/']) == sanitized(folder),
        sanitized(folder + seq!['/'] + seq!['.']) == sanitized(folder),
{
    reveal_strlit("upload");
    assert("upload"@ == seq!['u', 'p', 'l', 'o', 'a', 'd']);
    end_of_a_path_without_a_name(folder);
    assert(masked(Seq::<char>::empty()) == Seq::<char>::empty());
    assert(trim_start(Seq::<char>::empty(), '_') == Seq::<char>::empty());
}

/// An upload that is an image by its extension is one under its stored name too,
/// as long as something of the name before the dot is safe.
pub proof fn image_upload_stays_an_image(
    folder: Seq<char>,
    stem: Seq<char>,
    ext: Seq<char>,
    word: Seq<char>,
    safe: int,
)
    requires
        word == seq!['j', 'p', 'g'] || word == seq!['j', 'p', 'e', 'g'] || word == seq![
            'p',
            'n',
            'g',
        ],
        ext.len() == word.len(),
        forall|i: int|
            0 <= i < word.len() ==> #[trigger] ext[i] == word[i] || ext[i] as int == word[i] as int
                - 32,
        forall|i: int| 0 <= i < stem.len() ==> stem[i] != '/',
        0 <= safe < stem.len(),
        ({
            let c = stem[safe];
            ('a' <= c <= 'z') || ('A' <= c <= 'Z') || ('0' <= c <= '9') || c == '.' || c == '-'
        }),
    ensures
        supported_image(sanitized(stem + seq!['.'] + ext)),
        supported_image(sanitized(folder + seq!['/'] + (stem + seq!['.'] + ext))),
{
    let base = stem + seq!['.'] + ext;
    let k = stem.len() as int;
    let letter = |c: char| ('a' <= c <= 'z') || ('A' <= c <= 'Z');
    assert forall|i: int| 0 <= i < ext.len() implies letter(#[trigger] ext[i]) by {
        assert('a' <= word[i] <= 'z');
        assert(ext[i] == word[i] || ext[i] as int == word[i] as int - 32);
    }
    assert forall|i: int| 0 <= i < base.len() implies base[i] != '/' by {
        if i < k {
            assert(base[i] == stem[i]);
        } else if i > k {
            assert(base[i] == ext[i - k - 1]);
            assert(letter(ext[i - k - 1]));
        }
    }
    assert(base.len() > 3);
    let (a, b) = sanitizing_masks_and_trims(folder, base);
    assert(base[safe] == stem[safe]);
    assert(a <= safe);
    let last = base.len() - 1;
    assert(base[last] == ext[ext.len() - 1]);
    assert(letter(ext[ext.len() - 1]));
    assert(b == base.len());
    let stored = sanitized(base);
    let head = stored.take(k - a);
    assert(stored.len() == b - a);
    assert forall|i: int| k < i < base.len() implies stored[i - a] == #[trigger] base[i] by {
        assert(base[i] == ext[i - k - 1]);
        assert(letter(ext[i - k - 1]));
    }
    assert(base[k] == '.');
    assert(stored[k - a] == '.');
    assert(stored =~= head + seq!['.'] + ext) by {
        assert forall|i: int| 0 <= i < stored.len() implies stored[i] == (head + seq!['.']
            + ext)[i] by {
            if i > k - a {
                assert(stored[i] == base[i + a]);
                assert(base[i + a] == ext[i + a - k - 1]);
            }
        }
    }
    assert forall|i: int| 0 <= i < head.len() implies head[i] != '/' by {
        assert(head[i] == stored[i]);
        assert(base[a + i] != '/');
    }
    assert forall|i: int| 0 <= i < ext.len() implies ext[i] != '/' && ext[i] != '.' by {
        assert(letter(ext[i]));
    }
    image_is_told_by_its_extension(folder, head, ext);
}

/// A file is placed directly in the folder, however many slashes the folder was
/// written with.
pub proof fn placed_below_the_folder(dir: Seq<char>, slashes: nat, filename: Seq<char>)
    requires
        dir.len() == 0 || dir.last() != '/',
    ensures
        image_path_spec(dir + Seq::new(slashes, |i: int| '/'), filename) == dir + seq!['/']
            + filename,
{
    reveal_strlit("/");
    assert("/"@ == seq!['/']);
    trimming_takes_back_what_was_appended(dir, '/', slashes);
}

/// Where a stamp goes: before the last dot of a name that has one, and else at
/// its end. The extension keeps its letters, in lower case, and the rest of the
/// name stays.
pub proof fn stamp_goes_before_the_extension(stem: Seq<char>, ext: Seq<char>, stamp: Seq<char>)
    requires
        forall|i: int| 0 <= i < ext.len() ==> ext[i] != '.',
    ensures
        ({
            let r = stamped_name(stem + seq!['.'] + ext, stamp);
            let n = stem.len() + stamp.len() + 2;
            &&& r.len() == n + ext.len()
            &&& r.take(n as int) == stem + seq!['_'] + stamp + seq!['.']
            &&& forall|i: int|
                0 <= i < ext.len() ==> (if 'A' <= #[trigger] ext[i] <= 'Z' {
                    r[n + i] as int == ext[i] as int + 32
                } else {
                    r[n + i] == ext[i]
                })
        }),
        stamped_name(ext, stamp) == ext + seq!['_'] + stamp,
{
    reveal_strlit("_");
    reveal_strlit(".");
    assert("_"@ == seq!['_']);
    assert("."@ == seq!['.']);
    let name = stem + seq!['.'] + ext;
    let k = stem.len() as int;
    lemma_last_index(name, '.');
    lemma_last_index(ext, '.');
    assert(name[k] == '.');
    assert(last_index(name, '.') == k) by {
        let l = last_index(name, '.');
        if l > k {
            assert(name[l] == ext[l - k - 1]);
        }
    }
    assert(name.skip(k + 1) == ext);
    assert(name.take(k) == stem);
    let r = stamped_name(name, stamp);
    let n = stem.len() + stamp.len() + 2;
    assert(r.take(n as int) == stem + seq!['_'] + stamp + seq!['.']);
    assert forall|i: int| 0 <= i < ext.len() implies (if 'A' <= #[trigger] ext[i] <= 'Z' {
        r[n + i] as int == ext[i] as int + 32
    } else {
        r[n + i] == ext[i]
    }) by {
        assert(r[n + i] == ascii_lower(ext)[i]);
    }
}

/// A further attempt has its number behind the stamp.
pub proof fn attempt_is_numbered_behind_the_stamp(stamp: Seq<char>, attempt: nat)
    ensures
        attempt == 0 ==> numbered(stamp, attempt) == stamp,
        attempt > 0 ==> {
            let t = numbered(stamp, attempt);
            &&& t.take(stamp.len() as int + 1) == stamp + seq!['_']
            &&& number_of(t.skip(stamp.len() as int + 1)) == attempt
        },
{
    reveal_strlit("_");
    assert("_"@ == seq!['_']);
    crate::text::decimal_reads_back(attempt);
    if attempt > 0 {
        let t = numbered(stamp, attempt);
        assert(t.take(stamp.len() as int + 1) == stamp + seq!['_']);
        assert(t.skip(stamp.len() as int + 1) == decimal_nat(attempt));
    }
}

/// Every part of a reading of the clock can be read off its stamp, in the order
/// year, month, day, hour, minute, second.
pub proof fn stamp_tells_the_reading(clock: Clock)
    requires
        clock.in_range(),
        0 <= clock.year <= 9999,
    ensures
        ({
            let s = stamp_of(clock);
            &&& s.len() == 15
            &&& number_of(s.subrange(0, 4)) == clock.year
            &&& number_of(s.subrange(4, 6)) == clock.month
            &&& number_of(s.subrange(6, 8)) == clock.day
            &&& s[8] == '_'
            &&& number_of(s.subrange(9, 11)) == clock.hour
            &&& number_of(s.subrange(11, 13)) == clock.minute
            &&& number_of(s.subrange(13, 15)) == clock.second
        }),
{
    reveal_strlit("_");
    padded_number_reads_back(clock.year as nat, 4);
    padded_number_reads_back(clock.month as nat, 2);
    padded_number_reads_back(clock.day as nat, 2);
    padded_number_reads_back(clock.hour as nat, 2);
    padded_number_reads_back(clock.minute as nat, 2);
    padded_number_reads_back(clock.second as nat, 2);
    lemma_two_digits(clock.month as nat);
    lemma_two_digits(clock.day as nat);
    lemma_two_digits(clock.hour as nat);
    lemma_two_digits(clock.minute as nat);
    lemma_two_digits(clock.second as nat);
    assert(decimal_nat(clock.year as nat).len() <= 4) by {
        reveal_with_fuel(decimal_nat, 5);
    }
    let s = stamp_of(clock);
    assert(s.subrange(0, 4) == padded(clock.year as nat, 4));
    assert(s.subrange(4, 6) == padded(clock.month as nat, 2));
    assert(s.subrange(6, 8) == padded(clock.day as nat, 2));
    assert(s.subrange(9, 11) == padded(clock.hour as nat, 2));
    assert(s.subrange(11, 13) == padded(clock.minute as nat, 2));
    assert(s.subrange(13, 15) == padded(clock.second as nat, 2));
}

/// A path is in use exactly where it is one of those listed, and the first free
/// stamped path is none of them.
pub proof fn free_path_is_none_of_those_in_use(
    path: Seq<char>,
    dir: Seq<char>,
    filename: Seq<char>,
    stamp: Seq<char>,
    existing: Seq<String>,
    attempt: nat,
)
    ensures
        occupied(existing, path) <==> !(forall|i: int|
            0 <= i < existing.len() ==> (#[trigger] existing[i])@ != path),
        is_first_free(path, dir, filename, stamp, existing, attempt) ==> forall|i: int|
            0 <= i < existing.len() ==> (#[trigger] existing[i])@ != path,
{
}

/// An upload is reported under the name by which it stands in the folder, in full.
pub proof fn upload_is_reported_by_its_name(dir: Seq<char>, name: Seq<char>)
    requires
        name.len() > 0,
        name != seq!['.'],
        name != seq!['.', '.'],
        forall|i: int| 0 <= i < name.len() ==> name[i] != '/',
    ensures
        name_at(dir + seq!['/'] + name) == name,
        name_at(name) == name,
        name_at(image_path_spec(dir, name)) == name,
{
    reveal_strlit("/");
    assert("/"@ == seq!['/']);
    file_name_follows_the_last_slash(dir, name);
    file_name_follows_the_last_slash(trim_end(dir, '/'), name);
}

/// The path of a further attempt lies directly in the folder, under the name with
/// the numbered stamp; and of the paths of earlier attempts each was in use.
pub proof fn attempts_are_made_in_order(
    path: Seq<char>,
    dir: Seq<char>,
    filename: Seq<char>,
    stamp: Seq<char>,
    existing: Seq<String>,
    attempt: nat,
    earlier: nat,
)
    requires
        dir.len() == 0 || dir.last() != '/',
    ensures
        attempt_path(dir, filename, stamp, attempt) == dir + seq!['/'] + stamped_name(
            filename,
            numbered(stamp, attempt),
        ),
        is_first_free(path, dir, filename, stamp, existing, attempt) ==> {
            &&& path == dir + seq!['/'] + stamped_name(filename, numbered(stamp, attempt))
            &&& earlier < attempt ==> exists|i: int|
                0 <= i < existing.len() && (#[trigger] existing[i])@ == dir + seq!['/']
                    + stamped_name(filename, numbered(stamp, earlier))
        },
{
    placed_below_the_folder(dir, 0, stamped_name(filename, numbered(stamp, attempt)));
    placed_below_the_folder(dir, 0, stamped_name(filename, numbered(stamp, earlier)));
    assert(dir + Seq::new(0, |i: int| '/') == dir);
    if is_first_free(path, dir, filename, stamp, existing, attempt) && earlier < attempt {
        assert(occupied(existing, attempt_path(dir, filename, stamp, earlier)));
    }
}

/// An upload whose plain path alone is in use goes to the name with the stamp of
/// the reading of the clock, directly in the folder.
pub proof fn clash_is_resolved_by_the_time(
    path: Seq<char>,
    dir: Seq<char>,
    filename: Seq<char>,
    clock: Clock,
    existing: Seq<String>,
)
    requires
        dir.len() == 0 || dir.last() != '/',
        is_path_at(path, dir, filename, clock, existing),
        forall|i: int|
            0 <= i < existing.len() ==> (#[trigger] existing[i])@ == dir + seq!['/'] + filename,
    ensures
        path == dir + seq!['/'] + stamped_name(filename, stamp_of(clock)),
        1 <= clock.month <= 12 && 1 <= clock.day <= 31,
        clock.hour < 24 && clock.minute < 60 && clock.second < 60,
{
    let stamp = stamp_of(clock);
    let attempt = choose|attempt: nat| #[trigger]
        is_first_free(path, dir, filename, stamp, existing, attempt);
    placed_below_the_folder(dir, 0, filename);
    assert(dir + Seq::new(0, |i: int| '/') == dir);
    lone_clash_takes_no_number(path, dir, filename, stamp, existing, attempt);
    attempts_are_made_in_order(path, dir, filename, stamp, existing, attempt, 0);
    placed_below_the_folder(dir, 0, stamped_name(filename, stamp));
}

/// A year outside 0 to 9999 has its sign in front of its digits.
pub proof fn uncommon_year_has_a_sign(year: int)
    ensures
        year < 0 ==> year_text(year)[0] == '-' && number_of(year_text(year).skip(1)) == -year,
        year > 9999 ==> year_text(year)[0] == '+' && number_of(year_text(year).skip(1)) == year,
        0 <= year <= 9999 ==> number_of(year_text(year)) == year,
{
    reveal_strlit("-");
    reveal_strlit("+");
    let size: nat = if year < 0 {
        (-year) as nat
    } else {
        year as nat
    };
    padded_number_reads_back(size, 4);
    if year < 0 || year > 9999 {
        assert(year_text(year).skip(1) == padded(size, 4));
    }
}

} // verus!
