//! Unix paths: components, file names, extensions and prefixes.
//!
//! A path is read as `/`-separated text. Repeated separators, a trailing
//! separator and `.` components other than a leading one carry no meaning.
//! Text paths are sequences of characters, paths from the operating system are
//! sequences of bytes; both are handled by the same code.
use vstd::prelude::*;

use crate::text::last_index;

verus! {

/// One unit of a path: a character of a text path or a byte of an OS path.
pub trait PathUnit: Copy {
    /// The separator `/`.
    spec fn sep() -> Self;

    /// The dot.
    spec fn dot() -> Self;

    fn is_sep(&self) -> (b: bool)
        ensures
            b == (*self == Self::sep()),
    ;

    fn is_dot(&self) -> (b: bool)
        ensures
            b == (*self == Self::dot()),
    ;

    fn same_unit(&self, other: &Self) -> (b: bool)
        ensures
            b == (*self == *other),
    ;
}

impl PathUnit for char {
    open spec fn sep() -> char {
        '/'
    }

    open spec fn dot() -> char {
        '.'
    }

    fn is_sep(&self) -> (b: bool) {
        *self == '/'
    }

    fn is_dot(&self) -> (b: bool) {
        *self == '.'
    }

    fn same_unit(&self, other: &char) -> (b: bool) {
        *self == *other
    }
}

impl PathUnit for u8 {
    open spec fn sep() -> u8 {
        47
    }

    open spec fn dot() -> u8 {
        46
    }

    fn is_sep(&self) -> (b: bool) {
        *self == 47
    }

    fn is_dot(&self) -> (b: bool) {
        *self == 46
    }

    fn same_unit(&self, other: &u8) -> (b: bool) {
        *self == *other
    }
}

/// The position of the first separator at or after `i`, or the path's length.
pub open spec fn piece_end<T: PathUnit>(p: Seq<T>, i: int) -> int
    decreases p.len() - i,
{
    if i >= p.len() || p[i] == T::sep() {
        i
    } else {
        piece_end(p, i + 1)
    }
}

pub proof fn lemma_piece_end<T: PathUnit>(p: Seq<T>, i: int)
    requires
        0 <= i <= p.len(),
    ensures
        i <= piece_end(p, i) <= p.len(),
        forall|k: int| i <= k < piece_end(p, i) ==> p[k] != T::sep(),
        piece_end(p, i) < p.len() ==> p[piece_end(p, i)] == T::sep(),
    decreases p.len() - i,
{
    if i < p.len() && p[i] != T::sep() {
        lemma_piece_end(p, i + 1);
    }
}

/// Whether the piece of `p` from `i` to `j` is a component: it is not empty,
/// and it is `.` only at the very start.
pub open spec fn is_component<T: PathUnit>(p: Seq<T>, i: int, j: int) -> bool {
    i < j && !(i > 0 && j == i + 1 && p[i] == T::dot())
}

/// Where the components that start at or after `i` stand.
pub open spec fn spans_from<T: PathUnit>(p: Seq<T>, i: int) -> Seq<(int, int)>
    decreases p.len() + 1 - i,
{
    if i < 0 || i >= p.len() {
        Seq::empty()
    } else {
        proof {
            lemma_piece_end(p, i);
        }
        let j = piece_end(p, i);
        let rest = spans_from(p, j + 1);
        if is_component(p, i, j) {
            seq![(i, j)] + rest
        } else {
            rest
        }
    }
}

/// Where the components of a path stand. A leading separator is the root, a
/// component of its own.
pub open spec fn spans<T: PathUnit>(p: Seq<T>) -> Seq<(int, int)> {
    if p.len() > 0 && p[0] == T::sep() {
        seq![(0int, 1int)] + spans_from(p, 1)
    } else {
        spans_from(p, 0)
    }
}

/// The components of a path.
pub open spec fn components<T: PathUnit>(p: Seq<T>) -> Seq<Seq<T>> {
    Seq::new(spans(p).len(), |k: int| p.subrange(spans(p)[k].0, spans(p)[k].1))
}

/// Whether a component is an ordinary name: neither the root nor `.` nor `..`.
pub open spec fn is_name<T: PathUnit>(c: Seq<T>) -> bool {
    &&& c.len() > 0
    &&& c != seq![T::sep()]
    &&& c != seq![T::dot()]
    &&& c != seq![T::dot(), T::dot()]
}

/// The last component of a path, where it is an ordinary name.
pub open spec fn file_name<T: PathUnit>(p: Seq<T>) -> Option<Seq<T>> {
    if components(p).len() > 0 && is_name(components(p).last()) {
        Some(components(p).last())
    } else {
        None
    }
}

/// What follows the last dot of a file name. A dot at the very start of the
/// name does not begin an extension.
pub open spec fn extension<T: PathUnit>(p: Seq<T>) -> Option<Seq<T>> {
    match file_name(p) {
        Some(name) => if last_index(name, T::dot()) > 0 {
            Some(name.skip(last_index(name, T::dot()) + 1))
        } else {
            None
        },
        None => None,
    }
}

/// What is left of `p` below `base`: the text of `p` from the first component
/// after those of `base` to the end of its last component.
pub open spec fn below<T: PathUnit>(p: Seq<T>, base: Seq<T>) -> Option<Seq<T>> {
    let n = components(base).len() as int;
    if components(base).is_prefix_of(components(p)) {
        if n == components(p).len() {
            Some(Seq::empty())
        } else {
            Some(p.subrange(spans(p)[n].0, spans(p).last().1))
        }
    } else {
        None
    }
}

/// Every span lies inside the path and is not empty.
pub proof fn lemma_spans_from<T: PathUnit>(p: Seq<T>, i: int)
    requires
        0 <= i,
    ensures
        forall|k: int|
            0 <= k < spans_from(p, i).len() ==> i <= (#[trigger] spans_from(p, i)[k]).0
                < spans_from(p, i)[k].1 <= p.len(),
        forall|k: int, l: int|
            0 <= k < l < spans_from(p, i).len() ==> (#[trigger] spans_from(p, i)[k]).1
                < (#[trigger] spans_from(p, i)[l]).0,
    decreases p.len() + 1 - i,
{
    if i < p.len() {
        lemma_piece_end(p, i);
        let j = piece_end(p, i);
        lemma_spans_from(p, j + 1);
        let rest = spans_from(p, j + 1);
        if is_component(p, i, j) {
            let all = spans_from(p, i);
            assert forall|k: int| 0 <= k < all.len() implies i <= (#[trigger] all[k]).0 < all[k].1
                <= p.len() by {
                if k > 0 {
                    assert(all[k] == rest[k - 1]);
                }
            }
            assert forall|k: int, l: int| 0 <= k < l < all.len() implies (#[trigger] all[k]).1 < (
            #[trigger] all[l]).0 by {
                assert(all[l] == rest[l - 1]);
                if k > 0 {
                    assert(all[k] == rest[k - 1]);
                }
            }
        }
    }
}

/// Every span of a path lies inside it, is not empty, and ends before the next.
pub proof fn lemma_spans<T: PathUnit>(p: Seq<T>)
    ensures
        forall|k: int|
            0 <= k < spans(p).len() ==> 0 <= (#[trigger] spans(p)[k]).0 < spans(p)[k].1
                <= p.len(),
        forall|k: int, l: int|
            0 <= k < l < spans(p).len() ==> (#[trigger] spans(p)[k]).1 <= (
            #[trigger] spans(p)[l]).0,
{
    lemma_spans_from(p, 0);
    lemma_spans_from(p, 1);
    if p.len() > 0 && p[0] == T::sep() {
        let all = spans(p);
        let rest = spans_from(p, 1);
        assert forall|k: int| 0 <= k < all.len() implies 0 <= (#[trigger] all[k]).0 < all[k].1
            <= p.len() by {
            if k > 0 {
                assert(all[k] == rest[k - 1]);
            }
        }
        assert forall|k: int, l: int| 0 <= k < l < all.len() implies (#[trigger] all[k]).1 <= (
        #[trigger] all[l]).0 by {
            assert(all[l] == rest[l - 1]);
            if k > 0 {
                assert(all[k] == rest[k - 1]);
            }
        }
    }
}

/// Where the last piece of a path starts at `m` and is a component, it is the
/// path's last component.
pub proof fn lemma_last_span<T: PathUnit>(p: Seq<T>, i: int, m: int)
    requires
        0 <= i <= m < p.len(),
        i == m || p[m - 1] == T::sep(),
        forall|k: int| m <= k < p.len() ==> p[k] != T::sep(),
        is_component(p, m, p.len() as int),
    ensures
        spans_from(p, i).len() > 0,
        spans_from(p, i).last() == (m, p.len() as int),
    decreases m - i,
{
    lemma_piece_end(p, i);
    let j = piece_end(p, i);
    let rest = spans_from(p, j + 1);
    if i < m {
        assert(j <= m - 1);
        lemma_last_span(p, j + 1, m);
        assert(spans_from(p, i).last() == rest.last());
    } else {
        assert(j == p.len());
        assert(rest == Seq::<(int, int)>::empty());
        assert(spans_from(p, i) == seq![(m, p.len() as int)] + rest);
    }
}

/// The components of a path below a folder are those of the folder and then
/// those of the rest.
pub proof fn lemma_spans_join<T: PathUnit>(folder: Seq<T>, rest: Seq<T>, i: int)
    requires
        0 <= i <= folder.len(),
    ensures
        spans_from(folder + seq![T::sep()] + rest, i) == spans_from(folder, i) + spans_from(
            folder + seq![T::sep()] + rest,
            folder.len() as int + 1,
        ),
    decreases folder.len() - i,
{
    let p = folder + seq![T::sep()] + rest;
    let n = folder.len() as int;
    assert(p[n] == T::sep());
    lemma_piece_end_join(folder, rest, i);
    lemma_piece_end(folder, i);
    let tail = spans_from(p, n + 1);
    if i == n {
        assert(spans_from(folder, i) == Seq::<(int, int)>::empty());
        assert(spans_from(p, i) == tail);
        assert(Seq::<(int, int)>::empty() + tail == tail);
    } else {
        let j = piece_end(folder, i);
        if j < n {
            lemma_spans_join(folder, rest, j + 1);
        } else {
            assert(spans_from(folder, j + 1) == Seq::<(int, int)>::empty());
            assert(spans_from(p, j + 1) == spans_from(folder, j + 1) + tail);
        }
        assert(p[i] == folder[i]);
        assert(seq![(i, j)] + (spans_from(folder, j + 1) + tail) == seq![(i, j)] + spans_from(
            folder,
            j + 1,
        ) + tail);
    }
}

proof fn lemma_piece_end_join<T: PathUnit>(folder: Seq<T>, rest: Seq<T>, i: int)
    requires
        0 <= i <= folder.len(),
    ensures
        piece_end(folder + seq![T::sep()] + rest, i) == piece_end(folder, i),
    decreases folder.len() - i,
{
    let p = folder + seq![T::sep()] + rest;
    assert(p[folder.len() as int] == T::sep());
    if i < folder.len() {
        assert(p[i] == folder[i]);
        if folder[i] != T::sep() {
            lemma_piece_end_join(folder, rest, i + 1);
        }
    }
}

/// Whether a relative path neither starts nor ends with a separator or a `.`
/// component.
pub open spec fn is_trimmed<T: PathUnit>(r: Seq<T>) -> bool {
    let first = piece_end(r, 0);
    let last = last_index(r, T::sep()) + 1;
    &&& 0 < first
    &&& !(first == 1 && r[0] == T::dot())
    &&& last < r.len()
    &&& !(last == r.len() - 1 && r[last] == T::dot())
}

/// What is left of a path below a folder is exactly what was appended to the
/// folder's path.
pub proof fn below_undoes_append<T: PathUnit>(folder: Seq<T>, rest: Seq<T>)
    requires
        folder.len() > 0,
        is_trimmed(rest),
    ensures
        below(folder + seq![T::sep()] + rest, folder) == Some(rest),
{
    let p = folder + seq![T::sep()] + rest;
    let n = folder.len() as int;
    let start = n + 1;
    let tail = spans_from(p, start);
    let rooted = folder[0] == T::sep();
    assert(p[0] == folder[0]);
    if rooted {
        lemma_spans_join(folder, rest, 1);
        assert(seq![(0int, 1int)] + (spans_from(folder, 1) + tail) == seq![(0int, 1int)]
            + spans_from(folder, 1) + tail);
    } else {
        lemma_spans_join(folder, rest, 0);
    }
    assert(spans(p) == spans(folder) + tail);
    // The rest starts with a component ...
    lemma_piece_end_tail(folder, rest, 0);
    lemma_piece_end(rest, 0);
    let e = piece_end(p, start);
    assert(e == start + piece_end(rest, 0));
    assert(p[start] == rest[0]);
    assert(is_component(p, start, e));
    assert(tail == seq![(start, e)] + spans_from(p, e + 1));
    assert(tail[0] == (start, e));
    // ... and ends with one.
    crate::text::lemma_last_index(rest, T::sep());
    let last = last_index(rest, T::sep()) + 1;
    let m = start + last;
    assert(p[m] == rest[last]);
    assert(p[m - 1] == T::sep());
    assert forall|k: int| m <= k < p.len() implies p[k] != T::sep() by {
        assert(p[k] == rest[k - start]);
    }
    lemma_last_span(p, start, m);
    assert(spans(p).last() == tail.last());
    assert(spans(p)[spans(folder).len() as int] == tail[0]);
    lemma_spans(folder);
    assert forall|k: int| 0 <= k < components(folder).len() implies components(folder)[k]
        == components(p)[k] by {
        assert(spans(p)[k] == spans(folder)[k]);
        let s = spans(folder)[k];
        assert(folder.subrange(s.0, s.1) == p.subrange(s.0, s.1));
    }
    assert(components(folder) == components(p).take(components(folder).len() as int));
    assert(p.subrange(start, p.len() as int) == rest);
}

proof fn lemma_piece_end_tail<T: PathUnit>(folder: Seq<T>, rest: Seq<T>, i: int)
    requires
        0 <= i <= rest.len(),
    ensures
        piece_end(folder + seq![T::sep()] + rest, folder.len() + 1 + i) == folder.len() + 1
            + piece_end(rest, i),
    decreases rest.len() - i,
{
    let p = folder + seq![T::sep()] + rest;
    if i < rest.len() {
        assert(p[folder.len() + 1 + i] == rest[i]);
        if rest[i] != T::sep() {
            lemma_piece_end_tail(folder, rest, i + 1);
        }
    }
}

/// Where a path ends in an ordinary name after a separator, that is its file
/// name.
pub proof fn file_name_at_end<T: PathUnit>(p: Seq<T>, m: int)
    requires
        0 < m < p.len(),
        p[m - 1] == T::sep(),
        forall|k: int| m <= k < p.len() ==> p[k] != T::sep(),
        is_name(p.skip(m)),
    ensures
        file_name(p) == Some(p.skip(m)),
{
    let name = p.skip(m);
    assert(p.subrange(m, p.len() as int) == name);
    if p.len() == m + 1 && p[m] == T::dot() {
        assert(name == seq![T::dot()]);
    }
    if p[0] == T::sep() {
        lemma_last_span(p, 1, m);
        assert(spans(p).last() == spans_from(p, 1).last());
    } else {
        lemma_last_span(p, 0, m);
    }
}

/// Every component that is not the root starts at the beginning or after a
/// separator and holds none.
pub proof fn lemma_span_pieces<T: PathUnit>(p: Seq<T>, i: int)
    requires
        0 <= i,
    ensures
        forall|k: int|
            0 <= k < spans_from(p, i).len() ==> {
                let s = #[trigger] spans_from(p, i)[k];
                &&& s.0 == i || p[s.0 - 1] == T::sep()
                &&& forall|l: int| s.0 <= l < s.1 ==> p[l] != T::sep()
            },
    decreases p.len() + 1 - i,
{
    if i < p.len() {
        lemma_piece_end(p, i);
        let j = piece_end(p, i);
        lemma_span_pieces(p, j + 1);
        let rest = spans_from(p, j + 1);
        let all = spans_from(p, i);
        assert forall|k: int| 0 <= k < all.len() implies {
            let s = #[trigger] all[k];
            &&& s.0 == i || p[s.0 - 1] == T::sep()
            &&& forall|l: int| s.0 <= l < s.1 ==> p[l] != T::sep()
        } by {
            let r = if is_component(p, i, j) {
                k - 1
            } else {
                k
            };
            if r >= 0 {
                assert(all[k] == rest[r]);
                lemma_spans_from(p, j + 1);
                assert(j < p.len());
            }
        }
    }
}

/// The spans of a list of machine integers.
pub open spec fn spans_view(v: Seq<(usize, usize)>) -> Seq<(int, int)> {
    v.map_values(|s: (usize, usize)| (s.0 as int, s.1 as int))
}

/// Where the components of a path stand.
pub fn find_spans<T: PathUnit>(p: &[T]) -> (out: Vec<(usize, usize)>)
    ensures
        spans_view(out@) == spans(p@),
{
    let mut out: Vec<(usize, usize)> = Vec::new();
    let mut i: usize = 0;
    if p.len() > 0 && p[0].is_sep() {
        out.push((0, 1));
        i = 1;
        assert(spans_view(out@) == seq![(0int, 1int)]);
    }
    assert(spans_view(out@) + spans_from(p@, i as int) == spans(p@));
    while i < p.len()
        invariant
            i <= p.len(),
            spans_view(out@) + spans_from(p@, i as int) == spans(p@),
        decreases p.len() + 1 - i,
    {
        let mut j: usize = i;
        while j < p.len() && !p[j].is_sep()
            invariant
                i <= j <= p.len(),
                piece_end(p@, j as int) == piece_end(p@, i as int),
            decreases p.len() - j,
        {
            j = j + 1;
        }
        assert(j == piece_end(p@, i as int));
        let ghost before = spans_view(out@);
        let ghost rest = spans_from(p@, j + 1);
        if i < j && !(i > 0 && j == i + 1 && p[i].is_dot()) {
            out.push((i, j));
            assert(spans_view(out@) == before.push((i as int, j as int)));
            assert(before + (seq![(i as int, j as int)] + rest) == spans_view(out@) + rest);
        }
        if j == p.len() {
            assert(rest == Seq::<(int, int)>::empty());
            assert(spans_view(out@) + rest == spans_view(out@));
            assert(spans_from(p@, p@.len() as int) == Seq::<(int, int)>::empty());
            i = j;
        } else {
            i = j + 1;
        }
    }
    assert(spans_view(out@) + spans_from(p@, i as int) == spans_view(out@));
    out
}

/// Where the file name of a path stands.
pub fn find_file_name<T: PathUnit>(p: &[T]) -> (at: Option<(usize, usize)>)
    ensures
        match at {
            Some(s) => s.0 < s.1 <= p@.len() && file_name(p@) == Some(
                p@.subrange(s.0 as int, s.1 as int),
            ),
            None => file_name(p@) is None,
        },
{
    let found = find_spans(p);
    proof {
        lemma_spans(p@);
        assert(spans_view(found@).len() == found@.len());
    }
    if found.len() == 0 {
        return None;
    }
    let (i, j): (usize, usize) = found[found.len() - 1];
    let ghost last = components(p@).last();
    assert(spans_view(found@).last() == (i as int, j as int));
    assert(last == p@.subrange(i as int, j as int));
    let n: usize = j - i;
    if n == 1 && (p[i].is_sep() || p[i].is_dot()) {
        assert(last == seq![p@[i as int]]);
        return None;
    }
    if n == 2 && p[i].is_dot() && p[i + 1].is_dot() {
        assert(last == seq![T::dot(), T::dot()]);
        return None;
    }
    proof {
        if n == 1 {
            assert(last[0] == p@[i as int]);
        }
        if n == 2 {
            assert(last[0] == p@[i as int]);
            assert(last[1] == p@[i + 1]);
        }
        assert(seq![T::dot(), T::dot()][0] == T::dot());
        assert(seq![T::dot(), T::dot()][1] == T::dot());
        assert(seq![T::dot()][0] == T::dot());
        assert(seq![T::sep()][0] == T::sep());
    }
    Some((i, j))
}

/// Where what is left of `p` below `base` stands in `p`.
pub fn find_below<T: PathUnit>(p: &[T], base: &[T]) -> (at: Option<(usize, usize)>)
    ensures
        match at {
            Some(s) => s.0 <= s.1 <= p@.len() && below(p@, base@) == Some(
                p@.subrange(s.0 as int, s.1 as int),
            ),
            None => below(p@, base@) is None,
        },
{
    let ps = find_spans(p);
    let bs = find_spans(base);
    proof {
        lemma_spans(p@);
        lemma_spans(base@);
        assert(spans_view(ps@).len() == ps@.len());
        assert(spans_view(bs@).len() == bs@.len());
        assert forall|k: int| 0 <= k < ps@.len() implies spans(p@)[k] == (
            #[trigger] ps@[k].0 as int,
            ps@[k].1 as int,
        ) by {
            assert(spans_view(ps@)[k] == (ps@[k].0 as int, ps@[k].1 as int));
        }
        assert forall|k: int| 0 <= k < bs@.len() implies spans(base@)[k] == (
            #[trigger] bs@[k].0 as int,
            bs@[k].1 as int,
        ) by {
            assert(spans_view(bs@)[k] == (bs@[k].0 as int, bs@[k].1 as int));
        }
    }
    let ghost pc = components(p@);
    let ghost bc = components(base@);
    if bs.len() > ps.len() {
        return None;
    }
    let n: usize = bs.len();
    let mut k: usize = 0;
    while k < n
        invariant
            k <= n,
            n == bs@.len(),
            n <= ps@.len(),
            pc == components(p@),
            bc == components(base@),
            pc.len() == ps@.len(),
            bc.len() == bs@.len(),
            forall|l: int|
                0 <= l < ps@.len() ==> spans(p@)[l] == (
                    (#[trigger] ps@[l]).0 as int,
                    ps@[l].1 as int,
                ),
            forall|l: int|
                0 <= l < bs@.len() ==> spans(base@)[l] == (
                    (#[trigger] bs@[l]).0 as int,
                    bs@[l].1 as int,
                ),
            forall|l: int|
                0 <= l < ps@.len() ==> (#[trigger] ps@[l]).0 < ps@[l].1 <= p@.len(),
            forall|l: int|
                0 <= l < bs@.len() ==> (#[trigger] bs@[l]).0 < bs@[l].1 <= base@.len(),
            forall|l: int| 0 <= l < k ==> pc[l] == bc[l],
        decreases n - k,
    {
        let (a, b): (usize, usize) = ps[k];
        let (c, d): (usize, usize) = bs[k];
        assert(pc[k as int] == p@.subrange(a as int, b as int));
        assert(bc[k as int] == base@.subrange(c as int, d as int));
        if b - a != d - c {
            assert(pc[k as int].len() != bc[k as int].len());
            assert(pc.take(n as int)[k as int] != bc[k as int]);
            return None;
        }
        let mut m: usize = 0;
        while m < b - a
            invariant
                a < b <= p@.len(),
                c < d <= base@.len(),
                b - a == d - c,
                m <= b - a,
                forall|l: int|
                    0 <= l < m ==> (#[trigger] pc[k as int][l]) == bc[k as int][l],
                pc[k as int] == p@.subrange(a as int, b as int),
                bc[k as int] == base@.subrange(c as int, d as int),
                bc.len() == n,
                n <= pc.len(),
                k < n,
                pc == components(p@),
                bc == components(base@),
            decreases b - a - m,
        {
            if !p[a + m].same_unit(&base[c + m]) {
                assert(pc[k as int][m as int] != bc[k as int][m as int]);
                assert(pc.take(n as int)[k as int] != bc[k as int]);
                return None;
            }
            m = m + 1;
        }
        assert(pc[k as int] == bc[k as int]);
        k = k + 1;
    }
    assert(bc == pc.take(n as int));
    if n == ps.len() {
        assert(p@.subrange(0, 0) == Seq::<T>::empty());
        return Some((0, 0));
    }
    let start: usize = ps[n].0;
    let end: usize = ps[ps.len() - 1].1;
    assert(start < end);
    Some((start, end))
}

/// The components of a path with something appended behind a separator: those of
/// the path come first and unchanged.
proof fn lemma_spans_append<T: PathUnit>(p: Seq<T>, rest: Seq<T>)
    requires
        p.len() > 0,
    ensures
        ({
            let q = p + seq![T::sep()] + rest;
            &&& spans(q) == spans(p) + spans_from(q, p.len() as int + 1)
            &&& components(q).len() >= components(p).len()
            &&& components(q).take(components(p).len() as int) == components(p)
        }),
{
    let q = p + seq![T::sep()] + rest;
    let tail = spans_from(q, p.len() as int + 1);
    assert(q[0] == p[0]);
    if p[0] == T::sep() {
        lemma_spans_join(p, rest, 1);
        assert(seq![(0int, 1int)] + (spans_from(p, 1) + tail) == seq![(0int, 1int)] + spans_from(
            p,
            1,
        ) + tail);
    } else {
        lemma_spans_join(p, rest, 0);
    }
    lemma_spans(p);
    assert(spans(q) == spans(p) + tail);
    assert forall|k: int| 0 <= k < components(p).len() implies components(p)[k]
        == components(q)[k] by {
        let s = spans(p)[k];
        assert(spans(q)[k] == s);
        assert(p.subrange(s.0, s.1) == q.subrange(s.0, s.1));
    }
    assert(components(q).take(components(p).len() as int) == components(p));
}

/// A separator at the end of a path changes nothing about its components.
pub proof fn trailing_separator_is_ignored<T: PathUnit>(p: Seq<T>)
    requires
        p.len() > 0,
    ensures
        components(p + seq![T::sep()]) == components(p),
{
    let e = Seq::<T>::empty();
    let q = p + seq![T::sep()] + e;
    assert(q == p + seq![T::sep()]);
    lemma_spans_append(p, e);
    assert(spans_from(q, p.len() as int + 1) == Seq::<(int, int)>::empty());
    assert(components(q).take(components(p).len() as int) == components(q));
}

/// A dot behind a separator at the end of a path changes nothing about its
/// components.
pub proof fn trailing_dot_is_ignored<T: PathUnit>(p: Seq<T>)
    requires
        p.len() > 0,
        T::sep() != T::dot(),
    ensures
        components(p + seq![T::sep()] + seq![T::dot()]) == components(p),
{
    let q = p + seq![T::sep()] + seq![T::dot()];
    let m = p.len() as int + 1;
    lemma_spans_append(p, seq![T::dot()]);
    assert(q[m] == T::dot());
    reveal_with_fuel(piece_end, 3);
    assert(piece_end(q, m) == m + 1);
    assert(spans_from(q, m + 2) == Seq::<(int, int)>::empty());
    assert(spans_from(q, m) == Seq::<(int, int)>::empty());
    assert(components(q).take(components(p).len() as int) == components(q));
}

/// A name behind a separator at the end of a path is one more component.
pub proof fn appended_name_is_one_more_component<T: PathUnit>(p: Seq<T>, name: Seq<T>)
    requires
        p.len() > 0,
        name.len() > 0,
        name != seq![T::dot()],
        forall|i: int| 0 <= i < name.len() ==> name[i] != T::sep(),
    ensures
        components(p + seq![T::sep()] + name) == components(p).push(name),
{
    let q = p + seq![T::sep()] + name;
    let m = p.len() as int + 1;
    lemma_spans_append(p, name);
    assert forall|k: int| m <= k < q.len() implies q[k] != T::sep() by {
        assert(q[k] == name[k - m]);
    }
    lemma_piece_end(q, m);
    assert(piece_end(q, m) == q.len());
    if q.len() == m + 1 {
        assert(q[m] == name[0]);
        assert(name == seq![name[0]]);
    }
    assert(spans_from(q, q.len() as int + 1) == Seq::<(int, int)>::empty());
    assert(spans_from(q, m) == seq![(m, q.len() as int)]);
    assert(q.subrange(m, q.len() as int) == name);
    let n = components(p).len() as int;
    assert(components(q).len() == n + 1);
    assert(components(q) == components(q).take(n).push(name));
}

/// A name alone is a path of one component.
pub proof fn name_alone_is_one_component<T: PathUnit>(name: Seq<T>)
    requires
        name.len() > 0,
        forall|i: int| 0 <= i < name.len() ==> name[i] != T::sep(),
    ensures
        components(name) == seq![name],
{
    lemma_last_span(name, 0, 0);
    lemma_piece_end(name, 0);
    assert(piece_end(name, 0) == name.len());
    assert(spans_from(name, name.len() as int + 1) == Seq::<(int, int)>::empty());
    assert(spans(name) == seq![(0int, name.len() as int)]);
    assert(name.subrange(0, name.len() as int) == name);
    assert(components(name) == seq![name]);
}

/// The root is a path of one component, and an empty path has none.
pub proof fn root_is_one_component<T: PathUnit>()
    ensures
        components(seq![T::sep()]) == seq![seq![T::sep()]],
        components(Seq::<T>::empty()) == Seq::<Seq<T>>::empty(),
{
    let p = seq![T::sep()];
    assert(spans_from(p, 1) == Seq::<(int, int)>::empty());
    assert(spans(p) == seq![(0int, 1int)]);
    assert(p.subrange(0, 1) == p);
    assert(components(p) == seq![p]);
    assert(spans(Seq::<T>::empty()) == Seq::<(int, int)>::empty());
}

/// A path behind the root has the root and then its own components.
pub proof fn name_below_the_root<T: PathUnit>(name: Seq<T>)
    requires
        name.len() > 0,
        name != seq![T::dot()],
        forall|i: int| 0 <= i < name.len() ==> name[i] != T::sep(),
    ensures
        components(seq![T::sep()] + name) == seq![seq![T::sep()], name],
{
    let q = seq![T::sep()] + name;
    assert(q[0] == T::sep());
    assert forall|k: int| 1 <= k < q.len() implies q[k] != T::sep() by {
        assert(q[k] == name[k - 1]);
    }
    lemma_piece_end(q, 1);
    assert(piece_end(q, 1) == q.len());
    if q.len() == 2 {
        assert(q[1] == name[0]);
        assert(name == seq![name[0]]);
    }
    assert(spans_from(q, q.len() as int + 1) == Seq::<(int, int)>::empty());
    assert(spans_from(q, 1) == seq![(1int, q.len() as int)]);
    assert(spans(q) == seq![(0int, 1int), (1int, q.len() as int)]);
    assert(q.subrange(1, q.len() as int) == name);
    assert(q.subrange(0, 1) == seq![T::sep()]);
    assert(components(q) == seq![seq![T::sep()], name]);
}

/// A path lies below a folder exactly where its components start with those of
/// the folder, and of the folder itself nothing is left.
pub proof fn below_is_a_matter_of_components<T: PathUnit>(p: Seq<T>, base: Seq<T>)
    ensures
        below(p, base) is Some <==> (components(base).len() <= components(p).len() && forall|k: int|
            0 <= k < components(base).len() ==> components(base)[k] == components(p)[k]),
        below(p, p) == Some(Seq::<T>::empty()),
{
    let n = components(base).len() as int;
    if n <= components(p).len() && forall|k: int|
        0 <= k < n ==> components(base)[k] == components(p)[k] {
        assert(components(base) == components(p).take(n));
    }
    if components(base).is_prefix_of(components(p)) {
        assert forall|k: int| 0 <= k < n implies components(base)[k] == components(p)[k] by {
            assert(components(p).take(n)[k] == components(p)[k]);
        }
    }
    assert(components(p) == components(p).take(components(p).len() as int));
}

/// What a relative path must not look like for it to be found again below a
/// folder: start or end with a separator or with a lone dot.
pub proof fn plain_relative_path_is_trimmed<T: PathUnit>(r: Seq<T>)
    requires
        r.len() > 0,
        T::sep() != T::dot(),
        r[0] != T::sep(),
        r.last() != T::sep(),
        r != seq![T::dot()],
        !(r.len() >= 2 && r[0] == T::dot() && r[1] == T::sep()),
        !(r.len() >= 2 && r[r.len() - 2] == T::sep() && r.last() == T::dot()),
    ensures
        is_trimmed(r),
{
    lemma_piece_end(r, 0);
    crate::text::lemma_last_index(r, T::sep());
    let first = piece_end(r, 0);
    let last = last_index(r, T::sep()) + 1;
    if first == 0 {
        assert(r[0] == T::sep());
    }
    if first == 1 && r[0] == T::dot() {
        if r.len() == 1 {
            assert(r == seq![T::dot()]);
        }
    }
    if last == r.len() - 1 && r[last] == T::dot() {
        if last == 0 {
            assert(r == seq![T::dot()]);
        }
    }
}

} // verus!
