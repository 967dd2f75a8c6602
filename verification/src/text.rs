//! Small operations on text, stated over sequences of characters.
use vstd::prelude::*;

verus! {

/// `String::push` of std appends one character to the end of a string.
pub assume_specification[ String::push ](s: &mut String, c: char)
    ensures
        final(s)@ == old(s)@.push(c),
;

/// The characters of a string, in order.
pub fn chars_of(s: &str) -> (out: Vec<char>)
    ensures
        out@ == s@,
{
    let mut out: Vec<char> = Vec::new();
    for c in it: s.chars()
        invariant
            it.seq() == s@,
            out@ == s@.take(it.index() as int),
    {
        out.push(c);
    }
    assert(s@.take(s@.len() as int) == s@);
    out
}

/// The string made of the given characters.
pub fn string_of(chars: &[char]) -> (out: String)
    ensures
        out@ == chars@,
{
    let mut out = String::new();
    for i in 0..chars.len()
        invariant
            out@ == chars@.take(i as int),
    {
        out.push(chars[i]);
    }
    assert(chars@.take(chars@.len() as int) == chars@);
    out
}

/// Whether two strings hold the same characters.
pub fn same(a: &str, b: &str) -> (equal: bool)
    ensures
        equal == (a@ == b@),
{
    a.to_owned() == b.to_owned()
}

/// The text of an optional string.
pub open spec fn text_of(s: Option<&str>) -> Option<Seq<char>> {
    match s {
        Some(t) => Some(t@),
        None => None,
    }
}

/// `s` without the run of `c` that it ends in.
pub open spec fn trim_end<T>(s: Seq<T>, c: T) -> Seq<T>
    decreases s.len(),
{
    if s.len() > 0 && s.last() == c {
        trim_end(s.drop_last(), c)
    } else {
        s
    }
}

/// `s` without the run of `c` that it starts with.
pub open spec fn trim_start<T>(s: Seq<T>, c: T) -> Seq<T>
    decreases s.len(),
{
    if s.len() > 0 && s.first() == c {
        trim_start(s.drop_first(), c)
    } else {
        s
    }
}

/// The string without the slashes that it ends in.
pub fn without_trailing_slashes(s: &str) -> (out: String)
    ensures
        out@ == trim_end(s@, '/'),
{
    let chars = chars_of(s);
    let mut end: usize = chars.len();
    assert(s@.take(end as int) == s@);
    while end > 0 && chars[end - 1] == '/'
        invariant
            end <= chars.len(),
            chars@ == s@,
            trim_end(s@.take(end as int), '/') == trim_end(s@, '/'),
        decreases end,
    {
        assert(s@.take(end as int).drop_last() == s@.take(end - 1));
        end = end - 1;
    }
    let mut kept: Vec<char> = chars;
    kept.truncate(end);
    assert(kept@ == s@.take(end as int));
    string_of(kept.as_slice())
}

/// The characters without the underscores at either end.
pub fn without_outer_underscores(chars: &Vec<char>) -> (out: Vec<char>)
    ensures
        out@ == trim_end(trim_start(chars@, '_'), '_'),
{
    let mut start: usize = 0;
    assert(chars@.skip(0) == chars@);
    while start < chars.len() && chars[start] == '_'
        invariant
            start <= chars.len(),
            trim_start(chars@.skip(start as int), '_') == trim_start(chars@, '_'),
        decreases chars.len() - start,
    {
        assert(chars@.skip(start as int).drop_first() == chars@.skip(start + 1));
        start = start + 1;
    }
    let ghost middle = chars@.skip(start as int);
    let mut end: usize = chars.len();
    assert(middle.take(end - start) == middle);
    while end > start && chars[end - 1] == '_'
        invariant
            start <= end <= chars.len(),
            middle == chars@.skip(start as int),
            trim_end(middle.take(end - start), '_') == trim_end(middle, '_'),
        decreases end - start,
    {
        assert(middle.take(end - start).drop_last() == middle.take(end - 1 - start));
        end = end - 1;
    }
    let mut out: Vec<char> = Vec::new();
    for i in start..end
        invariant
            start <= end <= chars.len(),
            middle == chars@.skip(start as int),
            out@ == middle.take(i - start),
    {
        out.push(chars[i]);
    }
    out
}

/// The position of the last `c` in `s`, or -1 where there is none.
pub open spec fn last_index<T>(s: Seq<T>, c: T) -> int
    decreases s.len(),
{
    if s.len() == 0 {
        -1
    } else if s.last() == c {
        s.len() - 1
    } else {
        last_index(s.drop_last(), c)
    }
}

/// `last_index` is the last position that holds `c`.
pub proof fn lemma_last_index<T>(s: Seq<T>, c: T)
    ensures
        -1 <= last_index(s, c) < s.len(),
        last_index(s, c) >= 0 ==> s[last_index(s, c)] == c,
        forall|i: int| last_index(s, c) < i < s.len() ==> s[i] != c,
    decreases s.len(),
{
    if s.len() > 0 && s.last() != c {
        lemma_last_index(s.drop_last(), c);
        assert forall|i: int| last_index(s, c) < i < s.len() implies s[i] != c by {
            if i < s.len() - 1 {
                assert(s[i] == s.drop_last()[i]);
            }
        }
    }
}

/// The position of the last dot.
pub fn last_dot(chars: &Vec<char>) -> (at: Option<usize>)
    ensures
        match at {
            Some(i) => i == last_index(chars@, '.'),
            None => last_index(chars@, '.') == -1,
        },
        at matches Some(i) ==> i < chars.len(),
{
    let mut end: usize = chars.len();
    assert(chars@.take(end as int) == chars@);
    while end > 0
        invariant
            end <= chars.len(),
            last_index(chars@.take(end as int), '.') == last_index(chars@, '.'),
        decreases end,
    {
        if chars[end - 1] == '.' {
            return Some(end - 1);
        }
        assert(chars@.take(end as int).drop_last() == chars@.take(end - 1));
        end = end - 1;
    }
    None
}

/// Whether `needle` stands somewhere in `hay` without a gap.
pub open spec fn has_part<T>(hay: Seq<T>, needle: Seq<T>) -> bool {
    exists|i: int|
        0 <= i <= hay.len() - needle.len() && #[trigger] hay.subrange(i, i + needle.len())
            == needle
}

/// Whether `needle` stands somewhere in `hay`.
pub fn contains(hay: &str, needle: &str) -> (found: bool)
    ensures
        found == has_part(hay@, needle@),
{
    let h = chars_of(hay);
    let n = chars_of(needle);
    if n.len() > h.len() {
        return false;
    }
    let last: usize = h.len() - n.len();
    let mut i: usize = 0;
    while i <= last
        invariant
            h@ == hay@,
            n@ == needle@,
            last == h.len() - n.len(),
            i <= last + 1,
            forall|k: int|
                0 <= k < i ==> #[trigger] hay@.subrange(k, k + needle@.len()) != needle@,
        decreases last + 1 - i,
    {
        let mut j: usize = 0;
        while j < n.len() && h[i + j] == n[j]
            invariant
                j <= n.len(),
                i + n.len() <= h.len(),
                forall|k: int| 0 <= k < j ==> h@[i + k] == n@[k],
            decreases n.len() - j,
        {
            j = j + 1;
        }
        if j == n.len() {
            assert(hay@.subrange(i as int, i + needle@.len()) == needle@);
            return true;
        }
        assert(hay@.subrange(i as int, i + needle@.len())[j as int] != needle@[j as int]);
        if i == last {
            return false;
        }
        i = i + 1;
    }
    false
}

/// What follows `prefix` in `s`, where `s` starts with it.
pub open spec fn after_prefix<T>(s: Seq<T>, prefix: Seq<T>) -> Option<Seq<T>> {
    if prefix.is_prefix_of(s) {
        Some(s.skip(prefix.len() as int))
    } else {
        None
    }
}

/// What follows `prefix` in `s`, where `s` starts with it.
pub fn strip_prefix(s: &str, prefix: &str) -> (rest: Option<String>)
    ensures
        match rest {
            Some(r) => after_prefix(s@, prefix@) == Some(r@),
            None => after_prefix(s@, prefix@) is None,
        },
{
    let c = chars_of(s);
    let p = chars_of(prefix);
    if p.len() > c.len() {
        return None;
    }
    for i in 0..p.len()
        invariant
            c@ == s@,
            p@ == prefix@,
            p.len() <= c.len(),
            forall|k: int| 0 <= k < i ==> c@[k] == p@[k],
    {
        if c[i] != p[i] {
            assert(s@.take(prefix@.len() as int)[i as int] != prefix@[i as int]);
            return None;
        }
    }
    assert(prefix@ == s@.take(prefix@.len() as int));
    let mut out: Vec<char> = Vec::new();
    for i in p.len()..c.len()
        invariant
            p.len() <= c.len(),
            out@ == c@.subrange(p.len() as int, i as int),
    {
        out.push(c[i]);
    }
    assert(out@ == s@.skip(prefix@.len() as int));
    Some(string_of(out.as_slice()))
}

/// The characters that Unicode gives the property `White_Space`.
pub open spec fn is_white_space(c: char) -> bool {
    let u = c as u32;
    ||| 0x09 <= u <= 0x0d
    ||| u == 0x20
    ||| u == 0x85
    ||| u == 0xa0
    ||| u == 0x1680
    ||| 0x2000 <= u <= 0x200a
    ||| u == 0x2028
    ||| u == 0x2029
    ||| u == 0x202f
    ||| u == 0x205f
    ||| u == 0x3000
}

/// Whether a string holds nothing but white space.
pub fn is_blank(s: &str) -> (blank: bool)
    ensures
        blank == (forall|i: int| 0 <= i < s@.len() ==> is_white_space(#[trigger] s@[i])),
{
    let chars = chars_of(s);
    for i in 0..chars.len()
        invariant
            chars@ == s@,
            forall|k: int| 0 <= k < i ==> is_white_space(#[trigger] s@[k]),
    {
        let u: u32 = chars[i] as u32;
        let white = (0x09 <= u && u <= 0x0d) || u == 0x20 || u == 0x85 || u == 0xa0 || u == 0x1680
            || (0x2000 <= u && u <= 0x200a) || u == 0x2028 || u == 0x2029 || u == 0x202f || u
            == 0x205f || u == 0x3000;
        if !white {
            assert(!is_white_space(s@[i as int]));
            return false;
        }
    }
    true
}

/// The decimal digit of a number below ten.
pub open spec fn digit(d: nat) -> char
    recommends
        d < 10,
{
    (48 + d) as char
}

/// A natural number in decimal notation, without leading zeros.
pub open spec fn decimal_nat(n: nat) -> Seq<char>
    decreases n,
{
    if n < 10 {
        seq![digit(n)]
    } else {
        decimal_nat(n / 10).push(digit(n % 10))
    }
}

/// An integer in decimal notation.
pub open spec fn decimal(n: int) -> Seq<char> {
    if n < 0 {
        seq!['-'] + decimal_nat((-n) as nat)
    } else {
        decimal_nat(n as nat)
    }
}

/// Appends a number in decimal notation.
pub fn push_nat(out: &mut String, n: u64)
    ensures
        final(out)@ == old(out)@ + decimal_nat(n as nat),
    decreases n,
{
    if n >= 10 {
        push_nat(out, n / 10);
    }
    let d: u8 = (n % 10) as u8;
    out.push((48 + d) as char);
}

/// Appends an integer in decimal notation.
pub fn push_int(out: &mut String, n: i64)
    ensures
        final(out)@ == old(out)@ + decimal(n as int),
{
    if n < 0 {
        out.push('-');
        let magnitude: u64 = (-(n + 1)) as u64 + 1;
        push_nat(out, magnitude);
    } else {
        push_nat(out, n as u64);
    }
}

/// Decimal notation is made of digits.
pub proof fn lemma_digits(n: nat)
    ensures
        decimal_nat(n).len() > 0,
        forall|i: int|
            0 <= i < decimal_nat(n).len() ==> 48 <= (#[trigger] decimal_nat(n)[i]) as int <= 57,
    decreases n,
{
    if n >= 10 {
        lemma_digits(n / 10);
    }
}

/// Different numbers are written differently.
pub proof fn lemma_decimal_nat_injective(a: nat, b: nat)
    requires
        decimal_nat(a) == decimal_nat(b),
    ensures
        a == b,
    decreases a,
{
    lemma_digits(a / 10);
    lemma_digits(b / 10);
    let x = decimal_nat(a);
    if a < 10 {
        assert(x.len() == 1);
        assert(b < 10);
        assert(x[0] == digit(a));
        assert(x[0] == digit(b));
    } else {
        assert(x.len() > 1);
        assert(b >= 10);
        assert(x.last() == digit(a % 10));
        assert(x.last() == digit(b % 10));
        assert(x.drop_last() == decimal_nat(a / 10));
        assert(x.drop_last() == decimal_nat(b / 10));
        lemma_decimal_nat_injective(a / 10, b / 10);
    }
}

/// Different integers are written differently.
pub proof fn lemma_decimal_injective(a: int, b: int)
    requires
        decimal(a) == decimal(b),
    ensures
        a == b,
{
    if a >= 0 {
        lemma_digits(a as nat);
    }
    if b >= 0 {
        lemma_digits(b as nat);
    }
    assert(a < 0 <==> decimal(a)[0] == '-');
    assert(b < 0 <==> decimal(b)[0] == '-');
    if a < 0 {
        assert(decimal(a).skip(1) == decimal_nat((-a) as nat));
        assert(decimal(b).skip(1) == decimal_nat((-b) as nat));
        lemma_decimal_nat_injective((-a) as nat, (-b) as nat);
    } else {
        lemma_decimal_nat_injective(a as nat, b as nat);
    }
}

/// A natural number in decimal notation, with zeros in front so that it has at
/// least `width` digits.
pub open spec fn padded(n: nat, width: nat) -> Seq<char>
    decreases width,
{
    if width <= 1 {
        decimal_nat(n)
    } else {
        padded(n / 10, (width - 1) as nat).push(digit(n % 10))
    }
}

/// Appends a number with at least `width` digits.
pub fn push_padded(out: &mut String, n: u64, width: u64)
    ensures
        final(out)@ == old(out)@ + padded(n as nat, width as nat),
    decreases width,
{
    if width <= 1 {
        push_nat(out, n);
    } else {
        push_padded(out, n / 10, width - 1);
        let d: u8 = (n % 10) as u8;
        out.push((48 + d) as char);
    }
}

/// A padded number is made of digits, and of at least as many as asked for.
pub proof fn lemma_padded(n: nat, width: nat)
    ensures
        padded(n, width).len() >= width,
        padded(n, width).len() > 0,
        forall|i: int|
            0 <= i < padded(n, width).len() ==> 48 <= (#[trigger] padded(n, width)[i]) as int
                <= 57,
    decreases width,
{
    if width <= 1 {
        lemma_digits(n);
    } else {
        lemma_padded(n / 10, (width - 1) as nat);
    }
}

/// A number below a hundred takes two digits.
pub proof fn lemma_two_digits(n: nat)
    requires
        n < 100,
    ensures
        padded(n, 2).len() == 2,
{
    reveal_with_fuel(padded, 2);
    assert(decimal_nat(n / 10).len() == 1);
}

/// Trimming the end of a text cuts off occurrences of the one character, all of
/// them, and nothing else.
pub proof fn trimming_the_end_cuts_only_the_run<T>(s: Seq<T>, c: T)
    ensures
        trim_end(s, c).len() <= s.len(),
        trim_end(s, c) == s.take(trim_end(s, c).len() as int),
        forall|i: int| trim_end(s, c).len() <= i < s.len() ==> s[i] == c,
        trim_end(s, c).len() > 0 ==> trim_end(s, c).last() != c,
    decreases s.len(),
{
    if s.len() > 0 && s.last() == c {
        let init = s.drop_last();
        trimming_the_end_cuts_only_the_run(init, c);
        let n = trim_end(s, c).len() as int;
        assert(init.take(n) == s.take(n));
        assert forall|i: int| n <= i < s.len() implies s[i] == c by {
            if i < s.len() - 1 {
                assert(s[i] == init[i]);
            }
        }
    } else {
        assert(s == s.take(s.len() as int));
    }
}

/// Trimming the start of a text cuts off occurrences of the one character, all
/// of them, and nothing else.
pub proof fn trimming_the_start_cuts_only_the_run<T>(s: Seq<T>, c: T)
    ensures
        trim_start(s, c).len() <= s.len(),
        trim_start(s, c) == s.skip(s.len() - trim_start(s, c).len()),
        forall|i: int| 0 <= i < s.len() - trim_start(s, c).len() ==> s[i] == c,
        trim_start(s, c).len() > 0 ==> trim_start(s, c).first() != c,
    decreases s.len(),
{
    if s.len() > 0 && s.first() == c {
        let rest = s.drop_first();
        trimming_the_start_cuts_only_the_run(rest, c);
        let n = trim_start(s, c).len() as int;
        assert(rest.skip(s.len() - 1 - n) == s.skip(s.len() - n));
        assert forall|i: int| 0 <= i < s.len() - n implies s[i] == c by {
            if i > 0 {
                assert(s[i] == rest[i - 1]);
            }
        }
    } else {
        assert(s == s.skip(0));
    }
}

/// A text with slashes behind it is, without them, the text that it was.
pub proof fn trimming_takes_back_what_was_appended<T>(s: Seq<T>, c: T, n: nat)
    requires
        s.len() == 0 || s.last() != c,
    ensures
        trim_end(s + Seq::new(n, |i: int| c), c) == s,
    decreases n,
{
    let run = Seq::new(n, |i: int| c);
    let t = s + run;
    if n > 0 {
        trimming_takes_back_what_was_appended(s, c, (n - 1) as nat);
        assert(t.drop_last() == s + Seq::new((n - 1) as nat, |i: int| c));
        assert(t.last() == c);
    } else {
        assert(t == s);
    }
}

/// What stands between two texts is found in the whole.
pub proof fn part_between_is_found<T>(a: Seq<T>, needle: Seq<T>, b: Seq<T>)
    ensures
        has_part(a + needle + b, needle),
{
    let hay = a + needle + b;
    let i = a.len() as int;
    assert(hay.subrange(i, i + needle.len()) == needle);
}

/// Where a text is found in another, the other is that text with something
/// before and something behind it.
pub proof fn found_part_stands_between<T>(hay: Seq<T>, needle: Seq<T>) -> (sides: (Seq<T>, Seq<T>))
    requires
        has_part(hay, needle),
    ensures
        hay == sides.0 + needle + sides.1,
{
    let i = choose|i: int|
        0 <= i <= hay.len() - needle.len() && #[trigger] hay.subrange(i, i + needle.len())
            == needle;
    let a = hay.take(i);
    let b = hay.skip(i + needle.len());
    assert(hay == a + hay.subrange(i, i + needle.len()) + b);
    (a, b)
}

/// What follows a prefix is what was appended to it, and nothing follows a text
/// that does not start with the prefix.
pub proof fn prefix_comes_off_as_it_was_put_on<T>(prefix: Seq<T>, rest: Seq<T>, s: Seq<T>)
    ensures
        after_prefix(prefix + rest, prefix) == Some(rest),
        after_prefix(s, prefix) == Some(rest) ==> s == prefix + rest,
        after_prefix(s, prefix) is None ==> s != prefix + rest,
{
    let whole = prefix + rest;
    assert(prefix == whole.take(prefix.len() as int));
    assert(whole.skip(prefix.len() as int) == rest);
    if after_prefix(s, prefix) == Some(rest) {
        assert(s == s.take(prefix.len() as int) + s.skip(prefix.len() as int));
    }
}

/// No visible ASCII character is white space; blanks and line ends are.
pub proof fn white_space_is_not_visible(c: char)
    ensures
        0x21 <= c as int <= 0x7e ==> !is_white_space(c),
        c == ' ' || c == '\t' || c == '\n' || c == '\r' ==> is_white_space(c),
{
}

/// The number that a text of decimal digits stands for.
pub open spec fn number_of(s: Seq<char>) -> int
    decreases s.len(),
{
    if s.len() == 0 {
        0
    } else {
        number_of(s.drop_last()) * 10 + (s.last() as int - 48)
    }
}

/// A number in decimal notation reads back as that number, and it has no leading
/// zero.
pub proof fn decimal_reads_back(n: nat)
    ensures
        number_of(decimal_nat(n)) == n,
        decimal_nat(n).len() > 0,
        n > 0 ==> decimal_nat(n)[0] != '0',
        n == 0 ==> decimal_nat(n) == seq!['0'],
    decreases n,
{
    lemma_digits(n);
    if n < 10 {
        assert(decimal_nat(n).drop_last() == Seq::<char>::empty());
        assert(number_of(Seq::<char>::empty()) == 0);
    } else {
        decimal_reads_back(n / 10);
        assert(decimal_nat(n).drop_last() == decimal_nat(n / 10));
        assert(decimal_nat(n)[0] == decimal_nat(n / 10)[0]);
    }
}

/// An integer in decimal notation reads back: a minus sign and the number where
/// it is negative, and the number alone where it is not.
pub proof fn signed_decimal_reads_back(n: int)
    ensures
        n < 0 ==> decimal(n)[0] == '-' && number_of(decimal(n).skip(1)) == -n,
        n >= 0 ==> number_of(decimal(n)) == n && decimal(n)[0] != '-',
{
    if n < 0 {
        decimal_reads_back((-n) as nat);
        assert(decimal(n).skip(1) == decimal_nat((-n) as nat));
    } else {
        lemma_digits(n as nat);
        decimal_reads_back(n as nat);
    }
}

/// A padded number reads back as that number, and it is as wide as asked for
/// where its digits fit.
pub proof fn padded_number_reads_back(n: nat, width: nat)
    ensures
        number_of(padded(n, width)) == n,
        padded(n, width).len() >= width,
        decimal_nat(n).len() <= width && width > 0 ==> padded(n, width).len() == width,
    decreases width,
{
    lemma_padded(n, width);
    decimal_reads_back(n);
    if width > 1 {
        padded_number_reads_back(n / 10, (width - 1) as nat);
        decimal_reads_back(n / 10);
        assert(padded(n, width).drop_last() == padded(n / 10, (width - 1) as nat));
    }
}

/// The text of a string that is there is its characters.
pub proof fn text_of_a_string_is_its_characters(s: &str)
    ensures
        text_of(Some(s)) == Some(s@),
        text_of(None) is None,
{
}

} // verus!
