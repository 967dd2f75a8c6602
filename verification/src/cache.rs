//! A bounded in-memory cache of generated previews.
use vstd::prelude::*;

verus! {

/// Key of the preview cache. Because the modification time of the source file
/// is part of it, a modified file misses and its preview is made again.
#[derive(Debug, Eq, Hash)]
pub struct PreviewKey {
    pub path: String,
    pub width: u32,
    pub mtime_secs: i64,
}

/// What a preview key stands for.
pub struct KeyView {
    pub path: Seq<char>,
    pub width: u32,
    pub mtime_secs: i64,
}

impl View for PreviewKey {
    type V = KeyView;

    open spec fn view(&self) -> KeyView {
        KeyView { path: self.path@, width: self.width, mtime_secs: self.mtime_secs }
    }
}

impl Clone for PreviewKey {
    fn clone(&self) -> (copy: PreviewKey)
        ensures
            copy@ == self@,
    {
        PreviewKey { path: self.path.clone(), width: self.width, mtime_secs: self.mtime_secs }
    }
}

impl PartialEq for PreviewKey {
    fn eq(&self, other: &PreviewKey) -> (equal: bool) {
        self.path == other.path && self.width == other.width && self.mtime_secs
            == other.mtime_secs
    }
}

impl vstd::std_specs::cmp::PartialEqSpecImpl for PreviewKey {
    open spec fn obeys_eq_spec() -> bool {
        true
    }

    open spec fn eq_spec(&self, other: &PreviewKey) -> bool {
        self.path@ == other.path@ && self.width == other.width && self.mtime_secs
            == other.mtime_secs
    }
}

/// The entries of a cache, least recently used first.
pub type Entries = Seq<(KeyView, Seq<u8>)>;

/// The position of the entry with key `k`, or the number of entries where there
/// is none.
pub open spec fn place(s: Entries, k: KeyView) -> int
    decreases s.len(),
{
    if s.len() == 0 || s[0].0 == k {
        0
    } else {
        1 + place(s.skip(1), k)
    }
}

/// Whether some entry has the key `k`.
pub open spec fn has_key(s: Entries, k: KeyView) -> bool {
    place(s, k) < s.len()
}

/// The bytes stored under `k`.
pub open spec fn bytes_of(s: Entries, k: KeyView) -> Option<Seq<u8>> {
    if has_key(s, k) {
        Some(s[place(s, k)].1)
    } else {
        None
    }
}

/// The entries with that of `k` left out.
pub open spec fn without(s: Entries, k: KeyView) -> Entries {
    if has_key(s, k) {
        s.remove(place(s, k))
    } else {
        s
    }
}

/// No two entries have the same key.
pub open spec fn distinct_keys(s: Entries) -> bool {
    forall|i: int, j: int| 0 <= i < j < s.len() ==> (#[trigger] s[i]).0 != (#[trigger] s[j]).0
}

/// The entries after storing `bytes` under `k`: an entry of that key is
/// replaced; otherwise, where the cache is full, the least recently used entry
/// leaves. The stored entry is the most recently used one.
pub open spec fn stored(s: Entries, k: KeyView, bytes: Seq<u8>) -> Entries {
    if has_key(s, k) {
        without(s, k).push((k, bytes))
    } else if s.len() >= PreviewCache::CAPACITY {
        s.skip(s.len() - PreviewCache::CAPACITY + 1).push((k, bytes))
    } else {
        s.push((k, bytes))
    }
}

/// The entries after `k` was used: its entry, if there is one, becomes the most
/// recently used one.
pub open spec fn used(s: Entries, k: KeyView) -> Entries {
    match bytes_of(s, k) {
        Some(bytes) => without(s, k).push((k, bytes)),
        None => s,
    }
}

pub proof fn lemma_place(s: Entries, k: KeyView)
    ensures
        0 <= place(s, k) <= s.len(),
        has_key(s, k) ==> s[place(s, k)].0 == k,
        forall|i: int| 0 <= i < place(s, k) ==> (#[trigger] s[i]).0 != k,
    decreases s.len(),
{
    if s.len() > 0 && s[0].0 != k {
        lemma_place(s.skip(1), k);
        assert forall|i: int| 0 <= i < place(s, k) implies (#[trigger] s[i]).0 != k by {
            if i > 0 {
                assert(s[i] == s.skip(1)[i - 1]);
            }
        }
    }
}

/// A position whose key is `k`, with no such key before it, is the place of `k`.
pub proof fn lemma_place_is(s: Entries, k: KeyView, p: int)
    requires
        0 <= p <= s.len(),
        p < s.len() ==> s[p].0 == k,
        forall|i: int| 0 <= i < p ==> (#[trigger] s[i]).0 != k,
    ensures
        place(s, k) == p,
{
    lemma_place(s, k);
    let q = place(s, k);
    if q < p {
        assert(s[q].0 != k);
    }
}

/// The entries of a cache as the model sees them.
pub open spec fn entries_view(v: Seq<(PreviewKey, Vec<u8>)>) -> Entries {
    Seq::new(v.len(), |i: int| (v[i].0@, v[i].1@))
}

/// Bounded cache of generated preview JPEGs that drops the least recently used
/// entry where it is full. Storing an entry and finding it count as uses.
pub struct PreviewCache {
    entries: Vec<(PreviewKey, Vec<u8>)>,
}

impl View for PreviewCache {
    type V = Entries;

    closed spec fn view(&self) -> Entries {
        entries_view(self.entries@)
    }
}

impl PreviewCache {
    /// How many entries the cache holds at most.
    pub const CAPACITY: usize = 1024;

    /// No key occurs twice, and there are never more entries than fit.
    pub open spec fn wf(&self) -> bool {
        distinct_keys(self@) && self@.len() <= Self::CAPACITY
    }

    #[verifier::type_invariant]
    spec fn invariant_holds(self) -> bool {
        self.wf()
    }

    /// An empty cache.
    pub fn new() -> (cache: PreviewCache)
        ensures
            cache@ == Entries::empty(),
            cache.wf(),
    {
        let entries: Vec<(PreviewKey, Vec<u8>)> = Vec::new();
        assert(entries_view(entries@) == Entries::empty());
        PreviewCache { entries }
    }

    /// The position of a key, or the number of entries where it has none.
    fn position(&self, key: &PreviewKey) -> (p: usize)
        ensures
            p == place(self@, key@),
            p <= self.entries@.len(),
    {
        let mut p: usize = 0;
        while p < self.entries.len() && self.entries[p].0 != *key
            invariant
                p <= self.entries@.len(),
                forall|i: int| 0 <= i < p ==> (#[trigger] self@[i]).0 != key@,
            decreases self.entries@.len() - p,
        {
            assert(self@[p as int].0 == self.entries@[p as int].0@);
            p = p + 1;
        }
        proof {
            if p < self.entries@.len() {
                assert(self@[p as int].0 == self.entries@[p as int].0@);
            }
            lemma_place_is(self@, key@, p as int);
        }
        p
    }

    /// The bytes stored under a key. Finding them counts as a use.
    pub fn get(&mut self, key: &PreviewKey) -> (bytes: Option<&[u8]>)
        ensures
            match bytes {
                Some(b) => bytes_of(old(self)@, key@) == Some(b@),
                None => bytes_of(old(self)@, key@) is None,
            },
            final(self)@ == used(old(self)@, key@),
            final(self).wf(),
    {
        proof {
            use_type_invariant(&*self);
        }
        let p = self.position(key);
        if p == self.entries.len() {
            return None;
        }
        let ghost before = self@;
        let mut entries: Vec<(PreviewKey, Vec<u8>)> = Vec::new();
        assert(entries_view(entries@) == Entries::empty());
        core::mem::swap(&mut entries, &mut self.entries);
        let (k, b): (PreviewKey, Vec<u8>) = entries.remove(p);
        proof {
            lemma_place(before, key@);
            assert(before[p as int] == (k@, b@));
            assert(entries_view(entries@) == without(before, key@));
        }
        let ghost rest = entries_view(entries@);
        let last: usize = entries.len();
        entries.push((k, b));
        proof {
            assert(entries_view(entries@) == rest.push((key@, b@)));
            used_keeps_cache_sound(before, key@);
        }
        self.entries = entries;
        Some(self.entries[last].1.as_slice())
    }

    /// Stores bytes under a key, which counts as a use.
    pub fn insert(&mut self, key: PreviewKey, bytes: Vec<u8>)
        ensures
            final(self)@ == stored(old(self)@, key@, bytes@),
            final(self).wf(),
    {
        proof {
            use_type_invariant(&*self);
        }
        let p = self.position(&key);
        let ghost before = self@;
        let mut entries: Vec<(PreviewKey, Vec<u8>)> = Vec::new();
        assert(entries_view(entries@) == Entries::empty());
        core::mem::swap(&mut entries, &mut self.entries);
        proof {
            lemma_place(before, key@);
        }
        if p < entries.len() {
            entries.remove(p);
            assert(entries_view(entries@) == without(before, key@));
        } else {
            if entries.len() >= Self::CAPACITY {
                let ghost prev = entries@;
                entries.remove(0);
                assert(entries_view(entries@) == entries_view(prev).skip(1));
            }
        }
        let ghost rest = entries_view(entries@);
        let ghost k = key@;
        let ghost b = bytes@;
        entries.push((key, bytes));
        proof {
            assert(entries_view(entries@) == rest.push((k, b)));
            assert(entries_view(entries@) == stored(before, k, b));
            stored_keeps_cache_sound(before, k, b);
        }
        self.entries = entries;
    }
}

impl Default for PreviewCache {
    fn default() -> (cache: PreviewCache)
        ensures
            cache@ == Entries::empty(),
            cache.wf(),
    {
        PreviewCache::new()
    }
}

/// Storing keeps the keys distinct and the cache within its capacity, and a key
/// that was there before does not make it grow.
pub proof fn stored_keeps_cache_sound(s: Entries, k: KeyView, bytes: Seq<u8>)
    requires
        distinct_keys(s),
        s.len() <= PreviewCache::CAPACITY,
    ensures
        distinct_keys(stored(s, k, bytes)),
        stored(s, k, bytes).len() <= PreviewCache::CAPACITY,
        has_key(s, k) ==> stored(s, k, bytes).len() == s.len(),
{
    lemma_place(s, k);
    let r = stored(s, k, bytes);
    assert forall|i: int, j: int| 0 <= i < j < r.len() implies (#[trigger] r[i]).0 != (
    #[trigger] r[j]).0 by {
        lemma_kept_entry(s, k, bytes, i);
        lemma_kept_entry(s, k, bytes, j);
    }
}

/// Where each entry of the cache stood before a store.
proof fn lemma_kept_entry(s: Entries, k: KeyView, bytes: Seq<u8>, i: int)
    requires
        distinct_keys(s),
        s.len() <= PreviewCache::CAPACITY,
        0 <= i < stored(s, k, bytes).len(),
    ensures
        ({
            let r = stored(s, k, bytes);
            let from = if has_key(s, k) {
                if i < place(s, k) {
                    i
                } else {
                    i + 1
                }
            } else if s.len() == PreviewCache::CAPACITY {
                i + 1
            } else {
                i
            };
            &&& i == r.len() - 1 ==> r[i] == (k, bytes)
            &&& i < r.len() - 1 ==> 0 <= from < s.len() && r[i] == s[from] && r[i].0 != k
        }),
{
    lemma_place(s, k);
    if has_key(s, k) && i < stored(s, k, bytes).len() - 1 {
        let p = place(s, k);
        let from = if i < p {
            i
        } else {
            i + 1
        };
        assert(s[from].0 != s[p].0);
    }
}

/// Using an entry keeps the keys distinct and the size as it is.
pub proof fn used_keeps_cache_sound(s: Entries, k: KeyView)
    requires
        distinct_keys(s),
        s.len() <= PreviewCache::CAPACITY,
    ensures
        distinct_keys(used(s, k)),
        used(s, k).len() == s.len(),
{
    lemma_place(s, k);
    if has_key(s, k) {
        let b = s[place(s, k)].1;
        assert(used(s, k) == stored(s, k, b));
        stored_keeps_cache_sound(s, k, b);
    }
}

/// What was stored last under a key is what a lookup of the key gives.
pub proof fn stored_bytes_are_found(s: Entries, k: KeyView, bytes: Seq<u8>)
    requires
        distinct_keys(s),
        s.len() <= PreviewCache::CAPACITY,
    ensures
        bytes_of(stored(s, k, bytes), k) == Some(bytes),
{
    let r = stored(s, k, bytes);
    assert forall|i: int| 0 <= i < r.len() - 1 implies (#[trigger] r[i]).0 != k by {
        lemma_kept_entry(s, k, bytes, i);
    }
    lemma_kept_entry(s, k, bytes, r.len() - 1);
    lemma_place_is(r, k, r.len() - 1);
}

/// Storing under one key does not touch what is stored under another, except
/// that a full cache loses its least recently used entry to a new key.
pub proof fn other_entries_stay(s: Entries, k: KeyView, bytes: Seq<u8>, other: KeyView)
    requires
        distinct_keys(s),
        s.len() <= PreviewCache::CAPACITY,
        other != k,
    ensures
        bytes_of(stored(s, k, bytes), other) == if !has_key(s, k) && s.len()
            == PreviewCache::CAPACITY && s[0].0 == other {
            None
        } else {
            bytes_of(s, other)
        },
{
    let r = stored(s, k, bytes);
    lemma_place(s, other);
    lemma_place(s, k);
    let q = place(s, other);
    let dropped = !has_key(s, k) && s.len() == PreviewCache::CAPACITY;
    let to = if has_key(s, k) {
        if q < place(s, k) {
            q
        } else {
            q - 1
        }
    } else if dropped {
        q - 1
    } else {
        q
    };
    assert forall|i: int| 0 <= i < r.len() && i != to implies (#[trigger] r[i]).0 != other by {
        lemma_kept_entry(s, k, bytes, i);
        if i < r.len() - 1 && q < s.len() {
            assert(s[q].0 == other);
        }
    }
    if q < s.len() && !(dropped && q == 0) {
        lemma_kept_entry(s, k, bytes, to);
        lemma_place_is(r, other, to);
    } else {
        lemma_place(r, other);
        if has_key(r, other) {
            let i = place(r, other);
            lemma_kept_entry(s, k, bytes, i);
        }
    }
}

/// Using an entry changes no lookup.
pub proof fn using_changes_no_lookup(s: Entries, k: KeyView, other: KeyView)
    requires
        distinct_keys(s),
        s.len() <= PreviewCache::CAPACITY,
    ensures
        bytes_of(used(s, k), other) == bytes_of(s, other),
{
    lemma_place(s, k);
    if has_key(s, k) {
        let b = s[place(s, k)].1;
        assert(used(s, k) == stored(s, k, b));
        if other == k {
            stored_bytes_are_found(s, k, b);
        } else {
            other_entries_stay(s, k, b, other);
        }
    }
}

/// An operation on the cache.
pub enum CacheOp {
    Store(KeyView, Seq<u8>),
    Use(KeyView),
}

/// The entries after an operation.
pub open spec fn after_op(s: Entries, op: CacheOp) -> Entries {
    match op {
        CacheOp::Store(k, bytes) => stored(s, k, bytes),
        CacheOp::Use(k) => used(s, k),
    }
}

/// The entries after a series of operations.
pub open spec fn after_ops(s: Entries, ops: Seq<CacheOp>) -> Entries
    decreases ops.len(),
{
    if ops.len() == 0 {
        s
    } else {
        after_ops(after_op(s, ops[0]), ops.skip(1))
    }
}

/// An operation leaves an entry in the cache where fewer than the capacity less
/// one entries were used more recently, and at most one more is then.
proof fn lemma_survives_op(s: Entries, op: CacheOp, k: KeyView)
    requires
        distinct_keys(s),
        s.len() <= PreviewCache::CAPACITY,
        has_key(s, k),
        s.len() - 1 - place(s, k) < PreviewCache::CAPACITY - 1,
    ensures
        ({
            let r = after_op(s, op);
            &&& distinct_keys(r)
            &&& r.len() <= PreviewCache::CAPACITY
            &&& has_key(r, k)
            &&& r.len() - 1 - place(r, k) <= s.len() - place(s, k)
        }),
{
    lemma_place(s, k);
    match op {
        CacheOp::Store(j, b) => lemma_survives_store(s, j, b, k),
        CacheOp::Use(j) => {
            lemma_place(s, j);
            if has_key(s, j) {
                let b = s[place(s, j)].1;
                assert(used(s, j) == stored(s, j, b));
                lemma_survives_store(s, j, b, k);
            }
        },
    }
}

proof fn lemma_survives_store(s: Entries, j: KeyView, b: Seq<u8>, k: KeyView)
    requires
        distinct_keys(s),
        s.len() <= PreviewCache::CAPACITY,
        has_key(s, k),
        s.len() - 1 - place(s, k) < PreviewCache::CAPACITY - 1,
    ensures
        ({
            let r = stored(s, j, b);
            &&& distinct_keys(r)
            &&& r.len() <= PreviewCache::CAPACITY
            &&& has_key(r, k)
            &&& r.len() - 1 - place(r, k) <= s.len() - place(s, k)
        }),
{
    let r = stored(s, j, b);
    let q = place(s, k);
    lemma_place(s, k);
    lemma_place(s, j);
    stored_keeps_cache_sound(s, j, b);
    let to = if j == k {
        r.len() - 1
    } else if has_key(s, j) {
        if q < place(s, j) {
            q
        } else {
            q - 1
        }
    } else if s.len() == PreviewCache::CAPACITY {
        q - 1
    } else {
        q
    };
    lemma_kept_entry(s, j, b, to);
    assert(r[to].0 == k);
    assert forall|i: int| 0 <= i < to implies (#[trigger] r[i]).0 != k by {
        assert(r[i].0 != r[to].0);
    }
    lemma_place_is(r, k, to);
}

/// An entry is dropped only after it has become the least recently used of a
/// full cache: as long as fewer operations have followed its last use than the
/// cache has places, it is still there.
pub proof fn recently_used_entry_survives(s: Entries, k: KeyView, ops: Seq<CacheOp>)
    requires
        distinct_keys(s),
        s.len() <= PreviewCache::CAPACITY,
        has_key(s, k),
        s.len() - 1 - place(s, k) + ops.len() < PreviewCache::CAPACITY,
    ensures
        has_key(after_ops(s, ops), k),
    decreases ops.len(),
{
    if ops.len() > 0 {
        lemma_survives_op(s, ops[0], k);
        recently_used_entry_survives(after_op(s, ops[0]), k, ops.skip(1));
    }
}

/// Whatever else is stored and used: under a key that nothing was stored under,
/// nothing is found. The modification time is part of the key, so the first
/// request for a preview of a modified file always misses.
pub proof fn modified_file_misses(s: Entries, k: KeyView, ops: Seq<CacheOp>)
    requires
        distinct_keys(s),
        s.len() <= PreviewCache::CAPACITY,
        bytes_of(s, k) is None,
        forall|i: int|
            0 <= i < ops.len() ==> (#[trigger] ops[i] matches CacheOp::Store(j, _) ==> j != k),
    ensures
        bytes_of(after_ops(s, ops), k) is None,
    decreases ops.len(),
{
    if ops.len() > 0 {
        match ops[0] {
            CacheOp::Store(j, bytes) => {
                stored_keeps_cache_sound(s, j, bytes);
                other_entries_stay(s, j, bytes, k);
            },
            CacheOp::Use(j) => {
                used_keeps_cache_sound(s, j);
                using_changes_no_lookup(s, j, k);
            },
        }
        modified_file_misses(after_op(s, ops[0]), k, ops.skip(1));
    }
}

/// Two keys are the same exactly where path, width and time all are.
pub proof fn every_part_of_a_key_counts(a: PreviewKey, b: PreviewKey)
    ensures
        a@ == b@ <==> a.path@ == b.path@ && a.width == b.width && a.mtime_secs == b.mtime_secs,
        a@.path == a.path@,
        a@.width == a.width,
        a@.mtime_secs == a.mtime_secs,
{
}

/// A lookup finds the bytes of the entry with the very key, all of them, and finds
/// nothing only where no entry has the key.
pub proof fn lookup_finds_the_entry(s: Entries, k: KeyView, i: int)
    requires
        distinct_keys(s),
    ensures
        0 <= i < s.len() && s[i].0 == k ==> bytes_of(s, k) == Some(s[i].1),
        bytes_of(s, k) is None ==> forall|j: int| 0 <= j < s.len() ==> (#[trigger] s[j]).0 != k,
        bytes_of(s, k) is Some ==> s.contains((k, bytes_of(s, k)->0)),
{
    lemma_place(s, k);
    let p = place(s, k);
    if 0 <= i < s.len() && s[i].0 == k {
        if p < i {
            assert(s[p].0 != s[i].0);
        }
        assert(p == i);
    }
    if p < s.len() {
        assert(s[p] == (k, s[p].1));
    }
}

/// What is stored is found in full, whatever its size; what was stored under other
/// keys is still found unless the cache held 1024 entries, the stored key was new,
/// and the entry was the one unused for longest.
pub proof fn cache_of_1024_keeps_what_is_stored(
    s: Entries,
    k: KeyView,
    bytes: Seq<u8>,
    other: KeyView,
)
    requires
        forall|i: int, j: int|
            0 <= i < j < s.len() ==> (#[trigger] s[i]).0 != (#[trigger] s[j]).0,
        s.len() <= 1024,
    ensures
        bytes_of(stored(s, k, bytes), k) == Some(bytes),
        stored(s, k, bytes).len() <= 1024,
        stored(s, k, bytes).last() == (k, bytes),
        other != k && (s.len() < 1024 || bytes_of(s, k) is Some || s[0].0 != other) ==> bytes_of(
            stored(s, k, bytes),
            other,
        ) == bytes_of(s, other),
        s.len() == 1024 && bytes_of(s, k) is None && s[0].0 == other ==> bytes_of(
            stored(s, k, bytes),
            other,
        ) is None || other == k,
{
    assert(distinct_keys(s));
    stored_bytes_are_found(s, k, bytes);
    stored_keeps_cache_sound(s, k, bytes);
    if other != k {
        other_entries_stay(s, k, bytes, other);
    }
}

/// Finding an entry makes it the one used last and leaves the order of the others;
/// looking for what is not there changes nothing.
pub proof fn finding_an_entry_makes_it_the_last_used(s: Entries, k: KeyView, i: int)
    requires
        forall|a: int, b: int|
            0 <= a < b < s.len() ==> (#[trigger] s[a]).0 != (#[trigger] s[b]).0,
        s.len() <= 1024,
    ensures
        0 <= i < s.len() && s[i].0 == k ==> used(s, k) == s.take(i) + s.skip(i + 1) + seq![s[i]],
        (forall|j: int| 0 <= j < s.len() ==> (#[trigger] s[j]).0 != k) ==> used(s, k) == s,
{
    assert(distinct_keys(s));
    lemma_place(s, k);
    if 0 <= i < s.len() && s[i].0 == k {
        let p = place(s, k);
        if p < i {
            assert(s[p].0 != s[i].0);
        }
        assert(s[i] == (k, s[i].1));
        assert(s.remove(i).push(s[i]) == s.take(i) + s.skip(i + 1) + seq![s[i]]);
    }
    if has_key(s, k) {
        assert(s[place(s, k)].0 == k);
    }
}

/// An entry that was used is still there after up to 1023 further operations,
/// whatever they are.
pub proof fn entry_outlives_1023_operations(s: Entries, k: KeyView, ops: Seq<CacheOp>)
    requires
        forall|i: int, j: int|
            0 <= i < j < s.len() ==> (#[trigger] s[i]).0 != (#[trigger] s[j]).0,
        0 < s.len() <= 1024,
        s.last().0 == k,
        ops.len() <= 1023,
    ensures
        bytes_of(after_ops(s, ops), k) is Some,
{
    assert(distinct_keys(s));
    lemma_place(s, k);
    assert(place(s, k) == s.len() - 1) by {
        let p = place(s, k);
        if p < s.len() - 1 {
            assert(s[p].0 != s[s.len() - 1].0);
        } else if p == s.len() {
            assert(s[s.len() - 1].0 != k);
        }
    }
    recently_used_entry_survives(s, k, ops);
}

/// A cache never holds more than 1024 entries, and no two of the same key.
pub proof fn cache_is_bounded(cache: &PreviewCache, i: int, j: int)
    requires
        cache.wf(),
    ensures
        cache@.len() <= 1024,
        0 <= i < j < cache@.len() ==> cache@[i].0 != cache@[j].0,
{
}

/// Operations take effect one after the other.
pub proof fn operations_take_effect_in_order(
    s: Entries,
    k: KeyView,
    bytes: Seq<u8>,
    ops: Seq<CacheOp>,
)
    ensures
        after_ops(s, Seq::<CacheOp>::empty()) == s,
        after_ops(s, seq![CacheOp::Store(k, bytes)] + ops) == after_ops(stored(s, k, bytes), ops),
        after_ops(s, seq![CacheOp::Use(k)] + ops) == after_ops(used(s, k), ops),
{
    let a = seq![CacheOp::Store(k, bytes)] + ops;
    let b = seq![CacheOp::Use(k)] + ops;
    assert(a[0] == CacheOp::Store(k, bytes));
    assert(b[0] == CacheOp::Use(k));
    assert(a.skip(1) == ops);
    assert(b.skip(1) == ops);
}

} // verus!
