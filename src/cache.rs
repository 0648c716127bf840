use vstd::prelude::*;
use vstd::string::StringExecFns;
use vstd::utf8::encode_utf8;
use crate::scan::{NodeModulesInfo, views};
use base64::Engine;

verus! {

/// How long a cached scan stays usable: ten minutes, in milliseconds.
pub const CACHE_TTL_MS: u64 = 600000;

/// The standard base64 text (with padding) of a byte string.
pub uninterp spec fn base64_text(b: Seq<u8>) -> Seq<char>;

/// Relies on base64's `STANDARD.encode`: the padded standard-alphabet
/// encoding of the path's bytes, a function of those bytes alone. It panics
/// only where the encoded length overflows `usize`, which the bound excludes.
#[verifier::external_body]
fn get_cache_key(path: &str) -> (r: String)
    requires
        encode_utf8(path@).len() <= isize::MAX,
    ensures
        r@ == base64_text(encode_utf8(path@)),
{
    base64::engine::general_purpose::STANDARD.encode(path.as_bytes())
}

/// Relies on `dirs::cache_dir`: the platform's per-user cache directory,
/// where one is known. It reads the environment, so nothing is claimed of it.
#[verifier::external_body]
fn platform_cache_dir() -> (r: Option<String>) {
    dirs::cache_dir().map(|p| p.to_string_lossy().into_owned())
}

/// Where the cache file lies below a cache directory.
pub open spec fn cache_file_under(base: Seq<char>) -> Seq<char> {
    base + "/nmrs/cache.json"@
}

/// The cache file below the cache directory `base`: `nmrs/cache.json`.
pub fn cache_file_in(base: &str) -> (r: String)
    ensures
        r@ == cache_file_under(base@),
{
    let mut s = base.to_owned();
    s.append("/nmrs/cache.json");
    s
}

/// The cache file below the platform's cache directory, where there is one.
pub fn get_cache_file() -> (r: Option<String>)
    ensures
        r matches Some(s) ==> exists|base: Seq<char>| s@ == cache_file_under(base),
{
    match platform_cache_dir() {
        Some(base) => Some(cache_file_in(base.as_str())),
        None => None,
    }
}

/// The cache key of a path.
pub open spec fn cache_key(path: Seq<char>) -> Seq<char> {
    base64_text(encode_utf8(path))
}

/// The scan of one path, as the cache keeps it.
pub struct CacheEntry {
    pub path: String,
    pub results: Vec<NodeModulesInfo>,
    pub timestamp: u64,
}

/// What a cache entry holds: the path, the results, the time it was written.
pub type EntryView = (Seq<char>, Seq<(Seq<char>, u64)>, u64);

impl View for CacheEntry {
    type V = EntryView;

    open spec fn view(&self) -> EntryView {
        (self.path@, views(self.results@), self.timestamp)
    }
}

/// A cache entry under its key.
pub struct KeyedEntry {
    pub key: String,
    pub entry: CacheEntry,
}

impl View for KeyedEntry {
    type V = (Seq<char>, EntryView);

    open spec fn view(&self) -> (Seq<char>, EntryView) {
        (self.key@, self.entry@)
    }
}

/// The whole cache: every stored scan under its key.
pub struct CacheData {
    pub entries: Vec<KeyedEntry>,
}

impl View for CacheData {
    type V = Seq<(Seq<char>, EntryView)>;

    open spec fn view(&self) -> Seq<(Seq<char>, EntryView)> {
        self.entries@.map_values(|e: KeyedEntry| e@)
    }
}

/// An entry written at `timestamp` is still usable at `now`.
pub open spec fn is_valid_at(timestamp: u64, now: u64) -> bool {
    now - timestamp < CACHE_TTL_MS
}

/// The entry stored under `key`: the last one written with it.
pub open spec fn lookup(entries: Seq<(Seq<char>, EntryView)>, key: Seq<char>) -> Option<EntryView>
    decreases entries.len(),
{
    if entries.len() == 0 {
        None
    } else if entries.last().0 == key {
        Some(entries.last().1)
    } else {
        lookup(entries.drop_last(), key)
    }
}

/// Whether an entry is still usable at `now`.
pub fn is_entry_valid(entry: &CacheEntry, now: u64) -> (r: bool)
    ensures
        r == is_valid_at(entry.timestamp, now),
{
    now < entry.timestamp || now - entry.timestamp < CACHE_TTL_MS
}

/// What a cache read gives for `path` at `now`: the stored results where a
/// usable entry is there, else a miss.
pub open spec fn cached_results(
    entries: Seq<(Seq<char>, EntryView)>,
    path: Seq<char>,
    now: u64,
) -> Option<Seq<(Seq<char>, u64)>> {
    match lookup(entries, cache_key(path)) {
        Some(e) => if is_valid_at(e.2, now) {
            Some(e.1)
        } else {
            None
        },
        None => None,
    }
}

/// The entries that a write at `now` keeps besides its own: those under
/// other keys that are still usable, in their order.
pub open spec fn kept_entries(
    entries: Seq<(Seq<char>, EntryView)>,
    key: Seq<char>,
    now: u64,
) -> Seq<(Seq<char>, EntryView)>
    decreases entries.len(),
{
    if entries.len() == 0 {
        seq![]
    } else {
        let rest = kept_entries(entries.drop_last(), key, now);
        let e = entries.last();
        if e.0 != key && is_valid_at(e.1.2, now) {
            rest.push(e)
        } else {
            rest
        }
    }
}

/// The cache after writing `results` for `path` at `now`: the expired
/// entries and the old one for this key dropped, the new one added.
pub open spec fn after_write(
    entries: Seq<(Seq<char>, EntryView)>,
    path: Seq<char>,
    results: Seq<(Seq<char>, u64)>,
    now: u64,
) -> Seq<(Seq<char>, EntryView)> {
    kept_entries(entries, cache_key(path), now).push((cache_key(path), (path, results, now)))
}

/// A copy of a sequence of results.
pub fn copy_results(v: &Vec<NodeModulesInfo>) -> (r: Vec<NodeModulesInfo>)
    ensures
        views(r@) == views(v@),
{
    let mut out: Vec<NodeModulesInfo> = Vec::new();
    let mut i: usize = 0;
    while i < v.len()
        invariant
            i <= v@.len(),
            views(out@) == views(v@).subrange(0, i as int),
        decreases v.len() - i,
    {
        let ghost before = views(out@);
        out.push(v[i].duplicate());
        assert(views(out@) =~= before.push(v@[i as int]@));
        assert(views(v@).subrange(0, i + 1) =~= before.push(v@[i as int]@));
        i = i + 1;
    }
    assert(views(v@).subrange(0, i as int) =~= views(v@));
    out
}

impl CacheEntry {
    pub fn duplicate(&self) -> (r: CacheEntry)
        ensures
            r@ == self@,
    {
        CacheEntry {
            path: self.path.clone(),
            results: copy_results(&self.results),
            timestamp: self.timestamp,
        }
    }
}

impl CacheData {
    /// An empty cache.
    pub fn new() -> (r: CacheData)
        ensures
            r@ == Seq::<(Seq<char>, EntryView)>::empty(),
    {
        let r = CacheData { entries: Vec::new() };
        assert(r@ =~= Seq::<(Seq<char>, EntryView)>::empty());
        r
    }
}

/// No two entries share a key.
pub open spec fn keys_unique(entries: Seq<(Seq<char>, EntryView)>) -> bool {
    forall|i: int, j: int|
        0 <= i < j < entries.len() ==> #[trigger] entries[i].0 != #[trigger] entries[j].0
}

/// What a write keeps comes from the entries it started from, all under
/// keys other than its own, with no key twice where there was none before.
proof fn lemma_kept_entries_from(
    entries: Seq<(Seq<char>, EntryView)>,
    key: Seq<char>,
    now: u64,
)
    requires
        keys_unique(entries),
    ensures
        forall|i: int|
            0 <= i < kept_entries(entries, key, now).len() ==> entries.contains(
                #[trigger] kept_entries(entries, key, now)[i],
            ) && kept_entries(entries, key, now)[i].0 != key,
        keys_unique(kept_entries(entries, key, now)),
    decreases entries.len(),
{
    if entries.len() > 0 {
        let init = entries.drop_last();
        assert(keys_unique(init));
        lemma_kept_entries_from(init, key, now);
        let rest = kept_entries(init, key, now);
        let e = entries.last();
        assert forall|i: int| 0 <= i < rest.len() implies entries.contains(#[trigger] rest[i])
            && rest[i].0 != e.0 by {
            assert(init.contains(rest[i]));
            let k = choose|k: int| 0 <= k < init.len() && init[k] == rest[i];
            assert(entries[k] == init[k]);
            assert(entries[entries.len() - 1] == e);
        }
        if e.0 != key && is_valid_at(e.1.2, now) {
            let r = rest.push(e);
            assert forall|i: int| 0 <= i < r.len() implies entries.contains(#[trigger] r[i]) by {
                if i == rest.len() {
                    assert(entries[entries.len() - 1] == e);
                }
            }
            assert forall|i: int, j: int| 0 <= i < j < r.len() implies #[trigger] r[i].0
                != #[trigger] r[j].0 by {
                if j == rest.len() {
                    assert(rest[i].0 != e.0);
                } else {
                    assert(rest[i].0 != rest[j].0);
                }
            }
        }
    }
}

/// A write keeps the keys of the cache unique.
pub proof fn lemma_write_keeps_keys_unique(
    entries: Seq<(Seq<char>, EntryView)>,
    path: Seq<char>,
    results: Seq<(Seq<char>, u64)>,
    now: u64,
)
    requires
        keys_unique(entries),
    ensures
        keys_unique(after_write(entries, path, results, now)),
{
    let key = cache_key(path);
    lemma_kept_entries_from(entries, key, now);
    let kept = kept_entries(entries, key, now);
    let r = after_write(entries, path, results, now);
    assert forall|i: int, j: int| 0 <= i < j < r.len() implies #[trigger] r[i].0
        != #[trigger] r[j].0 by {
        if j == kept.len() {
            assert(kept[i].0 != key);
        } else {
            assert(kept[i].0 != kept[j].0);
        }
    }
}

/// Every entry that a write keeps is still usable at the time of the write.
proof fn lemma_kept_entries_usable(
    entries: Seq<(Seq<char>, EntryView)>,
    key: Seq<char>,
    now: u64,
    other: Seq<char>,
)
    ensures
        lookup(kept_entries(entries, key, now), other) matches Some(e) ==> is_valid_at(e.2, now),
        lookup(kept_entries(entries, key, now), key) is None,
    decreases entries.len(),
{
    if entries.len() > 0 {
        lemma_kept_entries_usable(entries.drop_last(), key, now, other);
        let rest = kept_entries(entries.drop_last(), key, now);
        let e = entries.last();
        if e.0 != key && is_valid_at(e.1.2, now) {
            assert(rest.push(e).drop_last() =~= rest);
        }
    }
}

/// Writing the results for a path and reading them back before they expire
/// gives exactly the results written.
pub proof fn lemma_write_then_read(
    entries: Seq<(Seq<char>, EntryView)>,
    path: Seq<char>,
    results: Seq<(Seq<char>, u64)>,
    written: u64,
    read: u64,
)
    requires
        read - written < CACHE_TTL_MS,
    ensures
        cached_results(after_write(entries, path, results, written), path, read) == Some(results),
{
}

/// A read at a time when the stored entry for the path has expired is a
/// miss, although the entry is still stored.
pub proof fn lemma_expired_is_miss(
    entries: Seq<(Seq<char>, EntryView)>,
    path: Seq<char>,
    now: u64,
)
    requires
        lookup(entries, cache_key(path)) matches Some(e) && now - e.2 >= CACHE_TTL_MS,
    ensures
        cached_results(entries, path, now) is None,
{
}

/// After a write at `now`, no entry that had expired by `now` is stored
/// any more: whatever any key then finds is usable at `now`.
pub proof fn lemma_write_prunes_expired(
    entries: Seq<(Seq<char>, EntryView)>,
    path: Seq<char>,
    results: Seq<(Seq<char>, u64)>,
    now: u64,
    other: Seq<char>,
)
    ensures
        lookup(after_write(entries, path, results, now), cache_key(other)) matches Some(e)
            ==> is_valid_at(e.2, now),
{
    lemma_kept_entries_usable(entries, cache_key(path), now, cache_key(other));
    let kept = kept_entries(entries, cache_key(path), now);
    assert(after_write(entries, path, results, now).drop_last() =~= kept);
}

/// After the cache is cleared, every read is a miss.
pub proof fn lemma_cleared_is_miss(path: Seq<char>, now: u64)
    ensures
        cached_results(Seq::<(Seq<char>, EntryView)>::empty(), path, now) is None,
{
}

/// The cached results for `path` at time `now` (milliseconds since the
/// epoch): `Some` exactly where an entry for the path's key is there and
/// still usable. An expired entry reads as a miss and stays stored.
pub fn get_cached_results(data: &CacheData, path: &str, now: u64) -> (r: Option<
    Vec<NodeModulesInfo>,
>)
    requires
        encode_utf8(path@).len() <= isize::MAX,
    ensures
        r.is_none() == cached_results(data@, path@, now).is_none(),
        r matches Some(v) ==> cached_results(data@, path@, now) == Some(views(v@)),
{
    let key = get_cache_key(path);
    let mut i: usize = data.entries.len();
    assert(data@.subrange(0, i as int) =~= data@);
    while i > 0
        invariant
            i <= data@.len(),
            key@ == cache_key(path@),
            lookup(data@, key@) == lookup(data@.subrange(0, i as int), key@),
        decreases i,
    {
        let ghost sub = data@.subrange(0, i as int);
        assert(sub.drop_last() =~= data@.subrange(0, i - 1));
        assert(sub.last() == data.entries@[i - 1]@);
        let e = &data.entries[i - 1];
        if e.key == key {
            if is_entry_valid(&e.entry, now) {
                return Some(copy_results(&e.entry.results));
            } else {
                return None;
            }
        }
        i = i - 1;
    }
    None
}

/// Writes `results` for `path` at time `now`: the entry for the path's key
/// is replaced, and every entry that has expired by `now` is dropped.
pub fn set_cached_results(
    data: &mut CacheData,
    path: &str,
    results: &Vec<NodeModulesInfo>,
    now: u64,
)
    requires
        encode_utf8(path@).len() <= isize::MAX,
    ensures
        final(data)@ == after_write(old(data)@, path@, views(results@), now),
{
    let key = get_cache_key(path);
    let ghost ev = old(data)@;
    let mut kept: Vec<KeyedEntry> = Vec::new();
    let mut i: usize = 0;
    assert(ev.subrange(0, 0) =~= Seq::<(Seq<char>, EntryView)>::empty());
    assert(kept@.map_values(|e: KeyedEntry| e@) =~= Seq::<(Seq<char>, EntryView)>::empty());
    while i < data.entries.len()
        invariant
            i <= data@.len(),
            *data == *old(data),
            ev == data@,
            key@ == cache_key(path@),
            kept@.map_values(|e: KeyedEntry| e@) == kept_entries(
                ev.subrange(0, i as int),
                key@,
                now,
            ),
        decreases data.entries.len() - i,
    {
        let ghost before = kept@.map_values(|e: KeyedEntry| e@);
        assert(ev.subrange(0, i + 1).drop_last() =~= ev.subrange(0, i as int));
        assert(ev.subrange(0, i + 1).last() == data.entries@[i as int]@);
        let e = &data.entries[i];
        let usable = is_entry_valid(&e.entry, now);
        if !(e.key == key) && usable {
            let copy = KeyedEntry { key: e.key.clone(), entry: e.entry.duplicate() };
            kept.push(copy);
            assert(kept@.map_values(|e: KeyedEntry| e@) =~= before.push(data.entries@[i as int]@));
        }
        i = i + 1;
    }
    assert(ev.subrange(0, i as int) =~= ev);
    let ghost before = kept@.map_values(|e: KeyedEntry| e@);
    let entry = CacheEntry { path: path.to_owned(), results: copy_results(results), timestamp: now };
    kept.push(KeyedEntry { key, entry });
    assert(kept@.map_values(|e: KeyedEntry| e@) =~= after_write(ev, path@, views(results@), now));
    data.entries = kept;
}

/// Empties the cache.
pub fn clear_cache(data: &mut CacheData)
    ensures
        final(data)@ == Seq::<(Seq<char>, EntryView)>::empty(),
{
    data.entries = Vec::new();
    assert(data@ =~= Seq::<(Seq<char>, EntryView)>::empty());
}

} // verus!
