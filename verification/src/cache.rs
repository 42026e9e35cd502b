//! The libraries that were worked out before, kept from one call to the next.

use vstd::prelude::*;

use crate::codec::Stored;
use crate::error::{outcome, Error, ErrorView};
use crate::fingerprint::{Fingerprint, FingerprintView};
use crate::path::{FilePath, FilePathView};
use crate::text::chars_of;

verus! {

/// What was worked out for one key.
#[derive(Clone, Debug)]
pub struct CacheEntry {
    pub key: String,
    /// What the key was made from, in short; an entry with another hash is out of date.
    pub hash: u64,
    pub fingerprints: Vec<Fingerprint>,
}

/// The libraries that were worked out before.
#[derive(Clone, Debug)]
pub struct PersistentCache {
    pub cache_version: u64,
    pub entries: Vec<CacheEntry>,
}

/// What was worked out for one key, as a mathematical value.
pub struct CacheEntryView {
    pub key: Seq<char>,
    pub hash: u64,
    pub fingerprints: Seq<FingerprintView>,
}

/// The libraries that were worked out before, as a mathematical value.
pub struct PersistentCacheView {
    pub cache_version: u64,
    pub entries: Seq<CacheEntryView>,
}

impl DeepView for CacheEntry {
    type V = CacheEntryView;

    open spec fn deep_view(&self) -> CacheEntryView {
        CacheEntryView {
            key: self.key@,
            hash: self.hash,
            fingerprints: self.fingerprints.deep_view(),
        }
    }
}

impl DeepView for PersistentCache {
    type V = PersistentCacheView;

    open spec fn deep_view(&self) -> PersistentCacheView {
        PersistentCacheView {
            cache_version: self.cache_version,
            entries: self.entries.deep_view(),
        }
    }
}

/// The entry for a key.
pub open spec fn entry_of(entries: Seq<CacheEntryView>, key: Seq<char>) -> Option<CacheEntryView>
    decreases entries.len(),
{
    if entries.len() == 0 {
        None
    } else if entries[0].key == key {
        Some(entries[0])
    } else {
        entry_of(entries.drop_first(), key)
    }
}

/// What is known for a key, if it was worked out for this hash.
pub open spec fn cached(entries: Seq<CacheEntryView>, key: Seq<char>, hash: u64) -> Option<
    Seq<FingerprintView>,
> {
    match entry_of(entries, key) {
        Some(entry) => if entry.hash == hash {
            Some(entry.fingerprints)
        } else {
            None
        },
        None => None,
    }
}

/// The entries with one more, which stands in the place of the one for its key, if there is one.
pub open spec fn with_entry(entries: Seq<CacheEntryView>, entry: CacheEntryView) -> Seq<
    CacheEntryView,
>
    decreases entries.len(),
{
    if entries.len() == 0 {
        seq![entry]
    } else if entries[0].key == entry.key {
        entries.update(0, entry)
    } else {
        seq![entries[0]] + with_entry(entries.drop_first(), entry)
    }
}

/// There is one entry at most for each key.
pub open spec fn distinct_keys(entries: Seq<CacheEntryView>) -> bool {
    forall|i: int, j: int|
        0 <= i < j < entries.len() ==> (#[trigger] entries[i]).key != (#[trigger] entries[j]).key
}

/// The cache that a file holds; a file that is not there holds an empty one.
pub open spec fn cache_in(content: Option<Seq<char>>) -> Result<PersistentCacheView, ErrorView> {
    match content {
        None => Ok(PersistentCacheView { cache_version: 1, entries: seq![] }),
        Some(text) => match PersistentCache::read(text) {
            Some((cache, rest)) => if rest.len() == 0 {
                Ok(cache)
            } else {
                Err(ErrorView::Msg("Malformed cache file"@))
            },
            None => Err(ErrorView::Msg("Malformed cache file"@)),
        },
    }
}

/// A number that a text is condensed to, from one to begin with.
pub open spec fn condensed(start: u64, text: Seq<char>) -> u64
    decreases text.len(),
{
    if text.len() == 0 {
        start
    } else {
        (condensed(start, text.drop_last()) ^ (text.last() as u64)).wrapping_mul(0x100_0000_01b3)
    }
}

/// The hash of the directories that a key is made from.
pub open spec fn key_hash(root_dir: Seq<char>, target_dir: Seq<char>) -> u64 {
    condensed(0xcbf2_9ce4_8422_2325, root_dir + seq!['\0'] + target_dir)
}

/// The place of the entry for a key.
fn find_entry(entries: &Vec<CacheEntry>, key: &String) -> (place: Option<usize>)
    ensures
        place is None <==> entry_of(entries.deep_view(), key@) is None,
        place matches Some(k) ==> k < entries@.len() && entry_of(entries.deep_view(), key@) == Some(
            entries@[k as int].deep_view(),
        ) && forall|j: int| 0 <= j < k ==> (#[trigger] entries@[j]).key@ != key@,
        place is None ==> forall|j: int|
            0 <= j < entries@.len() ==> (#[trigger] entries@[j]).key@ != key@,
{
    let ghost all = entries.deep_view();
    let mut i: usize = 0;
    assert(all.skip(0) == all);
    while i < entries.len()
        invariant
            i <= entries@.len(),
            all == entries.deep_view(),
            entry_of(all, key@) == entry_of(all.skip(i as int), key@),
            forall|j: int| 0 <= j < i ==> (#[trigger] entries@[j]).key@ != key@,
        decreases entries@.len() - i,
    {
        assert(all.skip(i as int).drop_first() == all.skip(i + 1));
        if entries[i].key == *key {
            return Some(i);
        }
        i += 1;
    }
    None
}

/// The entry that replaces one stands in the first place with its key.
proof fn lemma_with_entry_replaces(entries: Seq<CacheEntryView>, entry: CacheEntryView, k: int)
    requires
        0 <= k < entries.len(),
        entries[k].key == entry.key,
        forall|j: int| 0 <= j < k ==> (#[trigger] entries[j]).key != entry.key,
    ensures
        with_entry(entries, entry) == entries.update(k, entry),
    decreases entries.len(),
{
    if k > 0 {
        let others = entries.drop_first();
        assert forall|j: int| 0 <= j < k - 1 implies (#[trigger] others[j]).key != entry.key by {
            assert(others[j] == entries[j + 1]);
        }
        assert(entries[0].key != entry.key);
        lemma_with_entry_replaces(others, entry, k - 1);
        assert(seq![entries[0]] + others.update(k - 1, entry) == entries.update(k, entry));
    }
}

/// An entry for a new key stands behind the others.
proof fn lemma_with_entry_appends(entries: Seq<CacheEntryView>, entry: CacheEntryView)
    requires
        forall|j: int| 0 <= j < entries.len() ==> (#[trigger] entries[j]).key != entry.key,
    ensures
        with_entry(entries, entry) == entries.push(entry),
    decreases entries.len(),
{
    if entries.len() > 0 {
        let others = entries.drop_first();
        assert forall|j: int| 0 <= j < others.len() implies (#[trigger] others[j]).key
            != entry.key by {
            assert(others[j] == entries[j + 1]);
        }
        assert(entries[0].key != entry.key);
        lemma_with_entry_appends(others, entry);
        assert(seq![entries[0]] + others.push(entry) == entries.push(entry));
    }
}

impl PersistentCache {
    /// An empty cache.
    pub fn new() -> (cache: PersistentCache)
        ensures
            cache.cache_version == 1,
            cache.entries@.len() == 0,
    {
        PersistentCache { cache_version: 1, entries: Vec::new() }
    }

    /// Keeps what was worked out for a key, in the place of what was there for it.
    pub fn insert(&mut self, key: String, fingerprints: Vec<Fingerprint>, hash: u64)
        ensures
            final(self).cache_version == old(self).cache_version,
            final(self).deep_view().entries == with_entry(
                old(self).deep_view().entries,
                CacheEntryView { key: key@, hash, fingerprints: fingerprints.deep_view() },
            ),
    {
        let ghost before = self.entries.deep_view();
        let place = find_entry(&self.entries, &key);
        let entry = CacheEntry { key, hash, fingerprints };
        let ghost new = entry.deep_view();
        proof {
            assert forall|j: int| 0 <= j < before.len() implies #[trigger] before[j]
                == self.entries@[j].deep_view() by {}
        }
        match place {
            Some(k) => {
                self.entries[k] = entry;
                proof {
                    assert(self.entries.deep_view() == before.update(k as int, new));
                    lemma_entry_has_key(before, new.key);
                    lemma_with_entry_replaces(before, new, k as int);
                }
            },
            None => {
                self.entries.push(entry);
                proof {
                    assert(self.entries.deep_view() == before.push(new));
                    lemma_with_entry_appends(before, new);
                }
            },
        }
    }

    /// What is known for a key, if it was worked out for this hash.
    pub fn get(&self, key: &str, hash: u64) -> (known: Option<&Vec<Fingerprint>>)
        ensures
            known is Some <==> cached(self.deep_view().entries, key@, hash) is Some,
            known matches Some(fingerprints) ==> cached(self.deep_view().entries, key@, hash)
                == Some(fingerprints.deep_view()),
    {
        match find_entry(&self.entries, &key.to_owned()) {
            Some(k) => if self.entries[k].hash == hash {
                Some(&self.entries[k].fingerprints)
            } else {
                None
            },
            None => None,
        }
    }

    /// The hash of the directories that a key is made from.
    pub fn generate_cache_key_hash(root_dir: &str, target_dir: &str) -> (hash: u64)
        ensures
            hash == key_hash(root_dir@, target_dir@),
    {
        let mut chars = chars_of(root_dir);
        chars.push('\0');
        let mut more = chars_of(target_dir);
        chars.append(&mut more);
        assert(chars@ == root_dir@ + seq!['\0'] + target_dir@);
        let mut hash: u64 = 0xcbf2_9ce4_8422_2325;
        let mut i: usize = 0;
        assert(chars@.take(0).len() == 0);
        while i < chars.len()
            invariant
                i <= chars@.len(),
                hash == condensed(0xcbf2_9ce4_8422_2325, chars@.take(i as int)),
            decreases chars@.len() - i,
        {
            assert(chars@.take(i + 1).drop_last() == chars@.take(i as int));
            hash = (hash ^ (chars[i] as u64)).wrapping_mul(0x100_0000_01b3);
            i += 1;
        }
        assert(chars@.take(i as int) == chars@);
        hash
    }

    /// What the file of the cache is to hold.
    pub fn save_to_file(&self) -> (content: String)
        ensures
            content@ == PersistentCache::written(self.deep_view()),
            PersistentCache::fits(self.deep_view()),
    {
        let mut content = String::new();
        self.write_to(&mut content);
        assert(content@ == PersistentCache::written(self.deep_view()));
        content
    }

    /// The cache that its file holds; a file that is not there holds an empty one.
    pub fn load_from_file(content: Option<&str>) -> (res: Result<PersistentCache, Error>)
        ensures
            outcome(res) == cache_in(
                match content {
                    Some(text) => Some(text@),
                    None => None,
                },
            ),
    {
        let text = match content {
            Some(text) => text,
            None => {
                let cache = PersistentCache::new();
                assert(cache.deep_view().entries == Seq::<CacheEntryView>::empty());
                return Ok(cache);
            },
        };
        let chars = chars_of(text);
        assert(chars@.skip(0) == text@);
        match PersistentCache::read_from(&chars, 0) {
            Some((cache, end)) => if end == chars.len() {
                Ok(cache)
            } else {
                Err(Error::Msg("Malformed cache file".to_owned()))
            },
            None => Err(Error::Msg("Malformed cache file".to_owned())),
        }
    }

    /// The file that the cache of a project is kept in.
    pub fn get_cache_file_path(root_dir: &str) -> (path: FilePath)
        ensures
            path.deep_view() == FilePathView::of(root_dir@).into(".skeptic-cache"@),
    {
        FilePath::new(root_dir).join(".skeptic-cache")
    }
}

/// The entry that is found for a key has it.
proof fn lemma_entry_has_key(entries: Seq<CacheEntryView>, key: Seq<char>)
    ensures
        entry_of(entries, key) matches Some(entry) ==> entry.key == key,
    decreases entries.len(),
{
    if entries.len() > 0 {
        lemma_entry_has_key(entries.drop_first(), key);
    }
}

/// What was inserted is what is found for its key, and nothing else changes.
pub proof fn law_insert_is_found(
    entries: Seq<CacheEntryView>,
    entry: CacheEntryView,
    key: Seq<char>,
)
    ensures
        entry_of(with_entry(entries, entry), key) == if key == entry.key {
            Some(entry)
        } else {
            entry_of(entries, key)
        },
    decreases entries.len(),
{
    let now = with_entry(entries, entry);
    if entries.len() == 0 {
        reveal_with_fuel(entry_of, 2);
    } else if entries[0].key == entry.key {
        assert(now.drop_first() == entries.drop_first());
    } else {
        law_insert_is_found(entries.drop_first(), entry, key);
        assert(now.drop_first() == with_entry(entries.drop_first(), entry));
    }
}

/// With another hash than it was inserted with, nothing is known for a key.
pub proof fn law_other_hash_finds_nothing(
    entries: Seq<CacheEntryView>,
    entry: CacheEntryView,
    hash: u64,
)
    ensures
        cached(with_entry(entries, entry), entry.key, entry.hash) == Some(entry.fingerprints),
        hash != entry.hash ==> cached(with_entry(entries, entry), entry.key, hash) is None,
{
    law_insert_is_found(entries, entry, entry.key);
}

/// Keys that are distinct stay so.
pub proof fn law_insert_keeps_keys_distinct(entries: Seq<CacheEntryView>, entry: CacheEntryView)
    requires
        distinct_keys(entries),
    ensures
        distinct_keys(with_entry(entries, entry)),
{
    if exists|k: int| 0 <= k < entries.len() && (#[trigger] entries[k]).key == entry.key {
        let k = choose|k: int| 0 <= k < entries.len() && (#[trigger] entries[k]).key == entry.key;
        lemma_with_entry_replaces(entries, entry, k);
    } else {
        lemma_with_entry_appends(entries, entry);
    }
}

/// A cache that was saved is the one that is loaded.
pub proof fn law_saved_cache_is_loaded(cache: PersistentCacheView)
    requires
        PersistentCache::fits(cache),
    ensures
        cache_in(Some(PersistentCache::written(cache))) == Ok::<PersistentCacheView, ErrorView>(
            cache,
        ),
{
    let text = PersistentCache::written(cache);
    PersistentCache::law_read_gives_back(cache, Seq::empty());
    assert(text + Seq::<char>::empty() == text);
}

/// What is known for a key is what its first entry holds, if that is of this hash; where no entry
/// has the key, nothing is known.
pub proof fn law_first_entry_of_its_key_is_known(
    entries: Seq<CacheEntryView>,
    key: Seq<char>,
    hash: u64,
)
    ensures
        forall|k: int|
            0 <= k < entries.len() && (#[trigger] entries[k]).key == key && (forall|j: int|
                0 <= j < k ==> (#[trigger] entries[j]).key != key) ==> cached(entries, key, hash)
                == if entries[k].hash == hash {
                Some(entries[k].fingerprints)
            } else {
                None
            },
        (forall|k: int| 0 <= k < entries.len() ==> (#[trigger] entries[k]).key != key) ==> cached(
            entries,
            key,
            hash,
        ) is None,
    decreases entries.len(),
{
    if entries.len() > 0 {
        let others = entries.drop_first();
        law_first_entry_of_its_key_is_known(others, key, hash);
        assert forall|k: int|
            0 <= k < entries.len() && (#[trigger] entries[k]).key == key && (forall|j: int|
                0 <= j < k ==> (#[trigger] entries[j]).key != key) implies cached(
            entries,
            key,
            hash,
        ) == if entries[k].hash == hash {
            Some(entries[k].fingerprints)
        } else {
            None
        } by {
            if k > 0 {
                assert(entries[0].key != key);
                assert(others[k - 1] == entries[k]);
                assert forall|j: int| 0 <= j < k - 1 implies (#[trigger] others[j]).key != key by {
                    assert(others[j] == entries[j + 1]);
                }
            }
        }
        if forall|k: int| 0 <= k < entries.len() ==> (#[trigger] entries[k]).key != key {
            assert forall|j: int| 0 <= j < others.len() implies (#[trigger] others[j]).key
                != key by {
                assert(others[j] == entries[j + 1]);
            }
            assert(entries[0].key != key);
        }
    }
}

/// An entry takes the place of the first with its key, and where there is none it stands behind
/// the others; no other entry changes.
pub proof fn law_insert_changes_one_entry(entries: Seq<CacheEntryView>, entry: CacheEntryView)
    ensures
        forall|k: int|
            0 <= k < entries.len() && (#[trigger] entries[k]).key == entry.key && (forall|j: int|
                0 <= j < k ==> (#[trigger] entries[j]).key != entry.key) ==> with_entry(
                entries,
                entry,
            ) == entries.update(k, entry),
        (forall|k: int| 0 <= k < entries.len() ==> (#[trigger] entries[k]).key != entry.key)
            ==> with_entry(entries, entry) == entries.push(entry),
{
    assert forall|k: int|
        0 <= k < entries.len() && (#[trigger] entries[k]).key == entry.key && (forall|j: int|
            0 <= j < k ==> (#[trigger] entries[j]).key != entry.key) implies with_entry(
        entries,
        entry,
    ) == entries.update(k, entry) by {
        lemma_with_entry_replaces(entries, entry, k);
    }
    if forall|k: int| 0 <= k < entries.len() ==> (#[trigger] entries[k]).key != entry.key {
        lemma_with_entry_appends(entries, entry);
    }
}

/// A file that is not there holds an empty cache of the first version; one that holds more than a
/// cache is malformed.
pub proof fn law_cache_file_is_a_cache_or_missing(cache: PersistentCacheView, rest: Seq<char>)
    requires
        PersistentCache::fits(cache),
        rest.len() > 0,
    ensures
        cache_in(None) matches Ok(empty) && empty.cache_version == 1 && empty.entries.len() == 0,
        cache_in(Some(PersistentCache::written(cache) + rest)) == Err::<
            PersistentCacheView,
            ErrorView,
        >(ErrorView::Msg("Malformed cache file"@)),
{
    PersistentCache::law_read_gives_back(cache, rest);
}

/// Numbers that differ still do when they are multiplied.
proof fn lemma_factor_keeps_apart(a: u64, b: u64)
    requires
        a != b,
    ensures
        a.wrapping_mul(0x100_0000_01b3) != b.wrapping_mul(0x100_0000_01b3),
{
    lemma_factor_is_undone(a);
    lemma_factor_is_undone(b);
}

/// The factor has an inverse.
proof fn lemma_factor_is_undone(a: u64)
    ensures
        (a.wrapping_mul(0x100_0000_01b3) as int * 0xce96_5057_aff6_957b)
            % 0x1_0000_0000_0000_0000 == a,
{
    let m: int = 0x1_0000_0000_0000_0000;
    let p: int = 0x100_0000_01b3;
    let q: int = 0xce96_5057_aff6_957b;
    let t: int = 887285111055;
    let x = a as int;
    assert(a.wrapping_mul(0x100_0000_01b3) == (x * p) % m);
    vstd::arithmetic::div_mod::lemma_mul_mod_noop_left(x * p, q, m);
    assert((x * p) * q == m * (x * t) + x) by (nonlinear_arith)
        requires
            p * q == t * m + 1,
    ;
    vstd::arithmetic::div_mod::lemma_mod_multiples_vanish(x * t, x, m);
    vstd::arithmetic::div_mod::lemma_small_mod(a as nat, m as nat);
}

/// Two texts that differ in one character, wherever it stands, are condensed to two numbers.
pub proof fn law_every_character_counts(
    start: u64,
    before: Seq<char>,
    c: char,
    d: char,
    after: Seq<char>,
)
    requires
        c != d,
    ensures
        condensed(start, before + seq![c] + after) != condensed(start, before + seq![d] + after),
    decreases after.len(),
{
    let first = before + seq![c] + after;
    let second = before + seq![d] + after;
    if after.len() == 0 {
        assert(first.drop_last() == before && first.last() == c);
        assert(second.drop_last() == before && second.last() == d);
        let h = condensed(start, before);
        let x = c as u64;
        let y = d as u64;
        assert(h ^ x != h ^ y) by (bit_vector)
            requires
                x != y,
        ;
        lemma_factor_keeps_apart(h ^ x, h ^ y);
    } else {
        law_every_character_counts(start, before, c, d, after.drop_last());
        assert(first.drop_last() == before + seq![c] + after.drop_last());
        assert(second.drop_last() == before + seq![d] + after.drop_last());
        let g = condensed(start, first.drop_last());
        let h = condensed(start, second.drop_last());
        let x = after.last() as u64;
        assert(first.last() == after.last() && second.last() == after.last());
        assert(g ^ x != h ^ x) by (bit_vector)
            requires
                g != h,
        ;
        lemma_factor_keeps_apart(g ^ x, h ^ x);
    }
}

/// Directories that differ in one character have different hashes, whichever of the two it is.
pub proof fn law_other_directory_has_another_hash(
    before: Seq<char>,
    c: char,
    d: char,
    after: Seq<char>,
    same: Seq<char>,
)
    requires
        c != d,
    ensures
        key_hash(same, before + seq![c] + after) != key_hash(same, before + seq![d] + after),
        key_hash(before + seq![c] + after, same) != key_hash(before + seq![d] + after, same),
{
    let start = 0xcbf2_9ce4_8422_2325u64;
    let end = seq!['\0'];
    law_every_character_counts(start, same + end + before, c, d, after);
    law_every_character_counts(start, before, c, d, after + end + same);
    assert(same + end + (before + seq![c] + after) == same + end + before + seq![c] + after);
    assert(same + end + (before + seq![d] + after) == same + end + before + seq![d] + after);
    assert((before + seq![c] + after) + end + same == before + seq![c] + (after + end + same));
    assert((before + seq![d] + after) + end + same == before + seq![d] + (after + end + same));
}

/// A cache stands for all its entries, in their order, with all that each holds.
pub proof fn law_cache_stands_for_all_it_holds(cache: PersistentCache, entry: CacheEntry)
    ensures
        entry.deep_view().key == entry.key@,
        entry.deep_view().hash == entry.hash,
        entry.deep_view().fingerprints == entry.fingerprints@.map_values(
            |build: Fingerprint| build.deep_view(),
        ),
        cache.deep_view().cache_version == cache.cache_version,
        cache.deep_view().entries == cache.entries@.map_values(
            |entry: CacheEntry| entry.deep_view(),
        ),
{
    assert(entry.deep_view().fingerprints == entry.fingerprints@.map_values(
        |build: Fingerprint| build.deep_view(),
    ));
    assert(cache.deep_view().entries == cache.entries@.map_values(
        |entry: CacheEntry| entry.deep_view(),
    ));
}

} // verus!
