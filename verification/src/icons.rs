//! A bounded cache in front of icon lookup. It remembers for each icon name
//! what the lookup gave, also where it gave nothing, and forgets the entry
//! that went unused the longest when it is full.
//!
//! The lookup itself, a search through icon themes on disk, is not part of
//! this crate: callers hand it in as functions. A cache is changed through
//! `&mut self`; callers that share one between threads keep it behind a lock,
//! so that each lookup runs as one step.

use crate::desktop::{clone_opt, opt_chars};
use lru::LruCache;
use std::num::NonZeroUsize;
use vstd::prelude::*;
use vstd::string::*;

verus! {

/// One cached answer: the icon name and the path found for it, if any.
pub type CachedIcon = (Seq<char>, Option<Seq<char>>);

/// The hasher that an `lru::LruCache` uses unless it is given another.
/// Nothing is known of it here.
#[verifier::external_type_specification]
#[verifier::external_body]
pub struct ExDefaultHasher(lru::DefaultHasher);

/// The cache of the crate lru. What it holds is seen through
/// [`lru_entries`] and [`lru_limit`] alone.
#[verifier::external_type_specification]
#[verifier::external_body]
#[verifier::reject_recursive_types(K)]
#[verifier::reject_recursive_types(V)]
#[verifier::reject_recursive_types(S)]
pub struct ExLruCache<K, V, S>(LruCache<K, V, S>);

/// What an `lru::LruCache` holds, the most recently used entry first.
pub uninterp spec fn lru_entries(c: LruCache<String, Option<String>>) -> Seq<CachedIcon>;

/// The number of entries that an `lru::LruCache` was made to hold at most.
pub uninterp spec fn lru_limit(c: LruCache<String, Option<String>>) -> nat;

/// Largest capacity a cache can be made with. The table for that many
/// entries is allocated when the cache is made.
pub const MAX_CAPACITY: usize = 0x100_0000;

/// Capacity that stands in for a requested capacity of zero.
pub const FALLBACK_CAPACITY: usize = 100;

/// Whether `entries` has an entry for `key`.
pub open spec fn has_key(entries: Seq<CachedIcon>, key: Seq<char>) -> bool {
    exists|i: int| 0 <= i < entries.len() && (#[trigger] entries[i]).0 == key
}

/// The position of the entry for `key`, where there is one.
pub open spec fn key_index(entries: Seq<CachedIcon>, key: Seq<char>) -> int {
    choose|i: int| 0 <= i < entries.len() && (#[trigger] entries[i]).0 == key
}

/// No key occurs twice.
pub open spec fn distinct_keys(entries: Seq<CachedIcon>) -> bool {
    forall|i: int, j: int|
        0 <= i < j < entries.len() ==> (#[trigger] entries[i]).0 != (#[trigger] entries[j]).0
}

/// The answer cached for `key`, where there is one.
pub open spec fn cached_value(entries: Seq<CachedIcon>, key: Seq<char>) -> Option<Seq<char>> {
    entries[key_index(entries, key)].1
}

/// The entries after a hit on `key`: its entry moves to the front.
pub open spec fn touched(entries: Seq<CachedIcon>, key: Seq<char>) -> Seq<CachedIcon> {
    let i = key_index(entries, key);
    seq![entries[i]] + entries.remove(i)
}

/// The entries after `value` is stored for `key` in a cache of `limit`
/// entries: the new entry stands at the front; an older entry for the same
/// key is replaced; else, if the cache was full, the entry at the back, the
/// one unused the longest, is dropped.
pub open spec fn stored(
    entries: Seq<CachedIcon>,
    limit: nat,
    key: Seq<char>,
    value: Option<Seq<char>>,
) -> Seq<CachedIcon> {
    if has_key(entries, key) {
        seq![(key, value)] + entries.remove(key_index(entries, key))
    } else if entries.len() >= limit {
        seq![(key, value)] + entries.drop_last()
    } else {
        seq![(key, value)] + entries
    }
}

/// `LruCache::new` of the crate lru: an empty cache that holds at most `cap`
/// entries.
#[verifier::external_body]
fn lru_new(cap: usize) -> (c: LruCache<String, Option<String>>)
    requires
        0 < cap <= MAX_CAPACITY,
    ensures
        lru_entries(c) == Seq::<CachedIcon>::empty(),
        lru_limit(c) == cap,
{
    LruCache::new(NonZeroUsize::new(cap).unwrap())
}

/// `LruCache::get` of the crate lru, with the value copied out: on a hit the
/// value of `key` is returned and its entry moves to the front; on a miss
/// nothing changes.
#[verifier::external_body]
fn lru_get(c: &mut LruCache<String, Option<String>>, key: &str) -> (r: Option<Option<String>>)
    requires
        distinct_keys(lru_entries(*old(c))),
    ensures
        lru_limit(*final(c)) == lru_limit(*old(c)),
        has_key(lru_entries(*old(c)), key@) ==> r is Some && opt_chars(r->0) == cached_value(
            lru_entries(*old(c)),
            key@,
        ) && lru_entries(*final(c)) == touched(lru_entries(*old(c)), key@),
        !has_key(lru_entries(*old(c)), key@) ==> r is None && lru_entries(*final(c)) == lru_entries(
            *old(c),
        ),
{
    c.get(key).cloned()
}

/// `LruCache::put` of the crate lru: the entry is stored at the front; it
/// replaces an entry of the same key, or else, in a full cache, pushes out
/// the entry at the back.
#[verifier::external_body]
fn lru_put(c: &mut LruCache<String, Option<String>>, key: String, value: Option<String>)
    requires
        distinct_keys(lru_entries(*old(c))),
        lru_entries(*old(c)).len() <= lru_limit(*old(c)),
        lru_limit(*old(c)) > 0,
    ensures
        lru_limit(*final(c)) == lru_limit(*old(c)),
        lru_entries(*final(c)) == stored(
            lru_entries(*old(c)),
            lru_limit(*old(c)),
            key@,
            opt_chars(value),
        ),
{
    c.put(key, value);
}

/// `LruCache::clear` of the crate lru: no entry is left; the limit stays.
#[verifier::external_body]
fn lru_clear(c: &mut LruCache<String, Option<String>>)
    ensures
        lru_limit(*final(c)) == lru_limit(*old(c)),
        lru_entries(*final(c)) == Seq::<CachedIcon>::empty(),
{
    c.clear();
}

/// Whether an icon reference is an absolute path rather than an icon name.
pub open spec fn is_absolute(name: Seq<char>) -> bool {
    name.len() > 0 && name[0] == '/'
}

/// Whether resolving `name` may answer `r` and leave the entries `after`
/// in a cache that held `before` and holds at most `limit` entries.
///
/// An absolute path that `probe` finds to exist is its own answer, and is
/// recorded. Anything else is answered from the cache where it has an entry
/// for the name, which then counts as just used; where it has none, the
/// answer is what `lookup` finds in the icon themes, and it is recorded,
/// also where it is that no icon exists.
pub open spec fn resolved<P: Fn(&str) -> bool, L: Fn(&str, u16, &Option<String>) -> Option<String>>(
    before: Seq<CachedIcon>,
    limit: nat,
    name: &str,
    size: u16,
    theme: &Option<String>,
    probe: &P,
    lookup: &L,
    r: Option<String>,
    after: Seq<CachedIcon>,
) -> bool {
    ||| {
        &&& is_absolute(name@)
        &&& probe.ensures((name,), true)
        &&& opt_chars(r) == Some(name@)
        &&& after == stored(before, limit, name@, Some(name@))
    }
    ||| {
        &&& !is_absolute(name@) || probe.ensures((name,), false)
        &&& has_key(before, name@)
        &&& opt_chars(r) == cached_value(before, name@)
        &&& after == touched(before, name@)
    }
    ||| {
        &&& !is_absolute(name@) || probe.ensures((name,), false)
        &&& !has_key(before, name@)
        &&& lookup.ensures((name, size, theme), r)
        &&& after == stored(before, limit, name@, opt_chars(r))
    }
}

/// Icon lookup results by icon name, bounded in number.
pub struct IconCache {
    cache: LruCache<String, Option<String>>,
    size: u16,
    theme: Option<String>,
}

impl IconCache {
    /// The cached answers, the most recently used first.
    pub closed spec fn entries(&self) -> Seq<CachedIcon> {
        lru_entries(self.cache)
    }

    /// The number of answers the cache holds at most.
    pub closed spec fn capacity(&self) -> nat {
        lru_limit(self.cache)
    }

    /// The icon size, in pixels, that lookups ask for.
    pub closed spec fn size(&self) -> u16 {
        self.size
    }

    /// The icon theme that lookups ask for.
    pub closed spec fn theme(&self) -> Option<String> {
        self.theme
    }

    /// A cache holds each name once and never more names than its capacity.
    pub open spec fn wf(&self) -> bool {
        &&& distinct_keys(self.entries())
        &&& self.entries().len() <= self.capacity()
        &&& self.capacity() > 0
    }

    /// An empty cache for icons of `size` pixels from `theme`, holding at
    /// most `capacity` answers; a capacity of zero gives
    /// [`FALLBACK_CAPACITY`].
    pub fn new(capacity: usize, size: u16, theme: Option<String>) -> (c: Self)
        requires
            capacity <= MAX_CAPACITY,
        ensures
            c.wf(),
            c.entries() == Seq::<CachedIcon>::empty(),
            c.capacity() == if capacity == 0 {
                FALLBACK_CAPACITY
            } else {
                capacity
            },
            c.size() == size,
            c.theme() == theme,
    {
        let cap: usize = if capacity == 0 {
            FALLBACK_CAPACITY
        } else {
            capacity
        };
        IconCache { cache: lru_new(cap), size, theme }
    }

    /// Consults the cache alone. On a hit the cached answer is returned,
    /// which may be that no icon exists, and its entry counts as just used.
    pub fn cached(&mut self, icon_name: &str) -> (r: Option<Option<String>>)
        requires
            old(self).wf(),
        ensures
            final(self).wf(),
            final(self).capacity() == old(self).capacity(),
            final(self).size() == old(self).size(),
            final(self).theme() == old(self).theme(),
            has_key(old(self).entries(), icon_name@) ==> r is Some && opt_chars(r->0)
                == cached_value(old(self).entries(), icon_name@) && final(self).entries()
                == touched(old(self).entries(), icon_name@),
            !has_key(old(self).entries(), icon_name@) ==> r is None && final(self).entries() == old(
                self,
            ).entries(),
    {
        let r = lru_get(&mut self.cache, icon_name);
        proof {
            if has_key(old(self).entries(), icon_name@) {
                lemma_touched_keeps_order(old(self).entries(), icon_name@);
            }
        }
        r
    }

    /// Stores an answer for `icon_name`, found or not.
    pub fn store(&mut self, icon_name: &str, path: Option<String>)
        requires
            old(self).wf(),
        ensures
            final(self).wf(),
            final(self).capacity() == old(self).capacity(),
            final(self).size() == old(self).size(),
            final(self).theme() == old(self).theme(),
            final(self).entries() == stored(
                old(self).entries(),
                old(self).capacity(),
                icon_name@,
                opt_chars(path),
            ),
    {
        proof {
            lemma_stored_keeps_order(
                self.entries(),
                self.capacity(),
                icon_name@,
                opt_chars(path),
            );
        }
        lru_put(&mut self.cache, icon_name.to_owned(), path);
    }

    /// Resolves an icon reference to the path of an icon file, if there is
    /// one. An absolute path that exists is returned as it is. For anything
    /// else the cached answer is returned where there is one, without any
    /// lookup; else the icon themes are searched, and what they give is
    /// stored before it is returned, also where they give nothing.
    pub fn get<P: Fn(&str) -> bool, L: Fn(&str, u16, &Option<String>) -> Option<String>>(
        &mut self,
        icon_name: &str,
        probe: &P,
        lookup: &L,
    ) -> (r: Option<String>)
        requires
            old(self).wf(),
            probe.requires((icon_name,)),
            lookup.requires((icon_name, old(self).size(), &old(self).theme())),
        ensures
            final(self).wf(),
            final(self).capacity() == old(self).capacity(),
            final(self).size() == old(self).size(),
            final(self).theme() == old(self).theme(),
            resolved(
                old(self).entries(),
                old(self).capacity(),
                icon_name,
                old(self).size(),
                &old(self).theme(),
                probe,
                lookup,
                r,
                final(self).entries(),
            ),
    {
        if !icon_name.is_empty() && icon_name.get_char(0) == '/' {
            if probe(icon_name) {
                self.store(icon_name, Some(icon_name.to_owned()));
                return Some(icon_name.to_owned());
            }
        }
        match self.cached(icon_name) {
            Some(found) => found,
            None => {
                let result = lookup(icon_name, self.size, &self.theme);
                let kept = clone_opt(&result);
                self.store(icon_name, kept);
                result
            },
        }
    }

    /// Empties the cache.
    pub fn clear(&mut self)
        ensures
            final(self).entries() == Seq::<CachedIcon>::empty(),
            final(self).capacity() == old(self).capacity(),
            final(self).size() == old(self).size(),
            final(self).theme() == old(self).theme(),
            old(self).wf() ==> final(self).wf(),
    {
        lru_clear(&mut self.cache);
    }
}

impl Default for IconCache {
    /// A cache of 200 answers for icons of 48 pixels from the default theme.
    fn default() -> (c: Self)
        ensures
            c.wf(),
            c.entries() == Seq::<CachedIcon>::empty(),
            c.capacity() == 200,
            c.size() == 48,
            c.theme() is None,
    {
        IconCache::new(200, 48, None)
    }
}

/// A hit reorders the entries and neither adds nor drops one.
pub proof fn lemma_touched_keeps_order(entries: Seq<CachedIcon>, key: Seq<char>)
    requires
        distinct_keys(entries),
        has_key(entries, key),
    ensures
        distinct_keys(touched(entries, key)),
        touched(entries, key).len() == entries.len(),
        touched(entries, key)[0] == entries[key_index(entries, key)],
        forall|k: Seq<char>| has_key(touched(entries, key), k) <==> has_key(entries, k),
{
    let i = key_index(entries, key);
    let t = touched(entries, key);
    assert forall|a: int, b: int| 0 <= a < b < t.len() implies (#[trigger] t[a]).0 != (
    #[trigger] t[b]).0 by {
        let sa = if a == 0 {
            i
        } else if a - 1 < i {
            a - 1
        } else {
            a
        };
        let sb = if b - 1 < i {
            b - 1
        } else {
            b
        };
        assert(t[a] == entries[sa]);
        assert(t[b] == entries[sb]);
        assert(sa != sb);
    }
    assert forall|k: Seq<char>| has_key(t, k) <==> has_key(entries, k) by {
        if has_key(t, k) {
            let a = choose|a: int| 0 <= a < t.len() && (#[trigger] t[a]).0 == k;
            let sa = if a == 0 {
                i
            } else if a - 1 < i {
                a - 1
            } else {
                a
            };
            assert(entries[sa].0 == k);
        }
        if has_key(entries, k) {
            let s = choose|s: int| 0 <= s < entries.len() && (#[trigger] entries[s]).0 == k;
            let a = if s == i {
                0
            } else if s < i {
                s + 1
            } else {
                s
            };
            assert(t[a].0 == k);
        }
    }
}

/// Storing keeps each name once and the cache within its limit; the stored
/// answer is what the next hit on the name returns.
pub proof fn lemma_stored_keeps_order(
    entries: Seq<CachedIcon>,
    limit: nat,
    key: Seq<char>,
    value: Option<Seq<char>>,
)
    requires
        distinct_keys(entries),
        entries.len() <= limit,
        limit > 0,
    ensures
        distinct_keys(stored(entries, limit, key, value)),
        stored(entries, limit, key, value).len() <= limit,
        has_key(stored(entries, limit, key, value), key),
        cached_value(stored(entries, limit, key, value), key) == value,
{
    let s = stored(entries, limit, key, value);
    assert(s[0] == (key, value));
    if has_key(entries, key) {
        let i = key_index(entries, key);
        assert forall|a: int, b: int| 0 <= a < b < s.len() implies (#[trigger] s[a]).0 != (
        #[trigger] s[b]).0 by {
            let sb = if b - 1 < i {
                b - 1
            } else {
                b
            };
            assert(s[b] == entries[sb]);
            if a == 0 {
                assert(sb != i);
                assert(entries[i].0 == key);
                if sb < i {
                    assert(entries[sb].0 != entries[i].0);
                } else {
                    assert(entries[i].0 != entries[sb].0);
                }
            } else {
                let sa = if a - 1 < i {
                    a - 1
                } else {
                    a
                };
                assert(s[a] == entries[sa]);
                assert(sa < sb);
            }
        }
    } else {
        assert forall|a: int, b: int| 0 <= a < b < s.len() implies (#[trigger] s[a]).0 != (
        #[trigger] s[b]).0 by {
            assert(s[b] == entries[b - 1]);
            if a > 0 {
                assert(s[a] == entries[a - 1]);
            }
        }
    }
    assert(has_key(s, key));
    let j = key_index(s, key);
    if j != 0 {
        assert(s[0].0 != s[j].0);
    }
}

/// Eviction takes the entry unused the longest and no other: a new name
/// stored in a full cache drops exactly the entry at the back.
pub proof fn lemma_stored_evicts_oldest(
    entries: Seq<CachedIcon>,
    limit: nat,
    key: Seq<char>,
    value: Option<Seq<char>>,
)
    requires
        distinct_keys(entries),
        entries.len() == limit,
        limit > 0,
        !has_key(entries, key),
    ensures
        !has_key(stored(entries, limit, key, value), entries.last().0),
        forall|i: int|
            0 <= i < entries.len() - 1 ==> has_key(
                stored(entries, limit, key, value),
                (#[trigger] entries[i]).0,
            ),
{
    let s = stored(entries, limit, key, value);
    let last = entries.last();
    assert(last == entries[entries.len() - 1]);
    if has_key(s, last.0) {
        let a = choose|a: int| 0 <= a < s.len() && (#[trigger] s[a]).0 == last.0;
        if a == 0 {
            assert(entries[entries.len() - 1].0 == key);
        } else {
            assert(s[a] == entries[a - 1]);
            assert(entries[a - 1].0 != entries[entries.len() - 1].0);
        }
    }
    assert forall|i: int| 0 <= i < entries.len() - 1 implies has_key(
        s,
        (#[trigger] entries[i]).0,
    ) by {
        assert(s[i + 1] == entries[i]);
    }
}

} // verus!
