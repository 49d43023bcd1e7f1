//! Caches: values in memory, and files named by digests.

use vstd::prelude::*;
use vstd::utf8::encode_utf8;
use crate::assoc::{
    lookup, name_index_first, named, names_distinct, position, put, put_then_lookup, put_value,
    remaining, remaining_but_one, take_value, taken, taken_then_lookup,
};
use crate::expr::concat;
use crate::outside::{
    in_set, set_clear, set_insert, set_is_empty, set_new, set_remove, set_remove_first, sha256,
    sha256_of,
};
use crate::text::text_of;

verus! {

// ---------------------------------------------------------------------------
// Values in memory
// ---------------------------------------------------------------------------

/// A cached value, and the time at which its file was last modified.
pub struct CacheEntry<V> {
    pub value: V,
    pub mtime: Option<u64>,
}

/// A cached value with its key and its file.
#[verifier::reject_recursive_types(V)]
pub ghost struct CacheItem<V> {
    pub key: Seq<char>,
    pub value: V,
    pub mtime: Option<u64>,
    pub path: Option<std::path::PathBuf>,
}

/// The position of the item with that key, or the number of items.
pub open spec fn item_index<V>(items: Seq<CacheItem<V>>, key: Seq<char>) -> int
    decreases items.len(),
{
    if items.len() == 0 || items[0].key == key {
        0
    } else {
        1 + item_index(items.drop_first(), key)
    }
}

/// The item with that key.
pub open spec fn item_of<V>(items: Seq<CacheItem<V>>, key: Seq<char>) -> Option<CacheItem<V>> {
    let i = item_index(items, key);
    if 0 <= i < items.len() {
        Some(items[i])
    } else {
        None
    }
}

/// The items without the one with that key.
pub open spec fn dropped<V>(items: Seq<CacheItem<V>>, key: Seq<char>) -> Seq<CacheItem<V>> {
    let i = item_index(items, key);
    if 0 <= i < items.len() {
        items.remove(i)
    } else {
        items
    }
}

/// The latest items, fewer than `most`.
pub open spec fn newest<V>(items: Seq<CacheItem<V>>, most: int) -> Seq<CacheItem<V>> {
    if items.len() < most {
        items
    } else {
        items.skip(items.len() - most + 1)
    }
}

/// The items once another was inserted: it comes last, and the oldest make room
/// for it.
pub open spec fn inserted<V>(
    items: Seq<CacheItem<V>>,
    most: int,
    item: CacheItem<V>,
) -> Seq<CacheItem<V>> {
    if most <= 0 {
        Seq::empty()
    } else {
        newest(dropped(items, item.key), most).push(item)
    }
}

/// Whether the file of an item was modified since the item was inserted, as far
/// as both times are known.
pub open spec fn outdated<V>(item: CacheItem<V>, mtime: Option<u64>) -> bool {
    item.path is Some && item.mtime is Some && mtime is Some && item.mtime != mtime
}

/// What the cache holds, part by part.
#[verifier::reject_recursive_types(V)]
ghost struct Parts<V> {
    entries: Seq<(Seq<char>, CacheEntry<V>)>,
    paths: Seq<(Seq<char>, std::path::PathBuf)>,
    order: Seq<Seq<char>>,
}

/// Whether the parts hold the same keys, each once.
spec fn fitting<V>(p: Parts<V>) -> bool {
    &&& p.order.no_duplicates()
    &&& names_distinct(p.entries)
    &&& names_distinct(p.paths)
    &&& p.entries.len() == p.order.len()
    &&& forall|k: Seq<char>| #[trigger] p.order.contains(k) <==> lookup(p.entries, k) is Some
    &&& forall|k: Seq<char>| #[trigger] lookup(p.paths, k) is Some ==> p.order.contains(k)
}

spec fn part_item<V>(p: Parts<V>, key: Seq<char>) -> CacheItem<V> {
    let entry = lookup(p.entries, key)->Some_0;
    CacheItem { key, value: entry.value, mtime: entry.mtime, path: lookup(p.paths, key) }
}

spec fn part_items<V>(p: Parts<V>) -> Seq<CacheItem<V>> {
    Seq::new(p.order.len(), |i: int| part_item(p, p.order[i]))
}

spec fn parts_without<V>(p: Parts<V>, key: Seq<char>) -> Parts<V> {
    Parts {
        entries: taken(p.entries, key),
        paths: taken(p.paths, key),
        order: remaining(p.order, seq![key]),
    }
}

proof fn item_index_first<V>(items: Seq<CacheItem<V>>, key: Seq<char>)
    ensures
        0 <= item_index(items, key) <= items.len(),
        item_index(items, key) < items.len() ==> items[item_index(items, key)].key == key,
        forall|j: int| 0 <= j < item_index(items, key) ==> (#[trigger] items[j]).key != key,
    decreases items.len(),
{
    if items.len() > 0 && items[0].key != key {
        item_index_first(items.drop_first(), key);
        assert forall|j: int| 0 <= j < item_index(items, key) implies (#[trigger] items[j]).key
            != key by {
            if j > 0 {
                assert(items.drop_first()[j - 1] == items[j]);
            }
        }
    }
}

/// The place of a key in the order is the place of its item.
proof fn part_place<V>(p: Parts<V>, key: Seq<char>) -> (i: int)
    requires
        fitting(p),
    ensures
        i == item_index(part_items(p), key),
        0 <= i <= p.order.len(),
        i < p.order.len() <==> p.order.contains(key),
        i < p.order.len() ==> p.order[i] == key,
        item_of(part_items(p), key) == (if p.order.contains(key) {
            Some(part_item(p, key))
        } else {
            None
        }),
{
    let items = part_items(p);
    item_index_first(items, key);
    let i = item_index(items, key);
    if i < p.order.len() {
        assert(p.order[i] == key);
    } else if p.order.contains(key) {
        let j = choose|j: int| 0 <= j < p.order.len() && p.order[j] == key;
        assert(items[j].key == key);
    }
    i
}

proof fn taking_out<V>(p: Parts<V>, key: Seq<char>)
    requires
        fitting(p),
    ensures
        fitting(parts_without(p, key)),
        part_items(parts_without(p, key)) == dropped(part_items(p), key),
        !parts_without(p, key).order.contains(key),
{
    let q = parts_without(p, key);
    let items = part_items(p);
    let i = part_place(p, key);
    remaining_but_one(p.order, key, i);
    crate::assoc::remaining_names(p.order, seq![key]);
    taken_then_lookup(p.entries, key, key);
    taken_then_lookup(p.paths, key, key);
    let own = seq![key];
    assert(own[0] == key);
    assert(own.contains(key));
    assert forall|k: Seq<char>| #[trigger] q.order.contains(k) <==> lookup(q.entries, k) is Some by {
        taken_then_lookup(p.entries, key, k);
        assert(p.order.contains(k) <==> lookup(p.entries, k) is Some);
        if k != key {
            assert(!own.contains(k));
        }
    }
    assert forall|k: Seq<char>| #[trigger] lookup(q.paths, k) is Some implies q.order.contains(
        k,
    ) by {
        taken_then_lookup(p.paths, key, k);
        if k != key {
            assert(!own.contains(k));
            assert(p.order.contains(k));
        }
    }
    assert forall|j: int| 0 <= j < q.order.len() implies part_item(q, #[trigger] q.order[j])
        == part_item(p, q.order[j]) by {
        let k = q.order[j];
        assert(q.order.contains(k));
        taken_then_lookup(p.entries, key, k);
        taken_then_lookup(p.paths, key, k);
        assert(k != key);
    }
    assert(part_items(q) =~= dropped(items, key)) by {
        assert forall|j: int| 0 <= j < q.order.len() implies part_items(q)[j] == dropped(
            items,
            key,
        )[j] by {
            assert(part_items(q)[j] == part_item(p, q.order[j]));
        }
    }
}

proof fn taking_out_first<V>(p: Parts<V>)
    requires
        fitting(p),
        p.order.len() > 0,
    ensures
        parts_without(p, p.order[0]).order == p.order.drop_first(),
        part_items(parts_without(p, p.order[0])) == part_items(p).drop_first(),
{
    let first = p.order[0];
    let items = part_items(p);
    remaining_but_one(p.order, first, 0);
    taking_out(p, first);
    assert(items[0].key == first);
    assert(items.remove(0) =~= items.drop_first());
    assert(p.order.remove(0) =~= p.order.drop_first());
}

proof fn adding<V>(p: Parts<V>, key: Seq<char>, entry: CacheEntry<V>, path: Option<std::path::PathBuf>)
    requires
        fitting(p),
        !p.order.contains(key),
    ensures
        ({
            let q = Parts {
                entries: put(p.entries, key, entry),
                paths: match path {
                    Some(x) => put(p.paths, key, x),
                    None => p.paths,
                },
                order: p.order.push(key),
            };
            &&& fitting(q)
            &&& part_items(q) == part_items(p).push(
                CacheItem { key, value: entry.value, mtime: entry.mtime, path },
            )
        }),
{
    let q = Parts {
        entries: put(p.entries, key, entry),
        paths: match path {
            Some(x) => put(p.paths, key, x),
            None => p.paths,
        },
        order: p.order.push(key),
    };
    put_then_lookup(p.entries, key, entry, key);
    name_index_first(p.entries, key);
    assert(lookup(p.entries, key) is None);
    assert(lookup(p.paths, key) is None);
    if let Some(x) = path {
        put_then_lookup(p.paths, key, x, key);
    }
    assert(q.order.no_duplicates()) by {
        assert forall|a: int, b: int|
            0 <= a < q.order.len() && 0 <= b < q.order.len() && a != b implies q.order[a]
            != q.order[b] by {
            if a < p.order.len() {
                assert(p.order.contains(p.order[a]));
            }
            if b < p.order.len() {
                assert(p.order.contains(p.order[b]));
            }
        }
    }
    assert forall|k: Seq<char>| q.order.contains(k) <==> k == key || p.order.contains(k) by {
        if p.order.contains(k) {
            let i = choose|i: int| 0 <= i < p.order.len() && p.order[i] == k;
            assert(q.order[i] == k);
        }
        if q.order.contains(k) && k != key {
            let i = choose|i: int| 0 <= i < q.order.len() && q.order[i] == k;
            assert(p.order[i] == k);
        }
        assert(q.order[p.order.len() as int] == key);
    }
    assert forall|k: Seq<char>| #[trigger] q.order.contains(k) <==> lookup(q.entries, k) is Some by {
        put_then_lookup(p.entries, key, entry, k);
        assert(p.order.contains(k) <==> lookup(p.entries, k) is Some);
    }
    assert forall|k: Seq<char>| #[trigger] lookup(q.paths, k) is Some implies q.order.contains(
        k,
    ) by {
        if k != key {
            if let Some(x) = path {
                put_then_lookup(p.paths, key, x, k);
            }
            assert(lookup(p.paths, k) is Some);
            assert(p.order.contains(k));
        }
    }
    assert forall|j: int| 0 <= j < p.order.len() implies part_item(q, #[trigger] p.order[j])
        == part_item(p, p.order[j]) by {
        let k = p.order[j];
        assert(p.order.contains(k));
        put_then_lookup(p.entries, key, entry, k);
        if let Some(x) = path {
            put_then_lookup(p.paths, key, x, k);
        }
    }
    assert(part_items(q) =~= part_items(p).push(
        CacheItem { key, value: entry.value, mtime: entry.mtime, path },
    )) by {
        assert forall|j: int| 0 <= j < p.order.len() implies part_items(q)[j] == part_items(p)[j] by {
            assert(q.order[j] == p.order[j]);
        }
    }
}

/// A cache in memory with a greatest size, from which the oldest items go first.
///
/// An item may belong to a file; once the file is modified the item is outdated.
#[verifier::reject_recursive_types(V)]
pub struct MemoryCache<V> {
    entries: Vec<(String, CacheEntry<V>)>,
    file_paths: Vec<(String, std::path::PathBuf)>,
    fifo_order: indexmap::IndexSet<String>,
    max_size: usize,
}

impl<V: Clone> MemoryCache<V> {
    spec fn parts(&self) -> Parts<V> {
        Parts {
            entries: named(self.entries@),
            paths: named(self.file_paths@),
            order: in_set(self.fifo_order),
        }
    }

    /// The items, from the oldest to the latest.
    pub closed spec fn view(&self) -> Seq<CacheItem<V>> {
        part_items(self.parts())
    }

    /// The greatest number of items.
    pub closed spec fn capacity(&self) -> usize {
        self.max_size
    }

    /// Whether the parts of the cache fit together and it is not too large.
    pub closed spec fn wf(&self) -> bool {
        fitting(self.parts()) && self@.len() <= self.capacity()
    }

    /// An empty cache for at most `max_size` items.
    pub fn new(max_size: usize) -> (r: MemoryCache<V>)
        ensures
            r.wf(),
            r@ == Seq::<CacheItem<V>>::empty(),
            r.capacity() == max_size,
    {
        let r = MemoryCache {
            entries: Vec::new(),
            file_paths: Vec::new(),
            fifo_order: set_new(),
            max_size,
        };
        assert(r@ =~= Seq::<CacheItem<V>>::empty());
        r
    }

    fn drop_item(&mut self, key: &str)
        requires
            old(self).wf(),
        ensures
            final(self).wf(),
            final(self)@ == dropped(old(self)@, key@),
            final(self).capacity() == old(self).capacity(),
            !in_set(final(self).fifo_order).contains(key@),
    {
        proof {
            taking_out(self.parts(), key@);
            item_index_first(self@, key@);
        }
        take_value(&mut self.entries, key);
        take_value(&mut self.file_paths, key);
        set_remove(&mut self.fifo_order, key);
    }

    /// The file of the item with that key.
    pub fn file_path(&self, key: &str) -> (r: Option<&std::path::PathBuf>)
        requires
            self.wf(),
        ensures
            match r {
                Some(p) => item_of(self@, key@) matches Some(item) && item.path == Some(*p),
                None => item_of(self@, key@) matches Some(item) ==> item.path is None,
            },
    {
        proof {
            let _ = part_place(self.parts(), key@);
            name_index_first(named(self.file_paths@), key@);
        }
        let i: usize = position(&self.file_paths, key);
        if i < self.file_paths.len() {
            assert(lookup(self.parts().paths, key@) is Some);
            Some(&self.file_paths[i].1)
        } else {
            None
        }
    }

    /// The value with that key, where its file was last modified at `mtime`, as
    /// far as that is known.  An outdated item goes.
    pub fn get(&mut self, key: &str, mtime: Option<u64>) -> (r: Option<V>)
        requires
            old(self).wf(),
        ensures
            final(self).wf(),
            final(self).capacity() == old(self).capacity(),
            match item_of(old(self)@, key@) {
                None => r is None && final(self)@ == old(self)@,
                Some(item) => if outdated(item, mtime) {
                    r is None && final(self)@ == dropped(old(self)@, key@)
                } else {
                    final(self)@ == old(self)@ && (r matches Some(v) && cloned(item.value, v))
                },
            },
    {
        proof {
            let _ = part_place(self.parts(), key@);
            name_index_first(named(self.entries@), key@);
        }
        let i: usize = position(&self.entries, key);
        if i >= self.entries.len() {
            return None;
        }
        assert(lookup(self.parts().entries, key@) == Some(self.entries@[i as int].1));
        if self.file_path(key).is_some() {
            if let (Some(stored), Some(current)) = (self.entries[i].1.mtime, mtime) {
                if stored != current {
                    self.drop_item(key);
                    return None;
                }
            }
        }
        Some(self.entries[i].1.value.clone())
    }

    /// Inserts a value, with its file and the time at which that was last
    /// modified.  The oldest items make room for it.
    pub fn insert(
        &mut self,
        key: String,
        value: V,
        file: Option<(std::path::PathBuf, Option<u64>)>,
    )
        requires
            old(self).wf(),
        ensures
            final(self).wf(),
            final(self).capacity() == old(self).capacity(),
            final(self)@ == inserted(
                old(self)@,
                old(self).capacity() as int,
                (CacheItem {
                    key: key@,
                    value,
                    mtime: match file {
                        Some((_, t)) => t,
                        None => None,
                    },
                    path: match file {
                        Some((p, _)) => Some(p),
                        None => None,
                    },
                }),
            ),
    {
        self.drop_item(key.as_str());
        let ghost rest = self@;
        let ghost most = self.max_size as int;
        while self.entries.len() >= self.max_size && !set_is_empty(&self.fifo_order)
            invariant
                self.wf(),
                self.max_size == most,
                self@.len() <= rest.len(),
                self@ == rest.skip(rest.len() - self@.len()),
                self@.len() < rest.len() ==> self@.len() >= most - 1,
                !in_set(self.fifo_order).contains(key@),
            decreases self@.len(),
        {
            let ghost before = self.parts();
            let ghost items = self@;
            if let Some(oldest) = set_remove_first(&mut self.fifo_order) {
                take_value(&mut self.entries, oldest.as_str());
                take_value(&mut self.file_paths, oldest.as_str());
                proof {
                    taking_out(before, before.order[0]);
                    taking_out_first(before);
                    crate::assoc::remaining_names(before.order, seq![before.order[0]]);
                    assert(self.parts() == parts_without(before, before.order[0]));
                    assert(items.drop_first() =~= rest.skip(rest.len() - items.len() + 1));
                    assert(!in_set(self.fifo_order).contains(key@));
                }
            }
        }
        if self.max_size == 0 {
            assert(self@ =~= Seq::<CacheItem<V>>::empty());
            return;
        }
        assert(self@ == newest(rest, most)) by {
            if rest.len() < most {
                assert(rest.skip(0) =~= rest);
            }
        }
        let ghost before = self.parts();
        let ghost kept = self@;
        let (path, mtime) = match file {
            Some((p, t)) => (Some(p), t),
            None => (None, None),
        };
        let entry = CacheEntry { value, mtime };
        proof {
            adding(before, key@, entry, path);
        }
        if let Some(p) = path {
            put_value(&mut self.file_paths, key.as_str(), p);
        }
        put_value(&mut self.entries, key.as_str(), entry);
        set_insert(&mut self.fifo_order, key);
    }

    /// Removes the item with that key.
    pub fn invalidate(&mut self, key: &str)
        requires
            old(self).wf(),
        ensures
            final(self).wf(),
            final(self)@ == dropped(old(self)@, key@),
            final(self).capacity() == old(self).capacity(),
    {
        self.drop_item(key);
    }

    /// Removes all items.
    pub fn clear(&mut self)
        requires
            old(self).wf(),
        ensures
            final(self).wf(),
            final(self)@ == Seq::<CacheItem<V>>::empty(),
            final(self).capacity() == old(self).capacity(),
    {
        self.entries = Vec::new();
        self.file_paths = Vec::new();
        set_clear(&mut self.fifo_order);
        assert(self@ =~= Seq::<CacheItem<V>>::empty());
    }

    /// The number of items.
    pub fn len(&self) -> (r: usize)
        requires
            self.wf(),
        ensures
            r == self@.len(),
    {
        self.entries.len()
    }

    /// Whether there are no items.
    pub fn is_empty(&self) -> (r: bool)
        requires
            self.wf(),
        ensures
            r == (self@.len() == 0),
    {
        self.entries.len() == 0
    }
}

// ---------------------------------------------------------------------------
// Files
// ---------------------------------------------------------------------------

/// A digit of a hexadecimal number.
pub open spec fn hex_digit(n: int) -> char {
    if n < 10 {
        (48 + n) as char
    } else {
        (87 + n) as char
    }
}

/// Bytes as hexadecimal digits, two for each byte.
pub open spec fn hex(bytes: Seq<u8>) -> Seq<char>
    decreases bytes.len(),
{
    if bytes.len() == 0 {
        Seq::empty()
    } else {
        hex(bytes.drop_last()).push(hex_digit(bytes.last() as int / 16)).push(
            hex_digit(bytes.last() as int % 16),
        )
    }
}

fn digit_of(n: u8) -> (r: char)
    requires
        n < 16,
    ensures
        r == hex_digit(n as int),
{
    if n < 10 {
        (48 + n) as char
    } else {
        (87 + n) as char
    }
}

fn push_hex(out: &mut Vec<char>, bytes: &[u8])
    ensures
        final(out)@ == old(out)@ + hex(bytes@),
{
    let n: usize = bytes.len();
    let mut i: usize = 0;
    assert(bytes@.take(0) =~= Seq::empty());
    assert(out@ =~= old(out)@ + hex(bytes@.take(0)));
    while i < n
        invariant
            i <= n,
            n == bytes@.len(),
            out@ == old(out)@ + hex(bytes@.take(i as int)),
        decreases n - i,
    {
        let b: u8 = bytes[i];
        assert(bytes@.take(i + 1).drop_last() =~= bytes@.take(i as int));
        let ghost before = hex(bytes@.take(i as int));
        out.push(digit_of(b / 16));
        out.push(digit_of(b % 16));
        assert(out@ =~= old(out)@ + before.push(hex_digit(b as int / 16)).push(
            hex_digit(b as int % 16),
        ));
        i = i + 1;
    }
    assert(bytes@.take(n as int) =~= bytes@);
}

/// Bytes as hexadecimal digits, two for each byte.
pub fn hex_text(bytes: &[u8]) -> (r: String)
    ensures
        r@ == hex(bytes@),
{
    let mut out: Vec<char> = Vec::new();
    push_hex(&mut out, bytes);
    assert(out@ =~= hex(bytes@));
    text_of(out.as_slice())
}

/// The key of a file with that content: its SHA-256 digest in hexadecimal
/// digits.
pub fn compile_cache_key(content: &[u8]) -> (r: String)
    ensures
        r@ == hex(sha256(content@)),
{
    let digest = sha256_of(content);
    hex_text(digest.as_slice())
}

/// How many writes lie between two searches for files that were left behind.
pub const CLEANUP_INTERVAL: u64 = 10;

/// A cache in files, one for each key.  What is on the disk is up to the caller;
/// the cache gives the files their names and says when to tidy up.
#[derive(Debug)]
pub struct DiskCache {
    /// How often a file was written.
    pub write_count: u64,
}

impl DiskCache {
    /// A cache to which nothing was written yet.
    pub fn new() -> (r: DiskCache)
        ensures
            r.write_count == 0,
    {
        DiskCache { write_count: 0 }
    }

    /// The name of the file in which the value with that key is cached.
    pub fn file_name(key: &str) -> (r: String)
        ensures
            r@ == hex(sha256(encode_utf8(key@))) + ".cache"@,
    {
        let digits = compile_cache_key(key.as_bytes());
        concat(digits.as_str(), ".cache")
    }

    /// The name of the file that is written before it becomes the cached file.
    pub fn temp_name(key: &str) -> (r: String)
        ensures
            r@ == hex(sha256(encode_utf8(key@))) + ".tmp"@,
    {
        let digits = compile_cache_key(key.as_bytes());
        concat(digits.as_str(), ".tmp")
    }

    /// Notes that a file was written, and says whether it is time to search for
    /// files that were left behind.
    pub fn note_write(&mut self) -> (r: bool)
        ensures
            final(self).write_count == (if old(self).write_count == u64::MAX {
                0u64
            } else {
                (old(self).write_count + 1) as u64
            }),
            r == (final(self).write_count as int % CLEANUP_INTERVAL as int == 0),
    {
        self.write_count =
        if self.write_count == u64::MAX {
            0
        } else {
            self.write_count + 1
        };
        self.write_count % CLEANUP_INTERVAL == 0
    }
}

/// Whether a cached file last modified at a time is older than `max_age`, all in
/// nanoseconds since 1970.
pub fn is_expired(modified: u128, now: u128, max_age: u128) -> (r: bool)
    ensures
        r == (modified + max_age < now),
{
    let cutoff: u128 = if max_age <= now {
        now - max_age
    } else {
        0
    };
    modified < cutoff
}

// ---------------------------------------------------------------------------
// Laws
// ---------------------------------------------------------------------------

/// A cache holds no more than its capacity, and of equal keys only the latest.
pub proof fn inserted_bounds<V>(items: Seq<CacheItem<V>>, most: int, item: CacheItem<V>)
    requires
        items.len() <= most,
    ensures
        inserted(items, most, item).len() <= most,
        most > 0 ==> inserted(items, most, item).last() == item,
{
    item_index_first(items, item.key);
}

proof fn item_index_is<V>(items: Seq<CacheItem<V>>, key: Seq<char>, i: int)
    requires
        0 <= i <= items.len(),
        i < items.len() ==> items[i].key == key,
        forall|j: int| 0 <= j < i ==> (#[trigger] items[j]).key != key,
    ensures
        item_index(items, key) == i,
{
    item_index_first(items, key);
    let x = item_index(items, key);
    if x < i {
        assert(items[x].key != key);
    } else if x > i {
        assert(items[i].key != key);
    }
}

/// Whether no two items have the same key.
pub open spec fn keys_once<V>(items: Seq<CacheItem<V>>) -> bool {
    forall|i: int, j: int| 0 <= i < j < items.len() ==> (#[trigger] items[i]).key != (
    #[trigger] items[j]).key
}

/// The keys of a cache are distinct, and its items no more than its capacity.
pub proof fn well_formed_cache<V: Clone>(cache: MemoryCache<V>)
    requires
        cache.wf(),
    ensures
        keys_once(cache@),
        cache@.len() <= cache.capacity(),
{
    let p = cache.parts();
    assert forall|i: int, j: int| 0 <= i < j < cache@.len() implies (#[trigger] cache@[i]).key != (
    #[trigger] cache@[j]).key by {
        assert(p.order[i] != p.order[j]);
    }
}

/// What is inserted is found again.
pub proof fn inserted_is_found<V>(items: Seq<CacheItem<V>>, most: int, item: CacheItem<V>)
    requires
        most > 0,
        keys_once(items),
    ensures
        item_of(inserted(items, most, item), item.key) == Some(item),
{
    let key = item.key;
    item_index_first(items, key);
    let rest = dropped(items, key);
    let i = item_index(items, key);
    let kept = newest(rest, most);
    let after = kept.push(item);
    assert forall|j: int| 0 <= j < kept.len() implies (#[trigger] after[j]).key != key by {
        let r = j + rest.len() - kept.len();
        assert(after[j] == rest[r]);
        if i < items.len() {
            let x = if r < i {
                r
            } else {
                r + 1
            };
            assert(rest[r] == items[x]);
            if x < i {
                assert(items[x].key != items[i].key);
            } else {
                assert(items[i].key != items[x].key);
            }
        } else {
            assert(items[r].key != key);
        }
    }
    item_index_is(after, key, kept.len() as int);
}

/// The oldest item goes first: a full cache that takes in a new key loses its
/// first item and no other.
pub proof fn oldest_goes_first<V>(items: Seq<CacheItem<V>>, item: CacheItem<V>)
    requires
        items.len() > 0,
        item_of(items, item.key) is None,
    ensures
        inserted(items, items.len() as int, item) == items.drop_first().push(item),
{
    item_index_first(items, item.key);
    assert(items.skip(1) =~= items.drop_first());
}

/// Two digits stand for each byte, so a name is as long as twice the digest.
pub proof fn hex_length(bytes: Seq<u8>)
    ensures
        hex(bytes).len() == 2 * bytes.len(),
    decreases bytes.len(),
{
    if bytes.len() > 0 {
        hex_length(bytes.drop_last());
    }
}

proof fn hex_digit_tells(a: int, b: int)
    requires
        0 <= a < 16,
        0 <= b < 16,
        hex_digit(a) == hex_digit(b),
    ensures
        a == b,
{
}

/// Different bytes have different digits.
pub proof fn hex_tells_apart(a: Seq<u8>, b: Seq<u8>)
    requires
        hex(a) == hex(b),
    ensures
        a == b,
    decreases a.len(),
{
    hex_length(a);
    hex_length(b);
    if a.len() > 0 {
        let x = hex(a);
        let y = hex(b);
        let n = x.len() as int;
        let p = a.last() as int;
        let q = b.last() as int;
        assert(x[n - 1] == hex_digit(p % 16) && y[n - 1] == hex_digit(q % 16));
        assert(x[n - 2] == hex_digit(p / 16) && y[n - 2] == hex_digit(q / 16));
        hex_digit_tells(p % 16, q % 16);
        hex_digit_tells(p / 16, q / 16);
        assert(x.take(n - 2) =~= hex(a.drop_last()));
        assert(y.take(n - 2) =~= hex(b.drop_last()));
        hex_tells_apart(a.drop_last(), b.drop_last());
        assert(a =~= a.drop_last().push(a.last()));
        assert(b =~= b.drop_last().push(b.last()));
    } else {
        assert(a =~= b);
    }
}

/// An item that was dropped is not found, and every other item is found as before.
pub proof fn dropped_is_not_found<V>(items: Seq<CacheItem<V>>, key: Seq<char>, other: Seq<char>)
    requires
        keys_once(items),
        other != key,
    ensures
        item_of(dropped(items, key), key) is None,
        item_of(dropped(items, key), other) == item_of(items, other),
{
    item_index_first(items, key);
    item_index_first(items, other);
    let i = item_index(items, key);
    let j = item_index(items, other);
    let left = dropped(items, key);
    item_index_first(left, key);
    item_index_first(left, other);
    if i < items.len() {
        let a = item_index(left, key);
        if a < left.len() {
            if a < i {
                assert(left[a] == items[a]);
            } else {
                assert(left[a] == items[a + 1]);
                assert(items[a + 1].key == items[i].key);
            }
        }
        let b = item_index(left, other);
        if j < items.len() {
            if j < i {
                assert(left[j] == items[j]);
                item_index_is(left, other, j);
            } else {
                assert(left[j - 1] == items[j]);
                assert forall|c: int| 0 <= c < j - 1 implies (#[trigger] left[c]).key != other by {
                    if c < i {
                        assert(left[c] == items[c]);
                    } else {
                        assert(left[c] == items[c + 1]);
                    }
                }
                item_index_is(left, other, j - 1);
            }
        } else if b < left.len() {
            if b < i {
                assert(left[b] == items[b]);
            } else {
                assert(left[b] == items[b + 1]);
            }
        }
    }
}

/// An item is outdated exactly where it has a file, and the file was modified at
/// another time than when the item was inserted; an unknown time never tells.
pub proof fn when_an_item_is_outdated<V>(item: CacheItem<V>, then: u64, now: u64)
    ensures
        item.mtime == Some(then) && item.path is Some ==> (outdated(item, Some(now)) <==> then
            != now),
        item.path is None || item.mtime is None ==> !outdated(item, Some(now)),
        !outdated(item, None),
{
}

/// The value of a hexadecimal digit.
pub open spec fn hex_value(c: char) -> int {
    if '0' <= c <= '9' {
        c as int - '0' as int
    } else {
        c as int - 'a' as int + 10
    }
}

/// Each byte is sixteen times its first digit and its second, in the order of the
/// bytes.
pub proof fn hex_is_read_back(bytes: Seq<u8>, i: int)
    requires
        0 <= i < bytes.len(),
    ensures
        hex(bytes).len() == 2 * bytes.len(),
        bytes[i] == 16 * hex_value(hex(bytes)[2 * i]) + hex_value(hex(bytes)[2 * i + 1]),
    decreases bytes.len(),
{
    hex_length(bytes);
    hex_length(bytes.drop_last());
    if i < bytes.len() - 1 {
        hex_is_read_back(bytes.drop_last(), i);
    } else {
        let b = bytes.last() as int;
        assert(b == 16 * (b / 16) + b % 16);
        assert(0 <= b / 16 < 16);
    }
}

} // verus!
