//! Reuse external sources across frames.
//!
//! A producer that re-presents the same handful of buffers hands the same
//! descriptors back round after round, and importing each again every frame
//! arrives at the framebuffer the kernel already had.

use vstd::prelude::*;
use crate::errno::Errno;
use crate::external::{import_fault, ExternalDmaBufSource, ExternalError, ExternalPlane};
use crate::source::SourceFormat;

verus! {

/// One cached source.
#[derive(Debug)]
pub struct CacheEntry {
    /// The producer's identity for the buffer.
    pub key: u64,
    /// The source.
    pub source: ExternalDmaBufSource,
}

/// Caches one source per buffer identity.
#[derive(Debug)]
pub struct DmaBufSourceCache {
    /// The cached sources.
    pub entries: Vec<CacheEntry>,
    /// Sources the cache has let go, whose framebuffers are still to be torn
    /// down.
    pub dropped: Vec<ExternalDmaBufSource>,
}

/// The sources of a list of entries.
pub open spec fn sources_of(entries: Seq<CacheEntry>) -> Seq<ExternalDmaBufSource> {
    entries.map_values(|entry: CacheEntry| entry.source)
}

/// A list of let-go sources after what was cached under a key, if anything, has
/// joined it.
pub open spec fn let_go(
    dropped: Seq<ExternalDmaBufSource>,
    source: Option<ExternalDmaBufSource>,
) -> Seq<ExternalDmaBufSource> {
    match source {
        Some(source) => dropped.push(source),
        None => dropped,
    }
}

/// The place of the first entry under a key.
pub open spec fn entry_place(entries: Seq<CacheEntry>, key: u64) -> Option<int>
    decreases entries.len(),
{
    if entries.len() == 0 {
        None
    } else if entries[0].key == key {
        Some(0)
    } else {
        match entry_place(entries.skip(1), key) {
            Some(place) => Some(place + 1),
            None => None,
        }
    }
}

proof fn lemma_entry_place(entries: Seq<CacheEntry>, key: u64, upto: int)
    requires
        0 <= upto <= entries.len(),
        forall|i: int| 0 <= i < upto ==> (#[trigger] entries[i]).key != key,
    ensures
        upto == entries.len() ==> entry_place(entries, key) is None,
        upto < entries.len() && entries[upto].key == key ==> entry_place(entries, key) == Some(upto),
    decreases upto,
{
    if upto > 0 {
        let rest = entries.skip(1);
        assert forall|i: int| 0 <= i < upto - 1 implies (#[trigger] rest[i]).key != key by {
            assert(rest[i] == entries[i + 1]);
        }
        lemma_entry_place(rest, key, upto - 1);
        if upto < entries.len() {
            assert(rest[upto - 1] == entries[upto]);
        }
    }
}

proof fn lemma_entry_found(entries: Seq<CacheEntry>, key: u64)
    ensures
        match entry_place(entries, key) {
            Some(place) => 0 <= place < entries.len() && entries[place].key == key && forall|i: int|
                0 <= i < place ==> (#[trigger] entries[i]).key != key,
            None => forall|i: int| 0 <= i < entries.len() ==> (#[trigger] entries[i]).key != key,
        },
    decreases entries.len(),
{
    if entries.len() > 0 && entries[0].key != key {
        lemma_entry_found(entries.skip(1), key);
        let rest = entries.skip(1);
        assert forall|i: int| 1 <= i < entries.len() implies #[trigger] entries[i] == rest[i - 1] by {}
    }
}

impl DmaBufSourceCache {
    /// No key is cached twice.
    pub open spec fn well_formed(&self) -> bool {
        forall|i: int, j: int|
            0 <= i < j < self.entries@.len() ==> (#[trigger] self.entries@[i]).key
                != (#[trigger] self.entries@[j]).key
    }

    /// The source cached under a key.
    pub open spec fn cached(&self, key: u64) -> Option<ExternalDmaBufSource> {
        match entry_place(self.entries@, key) {
            Some(place) => Some(self.entries@[place].source),
            None => None,
        }
    }

    /// An empty cache.
    pub fn new() -> (cache: Self)
        ensures
            cache.well_formed(),
            cache.entries@.len() == 0,
            cache.dropped@.len() == 0,
    {
        DmaBufSourceCache { entries: Vec::new(), dropped: Vec::new() }
    }

    fn place_of(&self, key: u64) -> (place: Option<usize>)
        ensures
            match (place, entry_place(self.entries@, key)) {
                (Some(found), Some(place)) => found == place && found < self.entries@.len()
                    && self.entries@[place].key == key,
                (None, None) => true,
                _ => false,
            },
    {
        let mut i: usize = 0;
        while i < self.entries.len()
            invariant
                0 <= i <= self.entries@.len(),
                forall|j: int| 0 <= j < i ==> (#[trigger] self.entries@[j]).key != key,
            decreases self.entries@.len() - i,
        {
            if self.entries[i].key == key {
                proof {
                    lemma_entry_place(self.entries@, key, i as int);
                }
                return Some(i);
            }
            i += 1;
        }
        proof {
            lemma_entry_place(self.entries@, key, i as int);
        }
        None
    }

    /// Whether a key has to be imported for a buffer of this shape: nothing is
    /// cached under it, or what is has another shape.
    pub fn needs_import(&self, key: u64, format: SourceFormat) -> (needed: bool)
        ensures
            needed == match self.cached(key) {
                Some(source) => source.format != format,
                None => true,
            },
    {
        match self.place_of(key) {
            Some(place) => self.entries[place].source.format != format,
            None => true,
        }
    }

    /// The place of the source for `key`, made from `imported` on first sight.
    ///
    /// A cached source of another shape is **replaced**: the producer has reused
    /// the key for a different buffer. A failed import caches nothing, and what
    /// it was to replace is gone. What is replaced joins the let-go sources.
    pub fn get_or_create(
        &mut self,
        key: u64,
        format: SourceFormat,
        planes: &[ExternalPlane],
        imported: Result<u32, Errno>,
    ) -> (place: Result<usize, ExternalError>)
        requires
            old(self).well_formed(),
        ensures
            final(self).well_formed(),
            match old(self).cached(key) {
                Some(source) if source.format == format => {
                    &&& place matches Ok(place) && place == entry_place(old(self).entries@, key)->0
                    &&& *final(self) == *old(self)
                },
                _ => {
                    let kept = without_key(old(self).entries@, key);
                    &&& final(self).dropped@ == let_go(old(self).dropped@, old(self).cached(key))
                    &&& match (import_fault(format, planes@), imported) {
                        (None, Ok(fb_id)) => {
                            &&& place matches Ok(place) && place == kept.len()
                            &&& final(self).entries@ == kept.push(
                                CacheEntry {
                                    key,
                                    source: ExternalDmaBufSource {
                                        fb: Some(fb_id),
                                        format,
                                        pending_fence: None,
                                        spare_fence: None,
                                        callback_armed: false,
                                        requeue_due: false,
                                    },
                                },
                            )
                        },
                        (fault, outcome) => {
                            &&& place == Err::<usize, ExternalError>(
                                match fault {
                                    Some(reason) => ExternalError::Invalid { reason },
                                    None => ExternalError::Io(outcome->Err_0),
                                },
                            )
                            &&& final(self).entries@ == kept
                        },
                    }
                },
            },
    {
        proof {
            lemma_entry_found(self.entries@, key);
        }
        let ghost before = self.entries@;
        if let Some(place) = self.place_of(key) {
            if self.entries[place].source.format == format {
                return Ok(place);
            }
            let gone = self.entries.remove(place);
            self.dropped.push(gone.source);
            proof {
                lemma_remove_keeps_keys_apart(before, place as int);
                assert(self.entries@ =~= without_key(before, key));
            }
        }
        match ExternalDmaBufSource::create(format, planes, imported, false) {
            Err(error) => Err(error),
            Ok(source) => {
                let place: usize = self.entries.len();
                let ghost kept = self.entries@;
                proof {
                    lemma_without_key_lacks_it(before, key);
                }
                self.entries.push(CacheEntry { key, source });
                assert forall|i: int, j: int| 0 <= i < j < self.entries@.len() implies (
                #[trigger] self.entries@[i]).key != (#[trigger] self.entries@[j]).key by {
                    assert(self.entries@[i] == kept[i]);
                }
                Ok(place)
            },
        }
    }

    /// The source at a place, to acquire from.
    pub fn source_mut(&mut self, place: usize) -> (source: &mut ExternalDmaBufSource)
        requires
            old(self).well_formed(),
            place < old(self).entries@.len(),
        ensures
            *source == old(self).entries@[place as int].source,
            final(self).well_formed(),
            final(self).entries@ == old(self).entries@.update(
                place as int,
                CacheEntry {
                    key: old(self).entries@[place as int].key,
                    source: *final(source),
                },
            ),
            final(self).dropped == old(self).dropped,
    {
        &mut self.entries[place].source
    }

    /// The source cached under `key`, if any.
    pub fn find(&self, key: u64) -> (source: Option<&ExternalDmaBufSource>)
        ensures
            match source {
                Some(found) => self.cached(key) == Some(*found),
                None => self.cached(key) is None,
            },
    {
        match self.place_of(key) {
            Some(place) => Some(&self.entries[place].source),
            None => None,
        }
    }

    /// Drop the source under `key`, returning whether one was there.
    pub fn evict(&mut self, key: u64) -> (evicted: bool)
        requires
            old(self).well_formed(),
        ensures
            final(self).well_formed(),
            evicted == old(self).cached(key) is Some,
            final(self).entries@ == without_key(old(self).entries@, key),
            final(self).dropped@ == let_go(old(self).dropped@, old(self).cached(key)),
    {
        proof {
            lemma_entry_found(self.entries@, key);
        }
        let ghost before = self.entries@;
        match self.place_of(key) {
            Some(place) => {
                let gone = self.entries.remove(place);
                self.dropped.push(gone.source);
                proof {
                    lemma_remove_keeps_keys_apart(before, place as int);
                }
                true
            },
            None => false,
        }
    }

    /// Drop every cached source.
    pub fn clear(&mut self)
        ensures
            final(self).well_formed(),
            final(self).entries@.len() == 0,
            final(self).dropped@ == old(self).dropped@ + sources_of(old(self).entries@),
    {
        let ghost all = self.entries@;
        let ghost before = self.dropped@;
        let ghost mut done: int = 0;
        assert(before + sources_of(all.take(0)) =~= before);
        while self.entries.len() > 0
            invariant
                0 <= done <= all.len(),
                self.entries@ == all.skip(done),
                self.dropped@ == before + sources_of(all.take(done)),
            decreases self.entries@.len(),
        {
            let gone = self.entries.remove(0);
            assert(gone == all[done]);
            assert(self.entries@ =~= all.skip(done + 1));
            self.dropped.push(gone.source);
            assert(self.dropped@ =~= before + sources_of(all.take(done + 1)));
            proof {
                done = done + 1;
            }
        }
        assert(all.take(done) =~= all);
    }

    /// Take the sources the cache has let go, to tear their framebuffers down.
    pub fn take_dropped(&mut self) -> (dropped: Vec<ExternalDmaBufSource>)
        ensures
            dropped == old(self).dropped,
            final(self).dropped@.len() == 0,
            final(self).entries == old(self).entries,
    {
        let mut dropped: Vec<ExternalDmaBufSource> = Vec::new();
        core::mem::swap(&mut dropped, &mut self.dropped);
        dropped
    }

    /// How many sources are cached.
    pub fn len(&self) -> (len: usize)
        ensures
            len == self.entries@.len(),
    {
        self.entries.len()
    }

    /// Whether the cache is empty.
    pub fn is_empty(&self) -> (empty: bool)
        ensures
            empty == (self.entries@.len() == 0),
    {
        self.entries.len() == 0
    }
}

impl Default for DmaBufSourceCache {
    fn default() -> (cache: Self)
        ensures
            cache.well_formed(),
            cache.entries@.len() == 0,
            cache.dropped@.len() == 0,
    {
        DmaBufSourceCache::new()
    }
}

/// The entries without the one under a key.
pub open spec fn without_key(entries: Seq<CacheEntry>, key: u64) -> Seq<CacheEntry> {
    match entry_place(entries, key) {
        Some(place) => entries.remove(place),
        None => entries,
    }
}

proof fn lemma_remove_keeps_keys_apart(entries: Seq<CacheEntry>, place: int)
    requires
        0 <= place < entries.len(),
        forall|i: int, j: int|
            0 <= i < j < entries.len() ==> (#[trigger] entries[i]).key != (#[trigger] entries[j]).key,
    ensures
        forall|i: int, j: int|
            0 <= i < j < entries.remove(place).len() ==> (#[trigger] entries.remove(place)[i]).key
                != (#[trigger] entries.remove(place)[j]).key,
{
    let rest = entries.remove(place);
    assert forall|i: int, j: int| 0 <= i < j < rest.len() implies (#[trigger] rest[i]).key != (
    #[trigger] rest[j]).key by {
        let a = if i < place {
            i
        } else {
            i + 1
        };
        let b = if j < place {
            j
        } else {
            j + 1
        };
        assert(rest[i] == entries[a] && rest[j] == entries[b]);
    }
}

proof fn lemma_without_key_lacks_it(entries: Seq<CacheEntry>, key: u64)
    requires
        forall|i: int, j: int|
            0 <= i < j < entries.len() ==> (#[trigger] entries[i]).key != (#[trigger] entries[j]).key,
    ensures
        forall|i: int|
            0 <= i < without_key(entries, key).len() ==> (#[trigger] without_key(
                entries,
                key,
            )[i]).key != key,
{
    lemma_entry_found(entries, key);
    let kept = without_key(entries, key);
    assert forall|i: int| 0 <= i < kept.len() implies (#[trigger] kept[i]).key != key by {
        if let Some(place) = entry_place(entries, key) {
            if i < place {
                assert(kept[i] == entries[i]);
            } else {
                assert(kept[i] == entries[i + 1]);
                assert(entries[place].key != entries[i + 1].key);
            }
        }
    }
}

/// An evicted key is not found again, and no other key is disturbed.
pub proof fn law_eviction_removes_one_key(
    cache: DmaBufSourceCache,
    after: DmaBufSourceCache,
    key: u64,
    other: u64,
)
    requires
        cache.well_formed(),
        after.entries@ == without_key(cache.entries@, key),
        other != key,
    ensures
        after.cached(key) is None,
        after.cached(other) == cache.cached(other),
{
    let entries = cache.entries@;
    lemma_without_key_lacks_it(entries, key);
    lemma_entry_found(after.entries@, key);
    lemma_entry_found(entries, key);
    lemma_entry_found(entries, other);
    lemma_entry_found(after.entries@, other);
    if let Some(gone) = entry_place(entries, key) {
        let kept = after.entries@;
        lemma_remove_keeps_keys_apart(entries, gone);
        match entry_place(entries, other) {
            Some(p) => {
                let q = if p < gone {
                    p
                } else {
                    p - 1
                };
                assert(kept[q] == entries[p]);
                let r = entry_place(kept, other)->0;
                if r < q {
                    assert(kept[r].key != kept[q].key);
                } else if q < r {
                    assert(kept[q].key != kept[r].key);
                }
            },
            None => {
                assert forall|i: int| 0 <= i < kept.len() implies (#[trigger] kept[i]).key != other by {
                    let a = if i < gone {
                        i
                    } else {
                        i + 1
                    };
                    assert(kept[i] == entries[a]);
                }
            },
        }
    }
}

/// A key finds the source cached under it, and a key nobody cached finds none.
pub proof fn law_a_key_finds_its_source(cache: DmaBufSourceCache, at: int, key: u64)
    requires
        cache.well_formed(),
    ensures
        0 <= at < cache.entries@.len() ==> cache.cached(cache.entries@[at].key) == Some(
            cache.entries@[at].source,
        ),
        (forall|j: int| 0 <= j < cache.entries@.len() ==> (#[trigger] cache.entries@[j]).key != key)
            ==> cache.cached(key) is None,
{
    lemma_entry_found(cache.entries@, key);
    if 0 <= at < cache.entries@.len() {
        let own = cache.entries@[at].key;
        lemma_entry_found(cache.entries@, own);
        let place = entry_place(cache.entries@, own)->0;
        if place < at {
            assert(cache.entries@[place].key != cache.entries@[at].key);
        }
    }
}

/// What leaves the cache is kept to be torn down, once and last.
pub proof fn law_what_leaves_is_kept(
    dropped: Seq<ExternalDmaBufSource>,
    source: ExternalDmaBufSource,
    entries: Seq<CacheEntry>,
    i: int,
)
    ensures
        let_go(dropped, Some(source)) == dropped.push(source),
        let_go(dropped, None) == dropped,
        sources_of(entries).len() == entries.len(),
        0 <= i < entries.len() ==> sources_of(entries)[i] == entries[i].source,
{
}

} // verus!
