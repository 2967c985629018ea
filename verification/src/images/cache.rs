//! The pictures that were decoded last, within a budget of bytes.

use crate::images::decode::{
    decodable, whole, Picture, PictureValue, DEFAULT_DECODED_BUDGET_BYTES,
};
use crate::sharing::share;
use std::sync::Arc;
use vstd::prelude::*;

verus! {

/// Which decoded picture an entry is.
///
/// The length and the time of change are part of it: a file that was written
/// again in its place must not be answered with what used to be there.
#[derive(Debug, Clone, Copy, PartialEq, Eq, Structural)]
pub struct DecodedKey {
    pub document: u64,
    pub page: usize,
    pub len: u64,
    /// When the file was last changed, in nanoseconds since the start of 1970.
    pub modified: Option<i128>,
}

#[derive(Debug)]
struct CacheEntry {
    key: DecodedKey,
    image: Arc<Picture>,
    used_at: u64,
}

/// One picture that is kept, as a value.
#[verifier::ext_equal]
pub struct Kept {
    pub key: DecodedKey,
    pub image: PictureValue,
    /// When it was used last; the smallest goes first.
    pub used_at: u64,
}

/// What is kept, as a value.
#[verifier::ext_equal]
pub struct CacheValue {
    pub budget: u64,
    pub tick: u64,
    pub entries: Seq<Kept>,
}

/// Keeps decoded pictures, and lets those go that were used longest ago.
#[derive(Debug)]
pub struct DecodedCache {
    budget: u64,
    used: u64,
    tick: u64,
    entries: Vec<CacheEntry>,
}

spec fn kept(entry: CacheEntry) -> Kept {
    Kept { key: entry.key, image: (*entry.image)@, used_at: entry.used_at }
}

spec fn all_kept(entries: Seq<CacheEntry>) -> Seq<Kept> {
    entries.map_values(|entry: CacheEntry| kept(entry))
}

impl View for DecodedCache {
    type V = CacheValue;

    closed spec fn view(&self) -> CacheValue {
        CacheValue { budget: self.budget, tick: self.tick, entries: all_kept(self.entries@) }
    }
}

/// How many bytes a picture takes.
pub open spec fn cost(image: PictureValue) -> int {
    image.width * image.height * 4
}

/// How many bytes these pictures take.
pub open spec fn total(entries: Seq<Kept>) -> int
    decreases entries.len(),
{
    if entries.len() == 0 {
        0
    } else {
        total(entries.drop_last()) + cost(entries.last().image)
    }
}

/// Where a picture with this key stands, from `from` on, or the end.
pub open spec fn key_index(entries: Seq<Kept>, key: DecodedKey, from: int) -> int
    decreases entries.len() - from,
{
    if from >= entries.len() || entries[from].key == key {
        from
    } else {
        key_index(entries, key, from + 1)
    }
}

/// Is there a picture with this key?
pub open spec fn holds(entries: Seq<Kept>, key: DecodedKey) -> bool {
    key_index(entries, key, 0) < entries.len()
}

/// Which of the first `n` pictures was used longest ago.
pub open spec fn oldest(entries: Seq<Kept>, n: int) -> int
    decreases n,
{
    if n <= 1 {
        0
    } else if entries[n - 1].used_at < entries[oldest(entries, n - 1)].used_at {
        n - 1
    } else {
        oldest(entries, n - 1)
    }
}

/// What is left once pictures have gone until the budget holds, but never the
/// last one.
pub open spec fn evicted(entries: Seq<Kept>, budget: int) -> Seq<Kept>
    decreases entries.len(),
{
    if total(entries) > budget && entries.len() > 1 {
        let at = oldest(entries, entries.len() as int);
        if 0 <= at < entries.len() {
            evicted(entries.remove(at), budget)
        } else {
            entries
        }
    } else {
        entries
    }
}

/// The pictures without the one that has this key.
pub open spec fn without(entries: Seq<Kept>, key: DecodedKey) -> Seq<Kept> {
    let at = key_index(entries, key, 0);
    if at < entries.len() {
        entries.remove(at)
    } else {
        entries
    }
}

/// The pictures of the first `n` that are of other documents.
pub open spec fn of_others(entries: Seq<Kept>, document: u64, n: int) -> Seq<Kept>
    decreases n,
{
    if n <= 0 {
        Seq::empty()
    } else if entries[n - 1].key.document == document {
        of_others(entries, document, n - 1)
    } else {
        of_others(entries, document, n - 1).push(entries[n - 1])
    }
}

/// What is kept once a picture was asked for: the same, but that a picture which
/// was found is the one used last.
pub open spec fn asked(cache: CacheValue, key: DecodedKey) -> CacheValue {
    let at = key_index(cache.entries, key, 0);
    let tick = (cache.tick + 1) as u64;
    CacheValue {
        tick,
        entries: if at < cache.entries.len() {
            cache.entries.update(at, Kept { used_at: tick, ..cache.entries[at] })
        } else {
            cache.entries
        },
        ..cache
    }
}

/// What is kept once a picture was put in.
pub open spec fn added(cache: CacheValue, key: DecodedKey, image: PictureValue) -> CacheValue {
    let tick = (cache.tick + 1) as u64;
    CacheValue {
        tick,
        entries: evicted(
            without(cache.entries, key).push(Kept { key, image, used_at: tick }),
            cache.budget as int,
        ),
        ..cache
    }
}

/// No two pictures have the same key.
pub open spec fn no_key_twice(entries: Seq<Kept>) -> bool {
    forall|i: int, j: int|
        0 <= i < j < entries.len() ==> (#[trigger] entries[i]).key != (#[trigger] entries[j]).key
}

/// The pictures that go until the budget holds, in the order in which they go.
pub open spec fn let_go(entries: Seq<Kept>, budget: int) -> Seq<Kept>
    decreases entries.len(),
{
    let at = oldest(entries, entries.len() as int);
    if total(entries) > budget && entries.len() > 1 && 0 <= at < entries.len() {
        seq![entries[at]] + let_go(entries.remove(at), budget)
    } else {
        Seq::empty()
    }
}

/// The most bytes that one decoded picture takes.
pub const MAX_PICTURE_BYTES: u64 = 320_000_000;

/// Is every picture that is kept one that is decoded at all, used no later than
/// now, and is there room to count one more?
pub open spec fn in_order(cache: CacheValue) -> bool {
    &&& cache.budget <= u64::MAX - MAX_PICTURE_BYTES
    &&& total(cache.entries) <= cache.budget || total(cache.entries) <= MAX_PICTURE_BYTES
    &&& forall|i: int|
        0 <= i < cache.entries.len() ==> (#[trigger] cache.entries[i]).used_at <= cache.tick
            && decodable(cache.entries[i].image.width, cache.entries[i].image.height)
}

proof fn lemma_oldest(entries: Seq<Kept>, n: int)
    requires
        1 <= n <= entries.len(),
    ensures
        0 <= oldest(entries, n) < n,
        forall|i: int|
            0 <= i < n ==> entries[oldest(entries, n)].used_at <= (#[trigger] entries[i]).used_at,
    decreases n,
{
    if n > 1 {
        lemma_oldest(entries, n - 1);
    }
}

proof fn lemma_total_remove(entries: Seq<Kept>, at: int)
    requires
        0 <= at < entries.len(),
    ensures
        total(entries.remove(at)) == total(entries) - cost(entries[at].image),
    decreases entries.len(),
{
    if at == entries.len() - 1 {
        assert(entries.remove(at) =~= entries.drop_last());
    } else {
        let shorter = entries.remove(at);
        lemma_total_remove(entries.drop_last(), at);
        assert(shorter.drop_last() =~= entries.drop_last().remove(at));
        assert(shorter.last() == entries.last());
    }
}

proof fn lemma_total_positive(entries: Seq<Kept>)
    ensures
        total(entries) >= 0,
    decreases entries.len(),
{
    if entries.len() > 0 {
        lemma_total_positive(entries.drop_last());
        let image = entries.last().image;
        assert(image.width * image.height * 4 >= 0) by (nonlinear_arith);
    }
}

impl DecodedCache {
    /// Does the number of bytes that is kept account for the pictures, is none of
    /// them there twice, and is each of them whole and used no later than now?
    pub closed spec fn well_formed(self) -> bool {
        &&& self.used == total(all_kept(self.entries@))
        &&& no_key_twice(all_kept(self.entries@))
        &&& forall|i: int|
            0 <= i < self.entries@.len() ==> whole((*(#[trigger] self.entries@[i]).image)@)
                && self.entries@[i].used_at <= self.tick
    }

    /// An empty cache with this budget.
    pub fn new(budget: u64) -> (cache: DecodedCache)
        ensures
            cache.well_formed(),
            cache@ == (CacheValue { budget, tick: 0, entries: Seq::empty() }),
    {
        let entries: Vec<CacheEntry> = Vec::new();
        assert(all_kept(entries@) =~= Seq::empty());
        DecodedCache { budget, used: 0, tick: 0, entries }
    }

    /// How many bytes are kept.
    pub fn bytes_used(&self) -> (bytes: u64)
        requires
            self.well_formed(),
        ensures
            bytes == total(self@.entries),
    {
        self.used
    }

    /// How many pictures are kept.
    pub fn len(&self) -> (count: usize)
        ensures
            count == self@.entries.len(),
    {
        self.entries.len()
    }

    /// Is nothing kept?
    pub fn is_empty(&self) -> (empty: bool)
        ensures
            empty == (self@.entries.len() == 0),
    {
        self.entries.len() == 0
    }

    fn find(&self, key: &DecodedKey) -> (at: usize)
        ensures
            at == key_index(self@.entries, *key, 0),
            at <= self.entries@.len(),
    {
        let mut at: usize = 0;
        while at < self.entries.len() && self.entries[at].key != *key
            invariant
                at <= self.entries@.len(),
                key_index(self@.entries, *key, at as int) == key_index(self@.entries, *key, 0),
            decreases self.entries@.len() - at,
        {
            assert(self@.entries[at as int] == kept(self.entries@[at as int]));
            at += 1;
        }
        proof {
            if at < self.entries@.len() {
                assert(self@.entries[at as int] == kept(self.entries@[at as int]));
            }
        }
        at
    }

    /// The picture with this key, which is then the one used last.
    pub fn get(&mut self, key: &DecodedKey) -> (image: Option<Arc<Picture>>)
        requires
            old(self).well_formed(),
            old(self)@.tick < u64::MAX,
        ensures
            final(self).well_formed(),
            final(self)@ == asked(old(self)@, *key),
            match image {
                Some(found) => {
                    let at = key_index(old(self)@.entries, *key, 0);
                    &&& at < old(self)@.entries.len()
                    &&& (*found)@ == old(self)@.entries[at].image
                    &&& whole((*found)@)
                },
                None => !holds(old(self)@.entries, *key),
            },
    {
        let ghost before = self@.entries;
        let at: usize = self.find(key);
        self.tick = self.tick + 1;
        if at < self.entries.len() {
            let image = share(&self.entries[at].image);
            let fresh = CacheEntry {
                key: self.entries[at].key,
                image: share(&image),
                used_at: self.tick,
            };
            proof {
                assert(before[at as int] == kept(self.entries@[at as int]));
            }
            let ghost was = self.entries@;
            self.entries.set(at, fresh);
            proof {
                assert(self@.entries =~= before.update(at as int, kept(fresh)));
                assert(no_key_twice(self@.entries));
                lemma_total_update(before, at as int, kept(fresh));
            }
            Some(image)
        } else {
            None
        }
    }

    /// Keeps a picture, in the place of one with the same key, and lets others go
    /// until the budget holds. A single picture beyond the whole budget is kept
    /// all the same: it would otherwise be decoded again for every frame.
    pub fn insert(&mut self, key: DecodedKey, image: Arc<Picture>)
        requires
            old(self).well_formed(),
            old(self)@.tick < u64::MAX,
            whole((*image)@),
            total(old(self)@.entries) + cost((*image)@) <= u64::MAX,
        ensures
            final(self).well_formed(),
            final(self)@ == added(old(self)@, key, (*image)@),
    {
        let ghost before = self@.entries;
        let at: usize = self.find(&key);
        if at < self.entries.len() {
            proof {
                lemma_total_remove(before, at as int);
                lemma_total_positive(before.remove(at as int));
                assert(before[at as int] == kept(self.entries@[at as int]));
            }
            let ghost was = self.entries@;
            let replaced = self.entries.remove(at);
            self.used = self.used - replaced.image.pixels.len() as u64;
            proof {
                assert(self@.entries =~= before.remove(at as int));
                lemma_remove_keeps_keys(before, at as int);
            }
        }
        let ghost rest = self@.entries;
        proof {
            lemma_without_key(before, key);
            lemma_total_positive(rest);
            lemma_without_total(before, key);
        }
        let size: u64 = image.pixels.len() as u64;
        self.tick = self.tick + 1;
        let ghost fresh = Kept { key, image: (*image)@, used_at: self.tick };
        self.entries.push(CacheEntry { key, image, used_at: self.tick });
        proof {
            assert(self@.entries =~= rest.push(fresh));
            assert(rest.push(fresh).drop_last() =~= rest);
            assert(no_key_twice(rest.push(fresh)));
        }
        self.used = self.used + size;
        self.evict_to_budget();
    }

    /// Lets pictures go until the budget holds, those first that were used
    /// longest ago.
    fn evict_to_budget(&mut self)
        requires
            old(self).well_formed(),
        ensures
            final(self).well_formed(),
            final(self)@.budget == old(self)@.budget,
            final(self)@.tick == old(self)@.tick,
            final(self)@.entries == evicted(old(self)@.entries, old(self)@.budget as int),
    {
        let ghost start = self@.entries;
        while self.used > self.budget && self.entries.len() > 1
            invariant
                self.well_formed(),
                self@.budget == old(self)@.budget,
                self@.tick == old(self)@.tick,
                evicted(self@.entries, self.budget as int) == evicted(start, self.budget as int),
            decreases self.entries@.len(),
        {
            let ghost before = self@.entries;
            let mut at: usize = 0;
            let mut i: usize = 1;
            while i < self.entries.len()
                invariant
                    1 <= i <= self.entries@.len(),
                    at < i,
                    at == oldest(self@.entries, i as int),
                decreases self.entries@.len() - i,
            {
                assert(self@.entries[i as int] == kept(self.entries@[i as int]));
                assert(self@.entries[at as int] == kept(self.entries@[at as int]));
                if self.entries[i].used_at < self.entries[at].used_at {
                    at = i;
                }
                i += 1;
            }
            proof {
                assert(before[at as int] == kept(self.entries@[at as int]));
                lemma_total_remove(before, at as int);
                lemma_total_positive(before.remove(at as int));
            }
            let gone = self.entries.remove(at);
            self.used = self.used - gone.image.pixels.len() as u64;
            proof {
                assert(self@.entries =~= before.remove(at as int));
                lemma_remove_keeps_keys(before, at as int);
            }
        }
    }

    /// Lets everything go that belongs to a document, which is what closing it
    /// means.
    pub fn forget_document(&mut self, document: u64)
        requires
            old(self).well_formed(),
        ensures
            final(self).well_formed(),
            final(self)@.budget == old(self)@.budget,
            final(self)@.tick == old(self)@.tick,
            final(self)@.entries == of_others(
                old(self)@.entries,
                document,
                old(self)@.entries.len() as int,
            ),
    {
        let ghost before = self@.entries;
        let count: usize = self.entries.len();
        let mut left: usize = count;
        let mut i: usize = 0;
        assert(before.skip(0) =~= before);
        assert(of_others(before, document, 0) + before.skip(0) =~= before);
        while left > 0
            invariant
                self.well_formed(),
                self@.budget == old(self)@.budget,
                self@.tick == old(self)@.tick,
                count == before.len(),
                left <= count,
                i + left == self.entries@.len(),
                i == of_others(before, document, count - left).len(),
                self@.entries == of_others(before, document, count - left) + before.skip(
                    count - left,
                ),
            decreases left,
        {
            let length: usize = self.entries.len();
            assert(i < length);
            let ghost done = of_others(before, document, count - left);
            let ghost rest = before.skip(count - left);
            proof {
                assert(self@.entries[i as int] == kept(self.entries@[i as int]));
                assert(self@.entries[i as int] == rest[0]);
                assert(rest[0] == before[count - left]);
            }
            if self.entries[i].key.document == document {
                proof {
                    lemma_total_remove(self@.entries, i as int);
                    lemma_total_positive(self@.entries.remove(i as int));
                }
                let ghost whole_list = self@.entries;
                let gone = self.entries.remove(i);
                self.used = self.used - gone.image.pixels.len() as u64;
                proof {
                    assert(self@.entries =~= whole_list.remove(i as int));
                    lemma_remove_keeps_keys(whole_list, i as int);
                    assert(whole_list.remove(i as int) =~= done + before.skip(count - left + 1));
                }
            } else {
                i += 1;
                assert(self@.entries =~= done.push(before[count - left]) + before.skip(
                    count - left + 1,
                ));
            }
            left -= 1;
        }
        assert(before.skip(count as int) =~= Seq::empty());
        assert(self@.entries =~= of_others(before, document, count as int));
    }
}

impl Default for DecodedCache {
    fn default() -> (cache: DecodedCache)
        ensures
            cache.well_formed(),
            cache@ == (CacheValue {
                budget: DEFAULT_DECODED_BUDGET_BYTES,
                tick: 0,
                entries: Seq::empty(),
            }),
    {
        DecodedCache::new(DEFAULT_DECODED_BUDGET_BYTES)
    }
}

/// To use a picture does not change how much is kept.
pub proof fn lemma_total_update(entries: Seq<Kept>, at: int, fresh: Kept)
    requires
        0 <= at < entries.len(),
        fresh.image == entries[at].image,
    ensures
        total(entries.update(at, fresh)) == total(entries),
    decreases entries.len(),
{
    let changed = entries.update(at, fresh);
    if at == entries.len() - 1 {
        assert(changed.drop_last() =~= entries.drop_last());
    } else {
        lemma_total_update(entries.drop_last(), at, fresh);
        assert(changed.drop_last() =~= entries.drop_last().update(at, fresh));
    }
}

/// Where a key stands, the picture has it.
pub proof fn lemma_key_index(entries: Seq<Kept>, key: DecodedKey, from: int)
    requires
        0 <= from <= entries.len(),
    ensures
        from <= key_index(entries, key, from) <= entries.len(),
        key_index(entries, key, from) < entries.len() ==> entries[key_index(
            entries,
            key,
            from,
        )].key == key,
        key_index(entries, key, from) == entries.len() ==> forall|i: int|
            from <= i < entries.len() ==> (#[trigger] entries[i]).key != key,
    decreases entries.len() - from,
{
    if from < entries.len() && entries[from].key != key {
        lemma_key_index(entries, key, from + 1);
    }
}

proof fn lemma_remove_keeps_keys(entries: Seq<Kept>, at: int)
    requires
        0 <= at < entries.len(),
        no_key_twice(entries),
    ensures
        no_key_twice(entries.remove(at)),
{
    let left = entries.remove(at);
    assert forall|i: int, j: int| 0 <= i < j < left.len() implies (#[trigger] left[i]).key != (
    #[trigger] left[j]).key by {
        let old_i = if i < at {
            i
        } else {
            i + 1
        };
        let old_j = if j < at {
            j
        } else {
            j + 1
        };
        assert(left[i] == entries[old_i]);
        assert(left[j] == entries[old_j]);
    }
}

proof fn lemma_without_key(entries: Seq<Kept>, key: DecodedKey)
    requires
        no_key_twice(entries),
    ensures
        no_key_twice(without(entries, key)),
        forall|i: int|
            0 <= i < without(entries, key).len() ==> (#[trigger] without(entries, key)[i]).key
                != key,
{
    lemma_key_index(entries, key, 0);
    let at = key_index(entries, key, 0);
    if at < entries.len() {
        lemma_remove_keeps_keys(entries, at);
        let left = entries.remove(at);
        assert forall|i: int| 0 <= i < left.len() implies (#[trigger] left[i]).key != key by {
            if i < at {
                assert(left[i] == entries[i] && entries[at].key == key);
            } else {
                assert(left[i] == entries[i + 1] && entries[at].key == key);
            }
        }
    }
}

proof fn lemma_without_total(entries: Seq<Kept>, key: DecodedKey)
    ensures
        total(without(entries, key)) <= total(entries),
{
    lemma_key_index(entries, key, 0);
    let at = key_index(entries, key, 0);
    if at < entries.len() {
        lemma_total_remove(entries, at);
        let image = entries[at].image;
        assert(image.width * image.height * 4 >= 0) by (nonlinear_arith);
    }
}

proof fn lemma_evicted(entries: Seq<Kept>, budget: int)
    requires
        entries.len() > 0,
        forall|i: int|
            0 <= i < entries.len() - 1 ==> (#[trigger] entries[i]).used_at
                < entries.last().used_at,
    ensures
        evicted(entries, budget).len() > 0,
        evicted(entries, budget).last() == entries.last(),
        total(evicted(entries, budget)) <= budget || evicted(entries, budget).len() == 1,
    decreases entries.len(),
{
    if total(entries) > budget && entries.len() > 1 {
        let n = entries.len() as int;
        lemma_oldest(entries, n);
        let at = oldest(entries, n);
        assert(at < n - 1) by {
            if at == n - 1 {
                assert(entries[0].used_at < entries.last().used_at);
            }
        }
        let shorter = entries.remove(at);
        assert(shorter.last() == entries.last());
        assert forall|i: int| 0 <= i < shorter.len() - 1 implies (#[trigger] shorter[i]).used_at
            < shorter.last().used_at by {
            if i < at {
                assert(shorter[i] == entries[i]);
            } else {
                assert(shorter[i] == entries[i + 1]);
            }
        }
        lemma_evicted(shorter, budget);
    }
}

/// The picture that was put in last is kept, and either the budget holds or it
/// is the only one.
pub proof fn law_the_newest_picture_is_kept(
    entries: Seq<Kept>,
    fresh: Kept,
    budget: int,
)
    requires
        forall|i: int| 0 <= i < entries.len() ==> (#[trigger] entries[i]).used_at < fresh.used_at,
    ensures
        holds(evicted(without(entries, fresh.key).push(fresh), budget), fresh.key),
        evicted(without(entries, fresh.key).push(fresh), budget).last() == fresh,
        total(evicted(without(entries, fresh.key).push(fresh), budget)) <= budget || evicted(
            without(entries, fresh.key).push(fresh),
            budget,
        ).len() == 1,
{
    lemma_key_index(entries, fresh.key, 0);
    let rest = without(entries, fresh.key);
    let at = key_index(entries, fresh.key, 0);
    let all = rest.push(fresh);
    assert forall|i: int| 0 <= i < all.len() - 1 implies (#[trigger] all[i]).used_at
        < all.last().used_at by {
        if at < entries.len() {
            if i < at {
                assert(all[i] == entries[i]);
            } else {
                assert(all[i] == entries[i + 1]);
            }
        } else {
            assert(all[i] == entries[i]);
        }
    }
    lemma_evicted(all, budget);
    let left = evicted(all, budget);
    lemma_key_index(left, fresh.key, 0);
    assert(left[left.len() - 1].key == fresh.key);
}

proof fn lemma_let_go(entries: Seq<Kept>, budget: int)
    ensures
        (evicted(entries, budget) + let_go(entries, budget)).to_multiset()
            == entries.to_multiset(),
        forall|i: int, j: int|
            0 <= i <= j < let_go(entries, budget).len() ==> (#[trigger] let_go(
                entries,
                budget,
            )[i]).used_at <= (#[trigger] let_go(entries, budget)[j]).used_at,
        forall|i: int, j: int|
            0 <= i < let_go(entries, budget).len() && 0 <= j < evicted(entries, budget).len()
                ==> (#[trigger] let_go(entries, budget)[i]).used_at <= (#[trigger] evicted(
                entries,
                budget,
            )[j]).used_at,
        forall|i: int|
            0 <= i < let_go(entries, budget).len() ==> entries.contains(
                #[trigger] let_go(entries, budget)[i],
            ),
        let_go(entries, budget).len() > 0 ==> total(evicted(entries, budget)) + cost(
            let_go(entries, budget).last().image,
        ) > budget,
    decreases entries.len(),
{
    let left = evicted(entries, budget);
    let gone = let_go(entries, budget);
    if total(entries) > budget && entries.len() > 1 {
        let n = entries.len() as int;
        lemma_oldest(entries, n);
        let at = oldest(entries, n);
        let shorter = entries.remove(at);
        let later = let_go(shorter, budget);
        lemma_let_go(shorter, budget);
        lemma_evicted_members(entries, budget);
        lemma_total_remove(entries, at);
        assert forall|i: int| 0 <= i < gone.len() implies entries.contains(#[trigger] gone[i]) by {
            if i == 0 {
                assert(gone[0] == entries[at]);
            } else {
                assert(gone[i] == later[i - 1]);
                assert(shorter.contains(later[i - 1]));
                let k = choose|k: int| 0 <= k < shorter.len() && shorter[k] == later[i - 1];
                if k < at {
                    assert(entries[k] == gone[i]);
                } else {
                    assert(entries[k + 1] == gone[i]);
                }
            }
        }
        assert forall|i: int, j: int| 0 <= i <= j < gone.len() implies (#[trigger] gone[i]).used_at
            <= (#[trigger] gone[j]).used_at by {
            assert(entries.contains(gone[j]));
            if i > 0 {
                assert(gone[i] == later[i - 1] && gone[j] == later[j - 1]);
            }
        }
        assert forall|i: int, j: int|
            0 <= i < gone.len() && 0 <= j < left.len() implies (#[trigger] gone[i]).used_at <= (
        #[trigger] left[j]).used_at by {
            assert(entries.contains(left[j]));
            if i > 0 {
                assert(gone[i] == later[i - 1] && left[j] == evicted(shorter, budget)[j]);
            }
        }
        if later.len() > 0 {
            assert(gone.last() == later.last());
        } else {
            lemma_nothing_goes(shorter, budget);
            assert(gone.last() == entries[at]);
        }
        broadcast use vstd::seq_lib::group_to_multiset_ensures;

        assert((left + gone).to_multiset() =~= (left + later).to_multiset().insert(entries[at]))
            by {
            lemma_one_more(left, later, entries[at]);
        }
        assert(entries.to_multiset() =~= shorter.to_multiset().insert(entries[at]));
    } else {
        assert(left + gone =~= entries);
    }
}

proof fn lemma_one_more(left: Seq<Kept>, later: Seq<Kept>, one: Kept)
    ensures
        (left + (seq![one] + later)).to_multiset() == (left + later).to_multiset().insert(one),
{
    broadcast use vstd::seq_lib::group_to_multiset_ensures;

    assert(left + (seq![one] + later) =~= (left + later).insert(left.len() as int, one));
}

proof fn lemma_nothing_goes(entries: Seq<Kept>, budget: int)
    requires
        let_go(entries, budget).len() == 0,
    ensures
        evicted(entries, budget) == entries,
{
    if entries.len() > 1 {
        lemma_oldest(entries, entries.len() as int);
    }
}

/// No picture is kept twice.
pub proof fn law_no_picture_is_kept_twice(cache: DecodedCache)
    requires
        cache.well_formed(),
    ensures
        no_key_twice(cache@.entries),
{
}

/// When a picture is put in, those that stay were used no earlier than those
/// that go, together they are the pictures there were with the new one in the
/// place of its like, and as many stay as the budget allows: with the one that
/// went last they would not hold it.
pub open spec fn keeps_last_used(cache: CacheValue, key: DecodedKey, image: PictureValue) -> bool {
    let fresh = Kept { key, image, used_at: (cache.tick + 1) as u64 };
    let all = without(cache.entries, key).push(fresh);
    let gone = let_go(all, cache.budget as int);
    let left = added(cache, key, image).entries;
    &&& (left + gone).to_multiset() == all.to_multiset()
    &&& forall|i: int, j: int|
        0 <= i < gone.len() && 0 <= j < left.len() ==> (#[trigger] gone[i]).used_at <= (
        #[trigger] left[j]).used_at
    &&& forall|i: int, j: int|
        0 <= i <= j < gone.len() ==> (#[trigger] gone[i]).used_at <= (#[trigger] gone[j]).used_at
    &&& gone.len() > 0 ==> total(left) + cost(gone.last().image) > cache.budget
}

/// Whenever a picture is put in, those that were used last stay, as many as the
/// budget allows.
pub proof fn law_the_pictures_used_last_are_kept(
    cache: CacheValue,
    key: DecodedKey,
    image: PictureValue,
)
    ensures
        keeps_last_used(cache, key, image),
{
    let fresh = Kept { key, image, used_at: (cache.tick + 1) as u64 };
    lemma_let_go(without(cache.entries, key).push(fresh), cache.budget as int);
}

/// Nothing of a document that was forgotten is kept, and everything else is.
pub proof fn law_forgetting_is_complete(entries: Seq<Kept>, document: u64, n: int)
    requires
        0 <= n <= entries.len(),
    ensures
        forall|i: int|
            0 <= i < of_others(entries, document, n).len() ==> (#[trigger] of_others(
                entries,
                document,
                n,
            )[i]).key.document != document,
        forall|i: int|
            0 <= i < n && (#[trigger] entries[i]).key.document != document ==> of_others(
                entries,
                document,
                n,
            ).contains(entries[i]),
    decreases n,
{
    if n > 0 {
        law_forgetting_is_complete(entries, document, n - 1);
        let shorter = of_others(entries, document, n - 1);
        let longer = of_others(entries, document, n);
        assert forall|i: int|
            0 <= i < n && (#[trigger] entries[i]).key.document != document implies longer.contains(
            entries[i],
        ) by {
            if i < n - 1 {
                let k = choose|k: int| 0 <= k < shorter.len() && shorter[k] == entries[i];
                assert(longer[k] == entries[i]);
            } else {
                assert(longer.last() == entries[i]);
            }
        }
    }
}

/// Forgetting a document leaves no more than there was.
pub proof fn lemma_of_others(entries: Seq<Kept>, document: u64, n: int)
    requires
        0 <= n <= entries.len(),
    ensures
        total(of_others(entries, document, n)) <= total(entries.take(n)),
        forall|i: int|
            0 <= i < of_others(entries, document, n).len() ==> entries.contains(
                #[trigger] of_others(entries, document, n)[i],
            ),
    decreases n,
{
    if n > 0 {
        lemma_of_others(entries, document, n - 1);
        let shorter = of_others(entries, document, n - 1);
        let longer = of_others(entries, document, n);
        assert(entries.take(n).drop_last() =~= entries.take(n - 1));
        let image = entries[n - 1].image;
        assert(image.width * image.height * 4 >= 0) by (nonlinear_arith);
        if entries[n - 1].key.document != document {
            assert(longer.drop_last() =~= shorter);
            assert forall|i: int| 0 <= i < longer.len() implies entries.contains(
                #[trigger] longer[i],
            ) by {
                if i < shorter.len() {
                    assert(longer[i] == shorter[i]);
                }
            }
        }
    } else {
        assert(entries.take(0) =~= Seq::empty());
    }
}

/// What is left was there before.
pub proof fn lemma_evicted_members(entries: Seq<Kept>, budget: int)
    ensures
        forall|i: int|
            0 <= i < evicted(entries, budget).len() ==> entries.contains(
                #[trigger] evicted(entries, budget)[i],
            ),
    decreases entries.len(),
{
    if total(entries) > budget && entries.len() > 1 {
        lemma_oldest(entries, entries.len() as int);
        let at = oldest(entries, entries.len() as int);
        let shorter = entries.remove(at);
        lemma_evicted_members(shorter, budget);
        let left = evicted(entries, budget);
        assert forall|i: int| 0 <= i < left.len() implies entries.contains(#[trigger] left[i]) by {
            assert(shorter.contains(evicted(shorter, budget)[i]));
            let k = choose|k: int| 0 <= k < shorter.len() && shorter[k] == left[i];
            if k < at {
                assert(entries[k] == left[i]);
            } else {
                assert(entries[k + 1] == left[i]);
            }
        }
    }
}

/// To ask for a picture leaves everything in order.
pub proof fn lemma_asked(cache: CacheValue, key: DecodedKey)
    requires
        in_order(cache),
        cache.tick < u64::MAX,
    ensures
        in_order(asked(cache, key)),
        holds(cache.entries, key) ==> decodable(
            cache.entries[key_index(cache.entries, key, 0)].image.width,
            cache.entries[key_index(cache.entries, key, 0)].image.height,
        ),
{
    let at = key_index(cache.entries, key, 0);
    lemma_key_index(cache.entries, key, 0);
    if at < cache.entries.len() {
        lemma_total_update(cache.entries, at, asked(cache, key).entries[at]);
    }
}

/// To put a picture in leaves everything in order, and keeps that picture.
pub proof fn lemma_added(cache: CacheValue, key: DecodedKey, image: PictureValue)
    requires
        in_order(cache),
        cache.tick < u64::MAX,
        decodable(image.width, image.height),
    ensures
        in_order(added(cache, key, image)),
        holds(added(cache, key, image).entries, key),
        total(cache.entries) + cost(image) <= u64::MAX,
{
    assert(cost(image) <= MAX_PICTURE_BYTES);
    let fresh = Kept { key, image, used_at: (cache.tick + 1) as u64 };
    law_the_newest_picture_is_kept(cache.entries, fresh, cache.budget as int);
    let all = without(cache.entries, key).push(fresh);
    lemma_evicted_members(all, cache.budget as int);
    lemma_key_index(cache.entries, key, 0);
    let left = evicted(all, cache.budget as int);
    let at = key_index(cache.entries, key, 0);
    assert forall|i: int| 0 <= i < left.len() implies (#[trigger] left[i]).used_at <= cache.tick + 1
        && decodable(left[i].image.width, left[i].image.height) by {
        let k = choose|k: int| 0 <= k < all.len() && all[k] == left[i];
        if k < all.len() - 1 {
            if at < cache.entries.len() && k >= at {
                assert(all[k] == cache.entries[k + 1]);
            } else {
                assert(all[k] == cache.entries[k]);
            }
        }
    }
    if left.len() == 1 {
        assert(left.drop_last() =~= Seq::empty());
        assert(total(left.drop_last()) == 0);
        assert(left.last() == fresh);
    }
}

/// To forget a document leaves everything in order.
pub proof fn lemma_forgotten(cache: CacheValue, document: u64)
    requires
        in_order(cache),
    ensures
        in_order(
            CacheValue {
                entries: of_others(cache.entries, document, cache.entries.len() as int),
                ..cache
            },
        ),
{
    let kept = cache.entries;
    let left = of_others(kept, document, kept.len() as int);
    lemma_of_others(kept, document, kept.len() as int);
    assert(kept.take(kept.len() as int) =~= kept);
    assert forall|i: int| 0 <= i < left.len() implies (#[trigger] left[i]).used_at <= cache.tick
        && decodable(left[i].image.width, left[i].image.height) by {
        let k = choose|k: int| 0 <= k < kept.len() && kept[k] == left[i];
        assert(kept[k] == left[i]);
    }
}

/// What can be done with a cache.
pub enum Step {
    Get(DecodedKey),
    Insert(DecodedKey, PictureValue),
    Forget(u64),
}

/// What is kept once a step was taken.
pub open spec fn stepped(cache: CacheValue, step: Step) -> CacheValue {
    match step {
        Step::Get(key) => asked(cache, key),
        Step::Insert(key, image) => added(cache, key, image),
        Step::Forget(document) => CacheValue {
            entries: of_others(cache.entries, document, cache.entries.len() as int),
            ..cache
        },
    }
}

/// What is kept once the first `n` steps were taken.
pub open spec fn after_steps(cache: CacheValue, steps: Seq<Step>, n: nat) -> CacheValue
    decreases n,
{
    if n == 0 || n > steps.len() {
        cache
    } else {
        stepped(after_steps(cache, steps, (n - 1) as nat), steps[n - 1])
    }
}

/// What holds of a cache at any time: within its budget, or with one picture
/// alone, no picture twice, and none used later than now.
pub open spec fn is_bounded(cache: CacheValue) -> bool {
    &&& total(cache.entries) <= cache.budget || cache.entries.len() <= 1
    &&& no_key_twice(cache.entries)
    &&& forall|i: int|
        0 <= i < cache.entries.len() ==> (#[trigger] cache.entries[i]).used_at <= cache.tick
}

proof fn lemma_of_others_keys(entries: Seq<Kept>, document: u64, n: int)
    requires
        0 <= n <= entries.len(),
        no_key_twice(entries),
    ensures
        no_key_twice(of_others(entries, document, n)),
        of_others(entries, document, n).len() <= n,
        forall|i: int|
            0 <= i < of_others(entries, document, n).len() ==> exists|k: int|
                0 <= k < n && entries[k] == #[trigger] of_others(entries, document, n)[i],
    decreases n,
{
    if n > 0 {
        lemma_of_others_keys(entries, document, n - 1);
        let shorter = of_others(entries, document, n - 1);
        let longer = of_others(entries, document, n);
        if entries[n - 1].key.document != document {
            assert forall|i: int, j: int| 0 <= i < j < longer.len() implies (
            #[trigger] longer[i]).key != (#[trigger] longer[j]).key by {
                assert(longer[i] == shorter[i]);
                if j < shorter.len() {
                    assert(longer[j] == shorter[j]);
                } else {
                    let k = choose|k: int| 0 <= k < n - 1 && entries[k] == shorter[i];
                    assert(entries[k].key != entries[n - 1].key);
                }
            }
            assert forall|i: int| 0 <= i < longer.len() implies exists|k: int|
                0 <= k < n && entries[k] == #[trigger] longer[i] by {
                if i < shorter.len() {
                    assert(longer[i] == shorter[i]);
                    let k = choose|k: int| 0 <= k < n - 1 && entries[k] == shorter[i];
                    assert(entries[k] == longer[i]);
                } else {
                    assert(entries[n - 1] == longer[i]);
                }
            }
        }
    }
}

proof fn lemma_evicted_keys(entries: Seq<Kept>, budget: int)
    requires
        no_key_twice(entries),
    ensures
        no_key_twice(evicted(entries, budget)),
    decreases entries.len(),
{
    if total(entries) > budget && entries.len() > 1 {
        lemma_oldest(entries, entries.len() as int);
        let at = oldest(entries, entries.len() as int);
        lemma_remove_keeps_keys(entries, at);
        lemma_evicted_keys(entries.remove(at), budget);
    }
}

proof fn lemma_step_is_bounded(cache: CacheValue, step: Step)
    requires
        is_bounded(cache),
        cache.tick < u64::MAX,
    ensures
        is_bounded(stepped(cache, step)),
        stepped(cache, step).budget == cache.budget,
        stepped(cache, step).tick <= cache.tick + 1,
{
    let after = stepped(cache, step);
    match step {
        Step::Get(key) => {
            let at = key_index(cache.entries, key, 0);
            lemma_key_index(cache.entries, key, 0);
            if at < cache.entries.len() {
                lemma_total_update(cache.entries, at, after.entries[at]);
            }
        },
        Step::Insert(key, image) => {
            let fresh = Kept { key, image, used_at: (cache.tick + 1) as u64 };
            law_the_newest_picture_is_kept(cache.entries, fresh, cache.budget as int);
            let rest = without(cache.entries, key);
            let all = rest.push(fresh);
            let at = key_index(cache.entries, key, 0);
            lemma_key_index(cache.entries, key, 0);
            lemma_without_key(cache.entries, key);
            if at < cache.entries.len() {
                lemma_remove_keeps_keys(cache.entries, at);
            }
            assert(no_key_twice(all));
            lemma_evicted_keys(all, cache.budget as int);
            lemma_evicted_members(all, cache.budget as int);
            let left = after.entries;
            assert forall|i: int| 0 <= i < left.len() implies (#[trigger] left[i]).used_at
                <= after.tick by {
                let k = choose|k: int| 0 <= k < all.len() && all[k] == left[i];
                if k < all.len() - 1 {
                    if at < cache.entries.len() && k >= at {
                        assert(all[k] == cache.entries[k + 1]);
                    } else {
                        assert(all[k] == cache.entries[k]);
                    }
                }
            }
        },
        Step::Forget(document) => {
            let count = cache.entries.len() as int;
            lemma_of_others(cache.entries, document, count);
            lemma_of_others_keys(cache.entries, document, count);
            assert(cache.entries.take(count) =~= cache.entries);
            let left = after.entries;
            assert forall|i: int| 0 <= i < left.len() implies (#[trigger] left[i]).used_at
                <= after.tick by {
                let k = choose|k: int| 0 <= k < count && cache.entries[k] == left[i];
                assert(cache.entries[k].used_at <= cache.tick);
            }
        },
    }
}

/// Whatever is done with a cache, in whatever order: it stays within its budget,
/// or keeps one picture alone, and it keeps none twice. Where the last step put
/// a picture in, that one is found under its key, and of the others those stay
/// that were used last, as many as the budget allows. Only the count of steps
/// must not run out.
pub proof fn law_a_cache_stays_within_its_budget(budget: u64, steps: Seq<Step>)
    requires
        steps.len() <= u64::MAX,
    ensures
        ({
            let start = CacheValue { budget, tick: 0, entries: Seq::empty() };
            let after = after_steps(start, steps, steps.len());
            &&& after.budget == budget
            &&& is_bounded(after)
            &&& steps.len() > 0 ==> (steps.last() matches Step::Insert(key, image) ==> {
                let before = after_steps(start, steps, (steps.len() - 1) as nat);
                &&& holds(after.entries, key)
                &&& after.entries[key_index(after.entries, key, 0)].image == image
                &&& keeps_last_used(before, key, image)
            })
        }),
{
    let start = CacheValue { budget, tick: 0, entries: Seq::empty() };
    lemma_steps_are_bounded(start, steps, steps.len());
    if steps.len() > 0 {
        let n = (steps.len() - 1) as nat;
        lemma_steps_are_bounded(start, steps, n);
        let before = after_steps(start, steps, n);
        if let Step::Insert(key, image) = steps.last() {
            let fresh = Kept { key, image, used_at: (before.tick + 1) as u64 };
            law_the_newest_picture_is_kept(before.entries, fresh, before.budget as int);
            law_the_pictures_used_last_are_kept(before, key, image);
            let left = after_steps(start, steps, steps.len()).entries;
            lemma_key_index(left, key, 0);
            let at = key_index(left, key, 0);
            assert(left[left.len() - 1].key == key);
            assert(at < left.len() && left[at].key == key);
            assert(at == left.len() - 1);
        }
    }
}

proof fn lemma_steps_are_bounded(start: CacheValue, steps: Seq<Step>, n: nat)
    requires
        n <= steps.len() <= u64::MAX,
        start.tick == 0,
        start.entries.len() == 0,
    ensures
        is_bounded(after_steps(start, steps, n)),
        after_steps(start, steps, n).budget == start.budget,
        after_steps(start, steps, n).tick <= n,
    decreases n,
{
    if n > 0 {
        lemma_steps_are_bounded(start, steps, (n - 1) as nat);
        lemma_step_is_bounded(after_steps(start, steps, (n - 1) as nat), steps[n - 1]);
    } else {
        assert(total(start.entries) == 0);
    }
}

/// A picture takes as much of the budget as it has bytes.
pub proof fn law_a_picture_costs_its_bytes(entries: Seq<Kept>, more: Kept)
    requires
        whole(more.image),
    ensures
        cost(more.image) == more.image.pixels.len(),
        total(entries.push(more)) == total(entries) + more.image.pixels.len(),
        total(Seq::empty()) == 0,
{
    assert(entries.push(more).drop_last() =~= entries);
}

} // verus!
