//! The keyed store: byte-string keys, byte-string values, optional expiry.

use crate::buffer::{as_slice, contents, each_contents, from_vec, opt_contents, slice_eq};
use crate::decimal::{int_digits, parse_decimal, parse_i64, to_decimal};
use crate::resp_frame::{FrameView, RespFrame};
use crate::text::is_utf8;
use bytes::Bytes;
use vstd::prelude::*;
use vstd::slice::slice_to_vec;
use vstd::utf8::valid_utf8;

verus! {

/// The value stored under a key.
pub struct RedisValue {
    /// The stored bytes.
    pub data: Bytes,
    /// The instant after which the value counts as absent, in nanoseconds
    /// on the store's clock; `None` where it never expires.
    pub expires_at: Option<u128>,
}

/// What a stored value means.
pub struct ValueView {
    /// The stored bytes.
    pub data: Seq<u8>,
    /// The instant after which the value counts as absent.
    pub expires_at: Option<u128>,
}

impl View for RedisValue {
    type V = ValueView;

    open spec fn view(&self) -> ValueView {
        ValueView { data: contents(self.data), expires_at: self.expires_at }
    }
}

/// What a store means: the values under their keys, expired ones included
/// until they are evicted.
pub type StoreMap = Map<Seq<u8>, ValueView>;

/// Whether a value has expired at `now`: it has an expiry, and the expiry
/// lies strictly before `now`.
pub open spec fn expired(value: ValueView, now: u64) -> bool {
    value.expires_at matches Some(at) && at < now
}

/// Whether `key` is present at `now`: stored and not expired.
pub open spec fn live(store: StoreMap, key: Seq<u8>, now: u64) -> bool {
    store.contains_key(key) && !expired(store[key], now)
}

/// Nanoseconds in a second.
pub const NANOS_PER_SEC: u128 = 1_000_000_000;

/// A count as a 64-bit reply: itself where it fits, else the largest reply.
pub open spec fn count_as_i64(n: nat) -> i64 {
    if n <= i64::MAX {
        n as i64
    } else {
        i64::MAX
    }
}

/// The sum of `a` and `b`, held to the 64-bit range.
pub open spec fn saturating_sum(a: i64, b: i64) -> i64 {
    if a + b > i64::MAX {
        i64::MAX
    } else if a + b < i64::MIN {
        i64::MIN
    } else {
        (a + b) as i64
    }
}

/// The instant `seconds` after `now`.
pub open spec fn deadline(now: u64, seconds: i64) -> u128
    recommends
        seconds > 0,
{
    (now + seconds * 1_000_000_000) as u128
}

/// The whole seconds from `now` until `at`; zero once `at` is reached.
pub open spec fn seconds_left(at: u128, now: u64) -> i64 {
    if at <= now {
        0
    } else {
        count_as_i64(((at - now) / 1_000_000_000) as nat)
    }
}

/// Lazy expiry: the store without `key`, if `key` has expired at `now`.
pub open spec fn evict(store: StoreMap, key: Seq<u8>, now: u64) -> StoreMap {
    if store.contains_key(key) && expired(store[key], now) {
        store.remove(key)
    } else {
        store
    }
}

/// The store without any key that has expired at `now`.
pub open spec fn purge(store: StoreMap, now: u64) -> StoreMap {
    store.restrict(Set::new(|k: Seq<u8>| live(store, k, now)))
}

/// What a read of `key` gives at `now`.
pub open spec fn get_result(store: StoreMap, key: Seq<u8>, now: u64) -> Option<Seq<u8>> {
    if live(store, key, now) {
        Some(store[key].data)
    } else {
        None
    }
}

/// What becomes of an expiry when a value is written over.
#[derive(Debug, Clone, Copy, PartialEq, Eq, Structural)]
pub enum ExpiryPolicy {
    /// A present key keeps its expiry.
    Preserve,
    /// The new value never expires.
    Clear,
}

/// The store after `data` is written under `key`.
pub open spec fn set_store(
    store: StoreMap,
    key: Seq<u8>,
    data: Seq<u8>,
    policy: ExpiryPolicy,
    now: u64,
) -> StoreMap {
    let expires_at = if policy is Preserve && live(store, key, now) {
        store[key].expires_at
    } else {
        None
    };
    store.insert(key, ValueView { data, expires_at })
}

/// The store after each of `keys` is deleted in turn, and how many of them
/// were present when their turn came.
pub open spec fn delete_many(store: StoreMap, keys: Seq<Seq<u8>>, now: u64) -> (StoreMap, nat)
    decreases keys.len(),
{
    if keys.len() == 0 {
        (store, 0)
    } else {
        let (before, count) = delete_many(store, keys.drop_last(), now);
        let key = keys.last();
        (
            before.remove(key),
            if live(before, key, now) {
                count + 1
            } else {
                count
            },
        )
    }
}

/// The store after each of `keys` is looked up in turn, and how many of
/// them were present; a key named twice counts twice.
pub open spec fn exists_many(store: StoreMap, keys: Seq<Seq<u8>>, now: u64) -> (StoreMap, nat)
    decreases keys.len(),
{
    if keys.len() == 0 {
        (store, 0)
    } else {
        let (before, count) = exists_many(store, keys.drop_last(), now);
        let key = keys.last();
        (
            evict(before, key, now),
            if live(before, key, now) {
                count + 1
            } else {
                count
            },
        )
    }
}

/// The store after an expiry of `seconds` from `now` is asked for `key`.
pub open spec fn expire_store(store: StoreMap, key: Seq<u8>, seconds: i64, now: u64) -> StoreMap {
    if !live(store, key, now) {
        evict(store, key, now)
    } else if seconds <= 0 {
        store.remove(key)
    } else {
        store.insert(
            key,
            ValueView { data: store[key].data, expires_at: Some(deadline(now, seconds)) },
        )
    }
}

/// The reply to that request: 1 where the key was present, else 0.
pub open spec fn expire_result(store: StoreMap, key: Seq<u8>, now: u64) -> i64 {
    if live(store, key, now) {
        1
    } else {
        0
    }
}

/// The time `key` has left at `now`: -2 where it is absent, -1 where it
/// never expires, else the whole seconds until its expiry.
pub open spec fn ttl_result(store: StoreMap, key: Seq<u8>, now: u64) -> i64 {
    if !live(store, key, now) {
        -2i64
    } else {
        match store[key].expires_at {
            None => -1i64,
            Some(at) => seconds_left(at, now),
        }
    }
}

/// The reply to a counter update by `delta`: the new count, or an error
/// where the stored bytes are no text or no 64-bit integer. An absent key
/// counts from zero.
pub open spec fn incr_reply(store: StoreMap, key: Seq<u8>, delta: i64, now: u64) -> FrameView {
    if !live(store, key, now) {
        FrameView::Integer(saturating_sum(0, delta))
    } else if !valid_utf8(store[key].data) {
        FrameView::Error("ERR value is not valid UTF-8"@)
    } else {
        match parse_i64(store[key].data) {
            Some(current) => FrameView::Integer(saturating_sum(current, delta)),
            None => FrameView::Error("ERR value is not an integer"@),
        }
    }
}

/// The store after that update: the new count in decimal under `key`, which
/// keeps its expiry if it was present; unchanged where the reply is an error.
pub open spec fn incr_store(store: StoreMap, key: Seq<u8>, delta: i64, now: u64) -> StoreMap {
    match incr_reply(store, key, delta, now) {
        FrameView::Integer(count) => store.insert(
            key,
            ValueView {
                data: int_digits(count as int),
                expires_at: if live(store, key, now) {
                    store[key].expires_at
                } else {
                    None
                },
            },
        ),
        _ => store,
    }
}

/// The store after each pair of `pairs` is written in turn, none with an
/// expiry.
pub open spec fn mset_many(store: StoreMap, pairs: Seq<(Seq<u8>, Seq<u8>)>) -> StoreMap
    decreases pairs.len(),
{
    if pairs.len() == 0 {
        store
    } else {
        let (key, data) = pairs.last();
        mset_many(store, pairs.drop_last()).insert(key, ValueView { data, expires_at: None })
    }
}

/// The store after each of `keys` is read in turn, and what each read gave.
pub open spec fn mget_many(store: StoreMap, keys: Seq<Seq<u8>>, now: u64) -> (
    StoreMap,
    Seq<Option<Seq<u8>>>,
)
    decreases keys.len(),
{
    if keys.len() == 0 {
        (store, Seq::empty())
    } else {
        let (before, found) = mget_many(store, keys.drop_last(), now);
        let key = keys.last();
        (evict(before, key, now), found.push(get_result(before, key, now)))
    }
}

/// The length of the value under `key` at `now`; zero where it is absent.
pub open spec fn strlen_result(store: StoreMap, key: Seq<u8>, now: u64) -> i64 {
    if live(store, key, now) {
        count_as_i64(store[key].data.len())
    } else {
        0
    }
}

/// The value under `key` after `suffix` is appended at `now`: an absent key
/// starts from nothing and gets no expiry.
pub open spec fn appended(store: StoreMap, key: Seq<u8>, suffix: Seq<u8>, now: u64) -> ValueView {
    if live(store, key, now) {
        ValueView { data: store[key].data + suffix, expires_at: store[key].expires_at }
    } else {
        ValueView { data: suffix, expires_at: None }
    }
}

/// What each pair of a run holds, in order.
pub open spec fn pair_contents(pairs: Seq<(Bytes, Bytes)>) -> Seq<(Seq<u8>, Seq<u8>)> {
    Seq::new(pairs.len(), |i: int| (contents(pairs[i].0), contents(pairs[i].1)))
}

/// What each optional buffer of a run holds, in order.
pub open spec fn each_opt_contents(found: Seq<Option<Bytes>>) -> Seq<Option<Seq<u8>>> {
    Seq::new(found.len(), |i: int| opt_contents(found[i]))
}

/// The sum of `a` and `b`, held to the 64-bit range.
pub fn saturating_add(a: i64, b: i64) -> (r: i64)
    ensures
        r == saturating_sum(a, b),
{
    match a.checked_add(b) {
        Some(sum) => sum,
        None => if b > 0 {
            i64::MAX
        } else {
            i64::MIN
        },
    }
}

/// A length as a 64-bit reply.
pub fn len_as_i64(n: usize) -> (r: i64)
    ensures
        r == count_as_i64(n as nat),
{
    let wide = n as u64;
    if wide > i64::MAX as u64 {
        i64::MAX
    } else {
        wide as i64
    }
}

impl RedisValue {
    /// Whether the value has expired at `now`.
    pub fn is_expired(&self, now: u64) -> (r: bool)
        ensures
            r == expired(self@, now),
    {
        match self.expires_at {
            Some(at) => at < now as u128,
            None => false,
        }
    }
}

/// One entry of the store.
struct Slot {
    key: Bytes,
    value: RedisValue,
}

/// The store: its entries in the order in which their keys came, each key
/// at most once. A lookup walks the entries.
pub struct Store {
    slots: Vec<Slot>,
}

impl View for Store {
    type V = StoreMap;

    closed spec fn view(&self) -> StoreMap {
        Map::new(
            |k: Seq<u8>| self.holds(k),
            |k: Seq<u8>| self.slots[self.slot_of(k)].value@,
        )
    }
}

impl Store {
    /// Whether the store is well formed: no key is held twice.
    pub closed spec fn wf(&self) -> bool {
        forall|i: int, j: int|
            0 <= i < j < self.slots.len() ==> self.key_at(i) != self.key_at(j)
    }

    /// The key of the entry at `i`.
    spec fn key_at(&self, i: int) -> Seq<u8> {
        contents(self.slots[i].key)
    }

    /// Whether some entry has the key `k`.
    spec fn holds(&self, k: Seq<u8>) -> bool {
        exists|i: int| 0 <= i < self.slots.len() && self.key_at(i) == k
    }

    /// The place of the entry with the key `k`.
    spec fn slot_of(&self, k: Seq<u8>) -> int {
        choose|i: int| 0 <= i < self.slots.len() && self.key_at(i) == k
    }

    /// The entry at `i` is what the store holds under its key.
    proof fn lemma_slot(&self, i: int)
        requires
            self.wf(),
            0 <= i < self.slots.len(),
        ensures
            self@.contains_key(self.key_at(i)),
            self@[self.key_at(i)] == self.slots[i].value@,
    {
        let k = self.key_at(i);
        assert(self.holds(k));
        assert(self.slot_of(k) == i);
    }

    /// An empty store.
    pub fn new() -> (store: Store)
        ensures
            store.wf(),
            store@ == Map::<Seq<u8>, ValueView>::empty(),
    {
        let store = Store { slots: Vec::new() };
        assert(store@ =~= Map::<Seq<u8>, ValueView>::empty());
        store
    }

    /// The place of the entry with the key `key`.
    fn find(&self, key: &[u8]) -> (r: Option<usize>)
        ensures
            match r {
                Some(i) => i < self.slots.len() && self.key_at(i as int) == key@,
                None => !self@.contains_key(key@),
            },
    {
        let mut i: usize = 0;
        while i < self.slots.len()
            invariant
                i <= self.slots.len(),
                forall|j: int| 0 <= j < i ==> self.key_at(j) != key@,
            decreases self.slots.len() - i,
        {
            if slice_eq(as_slice(&self.slots[i].key), key) {
                return Some(i);
            }
            i += 1;
        }
        None
    }

    /// The value under `key`, expired or not.
    fn peek(&self, key: &[u8]) -> (r: Option<&RedisValue>)
        requires
            self.wf(),
        ensures
            match r {
                Some(value) => self@.contains_key(key@) && value@ == self@[key@],
                None => !self@.contains_key(key@),
            },
    {
        match self.find(key) {
            Some(i) => {
                proof {
                    self.lemma_slot(i as int);
                }
                Some(&self.slots[i].value)
            },
            None => None,
        }
    }

    /// Drops the slot at `i`; the other slots keep their order.
    fn remove_at(&mut self, i: usize) -> (slot: Slot)
        requires
            old(self).wf(),
            i < old(self).slots.len(),
        ensures
            final(self).wf(),
            slot == old(self).slots[i as int],
            final(self).slots@ == old(self).slots@.remove(i as int),
            final(self)@ == old(self)@.remove(old(self).key_at(i as int)),
    {
        let slot = self.slots.remove(i);
        proof {
            let gone = old(self).key_at(i as int);
            let shift = |j: int| if j < i { j } else { j + 1 };
            assert forall|j: int| 0 <= j < self.slots.len() implies self.key_at(j) == old(
                self,
            ).key_at(shift(j)) by {}
            assert(self.wf()) by {
                assert forall|a: int, b: int| 0 <= a < b < self.slots.len() implies self.key_at(a)
                    != self.key_at(b) by {
                    assert(self.key_at(a) == old(self).key_at(shift(a)));
                    assert(self.key_at(b) == old(self).key_at(shift(b)));
                }
            }
            assert forall|k: Seq<u8>| self.holds(k) == (old(self).holds(k) && k != gone) by {
                if old(self).holds(k) && k != gone {
                    let j = old(self).slot_of(k);
                    if j < i {
                        assert(self.key_at(j) == k);
                    } else {
                        assert(self.key_at(j - 1) == old(self).key_at(shift(j - 1)));
                    }
                }
                if self.holds(k) {
                    let j = self.slot_of(k);
                    assert(old(self).key_at(shift(j)) == k);
                }
            }
            assert forall|k: Seq<u8>| self.holds(k) implies self@[k] == old(self)@[k] by {
                let j = self.slot_of(k);
                assert(old(self).key_at(shift(j)) == k);
                old(self).lemma_slot(shift(j));
            }
            assert(self@ =~= old(self)@.remove(gone));
        }
        slot
    }

    /// Removes `key` and hands back the value that was under it.
    fn take(&mut self, key: &[u8]) -> (r: Option<RedisValue>)
        requires
            old(self).wf(),
        ensures
            final(self).wf(),
            final(self)@ == old(self)@.remove(key@),
            match r {
                Some(value) => old(self)@.contains_key(key@) && value@ == old(self)@[key@],
                None => !old(self)@.contains_key(key@),
            },
    {
        match self.find(key) {
            Some(i) => {
                proof {
                    self.lemma_slot(i as int);
                }
                let slot = self.remove_at(i);
                Some(slot.value)
            },
            None => {
                assert(self@ =~= old(self)@.remove(key@));
                None
            },
        }
    }

    /// Stores `value` under `key`, in place of any value that was there.
    fn put(&mut self, key: &Bytes, value: RedisValue)
        requires
            old(self).wf(),
        ensures
            final(self).wf(),
            final(self)@ == old(self)@.insert(contents(*key), value@),
    {
        match self.find(as_slice(key)) {
            Some(i) => {
                let slot = Slot { key: key.clone(), value };
                self.slots.set(i, slot);
                assert(self.wf()) by {
                    assert forall|a: int, b: int| 0 <= a < b < self.slots.len() implies self.key_at(a)
                        != self.key_at(b) by {
                        assert(self.key_at(a) == old(self).key_at(a));
                        assert(self.key_at(b) == old(self).key_at(b));
                    }
                }
                assert(self@ =~= old(self)@.insert(contents(*key), value@)) by {
                    assert forall|k: Seq<u8>| self.holds(k) == (old(self).holds(k) || k == contents(*key)) by {
                        if old(self).holds(k) {
                            let j = old(self).slot_of(k);
                            assert(self.key_at(j) == k);
                        }
                        if self.holds(k) {
                            let j = self.slot_of(k);
                            assert(old(self).key_at(j) == k);
                        }
                        if k == contents(*key) {
                            assert(self.key_at(i as int) == k);
                        }
                    }
                    assert forall|k: Seq<u8>| self.holds(k) implies self@[k] == old(self)@.insert(contents(*key), value@)[k] by {
                        let j = self.slot_of(k);
                        assert(old(self).key_at(j) == k);
                        old(self).lemma_slot(j);
                    }
                }
            },
            None => {
                let slot = Slot { key: key.clone(), value };
                self.slots.push(slot);
                assert(self.wf()) by {
                    assert forall|a: int, b: int| 0 <= a < b < self.slots.len() implies self.key_at(a)
                        != self.key_at(b) by {
                        assert(self.key_at(a) == old(self).key_at(a));
                        if b < old(self).slots.len() {
                            assert(self.key_at(b) == old(self).key_at(b));
                        } else {
                            assert(old(self).holds(old(self).key_at(a)));
                        }
                    }
                }
                assert(self@ =~= old(self)@.insert(contents(*key), value@)) by {
                    let n = old(self).slots.len() as int;
                    assert forall|k: Seq<u8>| self.holds(k) == (old(self).holds(k) || k == contents(*key)) by {
                        if old(self).holds(k) {
                            let j = old(self).slot_of(k);
                            assert(self.key_at(j) == k);
                        }
                        if self.holds(k) {
                            let j = self.slot_of(k);
                            if j < n {
                                assert(old(self).key_at(j) == k);
                            }
                        }
                        if k == contents(*key) {
                            assert(self.key_at(n) == k);
                        }
                    }
                    assert forall|k: Seq<u8>| self.holds(k) implies self@[k] == old(self)@.insert(contents(*key), value@)[k] by {
                        let j = self.slot_of(k);
                        if j < n {
                            assert(old(self).key_at(j) == k);
                            old(self).lemma_slot(j);
                        }
                    }
                }
            },
        }
    }
    /// A copy of the value under `key`, if the key is present at `now`; a
    /// key that has expired is evicted.
    fn observe(&mut self, key: &[u8], now: u64) -> (r: Option<RedisValue>)
        requires
            old(self).wf(),
        ensures
            final(self).wf(),
            final(self)@ == evict(old(self)@, key@, now),
            match r {
                Some(value) => live(old(self)@, key@, now) && value@ == old(self)@[key@],
                None => !live(old(self)@, key@, now),
            },
    {
        let found = match self.peek(key) {
            Some(value) => Some(
                RedisValue { data: value.data.clone(), expires_at: value.expires_at },
            ),
            None => None,
        };
        match found {
            Some(value) => {
                if value.is_expired(now) {
                    self.take(key);
                    None
                } else {
                    Some(value)
                }
            },
            None => None,
        }
    }

    /// Reads `key`: its bytes if it is present at `now`. A key that has
    /// expired is evicted.
    pub fn get(&mut self, key: &Bytes, now: u64) -> (r: Option<Bytes>)
        requires
            old(self).wf(),
        ensures
            final(self).wf(),
            final(self)@ == evict(old(self)@, contents(*key), now),
            opt_contents(r) == get_result(old(self)@, contents(*key), now),
    {
        match self.observe(as_slice(key), now) {
            Some(value) => Some(value.data),
            None => None,
        }
    }

    /// Writes `data` under `key`. Under `Preserve` a key that is present at
    /// `now` keeps its expiry; otherwise the value never expires.
    pub fn set(&mut self, key: &Bytes, data: Bytes, policy: ExpiryPolicy, now: u64)
        requires
            old(self).wf(),
        ensures
            final(self).wf(),
            final(self)@ == set_store(old(self)@, contents(*key), contents(data), policy, now),
    {
        let expires_at = match policy {
            ExpiryPolicy::Preserve => match self.observe(as_slice(key), now) {
                Some(value) => value.expires_at,
                None => None,
            },
            ExpiryPolicy::Clear => None,
        };
        self.put(key, RedisValue { data, expires_at });
        assert(self@ =~= set_store(old(self)@, contents(*key), contents(data), policy, now));
    }

    /// Deletes each of `keys` and counts those that were present at `now`.
    pub fn delete(&mut self, keys: &Vec<Bytes>, now: u64) -> (count: i64)
        requires
            old(self).wf(),
        ensures
            final(self).wf(),
            final(self)@ == delete_many(old(self)@, each_contents(keys@), now).0,
            count == count_as_i64(delete_many(old(self)@, each_contents(keys@), now).1),
    {
        let ghost all = each_contents(keys@);
        let mut count: usize = 0;
        let mut i: usize = 0;
        assert(all.take(0) =~= Seq::<Seq<u8>>::empty());
        while i < keys.len()
            invariant
                self.wf(),
                i <= keys.len(),
                all == each_contents(keys@),
                count <= i,
                (self@, count as nat) == delete_many(old(self)@, all.take(i as int), now),
            decreases keys.len() - i,
        {
            assert(all.take(i + 1).drop_last() =~= all.take(i as int));
            assert(all.take(i + 1).last() == contents(keys[i as int]));
            match self.take(as_slice(&keys[i])) {
                Some(value) => {
                    if !value.is_expired(now) {
                        count += 1;
                    }
                },
                None => {},
            }
            i += 1;
        }
        assert(all.take(keys.len() as int) =~= all);
        len_as_i64(count)
    }

    /// Counts those of `keys` that are present at `now`, a key once for each
    /// time it is named. Keys that have expired are evicted.
    pub fn count_existing(&mut self, keys: &Vec<Bytes>, now: u64) -> (count: i64)
        requires
            old(self).wf(),
        ensures
            final(self).wf(),
            final(self)@ == exists_many(old(self)@, each_contents(keys@), now).0,
            count == count_as_i64(exists_many(old(self)@, each_contents(keys@), now).1),
    {
        let ghost all = each_contents(keys@);
        let mut count: usize = 0;
        let mut i: usize = 0;
        assert(all.take(0) =~= Seq::<Seq<u8>>::empty());
        while i < keys.len()
            invariant
                self.wf(),
                i <= keys.len(),
                all == each_contents(keys@),
                count <= i,
                (self@, count as nat) == exists_many(old(self)@, all.take(i as int), now),
            decreases keys.len() - i,
        {
            assert(all.take(i + 1).drop_last() =~= all.take(i as int));
            assert(all.take(i + 1).last() == contents(keys[i as int]));
            if self.observe(as_slice(&keys[i]), now).is_some() {
                count += 1;
            }
            i += 1;
        }
        assert(all.take(keys.len() as int) =~= all);
        len_as_i64(count)
    }

    /// Sets `key` to expire `seconds` after `now`, or deletes it where
    /// `seconds` is not positive. Replies 1 if the key was present, else 0.
    pub fn expire(&mut self, key: &Bytes, seconds: i64, now: u64) -> (r: i64)
        requires
            old(self).wf(),
        ensures
            final(self).wf(),
            final(self)@ == expire_store(old(self)@, contents(*key), seconds, now),
            r == expire_result(old(self)@, contents(*key), now),
    {
        match self.observe(as_slice(key), now) {
            Some(value) => {
                if seconds <= 0 {
                    self.take(as_slice(key));
                } else {
                    let at: u128 = now as u128 + (seconds as u128) * NANOS_PER_SEC;
                    self.put(key, RedisValue { data: value.data, expires_at: Some(at) });
                }
                1
            },
            None => 0,
        }
    }

    /// The time `key` has left at `now`: -2 where it is absent, -1 where it
    /// never expires, else the whole seconds until its expiry.
    pub fn ttl(&mut self, key: &Bytes, now: u64) -> (r: i64)
        requires
            old(self).wf(),
        ensures
            final(self).wf(),
            final(self)@ == evict(old(self)@, contents(*key), now),
            r == ttl_result(old(self)@, contents(*key), now),
    {
        match self.observe(as_slice(key), now) {
            Some(value) => match value.expires_at {
                Some(at) => {
                    if at <= now as u128 {
                        0
                    } else {
                        let seconds: u128 = (at - now as u128) / NANOS_PER_SEC;
                        if seconds > i64::MAX as u128 {
                            i64::MAX
                        } else {
                            seconds as i64
                        }
                    }
                },
                None => -1,
            },
            None => -2,
        }
    }

    /// Adds `delta` to the integer that `key` holds in decimal, an absent
    /// key counting as zero, and writes the sum back.
    pub fn incr_by(&mut self, key: &Bytes, delta: i64, now: u64) -> (reply: RespFrame)
        requires
            old(self).wf(),
        ensures
            final(self).wf(),
            final(self)@ == incr_store(old(self)@, contents(*key), delta, now),
            reply@ == incr_reply(old(self)@, contents(*key), delta, now),
    {
        let (current, expires_at) = match self.observe(as_slice(key), now) {
            Some(value) => {
                let text = as_slice(&value.data);
                if !is_utf8(text) {
                    return RespFrame::Error("ERR value is not valid UTF-8".to_string());
                }
                match parse_decimal(text) {
                    Some(current) => (current, value.expires_at),
                    None => {
                        return RespFrame::Error("ERR value is not an integer".to_string());
                    },
                }
            },
            None => (0, None),
        };
        let count = saturating_add(current, delta);
        self.put(key, RedisValue { data: from_vec(to_decimal(count)), expires_at });
        assert(self@ =~= incr_store(old(self)@, contents(*key), delta, now));
        RespFrame::Integer(count)
    }

    /// Writes each pair of `pairs` in turn, none with an expiry.
    pub fn mset(&mut self, pairs: &Vec<(Bytes, Bytes)>)
        requires
            old(self).wf(),
        ensures
            final(self).wf(),
            final(self)@ == mset_many(old(self)@, pair_contents(pairs@)),
    {
        let ghost all = pair_contents(pairs@);
        let mut i: usize = 0;
        assert(all.take(0) =~= Seq::<(Seq<u8>, Seq<u8>)>::empty());
        while i < pairs.len()
            invariant
                self.wf(),
                i <= pairs.len(),
                all == pair_contents(pairs@),
                self@ == mset_many(old(self)@, all.take(i as int)),
            decreases pairs.len() - i,
        {
            assert(all.take(i + 1).drop_last() =~= all.take(i as int));
            assert(all.take(i + 1).last() == (contents(pairs[i as int].0), contents(pairs[i as int].1)));
            let data = pairs[i].1.clone();
            self.put(&pairs[i].0, RedisValue { data, expires_at: None });
            i += 1;
        }
        assert(all.take(pairs.len() as int) =~= all);
    }

    /// Reads each of `keys` in turn.
    pub fn mget(&mut self, keys: &Vec<Bytes>, now: u64) -> (found: Vec<Option<Bytes>>)
        requires
            old(self).wf(),
        ensures
            final(self).wf(),
            final(self)@ == mget_many(old(self)@, each_contents(keys@), now).0,
            each_opt_contents(found@) == mget_many(old(self)@, each_contents(keys@), now).1,
    {
        let ghost all = each_contents(keys@);
        let mut found: Vec<Option<Bytes>> = Vec::new();
        let mut i: usize = 0;
        assert(all.take(0) =~= Seq::<Seq<u8>>::empty());
        assert(each_opt_contents(found@) =~= Seq::<Option<Seq<u8>>>::empty());
        while i < keys.len()
            invariant
                self.wf(),
                i <= keys.len(),
                all == each_contents(keys@),
                (self@, each_opt_contents(found@)) == mget_many(old(self)@, all.take(i as int), now),
            decreases keys.len() - i,
        {
            assert(all.take(i + 1).drop_last() =~= all.take(i as int));
            assert(all.take(i + 1).last() == contents(keys[i as int]));
            let ghost before = found@;
            let data = self.get(&keys[i], now);
            found.push(data);
            assert(each_opt_contents(found@) =~= each_opt_contents(before).push(opt_contents(data)));
            i += 1;
        }
        assert(all.take(keys.len() as int) =~= all);
        found
    }

    /// The length of the value under `key`, zero where it is absent at
    /// `now`. A key that has expired is evicted.
    pub fn strlen(&mut self, key: &Bytes, now: u64) -> (r: i64)
        requires
            old(self).wf(),
        ensures
            final(self).wf(),
            final(self)@ == evict(old(self)@, contents(*key), now),
            r == strlen_result(old(self)@, contents(*key), now),
    {
        match self.observe(as_slice(key), now) {
            Some(value) => len_as_i64(as_slice(&value.data).len()),
            None => 0,
        }
    }

    /// Writes `data` under `key` with no expiry and hands back the bytes that
    /// were there, if the key was present at `now`.
    pub fn getset(&mut self, key: &Bytes, data: Bytes, now: u64) -> (r: Option<Bytes>)
        requires
            old(self).wf(),
        ensures
            final(self).wf(),
            final(self)@ == set_store(
                old(self)@,
                contents(*key),
                contents(data),
                ExpiryPolicy::Clear,
                now,
            ),
            opt_contents(r) == get_result(old(self)@, contents(*key), now),
    {
        let previous = self.get(key, now);
        self.put(key, RedisValue { data, expires_at: None });
        assert(self@ =~= set_store(
            old(self)@,
            contents(*key),
            contents(data),
            ExpiryPolicy::Clear,
            now,
        ));
        previous
    }

    /// Appends `suffix` to the value under `key`, an absent key starting from
    /// nothing, and replies the new length.
    pub fn append(&mut self, key: &Bytes, suffix: &Bytes, now: u64) -> (r: i64)
        requires
            old(self).wf(),
        ensures
            final(self).wf(),
            final(self)@ == old(self)@.insert(
                contents(*key),
                appended(old(self)@, contents(*key), contents(*suffix), now),
            ),
            r == count_as_i64(
                appended(old(self)@, contents(*key), contents(*suffix), now).data.len(),
            ),
    {
        let (mut data, expires_at) = match self.observe(as_slice(key), now) {
            Some(value) => (slice_to_vec(as_slice(&value.data)), value.expires_at),
            None => (Vec::new(), None),
        };
        let ghost start = data@;
        let tail = as_slice(suffix);
        data.extend_from_slice(tail);
        assert(data@ =~= start + tail@);
        let r = len_as_i64(data.len());
        self.put(key, RedisValue { data: from_vec(data), expires_at });
        assert(self@ =~= old(self)@.insert(
            contents(*key),
            appended(old(self)@, contents(*key), contents(*suffix), now),
        ));
        r
    }

    /// Evicts every key that has expired at `now` and lists the keys that
    /// are left, each once.
    pub fn keys_all(&mut self, now: u64) -> (keys: Vec<Bytes>)
        requires
            old(self).wf(),
        ensures
            final(self).wf(),
            final(self)@ == purge(old(self)@, now),
            each_contents(keys@).no_duplicates(),
            each_contents(keys@).to_set() == final(self)@.dom(),
    {
        let mut keys: Vec<Bytes> = Vec::new();
        let mut i: usize = 0;
        while i < self.slots.len()
            invariant
                self.wf(),
                i <= self.slots.len(),
                keys.len() == i,
                forall|j: int| 0 <= j < i ==> contents(#[trigger] keys[j]) == self.key_at(j),
                forall|j: int| 0 <= j < i ==> !expired(#[trigger] self.slots[j].value@, now),
                forall|k: Seq<u8>| #[trigger]
                    self@.contains_key(k) ==> old(self)@.contains_key(k) && self@[k] == old(
                        self,
                    )@[k],
                forall|k: Seq<u8>|
                    old(self)@.contains_key(k) && !(#[trigger] self@.contains_key(k)) ==> expired(
                        old(self)@[k],
                        now,
                    ),
            decreases self.slots.len() - i,
        {
            proof {
                self.lemma_slot(i as int);
            }
            if self.slots[i].value.is_expired(now) {
                self.remove_at(i);
            } else {
                let key = self.slots[i].key.clone();
                keys.push(key);
                i += 1;
            }
        }
        proof {
            let listed = each_contents(keys@);
            assert forall|k: Seq<u8>| self@.contains_key(k) implies !expired(self@[k], now) by {
                let j = self.slot_of(k);
                self.lemma_slot(j);
                assert(!expired(self.slots[j].value@, now));
            }
            assert(self@ =~= purge(old(self)@, now));
            assert forall|a: int, b: int| 0 <= a < listed.len() && 0 <= b < listed.len() && a
                != b implies listed[a] != listed[b] by {
                assert(listed[a] == self.key_at(a));
                assert(listed[b] == self.key_at(b));
            }
            assert forall|k: Seq<u8>| listed.to_set().contains(k) == self@.dom().contains(k) by {
                if listed.to_set().contains(k) {
                    let j = choose|j: int| 0 <= j < listed.len() && listed[j] == k;
                    assert(self.key_at(j) == k);
                    assert(self.holds(k));
                }
                if self@.dom().contains(k) {
                    let j = self.slot_of(k);
                    assert(listed[j] == k);
                }
            }
            assert(listed.to_set() =~= self@.dom());
        }
        keys
    }
}

} // verus!
