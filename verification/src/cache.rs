//! An in-memory response cache that forgets what was used longest ago.

use lru::LruCache;
use vstd::prelude::*;
use vstd::slice::slice_to_vec;

verus! {

/// What a cache holds: keys and contents, the most recently used first.
pub type Held = Seq<(Seq<char>, Seq<u8>)>;

/// The content held for a key.
pub open spec fn content_of(held: Held, key: Seq<char>) -> Option<Seq<u8>>
    decreases held.len(),
{
    if held.len() == 0 {
        None
    } else if held[0].0 == key {
        Some(held[0].1)
    } else {
        content_of(held.drop_first(), key)
    }
}

/// What is held for the other keys.
pub open spec fn without_key(held: Held, key: Seq<char>) -> Held
    decreases held.len(),
{
    if held.len() == 0 {
        held
    } else if held[0].0 == key {
        without_key(held.drop_first(), key)
    } else {
        seq![held[0]] + without_key(held.drop_first(), key)
    }
}

/// What is held after a key has been read: it comes first, if it is there.
pub open spec fn after_get(held: Held, key: Seq<char>) -> Held {
    match content_of(held, key) {
        Some(content) => seq![(key, content)] + without_key(held, key),
        None => held,
    }
}

/// What is held after a content has been stored: it comes first. A new key in
/// a full cache drives out the last one.
pub open spec fn after_put(held: Held, capacity: nat, key: Seq<char>, content: Seq<u8>) -> Held {
    if content_of(held, key) is Some {
        seq![(key, content)] + without_key(held, key)
    } else if held.len() == capacity {
        seq![(key, content)] + held.drop_last()
    } else {
        seq![(key, content)] + held
    }
}

/// No key is held twice.
pub open spec fn distinct_keys(held: Held) -> bool {
    forall|i: int, j: int|
        0 <= i < j < held.len() ==> (#[trigger] held[i]).0 != (#[trigger] held[j]).0
}

#[verifier::external_type_specification]
#[verifier::external_body]
#[verifier::reject_recursive_types(K)]
#[verifier::reject_recursive_types(V)]
#[verifier::reject_recursive_types(S)]
pub struct ExLruCache<K, V, S>(LruCache<K, V, S>);

#[verifier::external_type_specification]
#[verifier::external_body]
pub struct ExDefaultHasher(lru::DefaultHasher);

/// The keys and contents of a cache, the most recently used first.
pub uninterp spec fn lru_held(cache: LruCache<String, Vec<u8>>) -> Seq<(Seq<char>, Seq<u8>)>;

/// How many keys a cache was made for.
pub uninterp spec fn lru_capacity(cache: LruCache<String, Vec<u8>>) -> nat;

/// A capacity that a cache can be made for.
///
/// A cache reserves a hash table for all its keys at once: slots to a power of
/// two, of which seven in eight are filled, each with two pointers and a control
/// byte. All of it has to stay within `isize::MAX` bytes. With pointers of eight
/// bytes that is 2 to the 58th slots.
pub open spec fn is_capacity(capacity: usize) -> bool {
    0 < capacity <= usize::MAX / 512 * 7
}

/// `LruCache::new` gives an empty cache for that many keys. It panics where its
/// hash table would be too large to address; such capacities are left out. A
/// lack of memory is not spoken of.
#[verifier::external_body]
fn new_lru(capacity: usize) -> (cache: LruCache<String, Vec<u8>>)
    requires
        is_capacity(capacity),
    ensures
        lru_held(cache) == Seq::<(Seq<char>, Seq<u8>)>::empty(),
        lru_capacity(cache) == capacity,
{
    LruCache::new(std::num::NonZeroUsize::new(capacity).unwrap())
}

/// `LruCache::put` stores a content as the most recently used. A new key in a
/// full cache drives out the one used longest ago.
#[verifier::external_body]
fn put_lru(cache: &mut LruCache<String, Vec<u8>>, key: String, content: Vec<u8>)
    ensures
        lru_held(*final(cache)) == after_put(
            lru_held(*old(cache)),
            lru_capacity(*old(cache)),
            key@,
            content@,
        ),
        lru_capacity(*final(cache)) == lru_capacity(*old(cache)),
{
    cache.put(key, content);
}

/// `LruCache::get` gives the content of a key and makes it the most recently
/// used.
#[verifier::external_body]
fn get_lru(cache: &mut LruCache<String, Vec<u8>>, key: &str) -> (content: Option<Vec<u8>>)
    ensures
        match content {
            Some(content) => content_of(lru_held(*old(cache)), key@) == Some(content@),
            None => content_of(lru_held(*old(cache)), key@) is None,
        },
        lru_held(*final(cache)) == after_get(lru_held(*old(cache)), key@),
        lru_capacity(*final(cache)) == lru_capacity(*old(cache)),
{
    cache.get(key).cloned()
}

/// A response cache in memory.
pub struct MemCache {
    lru: LruCache<String, Vec<u8>>,
}

impl View for MemCache {
    type V = Held;

    closed spec fn view(&self) -> Held {
        lru_held(self.lru)
    }
}

impl MemCache {
    /// How many keys the cache was made for.
    pub closed spec fn capacity(&self) -> nat {
        lru_capacity(self.lru)
    }

    /// No key is held twice, and no more keys than the cache was made for.
    pub open spec fn wf(&self) -> bool {
        &&& 0 < self.capacity()
        &&& self@.len() <= self.capacity()
        &&& distinct_keys(self@)
    }

    /// An empty cache for at most `capacity` keys.
    pub fn new(capacity: usize) -> (cache: Self)
        requires
            is_capacity(capacity),
        ensures
            cache@ == Seq::<(Seq<char>, Seq<u8>)>::empty(),
            cache.capacity() == capacity,
            cache.wf(),
    {
        MemCache { lru: new_lru(capacity) }
    }

    /// Stores a content under a key, in place of what was there. It becomes the
    /// most recently used; a new key in a full cache drives out the one used
    /// longest ago.
    pub fn store_key(&mut self, key: String, content: &[u8])
        ensures
            final(self)@ == after_put(old(self)@, old(self).capacity(), key@, content@),
            final(self).capacity() == old(self).capacity(),
            old(self).wf() ==> final(self).wf(),
    {
        proof {
            if self.wf() {
                lemma_after_put(self@, self.capacity(), key@, content@);
            }
        }
        put_lru(&mut self.lru, key, slice_to_vec(content));
    }

    /// The content held for a key, which becomes the most recently used.
    pub fn get_key(&mut self, key: &str) -> (content: Option<Vec<u8>>)
        ensures
            match content {
                Some(content) => content_of(old(self)@, key@) == Some(content@),
                None => content_of(old(self)@, key@) is None,
            },
            final(self)@ == after_get(old(self)@, key@),
            final(self).capacity() == old(self).capacity(),
            old(self).wf() ==> final(self).wf(),
    {
        proof {
            lemma_after_get(self@, key@);
        }
        get_lru(&mut self.lru, key)
    }
}

/// A key is held where an item has it.
proof fn lemma_content_of(held: Held, key: Seq<char>)
    ensures
        content_of(held, key) is Some <==> exists|i: int|
            0 <= i < held.len() && (#[trigger] held[i]).0 == key,
    decreases held.len(),
{
    if held.len() > 0 {
        let rest = held.drop_first();
        lemma_content_of(rest, key);
        if held[0].0 != key {
            if content_of(rest, key) is Some {
                let i = choose|i: int| 0 <= i < rest.len() && (#[trigger] rest[i]).0 == key;
                assert(held[i + 1].0 == key);
            }
            if exists|i: int| 0 <= i < held.len() && (#[trigger] held[i]).0 == key {
                let i = choose|i: int| 0 <= i < held.len() && (#[trigger] held[i]).0 == key;
                assert(rest[i - 1].0 == key);
            }
        }
    }
}

/// What is left without a key: it is not held, every other key keeps its
/// content and its place among the others.
proof fn lemma_without_key(held: Held, key: Seq<char>)
    ensures
        content_of(without_key(held, key), key) is None,
        forall|other: Seq<char>|
            other != key ==> #[trigger] content_of(without_key(held, key), other) == content_of(
                held,
                other,
            ),
        without_key(held, key).len() <= held.len(),
        content_of(held, key) is Some ==> without_key(held, key).len() < held.len(),
        distinct_keys(held) ==> distinct_keys(without_key(held, key)),
    decreases held.len(),
{
    if held.len() > 0 {
        let rest = held.drop_first();
        let left = without_key(held, key);
        let left_rest = without_key(rest, key);
        lemma_without_key(rest, key);
        if distinct_keys(held) {
            assert forall|i: int, j: int|
                0 <= i < j < rest.len() implies (#[trigger] rest[i]).0 != (
            #[trigger] rest[j]).0 by {
                assert(held[i + 1].0 != held[j + 1].0);
            }
        }
        if held[0].0 != key {
            assert(left.drop_first() == left_rest);
            if distinct_keys(held) {
                assert forall|i: int, j: int|
                    0 <= i < j < left.len() implies (#[trigger] left[i]).0 != (
                #[trigger] left[j]).0 by {
                    assert(left[j] == left_rest[j - 1]);
                    if i == 0 {
                        let other = left_rest[j - 1].0;
                        lemma_content_of(left_rest, other);
                        lemma_content_of(rest, other);
                        if other != key {
                            assert(content_of(left_rest, other) == content_of(rest, other));
                            let k = choose|k: int|
                                0 <= k < rest.len() && (#[trigger] rest[k]).0 == other;
                            assert(held[k + 1].0 != held[0].0);
                        }
                    } else {
                        assert(left[i] == left_rest[i - 1]);
                    }
                }
            }
        }
        assert forall|other: Seq<char>| other != key implies #[trigger] content_of(left, other)
            == content_of(held, other) by {
            assert(content_of(left_rest, other) == content_of(rest, other));
        }
    }
}

/// A key in front of keys that are not it.
proof fn lemma_front(key: Seq<char>, content: Seq<u8>, others: Held)
    requires
        content_of(others, key) is None,
        distinct_keys(others),
    ensures
        distinct_keys(seq![(key, content)] + others),
{
    let held = seq![(key, content)] + others;
    assert forall|i: int, j: int| 0 <= i < j < held.len() implies (#[trigger] held[i]).0 != (
    #[trigger] held[j]).0 by {
        assert(held[j] == others[j - 1]);
        lemma_content_of(others, key);
        if i > 0 {
            assert(held[i] == others[i - 1]);
        }
    }
}

proof fn lemma_after_put(held: Held, capacity: nat, key: Seq<char>, content: Seq<u8>)
    requires
        0 < capacity,
        held.len() <= capacity,
        distinct_keys(held),
    ensures
        after_put(held, capacity, key, content).len() <= capacity,
        distinct_keys(after_put(held, capacity, key, content)),
{
    lemma_without_key(held, key);
    if content_of(held, key) is Some {
        lemma_front(key, content, without_key(held, key));
    } else if held.len() == capacity {
        lemma_content_of(held, key);
        lemma_content_of(held.drop_last(), key);
        lemma_front(key, content, held.drop_last());
    } else {
        lemma_front(key, content, held);
    }
}

proof fn lemma_after_get(held: Held, key: Seq<char>)
    ensures
        after_get(held, key).len() <= held.len(),
        distinct_keys(held) ==> distinct_keys(after_get(held, key)),
{
    lemma_without_key(held, key);
    if let Some(content) = content_of(held, key) {
        if distinct_keys(held) {
            lemma_front(key, content, without_key(held, key));
        }
    }
}

/// How many items come before the first one of that key.
pub open spec fn rank(held: Held, key: Seq<char>) -> nat
    decreases held.len(),
{
    if held.len() == 0 || held[0].0 == key {
        0
    } else {
        1 + rank(held.drop_first(), key)
    }
}

/// A use of a cache: a read of a key, or a store.
pub enum Use {
    Read { key: Seq<char> },
    Store { key: Seq<char>, content: Seq<u8> },
}

/// What is held after one use.
pub open spec fn after_use(held: Held, capacity: nat, step: Use) -> Held {
    match step {
        Use::Read { key } => after_get(held, key),
        Use::Store { key, content } => after_put(held, capacity, key, content),
    }
}

/// What is held after uses in turn.
pub open spec fn after_uses(held: Held, capacity: nat, uses: Seq<Use>) -> Held
    decreases uses.len(),
{
    if uses.len() == 0 {
        held
    } else {
        after_use(after_uses(held, capacity, uses.drop_last()), capacity, uses.last())
    }
}

/// The key that a use is for.
pub open spec fn used_key(step: Use) -> Seq<char> {
    match step {
        Use::Read { key } => key,
        Use::Store { key, .. } => key,
    }
}

/// The keys that uses are for.
pub open spec fn used_keys(uses: Seq<Use>) -> Set<Seq<char>>
    decreases uses.len(),
{
    if uses.len() == 0 {
        Set::empty()
    } else {
        used_keys(uses.drop_last()).insert(used_key(uses.last()))
    }
}

/// The keys of the items before the first one of that key.
pub open spec fn keys_before(held: Held, key: Seq<char>) -> Set<Seq<char>>
    decreases held.len(),
{
    if held.len() == 0 || held[0].0 == key {
        Set::empty()
    } else {
        keys_before(held.drop_first(), key).insert(held[0].0)
    }
}

/// Every key of `held` and of the uses since, with its last content, the most
/// recently used first, as if nothing had ever been driven out. A read counts as
/// a use where the key is among the first `capacity`.
pub open spec fn by_recency(held: Held, capacity: nat, uses: Seq<Use>) -> Held
    decreases uses.len(),
{
    if uses.len() == 0 {
        held
    } else {
        let before = by_recency(held, capacity, uses.drop_last());
        match uses.last() {
            Use::Read { key } => match content_of(first_of(before, capacity), key) {
                Some(content) => seq![(key, content)] + without_key(before, key),
                None => before,
            },
            Use::Store { key, content } => seq![(key, content)] + without_key(before, key),
        }
    }
}

/// The first `count` items, or all where there are fewer.
pub open spec fn first_of(held: Held, count: nat) -> Held {
    if held.len() <= count {
        held
    } else {
        held.take(count as int)
    }
}

/// The content that was stored last under a key, where uses came after `held`.
pub open spec fn last_content(held: Held, uses: Seq<Use>, key: Seq<char>) -> Option<Seq<u8>>
    decreases uses.len(),
{
    if uses.len() == 0 {
        content_of(held, key)
    } else {
        match uses.last() {
            Use::Store { key: other, content } if other == key => Some(content),
            _ => last_content(held, uses.drop_last(), key),
        }
    }
}

/// None of the uses is a store under that key.
pub open spec fn leave_alone(uses: Seq<Use>, key: Seq<char>) -> bool {
    forall|i: int|
        0 <= i < uses.len() ==> (#[trigger] uses[i] matches Use::Store { key: other, .. } ==> other
            != key)
}

/// Without another key, no further key comes before.
proof fn lemma_before_without_key(held: Held, key: Seq<char>, other: Seq<char>)
    requires
        key != other,
    ensures
        keys_before(without_key(held, other), key).subset_of(keys_before(held, key)),
    decreases held.len(),
{
    if held.len() > 0 {
        lemma_before_without_key(held.drop_first(), key, other);
        let left = without_key(held, other);
        if held[0].0 != other {
            assert(left.drop_first() == without_key(held.drop_first(), other));
        }
    }
}

/// Where keys are distinct, `rank` counts the keys before. They are held, and
/// the key is not among them.
proof fn lemma_before(held: Held, key: Seq<char>)
    requires
        distinct_keys(held),
    ensures
        keys_before(held, key).finite(),
        keys_before(held, key).len() == rank(held, key),
        forall|other: Seq<char>| #[trigger]
            keys_before(held, key).contains(other) ==> content_of(held, other) is Some && other
                != key,
    decreases held.len(),
{
    if held.len() > 0 && held[0].0 != key {
        let rest = held.drop_first();
        assert forall|i: int, j: int| 0 <= i < j < rest.len() implies (#[trigger] rest[i]).0 != (
        #[trigger] rest[j]).0 by {
            assert(held[i + 1].0 != held[j + 1].0);
        }
        lemma_before(rest, key);
        lemma_content_of(rest, held[0].0);
        assert forall|i: int| 0 <= i < rest.len() implies (#[trigger] rest[i]).0 != held[0].0 by {
            assert(held[i + 1].0 != held[0].0);
        }
    }
}

proof fn lemma_drop_last(held: Held, key: Seq<char>)
    requires
        rank(held, key) + 1 < held.len(),
    ensures
        keys_before(held.drop_last(), key) == keys_before(held, key),
        content_of(held.drop_last(), key) == content_of(held, key),
    decreases held.len(),
{
    if held[0].0 != key {
        assert(held.drop_last().drop_first() == held.drop_first().drop_last());
        lemma_drop_last(held.drop_first(), key);
    }
}

/// Without its last item, a cache gives of a key what it gave, or nothing.
proof fn lemma_drop_last_content(held: Held, key: Seq<char>)
    requires
        held.len() > 0,
    ensures
        content_of(held.drop_last(), key) is None || content_of(held.drop_last(), key)
            == content_of(held, key),
    decreases held.len(),
{
    if held.len() > 1 && held[0].0 != key {
        assert(held.drop_last().drop_first() == held.drop_first().drop_last());
        lemma_drop_last_content(held.drop_first(), key);
    }
}

/// Behind another key's item, a key has the same content and one key more
/// before it.
proof fn lemma_behind(item: (Seq<char>, Seq<u8>), others: Held, key: Seq<char>)
    requires
        item.0 != key,
    ensures
        content_of(seq![item] + others, key) == content_of(others, key),
        keys_before(seq![item] + others, key) == keys_before(others, key).insert(item.0),
{
    assert((seq![item] + others).drop_first() == others);
}

/// A read gives back what was stored last under the key.
pub proof fn law_store_then_read(held: Held, capacity: nat, key: Seq<char>, content: Seq<u8>)
    ensures
        content_of(after_put(held, capacity, key, content), key) == Some(content),
{
}

/// A read changes nothing of what later reads give.
pub proof fn law_read_keeps_contents(held: Held, key: Seq<char>, other: Seq<char>)
    ensures
        content_of(after_get(held, key), other) == content_of(held, other),
{
    lemma_without_key(held, key);
    if let Some(content) = content_of(held, key) {
        if other != key {
            lemma_behind((key, content), without_key(held, key), other);
        }
    }
}

/// A store drives out at most the key used longest ago, and that only when the
/// cache is full and the stored key is new. Every other key keeps its content.
pub proof fn law_store_drives_out_oldest(
    held: Held,
    capacity: nat,
    key: Seq<char>,
    content: Seq<u8>,
    other: Seq<char>,
)
    requires
        other != key,
        0 < capacity,
        distinct_keys(held),
    ensures
        content_of(after_put(held, capacity, key, content), other) == if content_of(held, key)
            is None && held.len() == capacity && held.last().0 == other {
            None
        } else {
            content_of(held, other)
        },
{
    lemma_without_key(held, key);
    if content_of(held, key) is Some {
        lemma_behind((key, content), without_key(held, key), other);
    } else if held.len() == capacity {
        let kept = held.drop_last();
        lemma_behind((key, content), kept, other);
        lemma_content_of(kept, other);
        lemma_content_of(held, other);
        if held.last().0 == other {
            assert forall|i: int| 0 <= i < kept.len() implies (#[trigger] kept[i]).0 != other by {
                assert(held[i].0 != held[held.len() - 1].0);
            }
        } else if content_of(held, other) is Some {
            lemma_rank(held, other);
            lemma_drop_last(held, other);
        } else if content_of(kept, other) is Some {
            let i = choose|i: int| 0 <= i < kept.len() && (#[trigger] kept[i]).0 == other;
            assert(held[i].0 == other);
        }
    } else {
        lemma_behind((key, content), held, other);
    }
}

proof fn lemma_rank(held: Held, key: Seq<char>)
    requires
        content_of(held, key) is Some,
    ensures
        rank(held, key) < held.len(),
        held[rank(held, key) as int].0 == key,
    decreases held.len(),
{
    if held[0].0 != key {
        lemma_rank(held.drop_first(), key);
    }
}

/// The keys of uses are finitely many.
proof fn lemma_used_keys(uses: Seq<Use>)
    ensures
        used_keys(uses).finite(),
    decreases uses.len(),
{
    if uses.len() > 0 {
        lemma_used_keys(uses.drop_last());
    }
}

/// Uses that leave a key alone do so without the last of them, too.
proof fn lemma_leave_alone(uses: Seq<Use>, key: Seq<char>)
    requires
        uses.len() > 0,
        leave_alone(uses, key),
    ensures
        leave_alone(uses.drop_last(), key),
        uses.last() matches Use::Store { key: other, .. } ==> other != key,
{
    let earlier = uses.drop_last();
    assert forall|i: int| 0 <= i < earlier.len() implies (
    #[trigger] earlier[i] matches Use::Store { key: other, .. } ==> other != key) by {
        assert(earlier[i] == uses[i]);
    }
    assert(uses[uses.len() - 1] == uses.last());
}

/// After a store and fewer other keys than the cache was made for, the content
/// is there, and only keys that were used since come before it.
proof fn lemma_recent(held: Held, capacity: nat, key: Seq<char>, content: Seq<u8>, uses: Seq<Use>)
    requires
        held.len() <= capacity,
        distinct_keys(held),
        used_keys(uses).remove(key).len() < capacity,
        leave_alone(uses, key),
    ensures
        ({
            let after = after_uses(after_put(held, capacity, key, content), capacity, uses);
            &&& content_of(after, key) == Some(content)
            &&& after.len() <= capacity
            &&& distinct_keys(after)
            &&& keys_before(after, key).subset_of(used_keys(uses).remove(key))
        }),
    decreases uses.len(),
{
    let others = used_keys(uses).remove(key);
    if uses.len() == 0 {
        lemma_after_put(held, capacity, key, content);
        assert(after_put(held, capacity, key, content)[0] == (key, content));
    } else {
        let earlier = uses.drop_last();
        let last = uses.last();
        lemma_leave_alone(uses, key);
        lemma_used_keys(uses);
        vstd::set_lib::lemma_len_subset(used_keys(earlier).remove(key), others);
        lemma_recent(held, capacity, key, content, earlier);
        let before = after_uses(after_put(held, capacity, key, content), capacity, earlier);
        match last {
            Use::Read { key: other } => {
                lemma_after_get(before, other);
                if other == key {
                    assert(after_get(before, key)[0] == (key, content));
                } else if let Some(found) = content_of(before, other) {
                    lemma_without_key(before, other);
                    lemma_before_without_key(before, key, other);
                    lemma_behind((other, found), without_key(before, other), key);
                }
            },
            Use::Store { key: other, content: stored } => {
                lemma_after_put(before, capacity, other, stored);
                if content_of(before, other) is Some {
                    lemma_without_key(before, other);
                    lemma_before_without_key(before, key, other);
                    lemma_behind((other, stored), without_key(before, other), key);
                } else if before.len() == capacity {
                    lemma_before(before, key);
                    assert(!keys_before(before, key).contains(other));
                    vstd::set_lib::lemma_len_subset(
                        keys_before(before, key).insert(other),
                        others,
                    );
                    lemma_drop_last(before, key);
                    lemma_behind((other, stored), before.drop_last(), key);
                } else {
                    lemma_behind((other, stored), before, key);
                }
            },
        }
    }
}

/// What was stored can be read as long as fewer other keys have been used since
/// than the cache was made for, however often, and nothing else was stored under
/// the key.
pub proof fn law_recent_contents_stay(
    held: Held,
    capacity: nat,
    key: Seq<char>,
    content: Seq<u8>,
    uses: Seq<Use>,
)
    requires
        held.len() <= capacity,
        distinct_keys(held),
        used_keys(uses).remove(key).len() < capacity,
        leave_alone(uses, key),
    ensures
        content_of(after_uses(after_put(held, capacity, key, content), capacity, uses), key)
            == Some(content),
{
    lemma_recent(held, capacity, key, content, uses);
}

/// Whatever has been done to the cache since, a key gives the content that was
/// stored last under it, or nothing.
pub proof fn law_no_other_content(
    held: Held,
    capacity: nat,
    key: Seq<char>,
    content: Seq<u8>,
    uses: Seq<Use>,
)
    requires
        0 < capacity,
        leave_alone(uses, key),
    ensures
        ({
            let after = after_uses(after_put(held, capacity, key, content), capacity, uses);
            content_of(after, key) is None || content_of(after, key) == Some(content)
        }),
    decreases uses.len(),
{
    if uses.len() > 0 {
        let earlier = uses.drop_last();
        lemma_leave_alone(uses, key);
        law_no_other_content(held, capacity, key, content, earlier);
        let before = after_uses(after_put(held, capacity, key, content), capacity, earlier);
        match uses.last() {
            Use::Read { key: other } => law_read_keeps_contents(before, other, key),
            Use::Store { key: other, content: stored } => {
                if content_of(before, other) is Some {
                    lemma_without_key(before, other);
                    lemma_behind((other, stored), without_key(before, other), key);
                } else if before.len() == capacity {
                    lemma_drop_last_content(before, key);
                    lemma_behind((other, stored), before.drop_last(), key);
                } else {
                    lemma_behind((other, stored), before, key);
                }
            },
        }
    }
}

/// A key that is not among the first items: without it, they are the same.
proof fn lemma_without_later_key(held: Held, key: Seq<char>, n: int)
    requires
        0 <= n <= held.len(),
        content_of(held.take(n), key) is None,
    ensures
        n <= without_key(held, key).len(),
        without_key(held, key).take(n) == held.take(n),
    decreases held.len(),
{
    if n > 0 {
        let rest = held.drop_first();
        let left = without_key(held, key);
        assert(held.take(n)[0] == held[0]);
        assert(held.take(n).drop_first() == rest.take(n - 1));
        lemma_without_later_key(rest, key, n - 1);
        assert(left == seq![held[0]] + without_key(rest, key));
        assert forall|i: int| 0 <= i < n implies left.take(n)[i] == held.take(n)[i] by {
            if i > 0 {
                assert(left[i] == without_key(rest, key).take(n - 1)[i - 1]);
                assert(held[i] == rest.take(n - 1)[i - 1]);
            }
        }
        assert(left.take(n) == held.take(n));
    } else {
        assert(without_key(held, key).take(0) == held.take(0));
    }
}

/// A key that is among the first items: without it, they are one fewer.
proof fn lemma_without_early_key(held: Held, key: Seq<char>, n: int)
    requires
        0 <= n <= held.len(),
        distinct_keys(held),
        content_of(held.take(n), key) is Some,
    ensures
        n > 0,
        without_key(held, key).len() == held.len() - 1,
        without_key(held, key).take(n - 1) == without_key(held.take(n), key),
        content_of(held, key) == content_of(held.take(n), key),
    decreases held.len(),
{
    let first = held.take(n);
    assert(n > 0);
    let rest = held.drop_first();
    let left = without_key(held, key);
    assert(first[0] == held[0]);
    assert(first.drop_first() == rest.take(n - 1));
    assert forall|i: int, j: int| 0 <= i < j < rest.len() implies (#[trigger] rest[i]).0 != (
    #[trigger] rest[j]).0 by {
        assert(held[i + 1].0 != held[j + 1].0);
    }
    if held[0].0 == key {
        assert forall|i: int| 0 <= i < rest.len() implies (#[trigger] rest[i]).0 != key by {
            assert(held[i + 1].0 != held[0].0);
        }
        lemma_content_of(rest, key);
        assert(rest.take(rest.len() as int) == rest);
        lemma_without_later_key(rest, key, rest.len() as int);
        lemma_without_key(rest, key);
        lemma_content_of(rest.take(n - 1), key);
        assert forall|i: int| 0 <= i < n - 1 implies (#[trigger] rest.take(n - 1)[i]).0 != key by {
            assert(rest[i].0 != key);
        }
        let early = rest.take(n - 1);
        assert(early.take(early.len() as int) == early);
        lemma_without_later_key(early, key, early.len() as int);
        lemma_without_key(early, key);
        assert(without_key(rest, key) == rest);
        assert(without_key(early, key) == early);
    } else {
        lemma_without_early_key(rest, key, n - 1);
        assert(left == seq![held[0]] + without_key(rest, key));
        let left_first = without_key(first, key);
        assert(left_first == seq![held[0]] + without_key(rest.take(n - 1), key));
        assert forall|i: int| 0 <= i < n - 1 implies left.take(n - 1)[i] == left_first[i] by {
            if i > 0 {
                assert(left[i] == without_key(rest, key).take(n - 2)[i - 1]);
            }
        }
        assert(left.take(n - 1) == left_first);
    }
}

/// What is held are the most recently used keys, as many as the cache was made
/// for, in the order of their use, each with the content that was stored last
/// under it. No key was forgotten for one that was used less recently.
pub proof fn law_most_recent_are_held(held: Held, capacity: nat, uses: Seq<Use>)
    requires
        0 < capacity,
        held.len() <= capacity,
        distinct_keys(held),
    ensures
        after_uses(held, capacity, uses) == first_of(by_recency(held, capacity, uses), capacity),
        distinct_keys(by_recency(held, capacity, uses)),
        forall|key: Seq<char>| #[trigger]
            content_of(by_recency(held, capacity, uses), key) == last_content(held, uses, key),
        forall|key: Seq<char>|
            (#[trigger] content_of(after_uses(held, capacity, uses), key)) is Some ==> content_of(
                after_uses(held, capacity, uses),
                key,
            ) == last_content(held, uses, key),
    decreases uses.len(),
{
    if uses.len() > 0 {
        let earlier = uses.drop_last();
        let before = by_recency(held, capacity, earlier);
        let first = first_of(before, capacity);
        let n = first.len() as int;
        let after = by_recency(held, capacity, uses);
        law_most_recent_are_held(held, capacity, earlier);
        assert(first == before.take(n));
        let key = used_key(uses.last());
        lemma_without_key(before, key);
        match uses.last() {
            Use::Read { .. } => {
                if let Some(content) = content_of(first, key) {
                    lemma_without_early_key(before, key, n);
                    lemma_front(key, content, without_key(before, key));
                    assert(first_of(after, capacity) == seq![(key, content)] + without_key(
                        first,
                        key,
                    ));
                    assert forall|other: Seq<char>| #[trigger]
                        content_of(after, other) == last_content(held, uses, other) by {
                        assert(content_of(before, other) == last_content(held, earlier, other));
                        if other != key {
                            lemma_behind((key, content), without_key(before, key), other);
                        }
                    }
                } else {
                    assert forall|other: Seq<char>| #[trigger]
                        content_of(after, other) == last_content(held, uses, other) by {
                        assert(content_of(before, other) == last_content(held, earlier, other));
                    }
                }
            },
            Use::Store { content, .. } => {
                lemma_front(key, content, without_key(before, key));
                if content_of(first, key) is Some {
                    lemma_without_early_key(before, key, n);
                    assert(first_of(after, capacity) == seq![(key, content)] + without_key(
                        first,
                        key,
                    ));
                } else {
                    lemma_without_later_key(before, key, n);
                    if n == capacity {
                        assert(first_of(after, capacity) == seq![(key, content)]
                            + first.drop_last()) by {
                            let left = without_key(before, key);
                            assert(after.take(n) == seq![(key, content)] + left.take(n).drop_last());
                        }
                    } else {
                        assert(before.take(n) == before);
                        assert(without_key(before, key) == before);
                        assert(first_of(after, capacity) == seq![(key, content)] + first);
                    }
                }
                assert forall|other: Seq<char>| #[trigger]
                    content_of(after, other) == last_content(held, uses, other) by {
                    assert(content_of(before, other) == last_content(held, earlier, other));
                    if other != key {
                        lemma_behind((key, content), without_key(before, key), other);
                    }
                }
            },
        }
    }
    let all = by_recency(held, capacity, uses);
    let kept = first_of(all, capacity);
    assert(kept == all.take(kept.len() as int));
    assert forall|key: Seq<char>| (#[trigger] content_of(kept, key)) is Some implies content_of(
        kept,
        key,
    ) == last_content(held, uses, key) by {
        lemma_without_early_key(all, key, kept.len() as int);
        assert(content_of(all, key) == last_content(held, uses, key));
    }
}

} // verus!
