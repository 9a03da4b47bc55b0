//! The index itself: a finite map from outpoint keys to unspent entries.

use std::collections::HashMap;
use vstd::prelude::*;
use vstd::seq_lib::seq_to_set_is_finite;
use vstd::slice::slice_to_vec;

verus! {

/// What the index holds for one unspent output.
#[derive(Clone, Debug)]
pub struct UnspentValue {
    pub block_height: u64,
    pub value: u64,
    pub address: String,
}

/// The mathematical content of an `UnspentValue`.
pub struct UnspentEntry {
    pub block_height: u64,
    pub value: u64,
    pub address: Seq<char>,
}

impl View for UnspentValue {
    type V = UnspentEntry;

    open spec fn view(&self) -> UnspentEntry {
        UnspentEntry {
            block_height: self.block_height,
            value: self.value,
            address: self.address@,
        }
    }
}

/// One key of the index with the value stored under it.
#[derive(Debug)]
struct Slot {
    key: Vec<u8>,
    value: UnspentValue,
}

/// The keys of `slots`, in the order of the slots.
spec fn slot_keys(slots: Seq<Slot>) -> Seq<Seq<u8>> {
    slots.map_values(|slot: Slot| slot.key@)
}

/// The map that `slots` stands for.
spec fn slot_map(slots: Seq<Slot>) -> Map<Seq<u8>, UnspentEntry> {
    Map::new(
        |key: Seq<u8>| slot_keys(slots).contains(key),
        |key: Seq<u8>| slots[slot_keys(slots).index_of(key)].value@,
    )
}

/// The keys of the map are the keys of the slots.
proof fn lemma_slot_map_dom(slots: Seq<Slot>)
    ensures
        slot_map(slots).dom() == slot_keys(slots).to_set(),
        slot_map(slots).dom().finite(),
{
    seq_to_set_is_finite(slot_keys(slots));
}

/// With distinct keys, the slot at `i` is the one that the map shows for its key.
proof fn lemma_slot_map_at(slots: Seq<Slot>, i: int)
    requires
        slot_keys(slots).no_duplicates(),
        0 <= i < slots.len(),
    ensures
        slot_map(slots).contains_key(slots[i].key@),
        slot_map(slots)[slots[i].key@] == slots[i].value@,
{
    assert(slot_keys(slots)[i] == slots[i].key@);
}

/// Appending a slot with a new key inserts it into the map.
proof fn lemma_slot_map_push(slots: Seq<Slot>, slot: Slot)
    requires
        slot_keys(slots).no_duplicates(),
        !slot_keys(slots).contains(slot.key@),
    ensures
        slot_keys(slots.push(slot)).no_duplicates(),
        slot_map(slots.push(slot)) == slot_map(slots).insert(slot.key@, slot.value@),
{
    let after = slots.push(slot);
    assert(slot_keys(after) == slot_keys(slots).push(slot.key@));
    assert forall|key: Seq<u8>| #[trigger]
        slot_map(after).contains_key(key) == slot_map(slots).insert(
            slot.key@,
            slot.value@,
        ).contains_key(key) by {
        if slot_keys(slots).contains(key) {
            let j = slot_keys(slots).index_of(key);
            assert(slot_keys(after)[j] == key);
        }
        if key == slot.key@ {
            assert(slot_keys(after)[slots.len() as int] == key);
        }
    }
}

/// Replacing the value of the slot at `i` replaces it in the map.
proof fn lemma_slot_map_update(slots: Seq<Slot>, i: int, slot: Slot)
    requires
        slot_keys(slots).no_duplicates(),
        0 <= i < slots.len(),
        slot.key@ == slots[i].key@,
    ensures
        slot_keys(slots.update(i, slot)) == slot_keys(slots),
        slot_map(slots.update(i, slot)) == slot_map(slots).insert(slot.key@, slot.value@),
{
    let after = slots.update(i, slot);
    assert(slot_keys(after) =~= slot_keys(slots));
    assert forall|key: Seq<u8>| #[trigger] slot_map(after).contains_key(key) implies slot_map(
        after,
    )[key] == slot_map(slots).insert(slot.key@, slot.value@)[key] by {
        let j = slot_keys(after).index_of(key);
        lemma_slot_map_at(after, j);
        lemma_slot_map_at(slots, j);
        assert(slot_keys(slots)[i] == slots[i].key@);
    }
    lemma_slot_map_at(slots, i);
}

/// Moving the last slot into place `i` and dropping the last place removes
/// the key that was at `i` from the map.
proof fn lemma_slot_map_swap_remove(slots: Seq<Slot>, i: int)
    requires
        slot_keys(slots).no_duplicates(),
        0 <= i < slots.len(),
    ensures
        slot_keys(slots.update(i, slots.last()).drop_last()).no_duplicates(),
        slot_map(slots.update(i, slots.last()).drop_last()) == slot_map(slots).remove(
            slots[i].key@,
        ),
{
    let after = slots.update(i, slots.last()).drop_last();
    let last = slots.len() - 1;
    let keys = slot_keys(slots);
    assert forall|a: int, b: int|
        0 <= a < after.len() && 0 <= b < after.len() && a != b implies slot_keys(after)[a]
        != slot_keys(after)[b] by {
        let source_a = if a == i { last } else { a };
        let source_b = if b == i { last } else { b };
        assert(slot_keys(after)[a] == keys[source_a]);
        assert(slot_keys(after)[b] == keys[source_b]);
    }
    assert forall|key: Seq<u8>| #[trigger]
        slot_map(after).contains_key(key) == slot_map(slots).remove(slots[i].key@).contains_key(
            key,
        ) by {
        if slot_keys(after).contains(key) {
            let j = slot_keys(after).index_of(key);
            let source = if j == i { last } else { j };
            assert(keys[source] == key);
            assert(keys[i] == slots[i].key@);
        }
        if keys.contains(key) && key != slots[i].key@ {
            let j = keys.index_of(key);
            let target = if j == last { i } else { j };
            assert(slot_keys(after)[target] == key);
        }
    }
    assert forall|key: Seq<u8>| #[trigger] slot_map(after).contains_key(key) implies slot_map(
        after,
    )[key] == slot_map(slots).remove(slots[i].key@)[key] by {
        let j = slot_keys(after).index_of(key);
        let source = if j == i { last } else { j };
        lemma_slot_map_at(after, j);
        lemma_slot_map_at(slots, source);
    }
}

/// Whether two byte strings are the same.
fn same_bytes(a: &[u8], b: &[u8]) -> (same: bool)
    ensures
        same == (a@ == b@),
{
    if a.len() != b.len() {
        return false;
    }
    let mut i: usize = 0;
    while i < a.len()
        invariant
            a@.len() == b@.len(),
            i <= a@.len(),
            a@.take(i as int) == b@.take(i as int),
        decreases a@.len() - i,
    {
        if a[i] != b[i] {
            return false;
        }
        i += 1;
    }
    assert(a@ == a@.take(a@.len() as int));
    assert(b@ == b@.take(b@.len() as int));
    true
}

/// The offset basis of the 64-bit FNV-1a hash.
const BUCKET_START: u64 = 0xcbf2_9ce4_8422_2325;

/// The prime of the 64-bit FNV-1a hash.
const BUCKET_FACTOR: u64 = 0x100_0000_01b3;

/// The bucket of a key: the FNV-1a hash of its bytes. The place of a slot is
/// listed under the bucket of the slot's key.
spec fn bucket_of(key: Seq<u8>) -> u64
    decreases key.len(),
{
    if key.len() == 0 {
        BUCKET_START
    } else {
        (bucket_of(key.drop_last()) ^ key.last() as u64).wrapping_mul(BUCKET_FACTOR)
    }
}

/// Computes the bucket of `key`.
fn bucket(key: &[u8]) -> (b: u64)
    ensures
        b == bucket_of(key@),
{
    let mut b: u64 = BUCKET_START;
    let mut i: usize = 0;
    while i < key.len()
        invariant
            i <= key@.len(),
            b == bucket_of(key@.take(i as int)),
        decreases key@.len() - i,
    {
        proof {
            let next = key@.take(i + 1);
            assert(next.drop_last() =~= key@.take(i as int));
        }
        b = (b ^ key[i] as u64).wrapping_mul(BUCKET_FACTOR);
        i += 1;
    }
    assert(key@.take(i as int) =~= key@);
    b
}

/// Whether `places` lists place `p` in bucket `b`.
spec fn listed(places: Map<u64, Vec<usize>>, b: u64, p: usize) -> bool {
    places.contains_key(b) && places[b]@.contains(p)
}

/// Whether `places` leads to the slots: every slot is listed in the bucket of
/// its key, once, and nothing else is listed.
spec fn leads_to(places: Map<u64, Vec<usize>>, slots: Seq<Slot>) -> bool {
    &&& forall|p: usize|
        p < slots.len() ==> #[trigger] listed(places, bucket_of(slots[p as int].key@), p)
    &&& forall|b: u64, p: usize| #[trigger]
        listed(places, b, p) ==> p < slots.len() && bucket_of(slots[p as int].key@) == b
    &&& forall|b: u64| places.contains_key(b) ==> #[trigger] places[b]@.no_duplicates()
}

/// Lists place `p` in bucket `b`.
fn list_place(places: &mut HashMap<u64, Vec<usize>>, b: u64, p: usize)
    requires
        !listed(old(places)@, b, p),
        forall|c: u64| old(places)@.contains_key(c) ==> #[trigger] old(places)@[c]@.no_duplicates(),
    ensures
        forall|c: u64, q: usize| #[trigger]
            listed(final(places)@, c, q) <==> listed(old(places)@, c, q) || (c == b && q == p),
        forall|c: u64|
            final(places)@.contains_key(c) ==> #[trigger] final(places)@[c]@.no_duplicates(),
{
    let ghost before = places@;
    let mut list = match places.remove(&b) {
        Some(list) => list,
        None => Vec::new(),
    };
    let ghost old_list = list@;
    assert(old_list.no_duplicates() && !old_list.contains(p)) by {
        if before.contains_key(b) {
            assert(before[b]@.no_duplicates());
        }
    }
    list.push(p);
    assert(list@.no_duplicates()) by {
        assert forall|x: int, y: int|
            0 <= x < list@.len() && 0 <= y < list@.len() && x != y implies list@[x]
            != list@[y] by {
            if x < old_list.len() {
                assert(old_list.contains(old_list[x]));
            }
            if y < old_list.len() {
                assert(old_list.contains(old_list[y]));
            }
        }
    }
    places.insert(b, list);
    assert forall|c: u64| places@.contains_key(c) implies #[trigger] places@[c]@.no_duplicates() by {
        if c != b {
            assert(before[c]@.no_duplicates());
        }
    }
    assert forall|c: u64, q: usize| #[trigger]
        listed(places@, c, q) <==> listed(before, c, q) || (c == b && q == p) by {
        if c == b {
            if old_list.contains(q) {
                let j = old_list.index_of(q);
                assert(list@[j] == q);
            }
            if q == p {
                assert(list@[old_list.len() as int] == q);
            }
            if list@.contains(q) {
                let j = list@.index_of(q);
                if j < old_list.len() {
                    assert(old_list[j] == q);
                }
            }
        }
    }
}

/// Takes place `p` off the list of bucket `b`.
fn unlist_place(places: &mut HashMap<u64, Vec<usize>>, b: u64, p: usize)
    requires
        listed(old(places)@, b, p),
        forall|c: u64| old(places)@.contains_key(c) ==> #[trigger] old(places)@[c]@.no_duplicates(),
    ensures
        forall|c: u64, q: usize| #[trigger]
            listed(final(places)@, c, q) <==> listed(old(places)@, c, q) && !(c == b && q == p),
        forall|c: u64|
            final(places)@.contains_key(c) ==> #[trigger] final(places)@[c]@.no_duplicates(),
{
    let ghost before = places@;
    let mut list = places.remove(&b).unwrap();
    let ghost old_list = list@;
    assert(old_list.no_duplicates()) by {
        assert(before[b]@.no_duplicates());
    }
    let mut j: usize = 0;
    while j < list.len() && list[j] != p
        invariant
            list@ == old_list,
            j <= list@.len(),
            forall|k: int| 0 <= k < j ==> list@[k] != p,
        decreases list@.len() - j,
    {
        j += 1;
    }
    assert(j < list@.len()) by {
        let k = old_list.index_of(p);
        assert(old_list[k] == p);
    }
    list.swap_remove(j);
    assert forall|q: usize| list@.contains(q) <==> old_list.contains(q) && q != p by {
        if list@.contains(q) {
            let k = list@.index_of(q);
            let source = if k == j { old_list.len() - 1 } else { k };
            assert(old_list[source] == q);
            assert(old_list[j as int] == p);
            assert(source != j);
        }
        if old_list.contains(q) && q != p {
            let k = old_list.index_of(q);
            let target = if k == old_list.len() - 1 { j as int } else { k };
            assert(list@[target] == q);
        }
    }
    assert(list@.no_duplicates()) by {
        assert forall|x: int, y: int|
            0 <= x < list@.len() && 0 <= y < list@.len() && x != y implies list@[x]
            != list@[y] by {
            let source_x = if x == j { old_list.len() - 1 } else { x };
            let source_y = if y == j { old_list.len() - 1 } else { y };
            assert(list@[x] == old_list[source_x]);
            assert(list@[y] == old_list[source_y]);
        }
    }
    if list.len() > 0 {
        places.insert(b, list);
    }
    assert forall|c: u64| places@.contains_key(c) implies #[trigger] places@[c]@.no_duplicates() by {
        if c != b {
            assert(before[c]@.no_duplicates());
        }
    }
    assert forall|c: u64, q: usize| #[trigger]
        listed(places@, c, q) <==> listed(before, c, q) && !(c == b && q == p) by {
        if c == b && list@.len() == 0 {
            if old_list.contains(q) && q != p {
                assert(list@.contains(q));
                let k = list@.index_of(q);
            }
        }
    }
}

/// The place of `key` among `slots`, if it is there.
fn find(slots: &Vec<Slot>, places: &HashMap<u64, Vec<usize>>, key: &[u8]) -> (place: Option<usize>)
    requires
        leads_to(places@, slots@),
    ensures
        match place {
            Some(i) => i < slots@.len() && slots@[i as int].key@ == key@,
            None => !slot_keys(slots@).contains(key@),
        },
{
    let b = bucket(key);
    let ghost keys = slot_keys(slots@);
    match places.get(&b) {
        Some(list) => {
            let mut j: usize = 0;
            while j < list.len()
                invariant
                    j <= list@.len(),
                    leads_to(places@, slots@),
                    places@.contains_key(b),
                    places@[b] == *list,
                    forall|k: int| 0 <= k < j ==> slots@[list@[k] as int].key@ != key@,
                decreases list@.len() - j,
            {
                let p = list[j];
                assert(listed(places@, b, p));
                if same_bytes(slots[p].key.as_slice(), key) {
                    return Some(p);
                }
                j += 1;
            }
            assert(!keys.contains(key@)) by {
                if keys.contains(key@) {
                    let p = keys.index_of(key@);
                    assert(slots.len() == slots@.len());
                    let q = p as usize;
                    assert(listed(places@, bucket_of(slots@[q as int].key@), q));
                }
            }
            None
        },
        None => {
            assert(!keys.contains(key@)) by {
                if keys.contains(key@) {
                    let p = keys.index_of(key@);
                    assert(slots.len() == slots@.len());
                    let q = p as usize;
                    assert(listed(places@, bucket_of(slots@[q as int].key@), q));
                }
            }
            None
        },
    }
}

/// The unspent outputs: a finite map from outpoint keys to `UnspentValue`s.
///
/// The entries lie in `slots`, in no particular order. `places` leads to them:
/// it lists the place of each slot under the bucket of the slot's key, so that
/// a lookup compares the keys of one bucket only.
#[derive(Debug)]
pub struct UtxoIndex {
    slots: Vec<Slot>,
    places: HashMap<u64, Vec<usize>>,
}

impl View for UtxoIndex {
    type V = Map<Seq<u8>, UnspentEntry>;

    closed spec fn view(&self) -> Map<Seq<u8>, UnspentEntry> {
        slot_map(self.slots@)
    }
}

impl UtxoIndex {
    #[verifier::type_invariant]
    spec fn well_formed(self) -> bool {
        &&& slot_keys(self.slots@).no_duplicates()
        &&& leads_to(self.places@, self.slots@)
    }

    /// An index that holds nothing.
    pub fn new() -> (index: UtxoIndex)
        ensures
            index@ == Map::<Seq<u8>, UnspentEntry>::empty(),
    {
        UtxoIndex { slots: Vec::new(), places: HashMap::new() }
    }

    /// The index holds finitely many entries.
    pub proof fn lemma_finite(self)
        ensures
            self@.dom().finite(),
    {
        lemma_slot_map_dom(self.slots@);
    }

    /// The number of entries.
    pub fn len(&self) -> (count: usize)
        ensures
            self@.dom().finite(),
            count == self@.dom().len(),
    {
        proof {
            use_type_invariant(self);
            lemma_slot_map_dom(self.slots@);
            slot_keys(self.slots@).unique_seq_to_set();
        }
        self.slots.len()
    }

    /// Whether the index holds nothing.
    pub fn is_empty(&self) -> (empty: bool)
        ensures
            empty == self@.is_empty(),
    {
        proof {
            if self.slots@.len() > 0 {
                assert(slot_keys(self.slots@)[0] == self.slots@[0].key@);
                assert(self@.dom().contains(self.slots@[0].key@));
            }
        }
        self.slots.len() == 0
    }

    /// The keys under which entries stand, each of them once, in no
    /// particular order.
    pub fn keys(&self) -> (keys: Vec<Vec<u8>>)
        ensures
            keys@.map_values(|key: Vec<u8>| key@).no_duplicates(),
            keys@.map_values(|key: Vec<u8>| key@).to_set() == self@.dom(),
    {
        proof {
            use_type_invariant(self);
            lemma_slot_map_dom(self.slots@);
        }
        let mut keys: Vec<Vec<u8>> = Vec::new();
        let mut i: usize = 0;
        while i < self.slots.len()
            invariant
                i <= self.slots@.len(),
                keys@.map_values(|key: Vec<u8>| key@) == slot_keys(self.slots@).take(i as int),
            decreases self.slots@.len() - i,
        {
            keys.push(slice_to_vec(self.slots[i].key.as_slice()));
            assert(keys@.map_values(|key: Vec<u8>| key@) =~= slot_keys(self.slots@).take(
                i as int,
            ).push(slot_keys(self.slots@)[i as int]));
            i += 1;
        }
        assert(slot_keys(self.slots@).take(i as int) =~= slot_keys(self.slots@));
        keys
    }

    /// Whether an entry stands under `key`.
    pub fn contains_key(&self, key: &[u8]) -> (present: bool)
        ensures
            present == self@.contains_key(key@),
    {
        proof {
            use_type_invariant(self);
        }
        match find(&self.slots, &self.places, key) {
            Some(i) => {
                assert(slot_keys(self.slots@)[i as int] == key@);
                true
            },
            None => false,
        }
    }

    /// The entry under `key`, if there is one.
    pub fn get(&self, key: &[u8]) -> (entry: Option<&UnspentValue>)
        ensures
            match entry {
                Some(value) => self@.contains_key(key@) && value@ == self@[key@],
                None => !self@.contains_key(key@),
            },
    {
        proof {
            use_type_invariant(self);
        }
        match find(&self.slots, &self.places, key) {
            Some(i) => {
                proof {
                    lemma_slot_map_at(self.slots@, i as int);
                }
                Some(&self.slots[i].value)
            },
            None => None,
        }
    }

    /// Puts `value` under `key`, in place of what stood there, and hands back
    /// what stood there.
    pub fn insert(&mut self, key: Vec<u8>, value: UnspentValue) -> (previous: Option<UnspentValue>)
        ensures
            final(self)@ == old(self)@.insert(key@, value@),
            match previous {
                Some(before) => old(self)@.contains_key(key@) && before@ == old(self)@[key@],
                None => !old(self)@.contains_key(key@),
            },
    {
        proof {
            use_type_invariant(&*self);
        }
        let mut taken = UtxoIndex::new();
        std::mem::swap(self, &mut taken);
        let UtxoIndex { mut slots, mut places } = taken;
        let ghost before = slots@;
        let place = find(&slots, &places, key.as_slice());
        let slot = Slot { key, value };
        let previous = match place {
            Some(i) => {
                proof {
                    lemma_slot_map_at(before, i as int);
                    lemma_slot_map_update(before, i as int, slot);
                }
                let mut slot = slot;
                std::mem::swap(&mut slot, &mut slots[i]);
                Some(slot.value)
            },
            None => {
                proof {
                    lemma_slot_map_push(before, slot);
                }
                let b = bucket(slot.key.as_slice());
                let p = slots.len();
                list_place(&mut places, b, p);
                slots.push(slot);
                None
            },
        };
        *self = UtxoIndex { slots, places };
        previous
    }

    /// Takes out the entry under `key`, if there is one, and hands it back.
    pub fn remove(&mut self, key: &[u8]) -> (previous: Option<UnspentValue>)
        ensures
            final(self)@ == old(self)@.remove(key@),
            match previous {
                Some(before) => old(self)@.contains_key(key@) && before@ == old(self)@[key@],
                None => !old(self)@.contains_key(key@),
            },
    {
        proof {
            use_type_invariant(&*self);
        }
        let mut taken = UtxoIndex::new();
        std::mem::swap(self, &mut taken);
        let UtxoIndex { mut slots, mut places } = taken;
        let ghost before = slots@;
        let previous = match find(&slots, &places, key) {
            Some(i) => {
                proof {
                    lemma_slot_map_at(before, i as int);
                    lemma_slot_map_swap_remove(before, i as int);
                }
                let last = slots.len() - 1;
                unlist_place(&mut places, bucket(key), i);
                if i != last {
                    let moved = bucket(slots[last].key.as_slice());
                    unlist_place(&mut places, moved, last);
                    list_place(&mut places, moved, i);
                }
                let slot = slots.swap_remove(i);
                Some(slot.value)
            },
            None => None,
        };
        *self = UtxoIndex { slots, places };
        previous
    }
}

} // verus!
