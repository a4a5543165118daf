//! A map keyed by replicas.
use crate::crypto::PublicKey;
use vstd::prelude::*;

verus! {

/// What a map holds for one replica.
#[derive(Debug)]
pub struct ReplicaEntry<V> {
    pub replica: PublicKey,
    pub value: V,
}

/// A map from replicas to values, each replica at most once.
#[derive(Debug)]
pub struct ReplicaMap<V> {
    entries: Vec<ReplicaEntry<V>>,
}

/// Whether no replica occurs twice.
spec fn distinct<V>(entries: Seq<ReplicaEntry<V>>) -> bool {
    forall|i: int, j: int|
        0 <= i < j < entries.len() ==> entries[i].replica != entries[j].replica
}

/// The replicas of a list of entries, in its order.
spec fn replicas_of<V>(entries: Seq<ReplicaEntry<V>>) -> Seq<PublicKey> {
    entries.map_values(|e: ReplicaEntry<V>| e.replica)
}

/// The map that a list of entries stands for.
spec fn map_of<V>(entries: Seq<ReplicaEntry<V>>) -> Map<PublicKey, V>
    decreases entries.len(),
{
    if entries.len() == 0 {
        Map::empty()
    } else {
        map_of(entries.drop_last()).insert(entries.last().replica, entries.last().value)
    }
}

proof fn lemma_map_of<V>(entries: Seq<ReplicaEntry<V>>)
    requires
        distinct(entries),
    ensures
        forall|i: int|
            0 <= i < entries.len() ==> #[trigger] map_of(entries).contains_key(entries[i].replica)
                && map_of(entries)[entries[i].replica] == entries[i].value,
        forall|k: PublicKey| #[trigger]
            map_of(entries).contains_key(k) ==> exists|i: int|
                0 <= i < entries.len() && entries[i].replica == k,
        map_of(entries).dom().finite(),
        map_of(entries).dom().len() == entries.len(),
    decreases entries.len(),
{
    if entries.len() > 0 {
        let rest = entries.drop_last();
        lemma_map_of(rest);
        assert(!map_of(rest).contains_key(entries.last().replica));
        assert forall|k: PublicKey| #[trigger] map_of(entries).contains_key(k) implies exists|i: int|
            0 <= i < entries.len() && entries[i].replica == k by {
            if k == entries.last().replica {
                assert(entries[entries.len() - 1].replica == k);
            } else {
                let i = choose|i: int| 0 <= i < rest.len() && rest[i].replica == k;
                assert(entries[i].replica == k);
            }
        }
        assert forall|i: int| 0 <= i < entries.len() implies #[trigger] map_of(
            entries,
        ).contains_key(entries[i].replica) && map_of(entries)[entries[i].replica]
            == entries[i].value by {
            if i < rest.len() {
                assert(rest[i] == entries[i]);
                assert(map_of(rest).contains_key(rest[i].replica));
            }
        }
        assert(map_of(entries).dom() =~= map_of(rest).dom().insert(entries.last().replica));
    }
}

impl<V> View for ReplicaMap<V> {
    type V = Map<PublicKey, V>;

    closed spec fn view(&self) -> Map<PublicKey, V> {
        map_of(self.entries@)
    }
}

impl<V> ReplicaMap<V> {
    #[verifier::type_invariant]
    spec fn well_formed(self) -> bool {
        distinct(self.entries@)
    }
}

impl<V: Copy> ReplicaMap<V> {
    /// The empty map.
    pub fn new() -> (map: Self)
        ensures
            map@ == Map::<PublicKey, V>::empty(),
    {
        ReplicaMap { entries: Vec::new() }
    }

    /// The number of replicas in the map.
    pub fn len(&self) -> (n: usize)
        ensures
            self@.dom().finite(),
            n == self@.dom().len(),
    {
        proof {
            use_type_invariant(self);
            lemma_map_of(self.entries@);
        }
        self.entries.len()
    }

    /// The position of a replica, or the number of entries where it has none.
    fn position(&self, replica: &PublicKey) -> (i: usize)
        ensures
            i <= self.entries@.len(),
            i < self.entries@.len() ==> self.entries@[i as int].replica == *replica,
            i == self.entries@.len() ==> forall|j: int|
                0 <= j < self.entries@.len() ==> self.entries@[j].replica != *replica,
    {
        let mut i: usize = 0;
        while i < self.entries.len()
            invariant
                i <= self.entries@.len(),
                forall|j: int| 0 <= j < i ==> self.entries@[j].replica != *replica,
            decreases self.entries@.len() - i,
        {
            if self.entries[i].replica == *replica {
                return i;
            }
            i = i + 1;
        }
        i
    }

    /// What the map holds for a replica.
    pub fn get(&self, replica: &PublicKey) -> (value: Option<V>)
        ensures
            value == (if self@.contains_key(*replica) {
                Some(self@[*replica])
            } else {
                None
            }),
    {
        proof {
            use_type_invariant(self);
            lemma_map_of(self.entries@);
        }
        let i: usize = self.position(replica);
        if i < self.entries.len() {
            Some(self.entries[i].value)
        } else {
            None
        }
    }

    /// Sets what the map holds for a replica.
    pub fn insert(&mut self, replica: PublicKey, value: V)
        ensures
            final(self)@ == old(self)@.insert(replica, value),
    {
        proof {
            use_type_invariant(&*self);
            lemma_map_of(self.entries@);
        }
        let i: usize = self.position(&replica);
        let mut entries: Vec<ReplicaEntry<V>> = Vec::new();
        std::mem::swap(&mut entries, &mut self.entries);
        let ghost before = entries@;
        let entry: ReplicaEntry<V> = ReplicaEntry { replica, value };
        if i < entries.len() {
            entries.set(i, entry);
        } else {
            entries.push(entry);
        }
        proof {
            lemma_map_of(entries@);
            assert forall|k: PublicKey| map_of(entries@).contains_key(k) <==> map_of(
                before,
            ).insert(replica, value).contains_key(k) by {
                if map_of(before).contains_key(k) {
                    let j = choose|j: int| 0 <= j < before.len() && before[j].replica == k;
                    assert(entries@[j].replica == k);
                    assert(map_of(entries@).contains_key(entries@[j].replica));
                }
                assert(entries@[i as int].replica == replica);
                assert(map_of(entries@).contains_key(entries@[i as int].replica));
                if map_of(entries@).contains_key(k) {
                    let j = choose|j: int| 0 <= j < entries@.len() && entries@[j].replica == k;
                    if j < before.len() && j != i {
                        assert(map_of(before).contains_key(before[j].replica));
                    }
                }
            }
            assert forall|k: PublicKey| map_of(entries@).contains_key(k) implies map_of(entries@)[k]
                == map_of(before).insert(replica, value)[k] by {
                let j = choose|j: int| 0 <= j < entries@.len() && entries@[j].replica == k;
                assert(map_of(entries@).contains_key(entries@[j].replica));
                if k == replica {
                    assert(entries@[i as int].replica == replica);
                    assert(map_of(entries@).contains_key(entries@[i as int].replica));
                } else {
                    assert(map_of(before).contains_key(before[j].replica));
                }
            }
            assert(map_of(entries@) =~= map_of(before).insert(replica, value));
        }
        self.entries = entries;
    }

    /// The replicas in the map, each once.
    pub fn replicas(&self) -> (replicas: Vec<PublicKey>)
        ensures
            replicas@.no_duplicates(),
            forall|k: PublicKey| replicas@.contains(k) <==> self@.contains_key(k),
    {
        proof {
            use_type_invariant(self);
            lemma_map_of(self.entries@);
        }
        let mut replicas: Vec<PublicKey> = Vec::new();
        let mut i: usize = 0;
        while i < self.entries.len()
            invariant
                i <= self.entries@.len(),
                replicas@ == replicas_of(self.entries@).take(i as int),
            decreases self.entries@.len() - i,
        {
            replicas.push(self.entries[i].replica);
            i = i + 1;
        }
        proof {
            assert(replicas@ =~= replicas_of(self.entries@));
            assert forall|k: PublicKey| replicas@.contains(k) <==> self@.contains_key(k) by {
                if replicas@.contains(k) {
                    let j = choose|j: int| 0 <= j < replicas@.len() && replicas@[j] == k;
                    assert(self@.contains_key(self.entries@[j].replica));
                }
                if self@.contains_key(k) {
                    let j = choose|j: int|
                        0 <= j < self.entries@.len() && self.entries@[j].replica == k;
                    assert(replicas@[j] == k);
                }
            }
        }
        replicas
    }
}

impl<V: Copy> Clone for ReplicaMap<V> {
    fn clone(&self) -> (copy: Self)
        ensures
            copy@ == self@,
    {
        proof {
            use_type_invariant(self);
        }
        let mut entries: Vec<ReplicaEntry<V>> = Vec::new();
        let mut i: usize = 0;
        while i < self.entries.len()
            invariant
                i <= self.entries@.len(),
                entries@ == self.entries@.take(i as int),
            decreases self.entries@.len() - i,
        {
            let entry: ReplicaEntry<V> = ReplicaEntry {
                replica: self.entries[i].replica,
                value: self.entries[i].value,
            };
            entries.push(entry);
            i = i + 1;
        }
        assert(entries@ =~= self.entries@);
        ReplicaMap { entries }
    }
}

} // verus!
