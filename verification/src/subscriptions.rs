//! The bookkeeping of the task that consumes records for partition
//! subscribers: which partitions have a subscriber, whether a seek can be
//! made for a partition, and whether a batch of its records has somewhere
//! to go.

use vstd::prelude::*;
use vstd::string::StringExecFns;

use crate::offsets_topic::lemma_contains_push;
use crate::routing::partition_keys;
use crate::text::{compare_str, decimal, format_i64, Cmp};

verus! {

/// The partitions (topic, partition) that have a subscriber.
pub struct Subscriptions {
    partitions: Vec<(String, i32)>,
}

impl View for Subscriptions {
    type V = Set<(Seq<char>, i32)>;

    closed spec fn view(&self) -> Set<(Seq<char>, i32)> {
        partition_keys(self.partitions@).to_set()
    }
}

/// The answer to a seek of a partition without a subscriber.
pub open spec fn no_subscriber_text(topic: Seq<char>, partition: i32) -> Seq<char> {
    "No subscriber for topic partition `"@ + topic + ":"@ + decimal(partition as int) + "`"@
}

impl Subscriptions {
    /// No partition has a subscriber yet.
    pub fn new() -> (r: Self)
        ensures
            r@ == Set::<(Seq<char>, i32)>::empty(),
    {
        let r = Subscriptions { partitions: Vec::new() };
        proof {
            assert(r@ =~= Set::<(Seq<char>, i32)>::empty());
        }
        r
    }

    /// Whether (topic, partition) has a subscriber: a batch of its records
    /// is handed to it, and otherwise dropped.
    pub fn is_subscribed(&self, topic: &str, partition: i32) -> (r: bool)
        ensures
            r == self@.contains((topic@, partition)),
    {
        let ghost keys = partition_keys(self.partitions@);
        let mut i: usize = 0;
        while i < self.partitions.len()
            invariant
                i <= self.partitions@.len(),
                keys == partition_keys(self.partitions@),
                forall|j: int| 0 <= j < i ==> #[trigger] keys[j] != (topic@, partition),
            decreases self.partitions@.len() - i,
        {
            if self.partitions[i].1 == partition && compare_str(self.partitions[i].0.as_str(), topic) == Cmp::Equal {
                proof {
                    assert(keys[i as int] == (topic@, partition));
                    assert(keys.contains((topic@, partition)));
                }
                return true;
            }
            i = i + 1;
        }
        proof {
            if keys.contains((topic@, partition)) {
                let j = choose|j: int| 0 <= j < keys.len() && keys[j] == (topic@, partition);
                assert(keys[j] != (topic@, partition));
            }
        }
        false
    }

    /// A subscriber took the records of (topic, partition), once the
    /// partition was assigned.
    pub fn subscribe(&mut self, topic: String, partition: i32)
        ensures
            final(self)@ == old(self)@.insert((topic@, partition)),
    {
        let ghost before = partition_keys(self.partitions@);
        let ghost key = (topic@, partition);
        self.partitions.push((topic, partition));
        proof {
            assert(partition_keys(self.partitions@) =~= before.push(key));
            lemma_contains_push(before, key);
            assert(before.push(key).to_set() =~= before.to_set().insert(key));
        }
    }

    /// The subscriber of (topic, partition) is gone.
    pub fn unsubscribe(&mut self, topic: &str, partition: i32)
        ensures
            final(self)@ == old(self)@.remove((topic@, partition)),
    {
        let ghost before = partition_keys(self.partitions@);
        let ghost key = (topic@, partition);
        let mut kept: Vec<(String, i32)> = Vec::new();
        let mut i: usize = 0;
        while i < self.partitions.len()
            invariant
                i <= self.partitions@.len(),
                before == partition_keys(self.partitions@),
                key == (topic@, partition),
                forall|k: (Seq<char>, i32)|
                    #[trigger] partition_keys(kept@).contains(k) <==> (before.take(i as int).contains(k) && k != key),
            decreases self.partitions@.len() - i,
        {
            let ghost kv = partition_keys(kept@);
            let ghost b = before.take(i as int);
            proof {
                assert(before.take(i + 1) =~= b.push(before[i as int]));
                lemma_contains_push(b, before[i as int]);
            }
            if !(self.partitions[i].1 == partition && compare_str(self.partitions[i].0.as_str(), topic)
                == Cmp::Equal) {
                kept.push((self.partitions[i].0.clone(), self.partitions[i].1));
                proof {
                    assert(partition_keys(kept@) =~= kv.push(before[i as int]));
                    lemma_contains_push(kv, before[i as int]);
                }
            }
            i = i + 1;
        }
        proof {
            assert(before.take(i as int) =~= before);
            assert(partition_keys(kept@).to_set() =~= before.to_set().remove(key));
        }
        self.partitions = kept;
    }

    /// A consumer error ends every subscription.
    pub fn clear(&mut self)
        ensures
            final(self)@ == Set::<(Seq<char>, i32)>::empty(),
    {
        self.partitions = Vec::new();
        proof {
            assert(self@ =~= Set::<(Seq<char>, i32)>::empty());
        }
    }

    /// Whether a seek of (topic, partition) can be made: only for a
    /// partition with a subscriber, and otherwise the answer why not.
    pub fn check_seek(&self, topic: &str, partition: i32) -> (r: Result<(), String>)
        ensures
            r is Ok <==> self@.contains((topic@, partition)),
            r matches Err(m) ==> m@ == no_subscriber_text(topic@, partition),
    {
        if self.is_subscribed(topic, partition) {
            Ok(())
        } else {
            let mut m = String::from_str("No subscriber for topic partition `");
            m.append(topic);
            m.append(":");
            m.append(format_i64(partition as i64).as_str());
            m.append("`");
            Err(m)
        }
    }
}

} // verus!
