//! The routing of records consumed together to the consumers of their
//! partitions: records are ordered by topic, keeping the order of records
//! of one topic, and consecutive records of one partition form a batch.

use vstd::prelude::*;

use crate::message::ConsumedMessage;
use crate::text::{compare_str, lemma_str_order, str_lt, Cmp};

verus! {

/// `s` with `x` inserted after the last record whose topic is not greater
/// than the topic of `x`, searching from the end.
pub open spec fn insert_by_topic(s: Seq<ConsumedMessage>, x: ConsumedMessage) -> Seq<ConsumedMessage>
    decreases s.len(),
{
    if s.len() == 0 {
        seq![x]
    } else if str_lt(x.topic@, s.last().topic@) {
        insert_by_topic(s.drop_last(), x).push(s.last())
    } else {
        s.push(x)
    }
}

/// The records in a stable order by topic: records of one topic keep their
/// order.
pub open spec fn sort_by_topic(s: Seq<ConsumedMessage>) -> Seq<ConsumedMessage>
    decreases s.len(),
{
    if s.len() == 0 {
        Seq::empty()
    } else {
        insert_by_topic(sort_by_topic(s.drop_last()), s.last())
    }
}

/// The partition of a record: (topic, partition).
pub open spec fn partition_key(m: ConsumedMessage) -> (Seq<char>, i32) {
    (m.topic@, m.partition)
}

/// The runs of consecutive records of one partition, each with its partition.
pub open spec fn chunk_by_partition(s: Seq<ConsumedMessage>) -> Seq<((Seq<char>, i32), Seq<ConsumedMessage>)>
    decreases s.len(),
{
    if s.len() == 0 {
        Seq::empty()
    } else {
        let c = chunk_by_partition(s.drop_last());
        let x = s.last();
        if c.len() > 0 && c.last().0 == partition_key(x) {
            c.update(c.len() - 1, (partition_key(x), c.last().1.push(x)))
        } else {
            c.push((partition_key(x), seq![x]))
        }
    }
}

/// A batch of records of one partition: topic, partition and records.
pub type Batch = (String, i32, Vec<ConsumedMessage>);

pub open spec fn batches_view(b: Seq<Batch>) -> Seq<((Seq<char>, i32), Seq<ConsumedMessage>)> {
    b.map_values(|x: Batch| ((x.0@, x.1), x.2@))
}

proof fn lemma_insert_at(s: Seq<ConsumedMessage>, x: ConsumedMessage, j: int)
    requires
        0 <= j <= s.len(),
        forall|i: int| j <= i < s.len() ==> str_lt(x.topic@, #[trigger] s[i].topic@),
        j > 0 ==> !str_lt(x.topic@, s[j - 1].topic@),
    ensures
        insert_by_topic(s, x) == s.take(j).push(x) + s.skip(j),
    decreases s.len(),
{
    if s.len() == j {
        assert(s.skip(j) =~= Seq::<ConsumedMessage>::empty());
        assert(s.take(j) =~= s);
        if j == 0 {
            assert(s.take(0).push(x) =~= seq![x]);
        }
        assert(s.take(j).push(x) + s.skip(j) =~= s.push(x));
    } else {
        let t = s.drop_last();
        assert forall|i: int| j <= i < t.len() implies str_lt(x.topic@, #[trigger] t[i].topic@) by {
            assert(t[i] == s[i]);
        }
        if j > 0 {
            assert(t[j - 1] == s[j - 1]);
        }
        lemma_insert_at(t, x, j);
        assert(str_lt(x.topic@, s.last().topic@));
        assert(t.take(j) =~= s.take(j));
        assert(t.skip(j).push(s.last()) =~= s.skip(j));
        assert((t.take(j).push(x) + t.skip(j)).push(s.last()) =~= s.take(j).push(x) + s.skip(j));
    }
}

/// The records in a stable order by topic.
pub fn sort_records_by_topic(records: Vec<ConsumedMessage>) -> (r: Vec<ConsumedMessage>)
    ensures
        r@ == sort_by_topic(records@),
{
    let ghost input = records@;
    proof {
        assert(input.len() == records.len());
    }
    let mut rest = records;
    let mut sorted: Vec<ConsumedMessage> = Vec::new();
    let mut n: usize = 0;
    proof {
        assert(input.take(0) =~= Seq::<ConsumedMessage>::empty());
        assert(input.skip(0) =~= input);
    }
    while rest.len() > 0
        invariant
            n <= input.len() <= usize::MAX,
            rest@.len() == input.len() - n,
            rest@ == input.skip(n as int),
            sorted@ == sort_by_topic(input.take(n as int)),
        decreases rest@.len(),
    {
        let x = rest.remove(0);
        proof {
            assert(x == input[n as int]);
            assert(rest@ =~= input.skip(n + 1));
            assert(input.take(n + 1).drop_last() =~= input.take(n as int));
            assert(input.take(n + 1).last() == x);
        }
        let mut j: usize = sorted.len();
        while j > 0 && compare_str(x.topic.as_str(), sorted[j - 1].topic.as_str()) == Cmp::Less
            invariant
                j <= sorted@.len(),
                forall|i: int| j <= i < sorted@.len() ==> str_lt(x.topic@, #[trigger] sorted@[i].topic@),
            decreases j,
        {
            j = j - 1;
        }
        proof {
            lemma_insert_at(sorted@, x, j as int);
        }
        let ghost before = sorted@;
        sorted.insert(j, x);
        proof {
            assert(sorted@ =~= before.take(j as int).push(x) + before.skip(j as int));
        }
        n = n + 1;
    }
    proof {
        assert(input.take(n as int) =~= input);
    }
    sorted
}

/// The runs of consecutive records of one partition.
pub fn chunk_records_by_partition(records: Vec<ConsumedMessage>) -> (r: Vec<Batch>)
    ensures
        batches_view(r@) == chunk_by_partition(records@),
{
    let ghost input = records@;
    proof {
        assert(input.len() == records.len());
    }
    let mut rest = records;
    let mut batches: Vec<Batch> = Vec::new();
    let mut n: usize = 0;
    proof {
        assert(input.take(0) =~= Seq::<ConsumedMessage>::empty());
        assert(input.skip(0) =~= input);
        assert(batches_view(batches@) =~= Seq::empty());
    }
    while rest.len() > 0
        invariant
            n <= input.len() <= usize::MAX,
            rest@.len() == input.len() - n,
            rest@ == input.skip(n as int),
            batches_view(batches@) == chunk_by_partition(input.take(n as int)),
        decreases rest@.len(),
    {
        let x = rest.remove(0);
        proof {
            assert(x == input[n as int]);
            assert(rest@ =~= input.skip(n + 1));
            assert(input.take(n + 1).drop_last() =~= input.take(n as int));
            assert(input.take(n + 1).last() == x);
        }
        let ghost c = batches_view(batches@);
        let k = batches.len();
        let same = k > 0 && batches[k - 1].1 == x.partition && compare_str(
            batches[k - 1].0.as_str(),
            x.topic.as_str(),
        ) == Cmp::Equal;
        if same {
            let (t, p, mut run) = batches.pop().unwrap();
            let ghost old_run = run@;
            run.push(x);
            batches.push((t, p, run));
            proof {
                assert(c.last() == ((t@, p), old_run));
                assert(batches_view(batches@) =~= c.update(c.len() - 1, (partition_key(x), c.last().1.push(x))));
            }
        } else {
            let t = x.topic.clone();
            let p = x.partition;
            let mut run: Vec<ConsumedMessage> = Vec::new();
            run.push(x);
            proof {
                if k > 0 {
                    assert(c.last().0 == (batches@[k - 1].0@, batches@[k - 1].1));
                }
                assert(run@ =~= seq![x]);
            }
            batches.push((t, p, run));
            proof {
                assert(batches_view(batches@) =~= c.push((partition_key(x), seq![x])));
            }
        }
        n = n + 1;
    }
    proof {
        assert(input.take(n as int) =~= input);
    }
    batches
}

/// The batches of records consumed together: ordered by topic, keeping the
/// order of the records of each topic, consecutive records of one partition
/// in one batch.
pub fn batch_by_partition(records: Vec<ConsumedMessage>) -> (r: Vec<Batch>)
    ensures
        batches_view(r@) == chunk_by_partition(sort_by_topic(records@)),
{
    let sorted = sort_records_by_topic(records);
    chunk_records_by_partition(sorted)
}

/// Whether a record is of partition `k`.
pub open spec fn of_partition(k: (Seq<char>, i32)) -> spec_fn(ConsumedMessage) -> bool {
    |m: ConsumedMessage| partition_key(m) == k
}

/// The records of the batches of partition `k`, batch after batch.
pub open spec fn records_for(c: Seq<((Seq<char>, i32), Seq<ConsumedMessage>)>, k: (Seq<char>, i32)) -> Seq<ConsumedMessage>
    decreases c.len(),
{
    if c.len() == 0 {
        Seq::empty()
    } else {
        records_for(c.drop_last(), k) + if c.last().0 == k {
            c.last().1
        } else {
            Seq::empty()
        }
    }
}

proof fn lemma_filter_push(s: Seq<ConsumedMessage>, x: ConsumedMessage, k: (Seq<char>, i32))
    ensures
        s.push(x).filter(of_partition(k)) == if partition_key(x) == k {
            s.filter(of_partition(k)).push(x)
        } else {
            s.filter(of_partition(k))
        },
{
    reveal_with_fuel(Seq::<_>::filter, 1);
    assert(s.push(x).drop_last() =~= s);
}

proof fn lemma_insert_keeps_partition_order(s: Seq<ConsumedMessage>, x: ConsumedMessage, k: (Seq<char>, i32))
    ensures
        insert_by_topic(s, x).filter(of_partition(k)) == if partition_key(x) == k {
            s.filter(of_partition(k)).push(x)
        } else {
            s.filter(of_partition(k))
        },
    decreases s.len(),
{
    reveal_with_fuel(Seq::<_>::filter, 1);
    if s.len() == 0 {
        lemma_filter_push(s, x, k);
        assert(seq![x] =~= s.push(x));
    } else if str_lt(x.topic@, s.last().topic@) {
        let t = s.drop_last();
        lemma_insert_keeps_partition_order(t, x, k);
        lemma_filter_push(insert_by_topic(t, x), s.last(), k);
        lemma_filter_push(t, s.last(), k);
        assert(t.push(s.last()) =~= s);
        lemma_str_order(x.topic@, s.last().topic@, x.topic@);
        if partition_key(x) == k {
            assert(partition_key(s.last()) != k);
        }
    } else {
        lemma_filter_push(s, x, k);
    }
}

proof fn lemma_sort_keeps_partition_order(s: Seq<ConsumedMessage>, k: (Seq<char>, i32))
    ensures
        sort_by_topic(s).filter(of_partition(k)) == s.filter(of_partition(k)),
    decreases s.len(),
{
    reveal_with_fuel(Seq::<_>::filter, 1);
    if s.len() > 0 {
        lemma_sort_keeps_partition_order(s.drop_last(), k);
        lemma_insert_keeps_partition_order(sort_by_topic(s.drop_last()), s.last(), k);
        lemma_filter_push(s.drop_last(), s.last(), k);
        assert(s.drop_last().push(s.last()) =~= s);
    }
}

proof fn lemma_chunk_records(s: Seq<ConsumedMessage>, k: (Seq<char>, i32))
    ensures
        records_for(chunk_by_partition(s), k) == s.filter(of_partition(k)),
        forall|i: int| 0 <= i < chunk_by_partition(s).len() ==> (#[trigger] chunk_by_partition(s)[i]).1.len() > 0,
        forall|i: int, j: int| 0 <= i < chunk_by_partition(s).len() && 0 <= j < chunk_by_partition(s)[i].1.len()
            ==> partition_key(#[trigger] chunk_by_partition(s)[i].1[j]) == chunk_by_partition(s)[i].0,
    decreases s.len(),
{
    reveal_with_fuel(Seq::<_>::filter, 1);
    if s.len() > 0 {
        let t = s.drop_last();
        let x = s.last();
        let c = chunk_by_partition(t);
        lemma_chunk_records(t, k);
        lemma_filter_push(t, x, k);
        assert(t.push(x) =~= s);
        let r = chunk_by_partition(s);
        if c.len() > 0 && c.last().0 == partition_key(x) {
            let e = (partition_key(x), c.last().1.push(x));
            assert(r == c.update(c.len() - 1, e));
            assert(r.drop_last() =~= c.drop_last());
            assert(r.last() == e);
            if c.last().0 == k {
                assert(records_for(c, k) == records_for(c.drop_last(), k) + c.last().1);
                assert(records_for(r, k) =~= records_for(c, k).push(x));
            } else {
                assert(records_for(r, k) =~= records_for(c, k));
            }
            assert forall|i: int, j: int| 0 <= i < r.len() && 0 <= j < r[i].1.len()
                implies partition_key(#[trigger] r[i].1[j]) == r[i].0 by {
                if i == r.len() - 1 {
                    if j < c.last().1.len() {
                        assert(r[i].1[j] == c[i].1[j]);
                    }
                } else {
                    assert(r[i] == c[i]);
                }
            }
        } else {
            let e = (partition_key(x), seq![x]);
            assert(r == c.push(e));
            assert(r.drop_last() =~= c);
            if partition_key(x) == k {
                assert(records_for(r, k) =~= records_for(c, k).push(x));
            } else {
                assert(records_for(r, k) =~= records_for(c, k));
            }
            assert forall|i: int, j: int| 0 <= i < r.len() && 0 <= j < r[i].1.len()
                implies partition_key(#[trigger] r[i].1[j]) == r[i].0 by {
                if i < c.len() {
                    assert(r[i] == c[i]);
                }
            }
        }
    }
}

/// Batching hands each partition its records in the order they were
/// consumed: the records of the batches of a partition, batch after batch,
/// are exactly the consumed records of that partition, in order; every
/// batch is non-empty and holds records of its own partition only.
pub proof fn law_batches_keep_partition_order(records: Seq<ConsumedMessage>, k: (Seq<char>, i32))
    ensures
        records_for(chunk_by_partition(sort_by_topic(records)), k) == records.filter(of_partition(k)),
        forall|i: int| 0 <= i < chunk_by_partition(sort_by_topic(records)).len()
            ==> (#[trigger] chunk_by_partition(sort_by_topic(records))[i]).1.len() > 0,
        forall|i: int, j: int| 0 <= i < chunk_by_partition(sort_by_topic(records)).len()
            && 0 <= j < chunk_by_partition(sort_by_topic(records))[i].1.len()
            ==> partition_key(#[trigger] chunk_by_partition(sort_by_topic(records))[i].1[j])
                == chunk_by_partition(sort_by_topic(records))[i].0,
{
    lemma_chunk_records(sort_by_topic(records), k);
    lemma_sort_keeps_partition_order(records, k);
}

/// Whether the records are ordered by topic.
pub open spec fn sorted_by_topic(s: Seq<ConsumedMessage>) -> bool {
    forall|i: int, j: int| 0 <= i < j < s.len() ==> !str_lt(#[trigger] s[j].topic@, #[trigger] s[i].topic@)
}

proof fn lemma_insert_members(s: Seq<ConsumedMessage>, x: ConsumedMessage)
    ensures
        insert_by_topic(s, x).len() == s.len() + 1,
        forall|i: int| 0 <= i < insert_by_topic(s, x).len() ==> #[trigger] insert_by_topic(s, x)[i] == x
            || s.contains(insert_by_topic(s, x)[i]),
    decreases s.len(),
{
    if s.len() > 0 && str_lt(x.topic@, s.last().topic@) {
        let t = s.drop_last();
        lemma_insert_members(t, x);
        let r = insert_by_topic(s, x);
        assert forall|i: int| 0 <= i < r.len() implies #[trigger] r[i] == x || s.contains(r[i]) by {
            if i < r.len() - 1 {
                assert(r[i] == insert_by_topic(t, x)[i]);
                if insert_by_topic(t, x)[i] != x {
                    let k = choose|k: int| 0 <= k < t.len() && t[k] == insert_by_topic(t, x)[i];
                    assert(s[k] == t[k]);
                }
            } else {
                assert(s[s.len() - 1] == r[i]);
            }
        }
    } else if s.len() > 0 {
        let r = s.push(x);
        assert forall|i: int| 0 <= i < r.len() implies #[trigger] r[i] == x || s.contains(r[i]) by {
            if i < s.len() {
                assert(s[i] == r[i]);
            }
        }
    }
}

proof fn lemma_insert_sorted(s: Seq<ConsumedMessage>, x: ConsumedMessage)
    requires
        sorted_by_topic(s),
    ensures
        sorted_by_topic(insert_by_topic(s, x)),
    decreases s.len(),
{
    if s.len() == 0 {
    } else if str_lt(x.topic@, s.last().topic@) {
        let t = s.drop_last();
        lemma_insert_sorted(t, x);
        lemma_insert_members(t, x);
        let u = insert_by_topic(t, x);
        let r = u.push(s.last());
        assert forall|i: int, j: int| 0 <= i < j < r.len() implies !str_lt(#[trigger] r[j].topic@, #[trigger] r[i].topic@) by {
            if j == r.len() - 1 {
                assert(r[j] == s.last());
                assert(r[i] == u[i]);
                if u[i] == x {
                    lemma_str_order(x.topic@, s.last().topic@, x.topic@);
                } else {
                    let k = choose|k: int| 0 <= k < t.len() && t[k] == u[i];
                    assert(s[k] == t[k]);
                    assert(!str_lt(s[s.len() - 1].topic@, s[k].topic@));
                }
            } else {
                assert(r[i] == u[i]);
                assert(r[j] == u[j]);
            }
        }
    } else {
        let r = s.push(x);
        assert forall|i: int, j: int| 0 <= i < j < r.len() implies !str_lt(#[trigger] r[j].topic@, #[trigger] r[i].topic@) by {
            if j == r.len() - 1 {
                assert(r[i] == s[i]);
                if i < s.len() - 1 {
                    assert(!str_lt(s[s.len() - 1].topic@, s[i].topic@));
                    lemma_str_order(x.topic@, s[s.len() - 1].topic@, s[i].topic@);
                    lemma_str_order(s[i].topic@, s[s.len() - 1].topic@, x.topic@);
                    lemma_str_order(s[s.len() - 1].topic@, x.topic@, s[i].topic@);
                    lemma_str_order(x.topic@, s[i].topic@, s[s.len() - 1].topic@);
                }
            } else {
                assert(r[i] == s[i]);
                assert(r[j] == s[j]);
            }
        }
    }
}

/// The stable order by topic is an order by topic.
pub proof fn law_sort_by_topic_is_sorted(records: Seq<ConsumedMessage>)
    ensures
        sorted_by_topic(sort_by_topic(records)),
        sort_by_topic(records).len() == records.len(),
    decreases records.len(),
{
    if records.len() > 0 {
        law_sort_by_topic_is_sorted(records.drop_last());
        lemma_insert_sorted(sort_by_topic(records.drop_last()), records.last());
        lemma_insert_members(sort_by_topic(records.drop_last()), records.last());
    }
}

/// The partitions (topic, partition) of the given pairs.
pub open spec fn partition_keys(s: Seq<(String, i32)>) -> Seq<(Seq<char>, i32)> {
    s.map_values(|e: (String, i32)| (e.0@, e.1))
}

/// Whether a polled record of (topic, partition) is still to be handled:
/// not once its partition was seeked to another offset in this round, since
/// the records polled with it come from before the seek.
pub fn still_current(seeked: &Vec<(String, i32)>, topic: &str, partition: i32) -> (r: bool)
    ensures
        r == !partition_keys(seeked@).contains((topic@, partition)),
{
    let ghost keys = partition_keys(seeked@);
    let mut i: usize = 0;
    while i < seeked.len()
        invariant
            i <= seeked@.len(),
            keys == partition_keys(seeked@),
            forall|j: int| 0 <= j < i ==> #[trigger] keys[j] != (topic@, partition),
        decreases seeked@.len() - i,
    {
        if seeked[i].1 == partition && compare_str(seeked[i].0.as_str(), topic) == Cmp::Equal {
            proof {
                assert(keys[i as int] == (topic@, partition));
            }
            return false;
        }
        i = i + 1;
    }
    proof {
        if keys.contains((topic@, partition)) {
            let j = choose|j: int| 0 <= j < keys.len() && keys[j] == (topic@, partition);
            assert(keys[j] != (topic@, partition));
        }
    }
    true
}

} // verus!
