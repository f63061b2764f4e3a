//! The statistics of many keys, and the merge of two such aggregates.

use vstd::prelude::*;
use vstd::slice::slice_to_vec;
use ahash::AHashMap;
use crate::error::Error;
use crate::stat::Stat;
use crate::stat::StatModel;
use crate::table::Entry;
use crate::table::table_entries;
use crate::table::table_get;
use crate::table::table_insert;
use crate::table::table_into_entries;
use crate::table::table_new;
use crate::table::table_set;

verus! {

/// What an `Aggregate` stands for: the statistics of each key seen.
pub type AggregateModel = Map<Seq<u8>, StatModel>;

/// The statistics of the values of both maps together: keys of one map keep
/// their statistics, keys of both get the merge of the two.
pub open spec fn merge_maps(a: AggregateModel, b: AggregateModel) -> AggregateModel {
    Map::new(
        |k: Seq<u8>| a.contains_key(k) || b.contains_key(k),
        |k: Seq<u8>|
            if a.contains_key(k) && b.contains_key(k) {
                a[k].merge(b[k])
            } else if a.contains_key(k) {
                a[k]
            } else {
                b[k]
            },
    )
}

/// The map with the statistics `stat` merged in under `key`.
pub open spec fn merge_entry(m: AggregateModel, key: Seq<u8>, stat: StatModel) -> AggregateModel {
    if m.contains_key(key) {
        m.insert(key, m[key].merge(stat))
    } else {
        m.insert(key, stat)
    }
}

/// The map with one more value seen for `key`.
pub open spec fn observe_map(m: AggregateModel, key: Seq<u8>, value: int) -> AggregateModel {
    merge_entry(m, key, StatModel::of(value))
}

/// Whether some key of both maps has counts that together exceed a `u64`.
pub open spec fn counts_overflow(a: AggregateModel, b: AggregateModel) -> bool {
    exists|k: Seq<u8>|
        a.contains_key(k) && b.contains_key(k) && (#[trigger] a[k]).count + b[k].count > u64::MAX
}

/// The views of the statistics of a table.
pub open spec fn stat_views(entries: Map<Seq<u8>, Stat>) -> AggregateModel {
    Map::new(|k: Seq<u8>| entries.contains_key(k), |k: Seq<u8>| entries[k]@)
}

/// The statistics of every key seen so far.
pub struct Aggregate {
    table: AHashMap<Vec<u8>, Stat>,
}

impl View for Aggregate {
    type V = AggregateModel;

    closed spec fn view(&self) -> AggregateModel {
        stat_views(table_entries(self.table))
    }
}

impl Aggregate {
    /// An aggregate that has seen nothing.
    pub fn new() -> (made: Aggregate)
        ensures
            made@ == AggregateModel::empty(),
    {
        let made = Aggregate { table: table_new() };
        proof {
            assert(made@ =~= AggregateModel::empty());
        }
        made
    }

    /// The statistics of `key`, if it was seen.
    pub fn get(&self, key: &[u8]) -> (found: Option<Stat>)
        ensures
            found is Some <==> self@.contains_key(key@),
            found matches Some(stat) ==> stat@ == self@[key@] && stat@.wf(),
    {
        let found = table_get(&self.table, key);
        proof {
            if let Some(stat) = found {
                use_type_invariant(stat);
            }
        }
        found
    }

    /// Merges the statistics `stat` in under `key`. Fails, and changes
    /// nothing, when the key's count and that of `stat` together exceed a
    /// `u64`.
    pub fn merge_stat(&mut self, key: &[u8], stat: Stat) -> (done: Result<(), Error>)
        ensures
            done is Err <==> old(self)@.contains_key(key@) && old(self)@[key@].count + stat@.count
                > u64::MAX,
            done is Ok ==> final(self)@ == merge_entry(old(self)@, key@, stat@),
            done matches Err(e) ==> e == Error::CountOverflow && final(self)@ == old(self)@,
    {
        match table_get(&self.table, key) {
            Some(held) => {
                match held.merge(stat) {
                    Some(merged) => {
                        table_set(&mut self.table, key, merged);
                        proof {
                            assert(final(self)@ =~= merge_entry(old(self)@, key@, stat@));
                        }
                        Ok(())
                    },
                    None => Err(Error::CountOverflow),
                }
            },
            None => {
                table_insert(&mut self.table, slice_to_vec(key), stat);
                proof {
                    assert(final(self)@ =~= merge_entry(old(self)@, key@, stat@));
                }
                Ok(())
            },
        }
    }

    /// Takes one more value for `key`. Fails, and changes nothing, when the
    /// key's count is at the limit of a `u64`.
    pub fn observe(&mut self, key: &[u8], value: i64) -> (done: Result<(), Error>)
        ensures
            done is Err <==> old(self)@.contains_key(key@) && old(self)@[key@].count >= u64::MAX,
            done is Ok ==> final(self)@ == observe_map(old(self)@, key@, value as int),
            done matches Err(e) ==> e == Error::CountOverflow && final(self)@ == old(self)@,
    {
        self.merge_stat(key, Stat::new(value))
    }

    /// The keys with their statistics, each once, in no particular order.
    pub fn into_entries(self) -> (listed: Vec<Entry>)
        ensures
            lists_model(listed@, self@),
    {
        table_into_entries(self.table)
    }

    /// Folds `other` into this aggregate. Fails, and changes nothing, when
    /// the counts of some common key together exceed a `u64`.
    pub fn merge(&mut self, other: Aggregate) -> (done: Result<(), Error>)
        ensures
            done is Err <==> counts_overflow(old(self)@, other@),
            done is Ok ==> final(self)@ == merge_maps(old(self)@, other@),
            done matches Err(e) ==> e == Error::CountOverflow && final(self)@ == old(self)@,
    {
        let mut listed = other.into_entries();
        let ghost all = listed@;
        let mut i: usize = 0;
        while i < listed.len()
            invariant
                i <= listed.len(),
                listed@ == all,
                lists_model(all, other@),
                self@ == old(self)@,
                forall|j: int|
                    0 <= j < i && self@.contains_key((#[trigger] all[j]).key@) ==> self@[all[j].key@].count
                        + all[j].stat@.count <= u64::MAX,
            decreases listed.len() - i,
        {
            match table_get(&self.table, listed[i].key.as_slice()) {
                Some(stat) => {
                    if stat.count() > u64::MAX - listed[i].stat.count() {
                        proof {
                            let k = all[i as int].key@;
                            assert(self@[k].count + other@[k].count > u64::MAX);
                        }
                        return Err(Error::CountOverflow);
                    }
                },
                None => {},
            }
            i += 1;
        }
        proof {
            if counts_overflow(self@, other@) {
                let k = choose|k: Seq<u8>|
                    self@.contains_key(k) && other@.contains_key(k) && (#[trigger] self@[k]).count
                        + other@[k].count > u64::MAX;
                let j = choose|j: int| 0 <= j < all.len() && (#[trigger] all[j]).key@ == k;
                assert(self@[all[j].key@].count + all[j].stat@.count <= u64::MAX);
            }
            let whole = all.len() as int;
            assert forall|q: Seq<u8>| #[trigger]
                holds_at(self@, old(self)@, other@, all, whole, q) by {
                assert(!moved(all, whole, q));
            }
            assert(all.take(all.len() as int) =~= all);
        }
        while listed.len() > 0
            invariant
                listed.len() <= all.len(),
                listed@ == all.take(listed.len() as int),
                lists_model(all, other@),
                !counts_overflow(old(self)@, other@),
                merged_from(self@, old(self)@, other@, all, listed.len() as int),
            decreases listed.len(),
        {
            let ghost n = listed.len() as int;
            let ghost before = self@;
            let ghost start = old(self)@;
            let entry = listed.pop().unwrap();
            let ghost k = entry.key@;
            proof {
                assert(entry == all.take(n)[n - 1]);
                assert(listed@ =~= all.take(n - 1));
                assert(other@.contains_key(all[n - 1].key@));
                assert(!moved(all, n, k)) by {
                    if moved(all, n, k) {
                        let j = choose|j: int| n <= j < all.len() && (#[trigger] all[j]).key@ == k;
                        assert(all[n - 1].key@ != all[j].key@);
                    }
                }
                assert(holds_at(before, start, other@, all, n, k));
                assert(before.contains_key(k) <==> start.contains_key(k));
            }
            let merged = match table_get(&self.table, entry.key.as_slice()) {
                Some(stat) => {
                    proof {
                        assert(before[k] == start[k]);
                        assert(start[k].count + other@[k].count <= u64::MAX);
                    }
                    stat.merge(entry.stat).unwrap()
                },
                None => entry.stat,
            };
            table_insert(&mut self.table, entry.key, merged);
            proof {
                assert(self@ =~= before.insert(k, merged@));
                assert(merged@ == merge_maps(start, other@)[k]);
                let left = n - 1;
                assert forall|q: Seq<u8>| #[trigger]
                    holds_at(self@, start, other@, all, left, q) by {
                    assert(holds_at(before, start, other@, all, n, q));
                    if q == k {
                        assert(moved(all, n - 1, q));
                    } else if moved(all, n, q) {
                        let j = choose|j: int| n <= j < all.len() && (#[trigger] all[j]).key@ == q;
                        assert(n - 1 <= j);
                        assert(moved(all, n - 1, q));
                    } else {
                        if moved(all, n - 1, q) {
                            let j = choose|j: int|
                                n - 1 <= j < all.len() && (#[trigger] all[j]).key@ == q;
                            assert(j >= n);
                        }
                    }
                }
            }
        }
        proof {
            let start = old(self)@;
            assert forall|q: Seq<u8>|
                #[trigger] self@.contains_key(q) == merge_maps(start, other@).contains_key(q) && (
                self@.contains_key(q) ==> self@[q] == merge_maps(start, other@)[q]) by {
                assert(holds_at(self@, start, other@, all, 0, q));
                if other@.contains_key(q) {
                    let j = choose|j: int| 0 <= j < all.len() && (#[trigger] all[j]).key@ == q;
                    assert(moved(all, 0, q));
                }
                if moved(all, 0, q) {
                    let j = choose|j: int| 0 <= j < all.len() && (#[trigger] all[j]).key@ == q;
                    assert(other@.contains_key(all[j].key@));
                }
            }
            assert(self@ =~= merge_maps(start, other@));
        }
        Ok(())
    }
}

/// Whether `listed` holds each key of `m` exactly once, with statistics that
/// stand for the key's statistics in `m`, and nothing else.
pub open spec fn lists_model(listed: Seq<Entry>, m: AggregateModel) -> bool {
    &&& forall|i: int|
        0 <= i < listed.len() ==> m.contains_key((#[trigger] listed[i]).key@) && m[listed[i].key@]
            == listed[i].stat@
    &&& forall|i: int, j: int|
        0 <= i < j < listed.len() ==> (#[trigger] listed[i]).key@ != (#[trigger] listed[j]).key@
    &&& forall|k: Seq<u8>| #[trigger]
        m.contains_key(k) ==> exists|i: int|
            0 <= i < listed.len() && (#[trigger] listed[i]).key@ == k
}

/// Whether, at key `k`, `now` is the merge of `start` and `other` if `k` is the
/// key of an entry at position `from` or later, and is `start` otherwise.
pub open spec fn holds_at(
    now: AggregateModel,
    start: AggregateModel,
    other: AggregateModel,
    listed: Seq<Entry>,
    from: int,
    k: Seq<u8>,
) -> bool {
    if moved(listed, from, k) {
        now.contains_key(k) && now[k] == merge_maps(start, other)[k]
    } else {
        (now.contains_key(k) <==> start.contains_key(k)) && (now.contains_key(k) ==> now[k]
            == start[k])
    }
}

/// Whether `now` is `start` with the entries from position `from` on merged
/// into it.
pub open spec fn merged_from(
    now: AggregateModel,
    start: AggregateModel,
    other: AggregateModel,
    listed: Seq<Entry>,
    from: int,
) -> bool {
    forall|k: Seq<u8>| #[trigger] holds_at(now, start, other, listed, from, k)
}

/// Whether `k` is the key of an entry at position `from` or later.
pub open spec fn moved(listed: Seq<Entry>, from: int, k: Seq<u8>) -> bool {
    exists|j: int| from <= j < listed.len() && (#[trigger] listed[j]).key@ == k
}

} // verus!
