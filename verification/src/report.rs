//! The final result: one row per key, in key order, and its text.

use vstd::prelude::*;
use crate::aggregate::Aggregate;
use crate::aggregate::AggregateModel;
use crate::aggregate::lists_model;
use crate::aggregate::moved;
use crate::decimal::push_tenths;
use crate::decimal::tenths_text;
use crate::order::key_less;
use crate::order::key_lt;
use crate::order::lemma_lt_asymmetric;
use crate::order::lemma_lt_irreflexive;
use crate::order::lemma_lt_total;
use crate::order::lemma_lt_transitive;
use crate::stat::StatModel;
use crate::stat::lemma_mean_between;

verus! {

pub const OPEN: u8 = 123;

pub const CLOSE: u8 = 125;

pub const EQUALS: u8 = 61;

pub const SLASH: u8 = 47;

pub const COMMA: u8 = 44;

pub const SPACE: u8 = 32;

/// What a `Row` stands for.
pub struct RowModel {
    pub key: Seq<u8>,
    pub min: int,
    pub mean: int,
    pub max: int,
}

/// The row of a key with the given statistics.
pub open spec fn row_of(key: Seq<u8>, stat: StatModel) -> RowModel {
    RowModel { key, min: stat.min, mean: stat.mean(), max: stat.max }
}

/// Whether the keys of `rows` strictly ascend.
pub open spec fn ascending(rows: Seq<RowModel>) -> bool {
    forall|i: int, j: int|
        0 <= i < j < rows.len() ==> key_lt((#[trigger] rows[i]).key, (#[trigger] rows[j]).key)
}

/// Whether `rows` is the result for `m`: one row for each key of `m` and no
/// other, each made of the key's statistics, in ascending key order.
pub open spec fn is_result_of(rows: Seq<RowModel>, m: AggregateModel) -> bool {
    &&& ascending(rows)
    &&& forall|i: int|
        0 <= i < rows.len() ==> m.contains_key((#[trigger] rows[i]).key) && rows[i] == row_of(
            rows[i].key,
            m[rows[i].key],
        )
    &&& forall|k: Seq<u8>| #[trigger]
        m.contains_key(k) ==> exists|i: int| 0 <= i < rows.len() && (#[trigger] rows[i]).key == k
}

/// The text of one row: key, `=`, minimum, `/`, mean, `/`, maximum.
pub open spec fn row_text(row: RowModel) -> Seq<u8> {
    row.key + seq![EQUALS] + tenths_text(row.min) + seq![SLASH] + tenths_text(row.mean)
        + seq![SLASH] + tenths_text(row.max)
}

/// The texts of the rows, with `, ` between two of them.
pub open spec fn rows_text(rows: Seq<RowModel>) -> Seq<u8>
    decreases rows.len(),
{
    if rows.len() == 0 {
        Seq::empty()
    } else if rows.len() == 1 {
        row_text(rows[0])
    } else {
        rows_text(rows.drop_last()) + seq![COMMA, SPACE] + row_text(rows.last())
    }
}

/// The text of a result: its rows between `{` and `}`.
pub open spec fn result_text(rows: Seq<RowModel>) -> Seq<u8> {
    seq![OPEN] + rows_text(rows) + seq![CLOSE]
}

/// One key with its minimum, mean and maximum, in tenths.
#[derive(Debug)]
pub struct Row {
    pub key: Vec<u8>,
    pub min: i64,
    pub mean: i64,
    pub max: i64,
}

impl View for Row {
    type V = RowModel;

    open spec fn view(&self) -> RowModel {
        RowModel {
            key: self.key@,
            min: self.min as int,
            mean: self.mean as int,
            max: self.max as int,
        }
    }
}

/// The views of a run of rows.
pub open spec fn row_views(rows: Seq<Row>) -> Seq<RowModel> {
    Seq::new(rows.len(), |i: int| rows[i]@)
}

/// The rows of all keys, in ascending key order.
#[derive(Debug)]
pub struct FinalResult {
    rows: Vec<Row>,
}

impl View for FinalResult {
    type V = Seq<RowModel>;

    closed spec fn view(&self) -> Seq<RowModel> {
        row_views(self.rows@)
    }
}

/// Finds where a key that `rows` does not hold belongs: every row before the
/// place has a smaller key, every row from the place on a larger one.
fn find_place(rows: &Vec<Row>, key: &[u8]) -> (place: usize)
    requires
        ascending(row_views(rows@)),
        forall|i: int| 0 <= i < rows.len() ==> (#[trigger] rows[i]).key@ != key@,
    ensures
        place <= rows.len(),
        forall|i: int| 0 <= i < place ==> key_lt((#[trigger] rows[i]).key@, key@),
        forall|i: int| place <= i < rows.len() ==> key_lt(key@, (#[trigger] rows[i]).key@),
{
    let mut low: usize = 0;
    let mut high: usize = rows.len();
    while low < high
        invariant
            low <= high <= rows.len(),
            ascending(row_views(rows@)),
            forall|i: int| 0 <= i < rows.len() ==> (#[trigger] rows[i]).key@ != key@,
            forall|i: int| 0 <= i < low ==> key_lt((#[trigger] rows[i]).key@, key@),
            forall|i: int| high <= i < rows.len() ==> key_lt(key@, (#[trigger] rows[i]).key@),
        decreases high - low,
    {
        let mid = low + (high - low) / 2;
        let ghost views = row_views(rows@);
        if key_less(rows[mid].key.as_slice(), key) {
            proof {
                assert forall|i: int| 0 <= i < mid + 1 implies key_lt(
                    (#[trigger] rows[i]).key@,
                    key@,
                ) by {
                    if i < mid {
                        assert(key_lt(views[i].key, views[mid as int].key));
                        lemma_lt_transitive(rows[i].key@, rows[mid as int].key@, key@);
                    }
                }
            }
            low = mid + 1;
        } else {
            proof {
                lemma_lt_total(rows[mid as int].key@, key@);
                assert forall|i: int| mid <= i < rows.len() implies key_lt(
                    key@,
                    (#[trigger] rows[i]).key@,
                ) by {
                    if i > mid {
                        assert(key_lt(views[mid as int].key, views[i].key));
                        lemma_lt_transitive(key@, rows[mid as int].key@, rows[i].key@);
                    }
                }
            }
            high = mid;
        }
    }
    low
}

/// Appends the text of one row.
fn push_row(text: &mut Vec<u8>, row: &Row)
    ensures
        final(text)@ == old(text)@ + row_text(row@),
{
    text.extend_from_slice(row.key.as_slice());
    text.push(EQUALS);
    let ghost keyed = text@;
    assert(keyed =~= old(text)@ + (row.key@ + seq![EQUALS]));
    push_tenths(text, row.min);
    text.push(SLASH);
    let ghost with_min = text@;
    assert(with_min =~= old(text)@ + (row.key@ + seq![EQUALS] + tenths_text(row.min as int)
        + seq![SLASH]));
    push_tenths(text, row.mean);
    text.push(SLASH);
    let ghost with_mean = text@;
    assert(with_mean =~= old(text)@ + (row.key@ + seq![EQUALS] + tenths_text(row.min as int)
        + seq![SLASH] + tenths_text(row.mean as int) + seq![SLASH]));
    push_tenths(text, row.max);
    assert(text@ =~= old(text)@ + row_text(row@));
}

impl FinalResult {
    /// Orders the keys of an aggregate and computes each key's mean.
    pub fn from_aggregate(aggregate: Aggregate) -> (result: FinalResult)
        ensures
            is_result_of(result@, aggregate@),
    {
        let mut listed = aggregate.into_entries();
        let ghost all = listed@;
        let ghost m = aggregate@;
        let mut rows: Vec<Row> = Vec::new();
        proof {
            assert(all.take(all.len() as int) =~= all);
        }
        while listed.len() > 0
            invariant
                listed.len() <= all.len(),
                listed@ == all.take(listed.len() as int),
                lists_model(all, m),
                ascending(row_views(rows@)),
                forall|i: int|
                    0 <= i < rows.len() ==> moved(all, listed.len() as int, (#[trigger] rows[i]).key@)
                        && m.contains_key(rows[i].key@) && rows[i]@ == row_of(
                        rows[i].key@,
                        m[rows[i].key@],
                    ),
                forall|k: Seq<u8>| #[trigger]
                    moved(all, listed.len() as int, k) ==> exists|i: int|
                        0 <= i < rows.len() && (#[trigger] rows[i]).key@ == k,
            decreases listed.len(),
        {
            let ghost n = listed.len() as int;
            let ghost before = rows@;
            let entry = listed.pop().unwrap();
            let ghost k = entry.key@;
            proof {
                assert(entry == all.take(n)[n - 1]);
                assert(listed@ =~= all.take(n - 1));
                assert(m.contains_key(all[n - 1].key@));
                assert(!moved(all, n, k)) by {
                    if moved(all, n, k) {
                        let j = choose|j: int| n <= j < all.len() && (#[trigger] all[j]).key@ == k;
                        assert(all[n - 1].key@ != all[j].key@);
                    }
                }
                assert forall|i: int| 0 <= i < rows.len() implies (#[trigger] rows[i]).key@
                    != k by {
                    assert(moved(all, n, rows[i].key@));
                }
            }
            let place = find_place(&rows, entry.key.as_slice());
            let row = Row {
                key: entry.key,
                min: entry.stat.min(),
                mean: entry.stat.mean(),
                max: entry.stat.max(),
            };
            rows.insert(place, row);
            proof {
                let left = n - 1;
                let old_views = row_views(before);
                let new_views = row_views(rows@);
                assert(rows@ =~= before.insert(place as int, row));
                assert(rows@[place as int]@ == row_of(k, m[k]));
                assert forall|i: int, j: int| 0 <= i < j < new_views.len() implies key_lt(
                    (#[trigger] new_views[i]).key,
                    (#[trigger] new_views[j]).key,
                ) by {
                    if j < place {
                        assert(key_lt(old_views[i].key, old_views[j].key));
                    } else if j == place {
                        assert(rows@[i] == before[i]);
                    } else if i < place {
                        assert(rows@[i] == before[i]);
                        assert(rows@[j] == before[j - 1]);
                        assert(key_lt(old_views[i].key, old_views[j - 1].key));
                    } else if i == place {
                        assert(rows@[j] == before[j - 1]);
                    } else {
                        assert(rows@[i] == before[i - 1]);
                        assert(rows@[j] == before[j - 1]);
                        assert(key_lt(old_views[i - 1].key, old_views[j - 1].key));
                    }
                }
                assert forall|i: int| 0 <= i < rows.len() implies moved(
                    all,
                    left,
                    (#[trigger] rows[i]).key@,
                ) && m.contains_key(rows[i].key@) && rows[i]@ == row_of(
                    rows[i].key@,
                    m[rows[i].key@],
                ) by {
                    if i == place {
                        assert(all[left].key@ == k);
                    } else {
                        let p = if i < place {
                            i
                        } else {
                            i - 1
                        };
                        assert(rows@[i] == before[p]);
                        let q = before[p].key@;
                        assert(moved(all, n, q));
                        let j = choose|j: int| n <= j < all.len() && (#[trigger] all[j]).key@ == q;
                        assert(left <= j);
                    }
                }
                assert forall|q: Seq<u8>| #[trigger] moved(all, left, q) implies exists|i: int|
                    0 <= i < rows.len() && (#[trigger] rows[i]).key@ == q by {
                    let j = choose|j: int| left <= j < all.len() && (#[trigger] all[j]).key@ == q;
                    if j == left {
                        assert(rows[place as int].key@ == q);
                    } else {
                        assert(moved(all, n, q));
                        let p = choose|p: int| 0 <= p < before.len() && (#[trigger] before[p]).key@
                            == q;
                        if p < place {
                            assert(rows@[p] == before[p]);
                        } else {
                            assert(rows@[p + 1] == before[p]);
                        }
                    }
                }
            }
        }
        let result = FinalResult { rows };
        proof {
            let views = result@;
            assert forall|i: int| 0 <= i < views.len() implies m.contains_key(
                (#[trigger] views[i]).key,
            ) && views[i] == row_of(views[i].key, m[views[i].key]) by {
                assert(rows[i]@ == views[i]);
            }
            assert forall|q: Seq<u8>| #[trigger] m.contains_key(q) implies exists|i: int|
                0 <= i < views.len() && (#[trigger] views[i]).key == q by {
                let j = choose|j: int| 0 <= j < all.len() && (#[trigger] all[j]).key@ == q;
                assert(moved(all, 0, q));
                let p = choose|p: int| 0 <= p < rows.len() && (#[trigger] rows[p]).key@ == q;
                assert(views[p].key == q);
            }
        }
        result
    }

    /// How many keys the result holds.
    pub fn len(&self) -> (n: usize)
        ensures
            n == self@.len(),
    {
        self.rows.len()
    }

    /// The row at position `at`.
    pub fn row(&self, at: usize) -> (row: &Row)
        requires
            at < self@.len(),
        ensures
            row@ == self@[at as int],
    {
        &self.rows[at]
    }

    /// The text of the result: `{`, the rows as `key=min/mean/max` with `, `
    /// between two of them, and `}`.
    pub fn render(&self) -> (text: Vec<u8>)
        ensures
            text@ == result_text(self@),
    {
        let mut text: Vec<u8> = Vec::new();
        text.push(OPEN);
        let mut i: usize = 0;
        while i < self.rows.len()
            invariant
                i <= self.rows.len(),
                text@ == seq![OPEN] + rows_text(self@.take(i as int)),
            decreases self.rows.len() - i,
        {
            let ghost before = text@;
            let ghost done = self@.take(i as int);
            let ghost next = self@.take(i + 1);
            let row = &self.rows[i];
            proof {
                assert(next.drop_last() =~= done);
                assert(next.last() == row@);
            }
            if i > 0 {
                text.push(COMMA);
                text.push(SPACE);
                proof {
                    assert(text@ =~= before + seq![COMMA, SPACE]);
                }
            }
            let ghost joined = text@;
            push_row(&mut text, row);
            proof {
                if i > 0 {
                    assert(rows_text(next) == rows_text(done) + seq![COMMA, SPACE] + row_text(row@));
                    assert(joined + row_text(row@) =~= seq![OPEN] + (rows_text(done) + seq![
                        COMMA,
                        SPACE,
                    ] + row_text(row@)));
                } else {
                    assert(rows_text(done) =~= Seq::<u8>::empty());
                    assert(rows_text(next) == row_text(row@));
                    assert(joined =~= seq![OPEN]);
                }
            }
            i += 1;
        }
        text.push(CLOSE);
        proof {
            assert(self@.take(i as int) =~= self@);
        }
        text
    }
}

/// An aggregate has one result only: two sequences of rows that are both a
/// result for the same statistics are equal.
pub proof fn lemma_result_unique(a: Seq<RowModel>, b: Seq<RowModel>, m: AggregateModel)
    requires
        is_result_of(a, m),
        is_result_of(b, m),
    ensures
        a == b,
    decreases a.len(),
{
    if a.len() == 0 {
        if b.len() > 0 {
            assert(m.contains_key(b[0].key));
        }
        assert(a =~= b);
    } else if b.len() == 0 {
        assert(m.contains_key(a[0].key));
    } else {
        let x = a.last();
        let y = b.last();
        assert(a[a.len() - 1] == x);
        assert(b[b.len() - 1] == y);
        // The last row of each holds the largest key, so the two are the same row.
        assert(m.contains_key(x.key));
        assert(m.contains_key(y.key));
        let i = choose|i: int| 0 <= i < b.len() && (#[trigger] b[i]).key == x.key;
        let j = choose|j: int| 0 <= j < a.len() && (#[trigger] a[j]).key == y.key;
        if x.key != y.key {
            assert(i < b.len() - 1);
            assert(key_lt(b[i].key, b[b.len() - 1].key));
            assert(j < a.len() - 1);
            assert(key_lt(a[j].key, a[a.len() - 1].key));
            lemma_lt_asymmetric(x.key, y.key);
        }
        assert(x == y);
        let rest = m.remove(x.key);
        let a0 = a.drop_last();
        let b0 = b.drop_last();
        lemma_drop_last_result(a, m);
        lemma_drop_last_result(b, m);
        lemma_result_unique(a0, b0, rest);
        assert(a =~= a0.push(x));
        assert(b =~= b0.push(y));
    }
}

/// Without its last row a result is the result for the statistics without
/// that row's key.
proof fn lemma_drop_last_result(a: Seq<RowModel>, m: AggregateModel)
    requires
        is_result_of(a, m),
        a.len() > 0,
    ensures
        is_result_of(a.drop_last(), m.remove(a.last().key)),
{
    let a0 = a.drop_last();
    let x = a.last();
    let rest = m.remove(x.key);
    assert(a[a.len() - 1] == x);
    assert forall|i: int, j: int| 0 <= i < j < a0.len() implies key_lt(
        (#[trigger] a0[i]).key,
        (#[trigger] a0[j]).key,
    ) by {
        assert(key_lt(a[i].key, a[j].key));
    }
    assert forall|i: int| 0 <= i < a0.len() implies rest.contains_key((#[trigger] a0[i]).key)
        && a0[i] == row_of(a0[i].key, rest[a0[i].key]) by {
        assert(a0[i] == a[i]);
        assert(key_lt(a[i].key, a[a.len() - 1].key));
        lemma_lt_irreflexive(x.key);
    }
    assert forall|k: Seq<u8>| #[trigger] rest.contains_key(k) implies exists|i: int|
        0 <= i < a0.len() && (#[trigger] a0[i]).key == k by {
        assert(m.contains_key(k));
        let i = choose|i: int| 0 <= i < a.len() && (#[trigger] a[i]).key == k;
        assert(i < a.len() - 1);
        assert(a0[i].key == k);
    }
}

/// In every row of a result the mean lies between the minimum and the
/// maximum, provided the statistics are well formed.
pub proof fn lemma_rows_ordered(rows: Seq<RowModel>, m: AggregateModel)
    requires
        is_result_of(rows, m),
        forall|k: Seq<u8>| m.contains_key(k) ==> (#[trigger] m[k]).wf(),
    ensures
        forall|i: int|
            0 <= i < rows.len() ==> (#[trigger] rows[i]).min <= rows[i].mean <= rows[i].max,
{
    assert forall|i: int| 0 <= i < rows.len() implies (#[trigger] rows[i]).min <= rows[i].mean
        <= rows[i].max by {
        assert(m.contains_key(rows[i].key));
        lemma_mean_between(m[rows[i].key]);
    }
}

/// Statistics without keys have the result without rows, whose text is `{}`.
pub proof fn lemma_empty_result(rows: Seq<RowModel>)
    ensures
        is_result_of(rows, AggregateModel::empty()) <==> rows.len() == 0,
        result_text(Seq::empty()) == seq![OPEN, CLOSE],
{
    if is_result_of(rows, AggregateModel::empty()) && rows.len() > 0 {
        assert(AggregateModel::empty().contains_key(rows[0].key));
    }
    assert(result_text(Seq::empty()) =~= seq![OPEN, CLOSE]);
}

} // verus!
