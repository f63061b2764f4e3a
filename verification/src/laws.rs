//! Why the work may be split and put together again in any way: merging
//! aggregates is commutative and associative, and the statistics of a run
//! of whole lines are the merge of the statistics of its parts.

use vstd::prelude::*;
use vstd::seq_lib::commutative_foldl;
use vstd::seq_lib::lemma_fold_left_permutation;
use crate::aggregate::AggregateModel;
use crate::aggregate::merge_maps;
use crate::aggregate::observe_map;
use crate::chunk::chunk_cuts;
use crate::chunk::cut_len;
use crate::chunk::lemma_cut_len;
use crate::chunk::window_of;
use crate::record::LineModel;
use crate::record::all_sound;
use crate::record::chunk_stats;
use crate::record::fold_lines;
use crate::record::lines;
use crate::record::malformed_count;
use crate::record::read_line;
use crate::report::RowModel;
use crate::report::is_result_of;
use crate::report::lemma_result_unique;
use crate::text::TERMINATOR;
use crate::text::first_index;
use crate::text::lemma_first_index;
use crate::text::lemma_first_index_unique;
use crate::text::occurs;

verus! {

/// Merging two aggregates gives the same whichever comes first.
pub proof fn lemma_merge_maps_commutes(a: AggregateModel, b: AggregateModel)
    ensures
        merge_maps(a, b) == merge_maps(b, a),
{
    assert(merge_maps(a, b) =~= merge_maps(b, a));
}

/// Merging three aggregates gives the same however they are grouped.
pub proof fn lemma_merge_maps_associates(a: AggregateModel, b: AggregateModel, c: AggregateModel)
    ensures
        merge_maps(merge_maps(a, b), c) == merge_maps(a, merge_maps(b, c)),
{
    assert(merge_maps(merge_maps(a, b), c) =~= merge_maps(a, merge_maps(b, c)));
}

/// Merging with an aggregate that has seen nothing changes nothing.
pub proof fn lemma_merge_maps_empty(a: AggregateModel)
    ensures
        merge_maps(a, Map::empty()) == a,
        merge_maps(Map::empty(), a) == a,
{
    assert(merge_maps(a, Map::empty()) =~= a);
    assert(merge_maps(Map::empty(), a) =~= a);
}

/// All of `parts` merged, from the first to the last.
pub open spec fn merge_all(parts: Seq<AggregateModel>) -> AggregateModel
    decreases parts.len(),
{
    if parts.len() == 0 {
        Map::empty()
    } else {
        merge_maps(merge_all(parts.drop_last()), parts.last())
    }
}

/// Regrouping: merging two runs of aggregates one after the other gives the
/// merge of what each run gives by itself.
pub proof fn lemma_merge_all_concat(a: Seq<AggregateModel>, b: Seq<AggregateModel>)
    ensures
        merge_all(a + b) == merge_maps(merge_all(a), merge_all(b)),
    decreases b.len(),
{
    if b.len() == 0 {
        assert(a + b =~= a);
        lemma_merge_maps_empty(merge_all(a));
    } else {
        assert((a + b).drop_last() =~= a + b.drop_last());
        assert((a + b).last() == b.last());
        lemma_merge_all_concat(a, b.drop_last());
        lemma_merge_maps_associates(merge_all(a), merge_all(b.drop_last()), b.last());
    }
}

/// Any order: two runs that hold the same aggregates, each as often as the
/// other, merge to the same.
pub proof fn lemma_merge_all_any_order(a: Seq<AggregateModel>, b: Seq<AggregateModel>)
    requires
        a.to_multiset() == b.to_multiset(),
    ensures
        merge_all(a) == merge_all(b),
{
    let f = |acc: AggregateModel, part: AggregateModel| merge_maps(acc, part);
    assert(commutative_foldl(f)) by {
        assert forall|x: AggregateModel, y: AggregateModel, v: AggregateModel| #[trigger]
            f(f(v, x), y) == f(f(v, y), x) by {
            lemma_merge_maps_associates(v, x, y);
            lemma_merge_maps_associates(v, y, x);
            lemma_merge_maps_commutes(x, y);
        }
    }
    lemma_merge_all_is_fold(a);
    lemma_merge_all_is_fold(b);
    lemma_fold_left_permutation(a, b, f, Map::empty());
}

/// `merge_all` is the left fold of `merge_maps` from the empty aggregate.
proof fn lemma_merge_all_is_fold(a: Seq<AggregateModel>)
    ensures
        merge_all(a) == a.fold_left(
            Map::empty(),
            |acc: AggregateModel, part: AggregateModel| merge_maps(acc, part),
        ),
    decreases a.len(),
{
    if a.len() > 0 {
        lemma_merge_all_is_fold(a.drop_last());
    }
}

/// Whatever the order in which partial aggregates arrive, the final result
/// is the same.
pub proof fn lemma_any_order_same_result(
    a: Seq<AggregateModel>,
    b: Seq<AggregateModel>,
    result_a: Seq<RowModel>,
    result_b: Seq<RowModel>,
)
    requires
        a.to_multiset() == b.to_multiset(),
        is_result_of(result_a, merge_all(a)),
        is_result_of(result_b, merge_all(b)),
    ensures
        result_a == result_b,
{
    lemma_merge_all_any_order(a, b);
    lemma_result_unique(result_a, result_b, merge_all(a));
}

/// Taking one more value and merging may be done in either order.
pub proof fn lemma_observe_after_merge(a: AggregateModel, b: AggregateModel, key: Seq<u8>, value: int)
    ensures
        observe_map(merge_maps(a, b), key, value) == merge_maps(a, observe_map(b, key, value)),
{
    assert(observe_map(merge_maps(a, b), key, value) =~= merge_maps(
        a,
        observe_map(b, key, value),
    ));
}

/// The statistics of two runs of lines, one after the other, are the merge
/// of the statistics of each, and the malformed lines add up.
pub proof fn lemma_fold_lines_concat(x: Seq<Seq<u8>>, y: Seq<Seq<u8>>)
    ensures
        fold_lines(x + y) == merge_maps(fold_lines(x), fold_lines(y)),
        malformed_count(x + y) == malformed_count(x) + malformed_count(y),
        all_sound(x + y) <==> all_sound(x) && all_sound(y),
    decreases y.len(),
{
    if y.len() == 0 {
        assert(x + y =~= x);
        lemma_merge_maps_empty(fold_lines(x));
    } else {
        let y0 = y.drop_last();
        assert((x + y).drop_last() =~= x + y0);
        assert((x + y).last() == y.last());
        lemma_fold_lines_concat(x, y0);
        match read_line(y.last()) {
            LineModel::Record { key, value } => {
                lemma_observe_after_merge(fold_lines(x), fold_lines(y0), key, value);
            },
            _ => {},
        }
    }
    if all_sound(x + y) {
        assert forall|j: int| 0 <= j < x.len() implies !(read_line(#[trigger] x[j]) is Malformed) by {
            assert((x + y)[j] == x[j]);
        }
        assert forall|j: int| 0 <= j < y.len() implies !(read_line(#[trigger] y[j]) is Malformed) by {
            assert((x + y)[x.len() + j] == y[j]);
        }
    }
    if all_sound(x) && all_sound(y) {
        assert forall|j: int| 0 <= j < (x + y).len() implies !(read_line(#[trigger] (x + y)[j])
            is Malformed) by {
            if j < x.len() {
                assert((x + y)[j] == x[j]);
            } else {
                assert((x + y)[j] == y[j - x.len()]);
            }
        }
    }
}

/// The lines of two runs of bytes, one after the other, are the lines of the
/// first and then the lines of the second, provided the first run is empty
/// or ends in a terminator.
pub proof fn lemma_lines_concat(a: Seq<u8>, b: Seq<u8>)
    requires
        a.len() == 0 || a.last() == TERMINATOR,
    ensures
        lines(a + b) == lines(a) + lines(b),
    decreases a.len(),
{
    if a.len() == 0 {
        assert(a + b =~= b);
        assert(lines(a) + lines(b) =~= lines(b));
    } else {
        let end = first_index(a, TERMINATOR);
        lemma_first_index(a, TERMINATOR);
        assert(a[a.len() - 1] == TERMINATOR);
        assert(occurs(a, TERMINATOR));
        assert forall|i: int| 0 <= i < end implies (a + b)[i] != TERMINATOR by {
            assert((a + b)[i] == a[i]);
        }
        assert((a + b)[end] == a[end]);
        lemma_first_index_unique(a + b, TERMINATOR, end);
        let rest = a.skip(end + 1);
        assert((a + b).take(end) =~= a.take(end));
        assert((a + b).skip(end + 1) =~= rest + b);
        if rest.len() > 0 {
            assert(rest.last() == a.last());
        }
        lemma_lines_concat(rest, b);
        assert(seq![a.take(end)] + (lines(rest) + lines(b)) =~= (seq![a.take(end)] + lines(rest))
            + lines(b));
    }
}

/// The statistics of each of `parts`.
pub open spec fn stats_of_each(parts: Seq<Seq<u8>>) -> Seq<AggregateModel> {
    Seq::new(parts.len(), |i: int| chunk_stats(parts[i]))
}

/// How many lines of all of `parts` are malformed.
pub open spec fn malformed_in_each(parts: Seq<Seq<u8>>) -> nat
    decreases parts.len(),
{
    if parts.len() == 0 {
        0
    } else {
        malformed_in_each(parts.drop_last()) + malformed_count(lines(parts.last()))
    }
}

/// Whether no line of any of `parts` is malformed.
pub open spec fn each_sound(parts: Seq<Seq<u8>>) -> bool {
    forall|i: int| 0 <= i < parts.len() ==> all_sound(lines(#[trigger] parts[i]))
}

/// Chunking is invisible: when an input is cut with any window, the merge of
/// the statistics of the chunks is the statistics of the input taken as one
/// chunk; the chunks hold as many malformed lines as the input; and a chunk
/// holds a malformed line exactly if the input does.
pub proof fn lemma_chunking_is_invisible(data: Seq<u8>, window: nat)
    requires
        chunk_cuts(data, window) is Ok,
    ensures
        merge_all(stats_of_each(chunk_cuts(data, window)->Ok_0)) == chunk_stats(data),
        malformed_in_each(chunk_cuts(data, window)->Ok_0) == malformed_count(lines(data)),
        each_sound(chunk_cuts(data, window)->Ok_0) <==> all_sound(lines(data)),
    decreases data.len(),
{
    let cuts = chunk_cuts(data, window)->Ok_0;
    if data.len() == 0 {
        assert(stats_of_each(cuts) =~= Seq::<AggregateModel>::empty());
    } else {
        let filled = window_of(data, window);
        let cut = cut_len(filled);
        lemma_cut_len(filled);
        let head = data.take(cut);
        let rest = data.skip(cut);
        let tail = chunk_cuts(rest, window)->Ok_0;
        lemma_chunking_is_invisible(rest, window);
        assert(cuts == seq![head] + tail);
        assert(data =~= head + rest);
        if rest.len() > 0 {
            assert(head.last() == filled[cut - 1]);
            lemma_lines_concat(head, rest);
        } else {
            assert(head =~= data);
            assert(lines(head) + lines(rest) =~= lines(data));
        }
        lemma_fold_lines_concat(lines(head), lines(rest));
        lemma_each_concat(seq![head], tail);
        lemma_single_part(head);
    }
}

/// A single part by itself.
proof fn lemma_single_part(part: Seq<u8>)
    ensures
        merge_all(stats_of_each(seq![part])) == chunk_stats(part),
        malformed_in_each(seq![part]) == malformed_count(lines(part)),
        each_sound(seq![part]) <==> all_sound(lines(part)),
{
    let one = seq![part];
    let stats = stats_of_each(one);
    assert(stats.drop_last() =~= Seq::<AggregateModel>::empty());
    assert(stats.last() == chunk_stats(part));
    assert(merge_all(stats.drop_last()) == AggregateModel::empty());
    lemma_merge_maps_empty(chunk_stats(part));
    assert(one.drop_last() =~= Seq::<Seq<u8>>::empty());
    assert(one.last() == part);
    assert(malformed_in_each(one.drop_last()) == 0);
    assert(one[0] == part);
}

/// The statistics, malformed lines and soundness of two runs of parts, one
/// after the other, are those of each run put together.
pub proof fn lemma_each_concat(a: Seq<Seq<u8>>, b: Seq<Seq<u8>>)
    ensures
        merge_all(stats_of_each(a + b)) == merge_maps(
            merge_all(stats_of_each(a)),
            merge_all(stats_of_each(b)),
        ),
        malformed_in_each(a + b) == malformed_in_each(a) + malformed_in_each(b),
        each_sound(a + b) <==> each_sound(a) && each_sound(b),
    decreases b.len(),
{
    assert(stats_of_each(a + b) =~= stats_of_each(a) + stats_of_each(b));
    lemma_merge_all_concat(stats_of_each(a), stats_of_each(b));
    if b.len() == 0 {
        assert(a + b =~= a);
    } else {
        assert((a + b).drop_last() =~= a + b.drop_last());
        assert((a + b).last() == b.last());
        lemma_each_concat(a, b.drop_last());
    }
    if each_sound(a + b) {
        assert forall|i: int| 0 <= i < a.len() implies all_sound(lines(#[trigger] a[i])) by {
            assert((a + b)[i] == a[i]);
        }
        assert forall|i: int| 0 <= i < b.len() implies all_sound(lines(#[trigger] b[i])) by {
            assert((a + b)[a.len() + i] == b[i]);
        }
    }
    if each_sound(a) && each_sound(b) {
        assert forall|i: int| 0 <= i < (a + b).len() implies all_sound(
            lines(#[trigger] (a + b)[i]),
        ) by {
            if i < a.len() {
                assert((a + b)[i] == a[i]);
            } else {
                assert((a + b)[i] == b[i - a.len()]);
            }
        }
    }
}

/// Any window: two ways of cutting the same input give the same final
/// result.
pub proof fn lemma_any_window_same_result(
    data: Seq<u8>,
    window_a: nat,
    window_b: nat,
    result_a: Seq<RowModel>,
    result_b: Seq<RowModel>,
)
    requires
        chunk_cuts(data, window_a) is Ok,
        chunk_cuts(data, window_b) is Ok,
        is_result_of(result_a, merge_all(stats_of_each(chunk_cuts(data, window_a)->Ok_0))),
        is_result_of(result_b, merge_all(stats_of_each(chunk_cuts(data, window_b)->Ok_0))),
    ensures
        result_a == result_b,
{
    lemma_chunking_is_invisible(data, window_a);
    lemma_chunking_is_invisible(data, window_b);
    lemma_result_unique(result_a, result_b, chunk_stats(data));
}

} // verus!
