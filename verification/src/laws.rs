//! The laws of the merge: what draining a well-formed merger produces.

use vstd::prelude::*;
use vstd::multiset::Multiset;

use crate::merge::StreamModel;
use crate::merge::lemma_min_head_index_props;
use crate::merge::lemma_stream_total_len_push;
use crate::merge::lemma_stream_total_len_remove;
use crate::merge::merge_output;
use crate::merge::min_head_index;
use crate::merge::stream_total_len;
use crate::merge::streams_wf;
use crate::order::lemma_line_le_refl;
use crate::order::lemma_line_le_trans;
use crate::order::line_le;

verus! {

broadcast use vstd::multiset::group_multiset_axioms, vstd::seq_lib::group_to_multiset_ensures;

/// All lines that the registered streams still owe, as one multiset: labels
/// play no part, so streams sharing a label both contribute.
pub open spec fn all_lines(cs: Seq<StreamModel>) -> Multiset<Seq<u8>>
    decreases cs.len(),
{
    if cs.len() == 0 {
        Multiset::empty()
    } else {
        cs[0].lines.to_multiset().add(all_lines(cs.drop_first()))
    }
}

/// The lines of `s` stand in non-decreasing lexicographic order.
pub open spec fn is_sorted(s: Seq<Seq<u8>>) -> bool {
    forall|i: int, j: int| 0 <= i <= j < s.len() ==> line_le(s[i], s[j])
}

/// Every registered stream is individually sorted.
pub open spec fn all_streams_sorted(cs: Seq<StreamModel>) -> bool {
    forall|i: int| 0 <= i < cs.len() ==> is_sorted((#[trigger] cs[i]).lines)
}

proof fn lemma_all_lines_remove(cs: Seq<StreamModel>, i: int)
    requires
        0 <= i < cs.len(),
    ensures
        all_lines(cs) == cs[i].lines.to_multiset().add(all_lines(cs.remove(i))),
    decreases cs.len(),
{
    if i == 0 {
        assert(cs.remove(0) =~= cs.drop_first());
    } else {
        assert(cs.remove(i).drop_first() =~= cs.drop_first().remove(i - 1));
        assert(cs.remove(i)[0] == cs[0]);
        lemma_all_lines_remove(cs.drop_first(), i - 1);
        assert(cs.drop_first()[i - 1] == cs[i]);
        assert(all_lines(cs) =~= cs[i].lines.to_multiset().add(all_lines(cs.remove(i))));
    }
}

proof fn lemma_all_lines_push(cs: Seq<StreamModel>, m: StreamModel)
    ensures
        all_lines(cs.push(m)) == all_lines(cs).add(m.lines.to_multiset()),
    decreases cs.len(),
{
    assert(all_lines(cs.push(m)) == cs.push(m)[0].lines.to_multiset().add(
        all_lines(cs.push(m).drop_first()),
    ));
    if cs.len() == 0 {
        assert(cs.push(m).drop_first() =~= Seq::<StreamModel>::empty());
        assert(cs.push(m)[0] == m);
        assert(all_lines(cs.push(m)) =~= all_lines(cs).add(m.lines.to_multiset()));
    } else {
        assert(cs.push(m).drop_first() =~= cs.drop_first().push(m));
        assert(cs.push(m)[0] == cs[0]);
        lemma_all_lines_push(cs.drop_first(), m);
        assert(all_lines(cs.push(m)) =~= all_lines(cs).add(m.lines.to_multiset()));
    }
}

proof fn lemma_all_lines_member(cs: Seq<StreamModel>, x: Seq<u8>)
    requires
        all_lines(cs).count(x) > 0,
    ensures
        exists|j: int| 0 <= j < cs.len() && (#[trigger] cs[j]).lines.contains(x),
    decreases cs.len(),
{
    assert(cs.len() > 0);
    if cs[0].lines.to_multiset().count(x) > 0 {
        assert(cs[0].lines.contains(x));
    } else {
        lemma_all_lines_member(cs.drop_first(), x);
        let j = choose|j: int| 0 <= j < cs.drop_first().len() && (#[trigger] cs.drop_first()[j]).lines.contains(x);
        assert(cs[j + 1].lines.contains(x));
    }
}

/// LAW: draining a merger whose streams are each individually sorted yields
/// every line the streams owe — the full multiset union, duplicates across
/// streams all preserved — in non-decreasing lexicographic order, and no
/// error.  Nothing is required of the streams' labels.
pub proof fn lemma_merge_sorted(cs: Seq<StreamModel>)
    requires
        streams_wf(cs),
        all_streams_sorted(cs),
    ensures
        merge_output(cs).1 is None,
        is_sorted(merge_output(cs).0),
        merge_output(cs).0.to_multiset() == all_lines(cs),
    decreases stream_total_len(cs), cs.len(),
{
    if cs.len() == 0 {
        assert(merge_output(cs).0.to_multiset() =~= all_lines(cs));
    } else {
        let i = min_head_index(cs);
        lemma_min_head_index_props(cs);
        let pend = cs[i].lines;
        assert(is_sorted(pend));
        assert(pend.len() > 1 ==> line_le(pend[0], pend[1]));
        let reinserted = StreamModel { label: cs[i].label, lines: pend.drop_first() };
        let rest_cs = if pend.len() <= 1 {
            cs.remove(i)
        } else {
            cs.remove(i).push(reinserted)
        };
        assert forall|j: int| 0 <= j < rest_cs.len() implies ((#[trigger] rest_cs[j]).lines.len()
            >= 1 && is_sorted(rest_cs[j].lines) && line_le(pend[0], rest_cs[j].lines[0])) by {
            if pend.len() > 1 && j == rest_cs.len() - 1 {
                assert(rest_cs[j] == reinserted);
                assert(is_sorted(pend.drop_first())) by {
                    assert(forall|a: int, b: int|
                        0 <= a <= b < pend.drop_first().len() ==> line_le(
                            pend.drop_first()[a],
                            pend.drop_first()[b],
                        ));
                }
                assert(pend.drop_first()[0] == pend[1]);
            } else {
                let j0 = if j < i {
                    j
                } else {
                    j + 1
                };
                assert(rest_cs[j] == cs[j0]);
                assert(is_sorted(cs[j0].lines));
                assert(line_le(pend[0], cs[j0].lines[0]));
            }
        }
        lemma_stream_total_len_remove(cs, i);
        if pend.len() > 1 {
            lemma_stream_total_len_push(cs.remove(i), reinserted);
        }
        lemma_merge_sorted(rest_cs);
        let rest_out = merge_output(rest_cs).0;
        let out = merge_output(cs).0;
        assert(out == seq![pend[0]] + rest_out);
        assert(merge_output(cs).1 == merge_output(rest_cs).1);

        // Every later output line is at least the emitted head.
        assert forall|k: int| 0 <= k < rest_out.len() implies line_le(pend[0], #[trigger] rest_out[k]) by {
            let x = rest_out[k];
            assert(rest_out.contains(x));
            assert(rest_out.to_multiset().count(x) > 0);
            lemma_all_lines_member(rest_cs, x);
            let j = choose|j: int| 0 <= j < rest_cs.len() && (#[trigger] rest_cs[j]).lines.contains(x);
            let m = choose|m: int| 0 <= m < rest_cs[j].lines.len() && rest_cs[j].lines[m] == x;
            assert(line_le(rest_cs[j].lines[0], x));
            lemma_line_le_trans(pend[0], rest_cs[j].lines[0], x);
        }
        assert(is_sorted(out)) by {
            lemma_line_le_refl(pend[0]);
            assert(forall|k: int| 0 <= k < rest_out.len() ==> out[k + 1] == rest_out[k]);
        }

        // The emitted lines are exactly the owed lines.
        lemma_all_lines_remove(cs, i);
        vstd::seq_lib::lemma_multiset_commutative(seq![pend[0]], rest_out);
        assert(pend =~= seq![pend[0]] + pend.drop_first());
        vstd::seq_lib::lemma_multiset_commutative(seq![pend[0]], pend.drop_first());
        if pend.len() > 1 {
            lemma_all_lines_push(cs.remove(i), reinserted);
        } else {
            assert(pend =~= seq![pend[0]]);
        }
        assert(out.to_multiset() =~= all_lines(cs));
    }
}

/// LAW: merging no streams at all yields an empty output and no error.
/// Together with `add_reader`'s contract — an empty stream never stores a
/// cursor — a merger fed only empty streams drains to nothing as well.
pub proof fn lemma_merge_no_streams()
    ensures
        merge_output(Seq::<StreamModel>::empty()).0 == Seq::<Seq<u8>>::empty(),
        merge_output(Seq::<StreamModel>::empty()).1 is None,
{
}

/// LAW: in sorted output, duplicate lines sit adjacently: between two equal
/// lines every line is that same line.
pub proof fn lemma_sorted_duplicates_adjacent(s: Seq<Seq<u8>>, i: int, k: int, j: int)
    requires
        is_sorted(s),
        0 <= i <= k <= j < s.len(),
        s[i] == s[j],
    ensures
        s[k] == s[i],
{
    crate::order::lemma_line_le_antisym(s[i], s[k]);
}

/// LAW: registering two sorted streams under one label is permitted and both
/// are merged independently: the drained output still carries every line the
/// two streams owe, over and above the rest — the shared label changes
/// nothing.
pub proof fn lemma_same_label_streams_both_merged(cs: Seq<StreamModel>, i: int, j: int)
    requires
        streams_wf(cs),
        all_streams_sorted(cs),
        0 <= i < cs.len(),
        0 <= j < cs.len(),
        i != j,
        cs[i].label == cs[j].label,
    ensures
        merge_output(cs).1 is None,
        is_sorted(merge_output(cs).0),
        merge_output(cs).0.to_multiset() == all_lines(cs),
        forall|x: Seq<u8>|
            all_lines(cs).count(x) >= cs[i].lines.to_multiset().count(x)
                + cs[j].lines.to_multiset().count(x),
{
    lemma_merge_sorted(cs);
    lemma_all_lines_remove(cs, i);
    let j2 = if j < i {
        j
    } else {
        j - 1
    };
    assert(cs.remove(i)[j2] == cs[j]);
    lemma_all_lines_remove(cs.remove(i), j2);
}

} // verus!

