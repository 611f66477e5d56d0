//! The merge engine: a priority collection of stream cursors.

use vstd::prelude::*;

use crate::lines::first_line;
use crate::lines::lines_of;
use crate::lines::rest_after_line;
use crate::lines::take_line;
use crate::order::bytes_lt;
use crate::order::line_le;
use crate::order::line_lt;

verus! {

/// One registered input stream: its diagnostic label, the bytes not yet
/// consumed (`data` from `pos` on), and the buffered smallest unconsumed
/// line `head`.
pub(crate) struct StreamCursor {
    pub(crate) label: Vec<u8>,
    pub(crate) data: Vec<u8>,
    pub(crate) pos: usize,
    pub(crate) head: Vec<u8>,
}

/// The mathematical content of one cursor: its label and the lines it still
/// owes the merge, the buffered head first.
pub struct StreamModel {
    pub label: Seq<u8>,
    pub lines: Seq<Seq<u8>>,
}

impl StreamCursor {
    pub(crate) open spec fn wf(&self) -> bool {
        self.pos <= self.data@.len()
    }

    pub(crate) open spec fn pending(&self) -> Seq<Seq<u8>> {
        seq![self.head@] + lines_of(self.data@.skip(self.pos as int))
    }

    pub(crate) open spec fn model(&self) -> StreamModel {
        StreamModel { label: self.label@, lines: self.pending() }
    }
}

/// Every registered stream still owes at least its buffered head line.
pub open spec fn streams_wf(cs: Seq<StreamModel>) -> bool {
    forall|i: int| 0 <= i < cs.len() ==> (#[trigger] cs[i]).lines.len() >= 1
}

/// The index of the cursor whose head line is smallest; ties keep the
/// earliest such cursor.
pub open spec fn min_head_index(cs: Seq<StreamModel>) -> int
    decreases cs.len(),
{
    if cs.len() <= 1 {
        0
    } else {
        let m = min_head_index(cs.drop_last());
        if line_le(cs[m].lines[0], cs.last().lines[0]) {
            m
        } else {
            cs.len() - 1
        }
    }
}

pub proof fn lemma_min_head_index_props(cs: Seq<StreamModel>)
    requires
        cs.len() > 0,
    ensures
        0 <= min_head_index(cs) < cs.len(),
        forall|j: int|
            0 <= j < cs.len() ==> line_le(cs[min_head_index(cs)].lines[0], (#[trigger] cs[j]).lines[0]),
    decreases cs.len(),
{
    if cs.len() == 1 {
        crate::order::lemma_line_le_refl(cs[0].lines[0]);
    } else {
        let prefix = cs.drop_last();
        lemma_min_head_index_props(prefix);
        let m = min_head_index(prefix);
        let last = cs.len() - 1;
        assert(forall|j: int| 0 <= j < last ==> prefix[j] == cs[j]);
        if line_le(cs[m].lines[0], cs.last().lines[0]) {
            assert(forall|j: int|
                0 <= j < cs.len() ==> line_le(cs[m].lines[0], (#[trigger] cs[j]).lines[0])) by {
                assert(cs[last] == cs.last());
            }
        } else {
            crate::order::lemma_line_le_total(cs[m].lines[0], cs.last().lines[0]);
            assert(forall|j: int|
                0 <= j < cs.len() ==> line_le(cs[last].lines[0], (#[trigger] cs[j]).lines[0])) by {
                assert(forall|j: int| 0 <= j < last ==> line_le(cs[m].lines[0], cs[j].lines[0]));
                assert forall|j: int| 0 <= j < last implies line_le(
                    cs[last].lines[0],
                    cs[j].lines[0],
                ) by {
                    crate::order::lemma_line_le_trans(
                        cs[last].lines[0],
                        cs[m].lines[0],
                        cs[j].lines[0],
                    );
                }
                crate::order::lemma_line_le_refl(cs[last].lines[0]);
            }
        }
    }
}

/// The total number of lines the registered streams still owe.
pub open spec fn stream_total_len(cs: Seq<StreamModel>) -> nat
    decreases cs.len(),
{
    if cs.len() == 0 {
        0
    } else {
        cs[0].lines.len() + stream_total_len(cs.drop_first())
    }
}

pub proof fn lemma_stream_total_len_remove(cs: Seq<StreamModel>, i: int)
    requires
        0 <= i < cs.len(),
    ensures
        stream_total_len(cs) == stream_total_len(cs.remove(i)) + cs[i].lines.len(),
    decreases cs.len(),
{
    if i == 0 {
        assert(cs.remove(0) =~= cs.drop_first());
    } else {
        assert(cs.remove(i).drop_first() =~= cs.drop_first().remove(i - 1));
        assert(cs.remove(i)[0] == cs[0]);
        lemma_stream_total_len_remove(cs.drop_first(), i - 1);
        assert(cs.drop_first()[i - 1] == cs[i]);
    }
}

pub proof fn lemma_stream_total_len_push(cs: Seq<StreamModel>, m: StreamModel)
    ensures
        stream_total_len(cs.push(m)) == stream_total_len(cs) + m.lines.len(),
    decreases cs.len(),
{
    assert(stream_total_len(cs.push(m)) == cs.push(m)[0].lines.len() + stream_total_len(
        cs.push(m).drop_first(),
    ));
    if cs.len() == 0 {
        assert(cs.push(m).drop_first() =~= Seq::<StreamModel>::empty());
        assert(cs.push(m)[0] == m);
    } else {
        assert(cs.push(m).drop_first() =~= cs.drop_first().push(m));
        assert(cs.push(m)[0] == cs[0]);
        lemma_stream_total_len_push(cs.drop_first(), m);
    }
}

/// What draining the merger from state `cs` produces: the lines emitted in
/// order, and the label of the stream caught out of order, if the drain was
/// cut short by one.  Each step pops the smallest head; a cursor whose next
/// line is smaller than its head aborts the drain, one whose stream is
/// exhausted is dropped, and any other is re-inserted one line further on.
pub open spec fn merge_output(cs: Seq<StreamModel>) -> (Seq<Seq<u8>>, Option<Seq<u8>>)
    decreases stream_total_len(cs), cs.len(),
{
    if cs.len() == 0 {
        (Seq::empty(), None)
    } else {
        let i = min_head_index(cs);
        let pend = cs[i].lines;
        if pend.len() > 1 && line_lt(pend[1], pend[0]) {
            (Seq::empty(), Some(cs[i].label))
        } else {
            let rest_cs = if pend.len() <= 1 {
                cs.remove(i)
            } else {
                cs.remove(i).push((StreamModel { label: cs[i].label, lines: pend.drop_first() }))
            };
            proof {
                lemma_min_head_index_props(cs);
                lemma_stream_total_len_remove(cs, i);
                if pend.len() > 1 {
                    lemma_stream_total_len_push(
                        cs.remove(i),
                        (StreamModel { label: cs[i].label, lines: pend.drop_first() }),
                    );
                }
            }
            let r = merge_output(rest_cs);
            (seq![pend[0]] + r.0, r.1)
        }
    }
}

/// An error produced while merging.
#[derive(Debug, PartialEq, Eq)]
pub enum MergeError {
    /// A stream handed out a line smaller than the line before it; the
    /// offending stream's label is carried along.
    OutOfOrder(Vec<u8>),
}

/// The bytes of `"Input lines in file ["`.
pub open spec fn message_prefix() -> Seq<u8> {
    seq![
        73u8, 110u8, 112u8, 117u8, 116u8, 32u8, 108u8, 105u8, 110u8, 101u8, 115u8, 32u8, 105u8, 110u8, 32u8,
        102u8, 105u8, 108u8, 101u8, 32u8, 91u8,
    ]
}

/// The bytes of `"] out of order!"`.
pub open spec fn message_suffix() -> Seq<u8> {
    seq![93u8, 32u8, 111u8, 117u8, 116u8, 32u8, 111u8, 102u8, 32u8, 111u8, 114u8, 100u8, 101u8, 114u8, 33u8]
}

/// The diagnostic line reported for a stream caught out of order.
pub open spec fn out_of_order_message(label: Seq<u8>) -> Seq<u8> {
    message_prefix() + label + message_suffix()
}

impl MergeError {
    /// The label of the offending stream.
    pub open spec fn label_spec(&self) -> Seq<u8> {
        match self {
            MergeError::OutOfOrder(l) => l@,
        }
    }

    /// Renders the error as a diagnostic line naming the offending stream.
    pub fn message(&self) -> (r: Vec<u8>)
        ensures
            r@ == out_of_order_message(self.label_spec()),
    {
        let label = match self {
            MergeError::OutOfOrder(l) => l,
        };
        let mut r: Vec<u8> = Vec::new();
        r.push(73u8);
        r.push(110u8);
        r.push(112u8);
        r.push(117u8);
        r.push(116u8);
        r.push(32u8);
        r.push(108u8);
        r.push(105u8);
        r.push(110u8);
        r.push(101u8);
        r.push(115u8);
        r.push(32u8);
        r.push(105u8);
        r.push(110u8);
        r.push(32u8);
        r.push(102u8);
        r.push(105u8);
        r.push(108u8);
        r.push(101u8);
        r.push(32u8);
        r.push(91u8);
        proof {
            assert(r@ =~= message_prefix());
        }
        let mut i: usize = 0;
        while i < label.len()
            invariant
                i <= label@.len(),
                r@ == message_prefix() + label@.take(i as int),
            decreases label@.len() - i,
        {
            let b = label[i];
            r.push(b);
            proof {
                assert(message_prefix() + label@.take(i + 1) =~= (message_prefix()
                    + label@.take(i as int)).push(label@[i as int]));
            }
            i = i + 1;
        }
        proof {
            assert(label@.take(label@.len() as int) =~= label@);
        }
        r.push(93u8);
        r.push(32u8);
        r.push(111u8);
        r.push(117u8);
        r.push(116u8);
        r.push(32u8);
        r.push(111u8);
        r.push(102u8);
        r.push(32u8);
        r.push(111u8);
        r.push(114u8);
        r.push(100u8);
        r.push(101u8);
        r.push(114u8);
        r.push(33u8);
        proof {
            assert(r@ =~= out_of_order_message(label@));
        }
        r
    }
}

/// The merger: holds one cursor per still-active input stream.
pub struct Heap {
    cursors: Vec<StreamCursor>,
}

impl Heap {
    pub closed spec fn wf(&self) -> bool {
        forall|i: int| 0 <= i < self.cursors@.len() ==> (#[trigger] self.cursors@[i]).wf()
    }

    /// The registered streams, in insertion order of their cursors.
    pub closed spec fn model(&self) -> Seq<StreamModel> {
        self.cursors@.map_values(|c: StreamCursor| c.model())
    }

    pub proof fn lemma_model_wf(&self)
        requires
            self.wf(),
        ensures
            streams_wf(self.model()),
    {
    }

    /// Creates a merger with no registered streams.
    pub fn new() -> (r: Heap)
        ensures
            r.wf(),
            r.model() == Seq::<StreamModel>::empty(),
    {
        let r = Heap { cursors: Vec::new() };
        proof {
            assert(r.model() =~= Seq::<StreamModel>::empty());
        }
        r
    }

    /// Registers one input stream under `filename`.  Its first line is read
    /// at once: a non-empty stream gets a cursor and the line is returned; an
    /// empty stream contributes nothing and no cursor is stored.
    pub fn add_reader(&mut self, filename: Vec<u8>, reader: Vec<u8>) -> (r: Option<Vec<u8>>)
        requires
            old(self).wf(),
        ensures
            final(self).wf(),
            reader@.len() == 0 ==> r is None && final(self).model() == old(self).model(),
            reader@.len() > 0 ==> (r matches Some(l) && l@ == first_line(reader@)
                && final(self).model() == old(self).model().push(
                (StreamModel { label: filename@, lines: lines_of(reader@) }),
            )),
    {
        if reader.len() == 0 {
            return None;
        }
        let (line, next_pos) = take_line(&reader, 0);
        let head = line.clone();
        proof {
            assert(reader@.skip(0) =~= reader@);
            assert(head@ =~= line@);
        }
        let cursor = StreamCursor { label: filename, data: reader, pos: next_pos, head };
        proof {
            assert(cursor.pending() =~= lines_of(cursor.data@));
            assert(self.model().push(cursor.model()) =~= old(self).model().push(cursor.model()));
        }
        self.cursors.push(cursor);
        proof {
            assert(self.model() =~= old(self).model().push(
                (StreamModel { label: cursor.label@, lines: lines_of(cursor.data@) }),
            ));
        }
        Some(line)
    }

    /// The position of a cursor with the smallest head line.
    fn min_index(&self) -> (r: usize)
        requires
            self.wf(),
            self.cursors@.len() > 0,
        ensures
            r < self.cursors@.len(),
            r == min_head_index(self.model()),
    {
        let ghost cs = self.model();
        let mut best: usize = 0;
        let mut j: usize = 1;
        proof {
            assert(cs.take(1) =~= seq![cs[0]]);
            assert(cs.take(1).len() == 1);
        }
        while j < self.cursors.len()
            invariant
                self.wf(),
                cs == self.model(),
                1 <= j <= cs.len(),
                j <= self.cursors@.len(),
                cs.len() == self.cursors@.len(),
                best < j,
                best == min_head_index(cs.take(j as int)),
            decreases self.cursors@.len() - j,
        {
            let candidate = &self.cursors[j];
            let incumbent = &self.cursors[best];
            proof {
                assert(cs.take(j + 1).drop_last() =~= cs.take(j as int));
                assert(cs.take(j + 1).last() == cs[j as int]);
                assert(cs[j as int].lines[0] == candidate.head@);
                assert(cs[best as int].lines[0] == incumbent.head@);
                lemma_min_head_index_props(cs.take(j as int));
                assert(cs.take(j as int)[best as int] == cs[best as int]);
            }
            if bytes_lt(&candidate.head, &incumbent.head) {
                proof {
                    assert(min_head_index(cs.take(j + 1)) == j as int);
                }
                best = j;
            } else {
                proof {
                    crate::order::lemma_line_le_total(
                        cs[best as int].lines[0],
                        cs[j as int].lines[0],
                    );
                    assert(min_head_index(cs.take(j + 1)) == best as int);
                }
            }
            j = j + 1;
        }
        proof {
            assert(cs.take(cs.len() as int) =~= cs);
        }
        best
    }

    /// Produces the next line of the merged output: pops the cursor with the
    /// smallest head, emits that head, and advances the popped stream.  A
    /// stream whose next line is smaller than the emitted one is reported out
    /// of order and abandoned; an exhausted stream is dropped silently; any
    /// other is re-inserted one line further on.  Yields `None` exactly when
    /// no stream is left.
    pub fn next(&mut self) -> (r: Option<Result<Vec<u8>, MergeError>>)
        requires
            old(self).wf(),
        ensures
            final(self).wf(),
            old(self).model().len() == 0 ==> r is None && final(self).model() == old(
                self,
            ).model(),
            old(self).model().len() > 0 ==> ({
                let cs = old(self).model();
                let i = min_head_index(cs);
                let pend = cs[i].lines;
                &&& (pend.len() > 1 && line_lt(pend[1], pend[0])) ==> (r matches Some(res)
                    && res matches Err(e) && e matches MergeError::OutOfOrder(l)
                    && l@ == cs[i].label && final(self).model() == cs.remove(i))
                &&& !(pend.len() > 1 && line_lt(pend[1], pend[0])) ==> (r matches Some(res)
                    && res matches Ok(line) && line@ == pend[0] && final(self).model() == (
                if pend.len() <= 1 {
                    cs.remove(i)
                } else {
                    cs.remove(i).push(
                        (StreamModel { label: cs[i].label, lines: pend.drop_first() }),
                    )
                }))
            }),
    {
        let ghost cs = old(self).model();
        if self.cursors.len() == 0 {
            return None;
        }
        let i = self.min_index();
        let cursor = self.cursors.remove(i);
        let ghost popped = cursor;
        proof {
            assert(self.model() =~= cs.remove(i as int));
            assert(popped.model() == cs[i as int]);
        }
        let StreamCursor { label, data, pos, head } = cursor;
        if pos == data.len() {
            proof {
                assert(data@.skip(pos as int) =~= Seq::<u8>::empty());
                assert(popped.pending().len() == 1);
            }
            return Some(Ok(head));
        }
        let (line, next_pos) = take_line(&data, pos);
        proof {
            let rest = data@.skip(pos as int);
            assert(rest.len() > 0);
            assert(lines_of(rest) == seq![first_line(rest)] + lines_of(rest_after_line(rest)));
            assert(popped.pending()[1] == first_line(rest));
        }
        if bytes_lt(&line, &head) {
            return Some(Err(MergeError::OutOfOrder(label)));
        }
        let updated = StreamCursor { label, data, pos: next_pos, head: line };
        let ghost up = updated;
        proof {
            let rest = data@.skip(pos as int);
            assert(up.data@.skip(up.pos as int) =~= rest_after_line(rest)) by {
                assert(rest_after_line(rest) =~= data@.skip(pos + crate::lines::line_consumed(rest)));
            }
            assert(up.pending() =~= popped.pending().drop_first());
            assert(up.model() == (StreamModel {
                label: cs[i as int].label,
                lines: cs[i as int].lines.drop_first(),
            }));
        }
        self.cursors.push(updated);
        proof {
            assert(self.model() =~= cs.remove(i as int).push(up.model()));
        }
        Some(Ok(head))
    }

    /// Drains the merger: pulls lines until no stream is left, or until the
    /// first error, which aborts the drain.  Returns the lines produced
    /// before the end or the error, and the error itself if one occurred —
    /// exactly the trace that `merge_output` ascribes to the starting state.
    pub fn collect_lines(&mut self) -> (r: (Vec<Vec<u8>>, Option<MergeError>))
        requires
            old(self).wf(),
        ensures
            final(self).wf(),
            ({
                let (out, err) = merge_output(old(self).model());
                &&& r.0.deep_view() == out
                &&& match r.1 {
                    None => err is None && final(self).model().len() == 0,
                    Some(e) => err is Some && (e matches MergeError::OutOfOrder(l)
                        && l@ == err.unwrap()),
                }
            }),
    {
        let ghost cs0 = old(self).model();
        let mut out: Vec<Vec<u8>> = Vec::new();
        proof {
            assert(out.deep_view() =~= Seq::<Seq<u8>>::empty());
        }
        loop
            invariant
                self.wf(),
                cs0 == old(self).model(),
                merge_output(cs0).0 == out.deep_view() + merge_output(self.model()).0,
                merge_output(cs0).1 == merge_output(self.model()).1,
            decreases stream_total_len(self.model()),
        {
            let ghost cs = self.model();
            let ghost before = out.deep_view();
            match self.next() {
                None => {
                    proof {
                        assert(merge_output(cs).0 =~= Seq::<Seq<u8>>::empty());
                        assert(merge_output(cs0).0 =~= out.deep_view());
                    }
                    return (out, None);
                },
                Some(step) => {
                    match step {
                        Ok(line) => {
                            proof {
                                let i = min_head_index(cs);
                                lemma_min_head_index_props(cs);
                                let pend = cs[i].lines;
                                assert(merge_output(cs).0 == seq![pend[0]] + merge_output(
                                    self.model(),
                                ).0);
                                assert(merge_output(cs).0[0] == pend[0]);
                            }
                            out.push(line);
                            proof {
                                assert(out.deep_view() =~~= before.push(merge_output(cs).0[0]));
                                assert(merge_output(cs0).0 =~= out.deep_view() + merge_output(
                                    self.model(),
                                ).0);
                                let i = min_head_index(cs);
                                lemma_stream_total_len_remove(cs, i);
                                if cs[i].lines.len() > 1 {
                                    lemma_stream_total_len_push(
                                        cs.remove(i),
                                        (StreamModel {
                                            label: cs[i].label,
                                            lines: cs[i].lines.drop_first(),
                                        }),
                                    );
                                }
                            }
                        },
                        Err(e) => {
                            proof {
                                let i = min_head_index(cs);
                                lemma_min_head_index_props(cs);
                                assert(merge_output(cs).1 == Some(cs[i].label));
                                assert(merge_output(cs).0 =~= Seq::<Seq<u8>>::empty());
                                assert(merge_output(cs0).0 =~= out.deep_view());
                            }
                            return (out, Some(e));
                        },
                    }
                },
            }
        }
    }
}

} // verus!
