//! The runs of one paragraph, as stretches of its text.
//!
//! The coordinates of a part give, for each run, its paragraph, the
//! position at which its text starts, and its length. The stretch of a run
//! is its own text and nothing else: the separator of a line break lies
//! between the stretches of two runs, and belongs to neither.

use crate::reconstruct::RunCoord;
use crate::xml_util::XMLUtil;
use vstd::prelude::*;

verus! {

/// The stretch of a paragraph's text that is the text of one run.
#[derive(Clone, Copy, Debug, PartialEq, Eq, Structural)]
pub struct RunSpan {
    /// The position at which the run's text starts.
    pub start: usize,
    /// The length of the run's text.
    pub len: usize,
    /// The number of the run.
    pub id: usize,
}

impl RunSpan {
    /// The position at which the run's text ends.
    pub open spec fn end(self) -> int {
        self.start + self.len
    }
}

/// Whether a run with the coordinates `coord` follows the stretches `before`
/// in paragraph `line`: it stands in the paragraph, has text, and starts
/// where the stretch before it ends, or later.
pub open spec fn follows(before: Seq<RunSpan>, coord: RunCoord, line: usize) -> bool {
    &&& coord.para == line
    &&& coord.len >= 1
    &&& before.len() > 0 ==> before.last().end() <= coord.offset
}

/// The stretches of the runs of paragraph `line`, in the order of the runs. A
/// run without text is left out, and so is one that starts before the end
/// of the run before it.
pub open spec fn line_spans(coords: Seq<RunCoord>, line: usize) -> Seq<RunSpan>
    decreases coords.len(),
{
    if coords.len() == 0 {
        Seq::empty()
    } else {
        let before = line_spans(coords.drop_last(), line);
        let coord = coords.last();
        if follows(before, coord, line) {
            before.push(
                RunSpan { start: coord.offset, len: coord.len, id: (coords.len() - 1) as usize },
            )
        } else {
            before
        }
    }
}

/// Whether `spans` lie in order: each has text, each ends before the next
/// one starts or where it starts, and no run occurs twice.
pub open spec fn spans_ordered(spans: Seq<RunSpan>) -> bool {
    &&& forall|i: int| 0 <= i < spans.len() ==> (#[trigger] spans[i]).len >= 1
    &&& forall|i: int, j: int|
        0 <= i < j < spans.len() ==> (#[trigger] spans[i]).end() <= (#[trigger] spans[j]).start
    &&& forall|i: int, j: int|
        0 <= i < j < spans.len() ==> (#[trigger] spans[i]).id < (#[trigger] spans[j]).id
}

/// Whether `spans` are stretches of runs of paragraph `line`, as the
/// coordinates give them, in order.
pub open spec fn spans_of_line(spans: Seq<RunSpan>, coords: Seq<RunCoord>, line: usize) -> bool {
    &&& spans_ordered(spans)
    &&& forall|i: int|
        0 <= i < spans.len() ==> {
            &&& (#[trigger] spans[i]).id < coords.len()
            &&& coords[spans[i].id as int].para == line
            &&& coords[spans[i].id as int].offset == spans[i].start
            &&& coords[spans[i].id as int].len == spans[i].len
        }
}

/// The stretches that `line_spans` gives are stretches of runs of the paragraph, in order.
pub proof fn lemma_line_spans(coords: Seq<RunCoord>, line: usize)
    requires
        coords.len() <= usize::MAX,
    ensures
        spans_of_line(line_spans(coords, line), coords, line),
    decreases coords.len(),
{
    if coords.len() > 0 {
        let shorter = coords.drop_last();
        lemma_line_spans(shorter, line);
        let before = line_spans(shorter, line);
        let spans = line_spans(coords, line);
        let coord = coords.last();
        assert forall|i: int| 0 <= i < before.len() implies {
            &&& (#[trigger] before[i]).id < coords.len() - 1
            &&& coords[before[i].id as int].para == line
            &&& coords[before[i].id as int].offset == before[i].start
            &&& coords[before[i].id as int].len == before[i].len
        } by {
            assert(shorter[before[i].id as int] == coords[before[i].id as int]);
        }
        if follows(before, coord, line) {
            let n = before.len() as int;
            assert forall|i: int| 0 <= i < spans.len() implies {
                &&& (#[trigger] spans[i]).len >= 1
                &&& spans[i].id < coords.len()
                &&& coords[spans[i].id as int].para == line
                &&& coords[spans[i].id as int].offset == spans[i].start
                &&& coords[spans[i].id as int].len == spans[i].len
            } by {
                if i < n {
                    assert(spans[i] == before[i]);
                }
            }
            assert forall|i: int, j: int| 0 <= i < j < spans.len() implies (
            #[trigger] spans[i]).end() <= (#[trigger] spans[j]).start && spans[i].id
                < spans[j].id by {
                assert(spans[i] == before[i]);
                if j < n {
                    assert(spans[j] == before[j]);
                } else if i < n - 1 {
                    assert(before[i].end() <= before[n - 1].start);
                    assert(before[i].id < before[n - 1].id);
                }
            }
        } else {
            assert(spans == before);
        }
    }
}

impl XMLUtil {
    /// The stretches of the runs of paragraph `cur_line`.
    pub fn get_line_coords(cur_line: usize, coords: &Vec<RunCoord>) -> (res: Vec<RunSpan>)
        ensures
            res@ == line_spans(coords@, cur_line),
            spans_of_line(res@, coords@, cur_line),
    {
        let mut res: Vec<RunSpan> = Vec::new();
        let mut id: usize = 0;
        assert(coords@.take(0) =~= Seq::<RunCoord>::empty());
        while id < coords.len()
            invariant
                id <= coords.len(),
                res@ == line_spans(coords@.take(id as int), cur_line),
            decreases coords.len() - id,
        {
            assert(coords@.take(id + 1).drop_last() =~= coords@.take(id as int));
            let coord = coords[id];
            if coord.para == cur_line && coord.len >= 1 {
                let n = res.len();
                let after = if n == 0 {
                    true
                } else {
                    let last = res[n - 1];
                    last.start <= coord.offset && coord.offset - last.start >= last.len
                };
                if after {
                    res.push(RunSpan { start: coord.offset, len: coord.len, id });
                }
            }
            id += 1;
        }
        assert(coords@.take(coords.len() as int) =~= coords@);
        proof {
            lemma_line_spans(coords@, cur_line);
        }
        res
    }
}

} // verus!
