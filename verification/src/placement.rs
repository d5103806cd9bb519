//! Where the runs of a paragraph stand, told from the pieces that the
//! paragraph is made of: the stretches that the coordinates give for a
//! paragraph are the stretches of its pieces.

use crate::reconstruct::{
    coords_placed, dropped, joined, ledger, lemma_coordinates_tally, scan, tallies, Ledger, Piece,
    RunCoord, ScanModel, LINE_SEPARATOR, NO_PARAGRAPH,
};
use crate::spans::{follows, line_spans, RunSpan};
use crate::xml::Reading;
use vstd::prelude::*;

verus! {

/// The stretches of the runs among `pieces`: each run starts where the
/// pieces before it end.
pub open spec fn piece_spans(pieces: Seq<Piece>) -> Seq<RunSpan>
    decreases pieces.len(),
{
    if pieces.len() == 0 {
        Seq::empty()
    } else {
        let before = piece_spans(pieces.drop_last());
        match pieces.last() {
            Piece::Run(id, text) => before.push(
                RunSpan {
                    start: joined(pieces.drop_last()).len() as usize,
                    len: text.len() as usize,
                    id,
                },
            ),
            Piece::Break => before,
        }
    }
}

/// The stretches of pieces lie one after the other within the text of the
/// pieces, where a machine can hold that text.
pub proof fn lemma_piece_spans(pieces: Seq<Piece>)
    requires
        joined(pieces).len() <= usize::MAX,
    ensures
        forall|i: int|
            0 <= i < piece_spans(pieces).len() ==> (#[trigger] piece_spans(pieces)[i]).end()
                <= joined(pieces).len(),
        forall|i: int, j: int|
            0 <= i < j < piece_spans(pieces).len() ==> (#[trigger] piece_spans(pieces)[i]).end()
                <= (#[trigger] piece_spans(pieces)[j]).start,
    decreases pieces.len(),
{
    if pieces.len() > 0 {
        let shorter = pieces.drop_last();
        lemma_piece_spans(shorter);
        let before = piece_spans(shorter);
        let spans = piece_spans(pieces);
        assert forall|i: int| 0 <= i < spans.len() implies (#[trigger] spans[i]).end() <= joined(
            pieces,
        ).len() by {
            if i < before.len() {
                assert(spans[i] == before[i]);
            }
        }
        assert forall|i: int, j: int| 0 <= i < j < spans.len() implies (#[trigger] spans[i]).end()
            <= (#[trigger] spans[j]).start by {
            assert(spans[i] == before[i]);
            if j < before.len() {
                assert(spans[j] == before[j]);
            }
        }
    }
}

/// Coordinates that give no run for a paragraph give it no stretch.
proof fn lemma_no_spans(coords: Seq<RunCoord>, line: usize)
    requires
        forall|id: int| 0 <= id < coords.len() ==> (#[trigger] coords[id]).para != line,
    ensures
        line_spans(coords, line) == Seq::<RunSpan>::empty(),
    decreases coords.len(),
{
    if coords.len() > 0 {
        let shorter = coords.drop_last();
        assert forall|id: int| 0 <= id < shorter.len() implies (#[trigger] shorter[id]).para
            != line by {
            assert(shorter[id] == coords[id]);
        }
        lemma_no_spans(shorter, line);
        assert(coords.last() == coords[coords.len() - 1]);
    }
}

/// The stretches of a paragraph depend on the coordinates of its own runs only.
proof fn lemma_same_spans(before: Seq<RunCoord>, after: Seq<RunCoord>, line: usize)
    requires
        before.len() == after.len(),
        forall|id: int|
            0 <= id < before.len() && ((#[trigger] before[id]).para == line || (
            #[trigger] after[id]).para == line) ==> before[id] == after[id],
    ensures
        line_spans(before, line) == line_spans(after, line),
    decreases before.len(),
{
    if before.len() > 0 {
        let b = before.drop_last();
        let a = after.drop_last();
        assert forall|id: int|
            0 <= id < b.len() && ((#[trigger] b[id]).para == line || (#[trigger] a[id]).para
                == line) implies b[id] == a[id] by {
            assert(b[id] == before[id] && a[id] == after[id]);
        }
        lemma_same_spans(b, a, line);
        let last = before.len() - 1;
        assert(before.last() == before[last] && after.last() == after[last]);
    }
}

/// Whether the stretches that the coordinates give are those of the pieces,
/// for the paragraph that is being read and for every paragraph that was
/// read, as far as a machine can hold the text of the paragraph.
pub open spec fn spans_tally(state: ScanModel, pieces: Ledger) -> bool {
    &&& state.line.len() <= usize::MAX ==> line_spans(state.coords, state.paras.len() as usize)
        == piece_spans(pieces.open)
    &&& forall|i: int|
        0 <= i < state.paras.len() && state.paras[i].len() <= usize::MAX ==> line_spans(
            state.coords,
            i as usize,
        ) == piece_spans(#[trigger] pieces.closed[i])
}

/// Nothing that counts has changed.
spec fn stays(s: ScanModel, l: Ledger, t: ScanModel, m: Ledger) -> bool {
    &&& t.coords == s.coords
    &&& t.paras == s.paras
    &&& t.line == s.line
    &&& m == l
}

/// A line break has been added.
spec fn breaks(s: ScanModel, l: Ledger, t: ScanModel, m: Ledger) -> bool {
    &&& t.coords == s.coords
    &&& t.paras == s.paras
    &&& t.line == s.line + LINE_SEPARATOR@
    &&& m == l.add(Piece::Break)
}

/// A run with the text `val` has been added.
spec fn runs(s: ScanModel, l: Ledger, t: ScanModel, m: Ledger, val: Seq<char>) -> bool {
    &&& val.len() > 0
    &&& t.coords == s.coords.push(s.coord_for(val))
    &&& t.paras == s.paras
    &&& t.line == s.line + val
    &&& m == l.add(Piece::Run(s.coords.len() as usize, val))
}

/// The paragraph that was being read has been closed with its text.
spec fn closes(s: ScanModel, l: Ledger, t: ScanModel, m: Ledger) -> bool {
    &&& s.line.len() > 0
    &&& t.coords == s.coords
    &&& t.paras == s.paras.push(s.line)
    &&& t.line == Seq::<char>::empty()
    &&& t.line_first == s.coords.len()
    &&& m.open == Seq::<Piece>::empty()
    &&& m.closed == l.closed.push(l.open)
}

/// The paragraph that was being read has been given up.
spec fn drops(s: ScanModel, l: Ledger, t: ScanModel, m: Ledger) -> bool {
    &&& t.coords == dropped(s.coords, s.line_first)
    &&& t.paras == s.paras
    &&& t.line == Seq::<char>::empty()
    &&& m.open == Seq::<Piece>::empty()
    &&& m.closed == l.closed
}

/// A break leaves the stretches as they are.
proof fn lemma_breaks(s: ScanModel, l: Ledger, t: ScanModel, m: Ledger)
    requires
        spans_tally(s, l),
        breaks(s, l, t, m),
    ensures
        spans_tally(t, m),
{
    assert(m.open.drop_last() =~= l.open);
}

/// A run that is added gets the stretch that follows those before it.
proof fn lemma_runs(s: ScanModel, l: Ledger, t: ScanModel, m: Ledger, val: Seq<char>)
    requires
        spans_tally(s, l),
        tallies(s, l),
        s.coords.len() < usize::MAX,
        s.paras.len() < usize::MAX,
        runs(s, l, t, m, val),
    ensures
        spans_tally(t, m),
{
    let coord = s.coord_for(val);
    assert(t.coords.drop_last() =~= s.coords);
    assert(m.open.drop_last() =~= l.open);
    if t.line.len() <= usize::MAX {
        let before = line_spans(s.coords, s.paras.len() as usize);
        lemma_piece_spans(l.open);
        assert(follows(before, coord, s.paras.len() as usize));
    }
    assert forall|i: int|
        0 <= i < t.paras.len() && t.paras[i].len() <= usize::MAX implies line_spans(
        t.coords,
        i as usize,
    ) == piece_spans(#[trigger] m.closed[i]) by {
        assert(!follows(line_spans(s.coords, i as usize), coord, i as usize));
    }
}

/// A paragraph that is closed keeps the stretches of its pieces, and the
/// next one starts without any.
proof fn lemma_closes(s: ScanModel, l: Ledger, t: ScanModel, m: Ledger)
    requires
        spans_tally(s, l),
        tallies(s, l),
        s.paras.len() + 1 < usize::MAX,
        closes(s, l, t, m),
    ensures
        spans_tally(t, m),
{
    assert(coords_placed(s));
    assert forall|id: int| 0 <= id < t.coords.len() implies (#[trigger] t.coords[id]).para
        != t.paras.len() as usize by {
        assert(s.coords[id] == t.coords[id]);
    }
    lemma_no_spans(t.coords, t.paras.len() as usize);
    assert forall|i: int|
        0 <= i < t.paras.len() && t.paras[i].len() <= usize::MAX implies line_spans(
        t.coords,
        i as usize,
    ) == piece_spans(#[trigger] m.closed[i]) by {
        if i < s.paras.len() {
            assert(m.closed[i] == l.closed[i]);
            assert(t.paras[i] == s.paras[i]);
        }
    }
}

/// A paragraph that is given up leaves no stretch, and the stretches of
/// the paragraphs before it stay.
proof fn lemma_drops(s: ScanModel, l: Ledger, t: ScanModel, m: Ledger)
    requires
        spans_tally(s, l),
        tallies(s, l),
        s.paras.len() < usize::MAX,
        drops(s, l, t, m),
    ensures
        spans_tally(t, m),
{
    assert(coords_placed(s));
    assert forall|id: int| 0 <= id < t.coords.len() implies (#[trigger] t.coords[id]).para
        != t.paras.len() as usize by {
        assert(t.coords[id].para == NO_PARAGRAPH || t.coords[id] == s.coords[id]);
    }
    lemma_no_spans(t.coords, t.paras.len() as usize);
    assert forall|i: int|
        0 <= i < t.paras.len() && t.paras[i].len() <= usize::MAX implies line_spans(
        t.coords,
        i as usize,
    ) == piece_spans(#[trigger] m.closed[i]) by {
        assert forall|id: int|
            0 <= id < s.coords.len() && ((#[trigger] s.coords[id]).para == i as usize || (
            #[trigger] t.coords[id]).para == i as usize) implies s.coords[id] == t.coords[id] by {
            assert(id >= s.line_first ==> s.coords[id].para == s.paras.len());
        }
        lemma_same_spans(s.coords, t.coords, i as usize);
    }
}

/// What one step of a pass that only reads can do.
spec fn moves(s: ScanModel, l: Ledger, t: ScanModel, m: Ledger) -> bool {
    ||| stays(s, l, t, m)
    ||| breaks(s, l, t, m)
    ||| exists|val: Seq<char>| runs(s, l, t, m, val)
    ||| closes(s, l, t, m)
    ||| drops(s, l, t, m)
}

/// One step of a pass that only reads is one of the moves.
proof fn lemma_step_moves(s: ScanModel, l: Ledger, reading: Reading, src_file: Seq<char>)
    requires
        tallies(s, l),
    ensures
        moves(
            s,
            l,
            s.step(reading, Map::empty(), src_file),
            l.step(s, reading, Map::empty()),
        ),
{
    let t = s.step(reading, Map::empty(), src_file);
    let m = l.step(s, reading, Map::empty());
    if m.open.len() == l.open.len() + 1 {
        match m.open.last() {
            Piece::Run(id, val) => {
                assert(runs(s, l, t, m, val));
            },
            Piece::Break => {
                assert(breaks(s, l, t, m));
            },
        }
    } else if t.paras.len() == s.paras.len() + 1 {
        assert(closes(s, l, t, m));
    } else if t.coords == s.coords && t.line == s.line && m == l {
        assert(stays(s, l, t, m));
    } else {
        assert(t.coords =~= dropped(s.coords, s.line_first));
        assert(drops(s, l, t, m));
    }
}

/// One step keeps the stretches in step with the pieces.
proof fn lemma_step_spans(s: ScanModel, l: Ledger, reading: Reading, src_file: Seq<char>)
    requires
        tallies(s, l),
        spans_tally(s, l),
        s.coords.len() < usize::MAX,
        s.paras.len() + 1 < usize::MAX,
    ensures
        spans_tally(s.step(reading, Map::empty(), src_file), l.step(s, reading, Map::empty())),
{
    let t = s.step(reading, Map::empty(), src_file);
    let m = l.step(s, reading, Map::empty());
    lemma_step_moves(s, l, reading, src_file);
    if breaks(s, l, t, m) {
        lemma_breaks(s, l, t, m);
    } else if closes(s, l, t, m) {
        lemma_closes(s, l, t, m);
    } else if drops(s, l, t, m) {
        lemma_drops(s, l, t, m);
    } else if exists|val: Seq<char>| runs(s, l, t, m, val) {
        let val = choose|val: Seq<char>| runs(s, l, t, m, val);
        lemma_runs(s, l, t, m, val);
    }
}

/// Whether a machine can hold the text of paragraph `para` as far as it has
/// been read in the state `state`.
pub open spec fn fits(state: ScanModel, para: usize) -> bool {
    if para < state.paras.len() {
        state.paras[para as int].len() <= usize::MAX
    } else {
        state.line.len() <= usize::MAX
    }
}

/// Whether the coordinates of the state are in order: of two runs that
/// stand in a paragraph, the later one stands in a later paragraph, or in
/// the same one and starts where the earlier one ends, or after it.
pub open spec fn coords_in_order(state: ScanModel) -> bool {
    forall|i: int, j: int|
        0 <= i < j < state.coords.len() && (#[trigger] state.coords[i]).para != NO_PARAGRAPH && (
        #[trigger] state.coords[j]).para != NO_PARAGRAPH ==> {
            ||| state.coords[i].para < state.coords[j].para
            ||| state.coords[i].para == state.coords[j].para && (fits(state, state.coords[i].para)
                ==> state.coords[i].end() <= state.coords[j].offset)
        }
}

/// One step keeps the coordinates in order.
proof fn lemma_step_order(s: ScanModel, l: Ledger, reading: Reading, src_file: Seq<char>)
    requires
        tallies(s, l),
        coords_in_order(s),
        s.coords.len() < usize::MAX,
        s.paras.len() + 1 < usize::MAX,
    ensures
        coords_in_order(s.step(reading, Map::empty(), src_file)),
{
    let t = s.step(reading, Map::empty(), src_file);
    let m = l.step(s, reading, Map::empty());
    lemma_step_moves(s, l, reading, src_file);
    assert(coords_placed(s));
    assert forall|i: int, j: int|
        0 <= i < j < t.coords.len() && (#[trigger] t.coords[i]).para != NO_PARAGRAPH && (
        #[trigger] t.coords[j]).para != NO_PARAGRAPH implies {
        ||| t.coords[i].para < t.coords[j].para
        ||| t.coords[i].para == t.coords[j].para && (fits(t, t.coords[i].para)
            ==> t.coords[i].end() <= t.coords[j].offset)
    } by {
        if j < s.coords.len() {
            assert(t.coords[i] == s.coords[i] || t.coords[i].para == NO_PARAGRAPH);
            assert(t.coords[j] == s.coords[j] || t.coords[j].para == NO_PARAGRAPH);
            assert(s.coords[i].para != NO_PARAGRAPH && s.coords[j].para != NO_PARAGRAPH);
            assert(fits(t, t.coords[i].para) ==> fits(s, s.coords[i].para));
        } else {
            assert(t.coords[i] == s.coords[i]);
        }
    }
}

/// The coordinates that a read gives are in order. Of two runs that stand
/// in a paragraph, the one read later stands in a later paragraph, or in
/// the same paragraph behind the text of the one read earlier: the runs of
/// a paragraph do not overlap, and lie in it in the order of their numbers.
/// This holds of the pass that only reads, for every paragraph whose text
/// a machine can hold.
pub proof fn lemma_coordinates_in_order(readings: Seq<Reading>, src_file: Seq<char>)
    requires
        readings.len() + 1 < usize::MAX,
    ensures
        coords_in_order(scan(readings, Map::empty(), src_file)),
    decreases readings.len(),
{
    if readings.len() > 0 {
        let shorter = readings.drop_last();
        lemma_coordinates_in_order(shorter, src_file);
        lemma_coordinates_tally(shorter, Map::empty(), src_file);
        lemma_step_order(
            scan(shorter, Map::empty(), src_file),
            ledger(shorter, Map::empty(), src_file),
            readings.last(),
            src_file,
        );
    }
}

/// The stretches that the coordinates of a part give for a paragraph are
/// the stretches of the pieces that the paragraph is made of: its runs in
/// the order in which they were read, each where the pieces before it end,
/// each as long as its text. This holds of the pass that only reads, for
/// every paragraph whose text a machine can hold.
pub proof fn lemma_spans_tally(readings: Seq<Reading>, src_file: Seq<char>)
    requires
        readings.len() + 1 < usize::MAX,
    ensures
        spans_tally(
            scan(readings, Map::empty(), src_file),
            ledger(readings, Map::empty(), src_file),
        ),
    decreases readings.len(),
{
    if readings.len() > 0 {
        let shorter = readings.drop_last();
        lemma_spans_tally(shorter, src_file);
        lemma_coordinates_tally(shorter, Map::empty(), src_file);
        lemma_step_spans(
            scan(shorter, Map::empty(), src_file),
            ledger(shorter, Map::empty(), src_file),
            readings.last(),
            src_file,
        );
    } else {
        lemma_no_spans(Seq::<RunCoord>::empty(), 0);
    }
}

} // verus!
