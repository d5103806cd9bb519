//! How a pass that writes relates to the pass that only reads: it meets the
//! same pieces in the same order, and only the texts of the runs that the
//! plan holds differ.

use crate::reconstruct::{
    joined, ledger, lemma_paragraph_lengths, lemma_plan_blind, scan, texts_tally, Ledger, Piece,
    ScanModel,
};
use crate::xml::Reading;
use vstd::prelude::*;

verus! {

/// The piece as a pass with the plan `plan` writes it: the text of a run
/// that the plan holds is the text planned for it, and every other piece is
/// as it was read.
pub open spec fn planned_piece(piece: Piece, plan: Map<usize, Seq<char>>) -> Piece {
    match piece {
        Piece::Run(id, text) => Piece::Run(
            id,
            if plan.contains_key(id) {
                plan[id]
            } else {
                text
            },
        ),
        Piece::Break => Piece::Break,
    }
}

/// The pieces of a paragraph as a pass with the plan `plan` writes them.
pub open spec fn planned_pieces(pieces: Seq<Piece>, plan: Map<usize, Seq<char>>) -> Seq<Piece> {
    Seq::new(pieces.len(), |i: int| planned_piece(pieces[i], plan))
}

/// The paragraphs as a pass with the plan `plan` writes them, without those
/// that it leaves without text.
pub open spec fn planned_paragraphs(closed: Seq<Seq<Piece>>, plan: Map<usize, Seq<char>>) -> Seq<
    Seq<Piece>,
>
    decreases closed.len(),
{
    if closed.len() == 0 {
        Seq::empty()
    } else {
        let before = planned_paragraphs(closed.drop_last(), plan);
        let last = planned_pieces(closed.last(), plan);
        if joined(last).len() > 0 {
            before.push(last)
        } else {
            before
        }
    }
}

/// Whether each run among `pieces` has text.
pub open spec fn solid(pieces: Seq<Piece>) -> bool {
    forall|k: int|
        0 <= k < pieces.len() ==> ((#[trigger] pieces[k]) matches Piece::Run(id, text)
            ==> text.len() > 0)
}

/// Whether the pieces of the writing pass are those of the reading pass as
/// the plan has them.
pub open spec fn passes_tally(read: Ledger, written: Ledger, plan: Map<usize, Seq<char>>) -> bool {
    &&& solid(read.open)
    &&& written.open == planned_pieces(read.open, plan)
    &&& written.closed == planned_paragraphs(read.closed, plan)
}

/// Pieces with text that are joined to no text are no pieces at all.
proof fn lemma_solid_empty(pieces: Seq<Piece>)
    requires
        solid(pieces),
        joined(pieces).len() == 0,
    ensures
        pieces.len() == 0,
{
    if pieces.len() > 0 {
        reveal_strlit("\n");
        assert(pieces[pieces.len() - 1] == pieces.last());
        assert(pieces.last().text().len() > 0);
    }
}

/// A piece added to both passes keeps them in step.
proof fn lemma_add_tallies(
    read: Ledger,
    written: Ledger,
    plan: Map<usize, Seq<char>>,
    piece: Piece,
)
    requires
        passes_tally(read, written, plan),
        piece matches Piece::Run(id, text) ==> text.len() > 0,
    ensures
        passes_tally(read.add(piece), written.add(planned_piece(piece, plan)), plan),
{
    let next = read.add(piece);
    assert forall|k: int| 0 <= k < next.open.len() implies ((#[trigger] next.open[k])
        matches Piece::Run(id, text) ==> text.len() > 0) by {
        if k < read.open.len() {
            assert(next.open[k] == read.open[k]);
        }
    }
    assert(written.add(planned_piece(piece, plan)).open =~= planned_pieces(next.open, plan));
}

/// One step keeps the two passes in step.
proof fn lemma_step_passes(
    first: ScanModel,
    second: ScanModel,
    read: Ledger,
    written: Ledger,
    reading: Reading,
    plan: Map<usize, Seq<char>>,
)
    requires
        passes_tally(read, written, plan),
        first.failed == second.failed,
        first.mode == second.mode,
        first.root_seen == second.root_seen,
        first.aliases == second.aliases,
        first.coords.len() == second.coords.len(),
    ensures
        passes_tally(
            read.step(first, reading, Map::empty()),
            written.step(second, reading, plan),
            plan,
        ),
{
    let next = read.step(first, reading, Map::empty());
    let after = written.step(second, reading, plan);
    assert(planned_pieces(Seq::<Piece>::empty(), plan) =~= Seq::<Piece>::empty());
    if next.open.len() == read.open.len() + 1 {
        let piece = next.open.last();
        assert(next.open.drop_last() =~= read.open);
        assert(next == read.add(piece));
        lemma_add_tallies(read, written, plan, piece);
        assert(after == written.add(planned_piece(piece, plan)));
    } else if next.closed.len() == read.closed.len() + 1 {
        assert(next.closed.drop_last() =~= read.closed);
        assert(next.closed.last() == read.open);
    } else if next.open.len() == 0 && read.open.len() > 0 {
        if joined(read.open).len() == 0 {
            lemma_solid_empty(read.open);
        }
    } else {
        if next != read {
            assert(next.open =~= read.open);
        }
        if joined(read.open).len() == 0 {
            lemma_solid_empty(read.open);
        }
    }
}

/// A pass that writes meets the pieces that the pass that only reads
/// meets, in the same order: the same runs with the same numbers, and the
/// same line breaks. Only the texts of the runs that the plan holds differ,
/// and a paragraph that is left without text is not counted.
pub proof fn lemma_passes_tally(
    readings: Seq<Reading>,
    plan: Map<usize, Seq<char>>,
    src_file: Seq<char>,
)
    ensures
        passes_tally(
            ledger(readings, Map::empty(), src_file),
            ledger(readings, plan, src_file),
            plan,
        ),
    decreases readings.len(),
{
    if readings.len() > 0 {
        let shorter = readings.drop_last();
        lemma_passes_tally(shorter, plan, src_file);
        lemma_plan_blind(shorter, Map::empty(), plan, src_file);
        lemma_step_passes(
            scan(shorter, Map::empty(), src_file),
            scan(shorter, plan, src_file),
            ledger(shorter, Map::empty(), src_file),
            ledger(shorter, plan, src_file),
            readings.last(),
            plan,
        );
    } else {
        assert(planned_pieces(Seq::<Piece>::empty(), plan) =~= Seq::<Piece>::empty());
    }
}

/// The paragraphs of a part that was written with a plan are the paragraphs
/// that were read, each with the texts of the planned runs replaced and
/// with every other run and every line separator as it was, in the order in
/// which they were read, without the paragraphs that were left without
/// text. No run is added or taken away, and no run that the plan does not
/// hold changes.
pub proof fn lemma_written_paragraphs(
    readings: Seq<Reading>,
    plan: Map<usize, Seq<char>>,
    src_file: Seq<char>,
)
    ensures
        ({
            let read = ledger(readings, Map::empty(), src_file).closed;
            let before = scan(readings, Map::empty(), src_file).paras;
            let after = scan(readings, plan, src_file).paras;
            &&& before.len() == read.len()
            &&& forall|i: int| 0 <= i < before.len() ==> before[i] == joined(#[trigger] read[i])
            &&& after.len() == planned_paragraphs(read, plan).len()
            &&& forall|j: int|
                0 <= j < after.len() ==> #[trigger] after[j] == joined(
                    planned_paragraphs(read, plan)[j],
                )
        }),
{
    lemma_passes_tally(readings, plan, src_file);
    lemma_paragraph_lengths(readings, Map::empty(), src_file);
    lemma_paragraph_lengths(readings, plan, src_file);
    assert(texts_tally(
        scan(readings, plan, src_file),
        ledger(readings, plan, src_file),
    ));
}

} // verus!
