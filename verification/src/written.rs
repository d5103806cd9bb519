//! What a part says after its matches were replaced: the text of each of
//! its paragraphs is the text that was read with every match that takes
//! effect replaced by the substitution.

use crate::passes::{lemma_written_paragraphs, planned_paragraphs, planned_piece, planned_pieces};
use crate::pattern::{char_spans, matches_in_order, regex_matches};
use crate::placement::{lemma_piece_spans, lemma_spans_tally, piece_spans};
use crate::plan::{planned_texts, EntryModel};
use crate::reconstruct::{joined, ledger, reconstruction, scan, Piece};
use crate::replace::{replacement_plan, run_text};
use crate::soundness::{
    boundary, effective, gap, lemma_replacement_sound, now, substituted, tiles, whole,
};
use crate::spans::{line_spans, RunSpan};
use crate::xml::xml_readings;
use vstd::prelude::*;

verus! {

/// The texts among `texts` that are not empty, in their order.
pub open spec fn with_text(texts: Seq<Seq<char>>) -> Seq<Seq<char>>
    decreases texts.len(),
{
    if texts.len() == 0 {
        Seq::empty()
    } else if texts.last().len() > 0 {
        with_text(texts.drop_last()).push(texts.last())
    } else {
        with_text(texts.drop_last())
    }
}

/// The text of paragraph `k` of the part `part` with every match of
/// `pattern` that takes effect replaced by `sub`.
pub open spec fn replaced_paragraph(
    part: Seq<u8>,
    src_file: Seq<char>,
    pattern: Seq<char>,
    sub: Seq<char>,
    k: int,
) -> Seq<char> {
    let read = reconstruction(part, Map::empty(), src_file);
    substituted(
        read.paras[k],
        effective(
            line_spans(read.coords, k as usize),
            char_spans(read.paras[k], regex_matches(pattern, read.paras[k])),
            read.paras[k].len(),
        ),
        sub,
    )
}

/// The texts of the paragraphs of the part `part`, each with every match of
/// `pattern` that takes effect replaced by `sub`.
pub open spec fn replaced_paragraphs(
    part: Seq<u8>,
    src_file: Seq<char>,
    pattern: Seq<char>,
    sub: Seq<char>,
) -> Seq<Seq<char>> {
    Seq::new(
        reconstruction(part, Map::empty(), src_file).paras.len(),
        |k: int| replaced_paragraph(part, src_file, pattern, sub, k),
    )
}

/// The runs before the last one have, in a text that goes on after the
/// runs, the texts under the plan that they have in the text that ends
/// with them.
proof fn lemma_tiles_prefix(
    plan: Map<usize, EntryModel>,
    para: Seq<char>,
    longer: Seq<char>,
    spans: Seq<RunSpan>,
    more: Seq<RunSpan>,
    to: int,
)
    requires
        para.len() <= longer.len(),
        longer.take(para.len() as int) == para,
        spans.len() <= more.len(),
        forall|i: int| 0 <= i < spans.len() ==> #[trigger] more[i] == spans[i],
        forall|i: int| 0 <= i < spans.len() ==> (#[trigger] spans[i]).end() <= para.len(),
        forall|i: int, j: int|
            0 <= i < j < spans.len() ==> (#[trigger] spans[i]).end() <= (#[trigger] spans[j]).start,
        0 <= to < spans.len(),
    ensures
        tiles(plan, longer, more, 0, to) == tiles(plan, para, spans, 0, to),
    decreases to,
{
    if to > 0 {
        lemma_tiles_prefix(plan, para, longer, spans, more, to - 1);
        let span = spans[to - 1];
        assert(more[to - 1] == span);
        assert(more[to] == spans[to]);
        assert(span.end() <= spans[to].start);
        assert(spans[to].end() <= para.len());
        assert(run_text(longer, span) =~= run_text(para, span));
        assert(gap(longer, more, to - 1) =~= gap(para, spans, to - 1));
    }
}

/// The text of a paragraph under a plan is the text of its pieces with the
/// text of each planned run replaced by the text planned for it.
pub proof fn lemma_whole_pieces(plan: Map<usize, EntryModel>, pieces: Seq<Piece>)
    requires
        joined(pieces).len() <= usize::MAX,
    ensures
        whole(plan, joined(pieces), piece_spans(pieces)) == joined(
            planned_pieces(pieces, planned_texts(plan)),
        ),
    decreases pieces.len(),
{
    let texts = planned_texts(plan);
    if pieces.len() == 0 {
        assert(planned_pieces(pieces, texts) =~= Seq::<Piece>::empty());
    } else {
        let shorter = pieces.drop_last();
        let last = pieces.last();
        lemma_whole_pieces(plan, shorter);
        lemma_piece_spans(shorter);
        lemma_piece_spans(pieces);
        let para = joined(shorter);
        let longer = joined(pieces);
        let spans = piece_spans(shorter);
        let more = piece_spans(pieces);
        let n = spans.len() as int;
        assert(planned_pieces(pieces, texts).drop_last() =~= planned_pieces(shorter, texts));
        assert(planned_pieces(pieces, texts).last() == planned_piece(last, texts));
        assert(longer.take(para.len() as int) =~= para);
        if n > 0 {
            lemma_tiles_prefix(plan, para, longer, spans, more, n - 1);
            assert(more[n - 1] == spans[n - 1]);
            assert(more[0] == spans[0]);
            assert(run_text(longer, spans[n - 1]) =~= run_text(para, spans[n - 1]));
            assert(longer.take(spans[0].start as int) =~= para.take(spans[0].start as int));
        }
        match last {
            Piece::Break => {
                assert(more == spans);
                if n > 0 {
                    assert(gap(longer, more, n - 1) =~= gap(para, spans, n - 1) + last.text());
                    assert(whole(plan, longer, more) =~= whole(plan, para, spans) + last.text());
                }
            },
            Piece::Run(id, text) => {
                let span = more[n];
                assert(run_text(longer, span) =~= text);
                assert(gap(longer, more, n) =~= Seq::<char>::empty());
                assert(now(plan, longer, span) == planned_piece(last, texts).text());
                if n > 0 {
                    assert(boundary(longer, more, n - 1) == para.len());
                    assert(gap(longer, more, n - 1) =~= gap(para, spans, n - 1));
                    assert(tiles(plan, longer, more, 0, n) == tiles(plan, para, spans, 0, n));
                    assert(whole(plan, longer, more) =~= whole(plan, para, spans) + now(
                        plan,
                        longer,
                        span,
                    ));
                } else {
                    assert(tiles(plan, longer, more, 0, 0) =~= Seq::<char>::empty());
                    assert(whole(plan, longer, more) =~= para + now(plan, longer, span));
                }
            },
        }
    }
}

/// The texts of the paragraphs that a plan leaves with text are the texts,
/// not empty, of all paragraphs as the plan has them.
proof fn lemma_planned_texts(
    closed: Seq<Seq<Piece>>,
    plan: Map<usize, Seq<char>>,
    texts: Seq<Seq<char>>,
)
    requires
        texts.len() == closed.len(),
        forall|k: int|
            0 <= k < closed.len() ==> #[trigger] texts[k] == joined(
                planned_pieces(closed[k], plan),
            ),
    ensures
        planned_paragraphs(closed, plan).len() == with_text(texts).len(),
        forall|j: int|
            0 <= j < with_text(texts).len() ==> #[trigger] with_text(texts)[j] == joined(
                planned_paragraphs(closed, plan)[j],
            ),
    decreases closed.len(),
{
    if closed.len() > 0 {
        let shorter = closed.drop_last();
        let fewer = texts.drop_last();
        assert forall|k: int| 0 <= k < shorter.len() implies #[trigger] fewer[k] == joined(
            planned_pieces(shorter[k], plan),
        ) by {
            assert(fewer[k] == texts[k] && shorter[k] == closed[k]);
        }
        lemma_planned_texts(shorter, plan, fewer);
        assert(texts.last() == texts[closed.len() - 1]);
        assert(closed.last() == closed[closed.len() - 1]);
    }
}

/// Replacing a pattern in a part replaces every match that takes effect,
/// and nothing else. The paragraphs of the part as it is written are the
/// paragraphs that were read, each with every match that takes effect
/// replaced by the substitution, in their order, without those that are
/// left without text. This holds of a part whose steps a machine can
/// count and whose paragraphs it can hold, for matches as the engine
/// promises them.
pub proof fn lemma_replaced_text(
    part: Seq<u8>,
    src_file: Seq<char>,
    pattern: Seq<char>,
    sub: Seq<char>,
)
    requires
        xml_readings(part).len() + 1 < usize::MAX,
        forall|k: int|
            0 <= k < reconstruction(part, Map::empty(), src_file).paras.len() ==> {
                &&& (#[trigger] reconstruction(part, Map::empty(), src_file).paras[k]).len()
                    <= usize::MAX
                &&& matches_in_order(
                    reconstruction(part, Map::empty(), src_file).paras[k],
                    regex_matches(pattern, reconstruction(part, Map::empty(), src_file).paras[k]),
                )
            },
    ensures
        reconstruction(
            part,
            planned_texts(replacement_plan(part, src_file, pattern, sub)),
            src_file,
        ).paras == with_text(replaced_paragraphs(part, src_file, pattern, sub)),
{
    let readings = xml_readings(part);
    let plan = replacement_plan(part, src_file, pattern, sub);
    let texts = planned_texts(plan);
    let read = reconstruction(part, Map::empty(), src_file);
    let pieces = ledger(readings, Map::empty(), src_file).closed;
    let wanted = replaced_paragraphs(part, src_file, pattern, sub);
    let after = scan(readings, texts, src_file).paras;
    lemma_written_paragraphs(readings, texts, src_file);
    lemma_spans_tally(readings, src_file);
    assert forall|k: int| 0 <= k < pieces.len() implies #[trigger] wanted[k] == joined(
        planned_pieces(pieces[k], texts),
    ) by {
        assert(read.paras[k] == joined(pieces[k]));
        assert(line_spans(read.coords, k as usize) == piece_spans(pieces[k]));
        lemma_whole_pieces(plan, pieces[k]);
        lemma_replacement_sound(part, src_file, pattern, sub, k);
    }
    lemma_planned_texts(pieces, texts, wanted);
    assert(after =~= with_text(wanted));
}

} // verus!
