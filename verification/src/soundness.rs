//! What the edits of a paragraph's runs amount to: the texts of the runs,
//! read one after the other with the line separators between them, are the
//! text of the paragraph with every match replaced by the substitution.

use crate::pattern::{
    char_spans, lemma_char_spans_in_order, matches_in_order, regex_matches, spans_in_order, Span,
};
use crate::plan::{
    entry_for, lemma_edit_keeps_entry, lemma_place_monotone, lemma_shift_open, EntryModel,
};
use crate::reconstruct::{
    coords_placed, lemma_coordinates_tally, reconstruction, scan, RunCoord,
};
use crate::replace::{
    apply_match, apply_matches, contiguous, edit_run, last_at_or_before, lemma_contiguous,
    lemma_fresh_entry, lemma_last_at_or_before, local_start, planned, replacement_plan, run_ready,
    run_text, share, spread, takes_effect,
};
use crate::spans::{lemma_line_spans, line_spans, spans_ordered, RunSpan};
use crate::xml::xml_readings;
use vstd::prelude::*;

verus! {

/// Whether every one of `spans` lies within a paragraph of `len` characters.
pub open spec fn spans_within(spans: Seq<RunSpan>, len: nat) -> bool {
    forall|i: int| 0 <= i < spans.len() ==> (#[trigger] spans[i]).end() <= len
}

/// Where what follows the run at index `i` ends: where the next run starts,
/// and at the end of the paragraph for the last run.
pub open spec fn boundary(para: Seq<char>, spans: Seq<RunSpan>, i: int) -> int {
    if i + 1 < spans.len() {
        spans[i + 1].start as int
    } else {
        para.len() as int
    }
}

/// What stands between the run at index `i` and the next one: the
/// separators of the line breaks that follow the run.
pub open spec fn gap(para: Seq<char>, spans: Seq<RunSpan>, i: int) -> Seq<char> {
    para.subrange(spans[i].end(), boundary(para, spans, i))
}

/// The text that the run of `span` has under `plan`.
pub open spec fn now(plan: Map<usize, EntryModel>, para: Seq<char>, span: RunSpan) -> Seq<char> {
    entry_for(plan, span.id, run_text(para, span)).text
}

/// The texts that the runs at the indices from `from` up to `to` have under
/// `plan`, one after the other, each with what stands between it and the
/// next run.
pub open spec fn tiles(
    plan: Map<usize, EntryModel>,
    para: Seq<char>,
    spans: Seq<RunSpan>,
    from: int,
    to: int,
) -> Seq<char>
    decreases to - from,
{
    if to <= from {
        Seq::empty()
    } else {
        tiles(plan, para, spans, from, to - 1) + now(plan, para, spans[to - 1]) + gap(
            para,
            spans,
            to - 1,
        )
    }
}

/// The text of the paragraph under `plan`: what stands before its first run,
/// then the texts of its runs with the separators between them. This is the
/// text that the paragraph has when each run is written out as planned.
pub open spec fn whole(plan: Map<usize, EntryModel>, para: Seq<char>, spans: Seq<RunSpan>) -> Seq<
    char,
> {
    if spans.len() == 0 {
        para
    } else {
        para.take(spans[0].start as int) + tiles(plan, para, spans, 0, spans.len() as int)
    }
}

/// The position `pos` of the paragraph as a position in the run of `span`:
/// its start for a position before the run, its end for one after it.
pub open spec fn local(para: Seq<char>, span: RunSpan, pos: int) -> int {
    let len = run_text(para, span).len() as int;
    if pos <= span.start {
        0
    } else if pos - span.start >= len {
        len
    } else {
        pos - span.start
    }
}

/// Whether the run of `span` can take an edit at `frontier` or later, and
/// still has its own text from there on.
pub open spec fn run_settled(
    plan: Map<usize, EntryModel>,
    para: Seq<char>,
    span: RunSpan,
    frontier: int,
) -> bool {
    let entry = entry_for(plan, span.id, run_text(para, span));
    let at = local(para, span, frontier);
    &&& run_ready(plan, para, span, frontier)
    &&& entry.text.skip(entry.place(at)) == run_text(para, span).skip(at)
}

/// Whether every run of the paragraph can take an edit at `frontier` or
/// later, and the paragraph still has its own text from there on.
pub open spec fn settled(
    plan: Map<usize, EntryModel>,
    para: Seq<char>,
    spans: Seq<RunSpan>,
    frontier: int,
) -> bool {
    forall|i: int| 0 <= i < spans.len() ==> run_settled(plan, para, #[trigger] spans[i], frontier)
}

/// The text `text` with each of `matches` replaced by `sub`.
pub open spec fn substituted(text: Seq<char>, matches: Seq<Span>, sub: Seq<char>) -> Seq<char>
    decreases matches.len(),
{
    if matches.len() == 0 {
        text
    } else {
        substituted(text.take(matches.last().start as int), matches.drop_last(), sub) + sub
            + text.skip(matches.last().end as int)
    }
}

/// Those of `matches` that are replaced in a paragraph of `len` characters.
pub open spec fn effective(spans: Seq<RunSpan>, matches: Seq<Span>, len: nat) -> Seq<Span>
    decreases matches.len(),
{
    if matches.len() == 0 {
        Seq::empty()
    } else if takes_effect(spans, matches.last(), len) {
        effective(spans, matches.drop_last(), len).push(matches.last())
    } else {
        effective(spans, matches.drop_last(), len)
    }
}

/// The run at index `i` lies within the paragraph, before what follows it.
pub proof fn lemma_run_bounds(para: Seq<char>, spans: Seq<RunSpan>, i: int)
    requires
        spans_ordered(spans),
        spans_within(spans, para.len()),
        0 <= i < spans.len(),
    ensures
        spans[i].start < spans[i].end() <= boundary(para, spans, i) <= para.len(),
        run_text(para, spans[i]).len() == spans[i].len,
{
    if i + 1 < spans.len() {
        assert(spans[i].end() <= spans[i + 1].start);
        assert(spans[i + 1].end() <= para.len());
    }
}

/// The texts of the runs from `from` up to `to` are the text of the first of
/// them, what follows it, and the texts of the others.
pub proof fn lemma_tiles_first(
    plan: Map<usize, EntryModel>,
    para: Seq<char>,
    spans: Seq<RunSpan>,
    from: int,
    to: int,
)
    requires
        0 <= from < to <= spans.len(),
    ensures
        tiles(plan, para, spans, from, to) == now(plan, para, spans[from]) + gap(para, spans, from)
            + tiles(plan, para, spans, from + 1, to),
    decreases to - from,
{
    if from + 1 < to {
        lemma_tiles_first(plan, para, spans, from, to - 1);
        assert(tiles(plan, para, spans, from, to) =~= now(plan, para, spans[from]) + gap(
            para,
            spans,
            from,
        ) + tiles(plan, para, spans, from + 1, to));
    } else {
        assert(tiles(plan, para, spans, from, from) =~= Seq::<char>::empty());
        assert(tiles(plan, para, spans, from + 1, to) =~= Seq::<char>::empty());
        assert(tiles(plan, para, spans, from, to) =~= now(plan, para, spans[from]) + gap(
            para,
            spans,
            from,
        ) + tiles(plan, para, spans, from + 1, to));
    }
}

/// The texts of the runs from `from` up to `to` are those up to `mid`, then those from `mid`.
pub proof fn lemma_tiles_split(
    plan: Map<usize, EntryModel>,
    para: Seq<char>,
    spans: Seq<RunSpan>,
    from: int,
    mid: int,
    to: int,
)
    requires
        from <= mid <= to,
    ensures
        tiles(plan, para, spans, from, to) == tiles(plan, para, spans, from, mid) + tiles(
            plan,
            para,
            spans,
            mid,
            to,
        ),
    decreases to - mid,
{
    if mid < to {
        lemma_tiles_split(plan, para, spans, from, mid, to - 1);
        assert(tiles(plan, para, spans, from, to) =~= tiles(plan, para, spans, from, mid) + tiles(
            plan,
            para,
            spans,
            mid,
            to,
        ));
    } else {
        assert(tiles(plan, para, spans, from, to) =~= tiles(plan, para, spans, from, mid) + tiles(
            plan,
            para,
            spans,
            mid,
            to,
        ));
    }
}

/// Two plans that agree on the runs from `from` up to `to` give them the same texts.
pub proof fn lemma_tiles_same(
    plan: Map<usize, EntryModel>,
    other: Map<usize, EntryModel>,
    para: Seq<char>,
    spans: Seq<RunSpan>,
    from: int,
    to: int,
)
    requires
        0 <= from,
        to <= spans.len(),
        forall|i: int|
            from <= i < to ==> now(plan, para, #[trigger] spans[i]) == now(other, para, spans[i]),
    ensures
        tiles(plan, para, spans, from, to) == tiles(other, para, spans, from, to),
    decreases to - from,
{
    if from < to {
        lemma_tiles_same(plan, other, para, spans, from, to - 1);
    }
}

/// Runs that have their own texts have, with what stands between them, the
/// text of the paragraph from the start of the first of them to where what
/// follows the last of them ends.
pub proof fn lemma_tiles_untouched(
    plan: Map<usize, EntryModel>,
    para: Seq<char>,
    spans: Seq<RunSpan>,
    from: int,
    to: int,
)
    requires
        spans_ordered(spans),
        spans_within(spans, para.len()),
        0 <= from < to <= spans.len(),
        forall|i: int|
            from <= i < to ==> now(plan, para, #[trigger] spans[i]) == run_text(para, spans[i]),
    ensures
        tiles(plan, para, spans, from, to) == para.subrange(
            spans[from].start as int,
            boundary(para, spans, to - 1),
        ),
    decreases to - from,
{
    lemma_run_bounds(para, spans, to - 1);
    lemma_run_bounds(para, spans, from);
    if from + 1 < to {
        lemma_tiles_untouched(plan, para, spans, from, to - 1);
        lemma_run_bounds(para, spans, to - 2);
        assert(spans[from].end() <= spans[to - 1].start);
        assert(tiles(plan, para, spans, from, to) =~= para.subrange(
            spans[from].start as int,
            boundary(para, spans, to - 1),
        ));
    } else {
        assert(tiles(plan, para, spans, from, from) =~= Seq::<char>::empty());
        assert(tiles(plan, para, spans, from, to) =~= para.subrange(
            spans[from].start as int,
            boundary(para, spans, to - 1),
        ));
    }
}

/// A run that the frontier has not reached has its own text.
pub proof fn lemma_untouched(
    plan: Map<usize, EntryModel>,
    para: Seq<char>,
    span: RunSpan,
    frontier: int,
)
    requires
        run_settled(plan, para, span, frontier),
        frontier <= span.start,
    ensures
        now(plan, para, span) == run_text(para, span),
{
    let entry = entry_for(plan, span.id, run_text(para, span));
    assert(entry.place(0) == 0);
    assert(entry.text.skip(0) =~= entry.text);
    assert(run_text(para, span).skip(0) =~= run_text(para, span));
}

/// A run that is settled at one position is settled at every later one.
pub proof fn lemma_run_settled_later(
    plan: Map<usize, EntryModel>,
    para: Seq<char>,
    span: RunSpan,
    frontier: int,
    later: int,
)
    requires
        run_settled(plan, para, span, frontier),
        frontier <= later,
    ensures
        run_settled(plan, para, span, later),
        entry_for(plan, span.id, run_text(para, span)).place(local(para, span, later))
            == entry_for(plan, span.id, run_text(para, span)).place(local(para, span, frontier))
            + local(para, span, later) - local(para, span, frontier),
        0 <= entry_for(plan, span.id, run_text(para, span)).place(local(para, span, frontier))
            <= entry_for(plan, span.id, run_text(para, span)).place(local(para, span, later))
            <= entry_for(plan, span.id, run_text(para, span)).text.len(),
{
    let text = run_text(para, span);
    let entry = entry_for(plan, span.id, text);
    let from = local(para, span, frontier);
    let to = local(para, span, later);
    lemma_place_monotone(entry, 0, from);
    lemma_place_monotone(entry, from, to);
    lemma_place_monotone(entry, to, entry.corr.len() as int);
    if from < to {
        lemma_shift_open(entry.corr, from, to);
    }
    assert(entry.text.skip(entry.place(to)) =~= entry.text.skip(entry.place(from)).skip(to - from));
    assert(text.skip(to) =~= text.skip(from).skip(to - from));
}

/// A paragraph that is settled at one position is settled at every later one.
pub proof fn lemma_settled_later(
    plan: Map<usize, EntryModel>,
    para: Seq<char>,
    spans: Seq<RunSpan>,
    frontier: int,
    later: int,
)
    requires
        settled(plan, para, spans, frontier),
        frontier <= later,
    ensures
        settled(plan, para, spans, later),
{
    assert forall|i: int| 0 <= i < spans.len() implies run_settled(
        plan,
        para,
        #[trigger] spans[i],
        later,
    ) by {
        lemma_run_settled_later(plan, para, spans[i], frontier, later);
    }
}

/// What stands behind the run of `span` before the position `frontier`.
pub open spec fn past(para: Seq<char>, span: RunSpan, frontier: int) -> Seq<char> {
    if frontier > span.end() {
        para.subrange(span.end(), frontier)
    } else {
        Seq::empty()
    }
}

/// The part of the paragraph's text under `plan` that lies before the
/// position `frontier` of the paragraph as it was.
pub open spec fn head_of(
    plan: Map<usize, EntryModel>,
    para: Seq<char>,
    spans: Seq<RunSpan>,
    frontier: int,
) -> Seq<char> {
    let j = last_at_or_before(spans, frontier);
    if j < 0 {
        para.take(frontier)
    } else {
        let entry = entry_for(plan, spans[j].id, run_text(para, spans[j]));
        para.take(spans[0].start as int) + tiles(plan, para, spans, 0, j) + entry.text.take(
            entry.place(local(para, spans[j], frontier)),
        ) + past(para, spans[j], frontier)
    }
}

/// The text of a settled paragraph is what lies before the frontier, then
/// the text of the paragraph as it was from the frontier on.
#[verifier::rlimit(60)]
pub proof fn lemma_whole_split(
    plan: Map<usize, EntryModel>,
    para: Seq<char>,
    spans: Seq<RunSpan>,
    frontier: int,
)
    requires
        spans_ordered(spans),
        spans_within(spans, para.len()),
        settled(plan, para, spans, frontier),
        0 <= frontier <= para.len(),
    ensures
        whole(plan, para, spans) == head_of(plan, para, spans, frontier) + para.skip(frontier),
{
    let n = spans.len() as int;
    let j = last_at_or_before(spans, frontier);
    lemma_last_at_or_before(spans, frontier);
    if n == 0 {
        assert(para =~= para.take(frontier) + para.skip(frontier));
    } else {
        assert forall|i: int| j < i < n implies now(plan, para, #[trigger] spans[i]) == run_text(
            para,
            spans[i],
        ) by {
            lemma_untouched(plan, para, spans[i], frontier);
        }
        lemma_run_bounds(para, spans, n - 1);
        if j < 0 {
            lemma_tiles_untouched(plan, para, spans, 0, n);
            assert(para =~= para.take(spans[0].start as int) + para.subrange(
                spans[0].start as int,
                para.len() as int,
            ));
            assert(para =~= para.take(frontier) + para.skip(frontier));
        } else {
            let span = spans[j];
            let entry = entry_for(plan, span.id, run_text(para, span));
            let at = local(para, span, frontier);
            let end = span.end();
            let bound = boundary(para, spans, j);
            lemma_run_bounds(para, spans, j);
            lemma_tiles_split(plan, para, spans, 0, j, n);
            lemma_tiles_first(plan, para, spans, j, n);
            assert(run_settled(plan, para, span, frontier));
            lemma_run_settled_later(plan, para, span, frontier, frontier);
            if j + 1 < n {
                assert(spans[j + 1].start > frontier);
            }
            assert(frontier <= bound);
            assert(entry.text =~= entry.text.take(entry.place(at)) + entry.text.skip(
                entry.place(at),
            ));
            let rest = tiles(plan, para, spans, j + 1, n);
            if j + 1 < n {
                lemma_tiles_untouched(plan, para, spans, j + 1, n);
                assert(rest == para.subrange(bound, para.len() as int));
            } else {
                assert(rest =~= Seq::<char>::empty());
                assert(bound == para.len());
            }
            let tail = run_text(para, span).skip(at) + gap(para, spans, j) + rest;
            if frontier <= end {
                assert(at == frontier - span.start);
                assert(run_text(para, span).skip(at) =~= para.subrange(frontier, end));
                assert(tail =~= para.skip(frontier));
                assert(past(para, span, frontier) =~= Seq::<char>::empty());
            } else {
                assert(at == span.len);
                assert(run_text(para, span).skip(at) =~= Seq::<char>::empty());
                assert(past(para, span, frontier) + para.skip(frontier) =~= tail);
            }
            assert(whole(plan, para, spans) =~= head_of(plan, para, spans, frontier) + para.skip(
                frontier,
            ));
        }
    }
}

/// Whether the entry of the run of `span` is the same under both plans.
pub open spec fn same_entry(
    plan: Map<usize, EntryModel>,
    other: Map<usize, EntryModel>,
    para: Seq<char>,
    span: RunSpan,
) -> bool {
    entry_for(plan, span.id, run_text(para, span)) == entry_for(
        other,
        span.id,
        run_text(para, span),
    )
}

/// What stands in the run of `span` before the place at which the match `m` starts in it.
pub open spec fn before_match(
    plan: Map<usize, EntryModel>,
    para: Seq<char>,
    span: RunSpan,
    m: Span,
) -> Seq<char> {
    let entry = entry_for(plan, span.id, run_text(para, span));
    entry.text.take(entry.place(local_start(span, m)))
}

/// One edit of a settled run: the run has then what stood before the edit,
/// the chunk, and its own text from the end of the edit on, and is settled
/// at every position from the end of the edit on.
pub proof fn lemma_edit_run(
    plan: Map<usize, EntryModel>,
    para: Seq<char>,
    span: RunSpan,
    frontier: int,
    from: int,
    to: int,
    chunk: Seq<char>,
    later: int,
)
    requires
        run_settled(plan, para, span, frontier),
        span.end() <= para.len(),
        from == (if span.start <= frontier {
            frontier - span.start
        } else {
            0
        }),
        0 <= from < to <= run_text(para, span).len(),
        span.start + to <= later,
    ensures
        now(edit_run(plan, para, span, from, to, chunk), para, span) == entry_for(
            plan,
            span.id,
            run_text(para, span),
        ).text.take(entry_for(plan, span.id, run_text(para, span)).place(from)) + chunk + run_text(
            para,
            span,
        ).skip(to),
        run_settled(edit_run(plan, para, span, from, to, chunk), para, span, later),
{
    let text = run_text(para, span);
    let entry = entry_for(plan, span.id, text);
    let after = edit_run(plan, para, span, from, to, chunk);
    let next = entry_for(after, span.id, text);
    assert(next == entry.edited(from, to, chunk));
    assert(local(para, span, frontier) == from);
    lemma_edit_keeps_entry(entry, from, to, chunk);
    lemma_place_monotone(entry, 0, from);
    lemma_place_monotone(entry, to, entry.corr.len() as int);
    assert(entry.text.skip(entry.place(to)) =~= entry.text.skip(entry.place(from)).skip(to - from));
    assert(text.skip(to) =~= text.skip(from).skip(to - from));
    let at = local(para, span, span.start + to);
    assert(at == to);
    assert(run_settled(after, para, span, span.start + to));
    lemma_run_settled_later(after, para, span, span.start + to, later);
}

/// Handing a substitution out to the runs of a match, from the run at index
/// `i` on: the runs outside the match stay as they are; the runs from `i` to
/// the last of the match have together what stood in run `i` before the
/// match, then the substitution, then the text of the last run after the
/// match and what follows that run; and all of them are settled at the end
/// of the match.
#[verifier::rlimit(60)]
pub proof fn lemma_spread(
    plan: Map<usize, EntryModel>,
    para: Seq<char>,
    spans: Seq<RunSpan>,
    m: Span,
    i: int,
    rest: Seq<char>,
)
    requires
        spans_ordered(spans),
        spans_within(spans, para.len()),
        takes_effect(spans, m, para.len()),
        last_at_or_before(spans, m.start as int) <= i <= last_at_or_before(spans, m.end - 1),
        forall|k: int|
            i <= k < spans.len() ==> run_settled(plan, para, #[trigger] spans[k], m.start as int),
    ensures
        ({
            let last = last_at_or_before(spans, m.end - 1);
            let after = spread(plan, para, spans, m, i, last, rest);
            &&& forall|k: int|
                0 <= k < spans.len() && (k < i || k > last) ==> same_entry(
                    after,
                    plan,
                    para,
                    #[trigger] spans[k],
                )
            &&& forall|k: int|
                i <= k <= last ==> run_settled(after, para, #[trigger] spans[k], m.end as int)
            &&& tiles(after, para, spans, i, last + 1) == before_match(plan, para, spans[i], m)
                + rest + run_text(para, spans[last]).skip(m.end - spans[last].start) + gap(
                para,
                spans,
                last,
            )
        }),
    decreases last_at_or_before(spans, m.end - 1) - i,
{
    let first = last_at_or_before(spans, m.start as int);
    let last = last_at_or_before(spans, m.end - 1);
    lemma_last_at_or_before(spans, m.start as int);
    lemma_last_at_or_before(spans, m.end - 1);
    let span = spans[i];
    let text = run_text(para, span);
    let entry = entry_for(plan, span.id, text);
    let from = local_start(span, m);
    lemma_run_bounds(para, spans, i);
    if i > first {
        assert(spans[i].start > m.start);
    }
    assert(run_settled(plan, para, span, m.start as int));
    let after = spread(plan, para, spans, m, i, last, rest);
    if i == last {
        let to = m.end - span.start;
        lemma_edit_run(plan, para, span, m.start as int, from, to, rest, m.end as int);
        assert(after == edit_run(plan, para, span, from, to, rest));
        assert forall|k: int| 0 <= k < spans.len() && (k < i || k > last) implies same_entry(
            after,
            plan,
            para,
            #[trigger] spans[k],
        ) by {
            if k < i {
                assert(spans[k].id < spans[i].id);
            } else {
                assert(spans[i].id < spans[k].id);
            }
        }
        assert(tiles(after, para, spans, i, i) =~= Seq::<char>::empty());
        assert(tiles(after, para, spans, i, last + 1) =~= now(after, para, span) + gap(
            para,
            spans,
            last,
        ));
    } else {
        let len = span.len as int;
        let take = share(len - from, rest.len() as int);
        let chunk = rest.take(take);
        let plan1 = edit_run(plan, para, span, from, len, chunk);
        lemma_contiguous(spans, first, i, last);
        assert(spans[i + 1].start <= spans[last].start) by {
            if i + 1 < last {
                assert(spans[i + 1].end() <= spans[last].start);
            }
        }
        lemma_edit_run(plan, para, span, m.start as int, from, len, chunk, m.end as int);
        assert forall|k: int| 0 <= k < spans.len() && k != i implies same_entry(
            plan1,
            plan,
            para,
            #[trigger] spans[k],
        ) by {
            if k < i {
                assert(spans[k].id < spans[i].id);
            } else {
                assert(spans[i].id < spans[k].id);
            }
        }
        assert forall|k: int| i + 1 <= k < spans.len() implies run_settled(
            plan1,
            para,
            #[trigger] spans[k],
            m.start as int,
        ) by {
            assert(same_entry(plan1, plan, para, spans[k]));
            assert(run_settled(plan, para, spans[k], m.start as int));
        }
        lemma_spread(plan1, para, spans, m, i + 1, rest.skip(take));
        assert(after == spread(plan1, para, spans, m, i + 1, last, rest.skip(take)));
        assert forall|k: int| 0 <= k < spans.len() && (k < i || k > last) implies same_entry(
            after,
            plan,
            para,
            #[trigger] spans[k],
        ) by {
            assert(same_entry(after, plan1, para, spans[k]));
            assert(same_entry(plan1, plan, para, spans[k]));
        }
        assert(same_entry(after, plan1, para, spans[i]));
        assert forall|k: int| i <= k <= last implies run_settled(
            after,
            para,
            #[trigger] spans[k],
            m.end as int,
        ) by {
            if k == i {
                assert(run_settled(plan1, para, spans[i], m.end as int));
            }
        }
        lemma_tiles_first(after, para, spans, i, last + 1);
        let next = spans[i + 1];
        let next_entry = entry_for(plan1, next.id, run_text(para, next));
        assert(local_start(next, m) == 0);
        assert(next_entry.place(0) == 0);
        assert(before_match(plan1, para, next, m) =~= Seq::<char>::empty());
        assert(text.skip(len) =~= Seq::<char>::empty());
        assert(gap(para, spans, i) =~= Seq::<char>::empty());
        assert(chunk + rest.skip(take) =~= rest);
        assert(tiles(after, para, spans, i, last + 1) =~= before_match(plan, para, spans[i], m)
            + rest + run_text(para, spans[last]).skip(m.end - spans[last].start) + gap(
            para,
            spans,
            last,
        ));
    }
}

/// Texts that are equal after the same text has been added to both are equal.
proof fn lemma_cancel(a: Seq<char>, b: Seq<char>, c: Seq<char>)
    requires
        a + c == b + c,
    ensures
        a == b,
{
    assert((a + c).len() == a.len() + c.len());
    assert((b + c).len() == b.len() + c.len());
    assert(a =~= (a + c).take(a.len() as int));
    assert(b =~= (b + c).take(b.len() as int));
}

/// Moving the frontier of a settled paragraph on adds to what lies before
/// it the text of the paragraph between the two positions.
pub proof fn lemma_head_advance(
    plan: Map<usize, EntryModel>,
    para: Seq<char>,
    spans: Seq<RunSpan>,
    frontier: int,
    later: int,
)
    requires
        spans_ordered(spans),
        spans_within(spans, para.len()),
        settled(plan, para, spans, frontier),
        0 <= frontier <= later <= para.len(),
    ensures
        settled(plan, para, spans, later),
        head_of(plan, para, spans, later) == head_of(plan, para, spans, frontier) + para.subrange(
            frontier,
            later,
        ),
{
    lemma_settled_later(plan, para, spans, frontier, later);
    lemma_whole_split(plan, para, spans, frontier);
    lemma_whole_split(plan, para, spans, later);
    assert(para.skip(frontier) =~= para.subrange(frontier, later) + para.skip(later));
    assert(head_of(plan, para, spans, frontier) + para.skip(frontier) =~= (head_of(
        plan,
        para,
        spans,
        frontier,
    ) + para.subrange(frontier, later)) + para.skip(later));
    lemma_cancel(
        head_of(plan, para, spans, later),
        head_of(plan, para, spans, frontier) + para.subrange(frontier, later),
        para.skip(later),
    );
}

/// A match that takes effect leaves the runs outside it as they are, and
/// every run settled at its end.
proof fn lemma_match_settles(
    plan: Map<usize, EntryModel>,
    para: Seq<char>,
    spans: Seq<RunSpan>,
    m: Span,
    sub: Seq<char>,
)
    requires
        spans_ordered(spans),
        spans_within(spans, para.len()),
        settled(plan, para, spans, m.start as int),
        takes_effect(spans, m, para.len()),
    ensures
        ({
            let first = last_at_or_before(spans, m.start as int);
            let last = last_at_or_before(spans, m.end - 1);
            let after = apply_match(plan, para, spans, m, sub);
            &&& settled(after, para, spans, m.end as int)
            &&& forall|k: int|
                0 <= k < spans.len() && (k < first || k > last) ==> now(
                    after,
                    para,
                    #[trigger] spans[k],
                ) == now(plan, para, spans[k])
            &&& tiles(after, para, spans, first, last + 1) == before_match(
                plan,
                para,
                spans[first],
                m,
            ) + sub + run_text(para, spans[last]).skip(m.end - spans[last].start) + gap(
                para,
                spans,
                last,
            )
        }),
{
    let after = apply_match(plan, para, spans, m, sub);
    let first = last_at_or_before(spans, m.start as int);
    let last = last_at_or_before(spans, m.end - 1);
    lemma_settled_later(plan, para, spans, m.start as int, m.end as int);
    lemma_spread(plan, para, spans, m, first, sub);
    assert(after == spread(plan, para, spans, m, first, last, sub));
    assert forall|k: int| 0 <= k < spans.len() implies run_settled(
        after,
        para,
        #[trigger] spans[k],
        m.end as int,
    ) by {
        if k < first || k > last {
            assert(same_entry(after, plan, para, spans[k]));
            assert(run_settled(plan, para, spans[k], m.end as int));
        }
    }
    assert forall|k: int| 0 <= k < spans.len() && (k < first || k > last) implies now(
        after,
        para,
        #[trigger] spans[k],
    ) == now(plan, para, spans[k]) by {
        assert(same_entry(after, plan, para, spans[k]));
    }
}

/// The runs behind a match have their own texts: together, the text of the
/// paragraph from where what follows the last run of the match ends.
proof fn lemma_behind_match(
    plan: Map<usize, EntryModel>,
    after: Map<usize, EntryModel>,
    para: Seq<char>,
    spans: Seq<RunSpan>,
    m: Span,
)
    requires
        spans_ordered(spans),
        spans_within(spans, para.len()),
        settled(plan, para, spans, m.start as int),
        takes_effect(spans, m, para.len()),
        forall|k: int|
            last_at_or_before(spans, m.end - 1) < k < spans.len() ==> now(
                after,
                para,
                #[trigger] spans[k],
            ) == now(plan, para, spans[k]),
    ensures
        ({
            let last = last_at_or_before(spans, m.end - 1);
            let bound = boundary(para, spans, last);
            &&& m.end <= bound <= para.len()
            &&& tiles(after, para, spans, last + 1, spans.len() as int) == para.subrange(
                bound,
                para.len() as int,
            )
            &&& run_text(para, spans[last]).skip(m.end - spans[last].start) + gap(para, spans, last)
                == para.subrange(m.end as int, bound)
        }),
{
    let n = spans.len() as int;
    let last = last_at_or_before(spans, m.end - 1);
    lemma_last_at_or_before(spans, m.end - 1);
    lemma_run_bounds(para, spans, last);
    lemma_run_bounds(para, spans, n - 1);
    let bound = boundary(para, spans, last);
    if last + 1 < n {
        assert(spans[last + 1].start > m.end - 1);
        assert forall|k: int| last + 1 <= k < n implies now(after, para, #[trigger] spans[k])
            == run_text(para, spans[k]) by {
            assert(spans[last + 1].start <= spans[k].start) by {
                if last + 1 < k {
                    assert(spans[last + 1].end() <= spans[k].start);
                }
            }
            assert(run_settled(plan, para, spans[k], m.start as int));
            lemma_untouched(plan, para, spans[k], m.start as int);
        }
        lemma_tiles_untouched(after, para, spans, last + 1, n);
    } else {
        assert(tiles(after, para, spans, last + 1, n) =~= Seq::<char>::empty());
        assert(para.subrange(bound, para.len() as int) =~= Seq::<char>::empty());
    }
    assert(run_text(para, spans[last]).skip(m.end - spans[last].start) + gap(para, spans, last)
        =~= para.subrange(m.end as int, bound));
}

/// What lies before the start of a match that takes effect: what stands
/// before the first run, the texts of the runs before the match, and what
/// stands in the first run of the match before it.
proof fn lemma_head_at_match(
    plan: Map<usize, EntryModel>,
    para: Seq<char>,
    spans: Seq<RunSpan>,
    m: Span,
)
    requires
        spans_ordered(spans),
        spans_within(spans, para.len()),
        takes_effect(spans, m, para.len()),
    ensures
        ({
            let first = last_at_or_before(spans, m.start as int);
            head_of(plan, para, spans, m.start as int) == para.take(spans[0].start as int) + tiles(
                plan,
                para,
                spans,
                0,
                first,
            ) + before_match(plan, para, spans[first], m)
        }),
{
    let first = last_at_or_before(spans, m.start as int);
    lemma_last_at_or_before(spans, m.start as int);
    lemma_run_bounds(para, spans, first);
    assert(local(para, spans[first], m.start as int) == local_start(spans[first], m));
    assert(past(para, spans[first], m.start as int) =~= Seq::<char>::empty());
    assert(head_of(plan, para, spans, m.start as int) =~= para.take(spans[0].start as int)
        + tiles(plan, para, spans, 0, first) + before_match(plan, para, spans[first], m));
}

/// Five texts, joined in two ways.
proof fn lemma_regroup(
    front: Seq<char>,
    pre: Seq<char>,
    sub: Seq<char>,
    tail: Seq<char>,
    back: Seq<char>,
)
    ensures
        front + (pre + sub + tail) + back == ((front + pre) + sub) + (tail + back),
{
    assert(front + (pre + sub + tail) + back =~= ((front + pre) + sub) + (tail + back));
}

/// The text of a paragraph after a match that takes effect: what lay before
/// the start of the match, the substitution, and the text of the paragraph
/// as it was from the end of the match on.
#[verifier::rlimit(60)]
proof fn lemma_match_whole(
    plan: Map<usize, EntryModel>,
    para: Seq<char>,
    spans: Seq<RunSpan>,
    m: Span,
    sub: Seq<char>,
)
    requires
        spans_ordered(spans),
        spans_within(spans, para.len()),
        settled(plan, para, spans, m.start as int),
        takes_effect(spans, m, para.len()),
    ensures
        whole(apply_match(plan, para, spans, m, sub), para, spans) == (head_of(
            plan,
            para,
            spans,
            m.start as int,
        ) + sub) + para.skip(m.end as int),
{
    let after = apply_match(plan, para, spans, m, sub);
    let n = spans.len() as int;
    let first = last_at_or_before(spans, m.start as int);
    let last = last_at_or_before(spans, m.end - 1);
    lemma_match_settles(plan, para, spans, m, sub);
    lemma_behind_match(plan, after, para, spans, m);
    lemma_head_at_match(plan, para, spans, m);
    lemma_tiles_split(after, para, spans, 0, first, n);
    lemma_tiles_split(after, para, spans, first, last + 1, n);
    lemma_tiles_same(after, plan, para, spans, 0, first);
    let bound = boundary(para, spans, last);
    let front = para.take(spans[0].start as int) + tiles(plan, para, spans, 0, first);
    let pre = before_match(plan, para, spans[first], m);
    let tail = para.subrange(m.end as int, bound);
    let back = para.subrange(bound, para.len() as int);
    assert(whole(after, para, spans) == para.take(spans[0].start as int) + tiles(
        after,
        para,
        spans,
        0,
        n,
    ));
    assert(tiles(after, para, spans, first, last + 1) =~= pre + sub + tail);
    assert(tiles(after, para, spans, 0, n) == tiles(plan, para, spans, 0, first) + (tiles(
        after,
        para,
        spans,
        first,
        last + 1,
    ) + back));
    assert(whole(after, para, spans) =~= front + (pre + sub + tail) + back);
    lemma_regroup(front, pre, sub, tail, back);
    assert(para.skip(m.end as int) =~= tail + back);
}

/// One match in a settled paragraph: where the match takes effect, what
/// lies before its end is then what lay before its start, and the
/// substitution; where it does not, nothing changes. The paragraph is then
/// settled at the end of the match.
pub proof fn lemma_match_replaced(
    plan: Map<usize, EntryModel>,
    para: Seq<char>,
    spans: Seq<RunSpan>,
    m: Span,
    sub: Seq<char>,
)
    requires
        spans_ordered(spans),
        spans_within(spans, para.len()),
        settled(plan, para, spans, m.start as int),
        m.start <= m.end <= para.len(),
    ensures
        settled(apply_match(plan, para, spans, m, sub), para, spans, m.end as int),
        takes_effect(spans, m, para.len()) ==> head_of(
            apply_match(plan, para, spans, m, sub),
            para,
            spans,
            m.end as int,
        ) == head_of(plan, para, spans, m.start as int) + sub,
        !takes_effect(spans, m, para.len()) ==> apply_match(plan, para, spans, m, sub) == plan,
{
    let after = apply_match(plan, para, spans, m, sub);
    if takes_effect(spans, m, para.len()) {
        lemma_match_settles(plan, para, spans, m, sub);
        lemma_match_whole(plan, para, spans, m, sub);
        lemma_whole_split(after, para, spans, m.end as int);
        lemma_cancel(
            head_of(after, para, spans, m.end as int),
            head_of(plan, para, spans, m.start as int) + sub,
            para.skip(m.end as int),
        );
    } else {
        lemma_settled_later(plan, para, spans, m.start as int, m.end as int);
    }
}

/// A plan that holds none of the runs of a paragraph is settled at the
/// start of the paragraph, and the paragraph has its own text.
pub proof fn lemma_settled_at_start(
    plan: Map<usize, EntryModel>,
    para: Seq<char>,
    spans: Seq<RunSpan>,
)
    requires
        forall|i: int| 0 <= i < spans.len() ==> !plan.contains_key((#[trigger] spans[i]).id),
    ensures
        settled(plan, para, spans, 0),
{
    assert forall|i: int| 0 <= i < spans.len() implies run_settled(
        plan,
        para,
        #[trigger] spans[i],
        0,
    ) by {
        let text = run_text(para, spans[i]);
        lemma_fresh_entry(text);
        assert(EntryModel::fresh(text).place(0) == 0);
    }
}

/// The position up to which `matches` reach: the end of the last of them.
pub open spec fn reach(matches: Seq<Span>) -> int {
    if matches.len() == 0 {
        0
    } else {
        matches.last().end as int
    }
}

/// The matches that take effect are among the matches: the last of them
/// ends where the matches reach, or before.
pub proof fn lemma_effective_reach(spans: Seq<RunSpan>, matches: Seq<Span>, len: nat)
    requires
        spans_in_order(matches, len),
    ensures
        0 <= reach(effective(spans, matches, len)) <= reach(matches) <= len,
        effective(spans, matches, len).len() > 0 ==> effective(spans, matches, len).last().start
            <= effective(spans, matches, len).last().end,
    decreases matches.len(),
{
    if matches.len() > 0 {
        let shorter = matches.drop_last();
        assert forall|i: int, j: int| 0 <= i < j < shorter.len() implies (#[trigger] shorter[i]).end
            <= (#[trigger] shorter[j]).start by {
            assert(shorter[i] == matches[i] && shorter[j] == matches[j]);
        }
        assert forall|i: int| 0 <= i < shorter.len() implies (#[trigger] shorter[i]).start
            <= shorter[i].end <= len by {
            assert(shorter[i] == matches[i]);
        }
        lemma_effective_reach(spans, shorter, len);
        if shorter.len() > 0 {
            assert(matches[shorter.len() - 1].end <= matches[matches.len() - 1].start);
        }
    }
}

/// The text up to a later position, with matches replaced that end before
/// the earlier one, is the text up to the earlier position with the matches
/// replaced, and the text between the two positions.
proof fn lemma_substituted_extend(
    text: Seq<char>,
    matches: Seq<Span>,
    sub: Seq<char>,
    a: int,
    b: int,
)
    requires
        0 <= reach(matches) <= a <= b <= text.len(),
        matches.len() > 0 ==> matches.last().start <= matches.last().end,
    ensures
        substituted(text.take(b), matches, sub) == substituted(text.take(a), matches, sub)
            + text.subrange(a, b),
{
    if matches.len() == 0 {
        assert(text.take(b) =~= text.take(a) + text.subrange(a, b));
    } else {
        let m = matches.last();
        assert(text.take(b).take(m.start as int) =~= text.take(a).take(m.start as int));
        assert(text.take(b).skip(m.end as int) =~= text.take(a).skip(m.end as int) + text.subrange(
            a,
            b,
        ));
        assert(substituted(text.take(b), matches, sub) =~= substituted(text.take(a), matches, sub)
            + text.subrange(a, b));
    }
}

/// The matches of a paragraph, replaced one after the other in a plan that
/// is settled at the start of the paragraph: what lies before the place
/// that the matches reach is then the text of the paragraph up to there
/// with every match that takes effect replaced by the substitution.
pub proof fn lemma_matches_replaced_so_far(
    plan: Map<usize, EntryModel>,
    para: Seq<char>,
    spans: Seq<RunSpan>,
    matches: Seq<Span>,
    sub: Seq<char>,
)
    requires
        spans_ordered(spans),
        spans_within(spans, para.len()),
        spans_in_order(matches, para.len()),
        settled(plan, para, spans, 0),
    ensures
        settled(apply_matches(plan, para, spans, matches, sub), para, spans, reach(matches)),
        head_of(apply_matches(plan, para, spans, matches, sub), para, spans, reach(matches))
            == substituted(para.take(reach(matches)), effective(spans, matches, para.len()), sub),
    decreases matches.len(),
{
    if matches.len() == 0 {
        lemma_whole_split(plan, para, spans, 0);
        lemma_last_at_or_before(spans, 0);
        let j = last_at_or_before(spans, 0);
        if j >= 0 {
            lemma_run_bounds(para, spans, j);
            if j > 0 {
                assert(spans[0].start < spans[j].start);
            }
            let entry = entry_for(plan, spans[j].id, run_text(para, spans[j]));
            assert(entry.place(0) == 0);
            assert(tiles(plan, para, spans, 0, j) =~= Seq::<char>::empty());
            assert(head_of(plan, para, spans, 0) =~= Seq::<char>::empty());
        }
        assert(para.take(0) =~= Seq::<char>::empty());
    } else {
        let shorter = matches.drop_last();
        let m = matches.last();
        assert forall|i: int, j: int| 0 <= i < j < shorter.len() implies (#[trigger] shorter[i]).end
            <= (#[trigger] shorter[j]).start by {
            assert(shorter[i] == matches[i] && shorter[j] == matches[j]);
        }
        assert forall|i: int| 0 <= i < shorter.len() implies (#[trigger] shorter[i]).start
            <= shorter[i].end <= para.len() by {
            assert(shorter[i] == matches[i]);
        }
        lemma_matches_replaced_so_far(plan, para, spans, shorter, sub);
        lemma_effective_reach(spans, shorter, para.len());
        let before = apply_matches(plan, para, spans, shorter, sub);
        let reached = reach(shorter);
        assert(matches[matches.len() - 1] == m);
        if shorter.len() > 0 {
            assert(matches[shorter.len() - 1].end <= matches[matches.len() - 1].start);
        }
        assert(0 <= reached <= m.start <= m.end <= para.len());
        lemma_head_advance(before, para, spans, reached, m.start as int);
        lemma_substituted_extend(
            para,
            effective(spans, shorter, para.len()),
            sub,
            reached,
            m.start as int,
        );
        lemma_match_replaced(before, para, spans, m, sub);
        let after = apply_matches(plan, para, spans, matches, sub);
        assert(after == apply_match(before, para, spans, m, sub));
        if takes_effect(spans, m, para.len()) {
            let done = effective(spans, shorter, para.len());
            assert(effective(spans, matches, para.len()) == done.push(m));
            assert(effective(spans, matches, para.len()).drop_last() =~= done);
            assert(para.take(m.end as int).take(m.start as int) =~= para.take(m.start as int));
            assert(para.take(m.end as int).skip(m.end as int) =~= Seq::<char>::empty());
            assert(substituted(para.take(m.end as int), effective(spans, matches, para.len()), sub)
                =~= substituted(para.take(m.start as int), done, sub) + sub);
        } else {
            lemma_head_advance(before, para, spans, m.start as int, m.end as int);
            lemma_substituted_extend(
                para,
                effective(spans, shorter, para.len()),
                sub,
                m.start as int,
                m.end as int,
            );
            assert(head_of(after, para, spans, m.end as int) =~= substituted(
                para.take(m.end as int),
                effective(spans, matches, para.len()),
                sub,
            ));
        }
    }
}

/// The replacement of the matches of a paragraph is sound: under the plan,
/// the texts of the runs of the paragraph, read one after the other behind
/// what stands before the first run, are the text of the paragraph with
/// every match that takes effect replaced by the substitution.
pub proof fn lemma_matches_replaced(
    plan: Map<usize, EntryModel>,
    para: Seq<char>,
    spans: Seq<RunSpan>,
    matches: Seq<Span>,
    sub: Seq<char>,
)
    requires
        spans_ordered(spans),
        spans_within(spans, para.len()),
        spans_in_order(matches, para.len()),
        forall|i: int| 0 <= i < spans.len() ==> !plan.contains_key((#[trigger] spans[i]).id),
    ensures
        whole(apply_matches(plan, para, spans, matches, sub), para, spans) == substituted(
            para,
            effective(spans, matches, para.len()),
            sub,
        ),
{
    let after = apply_matches(plan, para, spans, matches, sub);
    lemma_settled_at_start(plan, para, spans);
    lemma_matches_replaced_so_far(plan, para, spans, matches, sub);
    lemma_effective_reach(spans, matches, para.len());
    let reached = reach(matches);
    lemma_whole_split(after, para, spans, reached);
    lemma_substituted_extend(
        para,
        effective(spans, matches, para.len()),
        sub,
        reached,
        para.len() as int,
    );
    assert(para.take(para.len() as int) =~= para);
    assert(para.subrange(reached, para.len() as int) =~= para.skip(reached));
}

/// Whether `id` is the number of none of the runs of `spans`.
pub open spec fn foreign(spans: Seq<RunSpan>, id: usize) -> bool {
    forall|i: int| 0 <= i < spans.len() ==> (#[trigger] spans[i]).id != id
}

/// Whether the two plans hold the same for the run `id`.
pub open spec fn same_at(
    plan: Map<usize, EntryModel>,
    other: Map<usize, EntryModel>,
    id: usize,
) -> bool {
    plan.contains_key(id) == other.contains_key(id) && (plan.contains_key(id) ==> plan[id]
        == other[id])
}

/// Handing a substitution out changes the plan only for runs of the paragraph.
proof fn lemma_spread_frame(
    plan: Map<usize, EntryModel>,
    para: Seq<char>,
    spans: Seq<RunSpan>,
    m: Span,
    i: int,
    last: int,
    rest: Seq<char>,
    id: usize,
)
    requires
        foreign(spans, id),
    ensures
        same_at(spread(plan, para, spans, m, i, last, rest), plan, id),
    decreases last - i + 1,
{
    if !(i < 0 || i > last || last >= spans.len()) {
        assert(spans[i].id != id);
        if i < last {
            let span = spans[i];
            let from = local_start(span, m);
            let len = span.len as int;
            let take = share(len - from, rest.len() as int);
            lemma_spread_frame(
                edit_run(plan, para, span, from, len, rest.take(take)),
                para,
                spans,
                m,
                i + 1,
                last,
                rest.skip(take),
                id,
            );
        }
    }
}

/// Replacing the matches of a paragraph changes the plan only for runs of the paragraph.
pub proof fn lemma_matches_frame(
    plan: Map<usize, EntryModel>,
    para: Seq<char>,
    spans: Seq<RunSpan>,
    matches: Seq<Span>,
    sub: Seq<char>,
    id: usize,
)
    requires
        foreign(spans, id),
    ensures
        same_at(apply_matches(plan, para, spans, matches, sub), plan, id),
    decreases matches.len(),
{
    if matches.len() > 0 {
        lemma_matches_frame(plan, para, spans, matches.drop_last(), sub, id);
        let before = apply_matches(plan, para, spans, matches.drop_last(), sub);
        let m = matches.last();
        lemma_spread_frame(
            before,
            para,
            spans,
            m,
            last_at_or_before(spans, m.start as int),
            last_at_or_before(spans, m.end - 1),
            sub,
            id,
        );
    }
}

/// The plan for the first `n` paragraphs holds only runs of these paragraphs.
pub proof fn lemma_planned_keys(
    paras: Seq<Seq<char>>,
    coords: Seq<RunCoord>,
    pattern: Seq<char>,
    sub: Seq<char>,
    n: nat,
    id: usize,
)
    requires
        coords.len() <= usize::MAX,
        n <= usize::MAX,
        planned(paras, coords, pattern, sub, n).contains_key(id),
    ensures
        id < coords.len(),
        coords[id as int].para < n,
    decreases n,
{
    if n > 0 {
        let line = (n - 1) as usize;
        let spans = line_spans(coords, line);
        let before = planned(paras, coords, pattern, sub, (n - 1) as nat);
        lemma_line_spans(coords, line);
        if foreign(spans, id) {
            lemma_matches_frame(
                before,
                paras[n - 1],
                spans,
                char_spans(paras[n - 1], regex_matches(pattern, paras[n - 1])),
                sub,
                id,
            );
            lemma_planned_keys(paras, coords, pattern, sub, (n - 1) as nat, id);
        } else {
            let i = choose|i: int| 0 <= i < spans.len() && (#[trigger] spans[i]).id == id;
            assert(coords[spans[i].id as int].para == line);
        }
    }
}

/// Two plans that hold the same for the runs of a paragraph give the paragraph the same text.
proof fn lemma_whole_same(
    plan: Map<usize, EntryModel>,
    other: Map<usize, EntryModel>,
    para: Seq<char>,
    spans: Seq<RunSpan>,
)
    requires
        forall|i: int| 0 <= i < spans.len() ==> same_at(plan, other, (#[trigger] spans[i]).id),
    ensures
        whole(plan, para, spans) == whole(other, para, spans),
{
    assert forall|i: int| 0 <= i < spans.len() implies now(plan, para, #[trigger] spans[i]) == now(
        other,
        para,
        spans[i],
    ) by {
        assert(same_at(plan, other, spans[i].id));
    }
    lemma_tiles_same(plan, other, para, spans, 0, spans.len() as int);
}

/// The paragraphs after paragraph `k` leave the runs of paragraph `k` as they are.
proof fn lemma_planned_later(
    paras: Seq<Seq<char>>,
    coords: Seq<RunCoord>,
    pattern: Seq<char>,
    sub: Seq<char>,
    n: nat,
    k: int,
    id: usize,
)
    requires
        coords.len() <= usize::MAX,
        0 <= k < n <= usize::MAX,
        id < coords.len(),
        coords[id as int].para == k,
    ensures
        same_at(
            planned(paras, coords, pattern, sub, n),
            planned(paras, coords, pattern, sub, (k + 1) as nat),
            id,
        ),
    decreases n,
{
    if n > k + 1 {
        let line = (n - 1) as usize;
        let spans = line_spans(coords, line);
        lemma_line_spans(coords, line);
        lemma_planned_later(paras, coords, pattern, sub, (n - 1) as nat, k, id);
        assert(foreign(spans, id)) by {
            assert forall|i: int| 0 <= i < spans.len() implies (#[trigger] spans[i]).id != id by {
                assert(coords[spans[i].id as int].para == line);
            }
        }
        lemma_matches_frame(
            planned(paras, coords, pattern, sub, (n - 1) as nat),
            paras[n - 1],
            spans,
            char_spans(paras[n - 1], regex_matches(pattern, paras[n - 1])),
            sub,
            id,
        );
    }
}

/// The plan for a part is sound: under it, the runs of each paragraph have
/// together the text of the paragraph with every match of the pattern that
/// takes effect replaced by the substitution. This holds of a paragraph
/// whose runs all start within its text, for matches as the engine promises
/// them.
pub proof fn lemma_plan_sound(
    paras: Seq<Seq<char>>,
    coords: Seq<RunCoord>,
    pattern: Seq<char>,
    sub: Seq<char>,
    n: nat,
    k: int,
)
    requires
        coords.len() <= usize::MAX,
        0 <= k < n <= paras.len(),
        n <= usize::MAX,
        spans_within(line_spans(coords, k as usize), paras[k].len()),
        matches_in_order(paras[k], regex_matches(pattern, paras[k])),
    ensures
        whole(planned(paras, coords, pattern, sub, n), paras[k], line_spans(coords, k as usize))
            == substituted(
            paras[k],
            effective(
                line_spans(coords, k as usize),
                char_spans(paras[k], regex_matches(pattern, paras[k])),
                paras[k].len(),
            ),
            sub,
        ),
{
    let spans = line_spans(coords, k as usize);
    let matches = char_spans(paras[k], regex_matches(pattern, paras[k]));
    let before = planned(paras, coords, pattern, sub, k as nat);
    let at = planned(paras, coords, pattern, sub, (k + 1) as nat);
    let all = planned(paras, coords, pattern, sub, n);
    lemma_line_spans(coords, k as usize);
    lemma_char_spans_in_order(paras[k], regex_matches(pattern, paras[k]));
    assert forall|i: int| 0 <= i < spans.len() implies !before.contains_key(
        (#[trigger] spans[i]).id,
    ) by {
        if before.contains_key(spans[i].id) {
            lemma_planned_keys(paras, coords, pattern, sub, k as nat, spans[i].id);
        }
    }
    assert(at == apply_matches(before, paras[k], spans, matches, sub));
    lemma_matches_replaced(before, paras[k], spans, matches, sub);
    assert forall|i: int| 0 <= i < spans.len() implies same_at(
        all,
        at,
        (#[trigger] spans[i]).id,
    ) by {
        lemma_planned_later(paras, coords, pattern, sub, n, k, spans[i].id);
    }
    lemma_whole_same(all, at, paras[k], spans);
}

/// The runs that placed coordinates put into a paragraph all lie within its text.
pub proof fn lemma_runs_within(paras: Seq<Seq<char>>, coords: Seq<RunCoord>, k: int)
    requires
        coords.len() <= usize::MAX,
        0 <= k < paras.len() < usize::MAX,
        forall|id: int|
            0 <= id < coords.len() && (#[trigger] coords[id]).para == k ==> coords[id].offset
                + coords[id].len <= paras[k].len(),
    ensures
        spans_within(line_spans(coords, k as usize), paras[k].len()),
{
    let spans = line_spans(coords, k as usize);
    lemma_line_spans(coords, k as usize);
    assert forall|i: int| 0 <= i < spans.len() implies (#[trigger] spans[i]).end()
        <= paras[k].len() by {
        assert(coords[spans[i].id as int].para == k);
    }
}

/// Replacing in a part is sound. For every paragraph of the part, the plan
/// that replaces the matches of a pattern gives the runs of the paragraph
/// texts that are, with the line separators between them, the text of the
/// paragraph with every match that takes effect replaced by the
/// substitution. This holds of a part that a machine can hold, for matches
/// as the engine promises them.
pub proof fn lemma_replacement_sound(
    part: Seq<u8>,
    src_file: Seq<char>,
    pattern: Seq<char>,
    sub: Seq<char>,
    k: int,
)
    requires
        xml_readings(part).len() < usize::MAX,
        0 <= k < reconstruction(part, Map::empty(), src_file).paras.len(),
        matches_in_order(
            reconstruction(part, Map::empty(), src_file).paras[k],
            regex_matches(pattern, reconstruction(part, Map::empty(), src_file).paras[k]),
        ),
    ensures
        ({
            let read = reconstruction(part, Map::empty(), src_file);
            let spans = line_spans(read.coords, k as usize);
            whole(replacement_plan(part, src_file, pattern, sub), read.paras[k], spans)
                == substituted(
                read.paras[k],
                effective(
                    spans,
                    char_spans(read.paras[k], regex_matches(pattern, read.paras[k])),
                    read.paras[k].len(),
                ),
                sub,
            )
        }),
{
    let read = reconstruction(part, Map::empty(), src_file);
    let end = scan(xml_readings(part), Map::empty(), src_file);
    lemma_coordinates_tally(xml_readings(part), Map::empty(), src_file);
    assert(coords_placed(end));
    assert forall|id: int|
        0 <= id < read.coords.len() && (#[trigger] read.coords[id]).para
            == k implies read.coords[id].end() <= read.paras[k].len() by {
        assert(end.coords[id] == read.coords[id]);
    }
    lemma_runs_within(read.paras, read.coords, k);
    lemma_plan_sound(read.paras, read.coords, pattern, sub, read.paras.len(), k);
}

/// Whether the match `m` covers a character of the run of `span`.
pub open spec fn overlaps(span: RunSpan, m: Span) -> bool {
    m.start < span.end() && span.start < m.end
}

/// Handing a substitution out to the runs from index `i` to index `last`
/// leaves every other run of the paragraph as it is.
proof fn lemma_spread_touches(
    plan: Map<usize, EntryModel>,
    para: Seq<char>,
    spans: Seq<RunSpan>,
    m: Span,
    i: int,
    last: int,
    rest: Seq<char>,
    k: int,
)
    requires
        spans_ordered(spans),
        0 <= k < spans.len(),
        k < i || k > last,
    ensures
        same_at(spread(plan, para, spans, m, i, last, rest), plan, spans[k].id),
    decreases last - i + 1,
{
    if !(i < 0 || i > last || last >= spans.len()) {
        if k < i {
            assert(spans[k].id < spans[i].id);
        } else {
            assert(spans[i].id < spans[k].id);
        }
        if i < last {
            let span = spans[i];
            let from = local_start(span, m);
            let len = span.len as int;
            let take = share(len - from, rest.len() as int);
            lemma_spread_touches(
                edit_run(plan, para, span, from, len, rest.take(take)),
                para,
                spans,
                m,
                i + 1,
                last,
                rest.skip(take),
                k,
            );
        }
    }
}

/// A match leaves every run as it is of which it covers no character.
pub proof fn lemma_match_touches(
    plan: Map<usize, EntryModel>,
    para: Seq<char>,
    spans: Seq<RunSpan>,
    m: Span,
    sub: Seq<char>,
    k: int,
)
    requires
        spans_ordered(spans),
        0 <= k < spans.len(),
        !overlaps(spans[k], m),
    ensures
        same_at(apply_match(plan, para, spans, m, sub), plan, spans[k].id),
{
    if takes_effect(spans, m, para.len()) {
        let first = last_at_or_before(spans, m.start as int);
        let last = last_at_or_before(spans, m.end - 1);
        lemma_last_at_or_before(spans, m.start as int);
        lemma_last_at_or_before(spans, m.end - 1);
        if first <= k <= last {
            if k > first {
                assert(spans[k].start > m.start);
            }
            if k < last {
                assert(spans[k].end() <= spans[last].start);
            }
            assert(overlaps(spans[k], m));
        }
        lemma_spread_touches(plan, para, spans, m, first, last, sub, k);
    }
}

/// Only the runs that a match covers are edited: a run of which no match
/// covers a character has under the plan what it had before.
pub proof fn lemma_untouched_run_stays(
    plan: Map<usize, EntryModel>,
    para: Seq<char>,
    spans: Seq<RunSpan>,
    matches: Seq<Span>,
    sub: Seq<char>,
    k: int,
)
    requires
        spans_ordered(spans),
        0 <= k < spans.len(),
        forall|j: int| 0 <= j < matches.len() ==> !overlaps(spans[k], #[trigger] matches[j]),
    ensures
        same_at(apply_matches(plan, para, spans, matches, sub), plan, spans[k].id),
    decreases matches.len(),
{
    if matches.len() > 0 {
        let shorter = matches.drop_last();
        assert forall|j: int| 0 <= j < shorter.len() implies !overlaps(
            spans[k],
            #[trigger] shorter[j],
        ) by {
            assert(shorter[j] == matches[j]);
        }
        lemma_untouched_run_stays(plan, para, spans, shorter, sub, k);
        assert(matches[matches.len() - 1] == matches.last());
        lemma_match_touches(
            apply_matches(plan, para, spans, shorter, sub),
            para,
            spans,
            matches.last(),
            sub,
            k,
        );
    }
}

/// A run of which no match of the pattern covers a character is not
/// planned: the plan for a part does not hold it, so that it is written out
/// as it was read.
pub proof fn lemma_run_without_match_unplanned(
    paras: Seq<Seq<char>>,
    coords: Seq<RunCoord>,
    pattern: Seq<char>,
    sub: Seq<char>,
    n: nat,
    k: int,
    i: int,
)
    requires
        coords.len() <= usize::MAX,
        0 <= k < n <= paras.len(),
        n <= usize::MAX,
        0 <= i < line_spans(coords, k as usize).len(),
        forall|j: int|
            0 <= j < char_spans(paras[k], regex_matches(pattern, paras[k])).len() ==> !overlaps(
                line_spans(coords, k as usize)[i],
                #[trigger] char_spans(paras[k], regex_matches(pattern, paras[k]))[j],
            ),
    ensures
        !planned(paras, coords, pattern, sub, n).contains_key(line_spans(coords, k as usize)[i].id),
{
    let spans = line_spans(coords, k as usize);
    let matches = char_spans(paras[k], regex_matches(pattern, paras[k]));
    let before = planned(paras, coords, pattern, sub, k as nat);
    let at = planned(paras, coords, pattern, sub, (k + 1) as nat);
    let id = spans[i].id;
    lemma_line_spans(coords, k as usize);
    if before.contains_key(id) {
        lemma_planned_keys(paras, coords, pattern, sub, k as nat, id);
    }
    assert(at == apply_matches(before, paras[k], spans, matches, sub));
    lemma_untouched_run_stays(before, paras[k], spans, matches, sub, i);
    lemma_planned_later(paras, coords, pattern, sub, n, k, id);
}

} // verus!
