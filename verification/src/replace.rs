//! The cross-run replacement engine: from the matches in the text of a
//! paragraph to the edits of the runs that the text came from.
//!
//! A match belongs to the run in which it starts, and reaches up to the run
//! in which its last character lies. The substitution is handed out from left
//! to right: the first run takes as much of it as the match covers there,
//! each run between takes as much as it is long, and the last run takes
//! what is left, in place of the part of the match that lies in it.

use crate::error::DocxError;
use crate::pattern::{
    char_spans, find_all, regex_matches, spans_in_order, to_char_spans, Matcher, Span,
};
use crate::plan::{entry_for, lemma_shift_open, planned_texts, EntryModel, ReplacementPlan};
use crate::reconstruct::{
    lemma_plan_blind, reconstruction, scan, Reconstruction, ReconstructionModel, RunCoord,
};
use crate::spans::{line_spans, spans_ordered, RunSpan};
use crate::text::texts;
use crate::xml::xml_readings;
use crate::xml_util::XMLUtil;
use vstd::prelude::*;
use vstd::string::{StrSliceExecFns, StringExecFns};

verus! {

/// The text of the run of `span` in the paragraph `para`.
pub open spec fn run_text(para: Seq<char>, span: RunSpan) -> Seq<char> {
    para.subrange(span.start as int, span.end())
}

/// The index of the last of `spans` that starts at `pos` or before it; -1 where none does.
pub open spec fn last_at_or_before(spans: Seq<RunSpan>, pos: int) -> int
    decreases spans.len(),
{
    if spans.len() == 0 {
        -1
    } else if spans.last().start <= pos {
        spans.len() - 1
    } else {
        last_at_or_before(spans.drop_last(), pos)
    }
}

/// Whether each of the runs at the indices from `first` up to `last` ends
/// where the next one starts.
pub open spec fn contiguous(spans: Seq<RunSpan>, first: int, last: int) -> bool
    decreases last - first,
{
    first >= last || (spans[last - 1].end() == spans[last].start && contiguous(
        spans,
        first,
        last - 1,
    ))
}

/// Whether the match `m` in a paragraph of `len` characters is replaced: it
/// has characters, and it lies in the text of runs that stand one directly
/// after the other, so that it covers no line separator.
pub open spec fn takes_effect(spans: Seq<RunSpan>, m: Span, len: nat) -> bool {
    let first = last_at_or_before(spans, m.start as int);
    let last = last_at_or_before(spans, m.end - 1);
    &&& m.start < m.end
    &&& 0 <= first <= last < spans.len()
    &&& m.start < spans[first].end()
    &&& m.end <= spans[last].end() <= len
    &&& contiguous(spans, first, last)
}

/// The plan after the original characters from `from` up to `to` of the run
/// of `span` have been replaced by `chunk`.
pub open spec fn edit_run(
    plan: Map<usize, EntryModel>,
    para: Seq<char>,
    span: RunSpan,
    from: int,
    to: int,
    chunk: Seq<char>,
) -> Map<usize, EntryModel> {
    plan.insert(span.id, entry_for(plan, span.id, run_text(para, span)).edited(from, to, chunk))
}

/// Where the match `m` starts in the run of `span`: at the start of the run
/// where the match has started before it.
pub open spec fn local_start(span: RunSpan, m: Span) -> int {
    if span.start <= m.start {
        m.start - span.start
    } else {
        0
    }
}

/// How much of a substitution of `rest` characters a run takes that is not
/// the last of its match: as much as the match covers of it, or all of it.
pub open spec fn share(covered: int, rest: int) -> int {
    if covered <= rest {
        covered
    } else {
        rest
    }
}

/// The plan after `rest` has been handed out to the runs of the match `m`,
/// from the run at index `i` up to that at index `last`.
pub open spec fn spread(
    plan: Map<usize, EntryModel>,
    para: Seq<char>,
    spans: Seq<RunSpan>,
    m: Span,
    i: int,
    last: int,
    rest: Seq<char>,
) -> Map<usize, EntryModel>
    decreases last - i + 1,
{
    if i < 0 || i > last || last >= spans.len() {
        plan
    } else {
        let span = spans[i];
        let from = local_start(span, m);
        if i == last {
            edit_run(plan, para, span, from, m.end - span.start, rest)
        } else {
            let len = span.len as int;
            let take = share(len - from, rest.len() as int);
            spread(
                edit_run(plan, para, span, from, len, rest.take(take)),
                para,
                spans,
                m,
                i + 1,
                last,
                rest.skip(take),
            )
        }
    }
}

/// The plan after the match `m` in the paragraph `para` has been replaced by
/// `sub`. A match without characters, and one that does not lie in the text
/// of runs alone, changes nothing.
pub open spec fn apply_match(
    plan: Map<usize, EntryModel>,
    para: Seq<char>,
    spans: Seq<RunSpan>,
    m: Span,
    sub: Seq<char>,
) -> Map<usize, EntryModel> {
    if takes_effect(spans, m, para.len()) {
        spread(
            plan,
            para,
            spans,
            m,
            last_at_or_before(spans, m.start as int),
            last_at_or_before(spans, m.end - 1),
            sub,
        )
    } else {
        plan
    }
}

/// The plan after each of `matches` in the paragraph `para` has been replaced by `sub`.
pub open spec fn apply_matches(
    plan: Map<usize, EntryModel>,
    para: Seq<char>,
    spans: Seq<RunSpan>,
    matches: Seq<Span>,
    sub: Seq<char>,
) -> Map<usize, EntryModel>
    decreases matches.len(),
{
    if matches.len() == 0 {
        plan
    } else {
        apply_match(
            apply_matches(plan, para, spans, matches.drop_last(), sub),
            para,
            spans,
            matches.last(),
            sub,
        )
    }
}

/// Whether the entry of the run of `span` is valid, belongs to the run's
/// text, and no edit has reached the position `frontier` of the paragraph.
pub open spec fn run_ready(
    plan: Map<usize, EntryModel>,
    para: Seq<char>,
    span: RunSpan,
    frontier: int,
) -> bool {
    let entry = entry_for(plan, span.id, run_text(para, span));
    &&& entry.wf()
    &&& entry.corr.len() == run_text(para, span).len()
    &&& entry.open_from(frontier - span.start)
}

/// Whether the plan can take the edits of a match that starts at `frontier` or later.
pub open spec fn plan_ready(
    plan: Map<usize, EntryModel>,
    para: Seq<char>,
    spans: Seq<RunSpan>,
    frontier: int,
) -> bool {
    forall|i: int| 0 <= i < spans.len() ==> run_ready(plan, para, #[trigger] spans[i], frontier)
}

/// Whether every run that `plan` holds is a run of `before` or one of `spans`.
pub open spec fn grown_by(
    plan: Map<usize, EntryModel>,
    before: Map<usize, EntryModel>,
    spans: Seq<RunSpan>,
) -> bool {
    forall|id: usize| #[trigger]
        plan.contains_key(id) ==> before.contains_key(id) || exists|i: int|
            0 <= i < spans.len() && (#[trigger] spans[i]).id == id
}

/// What `last_at_or_before` finds: the run found starts at `pos` or before
/// it, and every later run starts after `pos`.
pub proof fn lemma_last_at_or_before(spans: Seq<RunSpan>, pos: int)
    ensures
        -1 <= last_at_or_before(spans, pos) < spans.len(),
        last_at_or_before(spans, pos) >= 0 ==> spans[last_at_or_before(spans, pos)].start <= pos,
        forall|i: int|
            last_at_or_before(spans, pos) < i < spans.len() ==> (#[trigger] spans[i]).start > pos,
    decreases spans.len(),
{
    if spans.len() > 0 && spans.last().start > pos {
        lemma_last_at_or_before(spans.drop_last(), pos);
        let found = last_at_or_before(spans, pos);
        assert forall|i: int| found < i < spans.len() implies (#[trigger] spans[i]).start > pos by {
            if i < spans.len() - 1 {
                assert(spans.drop_last()[i] == spans[i]);
            }
        }
    }
}

/// A run that lies later in an ordered paragraph is found for a later position.
pub proof fn lemma_last_at_or_before_monotone(spans: Seq<RunSpan>, a: int, b: int)
    requires
        a <= b,
    ensures
        last_at_or_before(spans, a) <= last_at_or_before(spans, b),
    decreases spans.len(),
{
    if spans.len() > 0 {
        lemma_last_at_or_before(spans.drop_last(), a);
        lemma_last_at_or_before_monotone(spans.drop_last(), a, b);
    }
}

/// Runs that stand one directly after the other from `first` to `last` do so
/// from any index between on, and the run at each index before `last` ends
/// where the next one starts.
pub proof fn lemma_contiguous(spans: Seq<RunSpan>, first: int, i: int, last: int)
    requires
        contiguous(spans, first, last),
        first <= i <= last,
    ensures
        contiguous(spans, i, last),
        i < last ==> spans[i].end() == spans[i + 1].start,
    decreases last - i,
{
    if i < last {
        lemma_contiguous(spans, first, i, last - 1);
        if i < last - 1 {
        }
    }
}

/// Finds the last of `spans` that starts at `pos` or before it.
pub fn locate(spans: &Vec<RunSpan>, pos: usize) -> (res: Option<usize>)
    ensures
        match res {
            Some(i) => i == last_at_or_before(spans@, pos as int),
            None => last_at_or_before(spans@, pos as int) == -1,
        },
{
    let mut n: usize = spans.len();
    assert(spans@.take(n as int) =~= spans@);
    while n > 0
        invariant
            n <= spans.len(),
            last_at_or_before(spans@, pos as int) == last_at_or_before(
                spans@.take(n as int),
                pos as int,
            ),
        decreases n,
    {
        assert(spans@.take(n as int).drop_last() =~= spans@.take(n - 1));
        if spans[n - 1].start <= pos {
            return Some(n - 1);
        }
        n -= 1;
    }
    None
}

/// An entry that has never been edited is valid.
pub proof fn lemma_fresh_entry(tag: Seq<char>)
    ensures
        EntryModel::fresh(tag).wf(),
        EntryModel::fresh(tag).open_from(0),
        EntryModel::fresh(tag).corr.len() == tag.len(),
{
    lemma_shift_open(EntryModel::fresh(tag).corr, 0, tag.len() as int);
}

/// A plan that holds none of the runs of a paragraph can take the edits of its matches.
pub proof fn lemma_plan_ready_at_start(
    plan: Map<usize, EntryModel>,
    para: Seq<char>,
    spans: Seq<RunSpan>,
)
    requires
        forall|i: int| 0 <= i < spans.len() ==> !plan.contains_key((#[trigger] spans[i]).id),
    ensures
        plan_ready(plan, para, spans, 0),
{
    assert forall|i: int| 0 <= i < spans.len() implies run_ready(
        plan,
        para,
        #[trigger] spans[i],
        0,
    ) by {
        lemma_fresh_entry(run_text(para, spans[i]));
    }
}

/// A plan that can take a match at one position can take one at any later position.
pub proof fn lemma_plan_ready_later(
    plan: Map<usize, EntryModel>,
    para: Seq<char>,
    spans: Seq<RunSpan>,
    frontier: int,
    later: int,
)
    requires
        plan_ready(plan, para, spans, frontier),
        frontier <= later,
    ensures
        plan_ready(plan, para, spans, later),
{
    assert forall|i: int| 0 <= i < spans.len() implies run_ready(
        plan,
        para,
        #[trigger] spans[i],
        later,
    ) by {
        assert(run_ready(plan, para, spans[i], frontier));
    }
}

impl XMLUtil {
    /// Tells whether the match `m` in the paragraph `para` is replaced, and
    /// gives the indices of the first and the last run that it lies in.
    pub fn match_runs(para_len: usize, spans: &Vec<RunSpan>, m: Span) -> (res: Option<
        (usize, usize),
    >)
        requires
            spans_ordered(spans@),
        ensures
            match res {
                Some((first, last)) => takes_effect(spans@, m, para_len as nat) && first
                    == last_at_or_before(spans@, m.start as int) && last == last_at_or_before(
                    spans@,
                    m.end - 1,
                ),
                None => !takes_effect(spans@, m, para_len as nat),
            },
    {
        if m.start >= m.end {
            return None;
        }
        proof {
            lemma_last_at_or_before(spans@, m.start as int);
            lemma_last_at_or_before(spans@, m.end - 1);
            lemma_last_at_or_before_monotone(spans@, m.start as int, m.end - 1);
        }
        let first = match locate(spans, m.start) {
            Some(i) => i,
            None => {
                return None;
            },
        };
        let last = match locate(spans, m.end - 1) {
            Some(i) => i,
            None => {
                return None;
            },
        };
        if m.start - spans[first].start >= spans[first].len {
            return None;
        }
        if spans[last].start > para_len || spans[last].len > para_len - spans[last].start {
            return None;
        }
        if m.end - spans[last].start > spans[last].len {
            return None;
        }
        let mut i: usize = first;
        while i < last
            invariant
                first <= i <= last < spans.len(),
                spans_ordered(spans@),
                first == last_at_or_before(spans@, m.start as int),
                last == last_at_or_before(spans@, m.end - 1),
                contiguous(spans@, first as int, i as int),
            decreases last - i,
        {
            assert(spans@[i as int].end() <= spans@[i + 1].start);
            if spans[i + 1].start - spans[i].start != spans[i].len {
                proof {
                    if contiguous(spans@, first as int, last as int) {
                        lemma_contiguous(spans@, first as int, i as int, last as int);
                    }
                }
                return None;
            }
            i += 1;
        }
        Some((first, last))
    }

    /// Replaces the match `m` in the paragraph `para` by `replace`: the edits
    /// of the runs that the match lies in are added to `plan`.
    pub fn apply_match(
        plan: &mut ReplacementPlan,
        para: &str,
        spans: &Vec<RunSpan>,
        m: Span,
        replace: &str,
    )
        requires
            spans_ordered(spans@),
            m.start <= m.end <= para@.len(),
            plan_ready(old(plan)@, para@, spans@, m.start as int),
        ensures
            final(plan)@ == apply_match(old(plan)@, para@, spans@, m, replace@),
            plan_ready(final(plan)@, para@, spans@, m.end as int),
            grown_by(final(plan)@, old(plan)@, spans@),
    {
        let ghost before = plan@;
        proof {
            lemma_plan_ready_later(before, para@, spans@, m.start as int, m.end as int);
            lemma_last_at_or_before(spans@, m.start as int);
            lemma_last_at_or_before(spans@, m.end - 1);
        }
        let para_len = para.unicode_len();
        let (first, last) = match Self::match_runs(para_len, spans, m) {
            Some(found) => found,
            None => {
                return ;
            },
        };
        let mut rest = String::from_str(replace);
        let mut i: usize = first;
        while i < last
            invariant
                first <= i <= last < spans.len(),
                spans_ordered(spans@),
                m.start < m.end <= para@.len(),
                para_len == para@.len(),
                first == last_at_or_before(spans@, m.start as int),
                last == last_at_or_before(spans@, m.end - 1),
                contiguous(spans@, first as int, last as int),
                spans@[first as int].start <= m.start < spans@[first as int].end(),
                spans@[last as int].start < m.end <= spans@[last as int].end() <= para@.len(),
                forall|k: int| first < k < spans.len() ==> (#[trigger] spans@[k]).start > m.start,
                spread(plan@, para@, spans@, m, i as int, last as int, rest@) == spread(
                    before,
                    para@,
                    spans@,
                    m,
                    first as int,
                    last as int,
                    replace@,
                ),
                forall|k: int|
                    0 <= k < spans.len() ==> run_ready(
                        plan@,
                        para@,
                        #[trigger] spans@[k],
                        if k < i {
                            m.end as int
                        } else {
                            m.start as int
                        },
                    ),
                grown_by(plan@, before, spans@),
            decreases last - i,
        {
            let span = spans[i];
            let ghost prior = plan@;
            proof {
                lemma_contiguous(spans@, first as int, i as int, last as int);
            }
            assert(spans@[i + 1].start <= spans@[last as int].start) by {
                if i + 1 < last {
                    assert(spans@[i + 1].end() <= spans@[last as int].start);
                }
            }
            assert(run_ready(prior, para@, spans@[i as int], m.start as int));
            let from = if span.start <= m.start {
                m.start - span.start
            } else {
                0
            };
            let len = span.len;
            let tag = para.substring_char(span.start, spans[i + 1].start);
            let rest_len = rest.as_str().unicode_len();
            let take = if len - from <= rest_len {
                len - from
            } else {
                rest_len
            };
            let chunk = rest.as_str().substring_char(0, take);
            assert(chunk@ =~= rest@.take(take as int));
            assert(tag@ == run_text(para@, span));
            XMLUtil::replace_within_tag(plan, span.id, tag, from, len, chunk);
            let tail = String::from_str(rest.as_str().substring_char(take, rest_len));
            assert(tail@ =~= rest@.skip(take as int));
            rest = tail;
            proof {
                assert(plan@ == edit_run(prior, para@, span, from as int, len as int, chunk@));
                assert forall|k: int| 0 <= k < spans.len() implies run_ready(
                    plan@,
                    para@,
                    #[trigger] spans@[k],
                    if k < i + 1 {
                        m.end as int
                    } else {
                        m.start as int
                    },
                ) by {
                    if k != i {
                        if k < i {
                            assert(spans@[k].id < spans@[i as int].id);
                        } else {
                            assert(spans@[i as int].id < spans@[k].id);
                        }
                        assert(run_ready(
                            prior,
                            para@,
                            spans@[k],
                            if k < i {
                                m.end as int
                            } else {
                                m.start as int
                            },
                        ));
                    }
                }
                assert forall|id: usize| #[trigger] plan@.contains_key(id) implies before.contains_key(
                    id,
                ) || exists|k: int| 0 <= k < spans.len() && (#[trigger] spans@[k]).id == id by {
                    if id == span.id {
                        assert(spans@[i as int].id == id);
                    } else {
                        assert(prior.contains_key(id));
                    }
                }
            }
            i += 1;
        }
        let span = spans[last];
        let ghost prior = plan@;
        assert(run_ready(prior, para@, spans@[last as int], m.start as int));
        let from = if span.start <= m.start {
            m.start - span.start
        } else {
            0
        };
        let tag = para.substring_char(span.start, span.start + span.len);
        assert(tag@ == run_text(para@, span));
        assert(from < m.end - span.start) by {
            if first < last {
                assert(spans@[last as int].start > m.start);
            }
        }
        XMLUtil::replace_within_tag(plan, span.id, tag, from, m.end - span.start, rest.as_str());
        proof {
            assert(plan@ == edit_run(
                prior,
                para@,
                span,
                from as int,
                m.end - span.start,
                rest@,
            ));
            assert forall|k: int| 0 <= k < spans.len() implies run_ready(
                plan@,
                para@,
                #[trigger] spans@[k],
                m.end as int,
            ) by {
                if k != last {
                    if k < last {
                        assert(spans@[k].id < spans@[last as int].id);
                    } else {
                        assert(spans@[last as int].id < spans@[k].id);
                    }
                    assert(run_ready(
                        prior,
                        para@,
                        spans@[k],
                        if k < last {
                            m.end as int
                        } else {
                            m.start as int
                        },
                    ));
                }
            }
            assert forall|id: usize| #[trigger] plan@.contains_key(id) implies before.contains_key(
                id,
            ) || exists|k: int| 0 <= k < spans.len() && (#[trigger] spans@[k]).id == id by {
                if id == span.id {
                    assert(spans@[last as int].id == id);
                } else {
                    assert(prior.contains_key(id));
                }
            }
        }
    }

    /// Replaces each of `matches` in the paragraph `para` by `replace`.
    pub fn apply_matches(
        plan: &mut ReplacementPlan,
        para: &str,
        spans: &Vec<RunSpan>,
        matches: &Vec<Span>,
        replace: &str,
    )
        requires
            spans_ordered(spans@),
            spans_in_order(matches@, para@.len()),
            plan_ready(old(plan)@, para@, spans@, 0),
        ensures
            final(plan)@ == apply_matches(old(plan)@, para@, spans@, matches@, replace@),
            grown_by(final(plan)@, old(plan)@, spans@),
    {
        let ghost before = plan@;
        let mut k: usize = 0;
        assert(matches@.take(0) =~= Seq::<Span>::empty());
        while k < matches.len()
            invariant
                k <= matches.len(),
                spans_ordered(spans@),
                spans_in_order(matches@, para@.len()),
                plan@ == apply_matches(before, para@, spans@, matches@.take(k as int), replace@),
                plan_ready(
                    plan@,
                    para@,
                    spans@,
                    if k == 0 {
                        0
                    } else {
                        matches@[k - 1].end as int
                    },
                ),
                grown_by(plan@, before, spans@),
            decreases matches.len() - k,
        {
            let m = matches[k];
            let ghost prior = plan@;
            proof {
                assert(matches@.take(k + 1).drop_last() =~= matches@.take(k as int));
                if k > 0 {
                    assert(matches@[k - 1].end <= matches@[k as int].start);
                    lemma_plan_ready_later(
                        plan@,
                        para@,
                        spans@,
                        matches@[k - 1].end as int,
                        m.start as int,
                    );
                } else {
                    lemma_plan_ready_later(plan@, para@, spans@, 0, m.start as int);
                }
            }
            XMLUtil::apply_match(plan, para, spans, m, replace);
            k += 1;
            assert forall|id: usize| #[trigger] plan@.contains_key(id) implies before.contains_key(
                id,
            ) || exists|i: int| 0 <= i < spans.len() && (#[trigger] spans@[i]).id == id by {
                if !(exists|i: int| 0 <= i < spans.len() && (#[trigger] spans@[i]).id == id) {
                    assert(prior.contains_key(id));
                }
            }
        }
        assert(matches@.take(matches.len() as int) =~= matches@);
    }
}

/// The plan after the matches of `pattern` in the first `n` paragraphs have
/// been replaced by `sub`.
pub open spec fn planned(
    paras: Seq<Seq<char>>,
    coords: Seq<RunCoord>,
    pattern: Seq<char>,
    sub: Seq<char>,
    n: nat,
) -> Map<usize, EntryModel>
    decreases n,
{
    if n == 0 {
        Map::empty()
    } else {
        let line = (n - 1) as int;
        apply_matches(
            planned(paras, coords, pattern, sub, (n - 1) as nat),
            paras[line],
            line_spans(coords, line as usize),
            char_spans(paras[line], regex_matches(pattern, paras[line])),
            sub,
        )
    }
}

/// The plan that replaces every match of `pattern` in the text of the part `part` by `sub`.
pub open spec fn replacement_plan(
    part: Seq<u8>,
    src_file: Seq<char>,
    pattern: Seq<char>,
    sub: Seq<char>,
) -> Map<usize, EntryModel> {
    let read = reconstruction(part, Map::empty(), src_file);
    planned(read.paras, read.coords, pattern, sub, read.paras.len())
}

/// Whether every run that `plan` holds lies in a paragraph before paragraph `line`.
pub open spec fn keys_below(
    plan: Map<usize, EntryModel>,
    coords: Seq<RunCoord>,
    line: int,
) -> bool {
    forall|id: usize| #[trigger]
        plan.contains_key(id) ==> id < coords.len() && coords[id as int].para < line
}

/// Where the pattern matches in none of the first `n` paragraphs, the plan stays empty.
pub proof fn lemma_no_match_no_edit(
    paras: Seq<Seq<char>>,
    coords: Seq<RunCoord>,
    pattern: Seq<char>,
    sub: Seq<char>,
    n: nat,
)
    requires
        n <= paras.len(),
        forall|k: int| 0 <= k < n ==> (#[trigger] regex_matches(pattern, paras[k])).len() == 0,
    ensures
        planned(paras, coords, pattern, sub, n) == Map::<usize, EntryModel>::empty(),
    decreases n,
{
    if n > 0 {
        lemma_no_match_no_edit(paras, coords, pattern, sub, (n - 1) as nat);
        let line = (n - 1) as int;
        assert(regex_matches(pattern, paras[line]).len() == 0);
        assert(char_spans(paras[line], regex_matches(pattern, paras[line])) =~= Seq::<
            Span,
        >::empty());
    }
}

/// What replacing in a part gives: `None` where nothing is to change.
pub open spec fn replaced(
    part: Seq<u8>,
    src_file: Seq<char>,
    pattern: Seq<char>,
    sub: Seq<char>,
) -> Option<ReconstructionModel> {
    let plan = replacement_plan(part, src_file, pattern, sub);
    if plan == Map::<usize, EntryModel>::empty() {
        None
    } else {
        Some(reconstruction(part, planned_texts(plan), src_file))
    }
}

/// Where the pattern matches in no paragraph of a part, nothing is written.
pub proof fn lemma_no_match_writes_nothing(
    part: Seq<u8>,
    src_file: Seq<char>,
    pattern: Seq<char>,
    sub: Seq<char>,
)
    requires
        forall|k: int|
            0 <= k < reconstruction(part, Map::empty(), src_file).paras.len() ==> (
            #[trigger] regex_matches(
                pattern,
                reconstruction(part, Map::empty(), src_file).paras[k],
            )).len() == 0,
    ensures
        replaced(part, src_file, pattern, sub) is None,
{
    let read = reconstruction(part, Map::empty(), src_file);
    lemma_no_match_no_edit(read.paras, read.coords, pattern, sub, read.paras.len());
}

impl XMLUtil {
    /// Replaces every match of `regex` in the text of the part `xml` by
    /// `replace`. The part is read once for its text and the coordinates of
    /// its runs; the matches of each paragraph become edits of its runs; and
    /// where there is any edit, the part is read again and written out with
    /// the edits made. Where nothing matches, nothing is written: `None`.
    pub fn replace_text(xml: &[u8], src_file: &str, regex: &Matcher, replace: &str) -> (res: Result<
        Option<Reconstruction>,
        DocxError,
    >)
        ensures
            ({
                let read = scan(xml_readings(xml@), Map::empty(), src_file@);
                match res {
                    Ok(done) => {
                        &&& read.failed is None
                        &&& match done {
                            Some(r) => Some(r@),
                            None => None,
                        } == replaced(xml@, src_file@, regex@, replace@)
                    },
                    Err(e) => exists|offset: u64|
                        e == (DocxError::MalformedMarkup { offset }) && read.failed == Some(
                            offset as nat,
                        ),
                }
            }),
    {
        let empty = ReplacementPlan::new();
        assert(planned_texts(empty@) =~= Map::<usize, Seq<char>>::empty());
        let first = match Self::get_replace_text(xml, src_file, &empty) {
            Ok(first) => first,
            Err(e) => {
                return Err(e);
            },
        };
        let ghost paras = texts(first.paras@);
        let ghost coords = first.coords@;
        let ghost pattern = regex@;
        let mut plan = ReplacementPlan::new();
        let mut cur_line: usize = 0;
        while cur_line < first.paras.len()
            invariant
                cur_line <= first.paras.len(),
                paras == texts(first.paras@),
                coords == first.coords@,
                pattern == regex@,
                plan@ == planned(paras, coords, pattern, replace@, cur_line as nat),
                keys_below(plan@, coords, cur_line as int),
            decreases first.paras.len() - cur_line,
        {
            let para = first.paras[cur_line].as_str();
            assert(para@ == paras[cur_line as int]);
            let spans = Self::get_line_coords(cur_line, &first.coords);
            let byte_matches = find_all(regex, para);
            let matches = to_char_spans(para, &byte_matches);
            let ghost prior = plan@;
            proof {
                assert forall|i: int| 0 <= i < spans.len() implies !prior.contains_key(
                    (#[trigger] spans@[i]).id,
                ) by {
                    assert(coords[spans@[i].id as int].para == cur_line);
                }
                lemma_plan_ready_at_start(prior, para@, spans@);
            }
            Self::apply_matches(&mut plan, para, &spans, &matches, replace);
            proof {
                assert forall|id: usize| #[trigger] plan@.contains_key(id) implies id < coords.len()
                    && coords[id as int].para < cur_line + 1 by {
                    if !prior.contains_key(id) {
                        let i = choose|i: int|
                            0 <= i < spans.len() && (#[trigger] spans@[i]).id == id;
                        assert(coords[spans@[i].id as int].para == cur_line);
                    }
                }
            }
            cur_line += 1;
        }
        if plan.is_empty() {
            return Ok(None);
        }
        proof {
            lemma_plan_blind(
                xml_readings(xml@),
                Map::empty(),
                planned_texts(plan@),
                src_file@,
            );
        }
        match Self::get_replace_text(xml, src_file, &plan) {
            Ok(second) => Ok(Some(second)),
            Err(e) => Err(e),
        }
    }
}

} // verus!
