//! The replacement plan: for each run that is to change, its text after the
//! edits made so far, and a table of corrections that leads from a position
//! in the run's original text to the same place in its current text.
//!
//! Positions are counted in characters. Edits of one run arrive in the order
//! of their positions: each starts where the one before it ended, or later.

use crate::xml_util::XMLUtil;
use std::collections::HashMap;
use vstd::prelude::*;
use vstd::std_specs::hash::*;
use vstd::string::{StrSliceExecFns, StringExecFns};

verus! {

broadcast use vstd::std_specs::hash::group_hash_axioms;

/// The sum of the first `k` corrections.
pub open spec fn shift(corr: Seq<int>, k: int) -> int
    decreases k,
{
    if k <= 0 {
        0
    } else {
        shift(corr, k - 1) + corr[k - 1]
    }
}

/// `text` with the characters from `from` up to `to` replaced by `chunk`.
pub open spec fn splice(text: Seq<char>, from: int, to: int, chunk: Seq<char>) -> Seq<char> {
    text.take(from) + chunk + text.skip(to)
}

/// The corrections after the original characters from `start` up to `end`
/// have been replaced by `len` characters. Where the text shrinks, each
/// original position that is left without a character of its own gives up
/// one; where it grows, the last replaced position takes the surplus.
pub open spec fn corrected(corr: Seq<int>, start: int, end: int, len: int) -> Seq<int> {
    let delta = len - (end - start);
    if delta < 0 {
        Seq::new(
            corr.len(),
            |i: int|
                if end + delta <= i < end {
                    corr[i] - 1
                } else {
                    corr[i]
                },
        )
    } else if delta > 0 {
        corr.update(end - 1, corr[end - 1] + delta)
    } else {
        corr
    }
}

/// The mathematical value of a [`PlanEntry`].
pub struct EntryModel {
    /// The run's text after the edits made so far.
    pub text: Seq<char>,
    /// One correction for each character of the run's original text.
    pub corr: Seq<int>,
}

impl EntryModel {
    /// The entry of a run with text `tag` that has not been edited.
    pub open spec fn fresh(tag: Seq<char>) -> EntryModel {
        EntryModel { text: tag, corr: Seq::new(tag.len(), |i: int| 0int) }
    }

    /// The entry after the original characters from `start` up to `end` have
    /// been replaced by `chunk`.
    pub open spec fn edited(self, start: int, end: int, chunk: Seq<char>) -> EntryModel {
        let c = shift(self.corr, start);
        EntryModel {
            text: splice(self.text, start + c, end + c, chunk),
            corr: corrected(self.corr, start, end, chunk.len() as int),
        }
    }

    /// Where the original position `k` lies in the current text.
    pub open spec fn place(self, k: int) -> int {
        k + shift(self.corr, k)
    }

    /// The invariant of an entry: no correction takes away more than the one
    /// character of its position, and the corrections add up to the change of
    /// the text's length.
    pub open spec fn wf(self) -> bool {
        &&& forall|i: int| 0 <= i < self.corr.len() ==> #[trigger] self.corr[i] >= -1
        &&& self.place(self.corr.len() as int) == self.text.len()
    }

    /// Whether no edit has reached the original position `start` or any later one.
    pub open spec fn open_from(self, start: int) -> bool {
        forall|i: int| 0 <= i && start <= i < self.corr.len() ==> #[trigger] self.corr[i] == 0
    }

    /// Whether the entry is valid and can take an edit that starts at `start`.
    pub open spec fn accepts(self, start: int) -> bool {
        self.wf() && self.open_from(start)
    }
}

/// The entry of one run in a plan.
pub struct PlanEntry {
    pub text: String,
    pub corr: Vec<i128>,
}

impl View for PlanEntry {
    type V = EntryModel;

    open spec fn view(&self) -> EntryModel {
        EntryModel {
            text: self.text@,
            corr: Seq::new(self.corr@.len(), |i: int| self.corr@[i] as int),
        }
    }
}

/// The edits that are to be made to the runs of a part, by the number of the run.
pub struct ReplacementPlan {
    pub entries: HashMap<usize, PlanEntry>,
}

impl View for ReplacementPlan {
    type V = Map<usize, EntryModel>;

    open spec fn view(&self) -> Map<usize, EntryModel> {
        Map::new(|id: usize| self.entries@.contains_key(id), |id: usize| self.entries@[id]@)
    }
}

/// The entry that an edit of run `id` with original text `tag` starts from.
pub open spec fn entry_for(plan: Map<usize, EntryModel>, id: usize, tag: Seq<char>) -> EntryModel {
    if plan.contains_key(id) {
        plan[id]
    } else {
        EntryModel::fresh(tag)
    }
}

/// The text that each planned run is to get, by the number of the run.
pub open spec fn planned_texts(plan: Map<usize, EntryModel>) -> Map<usize, Seq<char>> {
    Map::new(|id: usize| plan.contains_key(id), |id: usize| plan[id].text)
}

/// The corrections before a position are not touched by an edit that starts there or later.
pub proof fn lemma_shift_before(corr: Seq<int>, start: int, end: int, len: int, k: int)
    requires
        0 <= k <= start < end <= corr.len(),
        0 <= len,
    ensures
        shift(corrected(corr, start, end, len), k) == shift(corr, k),
    decreases k,
{
    if k > 0 {
        lemma_shift_before(corr, start, end, len, k - 1);
    }
}

/// Past the end of an edit, every position is moved by the change of length.
pub proof fn lemma_shift_after(corr: Seq<int>, start: int, end: int, len: int, k: int)
    requires
        0 <= start < end <= k <= corr.len(),
        0 <= len,
    ensures
        shift(corrected(corr, start, end, len), k) == shift(corr, k) + len - (end - start),
    decreases k,
{
    let next = corrected(corr, start, end, len);
    let delta = len - (end - start);
    if k > end {
        lemma_shift_after(corr, start, end, len, k - 1);
    } else if delta < 0 {
        lemma_shift_shrunk(corr, start, end, len, end);
    } else if delta > 0 {
        lemma_shift_same(next, corr, end - 1);
    } else {
        lemma_shift_same(corr, corr, k);
    }
}

/// Equal corrections have equal sums.
proof fn lemma_shift_same(a: Seq<int>, b: Seq<int>, k: int)
    requires
        0 <= k <= a.len(),
        a.len() == b.len(),
        forall|i: int| 0 <= i < k ==> a[i] == b[i],
    ensures
        shift(a, k) == shift(b, k),
    decreases k,
{
    if k > 0 {
        lemma_shift_same(a, b, k - 1);
    }
}

/// Within the stretch that a shrinking edit empties, each position gives up one.
proof fn lemma_shift_shrunk(corr: Seq<int>, start: int, end: int, len: int, k: int)
    requires
        0 <= start < end <= corr.len(),
        0 <= len < end - start,
        start + len <= k <= end,
    ensures
        shift(corrected(corr, start, end, len), k) == shift(corr, k) - (k - (start + len)),
    decreases k,
{
    if k > start + len {
        lemma_shift_shrunk(corr, start, end, len, k - 1);
    } else {
        lemma_shift_same(corrected(corr, start, end, len), corr, k);
    }
}

/// Where no edit has reached `start`, every later position is moved as `start` is.
pub proof fn lemma_shift_open(corr: Seq<int>, start: int, k: int)
    requires
        0 <= start <= k <= corr.len(),
        forall|i: int| start <= i < corr.len() ==> #[trigger] corr[i] == 0,
    ensures
        shift(corr, k) == shift(corr, start),
    decreases k,
{
    if k > start {
        lemma_shift_open(corr, start, k - 1);
    }
}

/// The places of the original positions in the current text never go back,
/// and none lies before the start of the text.
pub proof fn lemma_place_monotone(entry: EntryModel, j: int, k: int)
    requires
        forall|i: int| 0 <= i < entry.corr.len() ==> #[trigger] entry.corr[i] >= -1,
        0 <= j <= k <= entry.corr.len(),
    ensures
        0 <= entry.place(j) <= entry.place(k),
    decreases k,
{
    if k > j {
        lemma_place_monotone(entry, j, k - 1);
    } else if j > 0 {
        lemma_place_monotone(entry, j - 1, j - 1);
    }
}

/// An edit of a valid entry, made at or after the last one, leaves a valid
/// entry that can take the next edit from where this one ended. What stood
/// before the edit and what stands after it is kept.
pub proof fn lemma_edit_keeps_entry(entry: EntryModel, start: int, end: int, chunk: Seq<char>)
    requires
        entry.accepts(start),
        0 <= start < end <= entry.corr.len(),
    ensures
        entry.edited(start, end, chunk).accepts(end),
        entry.edited(start, end, chunk).corr.len() == entry.corr.len(),
        0 <= entry.place(start) <= entry.place(start) + (end - start) <= entry.text.len(),
        entry.edited(start, end, chunk).text.len() == entry.text.len() + chunk.len() - (end
            - start),
        entry.edited(start, end, chunk).text.take(entry.place(start)) == entry.text.take(
            entry.place(start),
        ),
        entry.edited(start, end, chunk).text.skip(entry.edited(start, end, chunk).place(end))
            == entry.text.skip(entry.place(end)),
        entry.edited(start, end, chunk).text.subrange(
            entry.place(start),
            entry.place(start) + chunk.len(),
        ) == chunk,
        entry.place(end) == entry.place(start) + (end - start),
        entry.edited(start, end, chunk).place(end) == entry.place(start) + chunk.len(),
        entry.edited(start, end, chunk).text == entry.text.take(entry.place(start)) + chunk
            + entry.text.skip(entry.place(end)),
{
    let n = entry.corr.len() as int;
    let next = entry.edited(start, end, chunk);
    let c = shift(entry.corr, start);
    lemma_shift_open(entry.corr, start, end);
    lemma_shift_open(entry.corr, start, n);
    lemma_place_monotone(entry, 0, start);
    lemma_shift_after(entry.corr, start, end, chunk.len() as int, n);
    lemma_shift_after(entry.corr, start, end, chunk.len() as int, end);
    assert(next.text.take(entry.place(start)) =~= entry.text.take(entry.place(start)));
    assert(next.text.skip(next.place(end)) =~= entry.text.skip(entry.place(end)));
    assert(next.text.subrange(entry.place(start), entry.place(start) + chunk.len()) =~= chunk);
    assert(next.text =~= entry.text.take(entry.place(start)) + chunk + entry.text.skip(
        entry.place(end),
    ));
}

impl PlanEntry {
    /// The entry of a run with text `tag` that has not been edited.
    pub fn fresh(tag: &str) -> (res: PlanEntry)
        ensures
            res@ == EntryModel::fresh(tag@),
    {
        let n = tag.unicode_len();
        let mut corr: Vec<i128> = Vec::new();
        let mut i: usize = 0;
        while i < n
            invariant
                i <= n,
                corr@.len() == i,
                forall|k: int| 0 <= k < i ==> corr@[k] == 0,
            decreases n - i,
        {
            corr.push(0);
            i += 1;
        }
        let res = PlanEntry { text: String::from_str(tag), corr };
        assert(res@.corr =~= EntryModel::fresh(tag@).corr);
        res
    }

    /// Replaces the original characters from `match_start` up to `match_end` by `replace`.
    pub fn edit(&mut self, match_start: usize, match_end: usize, replace: &str)
        requires
            old(self)@.accepts(match_start as int),
            match_start < match_end <= old(self)@.corr.len(),
        ensures
            final(self)@ == old(self)@.edited(match_start as int, match_end as int, replace@),
            final(self)@.accepts(match_end as int),
    {
        let ghost before = self@;
        proof {
            lemma_edit_keeps_entry(before, match_start as int, match_end as int, replace@);
        }
        let cur_len = self.text.as_str().unicode_len();
        let mut correction: i128 = 0;
        let mut i: usize = 0;
        while i < match_start
            invariant
                i <= match_start < self.corr.len(),
                self@ == before,
                before.wf(),
                cur_len == before.text.len(),
                correction == shift(before.corr, i as int),
            decreases match_start - i,
        {
            proof {
                lemma_place_monotone(before, 0, i as int);
                lemma_place_monotone(before, 0, i + 1);
                lemma_place_monotone(before, i + 1, before.corr.len() as int);
            }
            correction = correction + self.corr[i];
            i += 1;
        }
        proof {
            lemma_shift_open(before.corr, match_start as int, match_end as int);
        }
        let repl_start = (match_start as i128 + correction) as usize;
        let repl_end = (match_end as i128 + correction) as usize;
        let head = self.text.as_str().substring_char(0, repl_start);
        let tail = self.text.as_str().substring_char(repl_end, cur_len);
        let mut text = String::from_str(head);
        text.append(replace);
        text.append(tail);
        assert(text@ =~= splice(before.text, repl_start as int, repl_end as int, replace@));

        let new_len = replace.unicode_len();
        let old_len = match_end - match_start;
        let ghost goal = corrected(
            before.corr,
            match_start as int,
            match_end as int,
            new_len as int,
        );
        if new_len < old_len {
            let from = match_start + new_len;
            let mut k: usize = from;
            while k < match_end
                invariant
                    from <= k <= match_end <= self.corr.len(),
                    self.corr.len() == before.corr.len(),
                    from == match_start + new_len,
                    before.open_from(match_start as int),
                    forall|j: int|
                        0 <= j < self.corr.len() ==> #[trigger] self.corr@[j] as int == (if from
                            <= j < k {
                            before.corr[j] - 1
                        } else {
                            before.corr[j]
                        }),
                decreases match_end - k,
            {
                assert(before.corr[k as int] == 0);
                self.corr.set(k, -1);
                k += 1;
            }
        } else if new_len > old_len {
            let delta = (new_len - old_len) as i128;
            assert(before.corr[match_end - 1] == 0);
            self.corr.set(match_end - 1, delta);
        }
        self.text = text;
        assert(self@.corr =~= goal);
    }
}

impl ReplacementPlan {
    /// A plan without edits.
    pub fn new() -> (res: ReplacementPlan)
        ensures
            res@ == Map::<usize, EntryModel>::empty(),
    {
        let res = ReplacementPlan { entries: HashMap::new() };
        assert(res@ =~= Map::<usize, EntryModel>::empty());
        res
    }

    /// Tells whether the plan holds no edit.
    pub fn is_empty(&self) -> (res: bool)
        ensures
            res == (self@ == Map::<usize, EntryModel>::empty()),
    {
        let res = self.entries.is_empty();
        proof {
            if res {
                assert(self@ =~= Map::<usize, EntryModel>::empty());
            } else {
                assert(self.entries@.len() != 0);
                if self@ == Map::<usize, EntryModel>::empty() {
                    assert forall|id: usize| !self.entries@.contains_key(id) by {
                        assert(!self@.contains_key(id));
                    }
                    assert(self.entries@.dom() =~= Set::empty());
                }
            }
        }
        res
    }

    /// The text that run `id` is to get, if the plan holds an edit of it.
    pub fn text_of(&self, id: usize) -> (res: Option<&String>)
        ensures
            match res {
                Some(text) => self@.contains_key(id) && self@[id].text == text@,
                None => !self@.contains_key(id),
            },
    {
        match self.entries.get(&id) {
            Some(entry) => Some(&entry.text),
            None => None,
        }
    }
}

impl XMLUtil {
    /// Applies one edit to run `tag_id`, whose original text is `tag`: the
    /// original characters from `match_start` up to `match_end` are replaced
    /// by `replace`. The run's entry is made on its first edit.
    pub fn replace_within_tag(
        replacements: &mut ReplacementPlan,
        tag_id: usize,
        tag: &str,
        match_start: usize,
        match_end: usize,
        replace: &str,
    )
        requires
            entry_for(old(replacements)@, tag_id, tag@).accepts(match_start as int),
            entry_for(old(replacements)@, tag_id, tag@).corr.len() == tag@.len(),
            match_start < match_end <= tag@.len(),
        ensures
            final(replacements)@ == old(replacements)@.insert(
                tag_id,
                entry_for(old(replacements)@, tag_id, tag@).edited(
                    match_start as int,
                    match_end as int,
                    replace@,
                ),
            ),
            final(replacements)@[tag_id].accepts(match_end as int),
            final(replacements)@[tag_id].corr.len() == tag@.len(),
    {
        let ghost before = replacements@;
        let mut entry = match replacements.entries.remove(&tag_id) {
            Some(entry) => entry,
            None => PlanEntry::fresh(tag),
        };
        assert(entry@ == entry_for(before, tag_id, tag@));
        let ghost stripped = replacements.entries@;
        entry.edit(match_start, match_end, replace);
        proof {
            lemma_edit_keeps_entry(
                entry_for(before, tag_id, tag@),
                match_start as int,
                match_end as int,
                replace@,
            );
        }
        let ghost edited = entry@;
        replacements.entries.insert(tag_id, entry);
        assert(replacements@ =~= before.insert(tag_id, edited));
    }
}

} // verus!
