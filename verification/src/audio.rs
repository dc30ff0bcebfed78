//! The timeline of a track: its spans in order, and the operations that
//! rename, delete and split them, hand out cut points and follow the
//! playback cursor.

use vstd::prelude::*;
use crate::audio_span::{AudioSpan, CursorState, SpanView};
use crate::ordered::{ascending, ascending_seq, lemma_ascending_seq, strictly_ascending};
use crate::utils::{span_name, span_name_text};

verus! {

/// How close to the end of the last span the cursor has to be for the track
/// to count as played to its end: 300 milliseconds.
pub const END_OF_TRACK_TOLERANCE: u64 = 300_000_000;

/// The views of a row of spans.
pub open spec fn span_views(spans: Seq<AudioSpan>) -> Seq<SpanView> {
    spans.map_values(|s: AudioSpan| s@)
}

/// No span begins before an earlier one has ended.
pub open spec fn in_order(spans: Seq<SpanView>) -> bool {
    forall|i: int, j: int| 0 <= i < j < spans.len() ==> spans[i].end <= spans[j].start
}

/// Each span begins where the one before it ends: no gap and no overlap.
pub open spec fn tiles(spans: Seq<SpanView>) -> bool {
    forall|i: int|
        #![trigger spans[i]]
        0 <= i && i + 1 < spans.len() ==> spans[i].end == spans[i + 1].start
}

/// Some span contains `t`.
pub open spec fn covered(spans: Seq<SpanView>, t: u64) -> bool {
    exists|k: int| 0 <= k < spans.len() && (#[trigger] spans[k]).contains(t)
}

/// `k` is the first span that contains `t`.
pub open spec fn first_containing(spans: Seq<SpanView>, t: u64, k: int) -> bool {
    &&& 0 <= k < spans.len()
    &&& spans[k].contains(t)
    &&& forall|j: int| 0 <= j < k ==> !(#[trigger] spans[j]).contains(t)
}

/// The index of the first span that contains `t`.
pub open spec fn holder(spans: Seq<SpanView>, t: u64) -> int {
    choose|k: int| first_containing(spans, t, k)
}

/// Some span has the id `id`.
pub open spec fn has_id(spans: Seq<SpanView>, id: u32) -> bool {
    exists|k: int| 0 <= k < spans.len() && (#[trigger] spans[k]).id == id
}

/// `k` is the first span with the id `id`.
pub open spec fn first_with_id(spans: Seq<SpanView>, id: u32, k: int) -> bool {
    &&& 0 <= k < spans.len()
    &&& spans[k].id == id
    &&& forall|j: int| 0 <= j < k ==> (#[trigger] spans[j]).id != id
}

/// The index of the first span with the id `id`.
pub open spec fn index_of_id(spans: Seq<SpanView>, id: u32) -> int {
    choose|k: int| first_with_id(spans, id, k)
}

/// The cursor at `pos` has left every span before `k` behind and has not
/// reached span `k` yet.
pub open spec fn waits_before(spans: Seq<SpanView>, pos: u64, k: int) -> bool {
    &&& 0 <= k < spans.len()
    &&& spans[k].classify(pos) == CursorState::Below
    &&& forall|j: int| 0 <= j < k ==> (#[trigger] spans[j]).classify(pos) == CursorState::Above
}

/// Where playback has to jump to when the cursor is at `pos`: to the start of
/// the first span that the cursor has not reached, if no span before it
/// holds the cursor. `None` where the cursor is inside a span or behind all
/// of them.
pub open spec fn seek_target(spans: Seq<SpanView>, pos: u64) -> Option<u64> {
    if exists|k: int| waits_before(spans, pos, k) {
        Some(spans[choose|k: int| waits_before(spans, pos, k)].start)
    } else {
        None
    }
}

/// The cursor at `pos` has left the first `k` spans behind.
spec fn left_behind(spans: Seq<SpanView>, pos: u64, k: int) -> bool {
    &&& 0 <= k <= spans.len()
    &&& forall|j: int| 0 <= j < k ==> (#[trigger] spans[j]).classify(pos) == CursorState::Above
}

/// The cursor at `pos` has left every span before `k` behind and is inside
/// span `k`.
spec fn holds_cursor(spans: Seq<SpanView>, pos: u64, k: int) -> bool {
    &&& 0 <= k < spans.len()
    &&& spans[k].classify(pos) == CursorState::Inside
    &&& left_behind(spans, pos, k)
}

proof fn lemma_seek(spans: Seq<SpanView>, pos: u64, k: int)
    requires
        waits_before(spans, pos, k),
    ensures
        seek_target(spans, pos) == Some(spans[k].start),
{
    let c = choose|c: int| waits_before(spans, pos, c);
    assert(waits_before(spans, pos, c));
    if c < k {
        assert(spans[c].classify(pos) == CursorState::Above);
    }
    if k < c {
        assert(spans[k].classify(pos) == CursorState::Above);
    }
}

proof fn lemma_no_seek(spans: Seq<SpanView>, pos: u64, k: int)
    requires
        holds_cursor(spans, pos, k) || (k == spans.len() && left_behind(spans, pos, k)),
    ensures
        seek_target(spans, pos) == None::<u64>,
{
    assert forall|c: int| !waits_before(spans, pos, c) by {
        if waits_before(spans, pos, c) {
            if c < k {
                assert(spans[c].classify(pos) == CursorState::Above);
            } else if k < c {
                assert(spans[k].classify(pos) == CursorState::Above);
            }
        }
    }
}

/// Whether a cursor at `pos` is within the tolerance before the end of the
/// last span.
pub open spec fn at_end(spans: Seq<SpanView>, pos: u64) -> bool {
    &&& spans.len() > 0
    &&& pos <= spans.last().end
    &&& spans.last().end - pos < END_OF_TRACK_TOLERANCE
}

/// How many candidates at the front of the ascending list `candidates` stay
/// without a span. Candidates are handed out from the largest down, and
/// handing out stops at the first one that no span contains.
pub open spec fn unassigned(spans: Seq<SpanView>, candidates: Seq<u64>) -> nat
    decreases candidates.len(),
{
    if candidates.len() == 0 {
        0
    } else if covered(spans, candidates.last()) {
        unassigned(spans, candidates.drop_last())
    } else {
        candidates.len()
    }
}

/// The candidates that are handed out to spans: the longest tail of the
/// list in which every candidate lies inside some span.
pub open spec fn assigned(spans: Seq<SpanView>, candidates: Seq<u64>) -> Seq<u64> {
    candidates.skip(unassigned(spans, candidates) as int)
}

/// The spans after the candidates have been handed out: each span holds the
/// assigned candidates that it contains, and nothing is selected.
pub open spec fn distributed(spans: Seq<SpanView>, candidates: Seq<u64>) -> Seq<SpanView> {
    Seq::new(spans.len(), |i: int| spans[i].given(assigned(spans, candidates)))
}

/// Some span from index `from` on contains `t`.
spec fn covered_from(spans: Seq<SpanView>, from: int, t: u64) -> bool {
    exists|k: int| from <= k < spans.len() && (#[trigger] spans[k]).contains(t)
}

proof fn lemma_unassigned(spans: Seq<SpanView>, candidates: Seq<u64>, m: int)
    requires
        0 <= m <= candidates.len(),
        forall|q: int| m <= q < candidates.len() ==> covered(spans, #[trigger] candidates[q]),
        m > 0 ==> !covered(spans, candidates[m - 1]),
    ensures
        unassigned(spans, candidates) == m,
    decreases candidates.len(),
{
    if candidates.len() > m {
        let shorter = candidates.drop_last();
        assert(covered(spans, candidates[candidates.len() - 1]));
        assert forall|q: int| m <= q < shorter.len() implies covered(spans, #[trigger] shorter[q]) by {
            assert(shorter[q] == candidates[q]);
        }
        if m > 0 {
            assert(shorter[m - 1] == candidates[m - 1]);
        }
        lemma_unassigned(spans, shorter, m);
    }
}

proof fn lemma_skip_contains(c: Seq<u64>, m: int, t: u64)
    requires
        0 < m <= c.len(),
    ensures
        c.skip(m - 1).contains(t) <==> (t == c[m - 1] || c.skip(m).contains(t)),
{
    let longer = c.skip(m - 1);
    let shorter = c.skip(m);
    if longer.contains(t) {
        let i = choose|i: int| 0 <= i < longer.len() && longer[i] == t;
        if i > 0 {
            assert(shorter[i - 1] == t);
        }
    }
    if shorter.contains(t) {
        let i = choose|i: int| 0 <= i < shorter.len() && shorter[i] == t;
        assert(longer[i + 1] == t);
    }
    assert(longer[0] == c[m - 1]);
}

/// Handing out does not depend on what the spans held before, and it leaves
/// their ranges alone. So handing the same candidates out a second time
/// changes nothing.
pub proof fn lemma_distribute_idempotent(spans: Seq<SpanView>, candidates: Seq<u64>)
    ensures
        distributed(distributed(spans, candidates), candidates) == distributed(spans, candidates),
{
    let once = distributed(spans, candidates);
    lemma_unassigned_by_ranges(spans, once, candidates);
    let twice = distributed(once, candidates);
    assert forall|i: int| 0 <= i < once.len() implies twice[i] == once[i] by {
        assert(twice[i].split_points =~= once[i].split_points);
    }
    assert(twice =~= once);
}

/// Which candidates are assigned depends on the ranges of the spans alone.
proof fn lemma_unassigned_by_ranges(a: Seq<SpanView>, b: Seq<SpanView>, candidates: Seq<u64>)
    requires
        a.len() == b.len(),
        forall|i: int|
            0 <= i < a.len() ==> (#[trigger] a[i]).start == b[i].start && a[i].end == b[i].end,
    ensures
        unassigned(a, candidates) == unassigned(b, candidates),
    decreases candidates.len(),
{
    if candidates.len() > 0 {
        let t = candidates.last();
        if covered(a, t) {
            let k = choose|k: int| 0 <= k < a.len() && (#[trigger] a[k]).contains(t);
            assert(b[k].contains(t));
        }
        if covered(b, t) {
            let k = choose|k: int| 0 <= k < b.len() && (#[trigger] b[k]).contains(t);
            assert(a[k].contains(t));
        }
        lemma_unassigned_by_ranges(a, b, candidates.drop_last());
    }
}

/// A cut point that handing out gives to a span is one of the candidates
/// and lies strictly inside that span. Where the spans are in order, no
/// other span holds it too.
pub proof fn lemma_distributed_inside(
    spans: Seq<SpanView>,
    candidates: Seq<u64>,
    i: int,
    t: u64,
)
    requires
        0 <= i < spans.len(),
        distributed(spans, candidates)[i].split_points.contains(t),
    ensures
        spans[i].start < t < spans[i].end,
        candidates.contains(t),
        in_order(spans) ==> forall|j: int|
            0 <= j < spans.len() && j != i ==> !(#[trigger] distributed(
                spans,
                candidates,
            )[j]).split_points.contains(t),
{
    let given = assigned(spans, candidates);
    lemma_unassigned_len(spans, candidates);
    assert(given.contains(t));
    let r = choose|r: int| 0 <= r < given.len() && given[r] == t;
    assert(candidates[unassigned(spans, candidates) + r] == t);
    if in_order(spans) {
        assert forall|j: int| 0 <= j < spans.len() && j != i implies !(#[trigger] distributed(
            spans,
            candidates,
        )[j]).split_points.contains(t) by {
            if j < i {
                assert(spans[j].end <= spans[i].start);
            } else {
                assert(spans[i].end <= spans[j].start);
            }
        }
    }
}

/// Every candidate that lies inside a span is handed to that span, provided
/// every candidate after it lies inside a span too.
pub proof fn lemma_distributed_complete(
    spans: Seq<SpanView>,
    candidates: Seq<u64>,
    i: int,
    q: int,
)
    requires
        0 <= i < spans.len(),
        0 <= q < candidates.len(),
        spans[i].contains(candidates[q]),
        forall|r: int| q < r < candidates.len() ==> covered(spans, #[trigger] candidates[r]),
    ensures
        distributed(spans, candidates)[i].split_points.contains(candidates[q]),
{
    assert(covered(spans, candidates[q]));
    lemma_unassigned_bound(spans, candidates, q);
    let m = unassigned(spans, candidates) as int;
    assert(assigned(spans, candidates)[q - m] == candidates[q]);
}

proof fn lemma_unassigned_bound(spans: Seq<SpanView>, candidates: Seq<u64>, q: int)
    requires
        0 <= q < candidates.len(),
        forall|r: int| q <= r < candidates.len() ==> covered(spans, #[trigger] candidates[r]),
    ensures
        unassigned(spans, candidates) <= q,
    decreases candidates.len(),
{
    assert(covered(spans, candidates[candidates.len() - 1]));
    if q < candidates.len() - 1 {
        let shorter = candidates.drop_last();
        assert forall|r: int| q <= r < shorter.len() implies covered(spans, #[trigger] shorter[r]) by {
            assert(shorter[r] == candidates[r]);
        }
        lemma_unassigned_bound(spans, shorter, q);
    } else {
        let shorter = candidates.drop_last();
        lemma_unassigned_len(spans, shorter);
    }
}

proof fn lemma_unassigned_len(spans: Seq<SpanView>, candidates: Seq<u64>)
    ensures
        unassigned(spans, candidates) <= candidates.len(),
    decreases candidates.len(),
{
    if candidates.len() > 0 {
        lemma_unassigned_len(spans, candidates.drop_last());
    }
}

/// Handing out candidates leaves a well-formed timeline well formed, and
/// one that tiles still tiles.
pub proof fn lemma_distributed_keeps_wf(audio: AudioView, candidates: Seq<u64>)
    requires
        audio.wf(),
    ensures
        (AudioView { spans: distributed(audio.spans, candidates), ..audio }).wf(),
        tiles(audio.spans) ==> tiles(distributed(audio.spans, candidates)),
{
    let after = distributed(audio.spans, candidates);
    let given = assigned(audio.spans, candidates);
    assert forall|i: int| 0 <= i < after.len() implies (#[trigger] after[i]).wf() by {
        assert(audio.spans[i].wf());
        assert(after[i].split_points.subset_of(given.to_set())) by {
            assert forall|t: u64| after[i].split_points.contains(t) implies given.to_set().contains(
                t,
            ) by {}
        }
        vstd::seq_lib::seq_to_set_is_finite(given);
        vstd::set_lib::lemma_len_subset(after[i].split_points, given.to_set());
    }
    assert forall|i: int, j: int| 0 <= i < j < after.len() implies after[i].end <= after[j].start
        && (#[trigger] after[i]).id != (#[trigger] after[j]).id by {
        assert(audio.spans[i].end <= audio.spans[j].start);
        assert(audio.spans[i].id != audio.spans[j].id);
    }
    assert forall|i: int| 0 <= i < after.len() implies (#[trigger] after[i]).id
        <= audio.index_counter by {
        assert(audio.spans[i].id <= audio.index_counter);
    }
    if tiles(audio.spans) {
        assert forall|i: int| #![trigger after[i]] 0 <= i && i + 1 < after.len() implies after[i].end
            == after[i + 1].start by {
            assert(audio.spans[i].end == audio.spans[i + 1].start);
        }
    }
}

/// Every cut point from position `from` of `points` on lies inside a span,
/// and every selected cut point is one of them.
pub open spec fn selection_within(audio: AudioView, points: Seq<u64>, from: int) -> bool {
    &&& forall|q: int| from <= q < points.len() ==> covered(audio.spans, #[trigger] points[q])
    &&& forall|k: int, x: u64|
        0 <= k < audio.spans.len() && #[trigger] audio.spans[k].selected_split_points.contains(x)
            ==> points.skip(from).contains(x)
}

/// What a timeline holds, as mathematical values.
pub struct AudioView {
    pub spans: Seq<SpanView>,
    pub file_name: Seq<char>,
    pub index_counter: u32,
}

impl AudioView {
    /// Every span is well formed, the spans are in order, no id occurs
    /// twice, and no id is larger than the counter that hands them out.
    pub open spec fn wf(self) -> bool {
        &&& forall|i: int| 0 <= i < self.spans.len() ==> (#[trigger] self.spans[i]).wf()
        &&& in_order(self.spans)
        &&& forall|i: int, j: int|
            0 <= i < j < self.spans.len() ==> (#[trigger] self.spans[i]).id != (
            #[trigger] self.spans[j]).id
        &&& forall|i: int|
            0 <= i < self.spans.len() ==> (#[trigger] self.spans[i]).id <= self.index_counter
    }

    /// The timeline without the first span that has the id `id`.
    pub open spec fn deleted(self, id: u32) -> AudioView {
        if has_id(self.spans, id) {
            AudioView { spans: self.spans.remove(index_of_id(self.spans, id)), ..self }
        } else {
            self
        }
    }

    /// The timeline with the first span of id `id` named `text`.
    pub open spec fn renamed(self, id: u32, text: Seq<char>) -> AudioView {
        if has_id(self.spans, id) {
            let k = index_of_id(self.spans, id);
            AudioView {
                spans: self.spans.update(k, SpanView { name: text, ..self.spans[k] }),
                ..self
            }
        } else {
            self
        }
    }

    /// The timeline with the cursor of the first span of id `id` moved to
    /// `pos`.
    pub open spec fn positioned(self, id: u32, pos: u64) -> AudioView {
        if has_id(self.spans, id) {
            let k = index_of_id(self.spans, id);
            AudioView { spans: self.spans.update(k, self.spans[k].moved_to(pos)), ..self }
        } else {
            self
        }
    }

    /// The timeline with the cursor of every span moved to `pos`.
    pub open spec fn cursor_at(self, pos: u64) -> AudioView {
        AudioView { spans: self.spans.map_values(|s: SpanView| s.moved_to(pos)), ..self }
    }

    /// The timeline with the selection of `t` reversed in the first span
    /// that contains `t`.
    pub open spec fn toggled(self, t: u64) -> AudioView {
        if covered(self.spans, t) {
            let k = holder(self.spans, t);
            AudioView { spans: self.spans.update(k, self.spans[k].toggled(t)), ..self }
        } else {
            self
        }
    }

    /// The timeline with the span that contains `t` split in two at `t`. The
    /// first part keeps the id of the span; the second gets the next id from
    /// the counter and a name made of the track's name and that id.
    pub open spec fn split_at(self, t: u64) -> AudioView {
        let k = holder(self.spans, t);
        let parent = self.spans[k];
        let id = (self.index_counter + 1) as u32;
        AudioView {
            spans: self.spans.take(k) + seq![
                parent.first_child(t),
                parent.second_child(t, id, span_name_text(self.file_name, id)),
            ] + self.spans.skip(k + 1),
            index_counter: id,
            ..self
        }
    }

    /// The timeline split at each of `points` in turn.
    pub open spec fn split_all(self, points: Seq<u64>) -> AudioView
        decreases points.len(),
    {
        if points.len() == 0 {
            self
        } else {
            self.split_all(points.drop_last()).split_at(points.last())
        }
    }

    /// All selected cut points of all spans.
    pub open spec fn all_selected(self) -> Set<u64> {
        Set::new(
            |t: u64|
                exists|k: int|
                    0 <= k < self.spans.len() && (#[trigger] self.spans[k]).selected_split_points.contains(
                        t,
                    ),
        )
    }

    /// All selected cut points of all spans, in ascending order.
    pub open spec fn selection(self) -> Seq<u64> {
        ascending_seq(self.all_selected())
    }

    /// Some span has a selected cut point.
    pub open spec fn any_selected(self) -> bool {
        exists|k: int|
            0 <= k < self.spans.len() && !(#[trigger] self.spans[k]).selected_split_points.is_empty()
    }
}

/// In a well-formed timeline at most one span contains a given time.
pub proof fn lemma_one_holder(audio: AudioView, t: u64, a: int, b: int)
    requires
        audio.wf(),
        0 <= a < audio.spans.len(),
        0 <= b < audio.spans.len(),
        audio.spans[a].contains(t),
        audio.spans[b].contains(t),
    ensures
        a == b,
        holder(audio.spans, t) == a,
{
    if a < b {
        assert(audio.spans[a].end <= audio.spans[b].start);
    }
    if b < a {
        assert(audio.spans[b].end <= audio.spans[a].start);
    }
    assert(first_containing(audio.spans, t, a)) by {
        assert forall|j: int| 0 <= j < a implies !(#[trigger] audio.spans[j]).contains(t) by {
            assert(audio.spans[j].end <= audio.spans[a].start);
        }
    }
    let c = holder(audio.spans, t);
    assert(first_containing(audio.spans, t, c));
    if c < a {
        assert(audio.spans[c].end <= audio.spans[a].start);
    }
    if a < c {
        assert(audio.spans[a].end <= audio.spans[c].start);
    }
}

/// A split leaves the timeline well formed.
pub proof fn lemma_split_keeps_wf(audio: AudioView, t: u64)
    requires
        audio.wf(),
        covered(audio.spans, t),
        audio.index_counter < u32::MAX,
    ensures
        audio.split_at(t).wf(),
{
    let w = choose|w: int| 0 <= w < audio.spans.len() && (#[trigger] audio.spans[w]).contains(t);
    lemma_one_holder(audio, t, w, w);
    let k = holder(audio.spans, t);
    let parent = audio.spans[k];
    let after = audio.split_at(t);
    let id = (audio.index_counter + 1) as u32;
    assert(parent.wf());
    assert forall|r: int| 0 <= r < after.spans.len() implies wf_and_from(audio, after, k, r) by {
        if r < k {
            assert(after.spans[r] == audio.spans[r]);
            assert(audio.spans[r].wf());
        } else if r == k {
            assert(after.spans[r] == parent.first_child(t));
        } else if r == k + 1 {
            assert(after.spans[r] == parent.second_child(
                t,
                id,
                span_name_text(audio.file_name, id),
            ));
        } else {
            assert(after.spans[r] == audio.spans[r - 1]);
            assert(audio.spans[r - 1].wf());
        }
    }
    assert forall|a: int, b: int| 0 <= a < b < after.spans.len() implies after.spans[a].end
        <= after.spans[b].start && after.spans[a].id != after.spans[b].id by {
        assert(wf_and_from(audio, after, k, a));
        assert(wf_and_from(audio, after, k, b));
        let a0 = if a <= k { a } else { a - 1 };
        let b0 = if b <= k { b } else { b - 1 };
        assert(audio.spans[a0].id <= audio.index_counter);
        assert(audio.spans[b0].id <= audio.index_counter);
        if a0 < b0 {
            assert(audio.spans[a0].end <= audio.spans[b0].start);
            assert(audio.spans[a0].id != audio.spans[b0].id);
        }
    }
    assert forall|r: int| 0 <= r < after.spans.len() implies (#[trigger] after.spans[r]).wf()
        && after.spans[r].id <= after.index_counter by {
        assert(wf_and_from(audio, after, k, r));
        let r0 = if r <= k { r } else { r - 1 };
        assert(audio.spans[r0].id <= audio.index_counter);
    }
}

/// Span `r` of the timeline after a split of span `k` is well formed and
/// covers a part of the span that it comes from.
spec fn wf_and_from(audio: AudioView, after: AudioView, k: int, r: int) -> bool {
    let r0 = if r <= k { r } else { r - 1 };
    &&& after.spans[r].wf()
    &&& audio.spans[r0].start <= after.spans[r].start
    &&& after.spans[r].end <= audio.spans[r0].end
    &&& r != k + 1 ==> after.spans[r].id == audio.spans[r0].id
    &&& r == k + 1 ==> after.spans[r].id == audio.index_counter + 1
    &&& r == k ==> after.spans[r].end == after.spans[r + 1].start
    &&& r <= k ==> after.spans[r].start == audio.spans[r0].start
    &&& r > k ==> after.spans[r].end == audio.spans[r0].end
}

/// Of the two spans that a split makes, the first keeps the id of the span
/// that is split, and the second gets an id that no span had before.
pub proof fn lemma_split_ids(audio: AudioView, t: u64)
    requires
        audio.wf(),
        covered(audio.spans, t),
        audio.index_counter < u32::MAX,
    ensures
        audio.split_at(t).spans[holder(audio.spans, t)].id == audio.spans[holder(
            audio.spans,
            t,
        )].id,
        audio.split_at(t).spans[holder(audio.spans, t) + 1].id == audio.index_counter + 1,
        forall|i: int|
            0 <= i < audio.spans.len() ==> (#[trigger] audio.spans[i]).id != audio.index_counter
                + 1,
{
    let w = choose|w: int| 0 <= w < audio.spans.len() && (#[trigger] audio.spans[w]).contains(t);
    lemma_one_holder(audio, t, w, w);
    assert forall|i: int| 0 <= i < audio.spans.len() implies (#[trigger] audio.spans[i]).id
        != audio.index_counter + 1 by {
        assert(audio.spans[i].id <= audio.index_counter);
    }
}

/// A split opens no gap: a timeline that tiles still tiles afterwards.
pub proof fn lemma_split_keeps_tiling(audio: AudioView, t: u64)
    requires
        audio.wf(),
        covered(audio.spans, t),
        audio.index_counter < u32::MAX,
        tiles(audio.spans),
    ensures
        tiles(audio.split_at(t).spans),
{
    let w = choose|w: int| 0 <= w < audio.spans.len() && (#[trigger] audio.spans[w]).contains(t);
    lemma_one_holder(audio, t, w, w);
    let k = holder(audio.spans, t);
    let after = audio.split_at(t).spans;
    assert forall|r: int| #![trigger after[r]] 0 <= r && r + 1 < after.len() implies after[r].end
        == after[r + 1].start by {
        if r + 1 < k {
            assert(after[r] == audio.spans[r] && after[r + 1] == audio.spans[r + 1]);
        } else if r + 1 == k {
            assert(after[r] == audio.spans[r]);
            assert(audio.spans[r].end == audio.spans[r + 1].start);
        } else if r == k {
        } else if r == k + 1 {
            assert(after[r + 1] == audio.spans[r]);
            assert(audio.spans[r - 1].end == audio.spans[r].start);
        } else {
            assert(after[r] == audio.spans[r - 1] && after[r + 1] == audio.spans[r]);
            assert(audio.spans[r - 1].end == audio.spans[r].start);
        }
    }
}

/// After a split at the first of the remaining cut points, the others
/// still lie inside spans, and nothing else is selected.
proof fn lemma_split_keeps_selection(audio: AudioView, points: Seq<u64>, from: int)
    requires
        audio.wf(),
        audio.index_counter < u32::MAX,
        strictly_ascending(points),
        0 <= from < points.len(),
        selection_within(audio, points, from),
    ensures
        covered(audio.spans, points[from]),
        selection_within(audio.split_at(points[from]), points, from + 1),
{
    let t = points[from];
    assert(covered(audio.spans, t));
    let w = choose|w: int| 0 <= w < audio.spans.len() && (#[trigger] audio.spans[w]).contains(t);
    lemma_one_holder(audio, t, w, w);
    let k = holder(audio.spans, t);
    let parent = audio.spans[k];
    let after = audio.split_at(t);
    let id = (audio.index_counter + 1) as u32;
    assert(after.spans.len() == audio.spans.len() + 1);
    assert(after.spans[k] == parent.first_child(t));
    assert(after.spans[k + 1] == parent.second_child(t, id, span_name_text(audio.file_name, id)));
    assert forall|q: int| from + 1 <= q < points.len() implies covered(
        after.spans,
        #[trigger] points[q],
    ) by {
        let p = points[q];
        assert(t < p);
        assert(covered(audio.spans, p));
        let h = choose|h: int| 0 <= h < audio.spans.len() && (#[trigger] audio.spans[h]).contains(p);
        if h < k {
            assert(after.spans[h] == audio.spans[h]);
            assert(after.spans[h].contains(p));
        } else if h == k {
            assert(after.spans[k + 1].contains(p));
        } else {
            assert(after.spans[h + 1] == audio.spans[h]);
            assert(after.spans[h + 1].contains(p));
        }
    }
    assert forall|r: int, x: u64|
        0 <= r < after.spans.len() && #[trigger] after.spans[r].selected_split_points.contains(
            x,
        ) implies points.skip(from + 1).contains(x) by {
        let r0 = if r < k { r } else { r - 1 };
        if r == k || r == k + 1 {
        } else {
            assert(after.spans[r] == audio.spans[r0]);
            assert(audio.spans[r0].selected_split_points.contains(x));
            assert(audio.spans[r0].wf());
            assert(audio.spans[r0].contains(x));
            if x == t {
                lemma_one_holder(audio, t, r0, k);
            }
            assert(points.skip(from).contains(x));
            let a = choose|a: int| 0 <= a < points.skip(from).len() && points.skip(from)[a] == x;
            assert(a > 0);
            assert(points.skip(from + 1)[a - 1] == x);
        }
    }
}

/// Splitting at the first `j` of the selected cut points, one after the
/// other, leaves the timeline well formed, uses one id for each split, and
/// opens no gap.
pub proof fn lemma_split_all(audio: AudioView, points: Seq<u64>, j: int)
    requires
        audio.wf(),
        strictly_ascending(points),
        points.to_set() == audio.all_selected(),
        audio.index_counter + points.len() <= u32::MAX,
        0 <= j <= points.len(),
    ensures
        audio.split_all(points.take(j)).wf(),
        audio.split_all(points.take(j)).index_counter == audio.index_counter + j,
        selection_within(audio.split_all(points.take(j)), points, j),
        tiles(audio.spans) ==> tiles(audio.split_all(points.take(j)).spans),
    decreases j,
{
    if j == 0 {
        assert(points.take(0).len() == 0);
        lemma_selection_within(audio, points, 0);
    } else {
        lemma_split_all(audio, points, j - 1);
        let before = audio.split_all(points.take(j - 1));
        assert(points.take(j).drop_last() =~= points.take(j - 1));
        assert(points.take(j).last() == points[j - 1]);
        lemma_split_keeps_selection(before, points, j - 1);
        lemma_split_keeps_wf(before, points[j - 1]);
        if tiles(before.spans) {
            lemma_split_keeps_tiling(before, points[j - 1]);
        }
    }
}

/// In a well-formed timeline the span with a given id is found at one index.
pub proof fn lemma_index_of_id(audio: AudioView, id: u32)
    requires
        audio.wf(),
        has_id(audio.spans, id),
    ensures
        first_with_id(audio.spans, id, index_of_id(audio.spans, id)),
{
    let w = choose|w: int| 0 <= w < audio.spans.len() && (#[trigger] audio.spans[w]).id == id;
    assert forall|j: int| 0 <= j < w implies (#[trigger] audio.spans[j]).id != id by {
        assert(audio.spans[j].id != audio.spans[w].id);
    }
    assert(first_with_id(audio.spans, id, w));
}

/// No operation but the deletion of a span opens a gap: a well-formed
/// timeline that tiles still tiles after a rename, after a move of a cursor
/// or of all of them, after a toggle, after candidates have been handed out,
/// after a split at a time that a span contains, and after a split at all
/// selected cut points.
pub proof fn lemma_tiling_kept(
    audio: AudioView,
    id: u32,
    text: Seq<char>,
    pos: u64,
    t: u64,
    candidates: Seq<u64>,
    points: Seq<u64>,
)
    requires
        audio.wf(),
        tiles(audio.spans),
    ensures
        tiles(audio.renamed(id, text).spans),
        tiles(audio.positioned(id, pos).spans),
        tiles(audio.cursor_at(pos).spans),
        tiles(audio.toggled(t).spans),
        tiles(distributed(audio.spans, candidates)),
        covered(audio.spans, t) && audio.index_counter < u32::MAX ==> tiles(
            audio.split_at(t).spans,
        ),
        strictly_ascending(points) && points.to_set() == audio.all_selected()
            && audio.index_counter + points.len() <= u32::MAX ==> points == audio.selection()
            && tiles(audio.split_all(audio.selection()).spans),
{
    let spans = audio.spans;
    if has_id(spans, id) {
        lemma_index_of_id(audio, id);
    }
    if covered(spans, t) {
        let w = choose|w: int| 0 <= w < spans.len() && (#[trigger] spans[w]).contains(t);
        lemma_one_holder(audio, t, w, w);
    }
    assert forall|i: int| #![trigger audio.renamed(id, text).spans[i]] 0 <= i && i + 1
        < audio.renamed(id, text).spans.len() implies audio.renamed(id, text).spans[i].end
        == audio.renamed(id, text).spans[i + 1].start by {
        assert(spans[i].end == spans[i + 1].start);
    }
    assert forall|i: int| #![trigger audio.positioned(id, pos).spans[i]] 0 <= i && i + 1
        < audio.positioned(id, pos).spans.len() implies audio.positioned(id, pos).spans[i].end
        == audio.positioned(id, pos).spans[i + 1].start by {
        assert(spans[i].end == spans[i + 1].start);
    }
    assert forall|i: int| #![trigger audio.cursor_at(pos).spans[i]] 0 <= i && i + 1
        < audio.cursor_at(pos).spans.len() implies audio.cursor_at(pos).spans[i].end
        == audio.cursor_at(pos).spans[i + 1].start by {
        assert(spans[i].end == spans[i + 1].start);
    }
    assert forall|i: int| #![trigger audio.toggled(t).spans[i]] 0 <= i && i + 1
        < audio.toggled(t).spans.len() implies audio.toggled(t).spans[i].end == audio.toggled(
        t,
    ).spans[i + 1].start by {
        assert(spans[i].end == spans[i + 1].start);
    }
    lemma_distributed_keeps_wf(audio, candidates);
    if covered(audio.spans, t) && audio.index_counter < u32::MAX {
        lemma_split_keeps_tiling(audio, t);
    }
    if strictly_ascending(points) && points.to_set() == audio.all_selected()
        && audio.index_counter + points.len() <= u32::MAX {
        lemma_ascending_seq(points);
        lemma_split_all(audio, points, points.len() as int);
        assert(points.take(points.len() as int) =~= points);
    }
}

/// In every span, every selected cut point is one of the cut points.
pub open spec fn all_marked(spans: Seq<SpanView>) -> bool {
    forall|i: int| 0 <= i < spans.len() ==> (#[trigger] spans[i]).selection_marked()
}

/// What is selected is a cut point, and stays one: a well-formed timeline in
/// which every selected cut point is one of the cut points of its span is
/// still such a timeline after a rename, after a move of a cursor or of all
/// of them, after a deletion, after candidates have been handed out, after a
/// split, and after a toggle of a time that is a cut point of the span that
/// contains it. A toggle of a time inside a span that is no cut point selects
/// that time all the same.
pub proof fn lemma_selection_kept(
    audio: AudioView,
    id: u32,
    text: Seq<char>,
    pos: u64,
    t: u64,
    candidates: Seq<u64>,
    points: Seq<u64>,
)
    requires
        audio.wf(),
        all_marked(audio.spans),
    ensures
        all_marked(audio.renamed(id, text).spans),
        all_marked(audio.positioned(id, pos).spans),
        all_marked(audio.cursor_at(pos).spans),
        all_marked(audio.deleted(id).spans),
        all_marked(distributed(audio.spans, candidates)),
        covered(audio.spans, t) && audio.spans[holder(audio.spans, t)].split_points.contains(t)
            ==> all_marked(audio.toggled(t).spans),
        covered(audio.spans, t) && audio.index_counter < u32::MAX ==> all_marked(
            audio.split_at(t).spans,
        ),
        strictly_ascending(points) && points.to_set() == audio.all_selected()
            && audio.index_counter + points.len() <= u32::MAX ==> all_marked(
            audio.split_all(audio.selection()).spans,
        ),
{
    let spans = audio.spans;
    if has_id(spans, id) {
        lemma_index_of_id(audio, id);
    }
    let k = index_of_id(spans, id);
    assert forall|i: int| 0 <= i < audio.renamed(id, text).spans.len() implies (
    #[trigger] audio.renamed(id, text).spans[i]).selection_marked() by {
        assert(spans[i].selection_marked());
    }
    assert forall|i: int| 0 <= i < audio.positioned(id, pos).spans.len() implies (
    #[trigger] audio.positioned(id, pos).spans[i]).selection_marked() by {
        assert(spans[i].selection_marked());
    }
    assert forall|i: int| 0 <= i < audio.cursor_at(pos).spans.len() implies (
    #[trigger] audio.cursor_at(pos).spans[i]).selection_marked() by {
        assert(spans[i].selection_marked());
    }
    assert forall|i: int| 0 <= i < audio.deleted(id).spans.len() implies (#[trigger] audio.deleted(
        id,
    ).spans[i]).selection_marked() by {
        if has_id(spans, id) {
            if i < k {
                assert(spans[i].selection_marked());
            } else {
                assert(spans[i + 1].selection_marked());
            }
        } else {
            assert(spans[i].selection_marked());
        }
    }
    assert forall|i: int| 0 <= i < distributed(spans, candidates).len() implies (
    #[trigger] distributed(spans, candidates)[i]).selection_marked() by {}
    if covered(spans, t) {
        let w = choose|w: int| 0 <= w < spans.len() && (#[trigger] spans[w]).contains(t);
        lemma_one_holder(audio, t, w, w);
        let h = holder(spans, t);
        if spans[h].split_points.contains(t) {
            assert forall|i: int| 0 <= i < audio.toggled(t).spans.len() implies (
            #[trigger] audio.toggled(t).spans[i]).selection_marked() by {
                assert(spans[i].selection_marked());
            }
        }
        if audio.index_counter < u32::MAX {
            let after = audio.split_at(t).spans;
            assert forall|i: int| 0 <= i < after.len() implies (
            #[trigger] after[i]).selection_marked() by {
                if i < h {
                    assert(after[i] == spans[i]);
                } else if i > h + 1 {
                    assert(after[i] == spans[i - 1]);
                }
            }
        }
    }
    if strictly_ascending(points) && points.to_set() == audio.all_selected()
        && audio.index_counter + points.len() <= u32::MAX {
        lemma_ascending_seq(points);
        lemma_split_all(audio, points, points.len() as int);
        assert(points.take(points.len() as int) =~= points);
        let after = audio.split_all(points).spans;
        assert forall|i: int| 0 <= i < after.len() implies (#[trigger] after[i]).selection_marked() by {
            assert forall|x: u64| !after[i].selected_split_points.contains(x) by {
                if after[i].selected_split_points.contains(x) {
                    assert(points.skip(points.len() as int).contains(x));
                }
            }
        }
    }
}

/// At the start, every selected cut point lies inside the span that holds
/// it.
proof fn lemma_selection_within(audio: AudioView, points: Seq<u64>, from: int)
    requires
        audio.wf(),
        from == 0,
        points.to_set() == audio.all_selected(),
    ensures
        selection_within(audio, points, from),
{
    assert(points.skip(0) =~= points);
    assert forall|q: int| 0 <= q < points.len() implies covered(audio.spans, #[trigger] points[q]) by {
        assert(points.contains(points[q]));
        assert(points.to_set().contains(points[q]));
        assert(audio.all_selected().contains(points[q]));
        let k = choose|k: int|
            0 <= k < audio.spans.len() && (#[trigger] audio.spans[k]).selected_split_points.contains(
                points[q],
            );
        assert(audio.spans[k].wf());
        assert(audio.spans[k].contains(points[q]));
    }
    assert forall|k: int, x: u64|
        0 <= k < audio.spans.len() && #[trigger] audio.spans[k].selected_split_points.contains(
            x,
        ) implies points.skip(0).contains(x) by {
        assert(audio.all_selected().contains(x));
        assert(points.to_set().contains(x));
    }
}

/// The timeline of one track: its spans in order, the name of the track, and
/// the counter from which new spans get their ids.
#[derive(Debug, Clone)]
pub struct Audio {
    spans: Vec<AudioSpan>,
    file_name: String,
    index_counter: u32,
}

impl View for Audio {
    type V = AudioView;

    closed spec fn view(&self) -> AudioView {
        AudioView {
            spans: span_views(self.spans@),
            file_name: self.file_name@,
            index_counter: self.index_counter,
        }
    }
}

impl Audio {
    /// Every span keeps its cut points in ascending order.
    pub closed spec fn ordered(&self) -> bool {
        forall|i: int| 0 <= i < self.spans@.len() ==> (#[trigger] self.spans@[i]).ordered()
    }

    /// The timeline is well formed as a value, and so is what it stores.
    pub open spec fn wf(&self) -> bool {
        self@.wf() && self.ordered()
    }

    /// The timeline of a track called `file_name`, made of one span.
    pub fn new(span: AudioSpan, file_name: String) -> (audio: Self)
        requires
            span.wf(),
            span@.id == 0,
        ensures
            audio.wf(),
            audio@ == (AudioView {
                spans: seq![span@],
                file_name: file_name@,
                index_counter: 0,
            }),
            tiles(audio@.spans),
    {
        let mut spans: Vec<AudioSpan> = Vec::new();
        spans.push(span);
        let audio = Self { spans, file_name, index_counter: 0 };
        assert(audio@.spans =~= seq![span@]);
        audio
    }

    /// The spans, in order.
    pub fn spans(&self) -> (spans: &[AudioSpan])
        ensures
            span_views(spans@) == self@.spans,
            self.wf() ==> forall|i: int| 0 <= i < spans@.len() ==> (#[trigger] spans@[i]).wf(),
    {
        proof {
            if self.wf() {
                assert forall|i: int| 0 <= i < self.spans@.len() implies (#[trigger] self.spans@[i]).wf() by {
                    assert(self@.spans[i].wf());
                }
            }
        }
        self.spans.as_slice()
    }

    /// The spans, in order, for changing them in place. The timeline stays
    /// well formed as long as every span does and the spans stay in order.
    pub fn spans_mut(&mut self) -> (spans: &mut [AudioSpan])
        ensures
            span_views(spans@) == old(self)@.spans,
            old(self).wf() ==> forall|i: int| 0 <= i < spans@.len() ==> (#[trigger] spans@[i]).wf(),
            final(self)@ == (AudioView { spans: span_views(final(spans)@), ..old(self)@ }),
            (forall|i: int| 0 <= i < final(spans)@.len() ==> (#[trigger] final(spans)@[i]).wf())
                ==> final(self).ordered(),
    {
        proof {
            if self.wf() {
                assert forall|i: int| 0 <= i < self.spans@.len() implies (#[trigger] self.spans@[i]).wf() by {
                    assert(self@.spans[i].wf());
                }
            }
        }
        self.spans.as_mut_slice()
    }

    /// The id that was handed out last.
    pub fn index_counter(&self) -> (id: u32)
        ensures
            id == self@.index_counter,
    {
        self.index_counter
    }

    /// The name of the track.
    pub fn file_name(&self) -> (name: &str)
        ensures
            name@ == self@.file_name,
    {
        self.file_name.as_str()
    }

    /// The index of the span with the id `id`, if there is one.
    pub fn span_with_id(&self, id: u32) -> (found: Option<usize>)
        ensures
            found.is_some() == has_id(self@.spans, id),
            found matches Some(k) ==> first_with_id(self@.spans, id, k as int) && k
                == index_of_id(self@.spans, id),
    {
        let mut i: usize = 0;
        while i < self.spans.len()
            invariant
                i <= self.spans@.len(),
                forall|j: int| 0 <= j < i ==> (#[trigger] self@.spans[j]).id != id,
            decreases self.spans@.len() - i,
        {
            if self.spans[i].id() == id {
                proof {
                    let views = self@.spans;
                    assert(first_with_id(views, id, i as int));
                    let c = index_of_id(views, id);
                    assert(first_with_id(views, id, c));
                    if c < i {
                        assert(views[c].id != id);
                    }
                    if (i as int) < c {
                        assert(views[i as int].id != id);
                    }
                }
                return Some(i);
            }
            i += 1;
        }
        None
    }

    /// The index of the span that contains `t`, if there is one.
    pub fn span_at(&self, t: u64) -> (found: Option<usize>)
        ensures
            found.is_some() == covered(self@.spans, t),
            found matches Some(k) ==> first_containing(self@.spans, t, k as int) && k
                == holder(self@.spans, t),
    {
        let mut i: usize = 0;
        while i < self.spans.len()
            invariant
                i <= self.spans@.len(),
                forall|j: int| 0 <= j < i ==> !(#[trigger] self@.spans[j]).contains(t),
            decreases self.spans@.len() - i,
        {
            if self.spans[i].contains(t) {
                proof {
                    let views = self@.spans;
                    assert(first_containing(views, t, i as int));
                    let c = holder(views, t);
                    assert(first_containing(views, t, c));
                    if c < i {
                        assert(!views[c].contains(t));
                    }
                    if (i as int) < c {
                        assert(!views[i as int].contains(t));
                    }
                }
                return Some(i);
            }
            i += 1;
        }
        None
    }

    /// Moves the cursor of the span with the id `span_id` to `pos`, clamped
    /// into that span. Playback itself is moved by the caller.
    pub fn set_pos(&mut self, span_id: u32, pos: u64)
        requires
            old(self).wf(),
        ensures
            final(self).wf(),
            final(self)@ == old(self)@.positioned(span_id, pos),
            tiles(old(self)@.spans) ==> tiles(final(self)@.spans),
    {
        if let Some(k) = self.span_with_id(span_id) {
            self.spans[k].set_pos_and_get_info(pos);
            proof {
                let before = old(self)@.spans;
                assert(self@.spans =~= before.update(k as int, before[k as int].moved_to(pos)));
            }
        }
    }

    /// Takes the span with the id `id` out of the timeline. The other spans
    /// stay as they are, so a gap may open where the span was.
    pub fn delete_span(&mut self, id: u32)
        requires
            old(self).wf(),
        ensures
            final(self).wf(),
            final(self)@ == old(self)@.deleted(id),
    {
        if let Some(k) = self.span_with_id(id) {
            self.spans.remove(k);
            proof {
                let before = old(self)@.spans;
                assert(self@.spans =~= before.remove(k as int));
            }
        }
    }

    /// Gives the span with the id `id` the name `text`.
    pub fn update_span_text(&mut self, id: u32, text: String)
        requires
            old(self).wf(),
        ensures
            final(self).wf(),
            final(self)@ == old(self)@.renamed(id, text@),
            tiles(old(self)@.spans) ==> tiles(final(self)@.spans),
    {
        if let Some(k) = self.span_with_id(id) {
            self.spans[k].set_name(text);
            proof {
                let before = old(self)@.spans;
                assert(self@.spans =~= before.update(
                    k as int,
                    SpanView { name: text@, ..before[k as int] },
                ));
            }
        }
    }

    /// Splits the span that contains `pos` in two at `pos`. The cut points of
    /// the span go to the part that contains them; a cut point at `pos`
    /// itself is used up.
    ///
    /// Some span has to contain `pos`, and the counter of ids must not be
    /// at its limit.
    pub fn split_at(&mut self, pos: u64)
        requires
            old(self).wf(),
            covered(old(self)@.spans, pos),
            old(self)@.index_counter < u32::MAX,
        ensures
            final(self).wf(),
            final(self)@ == old(self)@.split_at(pos),
            tiles(old(self)@.spans) ==> tiles(final(self)@.spans),
    {
        let ghost before = self@.spans;
        let found = self.span_at(pos);
        let k = found.unwrap();
        let ghost parent = before[k as int];
        assert(parent.wf());
        assert(self.spans@[k as int]@ == parent);
        assert(self.spans@[k as int].wf());
        self.index_counter += 1;
        let id = self.index_counter;
        let start = self.spans[k].start();
        let end = self.spans[k].end();
        let name = String::from_str(self.spans[k].name());
        let mut span_1 = AudioSpan::new(self.spans[k].id(), start, pos, name);
        let mut span_2 = AudioSpan::new(id, pos, end, span_name(self.file_name.as_str(), id));
        let ghost blank_1 = span_1@;
        let ghost blank_2 = span_2@;
        let points = self.spans[k].split_points();
        proof {
            let none = points@.take(0);
            assert(span_1@.split_points =~= Set::new(|x: u64| none.contains(x) && x < pos));
            assert(span_2@.split_points =~= Set::new(|x: u64| none.contains(x) && x > pos));
        }
        let mut j: usize = 0;
        while j < points.len()
            invariant
                j <= points@.len(),
                points@.to_set() == parent.split_points,
                parent.wf(),
                parent.contains(pos),
                blank_1 == SpanView::fresh(parent.id, parent.start, pos, parent.name),
                blank_2.start == pos,
                blank_2.end == parent.end,
                span_1.wf(),
                span_2.wf(),
                span_1@ == (SpanView {
                    split_points: Set::new(|x: u64| points@.take(j as int).contains(x) && x < pos),
                    ..blank_1
                }),
                span_2@ == (SpanView {
                    split_points: Set::new(|x: u64| points@.take(j as int).contains(x) && x > pos),
                    ..blank_2
                }),
            decreases points@.len() - j,
        {
            let point = points[j];
            proof {
                assert(points@.contains(point));
                assert(points@.to_set().contains(point));
                assert(parent.contains(point));
            }
            let ghost lower = span_1@.split_points;
            let ghost upper = span_2@.split_points;
            span_1.insert_split_point(point);
            span_2.insert_split_point(point);
            proof {
                let shorter = points@.take(j as int);
                let longer = points@.take(j + 1);
                assert(longer =~= shorter.push(point));
                assert forall|x: u64| longer.contains(x) <==> (shorter.contains(x) || x == point) by {
                    if longer.contains(x) {
                        let r = choose|r: int| 0 <= r < longer.len() && longer[r] == x;
                        if r < j {
                            assert(shorter[r] == x);
                        }
                    }
                    if shorter.contains(x) {
                        let r = choose|r: int| 0 <= r < shorter.len() && shorter[r] == x;
                        assert(longer[r] == x);
                    }
                    assert(longer[j as int] == point);
                }
                assert(span_1@.split_points =~= Set::new(|x: u64| longer.contains(x) && x < pos));
                assert(span_2@.split_points =~= Set::new(|x: u64| longer.contains(x) && x > pos));
            }
            j += 1;
        }
        proof {
            assert(points@.take(points@.len() as int) =~= points@);
            assert(span_1@.split_points =~= parent.split_points.filter(|x: u64| x < pos));
            assert(span_2@.split_points =~= parent.split_points.filter(|x: u64| x > pos));
            assert(span_1@ == parent.first_child(pos));
            assert(span_2@ == parent.second_child(
                pos,
                id,
                span_name_text(old(self)@.file_name, id),
            ));
        }
        let ghost child_1 = span_1@;
        let ghost child_2 = span_2@;
        self.spans.remove(k);
        self.spans.insert(k, span_1);
        assert(k < self.spans.len());
        self.spans.insert(k + 1, span_2);
        proof {
            let after = self@.spans;
            let expected = before.take(k as int) + seq![child_1, child_2] + before.skip(k + 1);
            assert(after.len() == expected.len());
            assert forall|r: int| 0 <= r < after.len() implies after[r] == expected[r] by {
                if r < k {
                    assert(after[r] == before[r]);
                } else if r == k {
                } else if r == k + 1 {
                } else {
                    assert(after[r] == before[r - 1]);
                }
            }
            assert(after =~= expected);
            lemma_split_keeps_wf(old(self)@, pos);
            assert forall|r: int| 0 <= r < self.spans@.len() implies (#[trigger] self.spans@[r]).ordered() by {
                if r < k {
                    assert(self.spans@[r] == old(self).spans@[r]);
                } else if r > k + 1 {
                    assert(self.spans@[r] == old(self).spans@[r - 1]);
                }
            }
            if tiles(before) {
                lemma_split_keeps_tiling(old(self)@, pos);
            }
        }
    }

    /// All selected cut points of all spans, in ascending order. The spans
    /// are in order and each keeps its selection in order, so the points
    /// come out in order as they are gathered.
    pub fn selected_points(&self) -> (splits: Vec<u64>)
        requires
            self.wf(),
        ensures
            splits@ == self@.selection(),
            strictly_ascending(splits@),
            splits@.to_set() == self@.all_selected(),
    {
        let ghost start = self@;
        let mut splits: Vec<u64> = Vec::new();
        let mut i: usize = 0;
        while i < self.spans.len()
            invariant
                i <= self.spans@.len(),
                self.wf(),
                self@ == start,
                strictly_ascending(splits@),
                forall|x: u64|
                    splits@.contains(x) <==> exists|k: int|
                        0 <= k < i && (#[trigger] start.spans[k]).selected_split_points.contains(x),
            decreases self.spans@.len() - i,
        {
            assert(self.spans@[i as int].wf()) by {
                assert(start.spans[i as int].wf());
            }
            let selected = self.spans[i].selected_split_points();
            let ghost earlier = splits@;
            let mut j: usize = 0;
            while j < selected.len()
                invariant
                    j <= selected@.len(),
                    i < start.spans.len(),
                    start.wf(),
                    strictly_ascending(selected@),
                    selected@.to_set() == start.spans[i as int].selected_split_points,
                    strictly_ascending(splits@),
                    splits@ == earlier + selected@.take(j as int),
                    forall|x: u64|
                        earlier.contains(x) <==> exists|k: int|
                            0 <= k < i && (#[trigger] start.spans[k]).selected_split_points.contains(x),
                decreases selected@.len() - j,
            {
                let point = selected[j];
                proof {
                    assert(selected@.contains(point));
                    assert(selected@.to_set().contains(point));
                    assert(start.spans[i as int].contains(point));
                    assert forall|a: int| 0 <= a < splits@.len() implies splits@[a] < point by {
                        if a < earlier.len() {
                            assert(earlier.contains(earlier[a]));
                            let k = choose|k: int|
                                0 <= k < i && (#[trigger] start.spans[k]).selected_split_points.contains(
                                    earlier[a],
                                );
                            assert(start.spans[k].wf());
                            assert(start.spans[k].contains(earlier[a]));
                            assert(start.spans[k].end <= start.spans[i as int].start);
                        } else {
                            assert(splits@[a] == selected@[a - earlier.len()]);
                        }
                    }
                }
                splits.push(point);
                proof {
                    assert(splits@ =~= earlier + selected@.take(j + 1));
                }
                j += 1;
            }
            proof {
                assert(selected@.take(selected@.len() as int) =~= selected@);
                assert forall|x: u64|
                    splits@.contains(x) <==> exists|k: int|
                        0 <= k < i + 1 && (#[trigger] start.spans[k]).selected_split_points.contains(
                            x,
                        ) by {
                    if splits@.contains(x) {
                        let a = choose|a: int| 0 <= a < splits@.len() && splits@[a] == x;
                        if a < earlier.len() {
                            assert(earlier.contains(x));
                        } else {
                            assert(selected@[a - earlier.len()] == x);
                            assert(selected@.contains(x));
                            assert(selected@.to_set().contains(x));
                            assert(start.spans[i as int].selected_split_points.contains(x));
                        }
                    }
                    if exists|k: int|
                        0 <= k < i + 1 && (#[trigger] start.spans[k]).selected_split_points.contains(
                            x,
                        ) {
                        let k = choose|k: int|
                            0 <= k < i + 1 && (#[trigger] start.spans[k]).selected_split_points.contains(
                                x,
                            );
                        if k < i {
                            assert(earlier.contains(x));
                            let a = choose|a: int| 0 <= a < earlier.len() && earlier[a] == x;
                            assert(splits@[a] == x);
                        } else {
                            assert(selected@.to_set().contains(x));
                            assert(selected@.contains(x));
                            let a = choose|a: int| 0 <= a < selected@.len() && selected@[a] == x;
                            assert(splits@[earlier.len() + a] == x);
                        }
                    }
                }
            }
            i += 1;
        }
        proof {
            assert(splits@.to_set() =~= start.all_selected());
            lemma_ascending_seq(splits@);
        }
        splits
    }

    /// Splits the timeline at every selected cut point, from the earliest
    /// to the latest. Afterwards nothing is selected.
    ///
    /// The counter of ids must have room for one new id for each selected
    /// cut point.
    pub fn split(&mut self)
        requires
            old(self).wf(),
            old(self)@.index_counter + old(self)@.selection().len() <= u32::MAX,
        ensures
            final(self).wf(),
            final(self)@ == old(self)@.split_all(old(self)@.selection()),
            tiles(old(self)@.spans) ==> tiles(final(self)@.spans),
            !final(self)@.any_selected(),
    {
        let ghost start = self@;
        let splits = self.selected_points();
        proof {
            assert(start.split_all(splits@.take(0)) == start);
            lemma_selection_within(start, splits@, 0);
        }
        let mut j: usize = 0;
        while j < splits.len()
            invariant
                j <= splits@.len(),
                self.wf(),
                start.wf(),
                strictly_ascending(splits@),
                self@ == start.split_all(splits@.take(j as int)),
                self@.index_counter == start.index_counter + j,
                start.index_counter + splits@.len() <= u32::MAX,
                tiles(start.spans) ==> tiles(self@.spans),
                selection_within(self@, splits@, j as int),
            decreases splits@.len() - j,
        {
            let point = splits[j];
            proof {
                assert(splits@.skip(j as int)[0] == point);
                lemma_split_keeps_selection(self@, splits@, j as int);
                assert(splits@.take(j + 1).drop_last() =~= splits@.take(j as int));
            }
            self.split_at(point);
            j += 1;
        }
        proof {
            assert(splits@.take(splits@.len() as int) =~= splits@);
            let done = self@;
            assert forall|k: int| 0 <= k < done.spans.len() implies (
            #[trigger] done.spans[k]).selected_split_points.is_empty() by {
                let chosen = done.spans[k].selected_split_points;
                assert forall|x: u64| !chosen.contains(x) by {
                    if chosen.contains(x) {
                        assert(splits@.skip(splits@.len() as int).contains(x));
                    }
                }
                assert(chosen =~= Set::empty());
            }
        }
    }

    /// Hands the candidate cut points out to the spans. Every span first
    /// loses its cut points and its selection. Then the spans are visited
    /// from the last to the first, and each takes candidates from the end of
    /// the list for as long as it contains the last one.
    ///
    /// The candidates have to be in ascending order.
    pub fn set_split_points(spans: &mut [AudioSpan], mut split_points: Vec<u64>)
        requires
            forall|i: int| 0 <= i < old(spans)@.len() ==> (#[trigger] old(spans)@[i]).wf(),
            in_order(span_views(old(spans)@)),
            ascending(split_points@),
        ensures
            span_views(final(spans)@) == distributed(span_views(old(spans)@), split_points@),
            forall|i: int| 0 <= i < final(spans)@.len() ==> (#[trigger] final(spans)@[i]).wf(),
            tiles(span_views(old(spans)@)) ==> tiles(span_views(final(spans)@)),
    {
        let ghost before = span_views(spans@);
        let ghost c = split_points@;
        let n = spans.len();
        let mut i: usize = 0;
        while i < n
            invariant
                i <= n,
                n == spans@.len(),
                n == before.len(),
                forall|j: int| 0 <= j < n ==> (#[trigger] spans@[j]).wf(),
                forall|j: int| 0 <= j < i ==> (#[trigger] spans@[j])@ == before[j].cleared(),
                forall|j: int| i <= j < n ==> (#[trigger] spans@[j])@ == before[j],
            decreases n - i,
        {
            let ghost stored = spans@;
            spans[i].clear_split_points();
            assert(forall|j: int| 0 <= j < n && j != i ==> spans@[j] == stored[j]);
            i += 1;
        }
        let mut i: usize = n;
        while i > 0
            invariant
                i <= n,
                n == spans@.len(),
                n == before.len(),
                in_order(before),
                ascending(c),
                split_points@.len() <= c.len(),
                split_points@ == c.take(split_points@.len() as int),
                forall|j: int| 0 <= j < n ==> (#[trigger] spans@[j]).wf(),
                forall|j: int| 0 <= j < n ==> (#[trigger] before[j]).wf(),
                forall|j: int| 0 <= j < i ==> (#[trigger] spans@[j])@ == before[j].cleared(),
                forall|j: int|
                    i <= j < n ==> (#[trigger] spans@[j])@ == before[j].given(
                        c.skip(split_points@.len() as int),
                    ),
                forall|q: int|
                    split_points@.len() <= q < c.len() ==> covered_from(before, i as int, #[trigger] c[q]),
                split_points@.len() > 0 ==> forall|k: int|
                    i <= k < n ==> !(#[trigger] before[k]).contains(c[split_points@.len() - 1]),
            decreases i,
        {
            i -= 1;
            proof {
                let m = split_points@.len() as int;
                assert forall|q: int| m <= q < c.len() implies covered_from(
                    before,
                    i as int,
                    #[trigger] c[q],
                ) by {
                    assert(covered_from(before, i + 1, c[q]));
                    let k = choose|k: int|
                        i + 1 <= k < before.len() && (#[trigger] before[k]).contains(c[q]);
                    assert(before[k].contains(c[q]));
                }
                assert forall|t: u64| !(c.skip(m).contains(t) && before[i as int].contains(t)) by {
                    if c.skip(m).contains(t) {
                        let r = choose|r: int| 0 <= r < c.skip(m).len() && c.skip(m)[r] == t;
                        assert(c[m + r] == t);
                        assert(covered_from(before, i + 1, c[m + r]));
                        let k = choose|k: int|
                            i + 1 <= k < before.len() && (#[trigger] before[k]).contains(c[m + r]);
                        assert(before[i as int].end <= before[k].start);
                    }
                }
                assert(before[i as int].cleared().split_points =~= before[i as int].given(
                    c.skip(m),
                ).split_points);
            }
            loop
                invariant
                    i < n,
                    n == spans@.len(),
                    n == before.len(),
                    in_order(before),
                    ascending(c),
                    split_points@.len() <= c.len(),
                    split_points@ == c.take(split_points@.len() as int),
                    forall|j: int| 0 <= j < n ==> (#[trigger] spans@[j]).wf(),
                    forall|j: int| 0 <= j < n ==> (#[trigger] before[j]).wf(),
                    forall|j: int| 0 <= j < i ==> (#[trigger] spans@[j])@ == before[j].cleared(),
                    forall|j: int|
                        i <= j < n ==> (#[trigger] spans@[j])@ == before[j].given(
                            c.skip(split_points@.len() as int),
                        ),
                    forall|q: int|
                        split_points@.len() <= q < c.len() ==> covered_from(
                            before,
                            i as int,
                            #[trigger] c[q],
                        ),
                    split_points@.len() > 0 ==> forall|k: int|
                        i < k < n ==> !(#[trigger] before[k]).contains(c[split_points@.len() - 1]),
                ensures
                    split_points@.len() > 0 ==> forall|k: int|
                        i <= k < n ==> !(#[trigger] before[k]).contains(c[split_points@.len() - 1]),
                decreases split_points@.len(),
            {
                let m = split_points.len();
                if m == 0 {
                    break;
                }
                let last = split_points[m - 1];
                assert(last == c[m - 1]);
                let ghost stored = spans@;
                let fits = spans[i].insert_split_point(last);
                assert(forall|j: int| 0 <= j < n && j != i ==> spans@[j] == stored[j]);
                if fits {
                    split_points.pop();
                    proof {
                        assert(split_points@ =~= c.take(m - 1));
                        assert forall|j: int| i <= j < n implies (#[trigger] spans@[j])@
                            == before[j].given(c.skip(m - 1)) by {
                            let longer = before[j].given(c.skip(m - 1));
                            let shorter = before[j].given(c.skip(m as int));
                            assert forall|t: u64|
                                longer.split_points.contains(t) == (if j == i {
                                    shorter.split_points.insert(last).contains(t)
                                } else {
                                    shorter.split_points.contains(t)
                                }) by {
                                lemma_skip_contains(c, m as int, t);
                            }
                            if j == i {
                                assert(longer.split_points =~= shorter.split_points.insert(last));
                                assert(stored[j]@ == shorter);
                                assert(spans@[j]@ == shorter.with_split_point(last));
                            } else {
                                assert(longer.split_points =~= shorter.split_points);
                            }
                        }
                        assert forall|q: int| m - 1 <= q < c.len() implies covered_from(
                            before,
                            i as int,
                            #[trigger] c[q],
                        ) by {
                            if q == m - 1 {
                                assert(before[i as int].contains(c[q]));
                            }
                        }
                        if m - 1 > 0 {
                            assert forall|k: int| i < k < n implies !(#[trigger] before[k]).contains(
                                c[m - 2],
                            ) by {
                                assert(c[m - 2] <= c[m - 1]);
                                assert(before[i as int].end <= before[k].start);
                            }
                        }
                    }
                } else {
                    break;
                }
            }
        }
        proof {
            let m = split_points@.len() as int;
            assert forall|q: int| m <= q < c.len() implies covered(before, #[trigger] c[q]) by {
                assert(covered_from(before, 0, c[q]));
                let k = choose|k: int| 0 <= k < before.len() && (#[trigger] before[k]).contains(c[q]);
                assert(before[k].contains(c[q]));
            }
            if m > 0 {
                assert(!covered(before, c[m - 1]));
            }
            lemma_unassigned(before, c, m);
            assert(span_views(spans@) =~= distributed(before, c));
            if tiles(before) {
                let after = span_views(spans@);
                assert forall|j: int| #![trigger after[j]] 0 <= j && j + 1 < after.len() implies after[j].end
                    == after[j + 1].start by {
                    assert(before[j].end == before[j + 1].start);
                }
            }
        }
    }

    /// Reverses the selection of `split_point` in the first span that
    /// contains it, and says whether there is such a span.
    pub fn toggle_selected_split_points(&mut self, split_point: u64) -> (claimed: bool)
        requires
            old(self).wf(),
        ensures
            final(self).wf(),
            claimed == covered(old(self)@.spans, split_point),
            final(self)@ == old(self)@.toggled(split_point),
            tiles(old(self)@.spans) ==> tiles(final(self)@.spans),
    {
        if let Some(k) = self.span_at(split_point) {
            self.spans[k].toggle_split_point_selection(split_point);
            proof {
                let before = old(self)@.spans;
                assert(self@.spans =~= before.update(
                    k as int,
                    before[k as int].toggled(split_point),
                ));
            }
            true
        } else {
            false
        }
    }

    /// Whether any span has a selected cut point.
    pub fn split_points_selected(&self) -> (any: bool)
        ensures
            any == self@.any_selected(),
    {
        let mut i: usize = 0;
        while i < self.spans.len()
            invariant
                i <= self.spans@.len(),
                forall|j: int|
                    0 <= j < i ==> (#[trigger] self@.spans[j]).selected_split_points.is_empty(),
            decreases self.spans@.len() - i,
        {
            if self.spans[i].split_points_selected() {
                assert(!self@.spans[i as int].selected_split_points.is_empty());
                return true;
            }
            i += 1;
        }
        false
    }

    /// Follows the playback cursor, which is at `pos`: every span moves its
    /// own cursor to `pos`, clamped into the span. Where the cursor stands in
    /// a gap, before a span that it has not reached and with no span holding
    /// it, the start of that span is returned: playback has to jump there.
    pub fn update_position_info(&mut self, pos: u64) -> (seek: Option<u64>)
        requires
            old(self).wf(),
        ensures
            final(self).wf(),
            final(self)@ == old(self)@.cursor_at(pos),
            seek == seek_target(old(self)@.spans, pos),
            tiles(old(self)@.spans) ==> tiles(final(self)@.spans),
    {
        let mut found_zero = false;
        let mut found_next = false;
        let mut skip_to: u64 = 0;
        let ghost before = self@.spans;
        let ghost mut decided: int = -1;
        let mut i: usize = 0;
        while i < self.spans.len()
            invariant
                i <= self.spans@.len(),
                self.spans@.len() == before.len(),
                !found_next && !found_zero ==> decided < 0,
                before == old(self)@.spans,
                self.file_name == old(self).file_name,
                self.index_counter == old(self).index_counter,
                forall|j: int| 0 <= j < i ==> (#[trigger] self.spans@[j])@ == before[j].moved_to(pos),
                forall|j: int| i <= j < before.len() ==> (#[trigger] self.spans@[j])@ == before[j],
                forall|j: int| 0 <= j < before.len() ==> (#[trigger] self.spans@[j]).ordered(),
                forall|j: int| 0 <= j < before.len() ==> (#[trigger] before[j]).wf(),
                found_next ==> waits_before(before, pos, decided) && skip_to == before[decided].start,
                !found_next && found_zero ==> holds_cursor(before, pos, decided),
                !found_next && !found_zero ==> left_behind(before, pos, i as int),
            decreases self.spans@.len() - i,
        {
            let ghost stored = self.spans@;
            let (state, start) = self.spans[i].set_pos_and_get_info(pos);
            assert(self.spans@.len() == stored.len());
            assert(forall|j: int| 0 <= j < stored.len() && j != i ==> self.spans@[j] == stored[j]);
            assert(stored[i as int]@ == before[i as int]);
            if state == CursorState::Inside || found_zero {
                found_zero = true;
            } else if state == CursorState::Below && !found_next {
                found_next = true;
                skip_to = start;
                proof {
                    decided = i as int;
                }
            }
            proof {
                if state == CursorState::Inside && !found_next && decided < 0 {
                    decided = i as int;
                }
            }
            i += 1;
        }
        proof {
            assert(self@.spans =~= old(self)@.cursor_at(pos).spans);
            if found_next {
                lemma_seek(before, pos, decided);
            } else if found_zero {
                lemma_no_seek(before, pos, decided);
            } else {
                lemma_no_seek(before, pos, before.len() as int);
            }
        }
        if found_next {
            Some(skip_to)
        } else {
            None
        }
    }

    /// Whether a cursor at `pos` has come within the tolerance of the end of
    /// the last span, so that the track counts as played to its end.
    pub fn end_of_track(&self, pos: u64) -> (ended: bool)
        ensures
            ended == at_end(self@.spans, pos),
    {
        let n = self.spans.len();
        if n == 0 {
            false
        } else {
            let end = self.spans[n - 1].end();
            assert(self@.spans.last() == self.spans@[n - 1]@);
            pos <= end && end - pos < END_OF_TRACK_TOLERANCE
        }
    }
}

} // verus!
