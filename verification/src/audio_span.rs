//! One span of the track: a time range with a name, a playback cursor and the
//! cut points that lie inside it.

use vstd::prelude::*;
use crate::ordered::{strictly_ascending, ordered_contains, ordered_insert, ordered_remove};

verus! {

/// Where a playback position lies relative to a span.
#[derive(Clone, Copy, Debug, PartialEq, Eq, Structural)]
pub enum CursorState {
    /// At or before the start of the span.
    Below,
    /// Strictly between start and end.
    Inside,
    /// At or past the end of the span.
    Above,
}

/// What a span holds, as mathematical values. The two collections of cut
/// points are sets: their order is that of the times themselves.
pub struct SpanView {
    pub id: u32,
    pub start: u64,
    pub end: u64,
    pub name: Seq<char>,
    pub position: u64,
    pub split_points: Set<u64>,
    pub selected_split_points: Set<u64>,
}

impl SpanView {
    /// A time is contained if it lies strictly between start and end:
    /// neither end point belongs to the span.
    pub open spec fn contains(self, t: u64) -> bool {
        self.start < t && t < self.end
    }

    /// How a playback position is classified against this span.
    pub open spec fn classify(self, pos: u64) -> CursorState {
        if pos <= self.start {
            CursorState::Below
        } else if pos >= self.end {
            CursorState::Above
        } else {
            CursorState::Inside
        }
    }

    /// A playback position, moved into `[start, end]`.
    pub open spec fn clamp(self, pos: u64) -> u64 {
        if pos <= self.start {
            self.start
        } else if pos >= self.end {
            self.end
        } else {
            pos
        }
    }

    /// The span is not empty, its cursor lies within it, and every cut
    /// point, selected or not, lies strictly inside it.
    pub open spec fn wf(self) -> bool {
        &&& self.start < self.end
        &&& self.start <= self.position <= self.end
        &&& self.split_points.finite()
        &&& self.selected_split_points.finite()
        &&& forall|t: u64| #[trigger] self.split_points.contains(t) ==> self.contains(t)
        &&& forall|t: u64| #[trigger] self.selected_split_points.contains(t) ==> self.contains(t)
    }

    /// Every selected cut point is one of the cut points.
    pub open spec fn selection_marked(self) -> bool {
        self.selected_split_points.subset_of(self.split_points)
    }

    /// A span as `new` makes it: cursor at the start, no cut points.
    pub open spec fn fresh(id: u32, start: u64, end: u64, name: Seq<char>) -> SpanView {
        SpanView {
            id,
            start,
            end,
            name,
            position: start,
            split_points: Set::empty(),
            selected_split_points: Set::empty(),
        }
    }

    /// The span with its cursor moved to `pos`, clamped into the span.
    pub open spec fn moved_to(self, pos: u64) -> SpanView {
        SpanView { position: self.clamp(pos), ..self }
    }

    /// The span with `t` among its cut points, if it contains `t`.
    pub open spec fn with_split_point(self, t: u64) -> SpanView {
        if self.contains(t) {
            SpanView { split_points: self.split_points.insert(t), ..self }
        } else {
            self
        }
    }

    /// The span with the selection of `t` reversed, if it contains `t`.
    pub open spec fn toggled(self, t: u64) -> SpanView {
        if !self.contains(t) {
            self
        } else if self.selected_split_points.contains(t) {
            SpanView { selected_split_points: self.selected_split_points.remove(t), ..self }
        } else {
            SpanView { selected_split_points: self.selected_split_points.insert(t), ..self }
        }
    }

    /// The span with exactly those of `points` as cut points that it
    /// contains, and without a selection.
    pub open spec fn given(self, points: Seq<u64>) -> SpanView {
        SpanView {
            split_points: Set::new(|t: u64| points.contains(t) && self.contains(t)),
            selected_split_points: Set::empty(),
            ..self
        }
    }

    /// The part of the span before `t`, as a span of its own. It keeps the
    /// id and the name, takes the cut points before `t`, and starts with
    /// its cursor at its start and nothing selected.
    pub open spec fn first_child(self, t: u64) -> SpanView {
        SpanView {
            id: self.id,
            start: self.start,
            end: t,
            name: self.name,
            position: self.start,
            split_points: self.split_points.filter(|x: u64| x < t),
            selected_split_points: Set::empty(),
        }
    }

    /// The part of the span after `t`, as a span of its own with a new id
    /// and name. It takes the cut points after `t`.
    pub open spec fn second_child(self, t: u64, id: u32, name: Seq<char>) -> SpanView {
        SpanView {
            id,
            start: t,
            end: self.end,
            name,
            position: t,
            split_points: self.split_points.filter(|x: u64| x > t),
            selected_split_points: Set::empty(),
        }
    }

    /// The span without cut points and without a selection.
    pub open spec fn cleared(self) -> SpanView {
        SpanView { split_points: Set::empty(), selected_split_points: Set::empty(), ..self }
    }
}

/// The two children of a split share out the cut points of their parent:
/// each cut point other than `t` goes to exactly one child, and the children
/// hold nothing else. A cut point at `t` itself goes to neither.
pub proof fn lemma_split_partitions(parent: SpanView, t: u64, id: u32, name: Seq<char>)
    requires
        parent.wf(),
        parent.contains(t),
    ensures
        parent.first_child(t).split_points.union(parent.second_child(t, id, name).split_points)
            == parent.split_points.remove(t),
        parent.first_child(t).split_points.disjoint(parent.second_child(t, id, name).split_points),
        parent.first_child(t).wf(),
        parent.second_child(t, id, name).wf(),
        !parent.split_points.contains(t) ==> parent.first_child(t).split_points.union(
            parent.second_child(t, id, name).split_points,
        ) == parent.split_points,
{
    let lower = parent.first_child(t).split_points;
    let upper = parent.second_child(t, id, name).split_points;
    assert(lower.union(upper) =~= parent.split_points.remove(t));
    assert(lower.subset_of(parent.split_points));
    assert(upper.subset_of(parent.split_points));
    vstd::set_lib::lemma_len_subset(lower, parent.split_points);
    vstd::set_lib::lemma_len_subset(upper, parent.split_points);
    if !parent.split_points.contains(t) {
        assert(parent.split_points.remove(t) =~= parent.split_points);
    }
}

/// Whatever is done to a span whose selected cut points are all cut points,
/// they still are afterwards, as long as what is toggled is a cut point.
pub proof fn lemma_selection_stays_marked(span: SpanView, t: u64, points: Seq<u64>)
    requires
        span.selection_marked(),
    ensures
        span.moved_to(t).selection_marked(),
        span.with_split_point(t).selection_marked(),
        span.split_points.contains(t) ==> span.toggled(t).selection_marked(),
        span.cleared().selection_marked(),
        span.given(points).selection_marked(),
        span.first_child(t).selection_marked(),
{
}

/// One span of a track.
#[derive(Debug, Clone)]
pub struct AudioSpan {
    id: u32,
    start: u64,
    end: u64,
    name: String,
    position: u64,
    split_points: Vec<u64>,
    selected_split_points: Vec<u64>,
}

impl View for AudioSpan {
    type V = SpanView;

    closed spec fn view(&self) -> SpanView {
        SpanView {
            id: self.id,
            start: self.start,
            end: self.end,
            name: self.name@,
            position: self.position,
            split_points: self.split_points@.to_set(),
            selected_split_points: self.selected_split_points@.to_set(),
        }
    }
}

impl AudioSpan {
    /// Both collections of cut points are stored in ascending order, each
    /// time once.
    pub closed spec fn ordered(&self) -> bool {
        &&& strictly_ascending(self.split_points@)
        &&& strictly_ascending(self.selected_split_points@)
    }

    /// The span is well formed as a value, and so is what it stores.
    pub open spec fn wf(&self) -> bool {
        self@.wf() && self.ordered()
    }

    /// A span over `[start, end)` with its cursor at the start and no cut
    /// points.
    pub fn new(id: u32, start: u64, end: u64, name: String) -> (span: Self)
        requires
            start < end,
        ensures
            span@ == SpanView::fresh(id, start, end, name@),
            span.wf(),
    {
        let span = Self {
            id,
            start,
            end,
            name,
            position: start,
            split_points: Vec::new(),
            selected_split_points: Vec::new(),
        };
        assert(span.split_points@.to_set() =~= Set::empty());
        assert(span.selected_split_points@.to_set() =~= Set::empty());
        span
    }

    pub fn start(&self) -> (t: u64)
        ensures
            t == self@.start,
    {
        self.start
    }

    pub fn end(&self) -> (t: u64)
        ensures
            t == self@.end,
    {
        self.end
    }

    pub fn name(&self) -> (name: &str)
        ensures
            name@ == self@.name,
    {
        self.name.as_str()
    }

    pub fn id(&self) -> (id: u32)
        ensures
            id == self@.id,
    {
        self.id
    }

    /// The cut points inside this span, in ascending order.
    pub fn split_points(&self) -> (points: &[u64])
        ensures
            points@.to_set() == self@.split_points,
            self.wf() ==> strictly_ascending(points@),
    {
        self.split_points.as_slice()
    }

    /// The cut points that are selected for the next split, in ascending
    /// order.
    pub fn selected_split_points(&self) -> (points: &[u64])
        ensures
            points@.to_set() == self@.selected_split_points,
            self.wf() ==> strictly_ascending(points@),
    {
        self.selected_split_points.as_slice()
    }

    /// The last known position of the playback cursor.
    pub fn position(&self) -> (t: u64)
        ensures
            t == self@.position,
    {
        self.position
    }

    pub fn set_name(&mut self, name: String)
        ensures
            final(self)@ == (SpanView { name: name@, ..old(self)@ }),
            old(self).wf() ==> final(self).wf(),
    {
        self.name = name;
    }

    /// Moves the cursor to `pos`, clamped into the span, and reports how `pos`
    /// lies relative to the span, together with the span's start.
    pub fn set_pos_and_get_info(&mut self, pos: u64) -> (info: (CursorState, u64))
        ensures
            final(self)@ == old(self)@.moved_to(pos),
            old(self).wf() ==> final(self).wf(),
            info.0 == old(self)@.classify(pos),
            info.1 == old(self)@.start,
    {
        if pos <= self.start {
            self.position = self.start;
            (CursorState::Below, self.start)
        } else if pos >= self.end {
            self.position = self.end;
            (CursorState::Above, self.start)
        } else {
            self.position = pos;
            (CursorState::Inside, self.start)
        }
    }

    /// Whether `t` lies strictly inside the span.
    pub fn contains(&self, t: u64) -> (inside: bool)
        ensures
            inside == self@.contains(t),
    {
        self.start < t && self.end > t
    }

    /// Adds `split_point` to the cut points if the span contains it, and says
    /// whether it does.
    pub fn insert_split_point(&mut self, split_point: u64) -> (fits: bool)
        requires
            old(self).wf(),
        ensures
            final(self).wf(),
            fits == old(self)@.contains(split_point),
            final(self)@ == old(self)@.with_split_point(split_point),
    {
        let fits = self.contains(split_point);
        if fits {
            ordered_insert(&mut self.split_points, split_point);
        }
        fits
    }

    /// Selects `split_point` if it is not selected, and takes it out of the
    /// selection if it is; a time that the span does not contain changes
    /// nothing. Says whether the span contains it.
    pub fn toggle_split_point_selection(&mut self, split_point: u64) -> (fits: bool)
        requires
            old(self).wf(),
        ensures
            final(self).wf(),
            fits == old(self)@.contains(split_point),
            final(self)@ == old(self)@.toggled(split_point),
    {
        let fits = self.contains(split_point);
        if fits {
            if ordered_contains(&self.selected_split_points, split_point) {
                ordered_remove(&mut self.selected_split_points, split_point);
            } else {
                ordered_insert(&mut self.selected_split_points, split_point);
            }
        }
        fits
    }

    /// Forgets all cut points. The selection goes with them: a point that is
    /// not there cannot be selected.
    pub fn clear_split_points(&mut self)
        ensures
            final(self)@ == old(self)@.cleared(),
            old(self).wf() ==> final(self).wf(),
    {
        self.split_points.clear();
        self.selected_split_points.clear();
        assert(self.split_points@.to_set() =~= Set::empty());
        assert(self.selected_split_points@.to_set() =~= Set::empty());
    }

    /// Whether any cut point is selected.
    pub fn split_points_selected(&self) -> (any: bool)
        ensures
            any == !self@.selected_split_points.is_empty(),
    {
        let any = !self.selected_split_points.is_empty();
        proof {
            if self.selected_split_points@.len() > 0 {
                assert(self.selected_split_points@.contains(self.selected_split_points@[0]));
                assert(self@.selected_split_points.contains(self.selected_split_points@[0]));
            } else {
                assert(self@.selected_split_points =~= Set::empty());
            }
        }
        any
    }
}

} // verus!
