//! Candidate cut points from the diagnostics of a silence analysis.
//!
//! The analysis reports each silence on two lines, one with the time at
//! which it starts and one with the time at which it ends. The middle of
//! each silence is a candidate cut point.

use vstd::prelude::*;
use vstd::slice::slice_subrange;
use vstd::string::StringExecFns;
use crate::error::{Error, ErrorKind};
use crate::utils::{fixed_text, fmt_fixed, push_fixed};
use crate::decimal::{decimal_nanos, parse_decimal};
use crate::text::{
    ascii_bytes, find, find_byte, first_occurrence, index_of_byte, occurs, trim, trim_bytes,
};

verus! {

/// What one line of the diagnostics reports.
#[derive(Debug, Clone, Copy, PartialEq, Eq, Structural)]
pub enum SilenceEvent {
    /// A silence starts at this time, in nanoseconds.
    Start(i64),
    /// A silence ends at this time, in nanoseconds.
    End(i64),
    /// Nothing about a silence.
    Other,
}

/// The word by which a line of the silence detector is known.
pub open spec fn marker() -> Seq<u8> {
    ascii_bytes("silencedetect"@)
}

/// The key in front of the time at which a silence starts.
pub open spec fn start_key() -> Seq<u8> {
    ascii_bytes("silence_start:"@)
}

/// The key in front of the time at which a silence ends.
pub open spec fn end_key() -> Seq<u8> {
    ascii_bytes("silence_end:"@)
}

/// The filter that makes the analysis report every silence: a stretch of at
/// least `min_silence` nanoseconds that stays below `threshold` billionths
/// of a decibel.
pub open spec fn silence_filter_text(threshold: i64, min_silence: u64) -> Seq<char> {
    "silencedetect=n="@ + fixed_text(threshold as int) + "dB:d="@ + fixed_text(min_silence as int)
}

/// The arguments with which the analysis tool looks for silences in the
/// file at `path` and writes nothing but its diagnostics.
pub open spec fn analysis_arguments_text(
    path: Seq<char>,
    threshold: i64,
    min_silence: u64,
) -> Seq<Seq<char>> {
    seq![
        "-hide_banner"@,
        "-nostats"@,
        "-i"@,
        path,
        "-af"@,
        silence_filter_text(threshold, min_silence),
        "-f"@,
        "null"@,
        "-"@,
    ]
}

/// The field behind the first `key` of a line: what stands between the key
/// and the next `|` or the end of the line, without the white space around
/// it. `None` where the line has no such key.
pub open spec fn field_after(line: Seq<u8>, key: Seq<u8>) -> Option<Seq<u8>> {
    if occurs(line, key) {
        let rest = line.skip(first_occurrence(line, key) + key.len());
        Some(trim(rest.take(index_of_byte(rest, 124))))
    } else {
        None
    }
}

/// The time in the field behind `key`, in nanoseconds. `None` where the
/// line has no such key or the field is no decimal number of seconds.
pub open spec fn secs_from_line(line: Seq<u8>, key: Seq<u8>) -> Option<int> {
    match field_after(line, key) {
        Some(token) => decimal_nanos(token),
        None => None,
    }
}

/// What a line reports. Only a line with the marker of the silence detector
/// reports anything, and a start is looked for before an end.
pub open spec fn line_event(line: Seq<u8>) -> SilenceEvent {
    if !occurs(line, marker()) {
        SilenceEvent::Other
    } else if let Some(t) = secs_from_line(line, start_key()) {
        SilenceEvent::Start(t as i64)
    } else if let Some(t) = secs_from_line(line, end_key()) {
        SilenceEvent::End(t as i64)
    } else {
        SilenceEvent::Other
    }
}

/// The lines of a text. A line ends at a line feed or at the end of the
/// text; the line feed is not part of it.
pub open spec fn lines(text: Seq<u8>) -> Seq<Seq<u8>>
    decreases text.len(),
{
    let n = index_of_byte(text, 10);
    if text.len() == 0 {
        Seq::empty()
    } else if 0 <= n < text.len() {
        seq![text.take(n)] + lines(text.skip(n + 1))
    } else {
        seq![text]
    }
}

/// What the lines of a text report, line by line.
pub open spec fn events(text: Seq<u8>) -> Seq<SilenceEvent> {
    lines(text).map_values(|line: Seq<u8>| line_event(line))
}

/// The middle between the start and the end of a silence, rounded down to
/// a whole nanosecond. A middle before the start of the track is none.
pub open spec fn midpoint(start: i64, end: i64) -> Option<u64> {
    if start + end >= 0 {
        Some(((start + end) / 2) as u64)
    } else {
        None
    }
}

/// The candidates that a row of events gives, with `pending` as the start
/// that waits for its end. An end takes the pending start with it; an end
/// without a start is passed over; a new start replaces one that still
/// waits.
pub open spec fn pair_up(events: Seq<SilenceEvent>, pending: Option<i64>) -> Seq<u64>
    decreases events.len(),
{
    if events.len() == 0 {
        Seq::empty()
    } else {
        let rest = events.drop_first();
        match events[0] {
            SilenceEvent::Start(s) => pair_up(rest, Some(s)),
            SilenceEvent::End(e) => match pending {
                Some(s) => match midpoint(s, e) {
                    Some(m) => seq![m] + pair_up(rest, None),
                    None => pair_up(rest, None),
                },
                None => pair_up(rest, None),
            },
            SilenceEvent::Other => pair_up(rest, pending),
        }
    }
}

/// The candidate cut points that a diagnostic text gives, in the order in
/// which the silences end.
pub open spec fn candidates(text: Seq<u8>) -> Seq<u64> {
    pair_up(events(text), None)
}

/// A start and an end for each pair, in turn.
pub open spec fn alternating(pairs: Seq<(i64, i64)>) -> Seq<SilenceEvent>
    decreases pairs.len(),
{
    if pairs.len() == 0 {
        Seq::empty()
    } else {
        seq![SilenceEvent::Start(pairs[0].0), SilenceEvent::End(pairs[0].1)] + alternating(
            pairs.drop_first(),
        )
    }
}

/// A row of starts and ends that follow each other in pairs gives one
/// candidate for each pair, in the same order: the mean of the start and the
/// end, rounded down to a whole nanosecond. This holds of pairs whose mean
/// is not negative.
pub proof fn lemma_pair_up_alternating(pairs: Seq<(i64, i64)>, pending: Option<i64>)
    requires
        forall|i: int| 0 <= i < pairs.len() ==> (#[trigger] pairs[i]).0 + pairs[i].1 >= 0,
    ensures
        pair_up(alternating(pairs), pending).len() == pairs.len(),
        forall|i: int|
            0 <= i < pairs.len() ==> (#[trigger] pair_up(alternating(pairs), pending)[i]) == (
            pairs[i].0 + pairs[i].1) / 2,
    decreases pairs.len(),
{
    if pairs.len() > 0 {
        let all = alternating(pairs);
        let rest = pairs.drop_first();
        let after_start = all.drop_first();
        let after_end = after_start.drop_first();
        assert(after_end =~= alternating(rest));
        assert(all[0] == SilenceEvent::Start(pairs[0].0));
        assert(after_start[0] == SilenceEvent::End(pairs[0].1));
        assert(pair_up(all, pending) == pair_up(after_start, Some(pairs[0].0)));
        assert(midpoint(pairs[0].0, pairs[0].1).is_some());
        let m = midpoint(pairs[0].0, pairs[0].1).unwrap();
        assert(pair_up(after_start, Some(pairs[0].0)) == seq![m] + pair_up(after_end, None));
        assert forall|i: int| 0 <= i < rest.len() implies (#[trigger] rest[i]).0 + rest[i].1
            >= 0 by {
            assert(rest[i] == pairs[i + 1]);
        }
        lemma_pair_up_alternating(rest, None);
        let tail = pair_up(alternating(rest), None);
        assert forall|i: int| 0 <= i < pairs.len() implies (#[trigger] pair_up(all, pending)[i])
            == (pairs[i].0 + pairs[i].1) / 2 by {
            if i > 0 {
                assert(pair_up(all, pending)[i] == tail[i - 1]);
                assert(rest[i - 1] == pairs[i]);
            }
        }
    }
}

/// The text that is made of the given lines, each ended by a line feed.
pub open spec fn joined(rows: Seq<Seq<u8>>) -> Seq<u8>
    decreases rows.len(),
{
    if rows.len() == 0 {
        Seq::empty()
    } else {
        rows[0] + seq![10u8] + joined(rows.drop_first())
    }
}

/// A text that is made of lines has those lines.
pub proof fn lemma_lines_joined(rows: Seq<Seq<u8>>)
    requires
        forall|i: int| 0 <= i < rows.len() ==> !(#[trigger] rows[i]).contains(10u8),
    ensures
        lines(joined(rows)) == rows,
    decreases rows.len(),
{
    if rows.len() > 0 {
        let first = rows[0];
        let rest = rows.drop_first();
        let text = joined(rows);
        let n = first.len() as int;
        assert(text == first + seq![10u8] + joined(rest));
        assert forall|j: int| 0 <= j < n implies text[j] != 10u8 by {
            assert(text[j] == first[j]);
            assert(first.contains(first[j]));
        }
        assert(text[n] == 10u8);
        crate::text::lemma_index_of_byte(text, 10, n);
        assert(text.take(n) =~= first);
        assert(text.skip(n + 1) =~= joined(rest));
        assert forall|i: int| 0 <= i < rest.len() implies !(#[trigger] rest[i]).contains(10u8) by {
            assert(rest[i] == rows[i + 1]);
        }
        lemma_lines_joined(rest);
        assert(lines(text) == seq![first] + lines(joined(rest)));
        assert(seq![first] + rest =~= rows);
    }
}

/// Lines `2 * i` and `2 * i + 1` report the start and the end of pair `i`.
pub open spec fn reports(rows: Seq<Seq<u8>>, pairs: Seq<(i64, i64)>, i: int) -> bool {
    &&& line_event(rows[2 * i]) == SilenceEvent::Start(pairs[i].0)
    &&& line_event(rows[2 * i + 1]) == SilenceEvent::End(pairs[i].1)
}

proof fn lemma_alternating(pairs: Seq<(i64, i64)>, i: int)
    requires
        0 <= i < pairs.len(),
    ensures
        alternating(pairs).len() == 2 * pairs.len(),
        alternating(pairs)[2 * i] == SilenceEvent::Start(pairs[i].0),
        alternating(pairs)[2 * i + 1] == SilenceEvent::End(pairs[i].1),
    decreases pairs.len(),
{
    let rest = pairs.drop_first();
    lemma_alternating_len(rest);
    if i > 0 {
        lemma_alternating(rest, i - 1);
        assert(rest[i - 1] == pairs[i]);
        assert(alternating(pairs)[2 * i] == alternating(rest)[2 * (i - 1)]);
        assert(alternating(pairs)[2 * i + 1] == alternating(rest)[2 * (i - 1) + 1]);
    }
}

proof fn lemma_alternating_len(pairs: Seq<(i64, i64)>)
    ensures
        alternating(pairs).len() == 2 * pairs.len(),
    decreases pairs.len(),
{
    if pairs.len() > 0 {
        lemma_alternating_len(pairs.drop_first());
    }
}

/// A text of `2 * N` lines that report `N` silences, each with its start on
/// one line and its end on the next, gives exactly `N` candidates, and each
/// is the mean of its start and its end, rounded down to a whole nanosecond.
/// This holds of silences whose mean is not negative.
pub proof fn lemma_extract_round_trip(rows: Seq<Seq<u8>>, pairs: Seq<(i64, i64)>)
    requires
        rows.len() == 2 * pairs.len(),
        forall|i: int| 0 <= i < rows.len() ==> !(#[trigger] rows[i]).contains(10u8),
        forall|i: int| 0 <= i < pairs.len() ==> reports(rows, pairs, i),
        forall|i: int| 0 <= i < pairs.len() ==> (#[trigger] pairs[i]).0 + pairs[i].1 >= 0,
    ensures
        candidates(joined(rows)).len() == pairs.len(),
        forall|i: int|
            0 <= i < pairs.len() ==> (#[trigger] candidates(joined(rows))[i]) == (pairs[i].0
                + pairs[i].1) / 2,
{
    lemma_lines_joined(rows);
    lemma_alternating_len(pairs);
    let reported = events(joined(rows));
    assert forall|k: int| 0 <= k < reported.len() implies reported[k] == alternating(pairs)[k] by {
        let i = k / 2;
        assert(reports(rows, pairs, i));
        lemma_alternating(pairs, i);
        assert(k == 2 * i || k == 2 * i + 1);
    }
    assert(reported =~= alternating(pairs));
    lemma_pair_up_alternating(pairs, None);
}

fn marker_bytes() -> (r: &'static [u8])
    ensures
        r@ == marker(),
{
    let s = "silencedetect";
    proof {
        reveal_strlit("silencedetect");
        vstd::string::is_ascii_spec_bytes(s);
    }
    s.as_bytes()
}

fn start_key_bytes() -> (r: &'static [u8])
    ensures
        r@ == start_key(),
{
    let s = "silence_start:";
    proof {
        reveal_strlit("silence_start:");
        vstd::string::is_ascii_spec_bytes(s);
    }
    s.as_bytes()
}

fn end_key_bytes() -> (r: &'static [u8])
    ensures
        r@ == end_key(),
{
    let s = "silence_end:";
    proof {
        reveal_strlit("silence_end:");
        vstd::string::is_ascii_spec_bytes(s);
    }
    s.as_bytes()
}

/// The filter that makes the analysis report every silence.
pub fn silence_filter(threshold: i64, min_silence: u64) -> (filter: String)
    ensures
        filter@ == silence_filter_text(threshold, min_silence),
{
    let mut filter = String::from_str("silencedetect=n=");
    filter.append(fmt_fixed(threshold).as_str());
    filter.append("dB:d=");
    push_fixed(&mut filter, min_silence);
    filter
}

/// The arguments with which the analysis tool looks for silences in the
/// file at `path`.
pub fn analysis_arguments(path: &str, threshold: i64, min_silence: u64) -> (arguments: Vec<String>)
    ensures
        arguments.deep_view() == analysis_arguments_text(path@, threshold, min_silence),
{
    let mut arguments: Vec<String> = Vec::new();
    arguments.push(String::from_str("-hide_banner"));
    arguments.push(String::from_str("-nostats"));
    arguments.push(String::from_str("-i"));
    arguments.push(String::from_str(path));
    arguments.push(String::from_str("-af"));
    arguments.push(silence_filter(threshold, min_silence));
    arguments.push(String::from_str("-f"));
    arguments.push(String::from_str("null"));
    arguments.push(String::from_str("-"));
    assert(arguments.deep_view() =~= analysis_arguments_text(path@, threshold, min_silence));
    arguments
}

/// Reads the time behind the first `key` of a line, in nanoseconds.
pub fn parse_secs_from_line(line: &[u8], key: &[u8]) -> (secs: Option<i64>)
    ensures
        match secs {
            Some(t) => secs_from_line(line@, key@) == Some(t as int),
            None => secs_from_line(line@, key@).is_none(),
        },
{
    match find(line, key) {
        None => None,
        Some(idx) => {
            let end = line.len();
            assert(idx + key@.len() <= end) by {
                assert(crate::text::occurs_at(line@, key@, idx as int));
            }
            let rest = slice_subrange(line, idx + key.len(), end);
            assert(rest@ =~= line@.skip(idx + key@.len()));
            let bar = find_byte(rest, 124);
            let field = slice_subrange(rest, 0, bar);
            assert(field@ =~= rest@.take(bar as int));
            parse_decimal(trim_bytes(field))
        },
    }
}

/// Says what a line of the diagnostics reports.
pub fn read_line(line: &[u8]) -> (event: SilenceEvent)
    ensures
        event == line_event(line@),
{
    if find(line, marker_bytes()).is_none() {
        return SilenceEvent::Other;
    }
    if let Some(t) = parse_secs_from_line(line, start_key_bytes()) {
        return SilenceEvent::Start(t);
    }
    if let Some(t) = parse_secs_from_line(line, end_key_bytes()) {
        return SilenceEvent::End(t);
    }
    SilenceEvent::Other
}

/// Reads the candidate cut points from a diagnostic text: for each silence
/// the middle between its start and its end.
pub fn extract_candidates(text: &[u8]) -> (found: Vec<u64>)
    ensures
        found@ == candidates(text@),
{
    let mut found: Vec<u64> = Vec::new();
    let mut pending: Option<i64> = None;
    let mut rest: &[u8] = text;
    while rest.len() > 0
        invariant
            candidates(text@) == found@ + pair_up(events(rest@), pending),
        decreases rest@.len(),
    {
        let n = find_byte(rest, 10);
        let line = slice_subrange(rest, 0, n);
        let event = read_line(line);
        let ghost before = rest@;
        let ghost old_found = found@;
        let ghost old_pending = pending;
        if n < rest.len() {
            rest = slice_subrange(rest, n + 1, rest.len());
        } else {
            rest = slice_subrange(rest, n, n);
        }
        proof {
            assert(line@ =~= before.take(n as int));
            if n < before.len() {
                assert(rest@ =~= before.skip(n + 1));
                assert(lines(before) == seq![line@] + lines(rest@));
            } else {
                assert(line@ =~= before);
                assert(lines(before) == seq![line@]);
                assert(lines(rest@) =~= Seq::<Seq<u8>>::empty());
                assert(lines(before) =~= seq![line@] + lines(rest@));
            }
            assert(events(before)[0] == event);
            assert(events(before).drop_first() =~= events(rest@));
        }
        match event {
            SilenceEvent::Start(s) => {
                pending = Some(s);
            },
            SilenceEvent::End(e) => {
                if let Some(s) = pending {
                    let sum: i128 = s as i128 + e as i128;
                    if sum >= 0 {
                        let m: u64 = (sum / 2) as u64;
                        found.push(m);
                        proof {
                            assert(midpoint(s, e) == Some(m));
                            assert(found@ + pair_up(events(rest@), None) =~= old_found + (seq![m]
                                + pair_up(events(rest@), None)));
                        }
                    }
                }
                pending = None;
            },
            SilenceEvent::Other => {},
        }
    }
    proof {
        assert(events(rest@) =~= Seq::<SilenceEvent>::empty());
        assert(found@ + Seq::<u64>::empty() =~= found@);
    }
    found
}

/// The outcome of a silence analysis. Where the analysis did not run to its
/// end, the whole of it has failed, whatever it wrote. Where it did, the
/// candidates are read from its diagnostics; that there are none is no
/// failure.
pub fn detect_silence(succeeded: bool, diagnostics: &[u8]) -> (outcome: Result<Vec<u64>, Error>)
    ensures
        succeeded ==> (outcome matches Ok(found) && found@ == candidates(diagnostics@)),
        !succeeded ==> (outcome matches Err(error) && error@ == (
            ErrorKind::Analysis,
            ErrorKind::Analysis.place(),
        )),
{
    if succeeded {
        Ok(extract_candidates(diagnostics))
    } else {
        Err(Error::from_kind(ErrorKind::Analysis))
    }
}

} // verus!
