//! Subtitle cues: SubRip and Advanced SubStation timestamps, the cleaning
//! of styled dialogue text, the merged and time-ordered cue list, and the
//! lookup of the cue shown at a given playback time.

use vstd::prelude::*;
use crate::text::{
    chars_of, decimal, field, is_ws, law_field_pieces, law_parse_decimal,
    law_trim_keeps_inner_text, matches_at, parse_u64,
    parse_u64_chars, replace, replace_chars, split_first, string_of, trim, trim_chars, trim_end,
    trim_start,
};

verus! {

/// One subtitle cue. `start` and `end` are playback times in nanoseconds,
/// which holds every `std::time::Duration` exactly.
#[derive(Debug)]
pub struct SubtitleEntry {
    pub start: u128,
    pub end: u128,
    pub text: String,
}

/// A cue as plain values: start, end, text.
pub type EntryView = (u128, u128, Seq<char>);

impl View for SubtitleEntry {
    type V = EntryView;

    open spec fn view(&self) -> EntryView {
        (self.start, self.end, self.text@)
    }
}

/// The cues of a list as plain values.
pub open spec fn entries_view(v: Seq<SubtitleEntry>) -> Seq<EntryView> {
    v.map_values(|e: SubtitleEntry| e@)
}

/// Milliseconds of an hours, minutes, seconds, milliseconds timestamp.
pub open spec fn hmsm_millis(h: u8, m: u8, s: u8, ms: u16) -> nat {
    (h as nat) * 3_600_000 + (m as nat) * 60_000 + (s as nat) * 1_000 + (ms as nat)
}

/// The nanoseconds of a SubRip timestamp given as its
/// (hours, minutes, seconds, milliseconds) parts.
pub fn ts_to_duration(t: (u8, u8, u8, u16)) -> (r: u128)
    ensures
        r == hmsm_millis(t.0, t.1, t.2, t.3) * 1_000_000,
{
    let (h, m, s, ms) = t;
    let millis: u64 = (h as u64) * 3_600_000 + (m as u64) * 60_000 + (s as u64) * 1_000
        + (ms as u64);
    (millis as u128) * 1_000_000
}

/// Milliseconds of an Advanced SubStation time `H:MM:SS.cc` (hours,
/// minutes, seconds and centiseconds, each an unsigned decimal number):
/// the first three `:`-separated pieces, the third split at `.` into
/// seconds and centiseconds; further pieces are ignored.
pub open spec fn ass_time_millis(t: Seq<char>) -> Option<nat> {
    match (field(t, ':', 0), field(t, ':', 1), field(t, ':', 2)) {
        (Some(p0), Some(p1), Some(p2)) => match (field(p2, '.', 0), field(p2, '.', 1)) {
            (Some(q0), Some(q1)) => match (
                parse_u64(p0),
                parse_u64(p1),
                parse_u64(q0),
                parse_u64(q1),
            ) {
                (Some(h), Some(m), Some(s), Some(cs)) => Some(
                    (h as nat) * 3_600_000 + (m as nat) * 60_000 + (s as nat) * 1_000 + (cs as nat)
                        * 10,
                ),
                _ => None,
            },
            _ => None,
        },
        _ => None,
    }
}

/// Whether an Advanced SubStation time can be converted without the
/// millisecond count overflowing a `u64`.
pub open spec fn ass_time_fits(t: Seq<char>) -> bool {
    ass_time_millis(t) matches Some(ms) ==> ms <= u64::MAX
}

/// The nanoseconds at which a cue with Advanced SubStation time `t` is
/// shown: the time itself moved two seconds later.
pub open spec fn ass_time_nanos(t: Seq<char>) -> Option<u128> {
    match ass_time_millis(t) {
        Some(ms) => Some(((ms + 2000) * 1_000_000) as u128),
        None => None,
    }
}

/// The hours, minutes, seconds and centiseconds of an Advanced SubStation
/// time.
fn ass_time_parts(t: &str) -> (r: Option<(u64, u64, u64, u64)>)
    ensures
        match r {
            Some((h, m, s, cs)) => ass_time_millis(t@) == Some(
                (h as nat) * 3_600_000 + (m as nat) * 60_000 + (s as nat) * 1_000 + (cs as nat)
                    * 10,
            ),
            None => ass_time_millis(t@) is None,
        },
{
    let chars = chars_of(t);
    let (p0, rest0) = split_first(&chars, ':');
    let rest0 = match rest0 {
        Some(r) => r,
        None => return None,
    };
    let (p1, rest1) = split_first(&rest0, ':');
    let rest1 = match rest1 {
        Some(r) => r,
        None => return None,
    };
    let (p2, _rest2) = split_first(&rest1, ':');
    let (q0, rest_q) = split_first(&p2, '.');
    let rest_q = match rest_q {
        Some(r) => r,
        None => return None,
    };
    let (q1, _rest_q1) = split_first(&rest_q, '.');
    proof {
        assert(field(t@, ':', 1) == field(rest0@, ':', 0));
        assert(field(t@, ':', 2) == field(rest0@, ':', 1));
        assert(field(rest0@, ':', 1) == field(rest1@, ':', 0));
        assert(field(p2@, '.', 1) == field(rest_q@, '.', 0));
    }
    let h = match parse_u64_chars(&p0) {
        Some(v) => v,
        None => return None,
    };
    let m = match parse_u64_chars(&p1) {
        Some(v) => v,
        None => return None,
    };
    let s = match parse_u64_chars(&q0) {
        Some(v) => v,
        None => return None,
    };
    let cs = match parse_u64_chars(&q1) {
        Some(v) => v,
        None => return None,
    };
    Some((h, m, s, cs))
}

/// Parses an Advanced SubStation time `H:MM:SS.cc` into nanoseconds, two
/// seconds later than the time written; `None` when a piece is missing or
/// is not an unsigned decimal number.
pub fn ass_time_to_duration(t: &str) -> (r: Option<u128>)
    requires
        ass_time_fits(t@),
    ensures
        r == ass_time_nanos(t@),
{
    match ass_time_parts(t) {
        Some((h, m, s, cs)) => {
            let millis: u64 = h * 3_600_000 + m * 60_000 + s * 1_000 + cs * 10;
            Some(((millis as u128) + 2000) * 1_000_000)
        },
        None => None,
    }
}

/// The characters of `s` outside `{...}` override blocks: `{` starts a
/// block, `}` ends one, and neither brace is kept.
pub open spec fn strip_braces(s: Seq<char>, in_brace: bool) -> Seq<char>
    decreases s.len(),
{
    if s.len() == 0 {
        s
    } else if s[0] == '{' {
        strip_braces(s.drop_first(), true)
    } else if s[0] == '}' {
        strip_braces(s.drop_first(), false)
    } else if in_brace {
        strip_braces(s.drop_first(), true)
    } else {
        seq![s[0]] + strip_braces(s.drop_first(), false)
    }
}

/// The two-character line-break code `\N` of styled dialogue.
pub open spec fn ass_newline() -> Seq<char> {
    seq!['\\', 'N']
}

/// Plain text of a styled dialogue line: override blocks removed, every
/// `\N` turned into a line break, surrounding whitespace trimmed.
pub open spec fn strip_ass(s: Seq<char>) -> Seq<char> {
    trim(replace(strip_braces(s, false), ass_newline(), seq!['\n']))
}

/// Whether an Advanced SubStation time parses and its millisecond count
/// fits in a `u64`, the condition for `ass_time_to_duration` to succeed.
pub fn ass_time_usable(t: &str) -> (r: bool)
    ensures
        r == (ass_time_millis(t@) is Some && ass_time_fits(t@)),
{
    match ass_time_parts(t) {
        Some((h, m, s, cs)) => {
            let millis: u128 = (h as u128) * 3_600_000 + (m as u128) * 60_000 + (s as u128)
                * 1_000 + (cs as u128) * 10;
            millis <= u64::MAX as u128
        },
        None => false,
    }
}

/// Whether every complete dialogue line has usable start and end times,
/// the condition for `parse_example_subs`.
pub fn ass_dialogues_usable(d: &Vec<AssDialogue>) -> (r: bool)
    ensures
        r == ass_times_valid(dialogues_view(d@)),
{
    let ghost dv = dialogues_view(d@);
    let mut i: usize = 0;
    while i < d.len()
        invariant
            i <= d.len(),
            dv == dialogues_view(d@),
            forall|j: int|
                0 <= j < i ==> match #[trigger] dv[j] {
                    (Some(b), Some(e), Some(_)) => {
                        &&& ass_time_millis(b) is Some
                        &&& ass_time_fits(b)
                        &&& ass_time_millis(e) is Some
                        &&& ass_time_fits(e)
                    },
                    _ => true,
                },
        decreases d.len() - i,
    {
        let x = &d[i];
        assert(dv[i as int] == x@);
        match (&x.start, &x.end, &x.text) {
            (Some(b), Some(e), Some(_)) => {
                if !(ass_time_usable(b.as_str()) && ass_time_usable(e.as_str())) {
                    return false;
                }
            },
            _ => {},
        }
        i = i + 1;
    }
    true
}

/// Removes styling from a dialogue line (see `strip_ass`).
pub fn strip_ass_tags(s: &str) -> (r: String)
    ensures
        r@ == strip_ass(s@),
{
    let chars = chars_of(s);
    let mut out: Vec<char> = Vec::new();
    let mut in_brace = false;
    let mut i: usize = 0;
    assert(chars@.skip(0) =~= chars@);
    assert(out@ + strip_braces(chars@, false) =~= strip_braces(chars@, false));
    while i < chars.len()
        invariant
            i <= chars.len(),
            out@ + strip_braces(chars@.skip(i as int), in_brace) == strip_braces(chars@, false),
        decreases chars.len() - i,
    {
        let c = chars[i];
        let ghost rest = chars@.skip(i as int);
        assert(rest[0] == c);
        assert(rest.drop_first() =~= chars@.skip(i + 1));
        let ghost out0 = out@;
        if c == '{' {
            in_brace = true;
        } else if c == '}' {
            in_brace = false;
        } else if !in_brace {
            out.push(c);
            assert(out0 + (seq![c] + strip_braces(chars@.skip(i + 1), false)) =~= out@
                + strip_braces(chars@.skip(i + 1), false));
        }
        i = i + 1;
    }
    assert(chars@.skip(i as int) =~= Seq::<char>::empty());
    assert(out@ + Seq::<char>::empty() =~= out@);
    let mut pat: Vec<char> = Vec::new();
    pat.push('\\');
    pat.push('N');
    let mut rep: Vec<char> = Vec::new();
    rep.push('\n');
    assert(pat@ =~= ass_newline());
    assert(rep@ =~= seq!['\n']);
    let replaced = replace_chars(&out, &pat, &rep);
    let trimmed = trim_chars(&replaced);
    string_of(&trimmed)
}

/// Whether a cue is on screen at time `t`, both ends included.
pub open spec fn covers(e: EntryView, t: u128) -> bool {
    e.0 <= t && t <= e.1
}

/// The text of the first cue of `s` on screen at time `t`.
pub open spec fn first_cover(s: Seq<EntryView>, t: u128) -> Option<Seq<char>>
    decreases s.len(),
{
    if s.len() == 0 {
        None
    } else if covers(s[0], t) {
        Some(s[0].2)
    } else {
        first_cover(s.drop_first(), t)
    }
}

/// The view of an optional string.
pub open spec fn opt_view(o: Option<String>) -> Option<Seq<char>> {
    match o {
        Some(s) => Some(s@),
        None => None,
    }
}

/// The text of the first cue of `subs` on screen at time `t` (nanoseconds).
pub fn subtitle_at(subs: &Vec<SubtitleEntry>, t: u128) -> (r: Option<String>)
    ensures
        opt_view(r) == first_cover(entries_view(subs@), t),
{
    let mut i: usize = 0;
    assert(entries_view(subs@).skip(0) =~= entries_view(subs@));
    while i < subs.len()
        invariant
            i <= subs.len(),
            first_cover(entries_view(subs@), t) == first_cover(
                entries_view(subs@).skip(i as int),
                t,
            ),
        decreases subs.len() - i,
    {
        let ghost rest = entries_view(subs@).skip(i as int);
        assert(rest[0] == subs@[i as int]@);
        if subs[i].start <= t && t <= subs[i].end {
            return Some(subs[i].text.clone());
        }
        assert(rest.drop_first() =~= entries_view(subs@).skip(i + 1));
        i = i + 1;
    }
    None
}

/// Whether every cue starts no later than the cues after it.
pub open spec fn sorted_by_start(s: Seq<EntryView>) -> bool {
    forall|i: int, j: int| 0 <= i <= j < s.len() ==> (#[trigger] s[i]).0 <= (#[trigger] s[j]).0
}

/// The predicate "starts at `k`".
pub open spec fn starts_at(k: u128) -> spec_fn(EntryView) -> bool {
    |e: EntryView| e.0 == k
}

/// `r` is `s` stably sorted by start time: `r` is ordered by start, and
/// for every start time the cues starting then appear in `r` exactly as
/// they appear in `s`, in the same order.
pub open spec fn stable_sort_of(r: Seq<EntryView>, s: Seq<EntryView>) -> bool {
    &&& sorted_by_start(r)
    &&& forall|k: u128| #[trigger] r.filter(starts_at(k)) == s.filter(starts_at(k))
}

proof fn lemma_insert_filter(r: Seq<EntryView>, p: int, x: EntryView, k: u128)
    requires
        0 <= p <= r.len(),
        forall|j: int| p <= j < r.len() ==> (#[trigger] r[j]).0 > x.0,
    ensures
        r.insert(p, x).filter(starts_at(k)) == if x.0 == k {
            r.filter(starts_at(k)).push(x)
        } else {
            r.filter(starts_at(k))
        },
{
    let pred = starts_at(k);
    let a = r.take(p);
    let b = r.skip(p);
    assert(r =~= a + b);
    assert(r.insert(p, x) =~= a.push(x) + b);
    Seq::filter_distributes_over_add(a, b, pred);
    Seq::filter_distributes_over_add(a.push(x), b, pred);
    a.lemma_filter_push(x, pred);
    if x.0 == k {
        assert(b.all(|y: EntryView| !pred(y))) by {
            assert forall|j: int| 0 <= j < b.len() implies !pred(#[trigger] b[j]) by {
                assert(b[j] == r[p + j]);
            }
        }
        b.lemma_all_neg_filter_empty(pred);
        assert(b.filter(pred) =~= Seq::<EntryView>::empty());
        assert(a.filter(pred) + b.filter(pred) =~= a.filter(pred));
        assert(a.filter(pred).push(x) + b.filter(pred) =~= a.filter(pred).push(x));
    }
}

/// Sorts cues by start time, keeping cues with equal start times in the
/// order they were given in (`sort_by_key` on the start).
pub fn sort_by_start(v: Vec<SubtitleEntry>) -> (r: Vec<SubtitleEntry>)
    ensures
        stable_sort_of(entries_view(r@), entries_view(v@)),
{
    let ghost orig = entries_view(v@);
    let mut rem = v;
    let mut r: Vec<SubtitleEntry> = Vec::new();
    let ghost mut i: int = 0;
    proof {
        assert(orig.take(0) =~= Seq::<EntryView>::empty());
        assert(entries_view(rem@) =~= orig.skip(0));
        assert forall|k: u128| #[trigger] entries_view(r@).filter(starts_at(k)) == orig.take(
            0,
        ).filter(starts_at(k)) by {
            assert(entries_view(r@) =~= Seq::<EntryView>::empty());
        }
    }
    while rem.len() > 0
        invariant
            0 <= i <= orig.len(),
            entries_view(rem@) == orig.skip(i),
            stable_sort_of(entries_view(r@), orig.take(i)),
        decreases rem.len(),
    {
        let ghost rv = entries_view(r@);
        let ghost old_rem = rem@;
        assert(entries_view(old_rem).len() == old_rem.len());
        assert(entries_view(old_rem)[0] == old_rem[0]@);
        assert(orig.skip(i)[0] == orig[i]);
        let x = rem.remove(0);
        assert(x@ == orig[i]);
        let mut p: usize = r.len();
        while p > 0 && r[p - 1].start > x.start
            invariant
                p <= r.len(),
                rv == entries_view(r@),
                forall|j: int| p <= j < r.len() ==> (#[trigger] rv[j]).0 > x.start,
            decreases p,
        {
            p = p - 1;
        }
        r.insert(p, x);
        proof {
            let nv = entries_view(r@);
            assert(nv =~= rv.insert(p as int, x@));
            assert(orig.take(i + 1) =~= orig.take(i).push(x@));
            assert forall|a: int, b: int| 0 <= a <= b < nv.len() implies (#[trigger] nv[a]).0
                <= (#[trigger] nv[b]).0 by {
                if p > 0 {
                    assert(rv[p - 1].0 <= x.start);
                }
                if a < p && b > p {
                    assert(rv[a].0 <= rv[b - 1].0);
                } else if a < p && b == p {
                    assert(rv[a].0 <= rv[p - 1].0);
                } else if a < p {
                    assert(rv[a].0 <= rv[b].0);
                } else if a > p {
                    assert(rv[a - 1].0 <= rv[b - 1].0);
                } else if b > p {
                    assert(rv[b - 1].0 > x.start);
                }
            }
            assert forall|k: u128| #[trigger] nv.filter(starts_at(k)) == orig.take(i + 1).filter(
                starts_at(k),
            ) by {
                lemma_insert_filter(rv, p as int, x@, k);
                orig.take(i).lemma_filter_push(x@, starts_at(k));
            }
            assert forall|j: int| 0 <= j < rem@.len() implies #[trigger] entries_view(rem@)[j]
                == orig.skip(i + 1)[j] by {
                assert(rem@[j] == old_rem[j + 1]);
                assert(entries_view(old_rem)[j + 1] == old_rem[j + 1]@);
            }
            assert(entries_view(rem@) =~= orig.skip(i + 1));
            i = i + 1;
        }
    }
    assert(orig.take(i) =~= orig);
    r
}

/// A SubRip timestamp as its (hours, minutes, seconds, milliseconds) parts.
pub type SrtTime = (u8, u8, u8, u16);

/// A SubRip cue as plain values: number, start, end and raw text.
pub type SrtItem = (usize, SrtTime, SrtTime, Seq<char>);

/// The cues that `srtlib::Subtitles::parse_from_str` reads from a SubRip
/// text, in the order `Subtitles::sort` puts them (srtlib's own order of
/// subtitles), each as (number, start, end, text) with the timestamps as
/// `Timestamp::get` gives them; `None` when parsing reports an error.
pub uninterp spec fn srt_parse(input: Seq<char>) -> Option<Seq<SrtItem>>;

/// The plain values of parsed SubRip cues.
pub open spec fn srt_items_view(v: Seq<(usize, SrtTime, SrtTime, String)>) -> Seq<SrtItem> {
    v.map_values(|x: (usize, SrtTime, SrtTime, String)| (x.0, x.1, x.2, x.3@))
}

/// Parses a SubRip text with `srtlib::Subtitles::parse_from_str`, orders
/// the cues with srtlib's `Subtitles::sort`, and hands them out
/// (`Subtitles::to_vec`) in that order, each converted to plain values, its
/// timestamps read with `Timestamp::get`; an error becomes `None`. The cues
/// are those the name `srt_parse` stands for; nothing more is claimed of
/// them.
#[verifier::external_body]
fn parse_srt(input: String) -> (r: Option<Vec<(usize, SrtTime, SrtTime, String)>>)
    ensures
        r is Some <==> srt_parse(input@) is Some,
        r matches Some(v) ==> srt_items_view(v@) == srt_parse(input@)->0,
{
    match srtlib::Subtitles::parse_from_str(input) {
        Ok(mut subs) => {
            subs.sort();
            Some(
                subs.to_vec().into_iter().map(
                    |c| (c.num, c.start_time.get(), c.end_time.get(), c.text),
                ).collect(),
            )
        },
        Err(_) => None,
    }
}

/// Nanoseconds of a SubRip timestamp.
pub open spec fn srt_time_nanos(t: SrtTime) -> u128 {
    (hmsm_millis(t.0, t.1, t.2, t.3) * 1_000_000) as u128
}

/// The subtitle entry of a SubRip cue: its times in nanoseconds, and its
/// text trimmed.
pub open spec fn entry_of_item(x: SrtItem) -> EntryView {
    (srt_time_nanos(x.1), srt_time_nanos(x.2), trim(x.3))
}

/// The entries of parsed SubRip cues, in the order given.
pub open spec fn srt_item_entries(items: Seq<SrtItem>) -> Seq<EntryView> {
    items.map_values(|x: SrtItem| entry_of_item(x))
}

/// The entries read from a SubRip text, in srtlib's order; none when there
/// is no text or it does not parse.
pub open spec fn srt_entries(content: Option<Seq<char>>) -> Seq<EntryView> {
    match content {
        Some(c) => match srt_parse(c) {
            Some(items) => srt_item_entries(items),
            None => Seq::empty(),
        },
        None => Seq::empty(),
    }
}

/// One dialogue line of an Advanced SubStation file, as its start time,
/// end time and styled text, each present or not.
pub struct AssDialogue {
    pub start: Option<String>,
    pub end: Option<String>,
    pub text: Option<String>,
}

/// A dialogue line as plain values.
pub type AssDialogueView = (Option<Seq<char>>, Option<Seq<char>>, Option<Seq<char>>);

impl View for AssDialogue {
    type V = AssDialogueView;

    open spec fn view(&self) -> AssDialogueView {
        (opt_view(self.start), opt_view(self.end), opt_view(self.text))
    }
}

/// The dialogue lines of a list as plain values.
pub open spec fn dialogues_view(v: Seq<AssDialogue>) -> Seq<AssDialogueView> {
    v.map_values(|d: AssDialogue| d@)
}

/// Whether every complete dialogue line (start, end and text all present)
/// has start and end times that parse and fit.
pub open spec fn ass_times_valid(d: Seq<AssDialogueView>) -> bool {
    forall|i: int|
        0 <= i < d.len() ==> match #[trigger] d[i] {
            (Some(b), Some(e), Some(_)) => {
                &&& ass_time_millis(b) is Some
                &&& ass_time_fits(b)
                &&& ass_time_millis(e) is Some
                &&& ass_time_fits(e)
            },
            _ => true,
        }
}

/// The entries of the complete dialogue lines, in file order: times moved
/// two seconds later, text cleaned of styling.
pub open spec fn ass_entries(d: Seq<AssDialogueView>) -> Seq<EntryView>
    decreases d.len(),
{
    if d.len() == 0 {
        Seq::empty()
    } else {
        let prev = ass_entries(d.drop_last());
        match d.last() {
            (Some(b), Some(e), Some(t)) => prev.push(
                (ass_time_nanos(b)->0, ass_time_nanos(e)->0, strip_ass(t)),
            ),
            _ => prev,
        }
    }
}

/// Builds a subtitle list from the SubRip cues `srt_cues` (number, start,
/// end, raw text, in the order given) and the Advanced SubStation dialogue
/// lines `ass_dialogues`: the cues with their text trimmed, followed by the
/// complete dialogue lines, all stably sorted by start time.
pub fn subtitles_from_parts(
    srt_cues: Vec<(usize, SrtTime, SrtTime, String)>,
    ass_dialogues: Vec<AssDialogue>,
) -> (r: Vec<SubtitleEntry>)
    requires
        ass_times_valid(dialogues_view(ass_dialogues@)),
    ensures
        stable_sort_of(
            entries_view(r@),
            srt_item_entries(srt_items_view(srt_cues@)) + ass_entries(
                dialogues_view(ass_dialogues@),
            ),
        ),
{
    let ghost iv = srt_items_view(srt_cues@);
    let ghost target = srt_item_entries(iv);
    let mut entries: Vec<SubtitleEntry> = Vec::new();
    let mut j: usize = 0;
    while j < srt_cues.len()
        invariant
            j <= srt_cues.len(),
            iv == srt_items_view(srt_cues@),
            target == srt_item_entries(iv),
            entries_view(entries@) == target.take(j as int),
        decreases srt_cues.len() - j,
    {
        let (_, b, e, ref t) = srt_cues[j];
        assert(iv[j as int] == (srt_cues@[j as int].0, b, e, t@));
        let entry = SubtitleEntry {
            start: ts_to_duration(b),
            end: ts_to_duration(e),
            text: string_of(&trim_chars(&chars_of(t.as_str()))),
        };
        assert(target[j as int] == entry_of_item(iv[j as int]));
        assert(entry@ == target[j as int]);
        let ghost before = entries_view(entries@);
        entries.push(entry);
        assert(entries_view(entries@) =~= before.push(entry@));
        j = j + 1;
        assert(entries_view(entries@) =~= target.take(j as int));
    }
    assert(target.take(j as int) =~= target);
    let ghost srt_part = entries_view(entries@);
    let ghost dv = dialogues_view(ass_dialogues@);
    let mut k: usize = 0;
    assert(dv.take(0) =~= Seq::<AssDialogueView>::empty());
    assert(srt_part + ass_entries(dv.take(0)) =~= srt_part);
    while k < ass_dialogues.len()
        invariant
            k <= ass_dialogues.len(),
            dv == dialogues_view(ass_dialogues@),
            ass_times_valid(dv),
            entries_view(entries@) == srt_part + ass_entries(dv.take(k as int)),
        decreases ass_dialogues.len() - k,
    {
        let d = &ass_dialogues[k];
        assert(dv[k as int] == d@);
        assert(dv.take(k + 1).drop_last() =~= dv.take(k as int));
        assert(dv.take(k + 1).last() == d@);
        match (&d.start, &d.end, &d.text) {
            (Some(b), Some(e), Some(t)) => {
                let start = ass_time_to_duration(b.as_str());
                let end = ass_time_to_duration(e.as_str());
                let entry = SubtitleEntry {
                    start: start.unwrap(),
                    end: end.unwrap(),
                    text: strip_ass_tags(t.as_str()),
                };
                let ghost before = entries_view(entries@);
                entries.push(entry);
                assert(entries_view(entries@) =~= before.push(entry@));
            },
            _ => {},
        }
        k = k + 1;
    }
    assert(dv.take(k as int) =~= dv);
    sort_by_start(entries)
}

/// Builds the subtitle list of a file from what the two subtitle formats
/// read of it: the SubRip cues of `srt_text` (the file's text, or `None`
/// when it could not be read) in srtlib's order and trimmed, followed by
/// the complete dialogue lines of the Advanced SubStation reading, then all
/// of them stably sorted by start time.
pub fn parse_example_subs(srt_text: Option<String>, ass_dialogues: Vec<AssDialogue>) -> (r: Result<
    Vec<SubtitleEntry>,
    String,
>)
    requires
        ass_times_valid(dialogues_view(ass_dialogues@)),
    ensures
        r matches Ok(v) && stable_sort_of(
            entries_view(v@),
            srt_entries(opt_view(srt_text)) + ass_entries(dialogues_view(ass_dialogues@)),
        ),
{
    let ghost content = opt_view(srt_text);
    let cues: Vec<(usize, SrtTime, SrtTime, String)> = match srt_text {
        Some(text) => match parse_srt(text) {
            Some(items) => items,
            None => Vec::new(),
        },
        None => Vec::new(),
    };
    assert(srt_item_entries(srt_items_view(cues@)) =~= srt_entries(content));
    Ok(subtitles_from_parts(cues, ass_dialogues))
}

/// Stable sorting by start time has one outcome: two lists that are both
/// `s` stably sorted by start time are the same list.
pub proof fn law_stable_sort_unique(r1: Seq<EntryView>, r2: Seq<EntryView>, s: Seq<EntryView>)
    requires
        stable_sort_of(r1, s),
        stable_sort_of(r2, s),
    ensures
        r1 == r2,
{
    lemma_same_sort_equal(r1, r2);
}

proof fn lemma_filter_nonempty(r: Seq<EntryView>, i: int)
    requires
        0 <= i < r.len(),
    ensures
        r.filter(starts_at(r[i].0)).len() > 0,
{
    r.lemma_filter_contains(starts_at(r[i].0), i);
}

proof fn lemma_same_sort_equal(r1: Seq<EntryView>, r2: Seq<EntryView>)
    requires
        sorted_by_start(r1),
        sorted_by_start(r2),
        forall|k: u128| #[trigger] r1.filter(starts_at(k)) == r2.filter(starts_at(k)),
    ensures
        r1 == r2,
    decreases r1.len(),
{
    if r1.len() == 0 {
        if r2.len() > 0 {
            lemma_filter_nonempty(r2, 0);
            assert(r1.filter(starts_at(r2[0].0)) == r2.filter(starts_at(r2[0].0)));
            assert(r1.filter(starts_at(r2[0].0)).len() == 0);
        }
        assert(r1 =~= r2);
    } else {
        let e = r1.last();
        let k = e.0;
        lemma_filter_nonempty(r1, r1.len() - 1);
        assert(r1.filter(starts_at(k)) == r2.filter(starts_at(k)));
        assert(r2.len() > 0);
        let f = r2.last();
        let k2 = f.0;
        lemma_filter_nonempty(r2, r2.len() - 1);
        assert(r1.filter(starts_at(k2)) == r2.filter(starts_at(k2)));
        if k2 > k {
            let t = r1.filter(starts_at(k2));
            r1.lemma_filter_pred(starts_at(k2), 0);
            r1.lemma_filter_contains_rev(starts_at(k2), t[0]);
            let j = choose|j: int| 0 <= j < r1.len() && r1[j] == t[0];
            assert(r1[j].0 <= r1[r1.len() - 1].0);
        }
        if k > k2 {
            let t = r2.filter(starts_at(k));
            r2.lemma_filter_pred(starts_at(k), 0);
            r2.lemma_filter_contains_rev(starts_at(k), t[0]);
            let j = choose|j: int| 0 <= j < r2.len() && r2[j] == t[0];
            assert(r2[j].0 <= r2[r2.len() - 1].0);
        }
        assert(k == k2);
        let a1 = r1.drop_last();
        let a2 = r2.drop_last();
        assert(r1 =~= a1.push(e));
        assert(r2 =~= a2.push(f));
        a1.lemma_filter_push(e, starts_at(k));
        a2.lemma_filter_push(f, starts_at(k));
        assert(e == f) by {
            let t1 = r1.filter(starts_at(k));
            assert(t1 == a1.filter(starts_at(k)).push(e));
            assert(t1 == a2.filter(starts_at(k)).push(f));
            assert(t1.last() == e);
        }
        assert forall|j: u128| #[trigger] a1.filter(starts_at(j)) == a2.filter(starts_at(j)) by {
            a1.lemma_filter_push(e, starts_at(j));
            a2.lemma_filter_push(f, starts_at(j));
            assert(r1.filter(starts_at(j)) == r2.filter(starts_at(j)));
            if j == k {
                assert(a1.filter(starts_at(j)) =~= r1.filter(starts_at(j)).drop_last());
                assert(a2.filter(starts_at(j)) =~= r2.filter(starts_at(j)).drop_last());
            }
        }
        assert(sorted_by_start(a1)) by {
            assert forall|x: int, y: int| 0 <= x <= y < a1.len() implies (#[trigger] a1[x]).0 <= (
            #[trigger] a1[y]).0 by {
                assert(a1[x] == r1[x] && a1[y] == r1[y]);
            }
        }
        assert(sorted_by_start(a2)) by {
            assert forall|x: int, y: int| 0 <= x <= y < a2.len() implies (#[trigger] a2[x]).0 <= (
            #[trigger] a2[y]).0 by {
                assert(a2[x] == r2[x] && a2[y] == r2[y]);
            }
        }
        lemma_same_sort_equal(a1, a2);
    }
}

/// Whether `s` holds no brace.
pub open spec fn no_braces(s: Seq<char>) -> bool {
    forall|i: int| 0 <= i < s.len() ==> #[trigger] s[i] != '{' && s[i] != '}'
}

/// Whether `s` holds no `\N` line-break code.
pub open spec fn no_newline_code(s: Seq<char>) -> bool {
    forall|i: int| 0 <= i < s.len() - 1 ==> !(#[trigger] s[i] == '\\' && s[i + 1] == 'N')
}

proof fn lemma_strip_braces_no_braces(s: Seq<char>, b: bool)
    ensures
        no_braces(strip_braces(s, b)),
    decreases s.len(),
{
    if s.len() > 0 {
        lemma_strip_braces_no_braces(s.drop_first(), s[0] == '{' || (s[0] != '}' && b));
        if !(s[0] == '{' || s[0] == '}' || b) {
            let r = strip_braces(s.drop_first(), false);
            assert forall|i: int| 0 <= i < (seq![s[0]] + r).len() implies #[trigger] (seq![s[0]]
                + r)[i] != '{' && (seq![s[0]] + r)[i] != '}' by {
                if i > 0 {
                    assert((seq![s[0]] + r)[i] == r[i - 1]);
                }
            }
        }
    }
}

proof fn lemma_strip_braces_identity(s: Seq<char>)
    requires
        no_braces(s),
    ensures
        strip_braces(s, false) == s,
    decreases s.len(),
{
    if s.len() > 0 {
        assert(s[0] != '{' && s[0] != '}');
        assert(no_braces(s.drop_first())) by {
            assert forall|i: int| 0 <= i < s.drop_first().len() implies #[trigger] s.drop_first()[i]
                != '{' && s.drop_first()[i] != '}' by {
                assert(s.drop_first()[i] == s[i + 1]);
            }
        }
        lemma_strip_braces_identity(s.drop_first());
        assert(s =~= seq![s[0]] + s.drop_first());
    }
}

proof fn lemma_replace_no_braces(x: Seq<char>, pat: Seq<char>, rep: Seq<char>)
    requires
        no_braces(x),
        no_braces(rep),
    ensures
        no_braces(replace(x, pat, rep)),
    decreases x.len(),
{
    if x.len() > 0 && pat.len() > 0 {
        if matches_at(x, pat, 0) {
            let y = x.skip(pat.len() as int);
            assert(no_braces(y)) by {
                assert forall|i: int| 0 <= i < y.len() implies #[trigger] y[i] != '{' && y[i] != '}' by {
                    assert(y[i] == x[i + pat.len()]);
                }
            }
            lemma_replace_no_braces(y, pat, rep);
            let r = replace(y, pat, rep);
            assert forall|i: int| 0 <= i < (rep + r).len() implies #[trigger] (rep + r)[i] != '{'
                && (rep + r)[i] != '}' by {
                if i >= rep.len() {
                    assert((rep + r)[i] == r[i - rep.len()]);
                } else {
                    assert((rep + r)[i] == rep[i]);
                }
            }
        } else {
            let y = x.drop_first();
            assert(no_braces(y)) by {
                assert forall|i: int| 0 <= i < y.len() implies #[trigger] y[i] != '{' && y[i] != '}' by {
                    assert(y[i] == x[i + 1]);
                }
            }
            lemma_replace_no_braces(y, pat, rep);
            let r = replace(y, pat, rep);
            assert(x[0] != '{' && x[0] != '}');
            assert forall|i: int| 0 <= i < (seq![x[0]] + r).len() implies #[trigger] (seq![x[0]]
                + r)[i] != '{' && (seq![x[0]] + r)[i] != '}' by {
                if i > 0 {
                    assert((seq![x[0]] + r)[i] == r[i - 1]);
                }
            }
        }
    }
}

proof fn lemma_replace_first_char(y: Seq<char>)
    requires
        y.len() > 0,
    ensures
        replace(y, ass_newline(), seq!['\n']).len() > 0,
        replace(y, ass_newline(), seq!['\n'])[0] == if matches_at(y, ass_newline(), 0) {
            '\n'
        } else {
            y[0]
        },
{
    let pat = ass_newline();
    let r = replace(y, pat, seq!['\n']);
    if matches_at(y, pat, 0) {
        assert(r == seq!['\n'] + replace(y.skip(2), pat, seq!['\n']));
    } else {
        assert(r == seq![y[0]] + replace(y.drop_first(), pat, seq!['\n']));
    }
}

proof fn lemma_replace_no_newline_code(x: Seq<char>)
    ensures
        no_newline_code(replace(x, ass_newline(), seq!['\n'])),
    decreases x.len(),
{
    let pat = ass_newline();
    let nl = seq!['\n'];
    if x.len() > 0 {
        if matches_at(x, pat, 0) {
            let y = x.skip(2);
            lemma_replace_no_newline_code(y);
            let r = replace(y, pat, nl);
            let t = nl + r;
            assert forall|i: int| 0 <= i < t.len() - 1 implies !(#[trigger] t[i] == '\\' && t[i
                + 1] == 'N') by {
                if i > 0 {
                    assert(t[i] == r[i - 1] && t[i + 1] == r[i]);
                } else {
                    assert(t[0] == '\n');
                }
            }
        } else {
            let y = x.drop_first();
            lemma_replace_no_newline_code(y);
            let r = replace(y, pat, nl);
            let t = seq![x[0]] + r;
            assert forall|i: int| 0 <= i < t.len() - 1 implies !(#[trigger] t[i] == '\\' && t[i
                + 1] == 'N') by {
                if i > 0 {
                    assert(t[i] == r[i - 1] && t[i + 1] == r[i]);
                } else if y.len() > 0 {
                    lemma_replace_first_char(y);
                    assert(t[1] == r[0]);
                    if x[0] == '\\' && t[1] == 'N' {
                        assert(!matches_at(y, pat, 0));
                        assert(y[0] == 'N');
                        assert(x.subrange(0, 2) =~= pat);
                    }
                } else {
                    assert(r.len() == 0);
                }
            }
        }
    }
}

proof fn lemma_replace_identity(x: Seq<char>)
    requires
        no_newline_code(x),
    ensures
        replace(x, ass_newline(), seq!['\n']) == x,
    decreases x.len(),
{
    let pat = ass_newline();
    if x.len() > 0 {
        assert(!matches_at(x, pat, 0)) by {
            if x.len() >= 2 {
                assert(x[0] == '\\' ==> x[1] != 'N');
                if matches_at(x, pat, 0) {
                    assert(x.subrange(0, 2)[0] == x[0]);
                    assert(x.subrange(0, 2)[1] == x[1]);
                }
            }
        }
        let y = x.drop_first();
        assert(no_newline_code(y)) by {
            assert forall|i: int| 0 <= i < y.len() - 1 implies !(#[trigger] y[i] == '\\' && y[i
                + 1] == 'N') by {
                assert(y[i] == x[i + 1] && y[i + 1] == x[i + 2]);
            }
        }
        lemma_replace_identity(y);
        assert(x =~= seq![x[0]] + y);
    }
}

proof fn lemma_trim_keeps(s: Seq<char>)
    ensures
        no_braces(s) ==> no_braces(trim(s)),
        no_newline_code(s) ==> no_newline_code(trim(s)),
        exists|a: int, b: int| 0 <= a <= b <= s.len() && trim(s) == s.subrange(a, b),
{
    let (a, b) = lemma_trim_range(s);
    let t = s.subrange(a, b);
    if no_braces(s) {
        assert forall|i: int| 0 <= i < t.len() implies #[trigger] t[i] != '{' && t[i] != '}' by {
            assert(t[i] == s[a + i]);
        }
    }
    if no_newline_code(s) {
        assert forall|i: int| 0 <= i < t.len() - 1 implies !(#[trigger] t[i] == '\\' && t[i + 1]
            == 'N') by {
            assert(t[i] == s[a + i] && t[i + 1] == s[a + i + 1]);
        }
    }
}

proof fn lemma_trim_start_range(s: Seq<char>) -> (a: int)
    ensures
        0 <= a <= s.len(),
        trim_start(s) == s.skip(a),
        trim_start(s).len() > 0 ==> !is_ws(trim_start(s)[0]),
        forall|k: int| 0 <= k < a ==> is_ws(#[trigger] s[k]),
    decreases s.len(),
{
    if s.len() > 0 && is_ws(s[0]) {
        let a = lemma_trim_start_range(s.drop_first());
        assert(s.drop_first().skip(a) =~= s.skip(a + 1));
        assert forall|k: int| 0 <= k < a + 1 implies is_ws(#[trigger] s[k]) by {
            if k > 0 {
                assert(s[k] == s.drop_first()[k - 1]);
            }
        }
        a + 1
    } else {
        assert(s.skip(0) =~= s);
        0
    }
}

proof fn lemma_trim_end_range(s: Seq<char>) -> (b: int)
    ensures
        0 <= b <= s.len(),
        trim_end(s) == s.take(b),
        trim_end(s).len() > 0 ==> !is_ws(trim_end(s).last()),
        forall|k: int| b <= k < s.len() ==> is_ws(#[trigger] s[k]),
    decreases s.len(),
{
    if s.len() > 0 && is_ws(s.last()) {
        let b = lemma_trim_end_range(s.drop_last());
        assert(s.drop_last().take(b) =~= s.take(b));
        assert forall|k: int| b <= k < s.len() implies is_ws(#[trigger] s[k]) by {
            if k < s.len() - 1 {
                assert(s[k] == s.drop_last()[k]);
            }
        }
        b
    } else {
        assert(s.take(s.len() as int) =~= s);
        s.len() as int
    }
}

proof fn lemma_trim_range(s: Seq<char>) -> (ab: (int, int))
    ensures
        0 <= ab.0 <= ab.1 <= s.len(),
        trim(s) == s.subrange(ab.0, ab.1),
        forall|k: int| 0 <= k < ab.0 ==> is_ws(#[trigger] s[k]),
        forall|k: int| ab.1 <= k < s.len() ==> is_ws(#[trigger] s[k]),
        trim(s).len() > 0 ==> !is_ws(trim(s)[0]) && !is_ws(trim(s).last()),
{
    let a = lemma_trim_start_range(s);
    let t = s.skip(a);
    let b = lemma_trim_end_range(t);
    assert(t.take(b) =~= s.subrange(a, a + b));
    assert forall|k: int| a + b <= k < s.len() implies is_ws(#[trigger] s[k]) by {
        assert(s[k] == t[k - a]);
    }
    if b > 0 {
        assert(trim(s)[0] == t[0]);
    }
    (a, a + b)
}

proof fn lemma_trim_idempotent(s: Seq<char>)
    ensures
        trim(trim(s)) == trim(s),
{
    let t = trim_start(s);
    lemma_trim_start_range(s);
    let u = trim_end(t);
    lemma_trim_end_range(t);
    if u.len() > 0 {
        assert(u[0] == t[0]);
    }
    assert(trim_start(u) == u);
    assert(trim_end(u) == u);
}

/// Cleaning a dialogue line removes every brace, and cleaning an already
/// cleaned line changes nothing.
pub proof fn law_strip_ass_idempotent(s: Seq<char>)
    ensures
        no_braces(strip_ass(s)),
        strip_ass(strip_ass(s)) == strip_ass(s),
{
    let pat = ass_newline();
    let nl = seq!['\n'];
    let b = strip_braces(s, false);
    lemma_strip_braces_no_braces(s, false);
    assert(no_braces(nl));
    lemma_replace_no_braces(b, pat, nl);
    let x = replace(b, pat, nl);
    lemma_replace_no_newline_code(b);
    lemma_trim_keeps(x);
    let r = trim(x);
    lemma_strip_braces_identity(r);
    lemma_replace_identity(r);
    lemma_trim_idempotent(x);
}

/// An Advanced SubStation time is read as it is written: for any numbers
/// `h`, `m`, `s` and `cs`, the text `h:m:s.cs` in decimal stands for
/// `h` hours, `m` minutes, `s` seconds and `cs` hundredths of a second,
/// and the cue is shown two seconds after that time.
pub proof fn law_ass_time_as_written(h: u64, m: u64, s: u64, cs: u64)
    ensures
        ass_time_millis(
            decimal(h as nat) + seq![':'] + decimal(m as nat) + seq![':'] + decimal(s as nat)
                + seq!['.'] + decimal(cs as nat),
        ) == Some((h as nat) * 3_600_000 + (m as nat) * 60_000 + (s as nat) * 1_000 + (cs as nat)
            * 10),
        ass_time_nanos(
            decimal(h as nat) + seq![':'] + decimal(m as nat) + seq![':'] + decimal(s as nat)
                + seq!['.'] + decimal(cs as nat),
        ) == Some(
            ((h as nat) * 3_600_000_000_000 + (m as nat) * 60_000_000_000 + (s as nat)
                * 1_000_000_000 + (cs as nat) * 10_000_000 + 2_000_000_000) as u128,
        ),
{
    let dh = decimal(h as nat);
    let dm = decimal(m as nat);
    let ds = decimal(s as nat);
    let dc = decimal(cs as nat);
    law_parse_decimal(h);
    law_parse_decimal(m);
    law_parse_decimal(s);
    law_parse_decimal(cs);
    let r2 = ds + seq!['.'] + dc;
    let r1 = dm + seq![':'] + r2;
    let t = dh + seq![':'] + r1;
    assert(t =~= dh + seq![':'] + dm + seq![':'] + ds + seq!['.'] + dc);
    assert forall|k: int| 0 <= k < dh.len() implies dh[k] != ':' by {
        assert('0' <= dh[k] <= '9');
    }
    assert forall|k: int| 0 <= k < dm.len() implies dm[k] != ':' by {
        assert('0' <= dm[k] <= '9');
    }
    assert forall|k: int| 0 <= k < ds.len() implies ds[k] != '.' by {
        assert('0' <= ds[k] <= '9');
    }
    assert forall|k: int| 0 <= k < dc.len() implies dc[k] != '.' by {
        assert('0' <= dc[k] <= '9');
    }
    assert forall|k: int| 0 <= k < r2.len() implies r2[k] != ':' by {
        if k < ds.len() {
            assert(r2[k] == ds[k]);
            assert('0' <= ds[k] <= '9');
        } else if k > ds.len() {
            assert(r2[k] == dc[k - ds.len() - 1]);
            assert('0' <= dc[k - ds.len() - 1] <= '9');
        }
    }
    law_field_pieces(dh, ':', r1, 0);
    law_field_pieces(dh, ':', r1, 1);
    law_field_pieces(dm, ':', r2, 0);
    law_field_pieces(r2, ':', Seq::empty(), 0);
    law_field_pieces(ds, '.', dc, 0);
    law_field_pieces(dc, '.', Seq::empty(), 0);
    assert(field(t, ':', 0) == Some(dh));
    assert(field(t, ':', 1) == Some(dm));
    assert(field(t, ':', 2) == Some(r2));
    assert(field(r2, '.', 0) == Some(ds));
    assert(field(r2, '.', 1) == Some(dc));
}

/// A SubRip cue becomes an entry with its whole text, only the surrounding
/// whitespace taken away: a text that has none, whatever lines it holds,
/// is kept as it is; its times are the timestamps in nanoseconds.
pub proof fn law_srt_entry_keeps_text(x: SrtItem)
    requires
        x.3.len() > 0 ==> !is_ws(x.3[0]) && !is_ws(x.3.last()),
    ensures
        entry_of_item(x).2 == x.3,
        entry_of_item(x).0 == (((x.1.0 as nat) * 3600 + (x.1.1 as nat) * 60 + (x.1.2 as nat)) * 1000
            + (x.1.3 as nat)) * 1_000_000,
        entry_of_item(x).1 == (((x.2.0 as nat) * 3600 + (x.2.1 as nat) * 60 + (x.2.2 as nat)) * 1000
            + (x.2.3 as nat)) * 1_000_000,
{
    law_trim_keeps_inner_text(x.3);
}

/// The SubRip part of the cue list holds one entry per parsed cue, in the
/// order the cues were given, each made from its cue alone.
pub proof fn law_srt_entries_one_per_cue(items: Seq<SrtItem>, i: int)
    requires
        0 <= i < items.len(),
    ensures
        srt_item_entries(items).len() == items.len(),
        srt_item_entries(items)[i] == entry_of_item(items[i]),
{
}

/// Trimming takes away whitespace at both ends and nothing else: the
/// result is a stretch of the text, everything before and after it is
/// whitespace, and it neither starts nor ends with whitespace.
pub proof fn law_trim_strips_only_whitespace(s: Seq<char>)
    ensures
        exists|a: int, b: int|
            {
                &&& 0 <= a <= b <= s.len()
                &&& trim(s) == s.subrange(a, b)
                &&& forall|k: int| 0 <= k < a ==> is_ws(#[trigger] s[k])
                &&& forall|k: int| b <= k < s.len() ==> is_ws(#[trigger] s[k])
            },
        trim(s).len() > 0 ==> !is_ws(trim(s)[0]) && !is_ws(trim(s).last()),
{
    let (a, b) = lemma_trim_range(s);
}

/// The text shown at time `t` is that of the first cue whose start and
/// end enclose `t`, both ends included; nothing is shown when no cue does.
pub proof fn law_first_cover_is_first_on_screen(s: Seq<EntryView>, t: u128, i: int)
    ensures
        first_cover(s, t) is None <==> forall|j: int|
            0 <= j < s.len() ==> !((#[trigger] s[j]).0 <= t && t <= s[j].1),
        0 <= i < s.len() && s[i].0 <= t && t <= s[i].1 && (forall|j: int|
            0 <= j < i ==> !((#[trigger] s[j]).0 <= t && t <= s[j].1)) ==> first_cover(s, t)
            == Some(s[i].2),
    decreases s.len(),
{
    if s.len() > 0 {
        let r = s.drop_first();
        law_first_cover_is_first_on_screen(r, t, i - 1);
        assert forall|j: int| 0 <= j < r.len() implies r[j] == s[j + 1] by {}
        if !(s[0].0 <= t && t <= s[0].1) {
            if first_cover(r, t) is None {
                assert forall|j: int| 0 <= j < s.len() implies !((#[trigger] s[j]).0 <= t && t
                    <= s[j].1) by {
                    if j > 0 {
                        assert(s[j] == r[j - 1]);
                    }
                }
            } else {
                let j = choose|j: int| 0 <= j < r.len() && (#[trigger] r[j]).0 <= t && t <= r[j].1;
                assert(s[j + 1] == r[j]);
            }
            if 0 <= i < s.len() && s[i].0 <= t && t <= s[i].1 && (forall|j: int|
                0 <= j < i ==> !((#[trigger] s[j]).0 <= t && t <= s[j].1)) {
                assert(i > 0);
                assert(r[i - 1] == s[i]);
                assert forall|j: int| 0 <= j < i - 1 implies !((#[trigger] r[j]).0 <= t && t
                    <= r[j].1) by {
                    assert(r[j] == s[j + 1]);
                }
            }
        } else {
            if 0 <= i < s.len() && s[i].0 <= t && t <= s[i].1 && (forall|j: int|
                0 <= j < i ==> !((#[trigger] s[j]).0 <= t && t <= s[j].1)) {
                assert(i == 0);
            }
        }
    }
}

proof fn lemma_strip_braces_prefix(a: Seq<char>, r: Seq<char>)
    requires
        no_braces(a),
    ensures
        strip_braces(a + r, false) == a + strip_braces(r, false),
    decreases a.len(),
{
    if a.len() == 0 {
        assert(a + r =~= r);
    } else {
        let s = a + r;
        let a1 = a.drop_first();
        assert(s[0] == a[0]);
        assert(a[0] != '{' && a[0] != '}');
        assert(s.drop_first() =~= a1 + r);
        assert(no_braces(a1)) by {
            assert forall|i: int| 0 <= i < a1.len() implies #[trigger] a1[i] != '{' && a1[i]
                != '}' by {
                assert(a1[i] == a[i + 1]);
            }
        }
        lemma_strip_braces_prefix(a1, r);
        assert(seq![a[0]] + (a1 + strip_braces(r, false)) =~= a + strip_braces(r, false));
    }
}

proof fn lemma_strip_braces_block(x: Seq<char>, b: Seq<char>)
    requires
        forall|i: int| 0 <= i < x.len() ==> x[i] != '}',
    ensures
        strip_braces(x + seq!['}'] + b, true) == strip_braces(b, false),
    decreases x.len(),
{
    let s = x + seq!['}'] + b;
    if x.len() == 0 {
        assert(s[0] == '}');
        assert(s.drop_first() =~= b);
    } else {
        let x1 = x.drop_first();
        assert(s[0] == x[0]);
        assert(s.drop_first() =~= x1 + seq!['}'] + b);
        assert forall|i: int| 0 <= i < x1.len() implies x1[i] != '}' by {
            assert(x1[i] == x[i + 1]);
        }
        lemma_strip_braces_block(x1, b);
    }
}

proof fn lemma_replace_prefix(a: Seq<char>, r: Seq<char>, pat: Seq<char>, rep: Seq<char>)
    requires
        pat.len() > 0,
        forall|i: int| 0 <= i < a.len() ==> !matches_at(a + r, pat, i),
    ensures
        replace(a + r, pat, rep) == a + replace(r, pat, rep),
    decreases a.len(),
{
    if a.len() == 0 {
        assert(a + r =~= r);
    } else {
        let s = a + r;
        assert(!matches_at(s, pat, 0));
        let a1 = a.drop_first();
        assert(s.drop_first() =~= a1 + r);
        assert forall|i: int| 0 <= i < a1.len() implies !matches_at(a1 + r, pat, i) by {
            assert(!matches_at(s, pat, i + 1));
            if matches_at(a1 + r, pat, i) {
                assert(s.subrange(i + 1, i + 1 + pat.len()) =~= (a1 + r).subrange(
                    i,
                    i + pat.len(),
                ));
            }
        }
        lemma_replace_prefix(a1, r, pat, rep);
        assert(s[0] == a[0]);
        assert(seq![a[0]] + (a1 + replace(r, pat, rep)) =~= a + replace(r, pat, rep));
    }
}

/// A dialogue line without override blocks and without `\N` codes is only
/// trimmed: every other character is kept as it is.
pub proof fn law_strip_ass_keeps_plain_text(s: Seq<char>)
    requires
        no_braces(s),
        no_newline_code(s),
    ensures
        strip_ass(s) == trim(s),
{
    lemma_strip_braces_identity(s);
    lemma_replace_identity(s);
}

/// An override block `{...}` is removed whole, with the text around it
/// kept: taking the block out first gives the same cleaned line.
pub proof fn law_strip_ass_drops_override(a: Seq<char>, x: Seq<char>, b: Seq<char>)
    requires
        no_braces(a),
        forall|i: int| 0 <= i < x.len() ==> x[i] != '}',
    ensures
        strip_ass(a + seq!['{'] + x + seq!['}'] + b) == strip_ass(a + b),
{
    let r = seq!['{'] + x + seq!['}'] + b;
    assert(a + seq!['{'] + x + seq!['}'] + b =~= a + r);
    lemma_strip_braces_prefix(a, r);
    lemma_strip_braces_prefix(a, b);
    assert(r[0] == '{');
    assert(r.drop_first() =~= x + seq!['}'] + b);
    lemma_strip_braces_block(x, b);
}

/// The code `\N` between two pieces of plain text becomes a line break:
/// the cleaned line is the two pieces with a line break between them,
/// trimmed.
pub proof fn law_strip_ass_line_break(a: Seq<char>, b: Seq<char>)
    requires
        no_braces(a),
        no_braces(b),
        no_newline_code(a),
        no_newline_code(b),
    ensures
        strip_ass(a + ass_newline() + b) == trim(a + seq!['\n'] + b),
{
    let pat = ass_newline();
    let nl = seq!['\n'];
    let r = pat + b;
    let s = a + r;
    assert(a + ass_newline() + b =~= s);
    assert(no_braces(s)) by {
        assert forall|i: int| 0 <= i < s.len() implies #[trigger] s[i] != '{' && s[i] != '}' by {
            if i >= a.len() + 2 {
                assert(s[i] == b[i - a.len() - 2]);
            } else if i < a.len() {
                assert(s[i] == a[i]);
            }
        }
    }
    lemma_strip_braces_identity(s);
    assert forall|i: int| 0 <= i < a.len() implies !matches_at(s, pat, i) by {
        if matches_at(s, pat, i) {
            assert(s.subrange(i, i + 2)[0] == s[i]);
            assert(s.subrange(i, i + 2)[1] == s[i + 1]);
            assert(s[i] == '\\' && s[i + 1] == 'N');
            if i < a.len() - 1 {
                assert(s[i] == a[i] && s[i + 1] == a[i + 1]);
            } else {
                assert(s[i + 1] == r[0]);
            }
        }
    }
    lemma_replace_prefix(a, r, pat, nl);
    assert(matches_at(r, pat, 0)) by {
        assert(r.subrange(0, 2) =~= pat);
    }
    assert(r.skip(2) =~= b);
    lemma_replace_identity(b);
    assert(replace(r, pat, nl) == nl + b);
    assert(a + (nl + b) =~= a + nl + b);
}

proof fn lemma_count_in_filter(r: Seq<EntryView>, x: EntryView)
    ensures
        r.to_multiset().count(x) == r.filter(starts_at(x.0)).to_multiset().count(x),
    decreases r.len(),
{
    let p = starts_at(x.0);
    r.to_multiset_ensures();
    r.filter(p).to_multiset_ensures();
    if r.len() == 0 {
        assert(r.filter(p) == r);
        assert(!r.contains(x));
    } else {
        let q = r.drop_last();
        let y = r.last();
        lemma_count_in_filter(q, x);
        assert(r =~= q.push(y));
        q.to_multiset_ensures();
        q.filter(p).to_multiset_ensures();
        q.lemma_filter_push(y, p);
        if y == x {
            assert(p(y));
        }
    }
}

/// Sorting by start time neither drops nor repeats a cue, and puts the
/// cues in ascending order of start time.
pub proof fn law_stable_sort_keeps_every_cue(r: Seq<EntryView>, s: Seq<EntryView>)
    requires
        stable_sort_of(r, s),
    ensures
        r.to_multiset() == s.to_multiset(),
        r.len() == s.len(),
        forall|i: int, j: int| 0 <= i < j < r.len() ==> r[i].0 <= r[j].0,
{
    assert forall|x: EntryView| r.to_multiset().count(x) == s.to_multiset().count(x) by {
        lemma_count_in_filter(r, x);
        lemma_count_in_filter(s, x);
        assert(r.filter(starts_at(x.0)) == s.filter(starts_at(x.0)));
    }
    assert(r.to_multiset() =~= s.to_multiset());
    r.to_multiset_ensures();
    s.to_multiset_ensures();
    assert forall|i: int, j: int| 0 <= i < j < r.len() implies r[i].0 <= r[j].0 by {
        assert(r[i].0 <= r[j].0);
    }
}

} // verus!
