//! Projection of matched fragment locations onto highlighted text runs.
//!
//! Given a text's word tokens and the locations that matching fragments
//! cover, the projector unions the covered ranges into a covered-index
//! set, segments the words into maximal alternating highlighted and plain
//! runs, and computes the covered share of the text as a truncated
//! percentage.

use crate::plagiarism_database::FragmentLocation;
use crate::text_utils::join_range;
use crate::text_utils::join_words;
use vstd::prelude::*;

verus! {

/// A text segment to display, highlighted or not.
#[derive(Debug, PartialEq, Eq)]
pub struct TextMaybeBold {
    /// The text to be displayed.
    pub text: String,
    /// Should the text be rendered in a bold font?
    pub is_bold: bool,
}

impl View for TextMaybeBold {
    type V = (Seq<char>, bool);

    open spec fn view(&self) -> (Seq<char>, bool) {
        (self.text@, self.is_bold)
    }
}

impl DeepView for TextMaybeBold {
    type V = (Seq<char>, bool);

    open spec fn deep_view(&self) -> (Seq<char>, bool) {
        self.view()
    }
}

/// Whether token index `i` falls inside one of the intervals, both bounds
/// inclusive.
pub open spec fn covered_by_intervals(i: int, intervals: Seq<(usize, usize)>) -> bool {
    exists|k: int| 0 <= k < intervals.len() && (#[trigger] intervals[k]).0 <= i <= intervals[k].1
}

/// Whether token index `i` falls inside one of the fragment locations,
/// whose end bound is exclusive.
pub open spec fn covered_by_locations(i: int, locations: Seq<FragmentLocation>) -> bool {
    exists|k: int| 0 <= k < locations.len() && (#[trigger] locations[k]).0 <= i < locations[k].1
}

/// One highlight flag per token index, from inclusive intervals.
pub open spec fn interval_flags(len: nat, intervals: Seq<(usize, usize)>) -> Seq<bool> {
    Seq::new(len, |i: int| covered_by_intervals(i, intervals))
}

/// One highlight flag per token index, from fragment locations.
pub open spec fn location_flags(len: nat, locations: Seq<FragmentLocation>) -> Seq<bool> {
    Seq::new(len, |i: int| covered_by_locations(i, locations))
}

/// The length of the leading run of equal flags.
pub open spec fn run_len(flags: Seq<bool>) -> nat
    decreases flags.len(),
{
    if flags.len() == 0 {
        0
    } else if flags.len() == 1 {
        1
    } else if flags[0] == flags[1] {
        1 + run_len(flags.drop_first())
    } else {
        1
    }
}

/// The words grouped into maximal runs of equal highlight flags, each run
/// joined into one non-empty segment; consecutive segments alternate
/// between highlighted and plain.
pub open spec fn segments_spec(words: Seq<Seq<char>>, flags: Seq<bool>) -> Seq<(Seq<char>, bool)>
    decreases words.len(),
{
    if words.len() == 0 {
        Seq::empty()
    } else {
        let rl = run_len(flags) as int;
        let k = if rl < 1 {
            1
        } else if rl > words.len() {
            words.len() as int
        } else {
            rl
        };
        seq![(join_words(words.take(k)), flags[0])] + segments_spec(words.skip(k), flags.skip(k))
    }
}

/// The number of raised flags.
pub open spec fn count_true(flags: Seq<bool>) -> nat
    decreases flags.len(),
{
    if flags.len() == 0 {
        0nat
    } else {
        count_true(flags.drop_last()) + (if flags.last() {
            1nat
        } else {
            0nat
        })
    }
}

/// The covered share of a text, as a percentage truncated toward zero; an
/// empty text counts as covered nowhere.
pub open spec fn coverage_percent_spec(len: nat, locations: Seq<FragmentLocation>) -> nat {
    if len == 0 {
        0
    } else {
        count_true(location_flags(len, locations)) * 100 / len
    }
}

/// A leading stretch of `m` equal flags followed by a different flag (or
/// by the end) is exactly the leading run.
proof fn lemma_run_len(flags: Seq<bool>, m: int)
    requires
        0 < m <= flags.len(),
        forall|k: int| 0 <= k < m ==> #[trigger] flags[k] == flags[0],
        m == flags.len() || flags[m] != flags[0],
    ensures
        run_len(flags) == m,
    decreases m,
{
    if m == 1 {
    } else {
        let rest = flags.drop_first();
        assert forall|k: int| 0 <= k < m - 1 implies #[trigger] rest[k] == rest[0] by {
            assert(flags[k + 1] == flags[0]);
            assert(flags[1] == flags[0]);
        }
        assert(m - 1 == rest.len() || rest[m - 1] != rest[0]);
        lemma_run_len(rest, m - 1);
    }
}

/// The leading run is non-empty, consists of flags equal to the first
/// one, and is maximal: the flag after it (if any) differs.
pub proof fn lemma_run_len_props(flags: Seq<bool>)
    requires
        flags.len() > 0,
    ensures
        1 <= run_len(flags) <= flags.len(),
        forall|m: int| 0 <= m < run_len(flags) ==> #[trigger] flags[m] == flags[0],
        run_len(flags) < flags.len() ==> flags[run_len(flags) as int] != flags[0],
    decreases flags.len(),
{
    if flags.len() > 1 && flags[0] == flags[1] {
        let rest = flags.drop_first();
        lemma_run_len_props(rest);
        assert forall|m: int| 0 <= m < run_len(flags) implies #[trigger] flags[m] == flags[0] by {
            if m > 0 {
                assert(rest[m - 1] == rest[0]);
            }
        }
        if run_len(flags) < flags.len() {
            assert(rest[run_len(rest) as int] != rest[0]);
        }
    }
}

/// Every segment of the projection is non-empty, and consecutive
/// segments strictly alternate between highlighted and plain.
pub proof fn lemma_segments_alternate(words: Seq<Seq<char>>, flags: Seq<bool>)
    requires
        words.len() == flags.len(),
        forall|i: int| 0 <= i < words.len() ==> (#[trigger] words[i]).len() > 0,
    ensures
        ({
            let segs = segments_spec(words, flags);
            &&& forall|k: int| 0 <= k < segs.len() ==> (#[trigger] segs[k]).0.len() > 0
            &&& forall|k: int| 0 <= k < segs.len() - 1 ==> (#[trigger] segs[k]).1 != segs[k + 1].1
        }),
    decreases words.len(),
{
    if words.len() > 0 {
        lemma_run_len_props(flags);
        let rl = run_len(flags) as int;
        let segs = segments_spec(words, flags);
        let head = words.take(rl);
        let wtail = words.skip(rl);
        let ftail = flags.skip(rl);
        assert(segs == seq![(join_words(head), flags[0])] + segments_spec(wtail, ftail));
        assert forall|i: int| 0 <= i < head.len() implies (#[trigger] head[i]).len() > 0 by {
            assert(words[i].len() > 0);
        }
        crate::text_utils::lemma_join_words_nonempty(head);
        assert forall|i: int| 0 <= i < wtail.len() implies (#[trigger] wtail[i]).len() > 0 by {
            assert(words[i + rl].len() > 0);
        }
        lemma_segments_alternate(wtail, ftail);
        let tail_segs = segments_spec(wtail, ftail);
        assert forall|k: int| 0 <= k < segs.len() implies (#[trigger] segs[k]).0.len() > 0 by {
            if k > 0 {
                assert(segs[k] == tail_segs[k - 1]);
            }
        }
        assert forall|k: int| 0 <= k < segs.len() - 1 implies (#[trigger] segs[k]).1 != segs[k
            + 1].1 by {
            if k == 0 {
                // The run is maximal, so the next segment starts on the
                // opposite flag
                assert(wtail.len() > 0);
                assert(tail_segs[0].1 == ftail[0]);
                assert(ftail[0] == flags[rl]);
                assert(flags[rl] != flags[0]);
            } else {
                assert(segs[k] == tail_segs[k - 1]);
                assert(segs[k + 1] == tail_segs[k]);
            }
        }
    }
}

/// Peeling one maximal run off the front of the segmentation.
proof fn lemma_run_peel(ws: Seq<Seq<char>>, fl: Seq<bool>, i: int, j: int)
    requires
        ws.len() == fl.len(),
        0 <= i < j <= ws.len(),
        forall|k: int| i <= k < j ==> #[trigger] fl[k] == fl[i],
        j == ws.len() || fl[j] != fl[i],
    ensures
        segments_spec(ws.skip(i), fl.skip(i)) == seq![(join_words(ws.subrange(i, j)), fl[i])]
            + segments_spec(ws.skip(j), fl.skip(j)),
{
    let wtail = ws.skip(i);
    let ftail = fl.skip(i);
    assert forall|k: int| 0 <= k < j - i implies #[trigger] ftail[k] == ftail[0] by {
        assert(fl[k + i] == fl[i]);
    }
    assert(j - i == ftail.len() || ftail[j - i] != ftail[0]);
    lemma_run_len(ftail, j - i);
    assert(wtail.take(j - i) =~= ws.subrange(i, j));
    assert(wtail.skip(j - i) =~= ws.skip(j));
    assert(ftail.skip(j - i) =~= fl.skip(j));
    assert(ftail[0] == fl[i]);
}

/// Groups the words into maximal runs of equal flags and joins each run
/// into one display segment.
fn boldtext_segments(words: &Vec<String>, flags: &Vec<bool>) -> (r: Vec<TextMaybeBold>)
    requires
        words@.len() == flags@.len(),
    ensures
        r.deep_view() == segments_spec(words.deep_view(), flags@),
{
    let ghost ws = words.deep_view();
    let ghost fl = flags@;
    let mut r: Vec<TextMaybeBold> = Vec::new();
    proof {
        assert(ws.skip(0) =~= ws);
        assert(fl.skip(0) =~= fl);
        assert(r.deep_view() =~= Seq::<(Seq<char>, bool)>::empty());
        assert(r.deep_view() + segments_spec(ws, fl) =~= segments_spec(ws, fl));
    }
    let mut i: usize = 0;
    while i < words.len()
        invariant
            ws == words.deep_view(),
            fl == flags@,
            ws.len() == fl.len(),
            i <= ws.len(),
            segments_spec(ws, fl) == r.deep_view() + segments_spec(
                ws.skip(i as int),
                fl.skip(i as int),
            ),
        decreases ws.len() - i,
    {
        let ghost prev = r.deep_view();
        let flag = flags[i];
        let mut j: usize = i + 1;
        while j < words.len() && flags[j] == flag
            invariant
                ws == words.deep_view(),
                fl == flags@,
                ws.len() == fl.len(),
                i < j <= ws.len(),
                flag == fl[i as int],
                forall|k: int| i <= k < j ==> #[trigger] fl[k] == fl[i as int],
            decreases ws.len() - j,
        {
            j = j + 1;
        }
        let seg_text = join_range(words, i, j - i);
        r.push(TextMaybeBold { text: seg_text, is_bold: flag });
        proof {
            lemma_run_peel(ws, fl, i as int, j as int);
            assert(r.deep_view() =~= prev.push((join_words(ws.subrange(i as int, j as int)), flag)));
            assert(r.deep_view() + segments_spec(ws.skip(j as int), fl.skip(j as int)) =~= prev
                + segments_spec(ws.skip(i as int), fl.skip(i as int)));
        }
        i = j;
    }
    proof {
        assert(segments_spec(ws.skip(ws.len() as int), fl.skip(fl.len() as int)) =~= Seq::<
            (Seq<char>, bool),
        >::empty());
        assert(r.deep_view() =~= r.deep_view() + Seq::<(Seq<char>, bool)>::empty());
    }
    r
}

/// Checks whether a token index falls in any of the inclusive intervals.
fn interval_contains(intervals: &Vec<(usize, usize)>, i: usize) -> (r: bool)
    ensures
        r == covered_by_intervals(i as int, intervals@),
{
    let mut k: usize = 0;
    while k < intervals.len()
        invariant
            k <= intervals@.len(),
            forall|m: int| 0 <= m < k ==> !((#[trigger] intervals@[m]).0 <= i <= intervals@[m].1),
        decreases intervals@.len() - k,
    {
        let (lo, hi) = intervals[k];
        if lo <= i && i <= hi {
            return true;
        }
        k = k + 1;
    }
    false
}

/// Checks whether a token index falls in any of the exclusive-end
/// locations.
fn location_contains(locations: &Vec<FragmentLocation>, i: usize) -> (r: bool)
    ensures
        r == covered_by_locations(i as int, locations@),
{
    let mut k: usize = 0;
    while k < locations.len()
        invariant
            k <= locations@.len(),
            forall|m: int| 0 <= m < k ==> !((#[trigger] locations@[m]).0 <= i < locations@[m].1),
        decreases locations@.len() - k,
    {
        let (lo, hi) = locations[k];
        if lo <= i && i < hi {
            return true;
        }
        k = k + 1;
    }
    false
}

/// Given a list of words and the (inclusive) index intervals that are
/// plagiarized, separates the words into text segments where plagiarized
/// segments are marked bold.
pub fn get_boldtext_segments_from_intervals(
    words: &Vec<String>,
    text_intervals: &Vec<(usize, usize)>,
) -> (r: Vec<TextMaybeBold>)
    ensures
        r.deep_view() == segments_spec(
            words.deep_view(),
            interval_flags(words@.len() as nat, text_intervals@),
        ),
{
    let ghost expected = interval_flags(words@.len() as nat, text_intervals@);
    let mut flags: Vec<bool> = Vec::new();
    let mut i: usize = 0;
    while i < words.len()
        invariant
            expected == interval_flags(words@.len() as nat, text_intervals@),
            i <= words@.len(),
            flags@ == expected.take(i as int),
        decreases words@.len() - i,
    {
        flags.push(interval_contains(text_intervals, i));
        proof {
            assert(flags@ =~= expected.take(i + 1 as int));
        }
        i = i + 1;
    }
    proof {
        assert(expected.take(words@.len() as int) =~= expected);
    }
    boldtext_segments(words, &flags)
}

/// Projects the covered fragment locations of one side of a result onto
/// its word tokens: the words segmented into alternating highlighted and
/// plain runs, and the covered share of the text as a percentage
/// truncated toward zero.
pub fn project_highlights(tokens: &Vec<String>, covered_locations: &Vec<FragmentLocation>) -> (r: (
    Vec<TextMaybeBold>,
    usize,
))
    ensures
        r.0.deep_view() == segments_spec(
            tokens.deep_view(),
            location_flags(tokens@.len() as nat, covered_locations@),
        ),
        r.1 == coverage_percent_spec(tokens@.len() as nat, covered_locations@),
{
    let ghost expected = location_flags(tokens@.len() as nat, covered_locations@);
    let mut flags: Vec<bool> = Vec::new();
    let mut covered: usize = 0;
    let mut i: usize = 0;
    while i < tokens.len()
        invariant
            expected == location_flags(tokens@.len() as nat, covered_locations@),
            i <= tokens@.len(),
            flags@ == expected.take(i as int),
            covered <= i,
            covered == count_true(expected.take(i as int)),
        decreases tokens@.len() - i,
    {
        let c = location_contains(covered_locations, i);
        flags.push(c);
        if c {
            covered = covered + 1;
        }
        proof {
            assert(flags@ =~= expected.take(i + 1 as int));
            assert(expected.take(i + 1 as int).drop_last() =~= expected.take(i as int));
        }
        i = i + 1;
    }
    proof {
        assert(expected.take(tokens@.len() as int) =~= expected);
    }
    let segments = boldtext_segments(tokens, &flags);
    let percent: usize = if tokens.len() == 0 {
        0
    } else {
        proof {
            assert((covered as int) * 100 / (tokens@.len() as int) <= 100) by (nonlinear_arith)
                requires
                    0 <= covered as int <= tokens@.len() as int,
                    tokens@.len() as int >= 1,
            ;
        }
        (((covered as u128) * 100) / (tokens.len() as u128)) as usize
    };
    (segments, percent)
}

} // verus!
