//! Decoding of fuzzy-match indices into highlight segments.
//!
//! A candidate's text together with the ascending list of matched character
//! positions is turned into an alternating run of unmatched and matched
//! substrings whose concatenation is exactly the original text.

use vstd::prelude::*;
use vstd::string::StrSliceExecFns;

verus! {

/// One run of characters of a candidate's text, either outside or inside the
/// fuzzy match.
#[derive(Debug, PartialEq, Eq)]
pub enum Style {
    /// A run of characters not consumed by the fuzzy match.
    Unmatched(String),
    /// A maximal run of characters consumed by the fuzzy match.
    Matched(String),
}

/// The one failure of the segmenter: the index list is not strictly ascending,
/// or an index lies outside the text.
#[derive(Debug, PartialEq, Eq)]
pub enum MatchHighlightError {
    InvalidMatchIndices,
}

/// Whether a segment is a matched run.
pub open spec fn seg_matched(s: Style) -> bool {
    match s {
        Style::Unmatched(_) => false,
        Style::Matched(_) => true,
    }
}

/// The characters a segment covers.
pub open spec fn seg_text(s: Style) -> Seq<char> {
    match s {
        Style::Unmatched(t) => t@,
        Style::Matched(t) => t@,
    }
}

/// The abstraction of a segment list: for each segment, whether it is matched
/// and which characters it covers.
pub open spec fn segs_view(segs: Seq<Style>) -> Seq<(bool, Seq<char>)> {
    segs.map_values(|s: Style| (seg_matched(s), seg_text(s)))
}

/// Match indices are valid for a text when they are strictly ascending and
/// each addresses a character position inside the text.
pub open spec fn valid_match_indices(text: Seq<char>, idx: Seq<usize>) -> bool {
    &&& forall|k: int| 0 <= k < idx.len() ==> (#[trigger] idx[k]) < text.len()
    &&& forall|k: int| 0 < k < idx.len() ==> idx[k - 1] < #[trigger] idx[k]
}

/// Length of the leading run of consecutive positions in an index list:
/// the largest `r` such that the first `r` indices are `idx[0], idx[0] + 1, ...`.
pub open spec fn run_len(idx: Seq<usize>) -> nat
    decreases idx.len(),
{
    if idx.len() == 0 {
        0
    } else if idx.len() == 1 {
        1
    } else if idx[1] == idx[0] + 1 {
        (1 + run_len(idx.drop_first())) as nat
    } else {
        1
    }
}

proof fn lemma_run_len_bounds(idx: Seq<usize>)
    requires
        idx.len() > 0,
    ensures
        1 <= run_len(idx) <= idx.len(),
        forall|k: int| 0 <= k < run_len(idx) ==> #[trigger] idx[k] == idx[0] + k,
        run_len(idx) < idx.len() ==> idx[run_len(idx) as int] != idx[0] + run_len(idx),
    decreases idx.len(),
{
    if idx.len() > 1 && idx[1] == idx[0] + 1 {
        let rest = idx.drop_first();
        lemma_run_len_bounds(rest);
        assert(forall|k: int| 0 <= k < rest.len() ==> #[trigger] rest[k] == idx[k + 1]);
        assert forall|k: int| 0 <= k < run_len(idx) implies #[trigger] idx[k] == idx[0] + k by {
            if k > 0 {
                assert(rest[k - 1] == rest[0] + (k - 1));
            }
        }
        if run_len(idx) < idx.len() {
            assert(rest[run_len(rest) as int] != rest[0] + run_len(rest));
        }
    }
}

/// The segment list produced for `text` from cursor position `i` onward, given
/// the (still valid, all at least `i`) remaining match indices: a gap before
/// the next run becomes an unmatched segment, each maximal run of consecutive
/// indices becomes a matched segment, and the tail of the text after the last
/// run becomes a final unmatched segment.
pub open spec fn spec_segments(text: Seq<char>, idx: Seq<usize>, i: int) -> Seq<(bool, Seq<char>)>
    decreases idx.len(),
    via spec_segments_decreases
{
    if idx.len() == 0 {
        if i < text.len() {
            seq![(false, text.subrange(i, text.len() as int))]
        } else {
            Seq::empty()
        }
    } else {
        let m = idx[0] as int;
        let r = run_len(idx) as int;
        let run_and_rest = seq![(true, text.subrange(m, m + r))] + spec_segments(
            text,
            idx.skip(r),
            m + r,
        );
        if m > i {
            seq![(false, text.subrange(i, m))] + run_and_rest
        } else {
            run_and_rest
        }
    }
}

#[via_fn]
proof fn spec_segments_decreases(text: Seq<char>, idx: Seq<usize>, i: int) {
    if idx.len() > 0 {
        lemma_run_len_bounds(idx);
    }
}

/// Concatenation of the characters covered by a segment list.
pub open spec fn segs_chars(segs: Seq<(bool, Seq<char>)>) -> Seq<char>
    decreases segs.len(),
{
    if segs.len() == 0 {
        Seq::empty()
    } else {
        segs[0].1 + segs_chars(segs.drop_first())
    }
}

proof fn lemma_segs_chars_singleton(s: (bool, Seq<char>))
    ensures
        segs_chars(seq![s]) == s.1,
{
    let single = seq![s];
    assert(single.drop_first() =~= Seq::<(bool, Seq<char>)>::empty());
    assert(segs_chars(Seq::<(bool, Seq<char>)>::empty()) =~= Seq::<char>::empty());
    assert(segs_chars(single) =~= s.1);
}

proof fn lemma_segs_chars_concat(a: Seq<(bool, Seq<char>)>, b: Seq<(bool, Seq<char>)>)
    ensures
        segs_chars(a + b) == segs_chars(a) + segs_chars(b),
    decreases a.len(),
{
    if a.len() == 0 {
        assert(a + b =~= b);
        assert(segs_chars(a) + segs_chars(b) =~= segs_chars(b));
    } else {
        assert((a + b).drop_first() =~= a.drop_first() + b);
        lemma_segs_chars_concat(a.drop_first(), b);
        assert(segs_chars(a + b) =~= segs_chars(a) + segs_chars(b));
    }
}

/// The segments for any suffix of the text cover exactly that suffix: their
/// concatenation is `text[i..]`.
proof fn lemma_spec_segments_cover(text: Seq<char>, idx: Seq<usize>, i: int)
    requires
        valid_match_indices(text, idx),
        0 <= i <= text.len(),
        idx.len() > 0 ==> i <= idx[0],
    ensures
        segs_chars(spec_segments(text, idx, i)) == text.subrange(i, text.len() as int),
    decreases idx.len(),
{
    if idx.len() == 0 {
        if i < text.len() {
            lemma_segs_chars_singleton((false, text.subrange(i, text.len() as int)));
        } else {
            assert(text.subrange(i, text.len() as int) =~= Seq::<char>::empty());
        }
    } else {
        let m = idx[0] as int;
        let r = run_len(idx) as int;
        lemma_run_len_bounds(idx);
        let rest = idx.skip(r);
        assert(forall|k: int| 0 <= k < rest.len() ==> #[trigger] rest[k] == idx[k + r]);
        if r < idx.len() {
            assert(idx[r] != idx[0] + r);
            assert(idx[r - 1] == idx[0] + r - 1);
            assert(idx[r - 1] < idx[r]);
            assert(rest[0] >= m + r);
        }
        assert(m + r - 1 == idx[r - 1]);
        assert(idx[r - 1] < text.len());
        lemma_spec_segments_cover(text, rest, m + r);
        let run_and_rest = seq![(true, text.subrange(m, m + r))] + spec_segments(text, rest, m + r);
        lemma_segs_chars_concat(
            seq![(true, text.subrange(m, m + r))],
            spec_segments(text, rest, m + r),
        );
        lemma_segs_chars_singleton((true, text.subrange(m, m + r)));
        assert(segs_chars(run_and_rest) =~= text.subrange(m, text.len() as int));
        if m > i {
            lemma_segs_chars_concat(seq![(false, text.subrange(i, m))], run_and_rest);
            lemma_segs_chars_singleton((false, text.subrange(i, m)));
            assert(segs_chars(spec_segments(text, idx, i)) =~= text.subrange(
                i,
                text.len() as int,
            ));
        }
    }
}

/// Round trip: for valid match indices, the segments of a text concatenate
/// back to exactly that text.
pub proof fn lemma_segments_round_trip(text: Seq<char>, idx: Seq<usize>)
    requires
        valid_match_indices(text, idx),
    ensures
        segs_chars(spec_segments(text, idx, 0)) == text,
{
    lemma_spec_segments_cover(text, idx, 0);
    assert(text.subrange(0, text.len() as int) =~= text);
}

/// No segment covers zero characters.
pub open spec fn segs_nonempty(segs: Seq<(bool, Seq<char>)>) -> bool {
    forall|k: int| 0 <= k < segs.len() ==> (#[trigger] segs[k]).1.len() > 0
}

/// No two adjacent segments share a kind.
pub open spec fn segs_alternate(segs: Seq<(bool, Seq<char>)>) -> bool {
    forall|k: int| 0 <= k && k + 1 < segs.len() ==> (#[trigger] segs[k]).0 != segs[k + 1].0
}

proof fn lemma_spec_segments_shape(text: Seq<char>, idx: Seq<usize>, i: int)
    requires
        valid_match_indices(text, idx),
        0 <= i <= text.len(),
        idx.len() > 0 ==> i <= idx[0],
    ensures
        segs_nonempty(spec_segments(text, idx, i)),
        segs_alternate(spec_segments(text, idx, i)),
        (spec_segments(text, idx, i).len() > 0 && spec_segments(text, idx, i)[0].0) ==> (idx.len()
            > 0 && idx[0] == i),
    decreases idx.len(),
{
    if idx.len() == 0 {
    } else {
        let m = idx[0] as int;
        let r = run_len(idx) as int;
        lemma_run_len_bounds(idx);
        let rest = idx.skip(r);
        assert(forall|k: int| 0 <= k < rest.len() ==> #[trigger] rest[k] == idx[k + r]);
        if r < idx.len() {
            assert(idx[r] != idx[0] + r);
            assert(idx[r - 1] == idx[0] + r - 1);
            assert(idx[r - 1] < idx[r]);
            // The run is maximal: the next index lies strictly past it.
            assert(rest[0] > m + r);
        }
        assert(m + r - 1 == idx[r - 1]);
        assert(idx[r - 1] < text.len());
        lemma_spec_segments_shape(text, rest, m + r);
        let rs = spec_segments(text, rest, m + r);
        if rs.len() > 0 && rs[0].0 {
            assert(rest.len() > 0 && rest[0] == m + r);
            assert(false);
        }
        let run_seg = seq![(true, text.subrange(m, m + r))];
        let rr = run_seg + rs;
        assert(forall|k: int| 0 < k < rr.len() ==> #[trigger] rr[k] == rs[k - 1]);
        assert(segs_nonempty(rr));
        assert(segs_alternate(rr));
        if m > i {
            let gap_seg = seq![(false, text.subrange(i, m))];
            let whole = gap_seg + rr;
            assert(forall|k: int| 0 < k < whole.len() ==> #[trigger] whole[k] == rr[k - 1]);
            assert(segs_nonempty(whole));
            assert(segs_alternate(whole));
        }
    }
}

/// Segment shape: for valid match indices, the segment list holds no empty
/// segment and no two adjacent segments of the same kind.
pub proof fn lemma_segments_alternate(text: Seq<char>, idx: Seq<usize>)
    requires
        valid_match_indices(text, idx),
    ensures
        segs_nonempty(spec_segments(text, idx, 0)),
        segs_alternate(spec_segments(text, idx, 0)),
{
    lemma_spec_segments_shape(text, idx, 0);
}

/// Splits a candidate's text into highlight segments: each maximal run of
/// consecutive match indices becomes one matched segment, the characters in
/// between become unmatched segments. Fails if and only if the indices are not
/// strictly ascending or address a position outside the text; positions are
/// character positions, so multi-byte text is segmented safely.
pub fn sections_from_stringdices(string: &str, indices: &[usize]) -> (r: Result<
    Vec<Style>,
    MatchHighlightError,
>)
    ensures
        r is Ok <==> valid_match_indices(string@, indices@),
        r matches Ok(segs) ==> segs_view(segs@) == spec_segments(string@, indices@, 0),
{
    let n = string.unicode_len();
    let len = indices.len();
    let mut k: usize = 0;
    while k < len
        invariant
            0 <= k <= len,
            len == indices@.len(),
            n == string@.len(),
            forall|t: int| 0 <= t < k ==> (#[trigger] indices@[t]) < string@.len(),
            forall|t: int| 0 < t < k ==> indices@[t - 1] < #[trigger] indices@[t],
        decreases len - k,
    {
        if indices[k] >= n {
            return Err(MatchHighlightError::InvalidMatchIndices);
        }
        if k > 0 && indices[k - 1] >= indices[k] {
            return Err(MatchHighlightError::InvalidMatchIndices);
        }
        k += 1;
    }
    let mut ret: Vec<Style> = Vec::new();
    let mut p: usize = 0;
    let mut i: usize = 0;
    proof {
        assert(indices@.skip(0) =~= indices@);
        assert(segs_view(ret@) =~= Seq::<(bool, Seq<char>)>::empty());
        assert(segs_view(ret@) + spec_segments(string@, indices@.skip(0), 0) =~= spec_segments(
            string@,
            indices@,
            0,
        ));
    }
    while p < len
        invariant
            0 <= p <= len,
            len == indices@.len(),
            n == string@.len(),
            valid_match_indices(string@, indices@),
            i <= n,
            p < len ==> i <= indices@[p as int],
            segs_view(ret@) + spec_segments(string@, indices@.skip(p as int), i as int)
                =~= spec_segments(string@, indices@, 0),
        decreases len - p,
    {
        let ghost i0 = i;
        let ghost run_start = p;
        let ghost tail = indices@.skip(p as int);
        proof {
            lemma_run_len_bounds(tail);
            assert(forall|t: int| 0 <= t < tail.len() ==> #[trigger] tail[t] == indices@[t
                + run_start]);
        }
        let m = indices[p];
        if m > i {
            let gap = string.substring_char(i, m).to_owned();
            ret.push(Style::Unmatched(gap));
        }
        let mut j = m + 1;
        p += 1;
        while p < len && indices[p] == j
            invariant
                run_start < p <= len,
                len == indices@.len(),
                n == string@.len(),
                valid_match_indices(string@, indices@),
                m == indices@[run_start as int],
                m < n,
                j == m + (p - run_start),
                j <= n,
                forall|t: int| run_start <= t < p ==> #[trigger] indices@[t] == m + (t
                    - run_start),
            decreases len - p,
        {
            p += 1;
            j += 1;
        }
        proof {
            // The executable scan consumed exactly the leading run of `tail`.
            let r = run_len(tail) as int;
            let consumed = p - run_start;
            assert(forall|t: int| 0 <= t < consumed ==> #[trigger] tail[t] == tail[0] + t);
            if r < consumed {
                assert(tail[r] == tail[0] + r);
            }
            if r > consumed {
                assert(consumed < tail.len());
                assert(tail[consumed] == indices@[p as int]);
                assert(tail[consumed] == tail[0] + consumed);
                assert(indices@[p as int] == j);
            }
            assert(r == consumed);
        }
        let seg = string.substring_char(m, j).to_owned();
        ret.push(Style::Matched(seg));
        i = j;
        proof {
            let r = run_len(tail) as int;
            let rest = tail.skip(r);
            assert(rest =~= indices@.skip(p as int));
            // The entry at the end of a run, if any, lies beyond the run.
            if p < len {
                assert(indices@[p - 1] == m + (p - 1 - run_start));
                assert(indices@[p - 1] < indices@[p as int]);
            }
            // One unfolding of the segment model matches what was pushed.
            let gap_seg = seq![(false, string@.subrange(i0 as int, m as int))];
            let run_seg = seq![(true, string@.subrange(m as int, m + r))];
            let unfolded = spec_segments(string@, tail, i0 as int);
            if m > i0 {
                assert(unfolded =~= gap_seg + (run_seg + spec_segments(
                    string@,
                    rest,
                    i as int,
                )));
            } else {
                assert(unfolded =~= run_seg + spec_segments(string@, rest, i as int));
            }
            assert(segs_view(ret@) + spec_segments(string@, indices@.skip(p as int), i as int)
                =~= spec_segments(string@, indices@, 0));
        }
    }
    if i < n {
        let tail_text = string.substring_char(i, n).to_owned();
        ret.push(Style::Unmatched(tail_text));
        proof {
            assert(indices@.skip(len as int) =~= Seq::<usize>::empty());
            assert(segs_view(ret@) =~= spec_segments(string@, indices@, 0));
        }
    } else {
        proof {
            assert(indices@.skip(len as int) =~= Seq::<usize>::empty());
            assert(segs_view(ret@) =~= spec_segments(string@, indices@, 0));
        }
    }
    Ok(ret)
}

} // verus!
