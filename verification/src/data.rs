//! The fuzzy-finder engine: an insertion-ordered, unique-keyed store of text
//! candidates with cached match state, a ranking discipline, and a selection
//! cursor over the ranked matches.
//!
//! The ranked order places all matched candidates first, sorted by descending
//! score with ties broken by ascending insertion number, followed by the
//! candidates the filter does not match, in ascending insertion number.
//! Every mutating operation rescores what it must, re-sorts, and reconciles
//! the selection cursor.

use vstd::prelude::*;
use crate::highlight::valid_match_indices;
use crate::scorer::{skim_match, skim_match_of};

verus! {

/// A fuzzy match score together with the matched character positions.
pub struct FuzzyScore {
    /// fuzzy match score
    pub score: i64,
    /// fuzzy match indices (character positions in the matched string)
    pub indices: Vec<usize>,
}

/// The cached evaluation of one candidate against the current filter term.
pub enum MatchState {
    /// Inserted but never evaluated against the current filter.
    Unscored,
    /// Evaluated: the filter is not a fuzzy match for this candidate.
    NoMatch,
    /// Evaluated: the filter matches, with score and matched positions.
    Matched(FuzzyScore),
}

/// One stored candidate: its text, its insertion sequence number, and its
/// cached match state.
pub struct Candidate {
    /// the candidate text, which is also its unique key
    pub value: String,
    /// insertion sequence number, used as a deterministic tie-break
    pub ticket: u64,
    /// cached evaluation against the current filter
    pub state: MatchState,
}

/// A row of the ranked view, as handed to a presentation layer.
#[derive(Debug)]
pub struct FuzzyListEntry {
    /// value of entry
    pub value: String,
    /// fuzzy match score
    pub score: i64,
    /// fuzzy match indices (character positions in `value`)
    pub indices: Vec<usize>,
}

/// Mathematical value of a [`MatchState`].
pub ghost enum MatchStateModel {
    Unscored,
    NoMatch,
    Matched { score: i64, indices: Seq<usize> },
}

/// Mathematical value of a [`Candidate`].
pub ghost struct CandidateModel {
    pub value: Seq<char>,
    pub ticket: u64,
    pub state: MatchStateModel,
}

impl View for MatchState {
    type V = MatchStateModel;

    open spec fn view(&self) -> MatchStateModel {
        match self {
            MatchState::Unscored => MatchStateModel::Unscored,
            MatchState::NoMatch => MatchStateModel::NoMatch,
            MatchState::Matched(fs) => MatchStateModel::Matched {
                score: fs.score,
                indices: fs.indices@,
            },
        }
    }
}

impl View for Candidate {
    type V = CandidateModel;

    open spec fn view(&self) -> CandidateModel {
        CandidateModel { value: self.value@, ticket: self.ticket, state: self.state@ }
    }
}

/// Whether a candidate currently matches the filter.
pub open spec fn is_matched(c: CandidateModel) -> bool {
    c.state is Matched
}

/// The cached score of a matched candidate (0 for an unmatched one).
pub open spec fn cand_score(c: CandidateModel) -> i64 {
    match c.state {
        MatchStateModel::Matched { score, .. } => score,
        _ => 0,
    }
}

/// The cached match indices of a matched candidate (empty for an unmatched one).
pub open spec fn cand_indices(c: CandidateModel) -> Seq<usize> {
    match c.state {
        MatchStateModel::Matched { indices, .. } => indices,
        _ => Seq::empty(),
    }
}

/// The match state the scorer assigns to `value` under `filter`.
pub open spec fn match_state_of(value: Seq<char>, filter: Seq<char>) -> MatchStateModel {
    match skim_match_of(value, filter) {
        Option::None => MatchStateModel::NoMatch,
        Option::Some(p) => MatchStateModel::Matched { score: p.0, indices: p.1 },
    }
}

/// The ranked order: matched candidates come before unmatched ones; among
/// matched candidates, higher scores come first, with ties broken by ascending
/// insertion number; unmatched candidates keep ascending insertion number.
pub open spec fn rank_le(a: CandidateModel, b: CandidateModel) -> bool {
    if is_matched(a) && is_matched(b) {
        cand_score(a) > cand_score(b) || (cand_score(a) == cand_score(b) && a.ticket <= b.ticket)
    } else if is_matched(a) {
        true
    } else if is_matched(b) {
        false
    } else {
        a.ticket <= b.ticket
    }
}

/// A sequence of candidates is in ranked order.
pub open spec fn ranked(s: Seq<CandidateModel>) -> bool {
    forall|i: int, j: int| 0 <= i < j < s.len() ==> rank_le(#[trigger] s[i], #[trigger] s[j])
}

/// No two candidates share an insertion number.
pub open spec fn distinct_tickets(s: Seq<CandidateModel>) -> bool {
    forall|i: int, j: int|
        0 <= i < j < s.len() ==> (#[trigger] s[i]).ticket != (#[trigger] s[j]).ticket
}

/// No two candidates share a value: the value is the unique key.
pub open spec fn distinct_values(s: Seq<CandidateModel>) -> bool {
    forall|i: int, j: int|
        0 <= i < j < s.len() ==> (#[trigger] s[i]).value != (#[trigger] s[j]).value
}

/// Every insertion number is below the next one to be handed out.
pub open spec fn tickets_below(s: Seq<CandidateModel>, next: u64) -> bool {
    forall|i: int| 0 <= i < s.len() ==> (#[trigger] s[i]).ticket < next
}

/// Every cached set of match indices is valid for its candidate's text.
pub open spec fn indices_valid(s: Seq<CandidateModel>) -> bool {
    forall|i: int|
        0 <= i < s.len() ==> valid_match_indices((#[trigger] s[i]).value, cand_indices(s[i]))
}

/// Some candidate has the given value.
pub open spec fn contains_value(s: Seq<CandidateModel>, v: Seq<char>) -> bool {
    exists|i: int| 0 <= i < s.len() && (#[trigger] s[i]).value == v
}

/// Every candidate's cached state is exactly what the scorer assigns it under
/// the given filter.
pub open spec fn scored_for(s: Seq<CandidateModel>, filter: Seq<char>) -> bool {
    forall|i: int|
        0 <= i < s.len() ==> (#[trigger] s[i]).state == match_state_of(s[i].value, filter)
}

/// The models of a stored candidate sequence.
pub open spec fn models(entries: Seq<Candidate>) -> Seq<CandidateModel> {
    entries.map_values(|c: Candidate| c@)
}

/// The fuzzy-finder engine: the candidate store, the current filter term, and
/// the selection cursor. The candidate vector is kept in ranked order; its
/// matched candidates form the prefix of length `matched`.
pub struct FuzzyFinder {
    filter: String,
    entries: Vec<Candidate>,
    next_ticket: u64,
    matched: usize,
    selected: Option<usize>,
}

/// Mathematical value of a [`FuzzyFinder`].
pub ghost struct FinderModel {
    pub filter: Seq<char>,
    pub entries: Seq<CandidateModel>,
    pub next_ticket: u64,
    pub matched: usize,
    pub selected: Option<usize>,
}

impl View for FuzzyFinder {
    type V = FinderModel;

    closed spec fn view(&self) -> FinderModel {
        FinderModel {
            filter: self.filter@,
            entries: models(self.entries@),
            next_ticket: self.next_ticket,
            matched: self.matched,
            selected: self.selected,
        }
    }
}

/// The reconciled selection for a given matched count: the first ranked match
/// when there is one, nothing otherwise.
pub open spec fn reset_selection_for(matched: usize) -> Option<usize> {
    if matched > 0 {
        Some(0usize)
    } else {
        None
    }
}

/// The structural invariant of the engine: entries in ranked order with unique
/// keys and insertion numbers, cached indices valid for their texts, the
/// matched candidates exactly the prefix of length `matched`, the selection
/// inside that prefix (or cleared when nothing matches), and, under an empty
/// filter, every candidate matched.
pub open spec fn model_inv(m: FinderModel) -> bool {
    &&& ranked(m.entries)
    &&& distinct_tickets(m.entries)
    &&& distinct_values(m.entries)
    &&& tickets_below(m.entries, m.next_ticket)
    &&& indices_valid(m.entries)
    &&& m.matched <= m.entries.len()
    &&& (forall|i: int| 0 <= i < m.matched ==> is_matched(#[trigger] m.entries[i]))
    &&& (forall|i: int|
        m.matched <= i < m.entries.len() ==> !is_matched(#[trigger] m.entries[i]))
    &&& (match m.selected {
        Some(i) => 0 < m.matched && i < m.matched,
        None => m.matched == 0,
    })
    &&& (m.filter.len() == 0 ==> forall|i: int|
        0 <= i < m.entries.len() ==> is_matched(#[trigger] m.entries[i]))
}

/// Every cached state agrees with the scorer under the current filter.
pub open spec fn model_scored(m: FinderModel) -> bool {
    scored_for(m.entries, m.filter)
}

/// A returned row reproduces a stored candidate's text, score and indices.
pub open spec fn entry_corresponds(e: FuzzyListEntry, c: CandidateModel) -> bool {
    &&& e.value@ == c.value
    &&& e.score == cand_score(c)
    &&& e.indices@ == cand_indices(c)
}

/// How many rows a windowed view of `matched` rows holds, starting at
/// `offset` with at most `limit` rows.
pub open spec fn window_len(matched: int, offset: int, limit: int) -> int {
    let avail = if offset < matched {
        matched - offset
    } else {
        0
    };
    if limit < avail {
        limit
    } else {
        avail
    }
}

pub proof fn lemma_rank_le_total(a: CandidateModel, b: CandidateModel)
    ensures
        rank_le(a, b) || rank_le(b, a),
        rank_le(a, a),
        rank_le(a, b) && rank_le(b, a) ==> a.ticket == b.ticket,
{
}

pub proof fn lemma_rank_le_trans(a: CandidateModel, b: CandidateModel, c: CandidateModel)
    ensures
        rank_le(a, b) && rank_le(b, c) ==> rank_le(a, c),
{
}

/// A candidate after one rescoring pass under `filter`: re-evaluated when the
/// pass is full or the candidate was never scored, untouched otherwise.
pub open spec fn rescore_model(c: CandidateModel, filter: Seq<char>, full: bool) -> CandidateModel {
    if full || c.state is Unscored {
        CandidateModel { state: match_state_of(c.value, filter), ..c }
    } else {
        c
    }
}

/// A candidate sequence after one rescoring pass under `filter`.
pub open spec fn rescored(s: Seq<CandidateModel>, filter: Seq<char>, full: bool) -> Seq<
    CandidateModel,
> {
    s.map_values(|c: CandidateModel| rescore_model(c, filter, full))
}

/// What holds of every scored candidate: its cached indices are valid for its
/// text, and under an empty filter it matches.
pub open spec fn entry_good(c: CandidateModel, filter: Seq<char>) -> bool {
    &&& valid_match_indices(c.value, cand_indices(c))
    &&& (filter.len() == 0 ==> is_matched(c))
}

/// Every candidate either awaits scoring or satisfies [`entry_good`].
pub open spec fn states_good(s: Seq<CandidateModel>, filter: Seq<char>) -> bool {
    forall|i: int|
        0 <= i < s.len() ==> ((#[trigger] s[i]).state is Unscored || entry_good(s[i], filter))
}

/// Every already-scored candidate's cached state agrees with the scorer under
/// the given filter; candidates awaiting scoring are exempt.
pub open spec fn partial_scored_for(s: Seq<CandidateModel>, filter: Seq<char>) -> bool {
    forall|i: int|
        0 <= i < s.len() && !((#[trigger] s[i]).state is Unscored) ==> s[i].state
            == match_state_of(s[i].value, filter)
}

/// `n + 1`, staying a machine word (callers keep `n` below the maximum).
pub open spec fn add1(n: u64) -> u64 {
    (n + 1) as u64
}

/// One insertion into the store: a fresh key is appended unscored with the
/// next insertion number; a key already present leaves the store untouched
/// (re-insertion is not a reset).
pub open spec fn push_one(acc: (Seq<CandidateModel>, u64), v: Seq<char>) -> (
    Seq<CandidateModel>,
    u64,
) {
    if contains_value(acc.0, v) {
        acc
    } else {
        (
            acc.0.push(CandidateModel { value: v, ticket: acc.1, state: MatchStateModel::Unscored }),
            add1(acc.1),
        )
    }
}

/// The store contents and next insertion number after inserting the given
/// values in order.
pub open spec fn pushed_all(
    entries: Seq<CandidateModel>,
    opts: Seq<Seq<char>>,
    next: u64,
) -> (Seq<CandidateModel>, u64)
    decreases opts.len(),
{
    if opts.len() == 0 {
        (entries, next)
    } else {
        push_one(pushed_all(entries, opts.drop_last(), next), opts.last())
    }
}

/// The position of the candidate with the given value (meaningful only when
/// [`contains_value`] holds; unique when values are distinct).
pub open spec fn index_of_value(s: Seq<CandidateModel>, v: Seq<char>) -> int {
    choose|i: int| 0 <= i < s.len() && (#[trigger] s[i]).value == v
}

/// The store contents after removing the candidate with the given value, if
/// it is present.
pub open spec fn remove_value(s: Seq<CandidateModel>, v: Seq<char>) -> Seq<CandidateModel> {
    if contains_value(s, v) {
        s.remove(index_of_value(s, v))
    } else {
        s
    }
}

/// The store contents after removing the candidates with the given values.
pub open spec fn removed_all(s: Seq<CandidateModel>, keys: Seq<Seq<char>>) -> Seq<CandidateModel>
    decreases keys.len(),
{
    if keys.len() == 0 {
        s
    } else {
        remove_value(removed_all(s, keys.drop_last()), keys.last())
    }
}

/// What `set_filter` leaves behind: the new filter installed, every candidate
/// re-evaluated against it, the store re-ranked, and the selection reset onto
/// the first match.
pub open spec fn set_filter_post(pre: FinderModel, f: Seq<char>, post: FinderModel) -> bool {
    &&& post.filter == f
    &&& post.next_ticket == pre.next_ticket
    &&& post.entries.to_multiset() == rescored(pre.entries, f, true).to_multiset()
    &&& post.selected == reset_selection_for(post.matched)
    &&& model_inv(post)
    &&& model_scored(post)
}

/// What an insertion of `opts` leaves behind: fresh keys appended unscored and
/// then scored against the unchanged filter, the store re-ranked, and the
/// selection reset onto the first match.
pub open spec fn push_post(pre: FinderModel, opts: Seq<Seq<char>>, post: FinderModel) -> bool {
    &&& post.filter == pre.filter
    &&& post.next_ticket == pushed_all(pre.entries, opts, pre.next_ticket).1
    &&& post.entries.to_multiset() == rescored(
        pushed_all(pre.entries, opts, pre.next_ticket).0,
        pre.filter,
        false,
    ).to_multiset()
    &&& post.selected == reset_selection_for(post.matched)
    &&& model_inv(post)
}

/// What a whole-store replacement leaves behind: the previous candidates gone,
/// the given values inserted in order with insertion numbers starting over,
/// every candidate scored against the unchanged filter.
pub open spec fn replace_post(pre: FinderModel, opts: Seq<Seq<char>>, post: FinderModel) -> bool {
    &&& post.filter == pre.filter
    &&& post.next_ticket == pushed_all(Seq::empty(), opts, 0).1
    &&& post.entries.to_multiset() == rescored(
        pushed_all(Seq::empty(), opts, 0).0,
        pre.filter,
        false,
    ).to_multiset()
    &&& post.selected == reset_selection_for(post.matched)
    &&& model_inv(post)
    &&& model_scored(post)
}

/// What a removal leaves behind: the keyed candidate gone and the selection
/// reset onto the first remaining match; an absent key changes nothing.
pub open spec fn remove_post(pre: FinderModel, key: Seq<char>, post: FinderModel) -> bool {
    &&& post.filter == pre.filter
    &&& post.next_ticket == pre.next_ticket
    &&& post.entries == remove_value(pre.entries, key)
    &&& (if contains_value(pre.entries, key) {
        post.selected == reset_selection_for(post.matched)
    } else {
        post.selected == pre.selected && post.matched == pre.matched
    })
    &&& model_inv(post)
}

/// Two sequences with the same multiset of candidates have the same elements;
/// uniqueness of insertion numbers and of values carries over.
proof fn lemma_perm_transfer(a: Seq<CandidateModel>, b: Seq<CandidateModel>)
    requires
        a.to_multiset() == b.to_multiset(),
        distinct_tickets(a),
    ensures
        b.len() == a.len(),
        distinct_tickets(b),
        distinct_values(a) ==> distinct_values(b),
        forall|i: int| 0 <= i < b.len() ==> a.contains(#[trigger] b[i]),
{
    broadcast use vstd::seq_lib::group_to_multiset_ensures;

    assert(a.no_duplicates()) by {
        assert forall|i: int, j: int| 0 <= i < a.len() && 0 <= j < a.len() && i != j implies a[i]
            != a[j] by {
            if i < j {
                assert(a[i].ticket != a[j].ticket);
            } else {
                assert(a[j].ticket != a[i].ticket);
            }
        }
    }
    a.lemma_multiset_has_no_duplicates();
    b.lemma_multiset_has_no_duplicates_conv();
    assert(a.to_multiset().len() == a.len());
    assert(b.to_multiset().len() == b.len());
    assert forall|i: int| 0 <= i < b.len() implies a.contains(#[trigger] b[i]) by {
        assert(0 <= i < b.len() && b[i] == b[i]);
        assert(b.contains(b[i]));
        assert(b.to_multiset().count(b[i]) > 0);
        assert(a.to_multiset().count(b[i]) > 0);
    }
    assert forall|i: int, j: int|
        0 <= i < j < b.len() implies (#[trigger] b[i]).ticket != (#[trigger] b[j]).ticket by {
        assert(b[i] != b[j]);
        let p = choose|p: int| 0 <= p < a.len() && a[p] == b[i];
        let q = choose|q: int| 0 <= q < a.len() && a[q] == b[j];
        assert(p != q);
        if p < q {
            assert(a[p].ticket != a[q].ticket);
        } else {
            assert(a[q].ticket != a[p].ticket);
        }
    }
    if distinct_values(a) {
        assert forall|i: int, j: int|
            0 <= i < j < b.len() implies (#[trigger] b[i]).value != (#[trigger] b[j]).value by {
            assert(b[i] != b[j]);
            let p = choose|p: int| 0 <= p < a.len() && a[p] == b[i];
            let q = choose|q: int| 0 <= q < a.len() && a[q] == b[j];
            assert(p != q);
            if p < q {
                assert(a[p].value != a[q].value);
            } else {
                assert(a[q].value != a[p].value);
            }
        }
    }
}

/// Taking an element out of a sequence and putting it back elsewhere keeps the
/// multiset of elements.
proof fn lemma_multiset_remove_insert(s: Seq<CandidateModel>, i: int, j: int)
    requires
        0 <= i < s.len(),
        0 <= j <= s.len() - 1,
    ensures
        s.remove(i).insert(j, s[i]).to_multiset() == s.to_multiset(),
{
    broadcast use vstd::seq_lib::group_to_multiset_ensures;
    broadcast use vstd::multiset::group_multiset_axioms;

    assert(s.remove(i).insert(j, s[i]).to_multiset() == s.to_multiset().remove(s[i]).insert(
        s[i],
    ));
    assert(s.contains(s[i]));
    assert(s.to_multiset().count(s[i]) > 0);
    assert(s.to_multiset().remove(s[i]).insert(s[i]) =~= s.to_multiset());
}

fn is_matched_exec(c: &Candidate) -> (r: bool)
    ensures
        r == is_matched(c@),
{
    match &c.state {
        MatchState::Matched(_) => true,
        _ => false,
    }
}

fn score_exec(c: &Candidate) -> (s: i64)
    ensures
        s == cand_score(c@),
{
    match &c.state {
        MatchState::Matched(fs) => fs.score,
        _ => 0,
    }
}

fn rank_le_exec(a: &Candidate, b: &Candidate) -> (r: bool)
    ensures
        r == rank_le(a@, b@),
{
    let am = is_matched_exec(a);
    let bm = is_matched_exec(b);
    if am && bm {
        let asc = score_exec(a);
        let bsc = score_exec(b);
        asc > bsc || (asc == bsc && a.ticket <= b.ticket)
    } else if am {
        true
    } else if bm {
        false
    } else {
        a.ticket <= b.ticket
    }
}

/// Two ranked arrangements of the same candidates are identical: the rank
/// order is total, and with distinct insertion numbers it never ties two
/// different candidates, so a candidate set has exactly one ranked
/// arrangement.
pub proof fn lemma_ranked_unique(a: Seq<CandidateModel>, b: Seq<CandidateModel>)
    requires
        ranked(a),
        ranked(b),
        distinct_tickets(a),
        a.to_multiset() == b.to_multiset(),
    ensures
        a == b,
    decreases a.len(),
{
    broadcast use vstd::seq_lib::group_to_multiset_ensures;

    assert(a.to_multiset().len() == a.len());
    assert(b.to_multiset().len() == b.len());
    if a.len() == 0 {
        assert(a =~= b);
    } else {
        assert(0 <= 0 < b.len() && b[0] == b[0]);
        assert(b.contains(b[0]));
        assert(b.to_multiset().count(b[0]) > 0);
        assert(a.to_multiset().count(b[0]) > 0);
        assert(a.contains(b[0]));
        let i = choose|i: int| 0 <= i < a.len() && a[i] == b[0];
        assert(0 <= 0 < a.len() && a[0] == a[0]);
        assert(a.contains(a[0]));
        assert(a.to_multiset().count(a[0]) > 0);
        assert(b.to_multiset().count(a[0]) > 0);
        assert(b.contains(a[0]));
        let j = choose|j: int| 0 <= j < b.len() && b[j] == a[0];
        lemma_rank_le_total(a[0], a[0]);
        assert(rank_le(a[0], a[i]));
        assert(rank_le(b[0], b[j]));
        lemma_rank_le_total(a[0], b[0]);
        assert(a[0].ticket == b[0].ticket);
        if i != 0 {
            assert(a[0].ticket != a[i].ticket);
            assert(false);
        }
        assert(a[0] == b[0]);
        let at = a.drop_first();
        let bt = b.drop_first();
        assert(at =~= a.remove(0));
        assert(bt =~= b.remove(0));
        assert(a.remove(0).to_multiset() == a.to_multiset().remove(a[0]));
        assert(b.remove(0).to_multiset() == b.to_multiset().remove(b[0]));
        assert(at.to_multiset() == bt.to_multiset());
        assert(ranked(at)) by {
            assert(forall|t: int| 0 <= t < at.len() ==> #[trigger] at[t] == a[t + 1]);
        }
        assert(ranked(bt)) by {
            assert(forall|t: int| 0 <= t < bt.len() ==> #[trigger] bt[t] == b[t + 1]);
        }
        assert(distinct_tickets(at)) by {
            assert(forall|t: int| 0 <= t < at.len() ==> #[trigger] at[t] == a[t + 1]);
        }
        lemma_ranked_unique(at, bt);
        assert(a =~= b) by {
            assert(forall|t: int| 0 < t < a.len() ==> #[trigger] a[t] == at[t - 1]);
            assert(forall|t: int| 0 < t < b.len() ==> #[trigger] b[t] == bt[t - 1]);
        }
    }
}

/// Idempotence: setting the same filter twice in a row, with no other mutation
/// between, leaves the ranked view and the selection exactly as the first pass
/// left them.
pub proof fn lemma_set_filter_idempotent(
    m0: FinderModel,
    f: Seq<char>,
    m1: FinderModel,
    m2: FinderModel,
)
    requires
        set_filter_post(m0, f, m1),
        set_filter_post(m1, f, m2),
    ensures
        m2.entries == m1.entries,
        m2.matched == m1.matched,
        m2.selected == m1.selected,
{
    // A candidate already scored for `f` is left exactly as it is by another
    // scoring pass under `f`.
    assert(rescored(m1.entries, f, true) =~= m1.entries) by {
        assert forall|t: int| 0 <= t < m1.entries.len() implies #[trigger] rescored(
            m1.entries,
            f,
            true,
        )[t] == m1.entries[t] by {
            assert(m1.entries[t].state == match_state_of(m1.entries[t].value, f));
        }
    }
    assert(m2.entries.to_multiset() == m1.entries.to_multiset());
    lemma_ranked_unique(m1.entries, m2.entries);
    if m2.matched < m1.matched {
        assert(is_matched(m1.entries[m2.matched as int]));
        assert(!is_matched(m2.entries[m2.matched as int]));
        assert(false);
    }
    if m1.matched < m2.matched {
        assert(is_matched(m2.entries[m1.matched as int]));
        assert(!is_matched(m1.entries[m1.matched as int]));
        assert(false);
    }
}

/// Rank monotonicity: of two matched candidates in the ranked view, the
/// earlier one's score is at least the later one's.
pub proof fn lemma_rank_monotone(m: FinderModel, i: int, j: int)
    requires
        model_inv(m),
        0 <= i < j < m.matched,
    ensures
        cand_score(m.entries[i]) >= cand_score(m.entries[j]),
{
    assert(rank_le(m.entries[i], m.entries[j]));
}

/// Selection clamping: when no candidate matches, the selection is cleared;
/// otherwise it addresses a rank inside the matched prefix.
pub proof fn lemma_selection_clamped(m: FinderModel)
    requires
        model_inv(m),
    ensures
        m.matched == 0 ==> m.selected is None,
        match m.selected {
            Some(i) => 0 < m.matched && i < m.matched,
            None => m.matched == 0,
        },
{
}

/// With an empty filter, every stored candidate is in the matched state (the
/// scorer treats an empty filter as trivially matching), so the matched prefix
/// is the whole store.
pub proof fn lemma_empty_filter_matches_all(m: FinderModel)
    requires
        model_inv(m),
        m.filter.len() == 0,
    ensures
        forall|i: int| 0 <= i < m.entries.len() ==> is_matched(#[trigger] m.entries[i]),
        m.matched == m.entries.len(),
{
    if m.matched < m.entries.len() {
        assert(is_matched(m.entries[m.matched as int]));
        assert(!is_matched(m.entries[m.matched as int]));
        assert(false);
    }
}

fn is_unscored_exec(c: &Candidate) -> (r: bool)
    ensures
        r == (c@.state is Unscored),
{
    match &c.state {
        MatchState::Unscored => true,
        _ => false,
    }
}

/// Sorts the candidate vector into ranked order (insertion sort; the rank
/// order is total, so the result is the unique ranked arrangement of the
/// stored candidates).
fn sort_entries(entries: &mut Vec<Candidate>)
    ensures
        models(final(entries)@).to_multiset() == models(old(entries)@).to_multiset(),
        ranked(models(final(entries)@)),
{
    let ghost orig = models(entries@);
    let n = entries.len();
    if n <= 1 {
        return;
    }
    let mut i: usize = 1;
    while i < n
        invariant
            1 <= i <= n,
            n == entries@.len(),
            models(entries@).to_multiset() == orig.to_multiset(),
            forall|p: int, q: int|
                0 <= p < q < i ==> rank_le(
                    #[trigger] models(entries@)[p],
                    #[trigger] models(entries@)[q],
                ),
        decreases n - i,
    {
        let ghost em = models(entries@);
        let mut j: usize = i;
        while j > 0 && !rank_le_exec(&entries[j - 1], &entries[i])
            invariant
                0 <= j <= i < n,
                n == entries@.len(),
                models(entries@) == em,
                forall|t: int|
                    j <= t < i ==> !rank_le(#[trigger] models(entries@)[t], models(
                        entries@,
                    )[i as int]),
            decreases j,
        {
            j -= 1;
        }
        let ghost c_model = em[i as int];
        proof {
            // Everything the scan passed over comes after the moved candidate.
            assert forall|t: int| j <= t < i implies rank_le(c_model, #[trigger] em[t]) by {
                lemma_rank_le_total(em[t], c_model);
            }
            // Everything before the insertion point comes before it.
            assert forall|t: int| 0 <= t < j implies rank_le(#[trigger] em[t], c_model) by {
                if t < j - 1 {
                    lemma_rank_le_trans(em[t], em[j - 1], c_model);
                }
            }
        }
        if j < i {
            let c = entries.remove(i);
            entries.insert(j, c);
            proof {
                let nm = models(entries@);
                assert(nm =~= em.remove(i as int).insert(j as int, c_model));
                lemma_multiset_remove_insert(em, i as int, j as int);
                assert forall|p: int, q: int|
                    0 <= p < q < i + 1 implies rank_le(#[trigger] nm[p], #[trigger] nm[q]) by {
                    if q < j {
                        assert(nm[p] == em[p] && nm[q] == em[q]);
                    } else if q == j {
                        assert(nm[p] == em[p] && nm[q] == c_model);
                    } else if p < j {
                        assert(nm[p] == em[p] && nm[q] == em[q - 1]);
                        assert(p < q - 1 < i);
                    } else if p == j {
                        assert(nm[p] == c_model && nm[q] == em[q - 1]);
                    } else {
                        assert(nm[p] == em[p - 1] && nm[q] == em[q - 1]);
                    }
                }
            }
        } else {
            proof {
                assert forall|p: int, q: int|
                    0 <= p < q < i + 1 implies rank_le(
                        #[trigger] models(entries@)[p],
                        #[trigger] models(entries@)[q],
                    ) by {}
            }
        }
        i += 1;
    }
}

fn clone_indices(v: &Vec<usize>) -> (r: Vec<usize>)
    ensures
        r@ == v@,
{
    let r = v.clone();
    proof {
        assert(r@ =~= v@);
    }
    r
}

/// Builds the row handed out for a matched candidate.
fn row_of(c: &Candidate) -> (r: FuzzyListEntry)
    requires
        is_matched(c@),
    ensures
        entry_corresponds(r, c@),
{
    match &c.state {
        MatchState::Matched(fs) => FuzzyListEntry {
            value: c.value.clone(),
            score: fs.score,
            indices: clone_indices(&fs.indices),
        },
        _ => {
            proof {
                assert(false);
            }
            FuzzyListEntry { value: String::new(), score: 0, indices: Vec::new() }
        }
    }
}

/// Finds the position of the candidate with the given key, if any.
fn position_of(entries: &Vec<Candidate>, key: &String) -> (r: Option<usize>)
    ensures
        match r {
            Some(i) => i < entries@.len() && models(entries@)[i as int].value == key@,
            None => !contains_value(models(entries@), key@),
        },
{
    let n = entries.len();
    let mut i: usize = 0;
    while i < n
        invariant
            0 <= i <= n,
            n == entries@.len(),
            forall|t: int| 0 <= t < i ==> models(entries@)[t].value != key@,
        decreases n - i,
    {
        proof {
            assert(models(entries@)[i as int] == entries@[i as int]@);
        }
        if entries[i].value.eq(key) {
            return Some(i);
        }
        i += 1;
    }
    None
}

impl FuzzyFinder {
    /// Structural invariant; holds after construction and every operation.
    pub open spec fn inv(&self) -> bool {
        model_inv(self@)
    }

    /// An empty engine: no candidates, empty filter, nothing selected.
    pub fn new() -> (r: FuzzyFinder)
        ensures
            r.inv(),
            model_scored(r@),
            r@.entries.len() == 0,
            r@.filter.len() == 0,
            r@.next_ticket == 0,
            r@.matched == 0,
            r@.selected is None,
    {
        FuzzyFinder {
            filter: String::new(),
            entries: Vec::new(),
            next_ticket: 0,
            matched: 0,
            selected: None,
        }
    }

    /// How many candidates currently match the filter.
    pub fn matched_count(&self) -> (r: usize)
        ensures
            r == self@.matched,
    {
        self.matched
    }

    /// How many candidates the store holds in total.
    pub fn option_count(&self) -> (r: usize)
        ensures
            r == self@.entries.len(),
    {
        self.entries.len()
    }

    /// The rank of the selected match, if any.
    pub fn selected_index(&self) -> (r: Option<usize>)
        ensures
            r == self@.selected,
    {
        self.selected
    }

    /// The current filter term.
    pub fn filter_term(&self) -> (r: &str)
        ensures
            r@ == self@.filter,
    {
        self.filter.as_str()
    }

    /// Whether a candidate with the given key is stored.
    pub fn contains_key(&self, key: &str) -> (r: bool)
        ensures
            r == contains_value(self@.entries, key@),
    {
        let k = key.to_owned();
        match position_of(&self.entries, &k) {
            Some(_) => true,
            None => false,
        }
    }

    /// The currently selected row: the candidate at the selection cursor, with
    /// its score and match indices. Nothing when no candidate matches.
    pub fn selection(&self) -> (r: Option<FuzzyListEntry>)
        requires
            self.inv(),
        ensures
            match self@.selected {
                None => r is None,
                Some(i) => match r {
                    None => false,
                    Some(e) => entry_corresponds(e, self@.entries[i as int]),
                },
            },
    {
        match self.selected {
            None => None,
            Some(i) => {
                proof {
                    assert(self@.entries[i as int] == self.entries@[i as int]@);
                }
                let c = &self.entries[i];
                Some(row_of(c))
            }
        }
    }

    /// Moves the selection cursor one row down the ranked matches, saturating
    /// at the last match; from an empty selection, selects the first match if
    /// there is one.
    pub fn select_next(&mut self)
        requires
            old(self).inv(),
        ensures
            final(self).inv(),
            final(self)@.entries == old(self)@.entries,
            final(self)@.filter == old(self)@.filter,
            final(self)@.next_ticket == old(self)@.next_ticket,
            final(self)@.matched == old(self)@.matched,
            final(self)@.selected == (match old(self)@.selected {
                None => reset_selection_for(old(self)@.matched),
                Some(i) => Some(
                    if i + 1 < old(self)@.matched {
                        (i + 1) as usize
                    } else {
                        (old(self)@.matched - 1) as usize
                    },
                ),
            }),
            model_scored(old(self)@) ==> model_scored(final(self)@),
    {
        match self.selected {
            None => {
                if self.matched > 0 {
                    self.selected = Some(0);
                }
            }
            Some(i) => {
                if i + 1 < self.matched {
                    self.selected = Some(i + 1);
                } else {
                    self.selected = Some(self.matched - 1);
                }
            }
        }
    }

    /// Moves the selection cursor one row up the ranked matches, stopping at
    /// the first match; from an empty selection, selects the first match if
    /// there is one.
    pub fn select_prev(&mut self)
        requires
            old(self).inv(),
        ensures
            final(self).inv(),
            final(self)@.entries == old(self)@.entries,
            final(self)@.filter == old(self)@.filter,
            final(self)@.next_ticket == old(self)@.next_ticket,
            final(self)@.matched == old(self)@.matched,
            final(self)@.selected == (match old(self)@.selected {
                None => reset_selection_for(old(self)@.matched),
                Some(i) => Some(if i > 0 { (i - 1) as usize } else { 0usize }),
            }),
            model_scored(old(self)@) ==> model_scored(final(self)@),
    {
        match self.selected {
            None => {
                if self.matched > 0 {
                    self.selected = Some(0);
                }
            }
            Some(i) => {
                if i > 0 {
                    self.selected = Some(i - 1);
                } else {
                    self.selected = Some(0);
                }
            }
        }
    }

    /// A window of the ranked matches: up to `limit` rows starting at rank
    /// `offset`, in rank order. Rows past the matched prefix do not exist.
    pub fn ranked_view(&self, offset: usize, limit: usize) -> (r: Vec<FuzzyListEntry>)
        requires
            self.inv(),
        ensures
            r@.len() == window_len(self@.matched as int, offset as int, limit as int),
            forall|k: int|
                0 <= k < r@.len() ==> entry_corresponds(#[trigger] r@[k], self@.entries[offset + k]),
    {
        let mut out: Vec<FuzzyListEntry> = Vec::new();
        let avail = if offset < self.matched {
            self.matched - offset
        } else {
            0
        };
        let take = if limit < avail {
            limit
        } else {
            avail
        };
        let mut k: usize = 0;
        while k < take
            invariant
                0 <= k <= take,
                self.inv(),
                take == window_len(self@.matched as int, offset as int, limit as int),
                take > 0 ==> offset + take <= self@.matched,
                out@.len() == k,
                forall|t: int|
                    0 <= t < k ==> entry_corresponds(#[trigger] out@[t], self@.entries[offset + t]),
            decreases take - k,
        {
            proof {
                assert(self@.entries[offset + k] == self.entries@[offset + k]@);
            }
            let c = &self.entries[offset + k];
            out.push(row_of(c));
            k += 1;
        }
        out
    }
}

impl FuzzyFinder {
    /// Rescores the store under the current filter — every candidate when
    /// `full`, only the unscored ones otherwise — then re-sorts into ranked
    /// order and reconciles the selection cursor.
    fn update_matches(&mut self, full: bool)
        requires
            distinct_tickets(old(self)@.entries),
            distinct_values(old(self)@.entries),
            tickets_below(old(self)@.entries, old(self)@.next_ticket),
            full || states_good(old(self)@.entries, old(self)@.filter),
        ensures
            final(self).inv(),
            final(self)@.filter == old(self)@.filter,
            final(self)@.next_ticket == old(self)@.next_ticket,
            final(self)@.entries.to_multiset() == rescored(
                old(self)@.entries,
                old(self)@.filter,
                full,
            ).to_multiset(),
            final(self)@.selected == reset_selection_for(final(self)@.matched),
            full ==> model_scored(final(self)@),
            partial_scored_for(old(self)@.entries, old(self)@.filter) ==> model_scored(
                final(self)@,
            ),
    {
        let ghost e0 = old(self)@.entries;
        let ghost f = old(self)@.filter;
        // Scoring pass: each candidate's new state depends only on its own
        // text and the filter.
        let n = self.entries.len();
        let mut k: usize = 0;
        while k < n
            invariant
                0 <= k <= n,
                n == self.entries@.len(),
                n == e0.len(),
                self@.filter == f,
                self@.next_ticket == old(self)@.next_ticket,
                forall|t: int|
                    0 <= t < k ==> #[trigger] models(self.entries@)[t] == rescore_model(
                        e0[t],
                        f,
                        full,
                    ),
                forall|t: int|
                    0 <= t < k ==> entry_good(#[trigger] models(self.entries@)[t], f),
                forall|t: int| k <= t < n ==> #[trigger] models(self.entries@)[t] == e0[t],
                full || states_good(e0, f),
            decreases n - k,
        {
            let ghost before = models(self.entries@);
            let needs = full || is_unscored_exec(&self.entries[k]);
            if needs {
                let res = skim_match(self.entries[k].value.as_str(), self.filter.as_str());
                let st = match res {
                    Option::None => MatchState::NoMatch,
                    Option::Some(p) => MatchState::Matched(
                        FuzzyScore { score: p.0, indices: p.1 },
                    ),
                };
                proof {
                    let newc = CandidateModel { state: st@, ..before[k as int] };
                    assert(newc.state == match_state_of(newc.value, f));
                    assert(entry_good(newc, f));
                    assert(newc == rescore_model(e0[k as int], f, full));
                }
                let e = &mut self.entries[k];
                e.state = st;
                proof {
                    assert(models(self.entries@) =~= before.update(
                        k as int,
                        CandidateModel { state: st@, ..before[k as int] },
                    ));
                }
            }
            k += 1;
        }
        proof {
            assert(models(self.entries@) =~= rescored(e0, f, full));
        }
        // Re-sort: the sort is the synchronization point; the ranked view below
        // observes the fully rescored state.
        sort_entries(&mut self.entries);
        proof {
            lemma_perm_transfer(rescored(e0, f, full), models(self.entries@));
        }
        // Reconcile: recount the matched prefix and reset the cursor.
        let ghost es = models(self.entries@);
        self.reconcile();
        proof {
            let len = es.len();
            let r = rescored(e0, f, full);
            // The rescoring pass keeps every ticket and value.
            assert forall|t: int| 0 <= t < r.len() implies (#[trigger] r[t]).ticket == e0[t].ticket
                && r[t].value == e0[t].value by {}
            assert(distinct_tickets(r));
            assert(distinct_values(r));
            assert(tickets_below(r, old(self)@.next_ticket));
            assert forall|t: int| 0 <= t < r.len() implies entry_good(#[trigger] r[t], f) by {}
            // Elementwise facts carry over the permutation.
            assert forall|t: int| 0 <= t < len implies entry_good(#[trigger] es[t], f)
                && es[t].ticket < old(self)@.next_ticket by {
                assert(r.contains(es[t]));
                let j = choose|j: int| 0 <= j < r.len() && r[j] == es[t];
                assert(entry_good(r[j], f));
            }
            if full || partial_scored_for(e0, f) {
                assert forall|t: int| 0 <= t < len implies (#[trigger] es[t]).state
                    == match_state_of(es[t].value, f) by {
                    assert(r.contains(es[t]));
                    let j = choose|j: int| 0 <= j < r.len() && r[j] == es[t];
                    assert(r[j] == rescore_model(e0[j], f, full));
                }
            }
        }
    }

    /// Replaces the filter term: every candidate is re-evaluated against the
    /// new term (cached scores are stale), the store is re-ranked, and the
    /// selection is reset onto the first match.
    pub fn set_filter(&mut self, filter: String)
        requires
            old(self).inv(),
        ensures
            final(self).inv(),
            set_filter_post(old(self)@, filter@, final(self)@),
    {
        self.filter = filter;
        self.update_matches(true);
    }

    /// Clears the filter term: the same as setting the empty filter, under
    /// which every candidate matches.
    pub fn clear_filter(&mut self)
        requires
            old(self).inv(),
        ensures
            final(self).inv(),
            set_filter_post(old(self)@, Seq::<char>::empty(), final(self)@),
    {
        self.set_filter(String::new());
    }

    /// Inserts the given candidates: fresh keys are appended and scored
    /// against the current filter (an incremental pass: candidates already
    /// scored keep their cached result), the store is re-ranked, and the
    /// selection is reset onto the first match. Re-inserting an existing key
    /// leaves its slot untouched.
    pub fn push_options(&mut self, options: Vec<String>)
        requires
            old(self).inv(),
            old(self)@.next_ticket + options@.len() <= u64::MAX,
        ensures
            final(self).inv(),
            push_post(old(self)@, options@.map_values(|s: String| s@), final(self)@),
            model_scored(old(self)@) ==> model_scored(final(self)@),
    {
        let ghost opts = options@.map_values(|s: String| s@);
        let ghost e0 = old(self)@.entries;
        let ghost n0 = old(self)@.next_ticket;
        let m = options.len();
        let mut idx: usize = 0;
        while idx < m
            invariant
                0 <= idx <= m,
                m == options@.len(),
                opts == options@.map_values(|s: String| s@),
                old(self).inv(),
                self@.filter == old(self)@.filter,
                (self@.entries, self@.next_ticket) == pushed_all(e0, opts.take(idx as int), n0),
                self@.next_ticket + (m - idx) <= u64::MAX,
                distinct_tickets(self@.entries),
                distinct_values(self@.entries),
                tickets_below(self@.entries, self@.next_ticket),
                states_good(self@.entries, self@.filter),
                model_scored(old(self)@) ==> partial_scored_for(self@.entries, self@.filter),
            decreases m - idx,
        {
            let ghost before = self@.entries;
            let v = options[idx].clone();
            proof {
                assert(v@ == opts[idx as int]);
            }
            match position_of(&self.entries, &v) {
                Some(_) => {
                    proof {
                        assert(contains_value(self@.entries, v@));
                    }
                }
                None => {
                    let t = self.next_ticket;
                    self.entries.push(
                        Candidate { value: v, ticket: t, state: MatchState::Unscored },
                    );
                    self.next_ticket = t + 1;
                    proof {
                        assert(models(self.entries@) =~= before.push(
                            CandidateModel {
                                value: opts[idx as int],
                                ticket: t,
                                state: MatchStateModel::Unscored,
                            },
                        ));
                    }
                }
            }
            proof {
                assert(opts.take(idx + 1).drop_last() =~= opts.take(idx as int));
                assert(opts.take(idx + 1).last() == opts[idx as int]);
                assert((self@.entries, self@.next_ticket) == push_one(
                    pushed_all(e0, opts.take(idx as int), n0),
                    opts[idx as int],
                ));
            }
            idx += 1;
        }
        proof {
            assert(opts.take(m as int) =~= opts);
        }
        self.update_matches(false);
    }

    /// Inserts one candidate; the same as inserting a one-element batch.
    pub fn push_option(&mut self, option: String)
        requires
            old(self).inv(),
            old(self)@.next_ticket < u64::MAX,
        ensures
            final(self).inv(),
            push_post(old(self)@, seq![option@], final(self)@),
            model_scored(old(self)@) ==> model_scored(final(self)@),
    {
        let ghost ov = option@;
        let mut batch: Vec<String> = Vec::new();
        batch.push(option);
        proof {
            assert(batch@.map_values(|s: String| s@) =~= seq![ov]);
        }
        self.push_options(batch);
    }

    /// Replaces the whole candidate set: the store is cleared, insertion
    /// numbers start over, and the given candidates are inserted and scored
    /// against the unchanged filter.
    pub fn set_options(&mut self, options: Vec<String>)
        requires
            old(self).inv(),
        ensures
            final(self).inv(),
            replace_post(old(self)@, options@.map_values(|s: String| s@), final(self)@),
    {
        self.entries = Vec::new();
        self.next_ticket = 0;
        self.matched = 0;
        self.selected = None;
        let count = options.len();
        proof {
            assert(models(self.entries@) =~= Seq::<CandidateModel>::empty());
            assert(options@.len() == count);
            assert(count <= u64::MAX);
        }
        self.push_options(options);
    }

    /// Builder form of [`FuzzyFinder::set_options`].
    pub fn with_options(self, options: Vec<String>) -> (r: FuzzyFinder)
        requires
            self.inv(),
        ensures
            r.inv(),
            replace_post(self@, options@.map_values(|s: String| s@), r@),
    {
        let mut ff = self;
        ff.set_options(options);
        ff
    }

    /// Removes the candidate with the given key, if present. No rescoring is
    /// needed and the relative order of the rest is unchanged, but the
    /// selection is reset onto the first remaining match. An absent key
    /// changes nothing.
    pub fn remove_option(&mut self, key: &str)
        requires
            old(self).inv(),
        ensures
            final(self).inv(),
            remove_post(old(self)@, key@, final(self)@),
            model_scored(old(self)@) ==> model_scored(final(self)@),
    {
        let ghost e0 = old(self)@.entries;
        let k = key.to_owned();
        match position_of(&self.entries, &k) {
            None => {
                proof {
                    assert(!contains_value(e0, key@));
                }
            }
            Some(i) => {
                proof {
                    assert(contains_value(e0, key@));
                    let j = index_of_value(e0, key@);
                    assert(0 <= j < e0.len() && e0[j].value == key@);
                    if i as int != j {
                        assert(e0[i as int].value == e0[j].value);
                        assert(false);
                    }
                }
                self.entries.remove(i);
                proof {
                    let nm = models(self.entries@);
                    assert(nm =~= e0.remove(i as int));
                    assert forall|t: int| 0 <= t < nm.len() implies #[trigger] nm[t] == (if t
                        < i as int {
                        e0[t]
                    } else {
                        e0[t + 1]
                    }) by {}
                    assert forall|p: int, q: int|
                        0 <= p < q < nm.len() implies rank_le(
                        #[trigger] nm[p],
                        #[trigger] nm[q],
                    ) by {}
                }
                self.reconcile();
            }
        }
    }

    /// Removes the candidates with the given keys, in order; absent keys are
    /// ignored. If anything was removed, the selection is reset onto the first
    /// remaining match.
    pub fn remove_options(&mut self, keys: Vec<String>)
        requires
            old(self).inv(),
        ensures
            final(self).inv(),
            final(self)@.filter == old(self)@.filter,
            final(self)@.next_ticket == old(self)@.next_ticket,
            final(self)@.entries == removed_all(
                old(self)@.entries,
                keys@.map_values(|s: String| s@),
            ),
            final(self)@.entries.len() == old(self)@.entries.len() ==> final(self)@.selected
                == old(self)@.selected && final(self)@.matched == old(self)@.matched,
            final(self)@.entries.len() < old(self)@.entries.len() ==> final(self)@.selected
                == reset_selection_for(final(self)@.matched),
            model_scored(old(self)@) ==> model_scored(final(self)@),
    {
        let ghost ks = keys@.map_values(|s: String| s@);
        let n = keys.len();
        let mut idx: usize = 0;
        while idx < n
            invariant
                0 <= idx <= n,
                n == keys@.len(),
                ks == keys@.map_values(|s: String| s@),
                self.inv(),
                self@.filter == old(self)@.filter,
                self@.next_ticket == old(self)@.next_ticket,
                self@.entries == removed_all(old(self)@.entries, ks.take(idx as int)),
                self@.entries.len() <= old(self)@.entries.len(),
                self@.entries.len() == old(self)@.entries.len() ==> self@.selected == old(
                    self,
                )@.selected && self@.matched == old(self)@.matched,
                self@.entries.len() < old(self)@.entries.len() ==> self@.selected
                    == reset_selection_for(self@.matched),
                model_scored(old(self)@) ==> model_scored(self@),
            decreases n - idx,
        {
            proof {
                assert(ks.take(0) =~= Seq::<Seq<char>>::empty());
            }
            self.remove_option(keys[idx].as_str());
            proof {
                assert(ks.take(idx + 1).drop_last() =~= ks.take(idx as int));
                assert(ks.take(idx + 1).last() == ks[idx as int]);
            }
            idx += 1;
        }
        proof {
            assert(ks.take(0) =~= Seq::<Seq<char>>::empty());
            assert(ks.take(n as int) =~= ks);
        }
    }

    /// Recounts the matched prefix of the (ranked) candidate vector and resets
    /// the selection cursor onto the first match, if any.
    fn reconcile(&mut self)
        requires
            ranked(old(self)@.entries),
        ensures
            final(self)@.entries == old(self)@.entries,
            final(self)@.filter == old(self)@.filter,
            final(self)@.next_ticket == old(self)@.next_ticket,
            final(self)@.matched <= final(self)@.entries.len(),
            forall|i: int|
                0 <= i < final(self)@.matched ==> is_matched(#[trigger] final(self)@.entries[i]),
            forall|i: int|
                final(self)@.matched <= i < final(self)@.entries.len() ==> !is_matched(
                    #[trigger] final(self)@.entries[i],
                ),
            final(self)@.selected == reset_selection_for(final(self)@.matched),
    {
        let len = self.entries.len();
        let ghost es = models(self.entries@);
        let mut mc: usize = 0;
        while mc < len && is_matched_exec(&self.entries[mc])
            invariant
                0 <= mc <= len,
                len == self.entries@.len(),
                models(self.entries@) == es,
                self@.filter == old(self)@.filter,
                self@.next_ticket == old(self)@.next_ticket,
                forall|t: int| 0 <= t < mc ==> is_matched(#[trigger] es[t]),
            decreases len - mc,
        {
            mc += 1;
        }
        proof {
            assert forall|t: int| mc <= t < len implies !is_matched(#[trigger] es[t]) by {
                if t > mc {
                    assert(rank_le(es[mc as int], es[t]));
                }
            }
        }
        self.matched = mc;
        self.selected = if mc > 0 { Some(0) } else { None };
    }
}

impl Default for FuzzyFinder {
    /// An empty engine, as [`FuzzyFinder::new`] builds it.
    fn default() -> (r: FuzzyFinder)
        ensures
            r.inv(),
            model_scored(r@),
            r@.entries.len() == 0,
            r@.filter.len() == 0,
            r@.next_ticket == 0,
            r@.matched == 0,
            r@.selected is None,
    {
        FuzzyFinder::new()
    }
}

} // verus!
