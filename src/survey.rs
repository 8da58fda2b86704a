use vstd::prelude::*;

use crate::ordinal::{rank_field, rank_field_spec};
use crate::tally::{
    ballots_valid, ballots_view, depth_of_rounds, field_count, lemma_longest_bounded, lemma_rounds_depth_bounded,
    rounds_view, tally, tally_spec, width, OptionTally,
};

verus! {

/// Why a request against a survey failed.
#[derive(Debug, Clone, Copy, PartialEq, Eq, Structural)]
pub enum VoteError {
    /// no survey has the given id
    UnknownSurvey,
    /// the ballot arrived after the survey's end time
    SurveyExpired,
    /// the ballot names a label that is not among the survey's choices
    InvalidBallot,
}

/// One survey: its title, validity window (in nanoseconds), choices and accepted ballots.
pub struct Survey {
    pub title: String,
    pub start: u64,
    pub end: u64,
    pub choices: Vec<String>,
    pub ballots: Vec<Vec<u32>>,
}

/// `i` is the first index of `choices` whose label is `label`.
pub open spec fn first_match(choices: Seq<String>, label: Seq<char>, i: int) -> bool {
    0 <= i < choices.len() && choices[i]@ == label && forall|j: int| 0 <= j < i ==> choices[j]@ != label
}

/// Some choice carries `label`.
pub open spec fn has_label(choices: Seq<String>, label: Seq<char>) -> bool {
    exists|i: int| 0 <= i < choices.len() && #[trigger] choices[i]@ == label
}

/// Every label of `ranking` is among `choices`.
pub open spec fn all_known(choices: Seq<String>, ranking: Seq<String>) -> bool {
    forall|i: int| 0 <= i < ranking.len() ==> has_label(choices, #[trigger] ranking[i]@)
}

/// `ballot` holds, position by position, the first index of each label of `ranking`.
pub open spec fn resolves_to(choices: Seq<String>, ranking: Seq<String>, ballot: Seq<u32>) -> bool {
    ballot.len() == ranking.len()
        && forall|i: int| 0 <= i < ranking.len() ==> first_match(choices, #[trigger] ranking[i]@, ballot[i] as int)
}

/// A breakdown of one option in one round, with each count under its rank field name.
pub struct VoteTallyResult {
    /// the option's label
    pub title: String,
    /// (field name, count) for rank positions 1, 2, ...
    pub ranking: Vec<(String, usize)>,
}

/// The labelled breakdown `v` is option `entry` of the choice set `choices`, with its
/// counts at the first `fields` rank positions.
pub open spec fn labels_entry(choices: Seq<String>, entry: (nat, Seq<nat>), fields: nat, v: VoteTallyResult) -> bool {
    &&& entry.0 < choices.len()
    &&& v.title@ == choices[entry.0 as int]@
    &&& v.ranking.len() == fields
    &&& fields <= entry.1.len()
    &&& forall|p: int| 0 <= p < fields ==>
        (#[trigger] v.ranking[p]).0@ == rank_field_spec((p + 1) as nat) && v.ranking[p].1 as nat == entry.1[p]
}

/// The labelled rounds `votes` are the rounds `spec_rounds` over `choices`, each count
/// vector cut to `fields` positions.
pub open spec fn labels_rounds(choices: Seq<String>, spec_rounds: Seq<Seq<(nat, Seq<nat>)>>, fields: nat, votes: Seq<Vec<VoteTallyResult>>) -> bool {
    &&& votes.len() == spec_rounds.len()
    &&& forall|i: int| 0 <= i < votes.len() ==> (#[trigger] votes[i]).len() == spec_rounds[i].len()
    &&& forall|i: int, j: int| 0 <= i < votes.len() && 0 <= j < votes[i].len()
        ==> labels_entry(choices, spec_rounds[i][j], fields, #[trigger] votes[i][j])
}

/// What a results request returns: the survey's title and choices, the tally's rounds,
/// and the field names of every rank position of the choice set.
pub struct Results {
    pub title: String,
    pub choices: Vec<String>,
    pub votes: Vec<Vec<VoteTallyResult>>,
    pub rank_fields: Vec<String>,
}

/// `r` is the answer to a results request on survey `s`: its title and choices, and its
/// tally's rounds, labelled. Both the breakdowns and `rank_fields` name `field_count`
/// rank positions: one per choice, unless a count sits at a later position.
pub open spec fn results_of(s: &Survey, r: Results) -> bool {
    let rounds = tally_spec(ballots_view(s.ballots@), s.choices.len() as nat);
    let fields = field_count(rounds, s.choices.len() as nat);
    &&& r.title@ == s.title@
    &&& r.choices@ == s.choices@
    &&& r.rank_fields.len() == fields
    &&& forall|p: int| 0 <= p < fields ==> #[trigger] r.rank_fields[p]@ == rank_field_spec((p + 1) as nat)
    &&& labels_rounds(s.choices@, rounds, fields, r.votes@)
}

/// Two answers carry the same text and the same numbers.
pub open spec fn same_results(a: Results, b: Results) -> bool {
    &&& a.title@ == b.title@
    &&& a.choices@ == b.choices@
    &&& a.rank_fields.len() == b.rank_fields.len()
    &&& forall|p: int| 0 <= p < a.rank_fields.len() ==> #[trigger] a.rank_fields[p]@ == b.rank_fields[p]@
    &&& a.votes.len() == b.votes.len()
    &&& forall|i: int| 0 <= i < a.votes.len() ==> (#[trigger] a.votes[i]).len() == b.votes[i].len()
    &&& forall|i: int, j: int| 0 <= i < a.votes.len() && 0 <= j < a.votes[i].len() ==> {
        let x = #[trigger] a.votes[i][j];
        let y = b.votes[i][j];
        &&& x.title@ == y.title@
        &&& x.ranking.len() == y.ranking.len()
        &&& forall|p: int| 0 <= p < x.ranking.len() ==> (#[trigger] x.ranking[p]).0@ == y.ranking[p].0@ && x.ranking[p].1 == y.ranking[p].1
    }
}

/// Results read only the stored state: two surveys with the same title, choices and
/// ballots give the same answer. A rejected ballot leaves that state as it was, so it
/// shows in no later results.
pub proof fn lemma_results_depend_on_state(s1: &Survey, s2: &Survey, a: Results, b: Results)
    requires
        s1.title@ == s2.title@,
        s1.choices@ == s2.choices@,
        s1.ballots@ == s2.ballots@,
        results_of(s1, a),
        results_of(s2, b),
    ensures
        same_results(a, b),
{
    let rounds = tally_spec(ballots_view(s1.ballots@), s1.choices.len() as nat);
    let fields = field_count(rounds, s1.choices.len() as nat);
    assert forall|i: int, j: int| 0 <= i < a.votes.len() && 0 <= j < a.votes[i].len() implies {
        let x = #[trigger] a.votes[i][j];
        let y = b.votes[i][j];
        &&& x.title@ == y.title@
        &&& x.ranking.len() == y.ranking.len()
        &&& forall|p: int| 0 <= p < x.ranking.len() ==> (#[trigger] x.ranking[p]).0@ == y.ranking[p].0@ && x.ranking[p].1 == y.ranking[p].1
    } by {
        assert(labels_entry(s1.choices@, rounds[i][j], fields, a.votes@[i][j]));
        assert(labels_entry(s2.choices@, rounds[i][j], fields, b.votes@[i][j]));
    }
}

/// Reading results is idempotent: two results requests on the same survey, with no ballot
/// stored between them, give the same answer.
pub proof fn lemma_results_idempotent(s: &Survey, a: Results, b: Results)
    requires
        results_of(s, a),
        results_of(s, b),
    ensures
        same_results(a, b),
{
    lemma_results_depend_on_state(s, s, a, b);
}

impl VoteTallyResult {
    /// The field names of rank positions 1 to `count`, in order.
    pub fn rank_fields(count: u32) -> (r: Vec<String>)
        ensures
            r.len() == count,
            forall|i: int| 0 <= i < count ==> #[trigger] r[i]@ == rank_field_spec((i + 1) as nat),
    {
        let mut r: Vec<String> = Vec::new();
        let mut i: u32 = 0;
        while i < count
            invariant
                i <= count,
                r.len() == i,
                forall|j: int| 0 <= j < i ==> #[trigger] r[j]@ == rank_field_spec((j + 1) as nat),
            decreases count - i,
        {
            r.push(rank_field(i + 1));
            i = i + 1;
        }
        r
    }

    /// The breakdown of option `option_name`, each count of `ranks` under the field name
    /// of its rank position.
    pub fn make_ranking(option_name: String, ranks: &Vec<usize>) -> (r: VoteTallyResult)
        requires
            ranks.len() <= u32::MAX,
        ensures
            r.title@ == option_name@,
            r.ranking.len() == ranks.len(),
            forall|p: int| 0 <= p < ranks.len() ==>
                (#[trigger] r.ranking[p]).0@ == rank_field_spec((p + 1) as nat) && r.ranking[p].1 == ranks[p],
    {
        let fields = Self::rank_fields(ranks.len() as u32);
        let mut ranking: Vec<(String, usize)> = Vec::new();
        let mut i: usize = 0;
        while i < ranks.len()
            invariant
                i <= ranks.len(),
                fields.len() == ranks.len(),
                forall|p: int| 0 <= p < ranks.len() ==> #[trigger] fields[p]@ == rank_field_spec((p + 1) as nat),
                ranking.len() == i,
                forall|p: int| 0 <= p < i ==>
                    (#[trigger] ranking[p]).0@ == rank_field_spec((p + 1) as nat) && ranking[p].1 == ranks[p],
            decreases ranks.len() - i,
        {
            let key = fields[i].clone();
            ranking.push((key, ranks[i]));
            i = i + 1;
        }
        VoteTallyResult { title: option_name, ranking }
    }
}

/// The first index of `choices` whose label is `label`.
fn find_label(choices: &Vec<String>, label: &String) -> (r: Option<u32>)
    requires
        choices.len() <= u32::MAX,
    ensures
        r matches Some(i) ==> first_match(choices@, label@, i as int),
        r is None ==> !has_label(choices@, label@),
{
    let mut i: usize = 0;
    while i < choices.len()
        invariant
            i <= choices.len(),
            choices.len() <= u32::MAX,
            forall|j: int| 0 <= j < i ==> choices@[j]@ != label@,
        decreases choices.len() - i,
    {
        if choices[i] == *label {
            return Some(i as u32);
        }
        i = i + 1;
    }
    assert(!has_label(choices@, label@));
    None
}

/// Resolves each label of `ranking` to the first index of `choices` that carries it; `None`
/// when some label is carried by no choice.
pub fn resolve_ballot(choices: &Vec<String>, ranking: &Vec<String>) -> (r: Option<Vec<u32>>)
    requires
        choices.len() <= u32::MAX,
    ensures
        r is Some <==> all_known(choices@, ranking@),
        r matches Some(b) ==> resolves_to(choices@, ranking@, b@),
{
    let mut b: Vec<u32> = Vec::new();
    let mut i: usize = 0;
    while i < ranking.len()
        invariant
            i <= ranking.len(),
            choices.len() <= u32::MAX,
            b.len() == i,
            forall|j: int| 0 <= j < i ==> first_match(choices@, #[trigger] ranking@[j]@, b@[j] as int),
        decreases ranking.len() - i,
    {
        match find_label(choices, &ranking[i]) {
            Some(x) => b.push(x),
            None => {
                assert(!all_known(choices@, ranking@));
                return None;
            },
        }
        i = i + 1;
    }
    assert forall|j: int| 0 <= j < ranking.len() implies has_label(choices@, #[trigger] ranking@[j]@) by {
        assert(choices@[b@[j] as int]@ == ranking@[j]@);
    }
    Some(b)
}

/// A copy of every label of `labels`.
fn copy_labels(labels: &Vec<String>) -> (r: Vec<String>)
    ensures
        r@ == labels@,
{
    let mut r: Vec<String> = Vec::new();
    let mut i: usize = 0;
    while i < labels.len()
        invariant
            i <= labels.len(),
            r@ == labels@.take(i as int),
        decreases labels.len() - i,
    {
        r.push(labels[i].clone());
        i = i + 1;
        assert(r@ =~= labels@.take(i as int));
    }
    assert(labels@.take(i as int) =~= labels@);
    r
}

/// The title of a survey made without one.
pub open spec fn default_title() -> Seq<char> {
    seq!['N', 'e', 'w', ' ', 'S', 'u', 'r', 'v', 'e', 'y']
}

/// The choices of a survey made without any: "A" to "E".
pub open spec fn default_choices() -> Seq<Seq<char>> {
    seq![seq!['A'], seq!['B'], seq!['C'], seq!['D'], seq!['E']]
}

/// How long, in nanoseconds, a survey made without a duration stays open: sixty seconds.
pub const DEFAULT_DURATION: u64 = 60_000_000_000;

impl Survey {
    /// The survey's invariants: its window is nonempty, every choice index fits a `u32`,
    /// and every ballot names only indices of its choices.
    pub open spec fn wf(&self) -> bool {
        &&& self.start < self.end
        &&& self.choices.len() <= u32::MAX
        &&& ballots_valid(self.ballots@, self.choices.len() as nat)
        &&& forall|k: int| 0 <= k < self.ballots.len() ==> #[trigger] self.ballots[k].len() <= u32::MAX
    }

    /// A survey with no ballots, open from `now` for `duration` nanoseconds.
    pub fn new(title: String, choices: Vec<String>, now: u64, duration: u64) -> (s: Survey)
        requires
            duration > 0,
            now + duration <= u64::MAX,
            choices.len() <= u32::MAX,
        ensures
            s.wf(),
            s.title@ == title@,
            s.choices@ == choices@,
            s.start == now,
            s.end == now + duration,
            s.ballots.len() == 0,
    {
        Survey { title, start: now, end: now + duration, choices, ballots: Vec::new() }
    }

    /// Checks a ballot received at time `now` and resolves its labels, without storing it.
    pub fn check_ballot(&self, now: u64, ranking: &Vec<String>) -> (r: Result<Vec<u32>, VoteError>)
        requires
            self.wf(),
        ensures
            now > self.end ==> r == Err::<Vec<u32>, VoteError>(VoteError::SurveyExpired),
            now <= self.end && !all_known(self.choices@, ranking@) ==> r == Err::<Vec<u32>, VoteError>(VoteError::InvalidBallot),
            now <= self.end && all_known(self.choices@, ranking@) ==> r is Ok,
            r matches Ok(b) ==> resolves_to(self.choices@, ranking@, b@),
    {
        if now > self.end {
            return Err(VoteError::SurveyExpired);
        }
        match resolve_ballot(&self.choices, ranking) {
            Some(b) => Ok(b),
            None => Err(VoteError::InvalidBallot),
        }
    }

    /// Appends a ballot that has already been checked against the survey's choices.
    pub fn store_ballot(&mut self, ballot: Vec<u32>)
        requires
            old(self).wf(),
            ballot.len() <= u32::MAX,
            forall|i: int| 0 <= i < ballot.len() ==> #[trigger] ballot[i] < old(self).choices.len(),
        ensures
            final(self).wf(),
            final(self).title == old(self).title,
            final(self).start == old(self).start,
            final(self).end == old(self).end,
            final(self).choices == old(self).choices,
            final(self).ballots@ == old(self).ballots@.push(ballot),
    {
        let ghost old_ballots = self.ballots@;
        let ghost b = ballot@;
        self.ballots.push(ballot);
        assert forall|k: int, i: int| 0 <= k < self.ballots.len() && 0 <= i < self.ballots[k].len()
            implies (#[trigger] self.ballots[k][i]) < self.choices.len() by {
            if k < old_ballots.len() {
                assert(self.ballots[k] == old_ballots[k]);
            } else {
                assert(self.ballots[k]@ == b);
            }
        }
    }

    /// Stores a ballot received at time `now`: rejected after the end time, and rejected
    /// whole when a label is carried by no choice; otherwise appended, each label as the
    /// first index that carries it.
    pub fn submit_ballot(&mut self, now: u64, ranking: &Vec<String>) -> (r: Result<(), VoteError>)
        requires
            old(self).wf(),
            ranking.len() <= u32::MAX,
        ensures
            final(self).wf(),
            final(self).title == old(self).title,
            final(self).start == old(self).start,
            final(self).end == old(self).end,
            final(self).choices == old(self).choices,
            now > old(self).end ==> r == Err::<(), VoteError>(VoteError::SurveyExpired),
            now <= old(self).end && !all_known(old(self).choices@, ranking@) ==> r == Err::<(), VoteError>(VoteError::InvalidBallot),
            now <= old(self).end && all_known(old(self).choices@, ranking@) ==> r is Ok,
            r is Err ==> final(self).ballots@ == old(self).ballots@,
            r is Ok ==> final(self).ballots.len() == old(self).ballots.len() + 1
                && final(self).ballots@.drop_last() == old(self).ballots@
                && resolves_to(old(self).choices@, ranking@, final(self).ballots@.last()@),
    {
        match self.check_ballot(now, ranking) {
            Ok(b) => {
                let ghost old_ballots = self.ballots@;
                proof {
                    assert forall|i: int| 0 <= i < b.len() implies #[trigger] b[i] < self.choices.len() by {
                        assert(first_match(self.choices@, ranking@[i]@, b@[i] as int));
                    }
                }
                self.store_ballot(b);
                assert(self.ballots@.drop_last() =~= old_ballots);
                Ok(())
            },
            Err(e) => Err(e),
        }
    }
}


impl Survey {
    /// The survey that a creation request makes at time `now`: titled "New Survey", with
    /// choices "A" to "E", open for sixty seconds.
    pub fn new_default(now: u64) -> (s: Survey)
        requires
            now + DEFAULT_DURATION <= u64::MAX,
        ensures
            s.wf(),
            s.title@ == default_title(),
            s.choices.len() == 5,
            forall|i: int| 0 <= i < 5 ==> #[trigger] s.choices[i]@ == default_choices()[i],
            s.start == now,
            s.end == now + DEFAULT_DURATION,
            s.ballots.len() == 0,
    {
        let mut choices: Vec<String> = Vec::new();
        choices.push("A".to_string());
        choices.push("B".to_string());
        choices.push("C".to_string());
        choices.push("D".to_string());
        choices.push("E".to_string());
        proof {
            reveal_strlit("A");
            reveal_strlit("B");
            reveal_strlit("C");
            reveal_strlit("D");
            reveal_strlit("E");
            reveal_strlit("New Survey");
        }
        let s = Survey::new("New Survey".to_string(), choices, now, DEFAULT_DURATION);
        assert(s.title@ =~= default_title());
        s
    }

    /// The tally of the ballots stored so far, with the survey's title and choices and the
    /// field names of its rank positions.
    pub fn results(&self) -> (r: Results)
        requires
            self.wf(),
        ensures
            results_of(self, r),
    {
        let n = self.choices.len();
        let rounds = tally(&self.ballots, n);
        let ghost spec_rounds = tally_spec(ballots_view(self.ballots@), n as nat);
        let ghost w = width(ballots_view(self.ballots@), n as nat);
        proof {
            assert forall|j: int| 0 <= j < self.ballots.len() implies #[trigger] ballots_view(self.ballots@)[j].len() <= u32::MAX by {
                assert(self.ballots[j].len() <= u32::MAX);
            }
            lemma_longest_bounded(ballots_view(self.ballots@), self.ballots.len() as nat, u32::MAX as nat);
            assert forall|a: int, b: int| 0 <= a < spec_rounds.len() && 0 <= b < spec_rounds[a].len()
                implies (#[trigger] spec_rounds[a][b]).1.len() <= w by {
                assert(spec_rounds[a][b] == rounds[a][b]@);
            }
            lemma_rounds_depth_bounded(spec_rounds, spec_rounds.len(), w);
        }
        assert(w <= u32::MAX);
        let d = depth_of_rounds(&rounds);
        let fields = if d > n { d } else { n };
        assert(fields as nat == field_count(spec_rounds, n as nat));
        assert(fields <= w);
        let mut votes: Vec<Vec<VoteTallyResult>> = Vec::new();
        let mut i: usize = 0;
        while i < rounds.len()
            invariant
                i <= rounds.len(),
                self.wf(),
                n == self.choices.len(),
                w <= u32::MAX,
                fields <= w,
                spec_rounds == tally_spec(ballots_view(self.ballots@), n as nat),
                rounds_view(rounds@) == spec_rounds,
                forall|a: int, b: int| 0 <= a < rounds.len() && 0 <= b < rounds[a].len() ==>
                    (#[trigger] rounds[a][b]).counts.len() == w && rounds[a][b].option < n,
                labels_rounds(self.choices@, spec_rounds.take(i as int), fields as nat, votes@),
            decreases rounds.len() - i,
        {
            let round = &rounds[i];
            let mut out: Vec<VoteTallyResult> = Vec::new();
            let mut j: usize = 0;
            assert(spec_rounds[i as int] == crate::tally::round_view(round@));
            while j < round.len()
                invariant
                    j <= round.len(),
                    self.wf(),
                    n == self.choices.len(),
                    w <= u32::MAX,
                    fields <= w,
                    forall|b: int| 0 <= b < round.len() ==>
                        (#[trigger] round[b]).counts.len() == w && round[b].option < n,
                    out.len() == j,
                    forall|b: int| 0 <= b < j ==> labels_entry(self.choices@, round[b]@, fields as nat, #[trigger] out[b]),
                decreases round.len() - j,
            {
                let entry: &OptionTally = &round[j];
                let mut counts = entry.counts.clone();
                assert(counts@ == entry.counts@);
                counts.truncate(fields);
                let v = VoteTallyResult::make_ranking(self.choices[entry.option].clone(), &counts);
                out.push(v);
                j = j + 1;
            }
            let ghost votes0 = votes@;
            votes.push(out);
            assert(spec_rounds.take(i + 1) =~= spec_rounds.take(i as int).push(spec_rounds[i as int]));
            assert(labels_rounds(self.choices@, spec_rounds.take(i + 1), fields as nat, votes@)) by {
                assert forall|a: int, b: int| 0 <= a < votes.len() && 0 <= b < votes@[a].len()
                    implies labels_entry(self.choices@, spec_rounds.take(i + 1)[a][b], fields as nat, #[trigger] votes@[a][b]) by {
                    if a < i {
                        assert(votes@[a] == votes0[a]);
                    } else {
                        assert(spec_rounds[i as int][b] == round[b]@);
                    }
                }
            }
            i = i + 1;
        }
        assert(spec_rounds.take(i as int) =~= spec_rounds);
        Results {
            title: self.title.clone(),
            choices: copy_labels(&self.choices),
            votes,
            rank_fields: VoteTallyResult::rank_fields(fields as u32),
        }
    }
}

} // verus!
