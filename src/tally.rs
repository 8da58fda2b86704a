use vstd::prelude::*;

verus! {

/// The breakdown of one option in one round: how many ballots name it at each
/// rank position as their first remaining choice.
pub struct OptionTally {
    /// index of the option in the choice set
    pub option: usize,
    /// `counts[p]` ballots have this option as first remaining choice at position `p`
    pub counts: Vec<usize>,
}

/// Counts as mathematical integers.
pub open spec fn counts_view(v: Seq<usize>) -> Seq<nat> {
    Seq::new(v.len(), |i: int| v[i] as nat)
}

impl View for OptionTally {
    type V = (nat, Seq<nat>);

    open spec fn view(&self) -> (nat, Seq<nat>) {
        (self.option as nat, counts_view(self.counts@))
    }
}

/// The view of one emitted round.
pub open spec fn round_view(r: Seq<OptionTally>) -> Seq<(nat, Seq<nat>)> {
    Seq::new(r.len(), |j: int| r[j]@)
}

/// The view of a sequence of emitted rounds.
pub open spec fn rounds_view(v: Seq<Vec<OptionTally>>) -> Seq<Seq<(nat, Seq<nat>)>> {
    Seq::new(v.len(), |i: int| round_view(v[i]@))
}

/// The first position at or after `i` whose option has not been eliminated.
pub open spec fn first_alive(b: Seq<u32>, elim: Seq<usize>, i: nat) -> Option<nat>
    decreases b.len() - i,
{
    if i >= b.len() {
        None
    } else if !elim.contains(b[i as int] as usize) {
        Some(i)
    } else {
        first_alive(b, elim, i + 1)
    }
}

/// Ballot `b` counts for option `o` at position `p`: its first remaining choice is
/// at position `p` and names `o`.
pub open spec fn counts_for(b: Seq<u32>, elim: Seq<usize>, o: nat, p: nat) -> bool {
    first_alive(b, elim, 0) == Some(p) && b[p as int] == o
}

/// How many of the first `k` ballots count for option `o` at position `p`.
pub open spec fn count_upto(ballots: Seq<Seq<u32>>, elim: Seq<usize>, k: nat, o: nat, p: nat) -> nat
    decreases k,
{
    if k == 0 {
        0
    } else {
        count_upto(ballots, elim, (k - 1) as nat, o, p) + if counts_for(ballots[k - 1], elim, o, p) {
            1nat
        } else {
            0nat
        }
    }
}

/// How many ballots count for option `o` at position `p`.
pub open spec fn count_at(ballots: Seq<Seq<u32>>, elim: Seq<usize>, o: nat, p: nat) -> nat {
    count_upto(ballots, elim, ballots.len(), o, p)
}

/// The per-position counts of option `o`, over positions `0..w`.
pub open spec fn tally_row(ballots: Seq<Seq<u32>>, elim: Seq<usize>, w: nat, o: nat) -> Seq<nat> {
    Seq::new(w, |p: int| count_at(ballots, elim, o, p as nat))
}

/// Some ballot counts for option `o` at some position below `w`.
pub open spec fn has_votes(ballots: Seq<Seq<u32>>, elim: Seq<usize>, w: nat, o: nat) -> bool {
    exists|p: nat| p < w && #[trigger] count_at(ballots, elim, o, p) > 0
}

/// The breakdowns of the options below `k` that have votes, in index order.
pub open spec fn round_upto(ballots: Seq<Seq<u32>>, elim: Seq<usize>, w: nat, k: nat) -> Seq<(nat, Seq<nat>)>
    decreases k,
{
    if k == 0 {
        Seq::empty()
    } else if has_votes(ballots, elim, w, (k - 1) as nat) {
        round_upto(ballots, elim, w, (k - 1) as nat).push(((k - 1) as nat, tally_row(ballots, elim, w, (k - 1) as nat)))
    } else {
        round_upto(ballots, elim, w, (k - 1) as nat)
    }
}

/// `a` comes strictly before `b` in lexicographic order.
pub open spec fn lex_lt(a: Seq<nat>, b: Seq<nat>) -> bool {
    exists|i: int| 0 <= i < a.len() && i < b.len() && #[trigger] a[i] < b[i]
        && forall|j: int| 0 <= j < i ==> a[j] == b[j]
}

/// The entry of `r` among the first `k` with the lexicographically smallest counts;
/// of equal ones the earliest.
pub open spec fn first_min(r: Seq<(nat, Seq<nat>)>, k: int) -> int
    decreases k,
{
    if k <= 1 {
        0
    } else {
        let m = first_min(r, k - 1);
        if lex_lt(r[k - 1].1, r[m].1) { k - 1 } else { m }
    }
}

/// The option that the round `r` eliminates.
pub open spec fn eliminated_by(r: Seq<(nat, Seq<nat>)>) -> nat {
    r[first_min(r, r.len() as int)].0
}

/// The rounds that follow once the options of `elim` are eliminated, for a choice set of
/// `n` options and rank positions `0..w`. A round with at most two options with votes is
/// the last; so is one after which at most two options would be left.
pub open spec fn rounds_from(ballots: Seq<Seq<u32>>, n: nat, w: nat, elim: Seq<usize>) -> Seq<Seq<(nat, Seq<nat>)>>
    decreases n - elim.len(),
{
    let r = round_upto(ballots, elim, w, n);
    if r.len() <= 2 || n - elim.len() <= 2 {
        seq![r]
    } else {
        seq![r] + rounds_from(ballots, n, w, elim.push(eliminated_by(r) as usize))
    }
}

/// The length of the longest of the first `k` ballots.
pub open spec fn longest_upto(ballots: Seq<Seq<u32>>, k: nat) -> nat
    decreases k,
{
    if k == 0 {
        0
    } else {
        let l = longest_upto(ballots, (k - 1) as nat);
        if ballots[k - 1].len() > l { ballots[k - 1].len() } else { l }
    }
}

/// The number of rank positions tallied: the number of options, or the length of the
/// longest ballot if that is more.
pub open spec fn width(ballots: Seq<Seq<u32>>, n: nat) -> nat {
    let l = longest_upto(ballots, ballots.len());
    if l > n { l } else { n }
}

/// The instant-runoff rounds of `ballots` over a choice set of `n` options.
pub open spec fn tally_spec(ballots: Seq<Seq<u32>>, n: nat) -> Seq<Seq<(nat, Seq<nat>)>> {
    rounds_from(ballots, n, width(ballots, n), Seq::empty())
}

/// Every option named by a ballot is an index of the choice set.
pub open spec fn ballots_valid(ballots: Seq<Vec<u32>>, n: nat) -> bool {
    forall|k: int, i: int| 0 <= k < ballots.len() && 0 <= i < ballots[k].len() ==> (#[trigger] ballots[k][i]) < n
}

/// The plain sequences held by a list of ballots.
pub open spec fn ballots_view(ballots: Seq<Vec<u32>>) -> Seq<Seq<u32>> {
    Seq::new(ballots.len(), |k: int| ballots[k]@)
}

fn is_eliminated(elim: &Vec<usize>, x: usize) -> (r: bool)
    ensures
        r == elim@.contains(x),
{
    let mut i: usize = 0;
    while i < elim.len()
        invariant
            i <= elim.len(),
            forall|j: int| 0 <= j < i ==> elim@[j] != x,
        decreases elim.len() - i,
    {
        if elim[i] == x {
            return true;
        }
        i = i + 1;
    }
    false
}

/// The first position of `b` whose option has not been eliminated.
fn first_alive_pos(b: &Vec<u32>, elim: &Vec<usize>) -> (r: Option<usize>)
    ensures
        r matches Some(p) ==> first_alive(b@, elim@, 0) == Some(p as nat) && p < b.len(),
        r is None ==> first_alive(b@, elim@, 0) is None,
{
    let mut i: usize = 0;
    while i < b.len()
        invariant
            i <= b.len(),
            first_alive(b@, elim@, 0) == first_alive(b@, elim@, i as nat),
        decreases b.len() - i,
    {
        if !is_eliminated(elim, b[i] as usize) {
            return Some(i);
        }
        i = i + 1;
    }
    None
}


fn zero_row(w: usize) -> (r: Vec<usize>)
    ensures
        r.len() == w,
        forall|p: int| 0 <= p < w ==> r@[p] == 0,
{
    let mut r: Vec<usize> = Vec::new();
    while r.len() < w
        invariant
            r.len() <= w,
            forall|p: int| 0 <= p < r.len() ==> r@[p] == 0,
        decreases w - r.len(),
    {
        r.push(0);
    }
    r
}

/// The count matrix of one round: `t[o][p]` ballots have option `o` as first remaining
/// choice at position `p`.
fn tally_matrix(ballots: &Vec<Vec<u32>>, n: usize, w: usize, elim: &Vec<usize>) -> (t: Vec<Vec<usize>>)
    requires
        ballots_valid(ballots@, n as nat),
        forall|k: int| 0 <= k < ballots.len() ==> #[trigger] ballots[k].len() <= w,
    ensures
        t.len() == n,
        forall|o: int| 0 <= o < n ==> (#[trigger] t[o]).len() == w,
        forall|o: int, p: int| 0 <= o < n && 0 <= p < w
            ==> #[trigger] t[o]@[p] == count_at(ballots_view(ballots@), elim@, o as nat, p as nat),
{
    let ghost bv = ballots_view(ballots@);
    let mut t: Vec<Vec<usize>> = Vec::new();
    while t.len() < n
        invariant
            t.len() <= n,
            forall|o: int| 0 <= o < t.len() ==> (#[trigger] t[o]).len() == w,
            forall|o: int, p: int| 0 <= o < t.len() && 0 <= p < w ==> #[trigger] t[o]@[p] == 0,
        decreases n - t.len(),
    {
        t.push(zero_row(w));
    }
    let mut k: usize = 0;
    while k < ballots.len()
        invariant
            bv == ballots_view(ballots@),
            ballots_valid(ballots@, n as nat),
            forall|j: int| 0 <= j < ballots.len() ==> #[trigger] ballots[j].len() <= w,
            k <= ballots.len(),
            t.len() == n,
            forall|o: int| 0 <= o < n ==> (#[trigger] t[o]).len() == w,
            forall|o: int, p: int| 0 <= o < n && 0 <= p < w
                ==> #[trigger] t[o]@[p] == count_upto(bv, elim@, k as nat, o as nat, p as nat),
            forall|o: int, p: int| 0 <= o < n && 0 <= p < w ==> #[trigger] t[o]@[p] <= k,
        decreases ballots.len() - k,
    {
        let b = &ballots[k];
        assert(bv[k as int] == b@);
        let pos = first_alive_pos(b, elim);
        let ghost t0 = t@;
        match pos {
            Some(p) => {
                let o = b[p] as usize;
                assert(ballots[k as int][p as int] < n);
                let mut row = t[o].clone();
                assert(row@ == t0[o as int]@);
                let c = row[p];
                row.set(p, c + 1);
                t.set(o, row);
                assert forall|o2: int, p2: int| 0 <= o2 < n && 0 <= p2 < w implies
                    #[trigger] t[o2]@[p2] == count_upto(bv, elim@, (k + 1) as nat, o2 as nat, p2 as nat) by {
                    assert(counts_for(bv[k as int], elim@, o2 as nat, p2 as nat) <==> (o2 == o && p2 == p));
                }
            },
            None => {
                assert forall|o2: int, p2: int| 0 <= o2 < n && 0 <= p2 < w implies
                    #[trigger] t[o2]@[p2] == count_upto(bv, elim@, (k + 1) as nat, o2 as nat, p2 as nat) by {
                    assert(!counts_for(bv[k as int], elim@, o2 as nat, p2 as nat));
                }
            },
        }
        k = k + 1;
    }
    t
}

fn row_has_votes(row: &Vec<usize>) -> (r: bool)
    ensures
        r <==> exists|p: int| 0 <= p < row.len() && #[trigger] row@[p] > 0,
{
    let mut i: usize = 0;
    while i < row.len()
        invariant
            i <= row.len(),
            forall|p: int| 0 <= p < i ==> row@[p] == 0,
        decreases row.len() - i,
    {
        if row[i] > 0 {
            return true;
        }
        i = i + 1;
    }
    false
}

/// One round: the breakdown of every option with votes, in index order.
fn build_round(t: &Vec<Vec<usize>>, n: usize, w: usize, Ghost(bv): Ghost<Seq<Seq<u32>>>, Ghost(elim): Ghost<Seq<usize>>)
    -> (r: Vec<OptionTally>)
    requires
        t.len() == n,
        forall|o: int| 0 <= o < n ==> (#[trigger] t[o]).len() == w,
        forall|o: int, p: int| 0 <= o < n && 0 <= p < w ==> #[trigger] t[o]@[p] == count_at(bv, elim, o as nat, p as nat),
    ensures
        round_view(r@) == round_upto(bv, elim, w as nat, n as nat),
        forall|j: int| 0 <= j < r.len() ==> (#[trigger] r[j]).counts.len() == w && r[j].option < n,
{
    let mut r: Vec<OptionTally> = Vec::new();
    let mut o: usize = 0;
    while o < n
        invariant
            o <= n,
            t.len() == n,
            forall|o2: int| 0 <= o2 < n ==> (#[trigger] t[o2]).len() == w,
            forall|o2: int, p: int| 0 <= o2 < n && 0 <= p < w ==> #[trigger] t[o2]@[p] == count_at(bv, elim, o2 as nat, p as nat),
            round_view(r@) == round_upto(bv, elim, w as nat, o as nat),
            forall|j: int| 0 <= j < r.len() ==> (#[trigger] r[j]).counts.len() == w && r[j].option < n,
        decreases n - o,
    {
        let has = row_has_votes(&t[o]);
        assert(has == has_votes(bv, elim, w as nat, o as nat)) by {
            if has {
                let p = choose|p: int| 0 <= p < t[o as int].len() && #[trigger] t[o as int]@[p] > 0;
                assert(count_at(bv, elim, o as nat, p as nat) > 0);
            }
            if has_votes(bv, elim, w as nat, o as nat) {
                let p = choose|p: nat| p < w && #[trigger] count_at(bv, elim, o as nat, p) > 0;
                assert(t[o as int]@[p as int] > 0);
            }
        }
        if has {
            let counts = t[o].clone();
            let entry = OptionTally { option: o, counts };
            assert(counts_view(entry.counts@) =~= tally_row(bv, elim, w as nat, o as nat));
            r.push(entry);
            assert(round_view(r@) =~= round_upto(bv, elim, w as nat, (o + 1) as nat));
        }
        o = o + 1;
    }
    r
}

/// Lexicographic order on two count vectors.
fn lex_less(a: &Vec<usize>, b: &Vec<usize>) -> (r: bool)
    ensures
        r == lex_lt(counts_view(a@), counts_view(b@)),
{
    let ghost av = counts_view(a@);
    let ghost bw = counts_view(b@);
    let mut i: usize = 0;
    while i < a.len() && i < b.len()
        invariant
            i <= a.len(),
            i <= b.len(),
            av == counts_view(a@),
            bw == counts_view(b@),
            forall|j: int| 0 <= j < i ==> av[j] == bw[j],
        decreases a.len() - i,
    {
        if a[i] < b[i] {
            assert(av[i as int] < bw[i as int]);
            return true;
        }
        if a[i] > b[i] {
            assert(!lex_lt(av, bw)) by {
                if lex_lt(av, bw) {
                    let x = choose|x: int| 0 <= x < av.len() && x < bw.len() && #[trigger] av[x] < bw[x]
                        && forall|j: int| 0 <= j < x ==> av[j] == bw[j];
                    if x > i {
                        assert(av[i as int] == bw[i as int]);
                    }
                }
            }
            return false;
        }
        assert(av[i as int] == bw[i as int]);
        i = i + 1;
    }
    false
}

/// The index of the entry of `r` with the lexicographically smallest counts, the
/// earliest of equal ones.
fn find_first_min(r: &Vec<OptionTally>) -> (m: usize)
    requires
        r.len() >= 1,
    ensures
        m == first_min(round_view(r@), r.len() as int),
        m < r.len(),
{
    let ghost rv = round_view(r@);
    let mut m: usize = 0;
    let mut k: usize = 1;
    while k < r.len()
        invariant
            1 <= k <= r.len(),
            rv == round_view(r@),
            m < k,
            m == first_min(rv, k as int),
        decreases r.len() - k,
    {
        if lex_less(&r[k].counts, &r[m].counts) {
            m = k;
        }
        k = k + 1;
    }
    m
}

/// No ballot among the first `k` is longer than `bound`, so neither is the longest.
pub proof fn lemma_longest_bounded(ballots: Seq<Seq<u32>>, k: nat, bound: nat)
    requires
        k <= ballots.len(),
        forall|j: int| 0 <= j < k ==> #[trigger] ballots[j].len() <= bound,
    ensures
        longest_upto(ballots, k) <= bound,
    decreases k,
{
    if k > 0 {
        lemma_longest_bounded(ballots, (k - 1) as nat, bound);
    }
}

/// The length of the longest ballot.
fn longest(ballots: &Vec<Vec<u32>>) -> (l: usize)
    ensures
        l == longest_upto(ballots_view(ballots@), ballots.len() as nat),
        forall|k: int| 0 <= k < ballots.len() ==> #[trigger] ballots[k].len() <= l,
{
    let ghost bv = ballots_view(ballots@);
    let mut l: usize = 0;
    let mut k: usize = 0;
    while k < ballots.len()
        invariant
            k <= ballots.len(),
            bv == ballots_view(ballots@),
            l == longest_upto(bv, k as nat),
            forall|j: int| 0 <= j < k ==> #[trigger] ballots[j].len() <= l,
        decreases ballots.len() - k,
    {
        assert(bv[k as int].len() == ballots[k as int].len());
        if ballots[k].len() > l {
            l = ballots[k].len();
        }
        k = k + 1;
    }
    l
}

/// The instant-runoff rounds of `ballots` over a choice set of `n` options.
///
/// Each round holds, in index order, the options that some ballot names as its first
/// choice not yet eliminated, with how many ballots do so at each rank position. After a
/// round with at most two such options the tally ends; otherwise the option with the
/// lexicographically smallest counts, the lowest index among equal ones, is eliminated.
pub fn tally(ballots: &Vec<Vec<u32>>, n: usize) -> (rounds: Vec<Vec<OptionTally>>)
    requires
        ballots_valid(ballots@, n as nat),
    ensures
        rounds_view(rounds@) == tally_spec(ballots_view(ballots@), n as nat),
        forall|i: int, j: int| 0 <= i < rounds.len() && 0 <= j < rounds[i].len() ==>
            (#[trigger] rounds[i][j]).counts.len() == width(ballots_view(ballots@), n as nat) && rounds[i][j].option < n,
{
    let ghost bv = ballots_view(ballots@);
    let l = longest(ballots);
    let w = if l > n { l } else { n };
    let mut out: Vec<Vec<OptionTally>> = Vec::new();
    let mut elim: Vec<usize> = Vec::new();
    assert(rounds_view(out@) + rounds_from(bv, n as nat, w as nat, elim@) =~= tally_spec(bv, n as nat));
    loop
        invariant_except_break
            rounds_view(out@) + rounds_from(bv, n as nat, w as nat, elim@) == tally_spec(bv, n as nat),
        invariant
            bv == ballots_view(ballots@),
            w as nat == width(bv, n as nat),
            ballots_valid(ballots@, n as nat),
            forall|k: int| 0 <= k < ballots.len() ==> #[trigger] ballots[k].len() <= w,
            elim.len() <= n,
            forall|i: int, j: int| 0 <= i < out.len() && 0 <= j < out[i].len() ==>
                (#[trigger] out[i][j]).counts.len() == w && out[i][j].option < n,
        ensures
            rounds_view(out@) == tally_spec(bv, n as nat),
            forall|i: int, j: int| 0 <= i < out.len() && 0 <= j < out[i].len() ==>
                (#[trigger] out[i][j]).counts.len() == w && out[i][j].option < n,
        decreases n - elim.len(),
    {
        let t = tally_matrix(ballots, n, w, &elim);
        let r = build_round(&t, n, w, Ghost(bv), Ghost(elim@));
        let ghost rv = round_view(r@);
        let ghost out0 = out@;
        if r.len() <= 2 || n - elim.len() <= 2 {
            out.push(r);
            assert(rounds_view(out@) =~= rounds_view(out0) + seq![rv]);
            break;
        }
        let m = find_first_min(&r);
        let e = r[m].option;
        assert(e as nat == eliminated_by(rv));
        out.push(r);
        assert(rounds_view(out@) =~= rounds_view(out0).push(rv));
        let ghost elim0 = elim@;
        elim.push(e);
        assert(rounds_from(bv, n as nat, w as nat, elim0) == seq![rv] + rounds_from(bv, n as nat, w as nat, elim@));
        assert(rounds_view(out0) + rounds_from(bv, n as nat, w as nat, elim0) =~= rounds_view(out@) + rounds_from(bv, n as nat, w as nat, elim@));
    }
    out
}


/// At most `max(1, n - 1 - |elim|)` rounds follow once the options of `elim` are out.
proof fn lemma_rounds_from_bound(ballots: Seq<Seq<u32>>, n: nat, w: nat, elim: Seq<usize>)
    requires
        elim.len() <= n,
    ensures
        rounds_from(ballots, n, w, elim).len() <= if n >= elim.len() + 2 { n - 1 - elim.len() } else { 1 },
        rounds_from(ballots, n, w, elim).len() >= 1,
    decreases n - elim.len(),
{
    let r = round_upto(ballots, elim, w, n);
    if !(r.len() <= 2 || elim.len() + 2 >= n) {
        lemma_rounds_from_bound(ballots, n, w, elim.push(eliminated_by(r) as usize));
    }
}

/// The tally of a choice set of `n` options emits at least one round and at most
/// `max(1, n - 1)`, whatever the ballots (none at all included).
pub proof fn lemma_round_count_bound(ballots: Seq<Seq<u32>>, n: nat)
    ensures
        1 <= tally_spec(ballots, n).len() <= if n >= 2 { n - 1 } else { 1 },
{
    lemma_rounds_from_bound(ballots, n, width(ballots, n), Seq::empty());
}

/// Lexicographic order is transitive.
proof fn lemma_lex_trans(a: Seq<nat>, b: Seq<nat>, c: Seq<nat>)
    requires
        lex_lt(a, b),
        lex_lt(b, c),
    ensures
        lex_lt(a, c),
{
    let x = choose|x: int| 0 <= x < a.len() && x < b.len() && #[trigger] a[x] < b[x]
        && forall|j: int| 0 <= j < x ==> a[j] == b[j];
    let y = choose|y: int| 0 <= y < b.len() && y < c.len() && #[trigger] b[y] < c[y]
        && forall|j: int| 0 <= j < y ==> b[j] == c[j];
    let d = if x < y { x } else { y };
    assert(0 <= d < a.len() && d < c.len() && a[d] < c[d] && forall|j: int| 0 <= j < d ==> a[j] == c[j]);
}

/// The entry chosen among the first `k` comes lexicographically no later than any of them.
proof fn lemma_first_min_minimal(r: Seq<(nat, Seq<nat>)>, k: int)
    requires
        1 <= k <= r.len(),
    ensures
        0 <= first_min(r, k) < k,
        forall|i: int| 0 <= i < k ==> !lex_lt(#[trigger] r[i].1, r[first_min(r, k)].1),
    decreases k,
{
    if k > 1 {
        lemma_first_min_minimal(r, k - 1);
        let m = first_min(r, k - 1);
        if lex_lt(r[k - 1].1, r[m].1) {
            assert forall|i: int| 0 <= i < k implies !lex_lt(#[trigger] r[i].1, r[k - 1].1) by {
                if i < k - 1 && lex_lt(r[i].1, r[k - 1].1) {
                    lemma_lex_trans(r[i].1, r[k - 1].1, r[m].1);
                }
            }
        }
    }
}

/// The option that a round eliminates has counts lexicographically no greater than those
/// of any option in the round; in particular its first-position count is no greater than
/// any other's, so an option with the largest first-position count is never eliminated
/// while some option has strictly fewer.
pub proof fn lemma_eliminated_is_smallest(r: Seq<(nat, Seq<nat>)>)
    requires
        r.len() >= 1,
        forall|i: int| 0 <= i < r.len() ==> (#[trigger] r[i].1).len() >= 1,
    ensures
        forall|i: int| 0 <= i < r.len() ==> !lex_lt(#[trigger] r[i].1, r[first_min(r, r.len() as int)].1),
        forall|i: int| 0 <= i < r.len() ==> r[first_min(r, r.len() as int)].1[0] <= #[trigger] r[i].1[0],
{
    let m = first_min(r, r.len() as int);
    lemma_first_min_minimal(r, r.len() as int);
    assert forall|i: int| 0 <= i < r.len() implies r[m].1[0] <= #[trigger] r[i].1[0] by {
        if r[i].1[0] < r[m].1[0] {
            assert(lex_lt(r[i].1, r[m].1));
        }
    }
}


/// How many of the options below `k` are in `elim`.
pub open spec fn elim_count_below(elim: Seq<usize>, k: nat) -> nat
    decreases k,
{
    if k == 0 {
        0
    } else {
        elim_count_below(elim, (k - 1) as nat) + if elim.contains((k - 1) as usize) { 1nat } else { 0nat }
    }
}

proof fn lemma_first_alive_is_alive(b: Seq<u32>, elim: Seq<usize>, i: nat)
    ensures
        first_alive(b, elim, i) matches Some(p) ==> p < b.len() && !elim.contains(b[p as int] as usize),
    decreases b.len() - i,
{
    if i < b.len() && elim.contains(b[i as int] as usize) {
        lemma_first_alive_is_alive(b, elim, i + 1);
    }
}

proof fn lemma_counted_option_alive(ballots: Seq<Seq<u32>>, elim: Seq<usize>, k: nat, o: nat, p: nat)
    requires
        k <= ballots.len(),
        o <= usize::MAX,
        count_upto(ballots, elim, k, o, p) > 0,
    ensures
        !elim.contains(o as usize),
    decreases k,
{
    if counts_for(ballots[k - 1], elim, o, p) {
        lemma_first_alive_is_alive(ballots[k - 1], elim, 0);
    } else {
        lemma_counted_option_alive(ballots, elim, (k - 1) as nat, o, p);
    }
}

proof fn lemma_round_entries(ballots: Seq<Seq<u32>>, elim: Seq<usize>, w: nat, k: nat)
    requires
        k <= usize::MAX + 1,
    ensures
        round_upto(ballots, elim, w, k).len() + elim_count_below(elim, k) <= k,
        forall|i: int| 0 <= i < round_upto(ballots, elim, w, k).len() ==>
            (#[trigger] round_upto(ballots, elim, w, k)[i]).0 < k
            && !elim.contains(round_upto(ballots, elim, w, k)[i].0 as usize),
    decreases k,
{
    if k > 0 {
        let o = (k - 1) as nat;
        lemma_round_entries(ballots, elim, w, o);
        if has_votes(ballots, elim, w, o) {
            let p = choose|p: nat| p < w && #[trigger] count_at(ballots, elim, o, p) > 0;
            lemma_counted_option_alive(ballots, elim, ballots.len(), o, p);
        }
    }
}

proof fn lemma_count_below_push(elim: Seq<usize>, x: usize, k: nat)
    requires
        !elim.contains(x),
        k <= usize::MAX + 1,
    ensures
        elim_count_below(elim.push(x), k) == elim_count_below(elim, k) + if x < k { 1nat } else { 0nat },
    decreases k,
{
    if k > 0 {
        lemma_count_below_push(elim, x, (k - 1) as nat);
        assert forall|j: usize| elim.push(x).contains(j) <==> (elim.contains(j) || j == x) by {
            if elim.push(x).contains(j) {
                let i = choose|i: int| 0 <= i < elim.push(x).len() && elim.push(x)[i] == j;
                if i < elim.len() {
                    assert(elim[i] == j);
                }
            }
            if elim.contains(j) {
                let i = choose|i: int| 0 <= i < elim.len() && elim[i] == j;
                assert(elim.push(x)[i] == j);
            }
            if j == x {
                assert(elim.push(x)[elim.len() as int] == j);
            }
        }
        let j = (k - 1) as usize;
        assert(elim.push(x).contains(j) <==> (elim.contains(j) || j == x));
        assert((j == x) <==> (x as nat == (k - 1) as nat));
    }
}

proof fn lemma_count_below_all(elim: Seq<usize>, n: nat)
    requires
        n <= usize::MAX,
        elim.no_duplicates(),
        forall|i: int| 0 <= i < elim.len() ==> #[trigger] elim[i] < n,
    ensures
        elim_count_below(elim, n) == elim.len(),
    decreases elim.len(),
{
    if elim.len() == 0 {
        lemma_count_below_empty(elim, n);
    } else {
        let e = elim.drop_last();
        let x = elim.last();
        assert(e.push(x) =~= elim);
        assert(!e.contains(x)) by {
            if e.contains(x) {
                let i = choose|i: int| 0 <= i < e.len() && e[i] == x;
                assert(elim[i] == elim[elim.len() - 1]);
            }
        }
        assert forall|i: int| 0 <= i < e.len() implies #[trigger] e[i] < n by {
            assert(e[i] == elim[i]);
        }
        lemma_count_below_all(e, n);
        lemma_count_below_push(e, x, n);
    }
}

proof fn lemma_count_below_empty(elim: Seq<usize>, k: nat)
    requires
        elim.len() == 0,
    ensures
        elim_count_below(elim, k) == 0,
    decreases k,
{
    if k > 0 {
        lemma_count_below_empty(elim, (k - 1) as nat);
    }
}

/// The stopping rule of `rounds_from` reads only the number of options with votes: once
/// the eliminated options are distinct indices of the choice set, a round with three or
/// more options with votes leaves at least three options uneliminated. The option that
/// such a round eliminates is again an index of the choice set not yet eliminated, so the
/// chain of eliminations from none keeps that shape.
pub proof fn lemma_stop_rule(ballots: Seq<Seq<u32>>, n: nat, w: nat, elim: Seq<usize>)
    requires
        n <= usize::MAX,
        elim.no_duplicates(),
        forall|i: int| 0 <= i < elim.len() ==> #[trigger] elim[i] < n,
    ensures
        ({
            let r = round_upto(ballots, elim, w, n);
            &&& r.len() + elim.len() <= n
            &&& (r.len() <= 2 || elim.len() + 2 >= n) == (r.len() <= 2)
            &&& r.len() >= 1 ==> eliminated_by(r) < n && !elim.contains(eliminated_by(r) as usize)
        }),
{
    let r = round_upto(ballots, elim, w, n);
    lemma_round_entries(ballots, elim, w, n);
    lemma_count_below_all(elim, n);
    if r.len() >= 1 {
        lemma_first_min_minimal(r, r.len() as int);
        assert(r[first_min(r, r.len() as int)].0 < n);
    }
}


/// One past the last position of `c` that holds a nonzero count; zero when there is none.
pub open spec fn depth(c: Seq<nat>) -> nat
    decreases c.len(),
{
    if c.len() == 0 {
        0
    } else if c.last() > 0 {
        c.len()
    } else {
        depth(c.drop_last())
    }
}

/// The largest depth among the first `k` entries of a round.
pub open spec fn round_depth(r: Seq<(nat, Seq<nat>)>, k: nat) -> nat
    decreases k,
{
    if k == 0 {
        0
    } else {
        let d = round_depth(r, (k - 1) as nat);
        let e = depth(r[k - 1].1);
        if e > d { e } else { d }
    }
}

/// The largest depth among the entries of the first `k` rounds.
pub open spec fn rounds_depth(rs: Seq<Seq<(nat, Seq<nat>)>>, k: nat) -> nat
    decreases k,
{
    if k == 0 {
        0
    } else {
        let d = rounds_depth(rs, (k - 1) as nat);
        let e = round_depth(rs[k - 1], rs[k - 1].len());
        if e > d { e } else { d }
    }
}

/// How many rank positions an answer names for `rounds` over `n` options: one per option,
/// or more where a count sits at a later position.
pub open spec fn field_count(rounds: Seq<Seq<(nat, Seq<nat>)>>, n: nat) -> nat {
    let d = rounds_depth(rounds, rounds.len());
    if d > n { d } else { n }
}

proof fn lemma_depth(c: Seq<nat>)
    ensures
        depth(c) <= c.len(),
        forall|p: int| depth(c) <= p < c.len() ==> #[trigger] c[p] == 0,
    decreases c.len(),
{
    if c.len() > 0 && c.last() == 0 {
        lemma_depth(c.drop_last());
        assert forall|p: int| depth(c) <= p < c.len() implies #[trigger] c[p] == 0 by {
            if p < c.len() - 1 {
                assert(c.drop_last()[p] == c[p]);
            }
        }
    }
}

proof fn lemma_round_depth(r: Seq<(nat, Seq<nat>)>, k: nat)
    requires
        k <= r.len(),
    ensures
        forall|j: int| 0 <= j < k ==> depth(#[trigger] r[j].1) <= round_depth(r, k),
    decreases k,
{
    if k > 0 {
        lemma_round_depth(r, (k - 1) as nat);
    }
}

proof fn lemma_rounds_depth(rs: Seq<Seq<(nat, Seq<nat>)>>, k: nat)
    requires
        k <= rs.len(),
    ensures
        forall|i: int, j: int| 0 <= i < k && 0 <= j < rs[i].len() ==> depth(#[trigger] rs[i][j].1) <= rounds_depth(rs, k),
    decreases k,
{
    if k > 0 {
        lemma_rounds_depth(rs, (k - 1) as nat);
        lemma_round_depth(rs[k - 1], rs[k - 1].len());
    }
}

/// Naming only `field_count` positions drops nothing: every count at a later position
/// is zero.
pub proof fn lemma_dropped_fields_are_zero(rounds: Seq<Seq<(nat, Seq<nat>)>>, n: nat)
    ensures
        forall|i: int, j: int, p: int| 0 <= i < rounds.len() && 0 <= j < rounds[i].len()
            && field_count(rounds, n) <= p < rounds[i][j].1.len() ==> #[trigger] rounds[i][j].1[p] == 0,
{
    lemma_rounds_depth(rounds, rounds.len());
    assert forall|i: int, j: int, p: int| 0 <= i < rounds.len() && 0 <= j < rounds[i].len()
        && field_count(rounds, n) <= p < rounds[i][j].1.len() implies #[trigger] rounds[i][j].1[p] == 0 by {
        lemma_depth(rounds[i][j].1);
    }
}

proof fn lemma_round_upto_widths(ballots: Seq<Seq<u32>>, elim: Seq<usize>, w: nat, k: nat)
    ensures
        forall|j: int| 0 <= j < round_upto(ballots, elim, w, k).len() ==> (#[trigger] round_upto(ballots, elim, w, k)[j]).1.len() == w,
    decreases k,
{
    if k > 0 {
        let o = (k - 1) as nat;
        lemma_round_upto_widths(ballots, elim, w, o);
        let prev = round_upto(ballots, elim, w, o);
        assert forall|j: int| 0 <= j < round_upto(ballots, elim, w, k).len() implies
            (#[trigger] round_upto(ballots, elim, w, k)[j]).1.len() == w by {
            if j < prev.len() {
                assert(round_upto(ballots, elim, w, k)[j] == prev[j]);
            } else {
                assert(round_upto(ballots, elim, w, k)[j].1 == tally_row(ballots, elim, w, o));
            }
        }
    }
}

proof fn lemma_rounds_from_widths(ballots: Seq<Seq<u32>>, n: nat, w: nat, elim: Seq<usize>)
    ensures
        forall|i: int, j: int| 0 <= i < rounds_from(ballots, n, w, elim).len() && 0 <= j < rounds_from(ballots, n, w, elim)[i].len()
            ==> (#[trigger] rounds_from(ballots, n, w, elim)[i][j]).1.len() == w,
    decreases n - elim.len(),
{
    let r = round_upto(ballots, elim, w, n);
    lemma_round_upto_widths(ballots, elim, w, n);
    if !(r.len() <= 2 || elim.len() + 2 >= n) {
        let e = elim.push(eliminated_by(r) as usize);
        lemma_rounds_from_widths(ballots, n, w, e);
        let rest = rounds_from(ballots, n, w, e);
        assert forall|i: int, j: int| 0 <= i < rounds_from(ballots, n, w, elim).len() && 0 <= j < rounds_from(ballots, n, w, elim)[i].len()
            implies (#[trigger] rounds_from(ballots, n, w, elim)[i][j]).1.len() == w by {
            if i > 0 {
                assert(rounds_from(ballots, n, w, elim)[i] == rest[i - 1]);
            }
        }
    }
}

/// Where no ballot is longer than the choice set, an answer names exactly one rank
/// position per option.
pub proof fn lemma_field_count_is_choice_count(ballots: Seq<Seq<u32>>, n: nat)
    requires
        forall|k: int| 0 <= k < ballots.len() ==> #[trigger] ballots[k].len() <= n,
    ensures
        field_count(tally_spec(ballots, n), n) == n,
{
    let rounds = tally_spec(ballots, n);
    lemma_longest_bounded(ballots, ballots.len(), n);
    lemma_rounds_from_widths(ballots, n, n, Seq::empty());
    lemma_rounds_depth_bounded(rounds, rounds.len(), n);
}

/// No entry is deeper than its counts are long, so no round is deeper than `w` when no
/// count vector is longer than `w`.
pub proof fn lemma_rounds_depth_bounded(rs: Seq<Seq<(nat, Seq<nat>)>>, k: nat, w: nat)
    requires
        k <= rs.len(),
        forall|i: int, j: int| 0 <= i < rs.len() && 0 <= j < rs[i].len() ==> (#[trigger] rs[i][j]).1.len() <= w,
    ensures
        rounds_depth(rs, k) <= w,
    decreases k,
{
    if k > 0 {
        lemma_rounds_depth_bounded(rs, (k - 1) as nat, w);
        lemma_round_depth_bounded(rs[k - 1], rs[k - 1].len(), w);
    }
}

proof fn lemma_round_depth_bounded(r: Seq<(nat, Seq<nat>)>, k: nat, w: nat)
    requires
        k <= r.len(),
        forall|j: int| 0 <= j < r.len() ==> (#[trigger] r[j]).1.len() <= w,
    ensures
        round_depth(r, k) <= w,
    decreases k,
{
    if k > 0 {
        lemma_round_depth_bounded(r, (k - 1) as nat, w);
        lemma_depth(r[k - 1].1);
    }
}

/// The depth of a count vector.
fn counts_depth(c: &Vec<usize>) -> (d: usize)
    ensures
        d == depth(counts_view(c@)),
        d <= c.len(),
{
    let ghost v = counts_view(c@);
    let mut i: usize = c.len();
    assert(v.take(i as int) =~= v);
    while i > 0 && c[i - 1] == 0
        invariant
            i <= c.len(),
            v == counts_view(c@),
            depth(v) == depth(v.take(i as int)),
        decreases i,
    {
        assert(v.take(i as int).drop_last() =~= v.take(i - 1));
        i = i - 1;
    }
    assert(v.take(i as int).len() == i);
    i
}

/// The largest depth among all entries of all rounds.
pub fn depth_of_rounds(rounds: &Vec<Vec<OptionTally>>) -> (d: usize)
    ensures
        d == rounds_depth(rounds_view(rounds@), rounds.len() as nat),
{
    let ghost rv = rounds_view(rounds@);
    let mut d: usize = 0;
    let mut i: usize = 0;
    while i < rounds.len()
        invariant
            i <= rounds.len(),
            rv == rounds_view(rounds@),
            d == rounds_depth(rv, i as nat),
        decreases rounds.len() - i,
    {
        let r = &rounds[i];
        let ghost r_v = rv[i as int];
        assert(r_v == round_view(r@));
        let mut e: usize = 0;
        let mut j: usize = 0;
        while j < r.len()
            invariant
                j <= r.len(),
                r_v == round_view(r@),
                e == round_depth(r_v, j as nat),
            decreases r.len() - j,
        {
            let x = counts_depth(&r[j].counts);
            if x > e {
                e = x;
            }
            j = j + 1;
        }
        if e > d {
            d = e;
        }
        i = i + 1;
    }
    d
}


/// After a round with more than two options with votes, the tally goes on, and the option
/// that the round eliminates has no breakdown in the next round.
pub proof fn lemma_eliminated_absent_next(ballots: Seq<Seq<u32>>, n: nat, w: nat, elim: Seq<usize>)
    requires
        n <= usize::MAX,
        elim.no_duplicates(),
        forall|i: int| 0 <= i < elim.len() ==> #[trigger] elim[i] < n,
        round_upto(ballots, elim, w, n).len() > 2,
    ensures
        ({
            let r = round_upto(ballots, elim, w, n);
            let rs = rounds_from(ballots, n, w, elim);
            &&& rs.len() >= 2
            &&& rs[0] == r
            &&& forall|j: int| 0 <= j < rs[1].len() ==> (#[trigger] rs[1][j]).0 != eliminated_by(r)
        }),
{
    let r = round_upto(ballots, elim, w, n);
    lemma_stop_rule(ballots, n, w, elim);
    let e = eliminated_by(r);
    let next = elim.push(e as usize);
    lemma_rounds_from_bound(ballots, n, w, next);
    lemma_round_entries(ballots, next, w, n);
    let rs = rounds_from(ballots, n, w, elim);
    assert(rs == seq![r] + rounds_from(ballots, n, w, next));
    assert(rs[1] == rounds_from(ballots, n, w, next)[0]);
    assert(rounds_from(ballots, n, w, next)[0] == round_upto(ballots, next, w, n));
    assert forall|j: int| 0 <= j < rs[1].len() implies (#[trigger] rs[1][j]).0 != e by {
        let o = rs[1][j].0;
        assert(!next.contains(o as usize));
        assert(next[elim.len() as int] == e as usize);
    }
}

} // verus!
