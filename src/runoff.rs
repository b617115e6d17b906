//! Instant-runoff vote: each ballot counts for its highest-ranked candidate still
//! standing; a candidate with at least half of the ballots wins, and otherwise the
//! candidates with the fewest votes are eliminated and the count starts again.
use vstd::prelude::*;

verus! {

/// Each candidate's name and whether it has been eliminated.
pub type Candidates = Vec<(String, bool)>;

/// A voter's preferences: candidate names, most preferred first.
pub type Ballot = Vec<String>;

/// All the ballots.
pub type Ballots = Vec<Ballot>;

/// Whether `name` is out of the race: the flag of its first entry from `k` on;
/// a name that is no candidate counts as out.
pub open spec fn is_out_from(c: Seq<(String, bool)>, name: Seq<char>, k: nat) -> bool
    decreases c.len() - k,
{
    if k >= c.len() {
        true
    } else if c[k as int].0@ == name {
        c[k as int].1
    } else {
        is_out_from(c, name, k + 1)
    }
}

/// The first name from position `k` on the ballot `b` that is still standing.
pub open spec fn top_choice_from(c: Seq<(String, bool)>, b: Seq<String>, k: nat) -> Option<Seq<char>>
    decreases b.len() - k,
{
    if k >= b.len() {
        None
    } else if !is_out_from(c, b[k as int]@, 0) {
        Some(b[k as int]@)
    } else {
        top_choice_from(c, b, k + 1)
    }
}

/// The position of the first entry of `t` from `k` on that is for `name`, or `t.len()`.
pub open spec fn find_from(t: Seq<(Seq<char>, nat)>, name: Seq<char>, k: nat) -> nat
    decreases t.len() - k,
{
    if k >= t.len() {
        t.len()
    } else if t[k as int].0 == name {
        k
    } else {
        find_from(t, name, k + 1)
    }
}

/// `t` with one more vote for `name`, which is appended with one vote if new.
pub open spec fn add_vote(t: Seq<(Seq<char>, nat)>, name: Seq<char>) -> Seq<(Seq<char>, nat)> {
    let i = find_from(t, name, 0);
    if i < t.len() {
        t.update(i as int, (name, t[i as int].1 + 1))
    } else {
        t.push((name, 1nat))
    }
}

/// The count of the first `k` ballots: candidates in the order they first get a vote.
pub open spec fn tally_of(c: Seq<(String, bool)>, bs: Seq<Vec<String>>, k: nat) -> Seq<(Seq<char>, nat)>
    decreases k,
{
    if k == 0 {
        Seq::empty()
    } else {
        let t = tally_of(c, bs, (k - 1) as nat);
        match top_choice_from(c, bs[k - 1]@, 0) {
            Some(name) => add_vote(t, name),
            None => t,
        }
    }
}

/// The votes needed to win among `n` ballots: half of them, rounded up.
pub open spec fn threshold(n: nat) -> nat {
    (n + n % 2) / 2
}

/// The names among the first `k` entries of `t` with at least `th` votes.
pub open spec fn leaders(t: Seq<(Seq<char>, nat)>, th: nat, k: nat) -> Seq<Seq<char>>
    decreases k,
{
    if k == 0 {
        Seq::empty()
    } else if t[k - 1].1 >= th {
        leaders(t, th, (k - 1) as nat).push(t[k - 1].0)
    } else {
        leaders(t, th, (k - 1) as nat)
    }
}

/// The fewest votes among the first `k` entries of `t` (`k` at least 1).
pub open spec fn fewest(t: Seq<(Seq<char>, nat)>, k: nat) -> nat
    decreases k,
{
    if k <= 1 {
        t[0].1
    } else {
        let m = fewest(t, (k - 1) as nat);
        if t[k - 1].1 < m {
            t[k - 1].1
        } else {
            m
        }
    }
}

/// `name` has exactly `m` votes in `t`.
pub open spec fn has_count(t: Seq<(Seq<char>, nat)>, name: Seq<char>, m: nat) -> bool {
    exists|j: int| 0 <= j < t.len() && (#[trigger] t[j]).0 == name && t[j].1 == m
}

/// The candidates after eliminating those with `m` votes in `t`.
pub open spec fn eliminate(c: Seq<(String, bool)>, t: Seq<(Seq<char>, nat)>, m: nat) -> Seq<(String, bool)> {
    Seq::new(c.len(), |i: int| (c[i].0, c[i].1 || has_count(t, c[i].0@, m)))
}

/// The winners after at most `rounds` rounds of counting; none (by intent) if a
/// count finds no ballot with a candidate standing, or the rounds run out.
pub open spec fn runoff_rounds(c: Seq<(String, bool)>, bs: Seq<Vec<String>>, rounds: nat) -> Seq<Seq<char>>
    decreases rounds,
{
    if rounds == 0 {
        Seq::empty()
    } else {
        let t = tally_of(c, bs, bs.len());
        let w = leaders(t, threshold(bs.len()), t.len());
        if w.len() > 0 {
            w
        } else if t.len() == 0 {
            Seq::empty()
        } else {
            runoff_rounds(eliminate(c, t, fewest(t, t.len())), bs, (rounds - 1) as nat)
        }
    }
}

/// The winners of the runoff. Each round that names no winner eliminates at least
/// one standing candidate, so one round per candidate and one more suffice.
pub open spec fn runoff_winners(c: Seq<(String, bool)>, bs: Seq<Vec<String>>) -> Seq<Seq<char>> {
    runoff_rounds(c, bs, c.len() + 1)
}

/// The names of a list of texts.
pub open spec fn names_of(v: Seq<String>) -> Seq<Seq<char>> {
    Seq::new(v.len(), |i: int| v[i]@)
}

/// The count as names and numbers.
pub open spec fn tally_view(t: Seq<(String, u32)>) -> Seq<(Seq<char>, nat)> {
    Seq::new(t.len(), |i: int| (t[i].0@, t[i].1 as nat))
}

fn is_out(candidates: &Candidates, name: &String) -> (r: bool)
    ensures
        r == is_out_from(candidates@, name@, 0),
{
    let mut k: usize = 0;
    while k < candidates.len()
        invariant
            k <= candidates@.len(),
            is_out_from(candidates@, name@, 0) == is_out_from(candidates@, name@, k as nat),
        decreases candidates@.len() - k,
    {
        if candidates[k].0 == *name {
            return candidates[k].1;
        }
        k = k + 1;
    }
    true
}

fn top_choice(candidates: &Candidates, ballot: &Ballot) -> (r: Option<usize>)
    ensures
        match r {
            Some(i) => i < ballot@.len() && top_choice_from(candidates@, ballot@, 0) == Some(ballot@[i as int]@),
            None => top_choice_from(candidates@, ballot@, 0).is_none(),
        },
{
    let mut k: usize = 0;
    while k < ballot.len()
        invariant
            k <= ballot@.len(),
            top_choice_from(candidates@, ballot@, 0) == top_choice_from(candidates@, ballot@, k as nat),
        decreases ballot@.len() - k,
    {
        if !is_out(candidates, &ballot[k]) {
            return Some(k);
        }
        k = k + 1;
    }
    None
}

/// Counts the ballots, each for its highest-ranked candidate still standing.
fn tally(candidates: &Candidates, ballots: &Ballots) -> (r: Vec<(String, u32)>)
    requires
        ballots@.len() <= u32::MAX,
    ensures
        tally_view(r@) == tally_of(candidates@, ballots@, ballots@.len() as nat),
{
    let mut t: Vec<(String, u32)> = Vec::new();
    let mut k: usize = 0;
    while k < ballots.len()
        invariant
            k <= ballots@.len() <= u32::MAX,
            tally_view(t@) == tally_of(candidates@, ballots@, k as nat),
            forall|i: int| 0 <= i < t@.len() ==> (#[trigger] t@[i]).1 <= k,
        decreases ballots@.len() - k,
    {
        let ghost before = tally_view(t@);
        match top_choice(candidates, &ballots[k]) {
            Some(p) => {
                let name = &ballots[k][p];
                let mut i: usize = 0;
                while i < t.len() && t[i].0 != *name
                    invariant
                        i <= t@.len(),
                        before == tally_view(t@),
                        find_from(before, name@, 0) == find_from(before, name@, i as nat),
                    decreases t@.len() - i,
                {
                    i = i + 1;
                }
                if i < t.len() {
                    let count = t[i].1 + 1;
                    t.set(i, (name.clone(), count));
                    proof {
                        assert(tally_view(t@) =~= add_vote(before, name@));
                    }
                } else {
                    t.push((name.clone(), 1));
                    proof {
                        assert(tally_view(t@) =~= add_vote(before, name@));
                    }
                }
            },
            None => {},
        }
        k = k + 1;
    }
    t
}

/// No name stands twice among the candidates.
pub open spec fn distinct_names(c: Seq<(String, bool)>) -> bool {
    forall|i: int, j: int| 0 <= i < j < c.len() ==> (#[trigger] c[i]).0@ != (#[trigger] c[j]).0@
}

/// The runoff's winners: repeated counts, eliminating the weakest each time, until
/// some candidates hold at least half of the ballots.
///
/// The result is empty, by intent, when a count finds no ballot with a candidate
/// still standing: when there are no ballots, or when one round has eliminated
/// every candidate that any ballot names (as a three-way tie does). There is no
/// winner to give then, and this function returns rather than fail.
pub fn runoff(candidates: Candidates, ballots: Ballots) -> (r: Vec<String>)
    requires
        ballots@.len() <= u32::MAX,
        distinct_names(candidates@),
    ensures
        names_of(r@) == runoff_winners(candidates@, ballots@),
{
    let ghost c0 = candidates@;
    let mut standing = candidates;
    let num_voters = ballots.len() as u32;
    let th = (num_voters / 2) + (num_voters % 2);
    let mut rounds: usize = standing.len();
    loop
        invariant
            ballots@.len() <= u32::MAX,
            num_voters == ballots@.len(),
            th == threshold(ballots@.len() as nat),
            standing@.len() == c0.len(),
            c0 == candidates@,
            rounds <= c0.len(),
            runoff_winners(c0, ballots@) == runoff_rounds(standing@, ballots@, rounds as nat + 1),
        decreases rounds,
    {
        let ghost current = standing@;
        let t = tally(&standing, &ballots);
        let ghost tv = tally_view(t@);
        let mut winners: Vec<String> = Vec::new();
        let mut i: usize = 0;
        while i < t.len()
            invariant
                i <= t@.len(),
                tv == tally_view(t@),
                names_of(winners@) == leaders(tv, th as nat, i as nat),
            decreases t@.len() - i,
        {
            if t[i].1 >= th {
                winners.push(t[i].0.clone());
                proof {
                    assert(names_of(winners@) =~= leaders(tv, th as nat, i as nat + 1));
                }
            }
            i = i + 1;
        }
        if winners.len() > 0 || t.len() == 0 {
            proof {
                assert(tv.len() == t@.len());
                assert(names_of(winners@).len() == winners@.len());
                if winners.len() == 0 {
                    assert(names_of(winners@) =~= Seq::<Seq<char>>::empty());
                }
                assert(runoff_rounds(current, ballots@, rounds as nat + 1) == names_of(winners@));
            }
            return winners;
        }
        let mut min: u32 = t[0].1;
        let mut i: usize = 1;
        while i < t.len()
            invariant
                1 <= i <= t@.len(),
                tv == tally_view(t@),
                min == fewest(tv, i as nat),
            decreases t@.len() - i,
        {
            if t[i].1 < min {
                min = t[i].1;
            }
            i = i + 1;
        }
        let ghost before = standing@;
        let mut k: usize = 0;
        while k < standing.len()
            invariant
                k <= standing@.len(),
                standing@.len() == before.len(),
                tv == tally_view(t@),
                forall|j: int| k <= j < before.len() ==> #[trigger] standing@[j] == before[j],
                forall|j: int| 0 <= j < k ==> #[trigger] standing@[j] == eliminate(before, tv, min as nat)[j],
            decreases standing@.len() - k,
        {
            let mut hit = false;
            let mut j: usize = 0;
            while j < t.len() && !hit
                invariant
                    j <= t@.len(),
                    k < standing@.len(),
                    tv == tally_view(t@),
                    hit ==> has_count(tv, standing@[k as int].0@, min as nat),
                    !hit ==> forall|q: int| 0 <= q < j ==> !((#[trigger] tv[q]).0 == standing@[k as int].0@ && tv[q].1 == min),
                decreases t@.len() - j,
            {
                if t[j].1 == min && t[j].0 == standing[k].0 {
                    hit = true;
                    proof {
                        assert(tv[j as int].0 == standing@[k as int].0@ && tv[j as int].1 == min);
                    }
                }
                j = j + 1;
            }
            if hit {
                let name = standing[k].0.clone();
                standing.set(k, (name, true));
            }
            k = k + 1;
        }
        proof {
            assert(standing@ =~= eliminate(before, tv, min as nat));
            assert(tv.len() > 0);
            assert(leaders(tv, th as nat, tv.len()).len() == 0);
            assert(runoff_rounds(before, ballots@, rounds as nat + 1) == runoff_rounds(standing@, ballots@, rounds as nat));
        }
        if rounds == 0 {
            return Vec::new();
        }
        rounds = rounds - 1;
    }
}

} // verus!
