//! Plurality vote: every candidate with the most votes wins.
use vstd::prelude::*;

verus! {

/// Each candidate's name with the number of votes cast for it.
pub type Tally = Vec<(String, u32)>;

/// The largest vote count among the first `k` entries (0 when `k` is 0).
pub open spec fn max_votes(t: Seq<(String, u32)>, k: nat) -> u32
    decreases k,
{
    if k == 0 {
        0
    } else {
        let m = max_votes(t, (k - 1) as nat);
        if t[k - 1].1 > m {
            t[k - 1].1
        } else {
            m
        }
    }
}

/// The names, in tally order, among the first `k` entries, that have `m` votes.
pub open spec fn names_with(t: Seq<(String, u32)>, m: u32, k: nat) -> Seq<Seq<char>>
    decreases k,
{
    if k == 0 {
        Seq::empty()
    } else if t[k - 1].1 == m {
        names_with(t, m, (k - 1) as nat).push(t[k - 1].0@)
    } else {
        names_with(t, m, (k - 1) as nat)
    }
}

/// The names of the candidates with the most votes, in tally order.
pub open spec fn plurality_winners(t: Seq<(String, u32)>) -> Seq<Seq<char>> {
    names_with(t, max_votes(t, t.len()), t.len())
}

/// No name stands twice in the tally.
pub open spec fn distinct_names(t: Seq<(String, u32)>) -> bool {
    forall|i: int, j: int| 0 <= i < j < t.len() ==> (#[trigger] t[i]).0@ != (#[trigger] t[j]).0@
}

/// The candidates with the most votes, in the order of the tally.
pub fn plurality(election: Tally) -> (r: Vec<String>)
    requires
        election@.len() > 0,
        distinct_names(election@),
    ensures
        r@.len() == plurality_winners(election@).len(),
        forall|k: int| 0 <= k < r@.len() ==> (#[trigger] r@[k])@ == plurality_winners(election@)[k],
{
    let ghost t = election@;
    let mut max: u32 = 0;
    let mut k: usize = 0;
    while k < election.len()
        invariant
            k <= t.len(),
            t == election@,
            max == max_votes(t, k as nat),
        decreases t.len() - k,
    {
        if election[k].1 > max {
            max = election[k].1;
        }
        k = k + 1;
    }
    let mut winners: Vec<String> = Vec::new();
    let mut k: usize = 0;
    while k < election.len()
        invariant
            k <= t.len(),
            t == election@,
            max == max_votes(t, t.len()),
            winners@.len() == names_with(t, max, k as nat).len(),
            forall|i: int| 0 <= i < winners@.len() ==> (#[trigger] winners@[i])@ == names_with(t, max, k as nat)[i],
        decreases t.len() - k,
    {
        if election[k].1 == max {
            winners.push(election[k].0.clone());
        }
        k = k + 1;
    }
    winners
}

} // verus!
