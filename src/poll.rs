//! The persisted poll, its invariant, its mutators and its tallies.
use vstd::prelude::*;
use crate::error::PollError;
use crate::identity::{Identity, KeyOrder, lex_lt, lemma_lex_lt_irreflexive, lemma_lex_lt_transitive};

verus! {

/// One recorded vote: the voter and the chosen option.
pub type VoteEntry = (Identity, u8);

/// Entries are in strictly ascending order of voter identity.
pub open spec fn sorted_by_voter(votes: Seq<VoteEntry>) -> bool {
    forall|i: int, j: int| 0 <= i < j < votes.len() ==> lex_lt(#[trigger] votes[i].0@, #[trigger] votes[j].0@)
}

/// `id` has a recorded vote.
pub open spec fn has_voted(votes: Seq<VoteEntry>, id: Seq<u8>) -> bool {
    exists|j: int| 0 <= j < votes.len() && (#[trigger] votes[j]).0@ == id
}

/// `id` is in the list of voters.
pub open spec fn listed(voters: Seq<Identity>, id: Seq<u8>) -> bool {
    exists|j: int| 0 <= j < voters.len() && (#[trigger] voters[j])@ == id
}

/// No identity occurs twice.
pub open spec fn distinct_ids(voters: Seq<Identity>) -> bool {
    forall|i: int, j: int| 0 <= i < j < voters.len() ==> (#[trigger] voters[i])@ != (#[trigger] voters[j])@
}

/// Number of entries that chose option `k`.
pub open spec fn count_for(votes: Seq<VoteEntry>, k: int) -> nat
    decreases votes.len(),
{
    if votes.len() == 0 {
        0
    } else {
        count_for(votes.drop_last(), k) + if votes.last().1 as int == k { 1nat } else { 0nat }
    }
}

/// Per-option counts of `votes` over `n` options.
pub open spec fn tally_of(votes: Seq<VoteEntry>, n: nat) -> Seq<nat> {
    Seq::new(n, |k: int| count_for(votes, k))
}

/// Sum of a sequence of counts.
pub open spec fn sum_of(s: Seq<u64>) -> int
    decreases s.len(),
{
    if s.len() == 0 {
        0
    } else {
        sum_of(s.drop_last()) + s.last() as int
    }
}

/// The poll: a question, its options, and the votes cast so far.
///
/// `votes` plays the role of an ordered map from voter to option: it is kept
/// sorted by voter identity, so every walk over it is deterministic.
/// `voter_addresses` lists the same voters in the order they voted.
#[derive(Debug)]
pub struct Poll {
    pub creator: Identity,
    pub question: String,
    pub options: Vec<String>,
    pub votes: Vec<VoteEntry>,
    pub total_votes: u64,
    pub voter_addresses: Vec<Identity>,
}

/// Outcome of one call of `Poll::vote` on `old`, leaving `new`.
pub open spec fn vote_outcome(old: Poll, voter: Identity, option_index: u8, new: Poll, r: Result<(), PollError>) -> bool {
    if option_index as int >= old.options.len() || has_voted(old.votes@, voter@) {
        &&& r == Err::<(), PollError>(PollError::InvalidArgument)
        &&& new == old
    } else {
        &&& r == Ok::<(), PollError>(())
        &&& new.creator == old.creator
        &&& new.question == old.question
        &&& new.options == old.options
        &&& exists|p: int| 0 <= p <= old.votes.len() && new.votes@ == #[trigger] old.votes@.insert(p, (voter, option_index))
        &&& new.voter_addresses@ == old.voter_addresses@.push(voter)
        &&& new.total_votes == old.total_votes + 1
    }
}

/// A count never exceeds the number of entries.
pub proof fn lemma_count_bounded(votes: Seq<VoteEntry>, k: int)
    ensures
        count_for(votes, k) <= votes.len(),
    decreases votes.len(),
{
    if votes.len() > 0 {
        lemma_count_bounded(votes.drop_last(), k);
    }
}

proof fn lemma_sum_update(s: Seq<u64>, k: int, v: u64)
    requires
        0 <= k < s.len(),
    ensures
        sum_of(s.update(k, v)) == sum_of(s) - s[k] + v,
    decreases s.len(),
{
    if k == s.len() - 1 {
        assert(s.update(k, v).drop_last() =~= s.drop_last());
    } else {
        lemma_sum_update(s.drop_last(), k, v);
        assert(s.update(k, v).drop_last() =~= s.drop_last().update(k, v));
    }
}

/// Counts, total and voter list reported to the poll's creator.
#[derive(Debug)]
pub struct DetailedResults {
    pub counts: Vec<u64>,
    pub total_votes: u64,
    pub voters: Vec<Identity>,
}

/// `a` and `c` hold the same values: texts compared by their characters.
pub open spec fn same_poll(a: Poll, c: Poll) -> bool {
    &&& a.creator == c.creator
    &&& a.question@ == c.question@
    &&& a.options@.len() == c.options@.len()
    &&& forall|k: int| 0 <= k < a.options@.len() ==> (#[trigger] a.options@[k])@ == c.options@[k]@
    &&& a.votes@ == c.votes@
    &&& a.total_votes == c.total_votes
    &&& a.voter_addresses@ == c.voter_addresses@
}

impl Poll {
    /// The poll invariant.
    pub open spec fn wf(&self) -> bool {
        &&& self.options.len() >= 1
        &&& sorted_by_voter(self.votes@)
        &&& forall|j: int| 0 <= j < self.votes.len() ==> ((#[trigger] self.votes@[j]).1 as int) < self.options.len()
        &&& self.total_votes == self.votes.len()
        &&& self.voter_addresses.len() == self.votes.len()
        &&& distinct_ids(self.voter_addresses@)
        &&& forall|j: int| 0 <= j < self.voter_addresses.len() ==> has_voted(self.votes@, (#[trigger] self.voter_addresses@[j])@)
        &&& forall|j: int| 0 <= j < self.votes.len() ==> listed(self.voter_addresses@, (#[trigger] self.votes@[j]).0@)
    }

    /// A fresh poll with no votes.
    pub fn new(creator: Identity, question: String, options: Vec<String>) -> (r: Poll)
        ensures
            r.creator == creator,
            r.question == question,
            r.options == options,
            r.votes@.len() == 0,
            r.total_votes == 0,
            r.voter_addresses@.len() == 0,
            options@.len() >= 1 ==> r.wf(),
    {
        Poll { creator, question, options, votes: Vec::new(), total_votes: 0, voter_addresses: Vec::new() }
    }

    /// Records one vote; fails with `InvalidArgument` on an option index out of
    /// range or a voter who has already voted, and then changes nothing.
    pub fn vote(&mut self, voter: Identity, option_index: u8) -> (r: Result<(), PollError>)
        requires
            old(self).wf(),
        ensures
            final(self).wf(),
            vote_outcome(*old(self), voter, option_index, *final(self), r),
    {
        if option_index as usize >= self.options.len() {
            return Err(PollError::InvalidArgument);
        }
        let n = self.votes.len();
        let mut p: usize = 0;
        while p < n
            invariant
                self.wf(),
                (option_index as int) < self.options.len(),
                n == self.votes.len(),
                0 <= p <= n,
                forall|i: int| 0 <= i < p ==> lex_lt((#[trigger] self.votes@[i]).0@, voter@),
            ensures
                0 <= p <= n,
                p < n ==> lex_lt(voter@, self.votes@[p as int].0@),
            decreases n - p,
        {
            match self.votes[p].0.compare(&voter) {
                KeyOrder::Less => {
                    p = p + 1;
                },
                KeyOrder::Equal => {
                    proof {
                        assert(has_voted(self.votes@, voter@));
                    }
                    return Err(PollError::InvalidArgument);
                },
                KeyOrder::Greater => {
                    break;
                },
            }
        }
        proof {
            // every entry at or after `p` is above `voter`
            assert forall|j: int| p <= j < n implies lex_lt(voter@, (#[trigger] self.votes@[j]).0@) by {
                if j > p {
                    lemma_lex_lt_transitive(voter@, self.votes@[p as int].0@, self.votes@[j].0@);
                }
            }
            assert(!has_voted(self.votes@, voter@)) by {
                if has_voted(self.votes@, voter@) {
                    let j = choose|j: int| 0 <= j < self.votes.len() && (#[trigger] self.votes@[j]).0@ == voter@;
                    lemma_lex_lt_irreflexive(voter@);
                }
            }
            assert forall|j: int| 0 <= j < self.voter_addresses.len() implies (#[trigger] self.voter_addresses@[j])@ != voter@ by {
                if self.voter_addresses@[j]@ == voter@ {
                    assert(has_voted(self.votes@, self.voter_addresses@[j]@));
                }
            }
        }
        let ghost old_self = *self;
        self.votes.insert(p, (voter, option_index));
        self.voter_addresses.push(voter);
        let count = self.votes.len();
        proof {
            // the old total counted the entries, and one more entry still fits a usize
            assert(old_self.total_votes < count);
        }
        self.total_votes = self.total_votes + 1;
        proof {
            let nv = self.votes@;
            assert(nv == old_self.votes@.insert(p as int, (voter, option_index)));
            assert forall|i: int, j: int| 0 <= i < j < nv.len() implies lex_lt(#[trigger] nv[i].0@, #[trigger] nv[j].0@) by {
                if j < p {
                } else if j == p {
                } else if i < p {
                    lemma_lex_lt_transitive(nv[i].0@, voter@, nv[j].0@);
                } else if i == p {
                } else {
                }
            }
            assert forall|j: int| 0 <= j < self.voter_addresses.len() implies has_voted(nv, (#[trigger] self.voter_addresses@[j])@) by {
                if j < old_self.voter_addresses.len() {
                    let a = self.voter_addresses@[j]@;
                    let k = choose|k: int| 0 <= k < old_self.votes.len() && (#[trigger] old_self.votes@[k]).0@ == a;
                    if k < p {
                        assert(nv[k].0@ == a);
                    } else {
                        assert(nv[k + 1].0@ == a);
                    }
                } else {
                    assert(nv[p as int].0@ == voter@);
                }
            }
            assert forall|j: int| 0 <= j < nv.len() implies listed(self.voter_addresses@, (#[trigger] nv[j]).0@) by {
                let na = self.voter_addresses@;
                if j < p {
                    let k = choose|k: int| 0 <= k < old_self.voter_addresses.len() && (#[trigger] old_self.voter_addresses@[k])@ == nv[j].0@;
                    assert(na[k]@ == nv[j].0@);
                } else if j == p {
                    assert(na[na.len() - 1]@ == voter@);
                } else {
                    assert(nv[j] == old_self.votes@[j - 1]);
                    let k = choose|k: int| 0 <= k < old_self.voter_addresses.len() && (#[trigger] old_self.voter_addresses@[k])@ == nv[j].0@;
                    assert(na[k]@ == nv[j].0@);
                }
            }
        }
        Ok(())
    }
}


impl Poll {
    /// Vote count of each option, in option order.
    pub fn get_results(&self) -> (r: Vec<u64>)
        requires
            self.wf(),
        ensures
            r@.len() == self.options@.len(),
            forall|k: int| 0 <= k < r@.len() ==> r@[k] as int == count_for(self.votes@, k),
            sum_of(r@) == self.total_votes,
    {
        let n = self.options.len();
        let mut counts: Vec<u64> = Vec::new();
        let mut i: usize = 0;
        while i < n
            invariant
                0 <= i <= n,
                counts@.len() == i,
                forall|k: int| 0 <= k < i ==> counts@[k] == 0,
                sum_of(counts@) == 0,
            decreases n - i,
        {
            proof {
                assert(counts@.push(0).drop_last() =~= counts@);
            }
            counts.push(0);
            i = i + 1;
        }
        let m = self.votes.len();
        let mut j: usize = 0;
        while j < m
            invariant
                self.wf(),
                n == self.options@.len(),
                m == self.votes@.len(),
                0 <= j <= m,
                counts@.len() == n,
                forall|k: int| 0 <= k < n ==> counts@[k] as int == count_for(self.votes@.take(j as int), k),
                sum_of(counts@) == j,
            decreases m - j,
        {
            let idx = self.votes[j].1 as usize;
            proof {
                lemma_count_bounded(self.votes@.take(j as int), idx as int);
                assert(self.votes@.take(j as int + 1).drop_last() =~= self.votes@.take(j as int));
                lemma_sum_update(counts@, idx as int, (counts@[idx as int] + 1) as u64);
            }
            let c = counts[idx];
            counts.set(idx, c + 1);
            j = j + 1;
        }
        proof {
            assert(self.votes@.take(m as int) =~= self.votes@);
        }
        counts
    }

    /// Per-option counts, the total and the voters in voting order.
    pub fn get_detailed_results(&self) -> (r: DetailedResults)
        requires
            self.wf(),
        ensures
            r.counts@.len() == self.options@.len(),
            forall|k: int| 0 <= k < r.counts@.len() ==> r.counts@[k] as int == count_for(self.votes@, k),
            forall|k: int| 0 <= k < r.counts@.len() ==> r.counts@[k] <= r.total_votes,
            sum_of(r.counts@) == r.total_votes,
            r.total_votes == self.total_votes,
            r.voters@ == self.voter_addresses@,
    {
        let counts = self.get_results();
        proof {
            assert forall|k: int| 0 <= k < counts@.len() implies counts@[k] <= self.total_votes by {
                lemma_count_bounded(self.votes@, k);
            }
        }
        DetailedResults { counts, total_votes: self.total_votes, voters: self.voter_addresses.clone() }
    }
}


/// Sum of the counts of options `0..n`.
pub open spec fn tally_sum(votes: Seq<VoteEntry>, n: nat) -> int
    decreases n,
{
    if n == 0 {
        0
    } else {
        tally_sum(votes, (n - 1) as nat) + count_for(votes, n - 1)
    }
}

proof fn lemma_tally_sum_last(votes: Seq<VoteEntry>, n: nat)
    requires
        votes.len() > 0,
    ensures
        tally_sum(votes, n) == tally_sum(votes.drop_last(), n) + if (votes.last().1 as int) < n { 1int } else { 0int },
    decreases n,
{
    if n > 0 {
        lemma_tally_sum_last(votes, (n - 1) as nat);
    }
}

/// When every vote names one of `n` options, the counts of those options add up
/// to the number of votes.
pub proof fn lemma_tally_sum(votes: Seq<VoteEntry>, n: nat)
    requires
        forall|j: int| 0 <= j < votes.len() ==> ((#[trigger] votes[j]).1 as int) < n,
    ensures
        tally_sum(votes, n) == votes.len(),
    decreases votes.len(),
{
    if votes.len() > 0 {
        lemma_tally_sum_last(votes, n);
        let d = votes.drop_last();
        assert forall|j: int| 0 <= j < d.len() implies ((#[trigger] d[j]).1 as int) < n by {
            assert(d[j] == votes[j]);
        }
        lemma_tally_sum(d, n);
    } else {
        lemma_tally_zero(votes, n);
    }
}

proof fn lemma_tally_zero(votes: Seq<VoteEntry>, n: nat)
    requires
        votes.len() == 0,
    ensures
        tally_sum(votes, n) == 0,
    decreases n,
{
    if n > 0 {
        lemma_tally_zero(votes, (n - 1) as nat);
    }
}

/// In every valid poll, the counts of all options add up to `total_votes`.
pub proof fn lemma_tally_matches_total(p: Poll)
    requires
        p.wf(),
    ensures
        tally_of(p.votes@, p.options@.len()).len() == p.options@.len(),
        tally_sum(p.votes@, p.options@.len()) == p.total_votes,
{
    lemma_tally_sum(p.votes@, p.options@.len());
}

/// On a poll with no votes, two different voters with valid option indices are
/// both recorded: the total becomes two and the counts add up to two.
pub proof fn lemma_two_distinct_voters(
    p0: Poll,
    v1: Identity,
    i1: u8,
    p1: Poll,
    r1: Result<(), PollError>,
    v2: Identity,
    i2: u8,
    p2: Poll,
    r2: Result<(), PollError>,
)
    requires
        p0.wf(),
        p1.wf(),
        p2.wf(),
        p0.total_votes == 0,
        v1@ != v2@,
        (i1 as int) < p0.options@.len(),
        (i2 as int) < p0.options@.len(),
        vote_outcome(p0, v1, i1, p1, r1),
        vote_outcome(p1, v2, i2, p2, r2),
    ensures
        r1 is Ok,
        r2 is Ok,
        p2.total_votes == 2,
        tally_sum(p2.votes@, p2.options@.len()) == 2,
{
    assert(r1 is Ok);
    let q = choose|q: int| 0 <= q <= p0.votes.len() && p1.votes@ == #[trigger] p0.votes@.insert(q, (v1, i1));
    assert(p1.votes@.len() == 1);
    assert(p1.votes@[0] == (v1, i1));
    assert(!has_voted(p1.votes@, v2@));
    assert(r2 is Ok);
    lemma_tally_matches_total(p2);
}

/// A voter who has voted once is turned away with `InvalidArgument`, and the
/// poll is left as it was.
pub proof fn lemma_second_vote_rejected(
    p0: Poll,
    v: Identity,
    i: u8,
    p1: Poll,
    r1: Result<(), PollError>,
    j: u8,
    p2: Poll,
    r2: Result<(), PollError>,
)
    requires
        p0.wf(),
        vote_outcome(p0, v, i, p1, r1),
        r1 is Ok,
        vote_outcome(p1, v, j, p2, r2),
    ensures
        r2 == Err::<(), PollError>(PollError::InvalidArgument),
        p2 == p1,
{
    let q = choose|q: int| 0 <= q <= p0.votes.len() && p1.votes@ == #[trigger] p0.votes@.insert(q, (v, i));
    assert(p1.votes@[q] == (v, i));
    assert(has_voted(p1.votes@, v@));
}

/// An option index past the last option is refused with `InvalidArgument` and
/// changes nothing.
pub proof fn lemma_out_of_range_rejected(p0: Poll, v: Identity, i: u8, p1: Poll, r: Result<(), PollError>)
    requires
        p0.wf(),
        i as int >= p0.options@.len(),
        vote_outcome(p0, v, i, p1, r),
    ensures
        r == Err::<(), PollError>(PollError::InvalidArgument),
        p1 == p0,
{
}

proof fn lemma_chain(v: Seq<VoteEntry>, i: int, j: int)
    requires
        forall|k: int| 0 <= k < v.len() - 1 ==> lex_lt((#[trigger] v[k]).0@, v[k + 1].0@),
        0 <= i < j < v.len(),
    ensures
        lex_lt(v[i].0@, v[j].0@),
    decreases j - i,
{
    if j > i + 1 {
        lemma_chain(v, i, j - 1);
        assert(lex_lt(v[j - 1].0@, v[j].0@));
        lemma_lex_lt_transitive(v[i].0@, v[j - 1].0@, v[j].0@);
    }
}

/// Whether `id` has a vote in `votes`.
fn find_vote(votes: &Vec<VoteEntry>, id: &Identity) -> (r: bool)
    ensures
        r == has_voted(votes@, id@),
{
    let mut j: usize = 0;
    while j < votes.len()
        invariant
            0 <= j <= votes@.len(),
            forall|k: int| 0 <= k < j ==> (#[trigger] votes@[k]).0@ != id@,
        decreases votes@.len() - j,
    {
        if votes[j].0.same_as(id) {
            return true;
        }
        j = j + 1;
    }
    false
}

/// Whether `id` is in `voters`.
fn find_voter(voters: &Vec<Identity>, id: &Identity) -> (r: bool)
    ensures
        r == listed(voters@, id@),
{
    let mut j: usize = 0;
    while j < voters.len()
        invariant
            0 <= j <= voters@.len(),
            forall|k: int| 0 <= k < j ==> (#[trigger] voters@[k])@ != id@,
        decreases voters@.len() - j,
    {
        if voters[j].same_as(id) {
            return true;
        }
        j = j + 1;
    }
    false
}

/// Whether no identity occurs twice in `voters`.
fn all_distinct(voters: &Vec<Identity>) -> (r: bool)
    ensures
        r == distinct_ids(voters@),
{
    let n = voters.len();
    let mut j: usize = 0;
    while j < n
        invariant
            n == voters@.len(),
            0 <= j <= n,
            forall|a: int, b: int| 0 <= a < b < j ==> (#[trigger] voters@[a])@ != (#[trigger] voters@[b])@,
        decreases n - j,
    {
        let mut i: usize = 0;
        while i < j
            invariant
                n == voters@.len(),
                0 <= i <= j < n,
                forall|a: int| 0 <= a < i ==> (#[trigger] voters@[a])@ != voters@[j as int]@,
            decreases j - i,
        {
            if voters[i].same_as(&voters[j]) {
                return false;
            }
            i = i + 1;
        }
        j = j + 1;
    }
    true
}

impl Poll {
    /// Whether the poll invariant holds.
    pub fn is_valid(&self) -> (r: bool)
        ensures
            r == self.wf(),
    {
        let n = self.votes.len();
        if self.options.len() == 0 || self.total_votes != n as u64 || self.voter_addresses.len() != n {
            return false;
        }
        let mut j: usize = 0;
        while j < n
            invariant
                n == self.votes@.len(),
                0 <= j <= n,
                forall|k: int| 0 <= k < j ==> ((#[trigger] self.votes@[k]).1 as int) < self.options@.len(),
                forall|k: int| 0 <= k < j && k + 1 < n ==> lex_lt((#[trigger] self.votes@[k]).0@, self.votes@[k + 1].0@),
                forall|k: int| 0 <= k < j ==> listed(self.voter_addresses@, (#[trigger] self.votes@[k]).0@),
            decreases n - j,
        {
            if self.votes[j].1 as usize >= self.options.len() {
                return false;
            }
            if j + 1 < n {
                match self.votes[j].0.compare(&self.votes[j + 1].0) {
                    KeyOrder::Less => {},
                    _ => {
                        proof {
                            if sorted_by_voter(self.votes@) {
                                crate::identity::lemma_lex_lt_asymmetric(self.votes@[j as int].0@, self.votes@[j + 1].0@);
                                lemma_lex_lt_irreflexive(self.votes@[j as int].0@);
                            }
                        }
                        return false;
                    },
                }
            }
            if !find_voter(&self.voter_addresses, &self.votes[j].0) {
                return false;
            }
            j = j + 1;
        }
        proof {
            assert forall|a: int, b: int| 0 <= a < b < n implies lex_lt(#[trigger] self.votes@[a].0@, #[trigger] self.votes@[b].0@) by {
                lemma_chain(self.votes@, a, b);
            }
        }
        if !all_distinct(&self.voter_addresses) {
            return false;
        }
        let mut i: usize = 0;
        while i < n
            invariant
                n == self.voter_addresses@.len(),
                0 <= i <= n,
                forall|k: int| 0 <= k < i ==> has_voted(self.votes@, (#[trigger] self.voter_addresses@[k])@),
            decreases n - i,
        {
            if !find_vote(&self.votes, &self.voter_addresses[i]) {
                return false;
            }
            i = i + 1;
        }
        true
    }
}

} // verus!
