//! The counted way to the oracle that compares weights.

use crate::def::{BalanceResult, Input};
use vstd::prelude::*;

verus! {

/// Whoever can compare the total weights of two lists of items. An answer of
/// `Unknown` means that the oracle refused. Nothing is taken for granted of
/// the answers: what is proved of the search holds whatever the oracle says.
pub trait Oracle {
    fn compare(&mut self, left_v: &Vec<usize>, right_v: &Vec<usize>) -> BalanceResult;
}

/// One comparison that was sent to the oracle: the two lists and the answer.
pub struct Asked {
    pub left_v: Seq<usize>,
    pub right_v: Seq<usize>,
    pub answer: BalanceResult,
}

/// An oracle together with the count of the comparisons sent to it and the
/// number of comparisons allowed.
pub struct Interactor<O: Oracle> {
    pub oracle: O,
    pub query_count: usize,
    pub max_query_count: usize,
    /// Every comparison sent so far, oldest first.
    pub asked: Ghost<Seq<Asked>>,
}

/// The record `later` begins with the record `log`: it tells the same
/// comparisons with the same answers, and perhaps more.
pub open spec fn continues(log: Seq<Asked>, later: Seq<Asked>) -> bool {
    &&& log.len() <= later.len()
    &&& forall|i: int| 0 <= i < log.len() ==> #[trigger] later[i] == log[i]
}

/// A record that continues a record continues all that this one continues.
pub proof fn lemma_continues(first: Seq<Asked>, log: Seq<Asked>, later: Seq<Asked>)
    requires
        first.is_prefix_of(log),
        continues(log, later),
    ensures
        continues(first, later),
{
    assert forall|i: int| 0 <= i < first.len() implies #[trigger] later[i] == first[i] by {
        assert(first[i] == log.subrange(0, first.len() as int)[i]);
        assert(later[i] == log[i]);
    }
}

/// The reply line of the oracle as a finding: `<`, `>` or `=`.
pub open spec fn reply_meaning(reply: Seq<u8>) -> Option<BalanceResult> {
    if reply == seq![60u8] {
        Some(BalanceResult::Left)
    } else if reply == seq![62u8] {
        Some(BalanceResult::Right)
    } else if reply == seq![61u8] {
        Some(BalanceResult::Equal)
    } else {
        None
    }
}

/// Reads the reply of the oracle; anything but `<`, `>` and `=` has no
/// meaning.
pub fn parse_reply(reply: &[u8]) -> (res: Option<BalanceResult>)
    ensures
        res == reply_meaning(reply@),
{
    if reply.len() != 1 {
        return None;
    }
    let c: u8 = reply[0];
    if c == 60 {
        assert(reply@ =~= seq![60u8]);
        Some(BalanceResult::Left)
    } else if c == 62 {
        assert(reply@ =~= seq![62u8]);
        Some(BalanceResult::Right)
    } else if c == 61 {
        assert(reply@ =~= seq![61u8]);
        Some(BalanceResult::Equal)
    } else {
        assert(reply@[0] == c);
        None
    }
}

/// The numbers of the line that puts a comparison to the oracle: the two
/// lengths, then the left items, then the right items.
pub fn query_line(left_v: &Vec<usize>, right_v: &Vec<usize>) -> (line: Vec<usize>)
    ensures
        line@ == seq![left_v@.len() as usize, right_v@.len() as usize] + left_v@ + right_v@,
{
    let mut line: Vec<usize> = Vec::new();
    line.push(left_v.len());
    line.push(right_v.len());
    let ghost head = line@;
    let mut i: usize = 0;
    while i < left_v.len()
        invariant
            i <= left_v.len(),
            line@ == head + left_v@.take(i as int),
        decreases left_v.len() - i,
    {
        line.push(left_v[i]);
        i += 1;
        assert(line@ =~= head + left_v@.take(i as int));
    }
    assert(left_v@.take(i as int) =~= left_v@);
    let mut j: usize = 0;
    while j < right_v.len()
        invariant
            j <= right_v.len(),
            line@ == head + left_v@ + right_v@.take(j as int),
        decreases right_v.len() - j,
    {
        line.push(right_v[j]);
        j += 1;
        assert(line@ =~= head + left_v@ + right_v@.take(j as int));
    }
    assert(right_v@.take(j as int) =~= right_v@);
    assert(head =~= seq![left_v@.len() as usize, right_v@.len() as usize]);
    line
}

impl<O: Oracle> Interactor<O> {
    /// The count stays within the budget, and every counted comparison is on
    /// record.
    pub open spec fn wf(&self) -> bool {
        &&& self.query_count <= self.max_query_count
        &&& self.asked@.len() == self.query_count
    }

    /// This state follows `before`: the budget is the same, and the
    /// comparisons sent are those sent before and perhaps more.
    pub open spec fn follows(&self, before: &Self) -> bool {
        &&& self.wf()
        &&& self.max_query_count == before.max_query_count
        &&& self.query_count >= before.query_count
        &&& before.asked@.is_prefix_of(self.asked@)
    }

    /// The budget is used up.
    pub open spec fn exhausted(&self) -> bool {
        self.query_count >= self.max_query_count
    }

    /// The oracle has refused a comparison that was sent after `before`.
    pub open spec fn refused_since(&self, before: &Self) -> bool {
        exists|i: int|
            before.asked@.len() <= i < self.asked@.len() && (#[trigger] self.asked@[i]).answer
                == BalanceResult::Unknown
    }

    /// Since `before` a comparison may have stayed without an answer: the
    /// budget is used up by now, or the oracle has refused.
    pub open spec fn stalled_since(&self, before: &Self) -> bool {
        self.exhausted() || self.refused_since(before)
    }

    /// Whatever is done with an interactor that is in order, no more
    /// comparisons are sent to the oracle than the budget allows.
    pub proof fn lemma_within_budget(&self, before: &Self)
        requires
            before.wf(),
            self.follows(before),
        ensures
            self.asked@.len() <= before.max_query_count,
            self.query_count <= before.max_query_count,
    {
    }

    /// A stall is not forgotten: what has stalled since a state has stalled
    /// since every earlier state, and stays stalled in every later state.
    pub proof fn lemma_stall_stays(&self, earlier: &Self, first: &Self)
        requires
            self.follows(earlier),
            earlier.follows(first),
        ensures
            self.follows(first),
            self.stalled_since(earlier) ==> self.stalled_since(first),
            earlier.stalled_since(first) ==> self.stalled_since(first),
    {
        if self.refused_since(earlier) {
            let i = choose|i: int|
                earlier.asked@.len() <= i < self.asked@.len() && (#[trigger] self.asked@[i]).answer
                    == BalanceResult::Unknown;
            assert(first.asked@.len() <= i);
        }
        if earlier.refused_since(first) {
            let i = choose|i: int|
                first.asked@.len() <= i < earlier.asked@.len() && (
                #[trigger] earlier.asked@[i]).answer == BalanceResult::Unknown;
            assert(self.asked@[i] == earlier.asked@[i]);
        }
        assert(first.asked@.is_prefix_of(self.asked@)) by {
            assert forall|i: int| 0 <= i < first.asked@.len() implies first.asked@[i]
                == self.asked@[i] by {
                assert(first.asked@[i] == earlier.asked@[i]);
                assert(earlier.asked@[i] == self.asked@[i]);
            }
        }
    }

    /// An interactor that has sent nothing yet. Until the input is read it
    /// allows one comparison.
    pub fn new(oracle: O) -> (res: Interactor<O>)
        ensures
            res.wf(),
            res.oracle == oracle,
            res.query_count == 0,
            res.max_query_count == 1,
    {
        Interactor { oracle, query_count: 0, max_query_count: 1, asked: Ghost(Seq::empty()) }
    }

    /// Takes in the three numbers of the input line and allows `q`
    /// comparisons from now on.
    pub fn read_input(&mut self, n: usize, d: usize, q: usize) -> (input: Input)
        requires
            old(self).wf(),
            old(self).query_count <= q,
        ensures
            input.n == n,
            input.d == d,
            input.q == q,
            final(self).wf(),
            final(self).max_query_count == q,
            final(self).query_count == old(self).query_count,
            final(self).asked == old(self).asked,
            final(self).oracle == old(self).oracle,
    {
        self.max_query_count = q;
        Input { n, d, q }
    }

    /// Sends one comparison to the oracle, unless the budget is used up:
    /// then nothing is sent and the answer is `Unknown`.
    pub fn output_query(&mut self, left_v: &Vec<usize>, right_v: &Vec<usize>) -> (res:
        BalanceResult)
        requires
            old(self).wf(),
        ensures
            final(self).follows(old(self)),
            old(self).exhausted() ==> {
                &&& res == BalanceResult::Unknown
                &&& final(self).query_count == old(self).query_count
                &&& final(self).asked == old(self).asked
                &&& final(self).oracle == old(self).oracle
            },
            !old(self).exhausted() ==> {
                &&& final(self).query_count == old(self).query_count + 1
                &&& final(self).asked@ == old(self).asked@.push(
                    (Asked { left_v: left_v@, right_v: right_v@, answer: res }),
                )
            },
            res == BalanceResult::Unknown ==> final(self).stalled_since(old(self)),
    {
        if self.query_count >= self.max_query_count {
            return BalanceResult::Unknown;
        }
        self.query_count += 1;
        let res = self.oracle.compare(left_v, right_v);
        proof {
            self.asked@ = self.asked@.push(Asked { left_v: left_v@, right_v: right_v@, answer: res });
            if res == BalanceResult::Unknown {
                assert(self.asked@[old(self).asked@.len() as int].answer == BalanceResult::Unknown);
            }
        }
        res
    }
}

} // verus!
