use rand::distributions::{Distribution, Uniform};
use vstd::prelude::*;

verus! {

pub type AccountId = String;

/// Errors reported by a lottery.
#[derive(Clone, Copy, PartialEq, Eq, Structural, Debug)]
pub enum LotteryError {
    /// The caller is not the account the lottery runs under.
    NotOwner,
    /// The account is already taking part.
    AlreadyEntered,
    /// The end date has not passed yet.
    NotFinished,
    /// Nobody entered, so there is no one to draw.
    NoParticipants,
    /// The drawn position is past the last participant.
    NoSuchParticipant,
}

/// The abstract state of a lottery.
pub struct LotteryView {
    pub name: Seq<char>,
    /// End of the lottery, in seconds since the Unix epoch.
    pub end_date: u64,
    /// Participants in the order they entered.
    pub participants: Seq<Seq<char>>,
}

/// A lottery: a name, an end date, and the accounts that entered, each once.
pub struct Lottery {
    lottery_name: String,
    end_date: u64,
    participants: Vec<AccountId>,
}

impl View for Lottery {
    type V = LotteryView;

    closed spec fn view(&self) -> LotteryView {
        LotteryView {
            name: self.lottery_name@,
            end_date: self.end_date,
            participants: self.participants@.map_values(|a: AccountId| a@),
        }
    }
}

/// The lottery has ended at time `now` (seconds since the Unix epoch).
pub open spec fn is_finished(end_date: u64, now: i64) -> bool {
    now as int > end_date as int
}

/// Only the account the contract runs under may act as its owner.
pub fn check_owner(current_account: &AccountId, caller: &AccountId) -> (r: Result<(), LotteryError>)
    ensures
        r is Ok <==> current_account@ == caller@,
        r is Err ==> r == Err::<(), LotteryError>(LotteryError::NotOwner),
{
    if current_account.eq(caller) {
        Ok(())
    } else {
        Err(LotteryError::NotOwner)
    }
}

/// Relies on rand's `Uniform::new(0, number)` sampled with `thread_rng()`:
/// a value in `[0, number)`. `Uniform::new` panics when `number` is 0.
#[verifier::external_body]
fn random_index(number: u64) -> (r: u64)
    requires
        0 < number,
    ensures
        r < number,
{
    let step = Uniform::new(0u64, number);
    step.sample(&mut rand::thread_rng())
}

impl Lottery {
    /// No account takes part twice.
    pub closed spec fn wf(&self) -> bool {
        self@.participants.no_duplicates()
    }

    pub fn new(lottery_name: String, end_date: u64) -> (r: Lottery)
        ensures
            r.wf(),
            r@.name == lottery_name@,
            r@.end_date == end_date,
            r@.participants.len() == 0,
    {
        let r = Lottery { lottery_name, end_date, participants: Vec::new() };
        proof {
            assert(r@.participants =~= Seq::<Seq<char>>::empty());
        }
        r
    }

    /// Adds `account_id` behind the earlier participants; an account that
    /// already takes part is refused.
    pub fn enter(&mut self, account_id: AccountId) -> (r: Result<(), LotteryError>)
        requires
            old(self).wf(),
        ensures
            final(self).wf(),
            r is Err <==> old(self)@.participants.contains(account_id@),
            r is Err ==> r == Err::<(), LotteryError>(LotteryError::AlreadyEntered) && final(self)@ == old(self)@,
            r is Ok ==> final(self)@.participants == old(self)@.participants.push(account_id@),
            final(self)@.name == old(self)@.name,
            final(self)@.end_date == old(self)@.end_date,
    {
        let ghost pre = self@;
        let mut i: usize = 0;
        while i < self.participants.len()
            invariant
                self@ == pre,
                self.wf(),
                i <= self.participants@.len(),
                forall|j: int| 0 <= j < i ==> pre.participants[j] != account_id@,
            decreases self.participants@.len() - i,
        {
            if self.participants[i] == account_id {
                proof {
                    assert(pre.participants[i as int] == account_id@);
                }
                return Err(LotteryError::AlreadyEntered);
            }
            i = i + 1;
        }
        let ghost a = account_id@;
        self.participants.push(account_id);
        proof {
            assert(self@.participants =~= pre.participants.push(a));
            assert forall|j: int, k: int| 0 <= j < self@.participants.len() && 0 <= k < self@.participants.len() && j != k
                implies #[trigger] self@.participants[j] != #[trigger] self@.participants[k] by {
                if j < pre.participants.len() && k < pre.participants.len() {
                    assert(pre.participants[j] == self@.participants[j]);
                    assert(pre.participants[k] == self@.participants[k]);
                }
            }
        }
        Ok(())
    }

    /// The participants, in the order they entered.
    pub fn get_participans(&self) -> (r: Vec<AccountId>)
        ensures
            r@.map_values(|a: AccountId| a@) == self@.participants,
    {
        let mut r: Vec<AccountId> = Vec::new();
        let mut i: usize = 0;
        while i < self.participants.len()
            invariant
                i <= self.participants@.len(),
                r@.map_values(|a: AccountId| a@) == self@.participants.take(i as int),
            decreases self.participants@.len() - i,
        {
            let ghost before = r@;
            r.push(self.participants[i].clone());
            i = i + 1;
            proof {
                assert(r@ == before.push(self.participants@[i - 1]));
                assert(r@.map_values(|a: AccountId| a@) =~= before.map_values(|a: AccountId| a@).push(
                    self.participants@[i - 1]@,
                ));
                assert(self@.participants[i - 1] == self.participants@[i - 1]@);
                assert(self@.participants.take(i as int) =~= self@.participants.take(i - 1).push(
                    self@.participants[i - 1],
                ));
            }
        }
        proof {
            assert(self@.participants.take(i as int) =~= self@.participants);
        }
        r
    }

    pub fn get_num_participans(&self) -> (r: u64)
        ensures
            r == self@.participants.len(),
    {
        self.participants.len() as u64
    }

    pub fn get_end_date(&self) -> (r: u64)
        ensures
            r == self@.end_date,
    {
        self.end_date
    }

    pub fn get_lottery_name(&self) -> (r: String)
        ensures
            r@ == self@.name,
    {
        self.lottery_name.clone()
    }

    /// The participant at position `index`, once the lottery has ended at
    /// time `now`.
    pub fn get_winner(&self, now: i64, index: u64) -> (r: Result<AccountId, LotteryError>)
        ensures
            r is Ok <==> is_finished(self@.end_date, now) && index < self@.participants.len(),
            !is_finished(self@.end_date, now) ==> r == Err::<AccountId, LotteryError>(LotteryError::NotFinished),
            is_finished(self@.end_date, now) && index >= self@.participants.len()
                ==> r == Err::<AccountId, LotteryError>(LotteryError::NoSuchParticipant),
            r matches Ok(w) ==> w@ == self@.participants[index as int],
    {
        if !(self.end_date <= i64::MAX as u64 && now > self.end_date as i64) {
            return Err(LotteryError::NotFinished);
        }
        if index >= self.participants.len() as u64 {
            return Err(LotteryError::NoSuchParticipant);
        }
        Ok(self.participants[index as usize].clone())
    }

    /// Draws a winner uniformly among the participants, once the lottery has
    /// ended at time `now`.
    pub fn draw_winner(&self, now: i64) -> (r: Result<AccountId, LotteryError>)
        ensures
            r is Ok <==> is_finished(self@.end_date, now) && self@.participants.len() > 0,
            !is_finished(self@.end_date, now) ==> r == Err::<AccountId, LotteryError>(LotteryError::NotFinished),
            is_finished(self@.end_date, now) && self@.participants.len() == 0
                ==> r == Err::<AccountId, LotteryError>(LotteryError::NoParticipants),
            r matches Ok(w) ==> self@.participants.contains(w@),
    {
        if !(self.end_date <= i64::MAX as u64 && now > self.end_date as i64) {
            return Err(LotteryError::NotFinished);
        }
        let count = self.participants.len() as u64;
        if count == 0 {
            return Err(LotteryError::NoParticipants);
        }
        let index = random_index(count);
        let r = self.get_winner(now, index);
        proof {
            if r is Ok {
                assert(self@.participants[index as int] == r->Ok_0@);
            }
        }
        r
    }
}

} // verus!
