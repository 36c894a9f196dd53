//! The split of a bounty among those who submitted a result.

use vstd::prelude::*;
use crate::ledger::{accounts_of, texts};
use crate::task::{Task, TaskView};

verus! {

/// An amount owed to an account.
#[derive(Debug, PartialEq, Eq)]
pub struct Payout {
    pub account: String,
    pub amount: u128,
}

pub struct PayoutView {
    pub account: Seq<char>,
    pub amount: u128,
}

impl View for Payout {
    type V = PayoutView;

    open spec fn view(&self) -> PayoutView {
        PayoutView { account: self.account@, amount: self.amount }
    }
}

/// The payouts of a list as values.
pub open spec fn payout_views(payouts: Seq<Payout>) -> Seq<PayoutView> {
    Seq::new(payouts.len(), |i: int| payouts[i]@)
}

/// What each of `count` submitters gets of `bounty`: an equal part, rounded
/// down. What the division leaves over is paid to nobody.
pub open spec fn share(bounty: u128, count: nat) -> u128 {
    if count == 0 {
        0
    } else {
        (bounty as nat / count) as u128
    }
}

/// `bounty` split among `accounts`: one share for each, in their order.
pub open spec fn split(bounty: u128, accounts: Seq<Seq<char>>) -> Seq<PayoutView> {
    Seq::new(
        accounts.len(),
        |i: int| PayoutView { account: accounts[i], amount: share(bounty, accounts.len()) },
    )
}

/// The payouts that settle a task: its bounty split among the submitters
/// of its results, in order of submission.
pub open spec fn payouts_of(task: TaskView) -> Seq<PayoutView> {
    split(task.bounty, accounts_of(task.results))
}

/// The sum of the amounts of `payouts`.
pub open spec fn total(payouts: Seq<PayoutView>) -> nat
    decreases payouts.len(),
{
    if payouts.len() == 0 {
        0
    } else {
        total(payouts.drop_last()) + payouts.last().amount as nat
    }
}

proof fn lemma_total_of_equal_amounts(payouts: Seq<PayoutView>, amount: u128)
    requires
        forall|i: int| 0 <= i < payouts.len() ==> (#[trigger] payouts[i]).amount == amount,
    ensures
        total(payouts) == payouts.len() * amount,
    decreases payouts.len(),
{
    if payouts.len() > 0 {
        lemma_total_of_equal_amounts(payouts.drop_last(), amount);
        assert(total(payouts) == (payouts.len() - 1) * amount + amount);
        assert((payouts.len() - 1) * amount + amount == payouts.len() * amount)
            by (nonlinear_arith);
    }
}

/// The parts of a split add up to the share times the number of accounts,
/// which is never more than the bounty.
pub proof fn lemma_split_total(bounty: u128, accounts: Seq<Seq<char>>)
    ensures
        total(split(bounty, accounts)) == share(bounty, accounts.len()) * accounts.len(),
        total(split(bounty, accounts)) <= bounty,
{
    let count = accounts.len();
    let part = share(bounty, count);
    lemma_total_of_equal_amounts(split(bounty, accounts), part);
    if count > 0 {
        let whole = bounty as nat;
        assert((whole / count) * count <= whole) by (nonlinear_arith)
            requires
                count > 0,
        ;
        assert(whole / count <= whole) by (nonlinear_arith)
            requires
                count > 0,
        ;
        assert(count * part == part * count) by (nonlinear_arith);
    }
}

/// Splits `bounty` among `accounts`.
pub fn split_bounty(bounty: u128, accounts: &Vec<String>) -> (payouts: Vec<Payout>)
    ensures
        payout_views(payouts@) == split(bounty, texts(accounts@)),
{
    let count: usize = accounts.len();
    let mut payouts: Vec<Payout> = Vec::new();
    if count == 0 {
        assert(payout_views(payouts@) =~= split(bounty, texts(accounts@)));
        return payouts;
    }
    let amount: u128 = bounty / (count as u128);
    let mut i: usize = 0;
    while i < count
        invariant
            i <= count,
            count == accounts.len(),
            payouts.len() == i,
            forall|j: int|
                0 <= j < i ==> (#[trigger] payouts@[j])@ == (PayoutView {
                    account: accounts@[j]@,
                    amount,
                }),
        decreases count - i,
    {
        payouts.push(Payout { account: accounts[i].clone(), amount });
        i += 1;
    }
    assert(payout_views(payouts@) =~= split(bounty, texts(accounts@)));
    payouts
}

/// The payouts that settle `task`.
pub fn distribute_bounty(task: &Task) -> (payouts: Vec<Payout>)
    ensures
        payout_views(payouts@) == payouts_of(task@),
{
    let accounts = task.results.keys();
    split_bounty(task.bounty, &accounts)
}

} // verus!
