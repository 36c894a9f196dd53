//! The result ledger of a task: who has submitted which result, in the order
//! of submission, each account at most once.

use vstd::prelude::*;
use crate::task_result::{TaskResult, TaskResultView};

verus! {

/// One line of a ledger: an account and the result it submitted.
#[derive(Debug, PartialEq, Eq)]
pub struct Submission {
    pub account: String,
    pub result: TaskResult,
}

pub struct SubmissionView {
    pub account: Seq<char>,
    pub result: TaskResultView,
}

impl View for Submission {
    type V = SubmissionView;

    open spec fn view(&self) -> SubmissionView {
        SubmissionView { account: self.account@, result: self.result@ }
    }
}

impl Clone for Submission {
    fn clone(&self) -> (r: Self)
        ensures
            r@ == self@,
    {
        Submission { account: self.account.clone(), result: self.result.clone() }
    }
}

/// The lines of a ledger as values.
pub open spec fn submission_views(entries: Seq<Submission>) -> Seq<SubmissionView> {
    Seq::new(entries.len(), |i: int| entries[i]@)
}

/// Whether `account` has a line among `lines`.
pub open spec fn has_account(lines: Seq<SubmissionView>, account: Seq<char>) -> bool {
    exists|i: int| 0 <= i < lines.len() && (#[trigger] lines[i]).account == account
}

/// No account has two lines.
pub open spec fn distinct_accounts(lines: Seq<SubmissionView>) -> bool {
    forall|i: int, j: int|
        0 <= i < j < lines.len() ==> (#[trigger] lines[i]).account != (#[trigger] lines[j]).account
}

/// The result that `account` submitted: that of its first line.
pub open spec fn result_of(lines: Seq<SubmissionView>, account: Seq<char>) -> Option<
    TaskResultView,
>
    decreases lines.len(),
{
    if lines.len() == 0 {
        None
    } else if lines[0].account == account {
        Some(lines[0].result)
    } else {
        result_of(lines.drop_first(), account)
    }
}

/// The accounts of the lines, in order.
pub open spec fn accounts_of(lines: Seq<SubmissionView>) -> Seq<Seq<char>> {
    Seq::new(lines.len(), |i: int| lines[i].account)
}

/// The texts of a list of strings.
pub open spec fn texts(strings: Seq<String>) -> Seq<Seq<char>> {
    Seq::new(strings.len(), |i: int| strings[i]@)
}

/// Submitter to result, in order of submission.
#[derive(Debug, PartialEq, Eq)]
pub struct ResultLedger {
    entries: Vec<Submission>,
}

impl View for ResultLedger {
    type V = Seq<SubmissionView>;

    closed spec fn view(&self) -> Seq<SubmissionView> {
        submission_views(self.entries@)
    }
}

impl ResultLedger {
    /// No account has two lines in a ledger.
    #[verifier::type_invariant]
    closed spec fn one_line_each(&self) -> bool {
        distinct_accounts(submission_views(self.entries@))
    }

    pub fn new() -> (r: Self)
        ensures
            r@ == Seq::<SubmissionView>::empty(),
    {
        ResultLedger { entries: Vec::new() }
    }

    /// Of any ledger: no account has two lines in it.
    pub fn distinct(&self)
        ensures
            distinct_accounts(self@),
    {
        proof {
            use_type_invariant(self);
        }
    }

    /// The number of results recorded.
    pub fn len(&self) -> (n: usize)
        ensures
            n == self@.len(),
    {
        self.entries.len()
    }

    /// Whether `account` has submitted a result.
    pub fn contains_key(&self, account: &String) -> (found: bool)
        ensures
            found == has_account(self@, account@),
    {
        let mut i: usize = 0;
        while i < self.entries.len()
            invariant
                i <= self.entries.len(),
                forall|j: int| 0 <= j < i ==> (#[trigger] self@[j]).account != account@,
            decreases self.entries.len() - i,
        {
            if self.entries[i].account == *account {
                assert(self@[i as int].account == account@);
                return true;
            }
            i += 1;
        }
        false
    }

    /// The result that `account` submitted, if it submitted one.
    pub fn get(&self, account: &String) -> (found: Option<&TaskResult>)
        ensures
            match found {
                Some(result) => result_of(self@, account@) == Some(result@),
                None => result_of(self@, account@) is None,
            },
    {
        let mut i: usize = 0;
        assert(self@.skip(0) =~= self@);
        while i < self.entries.len()
            invariant
                i <= self.entries.len(),
                result_of(self@, account@) == result_of(self@.skip(i as int), account@),
            decreases self.entries.len() - i,
        {
            if self.entries[i].account == *account {
                return Some(&self.entries[i].result);
            }
            assert(self@.skip(i as int).drop_first() =~= self@.skip(i + 1));
            i += 1;
        }
        None
    }

    /// Records `result` for `account`, unless that account has a result
    /// already: then the ledger stays as it is. Says whether it recorded.
    pub fn insert(&mut self, account: String, result: TaskResult) -> (recorded: bool)
        ensures
            recorded == !has_account(old(self)@, account@),
            recorded ==> final(self)@ == old(self)@.push(
                SubmissionView { account: account@, result: result@ },
            ),
            !recorded ==> final(self)@ == old(self)@,
    {
        proof {
            use_type_invariant(&*self);
        }
        if self.contains_key(&account) {
            return false;
        }
        let mut entries: Vec<Submission> = Vec::new();
        core::mem::swap(&mut self.entries, &mut entries);
        entries.push(Submission { account, result });
        assert(submission_views(entries@) =~= old(self)@.push(
            SubmissionView { account: account@, result: result@ },
        ));
        core::mem::swap(&mut self.entries, &mut entries);
        true
    }

    /// The accounts that have submitted, in order of submission.
    pub fn keys(&self) -> (accounts: Vec<String>)
        ensures
            texts(accounts@) == accounts_of(self@),
    {
        let mut accounts: Vec<String> = Vec::new();
        let mut i: usize = 0;
        while i < self.entries.len()
            invariant
                i <= self.entries.len(),
                accounts.len() == i,
                forall|j: int| 0 <= j < i ==> (#[trigger] accounts@[j])@ == self@[j].account,
            decreases self.entries.len() - i,
        {
            accounts.push(self.entries[i].account.clone());
            i += 1;
        }
        assert(texts(accounts@) =~= accounts_of(self@));
        accounts
    }
}

impl Clone for ResultLedger {
    fn clone(&self) -> (r: Self)
        ensures
            r@ == self@,
    {
        let mut entries: Vec<Submission> = Vec::new();
        let mut i: usize = 0;
        while i < self.entries.len()
            invariant
                i <= self.entries.len(),
                entries.len() == i,
                forall|j: int| 0 <= j < i ==> (#[trigger] entries@[j])@ == self.entries@[j]@,
            decreases self.entries.len() - i,
        {
            entries.push(self.entries[i].clone());
            i += 1;
        }
        proof {
            use_type_invariant(self);
            assert(submission_views(entries@) =~= submission_views(self.entries@));
        }
        ResultLedger { entries }
    }
}

} // verus!
