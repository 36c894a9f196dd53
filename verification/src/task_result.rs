//! One submitter's claimed outcome for a task.

use vstd::prelude::*;

verus! {

/// A result record: the fingerprint of the computed result and, where the
/// submitter gave one, a pointer to the full payload.
#[derive(Debug, PartialEq, Eq)]
pub struct TaskResult {
    pub result_hash: String,
    pub result_url: Option<String>,
}

/// What a result record holds, as text.
pub struct TaskResultView {
    pub result_hash: Seq<char>,
    pub result_url: Option<Seq<char>>,
}

/// The text of an optional string.
pub open spec fn optional_text(s: Option<String>) -> Option<Seq<char>> {
    match s {
        Some(t) => Some(t@),
        None => None,
    }
}

impl View for TaskResult {
    type V = TaskResultView;

    open spec fn view(&self) -> TaskResultView {
        TaskResultView {
            result_hash: self.result_hash@,
            result_url: optional_text(self.result_url),
        }
    }
}

impl TaskResult {
    pub fn new(result_hash: String, result_url: Option<String>) -> (r: Self)
        ensures
            r.result_hash == result_hash,
            r.result_url == result_url,
    {
        Self { result_hash, result_url }
    }
}

impl Clone for TaskResult {
    fn clone(&self) -> (r: Self)
        ensures
            r@ == self@,
    {
        let result_url = match &self.result_url {
            Some(url) => Some(url.clone()),
            None => None,
        };
        TaskResult { result_hash: self.result_hash.clone(), result_url }
    }
}

} // verus!
