//! The status of a to-do item.
use vstd::prelude::*;
use crate::common::str_eq;

verus! {

#[derive(Clone, Copy, Debug, PartialEq, Eq, Structural)]
pub enum TaskStatus {
    DONE,
    PENDING,
}

impl TaskStatus {
    /// The status that `input_string` names: "DONE" or "PENDING".
    pub fn from_string(input_string: String) -> (r: Self)
        requires
            input_string@ == "DONE"@ || input_string@ == "PENDING"@,
        ensures
            input_string@ == "DONE"@ ==> r == TaskStatus::DONE,
            input_string@ == "PENDING"@ ==> r == TaskStatus::PENDING,
    {
        proof {
            reveal_strlit("DONE");
            reveal_strlit("PENDING");
            assert("DONE"@.len() != "PENDING"@.len());
        }
        if str_eq(input_string.as_str(), "DONE") {
            TaskStatus::DONE
        } else {
            TaskStatus::PENDING
        }
    }

    /// The status's name, as it is shown.
    pub fn as_str(&self) -> (r: &'static str)
        ensures
            *self == TaskStatus::DONE ==> r@ == "DONE"@,
            *self == TaskStatus::PENDING ==> r@ == "PENDING"@,
    {
        match self {
            TaskStatus::DONE => "DONE",
            TaskStatus::PENDING => "PENDING",
        }
    }
}

} // verus!
