//! Deleting a topic.

use vstd::prelude::*;

use crate::commands::topic_failure;
use crate::error::Error;

verus! {

/// What the `topic:delete` command is asked.
#[derive(Debug)]
pub struct Args {
    /// topic name
    pub topic: String,
}

/// The first topic that could not be deleted, and why, if there is one.
pub open spec fn first_undeleted(results: Seq<Result<String, (String, String)>>) -> Option<
    (Seq<char>, Seq<char>),
>
    decreases results.len(),
{
    if results.len() == 0 {
        None
    } else {
        match results[0] {
            Ok(_) => first_undeleted(results.drop_first()),
            Err((name, code)) => Some((name@, code@)),
        }
    }
}

/// Whether every topic has been deleted; if not, the first failure is told.
pub fn check_deletions(results: &Vec<Result<String, (String, String)>>) -> (r: Result<(), Error>)
    ensures
        match r {
            Ok(_) => first_undeleted(results@) is None,
            Err(e) => first_undeleted(results@) matches Some((name, code)) && e@
                == "Failed to delete topic "@ + name + ": "@ + code,
        },
{
    let mut i: usize = 0;
    proof {
        assert(results@.skip(0) =~= results@);
    }
    while i < results.len()
        invariant
            i <= results@.len(),
            first_undeleted(results@) == first_undeleted(results@.skip(i as int)),
        decreases results.len() - i,
    {
        if let Err((name, code)) = &results[i] {
            return Err(topic_failure("Failed to delete topic ", name.as_str(), code.as_str()));
        }
        proof {
            assert(results@.skip(i as int).drop_first() =~= results@.skip(i + 1));
        }
        i += 1;
    }
    Ok(())
}

/// Topics are deleted just where every deletion succeeded; else the first failure is told, with
/// the topic's name and the reason.
pub proof fn law_first_undeleted_topic_is_told(
    results: Seq<Result<String, (String, String)>>,
    at: int,
)
    requires
        0 <= at <= results.len(),
        forall|j: int| 0 <= j < at ==> (#[trigger] results[j]) is Ok,
        at < results.len() ==> results[at] is Err,
    ensures
        at == results.len() ==> first_undeleted(results) is None,
        at < results.len() ==> first_undeleted(results) == Some(
            (results[at]->Err_0.0@, results[at]->Err_0.1@),
        ),
    decreases results.len(),
{
    if at > 0 {
        let rest = results.drop_first();
        assert(results[0] is Ok);
        assert forall|j: int| 0 <= j < at - 1 implies (#[trigger] rest[j]) is Ok by {
            assert(results[j + 1] is Ok);
        }
        law_first_undeleted_topic_is_told(rest, at - 1);
    }
}

} // verus!
