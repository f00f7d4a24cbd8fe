//! Creating a topic.

use vstd::prelude::*;

use crate::commands::topic_failure;
use crate::error::Error;

verus! {

/// What the `topic:create` command is asked.
#[derive(Debug)]
pub struct Args {
    /// topic name
    pub topic: String,
    /// number of partitions
    pub partitions: i32,
    /// replication factor
    pub replicas: i32,
}

/// A created topic as it is shown.
#[derive(Debug)]
pub struct CreateResult {
    pub name: String,
    pub partitions: i32,
    pub replicas: i32,
}

/// What is shown for a topic that has been created, or an error that tells why it has not.
pub fn created(args: &Args, result: &Result<String, (String, String)>) -> (r: Result<
    CreateResult,
    Error,
>)
    ensures
        match (r, result) {
            (Ok(shown), Ok(name)) => {
                &&& shown.name@ == name@
                &&& shown.partitions == args.partitions
                &&& shown.replicas == args.replicas
            },
            (Err(e), Err((name, code))) => e@ == "Failed to create topic "@ + name@ + ": "@ + code@,
            _ => false,
        },
{
    match result {
        Ok(name) => Ok(
            CreateResult {
                name: name.clone(),
                partitions: args.partitions,
                replicas: args.replicas,
            },
        ),
        Err((name, code)) => Err(
            topic_failure("Failed to create topic ", name.as_str(), code.as_str()),
        ),
    }
}

} // verus!
