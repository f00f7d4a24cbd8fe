//! What the commands share: where reading starts, when a snapshot is complete, and how a run ends.

pub mod config;
pub mod consume;
pub mod copy_topic;
pub mod create_topic;
pub mod delete_topic;
pub mod dump_topic;
pub mod list;
pub mod metadata;
pub mod produce;
pub mod topic_offsets;

use std::collections::{BTreeMap, HashSet};
use std::time::SystemTime;

use rdkafka::{ClientConfig, TopicPartitionList};
use vstd::prelude::*;
use vstd::slice::slice_to_vec;
use vstd::string::*;

use crate::client::{config_entries, set_entry, set_option, with_option};
use crate::clock::{epoch_millis, read_clock};
use crate::error::Error;
use crate::formatter::{bytes_view, headers_view, Record};
use crate::offsets::{
    add_entry, add_entry_offset, find_entry, found, fresh, list_entries, negative_offset_text,
    no_list_entries, place, with_offset, Entry, Found, Offset,
};
use crate::order::sort_ids;
use crate::text::{
    decimal, decimal_i64, digits_value, law_decimal_is_a_number, parse_u64, same_text,
    unsigned_number,
};
use crate::timestamp::{
    law_timestamp_is_the_time_written, parse_timestamp_ms, rfc3339_millis, timestamp_ms,
};

verus! {

/// The first failed delivery of a batch, if any.
pub open spec fn first_failure(results: Seq<Result<(), String>>) -> Option<Seq<char>>
    decreases results.len(),
{
    if results.len() == 0 {
        None
    } else {
        match results[0] {
            Ok(_) => first_failure(results.drop_first()),
            Err(e) => Some(e@),
        }
    }
}

/// Whether every message of a batch was delivered; if not, the first failure is told.
pub fn check_deliveries(results: &Vec<Result<(), String>>) -> (r: Result<(), Error>)
    ensures
        match r {
            Ok(_) => first_failure(results@) is None,
            Err(e) => first_failure(results@) matches Some(text) && e@
                == "Failed to send message: "@ + text,
        },
{
    let mut i: usize = 0;
    proof {
        assert(results@.skip(0) =~= results@);
    }
    while i < results.len()
        invariant
            i <= results@.len(),
            first_failure(results@) == first_failure(results@.skip(i as int)),
        decreases results.len() - i,
    {
        if let Err(text) = &results[i] {
            let mut message = "Failed to send message: ".to_owned();
            message.append(text.as_str());
            return Err(Error::new(message));
        }
        proof {
            assert(results@.skip(i as int).drop_first() =~= results@.skip(i + 1));
        }
        i += 1;
    }
    Ok(())
}

/// The milliseconds of a clock reading; zero where there are none. What does not fit is cut off.
pub fn millis_or_zero(reading: Result<u128, String>) -> (r: i64)
    ensures
        r == (match reading {
            Ok(millis) => millis as i64,
            Err(_) => 0,
        }),
{
    match reading {
        Ok(millis) => #[verifier::truncate]
        (millis as i64),
        Err(_) => 0,
    }
}

/// The current time in milliseconds since the Unix epoch; zero where the clock stands before it.
/// What does not fit is cut off. Which time the clock shows is left open.
pub fn now_millis() -> (r: i64)
    ensures
        exists|time: SystemTime|
            r == (match #[trigger] epoch_millis(time) {
                Some(millis) => millis as i64,
                None => 0,
            }),
{
    millis_or_zero(read_clock())
}

/// The consumer group of a run: the one given, or a generated name that holds the time.
pub fn group_name(group: &Option<String>, prefix: &str, now: i64) -> (r: String)
    ensures
        r@ == (match group {
            Some(name) => name@,
            None => prefix@ + decimal(now as int),
        }),
{
    match group {
        Some(name) => name.clone(),
        None => {
            let mut name = prefix.to_owned();
            name.append(decimal_i64(now).as_str());
            name
        },
    }
}

/// The first offset that a consumer will read, given the offset it is assigned and the
/// watermarks. A start at or past `high` means that there is nothing to read.
pub open spec fn first_offset(assigned: Offset, low: i64, high: i64) -> i64 {
    match assigned {
        Offset::Beginning => low,
        Offset::Offset(n) => n,
        _ => high,
    }
}

/// The first offset that a consumer will read, given the offset it is assigned and the
/// watermarks.
pub fn start_offset(assigned: Offset, low: i64, high: i64) -> (r: i64)
    ensures
        r == first_offset(assigned, low, high),
{
    match assigned {
        Offset::Beginning => low,
        Offset::Offset(n) => n,
        _ => high,
    }
}

/// Reading begins at the low watermark from the beginning, at an offset from that offset, and at
/// the high watermark, where there is nothing, from anywhere else.
pub proof fn law_first_offset_by_start(n: i64, low: i64, high: i64)
    ensures
        first_offset(Offset::Beginning, low, high) == low,
        first_offset(Offset::Offset(n), low, high) == n,
        first_offset(Offset::End, low, high) == high,
        first_offset(Offset::Stored, low, high) == high,
        first_offset(Offset::Invalid, low, high) == high,
        first_offset(Offset::OffsetTail(n), low, high) == high,
{
}

/// A text that tells which partition an operation speaks of.
pub open spec fn about_partition(
    operation: Seq<char>,
    what: Seq<char>,
    topic: Seq<char>,
    partition: i32,
) -> Seq<char> {
    operation + what + topic + " partition "@ + decimal(partition as int)
}

fn about_partition_text(operation: &str, what: &str, topic: &str, partition: i32) -> (r: String)
    ensures
        r@ == about_partition(operation@, what@, topic@, partition),
{
    let mut message = operation.to_owned();
    message.append(what);
    message.append(topic);
    message.append(" partition ");
    message.append(decimal_i64(partition as i64).as_str());
    message
}

/// The offset that an operation found for a partition, or its failure.
pub open spec fn offset_result(
    found: Option<Found>,
    topic: Seq<char>,
    partition: i32,
    operation: Seq<char>,
) -> Result<Offset, Seq<char>> {
    match found {
        None => Err(
            about_partition(operation, " returned no result for topic "@, topic, partition),
        ),
        Some(element) => if element.failed {
            Err(about_partition(operation, " failed for topic "@, topic, partition))
        } else {
            Ok(element.offset)
        },
    }
}

/// The offset that an operation found for a partition, or its failure.
pub fn offset_of(found: Option<Found>, topic: &str, partition: i32, operation: &str) -> (r: Result<
    Offset,
    Error,
>)
    ensures
        match r {
            Ok(offset) => offset_result(found, topic@, partition, operation@) == Ok::<
                Offset,
                Seq<char>,
            >(offset),
            Err(e) => offset_result(found, topic@, partition, operation@) == Err::<
                Offset,
                Seq<char>,
            >(e@),
        },
{
    match found {
        None => Err(
            Error::new(
                about_partition_text(operation, " returned no result for topic ", topic, partition),
            ),
        ),
        Some(element) => if element.failed {
            Err(
                Error::new(
                    about_partition_text(operation, " failed for topic ", topic, partition),
                ),
            )
        } else {
            Ok(element.offset)
        },
    }
}

/// The offset that an operation's result list holds for a partition, or its failure.
pub fn partition_offset(
    offsets: &TopicPartitionList,
    topic: &str,
    partition: i32,
    operation: &str,
) -> (r: Result<Offset, Error>)
    requires
        !topic@.contains('\0'),
    ensures
        match r {
            Ok(offset) => offset_result(
                found(list_entries(*offsets), topic@, partition),
                topic@,
                partition,
                operation@,
            ) == Ok::<Offset, Seq<char>>(offset),
            Err(e) => offset_result(
                found(list_entries(*offsets), topic@, partition),
                topic@,
                partition,
                operation@,
            ) == Err::<Offset, Seq<char>>(e@),
        },
{
    offset_of(find_entry(offsets, topic, partition), topic, partition, operation)
}

/// How a streaming run ended.
#[derive(Clone, Copy, Debug, Eq, PartialEq)]
pub enum SnapshotStop {
    Complete,
    Timeout,
    Sigint,
    Sigterm,
}

impl SnapshotStop {
    /// The exit code of a run that ended in this way.
    pub open spec fn code(self) -> i32 {
        match self {
            SnapshotStop::Complete => 0,
            SnapshotStop::Timeout => 1,
            SnapshotStop::Sigint => 130,
            SnapshotStop::Sigterm => 143,
        }
    }

    /// The exit code of a run that ended in this way.
    pub fn exit_code(self) -> (r: i32)
        ensures
            r == self.code(),
    {
        match self {
            SnapshotStop::Complete => 0,
            SnapshotStop::Timeout => 1,
            SnapshotStop::Sigint => 130,
            SnapshotStop::Sigterm => 143,
        }
    }
}

/// Runs that end differently have different exit codes, and only a complete one has code zero.
pub proof fn law_exit_codes_differ(a: SnapshotStop, b: SnapshotStop)
    ensures
        a.code() == b.code() <==> a == b,
        a.code() == 0 <==> a is Complete,
        a is Timeout ==> a.code() == 1,
        a is Sigint ==> a.code() == 130,
        a is Sigterm ==> a.code() == 143,
{
}

/// An error that the broker reports in metadata.
#[derive(Debug)]
pub struct MetadataError {
    pub label: String,
    pub code: i32,
}

/// What the broker tells of a partition.
#[derive(Debug)]
pub struct PartitionMetadata {
    pub id: i32,
    pub leader: i32,
    pub replicas: Vec<i32>,
    pub isr: Vec<i32>,
    pub error: Option<MetadataError>,
}

/// What the broker tells of a topic.
#[derive(Debug)]
pub struct TopicMetadata {
    pub name: String,
    pub error: Option<MetadataError>,
    pub partitions: Vec<PartitionMetadata>,
}

/// The numbers of the partitions, in the order told.
pub open spec fn partition_numbers(partitions: Seq<PartitionMetadata>) -> Seq<i32> {
    Seq::new(partitions.len(), |i: int| partitions[i].id)
}

/// The place of the first topic with a name; behind the end if there is none.
pub open spec fn topic_place(topics: Seq<TopicMetadata>, topic: Seq<char>) -> int
    decreases topics.len(),
{
    if topics.len() == 0 {
        0
    } else if topics[0].name@ == topic {
        0
    } else {
        1 + topic_place(topics.drop_first(), topic)
    }
}

/// The partitions of a topic in ascending order, or why they are not known.
pub fn list_partitions(topics: &Vec<TopicMetadata>, topic: &str) -> (r: Result<Vec<i32>, Error>)
    ensures
        ({
            let at = topic_place(topics@, topic@);
            match r {
                Ok(ids) => {
                    &&& at < topics@.len()
                    &&& topics@[at].error is None
                    &&& ids@.to_multiset() == partition_numbers(
                        topics@[at].partitions@,
                    ).to_multiset()
                    &&& forall|i: int, j: int| 0 <= i < j < ids@.len() ==> ids@[i] <= ids@[j]
                },
                Err(e) => if at >= topics@.len() {
                    e@ == "Topic "@ + topic@ + " not found"@
                } else {
                    topics@[at].error matches Some(error) && e@ == "Topic "@ + topic@
                        + " metadata error: "@ + error.label@
                },
            }
        }),
{
    let mut i: usize = 0;
    proof {
        assert(topics@.skip(0) =~= topics@);
    }
    while i < topics.len() && !same_text(topics[i].name.as_str(), topic)
        invariant
            i <= topics@.len(),
            topic_place(topics@, topic@) == i + topic_place(topics@.skip(i as int), topic@),
        decreases topics.len() - i,
    {
        proof {
            assert(topics@.skip(i as int).drop_first() =~= topics@.skip(i + 1));
        }
        i += 1;
    }
    if i >= topics.len() {
        let mut message = "Topic ".to_owned();
        message.append(topic);
        message.append(" not found");
        return Err(Error::new(message));
    }
    if let Some(error) = &topics[i].error {
        let mut message = "Topic ".to_owned();
        message.append(topic);
        message.append(" metadata error: ");
        message.append(error.label.as_str());
        return Err(Error::new(message));
    }
    let partitions = &topics[i].partitions;
    let mut ids: Vec<i32> = Vec::new();
    let mut j: usize = 0;
    while j < partitions.len()
        invariant
            j <= partitions@.len(),
            ids@ == partition_numbers(partitions@).take(j as int),
        decreases partitions.len() - j,
    {
        ids.push(partitions[j].id);
        proof {
            assert(ids@ =~= partition_numbers(partitions@).take(j + 1));
        }
        j += 1;
    }
    proof {
        assert(ids@ =~= partition_numbers(partitions@));
    }
    Ok(sort_ids(ids))
}

/// Where reading starts in every partition.
#[derive(Clone, Copy, Debug, PartialEq, Eq)]
pub enum StartFrom {
    /// Behind the last record.
    End,
    /// At the first retained record.
    Beginning,
    /// At the first record of a time, in Unix milliseconds, or later.
    Timestamp(i64),
}

/// Where a text asks reading to start: `0` is the beginning, all else is a timestamp.
pub open spec fn start_named(text: Seq<char>) -> Result<StartFrom, Seq<char>> {
    if text == "0"@ {
        Ok(StartFrom::Beginning)
    } else {
        match timestamp_ms(text, rfc3339_millis(text)) {
            Ok(millis) => Ok(StartFrom::Timestamp(millis as i64)),
            Err(e) => Err(e),
        }
    }
}

/// Where a text asks reading to start.
pub fn start_from(text: &str) -> (r: Result<StartFrom, Error>)
    ensures
        match r {
            Ok(start) => start_named(text@) == Ok::<StartFrom, Seq<char>>(start),
            Err(e) => start_named(text@) == Err::<StartFrom, Seq<char>>(e@),
        },
{
    if same_text(text, "0") {
        return Ok(StartFrom::Beginning);
    }
    match parse_timestamp_ms(text) {
        Ok(millis) => Ok(StartFrom::Timestamp(millis)),
        Err(e) => Err(e),
    }
}

/// The same offset for every partition.
pub open spec fn all_at(partitions: Seq<i32>, offset: Offset) -> Seq<(i32, Offset)> {
    Seq::new(partitions.len(), |i: int| (partitions[i], offset))
}

/// Assigns every partition the same offset.
pub fn assign_all(partitions: &Vec<i32>, offset: Offset) -> (r: Vec<(i32, Offset)>)
    ensures
        r@ == all_at(partitions@, offset),
{
    let mut out: Vec<(i32, Offset)> = Vec::new();
    let mut i: usize = 0;
    while i < partitions.len()
        invariant
            i <= partitions@.len(),
            out@ == all_at(partitions@, offset).take(i as int),
        decreases partitions.len() - i,
    {
        out.push((partitions[i], offset));
        proof {
            assert(out@ =~= all_at(partitions@, offset).take(i + 1));
        }
        i += 1;
    }
    proof {
        assert(out@ =~= all_at(partitions@, offset));
    }
    out
}

/// The assignments of a start that needs no lookup.
pub fn fixed_starts(start: StartFrom, partitions: &Vec<i32>) -> (r: Option<Vec<(i32, Offset)>>)
    ensures
        match start {
            StartFrom::End => r matches Some(starts) && starts@ == all_at(
                partitions@,
                Offset::End,
            ),
            StartFrom::Beginning => r matches Some(starts) && starts@ == all_at(
                partitions@,
                Offset::Beginning,
            ),
            StartFrom::Timestamp(_) => r is None,
        },
{
    match start {
        StartFrom::End => Some(assign_all(partitions, Offset::End)),
        StartFrom::Beginning => Some(assign_all(partitions, Offset::Beginning)),
        StartFrom::Timestamp(_) => None,
    }
}

/// The elements of a partition list that was built from assignments, one after the other.
pub open spec fn assigned_entries(topic: Seq<char>, assignments: Seq<(i32, Offset)>) -> Seq<Entry>
    decreases assignments.len(),
{
    if assignments.len() == 0 {
        no_list_entries()
    } else {
        with_offset(
            assigned_entries(topic, assignments.drop_last()),
            topic,
            assignments.last().0,
            assignments.last().1,
        )
    }
}

/// Whether an offset is one that a partition list takes.
pub open spec fn takes_offset(offset: Offset) -> bool {
    match offset {
        Offset::Offset(n) => n >= 0,
        _ => true,
    }
}

/// Whether every assigned offset is one that a partition list takes.
pub open spec fn takes_all(assignments: Seq<(i32, Offset)>) -> bool {
    forall|i: int| 0 <= i < assignments.len() ==> takes_offset((#[trigger] assignments[i]).1)
}

/// The partition list for some assignments.
pub fn assignment_list(topic: &str, assignments: &Vec<(i32, Offset)>) -> (r: Result<
    TopicPartitionList,
    Error,
>)
    requires
        !topic@.contains('\0'),
        forall|i: int| 0 <= i < assignments@.len() ==> (#[trigger] assignments@[i]).1 !is OffsetTail,
    ensures
        match r {
            Ok(list) => takes_all(assignments@) && list_entries(list) == assigned_entries(
                topic@,
                assignments@,
            ),
            Err(e) => !takes_all(assignments@) && e@ == negative_offset_text(),
        },
{
    let mut list = TopicPartitionList::new();
    let mut i: usize = 0;
    proof {
        assert(assignments@.take(0) =~= Seq::empty());
    }
    while i < assignments.len()
        invariant
            i <= assignments@.len(),
            !topic@.contains('\0'),
            forall|j: int|
                0 <= j < assignments@.len() ==> (#[trigger] assignments@[j]).1 !is OffsetTail,
            forall|j: int| 0 <= j < i ==> takes_offset((#[trigger] assignments@[j]).1),
            list_entries(list) == assigned_entries(topic@, assignments@.take(i as int)),
        decreases assignments.len() - i,
    {
        let (partition, offset) = assignments[i];
        proof {
            assert(assignments@.take(i + 1).drop_last() =~= assignments@.take(i as int));
            assert(assignments@[i as int].1 == offset);
        }
        match add_entry_offset(&mut list, topic, partition, offset) {
            Ok(_) => {},
            Err(e) => {
                return Err(Error::new(e));
            },
        }
        i += 1;
    }
    proof {
        assert(assignments@.take(assignments@.len() as int) =~= assignments@);
    }
    Ok(list)
}

proof fn lemma_place_absent(entries: Seq<Entry>, topic: Seq<char>, partition: i32)
    requires
        forall|i: int| 0 <= i < entries.len() ==> (#[trigger] entries[i]).partition != partition,
    ensures
        place(entries.push(fresh(topic, partition)), topic, partition) == entries.len(),
    decreases entries.len(),
{
    let longer = entries.push(fresh(topic, partition));
    if entries.len() > 0 {
        assert(longer[0] == entries[0]);
        assert(longer.drop_first() =~= entries.drop_first().push(fresh(topic, partition)));
        lemma_place_absent(entries.drop_first(), topic, partition);
    }
}

/// A list built from assignments of different partitions holds them one for one, in their order.
pub proof fn law_assigned_one_for_one(topic: Seq<char>, assignments: Seq<(i32, Offset)>)
    requires
        forall|i: int, j: int|
            0 <= i < j < assignments.len() ==> (#[trigger] assignments[i]).0
                != (#[trigger] assignments[j]).0,
    ensures
        assigned_entries(topic, assignments) == Seq::new(
            assignments.len(),
            |i: int|
                (Entry {
                    topic,
                    partition: assignments[i].0,
                    offset: assignments[i].1,
                    failed: false,
                }),
        ),
    decreases assignments.len(),
{
    if assignments.len() > 0 {
        let rest = assignments.drop_last();
        law_assigned_one_for_one(topic, rest);
        let before = assigned_entries(topic, rest);
        assert forall|i: int| 0 <= i < before.len() implies (#[trigger] before[i]).partition
            != assignments.last().0 by {
            assert(before[i].partition == rest[i].0);
            assert(assignments[i].0 != assignments[assignments.len() - 1].0);
        }
        lemma_place_absent(before, topic, assignments.last().0);
    }
}

/// The partition list that asks for the offsets at a time.
pub fn timestamp_query(topic: &str, partitions: &Vec<i32>, millis: i64) -> (r: Result<
    TopicPartitionList,
    Error,
>)
    requires
        !topic@.contains('\0'),
    ensures
        match r {
            Ok(list) => (millis >= 0 || partitions@.len() == 0) && list_entries(list)
                == assigned_entries(topic@, all_at(partitions@, Offset::Offset(millis))),
            Err(e) => millis < 0 && partitions@.len() > 0 && e@ == negative_offset_text(),
        },
{
    let assignments = assign_all(partitions, Offset::Offset(millis));
    proof {
        if partitions@.len() > 0 {
            assert(assignments@[0].1 == Offset::Offset(millis));
        }
    }
    assignment_list(topic, &assignments)
}

/// The start that a timestamp lookup gives a partition: the offset found, or the end where no
/// record is that late.
pub open spec fn looked_up(offset: Offset) -> Offset {
    match offset {
        Offset::Offset(n) => Offset::Offset(n),
        _ => Offset::End,
    }
}

/// The assignments that a timestamp lookup gives, or its first failure.
pub open spec fn resolved_starts(
    entries: Seq<Entry>,
    topic: Seq<char>,
    partitions: Seq<i32>,
) -> Result<Seq<(i32, Offset)>, Seq<char>>
    decreases partitions.len(),
{
    if partitions.len() == 0 {
        Ok(Seq::empty())
    } else {
        let partition = partitions.last();
        match resolved_starts(entries, topic, partitions.drop_last()) {
            Err(e) => Err(e),
            Ok(starts) => match offset_result(
                found(entries, topic, partition),
                topic,
                partition,
                "Timestamp offset lookup"@,
            ) {
                Err(e) => Err(e),
                Ok(offset) => Ok(starts.push((partition, looked_up(offset)))),
            },
        }
    }
}

proof fn lemma_resolved_prefix(
    entries: Seq<Entry>,
    topic: Seq<char>,
    partitions: Seq<i32>,
    k: int,
)
    requires
        0 <= k <= partitions.len(),
        resolved_starts(entries, topic, partitions.take(k)) is Err,
    ensures
        resolved_starts(entries, topic, partitions) == resolved_starts(
            entries,
            topic,
            partitions.take(k),
        ),
    decreases partitions.len(),
{
    if k == partitions.len() {
        assert(partitions.take(k) =~= partitions);
    } else {
        assert(partitions.drop_last().take(k) =~= partitions.take(k));
        lemma_resolved_prefix(entries, topic, partitions.drop_last(), k);
    }
}

/// The assignments that a timestamp lookup gives, or its first failure.
pub fn resolve_starts(resolved: &TopicPartitionList, topic: &str, partitions: &Vec<i32>) -> (r:
    Result<Vec<(i32, Offset)>, Error>)
    requires
        !topic@.contains('\0'),
    ensures
        match r {
            Ok(starts) => resolved_starts(list_entries(*resolved), topic@, partitions@) == Ok::<
                Seq<(i32, Offset)>,
                Seq<char>,
            >(starts@),
            Err(e) => resolved_starts(list_entries(*resolved), topic@, partitions@) == Err::<
                Seq<(i32, Offset)>,
                Seq<char>,
            >(e@),
        },
{
    let mut starts: Vec<(i32, Offset)> = Vec::new();
    let mut i: usize = 0;
    let ghost entries = list_entries(*resolved);
    proof {
        assert(partitions@.take(0) =~= Seq::empty());
        assert(starts@ =~= Seq::empty());
    }
    while i < partitions.len()
        invariant
            i <= partitions@.len(),
            !topic@.contains('\0'),
            entries == list_entries(*resolved),
            resolved_starts(entries, topic@, partitions@.take(i as int)) == Ok::<
                Seq<(i32, Offset)>,
                Seq<char>,
            >(starts@),
        decreases partitions.len() - i,
    {
        let partition: i32 = partitions[i];
        proof {
            assert(partitions@.take(i + 1).drop_last() =~= partitions@.take(i as int));
        }
        match partition_offset(resolved, topic, partition, "Timestamp offset lookup") {
            Ok(offset) => {
                let start = match offset {
                    Offset::Offset(n) => Offset::Offset(n),
                    _ => Offset::End,
                };
                starts.push((partition, start));
            },
            Err(e) => {
                proof {
                    lemma_resolved_prefix(entries, topic@, partitions@, i + 1);
                }
                return Err(e);
            },
        }
        i += 1;
    }
    proof {
        assert(partitions@.take(partitions@.len() as int) =~= partitions@);
    }
    Ok(starts)
}

/// The watermarks of a partition; zero where none are known.
pub open spec fn watermarks_of(watermarks: Map<i32, (i64, i64)>, partition: i32) -> (i64, i64) {
    if watermarks.contains_key(partition) {
        watermarks[partition]
    } else {
        (0, 0)
    }
}

/// Whether an assignment starts below the high watermark, so that there is something to read.
pub open spec fn has_unread(assignment: (i32, Offset), watermarks: Map<i32, (i64, i64)>) -> bool {
    let (low, high) = watermarks_of(watermarks, assignment.0);
    first_offset(assignment.1, low, high) < high
}

/// The partitions in which there is something to read.
pub open spec fn unread(
    assignments: Seq<(i32, Offset)>,
    watermarks: Map<i32, (i64, i64)>,
) -> Set<i32> {
    Set::new(
        |partition: i32|
            exists|i: int|
                0 <= i < assignments.len() && (#[trigger] assignments[i]).0 == partition
                    && has_unread(assignments[i], watermarks),
    )
}

/// The partitions in which there is something to read.
pub fn remaining_partitions(
    assignments: &Vec<(i32, Offset)>,
    watermarks: &BTreeMap<i32, (i64, i64)>,
) -> (r: HashSet<i32>)
    ensures
        r@ == unread(assignments@, watermarks@),
{
    let mut remaining: HashSet<i32> = HashSet::new();
    let mut i: usize = 0;
    proof {
        assert(remaining@ =~= unread(assignments@.take(0), watermarks@));
    }
    while i < assignments.len()
        invariant
            i <= assignments@.len(),
            remaining@ == unread(assignments@.take(i as int), watermarks@),
        decreases assignments.len() - i,
    {
        let (partition, offset) = assignments[i];
        let (low, high) = match watermarks.get(&partition) {
            Some(bounds) => *bounds,
            None => (0, 0),
        };
        let ghost before = assignments@.take(i as int);
        let ghost after = assignments@.take(i + 1);
        let ghost reads = has_unread(assignments@[i as int], watermarks@);
        if start_offset(offset, low, high) < high {
            remaining.insert(partition);
        }
        proof {
            assert forall|p: i32| #[trigger]
                unread(after, watermarks@).contains(p) <==> unread(before, watermarks@).contains(p)
                    || (reads && p == partition) by {
                if unread(before, watermarks@).contains(p) {
                    let j = choose|j: int|
                        0 <= j < before.len() && (#[trigger] before[j]).0 == p && has_unread(
                            before[j],
                            watermarks@,
                        );
                    assert(after[j] == before[j]);
                }
                if unread(after, watermarks@).contains(p) {
                    let j = choose|j: int|
                        0 <= j < after.len() && (#[trigger] after[j]).0 == p && has_unread(
                            after[j],
                            watermarks@,
                        );
                    if j < before.len() {
                        assert(before[j] == after[j]);
                    }
                }
                if reads && p == partition {
                    assert(after[i as int].0 == p);
                }
            }
            assert(remaining@ =~= unread(after, watermarks@));
        }
        i += 1;
    }
    proof {
        assert(assignments@.take(assignments@.len() as int) =~= assignments@);
    }
    remaining
}

/// Nothing is left to read of a partition that holds no records, whether it is read from the
/// beginning or from the end, nor of any partition that is read from the end.
pub proof fn law_nothing_unread(partition: i32, watermarks: Map<i32, (i64, i64)>)
    ensures
        watermarks_of(watermarks, partition).0 == watermarks_of(watermarks, partition).1
            ==> !has_unread((partition, Offset::Beginning), watermarks),
        !has_unread((partition, Offset::End), watermarks),
{
}

/// A record as it comes from a topic.
#[derive(Debug)]
pub struct KafkaMessage {
    pub partition: i32,
    pub offset: i64,
    /// the record's time in Unix milliseconds, if it has one
    pub timestamp: Option<i64>,
    pub key: Option<Vec<u8>>,
    pub payload: Option<Vec<u8>>,
    pub headers: Option<Vec<(String, Option<Vec<u8>>)>>,
}

/// The name and bytes of a header; a header without a value is empty.
pub open spec fn plain_header(header: (String, Option<Vec<u8>>)) -> (Seq<char>, Seq<u8>) {
    (
        header.0@,
        match header.1 {
            Some(bytes) => bytes@,
            None => Seq::empty(),
        },
    )
}

/// The bytes of a record, as a formatter sees them.
pub open spec fn record_of(message: KafkaMessage) -> Record {
    Record {
        key: bytes_view(message.key),
        value: bytes_view(message.payload),
        headers: match message.headers {
            Some(headers) => Seq::new(headers@.len(), |i: int| plain_header(headers@[i])),
            None => Seq::empty(),
        },
    }
}

impl KafkaMessage {
    /// The record's time; zero where it has none.
    pub open spec fn millis(self) -> i64 {
        match self.timestamp {
            Some(millis) => millis,
            None => 0,
        }
    }

    /// The record's headers; a header without a value is empty.
    pub fn plain_headers(&self) -> (r: Vec<(String, Vec<u8>)>)
        ensures
            headers_view(r@) == record_of(*self).headers,
    {
        let mut out: Vec<(String, Vec<u8>)> = Vec::new();
        if let Some(headers) = &self.headers {
            let mut i: usize = 0;
            while i < headers.len()
                invariant
                    i <= headers@.len(),
                    out@.len() == i,
                    forall|j: int|
                        0 <= j < i ==> ((#[trigger] out@[j]).0@, out@[j].1@) == plain_header(
                            headers@[j],
                        ),
                decreases headers.len() - i,
            {
                let name = headers[i].0.clone();
                let value = match &headers[i].1 {
                    Some(bytes) => slice_to_vec(bytes.as_slice()),
                    None => Vec::new(),
                };
                out.push((name, value));
                i += 1;
            }
        }
        proof {
            assert(headers_view(out@) =~= record_of(*self).headers);
        }
        out
    }
}

/// What the stream of a topic gives.
#[derive(Debug)]
pub enum Item {
    /// a record
    Message(KafkaMessage),
    /// the end of a partition, for now
    PartitionEof(i32),
    /// a failure, told by its message
    Failed(String),
    /// the end of the stream
    Ended,
}

/// What a run is told.
#[derive(Debug)]
pub enum Signal {
    /// the stream gave an item
    Item(Item),
    /// no item is ready
    Pending,
    /// the deadline has passed
    Timeout,
    /// the run is interrupted
    Sigint,
    /// the run is terminated
    Sigterm,
}

/// Whether a record lies at or past the high watermark of its partition.
pub open spec fn at_high(watermarks: Map<i32, (i64, i64)>, partition: i32, offset: i64) -> bool {
    watermarks.contains_key(partition) && offset >= watermarks[partition].1
}

/// Whether a record is the last one below the high watermark of its partition, or a later one.
pub open spec fn reaches_high(
    watermarks: Map<i32, (i64, i64)>,
    partition: i32,
    offset: i64,
) -> bool {
    watermarks.contains_key(partition) && offset >= watermarks[partition].1 - 1
}

/// Whether a record lies at or past the high watermark of its partition.
pub fn is_at_high(watermarks: &BTreeMap<i32, (i64, i64)>, partition: i32, offset: i64) -> (r: bool)
    ensures
        r == at_high(watermarks@, partition, offset),
{
    match watermarks.get(&partition) {
        Some(bounds) => offset >= bounds.1,
        None => false,
    }
}

/// Whether a record is the last one below the high watermark of its partition, or a later one.
pub fn does_reach_high(watermarks: &BTreeMap<i32, (i64, i64)>, partition: i32, offset: i64) -> (r:
    bool)
    ensures
        r == reaches_high(watermarks@, partition, offset),
{
    match watermarks.get(&partition) {
        Some(bounds) => offset as i128 >= bounds.1 as i128 - 1,
        None => false,
    }
}

/// Whether an item shows that a partition has been read to its captured high watermark: the end of
/// the partition is told, or a record of it comes that is the last one below the watermark or lies
/// further on.
pub open spec fn shows_end(
    watermarks: Map<i32, (i64, i64)>,
    item: Item,
    partition: i32,
) -> bool {
    match item {
        Item::PartitionEof(ended) => ended == partition,
        Item::Message(message) => message.partition == partition && watermarks.contains_key(
            partition,
        ) && message.offset + 1 >= watermarks[partition].1,
        _ => false,
    }
}

/// A record on its way to a topic.
#[derive(Debug)]
pub struct OutgoingRecord {
    pub topic: String,
    pub payload: Option<Vec<u8>>,
    pub key: Option<Vec<u8>>,
    pub headers: Option<Vec<(String, Option<Vec<u8>>)>>,
    /// the partition, where it is not left to the producer
    pub partition: Option<i32>,
}

/// What a record on its way to a topic says.
#[verifier::ext_equal]
pub struct Outgoing {
    pub topic: Seq<char>,
    pub payload: Option<Seq<u8>>,
    pub key: Option<Seq<u8>>,
    pub headers: Option<Seq<(Seq<char>, Option<Seq<u8>>)>>,
    pub partition: Option<i32>,
}

/// The names and optional bytes of a list of headers.
pub open spec fn full_headers(headers: Seq<(String, Option<Vec<u8>>)>) -> Seq<
    (Seq<char>, Option<Seq<u8>>),
> {
    Seq::new(headers.len(), |i: int| (headers[i].0@, bytes_view(headers[i].1)))
}

/// The names and optional bytes of optional headers.
pub open spec fn full_headers_view(headers: Option<Vec<(String, Option<Vec<u8>>)>>) -> Option<
    Seq<(Seq<char>, Option<Seq<u8>>)>,
> {
    match headers {
        Some(list) => Some(full_headers(list@)),
        None => None,
    }
}

impl View for OutgoingRecord {
    type V = Outgoing;

    open spec fn view(&self) -> Outgoing {
        Outgoing {
            topic: self.topic@,
            payload: bytes_view(self.payload),
            key: bytes_view(self.key),
            headers: full_headers_view(self.headers),
            partition: self.partition,
        }
    }
}

/// What some records say.
pub open spec fn outgoing_view(records: Seq<OutgoingRecord>) -> Seq<Outgoing> {
    Seq::new(records.len(), |i: int| records[i]@)
}

/// Settings with those of a snapshot's consumer on top. It asks to be told where partitions end:
/// the high watermark can lie above the last record that is delivered.
pub open spec fn snapshot_entries(
    entries: Map<Seq<char>, Seq<char>>,
    group: Seq<char>,
) -> Map<Seq<char>, Seq<char>> {
    entries.insert("group.id"@, group).insert("enable.auto.commit"@, "true"@).insert(
        "auto.offset.reset"@,
        "earliest"@,
    ).insert("enable.partition.eof"@, "true"@)
}

/// Puts the settings of a snapshot's consumer on top of others.
pub fn snapshot_config(config: &mut ClientConfig, group: &str)
    ensures
        config_entries(*final(config)) == snapshot_entries(config_entries(*old(config)), group@),
{
    set_entry(config, "group.id", group);
    set_entry(config, "enable.auto.commit", "true");
    set_entry(config, "auto.offset.reset", "earliest");
    set_entry(config, "enable.partition.eof", "true");
}

/// Sets the compression of a producer, if one is asked for.
pub fn compression_config(config: &mut ClientConfig, compression: &Option<String>)
    ensures
        config_entries(*final(config)) == with_option(
            config_entries(*old(config)),
            "compression.type"@,
            *compression,
        ),
{
    set_option(config, "compression.type", compression);
}

/// The number of messages at which a snapshot stops.
pub fn snapshot_limit(count: Option<u64>) -> (r: u64)
    ensures
        r == (match count {
            Some(n) => n,
            None => u64::MAX,
        }),
{
    match count {
        Some(n) => n,
        None => u64::MAX,
    }
}

/// The error for something that could not be done with a topic.
pub fn topic_failure(what: &str, name: &str, code: &str) -> (r: Error)
    ensures
        r@ == what@ + name@ + ": "@ + code@,
{
    let mut message = what.to_owned();
    message.append(name);
    message.append(": ");
    message.append(code);
    Error::new(message)
}

/// Sets the consumer group.
pub fn group_config(config: &mut ClientConfig, group: &str)
    ensures
        config_entries(*final(config)) == config_entries(*old(config)).insert(
            "group.id"@,
            group@,
        ),
{
    set_entry(config, "group.id", group);
}

/// The partition list of some partitions, without offsets.
pub open spec fn plain_entries(topic: Seq<char>, partitions: Seq<i32>) -> Seq<Entry> {
    Seq::new(partitions.len(), |i: int| fresh(topic, partitions[i]))
}

/// The partition list of some partitions, without offsets.
pub fn partition_list(topic: &str, partitions: &Vec<i32>) -> (r: TopicPartitionList)
    requires
        !topic@.contains('\0'),
    ensures
        list_entries(r) == plain_entries(topic@, partitions@),
{
    let mut list = TopicPartitionList::new();
    let mut i: usize = 0;
    let ghost wanted = plain_entries(topic@, partitions@);
    proof {
        assert(wanted.take(0) =~= no_list_entries());
    }
    while i < partitions.len()
        invariant
            i <= partitions@.len(),
            !topic@.contains('\0'),
            wanted == plain_entries(topic@, partitions@),
            list_entries(list) == wanted.take(i as int),
        decreases partitions.len() - i,
    {
        add_entry(&mut list, topic, partitions[i]);
        proof {
            assert(list_entries(list) =~= wanted.take(i + 1));
        }
        i += 1;
    }
    proof {
        assert(wanted.take(wanted.len() as int) =~= wanted);
    }
    list
}

/// The message count that an argument writes, or what is wrong with it; it must be at least one.
pub open spec fn count_value(text: Seq<char>) -> Result<nat, Seq<char>> {
    match unsigned_number(text) {
        Ok(n) => if n == 0 {
            Err("0 is not in 1..18446744073709551615"@)
        } else {
            Ok(n)
        },
        Err(e) => Err(e),
    }
}

/// Reads the message count of an argument.
pub fn parse_count(text: &str) -> (r: Result<u64, Error>)
    ensures
        match r {
            Ok(n) => count_value(text@) == Ok::<nat, Seq<char>>(n as nat),
            Err(e) => count_value(text@) == Err::<nat, Seq<char>>(e@),
        },
{
    match parse_u64(text) {
        Ok(n) => if n == 0 {
            Err(Error::text("0 is not in 1..18446744073709551615"))
        } else {
            Ok(n)
        },
        Err(e) => Err(Error::text(e)),
    }
}

/// A batch is delivered just where every delivery succeeded; else the first failure is told.
pub proof fn law_first_failure_is_told(results: Seq<Result<(), String>>, at: int)
    requires
        0 <= at <= results.len(),
        forall|j: int| 0 <= j < at ==> (#[trigger] results[j]) is Ok,
        at < results.len() ==> results[at] is Err,
    ensures
        at == results.len() ==> first_failure(results) is None,
        at < results.len() ==> first_failure(results) == Some(results[at]->Err_0@),
    decreases results.len(),
{
    if at > 0 {
        let rest = results.drop_first();
        assert(results[0] is Ok);
        assert forall|j: int| 0 <= j < at - 1 implies (#[trigger] rest[j]) is Ok by {
            assert(results[j + 1] is Ok);
        }
        law_first_failure_is_told(rest, at - 1);
    }
}

/// An offset is told just where the list has an element for the partition without an error, and
/// it is the offset of that element.
pub proof fn law_failed_lookups_are_errors(
    found: Option<Found>,
    topic: Seq<char>,
    partition: i32,
    operation: Seq<char>,
)
    ensures
        offset_result(found, topic, partition, operation) is Ok <==> (found matches Some(element)
            && !element.failed),
        offset_result(found, topic, partition, operation) matches Ok(offset) ==> offset
            == found->Some_0.offset,
{
}

/// The topic that is looked at is the first one with the name.
pub proof fn law_first_topic_counts(topics: Seq<TopicMetadata>, topic: Seq<char>, at: int)
    requires
        0 <= at <= topics.len(),
        forall|j: int| 0 <= j < at ==> (#[trigger] topics[j]).name@ != topic,
        at < topics.len() ==> topics[at].name@ == topic,
    ensures
        topic_place(topics, topic) == at,
    decreases topics.len(),
{
    if at > 0 {
        let rest = topics.drop_first();
        assert(topics[0].name@ != topic);
        assert forall|j: int| 0 <= j < at - 1 implies (#[trigger] rest[j]).name@ != topic by {
            assert(topics[j + 1].name@ != topic);
        }
        law_first_topic_counts(rest, topic, at - 1);
    }
}

/// The numbers of the partitions are those told, one for each.
pub proof fn law_partition_numbers_are_told(partitions: Seq<PartitionMetadata>, i: int)
    requires
        0 <= i < partitions.len(),
    ensures
        partition_numbers(partitions).len() == partitions.len(),
        partition_numbers(partitions)[i] == partitions[i].id,
{
}

/// Reading starts at the beginning for the text `0`. For any other text of digits it starts at
/// the Unix milliseconds that the digits write, and for a text with another character at the
/// milliseconds of the RFC 3339 time that it writes; a text that writes neither is refused.
pub proof fn law_start_is_the_time_written(text: Seq<char>)
    ensures
        text == "0"@ ==> start_named(text) == Ok::<StartFrom, Seq<char>>(StartFrom::Beginning),
        text != "0"@ && (exists|i: int|
            0 <= i < text.len() && !('0' <= #[trigger] text[i] <= '9')) ==> match rfc3339_millis(
            text,
        ) {
            Some(millis) => start_named(text) == Ok::<StartFrom, Seq<char>>(
                StartFrom::Timestamp(millis),
            ),
            None => start_named(text) is Err,
        },
        text != "0"@ && text.len() > 0 && (forall|i: int|
            0 <= i < text.len() ==> '0' <= #[trigger] text[i] <= '9') ==> if digits_value(text)
            <= i64::MAX {
            start_named(text) == Ok::<StartFrom, Seq<char>>(
                StartFrom::Timestamp(digits_value(text) as i64),
            )
        } else {
            start_named(text) is Err
        },
        text.len() == 0 ==> start_named(text) is Err,
{
    reveal_strlit("0");
    law_timestamp_is_the_time_written(text);
}

/// Every partition is assigned, each once and in the order given, and all at the offset given.
pub proof fn law_all_partitions_are_assigned(partitions: Seq<i32>, offset: Offset, i: int)
    requires
        0 <= i < partitions.len(),
    ensures
        all_at(partitions, offset).len() == partitions.len(),
        all_at(partitions, offset)[i].0 == partitions[i],
        all_at(partitions, offset)[i].1 == offset,
{
}

/// A lookup of a time asks for every partition of the topic, each with that time.
pub proof fn law_time_is_asked_of_every_partition(
    topic: Seq<char>,
    partitions: Seq<i32>,
    millis: i64,
    i: int,
)
    requires
        0 <= i < partitions.len(),
        forall|j: int, k: int|
            0 <= j < k < partitions.len() ==> #[trigger] partitions[j] != #[trigger] partitions[k],
    ensures
        ({
            let entries = assigned_entries(topic, all_at(partitions, Offset::Offset(millis)));
            &&& entries.len() == partitions.len()
            &&& entries[i].topic == topic
            &&& entries[i].partition == partitions[i]
            &&& entries[i].offset == Offset::Offset(millis)
        }),
{
    let assignments = all_at(partitions, Offset::Offset(millis));
    assert forall|j: int, k: int| 0 <= j < k < assignments.len() implies (
    #[trigger] assignments[j]).0 != (#[trigger] assignments[k]).0 by {
        assert(partitions[j] != partitions[k]);
    }
    law_assigned_one_for_one(topic, assignments);
}

/// A list takes assignments just where none of them has a negative offset.
pub proof fn law_negative_offsets_are_refused(assignments: Seq<(i32, Offset)>)
    ensures
        takes_all(assignments) <==> !exists|i: int|
            0 <= i < assignments.len() && ((#[trigger] assignments[i]).1 matches Offset::Offset(n)
                && n < 0),
{
    if !takes_all(assignments) {
        let i = choose|i: int|
            0 <= i < assignments.len() && !takes_offset((#[trigger] assignments[i]).1);
        assert(assignments[i].1 matches Offset::Offset(n) && n < 0);
    }
}

/// A time lookup gives a start for each partition, in order: the offset found, or the end where
/// none was. It fails just where some partition has no element or one with an error.
pub proof fn law_starts_are_those_found(
    entries: Seq<Entry>,
    topic: Seq<char>,
    partitions: Seq<i32>,
)
    ensures
        resolved_starts(entries, topic, partitions) is Ok <==> forall|i: int|
            0 <= i < partitions.len() ==> (found(entries, topic, #[trigger] partitions[i]) matches Some(
                element,
            ) && !element.failed),
        resolved_starts(entries, topic, partitions) matches Ok(starts) ==> {
            &&& starts.len() == partitions.len()
            &&& forall|i: int|
                0 <= i < partitions.len() ==> (#[trigger] starts[i]).0 == partitions[i]
                    && starts[i].1 == match found(entries, topic, partitions[i])->Some_0.offset {
                    Offset::Offset(n) => Offset::Offset(n),
                    _ => Offset::End,
                }
        },
    decreases partitions.len(),
{
    if partitions.len() > 0 {
        let rest = partitions.drop_last();
        let last = partitions[partitions.len() - 1];
        law_starts_are_those_found(entries, topic, rest);
        let good = |p: i32|
            found(entries, topic, p) matches Some(element) && !element.failed;
        if resolved_starts(entries, topic, partitions) is Ok {
            assert forall|i: int| 0 <= i < partitions.len() implies good(
                #[trigger] partitions[i],
            ) by {
                if i < rest.len() {
                    assert(good(rest[i]));
                }
            }
        }
        if forall|i: int| 0 <= i < partitions.len() ==> good(#[trigger] partitions[i]) {
            assert forall|i: int| 0 <= i < rest.len() implies good(#[trigger] rest[i]) by {
                assert(good(partitions[i]));
            }
            assert(good(last));
        }
    }
}

/// Something is left to read of a partition just where it is assigned a start below its high
/// watermark: the beginning counts as the low watermark, and an offset as itself. Reading from
/// the end, or of a partition without known watermarks, leaves nothing, save from an offset below
/// zero.
pub proof fn law_unread_by_numbers(
    assignments: Seq<(i32, Offset)>,
    watermarks: Map<i32, (i64, i64)>,
    partition: i32,
)
    ensures
        unread(assignments, watermarks).contains(partition) <==> exists|i: int|
            0 <= i < assignments.len() && (#[trigger] assignments[i]).0 == partition && if watermarks.contains_key(
                partition,
            ) {
                match assignments[i].1 {
                    Offset::Beginning => watermarks[partition].0 < watermarks[partition].1,
                    Offset::Offset(n) => n < watermarks[partition].1,
                    _ => false,
                }
            } else {
                assignments[i].1 matches Offset::Offset(n) && n < 0
            },
{
    if unread(assignments, watermarks).contains(partition) {
        let i = choose|i: int|
            0 <= i < assignments.len() && (#[trigger] assignments[i]).0 == partition && has_unread(
                assignments[i],
                watermarks,
            );
        assert(assignments[i].0 == partition);
    }
    let by_numbers = |i: int|
        if watermarks.contains_key(partition) {
            match assignments[i].1 {
                Offset::Beginning => watermarks[partition].0 < watermarks[partition].1,
                Offset::Offset(n) => n < watermarks[partition].1,
                _ => false,
            }
        } else {
            assignments[i].1 matches Offset::Offset(n) && n < 0
        };
    assert(forall|i: int|
        0 <= i < assignments.len() && (#[trigger] assignments[i]).0 == partition ==> (has_unread(
            assignments[i],
            watermarks,
        ) <==> by_numbers(i)));
}

/// A record is what a formatter sees of a message: its own key and payload, none where it has
/// none, and its headers in their order, each with its own value or an empty one.
pub proof fn law_record_is_the_message(message: KafkaMessage)
    ensures
        message.key is None <==> record_of(message).key is None,
        message.key matches Some(bytes) ==> record_of(message).key == Some(bytes@),
        message.payload is None <==> record_of(message).value is None,
        message.payload matches Some(bytes) ==> record_of(message).value == Some(bytes@),
        message.headers is None ==> record_of(message).headers.len() == 0,
        message.headers matches Some(headers) ==> {
            &&& record_of(message).headers.len() == headers@.len()
            &&& forall|i: int|
                0 <= i < headers@.len() ==> (#[trigger] record_of(message).headers[i]).0
                    == headers@[i].0@ && match headers@[i].1 {
                    Some(bytes) => record_of(message).headers[i].1 == bytes@,
                    None => record_of(message).headers[i].1.len() == 0,
                }
        },
        message.timestamp matches Some(time) ==> message.millis() == time,
        message.timestamp is None ==> message.millis() == 0,
{
}

/// The contents of a record on its way are those of its fields: nothing absent is told as empty,
/// and nothing empty as absent.
pub proof fn law_outgoing_contents(record: OutgoingRecord)
    ensures
        record@.topic == record.topic@,
        record@.partition == record.partition,
        record.payload matches Some(bytes) ==> record@.payload == Some(bytes@),
        record.payload is None ==> record@.payload is None,
        record.key matches Some(bytes) ==> record@.key == Some(bytes@),
        record.key is None ==> record@.key is None,
        record.headers is None ==> record@.headers is None,
        record.headers matches Some(headers) ==> record@.headers matches Some(list) && list.len()
            == headers@.len() && forall|i: int|
            0 <= i < headers@.len() ==> (#[trigger] list[i]).0 == headers@[i].0@
                && match headers@[i].1 {
                Some(bytes) => list[i].1 == Some(bytes@),
                None => list[i].1 is None,
            },
{
}

/// A snapshot's consumer is in the group given, commits, starts at the earliest record where it
/// has no other start, and is told where partitions end; every other setting stays.
pub proof fn law_snapshot_settings(
    entries: Map<Seq<char>, Seq<char>>,
    group: Seq<char>,
    name: Seq<char>,
)
    ensures
        ({
            let set = snapshot_entries(entries, group);
            &&& set.contains_key("group.id"@) && set["group.id"@] == group
            &&& set.contains_key("enable.auto.commit"@) && set["enable.auto.commit"@] == "true"@
            &&& set.contains_key("auto.offset.reset"@) && set["auto.offset.reset"@] == "earliest"@
            &&& set.contains_key("enable.partition.eof"@) && set["enable.partition.eof"@]
                == "true"@
            &&& name != "group.id"@ && name != "enable.auto.commit"@ && name
                != "auto.offset.reset"@ && name != "enable.partition.eof"@ ==> {
                &&& set.contains_key(name) == entries.contains_key(name)
                &&& set[name] == entries[name]
            }
        }),
{
    reveal_strlit("group.id");
    reveal_strlit("enable.auto.commit");
    reveal_strlit("auto.offset.reset");
    reveal_strlit("enable.partition.eof");
    assert("group.id"@.len() == 8 && "enable.auto.commit"@.len() == 18
        && "auto.offset.reset"@.len() == 17 && "enable.partition.eof"@.len() == 20);
}

/// A count is taken as its decimal text writes it; zero is refused.
pub proof fn law_counts_are_positive(text: Seq<char>, n: u64)
    ensures
        count_value(text) matches Ok(count) ==> 1 <= count <= u64::MAX,
        count_value(text) matches Ok(count) ==> unsigned_number(text) == Ok::<nat, Seq<char>>(
            count,
        ),
        n >= 1 ==> count_value(decimal(n as int)) == Ok::<nat, Seq<char>>(n as nat),
        n == 0 ==> count_value(decimal(n as int)) is Err,
{
    law_decimal_is_a_number(n);
}

/// A lookup without a result, or with an error, is told with the operation, the topic and the
/// partition.
pub proof fn law_failed_lookups_are_told(
    found: Option<Found>,
    topic: Seq<char>,
    partition: i32,
    operation: Seq<char>,
)
    ensures
        found is None ==> offset_result(found, topic, partition, operation) == Err::<
            Offset,
            Seq<char>,
        >(
            operation + " returned no result for topic "@ + topic + " partition "@ + decimal(
                partition as int,
            ),
        ),
        found matches Some(element) ==> element.failed ==> offset_result(
            found,
            topic,
            partition,
            operation,
        ) == Err::<Offset, Seq<char>>(
            operation + " failed for topic "@ + topic + " partition "@ + decimal(partition as int),
        ),
{
}

/// A time lookup fails with the first partition that it fails for.
pub proof fn law_first_failed_start_is_told(
    entries: Seq<Entry>,
    topic: Seq<char>,
    partitions: Seq<i32>,
    at: int,
)
    requires
        0 <= at < partitions.len(),
        forall|j: int|
            0 <= j < at ==> (found(entries, topic, #[trigger] partitions[j]) matches Some(element)
                && !element.failed),
        !(found(entries, topic, partitions[at]) matches Some(element) && !element.failed),
    ensures
        resolved_starts(entries, topic, partitions) == Err::<Seq<(i32, Offset)>, Seq<char>>(
            offset_result(
                found(entries, topic, partitions[at]),
                topic,
                partitions[at],
                "Timestamp offset lookup"@,
            )->Err_0,
        ),
{
    let head = partitions.take(at);
    let upto = partitions.take(at + 1);
    assert forall|j: int| 0 <= j < head.len() implies (found(
        entries,
        topic,
        #[trigger] head[j],
    ) matches Some(element) && !element.failed) by {
        assert(head[j] == partitions[j]);
    }
    law_starts_are_those_found(entries, topic, head);
    assert(upto.drop_last() =~= head);
    assert(upto.last() == partitions[at]);
    lemma_resolved_prefix(entries, topic, partitions, at + 1);
}

} // verus!
