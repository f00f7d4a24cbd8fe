//! Offsets of a topic.

use rdkafka::TopicPartitionList;
use vstd::prelude::*;
use vstd::string::*;

use crate::commands::{group_name, offset_result, partition_offset};
use crate::error::Error;
use crate::offsets::{found, list_entries, Entry, Offset};
use crate::text::{decimal, decimal_i64, digits_value};
use crate::timestamp::{
    law_timestamp_is_the_time_written, parse_timestamp_ms, rfc3339_millis, timestamp_ms,
};

verus! {

/// What the `topic:offsets` command is asked.
#[derive(Debug)]
pub struct Args {
    /// topic name
    pub topic: String,
    /// the time at which offsets are looked up
    pub timestamp: Option<String>,
    /// the consumer group whose committed offsets are shown
    pub group: Option<String>,
}

/// The watermarks of a partition as they are shown.
#[derive(Debug)]
pub struct Watermark {
    pub partition: i32,
    pub offset: String,
    pub high: String,
    pub low: String,
}

/// The offset of a partition as it is shown.
#[derive(Debug)]
pub struct PartitionOffset {
    pub partition: i32,
    pub offset: String,
}

/// The committed offsets of a topic as they are shown.
#[derive(Debug)]
pub struct GroupTopicOffsets {
    pub topic: String,
    pub partitions: Vec<PartitionOffset>,
}

/// What is looked up.
#[derive(Clone, Copy, Debug, PartialEq, Eq)]
pub enum Lookup {
    /// the offsets at a time, in Unix milliseconds
    Timestamp(i64),
    /// the offsets that a group has committed
    Committed,
    /// the watermarks
    Watermarks,
}

/// What is looked up: a timestamp takes precedence over a group; without either, watermarks.
pub open spec fn lookup_asked(args: Args) -> Result<Lookup, Seq<char>> {
    match args.timestamp {
        Some(text) => match timestamp_ms(text@, rfc3339_millis(text@)) {
            Ok(millis) => Ok(Lookup::Timestamp(millis as i64)),
            Err(e) => Err(e),
        },
        None => if args.group is Some {
            Ok(Lookup::Committed)
        } else {
            Ok(Lookup::Watermarks)
        },
    }
}

/// What is looked up.
pub fn lookup_of(args: &Args) -> (r: Result<Lookup, Error>)
    ensures
        match r {
            Ok(lookup) => lookup_asked(*args) == Ok::<Lookup, Seq<char>>(lookup),
            Err(e) => lookup_asked(*args) == Err::<Lookup, Seq<char>>(e@),
        },
{
    match &args.timestamp {
        Some(text) => match parse_timestamp_ms(text.as_str()) {
            Ok(millis) => Ok(Lookup::Timestamp(millis)),
            Err(e) => Err(e),
        },
        None => if args.group.is_some() {
            Ok(Lookup::Committed)
        } else {
            Ok(Lookup::Watermarks)
        },
    }
}

/// The consumer group that is used: the one whose offsets are looked up, else a generated name.
pub fn lookup_group(args: &Args, lookup: Lookup, now: i64) -> (r: String)
    ensures
        r@ == (match (lookup, args.group) {
            (Lookup::Committed, Some(group)) => group@,
            _ => "kafq-offsets-"@ + decimal(now as int),
        }),
{
    match lookup {
        Lookup::Committed => group_name(&args.group, "kafq-offsets-", now),
        _ => group_name(&None, "kafq-offsets-", now),
    }
}

/// The text of the offset found at a time; `-1` where no record is that late.
pub open spec fn timestamp_text(offset: Offset) -> Seq<char> {
    match offset {
        Offset::Offset(n) => decimal(n as int),
        _ => "-1"@,
    }
}

/// The offset found at a time for a partition, or the failure of the lookup.
pub fn timestamp_offset(resolved: &TopicPartitionList, topic: &str, partition: i32) -> (r: Result<
    PartitionOffset,
    Error,
>)
    requires
        !topic@.contains('\0'),
    ensures
        match (
            r,
            offset_result(
                found(list_entries(*resolved), topic@, partition),
                topic@,
                partition,
                "Timestamp offset lookup"@,
            ),
        ) {
            (Ok(shown), Ok(offset)) => shown.partition == partition && shown.offset@
                == timestamp_text(offset),
            (Err(e), Err(text)) => e@ == text,
            _ => false,
        },
{
    match partition_offset(resolved, topic, partition, "Timestamp offset lookup") {
        Ok(offset) => {
            let text = match offset {
                Offset::Offset(n) => decimal_i64(n),
                _ => "-1".to_owned(),
            };
            Ok(PartitionOffset { partition, offset: text })
        },
        Err(e) => Err(e),
    }
}

/// The text of a committed offset; `-1` where none is committed.
pub open spec fn committed_text(offset: Offset) -> Seq<char> {
    match offset {
        Offset::Offset(n) => decimal(n as int),
        Offset::Invalid => "-1"@,
        Offset::Beginning => "Beginning"@,
        Offset::End => "End"@,
        Offset::Stored => "Stored"@,
        Offset::OffsetTail(n) => "OffsetTail("@ + decimal(n as int) + ")"@,
    }
}

fn offset_text(offset: Offset) -> (r: String)
    ensures
        r@ == committed_text(offset),
{
    match offset {
        Offset::Offset(n) => decimal_i64(n),
        Offset::Invalid => "-1".to_owned(),
        Offset::Beginning => "Beginning".to_owned(),
        Offset::End => "End".to_owned(),
        Offset::Stored => "Stored".to_owned(),
        Offset::OffsetTail(n) => {
            let mut text = "OffsetTail(".to_owned();
            text.append(decimal_i64(n).as_str());
            text.append(")");
            text
        },
    }
}

/// The offsets that a group has committed, or the first failure of the lookup.
pub open spec fn committed_texts(
    entries: Seq<Entry>,
    topic: Seq<char>,
    partitions: Seq<i32>,
) -> Result<Seq<(i32, Seq<char>)>, Seq<char>>
    decreases partitions.len(),
{
    if partitions.len() == 0 {
        Ok(Seq::empty())
    } else {
        let partition = partitions.last();
        match committed_texts(entries, topic, partitions.drop_last()) {
            Err(e) => Err(e),
            Ok(shown) => match offset_result(
                found(entries, topic, partition),
                topic,
                partition,
                "Committed offset lookup"@,
            ) {
                Err(e) => Err(e),
                Ok(offset) => Ok(shown.push((partition, committed_text(offset)))),
            },
        }
    }
}

/// What some shown offsets say.
pub open spec fn offsets_view(offsets: Seq<PartitionOffset>) -> Seq<(i32, Seq<char>)> {
    Seq::new(offsets.len(), |i: int| (offsets[i].partition, offsets[i].offset@))
}

proof fn lemma_committed_prefix(
    entries: Seq<Entry>,
    topic: Seq<char>,
    partitions: Seq<i32>,
    k: int,
)
    requires
        0 <= k <= partitions.len(),
        committed_texts(entries, topic, partitions.take(k)) is Err,
    ensures
        committed_texts(entries, topic, partitions) == committed_texts(
            entries,
            topic,
            partitions.take(k),
        ),
    decreases partitions.len(),
{
    if k == partitions.len() {
        assert(partitions.take(k) =~= partitions);
    } else {
        assert(partitions.drop_last().take(k) =~= partitions.take(k));
        lemma_committed_prefix(entries, topic, partitions.drop_last(), k);
    }
}

/// The offsets that a group has committed, or the first failure of the lookup.
pub fn committed_offsets(committed: &TopicPartitionList, topic: &str, partitions: &Vec<i32>) -> (r:
    Result<GroupTopicOffsets, Error>)
    requires
        !topic@.contains('\0'),
    ensures
        match r {
            Ok(shown) => shown.topic@ == topic@ && committed_texts(
                list_entries(*committed),
                topic@,
                partitions@,
            ) == Ok::<Seq<(i32, Seq<char>)>, Seq<char>>(offsets_view(shown.partitions@)),
            Err(e) => committed_texts(list_entries(*committed), topic@, partitions@) == Err::<
                Seq<(i32, Seq<char>)>,
                Seq<char>,
            >(e@),
        },
{
    let mut offsets: Vec<PartitionOffset> = Vec::new();
    let mut i: usize = 0;
    let ghost entries = list_entries(*committed);
    proof {
        assert(partitions@.take(0) =~= Seq::empty());
        assert(offsets_view(offsets@) =~= Seq::empty());
    }
    while i < partitions.len()
        invariant
            i <= partitions@.len(),
            !topic@.contains('\0'),
            entries == list_entries(*committed),
            committed_texts(entries, topic@, partitions@.take(i as int)) == Ok::<
                Seq<(i32, Seq<char>)>,
                Seq<char>,
            >(offsets_view(offsets@)),
        decreases partitions.len() - i,
    {
        let partition: i32 = partitions[i];
        proof {
            assert(partitions@.take(i + 1).drop_last() =~= partitions@.take(i as int));
        }
        match partition_offset(committed, topic, partition, "Committed offset lookup") {
            Ok(offset) => {
                let ghost before = offsets@;
                let text = offset_text(offset);
                offsets.push(PartitionOffset { partition, offset: text });
                proof {
                    assert(offsets_view(offsets@) =~= offsets_view(before).push(
                        (partition, text@),
                    ));
                }
            },
            Err(e) => {
                proof {
                    lemma_committed_prefix(entries, topic@, partitions@, i + 1);
                }
                return Err(e);
            },
        }
        i += 1;
    }
    proof {
        assert(partitions@.take(partitions@.len() as int) =~= partitions@);
    }
    Ok(GroupTopicOffsets { topic: topic.to_owned(), partitions: offsets })
}

/// The watermarks of a partition as they are shown: the high one is the offset.
pub fn watermark(partition: i32, low: i64, high: i64) -> (r: Watermark)
    ensures
        r.partition == partition,
        r.offset@ == decimal(high as int),
        r.high@ == decimal(high as int),
        r.low@ == decimal(low as int),
{
    Watermark {
        partition,
        offset: decimal_i64(high),
        high: decimal_i64(high),
        low: decimal_i64(low),
    }
}

/// A timestamp takes precedence over a group.
pub proof fn law_timestamp_takes_precedence(args: Args)
    requires
        args.timestamp is Some,
        lookup_asked(args) is Ok,
    ensures
        lookup_asked(args)->Ok_0 is Timestamp,
{
}

/// Where a time is given, the lookup is of exactly the milliseconds that its text writes: the
/// number that its digits write, or the time that RFC 3339 makes of any other text. A text that
/// writes no time is refused. A group counts only without a time, and with neither the watermarks
/// are looked up.
pub proof fn law_lookup_is_of_the_time_written(args: Args)
    ensures
        args.timestamp matches Some(text) ==> {
            &&& (exists|i: int|
                0 <= i < text@.len() && !('0' <= #[trigger] text@[i] <= '9')) ==> match rfc3339_millis(
                text@,
            ) {
                Some(millis) => lookup_asked(args) == Ok::<Lookup, Seq<char>>(
                    Lookup::Timestamp(millis),
                ),
                None => lookup_asked(args) is Err,
            }
            &&& text@.len() > 0 && (forall|i: int|
                0 <= i < text@.len() ==> '0' <= #[trigger] text@[i] <= '9')
                ==> if digits_value(text@) <= i64::MAX {
                lookup_asked(args) == Ok::<Lookup, Seq<char>>(
                    Lookup::Timestamp(digits_value(text@) as i64),
                )
            } else {
                lookup_asked(args) is Err
            }
            &&& text@.len() == 0 ==> lookup_asked(args) is Err
        },
        args.timestamp is None && args.group is Some ==> lookup_asked(args) == Ok::<
            Lookup,
            Seq<char>,
        >(Lookup::Committed),
        args.timestamp is None && args.group is None ==> lookup_asked(args) == Ok::<
            Lookup,
            Seq<char>,
        >(Lookup::Watermarks),
{
    if let Some(text) = args.timestamp {
        law_timestamp_is_the_time_written(text@);
    }
}

/// An offset is shown in decimal with all its digits; `-1` stands for a time after every record
/// and for an offset that was never committed.
pub proof fn law_offsets_are_shown_in_full(n: i64)
    ensures
        timestamp_text(Offset::Offset(n)) == decimal(n as int),
        timestamp_text(Offset::End) == "-1"@,
        timestamp_text(Offset::Beginning) == "-1"@,
        timestamp_text(Offset::Stored) == "-1"@,
        timestamp_text(Offset::Invalid) == "-1"@,
        timestamp_text(Offset::OffsetTail(n)) == "-1"@,
        committed_text(Offset::Offset(n)) == decimal(n as int),
        committed_text(Offset::Invalid) == "-1"@,
{
}

/// The committed offsets are shown for each partition, in order: the text of the offset in the
/// first element for that partition. The lookup fails just where some partition has no element or
/// one with an error.
pub proof fn law_committed_offsets_are_those_found(
    entries: Seq<Entry>,
    topic: Seq<char>,
    partitions: Seq<i32>,
)
    ensures
        committed_texts(entries, topic, partitions) is Ok <==> forall|i: int|
            0 <= i < partitions.len() ==> (found(entries, topic, #[trigger] partitions[i]) matches Some(
                element,
            ) && !element.failed),
        committed_texts(entries, topic, partitions) matches Ok(shown) ==> {
            &&& shown.len() == partitions.len()
            &&& forall|i: int|
                0 <= i < partitions.len() ==> (#[trigger] shown[i]).0 == partitions[i]
                    && shown[i].1 == committed_text(
                    found(entries, topic, partitions[i])->Some_0.offset,
                )
        },
    decreases partitions.len(),
{
    if partitions.len() > 0 {
        let rest = partitions.drop_last();
        let last = partitions[partitions.len() - 1];
        law_committed_offsets_are_those_found(entries, topic, rest);
        let good = |p: i32|
            found(entries, topic, p) matches Some(element) && !element.failed;
        if committed_texts(entries, topic, partitions) is Ok {
            assert forall|i: int| 0 <= i < partitions.len() implies good(
                #[trigger] partitions[i],
            ) by {
                if i < rest.len() {
                    assert(good(rest[i]));
                }
            }
        }
        if forall|i: int| 0 <= i < partitions.len() ==> good(#[trigger] partitions[i]) {
            assert forall|i: int| 0 <= i < rest.len() implies good(#[trigger] rest[i]) by {
                assert(good(partitions[i]));
            }
            assert(good(last));
        }
    }
}

/// A lookup of committed offsets fails with the first partition that it fails for.
pub proof fn law_first_failed_commit_is_told(
    entries: Seq<Entry>,
    topic: Seq<char>,
    partitions: Seq<i32>,
    at: int,
)
    requires
        0 <= at < partitions.len(),
        forall|j: int|
            0 <= j < at ==> (found(entries, topic, #[trigger] partitions[j]) matches Some(element)
                && !element.failed),
        !(found(entries, topic, partitions[at]) matches Some(element) && !element.failed),
    ensures
        committed_texts(entries, topic, partitions) == Err::<Seq<(i32, Seq<char>)>, Seq<char>>(
            offset_result(
                found(entries, topic, partitions[at]),
                topic,
                partitions[at],
                "Committed offset lookup"@,
            )->Err_0,
        ),
{
    let head = partitions.take(at);
    let upto = partitions.take(at + 1);
    assert forall|j: int| 0 <= j < head.len() implies (found(
        entries,
        topic,
        #[trigger] head[j],
    ) matches Some(element) && !element.failed) by {
        assert(head[j] == partitions[j]);
    }
    law_committed_offsets_are_those_found(entries, topic, head);
    assert(upto.drop_last() =~= head);
    assert(upto.last() == partitions[at]);
    lemma_committed_prefix(entries, topic, partitions, at + 1);
}

} // verus!
