//! Offsets, and the lists of partitions with offsets that the client library takes and gives.

use rdkafka::TopicPartitionList;
use vstd::prelude::*;

verus! {

/// The partition list of `rdkafka`; opaque.
#[verifier::external_type_specification]
#[verifier::external_body]
pub struct ExTopicPartitionList(rdkafka::TopicPartitionList);

/// A place in a partition.
#[derive(Clone, Copy, Debug, PartialEq, Eq)]
pub enum Offset {
    Beginning,
    End,
    Stored,
    Invalid,
    Offset(i64),
    OffsetTail(i64),
}

/// An element of a partition list.
#[verifier::ext_equal]
pub struct Entry {
    pub topic: Seq<char>,
    pub partition: i32,
    pub offset: Offset,
    pub failed: bool,
}

/// The elements of a partition list.
pub uninterp spec fn list_entries(list: TopicPartitionList) -> Seq<Entry>;

/// The list without elements.
pub open spec fn no_list_entries() -> Seq<Entry> {
    Seq::empty()
}

/// An element as it is when it is added: without offset or error.
pub open spec fn fresh(topic: Seq<char>, partition: i32) -> Entry {
    Entry { topic, partition, offset: Offset::Invalid, failed: false }
}

/// The place of the first element for a partition; behind the end if there is none.
pub open spec fn place(entries: Seq<Entry>, topic: Seq<char>, partition: i32) -> int
    decreases entries.len(),
{
    if entries.len() == 0 {
        0
    } else if entries[0].topic == topic && entries[0].partition == partition {
        0
    } else {
        1 + place(entries.drop_first(), topic, partition)
    }
}

/// A list whose first element for a partition, a new one if there was none, has an offset.
pub open spec fn with_offset(
    entries: Seq<Entry>,
    topic: Seq<char>,
    partition: i32,
    offset: Offset,
) -> Seq<Entry> {
    let longer = entries.push(fresh(topic, partition));
    let at = place(longer, topic, partition);
    longer.update(at, Entry { offset, ..longer[at] })
}

/// `TopicPartitionList::new` makes a list without elements.
pub assume_specification[ TopicPartitionList::new ]() -> (r: TopicPartitionList)
    ensures
        list_entries(r) == no_list_entries(),
;

/// `TopicPartitionList::add_partition` adds an element without offset or error. It panics on a
/// topic that holds a NUL.
#[verifier::external_body]
pub(crate) fn add_entry(list: &mut TopicPartitionList, topic: &str, partition: i32)
    requires
        !topic@.contains('\0'),
    ensures
        list_entries(*final(list)) == list_entries(*old(list)).push(fresh(topic@, partition)),
{
    list.add_partition(topic, partition);
}

/// `TopicPartitionList::add_partition_offset` adds an element and then gives the first element for
/// that partition the offset; a negative offset is refused when the element has been added. It
/// panics on a topic that holds a NUL.
#[verifier::external_body]
pub(crate) fn add_entry_offset(
    list: &mut TopicPartitionList,
    topic: &str,
    partition: i32,
    offset: Offset,
) -> (r: Result<(), String>)
    requires
        !topic@.contains('\0'),
        offset !is OffsetTail,
    ensures
        match r {
            Ok(_) => {
                &&& list_entries(*final(list)) == with_offset(
                    list_entries(*old(list)),
                    topic@,
                    partition,
                    offset,
                )
                &&& offset matches Offset::Offset(n) ==> n >= 0
            },
            Err(e) => {
                &&& list_entries(*final(list)) == list_entries(*old(list)).push(
                    fresh(topic@, partition),
                )
                &&& offset matches Offset::Offset(n) && n < 0
                &&& e@ == negative_offset_text()
            },
        },
{
    let place = match offset {
        Offset::Beginning => rdkafka::Offset::Beginning,
        Offset::End => rdkafka::Offset::End,
        Offset::Stored => rdkafka::Offset::Stored,
        Offset::Invalid => rdkafka::Offset::Invalid,
        Offset::Offset(n) => rdkafka::Offset::Offset(n),
        Offset::OffsetTail(n) => rdkafka::Offset::OffsetTail(n),
    };
    list.add_partition_offset(topic, partition, place).map_err(|e| e.to_string())
}

/// The error text for a negative offset.
pub open spec fn negative_offset_text() -> Seq<char> {
    "Set partition offset error: InvalidArgument (Local: Invalid argument or configuration)"@
}

/// What a partition list says of a partition.
#[derive(Clone, Copy, Debug, PartialEq, Eq)]
pub struct Found {
    pub offset: Offset,
    pub failed: bool,
}

/// What a partition list says of a partition: of its first element for it.
pub open spec fn found(entries: Seq<Entry>, topic: Seq<char>, partition: i32) -> Option<Found> {
    let at = place(entries, topic, partition);
    if at < entries.len() {
        Some(Found { offset: entries[at].offset, failed: entries[at].failed })
    } else {
        None
    }
}

/// `TopicPartitionList::find_partition` finds the first element for a partition;
/// `TopicPartitionListElem::offset` and `TopicPartitionListElem::error` read it. It panics on a
/// topic that holds a NUL.
#[verifier::external_body]
pub(crate) fn find_entry(list: &TopicPartitionList, topic: &str, partition: i32) -> (r: Option<
    Found,
>)
    requires
        !topic@.contains('\0'),
    ensures
        r == found(list_entries(*list), topic@, partition),
{
    let element = list.find_partition(topic, partition)?;
    let offset = match element.offset() {
        rdkafka::Offset::Beginning => Offset::Beginning,
        rdkafka::Offset::End => Offset::End,
        rdkafka::Offset::Stored => Offset::Stored,
        rdkafka::Offset::Invalid => Offset::Invalid,
        rdkafka::Offset::Offset(n) => Offset::Offset(n),
        rdkafka::Offset::OffsetTail(n) => Offset::OffsetTail(n),
    };
    Some(Found { offset, failed: element.error().is_err() })
}

/// A list speaks of a partition by its first element with that topic and that number, and says
/// nothing where it has none.
pub proof fn law_first_element_counts(
    entries: Seq<Entry>,
    topic: Seq<char>,
    partition: i32,
    at: int,
)
    requires
        0 <= at <= entries.len(),
        forall|j: int|
            0 <= j < at ==> (#[trigger] entries[j]).topic != topic || entries[j].partition
                != partition,
        at < entries.len() ==> entries[at].topic == topic && entries[at].partition == partition,
    ensures
        at == entries.len() ==> found(entries, topic, partition) is None,
        at < entries.len() ==> (found(entries, topic, partition) matches Some(element)
            && element.offset == entries[at].offset && element.failed == entries[at].failed),
{
    lemma_place(entries, topic, partition, at);
}

proof fn lemma_place(entries: Seq<Entry>, topic: Seq<char>, partition: i32, at: int)
    requires
        0 <= at <= entries.len(),
        forall|j: int|
            0 <= j < at ==> (#[trigger] entries[j]).topic != topic || entries[j].partition
                != partition,
        at < entries.len() ==> entries[at].topic == topic && entries[at].partition == partition,
    ensures
        place(entries, topic, partition) == at,
    decreases entries.len(),
{
    if at > 0 {
        let rest = entries.drop_first();
        assert(entries[0].topic != topic || entries[0].partition != partition);
        assert forall|j: int| 0 <= j < at - 1 implies (#[trigger] rest[j]).topic != topic
            || rest[j].partition != partition by {
            assert(entries[j + 1].topic != topic || entries[j + 1].partition != partition);
        }
        lemma_place(rest, topic, partition, at - 1);
    }
}

} // verus!
