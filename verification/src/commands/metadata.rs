//! Metadata of the cluster and its topics.

use vstd::prelude::*;

use crate::client::{request_millis, GlobalOptions};
use crate::commands::{MetadataError, PartitionMetadata, TopicMetadata};
use crate::json::Json;
use crate::text::{begins_with, has_prefix};

verus! {

/// A broker as it is shown.
#[derive(Debug)]
pub struct BrokerInfo {
    pub node_id: i32,
    pub host: String,
    pub port: i32,
    pub rack: Json,
}

/// A partition as it is shown.
#[derive(Debug)]
pub struct PartitionInfo {
    pub partition_error_code: i32,
    pub partition_id: i32,
    pub leader: i32,
    pub replicas: Vec<i32>,
    pub isr: Vec<i32>,
}

/// A topic as it is shown.
#[derive(Debug)]
pub struct TopicInfo {
    pub topic_error_code: i32,
    pub topic: String,
    pub is_internal: bool,
    pub partition_metadata: Vec<PartitionInfo>,
}

/// The metadata as it is shown.
#[derive(Debug)]
pub struct MetadataOutput {
    pub throttle_time: i32,
    pub brokers: Vec<BrokerInfo>,
    pub cluster_id: String,
    pub controller_id: i32,
    pub topic_metadata: Vec<TopicInfo>,
}

/// A broker as the cluster tells it.
#[derive(Debug)]
pub struct BrokerMetadata {
    pub id: i32,
    pub host: String,
    pub port: i32,
}

/// What a shown partition says.
#[verifier::ext_equal]
pub struct Partition {
    pub error_code: i32,
    pub id: i32,
    pub leader: i32,
    pub replicas: Seq<i32>,
    pub isr: Seq<i32>,
}

impl View for PartitionInfo {
    type V = Partition;

    open spec fn view(&self) -> Partition {
        Partition {
            error_code: self.partition_error_code,
            id: self.partition_id,
            leader: self.leader,
            replicas: self.replicas@,
            isr: self.isr@,
        }
    }
}

/// The code of an error; zero where there is none.
pub open spec fn code_of(error: Option<MetadataError>) -> i32 {
    match error {
        Some(e) => e.code,
        None => 0,
    }
}

/// The shown form of a partition.
pub open spec fn partition_of(partition: PartitionMetadata) -> Partition {
    Partition {
        error_code: code_of(partition.error),
        id: partition.id,
        leader: partition.leader,
        replicas: partition.replicas@,
        isr: partition.isr@,
    }
}

/// The shown forms of some partitions.
pub open spec fn partitions_of(partitions: Seq<PartitionMetadata>) -> Seq<Partition> {
    Seq::new(partitions.len(), |i: int| partition_of(partitions[i]))
}

/// What some shown partitions say.
pub open spec fn partitions_view(partitions: Seq<PartitionInfo>) -> Seq<Partition> {
    Seq::new(partitions.len(), |i: int| partitions[i]@)
}

/// Ordered partitions with one more, behind those whose number is not greater.
pub open spec fn put_in(partitions: Seq<Partition>, partition: Partition) -> Seq<Partition>
    decreases partitions.len(),
{
    if partitions.len() == 0 || partitions.last().id <= partition.id {
        partitions.push(partition)
    } else {
        put_in(partitions.drop_last(), partition).push(partitions.last())
    }
}

/// Partitions ordered by their numbers; those with one number stay in their order.
pub open spec fn by_number(partitions: Seq<Partition>) -> Seq<Partition>
    decreases partitions.len(),
{
    if partitions.len() == 0 {
        Seq::empty()
    } else {
        put_in(by_number(partitions.drop_last()), partitions.last())
    }
}

/// The partitions with a number, in their order.
pub open spec fn numbered(partitions: Seq<Partition>, id: i32) -> Seq<Partition>
    decreases partitions.len(),
{
    if partitions.len() == 0 {
        Seq::empty()
    } else if partitions.last().id == id {
        numbered(partitions.drop_last(), id).push(partitions.last())
    } else {
        numbered(partitions.drop_last(), id)
    }
}

/// Whether partitions are ordered by their numbers.
pub open spec fn ordered(partitions: Seq<Partition>) -> bool {
    forall|i: int, j: int|
        0 <= i < j < partitions.len() ==> (#[trigger] partitions[i]).id <= (
        #[trigger] partitions[j]).id
}

proof fn lemma_put_in(partitions: Seq<Partition>, partition: Partition, id: i32)
    requires
        ordered(partitions),
    ensures
        ordered(put_in(partitions, partition)),
        put_in(partitions, partition).len() == partitions.len() + 1,
        put_in(partitions, partition).last().id == (if partitions.len() > 0
            && partitions.last().id > partition.id {
            partitions.last().id
        } else {
            partition.id
        }),
        numbered(put_in(partitions, partition), id) == (if partition.id == id {
            numbered(partitions, id).push(partition)
        } else {
            numbered(partitions, id)
        }),
    decreases partitions.len(),
{
    let r = put_in(partitions, partition);
    if partitions.len() == 0 || partitions.last().id <= partition.id {
        assert(r.drop_last() =~= partitions);
        assert forall|i: int, j: int| 0 <= i < j < r.len() implies (#[trigger] r[i]).id <= (
        #[trigger] r[j]).id by {
            if j == partitions.len() && i < partitions.len() - 1 {
                assert(partitions[i].id <= partitions[partitions.len() - 1].id);
            }
        }
    } else {
        let rest = partitions.drop_last();
        let last = partitions.last();
        lemma_put_in(rest, partition, id);
        let head = put_in(rest, partition);
        assert(r.drop_last() =~= head);
        assert forall|i: int, j: int| 0 <= i < j < r.len() implies (#[trigger] r[i]).id <= (
        #[trigger] r[j]).id by {
            if j == head.len() {
                if i < head.len() - 1 {
                    assert(head[i].id <= head[head.len() - 1].id);
                }
                if rest.len() > 0 {
                    assert(partitions[rest.len() - 1].id <= partitions[partitions.len() - 1].id);
                }
            }
        }
    }
}

/// Partitions are shown in the order of their numbers; none is lost or added, and those with one
/// number stay in their order.
pub proof fn law_partitions_ordered(partitions: Seq<Partition>, id: i32)
    ensures
        ordered(by_number(partitions)),
        by_number(partitions).len() == partitions.len(),
        numbered(by_number(partitions), id) == numbered(partitions, id),
    decreases partitions.len(),
{
    if partitions.len() > 0 {
        law_partitions_ordered(partitions.drop_last(), id);
        lemma_put_in(by_number(partitions.drop_last()), partitions.last(), id);
    }
}

fn copy_ids(ids: &Vec<i32>) -> (r: Vec<i32>)
    ensures
        r@ == ids@,
{
    let mut out: Vec<i32> = Vec::new();
    let mut i: usize = 0;
    while i < ids.len()
        invariant
            i <= ids@.len(),
            out@ == ids@.take(i as int),
        decreases ids.len() - i,
    {
        out.push(ids[i]);
        proof {
            assert(out@ =~= ids@.take(i + 1));
        }
        i += 1;
    }
    proof {
        assert(out@ =~= ids@);
    }
    out
}

fn error_code(error: &Option<MetadataError>) -> (r: i32)
    ensures
        r == code_of(*error),
{
    match error {
        Some(e) => e.code,
        None => 0,
    }
}

fn partition_info(partition: &PartitionMetadata) -> (r: PartitionInfo)
    ensures
        r@ == partition_of(*partition),
{
    PartitionInfo {
        partition_error_code: error_code(&partition.error),
        partition_id: partition.id,
        leader: partition.leader,
        replicas: copy_ids(&partition.replicas),
        isr: copy_ids(&partition.isr),
    }
}

proof fn lemma_put_in_place(partitions: Seq<Partition>, partition: Partition, at: int)
    requires
        0 <= at <= partitions.len(),
        at > 0 ==> partitions[at - 1].id <= partition.id,
        forall|j: int| at <= j < partitions.len() ==> (#[trigger] partitions[j]).id > partition.id,
    ensures
        partitions.insert(at, partition) == put_in(partitions, partition),
    decreases partitions.len(),
{
    if at == partitions.len() {
        assert(partitions.insert(at, partition) =~= partitions.push(partition));
    } else {
        let rest = partitions.drop_last();
        lemma_put_in_place(rest, partition, at);
        assert(partitions.insert(at, partition) =~= rest.insert(at, partition).push(
            partitions.last(),
        ));
    }
}

fn sorted_partitions(partitions: &Vec<PartitionMetadata>) -> (r: Vec<PartitionInfo>)
    ensures
        partitions_view(r@) == by_number(partitions_of(partitions@)),
{
    let mut out: Vec<PartitionInfo> = Vec::new();
    let ghost told = partitions_of(partitions@);
    let mut i: usize = 0;
    proof {
        assert(told.take(0) =~= Seq::empty());
        assert(partitions_view(out@) =~= Seq::empty());
    }
    while i < partitions.len()
        invariant
            i <= partitions@.len(),
            told == partitions_of(partitions@),
            partitions_view(out@) == by_number(told.take(i as int)),
        decreases partitions.len() - i,
    {
        let info = partition_info(&partitions[i]);
        let ghost before = partitions_view(out@);
        let mut at: usize = out.len();
        while at > 0 && out[at - 1].partition_id > info.partition_id
            invariant
                at <= out@.len(),
                before == partitions_view(out@),
                forall|j: int|
                    at <= j < before.len() ==> (#[trigger] before[j]).id > info@.id,
            decreases at,
        {
            assert(before[at - 1] == out@[at - 1]@);
            at -= 1;
        }
        proof {
            if at > 0 {
                assert(before[at - 1] == out@[at - 1]@);
            }
            lemma_put_in_place(before, info@, at as int);
            assert(told.take(i + 1).drop_last() =~= told.take(i as int));
            assert(told.take(i + 1).last() == info@);
        }
        out.insert(at, info);
        proof {
            assert(partitions_view(out@) =~= before.insert(at as int, info@));
        }
        i += 1;
    }
    proof {
        assert(told.take(told.len() as int) =~= told);
    }
    out
}

/// Whether a topic is shown as the cluster tells it: with its error code, whether its name marks it
/// as internal, and its partitions by number.
pub open spec fn shows_topic(shown: TopicInfo, topic: TopicMetadata) -> bool {
    &&& shown.topic_error_code == code_of(topic.error)
    &&& shown.topic@ == topic.name@
    &&& shown.is_internal == begins_with(topic.name@, "__"@)
    &&& partitions_view(shown.partition_metadata@) == by_number(partitions_of(topic.partitions@))
}

/// The shown form of a topic.
pub fn topic_info(topic: &TopicMetadata) -> (r: TopicInfo)
    ensures
        shows_topic(r, *topic),
{
    TopicInfo {
        topic_error_code: error_code(&topic.error),
        is_internal: has_prefix(topic.name.as_str(), "__"),
        topic: topic.name.clone(),
        partition_metadata: sorted_partitions(&topic.partitions),
    }
}

/// Whether a broker is shown as the cluster tells it; its rack is not known.
pub open spec fn shows_broker(shown: BrokerInfo, broker: BrokerMetadata) -> bool {
    &&& shown.node_id == broker.id
    &&& shown.host@ == broker.host@
    &&& shown.port == broker.port
    &&& shown.rack is Null
}

/// The metadata as it is shown: brokers and topics in the order told.
pub fn metadata_output(
    brokers: &Vec<BrokerMetadata>,
    cluster_id: Option<String>,
    controller_id: i32,
    topics: &Vec<TopicMetadata>,
) -> (r: MetadataOutput)
    ensures
        r.throttle_time == 0,
        r.cluster_id@ == (match cluster_id {
            Some(id) => id@,
            None => Seq::empty(),
        }),
        r.controller_id == controller_id,
        r.brokers@.len() == brokers@.len(),
        forall|i: int|
            0 <= i < brokers@.len() ==> shows_broker(#[trigger] r.brokers@[i], brokers@[i]),
        r.topic_metadata@.len() == topics@.len(),
        forall|i: int|
            0 <= i < topics@.len() ==> shows_topic(#[trigger] r.topic_metadata@[i], topics@[i]),
{
    let mut shown_brokers: Vec<BrokerInfo> = Vec::new();
    let mut i: usize = 0;
    while i < brokers.len()
        invariant
            i <= brokers@.len(),
            shown_brokers@.len() == i,
            forall|j: int|
                0 <= j < i ==> shows_broker(#[trigger] shown_brokers@[j], brokers@[j]),
        decreases brokers.len() - i,
    {
        shown_brokers.push(
            BrokerInfo {
                node_id: brokers[i].id,
                host: brokers[i].host.clone(),
                port: brokers[i].port,
                rack: Json::Null,
            },
        );
        i += 1;
    }
    let mut shown_topics: Vec<TopicInfo> = Vec::new();
    let mut k: usize = 0;
    while k < topics.len()
        invariant
            k <= topics@.len(),
            shown_topics@.len() == k,
            forall|j: int| 0 <= j < k ==> shows_topic(#[trigger] shown_topics@[j], topics@[j]),
        decreases topics.len() - k,
    {
        shown_topics.push(topic_info(&topics[k]));
        k += 1;
    }
    let cluster_id = match cluster_id {
        Some(id) => id,
        None => String::new(),
    };
    MetadataOutput {
        throttle_time: 0,
        brokers: shown_brokers,
        cluster_id,
        controller_id,
        topic_metadata: shown_topics,
    }
}

/// The milliseconds that the request for the controller may take; what does not fit is cut off.
pub fn controller_timeout(opts: &GlobalOptions) -> (r: i32)
    ensures
        r == (request_millis(opts.timeout_ms) as u128) as i32,
{
    let millis: u128 = opts.operation_timeout().as_millis();
    #[verifier::truncate]
    (millis as i32)
}

/// A topic is shown as it is told: its name, the code of its error or zero, and as internal just
/// where its name begins with two underscores.
pub proof fn law_topics_are_shown_as_told(shown: TopicInfo, topic: TopicMetadata)
    requires
        shows_topic(shown, topic),
    ensures
        shown.topic@ == topic.name@,
        topic.error matches Some(error) ==> shown.topic_error_code == error.code,
        topic.error is None ==> shown.topic_error_code == 0,
        shown.is_internal <==> topic.name@.len() >= 2 && topic.name@[0] == '_' && topic.name@[1]
            == '_',
        shown.partition_metadata@.len() == topic.partitions@.len(),
        forall|i: int, j: int|
            0 <= i < j < shown.partition_metadata@.len() ==> (
            #[trigger] shown.partition_metadata@[i]).partition_id <= (
            #[trigger] shown.partition_metadata@[j]).partition_id,
{
    let name = topic.name@;
    reveal_strlit("__");
    assert("__"@ =~= seq!['_', '_']);
    if name.len() >= 2 {
        assert(name.take(2) =~= seq![name[0], name[1]]);
        if begins_with(name, "__"@) {
            assert(name.take(2)[0] == "__"@[0] && name.take(2)[1] == "__"@[1]);
        }
    }
    let told = partitions_of(topic.partitions@);
    let view = partitions_view(shown.partition_metadata@);
    law_partitions_ordered(told, 0);
    assert(view.len() == told.len());
    assert forall|i: int, j: int| 0 <= i < j < shown.partition_metadata@.len() implies (
    #[trigger] shown.partition_metadata@[i]).partition_id <= (
    #[trigger] shown.partition_metadata@[j]).partition_id by {
        assert(view[i].id <= view[j].id);
    }
}

/// A partition is shown as it is told: its number, leader, replicas and in-sync replicas, and the
/// code of its error or zero.
pub proof fn law_partitions_are_shown_as_told(partitions: Seq<PartitionMetadata>, i: int)
    requires
        0 <= i < partitions.len(),
    ensures
        ({
            let shown = partitions_of(partitions);
            &&& shown.len() == partitions.len()
            &&& shown[i].id == partitions[i].id
            &&& shown[i].leader == partitions[i].leader
            &&& shown[i].replicas == partitions[i].replicas@
            &&& shown[i].isr == partitions[i].isr@
            &&& partitions[i].error matches Some(error) ==> shown[i].error_code == error.code
            &&& partitions[i].error is None ==> shown[i].error_code == 0
        }),
{
}

/// A broker is shown as it is told, without a rack.
pub proof fn law_brokers_are_shown_as_told(shown: BrokerInfo, broker: BrokerMetadata)
    requires
        shows_broker(shown, broker),
    ensures
        shown.node_id == broker.id,
        shown.host@ == broker.host@,
        shown.port == broker.port,
        shown.rack is Null,
{
}

/// What is told of a shown partition is what it holds.
pub proof fn law_partition_contents_are_told(partition: PartitionInfo)
    ensures
        partition@.error_code == partition.partition_error_code,
        partition@.id == partition.partition_id,
        partition@.leader == partition.leader,
        partition@.replicas == partition.replicas@,
        partition@.isr == partition.isr@,
{
}

} // verus!
