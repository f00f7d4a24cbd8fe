//! Listing topics.

use vstd::prelude::*;
use vstd::utf8::encode_utf8;

use crate::json::{is_line, json_text, Json, JsonTree};
use crate::order::{names_sorted, sort_names, texts};
use crate::output::{jsonl, split_lines, write_jsonl};
use crate::text::{begins_with, has_prefix};

verus! {

/// What the `list` command is asked.
#[derive(Debug)]
pub struct Args {
    /// whether internal topics are included
    pub all: bool,
}

/// Whether a topic is listed: internal ones, whose names begin with `__`, only where all are asked
/// for.
pub open spec fn is_listed(name: Seq<char>, all: bool) -> bool {
    all || !begins_with(name, "__"@)
}

/// The topics that are listed, in the order told.
pub open spec fn listed(names: Seq<Seq<char>>, all: bool) -> Seq<Seq<char>>
    decreases names.len(),
{
    if names.len() == 0 {
        Seq::empty()
    } else if is_listed(names.last(), all) {
        listed(names.drop_last(), all).push(names.last())
    } else {
        listed(names.drop_last(), all)
    }
}

/// The topics that are listed, in ascending order.
pub fn list_topics(names: &Vec<String>, all: bool) -> (r: Vec<String>)
    ensures
        names_sorted(texts(r@)),
        texts(r@).to_multiset() == listed(texts(names@), all).to_multiset(),
{
    let mut kept: Vec<String> = Vec::new();
    let mut i: usize = 0;
    let ghost told = texts(names@);
    proof {
        assert(told.take(0) =~= Seq::empty());
        assert(texts(kept@) =~= Seq::empty());
    }
    while i < names.len()
        invariant
            i <= names@.len(),
            told == texts(names@),
            texts(kept@) == listed(told.take(i as int), all),
        decreases names.len() - i,
    {
        proof {
            assert(told.take(i + 1).drop_last() =~= told.take(i as int));
            assert(told.take(i + 1).last() == names@[i as int]@);
        }
        if all || !has_prefix(names[i].as_str(), "__") {
            let ghost before = kept@;
            let name = names[i].clone();
            kept.push(name);
            proof {
                assert(texts(kept@) =~= texts(before).push(name@));
            }
        }
        i += 1;
    }
    proof {
        assert(told.take(told.len() as int) =~= told);
    }
    sort_names(kept)
}

/// The lines of some names: a JSON string each.
pub open spec fn name_lines(names: Seq<Seq<char>>) -> Seq<u8>
    decreases names.len(),
{
    if names.len() == 0 {
        Seq::empty()
    } else {
        name_lines(names.drop_last()) + jsonl(JsonTree::Str(names.last()))
    }
}

/// The texts of the lines of some names.
pub open spec fn name_texts(names: Seq<Seq<char>>) -> Seq<Seq<u8>> {
    Seq::new(names.len(), |i: int| encode_utf8(json_text(JsonTree::Str(names[i]))))
}

/// The lines that are written for some topics: one for each, from which its name is read back.
pub fn topic_lines(topics: &Vec<String>) -> (r: Vec<u8>)
    ensures
        r@ == name_lines(texts(topics@)),
        split_lines(r@) == (name_texts(texts(topics@)), Seq::<u8>::empty()),
        forall|i: int| 0 <= i < topics@.len() ==> is_line(JsonTree::Str((#[trigger] topics@[i])@)),
{
    let mut out: Vec<u8> = Vec::new();
    let mut i: usize = 0;
    let ghost names = texts(topics@);
    proof {
        assert(names.take(0) =~= Seq::empty());
        assert(out@ =~= Seq::<u8>::empty());
        assert(name_texts(names.take(0)) =~= Seq::empty());
    }
    while i < topics.len()
        invariant
            i <= topics@.len(),
            names == texts(topics@),
            out@ == name_lines(names.take(i as int)),
            split_lines(out@) == (name_texts(names.take(i as int)), Seq::<u8>::empty()),
            forall|j: int| 0 <= j < i ==> is_line(JsonTree::Str((#[trigger] topics@[j])@)),
        decreases topics.len() - i,
    {
        proof {
            assert(names.take(i + 1).drop_last() =~= names.take(i as int));
            assert(names.take(i + 1).last() == topics@[i as int]@);
        }
        write_jsonl(&mut out, &Json::Str(topics[i].clone()));
        proof {
            assert(name_texts(names.take(i + 1)) =~= name_texts(names.take(i as int)).push(
                encode_utf8(json_text(JsonTree::Str(topics@[i as int]@))),
            ));
        }
        i += 1;
    }
    proof {
        assert(names.take(names.len() as int) =~= names);
    }
    out
}

/// Every topic is listed as often as it is told, save those whose names begin with two
/// underscores: they are listed only where all topics are asked for.
pub proof fn law_internal_topics_are_hidden(names: Seq<Seq<char>>, all: bool, name: Seq<char>)
    ensures
        listed(names, all).to_multiset().count(name) == if !all && name.len() >= 2 && name[0] == '_'
            && name[1] == '_' {
            0
        } else {
            names.to_multiset().count(name)
        },
    decreases names.len(),
{
    broadcast use vstd::seq_lib::group_to_multiset_ensures;

    reveal_strlit("__");
    if name.len() >= 2 {
        assert(begins_with(name, "__"@) <==> name[0] == '_' && name[1] == '_') by {
            assert(name.take(2) =~= seq![name[0], name[1]]);
            assert("__"@ =~= seq!['_', '_']);
            if begins_with(name, "__"@) {
                assert(name.take(2)[0] == "__"@[0] && name.take(2)[1] == "__"@[1]);
            }
        }
    }
    if names.len() > 0 {
        let rest = names.drop_last();
        law_internal_topics_are_hidden(rest, all, name);
        assert(names =~= rest.push(names.last()));
    }
}

} // verus!
