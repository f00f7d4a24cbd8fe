//! Output lines: JSON texts, one to a line.

use vstd::prelude::*;
use vstd::utf8::{char_u32_cast, encode_scalar, encode_utf8};

use crate::json::{is_line, json_text, Json, JsonTree};

verus! {

/// The bytes of an output line: the JSON text of a value and a line feed.
pub open spec fn jsonl(tree: JsonTree) -> Seq<u8> {
    encode_utf8(json_text(tree)).push(10u8)
}

/// The lines that stand in some bytes, each without the line feed that ends it, and what follows
/// the last line feed.
pub open spec fn split_lines(bytes: Seq<u8>) -> (Seq<Seq<u8>>, Seq<u8>)
    decreases bytes.len(),
{
    if bytes.len() == 0 {
        (Seq::empty(), Seq::empty())
    } else {
        let (lines, open) = split_lines(bytes.drop_last());
        if bytes.last() == 10 {
            (lines.push(open), Seq::empty())
        } else {
            (lines, open.push(bytes.last()))
        }
    }
}

/// A value adds one line to lines that are complete: its text.
pub proof fn law_value_is_one_line(before: Seq<u8>, tree: JsonTree)
    requires
        split_lines(before).1 == Seq::<u8>::empty(),
        is_line(tree),
    ensures
        split_lines(before + jsonl(tree)) == (
            split_lines(before).0.push(encode_utf8(json_text(tree))),
            Seq::<u8>::empty(),
        ),
{
    let text = encode_utf8(json_text(tree));
    lemma_no_line_feed(json_text(tree));
    lemma_open_line(before, text);
    assert((before + jsonl(tree)).drop_last() =~= before + text);
}

proof fn lemma_open_line(before: Seq<u8>, text: Seq<u8>)
    requires
        split_lines(before).1 == Seq::<u8>::empty(),
        !text.contains(10u8),
    ensures
        split_lines(before + text) == (split_lines(before).0, text),
    decreases text.len(),
{
    if text.len() == 0 {
        assert(before + text =~= before);
        assert(text =~= Seq::<u8>::empty());
    } else {
        let rest = text.drop_last();
        assert(text.contains(text.last()));
        assert forall|i: int| 0 <= i < rest.len() implies rest[i] != 10u8 by {
            assert(text.contains(text[i]));
        }
        lemma_open_line(before, rest);
        assert((before + text).drop_last() =~= before + rest);
        assert(rest.push(text.last()) =~= text);
    }
}

/// The bytes of a text hold a line feed only where the text does.
proof fn lemma_no_line_feed(text: Seq<char>)
    requires
        !text.contains('\n'),
    ensures
        !encode_utf8(text).contains(10u8),
    decreases text.len(),
{
    if text.len() > 0 {
        let rest = text.drop_first();
        let first = text[0] as u32;
        assert(text.contains(text[0]));
        assert(first != 10) by {
            char_u32_cast(text[0], first);
            char_u32_cast('\n', 10u32);
        }
        assert forall|i: int| 0 <= i < rest.len() implies rest[i] != '\n' by {
            assert(text.contains(text[i + 1]));
        }
        lemma_no_line_feed(rest);
        lemma_scalar_bytes(first);
        assert forall|i: int| 0 <= i < encode_utf8(text).len() implies encode_utf8(text)[i]
            != 10u8 by {
            if i >= encode_scalar(first).len() {
                assert(encode_utf8(rest).contains(
                    encode_utf8(rest)[i - encode_scalar(first).len()],
                ));
            }
        }
    }
}

proof fn lemma_scalar_bytes(scalar: u32)
    requires
        scalar != 10,
    ensures
        forall|i: int|
            0 <= i < encode_scalar(scalar).len() ==> #[trigger] encode_scalar(scalar)[i] != 10u8,
{
    assert(scalar != 10 && scalar <= 0x7F ==> (scalar & 0x7F) as u8 != 10u8) by (bit_vector);
    assert(0xC0 | ((scalar >> 6) & 0x1F) as u8 != 10u8) by (bit_vector);
    assert(0xE0 | ((scalar >> 12) & 0x0F) as u8 != 10u8) by (bit_vector);
    assert(0xF0 | ((scalar >> 18) & 0x7) as u8 != 10u8) by (bit_vector);
    assert(0x80 | (scalar & 0x3F) as u8 != 10u8) by (bit_vector);
    assert(0x80 | ((scalar >> 6) & 0x3F) as u8 != 10u8) by (bit_vector);
    assert(0x80 | ((scalar >> 12) & 0x3F) as u8 != 10u8) by (bit_vector);
}

/// Writes a value as an output line: the text of the value, which is one line and is read back as
/// the value, and a line feed.
pub fn write_jsonl(out: &mut Vec<u8>, value: &Json)
    ensures
        final(out)@ == old(out)@ + jsonl(value@),
        is_line(value@),
        split_lines(old(out)@).1 == Seq::<u8>::empty() ==> split_lines(final(out)@) == (
            split_lines(old(out)@).0.push(encode_utf8(json_text(value@))),
            Seq::<u8>::empty(),
        ),
{
    let text = value.text();
    let ghost before = out@;
    let bytes = text.as_str().as_bytes();
    let mut i: usize = 0;
    while i < bytes.len()
        invariant
            i <= bytes@.len(),
            out@ == before + bytes@.take(i as int),
        decreases bytes.len() - i,
    {
        out.push(bytes[i]);
        proof {
            assert(out@ =~= before + bytes@.take(i + 1));
        }
        i += 1;
    }
    out.push(10u8);
    proof {
        assert(bytes@.take(bytes@.len() as int) =~= bytes@);
        assert(out@ =~= before + jsonl(value@));
        if split_lines(before).1 == Seq::<u8>::empty() {
            law_value_is_one_line(before, value@);
        }
    }
}

/// A line is the UTF-8 of the JSON text of its value and one line feed.
pub proof fn law_lines_are_text_and_line_feed(tree: JsonTree)
    ensures
        jsonl(tree).len() == encode_utf8(json_text(tree)).len() + 1,
        jsonl(tree).last() == 10,
        jsonl(tree).drop_last() == encode_utf8(json_text(tree)),
{
    assert(jsonl(tree).drop_last() =~= encode_utf8(json_text(tree)));
}

} // verus!
