//! The length of a link target's name.
//!
//! Names that are not valid text are stored with a mark, U+FFFE, and with each
//! stray byte as a character of a private range. Decoded, the mark is gone and
//! such a character is one byte again.

use vstd::prelude::*;
use vstd::string::StrSliceExecFns;
#[allow(unused_imports)]
use vstd::utf8::{
    char_is_scalar, decode_utf8, decode_utf8_encode_utf8, encode_scalar, encode_utf8, valid_utf8,
};

use crate::text::utf8_text;

verus! {

/// How many bytes a character takes in UTF-8.
pub open spec fn utf8_width(c: char) -> nat {
    if (c as u32) < 0x80 {
        1
    } else if (c as u32) < 0x800 {
        2
    } else if (c as u32) < 0x1_0000 {
        3
    } else {
        4
    }
}

/// How many bytes a stored character stands for.
pub open spec fn decoded_width(c: char) -> nat {
    if c as u32 == 0xfffe {
        0
    } else if 0xe080 <= c as u32 <= 0xe0ff {
        1
    } else {
        utf8_width(c)
    }
}

pub open spec fn decoded_widths(text: Seq<char>) -> nat
    decreases text.len(),
{
    if text.len() == 0 {
        0
    } else {
        decoded_width(text[0]) + decoded_widths(text.skip(1))
    }
}

/// Whether the text holds the mark.
pub open spec fn is_marked(text: Seq<char>) -> bool {
    exists|i: int| 0 <= i < text.len() && #[trigger] text[i] as u32 == 0xfffe
}

/// The length of the name that stored bytes decode to.
pub open spec fn decoded_name_len(bytes: Seq<u8>) -> nat {
    if valid_utf8(bytes) && is_marked(decode_utf8(bytes)) {
        decoded_widths(decode_utf8(bytes))
    } else {
        bytes.len()
    }
}

proof fn lemma_encoded_is_wide_enough(text: Seq<char>)
    ensures
        decoded_widths(text) <= encode_utf8(text).len(),
    decreases text.len(),
{
    if text.len() > 0 {
        broadcast use char_is_scalar;

        let rest = text.drop_first();
        assert(rest =~= text.skip(1));
        lemma_encoded_is_wide_enough(rest);
        assert(encode_utf8(text) == encode_scalar(text[0] as u32) + encode_utf8(rest));
    }
}

proof fn lemma_widths_step(text: Seq<char>, at: int)
    requires
        0 <= at < text.len(),
    ensures
        decoded_widths(text.take(at + 1)) == decoded_widths(text.take(at)) + decoded_width(
            text[at],
        ),
    decreases at,
{
    let longer = text.take(at + 1);
    if at == 0 {
        assert(longer.skip(1) =~= Seq::empty());
        assert(text.take(0) =~= Seq::empty());
        assert(decoded_widths(longer) == decoded_width(longer[0]) + decoded_widths(
            longer.skip(1),
        ));
    } else {
        let rest = text.skip(1);
        lemma_widths_step(rest, at - 1);
        assert(longer.skip(1) =~= rest.take(at));
        assert(text.take(at).skip(1) =~= rest.take(at - 1));
        assert(rest[at - 1] == text[at]);
    }
}

proof fn lemma_widths_grow(text: Seq<char>, at: int)
    requires
        0 <= at <= text.len(),
    ensures
        decoded_widths(text.take(at)) <= decoded_widths(text),
    decreases text.len() - at,
{
    if at == text.len() {
        assert(text.take(at) =~= text);
    } else {
        lemma_widths_step(text, at);
        lemma_widths_grow(text, at + 1);
    }
}

fn width_of(c: char) -> (width: usize)
    ensures
        width == decoded_width(c),
{
    let code: u32 = c as u32;
    if code == 0xfffe {
        0
    } else if 0xe080 <= code && code <= 0xe0ff {
        1
    } else if code < 0x80 {
        1
    } else if code < 0x800 {
        2
    } else if code < 0x1_0000 {
        3
    } else {
        4
    }
}

pub fn decoded_rar50_name_len(bytes: &[u8]) -> (len: usize)
    ensures
        len == decoded_name_len(bytes@),
{
    let text: &str = match utf8_text(bytes) {
        Some(text) => text,
        None => {
            return bytes.len();
        },
    };
    let total: usize = bytes.len();
    let count: usize = text.unicode_len();
    proof {
        lemma_encoded_is_wide_enough(text@);
        decode_utf8_encode_utf8(bytes@);
        assert(text@.take(0) =~= Seq::empty());
    }
    let mut marked: bool = false;
    let mut width: usize = 0;
    let mut at: usize = 0;
    while at < count
        invariant
            at <= count == text@.len(),
            decoded_widths(text@) <= total,
            width == decoded_widths(text@.take(at as int)),
            marked <==> exists|i: int| 0 <= i < at && #[trigger] text@[i] as u32 == 0xfffe,
        decreases count - at,
    {
        let c: char = text.get_char(at);
        proof {
            lemma_widths_step(text@, at as int);
            lemma_widths_grow(text@, at + 1);
        }
        if c as u32 == 0xfffe {
            assert(text@[at as int] as u32 == 0xfffe);
            marked = true;
        }
        width = width + width_of(c);
        at = at + 1;
    }
    assert(text@.take(count as int) =~= text@);
    if marked {
        width
    } else {
        total
    }
}

/// A character by itself counts for nothing where it is the mark, for the one byte it
/// stands for where it is one of those that map bytes, and for what text takes otherwise.
pub proof fn law_characters_count_for_what_they_stand_for(c: char)
    ensures
        c as u32 == 0xfffe ==> decoded_widths(seq![c]) == 0,
        0xe080 <= c as u32 <= 0xe0ff ==> decoded_widths(seq![c]) == 1,
        c as u32 != 0xfffe && !(0xe080 <= c as u32 <= 0xe0ff) ==> decoded_widths(seq![c])
            == encode_utf8(seq![c]).len(),
{
    broadcast use char_is_scalar;

    let text = seq![c];
    assert(text.skip(1) =~= Seq::empty());
    assert(text.drop_first() =~= Seq::empty());
    assert(decoded_widths(text.skip(1)) == 0);
    assert(encode_utf8(text.drop_first()).len() == 0);
    assert(encode_utf8(text) == encode_scalar(c as u32) + encode_utf8(text.drop_first()));
}

/// Texts behind one another count for what they count for each.
pub proof fn law_texts_add_up(first: Seq<char>, second: Seq<char>)
    ensures
        decoded_widths(first + second) == decoded_widths(first) + decoded_widths(second),
    decreases first.len(),
{
    let all = first + second;
    if first.len() == 0 {
        assert(all =~= second);
    } else {
        law_texts_add_up(first.skip(1), second);
        assert(all.skip(1) =~= first.skip(1) + second);
        assert(all[0] == first[0]);
    }
}

/// A name is as long as it is stored, unless it is text that holds the mark; it is never
/// longer.
pub proof fn law_names_are_no_longer_than_stored(bytes: Seq<u8>)
    ensures
        decoded_name_len(bytes) <= bytes.len(),
        !valid_utf8(bytes) || (forall|i: int|
            0 <= i < decode_utf8(bytes).len() ==> #[trigger] decode_utf8(bytes)[i] as u32
                != 0xfffe) ==> decoded_name_len(bytes) == bytes.len(),
        valid_utf8(bytes) && (exists|i: int|
            0 <= i < decode_utf8(bytes).len() && #[trigger] decode_utf8(bytes)[i] as u32
                == 0xfffe) ==> decoded_name_len(bytes) == decoded_widths(decode_utf8(bytes)),
{
    if valid_utf8(bytes) && is_marked(decode_utf8(bytes)) {
        lemma_encoded_is_wide_enough(decode_utf8(bytes));
        decode_utf8_encode_utf8(bytes);
    }
}

} // verus!
