//! What UTF-8 looks like from its bytes: where characters start, and how encodings join.

use vstd::prelude::*;
use vstd::utf8::{
    char_is_scalar, encode_scalar, encode_utf8, encode_utf8_first_scalar, has_width_1_encoding,
    is_continuation_byte, leading_byte_width_1,
};

verus! {

/// The encoding of one character: one byte that starts it and up to three that continue it.
/// ASCII is encoded as itself, and no byte of anything else is ASCII.
pub proof fn lemma_one_char(c: char)
    ensures
        encode_utf8(seq![c]) == encode_scalar(c as u32),
        1 <= encode_scalar(c as u32).len() <= 4,
        !is_continuation_byte(encode_scalar(c as u32)[0]),
        forall|i: int|
            1 <= i < encode_scalar(c as u32).len() ==> is_continuation_byte(
                #[trigger] encode_scalar(c as u32)[i],
            ),
        (c as u32) < 0x80 ==> encode_scalar(c as u32) == seq![c as u8],
        (c as u32) >= 0x80 ==> encode_scalar(c as u32).len() > 1,
        (c as u32) >= 0x80 ==> forall|i: int|
            0 <= i < encode_scalar(c as u32).len() ==> #[trigger] encode_scalar(c as u32)[i]
                >= 0x80,
{
    let one = seq![c];
    let s = c as u32;
    char_is_scalar(c);
    assert(one.drop_first() =~= Seq::<char>::empty());
    assert(encode_utf8(Seq::<char>::empty()) =~= seq![]);
    assert(encode_utf8(one) =~= encode_scalar(s));
    encode_utf8_first_scalar(one);
    if has_width_1_encoding(s) {
        assert(s as u8 == leading_byte_width_1(s)) by (bit_vector)
            requires
                has_width_1_encoding(s),
        ;
        assert(encode_scalar(s) =~= seq![c as u8]);
    }
}

/// The encoding of two texts together is their encodings together.
pub proof fn lemma_encode_join(a: Seq<char>, b: Seq<char>)
    ensures
        encode_utf8(a + b) == encode_utf8(a) + encode_utf8(b),
    decreases a.len(),
{
    if a.len() == 0 {
        assert(a + b =~= b);
        assert(encode_utf8(a) =~= seq![]);
        assert(encode_utf8(a) + encode_utf8(b) =~= encode_utf8(b));
    } else {
        lemma_encode_join(a.drop_first(), b);
        assert((a + b).drop_first() =~= a.drop_first() + b);
        assert((a + b)[0] == a[0]);
        assert(encode_utf8(a + b) =~= encode_utf8(a) + encode_utf8(b));
    }
}

/// The encoding of a text ends with the encoding of its last character.
pub proof fn lemma_encode_last(s: Seq<char>)
    requires
        s.len() > 0,
    ensures
        encode_utf8(s) == encode_utf8(s.drop_last()) + encode_scalar(s.last() as u32),
{
    lemma_encode_join(s.drop_last(), seq![s.last()]);
    lemma_one_char(s.last());
    assert(s.drop_last() + seq![s.last()] =~= s);
}

} // verus!
