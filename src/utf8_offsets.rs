//! Byte offsets of character positions in UTF-8 text.
use vstd::prelude::*;
use vstd::utf8::*;

verus! {

/// The UTF-8 encoding of a concatenation is the concatenation of the encodings.
pub proof fn lemma_encode_concat(a: Seq<char>, b: Seq<char>)
    ensures
        encode_utf8(a + b) == encode_utf8(a) + encode_utf8(b),
    decreases a.len(),
{
    if a.len() == 0 {
        assert(a + b =~= b);
        assert(encode_utf8(a) + encode_utf8(b) =~= encode_utf8(b));
    } else {
        lemma_encode_concat(a.drop_first(), b);
        assert((a + b).drop_first() =~= a.drop_first() + b);
        assert((a + b)[0] == a[0]);
        assert(encode_scalar(a[0] as u32) + (encode_utf8(a.drop_first()) + encode_utf8(b))
            =~= (encode_scalar(a[0] as u32) + encode_utf8(a.drop_first())) + encode_utf8(b));
    }
}

/// The byte offset at which the character at position `k` of `chars` starts
/// (or the end of the encoding, when `k` is the length) is a character boundary
/// of the encoded text: a copy of the bytes before it never splits a character.
pub proof fn lemma_prefix_offset_is_boundary(chars: Seq<char>, k: int)
    requires
        0 <= k <= chars.len(),
    ensures
        valid_utf8(encode_utf8(chars)),
        encode_utf8(chars.subrange(0, k)).len() <= encode_utf8(chars).len(),
        is_char_boundary(encode_utf8(chars), encode_utf8(chars.subrange(0, k)).len() as int),
    decreases k,
{
    encode_utf8_valid_utf8(chars);
    if k == 0 {
        assert(chars.subrange(0, 0) =~= Seq::<char>::empty());
    } else {
        let bytes = encode_utf8(chars);
        let rest = chars.drop_first();
        lemma_prefix_offset_is_boundary(rest, k - 1);
        encode_utf8_first_scalar(chars);
        let head = encode_scalar(chars[0] as u32);
        assert(bytes == head + encode_utf8(rest));
        assert(pop_first_scalar(bytes) =~= encode_utf8(rest));
        let pre = chars.subrange(0, k);
        assert(pre[0] == chars[0]);
        assert(pre.drop_first() =~= rest.subrange(0, k - 1));
        assert(encode_utf8(pre) == head + encode_utf8(rest.subrange(0, k - 1)));
        assert(head.len() > 0);
    }
}

} // verus!
