use vstd::prelude::*;
use vstd::utf8::*;

verus! {

/// The number of bytes of the UTF-8 encoding of `chars`.
pub open spec fn utf8_len(chars: Seq<char>) -> int {
    encode_utf8(chars).len() as int
}

/// `n` bytes into the UTF-8 encoding of `chars` is the start of a
/// character or the end of the encoding.
pub open spec fn is_char_boundary_of(chars: Seq<char>, n: int) -> bool {
    exists|k: int| 0 <= k <= chars.len() && #[trigger] utf8_len(chars.take(k)) == n
}

/// The encoding of a concatenation is the concatenation of the encodings.
pub proof fn lemma_encode_concat(a: Seq<char>, b: Seq<char>)
    ensures
        encode_utf8(a + b) == encode_utf8(a) + encode_utf8(b),
    decreases a.len(),
{
    if a.len() == 0 {
        assert(a + b =~= b);
        assert(encode_utf8(a) =~= Seq::<u8>::empty());
        assert(encode_utf8(a) + encode_utf8(b) =~= encode_utf8(b));
    } else {
        lemma_encode_concat(a.drop_first(), b);
        assert((a + b).drop_first() =~= a.drop_first() + b);
        assert((a + b)[0] == a[0]);
        let e0 = encode_scalar(a[0] as u32);
        assert(encode_utf8(a + b) == e0 + encode_utf8((a + b).drop_first()));
        assert(encode_utf8(a) == e0 + encode_utf8(a.drop_first()));
        assert(e0 + (encode_utf8(a.drop_first()) + encode_utf8(b)) =~= (e0 + encode_utf8(
            a.drop_first(),
        )) + encode_utf8(b));
    }
}

/// The encoding of one character is one to four bytes long.
pub proof fn lemma_scalar_len(c: char)
    ensures
        1 <= encode_scalar(c as u32).len() <= 4,
        encode_utf8(seq![c]) == encode_scalar(c as u32),
{
    let s = seq![c];
    assert(s.drop_first() =~= Seq::<char>::empty());
    assert(encode_utf8(s.drop_first()) =~= Seq::<u8>::empty());
    assert(encode_scalar(c as u32) + Seq::<u8>::empty() =~= encode_scalar(c as u32));
}

/// Adding one character to a prefix adds the length of its encoding.
pub proof fn lemma_utf8_len_step(chars: Seq<char>, k: int)
    requires
        0 <= k < chars.len(),
    ensures
        utf8_len(chars.take(k + 1)) == utf8_len(chars.take(k)) + encode_scalar(
            chars[k] as u32,
        ).len(),
        utf8_len(chars.take(k)) < utf8_len(chars.take(k + 1)),
{
    assert(chars.take(k + 1) =~= chars.take(k) + seq![chars[k]]);
    lemma_encode_concat(chars.take(k), seq![chars[k]]);
    lemma_scalar_len(chars[k]);
}

/// Longer prefixes have longer encodings.
pub proof fn lemma_utf8_len_monotonic(chars: Seq<char>, i: int, j: int)
    requires
        0 <= i <= j <= chars.len(),
    ensures
        utf8_len(chars.take(i)) <= utf8_len(chars.take(j)),
        i < j ==> utf8_len(chars.take(i)) < utf8_len(chars.take(j)),
    decreases j - i,
{
    if i < j {
        lemma_utf8_len_monotonic(chars, i, j - 1);
        lemma_utf8_len_step(chars, j - 1);
    }
}

/// The encoding of a sequence split in three parts.
pub proof fn lemma_encode_split(chars: Seq<char>, i: int, j: int)
    requires
        0 <= i <= j <= chars.len(),
    ensures
        encode_utf8(chars) == encode_utf8(chars.take(i)) + encode_utf8(chars.subrange(i, j))
            + encode_utf8(chars.skip(j)),
        utf8_len(chars) == utf8_len(chars.take(i)) + utf8_len(chars.subrange(i, j)) + utf8_len(
            chars.skip(j),
        ),
{
    assert(chars =~= (chars.take(i) + chars.subrange(i, j)) + chars.skip(j));
    lemma_encode_concat(chars.take(i) + chars.subrange(i, j), chars.skip(j));
    lemma_encode_concat(chars.take(i), chars.subrange(i, j));
}

/// The number of bytes of the UTF-8 encoding of `c`.
pub fn char_utf8_len(c: char) -> (n: usize)
    ensures
        n == encode_scalar(c as u32).len(),
        1 <= n <= 4,
{
    broadcast use char_is_scalar;

    let v = c as u32;
    proof {
        char_is_scalar(c);
    }
    if v <= 0x7F {
        1
    } else if v <= 0x7FF {
        2
    } else if v <= 0xFFFF {
        3
    } else {
        4
    }
}

} // verus!
