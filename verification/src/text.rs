use vstd::prelude::*;
use vstd::utf8::*;

verus! {

/// Number of bytes in the UTF-8 encoding of `c`.
pub open spec fn width(c: char) -> nat {
    encode_scalar(c as u32).len()
}

/// Byte offset at which the character with index `i` starts in the UTF-8
/// encoding of `s` (for `i == s.len()`: the length of the encoding).
pub open spec fn offset(s: Seq<char>, i: int) -> nat {
    encode_utf8(s.take(i)).len()
}

/// Encoding distributes over concatenation.
pub proof fn lemma_encode_concat(a: Seq<char>, b: Seq<char>)
    ensures
        encode_utf8(a + b) == encode_utf8(a) + encode_utf8(b),
    decreases a.len(),
{
    if a.len() == 0 {
        assert(a + b =~= b);
        assert(encode_utf8(a) + encode_utf8(b) =~= encode_utf8(b));
    } else {
        lemma_encode_concat(a.drop_first(), b);
        assert((a + b).drop_first() =~= a.drop_first() + b);
        assert(encode_utf8(a + b) =~= encode_utf8(a) + encode_utf8(b));
    }
}

/// A character takes between one and four bytes.
pub proof fn lemma_width_bounds(c: char)
    ensures
        1 <= width(c) <= 4,
{
}

/// The offset of the start is zero, and each character moves the offset on
/// by its own width.
pub proof fn lemma_offset_step(s: Seq<char>, i: int)
    requires
        0 <= i < s.len(),
    ensures
        offset(s, 0) == 0,
        offset(s, i + 1) == offset(s, i) + width(s[i]),
{
    assert(s.take(0) =~= Seq::<char>::empty());
    let one = seq![s[i]];
    assert(s.take(i + 1) =~= s.take(i) + one);
    lemma_encode_concat(s.take(i), one);
    assert(one.drop_first() =~= Seq::<char>::empty());
    assert(encode_utf8(one) =~= encode_scalar(s[i] as u32)) by {
        reveal_with_fuel(encode_utf8, 2);
    }
}

/// Offsets grow with the index, by at least one byte per character.
pub proof fn lemma_offset_monotonic(s: Seq<char>, i: int, j: int)
    requires
        0 <= i <= j <= s.len(),
    ensures
        offset(s, i) + (j - i) <= offset(s, j),
    decreases j - i,
{
    if i < j {
        lemma_offset_monotonic(s, i, j - 1);
        lemma_offset_step(s, j - 1);
        lemma_width_bounds(s[j - 1]);
    }
}

/// The bytes between two offsets are the encoding of the characters between
/// the two indices.
pub proof fn lemma_encode_subrange(s: Seq<char>, i: int, j: int)
    requires
        0 <= i <= j <= s.len(),
    ensures
        offset(s, i) <= offset(s, j) <= encode_utf8(s).len(),
        encode_utf8(s).subrange(offset(s, i) as int, offset(s, j) as int) == encode_utf8(
            s.subrange(i, j),
        ),
{
    let a = s.take(i);
    let b = s.subrange(i, j);
    let c = s.skip(j);
    assert(s.take(j) =~= a + b);
    assert(s =~= s.take(j) + c);
    lemma_encode_concat(a, b);
    lemma_encode_concat(s.take(j), c);
    assert(encode_utf8(s).subrange(offset(s, i) as int, offset(s, j) as int) =~= encode_utf8(b));
}

/// Every offset of a character index is a character boundary of the encoding.
pub proof fn lemma_offset_is_boundary(s: Seq<char>, i: int)
    requires
        0 <= i <= s.len(),
    ensures
        is_char_boundary(encode_utf8(s), offset(s, i) as int),
    decreases s.len(),
{
    broadcast use encode_utf8_valid_utf8;

    let bytes = encode_utf8(s);
    if i == 0 {
        assert(s.take(0) =~= Seq::<char>::empty());
    } else {
        let rest = s.drop_first();
        encode_utf8_first_scalar(s);
        assert(pop_first_scalar(bytes) =~= encode_utf8(rest));
        lemma_offset_is_boundary(rest, i - 1);
        let one = seq![s[0]];
        assert(s.take(i) =~= one + rest.take(i - 1));
        lemma_encode_concat(one, rest.take(i - 1));
        assert(one.drop_first() =~= Seq::<char>::empty());
        assert(encode_utf8(one) =~= encode_scalar(s[0] as u32)) by {
            reveal_with_fuel(encode_utf8, 2);
        }
        lemma_encode_subrange(s, 0, i);
        lemma_width_bounds(s[0]);
        assert(offset(s, i) - length_of_first_scalar(bytes) == offset(rest, i - 1));
    }
}

/// Two character sequences with the same encoding are the same sequence.
pub proof fn lemma_encode_injective(a: Seq<char>, b: Seq<char>)
    requires
        encode_utf8(a) == encode_utf8(b),
    ensures
        a == b,
{
    encode_utf8_decode_utf8(a);
    encode_utf8_decode_utf8(b);
}

/// Number of bytes that `c` takes in UTF-8.
pub fn char_width(c: char) -> (w: usize)
    ensures
        w == width(c),
        1 <= w <= 4,
{
    let v: u32 = c as u32;
    proof {
        char_is_scalar(c);
    }
    if v < 0x80 {
        1
    } else if v < 0x800 {
        2
    } else if v < 0x10000 {
        3
    } else {
        4
    }
}

/// The characters of `s`, in order.
pub fn chars_of(s: &str) -> (v: Vec<char>)
    ensures
        v@ == s@,
{
    let mut v: Vec<char> = Vec::new();
    for c in it: s.chars()
        invariant
            v@ == it.seq().take(it.index()),
    {
        v.push(c);
    }
    v
}

/// The part of `s` that holds the characters `i..j`, given the byte offsets
/// `from` and `to` at which they start and end.
pub(crate) fn slice<'a>(s: &'a str, from: usize, to: usize, Ghost(i): Ghost<int>, Ghost(j): Ghost<int>) -> (r:
    &'a str)
    requires
        0 <= i <= j <= s@.len(),
        from == offset(s@, i),
        to == offset(s@, j),
    ensures
        r@ == s@.subrange(i, j),
{
    proof {
        lemma_offset_is_boundary(s@, i);
        lemma_encode_subrange(s@, i, s@.len() as int);
        lemma_encode_subrange(s@, i, j);
        assert(s@.take(s@.len() as int) =~= s@);
    }
    let (_, tail) = s.split_at(from);
    proof {
        assert(s@.subrange(i, s@.len() as int) =~= s@.skip(i));
        lemma_encode_injective(tail@, s@.skip(i));
        lemma_offset_is_boundary(tail@, j - i);
        assert(tail@.take(j - i) =~= s@.subrange(i, j));
    }
    let (r, _) = tail.split_at(to - from);
    proof {
        lemma_encode_subrange(tail@, 0, j - i);
        assert(tail@.take(0) =~= Seq::<char>::empty());
        assert(tail@.subrange(0, j - i) =~= s@.subrange(i, j));
        assert(offset(tail@, j - i) == to - from);
        lemma_encode_injective(r@, s@.subrange(i, j));
    }
    r
}

} // verus!
