//! Byte-level text utilities: UTF-8 character counting and byte-range
//! extraction over source buffers held as `Vec<u8>`.
//!
//! A character begins at every byte that is not a UTF-8 continuation byte
//! (a byte of the form `0b10xxxxxx`), so the number of characters in a
//! well-formed UTF-8 buffer equals the number of such lead bytes.

use vstd::prelude::*;

verus! {

/// True of a byte that starts a character in UTF-8 encoded text,
/// i.e. one that is not a continuation byte.
pub open spec fn is_char_start(b: u8) -> bool {
    b & 0xC0 != 0x80
}

/// The number of characters in a UTF-8 byte sequence, counted as the
/// number of non-continuation bytes.
pub open spec fn char_count(s: Seq<u8>) -> nat
    decreases s.len(),
{
    if s.len() == 0 {
        0
    } else {
        char_count(s.drop_last()) + if is_char_start(s.last()) {
            1nat
        } else {
            0nat
        }
    }
}

/// The character count of the byte range `[start, end)` of `s`.
pub open spec fn char_count_range(s: Seq<u8>, start: int, end: int) -> nat {
    char_count(s.subrange(start, end))
}

/// Character counts add over concatenation.
pub proof fn lemma_char_count_concat(s: Seq<u8>, t: Seq<u8>)
    ensures
        char_count(s + t) == char_count(s) + char_count(t),
    decreases t.len(),
{
    if t.len() == 0 {
        assert(s + t =~= s);
    } else {
        lemma_char_count_concat(s, t.drop_last());
        assert((s + t).drop_last() =~= s + t.drop_last());
        assert((s + t).last() == t.last());
    }
}

/// Character counts of adjacent ranges add up to the count of the joined range.
pub proof fn lemma_char_count_split(s: Seq<u8>, i: int, j: int, k: int)
    requires
        0 <= i <= j <= k <= s.len(),
    ensures
        char_count_range(s, i, k) == char_count_range(s, i, j) + char_count_range(s, j, k),
{
    lemma_char_count_concat(s.subrange(i, j), s.subrange(j, k));
    assert(s.subrange(i, j) + s.subrange(j, k) =~= s.subrange(i, k));
}

/// A character count over a sub-range never exceeds the count over the
/// enclosing range.
pub proof fn lemma_char_count_mono(s: Seq<u8>, i: int, j: int, i2: int, j2: int)
    requires
        0 <= i <= i2 <= j2 <= j <= s.len(),
    ensures
        char_count_range(s, i2, j2) <= char_count_range(s, i, j),
{
    lemma_char_count_split(s, i, i2, j);
    lemma_char_count_split(s, i2, j2, j);
}

/// Counts the characters in the byte range `[start, end)` of `s`.
pub fn count_chars(s: &Vec<u8>, start: usize, end: usize) -> (n: usize)
    requires
        start <= end <= s.len(),
    ensures
        n == char_count_range(s@, start as int, end as int),
{
    let mut n: usize = 0;
    let mut i: usize = start;
    proof {
        assert(s@.subrange(start as int, start as int) =~= Seq::<u8>::empty());
    }
    while i < end
        invariant
            start <= i <= end <= s.len(),
            n == char_count_range(s@, start as int, i as int),
            n <= i - start,
        decreases end - i,
    {
        let b = s[i];
        proof {
            let pre = s@.subrange(start as int, i as int);
            let post = s@.subrange(start as int, i + 1);
            assert(post.drop_last() =~= pre);
            assert(post.last() == b);
        }
        if (b & 0xC0) != 0x80 {
            n = n + 1;
        }
        i = i + 1;
    }
    n
}

/// Copies the byte range `[start, end)` of `s` into a fresh buffer.
pub fn byte_slice(s: &Vec<u8>, start: usize, end: usize) -> (r: Vec<u8>)
    requires
        start <= end <= s.len(),
    ensures
        r@ == s@.subrange(start as int, end as int),
{
    let mut r: Vec<u8> = Vec::new();
    let mut i: usize = start;
    while i < end
        invariant
            start <= i <= end <= s.len(),
            r@ =~= s@.subrange(start as int, i as int),
        decreases end - i,
    {
        r.push(s[i]);
        proof {
            assert(r@ =~= s@.subrange(start as int, i + 1));
        }
        i = i + 1;
    }
    proof {
        assert(r@ =~= s@.subrange(start as int, end as int));
    }
    r
}

/// Byte-for-byte equality of two buffers.
pub fn bytes_eq(a: &Vec<u8>, b: &Vec<u8>) -> (r: bool)
    ensures
        r <==> a@ == b@,
{
    if a.len() != b.len() {
        proof {
            assert(a@ != b@);
        }
        return false;
    }
    let mut i: usize = 0;
    while i < a.len()
        invariant
            i <= a.len(),
            a.len() == b.len(),
            forall|j: int| 0 <= j < i ==> a@[j] == b@[j],
        decreases a.len() - i,
    {
        if a[i] != b[i] {
            proof {
                assert(a@[i as int] != b@[i as int]);
            }
            return false;
        }
        i = i + 1;
    }
    proof {
        assert(a@ =~= b@);
    }
    true
}

} // verus!
