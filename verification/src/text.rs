use vstd::prelude::*;
use vstd::utf8::*;
use vstd::string::*;

verus! {

/// The number of bytes of the UTF-8 encoding of `s`.
pub open spec fn utf8_len(s: Seq<char>) -> nat {
    encode_utf8(s).len()
}

/// The UTF-8 length of a sum is the sum of the lengths.
pub proof fn lemma_utf8_len_add(a: Seq<char>, b: Seq<char>)
    ensures
        utf8_len(a + b) == utf8_len(a) + utf8_len(b),
    decreases a.len(),
{
    if a.len() == 0 {
        assert(a + b =~= b);
    } else {
        assert((a + b).drop_first() =~= a.drop_first() + b);
        assert((a + b)[0] == a[0]);
        lemma_utf8_len_add(a.drop_first(), b);
    }
}

/// The encoding of a sum is the sum of the encodings.
pub proof fn lemma_encode_utf8_add(a: Seq<char>, b: Seq<char>)
    ensures
        encode_utf8(a + b) == encode_utf8(a) + encode_utf8(b),
    decreases a.len(),
{
    if a.len() == 0 {
        assert(a + b =~= b);
        assert(encode_utf8(a) + encode_utf8(b) =~= encode_utf8(b));
    } else {
        assert((a + b).drop_first() =~= a.drop_first() + b);
        assert((a + b)[0] == a[0]);
        lemma_encode_utf8_add(a.drop_first(), b);
        let e = encode_scalar(a[0] as u32);
        assert(e + (encode_utf8(a.drop_first()) + encode_utf8(b)) =~= e + encode_utf8(a.drop_first()) + encode_utf8(b));
    }
}

/// Every character takes between one and four bytes.
pub proof fn lemma_utf8_len_char(c: char)
    ensures
        1 <= utf8_len(seq![c]) <= 4,
        utf8_len(seq![c]) == (if (c as u32) <= 0x7F {
            1nat
        } else if (c as u32) <= 0x7FF {
            2nat
        } else if (c as u32) <= 0xFFFF {
            3nat
        } else {
            4nat
        }),
{
    broadcast use char_is_scalar;

    assert(seq![c].drop_first() =~= Seq::<char>::empty());
    assert(encode_utf8(Seq::<char>::empty()) =~= Seq::<u8>::empty());
}

/// Dropping a prefix never lengthens the encoding; dropping a non-empty
/// prefix shortens it.
pub proof fn lemma_utf8_len_skip(s: Seq<char>, k: int)
    requires
        0 <= k <= s.len(),
    ensures
        utf8_len(s.skip(k)) <= utf8_len(s),
        utf8_len(s.skip(k)) + utf8_len(s.take(k)) == utf8_len(s),
        k > 0 ==> utf8_len(s.skip(k)) < utf8_len(s),
{
    assert(s =~= s.take(k) + s.skip(k));
    lemma_utf8_len_add(s.take(k), s.skip(k));
    if k > 0 {
        let t = s.take(k);
        assert(t =~= seq![t[0]] + t.drop_first());
        lemma_utf8_len_add(seq![t[0]], t.drop_first());
        lemma_utf8_len_char(t[0]);
    }
}

/// `char::len_utf8`: the number of bytes of the UTF-8 encoding of `c`.
pub fn char_len_utf8(c: char) -> (r: usize)
    ensures
        r as nat == utf8_len(seq![c]),
        1 <= r <= 4,
{
    proof {
        lemma_utf8_len_char(c);
    }
    let u = c as u32;
    if u <= 0x7F {
        1
    } else if u <= 0x7FF {
        2
    } else if u <= 0xFFFF {
        3
    } else {
        4
    }
}

/// The byte length of a string slice.
pub fn byte_len(s: &str) -> (r: usize)
    requires
        utf8_len(s@) <= usize::MAX,
    ensures
        r as nat == utf8_len(s@),
{
    s.len()
}

/// Calls `char::to_string`, which returns the one-character string `c`.
#[verifier::external_body]
pub(crate) fn char_string(c: char) -> (r: String)
    ensures
        r@ == seq![c],
{
    c.to_string()
}

/// Whether `s` is a prefix of `input`.
pub fn starts_with(input: &str, s: &str) -> (r: bool)
    ensures
        r == (s@.len() <= input@.len() && input@.take(s@.len() as int) == s@),
{
    let n = s.unicode_len();
    let m = input.unicode_len();
    if n > m {
        return false;
    }
    let mut i: usize = 0;
    while i < n
        invariant
            n == s@.len(),
            m == input@.len(),
            n <= m,
            i <= n,
            forall|j: int| 0 <= j < i ==> input@[j] == s@[j],
        decreases n - i,
    {
        if input.get_char(i) != s.get_char(i) {
            assert(input@.take(n as int)[i as int] != s@[i as int]);
            return false;
        }
        i = i + 1;
    }
    assert(input@.take(n as int) =~= s@);
    true
}

/// The characters of `input` after the first `k`.
pub fn suffix_from(input: &str, k: usize) -> (r: String)
    requires
        k <= input@.len(),
    ensures
        r@ == input@.skip(k as int),
{
    let n = input.unicode_len();
    let t = input.substring_char(k, n);
    String::from_str(t)
}

/// The length of `input` in characters.
pub fn char_count(input: &str) -> (r: usize)
    ensures
        r == input@.len(),
{
    input.unicode_len()
}

} // verus!
