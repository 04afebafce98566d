//! Cutting text to a number of UTF-8 bytes without splitting a character.
use vstd::prelude::*;
use vstd::string::*;
use vstd::utf8::*;

verus! {

/// The number of bytes that a text takes in UTF-8.
pub open spec fn byte_len(text: Seq<char>) -> nat {
    encode_utf8(text).len()
}

/// The text without as many of its last characters as must go for it to fit into `max` bytes.
pub open spec fn cut(text: Seq<char>, max: nat) -> Seq<char>
    decreases text.len(),
{
    if byte_len(text) <= max || text.len() == 0 {
        text
    } else {
        cut(text.drop_last(), max)
    }
}

/// UTF-8 encodes a concatenation part by part.
proof fn lemma_encode_concat(a: Seq<char>, b: Seq<char>)
    ensures
        encode_utf8(a + b) == encode_utf8(a) + encode_utf8(b),
    decreases a.len(),
{
    if a.len() == 0 {
        assert(a + b =~= b);
        assert(encode_utf8(a) + encode_utf8(b) =~= encode_utf8(b));
    } else {
        assert((a + b).drop_first() =~= a.drop_first() + b);
        lemma_encode_concat(a.drop_first(), b);
        assert(encode_utf8(a + b) =~= encode_utf8(a) + encode_utf8(b));
    }
}

/// The encoding of a prefix ends at a character boundary of the whole encoding.
proof fn lemma_prefix_ends_at_boundary(a: Seq<char>, b: Seq<char>)
    ensures
        is_char_boundary(encode_utf8(a + b), encode_utf8(a).len() as int),
    decreases a.len(),
{
    let bytes = encode_utf8(a + b);
    encode_utf8_valid_utf8(a + b);
    if a.len() > 0 {
        encode_utf8_first_scalar(a + b);
        lemma_encode_concat(a, b);
        assert((a + b).drop_first() =~= a.drop_first() + b);
        assert(pop_first_scalar(bytes) =~= encode_utf8(a.drop_first() + b));
        lemma_prefix_ends_at_boundary(a.drop_first(), b);
        encode_utf8_valid_utf8(a.drop_first() + b);
    }
}

/// A longer prefix takes more bytes.
proof fn lemma_byte_len_grows(text: Seq<char>, m: int, n: int)
    requires
        0 <= m < n <= text.len(),
    ensures
        byte_len(text.take(m)) < byte_len(text.take(n)),
{
    let more = text.subrange(m, n);
    assert(text.take(n) =~= text.take(m) + more);
    lemma_encode_concat(text.take(m), more);
    encode_utf8_first_scalar(more);
}

/// The longest prefix that fits is what `cut` leaves.
proof fn lemma_cut_is(text: Seq<char>, max: nat, m: int)
    requires
        0 <= m <= text.len(),
        byte_len(text.take(m)) <= max,
        m < text.len() ==> byte_len(text.take(m + 1)) > max,
    ensures
        cut(text, max) == text.take(m),
    decreases text.len(),
{
    assert(text.take(text.len() as int) =~= text);
    if m < text.len() {
        if m + 1 < text.len() {
            lemma_byte_len_grows(text, m + 1, text.len() as int);
        }
        let shorter = text.drop_last();
        assert(shorter.take(m) =~= text.take(m));
        if m < shorter.len() {
            assert(shorter.take(m + 1) =~= text.take(m + 1));
        }
        lemma_cut_is(shorter, max, m);
    }
}

/// What is left of `s` when it is cut to `max` bytes at a character boundary.
pub fn truncate(s: &str, max: usize) -> (r: &str)
    ensures
        r@ == cut(s@, max as nat),
{
    let bytes = s.as_bytes();
    let total: usize = bytes.len();
    if total <= max {
        return s;
    }
    proof {
        encode_utf8_valid_utf8(s@);
        is_char_boundary_start_end_of_seq(s.spec_bytes());
    }
    // Walk back to a boundary so that no character is split
    let mut end: usize = max;
    while end > 0 && !s.is_char_boundary(end)
        invariant
            end <= max < total,
            total == s.spec_bytes().len(),
            valid_utf8(s.spec_bytes()),
            is_char_boundary(s.spec_bytes(), 0),
            forall|i: int| end < i <= max ==> !is_char_boundary(s.spec_bytes(), i),
        decreases end,
    {
        end = end - 1;
    }
    let parts = s.split_at(end);
    let r = parts.0;
    proof {
        let all = s.spec_bytes();
        let head = all.subrange(0, end as int);
        decode_utf8_split(all, end as int);
        encode_utf8_decode_utf8(s@);
        encode_utf8_decode_utf8(r@);
        let rest = decode_utf8(all.subrange(end as int, all.len() as int));
        assert(s@ =~= r@ + rest);
        let m = r@.len() as int;
        assert(s@.take(m) =~= r@);
        if m < s@.len() {
            lemma_byte_len_grows(s@, m, m + 1);
            assert(s@ =~= s@.take(m + 1) + s@.skip(m + 1));
            lemma_prefix_ends_at_boundary(s@.take(m + 1), s@.skip(m + 1));
        }
        lemma_cut_is(s@, max as nat, m);
    }
    r
}

/// What truncation leaves is a beginning of the text, it fits, and with one more character it
/// would not.
pub proof fn truncation_keeps_the_longest_fitting_prefix(text: Seq<char>, max: nat)
    ensures
        cut(text, max).is_prefix_of(text),
        byte_len(cut(text, max)) <= max,
        cut(text, max).len() < text.len() ==> byte_len(
            text.take(cut(text, max).len() as int + 1),
        ) > max,
    decreases text.len(),
{
    if byte_len(text) <= max || text.len() == 0 {
    } else {
        let shorter = text.drop_last();
        truncation_keeps_the_longest_fitting_prefix(shorter, max);
        let m = cut(shorter, max).len() as int;
        if m < shorter.len() {
            assert(shorter.take(m + 1) =~= text.take(m + 1));
        } else {
            assert(text.take(m + 1) =~= text);
        }
    }
}

/// A text that fits is left alone, and cutting a second time changes nothing.
pub proof fn truncation_is_idempotent(text: Seq<char>, max: nat)
    ensures
        byte_len(text) <= max ==> cut(text, max) == text,
        cut(cut(text, max), max) == cut(text, max),
{
    truncation_keeps_the_longest_fitting_prefix(text, max);
}

/// Cutting to `m` bytes and then to `n` is cutting to the lesser of the two.
pub proof fn truncating_twice_is_truncating_to_the_lesser(text: Seq<char>, m: nat, n: nat)
    ensures
        cut(cut(text, m), n) == cut(text, if m <= n { m } else { n }),
{
    let once = cut(text, m);
    truncation_keeps_the_longest_fitting_prefix(text, m);
    if m > n {
        let twice = cut(once, n);
        truncation_keeps_the_longest_fitting_prefix(once, n);
        let k = twice.len() as int;
        assert(text.take(k) =~= twice);
        if k < once.len() {
            assert(text.take(k + 1) =~= once.take(k + 1));
        }
        lemma_cut_is(text, n, k);
    }
}

/// A smaller limit leaves a beginning of what a greater one leaves.
pub proof fn smaller_limit_leaves_a_prefix(text: Seq<char>, m: nat, n: nat)
    requires
        m <= n,
    ensures
        cut(text, m).is_prefix_of(cut(text, n)),
{
    truncating_twice_is_truncating_to_the_lesser(text, n, m);
    truncation_keeps_the_longest_fitting_prefix(cut(text, n), m);
}

/// A text of ASCII characters is cut to its first `max` characters.
pub proof fn truncation_of_ascii_counts_characters(text: Seq<char>, max: nat)
    requires
        is_ascii_chars(text),
    ensures
        cut(text, max) == if text.len() <= max {
            text
        } else {
            text.take(max as int)
        },
{
    let m = if text.len() <= max {
        text.len() as int
    } else {
        max as int
    };
    assert(text.take(text.len() as int) =~= text);
    is_ascii_chars_encode_utf8(text.take(m));
    if m < text.len() {
        is_ascii_chars_encode_utf8(text.take(m + 1));
    }
    lemma_cut_is(text, max, m);
}

/// What truncation leaves are the first characters of the text, as many as UTF-8 gets into `max`
/// bytes, and all of them if it gets them all in.
pub proof fn truncation_fills_the_bytes_of_utf8(text: Seq<char>, max: nat)
    ensures
        ({
            let k = cut(text, max).len() as int;
            &&& k <= text.len()
            &&& cut(text, max) == text.take(k)
            &&& encode_utf8(text.take(k)).len() <= max
            &&& k < text.len() ==> encode_utf8(text.take(k + 1)).len() > max
        }),
{
    truncation_keeps_the_longest_fitting_prefix(text, max);
    assert(cut(text, max) =~= text.take(cut(text, max).len() as int));
}

} // verus!
