//! Text as sequences of characters: searching, joining, padding, decimal numerals.
use vstd::prelude::*;
use vstd::string::*;
use vstd::utf8::*;

verus! {

/// `String::push` of the standard library appends one character to the text.
pub assume_specification[ String::push ](s: &mut String, c: char)
    ensures
        final(s)@ == old(s)@.push(c),
;

/// The texts that a list of strings holds.
pub open spec fn texts(list: Seq<String>) -> Seq<Seq<char>> {
    Seq::new(list.len(), |i: int| list[i]@)
}

/// `needle` stands in `hay` from position `at` on.
pub open spec fn stands_at(needle: Seq<char>, hay: Seq<char>, at: int) -> bool {
    0 <= at <= hay.len() - needle.len() && hay.subrange(at, at + needle.len()) == needle
}

/// `needle` stands somewhere in `hay`.
pub open spec fn occurs(needle: Seq<char>, hay: Seq<char>) -> bool {
    exists|at: int| stands_at(needle, hay, at)
}

/// The text that repeats one character `n` times.
pub open spec fn repeated(c: char, n: nat) -> Seq<char> {
    Seq::new(n, |i: int| c)
}

/// The spaces that bring a text up to `width` characters.
pub open spec fn filler(text: Seq<char>, width: nat) -> Seq<char> {
    repeated(' ', if text.len() < width { (width - text.len()) as nat } else { 0 })
}

/// A text at the left of a column of `width` characters.
pub open spec fn flush_left(text: Seq<char>, width: nat) -> Seq<char> {
    text + filler(text, width)
}

/// A text at the right of a column of `width` characters.
pub open spec fn flush_right(text: Seq<char>, width: nat) -> Seq<char> {
    filler(text, width) + text
}

/// The decimal digit with the value `d`.
pub open spec fn digit(d: nat) -> char
    recommends
        d < 10,
{
    (48 + d) as char
}

/// The decimal numeral of `n`.
pub open spec fn decimal(n: nat) -> Seq<char>
    decreases n,
{
    if n < 10 {
        seq![digit(n)]
    } else {
        decimal(n / 10).push(digit(n % 10))
    }
}

/// The texts of a list, with `sep` between neighbours.
pub open spec fn joined(list: Seq<Seq<char>>, sep: Seq<char>) -> Seq<char>
    decreases list.len(),
{
    if list.len() == 0 {
        Seq::empty()
    } else if list.len() == 1 {
        list[0]
    } else {
        joined(list.drop_last(), sep) + sep + list.last()
    }
}

/// What is left of `text` when, from left to right, each `pat` that is met is taken out.
pub open spec fn without(text: Seq<char>, pat: Seq<char>) -> Seq<char>
    decreases text.len(),
{
    if text.len() == 0 || pat.len() == 0 {
        text
    } else if stands_at(pat, text, 0) {
        without(text.skip(pat.len() as int), pat)
    } else {
        seq![text[0]] + without(text.skip(1), pat)
    }
}

/// Two texts are the same.
pub fn same_text(a: &str, b: &str) -> (r: bool)
    ensures
        r == (a@ == b@),
{
    let x = a.as_bytes();
    let y = b.as_bytes();
    proof {
        encode_utf8_decode_utf8(a@);
        encode_utf8_decode_utf8(b@);
    }
    if x.len() != y.len() {
        return false;
    }
    let mut i: usize = 0;
    while i < x.len()
        invariant
            i <= x.len(),
            x@ == a.spec_bytes(),
            y@ == b.spec_bytes(),
            x@.len() == y@.len(),
            forall|j: int| 0 <= j < i ==> x@[j] == y@[j],
        decreases x.len() - i,
    {
        if x[i] != y[i] {
            return false;
        }
        i = i + 1;
    }
    proof {
        assert(x@ =~= y@);
    }
    true
}

/// The characters of a text.
pub fn chars_of(s: &str) -> (v: Vec<char>)
    ensures
        v@ == s@,
{
    let mut v: Vec<char> = Vec::new();
    for c in it: s.chars()
        invariant
            v@ == it.seq().take(it.index() as int),
            it.seq() == s@,
    {
        v.push(c);
        assert(v@ =~= it.seq().take(it.index() as int + 1));
    }
    v
}

/// Whether `needle` stands in `hay` from position `at` on.
fn matches_at(needle: &Vec<char>, hay: &Vec<char>, at: usize) -> (r: bool)
    requires
        at + needle@.len() <= hay@.len(),
    ensures
        r == stands_at(needle@, hay@, at as int),
{
    let total: usize = hay.len();
    let mut i: usize = 0;
    while i < needle.len()
        invariant
            i <= needle@.len(),
            total == hay@.len(),
            at + needle@.len() <= total,
            forall|j: int| 0 <= j < i ==> hay@[at + j] == needle@[j],
        decreases needle@.len() - i,
    {
        if hay[at + i] != needle[i] {
            proof {
                assert(hay@.subrange(at as int, at + needle@.len())[i as int] == hay@[at + i]);
            }
            return false;
        }
        i = i + 1;
    }
    proof {
        assert(hay@.subrange(at as int, at + needle@.len()) =~= needle@);
    }
    true
}

/// Whether `needle` stands somewhere in `hay`.
pub fn contains(hay: &Vec<char>, needle: &Vec<char>) -> (r: bool)
    ensures
        r == occurs(needle@, hay@),
{
    if needle.len() > hay.len() {
        return false;
    }
    let last: usize = hay.len() - needle.len();
    let mut at: usize = 0;
    while at <= last
        invariant
            last == hay@.len() - needle@.len(),
            at <= last + 1,
            forall|j: int| 0 <= j < at ==> !stands_at(needle@, hay@, j),
        decreases last + 1 - at,
    {
        if matches_at(needle, hay, at) {
            return true;
        }
        if at == last {
            return false;
        }
        at = at + 1;
    }
    false
}

/// Appends `n` times the character `c`.
pub fn push_repeated(out: &mut String, c: char, n: usize)
    ensures
        final(out)@ == old(out)@ + repeated(c, n as nat),
{
    let ghost start = out@;
    let mut i: usize = 0;
    proof {
        assert(start + repeated(c, 0) =~= start);
    }
    while i < n
        invariant
            i <= n,
            out@ == start + repeated(c, i as nat),
        decreases n - i,
    {
        out.push(c);
        i = i + 1;
        proof {
            assert(out@ =~= start + repeated(c, i as nat));
        }
    }
}

/// Appends the spaces that bring `s` up to `width` characters.
fn push_filler(out: &mut String, s: &str, width: usize)
    ensures
        final(out)@ == old(out)@ + filler(s@, width as nat),
{
    let len: usize = s.unicode_len();
    push_repeated(out, ' ', if len < width { width - len } else { 0 });
}

/// Appends `s` at the left of a column.
pub fn push_left(out: &mut String, s: &str, width: usize)
    ensures
        final(out)@ == old(out)@ + flush_left(s@, width as nat),
{
    let ghost start = out@;
    out.append(s);
    push_filler(out, s, width);
    proof {
        assert(out@ =~= start + flush_left(s@, width as nat));
    }
}

/// Appends `s` at the right of a column.
pub fn push_right(out: &mut String, s: &str, width: usize)
    ensures
        final(out)@ == old(out)@ + flush_right(s@, width as nat),
{
    let ghost start = out@;
    push_filler(out, s, width);
    out.append(s);
    proof {
        assert(out@ =~= start + flush_right(s@, width as nat));
    }
}

/// Appends the decimal numeral of `n`.
pub fn push_decimal(out: &mut String, n: u128)
    ensures
        final(out)@ == old(out)@ + decimal(n as nat),
    decreases n,
{
    let ghost start = out@;
    if n >= 10 {
        push_decimal(out, n / 10);
    }
    let d: u8 = (n % 10) as u8;
    out.push((48u8 + d) as char);
    proof {
        assert(out@ =~= start + decimal(n as nat));
    }
}

/// The decimal numeral of `n`.
pub fn to_decimal(n: u128) -> (r: String)
    ensures
        r@ == decimal(n as nat),
{
    let mut out = String::new();
    push_decimal(&mut out, n);
    proof {
        assert(out@ =~= decimal(n as nat));
    }
    out
}

/// The strings of a list, with `sep` between neighbours.
pub fn join(list: &Vec<String>, sep: &str) -> (r: String)
    ensures
        r@ == joined(texts(list@), sep@),
{
    let mut out = String::new();
    let ghost all = texts(list@);
    let mut i: usize = 0;
    proof {
        assert(all.take(0) =~= Seq::empty());
        assert(out@ =~= joined(all.take(0), sep@));
    }
    while i < list.len()
        invariant
            i <= list@.len(),
            all == texts(list@),
            out@ == joined(all.take(i as int), sep@),
        decreases list@.len() - i,
    {
        if i > 0 {
            out.append(sep);
        }
        out.append(list[i].as_str());
        proof {
            let next = all.take(i + 1);
            assert(next.drop_last() =~= all.take(i as int));
            assert(next.last() == list@[i as int]@);
            if i == 0 {
                assert(all.take(0) =~= Seq::empty());
                assert(out@ =~= next[0]);
            }
            assert(out@ =~= joined(next, sep@));
        }
        i = i + 1;
    }
    proof {
        assert(all.take(list@.len() as int) =~= all);
    }
    out
}

/// Takes out of `s`, from left to right, each `pat` that is met.
pub fn remove_all(s: &str, pat: &str) -> (r: String)
    ensures
        r@ == without(s@, pat@),
{
    let text = chars_of(s);
    let p = chars_of(pat);
    let mut out = String::new();
    let mut i: usize = 0;
    proof {
        assert(text@.skip(0) =~= text@);
        assert(out@ + without(text@, p@) =~= without(text@, p@));
    }
    while i < text.len()
        invariant
            i <= text@.len(),
            text@ == s@,
            p@ == pat@,
            out@ + without(text@.skip(i as int), p@) == without(s@, pat@),
        decreases text@.len() - i,
    {
        let ghost rest = text@.skip(i as int);
        let ghost before = out@;
        if p.len() > 0 && p.len() <= text.len() - i && matches_at(&p, &text, i) {
            proof {
                assert(rest.subrange(0, p@.len() as int) =~= text@.subrange(
                    i as int,
                    i + p@.len(),
                ));
                assert(stands_at(p@, rest, 0));
                assert(rest.skip(p@.len() as int) =~= text@.skip(i + p@.len()));
            }
            i = i + p.len();
        } else {
            out.push(text[i]);
            proof {
                if stands_at(p@, rest, 0) && p@.len() > 0 {
                    assert(rest.subrange(0, p@.len() as int) =~= text@.subrange(
                        i as int,
                        i + p@.len(),
                    ));
                    assert(stands_at(p@, text@, i as int));
                }
                assert(rest.skip(1) =~= text@.skip(i + 1));
                if p@.len() == 0 {
                    assert(rest =~= seq![text@[i as int]] + text@.skip(i + 1));
                }
                assert(out@ + without(text@.skip(i + 1), p@) =~= before + (seq![text@[i as int]]
                    + without(text@.skip(i + 1), p@)));
            }
            i = i + 1;
        }
    }
    proof {
        assert(text@.skip(i as int) =~= Seq::empty());
        assert(out@ + without(Seq::empty(), p@) =~= out@);
    }
    out
}

/// The texts of a list are the strings on it, one by one.
pub proof fn texts_are_those_of_the_strings(list: Seq<String>)
    ensures
        texts(list).len() == list.len(),
        forall|i: int| 0 <= i < list.len() ==> #[trigger] texts(list)[i] == list[i]@,
{
}

/// A text occurs in another if the other is the text with something before it and behind it.
pub proof fn what_occurs_has_a_front_and_a_back(needle: Seq<char>, hay: Seq<char>)
    ensures
        occurs(needle, hay) <==> exists|front: Seq<char>, back: Seq<char>|
            hay == #[trigger] (front + needle + back),
{
    if occurs(needle, hay) {
        let at = choose|at: int| stands_at(needle, hay, at);
        let front = hay.take(at);
        let back = hay.skip(at + needle.len());
        assert(hay =~= front + hay.subrange(at, at + needle.len()) + back);
    }
    if exists|front: Seq<char>, back: Seq<char>| hay == #[trigger] (front + needle + back) {
        let (front, back) = choose|front: Seq<char>, back: Seq<char>|
            hay == #[trigger] (front + needle + back);
        let at = front.len() as int;
        assert(hay.subrange(at, at + needle.len()) =~= needle);
        assert(stands_at(needle, hay, at));
    }
}

/// A text at the left of a column comes first and is followed by spaces, up to the width of the
/// column or to the length of the text, if that is greater.
pub proof fn flush_left_fills_up_with_spaces(text: Seq<char>, width: nat)
    ensures
        flush_left(text, width).len() == if text.len() < width {
            width
        } else {
            text.len()
        },
        text.is_prefix_of(flush_left(text, width)),
        forall|i: int|
            text.len() <= i < width ==> #[trigger] flush_left(text, width)[i] == ' ',
{
}

/// A text at the right of a column comes last and follows on spaces, up to the width of the
/// column or to the length of the text, if that is greater.
pub proof fn flush_right_begins_with_spaces(text: Seq<char>, width: nat)
    ensures
        flush_right(text, width).len() == if text.len() < width {
            width
        } else {
            text.len()
        },
        text.is_suffix_of(flush_right(text, width)),
        forall|i: int|
            0 <= i < width - text.len() ==> #[trigger] flush_right(text, width)[i] == ' ',
{
    let all = flush_right(text, width);
    assert(all.subrange(all.len() - text.len(), all.len() as int) =~= text);
}

proof fn lemma_numeral_value(n: nat, read: spec_fn(int, char) -> int)
    requires
        forall|v: int, c: char| #[trigger] read(v, c) == v * 10 + (c as int - 48),
    ensures
        decimal(n).fold_left(0int, read) == n,
        decimal(n).len() > 0,
        n > 0 ==> decimal(n)[0] != '0',
        forall|i: int| 0 <= i < decimal(n).len() ==> '0' <= #[trigger] decimal(n)[i] <= '9',
    decreases n,
{
    let all = decimal(n);
    reveal_with_fuel(Seq::fold_left, 3);
    if n < 10 {
        assert(all.drop_last() =~= Seq::empty());
        assert(all.last() as int == 48 + n);
    } else {
        lemma_numeral_value(n / 10, read);
        let front = decimal(n / 10);
        assert(all.drop_last() =~= front);
        assert(all.last() as int == 48 + n % 10);
        assert(all[0] == front[0]);
        assert forall|i: int| 0 <= i < all.len() implies '0' <= #[trigger] all[i] <= '9' by {
            if i < front.len() {
                assert(all[i] == front[i]);
            }
        }
    }
}

/// A numeral is made of the digits from `0` to `9`, does not begin with `0` but for the number 0
/// itself, and gives back its number when it is read digit by digit.
pub proof fn numeral_reads_back(n: nat)
    ensures
        decimal(n).len() > 0,
        forall|i: int| 0 <= i < decimal(n).len() ==> '0' <= #[trigger] decimal(n)[i] <= '9',
        n > 0 ==> decimal(n)[0] != '0',
        n == 0 ==> decimal(n).len() == 1,
        decimal(n).fold_left(0int, |v: int, c: char| v * 10 + (c as int - 48)) == n,
{
    lemma_numeral_value(n, |v: int, c: char| v * 10 + (c as int - 48));
}

/// Joining two lists is joining each of them, with the separator between the two; one text alone
/// is left as it is.
pub proof fn joining_lists_joins_their_texts(
    a: Seq<Seq<char>>,
    b: Seq<Seq<char>>,
    sep: Seq<char>,
    text: Seq<char>,
)
    ensures
        a.len() > 0 && b.len() > 0 ==> joined(a + b, sep) == joined(a, sep) + sep + joined(b, sep),
        joined(seq![text], sep) == text,
        joined(Seq::empty(), sep) == Seq::<char>::empty(),
    decreases b.len(),
{
    if a.len() > 0 && b.len() > 0 {
        let all = a + b;
        if b.len() == 1 {
            assert(all.drop_last() =~= a);
        } else {
            assert(all.drop_last() =~= a + b.drop_last());
            joining_lists_joins_their_texts(a, b.drop_last(), sep, text);
            assert(joined(all, sep) =~= joined(a, sep) + sep + joined(b, sep));
        }
    }
}

/// The first time that a pattern is met in a text it goes, what stands before it stays, and what
/// stands behind it is dealt with in the same way; a text without the pattern stays.
pub proof fn each_pattern_that_is_met_goes(
    stem: Seq<char>,
    pat: Seq<char>,
    rest: Seq<char>,
)
    requires
        pat.len() > 0,
    ensures
        !occurs(pat, stem) ==> without(stem, pat) == stem,
        (forall|at: int| 0 <= at < stem.len() ==> !stands_at(pat, stem + pat + rest, at))
            ==> without(stem + pat + rest, pat) == stem + without(rest, pat),
    decreases stem.len(),
{
    let text = stem + pat + rest;
    if !occurs(pat, stem) && stem.len() > 0 {
        assert(!stands_at(pat, stem, 0));
        let less = stem.skip(1);
        assert forall|at: int| !stands_at(pat, less, at) by {
            if stands_at(pat, less, at) {
                assert(stem.subrange(at + 1, at + 1 + pat.len()) =~= less.subrange(
                    at,
                    at + pat.len(),
                ));
                assert(stands_at(pat, stem, at + 1));
            }
        }
        each_pattern_that_is_met_goes(less, pat, rest);
        assert(stem =~= seq![stem[0]] + less);
    }
    if forall|at: int| 0 <= at < stem.len() ==> !stands_at(pat, text, at) {
        if stem.len() == 0 {
            assert(text.subrange(0, pat.len() as int) =~= pat);
            assert(stands_at(pat, text, 0));
            assert(text.skip(pat.len() as int) =~= rest);
            assert(stem + without(rest, pat) =~= without(rest, pat));
        } else {
            let less = stem.skip(1);
            let tail = less + pat + rest;
            assert(text.skip(1) =~= tail);
            assert forall|at: int| 0 <= at < less.len() implies !stands_at(pat, tail, at) by {
                if stands_at(pat, tail, at) {
                    assert(text.subrange(at + 1, at + 1 + pat.len()) =~= tail.subrange(
                        at,
                        at + pat.len(),
                    ));
                    assert(stands_at(pat, text, at + 1));
                }
            }
            each_pattern_that_is_met_goes(less, pat, rest);
            assert(!stands_at(pat, text, 0));
            assert(seq![stem[0]] + (less + without(rest, pat)) =~= stem + without(rest, pat));
        }
    }
}

/// A repeated character stands at every place of a text of that length.
pub proof fn repetition_fills_the_length(c: char, n: nat)
    ensures
        repeated(c, n).len() == n,
        forall|i: int| 0 <= i < n ==> #[trigger] repeated(c, n)[i] == c,
{
}

} // verus!
