//! Names that point to frameworks and to common kinds of leaks.
use vstd::prelude::*;
use vstd::string::*;
use vstd::utf8::*;
use crate::tally::{names_of, row_models, Row};
use crate::text::{chars_of, contains, occurs, texts};

verus! {

/// Detached nodes that take more bytes than this are remarked on.
pub const LARGE_DETACHED: u64 = 10485760;

/// Arrays that take more bytes than this are remarked on.
pub const LARGE_ARRAYS: u64 = 52428800;

/// The texts that lists of characters hold.
pub open spec fn words_of(list: Seq<Vec<char>>) -> Seq<Seq<char>> {
    Seq::new(list.len(), |i: int| list[i]@)
}

/// One of the words occurs in the text.
pub open spec fn mentions(words: Seq<Seq<char>>, text: Seq<char>) -> bool {
    exists|k: int| 0 <= k < words.len() && #[trigger] occurs(words[k], text)
}

/// One of the words occurs in one of the texts.
pub open spec fn any_mentions(words: Seq<Seq<char>>, list: Seq<Seq<char>>) -> bool {
    exists|i: int| 0 <= i < list.len() && #[trigger] mentions(words, list[i])
}

/// The words that make a constructor suspicious.
pub open spec fn keywords() -> Seq<Seq<char>> {
    seq![
        "vnode"@, "VNode"@, "vue"@, "Vue"@, "Pinia"@, "pinia"@, "Component"@, "component"@,
        "Watcher"@, "watcher"@, "Effect"@, "effect"@, "Reactive"@, "reactive"@,
        "Proxy"@, "proxy"@, "Ref"@, "Store"@, "store"@, "Router"@, "router"@,
        "EventListener"@, "EventEmitter"@, "Subscription"@, "subscription"@,
        "Observer"@, "Cache"@, "cache"@, "Registry"@, "registry"@,
        "Tooltip"@, "Modal"@, "modal"@, "Dropdown"@, "Portal"@, "Teleport"@,
    ]
}

/// A constructor of this name belongs to a framework, or may hold on to what it should not.
pub open spec fn is_suspicious(name: Seq<char>) -> bool {
    mentions(keywords(), name)
}

/// A constructor whose name speaks of Vue, Pinia, event listeners, event emitters or proxies is
/// suspicious.
pub proof fn framework_names_are_suspicious(name: Seq<char>)
    requires
        occurs("Vue"@, name) || occurs("Pinia"@, name) || occurs("EventListener"@, name)
            || occurs("EventEmitter"@, name) || occurs("Proxy"@, name),
    ensures
        is_suspicious(name),
{
    let words = keywords();
    assert(words[3] == "Vue"@);
    assert(words[4] == "Pinia"@);
    assert(words[14] == "Proxy"@);
    assert(words[21] == "EventListener"@);
    assert(words[22] == "EventEmitter"@);
}

/// The words that make a constructor suspicious.
pub fn keyword_list() -> (r: Vec<Vec<char>>)
    ensures
        words_of(r@) == keywords(),
{
    let r = vec![
        chars_of("vnode"), chars_of("VNode"), chars_of("vue"), chars_of("Vue"),
        chars_of("Pinia"), chars_of("pinia"), chars_of("Component"), chars_of("component"),
        chars_of("Watcher"), chars_of("watcher"),
        chars_of("Effect"), chars_of("effect"), chars_of("Reactive"), chars_of("reactive"),
        chars_of("Proxy"), chars_of("proxy"), chars_of("Ref"), chars_of("Store"),
        chars_of("store"), chars_of("Router"), chars_of("router"), chars_of("EventListener"),
        chars_of("EventEmitter"), chars_of("Subscription"), chars_of("subscription"),
        chars_of("Observer"), chars_of("Cache"), chars_of("cache"), chars_of("Registry"),
        chars_of("registry"), chars_of("Tooltip"), chars_of("Modal"), chars_of("modal"),
        chars_of("Dropdown"), chars_of("Portal"), chars_of("Teleport"),
    ];
    proof {
        assert(words_of(r@) =~= keywords());
    }
    r
}

/// Whether one of the words occurs in `text`.
pub fn mentions_any(words: &Vec<Vec<char>>, text: &str) -> (r: bool)
    ensures
        r == mentions(words_of(words@), text@),
{
    let hay = chars_of(text);
    let ghost all = words_of(words@);
    let mut k: usize = 0;
    while k < words.len()
        invariant
            k <= words@.len(),
            all == words_of(words@),
            hay@ == text@,
            forall|j: int| 0 <= j < k ==> !#[trigger] occurs(all[j], text@),
        decreases words@.len() - k,
    {
        if contains(&hay, &words[k]) {
            proof {
                assert(occurs(all[k as int], text@));
            }
            return true;
        }
        k = k + 1;
    }
    false
}

/// Whether one of the words occurs in one of the strings.
fn any_mention(words: &Vec<Vec<char>>, list: &Vec<String>) -> (r: bool)
    ensures
        r == any_mentions(words_of(words@), texts(list@)),
{
    let ghost all = texts(list@);
    let ghost w = words_of(words@);
    let mut i: usize = 0;
    while i < list.len()
        invariant
            i <= list@.len(),
            all == texts(list@),
            w == words_of(words@),
            forall|j: int| 0 <= j < i ==> !#[trigger] mentions(w, all[j]),
        decreases list@.len() - i,
    {
        if mentions_any(words, list[i].as_str()) {
            proof {
                assert(mentions(w, all[i as int]));
            }
            return true;
        }
        i = i + 1;
    }
    false
}

/// A text in lower case: what `str::to_lowercase` returns.
pub uninterp spec fn lowercase(text: Seq<char>) -> Seq<char>;

/// The lower case of an ASCII character.
pub open spec fn ascii_lower(c: char) -> char {
    if 'A' <= c && c <= 'Z' {
        (c as u32 + 32) as char
    } else {
        c
    }
}

/// An ASCII text in lower case.
pub open spec fn ascii_lowercase(text: Seq<char>) -> Seq<char> {
    text.map_values(|c: char| ascii_lower(c))
}

/// `str::to_lowercase` of the standard library gives the text in lower case by the rules of
/// Unicode. Of ASCII texts it is claimed what these rules come to: each letter from `A` to `Z`
/// becomes the small letter.
#[verifier::external_body]
fn to_lowercase(s: &str) -> (r: String)
    ensures
        r@ == lowercase(s@),
        is_ascii_chars(s@) ==> r@ == ascii_lowercase(s@),
{
    s.to_lowercase()
}

/// The texts of a list in lower case.
pub open spec fn lowered(list: Seq<Seq<char>>) -> Seq<Seq<char>> {
    Seq::new(list.len(), |i: int| lowercase(list[i]))
}

/// The ASCII ones among some texts are put into lower case letter by letter.
pub open spec fn lowers_ascii(list: Seq<Seq<char>>) -> bool {
    forall|i: int|
        0 <= i < list.len() && is_ascii_chars(#[trigger] list[i]) ==> lowercase(list[i])
            == ascii_lowercase(list[i])
}

/// The names of some rows in lower case.
pub fn lower_names(rows: &Vec<Row>) -> (r: Vec<String>)
    ensures
        texts(r@) == lowered(names_of(row_models(rows@))),
        lowers_ascii(names_of(row_models(rows@))),
{
    let ghost names = names_of(row_models(rows@));
    let mut out: Vec<String> = Vec::new();
    let mut i: usize = 0;
    while i < rows.len()
        invariant
            i <= rows@.len(),
            names == names_of(row_models(rows@)),
            out@.len() == i,
            forall|j: int| 0 <= j < i ==> (#[trigger] out@[j])@ == lowercase(names[j]),
            forall|j: int|
                0 <= j < i && is_ascii_chars(#[trigger] names[j]) ==> lowercase(names[j])
                    == ascii_lowercase(names[j]),
        decreases rows@.len() - i,
    {
        let name = rows[i].name.as_str();
        out.push(to_lowercase(name));
        proof {
            assert(names[i as int] == name@);
        }
        i = i + 1;
    }
    proof {
        assert(texts(out@) =~= lowered(names));
    }
    out
}

/// Which kinds of leaks a heap shows signs of.
#[derive(Clone, Copy, Debug, PartialEq, Eq, Structural)]
pub struct Hints {
    pub vnodes: bool,
    pub listeners: bool,
    pub large_detached: bool,
    pub big_arrays: bool,
    pub proxies: bool,
    pub stores: bool,
}

/// The signs in the names of constructors, in lower case, and in two sizes.
pub open spec fn hints_of(names: Seq<Seq<char>>, detached_size: nat, array_size: nat) -> Hints {
    Hints {
        vnodes: any_mentions(seq!["vnode"@, "component"@], names),
        listeners: any_mentions(seq!["listener"@, "emitter"@, "subscription"@], names),
        large_detached: detached_size > LARGE_DETACHED,
        big_arrays: array_size > LARGE_ARRAYS,
        proxies: any_mentions(seq!["proxy"@, "reactive"@], names),
        stores: any_mentions(seq!["store"@, "cache"@, "registry"@], names),
    }
}

/// Looks for signs of leaks in the names of constructors, which are in lower case, and in the
/// sizes of the detached nodes and of the arrays.
pub fn detect(names: &Vec<String>, detached_size: u64, array_size: u64) -> (r: Hints)
    ensures
        r == hints_of(texts(names@), detached_size as nat, array_size as nat),
{
    let vnodes = vec![chars_of("vnode"), chars_of("component")];
    let listeners = vec![chars_of("listener"), chars_of("emitter"), chars_of("subscription")];
    let proxies = vec![chars_of("proxy"), chars_of("reactive")];
    let stores = vec![chars_of("store"), chars_of("cache"), chars_of("registry")];
    proof {
        assert(words_of(vnodes@) =~= seq!["vnode"@, "component"@]);
        assert(words_of(listeners@) =~= seq!["listener"@, "emitter"@, "subscription"@]);
        assert(words_of(proxies@) =~= seq!["proxy"@, "reactive"@]);
        assert(words_of(stores@) =~= seq!["store"@, "cache"@, "registry"@]);
    }
    Hints {
        vnodes: any_mention(&vnodes, names),
        listeners: any_mention(&listeners, names),
        large_detached: detached_size > LARGE_DETACHED,
        big_arrays: array_size > LARGE_ARRAYS,
        proxies: any_mention(&proxies, names),
        stores: any_mention(&stores, names),
    }
}

/// A constructor is suspicious if one of these words occurs in its name, as it is written here;
/// and only then.
pub proof fn suspicious_names_hold_one_of_these_words(name: Seq<char>)
    ensures
        is_suspicious(name) <==> {
            ||| occurs("vnode"@, name) || occurs("VNode"@, name)
            ||| occurs("vue"@, name) || occurs("Vue"@, name)
            ||| occurs("Pinia"@, name) || occurs("pinia"@, name)
            ||| occurs("Component"@, name) || occurs("component"@, name)
            ||| occurs("Watcher"@, name) || occurs("watcher"@, name)
            ||| occurs("Effect"@, name) || occurs("effect"@, name)
            ||| occurs("Reactive"@, name) || occurs("reactive"@, name)
            ||| occurs("Proxy"@, name) || occurs("proxy"@, name)
            ||| occurs("Ref"@, name)
            ||| occurs("Store"@, name) || occurs("store"@, name)
            ||| occurs("Router"@, name) || occurs("router"@, name)
            ||| occurs("EventListener"@, name) || occurs("EventEmitter"@, name)
            ||| occurs("Subscription"@, name) || occurs("subscription"@, name)
            ||| occurs("Observer"@, name)
            ||| occurs("Cache"@, name) || occurs("cache"@, name)
            ||| occurs("Registry"@, name) || occurs("registry"@, name)
            ||| occurs("Tooltip"@, name)
            ||| occurs("Modal"@, name) || occurs("modal"@, name)
            ||| occurs("Dropdown"@, name)
            ||| occurs("Portal"@, name)
            ||| occurs("Teleport"@, name)
        },
{
    let words = keywords();
    assert(words[0] == "vnode"@ && words[1] == "VNode"@ && words[2] == "vue"@);
    assert(words[3] == "Vue"@ && words[4] == "Pinia"@ && words[5] == "pinia"@);
    assert(words[6] == "Component"@ && words[7] == "component"@);
    assert(words[8] == "Watcher"@ && words[9] == "watcher"@);
    assert(words[10] == "Effect"@ && words[11] == "effect"@);
    assert(words[12] == "Reactive"@ && words[13] == "reactive"@);
    assert(words[14] == "Proxy"@ && words[15] == "proxy"@ && words[16] == "Ref"@);
    assert(words[17] == "Store"@ && words[18] == "store"@);
    assert(words[19] == "Router"@ && words[20] == "router"@);
    assert(words[21] == "EventListener"@ && words[22] == "EventEmitter"@);
    assert(words[23] == "Subscription"@ && words[24] == "subscription"@);
    assert(words[25] == "Observer"@ && words[26] == "Cache"@ && words[27] == "cache"@);
    assert(words[28] == "Registry"@ && words[29] == "registry"@);
    assert(words[30] == "Tooltip"@ && words[31] == "Modal"@ && words[32] == "modal"@);
    assert(words[33] == "Dropdown"@ && words[34] == "Portal"@ && words[35] == "Teleport"@);
    assert(words.len() == 36);
}

/// One of two words, or of three, occurs in one of the names.
proof fn lemma_any_mentions(words: Seq<Seq<char>>, names: Seq<Seq<char>>)
    ensures
        words.len() == 2 ==> (any_mentions(words, names) <==> exists|i: int|
            0 <= i < names.len() && (occurs(words[0], #[trigger] names[i]) || occurs(
                words[1],
                names[i],
            ))),
        words.len() == 3 ==> (any_mentions(words, names) <==> exists|i: int|
            0 <= i < names.len() && (occurs(words[0], #[trigger] names[i]) || occurs(
                words[1],
                names[i],
            ) || occurs(words[2], names[i]))),
{
    if any_mentions(words, names) {
        let i = choose|i: int| 0 <= i < names.len() && #[trigger] mentions(words, names[i]);
        let k = choose|k: int| 0 <= k < words.len() && #[trigger] occurs(words[k], names[i]);
        assert(occurs(words[k], names[i]));
    }
    assert forall|i: int, k: int|
        0 <= i < names.len() && 0 <= k < words.len() && occurs(
            #[trigger] words[k],
            #[trigger] names[i],
        ) implies any_mentions(words, names) by {
        assert(mentions(words, names[i]));
    }
}

/// Each hint is given on one condition: that a name in lower case holds one of the words that
/// belong to the hint, or that a size is greater than a number of megabytes; and only then.
pub proof fn hints_are_given_on_their_conditions(
    names: Seq<Seq<char>>,
    detached_size: nat,
    array_size: nat,
)
    ensures
        ({
            let h = hints_of(names, detached_size, array_size);
            &&& h.vnodes <==> exists|i: int|
                0 <= i < names.len() && (occurs("vnode"@, #[trigger] names[i]) || occurs(
                    "component"@,
                    names[i],
                ))
            &&& h.listeners <==> exists|i: int|
                0 <= i < names.len() && (occurs("listener"@, #[trigger] names[i]) || occurs(
                    "emitter"@,
                    names[i],
                ) || occurs("subscription"@, names[i]))
            &&& h.proxies <==> exists|i: int|
                0 <= i < names.len() && (occurs("proxy"@, #[trigger] names[i]) || occurs(
                    "reactive"@,
                    names[i],
                ))
            &&& h.stores <==> exists|i: int|
                0 <= i < names.len() && (occurs("store"@, #[trigger] names[i]) || occurs(
                    "cache"@,
                    names[i],
                ) || occurs("registry"@, names[i]))
            &&& h.large_detached <==> detached_size > 10 * 1048576
            &&& h.big_arrays <==> array_size > 50 * 1048576
        }),
{
    lemma_any_mentions(seq!["vnode"@, "component"@], names);
    lemma_any_mentions(seq!["listener"@, "emitter"@, "subscription"@], names);
    lemma_any_mentions(seq!["proxy"@, "reactive"@], names);
    lemma_any_mentions(seq!["store"@, "cache"@, "registry"@], names);
}

/// The names of two lists together give the hints that either list gives, and no others.
pub proof fn two_lists_of_names_give_the_hints_of_either(
    names: Seq<Seq<char>>,
    more: Seq<Seq<char>>,
    detached_size: nat,
    array_size: nat,
)
    ensures
        ({
            let a = hints_of(names, detached_size, array_size);
            let b = hints_of(more, detached_size, array_size);
            let c = hints_of(names + more, detached_size, array_size);
            &&& c.vnodes == (a.vnodes || b.vnodes)
            &&& c.listeners == (a.listeners || b.listeners)
            &&& c.proxies == (a.proxies || b.proxies)
            &&& c.stores == (a.stores || b.stores)
        }),
{
    lemma_mentions_of_both(seq!["vnode"@, "component"@], names, more);
    lemma_mentions_of_both(seq!["listener"@, "emitter"@, "subscription"@], names, more);
    lemma_mentions_of_both(seq!["proxy"@, "reactive"@], names, more);
    lemma_mentions_of_both(seq!["store"@, "cache"@, "registry"@], names, more);
}

proof fn lemma_mentions_of_both(words: Seq<Seq<char>>, a: Seq<Seq<char>>, b: Seq<Seq<char>>)
    ensures
        any_mentions(words, a + b) == (any_mentions(words, a) || any_mentions(words, b)),
{
    let all = a + b;
    if any_mentions(words, all) {
        let i = choose|i: int| 0 <= i < all.len() && #[trigger] mentions(words, all[i]);
        if i < a.len() {
            assert(mentions(words, a[i]));
        } else {
            assert(mentions(words, b[i - a.len()]));
        }
    }
    if any_mentions(words, a) {
        let i = choose|i: int| 0 <= i < a.len() && #[trigger] mentions(words, a[i]);
        assert(mentions(words, all[i]));
    }
    if any_mentions(words, b) {
        let i = choose|i: int| 0 <= i < b.len() && #[trigger] mentions(words, b[i]);
        assert(mentions(words, all[a.len() + i]));
    }
}

/// The ASCII letters from `A` to `Z` become those from `a` to `z`, and all else is kept, place by
/// place.
pub proof fn ascii_letters_become_small(text: Seq<char>, i: int)
    requires
        0 <= i < text.len(),
    ensures
        ascii_lowercase(text).len() == text.len(),
        65 <= text[i] as int <= 90 ==> ascii_lowercase(text)[i] as int == text[i] as int + 32,
        !(65 <= text[i] as int <= 90) ==> ascii_lowercase(text)[i] == text[i],
{
}

/// Each of some texts is put into lower case by itself.
pub proof fn lower_case_is_text_by_text(list: Seq<Seq<char>>)
    ensures
        lowered(list) == list.map_values(|text: Seq<char>| lowercase(text)),
{
    assert(lowered(list) =~= list.map_values(|text: Seq<char>| lowercase(text)));
}

/// The words of some lists of characters are what the lists hold.
pub proof fn words_are_those_of_the_lists(list: Seq<Vec<char>>)
    ensures
        words_of(list) == list.map_values(|word: Vec<char>| word@),
{
    assert(words_of(list) =~= list.map_values(|word: Vec<char>| word@));
}

/// Words are mentioned in a text if one of them occurs in it.
pub proof fn a_mention_is_an_occurrence(words: Seq<Seq<char>>, text: Seq<char>)
    ensures
        mentions(words, text) <==> exists|word: Seq<char>|
            words.contains(word) && #[trigger] occurs(word, text),
{
    if mentions(words, text) {
        let k = choose|k: int| 0 <= k < words.len() && #[trigger] occurs(words[k], text);
        assert(words.contains(words[k]));
    }
    if exists|word: Seq<char>| words.contains(word) && #[trigger] occurs(word, text) {
        let word = choose|word: Seq<char>| words.contains(word) && #[trigger] occurs(word, text);
        let k = choose|k: int| 0 <= k < words.len() && words[k] == word;
        assert(occurs(words[k], text));
    }
}

} // verus!
