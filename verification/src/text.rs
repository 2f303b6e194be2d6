//! Words, letter case and the order of strings.

use vstd::prelude::*;
use vstd::string::StrSliceExecFns;

verus! {

/// Whether `c` has the Unicode property `White_Space`.
pub open spec fn is_space(c: char) -> bool {
    let n = c as int;
    ||| 0x09 <= n <= 0x0D
    ||| n == 0x20
    ||| n == 0x85
    ||| n == 0xA0
    ||| n == 0x1680
    ||| 0x2000 <= n <= 0x200A
    ||| n == 0x2028
    ||| n == 0x2029
    ||| n == 0x202F
    ||| n == 0x205F
    ||| n == 0x3000
}

/// The maximal runs of characters of `text` that are not white space, in
/// the order in which they occur.
pub open spec fn words(text: Seq<char>) -> Seq<Seq<char>>
    decreases text.len(),
{
    if text.len() == 0 {
        Seq::empty()
    } else {
        let rest = words(text.drop_first());
        if is_space(text[0]) {
            rest
        } else if text.len() > 1 && !is_space(text[1]) && rest.len() > 0 {
            rest.update(0, seq![text[0]] + rest[0])
        } else {
            seq![seq![text[0]]] + rest
        }
    }
}

/// The lower-case form of `text`, as the Unicode character database
/// defines it.
pub uninterp spec fn lowercase(text: Seq<char>) -> Seq<char>;

/// The tokens under which `text` is indexed: its words, in lower case.
pub open spec fn tokens(text: Seq<char>) -> Seq<Seq<char>> {
    words(text).map_values(|word: Seq<char>| lowercase(word))
}

/// Whether `a` comes strictly before `b` in the lexicographic order of
/// their characters' code points.
pub open spec fn precedes(a: Seq<char>, b: Seq<char>) -> bool
    decreases a.len(),
{
    if b.len() == 0 {
        false
    } else if a.len() == 0 {
        true
    } else if a[0] != b[0] {
        (a[0] as int) < (b[0] as int)
    } else {
        precedes(a.drop_first(), b.drop_first())
    }
}

/// Whether `value` lies in the half-open interval from `from` (included) to
/// `to` (excluded).
pub open spec fn within(value: Seq<char>, from: Seq<char>, to: Seq<char>) -> bool {
    !precedes(value, from) && precedes(value, to)
}

/// No string comes before itself.
pub proof fn lemma_precedes_irreflexive(a: Seq<char>)
    ensures
        !precedes(a, a),
    decreases a.len(),
{
    if a.len() > 0 {
        lemma_precedes_irreflexive(a.drop_first());
    }
}

/// Of two different strings one comes before the other.
pub proof fn lemma_precedes_total(a: Seq<char>, b: Seq<char>)
    ensures
        a == b || precedes(a, b) || precedes(b, a),
    decreases a.len(),
{
    if a.len() == 0 || b.len() == 0 {
        if a.len() == 0 && b.len() == 0 {
            assert(a =~= b);
        }
    } else if a[0] == b[0] {
        lemma_precedes_total(a.drop_first(), b.drop_first());
        if a.drop_first() == b.drop_first() {
            assert(a =~= seq![a[0]] + a.drop_first());
            assert(b =~= seq![b[0]] + b.drop_first());
        }
    }
}

/// The order is transitive.
pub proof fn lemma_precedes_transitive(a: Seq<char>, b: Seq<char>, c: Seq<char>)
    requires
        precedes(a, b),
        precedes(b, c),
    ensures
        precedes(a, c),
    decreases a.len(),
{
    if a.len() > 0 && b.len() > 0 && c.len() > 0 && a[0] == b[0] && b[0] == c[0] {
        lemma_precedes_transitive(a.drop_first(), b.drop_first(), c.drop_first());
    }
}

/// The views of the strings of `list`.
pub open spec fn texts(list: Seq<String>) -> Seq<Seq<char>> {
    list.map_values(|s: String| s@)
}

/// Calls `str::split_whitespace` and collects what it yields. The contract
/// claims that these are the words of `text`: its maximal runs of
/// characters without the property `White_Space`, in order.
#[verifier::external_body]
pub(crate) fn split_words(text: &str) -> (list: Vec<String>)
    ensures
        texts(list@) == words(text@),
{
    text.split_whitespace().map(|word| word.to_owned()).collect()
}

/// Calls `str::to_lowercase`. The contract gives the result the name
/// `lowercase`: it is a function of the characters of `word` alone.
#[verifier::external_body]
pub(crate) fn to_lower(word: &str) -> (lower: String)
    ensures
        lower@ == lowercase(word@),
{
    word.to_lowercase()
}

/// Calls `<` of `String`, which orders strings lexicographically by their
/// bytes; for UTF-8 that is the order of their code points.
#[verifier::external_body]
pub(crate) fn comes_before(a: &String, b: &String) -> (before: bool)
    ensures
        before == precedes(a@, b@),
{
    a < b
}

/// What follows `prefix` in `text`, where `text` begins with it.
pub fn strip_prefix(text: &str, prefix: &str) -> (rest: Option<String>)
    ensures
        match rest {
            Some(rest) => text@ == prefix@ + rest@,
            None => !prefix@.is_prefix_of(text@),
        },
{
    let n = prefix.unicode_len();
    let m = text.unicode_len();
    if m < n {
        return None;
    }
    let head = text.substring_char(0, n).to_owned();
    if head == prefix.to_owned() {
        let rest = text.substring_char(n, m).to_owned();
        assert(text@ =~= prefix@ + rest@);
        Some(rest)
    } else {
        None
    }
}

/// The tokens of `text`.
pub fn tokenize(text: &str) -> (list: Vec<String>)
    ensures
        texts(list@) == tokens(text@),
{
    let found = split_words(text);
    let mut list: Vec<String> = Vec::new();
    let mut i: usize = 0;
    while i < found.len()
        invariant
            i <= found@.len(),
            list@.len() == i,
            forall|j: int| 0 <= j < i ==> list@[j]@ == lowercase(found@[j]@),
        decreases found@.len() - i,
    {
        let lower = to_lower(found[i].as_str());
        list.push(lower);
        i += 1;
    }
    assert(texts(list@) =~= texts(found@).map_values(|word: Seq<char>| lowercase(word)));
    list
}

} // verus!
