//! The Greek words that the Snowball rules for Greek cannot stem.
//!
//! Behind a word's dropped ending those rules look for the bare root `ισα` and replace it by
//! the bounds of the ending that is gone, which lie beyond the word's end.

use crate::text;
use vstd::prelude::*;

verus! {

/// A Greek letter without its accents, in lower case, as far as the letters of the endings
/// below go. The rules take an iota with diaeresis for an eta.
pub open spec fn plain_letter(c: char) -> char {
    if c == 'Ά' || c == 'Α' || c == 'ά' {
        'α'
    } else if c == 'Έ' || c == 'Ε' || c == 'έ' {
        'ε'
    } else if c == 'Ζ' {
        'ζ'
    } else if c == 'Ή' || c == 'Η' || c == 'ή' || c == 'ϊ' || c == 'ΐ' {
        'η'
    } else if c == 'Θ' {
        'θ'
    } else if c == 'Ί' || c == 'Ι' || c == 'Ϊ' || c == 'ί' {
        'ι'
    } else if c == 'Κ' {
        'κ'
    } else if c == 'Μ' {
        'μ'
    } else if c == 'Ν' {
        'ν'
    } else if c == 'Ό' || c == 'Ο' || c == 'ό' {
        'ο'
    } else if c == 'ς' || c == 'Σ' {
        'σ'
    } else if c == 'Τ' {
        'τ'
    } else if c == 'Ύ' || c == 'Υ' || c == 'Ϋ' || c == 'ύ' || c == 'ϋ' || c == 'ΰ' {
        'υ'
    } else if c == 'Ώ' || c == 'Ω' || c == 'ώ' {
        'ω'
    } else {
        c
    }
}

/// `word` in plain letters.
pub open spec fn plain_word(word: Seq<char>) -> Seq<char> {
    word.map_values(|c: char| plain_letter(c))
}

/// The endings of the past tenses.
pub open spec fn past_ending(i: nat) -> Seq<char> {
    if i == 0 {
        "εσ"@
    } else if i == 1 {
        "α"@
    } else if i == 2 {
        "ε"@
    } else if i == 3 {
        "ατε"@
    } else if i == 4 {
        "αμε"@
    } else if i == 5 {
        "ανε"@
    } else {
        "αν"@
    }
}

/// No ending, or one of the passive past.
pub open spec fn passive_ending(i: nat) -> Seq<char> {
    if i == 0 {
        Seq::empty()
    } else {
        "ωθηκ"@ + past_ending((i - 1) as nat)
    }
}

/// No ending, or one of the verbs in `ιζω`.
pub open spec fn verb_ending(i: nat) -> Seq<char> {
    if i == 0 {
        Seq::empty()
    } else if i == 1 {
        "ιζεσ"@
    } else if i == 2 {
        "ιζεισ"@
    } else if i == 3 {
        "ιζω"@
    } else if i == 4 {
        "ιζα"@
    } else if i == 5 {
        "ιζατε"@
    } else if i == 6 {
        "ιζετε"@
    } else if i == 7 {
        "ιζε"@
    } else if i == 8 {
        "ιζουμε"@
    } else if i == 9 {
        "ιζαμε"@
    } else if i == 10 {
        "ιζουνε"@
    } else if i == 11 {
        "ιζανε"@
    } else if i == 12 {
        "ιζει"@
    } else if i == 13 {
        "ιζουν"@
    } else {
        "ιζαν"@
    }
}

/// The root `ισα` with an ending in `ισ`, and then perhaps a passive and a verb ending.
pub open spec fn rooted(a: nat, b: nat, c: nat) -> Seq<char> {
    "ισαισ"@ + past_ending(a) + passive_ending(b) + verb_ending(c)
}

/// Whether the rules for Greek run past the end of `word`: in plain letters it is the root with
/// such endings.
pub open spec fn unstemmable(word: Seq<char>) -> bool {
    exists|a: nat, b: nat, c: nat|
        a < 7 && b < 8 && c < 15 && plain_word(word) == #[trigger] rooted(a, b, c)
}

fn to_plain_letter(c: char) -> (p: char)
    ensures
        p == plain_letter(c),
{
    if c == 'Ά' || c == 'Α' || c == 'ά' {
        'α'
    } else if c == 'Έ' || c == 'Ε' || c == 'έ' {
        'ε'
    } else if c == 'Ζ' {
        'ζ'
    } else if c == 'Ή' || c == 'Η' || c == 'ή' || c == 'ϊ' || c == 'ΐ' {
        'η'
    } else if c == 'Θ' {
        'θ'
    } else if c == 'Ί' || c == 'Ι' || c == 'Ϊ' || c == 'ί' {
        'ι'
    } else if c == 'Κ' {
        'κ'
    } else if c == 'Μ' {
        'μ'
    } else if c == 'Ν' {
        'ν'
    } else if c == 'Ό' || c == 'Ο' || c == 'ό' {
        'ο'
    } else if c == 'ς' || c == 'Σ' {
        'σ'
    } else if c == 'Τ' {
        'τ'
    } else if c == 'Ύ' || c == 'Υ' || c == 'Ϋ' || c == 'ύ' || c == 'ϋ' || c == 'ΰ' {
        'υ'
    } else if c == 'Ώ' || c == 'Ω' || c == 'ώ' {
        'ω'
    } else {
        c
    }
}

fn to_plain_word(word: &str) -> (p: String)
    ensures
        p@ == plain_word(word@),
{
    let n: usize = word.unicode_len();
    let mut p = String::new();
    let mut i: usize = 0;
    while i < n
        invariant
            n == word@.len(),
            i <= n,
            p@ == plain_word(word@.take(i as int)),
        decreases n - i,
    {
        let c = word.get_char(i);
        p.push(to_plain_letter(c));
        assert(p@ =~= plain_word(word@.take(i + 1)));
        i += 1;
    }
    assert(word@.take(n as int) =~= word@);
    p
}

fn past_text(i: usize) -> (s: &'static str)
    ensures
        s@ == past_ending(i as nat),
{
    if i == 0 {
        "εσ"
    } else if i == 1 {
        "α"
    } else if i == 2 {
        "ε"
    } else if i == 3 {
        "ατε"
    } else if i == 4 {
        "αμε"
    } else if i == 5 {
        "ανε"
    } else {
        "αν"
    }
}

fn verb_text(i: usize) -> (s: &'static str)
    requires
        i > 0,
    ensures
        s@ == verb_ending(i as nat),
{
    if i == 1 {
        "ιζεσ"
    } else if i == 2 {
        "ιζεισ"
    } else if i == 3 {
        "ιζω"
    } else if i == 4 {
        "ιζα"
    } else if i == 5 {
        "ιζατε"
    } else if i == 6 {
        "ιζετε"
    } else if i == 7 {
        "ιζε"
    } else if i == 8 {
        "ιζουμε"
    } else if i == 9 {
        "ιζαμε"
    } else if i == 10 {
        "ιζουνε"
    } else if i == 11 {
        "ιζανε"
    } else if i == 12 {
        "ιζει"
    } else if i == 13 {
        "ιζουν"
    } else {
        "ιζαν"
    }
}

fn rooted_text(a: usize, b: usize, c: usize) -> (s: String)
    ensures
        s@ == rooted(a as nat, b as nat, c as nat),
{
    let mut s = String::new();
    s.append("ισαισ");
    s.append(past_text(a));
    if b > 0 {
        s.append("ωθηκ");
        s.append(past_text(b - 1));
    }
    if c > 0 {
        s.append(verb_text(c));
    }
    assert(s@ =~= rooted(a as nat, b as nat, c as nat));
    s
}

/// Whether `plain` is the root with the endings `a`, `b` and any verb ending.
fn rooted_in(plain: &str, a: usize, b: usize) -> (yes: bool)
    ensures
        yes <==> exists|c: nat| c < 15 && plain@ == #[trigger] rooted(a as nat, b as nat, c),
{
    let mut c: usize = 0;
    while c < 15
        invariant
            c <= 15,
            forall|k: nat| k < c ==> plain@ != #[trigger] rooted(a as nat, b as nat, k),
        decreases 15 - c,
    {
        let s = rooted_text(a, b, c);
        if text::same(plain, s.as_str()) {
            assert(plain@ == rooted(a as nat, b as nat, c as nat));
            return true;
        }
        c += 1;
    }
    false
}

/// Whether the rules for Greek run past the end of `word`.
pub fn is_unstemmable(word: &str) -> (yes: bool)
    ensures
        yes == unstemmable(word@),
{
    let plain = to_plain_word(word);
    proof {
        reveal_strlit("ισαισ");
        assert forall|a: nat, b: nat, c: nat, i: int| 0 <= i < 5 implies rooted(a, b, c).len() >= 5
            && #[trigger] rooted(a, b, c)[i] == "ισαισ"@[i] by {}
    }
    if plain.as_str().unicode_len() < 5 || plain.as_str().get_char(0) != 'ι'
        || plain.as_str().get_char(1) != 'σ' || plain.as_str().get_char(2) != 'α' {
        proof {
            if unstemmable(word@) {
                let (a, b, c) = choose|a: nat, b: nat, c: nat|
                    a < 7 && b < 8 && c < 15 && plain_word(word@) == #[trigger] rooted(a, b, c);
                assert(rooted(a, b, c)[0] == 'ι');
                assert(rooted(a, b, c)[1] == 'σ');
                assert(rooted(a, b, c)[2] == 'α');
            }
        }
        return false;
    }
    let mut a: usize = 0;
    while a < 7
        invariant
            a <= 7,
            plain@ == plain_word(word@),
            forall|i: nat, j: nat, k: nat|
                i < a && j < 8 && k < 15 ==> plain@ != #[trigger] rooted(i, j, k),
        decreases 7 - a,
    {
        let mut b: usize = 0;
        while b < 8
            invariant
                a < 7,
                b <= 8,
                plain@ == plain_word(word@),
                forall|i: nat, j: nat, k: nat|
                    (i < a && j < 8 || i == a && j < b) && k < 15 ==> plain@ != #[trigger] rooted(
                        i,
                        j,
                        k,
                    ),
            decreases 8 - b,
        {
            if rooted_in(plain.as_str(), a, b) {
                return true;
            }
            b += 1;
        }
        a += 1;
    }
    false
}

} // verus!
