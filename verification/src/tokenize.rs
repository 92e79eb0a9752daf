//! Tokens of a term index: alphanumeric runs, case folding, stop words and stems.

use crate::greek::{is_unstemmable, unstemmable};
use crate::text;
use rust_stemmers::{Algorithm, Stemmer};
use vstd::prelude::*;

verus! {

/// `char::is_alphanumeric`: whether the character is alphabetic or numeric in Unicode.
pub uninterp spec fn alphanumeric(c: char) -> bool;

/// `char::to_lowercase`: the character's Unicode lower-case mapping.
pub uninterp spec fn lower(c: char) -> Seq<char>;

/// What the Snowball stemmer of the language with the header byte `language` makes of `word`.
pub uninterp spec fn stemmed(language: u8, word: Seq<char>) -> Seq<char>;

/// `char::is_alphanumeric`. Which characters are alphanumeric is Unicode's affair; of ASCII it
/// is the digits and the letters.
#[verifier::external_body]
fn is_alphanumeric(c: char) -> (yes: bool)
    ensures
        yes == alphanumeric(c),
        c as u32 <= 0x7f ==> yes == ascii_alphanumeric(c),
{
    c.is_alphanumeric()
}

/// `char::to_lowercase`: one or more characters. Of ASCII, the capital letters become small
/// ones and the rest stays as it is.
#[verifier::external_body]
fn to_lowercase(c: char) -> (s: String)
    ensures
        s@ == lower(c),
        s@.len() >= 1,
        c as u32 <= 0x7f ==> s@ == seq![ascii_lower(c)],
{
    c.to_lowercase().to_string()
}

/// `String::push`: appends the character.
pub assume_specification[ String::push ](s: &mut String, c: char)
    ensures
        final(s)@ == old(s)@.push(c),
;

/// `Stemmer::stem` of the stemmer that `Stemmer::create` makes for the language. The stem is a
/// function of the language and the word; the Snowball rules themselves are left unsaid. The
/// words left out are those on which the rules for Greek panic, where one edit cuts at bounds
/// that an earlier edit has moved. On every path through the rules of the other languages, an
/// edit comes after both of its bounds have been set to the cursor since the last one, and so
/// cuts inside the word; `tests/terms.rs` stems 50,000 words made at random of each language's
/// own endings and letters.
#[verifier::external_body]
fn stem(language: Language, word: &str) -> (s: String)
    requires
        language is Greek ==> !unstemmable(word@),
    ensures
        s@ == stemmed(language.code(), word@),
{
    let algorithm = match language {
        Language::English => Algorithm::English, Language::Spanish => Algorithm::Spanish,
        Language::Arabic => Algorithm::Arabic, Language::Danish => Algorithm::Danish,
        Language::Dutch => Algorithm::Dutch, Language::Finnish => Algorithm::Finnish,
        Language::French => Algorithm::French, Language::German => Algorithm::German,
        Language::Greek => Algorithm::Greek, Language::Hungarian => Algorithm::Hungarian,
        Language::Italian => Algorithm::Italian, Language::Norwegian => Algorithm::Norwegian,
        Language::Portuguese => Algorithm::Portuguese, Language::Romanian => Algorithm::Romanian,
        Language::Russian => Algorithm::Russian, Language::Swedish => Algorithm::Swedish,
        Language::Tamil => Algorithm::Tamil, Language::Turkish => Algorithm::Turkish,
    };
    Stemmer::create(algorithm).stem(word).into_owned()
}

/// `c` with an ASCII capital letter made small.
pub open spec fn ascii_lower(c: char) -> char {
    if 'A' <= c && c <= 'Z' {
        (c as u32 + 32) as char
    } else {
        c
    }
}

/// Whether `c` is an ASCII digit or letter.
pub open spec fn ascii_alphanumeric(c: char) -> bool {
    ('0' <= c && c <= '9') || ('A' <= c && c <= 'Z') || ('a' <= c && c <= 'z')
}

/// Whether `c`, where it is ASCII, is alphanumeric exactly as a digit or a letter.
pub open spec fn ascii_told(c: char) -> bool {
    c as u32 <= 0x7f ==> alphanumeric(c) == ascii_alphanumeric(c)
}

/// Whether `c`, where it is ASCII, becomes small exactly as a capital letter.
pub open spec fn ascii_lowers(c: char) -> bool {
    c as u32 <= 0x7f ==> lower(c) == seq![ascii_lower(c)]
}

/// How many characters `s` starts with that are alphanumeric.
pub open spec fn run_len(s: Seq<char>) -> nat
    decreases s.len(),
{
    if s.len() == 0 || !alphanumeric(s[0]) {
        0
    } else {
        1 + run_len(s.drop_first())
    }
}

/// The maximal runs of alphanumeric characters in `s`, in order.
pub open spec fn runs(s: Seq<char>) -> Seq<Seq<char>>
    decreases s.len(),
{
    if s.len() == 0 {
        Seq::empty()
    } else if !alphanumeric(s[0]) {
        runs(s.drop_first())
    } else {
        let n = run_len(s);
        if 0 < n <= s.len() {
            seq![s.take(n as int)] + runs(s.skip(n as int))
        } else {
            Seq::empty()
        }
    }
}

/// `s` with every character in lower case.
pub open spec fn lowered(s: Seq<char>) -> Seq<char>
    decreases s.len(),
{
    if s.len() == 0 {
        Seq::empty()
    } else {
        lowered(s.drop_last()) + lower(s.last())
    }
}

/// `s` in lower case where `case_fold` is set, else `s`.
pub open spec fn folded(s: Seq<char>, case_fold: bool) -> Seq<char> {
    if case_fold {
        lowered(s)
    } else {
        s
    }
}

/// The tokens of `s`: its alphanumeric runs, in lower case where `case_fold` is set.
pub open spec fn tokens(s: Seq<char>, case_fold: bool) -> Seq<Seq<char>> {
    runs(s).map_values(|r: Seq<char>| folded(r, case_fold))
}

/// The texts of `v`.
pub open spec fn texts(v: Seq<String>) -> Seq<Seq<char>> {
    v.map_values(|s: String| s@)
}

spec fn all_alphanumeric(s: Seq<char>) -> bool {
    forall|i: int| 0 <= i < s.len() ==> alphanumeric(#[trigger] s[i])
}

proof fn lemma_run_len(open: Seq<char>, rest: Seq<char>)
    requires
        all_alphanumeric(open),
        rest.len() == 0 || !alphanumeric(rest[0]),
    ensures
        run_len(open + rest) == open.len(),
    decreases open.len(),
{
    if open.len() == 0 {
        assert(open + rest =~= rest);
    } else {
        assert((open + rest).drop_first() =~= open.drop_first() + rest);
        assert forall|i: int| 0 <= i < open.drop_first().len() implies alphanumeric(
            #[trigger] open.drop_first()[i],
        ) by {
            assert(open.drop_first()[i] == open[i + 1]);
        }
        lemma_run_len(open.drop_first(), rest);
        assert((open + rest)[0] == open[0]);
    }
}

proof fn lemma_runs_close(open: Seq<char>, rest: Seq<char>)
    requires
        all_alphanumeric(open),
        open.len() > 0,
        rest.len() == 0 || !alphanumeric(rest[0]),
    ensures
        runs(open + rest) == seq![open] + runs(rest),
{
    lemma_run_len(open, rest);
    assert((open + rest)[0] == open[0]);
    assert((open + rest).take(open.len() as int) =~= open);
    assert((open + rest).skip(open.len() as int) =~= rest);
}

/// Where the alphanumeric runs of `t` from position `p` on start and end.
pub open spec fn spans(t: Seq<char>, p: int) -> Seq<(int, int)>
    decreases t.len() - p,
{
    if p < 0 || p >= t.len() {
        Seq::empty()
    } else if !alphanumeric(t[p]) {
        spans(t, p + 1)
    } else {
        let n = run_len(t.skip(p));
        if 0 < n <= t.len() - p {
            seq![(p, p + n)] + spans(t, p + n)
        } else {
            Seq::empty()
        }
    }
}

/// The alphanumeric characters of `s`, in order.
pub open spec fn kept_chars(s: Seq<char>) -> Seq<char>
    decreases s.len(),
{
    if s.len() == 0 {
        Seq::empty()
    } else if alphanumeric(s[0]) {
        seq![s[0]] + kept_chars(s.drop_first())
    } else {
        kept_chars(s.drop_first())
    }
}

proof fn lemma_run(s: Seq<char>)
    ensures
        run_len(s) <= s.len(),
        forall|i: int| 0 <= i < run_len(s) ==> alphanumeric(#[trigger] s[i]),
        run_len(s) < s.len() ==> !alphanumeric(s[run_len(s) as int]),
    decreases s.len(),
{
    if s.len() > 0 && alphanumeric(s[0]) {
        let rest = s.drop_first();
        lemma_run(rest);
        assert forall|i: int| 0 <= i < run_len(s) implies alphanumeric(#[trigger] s[i]) by {
            if i > 0 {
                assert(rest[i - 1] == s[i]);
            }
        }
    }
}

proof fn lemma_kept_run(open: Seq<char>, rest: Seq<char>)
    requires
        all_alphanumeric(open),
    ensures
        kept_chars(open + rest) == open + kept_chars(rest),
    decreases open.len(),
{
    if open.len() == 0 {
        assert(open + rest =~= rest);
        assert(open + kept_chars(rest) =~= kept_chars(rest));
    } else {
        let tail = open.drop_first();
        assert((open + rest).drop_first() =~= tail + rest);
        assert forall|i: int| 0 <= i < tail.len() implies alphanumeric(#[trigger] tail[i]) by {
            assert(tail[i] == open[i + 1]);
        }
        lemma_kept_run(tail, rest);
        assert((open + rest)[0] == open[0]);
        assert(seq![open[0]] + (tail + kept_chars(rest)) =~= open + kept_chars(rest));
    }
}

/// Whether `ss` are the maximal runs of alphanumeric characters of `t` from `p` on.
spec fn maximal(t: Seq<char>, p: int, ss: Seq<(int, int)>) -> bool {
    &&& forall|i: int| 0 <= i < ss.len() ==> p <= (#[trigger] ss[i]).0 < ss[i].1 <= t.len()
    &&& forall|i: int, j: int| 0 <= i < j < ss.len() ==> (#[trigger] ss[i]).1 < (#[trigger] ss[j]).0
    &&& forall|i: int, q: int|
        #![trigger ss[i], t[q]]
        0 <= i < ss.len() && ss[i].0 <= q < ss[i].1 ==> alphanumeric(t[q])
    &&& forall|i: int| 0 <= i < ss.len() && (#[trigger] ss[i]).1 < t.len() ==> !alphanumeric(t[ss[i].1])
    &&& forall|q: int|
        p <= q < t.len() && alphanumeric(#[trigger] t[q]) ==> exists|i: int|
            0 <= i < ss.len() && (#[trigger] ss[i]).0 <= q < ss[i].1
}

proof fn lemma_spans(t: Seq<char>, p: int)
    requires
        0 <= p <= t.len(),
    ensures
        maximal(t, p, spans(t, p)),
        runs(t.skip(p)).len() == spans(t, p).len(),
        forall|i: int|
            0 <= i < spans(t, p).len() ==> #[trigger] runs(t.skip(p))[i] == t.subrange(
                spans(t, p)[i].0,
                spans(t, p)[i].1,
            ),
        runs(t.skip(p)).flatten() == kept_chars(t.skip(p)),
    decreases t.len() - p,
{
    let s = t.skip(p);
    let ss = spans(t, p);
    if p < t.len() {
        assert(s[0] == t[p]);
        if !alphanumeric(t[p]) {
            assert(s.drop_first() =~= t.skip(p + 1));
            lemma_spans(t, p + 1);
            assert(maximal(t, p, ss)) by {
                let rest = spans(t, p + 1);
                assert forall|i: int| 0 <= i < ss.len() implies p <= (#[trigger] ss[i]).0 by {
                    assert(p + 1 <= rest[i].0);
                }
            }
        } else {
            lemma_run(s);
            let n = run_len(s);
            let e = p + n;
            let rest = spans(t, e);
            let more = runs(t.skip(e));
            assert(s.skip(n as int) =~= t.skip(e));
            lemma_spans(t, e);
            assert(ss == seq![(p, e)] + rest);
            assert(runs(s) == seq![s.take(n as int)] + more);
            assert(s.take(n as int) =~= t.subrange(p, e));
            assert forall|i: int| 0 <= i < ss.len() implies #[trigger] runs(s)[i] == t.subrange(
                ss[i].0,
                ss[i].1,
            ) by {
                if i > 0 {
                    assert(ss[i] == rest[i - 1] && runs(s)[i] == more[i - 1]);
                }
            }
            assert forall|q: int| p <= q < e implies alphanumeric(#[trigger] t[q]) by {
                assert(s[q - p] == t[q]);
            }
            if e < t.len() {
                assert(s[n as int] == t[e]);
            }
            lemma_first_span(t, p, e);
            let open = s.take(n as int);
            assert(open + t.skip(e) =~= s);
            assert forall|i: int| 0 <= i < open.len() implies alphanumeric(#[trigger] open[i]) by {
                assert(open[i] == s[i]);
            }
            lemma_kept_run(open, t.skip(e));
            assert(runs(s).drop_first() =~= more);
            assert(runs(s).first() == open);
            assert(runs(s).flatten() == open + more.flatten());
        }
    } else {
        assert(s =~= Seq::<char>::empty());
        assert(runs(s).flatten() =~= Seq::<char>::empty());
    }
}

proof fn lemma_first_span(t: Seq<char>, p: int, e: int)
    requires
        0 <= p < e <= t.len(),
        maximal(t, e, spans(t, e)),
        forall|q: int| p <= q < e ==> alphanumeric(#[trigger] t[q]),
        e < t.len() ==> !alphanumeric(t[e]),
    ensures
        maximal(t, p, seq![(p, e)] + spans(t, e)),
{
    let rest = spans(t, e);
    let ss = seq![(p, e)] + rest;
    assert forall|i: int| 0 <= i < rest.len() implies rest[i].0 > e by {
        assert(e <= rest[i].0 < rest[i].1 <= t.len());
        if rest[i].0 == e {
            assert(alphanumeric(t[e]));
        }
    }
    assert forall|i: int| 0 <= i < ss.len() implies p <= (#[trigger] ss[i]).0 < ss[i].1
        <= t.len() by {
        if i > 0 {
            assert(ss[i] == rest[i - 1]);
        }
    }
    assert forall|i: int, j: int| 0 <= i < j < ss.len() implies (#[trigger] ss[i]).1 < (
    #[trigger] ss[j]).0 by {
        assert(ss[j] == rest[j - 1]);
        if i > 0 {
            assert(ss[i] == rest[i - 1]);
        }
    }
    assert forall|i: int, q: int|
        #![trigger ss[i], t[q]]
        0 <= i < ss.len() && ss[i].0 <= q < ss[i].1 implies alphanumeric(t[q]) by {
        if i > 0 {
            assert(ss[i] == rest[i - 1]);
        }
    }
    assert forall|i: int| 0 <= i < ss.len() && (#[trigger] ss[i]).1 < t.len() implies !alphanumeric(
        t[ss[i].1],
    ) by {
        if i > 0 {
            assert(ss[i] == rest[i - 1]);
        }
    }
    assert forall|q: int| p <= q < t.len() && alphanumeric(#[trigger] t[q]) implies exists|i: int|
        0 <= i < ss.len() && (#[trigger] ss[i]).0 <= q < ss[i].1 by {
        if q < e {
            assert(ss[0].0 <= q < ss[0].1);
        } else {
            let i = choose|i: int| 0 <= i < rest.len() && (#[trigger] rest[i]).0 <= q < rest[i].1;
            assert(ss[i + 1] == rest[i]);
        }
    }
}

/// The tokens of a text are its maximal runs of alphanumeric characters, in order: each is a
/// part of the text without another character in it, and together they are the text without its
/// other characters.
pub proof fn law_tokens_are_runs(text: Seq<char>)
    ensures
        tokens(text, false) == runs(text),
        runs(text).len() == spans(text, 0).len(),
        forall|i: int|
            0 <= i < runs(text).len() ==> {
                let at = spans(text, 0)[i];
                &&& 0 <= at.0 < at.1 <= text.len()
                &&& #[trigger] runs(text)[i] == text.subrange(at.0, at.1)
            },
        forall|i: int, k: int|
            0 <= i < runs(text).len() && 0 <= k < runs(text)[i].len() ==> alphanumeric(
                #[trigger] runs(text)[i][k],
            ),
        forall|i: int, j: int|
            0 <= i < j < runs(text).len() ==> (#[trigger] spans(text, 0)[i]).1 < (#[trigger] spans(
                text,
                0,
            )[j]).0,
        runs(text).flatten() == kept_chars(text),
{
    assert(text.skip(0) =~= text);
    lemma_spans(text, 0);
    assert(tokens(text, false) =~= runs(text));
    let ss = spans(text, 0);
    assert forall|i: int, k: int|
        0 <= i < runs(text).len() && 0 <= k < runs(text)[i].len() implies alphanumeric(
        #[trigger] runs(text)[i][k],
    ) by {
        assert(runs(text)[i] == text.subrange(ss[i].0, ss[i].1));
        assert(runs(text)[i][k] == text[ss[i].0 + k]);
    }
}

/// Two alphanumeric characters are in the same token exactly where no other character lies
/// between them, and every alphanumeric character is in a token.
pub proof fn law_tokens_maximal(text: Seq<char>, p: int, q: int)
    requires
        0 <= p <= q < text.len(),
        alphanumeric(text[p]),
        alphanumeric(text[q]),
    ensures
        (exists|i: int|
            0 <= i < runs(text).len() && (#[trigger] spans(text, 0)[i]).0 <= p && q < spans(
                text,
                0,
            )[i].1) <==> (forall|r: int| p <= r <= q ==> alphanumeric(#[trigger] text[r])),
{
    assert(text.skip(0) =~= text);
    lemma_spans(text, 0);
    lemma_shared(text, spans(text, 0), p, q);
}

#[verifier::spinoff_prover]
proof fn lemma_shared(t: Seq<char>, ss: Seq<(int, int)>, p: int, q: int)
    requires
        0 <= p <= q < t.len(),
        alphanumeric(t[p]),
        maximal(t, 0, ss),
    ensures
        (exists|i: int| 0 <= i < ss.len() && (#[trigger] ss[i]).0 <= p && q < ss[i].1) <==> (forall|
            r: int,
        |
            p <= r <= q ==> alphanumeric(#[trigger] t[r])),
{
    let at = choose|i: int| 0 <= i < ss.len() && (#[trigger] ss[i]).0 <= p < ss[i].1;
    assert(0 <= at < ss.len() && ss[at].0 <= p < ss[at].1);
    let e = ss[at].1;
    if q < e {
        assert forall|r: int| p <= r <= q implies alphanumeric(#[trigger] t[r]) by {
            assert(ss[at].0 <= r < ss[at].1);
        }
    } else {
        assert(!alphanumeric(t[e]));
        assert forall|i: int| 0 <= i < ss.len() && (#[trigger] ss[i]).0 <= p implies q
            >= ss[i].1 by {
            if i > at {
                assert(ss[at].1 < ss[i].0);
            } else if i < at {
                assert(ss[i].1 < ss[at].0);
            }
        }
    }
}

/// Folding case keeps the number of tokens: each is the unfolded one in lower case.
pub proof fn law_folding_keeps_tokens(text: Seq<char>)
    ensures
        tokens(text, true).len() == tokens(text, false).len(),
        forall|i: int|
            0 <= i < tokens(text, true).len() ==> #[trigger] tokens(text, true)[i] == lowered(
                tokens(text, false)[i],
            ),
{
}

/// Splits `text` into lower-cased terms: a token is a maximal run of `char::is_alphanumeric`.
/// The builder and the reader call this same function, so a query tokenizes identically to the
/// indexed text.
pub fn tokenize(text: &str) -> (v: Vec<String>)
    ensures
        texts(v@) == tokens(text@, true),
        forall|i: int| 0 <= i < text@.len() ==> ascii_told(#[trigger] text@[i]),
        forall|i: int|
            0 <= i < text@.len() && alphanumeric(text@[i]) ==> ascii_lowers(#[trigger] text@[i]),
{
    tokenize_with(text, true)
}

/// The base tokenizer with explicit case folding: with `case_fold` false the token text is kept
/// verbatim (a case-sensitive index).
pub fn tokenize_with(text: &str, case_fold: bool) -> (v: Vec<String>)
    ensures
        texts(v@) == tokens(text@, case_fold),
        forall|i: int| 0 <= i < text@.len() ==> ascii_told(#[trigger] text@[i]),
        case_fold ==> forall|i: int|
            0 <= i < text@.len() && alphanumeric(text@[i]) ==> ascii_lowers(#[trigger] text@[i]),
{
    let mut tokens_out: Vec<String> = Vec::new();
    let mut cur = String::new();
    let ghost mut done = Seq::<Seq<char>>::empty();
    let ghost mut open = Seq::<char>::empty();
    assert(open + text@.skip(0) =~= text@);
    assert(done + runs(text@) =~= runs(text@));
    for c in it: text.chars()
        invariant
            it.seq() == text@,
            all_alphanumeric(open),
            cur@ == folded(open, case_fold),
            open.len() == 0 <==> cur@.len() == 0,
            runs(text@) == done + runs(open + text@.skip(it.index())),
            texts(tokens_out@) == done.map_values(|r: Seq<char>| folded(r, case_fold)),
            forall|i: int| 0 <= i < it.index() ==> ascii_told(#[trigger] text@[i]),
            case_fold ==> forall|i: int|
                0 <= i < it.index() && alphanumeric(text@[i]) ==> ascii_lowers(
                    #[trigger] text@[i],
                ),
    {
        let ghost rest = text@.skip(it.index());
        let ghost after = text@.skip(it.index() + 1);
        assert(rest[0] == c);
        assert(rest.drop_first() =~= after);
        if is_alphanumeric(c) {
            proof {
                assert(open.push(c) + after =~= open + rest);
                assert(open.push(c).drop_last() =~= open);
            }
            if case_fold {
                let small = to_lowercase(c);
                cur.append(small.as_str());
            } else {
                cur.push(c);
            }
            proof {
                open = open.push(c);
            }
        } else {
            if cur.as_str().unicode_len() > 0 {
                proof {
                    lemma_runs_close(open, rest);
                    assert(done + (seq![open] + runs(rest)) =~= done.push(open) + runs(rest));
                }
                let ghost before = tokens_out@;
                tokens_out.push(cur);
                cur = String::new();
                proof {
                    assert(texts(tokens_out@) =~= texts(before).push(folded(open, case_fold)));
                    assert(done.push(open).map_values(|r: Seq<char>| folded(r, case_fold))
                        =~= done.map_values(|r: Seq<char>| folded(r, case_fold)).push(
                        folded(open, case_fold),
                    ));
                    done = done.push(open);
                    open = Seq::empty();
                }
            }
            proof {
                assert(open =~= Seq::<char>::empty());
                assert(open + rest =~= rest);
                assert(open + after =~= after);
            }
        }
    }
    let ghost end = text@.skip(text@.len() as int);
    assert(end =~= Seq::<char>::empty());
    if cur.as_str().unicode_len() > 0 {
        proof {
            lemma_runs_close(open, end);
            assert(runs(end) =~= Seq::<Seq<char>>::empty());
            assert(done + (seq![open] + runs(end)) =~= done.push(open));
        }
        let ghost before = tokens_out@;
        tokens_out.push(cur);
        proof {
            assert(texts(tokens_out@) =~= texts(before).push(folded(open, case_fold)));
            assert(done.push(open).map_values(|r: Seq<char>| folded(r, case_fold))
                =~= done.map_values(|r: Seq<char>| folded(r, case_fold)).push(
                folded(open, case_fold),
            ));
        }
    } else {
        proof {
            assert(open + end =~= end);
            assert(runs(end) =~= Seq::<Seq<char>>::empty());
            assert(done + runs(end) =~= done);
        }
    }
    tokens_out
}

/// A stemmer language, recorded in the header so the reader stems a query exactly as the
/// builder stemmed the corpus. The on-disk byte is stable across versions.
#[derive(Debug, Clone, Copy, PartialEq, Eq, Structural)]
pub enum Language {
    English,
    Spanish,
    Arabic,
    Danish,
    Dutch,
    Finnish,
    French,
    German,
    Greek,
    Hungarian,
    Italian,
    Norwegian,
    Portuguese,
    Romanian,
    Russian,
    Swedish,
    Tamil,
    Turkish,
}

impl Language {
    /// The on-disk language byte.
    pub open spec fn code(self) -> u8 {
        match self {
            Language::English => 1,
            Language::Spanish => 2,
            Language::Arabic => 3,
            Language::Danish => 4,
            Language::Dutch => 5,
            Language::Finnish => 6,
            Language::French => 7,
            Language::German => 8,
            Language::Greek => 9,
            Language::Hungarian => 10,
            Language::Italian => 11,
            Language::Norwegian => 12,
            Language::Portuguese => 13,
            Language::Romanian => 14,
            Language::Russian => 15,
            Language::Swedish => 16,
            Language::Tamil => 17,
            Language::Turkish => 18,
        }
    }

    /// The language of an on-disk byte.
    pub open spec fn coded(b: u8) -> Option<Language> {
        if b == 1 {
            Some(Language::English)
        } else if b == 2 {
            Some(Language::Spanish)
        } else if b == 3 {
            Some(Language::Arabic)
        } else if b == 4 {
            Some(Language::Danish)
        } else if b == 5 {
            Some(Language::Dutch)
        } else if b == 6 {
            Some(Language::Finnish)
        } else if b == 7 {
            Some(Language::French)
        } else if b == 8 {
            Some(Language::German)
        } else if b == 9 {
            Some(Language::Greek)
        } else if b == 10 {
            Some(Language::Hungarian)
        } else if b == 11 {
            Some(Language::Italian)
        } else if b == 12 {
            Some(Language::Norwegian)
        } else if b == 13 {
            Some(Language::Portuguese)
        } else if b == 14 {
            Some(Language::Romanian)
        } else if b == 15 {
            Some(Language::Russian)
        } else if b == 16 {
            Some(Language::Swedish)
        } else if b == 17 {
            Some(Language::Tamil)
        } else if b == 18 {
            Some(Language::Turkish)
        } else {
            None
        }
    }

    /// The canonical Snowball name.
    pub open spec fn name(self) -> Seq<char> {
        match self {
            Language::English => "english"@,
            Language::Spanish => "spanish"@,
            Language::Arabic => "arabic"@,
            Language::Danish => "danish"@,
            Language::Dutch => "dutch"@,
            Language::Finnish => "finnish"@,
            Language::French => "french"@,
            Language::German => "german"@,
            Language::Greek => "greek"@,
            Language::Hungarian => "hungarian"@,
            Language::Italian => "italian"@,
            Language::Norwegian => "norwegian"@,
            Language::Portuguese => "portuguese"@,
            Language::Romanian => "romanian"@,
            Language::Russian => "russian"@,
            Language::Swedish => "swedish"@,
            Language::Tamil => "tamil"@,
            Language::Turkish => "turkish"@,
        }
    }

    /// The ISO-639-1 code.
    pub open spec fn iso(self) -> Seq<char> {
        match self {
            Language::English => "en"@,
            Language::Spanish => "es"@,
            Language::Arabic => "ar"@,
            Language::Danish => "da"@,
            Language::Dutch => "nl"@,
            Language::Finnish => "fi"@,
            Language::French => "fr"@,
            Language::German => "de"@,
            Language::Greek => "el"@,
            Language::Hungarian => "hu"@,
            Language::Italian => "it"@,
            Language::Norwegian => "no"@,
            Language::Portuguese => "pt"@,
            Language::Romanian => "ro"@,
            Language::Russian => "ru"@,
            Language::Swedish => "sv"@,
            Language::Tamil => "ta"@,
            Language::Turkish => "tr"@,
        }
    }

    /// Whether `s` is the language's name or its ISO-639-1 code.
    pub open spec fn answers_to(self, s: Seq<char>) -> bool {
        s == self.name() || s == self.iso()
    }

    /// The language that `s` names.
    pub open spec fn named(s: Seq<char>) -> Option<Language> {
        if Language::English.answers_to(s) {
            Some(Language::English)
        } else if Language::Spanish.answers_to(s) {
            Some(Language::Spanish)
        } else if Language::Arabic.answers_to(s) {
            Some(Language::Arabic)
        } else if Language::Danish.answers_to(s) {
            Some(Language::Danish)
        } else if Language::Dutch.answers_to(s) {
            Some(Language::Dutch)
        } else if Language::Finnish.answers_to(s) {
            Some(Language::Finnish)
        } else if Language::French.answers_to(s) {
            Some(Language::French)
        } else if Language::German.answers_to(s) {
            Some(Language::German)
        } else if Language::Greek.answers_to(s) {
            Some(Language::Greek)
        } else if Language::Hungarian.answers_to(s) {
            Some(Language::Hungarian)
        } else if Language::Italian.answers_to(s) {
            Some(Language::Italian)
        } else if Language::Norwegian.answers_to(s) {
            Some(Language::Norwegian)
        } else if Language::Portuguese.answers_to(s) {
            Some(Language::Portuguese)
        } else if Language::Romanian.answers_to(s) {
            Some(Language::Romanian)
        } else if Language::Russian.answers_to(s) {
            Some(Language::Russian)
        } else if Language::Swedish.answers_to(s) {
            Some(Language::Swedish)
        } else if Language::Tamil.answers_to(s) {
            Some(Language::Tamil)
        } else if Language::Turkish.answers_to(s) {
            Some(Language::Turkish)
        } else {
            None
        }
    }

    /// The on-disk language byte.
    pub fn to_u8(self) -> (b: u8)
        ensures
            b == self.code(),
    {
        match self {
            Language::English => 1,
            Language::Spanish => 2,
            Language::Arabic => 3,
            Language::Danish => 4,
            Language::Dutch => 5,
            Language::Finnish => 6,
            Language::French => 7,
            Language::German => 8,
            Language::Greek => 9,
            Language::Hungarian => 10,
            Language::Italian => 11,
            Language::Norwegian => 12,
            Language::Portuguese => 13,
            Language::Romanian => 14,
            Language::Russian => 15,
            Language::Swedish => 16,
            Language::Tamil => 17,
            Language::Turkish => 18,
        }
    }

    /// Maps an on-disk language byte back to a language, or `None` when the byte names no known
    /// stemmer (an older or newer index, or an unstemmed one).
    pub fn from_u8(b: u8) -> (l: Option<Language>)
        ensures
            l == Language::coded(b),
    {
        match b {
            1 => Some(Language::English),
            2 => Some(Language::Spanish),
            3 => Some(Language::Arabic),
            4 => Some(Language::Danish),
            5 => Some(Language::Dutch),
            6 => Some(Language::Finnish),
            7 => Some(Language::French),
            8 => Some(Language::German),
            9 => Some(Language::Greek),
            10 => Some(Language::Hungarian),
            11 => Some(Language::Italian),
            12 => Some(Language::Norwegian),
            13 => Some(Language::Portuguese),
            14 => Some(Language::Romanian),
            15 => Some(Language::Russian),
            16 => Some(Language::Swedish),
            17 => Some(Language::Tamil),
            18 => Some(Language::Turkish),
            _ => None,
        }
    }

    /// The canonical Snowball name for this language: the long-form inverse of `from_code`.
    pub fn as_code(self) -> (s: &'static str)
        ensures
            s@ == self.name(),
    {
        match self {
            Language::English => "english",
            Language::Spanish => "spanish",
            Language::Arabic => "arabic",
            Language::Danish => "danish",
            Language::Dutch => "dutch",
            Language::Finnish => "finnish",
            Language::French => "french",
            Language::German => "german",
            Language::Greek => "greek",
            Language::Hungarian => "hungarian",
            Language::Italian => "italian",
            Language::Norwegian => "norwegian",
            Language::Portuguese => "portuguese",
            Language::Romanian => "romanian",
            Language::Russian => "russian",
            Language::Swedish => "swedish",
            Language::Tamil => "tamil",
            Language::Turkish => "turkish",
        }
    }

    /// The ISO-639-1 code of the language.
    fn iso_code(self) -> (s: &'static str)
        ensures
            s@ == self.iso(),
    {
        match self {
            Language::English => "en",
            Language::Spanish => "es",
            Language::Arabic => "ar",
            Language::Danish => "da",
            Language::Dutch => "nl",
            Language::Finnish => "fi",
            Language::French => "fr",
            Language::German => "de",
            Language::Greek => "el",
            Language::Hungarian => "hu",
            Language::Italian => "it",
            Language::Norwegian => "no",
            Language::Portuguese => "pt",
            Language::Romanian => "ro",
            Language::Russian => "ru",
            Language::Swedish => "sv",
            Language::Tamil => "ta",
            Language::Turkish => "tr",
        }
    }

    /// Parses a language code, or `None` if unrecognized: the canonical Snowball name or the
    /// ISO-639-1 code, in any ASCII case, with white space around it.
    pub fn from_code(code: &str) -> (l: Option<Language>)
        ensures
            l == Language::named(ascii_lowered(trimmed(code@))),
    {
        let key = trim_lower(code);
        let mut b: u8 = 1;
        while b <= 18
            invariant
                1 <= b <= 19,
                key@ == ascii_lowered(trimmed(code@)),
                forall|l: Language| l.code() < b ==> !#[trigger] l.answers_to(key@),
            decreases 19 - b,
        {
            if let Some(l) = Language::from_u8(b) {
                if text::same(key.as_str(), l.as_code()) || text::same(
                    key.as_str(),
                    l.iso_code(),
                ) {
                    assert(l.answers_to(key@));
                    return Some(l);
                }
            }
            b += 1;
        }
        None
    }
}

impl From<Language> for u8 {
    fn from(l: Language) -> (b: u8) {
        l.to_u8()
    }
}

impl vstd::std_specs::convert::FromSpecImpl<Language> for u8 {
    open spec fn obeys_from_spec() -> bool {
        true
    }

    open spec fn from_spec(l: Language) -> u8 {
        l.code()
    }
}

/// A language byte read back is the language it was written for.
pub proof fn law_language_byte(l: Language)
    ensures
        Language::coded(l.code()) == Some(l),
        1 <= l.code() <= 18,
{
}

/// A language is found again by its name and by its ISO-639-1 code; `from_code` undoes
/// `as_code`.
pub proof fn law_language_name(l: Language)
    ensures
        Language::named(l.name()) == Some(l),
        Language::named(l.iso()) == Some(l),
        Language::named(ascii_lowered(trimmed(l.name()))) == Some(l),
{
    lemma_codes_begin();
    lemma_name_small(l);
    assert(ascii_lowered(l.name()) =~= l.name());
}

proof fn lemma_name_small(l: Language)
    ensures
        l.name().len() > 0,
        forall|i: int| 0 <= i < l.name().len() ==> 'a' <= #[trigger] l.name()[i] <= 'z',
{
    match l {
        Language::English => {
            reveal_strlit("english");
        },
        Language::Spanish => {
            reveal_strlit("spanish");
        },
        Language::Arabic => {
            reveal_strlit("arabic");
        },
        Language::Danish => {
            reveal_strlit("danish");
        },
        Language::Dutch => {
            reveal_strlit("dutch");
        },
        Language::Finnish => {
            reveal_strlit("finnish");
        },
        Language::French => {
            reveal_strlit("french");
        },
        Language::German => {
            reveal_strlit("german");
        },
        Language::Greek => {
            reveal_strlit("greek");
        },
        Language::Hungarian => {
            reveal_strlit("hungarian");
        },
        Language::Italian => {
            reveal_strlit("italian");
        },
        Language::Norwegian => {
            reveal_strlit("norwegian");
        },
        Language::Portuguese => {
            reveal_strlit("portuguese");
        },
        Language::Romanian => {
            reveal_strlit("romanian");
        },
        Language::Russian => {
            reveal_strlit("russian");
        },
        Language::Swedish => {
            reveal_strlit("swedish");
        },
        Language::Tamil => {
            reveal_strlit("tamil");
        },
        Language::Turkish => {
            reveal_strlit("turkish");
        },
    }
}

spec fn begins(s: Seq<char>, n: nat, a: char, b: char) -> bool {
    s.len() == n && s[0] == a && s[1] == b
}

proof fn lemma_codes_begin()
    ensures
        begins("english"@, 7, 'e', 'n'),
        begins("en"@, 2, 'e', 'n'),
        begins("spanish"@, 7, 's', 'p'),
        begins("es"@, 2, 'e', 's'),
        begins("arabic"@, 6, 'a', 'r'),
        begins("ar"@, 2, 'a', 'r'),
        begins("danish"@, 6, 'd', 'a'),
        begins("da"@, 2, 'd', 'a'),
        begins("dutch"@, 5, 'd', 'u'),
        begins("nl"@, 2, 'n', 'l'),
        begins("finnish"@, 7, 'f', 'i'),
        begins("fi"@, 2, 'f', 'i'),
        begins("french"@, 6, 'f', 'r'),
        begins("fr"@, 2, 'f', 'r'),
        begins("german"@, 6, 'g', 'e'),
        begins("de"@, 2, 'd', 'e'),
        begins("greek"@, 5, 'g', 'r'),
        begins("el"@, 2, 'e', 'l'),
        begins("hungarian"@, 9, 'h', 'u'),
        begins("hu"@, 2, 'h', 'u'),
        begins("italian"@, 7, 'i', 't'),
        begins("it"@, 2, 'i', 't'),
        begins("norwegian"@, 9, 'n', 'o'),
        begins("no"@, 2, 'n', 'o'),
        begins("portuguese"@, 10, 'p', 'o'),
        begins("pt"@, 2, 'p', 't'),
        begins("romanian"@, 8, 'r', 'o'),
        begins("ro"@, 2, 'r', 'o'),
        begins("russian"@, 7, 'r', 'u'),
        begins("ru"@, 2, 'r', 'u'),
        begins("swedish"@, 7, 's', 'w'),
        begins("sv"@, 2, 's', 'v'),
        begins("tamil"@, 5, 't', 'a'),
        begins("ta"@, 2, 't', 'a'),
        begins("turkish"@, 7, 't', 'u'),
        begins("tr"@, 2, 't', 'r'),
{
    reveal_strlit("english");
    reveal_strlit("en");
    reveal_strlit("spanish");
    reveal_strlit("es");
    reveal_strlit("arabic");
    reveal_strlit("ar");
    reveal_strlit("danish");
    reveal_strlit("da");
    reveal_strlit("dutch");
    reveal_strlit("nl");
    reveal_strlit("finnish");
    reveal_strlit("fi");
    reveal_strlit("french");
    reveal_strlit("fr");
    reveal_strlit("german");
    reveal_strlit("de");
    reveal_strlit("greek");
    reveal_strlit("el");
    reveal_strlit("hungarian");
    reveal_strlit("hu");
    reveal_strlit("italian");
    reveal_strlit("it");
    reveal_strlit("norwegian");
    reveal_strlit("no");
    reveal_strlit("portuguese");
    reveal_strlit("pt");
    reveal_strlit("romanian");
    reveal_strlit("ro");
    reveal_strlit("russian");
    reveal_strlit("ru");
    reveal_strlit("swedish");
    reveal_strlit("sv");
    reveal_strlit("tamil");
    reveal_strlit("ta");
    reveal_strlit("turkish");
    reveal_strlit("tr");
}

/// Whether `c` has the Unicode property `White_Space`.
pub open spec fn white(c: char) -> bool {
    let n = c as u32;
    (9 <= n <= 13) || n == 0x20 || n == 0x85 || n == 0xa0 || n == 0x1680 || (0x2000 <= n <= 0x200a)
        || n == 0x2028 || n == 0x2029 || n == 0x202f || n == 0x205f || n == 0x3000
}

/// `s` without the white space in front.
pub open spec fn trim_front(s: Seq<char>) -> Seq<char>
    decreases s.len(),
{
    if s.len() > 0 && white(s[0]) {
        trim_front(s.drop_first())
    } else {
        s
    }
}

/// `s` without the white space at its end.
pub open spec fn trim_back(s: Seq<char>) -> Seq<char>
    decreases s.len(),
{
    if s.len() > 0 && white(s.last()) {
        trim_back(s.drop_last())
    } else {
        s
    }
}

/// `s` without the white space around it.
pub open spec fn trimmed(s: Seq<char>) -> Seq<char> {
    trim_back(trim_front(s))
}

/// `s` with the ASCII capital letters made small.
pub open spec fn ascii_lowered(s: Seq<char>) -> Seq<char> {
    s.map_values(|c: char| ascii_lower(c))
}

fn is_white(c: char) -> (yes: bool)
    ensures
        yes == white(c),
{
    let n: u32 = c as u32;
    (9 <= n && n <= 13) || n == 0x20 || n == 0x85 || n == 0xa0 || n == 0x1680 || (0x2000 <= n && n
        <= 0x200a) || n == 0x2028 || n == 0x2029 || n == 0x202f || n == 0x205f || n == 0x3000
}

fn to_ascii_lower(c: char) -> (d: char)
    ensures
        d == ascii_lower(c),
{
    if 'A' <= c && c <= 'Z' {
        let n: u8 = c as u8;
        (n + 32) as char
    } else {
        c
    }
}

/// The characters `lo..hi` of `code`, with ASCII capitals made small.
fn lower_range(code: &str, lo: usize, hi: usize) -> (s: String)
    requires
        lo <= hi <= code@.len(),
    ensures
        s@ == ascii_lowered(code@.subrange(lo as int, hi as int)),
{
    let ghost kept = code@.subrange(lo as int, hi as int);
    let mut s = String::new();
    let mut i: usize = lo;
    while i < hi
        invariant
            lo <= i <= hi <= code@.len(),
            kept == code@.subrange(lo as int, hi as int),
            s@ == ascii_lowered(kept.take(i - lo)),
        decreases hi - i,
    {
        let c = code.get_char(i);
        s.push(to_ascii_lower(c));
        proof {
            assert(kept[i - lo] == c);
            assert(s@ =~= ascii_lowered(kept.take(i + 1 - lo)));
        }
        i += 1;
    }
    assert(kept.take(hi - lo) =~= kept);
    s
}

/// How many characters of white space `code` starts with.
fn white_front(code: &str) -> (lo: usize)
    ensures
        lo <= code@.len(),
        trim_front(code@) == code@.skip(lo as int),
{
    let n: usize = code.unicode_len();
    let mut lo: usize = 0;
    assert(code@.skip(0) =~= code@);
    while lo < n && is_white(code.get_char(lo))
        invariant
            n == code@.len(),
            lo <= n,
            trim_front(code@) == trim_front(code@.skip(lo as int)),
        decreases n - lo,
    {
        assert(code@.skip(lo as int).drop_first() =~= code@.skip(lo + 1));
        lo += 1;
    }
    lo
}

/// Where the white space at the end of `code` from `lo` on begins.
fn white_back(code: &str, lo: usize) -> (hi: usize)
    requires
        lo <= code@.len(),
    ensures
        lo <= hi <= code@.len(),
        trim_back(code@.skip(lo as int)) == code@.subrange(lo as int, hi as int),
{
    let n: usize = code.unicode_len();
    let ghost front = code@.skip(lo as int);
    let mut hi: usize = n;
    assert(front.take(hi - lo) =~= front);
    while lo < hi && is_white(code.get_char(hi - 1))
        invariant
            n == code@.len(),
            lo <= hi <= n,
            front == code@.skip(lo as int),
            trim_back(front) == trim_back(front.take(hi - lo)),
        decreases hi,
    {
        assert(front.take(hi - lo).drop_last() =~= front.take(hi - 1 - lo));
        hi -= 1;
    }
    assert(front.take(hi - lo) =~= code@.subrange(lo as int, hi as int));
    hi
}

/// `code` without the white space around it and with ASCII capitals made small.
fn trim_lower(code: &str) -> (s: String)
    ensures
        s@ == ascii_lowered(trimmed(code@)),
{
    let lo: usize = white_front(code);
    let hi: usize = white_back(code, lo);
    lower_range(code, lo, hi)
}

/// Whether `t` is one of the English stop words.
pub open spec fn stop_word(t: Seq<char>) -> bool {
    ||| t == "a"@
    ||| t == "an"@
    ||| t == "and"@
    ||| t == "are"@
    ||| t == "as"@
    ||| t == "at"@
    ||| t == "be"@
    ||| t == "but"@
    ||| t == "by"@
    ||| t == "for"@
    ||| t == "from"@
    ||| t == "had"@
    ||| t == "has"@
    ||| t == "have"@
    ||| t == "he"@
    ||| t == "in"@
    ||| t == "is"@
    ||| t == "it"@
    ||| t == "its"@
    ||| t == "of"@
    ||| t == "on"@
    ||| t == "or"@
    ||| t == "that"@
    ||| t == "the"@
    ||| t == "this"@
    ||| t == "to"@
    ||| t == "was"@
    ||| t == "were"@
    ||| t == "which"@
    ||| t == "will"@
    ||| t == "with"@
}

/// Whether the lower-cased token `t` is a stop word.
fn is_stop_word(t: &str) -> (yes: bool)
    ensures
        yes == stop_word(t@),
{
    text::same(t, "a") || text::same(t, "an") || text::same(t, "and") || text::same(t, "are") || text::same(t, "as") || text::same(t, "at") || text::same(t, "be") || text::same(t, "but") || text::same(t, "by") || text::same(t, "for") || text::same(t, "from") || text::same(t, "had") || text::same(t, "has") || text::same(t, "have") || text::same(t, "he") || text::same(t, "in") || text::same(t, "is") || text::same(t, "it") || text::same(t, "its") || text::same(t, "of") || text::same(t, "on") || text::same(t, "or") || text::same(t, "that") || text::same(t, "the") || text::same(t, "this") || text::same(t, "to") || text::same(t, "was") || text::same(t, "were") || text::same(t, "which") || text::same(t, "will") || text::same(t, "with")
}

/// The stem of `word` in `language`; a word that the rules cannot stem stays as it is.
pub open spec fn stem_of(language: Language, word: Seq<char>) -> Seq<char> {
    if language is Greek && unstemmable(word) {
        word
    } else {
        stemmed(language.code(), word)
    }
}

/// The stem of `word` in `language`, or `word` itself where the rules cannot stem it.
pub fn stem_word(language: Language, word: &str) -> (s: String)
    ensures
        s@ == stem_of(language, word@),
{
    if let Language::Greek = language {
        if is_unstemmable(word) {
            let mut s = String::new();
            s.append(word);
            assert(s@ =~= word@);
            return s;
        }
    }
    stem(language, word)
}

/// The tokens left of `ts` where stop words are dropped, each stemmed where a language is
/// given.
pub open spec fn filtered(ts: Seq<Seq<char>>, language: Option<Language>, stopwords: bool) -> Seq<
    Seq<char>,
>
    decreases ts.len(),
{
    if ts.len() == 0 {
        Seq::empty()
    } else {
        let front = filtered(ts.drop_last(), language, stopwords);
        let t = ts.last();
        if stopwords && stop_word(t) {
            front
        } else {
            match language {
                Some(l) => front.push(stem_of(l, t)),
                None => front.push(t),
            }
        }
    }
}

/// The configured token filters applied after the base `tokenize`: optional stop-word removal,
/// then optional Snowball stemming. The builder (from its config) and the reader (from the
/// header flags) build this identically, so a query tokenizes exactly as the corpus did.
#[derive(Debug, Clone, Copy)]
pub struct Tokenizer {
    /// The stemmer language.
    pub language: Option<Language>,
    /// Whether stop words are dropped.
    pub stopwords: bool,
    /// Whether tokens are lower-cased.
    pub case_fold: bool,
}

/// Header `flags` bit: the terms were stemmed.
pub const FLAG_STEMMED: u16 = 1;

/// Header `flags` bit: stop words were removed.
pub const FLAG_STOPWORDS: u16 = 2;

/// Header `flags` bit: the terms were not lower-cased.
pub const FLAG_CASE_SENSITIVE: u16 = 4;

impl Tokenizer {
    /// The terms of `text`.
    pub open spec fn terms(self, text: Seq<char>) -> Seq<Seq<char>> {
        filtered(tokens(text, self.case_fold), self.language, self.stopwords)
    }

    /// The tokenizer that a header's `flags` and `language` byte describe.
    pub open spec fn described(flags: u16, language: u8) -> Tokenizer {
        Tokenizer {
            language: if flags & FLAG_STEMMED != 0 {
                Language::coded(language)
            } else {
                None
            },
            stopwords: flags & FLAG_STOPWORDS != 0,
            case_fold: flags & FLAG_CASE_SENSITIVE == 0,
        }
    }

    /// The header flags that describe the tokenizer.
    pub open spec fn flags(self) -> u16 {
        (if self.language is Some {
            FLAG_STEMMED
        } else {
            0
        }) | (if self.stopwords {
            FLAG_STOPWORDS
        } else {
            0
        }) | (if self.case_fold {
            0
        } else {
            FLAG_CASE_SENSITIVE
        })
    }

    /// The header's language byte.
    pub open spec fn language_byte(self) -> u8 {
        match self.language {
            Some(l) => l.code(),
            None => 0,
        }
    }

    /// The base tokenizer with no stemming or stop-word removal.
    pub fn plain() -> (t: Tokenizer)
        ensures
            t == (Tokenizer { language: None, stopwords: false, case_fold: true }),
    {
        Tokenizer::new(None, false, true)
    }

    /// A tokenizer with the given optional stemmer language, stop-word removal, and case
    /// folding (`case_fold` false keeps token text verbatim).
    pub fn new(language: Option<Language>, stopwords: bool, case_fold: bool) -> (t: Tokenizer)
        ensures
            t == (Tokenizer { language, stopwords, case_fold }),
    {
        Tokenizer { language, stopwords, case_fold }
    }

    /// The `(language, stopwords, case_fold)` triple this tokenizer was built with.
    pub fn spec(&self) -> (s: (Option<Language>, bool, bool))
        ensures
            s == (self.language, self.stopwords, self.case_fold),
    {
        (self.language, self.stopwords, self.case_fold)
    }

    /// Whether this tokenizer lower-cases tokens.
    pub fn case_fold(&self) -> (yes: bool)
        ensures
            yes == self.case_fold,
    {
        self.case_fold
    }

    /// Builds the tokenizer the header describes from its `flags` and `language` byte.
    pub fn from_header(flags: u16, language: u8) -> (t: Tokenizer)
        ensures
            t == Tokenizer::described(flags, language),
    {
        let lang = if flags & FLAG_STEMMED != 0 {
            Language::from_u8(language)
        } else {
            None
        };
        Tokenizer::new(lang, flags & FLAG_STOPWORDS != 0, flags & FLAG_CASE_SENSITIVE == 0)
    }

    /// The header flags that describe this tokenizer.
    pub fn header_flags(&self) -> (flags: u16)
        ensures
            flags == self.flags(),
    {
        let stemmed_bit: u16 = if self.language.is_some() {
            FLAG_STEMMED
        } else {
            0
        };
        let stop_bit: u16 = if self.stopwords {
            FLAG_STOPWORDS
        } else {
            0
        };
        let case_bit: u16 = if self.case_fold {
            0
        } else {
            FLAG_CASE_SENSITIVE
        };
        stemmed_bit | stop_bit | case_bit
    }

    /// Tokenizes `text`: base tokens (lower-cased iff this tokenizer case-folds), then drops
    /// stop words (if enabled), then stems each surviving token (if a language is configured).
    pub fn tokenize(&self, text: &str) -> (v: Vec<String>)
        ensures
            texts(v@) == self.terms(text@),
            forall|i: int| 0 <= i < text@.len() ==> ascii_told(#[trigger] text@[i]),
            self.case_fold ==> forall|i: int|
                0 <= i < text@.len() && alphanumeric(text@[i]) ==> ascii_lowers(
                    #[trigger] text@[i],
                ),
    {
        let base = tokenize_with(text, self.case_fold);
        let ghost all = texts(base@);
        let mut out: Vec<String> = Vec::new();
        let mut i: usize = 0;
        assert(texts(out@) =~= filtered(all.take(0), self.language, self.stopwords));
        while i < base.len()
            invariant
                i <= base@.len(),
                all == texts(base@),
                texts(out@) == filtered(all.take(i as int), self.language, self.stopwords),
            decreases base@.len() - i,
        {
            let ghost before = out@;
            proof {
                assert(all.take(i + 1).drop_last() =~= all.take(i as int));
                assert(all.take(i + 1).last() == base@[i as int]@);
            }
            if !(self.stopwords && is_stop_word(base[i].as_str())) {
                let term = match self.language {
                    Some(l) => stem_word(l, base[i].as_str()),
                    None => base[i].clone(),
                };
                out.push(term);
                assert(texts(out@) =~= texts(before).push(term@));
            }
            i += 1;
        }
        assert(all.take(i as int) =~= all);
        out
    }
}

/// The reader rebuilds, from the header that the builder wrote, the builder's own tokenizer: a
/// query tokenizes identically to the indexed text.
pub proof fn law_tokenizer_roundtrip(t: Tokenizer)
    ensures
        Tokenizer::described(t.flags(), t.language_byte()) == t,
{
    let a: u16 = if t.language is Some {
        FLAG_STEMMED
    } else {
        0
    };
    let b: u16 = if t.stopwords {
        FLAG_STOPWORDS
    } else {
        0
    };
    let c: u16 = if t.case_fold {
        0
    } else {
        FLAG_CASE_SENSITIVE
    };
    assert((a == 0 || a == 1) && (b == 0 || b == 2) && (c == 0 || c == 4) ==> ((a | b | c) & 1 == a)
        && ((a | b | c) & 2 == b) && ((a | b | c) & 4 == c)) by (bit_vector);
    if let Some(l) = t.language {
        law_language_byte(l);
    }
}

/// The text `s` in lower case where `case_fold` is set, else `s`.
pub fn fold(s: &str, case_fold: bool) -> (r: String)
    ensures
        r@ == folded(s@, case_fold),
        case_fold ==> forall|i: int| 0 <= i < s@.len() ==> ascii_lowers(#[trigger] s@[i]),
{
    let mut out = String::new();
    if !case_fold {
        out.append(s);
        assert(out@ =~= s@);
        return out;
    }
    assert(out@ =~= lowered(s@.take(0)));
    for c in it: s.chars()
        invariant
            it.seq() == s@,
            out@ == lowered(s@.take(it.index())),
            forall|i: int| 0 <= i < it.index() ==> ascii_lowers(#[trigger] s@[i]),
    {
        let small = to_lowercase(c);
        out.append(small.as_str());
        assert(s@.take(it.index() + 1).drop_last() =~= s@.take(it.index()));
    }
    assert(s@.take(s@.len() as int) =~= s@);
    out
}

/// A text's terms are its tokens without the listed stop words, in order, each stemmed where a
/// language is given: every token that is not a stop word gives a term, and every term comes
/// from one.
pub proof fn law_terms(t: Tokenizer, text: Seq<char>)
    ensures
        ({
            let kept = tokens(text, t.case_fold).filter(
                |w: Seq<char>| !(t.stopwords && stop_word(w)),
            );
            &&& t.terms(text).len() == kept.len()
            &&& t.language is None ==> t.terms(text) == kept
            &&& t.language matches Some(l) ==> t.terms(text) == kept.map_values(
                |w: Seq<char>| stem_of(l, w),
            )
            &&& forall|w: Seq<char>|
                kept.contains(w) <==> tokens(text, t.case_fold).contains(w) && !(t.stopwords
                    && stop_word(w))
        }),
{
    let p = |w: Seq<char>| !(t.stopwords && stop_word(w));
    lemma_filtered(tokens(text, t.case_fold), t.language, t.stopwords);
    crate::lists::lemma_filter_members(tokens(text, t.case_fold), p);
}

proof fn lemma_filtered(ts: Seq<Seq<char>>, language: Option<Language>, stopwords: bool)
    ensures
        ({
            let kept = ts.filter(|w: Seq<char>| !(stopwords && stop_word(w)));
            match language {
                None => filtered(ts, language, stopwords) == kept,
                Some(l) => filtered(ts, language, stopwords) == kept.map_values(
                    |w: Seq<char>| stem_of(l, w),
                ),
            }
        }),
    decreases ts.len(),
{
    reveal(Seq::filter);
    let p = |w: Seq<char>| !(stopwords && stop_word(w));
    if ts.len() > 0 {
        lemma_filtered(ts.drop_last(), language, stopwords);
        let front = ts.drop_last().filter(p);
        if let Some(l) = language {
            let f = |w: Seq<char>| stem_of(l, w);
            assert(front.push(ts.last()).map_values(f) =~= front.map_values(f).push(f(ts.last())));
        }
    } else {
        assert(ts =~= Seq::<Seq<char>>::empty());
        if let Some(l) = language {
            assert(ts.filter(p).map_values(|w: Seq<char>| stem_of(l, w)) =~= Seq::<
                Seq<char>,
            >::empty());
        }
    }
}

/// Without stop words and a language nothing is dropped or changed: the terms are the tokens.
pub proof fn law_plain_terms(text: Seq<char>, case_fold: bool)
    ensures
        (Tokenizer { language: None, stopwords: false, case_fold }).terms(text) == tokens(
            text,
            case_fold,
        ),
{
    let t = Tokenizer { language: None, stopwords: false, case_fold };
    law_terms(t, text);
    crate::lists::lemma_filter_all(
        tokens(text, case_fold),
        |w: Seq<char>| !(t.stopwords && stop_word(w)),
    );
}

/// The English stop words, in the order of the alphabet.
pub open spec fn stop_list() -> Seq<Seq<char>> {
    seq![
        "a"@,
        "an"@,
        "and"@,
        "are"@,
        "as"@,
        "at"@,
        "be"@,
        "but"@,
        "by"@,
        "for"@,
        "from"@,
        "had"@,
        "has"@,
        "have"@,
        "he"@,
        "in"@,
        "is"@,
        "it"@,
        "its"@,
        "of"@,
        "on"@,
        "or"@,
        "that"@,
        "the"@,
        "this"@,
        "to"@,
        "was"@,
        "were"@,
        "which"@,
        "will"@,
        "with"@,
    ]
}

/// A token is dropped as a stop word exactly where it is on the list.
pub proof fn law_stop_words(t: Seq<char>)
    ensures
        stop_word(t) <==> stop_list().contains(t),
{
    let l = stop_list();
    assert(l[0] == "a"@);
    assert(l[1] == "an"@);
    assert(l[2] == "and"@);
    assert(l[3] == "are"@);
    assert(l[4] == "as"@);
    assert(l[5] == "at"@);
    assert(l[6] == "be"@);
    assert(l[7] == "but"@);
    assert(l[8] == "by"@);
    assert(l[9] == "for"@);
    assert(l[10] == "from"@);
    assert(l[11] == "had"@);
    assert(l[12] == "has"@);
    assert(l[13] == "have"@);
    assert(l[14] == "he"@);
    assert(l[15] == "in"@);
    assert(l[16] == "is"@);
    assert(l[17] == "it"@);
    assert(l[18] == "its"@);
    assert(l[19] == "of"@);
    assert(l[20] == "on"@);
    assert(l[21] == "or"@);
    assert(l[22] == "that"@);
    assert(l[23] == "the"@);
    assert(l[24] == "this"@);
    assert(l[25] == "to"@);
    assert(l[26] == "was"@);
    assert(l[27] == "were"@);
    assert(l[28] == "which"@);
    assert(l[29] == "will"@);
    assert(l[30] == "with"@);
    if l.contains(t) {
        let i = choose|i: int| 0 <= i < l.len() && l[i] == t;
        assert(0 <= i < 31);
    }
}

/// A text is put in lower case part by part, and a character as the rules for it say.
pub proof fn law_lowered(a: Seq<char>, b: Seq<char>, c: char)
    ensures
        lowered(a + b) == lowered(a) + lowered(b),
        lowered(seq![c]) == lower(c),
    decreases b.len(),
{
    reveal_with_fuel(lowered, 2);
    assert(seq![c].drop_last() =~= Seq::<char>::empty());
    assert(lowered(seq![c]) =~= lower(c));
    if b.len() == 0 {
        assert(a + b =~= a);
        assert(lowered(a) + lowered(b) =~= lowered(a));
    } else {
        law_lowered(a, b.drop_last(), c);
        assert((a + b).drop_last() =~= a + b.drop_last());
        assert((a + b).last() == b.last());
        assert(lowered(a + b) =~= lowered(a) + lowered(b));
    }
}

/// Trimming takes away exactly the white space around a text: between white space on both sides
/// a text that neither starts nor ends with any is left.
pub proof fn law_trimmed(front: Seq<char>, s: Seq<char>, back: Seq<char>)
    requires
        forall|i: int| 0 <= i < front.len() ==> white(#[trigger] front[i]),
        forall|i: int| 0 <= i < back.len() ==> white(#[trigger] back[i]),
        s.len() > 0 ==> !white(s[0]) && !white(s.last()),
    ensures
        trimmed(front + s + back) == s,
{
    lemma_trim_front(front, s + back);
    assert(front + s + back =~= front + (s + back));
    if s.len() > 0 {
        lemma_trim_back(s, back);
    } else {
        lemma_trim_front(back, s);
        assert(s + back =~= back + s);
    }
}

proof fn lemma_trim_front(front: Seq<char>, rest: Seq<char>)
    requires
        forall|i: int| 0 <= i < front.len() ==> white(#[trigger] front[i]),
    ensures
        trim_front(front + rest) == trim_front(rest),
    decreases front.len(),
{
    if front.len() == 0 {
        assert(front + rest =~= rest);
    } else {
        assert(white(front[0]));
        assert((front + rest).drop_first() =~= front.drop_first() + rest);
        assert forall|i: int| 0 <= i < front.len() - 1 implies white(
            #[trigger] front.drop_first()[i],
        ) by {
            assert(white(front[i + 1]));
        }
        lemma_trim_front(front.drop_first(), rest);
    }
}

proof fn lemma_trim_back(s: Seq<char>, back: Seq<char>)
    requires
        s.len() > 0,
        !white(s.last()),
        forall|i: int| 0 <= i < back.len() ==> white(#[trigger] back[i]),
    ensures
        trim_back(s + back) == s,
    decreases back.len(),
{
    if back.len() == 0 {
        assert(s + back =~= s);
    } else {
        assert(white(back[back.len() - 1]));
        assert((s + back).drop_last() =~= s + back.drop_last());
        lemma_trim_back(s, back.drop_last());
    }
}

/// A language is found by exactly its name and its two-letter code.
pub proof fn law_language_found(s: Seq<char>, l: Language)
    ensures
        Language::named(s) == Some(l) ==> l.answers_to(s),
        Language::named(s) is None ==> !l.answers_to(s),
{
}

/// The white space that is trimmed: the five control characters from tab to carriage return, the
/// space, the next line, the spaces of Unicode, and its line and paragraph separators.
pub proof fn law_white(c: char)
    ensures
        white(c) <==> seq![
            0x9u32, 0xa, 0xb, 0xc, 0xd, 0x20, 0x85, 0xa0, 0x1680, 0x2000, 0x2001, 0x2002, 0x2003,
            0x2004, 0x2005, 0x2006, 0x2007, 0x2008, 0x2009, 0x200a, 0x2028, 0x2029, 0x202f, 0x205f,
            0x3000,
        ].contains(c as u32),
{
    let l = seq![
        0x9u32, 0xa, 0xb, 0xc, 0xd, 0x20, 0x85, 0xa0, 0x1680, 0x2000, 0x2001, 0x2002, 0x2003,
        0x2004, 0x2005, 0x2006, 0x2007, 0x2008, 0x2009, 0x200a, 0x2028, 0x2029, 0x202f, 0x205f,
        0x3000,
    ];
    let n = c as u32;
    if 9 <= n <= 13 {
        assert(l[n - 9] == n);
    } else if 0x2000 <= n <= 0x200a {
        assert(l[n - 0x2000 + 9] == n);
    }
    assert(l[5] == 0x20 && l[6] == 0x85 && l[7] == 0xa0 && l[8] == 0x1680 && l[20] == 0x2028 && l[21]
        == 0x2029 && l[22] == 0x202f && l[23] == 0x205f && l[24] == 0x3000);
    if l.contains(n) {
        let i = choose|i: int| 0 <= i < l.len() && l[i] == n;
        assert(0 <= i < 25);
    }
}

/// The flags of a tokenizer have the bit one for a stemmer, two for stop words and four for a
/// case-sensitive index.
pub proof fn law_tokenizer_flags(t: Tokenizer)
    ensures
        t.flags() == (if t.language is Some {
            1int
        } else {
            0
        }) + (if t.stopwords {
            2int
        } else {
            0
        }) + (if t.case_fold {
            0int
        } else {
            4
        }),
{
    let a: u16 = if t.language is Some {
        1
    } else {
        0
    };
    let b: u16 = if t.stopwords {
        2
    } else {
        0
    };
    let c: u16 = if t.case_fold {
        0
    } else {
        4
    };
    assert(a | b | c == a + b + c) by (bit_vector)
        requires
            a == 0 || a == 1,
            b == 0 || b == 2,
            c == 0 || c == 4,
    ;
}

} // verus!
