//! Strings and their UTF-8 bytes.

use vstd::prelude::*;
use vstd::utf8::{decode_utf8, encode_utf8, valid_utf8};

verus! {

/// `String::from_utf8`: `Some` of the decoded text where `raw` is valid UTF-8, `None` where it
/// is not. The text's own UTF-8 bytes are then `raw` again.
#[verifier::external_body]
fn string_from_utf8(raw: Vec<u8>) -> (s: Option<String>)
    ensures
        s is Some <==> valid_utf8(raw@),
        s matches Some(t) ==> encode_utf8(t@) == raw@,
{
    String::from_utf8(raw).ok()
}

/// What `String::from_utf8_lossy` makes of `raw`.
pub uninterp spec fn lossy(raw: Seq<u8>) -> Seq<char>;

/// `String::from_utf8_lossy`: the decoded text; what is not valid UTF-8 is replaced, in a way
/// that is left unsaid.
#[verifier::external_body]
pub(crate) fn decode_lossy(raw: &[u8]) -> (s: String)
    ensures
        s@ == lossy(raw@),
        valid_utf8(raw@) ==> s@ == decode_utf8(raw@),
{
    String::from_utf8_lossy(raw).into_owned()
}

/// Decodes `raw` as UTF-8; `None` where it is not.
pub fn decode(raw: Vec<u8>) -> (s: Option<String>)
    ensures
        s is Some <==> valid_utf8(raw@),
        s matches Some(t) ==> t@ == decode_utf8(raw@),
{
    let s = string_from_utf8(raw);
    proof {
        if s is Some {
            vstd::utf8::encode_utf8_decode_utf8(s->0@);
        }
    }
    s
}

/// The UTF-8 bytes of `s`.
pub fn bytes_of(s: &str) -> (raw: &[u8])
    ensures
        raw@ == encode_utf8(s@),
{
    s.as_bytes()
}

/// Whether `a` and `b` are the same text.
pub fn same(a: &str, b: &str) -> (yes: bool)
    ensures
        yes == (a@ == b@),
{
    let x = a.as_bytes();
    let y = b.as_bytes();
    if x.len() != y.len() {
        return false;
    }
    let mut i: usize = 0;
    while i < x.len()
        invariant
            x@ == encode_utf8(a@),
            y@ == encode_utf8(b@),
            x@.len() == y@.len(),
            i <= x@.len(),
            forall|j: int| 0 <= j < i ==> x@[j] == y@[j],
        decreases x@.len() - i,
    {
        if x[i] != y[i] {
            return false;
        }
        i += 1;
    }
    proof {
        assert(x@ =~= y@);
        vstd::utf8::encode_utf8_decode_utf8(a@);
        vstd::utf8::encode_utf8_decode_utf8(b@);
    }
    true
}

/// The decimal digit `d`.
pub open spec fn digit(d: nat) -> char {
    (48 + d) as char
}

/// The decimal digits of `n`, the highest first.
pub open spec fn decimal(n: nat) -> Seq<char>
    decreases n,
{
    if n < 10 {
        seq![digit(n)]
    } else {
        decimal(n / 10).push(digit(n % 10))
    }
}

/// The decimal digits of `n`, with zeros in front up to five digits.
pub open spec fn decimal5(n: nat) -> Seq<char> {
    let d = decimal(n);
    if d.len() >= 5 {
        d
    } else {
        Seq::new((5 - d.len()) as nat, |i: int| '0') + d
    }
}

/// A numbered file name: `‹prefix›-‹tag›00007‹ext›`.
pub open spec fn numbered_name(prefix: Seq<char>, tag: Seq<char>, n: nat, ext: Seq<char>) -> Seq<
    char,
> {
    prefix + seq!['-'] + tag + decimal5(n) + ext
}

/// The digit `d` as text.
fn digit_str(d: u64) -> (s: &'static str)
    requires
        d < 10,
    ensures
        s@ == seq![digit(d as nat)],
{
    proof {
        reveal_strlit("0");
        reveal_strlit("1");
        reveal_strlit("2");
        reveal_strlit("3");
        reveal_strlit("4");
        reveal_strlit("5");
        reveal_strlit("6");
        reveal_strlit("7");
        reveal_strlit("8");
        reveal_strlit("9");
    }
    let s = if d == 0 {
        "0"
    } else if d == 1 {
        "1"
    } else if d == 2 {
        "2"
    } else if d == 3 {
        "3"
    } else if d == 4 {
        "4"
    } else if d == 5 {
        "5"
    } else if d == 6 {
        "6"
    } else if d == 7 {
        "7"
    } else if d == 8 {
        "8"
    } else {
        "9"
    };
    assert(s@ =~= seq![digit(d as nat)]);
    s
}

/// Appends the decimal digits of `n`.
pub fn put_decimal(out: &mut String, n: u64)
    ensures
        final(out)@ == old(out)@ + decimal(n as nat),
    decreases n,
{
    if n >= 10 {
        put_decimal(out, n / 10);
    }
    out.append(digit_str(n % 10));
    assert(out@ =~= old(out)@ + decimal(n as nat));
}

proof fn lemma_decimal_len(n: nat)
    ensures
        decimal(n).len() >= 1,
        n < 10 ==> decimal(n).len() == 1,
        10 <= n < 100 ==> decimal(n).len() == 2,
        100 <= n < 1000 ==> decimal(n).len() == 3,
        1000 <= n < 10000 ==> decimal(n).len() == 4,
        n >= 10000 ==> decimal(n).len() >= 5,
    decreases n,
{
    if n >= 10 {
        lemma_decimal_len(n / 10);
    }
}

/// The numbered file name `‹prefix›-‹tag›00007‹ext›`.
pub fn numbered(prefix: &str, tag: &str, n: u64, ext: &str) -> (name: String)
    ensures
        name@ == numbered_name(prefix@, tag@, n as nat, ext@),
{
    let mut name = String::new();
    name.append(prefix);
    name.append("-");
    name.append(tag);
    proof {
        lemma_decimal_len(n as nat);
        reveal_strlit("-");
        assert("-"@ =~= seq!['-']);
        reveal_strlit("0");
        assert("0"@ =~= seq!['0']);
        reveal_strlit("00");
        assert("00"@ =~= Seq::new(2, |i: int| '0'));
        reveal_strlit("000");
        assert("000"@ =~= Seq::new(3, |i: int| '0'));
        reveal_strlit("0000");
        assert("0000"@ =~= Seq::new(4, |i: int| '0'));
        assert("0"@ =~= Seq::new(1, |i: int| '0'));
    }
    let ghost front = name@;
    if n < 10 {
        name.append("0000");
    } else if n < 100 {
        name.append("000");
    } else if n < 1000 {
        name.append("00");
    } else if n < 10000 {
        name.append("0");
    }
    put_decimal(&mut name, n);
    assert(name@ =~= front + decimal5(n as nat));
    name.append(ext);
    assert(name@ =~= numbered_name(prefix@, tag@, n as nat, ext@));
    name
}

/// Whether `s` ends with `suffix`.
pub open spec fn ends_with(s: Seq<char>, suffix: Seq<char>) -> bool {
    s.len() >= suffix.len() && s.skip(s.len() - suffix.len()) == suffix
}

/// Whether the text `s`, whose length is at least four, ends with the four characters given.
fn ends_with4(s: &str, n: usize, c0: char, c1: char, c2: char, c3: char) -> (yes: bool)
    requires
        n == s@.len(),
    ensures
        yes == ends_with(s@, seq![c0, c1, c2, c3]),
{
    if n < 4 {
        return false;
    }
    let yes = s.get_char(n - 4) == c0 && s.get_char(n - 3) == c1 && s.get_char(n - 2) == c2
        && s.get_char(n - 1) == c3;
    proof {
        let t = s@.skip(n - 4);
        if yes {
            assert(t =~= seq![c0, c1, c2, c3]);
        } else {
            assert(t[0] == s@[n - 4] && t[1] == s@[n - 3] && t[2] == s@[n - 2] && t[3] == s@[n
                - 1]);
            let u = seq![c0, c1, c2, c3];
            assert(u[0] == c0 && u[1] == c1 && u[2] == c2 && u[3] == c3);
        }
    }
    yes
}

/// The facet sidecar's name for a split's data-file name: its stem, without a `.rrs` or `.rrt`
/// extension, and `.rrf`.
pub open spec fn sidecar_name(data_file: Seq<char>) -> Seq<char> {
    let stem = if ends_with(data_file, seq!['.', 'r', 'r', 's']) || ends_with(
        data_file,
        seq!['.', 'r', 'r', 't'],
    ) {
        data_file.take(data_file.len() - 4)
    } else {
        data_file
    };
    stem + seq!['.', 'r', 'r', 'f']
}

/// The facet sidecar file name for a split's data-file name: `‹stem›.rrf`. Handles both the
/// trigram `.rrs` and term `.rrt` extensions; an unrecognized name just gets `.rrf` appended.
pub fn facet_file_name(data_file: &str) -> (name: String)
    ensures
        name@ == sidecar_name(data_file@),
{
    let n: usize = data_file.unicode_len();
    let mut name = String::new();
    if ends_with4(data_file, n, '.', 'r', 'r', 's') || ends_with4(
        data_file,
        n,
        '.',
        'r',
        'r',
        't',
    ) {
        name.append(data_file.substring_char(0, n - 4));
        assert(data_file@.subrange(0, n - 4) =~= data_file@.take(n - 4));
    } else {
        name.append(data_file);
    }
    name.append(".rrf");
    proof {
        reveal_strlit(".rrf");
        assert(".rrf"@ =~= seq!['.', 'r', 'r', 'f']);
        assert(name@ =~= sidecar_name(data_file@));
    }
    name
}

/// The value of a digit.
pub open spec fn digit_value(c: char) -> int {
    c as int - 48
}

/// The decimal digits of a number are digits, spell it, and start with a zero only for zero
/// itself.
pub proof fn law_decimal(n: nat)
    ensures
        forall|i: int|
            0 <= i < decimal(n).len() ==> '0' <= #[trigger] decimal(n)[i] && decimal(n)[i] <= '9',
        decimal(n).fold_left(0, |v: int, c: char| v * 10 + digit_value(c)) == n,
        decimal(n).len() > 0,
        decimal(n)[0] == '0' ==> n == 0 && decimal(n).len() == 1,
    decreases n,
{
    let f = |v: int, c: char| v * 10 + digit_value(c);
    let d = decimal(n);
    if n >= 10 {
        law_decimal(n / 10);
        assert(d.drop_last() =~= decimal(n / 10));
        assert(d[0] == decimal(n / 10)[0]);
        assert forall|i: int| 0 <= i < d.len() implies '0' <= #[trigger] d[i] && d[i] <= '9' by {
            if i < d.len() - 1 {
                assert(d[i] == decimal(n / 10)[i]);
            }
        }
    } else {
        assert(d.drop_last() =~= Seq::<char>::empty());
    }
    reveal_with_fuel(Seq::fold_left, 2);
}

/// A number in a file name has at least five digits, with zeros in front where it is shorter,
/// and spells itself.
pub proof fn law_decimal5(n: nat)
    ensures
        decimal5(n).len() >= 5,
        decimal5(n).fold_left(0, |v: int, c: char| v * 10 + digit_value(c)) == n,
        decimal5(n).len() > 5 ==> decimal5(n)[0] != '0',
{
    let f = |v: int, c: char| v * 10 + digit_value(c);
    law_decimal(n);
    let d = decimal(n);
    if d.len() < 5 {
        let z = Seq::new((5 - d.len()) as nat, |i: int| '0');
        lemma_zeros(z);
        lemma_fold_behind(z, d);
    }
}

proof fn lemma_zeros(z: Seq<char>)
    requires
        forall|i: int| 0 <= i < z.len() ==> #[trigger] z[i] == '0',
    ensures
        z.fold_left(0, |v: int, c: char| v * 10 + digit_value(c)) == 0,
    decreases z.len(),
{
    reveal_with_fuel(Seq::fold_left, 2);
    if z.len() > 0 {
        assert(z[z.len() - 1] == '0');
        let front = z.drop_last();
        assert forall|i: int| 0 <= i < front.len() implies #[trigger] front[i] == '0' by {
            assert(front[i] == z[i]);
        }
        lemma_zeros(front);
    }
}

proof fn lemma_fold_behind(z: Seq<char>, d: Seq<char>)
    requires
        z.fold_left(0, |v: int, c: char| v * 10 + digit_value(c)) == 0,
    ensures
        (z + d).fold_left(0, |v: int, c: char| v * 10 + digit_value(c)) == d.fold_left(
            0,
            |v: int, c: char| v * 10 + digit_value(c),
        ),
    decreases d.len(),
{
    reveal_with_fuel(Seq::fold_left, 2);
    if d.len() == 0 {
        assert(z + d =~= z);
    } else {
        lemma_fold_behind(z, d.drop_last());
        assert((z + d).drop_last() =~= z + d.drop_last());
    }
}

/// A split's sidecar has its stem and its own extension, and any other file's name keeps what it
/// has.
pub proof fn law_sidecar_name(stem: Seq<char>, name: Seq<char>)
    ensures
        sidecar_name(stem + seq!['.', 'r', 'r', 's']) == stem + seq!['.', 'r', 'r', 'f'],
        sidecar_name(stem + seq!['.', 'r', 'r', 't']) == stem + seq!['.', 'r', 'r', 'f'],
        name.len() < 4 || (name.skip(name.len() - 4) != seq!['.', 'r', 'r', 's'] && name.skip(
            name.len() - 4,
        ) != seq!['.', 'r', 'r', 't']) ==> sidecar_name(name) == name + seq!['.', 'r', 'r', 'f'],
{
    let (a, b) = (seq!['.', 'r', 'r', 's'], seq!['.', 'r', 'r', 't']);
    assert((stem + a).skip(stem.len() as int) =~= a);
    assert((stem + a).take(stem.len() as int) =~= stem);
    assert((stem + b).skip(stem.len() as int) =~= b);
    assert((stem + b).take(stem.len() as int) =~= stem);
}

} // verus!
