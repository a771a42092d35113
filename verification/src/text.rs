//! Strings as sequences of characters.

use vstd::prelude::*;
use vstd::string::StringExecFns;
use vstd::utf8::encode_utf8;

verus! {

/// `String::push` appends one character.
pub assume_specification[ String::push ](s: &mut String, c: char)
    ensures
        final(s)@ == old(s)@.push(c),
;

/// `String::pop` takes the last character off, if there is one, and returns it.
pub assume_specification[ String::pop ](s: &mut String) -> (r: Option<char>)
    ensures
        old(s)@.len() == 0 ==> r is None && final(s)@ == old(s)@,
        old(s)@.len() > 0 ==> r == Some(old(s)@.last()) && final(s)@ == old(s)@.drop_last(),
;

/// The upper case form of a character: one or more characters.
pub uninterp spec fn uppercase_form(c: char) -> Seq<char>;

/// `char::to_uppercase`, which maps a character to its upper case form by the Unicode tables: one
/// or more characters. That a character of such a form is its own upper case form is not said.
#[verifier::external_body]
pub(crate) fn to_uppercase(c: char) -> (r: String)
    ensures
        r@ == uppercase_form(c),
        r@.len() >= 1,
{
    c.to_uppercase().collect()
}

/// The lower case form of a text.
pub uninterp spec fn lowercase_form(s: Seq<char>) -> Seq<char>;

/// `str::to_lowercase`, which maps a text to its lower case form by the Unicode tables.
#[verifier::external_body]
pub(crate) fn to_lowercase(s: &str) -> (r: String)
    ensures
        r@ == lowercase_form(s@),
{
    s.to_lowercase()
}

/// The characters of a text.
pub fn chars_of(s: &str) -> (r: Vec<char>)
    ensures
        r@ == s@,
{
    let mut r: Vec<char> = Vec::new();
    for c in it: s.chars()
        invariant
            it.seq() == s@,
            r@ == s@.take(it.index()),
    {
        r.push(c);
        assert(r@ =~= s@.take(it.index() + 1));
    }
    assert(s@.take(s@.len() as int) =~= s@);
    r
}

/// How many bytes a text takes.
pub open spec fn byte_len(s: Seq<char>) -> nat {
    encode_utf8(s).len()
}

/// How many bytes a text takes.
pub fn byte_length(s: &str) -> (r: usize)
    ensures
        r == byte_len(s@),
{
    s.as_bytes().len()
}

/// Whether two texts are equal.
pub fn same_text(a: &str, b: &str) -> (r: bool)
    ensures
        r == (a@ == b@),
{
    let x: Vec<char> = chars_of(a);
    let y: Vec<char> = chars_of(b);
    if x.len() != y.len() {
        return false;
    }
    let mut i: usize = 0;
    while i < x.len()
        invariant
            i <= x.len(),
            x.len() == y.len(),
            x@ == a@,
            y@ == b@,
            forall|j: int| 0 <= j < i ==> x@[j] == y@[j],
        decreases x.len() - i,
    {
        if x[i] != y[i] {
            assert(a@[i as int] != b@[i as int]);
            return false;
        }
        i = i + 1;
    }
    assert(a@ =~= b@);
    true
}

/// A decimal digit.
pub open spec fn digit(n: nat) -> char {
    (n % 10 + 48) as char
}

/// A number in decimal digits.
pub open spec fn decimal(n: nat) -> Seq<char>
    decreases n,
{
    if n < 10 {
        seq![digit(n)]
    } else {
        decimal(n / 10).push(digit(n))
    }
}

/// A number in decimal digits.
pub fn decimal_text(n: u64) -> (r: String)
    ensures
        r@ == decimal(n as nat),
    decreases n,
{
    let d: u8 = (n % 10) as u8 + 48;
    let mut r: String = if n < 10 {
        String::new()
    } else {
        decimal_text(n / 10)
    };
    r.push(d as char);
    assert(n < 10 ==> r@ =~= decimal(n as nat));
    r
}

/// `a` and `b`, one after the other.
pub fn joined(a: &str, b: &str) -> (r: String)
    ensures
        r@ == a@ + b@,
{
    let mut r: String = a.to_string();
    r.append(b);
    r
}

/// A number in decimal digits, with a sign in front if it is negative.
pub open spec fn signed_decimal(n: int) -> Seq<char> {
    if n < 0 {
        "-"@ + decimal((-n) as nat)
    } else {
        decimal(n as nat)
    }
}

/// A number in decimal digits, with a sign in front if it is negative.
pub fn signed_decimal_text(n: i64) -> (r: String)
    ensures
        r@ == signed_decimal(n as int),
{
    if n < 0 {
        joined("-", decimal_text((-(n as i128)) as u64).as_str())
    } else {
        decimal_text(n as u64)
    }
}

/// `s` with `with` in place of each occurrence of `pat`, from the left to the right.
pub open spec fn replaced(s: Seq<char>, pat: Seq<char>, with: Seq<char>) -> Seq<char>
    decreases s.len(),
{
    if pat.len() == 0 || s.len() < pat.len() {
        s
    } else if s.take(pat.len() as int) == pat {
        with + replaced(s.skip(pat.len() as int), pat, with)
    } else {
        seq![s[0]] + replaced(s.skip(1), pat, with)
    }
}

/// Whether `pat` stands in `s` at a place.
fn stands_at(s: &Vec<char>, pat: &Vec<char>, at: usize) -> (r: bool)
    requires
        at + pat@.len() <= s@.len(),
    ensures
        r == (s@.skip(at as int).take(pat@.len() as int) == pat@),
{
    let ghost part = s@.skip(at as int).take(pat@.len() as int);
    let mut i: usize = 0;
    while i < pat.len()
        invariant
            i <= pat.len(),
            at + pat@.len() <= s@.len(),
            part == s@.skip(at as int).take(pat@.len() as int),
            forall|j: int| 0 <= j < i ==> #[trigger] part[j] == pat@[j],
        decreases pat.len() - i,
    {
        assert(at + i < s.len());
        assert(part[i as int] == s@[at + i]);
        if s[at + i] != pat[i] {
            return false;
        }
        i = i + 1;
    }
    assert(part =~= pat@);
    true
}

/// `s` with `with` in place of each occurrence of `pat`.
pub fn replace_all(s: &str, pat: &str, with: &str) -> (r: String)
    requires
        pat@.len() > 0,
    ensures
        r@ == replaced(s@, pat@, with@),
{
    let chars: Vec<char> = chars_of(s);
    let wanted: Vec<char> = chars_of(pat);
    let mut r: String = String::new();
    let mut i: usize = 0;
    assert(s@.skip(0) =~= s@);
    assert(r@ + replaced(s@.skip(0), pat@, with@) =~= replaced(s@, pat@, with@));
    while i < chars.len()
        invariant
            i <= chars.len(),
            chars@ == s@,
            wanted@ == pat@,
            pat@.len() > 0,
            r@ + replaced(s@.skip(i as int), pat@, with@) == replaced(s@, pat@, with@),
        decreases chars.len() - i,
    {
        let ghost rest = s@.skip(i as int);
        let ghost sofar = r@;
        if chars.len() - i >= wanted.len() && stands_at(&chars, &wanted, i) {
            r.append(with);
            proof {
                let k = pat@.len() as int;
                assert(rest.skip(k) =~= s@.skip(i + k));
                assert(r@ + replaced(rest.skip(k), pat@, with@) =~= sofar + (with@ + replaced(
                    rest.skip(k),
                    pat@,
                    with@,
                )));
            }
            i = i + wanted.len();
        } else {
            r.push(chars[i]);
            proof {
                assert(rest.skip(1) =~= s@.skip(i + 1));
                if rest.len() < pat@.len() {
                    assert(replaced(rest, pat@, with@) == rest);
                    assert(replaced(rest.skip(1), pat@, with@) == rest.skip(1));
                    assert(r@ + rest.skip(1) =~= sofar + rest);
                } else {
                    assert(r@ + replaced(rest.skip(1), pat@, with@) =~= sofar + (seq![rest[0]]
                        + replaced(rest.skip(1), pat@, with@)));
                }
            }
            i = i + 1;
        }
    }
    assert(s@.skip(i as int) =~= Seq::<char>::empty());
    assert(r@ + replaced(s@.skip(i as int), pat@, with@) =~= r@);
    r
}

} // verus!
