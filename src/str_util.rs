//! Small string helpers: joining numbers, palindromes and replacement.
use vstd::prelude::*;

verus! {

/// The character of a decimal digit.
pub open spec fn digit_char(d: nat) -> char {
    if d == 0 { '0' }
    else if d == 1 { '1' }
    else if d == 2 { '2' }
    else if d == 3 { '3' }
    else if d == 4 { '4' }
    else if d == 5 { '5' }
    else if d == 6 { '6' }
    else if d == 7 { '7' }
    else if d == 8 { '8' }
    else { '9' }
}

/// The decimal representation of `n`, without leading zeros.
pub open spec fn decimal(n: nat) -> Seq<char>
    decreases n,
{
    if n < 10 {
        seq![digit_char(n)]
    } else {
        decimal(n / 10).push(digit_char(n % 10))
    }
}

/// The decimal representations of the elements of `v`, separated by commas.
pub open spec fn joined(v: Seq<u64>) -> Seq<char>
    decreases v.len(),
{
    if v.len() == 0 {
        Seq::empty()
    } else if v.len() == 1 {
        decimal(v[0] as nat)
    } else {
        joined(v.drop_last()) + seq![','] + decimal(v.last() as nat)
    }
}

/// Relies on `String::push`: appends one character to the string.
#[verifier::external_body]
fn push_char(s: &mut String, c: char)
    ensures
        final(s)@ == old(s)@.push(c),
{
    s.push(c);
}

fn digit(d: u64) -> (c: char)
    requires
        d < 10,
    ensures
        c == digit_char(d as nat),
{
    if d == 0 { '0' }
    else if d == 1 { '1' }
    else if d == 2 { '2' }
    else if d == 3 { '3' }
    else if d == 4 { '4' }
    else if d == 5 { '5' }
    else if d == 6 { '6' }
    else if d == 7 { '7' }
    else if d == 8 { '8' }
    else { '9' }
}

fn push_decimal(s: &mut String, x: u64)
    ensures
        final(s)@ == old(s)@ + decimal(x as nat),
    decreases x,
{
    if x >= 10 {
        push_decimal(s, x / 10);
    }
    push_char(s, digit(x % 10));
    assert(final(s)@ =~= old(s)@ + decimal(x as nat));
}

/// Renders the numbers of `vec` in decimal, separated by commas, with no trailing comma.
pub fn string_for_vector(vec: Vec<u64>) -> (r: String)
    ensures
        r@ == joined(vec@),
{
    let mut s = String::new();
    let mut i: usize = 0;
    while i < vec.len()
        invariant
            i <= vec@.len(),
            s@ == joined(vec@.subrange(0, i as int)),
        decreases vec@.len() - i,
    {
        let ghost before = s@;
        if i > 0 {
            push_char(&mut s, ',');
        }
        push_decimal(&mut s, vec[i]);
        proof {
            let p = vec@.subrange(0, i as int + 1);
            assert(p.drop_last() =~= vec@.subrange(0, i as int));
            assert(p.last() == vec@[i as int]);
            if i == 0 {
                assert(joined(vec@.subrange(0, 0)) =~= Seq::<char>::empty());
            }
            assert(s@ =~= joined(p));
        }
        i = i + 1;
    }
    assert(vec@.subrange(0, vec@.len() as int) =~= vec@);
    s
}

/// The characters of `s`, one by one.
fn chars_of(s: &str) -> (r: Vec<char>)
    ensures
        r@ == s@,
{
    let n = s.unicode_len();
    let mut r: Vec<char> = Vec::with_capacity(n);
    let mut i: usize = 0;
    while i < n
        invariant
            n == s@.len(),
            i <= n,
            r@ == s@.subrange(0, i as int),
        decreases n - i,
    {
        r.push(s.get_char(i));
        i = i + 1;
        assert(r@ =~= s@.subrange(0, i as int));
    }
    assert(r@ =~= s@);
    r
}

/// Whether `str` reads the same forwards and backwards, character by character.
pub fn is_palindrome(str: &str) -> (r: bool)
    ensures
        r == (str@ == str@.reverse()),
{
    let chars = chars_of(str);
    let n = chars.len();
    let mut i: usize = 0;
    while i < n / 2
        invariant
            chars@ == str@,
            n == chars@.len(),
            i <= n / 2,
            forall|k: int| 0 <= k < i ==> #[trigger] chars@[k] == chars@[n - 1 - k],
        decreases n / 2 - i,
    {
        if chars[i] != chars[n - 1 - i] {
            assert(str@.reverse()[i as int] == str@[n - 1 - i]);
            return false;
        }
        i = i + 1;
    }
    assert(str@ =~= str@.reverse()) by {
        assert forall|k: int| 0 <= k < n implies str@[k] == str@.reverse()[k] by {
            if k >= n / 2 {
                let m = n - 1 - k;
                if m != k {
                    assert(0 <= m < i);
                }
            }
        }
    }
    true
}

/// `s` with every `to_replace` character replaced by `replace_with`.
pub open spec fn char_replaced(s: Seq<char>, to_replace: char, replace_with: char) -> Seq<char> {
    s.map_values(|c: char| if c == to_replace { replace_with } else { c })
}

/// Copies `str`, replacing every occurrence of the character `to_replace` with `replace_with`.
pub fn replace_char(str: &str, to_replace: char, replace_with: char) -> (r: String)
    ensures
        r@ == char_replaced(str@, to_replace, replace_with),
{
    let chars = chars_of(str);
    let mut result = String::new();
    let mut i: usize = 0;
    while i < chars.len()
        invariant
            chars@ == str@,
            i <= chars@.len(),
            result@ == char_replaced(str@.subrange(0, i as int), to_replace, replace_with),
        decreases chars@.len() - i,
    {
        let ch = chars[i];
        if ch == to_replace {
            push_char(&mut result, replace_with);
        } else {
            push_char(&mut result, ch);
        }
        i = i + 1;
        assert(result@ =~= char_replaced(str@.subrange(0, i as int), to_replace, replace_with));
    }
    assert(str@.subrange(0, chars@.len() as int) =~= str@);
    result
}

/// Whether the non-empty `pat` occurs in `s` at position `i`.
pub open spec fn occurs_at(s: Seq<char>, pat: Seq<char>, i: int) -> bool {
    pat.len() > 0 && 0 <= i && i + pat.len() <= s.len() && s.subrange(i, i + pat.len()) == pat
}

/// `s` from position `i` on, with each occurrence of `pat` found scanning left to right
/// replaced by `rep`; the scan resumes after a replaced occurrence.
pub open spec fn replaced_from(s: Seq<char>, pat: Seq<char>, rep: Seq<char>, i: int) -> Seq<char>
    decreases s.len() - i,
{
    if i < 0 || i >= s.len() {
        Seq::empty()
    } else if occurs_at(s, pat, i) {
        rep + replaced_from(s, pat, rep, i + pat.len())
    } else {
        seq![s[i]] + replaced_from(s, pat, rep, i + 1)
    }
}

fn occurs_at_exec(s: &Vec<char>, pat: &Vec<char>, i: usize) -> (r: bool)
    requires
        i < s@.len(),
    ensures
        r == occurs_at(s@, pat@, i as int),
{
    if pat.len() == 0 || pat.len() > s.len() - i {
        return false;
    }
    let mut j: usize = 0;
    while j < pat.len()
        invariant
            i + pat@.len() <= s.len(),
            j <= pat@.len(),
            forall|k: int| 0 <= k < j ==> s@[i + k] == pat@[k],
        decreases pat@.len() - j,
    {
        if s[i + j] != pat[j] {
            assert(s@.subrange(i as int, i + pat@.len())[j as int] != pat@[j as int]);
            return false;
        }
        j = j + 1;
    }
    assert(s@.subrange(i as int, i + pat@.len()) =~= pat@);
    true
}

/// Copies `str`, replacing occurrences of `to_replace` with `replace_with`, scanning left to
/// right without overlaps. An empty `to_replace` leaves the text unchanged.
pub fn replace_string(str: &str, to_replace: &str, replace_with: &str) -> (r: String)
    ensures
        r@ == replaced_from(str@, to_replace@, replace_with@, 0),
{
    let str_chars = chars_of(str);
    let substr_chars = chars_of(to_replace);
    let mut result = String::new();
    let mut i: usize = 0;
    while i < str_chars.len()
        invariant
            str_chars@ == str@,
            substr_chars@ == to_replace@,
            i <= str@.len(),
            result@ + replaced_from(str@, to_replace@, replace_with@, i as int)
                == replaced_from(str@, to_replace@, replace_with@, 0),
        decreases str@.len() - i,
    {
        let ghost before = result@;
        if occurs_at_exec(&str_chars, &substr_chars, i) {
            result.append(replace_with);
            assert(result@ + replaced_from(str@, to_replace@, replace_with@, i + to_replace@.len())
                =~= before + replaced_from(str@, to_replace@, replace_with@, i as int));
            i = i + substr_chars.len();
        } else {
            push_char(&mut result, str_chars[i]);
            assert(result@ + replaced_from(str@, to_replace@, replace_with@, i + 1)
                =~= before + replaced_from(str@, to_replace@, replace_with@, i as int));
            i = i + 1;
        }
    }
    assert(result@ =~= result@ + replaced_from(str@, to_replace@, replace_with@, i as int));
    result
}

} // verus!
