//! Operations on names and other short texts.
//!
//! What the standard library does with texts is stated here over their
//! character sequences.

use vstd::prelude::*;
use vstd::string::*;

verus! {

/// Whether `p` occurs in `s` at position `i`.
pub open spec fn occurs_at(s: Seq<char>, p: Seq<char>, i: int) -> bool {
    0 <= i && i + p.len() <= s.len() && s.subrange(i, i + p.len()) == p
}

/// Whether `p` occurs in `s`.
pub open spec fn occurs(s: Seq<char>, p: Seq<char>) -> bool {
    exists|i: int| #[trigger] occurs_at(s, p, i)
}

/// Whether `s` begins with `p`.
pub open spec fn begins(s: Seq<char>, p: Seq<char>) -> bool {
    occurs_at(s, p, 0)
}

/// Whether `s` ends with `p`.
pub open spec fn ends(s: Seq<char>, p: Seq<char>) -> bool {
    occurs_at(s, p, s.len() - p.len())
}

/// `s` without one occurrence of `p` at its end, if there is one.
pub open spec fn chopped(s: Seq<char>, p: Seq<char>) -> Seq<char> {
    if ends(s, p) {
        s.subrange(0, s.len() - p.len())
    } else {
        s
    }
}

/// `s` without all the occurrences of `p` at its end.
pub open spec fn trimmed_end(s: Seq<char>, p: Seq<char>) -> Seq<char>
    decreases s.len(),
{
    if p.len() > 0 && ends(s, p) {
        trimmed_end(s.subrange(0, s.len() - p.len()), p)
    } else {
        s
    }
}

/// Whether `a` and `b` are what stands before and behind the last occurrence of
/// `p` in `s`.
pub open spec fn split_last(s: Seq<char>, p: Seq<char>, a: Seq<char>, b: Seq<char>) -> bool {
    s == a + p + b && forall|i: int| a.len() < i ==> !#[trigger] occurs_at(s, p, i)
}

/// The position of the last occurrence of `p` in `s`.
pub open spec fn last_at(s: Seq<char>, p: Seq<char>) -> int {
    choose|i: int|
        #[trigger] occurs_at(s, p, i) && forall|j: int| i < j ==> !#[trigger] occurs_at(s, p, j)
}

/// What stands before the last occurrence of `p` in `s`.
pub open spec fn before_last(s: Seq<char>, p: Seq<char>) -> Seq<char> {
    s.subrange(0, last_at(s, p))
}

/// What stands behind the last occurrence of `p` in `s`.
pub open spec fn behind_last(s: Seq<char>, p: Seq<char>) -> Seq<char> {
    s.subrange(last_at(s, p) + p.len(), s.len() as int)
}

/// The two parts of a text about the last occurrence of `p` are unique.
pub proof fn lemma_split_last(s: Seq<char>, p: Seq<char>, a: Seq<char>, b: Seq<char>)
    requires
        split_last(s, p, a, b),
    ensures
        occurs(s, p),
        last_at(s, p) == a.len(),
        before_last(s, p) == a,
        behind_last(s, p) == b,
{
    let i = a.len() as int;
    assert(s.subrange(i, i + p.len()) =~= p);
    assert(occurs_at(s, p, i));
    let k = last_at(s, p);
    assert(occurs_at(s, p, k) && forall|j: int| k < j ==> !#[trigger] occurs_at(s, p, j));
    assert(k == i);
    assert(before_last(s, p) =~= a);
    assert(behind_last(s, p) =~= b);
}

/// The texts, with a separator between them.
pub open spec fn joined(parts: Seq<Seq<char>>, sep: Seq<char>) -> Seq<char>
    decreases parts.len(),
{
    if parts.len() == 0 {
        Seq::empty()
    } else if parts.len() == 1 {
        parts[0]
    } else {
        joined(parts.drop_last(), sep) + sep + parts.last()
    }
}

/// `str::contains` with a text as its pattern: whether the text occurs.
#[verifier::external_body]
pub(crate) fn has_text(s: &str, p: &str) -> (r: bool)
    ensures
        r == occurs(s@, p@),
{
    s.contains(p)
}

/// `str::starts_with` with a text as its pattern: whether the text stands first.
#[verifier::external_body]
pub(crate) fn begins_with(s: &str, p: &str) -> (r: bool)
    ensures
        r == begins(s@, p@),
{
    s.starts_with(p)
}

/// `str::ends_with` with a text as its pattern: whether the text stands last.
#[verifier::external_body]
pub(crate) fn ends_in(s: &str, p: &str) -> (r: bool)
    ensures
        r == ends(s@, p@),
{
    s.ends_with(p)
}

/// `str::strip_suffix` with a text as its pattern: the rest before the text,
/// where the text stands last.
#[verifier::external_body]
pub(crate) fn strip_end(s: &str, p: &str) -> (r: Option<String>)
    ensures
        match r {
            Some(rest) => ends(s@, p@) && rest@ == s@.subrange(0, s@.len() - p@.len()),
            None => !ends(s@, p@),
        },
{
    s.strip_suffix(p).map(|rest| rest.to_owned())
}

/// `str::strip_prefix` with a text as its pattern: the rest behind the text,
/// where the text stands first.
#[verifier::external_body]
pub(crate) fn strip_start(s: &str, p: &str) -> (r: Option<String>)
    ensures
        match r {
            Some(rest) => begins(s@, p@) && rest@ == s@.subrange(p@.len() as int, s@.len() as int),
            None => !begins(s@, p@),
        },
{
    s.strip_prefix(p).map(|rest| rest.to_owned())
}

/// `str::trim_end_matches` with a text as its pattern: every occurrence at the
/// end is taken off.
#[verifier::external_body]
pub(crate) fn trim_end(s: &str, p: &str) -> (r: String)
    requires
        p@.len() > 0,
    ensures
        r@ == trimmed_end(s@, p@),
{
    s.trim_end_matches(p).to_owned()
}

/// `str::rsplit_once` with a text as its pattern: what stands before and behind
/// the last occurrence, where there is one.
#[verifier::external_body]
pub(crate) fn split_at_last(s: &str, p: &str) -> (r: Option<(String, String)>)
    requires
        p@.len() > 0,
    ensures
        match r {
            Some((a, b)) => split_last(s@, p@, a@, b@),
            None => !occurs(s@, p@),
        },
{
    s.rsplit_once(p).map(|(a, b)| (a.to_owned(), b.to_owned()))
}

/// What `str::to_lowercase` returns.
pub uninterp spec fn lowercase(s: Seq<char>) -> Seq<char>;

/// `str::to_lowercase`: the lower-case equivalent by Unicode's rules.
#[verifier::external_body]
pub(crate) fn to_lower(s: &str) -> (r: String)
    ensures
        r@ == lowercase(s@),
{
    s.to_lowercase()
}

/// What `char::to_uppercase` yields.
pub uninterp spec fn uppercase(c: char) -> Seq<char>;

/// `char::to_uppercase`: the upper-case equivalent by Unicode's rules, which may
/// be several characters.
#[verifier::external_body]
pub(crate) fn to_upper(c: char) -> (r: String)
    ensures
        r@ == uppercase(c),
{
    c.to_uppercase().collect()
}

/// The two texts, one behind the other.
pub fn append(a: &str, b: &str) -> (r: String)
    ensures
        r@ == a@ + b@,
{
    String::from_str(a).concat(b)
}

/// The text without one occurrence of `p` at its end, if there is one.
pub fn chop(s: &str, p: &str) -> (r: String)
    ensures
        r@ == chopped(s@, p@),
{
    match strip_end(s, p) {
        Some(rest) => rest,
        None => s.to_owned(),
    }
}

/// The texts, with a separator between them.
pub fn join(parts: &Vec<String>, sep: &str) -> (r: String)
    ensures
        r@ == joined(crate::ir::names(parts@), sep@),
{
    if parts.len() == 0 {
        return String::new();
    }
    let mut out: String = parts[0].clone();
    let mut i: usize = 1;
    let ghost all = crate::ir::names(parts@);
    assert(all.subrange(0, 1) =~= seq![all[0]]);
    while i < parts.len()
        invariant
            1 <= i <= parts.len(),
            all == crate::ir::names(parts@),
            out@ == joined(all.subrange(0, i as int), sep@),
        decreases parts.len() - i,
    {
        out = append(append(&out, sep).as_str(), parts[i].as_str());
        proof {
            let next = all.subrange(0, i + 1);
            assert(next.drop_last() =~= all.subrange(0, i as int));
            assert(next.last() == all[i as int]);
        }
        i += 1;
    }
    assert(all.subrange(0, i as int) =~= all);
    out
}

/// Replaces one character by a text throughout.
pub open spec fn replaced(s: Seq<char>, c: char, by: Seq<char>) -> Seq<char>
    decreases s.len(),
{
    if s.len() == 0 {
        Seq::empty()
    } else {
        replaced(s.drop_last(), c, by) + if s.last() == c {
            by
        } else {
            seq![s.last()]
        }
    }
}

/// `str::replace` with a character as its pattern: each occurrence gives way to
/// the text.
#[verifier::external_body]
pub(crate) fn replace_char(s: &str, c: char, by: &str) -> (r: String)
    ensures
        r@ == replaced(s@, c, by@),
{
    s.replace(c, by)
}

/// Whether a text is the other one.
pub fn is_text(a: &str, b: &str) -> (r: bool)
    ensures
        r == (a@ == b@),
{
    a.to_owned() == b.to_owned()
}

/// Whether each character is a decimal digit.
pub open spec fn all_digits(s: Seq<char>) -> bool {
    forall|i: int| 0 <= i < s.len() ==> '0' <= #[trigger] s[i] <= '9'
}

/// Whether each character is a decimal digit.
pub fn is_digits(s: &str) -> (r: bool)
    ensures
        r == all_digits(s@),
{
    let n: usize = s.unicode_len();
    let mut i: usize = 0;
    while i < n
        invariant
            i <= n,
            n == s@.len(),
            forall|j: int| 0 <= j < i ==> '0' <= #[trigger] s@[j] <= '9',
        decreases n - i,
    {
        let c = s.get_char(i);
        if c < '0' || c > '9' {
            return false;
        }
        i += 1;
    }
    true
}

/// The decimal digit of a number below ten.
pub open spec fn digit(d: nat) -> char {
    (48 + d) as char
}

/// The decimal text of a number.
pub open spec fn decimal(n: nat) -> Seq<char>
    decreases n,
{
    if n < 10 {
        seq![digit(n)]
    } else {
        decimal(n / 10).push(digit(n % 10))
    }
}

/// The text of a number below ten.
fn digit_text(d: u128) -> (r: String)
    requires
        d < 10,
    ensures
        r@ == seq![digit(d as nat)],
{
    proof {
        reveal_strlit("0");
        reveal_strlit("1");
        reveal_strlit("2");
        reveal_strlit("3");
        reveal_strlit("4");
        reveal_strlit("5");
        reveal_strlit("6");
        reveal_strlit("7");
        reveal_strlit("8");
        reveal_strlit("9");
    }
    let r = match d {
        0 => "0".to_owned(),
        1 => "1".to_owned(),
        2 => "2".to_owned(),
        3 => "3".to_owned(),
        4 => "4".to_owned(),
        5 => "5".to_owned(),
        6 => "6".to_owned(),
        7 => "7".to_owned(),
        8 => "8".to_owned(),
        _ => "9".to_owned(),
    };
    assert(r@ =~= seq![digit(d as nat)]);
    r
}

/// The decimal text of a number.
pub fn number_text(n: u128) -> (r: String)
    ensures
        r@ == decimal(n as nat),
    decreases n,
{
    if n < 10 {
        return digit_text(n);
    }
    let front = number_text(n / 10);
    let last = digit_text(n % 10);
    let r = append(&front, &last);
    assert(r@ =~= decimal(n as nat));
    r
}

} // verus!
