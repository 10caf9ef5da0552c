//! Identifiers inside texts.

use vstd::prelude::*;

verus! {

/// Whether the character can stand in an identifier.
pub open spec fn ident_char(c: char) -> bool {
    ('a' <= c <= 'z') || ('A' <= c <= 'Z') || ('0' <= c <= '9') || c == '_' || c == '\''
}

/// Whether the identifier stands at the position as a whole word.
pub open spec fn word_at(text: Seq<char>, ident: Seq<char>, i: int) -> bool {
    &&& crate::text::occurs_at(text, ident, i)
    &&& i == 0 || !ident_char(text[i - 1])
    &&& i + ident.len() >= text.len() || !ident_char(text[i + ident.len()])
}

/// Whether the text mentions the identifier as a whole word.
pub open spec fn mentions(text: Seq<char>, ident: Seq<char>) -> bool {
    exists|i: int| #[trigger] word_at(text, ident, i)
}

/// Whether the character can stand in an identifier.
fn is_ident_char(c: char) -> (r: bool)
    ensures
        r == ident_char(c),
{
    ('a' <= c && c <= 'z') || ('A' <= c && c <= 'Z') || ('0' <= c && c <= '9') || c == '_' || c
        == '\''
}

/// Whether the identifier stands at the position.
fn stands_at(text: &str, ident: &str, i: usize) -> (r: bool)
    requires
        i + ident@.len() <= text@.len(),
    ensures
        r == crate::text::occurs_at(text@, ident@, i as int),
{
    let n: usize = ident.unicode_len();
    let ghost part = text@.subrange(i as int, i + ident@.len());
    let mut k: usize = 0;
    let total: usize = text.unicode_len();
    while k < n
        invariant
            k <= n,
            n == ident@.len(),
            total == text@.len(),
            i + n <= total,
            part == text@.subrange(i as int, i + ident@.len()),
            forall|j: int| 0 <= j < k ==> #[trigger] part[j] == ident@[j],
        decreases n - k,
    {
        assert(part[k as int] == text@[i + k]);
        if text.get_char(i + k) != ident.get_char(k) {
            assert(part != ident@);
            return false;
        }
        k += 1;
    }
    assert(part =~= ident@);
    true
}

/// Whether the text mentions the identifier as a whole word.
pub fn mentions_ident(text: &str, ident: &str) -> (r: bool)
    ensures
        r == mentions(text@, ident@),
{
    let n: usize = text.unicode_len();
    let m: usize = ident.unicode_len();
    if m > n {
        assert(!mentions(text@, ident@));
        return false;
    }
    let mut i: usize = 0;
    loop
        invariant
            n == text@.len(),
            m == ident@.len(),
            m <= n,
            i <= n - m,
            forall|j: int| 0 <= j < i ==> !(#[trigger] word_at(text@, ident@, j)),
        ensures
            forall|j: int| 0 <= j <= n - m ==> !(#[trigger] word_at(text@, ident@, j)),
        decreases n - m - i,
    {
        if stands_at(text, ident, i) {
            let before = i == 0 || !is_ident_char(text.get_char(i - 1));
            let after = i + m >= n || !is_ident_char(text.get_char(i + m));
            if before && after {
                assert(word_at(text@, ident@, i as int));
                return true;
            }
        }
        assert(!word_at(text@, ident@, i as int));
        if i == n - m {
            break;
        }
        i += 1;
    }
    assert(!mentions(text@, ident@));
    false
}

} // verus!
