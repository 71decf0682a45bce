//! Keyword and boolean-literal classification for the SQL scanner. A
//! literal counts as a keyword exactly when its Unicode uppercase form — as
//! `str::to_uppercase` computes it — reads as one of the keywords, so
//! `"select"` and `"SeLeCt"` qualify, and so does an exotic spelling such as
//! one beginning with the long s (U+017F), whose uppercase form starts with
//! `S`.

use vstd::prelude::*;

verus! {

/// The Unicode uppercase form of a character sequence, as
/// `str::to_uppercase` computes it.
pub uninterp spec fn upper_of(s: Seq<char>) -> Seq<char>;

/// Relies on str::to_uppercase: the result is a function of the characters
/// alone (the mapping is locale-independent), named `upper_of` above.
#[verifier::external_body]
fn to_upper_string(s: &str) -> (r: String)
    ensures
        r@ == upper_of(s@),
{
    s.to_uppercase()
}

/// True exactly when `s` and `t` read as the same characters.
fn str_eq(s: &str, t: &str) -> (b: bool)
    ensures
        b == (s@ == t@),
{
    let n = s.unicode_len();
    if n != t.unicode_len() {
        proof {
            assert(s@.len() != t@.len());
        }
        return false;
    }
    let mut i: usize = 0;
    while i < n
        invariant
            i <= n,
            n == s@.len(),
            n == t@.len(),
            forall|j: int| 0 <= j < i ==> s@[j] == t@[j],
        decreases n - i,
    {
        if s.get_char(i) != t.get_char(i) {
            return false;
        }
        i += 1;
    }
    proof {
        assert(s@ =~= t@);
    }
    true
}

/// The SQL keywords the scanner recognizes, compared by Unicode uppercase
/// form.
pub open spec fn is_keyword_spec(s: Seq<char>) -> bool {
    ||| upper_of(s) == "SELECT"@
    ||| upper_of(s) == "INSERT"@
    ||| upper_of(s) == "INTO"@
    ||| upper_of(s) == "VALUES"@
    ||| upper_of(s) == "FROM"@
    ||| upper_of(s) == "JOIN"@
    ||| upper_of(s) == "ON"@
    ||| upper_of(s) == "WHERE"@
    ||| upper_of(s) == "GROUP"@
    ||| upper_of(s) == "BY"@
    ||| upper_of(s) == "HAVING"@
    ||| upper_of(s) == "ORDER"@
    ||| upper_of(s) == "ASC"@
    ||| upper_of(s) == "DESC"@
    ||| upper_of(s) == "AND"@
    ||| upper_of(s) == "OR"@
    ||| upper_of(s) == "NOT"@
}

/// True exactly when `literal`, uppercased, is an SQL keyword.
pub fn is_keyword(literal: &str) -> (r: bool)
    ensures
        r == is_keyword_spec(literal@),
{
    let up = to_upper_string(literal);
    let u = up.as_str();
    str_eq(u, "SELECT") || str_eq(u, "INSERT") || str_eq(u, "INTO") || str_eq(u, "VALUES")
        || str_eq(u, "FROM") || str_eq(u, "JOIN") || str_eq(u, "ON") || str_eq(u, "WHERE")
        || str_eq(u, "GROUP") || str_eq(u, "BY") || str_eq(u, "HAVING") || str_eq(u, "ORDER")
        || str_eq(u, "ASC") || str_eq(u, "DESC") || str_eq(u, "AND") || str_eq(u, "OR")
        || str_eq(u, "NOT")
}

/// The boolean literals, compared by Unicode uppercase form.
pub open spec fn is_boolean_spec(s: Seq<char>) -> bool {
    upper_of(s) == "TRUE"@ || upper_of(s) == "FALSE"@
}

/// True exactly when `literal`, uppercased, is a boolean literal.
pub fn is_boolean(literal: &str) -> (r: bool)
    ensures
        r == is_boolean_spec(literal@),
{
    let up = to_upper_string(literal);
    let u = up.as_str();
    str_eq(u, "TRUE") || str_eq(u, "FALSE")
}

} // verus!
