use vstd::prelude::*;

verus! {

/// ASCII whitespace, the padding that delimited files carry around fields.
pub open spec fn is_space(c: char) -> bool {
    c == ' ' || c == '\t' || c == '\r' || c == '\n'
}

pub open spec fn is_quote(c: char) -> bool {
    c == '"'
}

/// Length of the longest prefix of `s` whose characters all satisfy `p`.
pub open spec fn count_leading(s: Seq<char>, p: spec_fn(char) -> bool) -> int
    decreases s.len(),
{
    if s.len() == 0 || !p(s[0]) {
        0
    } else {
        1 + count_leading(s.skip(1), p)
    }
}

/// Length of the longest suffix of `s` whose characters all satisfy `p`.
pub open spec fn count_trailing(s: Seq<char>, p: spec_fn(char) -> bool) -> int
    decreases s.len(),
{
    if s.len() == 0 || !p(s.last()) {
        0
    } else {
        1 + count_trailing(s.drop_last(), p)
    }
}

/// `s` without its leading and trailing runs of characters satisfying `p`.
pub open spec fn trim_matching(s: Seq<char>, p: spec_fn(char) -> bool) -> Seq<char> {
    let lo = count_leading(s, p);
    let hi = s.len() - count_trailing(s, p);
    if lo < hi {
        s.subrange(lo, hi)
    } else {
        Seq::<char>::empty()
    }
}

/// A raw field cleaned for parsing: first the surrounding quotes go, then the
/// surrounding whitespace.
pub open spec fn clean_field_spec(s: Seq<char>) -> Seq<char> {
    trim_matching(trim_matching(s, |c: char| is_quote(c)), |c: char| is_space(c))
}

proof fn lemma_count_bounds(s: Seq<char>, p: spec_fn(char) -> bool)
    ensures
        0 <= count_leading(s, p) <= s.len(),
        0 <= count_trailing(s, p) <= s.len(),
    decreases s.len(),
{
    if s.len() > 0 {
        lemma_count_bounds(s.skip(1), p);
        lemma_count_bounds(s.drop_last(), p);
    }
}

proof fn lemma_count_leading_pin(s: Seq<char>, p: spec_fn(char) -> bool, a: int)
    requires
        0 <= a <= s.len(),
        forall|i: int| 0 <= i < a ==> p(#[trigger] s[i]),
        a < s.len() ==> !p(s[a]),
    ensures
        count_leading(s, p) == a,
    decreases s.len(),
{
    if a == 0 {
    } else {
        assert(p(s[0]));
        lemma_count_leading_pin(s.skip(1), p, a - 1);
    }
}

proof fn lemma_count_trailing_pin(s: Seq<char>, p: spec_fn(char) -> bool, b: int)
    requires
        0 <= b <= s.len(),
        forall|i: int| b <= i < s.len() ==> p(#[trigger] s[i]),
        b > 0 ==> !p(s[b - 1]),
    ensures
        count_trailing(s, p) == s.len() - b,
    decreases s.len(),
{
    if b == s.len() {
    } else {
        assert(p(s.last()));
        lemma_count_trailing_pin(s.drop_last(), p, b);
    }
}

fn is_space_char(c: char) -> (r: bool)
    ensures
        r == is_space(c),
{
    c == ' ' || c == '\t' || c == '\r' || c == '\n'
}

/// Strips surrounding quotes, then surrounding whitespace, from one raw
/// field of a delimited row.
#[verifier::loop_isolation(false)]
pub fn clean_field(s: &str) -> (r: String)
    ensures
        r@ == clean_field_spec(s@),
{
    let n = s.unicode_len();
    let mut a: usize = 0;
    let mut b: usize = n;
    while a < n && s.get_char(a) == '"'
        invariant
            0 <= a <= n,
            forall|i: int| 0 <= i < a ==> is_quote(#[trigger] s@[i]),
        decreases n - a,
    {
        a += 1;
    }
    while b > a && s.get_char(b - 1) == '"'
        invariant
            a <= b <= n,
            forall|i: int| b <= i < n ==> is_quote(#[trigger] s@[i]),
        decreases b,
    {
        b -= 1;
    }
    let ghost a0 = a as int;
    let ghost b0 = b as int;
    let ghost once = trim_matching(s@, |c: char| is_quote(c));
    proof {
        lemma_count_bounds(s@, |c: char| is_quote(c));
        if a0 == b0 {
            // the whole string is quotes: both runs cover it
            assert(forall|i: int| 0 <= i < s@.len() ==> is_quote(#[trigger] s@[i]));
            lemma_count_leading_pin(s@, |c: char| is_quote(c), s@.len() as int);
            assert(once =~= s@.subrange(a0, b0));
        } else {
            lemma_count_leading_pin(s@, |c: char| is_quote(c), a0);
            lemma_count_trailing_pin(s@, |c: char| is_quote(c), b0);
            assert(once =~= s@.subrange(a0, b0));
        }
    }
    // now the whitespace, inside [a, b)
    while a < b && is_space_char(s.get_char(a))
        invariant
            a0 <= a <= b <= b0,
            forall|i: int| a0 <= i < a ==> is_space(#[trigger] s@[i]),
        decreases b - a,
    {
        a += 1;
    }
    while b > a && is_space_char(s.get_char(b - 1))
        invariant
            a <= b <= b0,
            forall|i: int| b <= i < b0 ==> is_space(#[trigger] s@[i]),
        decreases b,
    {
        b -= 1;
    }
    proof {
        lemma_count_bounds(once, |c: char| is_space(c));
        assert(once.len() == b0 - a0);
        assert(forall|i: int| 0 <= i < once.len() ==> once[i] == s@[a0 + i]);
        if a == b {
            assert(forall|i: int| 0 <= i < once.len() ==> is_space(#[trigger] once[i]));
            lemma_count_leading_pin(once, |c: char| is_space(c), once.len() as int);
            assert(clean_field_spec(s@) =~= s@.subrange(a as int, b as int));
        } else {
            lemma_count_leading_pin(once, |c: char| is_space(c), a - a0);
            lemma_count_trailing_pin(once, |c: char| is_space(c), b - a0);
            assert(clean_field_spec(s@) =~= once.subrange(a - a0, b - a0));
            assert(clean_field_spec(s@) =~= s@.subrange(a as int, b as int));
        }
    }
    let piece = s.substring_char(a, b);
    piece.to_owned()
}

/// Lower-cases an ASCII capital letter; every other character stays itself.
pub open spec fn lower_char(c: char) -> char {
    if 'A' <= c && c <= 'Z' {
        (c as u8 + 32) as char
    } else {
        c
    }
}

/// The four characters of "male" stand at position `k` of `s`, up to ASCII
/// case.
pub open spec fn match_male_at(s: Seq<char>, k: int) -> bool {
    &&& lower_char(s[k]) == 'm'
    &&& lower_char(s[k + 1]) == 'a'
    &&& lower_char(s[k + 2]) == 'l'
    &&& lower_char(s[k + 3]) == 'e'
}

/// `s` holds "male" as a substring, up to ASCII case.
pub open spec fn has_male(s: Seq<char>) -> bool {
    exists|k: int| 0 <= k && k + 4 <= s.len() && #[trigger] match_male_at(s, k)
}

fn lower_char_exec(c: char) -> (r: char)
    ensures
        r == lower_char(c),
{
    if 'A' <= c && c <= 'Z' {
        (c as u8 + 32) as char
    } else {
        c
    }
}

/// Case-insensitive substring search for "male", the sex policy of the
/// ingestor: a field that holds it (so "female" too) counts as male there.
#[verifier::loop_isolation(false)]
pub fn contains_male(s: &str) -> (r: bool)
    ensures
        r == has_male(s@),
{
    let n = s.unicode_len();
    if n < 4 {
        return false;
    }
    let mut k: usize = 0;
    while k <= n - 4
        invariant
            0 <= k <= n,
            forall|j: int| 0 <= j < k ==> !(#[trigger] match_male_at(s@, j)),
        decreases n - k,
    {
        let c0 = lower_char_exec(s.get_char(k));
        let c1 = lower_char_exec(s.get_char(k + 1));
        let c2 = lower_char_exec(s.get_char(k + 2));
        let c3 = lower_char_exec(s.get_char(k + 3));
        if c0 == 'm' && c1 == 'a' && c2 == 'l' && c3 == 'e' {
            assert(match_male_at(s@, k as int));
            return true;
        }
        k += 1;
    }
    false
}

} // verus!
