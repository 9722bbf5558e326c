//! Character and string utilities shared by the whole crate: ASCII
//! lowercasing, first-occurrence search, substring tests and string
//! equality, all specified over `Seq<char>` views.

use vstd::prelude::*;

verus! {

/// ASCII lowercasing of a single character: the letters `A` through `Z`
/// map to `a` through `z`; every other character is unchanged.
pub open spec fn lower_char(c: char) -> char {
    match c {
        'A' => 'a',
        'B' => 'b',
        'C' => 'c',
        'D' => 'd',
        'E' => 'e',
        'F' => 'f',
        'G' => 'g',
        'H' => 'h',
        'I' => 'i',
        'J' => 'j',
        'K' => 'k',
        'L' => 'l',
        'M' => 'm',
        'N' => 'n',
        'O' => 'o',
        'P' => 'p',
        'Q' => 'q',
        'R' => 'r',
        'S' => 's',
        'T' => 't',
        'U' => 'u',
        'V' => 'v',
        'W' => 'w',
        'X' => 'x',
        'Y' => 'y',
        'Z' => 'z',
        _ => c,
    }
}

/// True of a character that ASCII lowercasing leaves unchanged.
pub open spec fn is_lower_char(c: char) -> bool {
    lower_char(c) == c
}

/// ASCII lowercasing of a whole character sequence.
pub open spec fn lower_seq(s: Seq<char>) -> Seq<char> {
    Seq::new(s.len(), |i: int| lower_char(s[i]))
}

/// True of a sequence that ASCII lowercasing leaves unchanged.
pub open spec fn is_lower_seq(s: Seq<char>) -> bool {
    forall|i: int| 0 <= i < s.len() ==> is_lower_char(#[trigger] s[i])
}

/// Lowercasing is idempotent, character by character.
pub proof fn lemma_lower_char_idempotent(c: char)
    ensures
        lower_char(lower_char(c)) == lower_char(c),
{
}

/// A lowered sequence is fixed by lowering, and lowering any sequence
/// yields a lowered one.
pub proof fn lemma_lower_seq_idempotent(s: Seq<char>)
    ensures
        is_lower_seq(lower_seq(s)),
        is_lower_seq(s) ==> lower_seq(s) == s,
{
    assert forall|i: int| 0 <= i < lower_seq(s).len() implies is_lower_char(
        #[trigger] lower_seq(s)[i],
    ) by {
        lemma_lower_char_idempotent(s[i]);
    }
    if is_lower_seq(s) {
        assert(lower_seq(s) =~= s);
    }
}

/// Relies on `str::to_ascii_lowercase`: ASCII letters `A` to `Z` are
/// mapped to `a` to `z`; all other characters are unchanged.
#[verifier::external_body]
pub fn to_ascii_lower(s: &str) -> (r: String)
    ensures
        r@ == lower_seq(s@),
{
    s.to_ascii_lowercase()
}

/// `i` is the position of the first occurrence of `c` in `s`.
pub open spec fn is_first_index_of(s: Seq<char>, c: char, i: int) -> bool {
    &&& 0 <= i < s.len()
    &&& s[i] == c
    &&& forall|j: int| 0 <= j < i ==> s[j] != c
}

/// `c` occurs somewhere in `s`.
pub open spec fn has_char(s: Seq<char>, c: char) -> bool {
    exists|i: int| 0 <= i < s.len() && s[i] == c
}

/// The position of the first occurrence of `c` in `s`; meaningful only
/// when `has_char(s, c)`.
pub open spec fn first_index_of(s: Seq<char>, c: char) -> int {
    choose|i: int| is_first_index_of(s, c, i)
}

/// Whenever `c` occurs in `s` there is a first occurrence, and it is
/// unique, so `first_index_of` denotes it.
pub proof fn lemma_first_index_of(s: Seq<char>, c: char)
    requires
        has_char(s, c),
    ensures
        is_first_index_of(s, c, first_index_of(s, c)),
    decreases s.len(),
{
    if s[0] == c {
        assert(is_first_index_of(s, c, 0));
    } else {
        let t = s.drop_first();
        assert(has_char(t, c)) by {
            let w = choose|i: int| 0 <= i < s.len() && s[i] == c;
            assert(t[w - 1] == c);
        }
        lemma_first_index_of(t, c);
        let i = first_index_of(t, c);
        assert(s[i + 1] == c);
        assert(forall|j: int| 0 <= j < i + 1 ==> s[j] != c) by {
            assert(forall|j: int| 1 <= j < i + 1 ==> s[j] == t[j - 1]);
        }
        assert(is_first_index_of(s, c, i + 1));
    }
}

/// A position satisfying `is_first_index_of` is the one `first_index_of`
/// denotes.
pub proof fn lemma_first_index_is(s: Seq<char>, c: char, i: int)
    requires
        is_first_index_of(s, c, i),
    ensures
        has_char(s, c),
        first_index_of(s, c) == i,
{
    assert(has_char(s, c));
    lemma_first_index_of(s, c);
    let k = first_index_of(s, c);
    if k < i {
        assert(s[k] != c);
    }
    if i < k {
        assert(s[i] != c);
    }
}

/// Find the first occurrence of `c` among the characters of `s`.
pub fn find_char(s: &str, c: char) -> (r: Option<usize>)
    ensures
        match r {
            Some(i) => is_first_index_of(s@, c, i as int) && has_char(s@, c),
            None => !has_char(s@, c),
        },
{
    let n = s.unicode_len();
    let mut i: usize = 0;
    while i < n
        invariant
            n == s@.len(),
            0 <= i <= n,
            forall|j: int| 0 <= j < i ==> s@[j] != c,
        decreases n - i,
    {
        if s.get_char(i) == c {
            return Some(i);
        }
        i = i + 1;
    }
    None
}

/// Equality of two string slices, decided character by character.
pub fn str_eq_str(a: &str, b: &str) -> (r: bool)
    ensures
        r == (a@ == b@),
{
    let na = a.unicode_len();
    let nb = b.unicode_len();
    if na != nb {
        assert(a@ != b@);
        return false;
    }
    let mut i: usize = 0;
    while i < na
        invariant
            na == a@.len(),
            na == b@.len(),
            0 <= i <= na,
            forall|j: int| 0 <= j < i ==> a@[j] == b@[j],
        decreases na - i,
    {
        if a.get_char(i) != b.get_char(i) {
            return false;
        }
        i = i + 1;
    }
    assert(a@ =~= b@);
    true
}

/// `needle` occurs as a contiguous subrange of `hay` starting at `i`.
pub open spec fn is_match_at(hay: Seq<char>, needle: Seq<char>, i: int) -> bool {
    &&& 0 <= i
    &&& i + needle.len() <= hay.len()
    &&& hay.subrange(i, i + needle.len()) == needle
}

/// `needle` occurs somewhere as a contiguous subrange of `hay`.
pub open spec fn contains_seq(hay: Seq<char>, needle: Seq<char>) -> bool {
    exists|i: int| is_match_at(hay, needle, i)
}

/// Substring test: does `needle` occur contiguously in `hay`?
pub fn str_contains(hay: &str, needle: &str) -> (r: bool)
    ensures
        r == contains_seq(hay@, needle@),
{
    let nh = hay.unicode_len();
    let nn = needle.unicode_len();
    if nn > nh {
        return false;
    }
    if nn == 0 {
        proof {
            assert(hay@.subrange(0, 0) =~= needle@);
            assert(is_match_at(hay@, needle@, 0));
        }
        return true;
    }
    let mut i: usize = 0;
    while i <= nh - nn
        invariant
            nh == hay@.len(),
            nn == needle@.len(),
            1 <= nn <= nh,
            0 <= i <= nh - nn + 1,
            forall|k: int| 0 <= k < i ==> !is_match_at(hay@, needle@, k),
        decreases nh - i,
    {
        let mut j: usize = 0;
        let mut hit = true;
        while j < nn
            invariant
                nh == hay@.len(),
                nn == needle@.len(),
                0 <= i <= nh - nn,
                0 <= j <= nn,
                hit ==> forall|l: int| 0 <= l < j ==> hay@[i + l] == needle@[l],
                !hit ==> !is_match_at(hay@, needle@, i as int),
            decreases nn - j,
        {
            if hay.get_char(i + j) != needle.get_char(j) {
                proof {
                    if is_match_at(hay@, needle@, i as int) {
                        assert(hay@.subrange(i as int, i + needle@.len())[j as int]
                            == needle@[j as int]);
                    }
                }
                hit = false;
                j = nn;
            } else {
                j = j + 1;
            }
        }
        if hit {
            proof {
                assert(hay@.subrange(i as int, i + needle@.len()) =~= needle@);
                assert(is_match_at(hay@, needle@, i as int));
            }
            return true;
        }
        i = i + 1;
    }
    false
}


/// `i` is the position of the last occurrence of `c` in `s`.
pub open spec fn is_last_index_of(s: Seq<char>, c: char, i: int) -> bool {
    &&& 0 <= i < s.len()
    &&& s[i] == c
    &&& forall|j: int| i < j < s.len() ==> s[j] != c
}

/// The position of the last occurrence of `c` in `s`; meaningful only
/// when `has_char(s, c)`.
pub open spec fn last_index_of(s: Seq<char>, c: char) -> int {
    choose|i: int| is_last_index_of(s, c, i)
}

/// Whenever `c` occurs in `s` there is a last occurrence, and it is
/// unique, so `last_index_of` denotes it.
pub proof fn lemma_last_index_of(s: Seq<char>, c: char)
    requires
        has_char(s, c),
    ensures
        is_last_index_of(s, c, last_index_of(s, c)),
    decreases s.len(),
{
    if s[s.len() - 1] == c {
        assert(is_last_index_of(s, c, s.len() - 1));
    } else {
        let t = s.drop_last();
        assert(has_char(t, c)) by {
            let w = choose|i: int| 0 <= i < s.len() && s[i] == c;
            assert(t[w] == c);
        }
        lemma_last_index_of(t, c);
        let i = last_index_of(t, c);
        assert(s[i] == c);
        assert(forall|j: int| i < j < s.len() - 1 ==> s[j] == t[j]);
        assert(is_last_index_of(s, c, i));
    }
}

/// A position satisfying `is_last_index_of` is the one
/// `last_index_of` denotes.
pub proof fn lemma_last_index_is(s: Seq<char>, c: char, i: int)
    requires
        is_last_index_of(s, c, i),
    ensures
        has_char(s, c),
        last_index_of(s, c) == i,
{
    assert(has_char(s, c));
    lemma_last_index_of(s, c);
    let k = last_index_of(s, c);
    if k < i {
        assert(s[i] != c);
    }
    if i < k {
        assert(s[k] != c);
    }
}

/// Find the last occurrence of `c` among the characters of `s`.
#[verifier::loop_isolation(false)]
pub fn find_last_char(s: &str, c: char) -> (r: Option<usize>)
    ensures
        match r {
            Some(i) => is_last_index_of(s@, c, i as int) && has_char(s@, c),
            None => !has_char(s@, c),
        },
{
    let n = s.unicode_len();
    let mut found: Option<usize> = None;
    let mut i: usize = 0;
    while i < n
        invariant
            0 <= i <= n,
            match found {
                Some(l) => l < i && s@[l as int] == c && forall|j: int| l < j < i ==> s@[j] != c,
                None => forall|j: int| 0 <= j < i ==> s@[j] != c,
            },
        decreases n - i,
    {
        if s.get_char(i) == c {
            found = Some(i);
        }
        i = i + 1;
    }
    found
}



/// Lexicographic at-most comparison of two character sequences,
/// decided from position `i` on: the shorter sequence wins ties.
pub open spec fn lex_leq_from(a: Seq<char>, b: Seq<char>, i: int) -> bool
    decreases a.len() - i,
{
    if i >= a.len() {
        true
    } else if i >= b.len() {
        false
    } else if a[i] != b[i] {
        a[i] < b[i]
    } else {
        lex_leq_from(a, b, i + 1)
    }
}

/// Lexicographic at-most comparison of two character sequences.
pub open spec fn lex_leq(a: Seq<char>, b: Seq<char>) -> bool {
    lex_leq_from(a, b, 0)
}

/// The lexicographic order is reflexive.
pub proof fn lemma_lex_refl(a: Seq<char>, i: int)
    ensures
        lex_leq_from(a, a, i),
    decreases a.len() - i,
{
    if i < a.len() {
        lemma_lex_refl(a, i + 1);
    }
}

/// The lexicographic order is total.
pub proof fn lemma_lex_total(a: Seq<char>, b: Seq<char>, i: int)
    ensures
        lex_leq_from(a, b, i) || lex_leq_from(b, a, i),
    decreases a.len() - i,
{
    if i < a.len() && i < b.len() && a[i] == b[i] {
        lemma_lex_total(a, b, i + 1);
    }
}

/// The lexicographic order is transitive.
pub proof fn lemma_lex_trans(a: Seq<char>, b: Seq<char>, c: Seq<char>, i: int)
    requires
        lex_leq_from(a, b, i),
        lex_leq_from(b, c, i),
    ensures
        lex_leq_from(a, c, i),
    decreases a.len() - i,
{
    if i >= a.len() {
    } else {
        if i < b.len() && i < c.len() && a[i] == b[i] && b[i] == c[i] {
            lemma_lex_trans(a, b, c, i + 1);
        }
    }
}

/// Decide the lexicographic comparison of two string slices.
#[verifier::loop_isolation(false)]
pub fn str_lex_leq(a: &str, b: &str) -> (r: bool)
    ensures
        r == lex_leq(a@, b@),
{
    let na = a.unicode_len();
    let nb = b.unicode_len();
    let mut i: usize = 0;
    loop
        invariant
            0 <= i <= na,
            i <= nb,
            lex_leq(a@, b@) == lex_leq_from(a@, b@, i as int),
        decreases na - i,
    {
        if i >= na {
            return true;
        }
        if i >= nb {
            return false;
        }
        let ca = a.get_char(i);
        let cb = b.get_char(i);
        if ca != cb {
            return ca < cb;
        }
        i = i + 1;
    }
}


} // verus!
