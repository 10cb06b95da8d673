//! Verified string utilities for the filter engine: normalization (trim and
//! lowercase), lexicographic ordering, substring search, and the decimal and
//! boolean renderings that field accessors use.

use vstd::prelude::*;

verus! {

/// What `char::is_whitespace` returns; a function of the character alone.
pub uninterp spec fn is_space(c: char) -> bool;

/// Relies on char::is_whitespace: whether the character has the Unicode
/// whitespace property, a function of the character alone.
#[verifier::external_body]
pub fn is_space_char(c: char) -> (r: bool)
    ensures
        r == is_space(c),
{
    c.is_whitespace()
}

/// The sequence with its leading whitespace removed.
pub open spec fn trim_front(s: Seq<char>) -> Seq<char>
    decreases s.len(),
{
    if s.len() > 0 && is_space(s[0]) {
        trim_front(s.drop_first())
    } else {
        s
    }
}

/// The sequence with its trailing whitespace removed.
pub open spec fn trim_back(s: Seq<char>) -> Seq<char>
    decreases s.len(),
{
    if s.len() > 0 && is_space(s.last()) {
        trim_back(s.drop_last())
    } else {
        s
    }
}

/// The sequence with its surrounding whitespace removed.
pub open spec fn trim_spec(s: Seq<char>) -> Seq<char> {
    trim_back(trim_front(s))
}

/// What `str::to_lowercase` returns; a function of the characters alone.
pub uninterp spec fn lower_of(s: Seq<char>) -> Seq<char>;

/// Relies on str::to_lowercase: the lowercase form of the string, a function
/// of its characters alone; an empty string stays empty.
#[verifier::external_body]
pub fn to_lowercase_str(s: &str) -> (r: String)
    ensures
        r@ == lower_of(s@),
        s@.len() == 0 ==> r@.len() == 0,
{
    s.to_lowercase()
}

/// A value normalized for comparison: surrounding whitespace removed, then
/// lowercased.
pub open spec fn norm_of(s: Seq<char>) -> Seq<char> {
    lower_of(trim_spec(s))
}

proof fn lemma_trim_front_step(s: Seq<char>, i: int)
    requires
        0 <= i < s.len(),
        is_space(s[i]),
    ensures
        trim_front(s.skip(i)) == trim_front(s.skip(i + 1)),
{
    assert(s.skip(i).len() > 0);
    assert(s.skip(i)[0] == s[i]);
    assert(s.skip(i).drop_first() =~= s.skip(i + 1));
}

proof fn lemma_trim_back_step(s: Seq<char>, i: int, j: int)
    requires
        0 <= i < j <= s.len(),
        is_space(s[j - 1]),
    ensures
        trim_back(s.subrange(i, j)) == trim_back(s.subrange(i, j - 1)),
{
    let t = s.subrange(i, j);
    assert(t.len() > 0);
    assert(t.last() == s[j - 1]);
    assert(t.drop_last() =~= s.subrange(i, j - 1));
}

/// Removes leading and trailing whitespace.
pub fn trim_str(s: &str) -> (r: &str)
    ensures
        r@ == trim_spec(s@),
{
    let n: usize = s.unicode_len();
    proof {
        assert(s@.skip(0) =~= s@);
    }
    let mut i: usize = 0;
    loop
        invariant_except_break
            i <= n,
            n == s@.len(),
            trim_front(s@) == trim_front(s@.skip(i as int)),
        ensures
            i <= n,
            n == s@.len(),
            trim_front(s@) == s@.skip(i as int),
        decreases n - i,
    {
        if i >= n {
            proof {
                assert(s@.skip(i as int) =~= Seq::<char>::empty());
            }
            break;
        }
        if !is_space_char(s.get_char(i)) {
            proof {
                assert(s@.skip(i as int)[0] == s@[i as int]);
            }
            break;
        }
        proof {
            lemma_trim_front_step(s@, i as int);
        }
        i += 1;
    }
    proof {
        assert(s@.subrange(i as int, n as int) =~= s@.skip(i as int));
    }
    let mut j: usize = n;
    loop
        invariant_except_break
            i <= j <= n,
            n == s@.len(),
            trim_back(s@.skip(i as int)) == trim_back(s@.subrange(i as int, j as int)),
        ensures
            i <= j <= n,
            n == s@.len(),
            trim_back(s@.skip(i as int)) == s@.subrange(i as int, j as int),
        decreases j,
    {
        if j <= i {
            proof {
                assert(s@.subrange(i as int, j as int) =~= Seq::<char>::empty());
            }
            break;
        }
        if !is_space_char(s.get_char(j - 1)) {
            proof {
                let t = s@.subrange(i as int, j as int);
                assert(t.len() > 0);
                assert(t.last() == s@[j - 1]);
            }
            break;
        }
        proof {
            lemma_trim_back_step(s@, i as int, j as int);
        }
        j -= 1;
    }
    s.substring_char(i, j)
}

/// Normalizes a value for comparison: trim surrounding whitespace, lowercase.
pub fn normalize_str(s: &str) -> (r: String)
    ensures
        r@ == norm_of(s@),
{
    to_lowercase_str(trim_str(s))
}

/// Whether two string slices hold the same characters.
pub fn str_eq(a: &str, b: &str) -> (r: bool)
    ensures
        r == (a@ == b@),
{
    let na: usize = a.unicode_len();
    let nb: usize = b.unicode_len();
    if na != nb {
        proof {
            assert(a@.len() != b@.len());
        }
        return false;
    }
    let mut i: usize = 0;
    loop
        invariant_except_break
            i <= na,
            na == a@.len(),
            nb == b@.len(),
            na == nb,
            forall|k: int| 0 <= k < i ==> a@[k] == b@[k],
        ensures
            a@.len() == b@.len(),
            forall|k: int| 0 <= k < a@.len() ==> a@[k] == b@[k],
        decreases na - i,
    {
        if i >= na {
            break;
        }
        let ca: u32 = a.get_char(i) as u32;
        let cb: u32 = b.get_char(i) as u32;
        if ca != cb {
            return false;
        }
        proof {
            vstd::utf8::char_u32_cast(a@[i as int], ca);
            vstd::utf8::char_u32_cast(b@[i as int], cb);
        }
        i += 1;
    }
    proof {
        assert(a@ =~= b@);
    }
    true
}

/// Lexicographic order on character sequences by Unicode scalar value; a
/// proper prefix comes first. This is the order `str` comparison uses.
pub open spec fn lex_lt(a: Seq<char>, b: Seq<char>) -> bool
    decreases a.len(),
{
    if b.len() == 0 {
        false
    } else if a.len() == 0 {
        true
    } else if a[0] == b[0] {
        lex_lt(a.drop_first(), b.drop_first())
    } else {
        (a[0] as u32) < (b[0] as u32)
    }
}

/// Non-strict lexicographic order on character sequences.
pub open spec fn lex_le(a: Seq<char>, b: Seq<char>) -> bool {
    lex_lt(a, b) || a == b
}

proof fn lemma_lex_lt_step(a: Seq<char>, b: Seq<char>, i: int)
    requires
        0 <= i < a.len(),
        i < b.len(),
        a[i] == b[i],
    ensures
        lex_lt(a.skip(i), b.skip(i)) == lex_lt(a.skip(i + 1), b.skip(i + 1)),
{
    assert(a.skip(i).len() > 0);
    assert(b.skip(i).len() > 0);
    assert(a.skip(i)[0] == a[i]);
    assert(b.skip(i)[0] == b[i]);
    assert(a.skip(i).drop_first() =~= a.skip(i + 1));
    assert(b.skip(i).drop_first() =~= b.skip(i + 1));
}

/// Whether `a` comes strictly before `b` in lexicographic order.
pub fn str_lt(a: &str, b: &str) -> (r: bool)
    ensures
        r == lex_lt(a@, b@),
{
    let na: usize = a.unicode_len();
    let nb: usize = b.unicode_len();
    proof {
        assert(a@.skip(0) =~= a@);
        assert(b@.skip(0) =~= b@);
    }
    let mut i: usize = 0;
    loop
        invariant
            i <= na,
            i <= nb,
            na == a@.len(),
            nb == b@.len(),
            lex_lt(a@, b@) == lex_lt(a@.skip(i as int), b@.skip(i as int)),
        decreases na - i,
    {
        if i >= nb {
            proof {
                assert(b@.skip(i as int).len() == 0);
            }
            return false;
        }
        if i >= na {
            proof {
                assert(a@.skip(i as int).len() == 0);
                assert(b@.skip(i as int).len() > 0);
            }
            return true;
        }
        let ca: u32 = a.get_char(i) as u32;
        let cb: u32 = b.get_char(i) as u32;
        proof {
            vstd::utf8::char_u32_cast(a@[i as int], ca);
            vstd::utf8::char_u32_cast(b@[i as int], cb);
            assert(a@.skip(i as int)[0] == a@[i as int]);
            assert(b@.skip(i as int)[0] == b@[i as int]);
        }
        if ca < cb {
            proof {
                assert(a@[i as int] != b@[i as int]);
            }
            return true;
        }
        if cb < ca {
            proof {
                assert(a@[i as int] != b@[i as int]);
            }
            return false;
        }
        proof {
            assert(a@[i as int] == b@[i as int]);
            lemma_lex_lt_step(a@, b@, i as int);
        }
        i += 1;
    }
}

/// Whether `a` comes before `b` or equals it in lexicographic order.
pub fn str_le(a: &str, b: &str) -> (r: bool)
    ensures
        r == lex_le(a@, b@),
{
    if str_lt(a, b) {
        true
    } else {
        str_eq(a, b)
    }
}

/// Whether `needle` occurs as a contiguous run of characters inside
/// `haystack`; an empty needle always occurs.
pub open spec fn has_substr(haystack: Seq<char>, needle: Seq<char>) -> bool {
    exists|k: int|
        0 <= k <= haystack.len() - needle.len() && #[trigger] haystack.subrange(
            k,
            k + needle.len(),
        ) == needle
}

fn match_at(h: &str, n: &str, k: usize, hn: usize, nn: usize) -> (r: bool)
    requires
        hn == h@.len(),
        nn == n@.len(),
        k + nn <= hn,
    ensures
        r == (h@.subrange(k as int, k as int + n@.len()) == n@),
{
    let mut j: usize = 0;
    while j < nn
        invariant
            j <= nn,
            hn == h@.len(),
            nn == n@.len(),
            k + nn <= hn,
            forall|t: int| 0 <= t < j ==> h@[k + t] == n@[t],
        decreases nn - j,
    {
        let ch: u32 = h.get_char(k + j) as u32;
        let cn: u32 = n.get_char(j) as u32;
        proof {
            vstd::utf8::char_u32_cast(h@[k as int + j as int], ch);
            vstd::utf8::char_u32_cast(n@[j as int], cn);
        }
        if ch != cn {
            proof {
                assert(h@[k + j] != n@[j as int]);
                let sub = h@.subrange(k as int, k as int + nn as int);
                assert(sub[j as int] == h@[k + j]);
            }
            return false;
        }
        j += 1;
    }
    proof {
        assert(h@.subrange(k as int, k as int + nn as int) =~= n@);
    }
    true
}

/// Whether `needle` occurs as a substring of `haystack`.
pub fn str_contains_sub(haystack: &str, needle: &str) -> (r: bool)
    ensures
        r == has_substr(haystack@, needle@),
{
    let hn: usize = haystack.unicode_len();
    let nn: usize = needle.unicode_len();
    if nn > hn {
        return false;
    }
    if nn == 0 {
        proof {
            assert(haystack@.subrange(0, 0 + needle@.len() as int) =~= needle@);
            assert(has_substr(haystack@, needle@));
        }
        return true;
    }
    let mut k: usize = 0;
    loop
        invariant_except_break
            k <= hn - nn + 1,
            hn == haystack@.len(),
            nn == needle@.len(),
            1 <= nn <= hn,
            forall|k2: int|
                0 <= k2 < k ==> #[trigger] haystack@.subrange(k2, k2 + needle@.len())
                    != needle@,
        ensures
            hn == haystack@.len(),
            nn == needle@.len(),
            forall|k2: int|
                0 <= k2 <= hn - nn ==> #[trigger] haystack@.subrange(k2, k2 + needle@.len())
                    != needle@,
        decreases hn - nn + 1 - k,
    {
        if k > hn - nn {
            break;
        }
        if match_at(haystack, needle, k, hn, nn) {
            return true;
        }
        k += 1;
    }
    false
}

/// The character standing for one decimal digit.
pub open spec fn dec_digit(d: int) -> char {
    if d == 0 {
        '0'
    } else if d == 1 {
        '1'
    } else if d == 2 {
        '2'
    } else if d == 3 {
        '3'
    } else if d == 4 {
        '4'
    } else if d == 5 {
        '5'
    } else if d == 6 {
        '6'
    } else if d == 7 {
        '7'
    } else if d == 8 {
        '8'
    } else {
        '9'
    }
}

/// The decimal rendering of a number, most significant digit first.
pub open spec fn dec_str(n: nat) -> Seq<char>
    decreases n,
{
    if n < 10 {
        seq![dec_digit(n as int)]
    } else {
        dec_str(n / 10).push(dec_digit((n % 10) as int))
    }
}

fn digit_str(d: usize) -> (r: &'static str)
    requires
        d < 10,
    ensures
        r@ == seq![dec_digit(d as int)],
{
    proof {
        reveal_strlit("0");
        reveal_strlit("1");
        reveal_strlit("2");
        reveal_strlit("3");
        reveal_strlit("4");
        reveal_strlit("5");
        reveal_strlit("6");
        reveal_strlit("7");
        reveal_strlit("8");
        reveal_strlit("9");
    }
    match d {
        0 => "0",
        1 => "1",
        2 => "2",
        3 => "3",
        4 => "4",
        5 => "5",
        6 => "6",
        7 => "7",
        8 => "8",
        _ => "9",
    }
}

/// Renders a number in decimal.
pub fn usize_to_string(n: usize) -> (r: String)
    ensures
        r@ == dec_str(n as nat),
    decreases n,
{
    let d: usize = n % 10;
    let ds: &str = digit_str(d);
    if n < 10 {
        ds.to_owned()
    } else {
        let mut pre = usize_to_string(n / 10);
        pre.append(ds);
        pre
    }
}

/// The rendering of a boolean as text.
pub open spec fn bool_str(b: bool) -> Seq<char> {
    if b {
        "true"@
    } else {
        "false"@
    }
}

/// Renders a boolean as text.
pub fn bool_to_string(b: bool) -> (r: String)
    ensures
        r@ == bool_str(b),
{
    if b {
        "true".to_owned()
    } else {
        "false".to_owned()
    }
}

} // verus!
