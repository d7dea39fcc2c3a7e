//! Character-sequence primitives: first / last occurrence of a character,
//! substring search, line splitting, whitespace tokenisation and
//! lexicographic comparison.  Every executable function is proved against a
//! direct specification over `Seq<char>` views.

use vstd::prelude::*;

verus! {

/// Index of the first occurrence of `d` in `s`, or `s.len()` if `d` does not
/// occur.
pub open spec fn first_index_of_spec(s: Seq<char>, d: char) -> int
    decreases s.len(),
{
    if s.len() == 0 {
        0
    } else if s[0] == d {
        0
    } else {
        1 + first_index_of_spec(s.drop_first(), d)
    }
}

pub proof fn lemma_first_index_of(s: Seq<char>, d: char)
    ensures
        0 <= first_index_of_spec(s, d) <= s.len(),
        first_index_of_spec(s, d) < s.len() ==> s[first_index_of_spec(s, d)] == d,
        forall|j: int| 0 <= j < first_index_of_spec(s, d) ==> s[j] != d,
    decreases s.len(),
{
    if s.len() == 0 {
    } else if s[0] == d {
    } else {
        lemma_first_index_of(s.drop_first(), d);
        assert forall|j: int| 0 <= j < first_index_of_spec(s, d) implies s[j] != d by {
            if j > 0 {
                assert(s.drop_first()[j - 1] == s[j]);
            }
        }
    }
}

/// First index at or after which `d` occurs, found by a left-to-right scan.
pub fn first_index_of(s: &str, d: char) -> (r: usize)
    ensures
        r == first_index_of_spec(s@, d),
{
    let n = s.unicode_len();
    let mut i: usize = 0;
    while i < n
        invariant
            0 <= i <= n,
            n == s@.len(),
            forall|j: int| 0 <= j < i ==> s@[j] != d,
        decreases n - i,
    {
        if s.get_char(i) == d {
            proof {
                lemma_first_index_of(s@, d);
            }
            return i;
        }
        i = i + 1;
    }
    proof {
        lemma_first_index_of(s@, d);
    }
    i
}

/// Index of the last occurrence of `d` in `s`, or `-1` if `d` does not occur.
pub open spec fn last_index_of_spec(s: Seq<char>, d: char) -> int
    decreases s.len(),
{
    if s.len() == 0 {
        -1
    } else if s[s.len() - 1] == d {
        s.len() - 1
    } else {
        last_index_of_spec(s.drop_last(), d)
    }
}

pub proof fn lemma_last_index_of(s: Seq<char>, d: char)
    ensures
        -1 <= last_index_of_spec(s, d) < s.len(),
        last_index_of_spec(s, d) >= 0 ==> s[last_index_of_spec(s, d)] == d,
        forall|j: int| last_index_of_spec(s, d) < j < s.len() ==> s[j] != d,
    decreases s.len(),
{
    if s.len() == 0 {
    } else if s[s.len() - 1] == d {
    } else {
        lemma_last_index_of(s.drop_last(), d);
        assert forall|j: int| last_index_of_spec(s, d) < j < s.len() implies s[j] != d by {
            if j < s.len() - 1 {
                assert(s.drop_last()[j] == s[j]);
            }
        }
    }
}

/// Index of the last occurrence of `d`, found by a right-to-left scan, or
/// `None` when `d` does not occur.
pub fn last_index_of(s: &str, d: char) -> (r: Option<usize>)
    ensures
        match r {
            Some(i) => i == last_index_of_spec(s@, d),
            None => last_index_of_spec(s@, d) == -1,
        },
{
    let n = s.unicode_len();
    let mut i: usize = n;
    while i > 0
        invariant
            0 <= i <= n,
            n == s@.len(),
            forall|j: int| i <= j < n ==> s@[j] != d,
        decreases i,
    {
        i = i - 1;
        if s.get_char(i) == d {
            proof {
                lemma_last_index_of(s@, d);
            }
            return Some(i);
        }
    }
    proof {
        lemma_last_index_of(s@, d);
    }
    None
}

/// Distinct characters have distinct code points.
pub proof fn lemma_char_code_injective(x: char, y: char)
    ensures
        x != y ==> (x as u32) != (y as u32),
{
    if (x as u32) == (y as u32) {
        vstd::utf8::char_u32_cast(x, x as u32);
        vstd::utf8::char_u32_cast(y, y as u32);
    }
}

/// Strict lexicographic order on character sequences, by code point.
pub open spec fn chars_lt(a: Seq<char>, b: Seq<char>) -> bool
    decreases a.len(),
{
    if b.len() == 0 {
        false
    } else if a.len() == 0 {
        true
    } else if a[0] != b[0] {
        (a[0] as u32) < (b[0] as u32)
    } else {
        chars_lt(a.drop_first(), b.drop_first())
    }
}

pub proof fn lemma_chars_lt_irrefl(a: Seq<char>)
    ensures
        !chars_lt(a, a),
    decreases a.len(),
{
    if a.len() > 0 {
        lemma_chars_lt_irrefl(a.drop_first());
    }
}

pub proof fn lemma_chars_lt_asym(a: Seq<char>, b: Seq<char>)
    ensures
        chars_lt(a, b) ==> !chars_lt(b, a),
    decreases a.len(),
{
    if a.len() > 0 && b.len() > 0 && a[0] == b[0] {
        lemma_chars_lt_asym(a.drop_first(), b.drop_first());
    }
}

pub proof fn lemma_chars_lt_total(a: Seq<char>, b: Seq<char>)
    ensures
        chars_lt(a, b) || chars_lt(b, a) || a == b,
    decreases a.len(),
{
    if a.len() == 0 && b.len() == 0 {
        assert(a =~= b);
    } else if a.len() > 0 && b.len() > 0 && a[0] == b[0] {
        lemma_chars_lt_total(a.drop_first(), b.drop_first());
        if a.drop_first() == b.drop_first() {
            assert(a.drop_first().len() == b.drop_first().len());
            assert(a.len() == b.len());
            assert forall|i: int| 0 <= i < a.len() implies a[i] == b[i] by {
                if i > 0 {
                    assert(a.drop_first()[i - 1] == a[i]);
                    assert(b.drop_first()[i - 1] == b[i]);
                }
            }
            assert(a =~= b);
        }
    } else if a.len() > 0 && b.len() > 0 && a[0] != b[0] {
        lemma_char_code_injective(a[0], b[0]);
    }
}

pub proof fn lemma_chars_lt_trans(a: Seq<char>, b: Seq<char>, c: Seq<char>)
    ensures
        chars_lt(a, b) && chars_lt(b, c) ==> chars_lt(a, c),
    decreases a.len() + b.len() + c.len(),
{
    if chars_lt(a, b) && chars_lt(b, c) {
        if a.len() == 0 {
        } else if b.len() > 0 && c.len() > 0 {
            if a[0] == b[0] && b[0] == c[0] {
                lemma_chars_lt_trans(a.drop_first(), b.drop_first(), c.drop_first());
            }
        }
    }
}

/// Result of a three-way character-sequence comparison.
pub enum CharsOrd {
    Less,
    Equal,
    Greater,
}

/// Three-way lexicographic comparison of two string slices.
pub fn str_cmp(a: &str, b: &str) -> (r: CharsOrd)
    ensures
        (r == CharsOrd::Less) <==> chars_lt(a@, b@),
        (r == CharsOrd::Greater) <==> chars_lt(b@, a@),
        (r == CharsOrd::Equal) <==> (a@ == b@),
    decreases a@.len(),
{
    let an = a.unicode_len();
    let bn = b.unicode_len();
    if an == 0 && bn == 0 {
        proof {
            assert(a@ =~= b@);
        }
        CharsOrd::Equal
    } else if bn == 0 {
        CharsOrd::Greater
    } else if an == 0 {
        CharsOrd::Less
    } else {
        let ca = a.get_char(0);
        let cb = b.get_char(0);
        if ca != cb {
            proof {
                lemma_char_code_injective(ca, cb);
            }
            if (ca as u32) < (cb as u32) {
                CharsOrd::Less
            } else {
                CharsOrd::Greater
            }
        } else {
            let ta = a.substring_char(1, an);
            let tb = b.substring_char(1, bn);
            proof {
                assert(ta@ =~= a@.drop_first());
                assert(tb@ =~= b@.drop_first());
            }
            let r = str_cmp(ta, tb);
            proof {
                if ta@ == tb@ {
                    assert forall|i: int| 0 <= i < a@.len() implies a@[i] == b@[i] by {
                        if i > 0 {
                            assert(a@.drop_first()[i - 1] == a@[i]);
                            assert(b@.drop_first()[i - 1] == b@[i]);
                        }
                    }
                    assert(a@ =~= b@);
                } else {
                    assert(a@ != b@) by {
                        if a@ == b@ {
                            assert(a@.drop_first() =~= b@.drop_first());
                        }
                    }
                }
            }
            r
        }
    }
}

/// Equality of two string slices, decided by comparison.
pub fn str_eq(a: &str, b: &str) -> (r: bool)
    ensures
        r <==> (a@ == b@),
{
    match str_cmp(a, b) {
        CharsOrd::Equal => true,
        _ => false,
    }
}

/// `p` occurs in `s` starting at index `i`.
pub open spec fn matches_at(s: Seq<char>, p: Seq<char>, i: int) -> bool {
    0 <= i && i + p.len() <= s.len() && s.subrange(i, i + p.len() as int) == p
}

/// `p` occurs somewhere in `s`.
pub open spec fn has_sub(s: Seq<char>, p: Seq<char>) -> bool {
    exists|i: int| matches_at(s, p, i)
}

/// Index of the first occurrence of `p` in `s`; `s.len()` when `p` is absent.
pub open spec fn first_match_of(s: Seq<char>, p: Seq<char>) -> int
    decreases s.len(),
{
    if p.len() <= s.len() && s.subrange(0, p.len() as int) == p {
        0
    } else if s.len() == 0 {
        0
    } else {
        1 + first_match_of(s.drop_first(), p)
    }
}

proof fn lemma_matches_at_shift(s: Seq<char>, p: Seq<char>, j: int)
    requires
        s.len() > 0,
        0 <= j,
    ensures
        matches_at(s, p, j + 1) <==> matches_at(s.drop_first(), p, j),
{
    if j + 1 + p.len() <= s.len() {
        assert(s.drop_first().subrange(j, j + p.len() as int) =~= s.subrange(
            j + 1,
            j + 1 + p.len() as int,
        ));
    }
}

pub proof fn lemma_first_match_of(s: Seq<char>, p: Seq<char>)
    ensures
        0 <= first_match_of(s, p) <= s.len(),
        forall|j: int| 0 <= j < first_match_of(s, p) ==> !matches_at(s, p, j),
        matches_at(s, p, first_match_of(s, p)) || first_match_of(s, p) == s.len(),
    decreases s.len(),
{
    if p.len() <= s.len() && s.subrange(0, p.len() as int) == p {
    } else if s.len() == 0 {
    } else {
        lemma_first_match_of(s.drop_first(), p);
        let rd = first_match_of(s.drop_first(), p);
        assert forall|j: int| 0 <= j < 1 + rd implies !matches_at(s, p, j) by {
            if j > 0 {
                lemma_matches_at_shift(s, p, j - 1);
            }
        }
        if matches_at(s.drop_first(), p, rd) {
            lemma_matches_at_shift(s, p, rd);
        }
    }
}

/// `p` occurs in `s` at index `i`, decided by character comparison.
pub fn match_at(s: &str, p: &str, i: usize) -> (r: bool)
    requires
        i + p@.len() <= s@.len(),
    ensures
        r == matches_at(s@, p@, i as int),
{
    let n = s.unicode_len();
    let m = p.unicode_len();
    let mut k: usize = 0;
    while k < m
        invariant
            0 <= k <= m,
            m == p@.len(),
            n == s@.len(),
            i + m <= s@.len(),
            forall|t: int| 0 <= t < k ==> s@[i + t] == p@[t],
        decreases m - k,
    {
        if s.get_char(i + k) != p.get_char(k) {
            proof {
                if matches_at(s@, p@, i as int) {
                    assert(s@.subrange(i as int, i + m as int)[k as int] == s@[i + k]);
                }
            }
            return false;
        }
        k = k + 1;
    }
    proof {
        assert(s@.subrange(i as int, i + m as int) =~= p@);
    }
    true
}

/// Index of the first occurrence of `p` in `s`, or `None` when `p` never
/// occurs.
pub fn find_sub(s: &str, p: &str) -> (r: Option<usize>)
    ensures
        match r {
            Some(i) => i == first_match_of(s@, p@) && matches_at(s@, p@, i as int),
            None => !has_sub(s@, p@),
        },
{
    let n = s.unicode_len();
    let m = p.unicode_len();
    if m > n {
        return None;
    }
    if m == 0 {
        proof {
            assert(s@.subrange(0, 0) =~= p@);
            lemma_first_match_of(s@, p@);
        }
        return Some(0);
    }
    let mut i: usize = 0;
    while i <= n - m
        invariant
            0 <= i <= n - m + 1,
            1 <= m <= n,
            n == s@.len(),
            m == p@.len(),
            forall|j: int| 0 <= j < i ==> !matches_at(s@, p@, j),
        decreases n - i,
    {
        if match_at(s, p, i) {
            proof {
                lemma_first_match_of(s@, p@);
            }
            return Some(i);
        }
        i = i + 1;
    }
    proof {
        assert forall|j: int| !matches_at(s@, p@, j) by {
            if 0 <= j <= n - m {
                assert(!matches_at(s@, p@, j));
            }
        }
    }
    None
}

/// The character views of a sequence of strings.
pub open spec fn str_views(v: Seq<String>) -> Seq<Seq<char>> {
    v.map_values(|x: String| x@)
}

/// Split `s` at every occurrence of `d`; a sequence of `k` delimiters yields
/// `k + 1` pieces, empty pieces included.
pub open spec fn split_char_spec(s: Seq<char>, d: char) -> Seq<Seq<char>>
    decreases s.len(),
{
    let i = first_index_of_spec(s, d);
    if 0 <= i < s.len() {
        seq![s.subrange(0, i)] + split_char_spec(s.subrange(i + 1, s.len() as int), d)
    } else {
        seq![s]
    }
}

/// Split a string at every occurrence of `d`.
pub fn split_char(s: &str, d: char) -> (r: Vec<String>)
    ensures
        str_views(r@) == split_char_spec(s@, d),
{
    let mut out: Vec<String> = Vec::new();
    let mut rem: &str = s;
    loop
        invariant
            str_views(out@) + split_char_spec(rem@, d) == split_char_spec(s@, d),
        decreases rem@.len(),
    {
        let n = rem.unicode_len();
        let i = first_index_of(rem, d);
        proof {
            lemma_first_index_of(rem@, d);
        }
        if i < n {
            let piece = rem.substring_char(0, i);
            let rest = rem.substring_char(i + 1, n);
            let ghost prev = rem@;
            out.push(piece.to_owned());
            rem = rest;
            proof {
                assert(str_views(out@) =~= str_views(out@.drop_last()).push(piece@));
                assert(str_views(out@) + split_char_spec(rem@, d) =~= str_views(out@.drop_last())
                    + (seq![prev.subrange(0, i as int)] + split_char_spec(
                    prev.subrange(i + 1, prev.len() as int),
                    d,
                )));
            }
        } else {
            out.push(rem.to_owned());
            proof {
                assert(split_char_spec(rem@, d) == seq![rem@]);
                assert(str_views(out@) =~= str_views(out@.drop_last()) + seq![rem@]);
            }
            return out;
        }
    }
}

/// Whitespace, as the tokeniser understands it.
pub open spec fn is_wschar(c: char) -> bool {
    c == ' ' || c == '\t' || c == '\r' || c == '\n'
}

/// Index of the first whitespace character, or `s.len()` if there is none.
pub open spec fn first_ws_spec(s: Seq<char>) -> int
    decreases s.len(),
{
    if s.len() == 0 {
        0
    } else if is_wschar(s[0]) {
        0
    } else {
        1 + first_ws_spec(s.drop_first())
    }
}

pub proof fn lemma_first_ws(s: Seq<char>)
    ensures
        0 <= first_ws_spec(s) <= s.len(),
        first_ws_spec(s) < s.len() ==> is_wschar(s[first_ws_spec(s)]),
        forall|j: int| 0 <= j < first_ws_spec(s) ==> !is_wschar(s[j]),
    decreases s.len(),
{
    if s.len() == 0 || is_wschar(s[0]) {
    } else {
        lemma_first_ws(s.drop_first());
        assert forall|j: int| 0 <= j < first_ws_spec(s) implies !is_wschar(s[j]) by {
            if j > 0 {
                assert(s.drop_first()[j - 1] == s[j]);
            }
        }
    }
}

/// Index of the first non-whitespace character, or `s.len()` if there is
/// none.
pub open spec fn first_non_ws_spec(s: Seq<char>) -> int
    decreases s.len(),
{
    if s.len() == 0 {
        0
    } else if !is_wschar(s[0]) {
        0
    } else {
        1 + first_non_ws_spec(s.drop_first())
    }
}

pub proof fn lemma_first_non_ws(s: Seq<char>)
    ensures
        0 <= first_non_ws_spec(s) <= s.len(),
        first_non_ws_spec(s) < s.len() ==> !is_wschar(s[first_non_ws_spec(s)]),
        forall|j: int| 0 <= j < first_non_ws_spec(s) ==> is_wschar(s[j]),
    decreases s.len(),
{
    if s.len() == 0 || !is_wschar(s[0]) {
    } else {
        lemma_first_non_ws(s.drop_first());
        assert forall|j: int| 0 <= j < first_non_ws_spec(s) implies is_wschar(s[j]) by {
            if j > 0 {
                assert(s.drop_first()[j - 1] == s[j]);
            }
        }
    }
}

fn is_ws_char(c: char) -> (b: bool)
    ensures
        b == is_wschar(c),
{
    c == ' ' || c == '\t' || c == '\r' || c == '\n'
}

fn first_ws(s: &str) -> (r: usize)
    ensures
        r == first_ws_spec(s@),
{
    let n = s.unicode_len();
    let mut i: usize = 0;
    while i < n
        invariant
            0 <= i <= n,
            n == s@.len(),
            forall|j: int| 0 <= j < i ==> !is_wschar(s@[j]),
        decreases n - i,
    {
        if is_ws_char(s.get_char(i)) {
            proof {
                lemma_first_ws(s@);
            }
            return i;
        }
        i = i + 1;
    }
    proof {
        lemma_first_ws(s@);
    }
    i
}

fn first_non_ws(s: &str) -> (r: usize)
    ensures
        r == first_non_ws_spec(s@),
{
    let n = s.unicode_len();
    let mut i: usize = 0;
    while i < n
        invariant
            0 <= i <= n,
            n == s@.len(),
            forall|j: int| 0 <= j < i ==> is_wschar(s@[j]),
        decreases n - i,
    {
        if !is_ws_char(s.get_char(i)) {
            proof {
                lemma_first_non_ws(s@);
            }
            return i;
        }
        i = i + 1;
    }
    proof {
        lemma_first_non_ws(s@);
    }
    i
}

/// The maximal whitespace-free, non-empty pieces of `s`, in order.
pub open spec fn tokens_of(s: Seq<char>) -> Seq<Seq<char>>
    decreases s.len(),
{
    let a = first_non_ws_spec(s);
    if !(0 <= a < s.len()) {
        Seq::empty()
    } else {
        let rest = s.subrange(a, s.len() as int);
        let e = first_ws_spec(rest);
        if e <= 0 {
            seq![rest]
        } else if e >= rest.len() {
            seq![rest]
        } else {
            seq![rest.subrange(0, e)] + tokens_of(rest.subrange(e, rest.len() as int))
        }
    }
}

/// Split a string into its whitespace-separated tokens.
pub fn tokenize(s: &str) -> (r: Vec<String>)
    ensures
        str_views(r@) == tokens_of(s@),
{
    let mut out: Vec<String> = Vec::new();
    let mut rem: &str = s;
    loop
        invariant
            str_views(out@) + tokens_of(rem@) == tokens_of(s@),
        decreases rem@.len(),
    {
        let n = rem.unicode_len();
        let a = first_non_ws(rem);
        proof {
            lemma_first_non_ws(rem@);
        }
        if a >= n {
            proof {
                assert(tokens_of(rem@) == Seq::<Seq<char>>::empty());
                assert(str_views(out@) + tokens_of(rem@) =~= str_views(out@));
            }
            return out;
        }
        let rest = rem.substring_char(a, n);
        let e = first_ws(rest);
        proof {
            lemma_first_ws(rest@);
            assert(!is_wschar(rest@[0]));
            assert(e > 0);
        }
        let m = rest.unicode_len();
        if e >= m {
            let ghost prev = rem@;
            out.push(rest.to_owned());
            proof {
                assert(tokens_of(prev) == seq![rest@]);
                assert(str_views(out@) =~= str_views(out@.drop_last()) + seq![rest@]);
            }
            return out;
        }
        let tok = rest.substring_char(0, e);
        let next = rest.substring_char(e, m);
        let ghost prev = rem@;
        out.push(tok.to_owned());
        rem = next;
        proof {
            assert(tokens_of(prev) == seq![tok@] + tokens_of(rem@));
            assert(str_views(out@) =~= str_views(out@.drop_last()).push(tok@));
            assert(str_views(out@) + tokens_of(rem@) =~= str_views(out@.drop_last()) + (seq![tok@]
                + tokens_of(rem@)));
        }
    }
}

} // verus!
