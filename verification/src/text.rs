//! Character-sequence utilities shared by the query compiler, the query
//! executor and the document store: lexicographic order, searching,
//! splitting, trimming and joining.

use vstd::prelude::*;
use vstd::string::*;

verus! {

/// Lexicographic order on character sequences by Unicode scalar value:
/// the order the storage layer uses for `sourcedId` pagination and the
/// executor uses for sorting and range comparisons.
pub open spec fn lex_le(a: Seq<char>, b: Seq<char>) -> bool
    decreases a.len(),
{
    if a.len() == 0 {
        true
    } else if b.len() == 0 {
        false
    } else if a[0] != b[0] {
        a[0] < b[0]
    } else {
        lex_le(a.skip(1), b.skip(1))
    }
}

/// Strict lexicographic order.
pub open spec fn lex_lt(a: Seq<char>, b: Seq<char>) -> bool {
    lex_le(a, b) && a != b
}

pub proof fn lemma_lex_le_refl(a: Seq<char>)
    ensures
        lex_le(a, a),
    decreases a.len(),
{
    if a.len() > 0 {
        lemma_lex_le_refl(a.skip(1));
    }
}

pub proof fn lemma_lex_le_total(a: Seq<char>, b: Seq<char>)
    ensures
        lex_le(a, b) || lex_le(b, a),
    decreases a.len(),
{
    if a.len() > 0 && b.len() > 0 && a[0] == b[0] {
        lemma_lex_le_total(a.skip(1), b.skip(1));
    }
}

pub proof fn lemma_lex_le_antisymm(a: Seq<char>, b: Seq<char>)
    requires
        lex_le(a, b),
        lex_le(b, a),
    ensures
        a == b,
    decreases a.len(),
{
    if a.len() == 0 {
        assert(b.len() == 0);
        assert(a =~= b);
    } else {
        assert(b.len() > 0);
        assert(a[0] == b[0]);
        lemma_lex_le_antisymm(a.skip(1), b.skip(1));
        assert(a =~= seq![a[0]] + a.skip(1));
        assert(b =~= seq![b[0]] + b.skip(1));
    }
}

pub proof fn lemma_lex_le_trans(a: Seq<char>, b: Seq<char>, c: Seq<char>)
    requires
        lex_le(a, b),
        lex_le(b, c),
    ensures
        lex_le(a, c),
    decreases a.len(),
{
    if a.len() > 0 && b.len() > 0 && c.len() > 0 {
        if a[0] == b[0] && b[0] == c[0] {
            lemma_lex_le_trans(a.skip(1), b.skip(1), c.skip(1));
        }
    }
}

/// Compares two strings in the order of [`lex_le`].
pub fn str_le(a: &str, b: &str) -> (r: bool)
    ensures
        r == lex_le(a@, b@),
{
    let alen = a.unicode_len();
    let blen = b.unicode_len();
    let mut i: usize = 0;
    proof {
        assert(a@.skip(0) =~= a@);
        assert(b@.skip(0) =~= b@);
    }
    loop
        invariant
            i <= alen,
            i <= blen,
            alen == a@.len(),
            blen == b@.len(),
            lex_le(a@, b@) == lex_le(a@.skip(i as int), b@.skip(i as int)),
        decreases alen - i,
    {
        if i == alen {
            assert(a@.skip(i as int).len() == 0);
            return true;
        }
        if i == blen {
            assert(b@.skip(i as int).len() == 0);
            assert(a@.skip(i as int).len() > 0);
            return false;
        }
        let ca = a.get_char(i);
        let cb = b.get_char(i);
        assert(a@.skip(i as int)[0] == a@[i as int]);
        assert(b@.skip(i as int)[0] == b@[i as int]);
        if ca != cb {
            return ca < cb;
        }
        assert(a@.skip(i as int).skip(1) =~= a@.skip(i + 1));
        assert(b@.skip(i as int).skip(1) =~= b@.skip(i + 1));
        i = i + 1;
    }
}

pub proof fn lemma_lex_lt_trans(a: Seq<char>, b: Seq<char>, c: Seq<char>)
    requires
        lex_lt(a, b),
        lex_lt(b, c),
    ensures
        lex_lt(a, c),
{
    lemma_lex_le_trans(a, b, c);
    if a == c {
        lemma_lex_le_antisymm(a, b);
    }
}

/// Strict order is the complement of the reverse weak order.
pub proof fn lemma_lex_lt_not_le(a: Seq<char>, b: Seq<char>)
    ensures
        lex_lt(a, b) <==> !lex_le(b, a),
{
    lemma_lex_le_total(a, b);
    if lex_le(a, b) && lex_le(b, a) {
        lemma_lex_le_antisymm(a, b);
    }
    if a == b {
        lemma_lex_le_refl(a);
    }
}

/// Index of the first occurrence of `c` in `s`, or `s.len()` when `c` does
/// not occur.
pub open spec fn find_char(s: Seq<char>, c: char) -> int
    decreases s.len(),
{
    if s.len() == 0 {
        0
    } else if s[0] == c {
        0
    } else {
        1 + find_char(s.skip(1), c)
    }
}

pub proof fn lemma_find_char_props(s: Seq<char>, c: char)
    ensures
        0 <= find_char(s, c) <= s.len(),
        find_char(s, c) < s.len() ==> s[find_char(s, c)] == c,
        forall|j: int| 0 <= j < find_char(s, c) ==> s[j] != c,
    decreases s.len(),
{
    if s.len() > 0 && s[0] != c {
        lemma_find_char_props(s.skip(1), c);
        assert forall|j: int| 0 <= j < find_char(s, c) implies s[j] != c by {
            if j > 0 {
                assert(s.skip(1)[j - 1] == s[j]);
            }
        }
    }
}

/// `find_char` returns the one index before which `c` never occurs.
pub proof fn lemma_find_char_unique(s: Seq<char>, c: char, i: int)
    requires
        0 <= i <= s.len(),
        forall|j: int| 0 <= j < i ==> s[j] != c,
        i < s.len() ==> s[i] == c,
    ensures
        find_char(s, c) == i,
    decreases s.len(),
{
    if s.len() > 0 {
        if i == 0 {
        } else {
            assert(s[0] != c);
            assert forall|j: int| 0 <= j < i - 1 implies s.skip(1)[j] != c by {
                assert(s.skip(1)[j] == s[j + 1]);
            }
            assert(i - 1 < s.skip(1).len() ==> s.skip(1)[i - 1] == c);
            lemma_find_char_unique(s.skip(1), c, i - 1);
        }
    }
}

/// Finds the first occurrence of `c`, returning `s.len()` when absent.
pub fn find_char_in(s: &str, c: char) -> (i: usize)
    ensures
        i == find_char(s@, c),
{
    let len = s.unicode_len();
    let mut i: usize = 0;
    loop
        invariant
            i <= len,
            len == s@.len(),
            forall|j: int| 0 <= j < i ==> s@[j] != c,
        decreases len - i,
    {
        if i == len {
            proof {
                lemma_find_char_unique(s@, c, i as int);
            }
            return i;
        }
        if s.get_char(i) == c {
            proof {
                lemma_find_char_unique(s@, c, i as int);
            }
            return i;
        }
        i = i + 1;
    }
}

/// `pat` occurs in `h` starting at index `i`.
pub open spec fn matches_at(h: Seq<char>, i: int, pat: Seq<char>) -> bool {
    0 <= i && i + pat.len() <= h.len() && h.subrange(i, i + pat.len()) == pat
}

/// Tests whether `pat` occurs in `h` at index `i`.
pub fn match_at(h: &str, i: usize, pat: &str) -> (r: bool)
    requires
        i <= h@.len(),
    ensures
        r == matches_at(h@, i as int, pat@),
{
    let hlen = h.unicode_len();
    let plen = pat.unicode_len();
    if plen > hlen - i {
        assert(i + pat@.len() > h@.len());
        return false;
    }
    let mut j: usize = 0;
    loop
        invariant
            j <= plen,
            i + plen <= hlen,
            hlen == h@.len(),
            plen == pat@.len(),
            i + j <= hlen,
            forall|k: int| 0 <= k < j ==> h@[i + k] == pat@[k],
        decreases plen - j,
    {
        if j == plen {
            proof {
                assert(h@.subrange(i as int, i + pat@.len()) =~= pat@);
            }
            return true;
        }
        if h.get_char(i + j) != pat.get_char(j) {
            proof {
                assert(h@.subrange(i as int, i + pat@.len())[j as int] == h@[i + j]);
            }
            return false;
        }
        j = j + 1;
    }
}

/// `n` occurs somewhere in `h` as a contiguous subsequence.
pub open spec fn contains_seq(h: Seq<char>, n: Seq<char>) -> bool {
    exists|i: int| matches_at(h, i, n)
}

/// Substring search: does `n` occur anywhere in `h`?
pub fn str_contains(h: &str, n: &str) -> (r: bool)
    ensures
        r == contains_seq(h@, n@),
{
    let hlen = h.unicode_len();
    let nlen = n.unicode_len();
    if nlen > hlen {
        assert(forall|i: int| !matches_at(h@, i, n@));
        return false;
    }
    let mut i: usize = 0;
    loop
        invariant
            i <= hlen - nlen,
            nlen <= hlen,
            hlen == h@.len(),
            nlen == n@.len(),
            forall|k: int| 0 <= k < i ==> !matches_at(h@, k, n@),
        decreases hlen - i,
    {
        if match_at(h, i, n) {
            assert(matches_at(h@, i as int, n@));
            return true;
        }
        if i == hlen - nlen {
            assert(forall|k: int| k > hlen - nlen ==> !matches_at(h@, k, n@));
            return false;
        }
        i = i + 1;
    }
}

/// The comma-split of `s`: splitting the empty sequence gives one empty
/// segment, and every delimiter separates two segments.
pub open spec fn split_char(s: Seq<char>, c: char) -> Seq<Seq<char>>
    decreases s.len(),
    via split_char_decreases
{
    let f = find_char(s, c);
    if f == s.len() {
        seq![s]
    } else {
        seq![s.subrange(0, f)] + split_char(s.skip(f + 1), c)
    }
}

#[via_fn]
proof fn split_char_decreases(s: Seq<char>, c: char) {
    lemma_find_char_props(s, c);
}

/// Splits `s` on every occurrence of `c`.
pub fn split_str(s: &str, c: char) -> (r: Vec<String>)
    ensures
        r@.len() == split_char(s@, c).len(),
        forall|i: int| 0 <= i < r@.len() ==> r@[i]@ == split_char(s@, c)[i],
    decreases s@.len(),
{
    proof {
        lemma_find_char_props(s@, c);
    }
    let len = s.unicode_len();
    let f = find_char_in(s, c);
    if f == len {
        let mut r: Vec<String> = Vec::new();
        r.push(s.to_owned());
        r
    } else {
        let head = s.substring_char(0, f).to_owned();
        let tail = s.substring_char(f + 1, len);
        assert(tail@ == s@.skip(f + 1));
        let mut r = split_str(tail, c);
        r.insert(0, head);
        r
    }
}

/// A space, tab, carriage return or line feed: what [`trim_spec`] removes
/// from the ends of a filter literal.
pub open spec fn is_space(c: char) -> bool {
    c == ' ' || c == '\t' || c == '\n' || c == '\r'
}

pub open spec fn trim_front(s: Seq<char>) -> Seq<char>
    decreases s.len(),
{
    if s.len() > 0 && is_space(s[0]) {
        trim_front(s.skip(1))
    } else {
        s
    }
}

pub open spec fn trim_back(s: Seq<char>) -> Seq<char>
    decreases s.len(),
{
    if s.len() > 0 && is_space(s[s.len() - 1]) {
        trim_back(s.take(s.len() - 1))
    } else {
        s
    }
}

/// `s` without leading and trailing whitespace.
pub open spec fn trim_spec(s: Seq<char>) -> Seq<char> {
    trim_back(trim_front(s))
}

proof fn lemma_trim_front_at(s: Seq<char>, i: int)
    requires
        0 <= i <= s.len(),
        forall|j: int| 0 <= j < i ==> is_space(s[j]),
        i < s.len() ==> !is_space(s[i]),
    ensures
        trim_front(s) == s.skip(i),
    decreases s.len(),
{
    if i == 0 {
        assert(s.skip(0) =~= s);
    } else {
        assert(is_space(s[0]));
        assert forall|j: int| 0 <= j < i - 1 implies is_space(s.skip(1)[j]) by {
            assert(s.skip(1)[j] == s[j + 1]);
        }
        assert(i - 1 < s.skip(1).len() ==> s.skip(1)[i - 1] == s[i as int]);
        lemma_trim_front_at(s.skip(1), i - 1);
        assert(s.skip(1).skip(i - 1) =~= s.skip(i));
    }
}

proof fn lemma_trim_back_at(s: Seq<char>, e: int)
    requires
        0 <= e <= s.len(),
        forall|j: int| e <= j < s.len() ==> is_space(s[j]),
        e > 0 ==> !is_space(s[e - 1]),
    ensures
        trim_back(s) == s.take(e),
    decreases s.len(),
{
    if e == s.len() {
        if s.len() > 0 && is_space(s[s.len() - 1]) {
            assert(!is_space(s[e - 1]));
            assert(false);
        }
        assert(s.take(e) =~= s);
    } else {
        assert(is_space(s[s.len() - 1]));
        let t = s.take(s.len() - 1);
        assert forall|j: int| e <= j < t.len() implies is_space(t[j]) by {
            assert(t[j] == s[j]);
        }
        assert(e > 0 ==> t[e - 1] == s[e - 1]);
        lemma_trim_back_at(t, e);
        assert(t.take(e) =~= s.take(e));
    }
}

/// Tests whether the character of `s` at `i` is whitespace.
fn space_at(s: &str, i: usize) -> (r: bool)
    requires
        i < s@.len(),
    ensures
        r == is_space(s@[i as int]),
{
    let ch = s.get_char(i);
    ch == ' ' || ch == '\t' || ch == '\n' || ch == '\r'
}

/// Removes leading and trailing whitespace.
pub fn trim(s: &str) -> (r: String)
    ensures
        r@ == trim_spec(s@),
{
    let len = s.unicode_len();
    let mut start: usize = 0;
    while start < len && space_at(s, start)
        invariant
            start <= len,
            len == s@.len(),
            forall|j: int| 0 <= j < start ==> is_space(s@[j]),
        decreases len - start,
    {
        start = start + 1;
    }
    proof {
        lemma_trim_front_at(s@, start as int);
    }
    let mut end: usize = len;
    while end > start && space_at(s, end - 1)
        invariant
            start <= end <= len,
            len == s@.len(),
            forall|j: int| end <= j < len ==> is_space(s@[j]),
        decreases end,
    {
        end = end - 1;
    }
    let r = s.substring_char(start, end).to_owned();
    proof {
        let t = s@.skip(start as int);
        assert forall|j: int| end - start <= j < t.len() implies is_space(t[j]) by {
            assert(t[j] == s@[start + j]);
        }
        if end > start {
            assert(!is_space(s@[end - 1]));
            assert(t[end - start - 1] == s@[end - 1]);
        }
        lemma_trim_back_at(t, end - start);
        assert(t.take(end - start) =~= s@.subrange(start as int, end as int));
    }
    r
}

/// The views of a vector of strings.
pub open spec fn str_views(v: Seq<String>) -> Seq<Seq<char>> {
    v.map_values(|s: String| s@)
}

/// The members of `xs` joined with a single space between neighbours.
pub open spec fn join_spaces(xs: Seq<Seq<char>>) -> Seq<char>
    decreases xs.len(),
{
    if xs.len() == 0 {
        Seq::empty()
    } else if xs.len() == 1 {
        xs[0]
    } else {
        xs[0] + seq![' '] + join_spaces(xs.skip(1))
    }
}

proof fn lemma_join_spaces_snoc(xs: Seq<Seq<char>>, y: Seq<char>)
    ensures
        join_spaces(xs.push(y)) == if xs.len() == 0 {
            y
        } else {
            join_spaces(xs) + seq![' '] + y
        },
    decreases xs.len(),
{
    if xs.len() == 0 {
        assert(xs.push(y)[0] == y);
        assert(xs.push(y).len() == 1);
    } else if xs.len() == 1 {
        let p = xs.push(y);
        assert(p.len() == 2);
        assert(p[0] == xs[0]);
        assert(p.skip(1) =~= seq![y]);
        assert(join_spaces(p.skip(1)) == y);
    } else {
        let p = xs.push(y);
        assert(p.skip(1) =~= xs.skip(1).push(y));
        lemma_join_spaces_snoc(xs.skip(1), y);
        assert(p[0] == xs[0]);
    }
}

/// Joins strings with single spaces, as a resolved scope set is rendered.
pub fn join_with_spaces(v: &Vec<String>) -> (r: String)
    ensures
        r@ == join_spaces(str_views(v@)),
{
    let ghost views = str_views(v@);
    let mut r = String::new();
    let mut i: usize = 0;
    proof {
        assert(views.take(0) =~= Seq::<Seq<char>>::empty());
    }
    while i < v.len()
        invariant
            i <= v.len(),
            views == v@.map_values(|x: String| x@),
            views.len() == v@.len(),
            r@ == join_spaces(views.take(i as int)),
        decreases v.len() - i,
    {
        if i > 0 {
            r.append(" ");
        }
        r.append(v[i].as_str());
        proof {
            reveal_strlit(" ");
            assert(views.take(i as int).push(views[i as int]) =~= views.take(i + 1));
            lemma_join_spaces_snoc(views.take(i as int), views[i as int]);
        }
        i = i + 1;
    }
    proof {
        assert(views.take(v@.len() as int) =~= views);
    }
    r
}

/// String equality through the two directions of [`lex_le`].
pub fn str_eq(a: &str, b: &str) -> (r: bool)
    ensures
        r == (a@ == b@),
{
    let le1 = str_le(a, b);
    let le2 = str_le(b, a);
    proof {
        if le1 && le2 {
            lemma_lex_le_antisymm(a@, b@);
        }
        if a@ == b@ {
            lemma_lex_le_refl(a@);
        }
    }
    le1 && le2
}

} // verus!
