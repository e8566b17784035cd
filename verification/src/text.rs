//! Character-level text utilities shared by the parser, the formatter and
//! the changelog builder.
//!
//! All logic works on `Vec<char>` / `Seq<char>`; the bridges to `String`
//! and the Unicode character classes of std live here.

use vstd::prelude::*;

verus! {

/// What `char::is_lowercase` returns for a character: the Unicode
/// `Lowercase` property, a function of the character alone.
pub uninterp spec fn char_is_lowercase(c: char) -> bool;

/// Relies on char::is_lowercase: the Unicode `Lowercase` property.
/// ASCII letters `a`-`z` have the property; no other ASCII character does.
#[verifier::external_body]
pub fn is_lowercase_char(c: char) -> (r: bool)
    ensures
        r == char_is_lowercase(c),
        'a' <= c && c <= 'z' ==> r,
        c <= '\u{7f}' && !('a' <= c && c <= 'z') ==> !r,
{
    c.is_lowercase()
}

/// The ASCII whitespace characters that this library trims: space, tab,
/// line feed, vertical tab, form feed, carriage return.
pub open spec fn is_space_char(c: char) -> bool {
    c == ' ' || c == '\t' || c == '\n' || c == '\r' || c == '\u{b}' || c == '\u{c}'
}

/// Whether `c` is one of the whitespace characters this library trims.
pub fn is_space(c: char) -> (r: bool)
    ensures
        r == is_space_char(c),
{
    c == ' ' || c == '\t' || c == '\n' || c == '\r' || c == '\u{b}' || c == '\u{c}'
}

/// The word characters of the commit-type and scope grammar: ASCII
/// letters, digits and the underscore.
pub open spec fn is_word_char(c: char) -> bool {
    ('0' <= c && c <= '9') || ('A' <= c && c <= 'Z') || ('a' <= c && c <= 'z') || c == '_'
}

/// Whether `c` is a word character of the prefix grammar.
pub fn word_char(c: char) -> (r: bool)
    ensures
        r == is_word_char(c),
{
    (c >= '0' && c <= '9') || (c >= 'A' && c <= 'Z') || (c >= 'a' && c <= 'z') || c == '_'
}

/// What `char::to_uppercase` yields for a character, collected into a
/// string: the Unicode uppercase mapping, a function of the character
/// alone.
pub uninterp spec fn upper_of(c: char) -> Seq<char>;

/// What `char::to_lowercase` yields for a character, collected into a
/// string: the Unicode lowercase mapping, a function of the character
/// alone.
pub uninterp spec fn lower_of(c: char) -> Seq<char>;

/// Relies on char::to_uppercase: the Unicode uppercase mapping.
#[verifier::external_body]
pub fn char_upper_string(c: char) -> (r: String)
    ensures
        r@ == upper_of(c),
{
    c.to_uppercase().collect()
}

/// Relies on char::to_lowercase: the Unicode lowercase mapping.
#[verifier::external_body]
pub fn char_lower_string(c: char) -> (r: String)
    ensures
        r@ == lower_of(c),
{
    c.to_lowercase().collect()
}

/// Relies on String::push: appends one character at the end.
#[verifier::external_body]
pub fn push_char(s: &mut String, c: char)
    ensures
        final(s)@ == old(s)@.push(c),
{
    s.push(c)
}

/// The characters of a string slice, in order.
pub fn str_chars(s: &str) -> (r: Vec<char>)
    ensures
        r@ == s@,
{
    let n = s.unicode_len();
    let mut r: Vec<char> = Vec::new();
    let mut i: usize = 0;
    while i < n
        invariant
            n == s@.len(),
            i <= n,
            r@ == s@.subrange(0, i as int),
        decreases n - i,
    {
        r.push(s.get_char(i));
        i = i + 1;
        proof {
            assert(r@ =~= s@.subrange(0, i as int));
        }
    }
    proof {
        assert(r@ =~= s@);
    }
    r
}

/// A string holding exactly the given characters.
pub fn chars_to_string(v: &Vec<char>) -> (r: String)
    ensures
        r@ == v@,
{
    let mut r = String::new();
    let mut i: usize = 0;
    while i < v.len()
        invariant
            i <= v@.len(),
            r@ == v@.subrange(0, i as int),
        decreases v@.len() - i,
    {
        push_char(&mut r, v[i]);
        i = i + 1;
        proof {
            assert(r@ =~= v@.subrange(0, i as int));
        }
    }
    proof {
        assert(r@ =~= v@);
    }
    r
}

/// Index of the first occurrence of `c` in `s`, or `s.len()` if there is
/// none.
pub open spec fn find_char(s: Seq<char>, c: char) -> nat
    decreases s.len(),
{
    if s.len() == 0 {
        0
    } else if s[0] == c {
        0
    } else {
        1 + find_char(s.subrange(1, s.len() as int), c)
    }
}

pub proof fn lemma_find_char(s: Seq<char>, c: char)
    ensures
        find_char(s, c) <= s.len(),
        forall|j: int| 0 <= j < find_char(s, c) ==> s[j] != c,
        find_char(s, c) < s.len() ==> s[find_char(s, c) as int] == c,
    decreases s.len(),
{
    if s.len() == 0 {
    } else if s[0] == c {
    } else {
        let t = s.subrange(1, s.len() as int);
        lemma_find_char(t, c);
        assert forall|j: int| 0 <= j < find_char(s, c) implies s[j] != c by {
            if j > 0 {
                assert(t[j - 1] == s[j]);
            }
        }
    }
}

pub proof fn lemma_find_char_absent(s: Seq<char>, c: char)
    requires
        forall|j: int| 0 <= j < s.len() ==> s[j] != c,
    ensures
        find_char(s, c) == s.len(),
    decreases s.len(),
{
    if s.len() > 0 {
        let t = s.subrange(1, s.len() as int);
        assert forall|j: int| 0 <= j < t.len() implies t[j] != c by {
            assert(t[j] == s[j + 1]);
        }
        lemma_find_char_absent(t, c);
    }
}

/// Index of the first occurrence of `c` in `v`, or `v.len()` if none.
pub fn find_char_in(v: &Vec<char>, c: char) -> (r: usize)
    ensures
        r == find_char(v@, c),
        r <= v@.len(),
{
    let mut i: usize = 0;
    while i < v.len()
        invariant
            i <= v@.len(),
            forall|j: int| 0 <= j < i ==> v@[j] != c,
        decreases v@.len() - i,
    {
        if v[i] == c {
            proof {
                lemma_find_char_at(v@, c, i as int);
            }
            return i;
        }
        i = i + 1;
    }
    proof {
        lemma_find_char_absent(v@, c);
    }
    i
}

/// Where the first occurrence is: all earlier characters differ.
pub proof fn lemma_find_char_at_pub(s: Seq<char>, c: char, k: int)
    requires
        0 <= k < s.len(),
        forall|j: int| 0 <= j < k ==> s[j] != c,
        s[k] == c,
    ensures
        find_char(s, c) == k,
{
    lemma_find_char_at(s, c, k);
}

proof fn lemma_find_char_at(s: Seq<char>, c: char, k: int)
    requires
        0 <= k < s.len(),
        forall|j: int| 0 <= j < k ==> s[j] != c,
        s[k] == c,
    ensures
        find_char(s, c) == k,
    decreases k,
{
    if k == 0 {
    } else {
        let t = s.subrange(1, s.len() as int);
        assert forall|j: int| 0 <= j < k - 1 implies t[j] != c by {
            assert(t[j] == s[j + 1]);
        }
        assert(t[k - 1] == s[k]);
        lemma_find_char_at(t, c, k - 1);
    }
}

/// Index of the first line feed in `s`, or `s.len()` if there is none.
pub open spec fn find_nl(s: Seq<char>) -> nat {
    find_char(s, '\n')
}

/// A line with a trailing carriage return stripped, as `BufRead::lines`
/// strips it from every line that ended with a line feed.
pub open spec fn strip_cr(l: Seq<char>) -> Seq<char> {
    if l.len() > 0 && l[l.len() - 1] == '\r' {
        l.drop_last()
    } else {
        l
    }
}

/// The lines of `s`, split at line feeds: a trailing carriage return is
/// stripped from every line that ended with a line feed, and a final line
/// feed produces no empty last line.
pub open spec fn split_lines(s: Seq<char>) -> Seq<Seq<char>>
    decreases s.len(),
{
    if s.len() == 0 {
        seq![]
    } else {
        let i = find_nl(s) as int;
        if i >= s.len() {
            seq![s]
        } else {
            seq![strip_cr(s.subrange(0, i))] + split_lines(s.subrange(i + 1, s.len() as int))
        }
    }
}

pub proof fn lemma_find_nl_absent(s: Seq<char>)
    requires
        forall|j: int| 0 <= j < s.len() ==> s[j] != '\n',
    ensures
        find_nl(s) == s.len(),
{
    lemma_find_char_absent(s, '\n');
}

pub proof fn lemma_split_lines_single(a: Seq<char>)
    requires
        a.len() > 0,
        forall|j: int| 0 <= j < a.len() ==> a[j] != '\n',
    ensures
        split_lines(a) == seq![a],
{
    lemma_find_nl_absent(a);
}

/// Splitting at the first line feed: one clean line, then the rest.
pub proof fn lemma_split_lines_step(a: Seq<char>, b: Seq<char>)
    requires
        forall|j: int| 0 <= j < a.len() ==> a[j] != '\n',
    ensures
        split_lines(a + seq!['\n'] + b) == seq![strip_cr(a)] + split_lines(b),
{
    let s = a + seq!['\n'] + b;
    lemma_find_nl_absent(a);
    lemma_find_nl_prefix(a, b);
    assert(find_nl(s) == a.len());
    assert(s.subrange(0, a.len() as int) =~= a);
    assert(s.subrange(a.len() as int + 1, s.len() as int) =~= b);
}

proof fn lemma_find_nl_prefix(a: Seq<char>, b: Seq<char>)
    requires
        forall|j: int| 0 <= j < a.len() ==> a[j] != '\n',
    ensures
        find_nl(a + seq!['\n'] + b) == a.len(),
{
    let s = a + seq!['\n'] + b;
    assert(s[a.len() as int] == '\n');
    assert forall|j: int| 0 <= j < a.len() implies s[j] != '\n' by {
        assert(s[j] == a[j]);
    }
    lemma_find_char_at(s, '\n', a.len() as int);
}

/// Joining lines with single line feeds; no trailing line feed.
pub open spec fn join_lines(ls: Seq<Seq<char>>) -> Seq<char>
    decreases ls.len(),
{
    if ls.len() == 0 {
        seq![]
    } else if ls.len() == 1 {
        ls[0]
    } else {
        ls[0] + seq!['\n'] + join_lines(ls.subrange(1, ls.len() as int))
    }
}

/// A line as the formatter may emit it: no embedded line feed and no
/// trailing carriage return, so that splitting gives it back unchanged.
pub open spec fn clean_line(l: Seq<char>) -> bool {
    &&& forall|j: int| 0 <= j < l.len() ==> l[j] != '\n'
    &&& (l.len() > 0 ==> l[l.len() - 1] != '\r')
}

/// Splitting undoes joining, for clean lines with a non-empty last line.
pub proof fn lemma_split_join_lines(ls: Seq<Seq<char>>)
    requires
        ls.len() > 0,
        forall|i: int| 0 <= i < ls.len() ==> clean_line(#[trigger] ls[i]),
        ls[ls.len() - 1].len() > 0,
    ensures
        split_lines(join_lines(ls)) == ls,
    decreases ls.len(),
{
    if ls.len() == 1 {
        lemma_split_lines_single(ls[0]);
        assert(split_lines(join_lines(ls)) =~= ls);
    } else {
        let rest = ls.subrange(1, ls.len() as int);
        lemma_split_join_lines(rest);
        lemma_split_lines_step(ls[0], join_lines(rest));
        assert(strip_cr(ls[0]) == ls[0]);
        assert(split_lines(join_lines(ls)) =~= ls);
    }
}

/// Joining undoes splitting, when no line feed is preceded by a carriage
/// return and the text does not end with a line feed.
pub proof fn lemma_join_split_lines(s: Seq<char>)
    requires
        s.len() > 0 ==> s[s.len() - 1] != '\n',
        forall|j: int| 0 < j < s.len() && #[trigger] s[j] == '\n' ==> s[j - 1] != '\r',
    ensures
        join_lines(split_lines(s)) == s,
    decreases s.len(),
{
    lemma_find_char(s, '\n');
    if s.len() == 0 {
    } else {
        let i = find_nl(s) as int;
        if i >= s.len() {
        } else {
            let a = s.subrange(0, i);
            let b = s.subrange(i + 1, s.len() as int);
            assert(i < s.len() - 1) by {
                assert(s[s.len() - 1] != '\n');
            }
            assert forall|j: int| 0 < j < b.len() && #[trigger] b[j] == '\n' implies b[j - 1] != '\r' by {
                assert(b[j] == s[i + 1 + j] && b[j - 1] == s[i + j]);
            }
            assert(b.len() > 0 ==> b[b.len() - 1] != '\n');
            lemma_join_split_lines(b);
            assert(strip_cr(a) == a) by {
                if a.len() > 0 && a[a.len() - 1] == '\r' {
                    assert(s[i - 1] == '\r' && s[i] == '\n');
                }
            }
            assert(b.len() > 0) by {
                assert(s[s.len() - 1] != '\n');
            }
            assert(split_lines(s) == seq![a] + split_lines(b));
            assert(split_lines(b).len() > 0) by {
                lemma_find_char(b, '\n');
            }
            assert(join_lines(split_lines(s)) =~= s) by {
                assert((seq![a] + split_lines(b)).subrange(1, (seq![a] + split_lines(b)).len() as int)
                    =~= split_lines(b));
                assert(a + seq!['\n'] + b =~= s);
            }
        }
    }
}

/// The lines of the given text, as `BufRead::lines` yields them.
pub fn split_to_lines(v: &Vec<char>) -> (r: Vec<Vec<char>>)
    ensures
        r.deep_view() == split_lines(v@),
{
    let mut r: Vec<Vec<char>> = Vec::new();
    let mut cur: Vec<char> = Vec::new();
    let mut i: usize = 0;
    proof {
        assert(cur@ + v@.subrange(0, v@.len() as int) =~= v@);
        assert(r.deep_view() + split_lines(v@) =~~= split_lines(v@));
    }
    while i < v.len()
        invariant
            i <= v@.len(),
            forall|j: int| 0 <= j < cur@.len() ==> cur@[j] != '\n',
            split_lines(v@) == r.deep_view() + split_lines(cur@ + v@.subrange(i as int, v@.len() as int)),
        decreases v@.len() - i,
    {
        let c = v[i];
        if c == '\n' {
            let ghost prev_cur = cur@;
            let ghost prev_r = r.deep_view();
            if cur.len() > 0 && cur[cur.len() - 1] == '\r' {
                cur.pop();
            }
            proof {
                assert(cur@ == strip_cr(prev_cur));
                assert(prev_cur + v@.subrange(i as int, v@.len() as int)
                    =~= prev_cur + seq!['\n'] + v@.subrange(i as int + 1, v@.len() as int));
                lemma_split_lines_step(prev_cur, v@.subrange(i as int + 1, v@.len() as int));
            }
            r.push(cur);
            proof {
                assert(cur.deep_view() =~= cur@);
                assert(r.deep_view() =~~= prev_r.push(strip_cr(prev_cur)));
                assert(prev_r + (seq![strip_cr(prev_cur)]
                    + split_lines(v@.subrange(i as int + 1, v@.len() as int)))
                    =~~= r.deep_view() + split_lines(v@.subrange(i as int + 1, v@.len() as int)));
            }
            cur = Vec::new();
        } else {
            let ghost prev_cur = cur@;
            cur.push(c);
            proof {
                assert(cur@ + v@.subrange(i as int + 1, v@.len() as int)
                    =~= prev_cur + v@.subrange(i as int, v@.len() as int));
            }
        }
        i = i + 1;
    }
    proof {
        assert(cur@ + v@.subrange(i as int, v@.len() as int) =~= cur@);
        if cur@.len() > 0 {
            lemma_split_lines_single(cur@);
        }
    }
    if cur.len() > 0 {
        let ghost prev_r = r.deep_view();
        r.push(cur);
        proof {
            assert(cur.deep_view() =~= cur@);
            assert(r.deep_view() =~~= prev_r + split_lines(cur@));
        }
    } else {
        proof {
            assert(r.deep_view() + split_lines(cur@) =~~= r.deep_view());
        }
    }
    r
}


/// The sequence without leading whitespace.
pub open spec fn trim_start(s: Seq<char>) -> Seq<char>
    decreases s.len(),
{
    if s.len() > 0 && is_space_char(s[0]) {
        trim_start(s.subrange(1, s.len() as int))
    } else {
        s
    }
}

/// The sequence without trailing whitespace.
pub open spec fn trim_end(s: Seq<char>) -> Seq<char>
    decreases s.len(),
{
    if s.len() > 0 && is_space_char(s[s.len() - 1]) {
        trim_end(s.drop_last())
    } else {
        s
    }
}

/// The sequence without leading and trailing whitespace, as `str::trim`.
pub open spec fn trim(s: Seq<char>) -> Seq<char> {
    trim_end(trim_start(s))
}

proof fn lemma_trim_start_at(s: Seq<char>, k: int)
    requires
        0 <= k <= s.len(),
        forall|j: int| 0 <= j < k ==> is_space_char(s[j]),
        k < s.len() ==> !is_space_char(s[k]),
    ensures
        trim_start(s) == s.subrange(k, s.len() as int),
    decreases k,
{
    if k == 0 {
        assert(s.subrange(0, s.len() as int) =~= s);
    } else {
        let t = s.subrange(1, s.len() as int);
        lemma_trim_start_at(t, k - 1);
        assert(t.subrange(k - 1, t.len() as int) =~= s.subrange(k, s.len() as int));
    }
}

proof fn lemma_trim_end_at(s: Seq<char>, k: int)
    requires
        0 <= k <= s.len(),
        forall|j: int| k <= j < s.len() ==> is_space_char(s[j]),
        k > 0 ==> !is_space_char(s[k - 1]),
    ensures
        trim_end(s) == s.subrange(0, k),
    decreases s.len() - k,
{
    if k == s.len() {
        assert(s.subrange(0, k) =~= s);
    } else {
        let t = s.drop_last();
        assert(t =~= s.subrange(0, s.len() - 1));
        lemma_trim_end_at(t, k);
        assert(t.subrange(0, k) =~= s.subrange(0, k));
    }
}

/// The characters of `v` without leading and trailing whitespace.
pub fn trim_chars(v: &Vec<char>) -> (r: Vec<char>)
    ensures
        r@ == trim(v@),
{
    let n = v.len();
    let mut lo: usize = 0;
    while lo < n && is_space(v[lo])
        invariant
            lo <= n,
            n == v@.len(),
            forall|j: int| 0 <= j < lo ==> is_space_char(v@[j]),
        decreases n - lo,
    {
        lo = lo + 1;
    }
    proof {
        lemma_trim_start_at(v@, lo as int);
    }
    let ghost st = v@.subrange(lo as int, v@.len() as int);
    let mut hi: usize = n;
    while hi > lo && is_space(v[hi - 1])
        invariant
            lo <= hi <= n,
            n == v@.len(),
            forall|j: int| hi <= j < n ==> is_space_char(v@[j]),
        decreases hi,
    {
        hi = hi - 1;
    }
    proof {
        assert forall|j: int| hi - lo <= j < st.len() implies is_space_char(st[j]) by {
            assert(st[j] == v@[lo + j]);
        }
        if hi > lo {
            assert(st[hi - lo - 1] == v@[hi - 1]);
        }
        lemma_trim_end_at(st, hi - lo);
    }
    let mut r: Vec<char> = Vec::new();
    let mut i: usize = lo;
    while i < hi
        invariant
            lo <= i <= hi <= n,
            n == v@.len(),
            r@ == v@.subrange(lo as int, i as int),
        decreases hi - i,
    {
        r.push(v[i]);
        i = i + 1;
        proof {
            assert(r@ =~= v@.subrange(lo as int, i as int));
        }
    }
    proof {
        assert(st.subrange(0, hi - lo) =~= v@.subrange(lo as int, hi as int));
    }
    r
}

/// Whether `p` is a prefix of `s`.
pub open spec fn has_prefix(s: Seq<char>, p: Seq<char>) -> bool {
    p.len() <= s.len() && s.subrange(0, p.len() as int) == p
}

/// Whether the characters of `v` start with the characters of `p`.
pub fn starts_with_chars(v: &Vec<char>, p: &Vec<char>) -> (r: bool)
    ensures
        r == has_prefix(v@, p@),
{
    if p.len() > v.len() {
        return false;
    }
    let mut i: usize = 0;
    while i < p.len()
        invariant
            i <= p@.len() <= v@.len(),
            forall|j: int| 0 <= j < i ==> v@[j] == p@[j],
        decreases p@.len() - i,
    {
        if v[i] != p[i] {
            proof {
                assert(v@.subrange(0, p@.len() as int)[i as int] == v@[i as int]);
            }
            return false;
        }
        i = i + 1;
    }
    proof {
        assert(v@.subrange(0, p@.len() as int) =~= p@);
    }
    true
}

/// Whether two character vectors hold the same characters.
pub fn eq_chars(a: &Vec<char>, b: &Vec<char>) -> (r: bool)
    ensures
        r == (a@ == b@),
{
    if a.len() != b.len() {
        return false;
    }
    let mut i: usize = 0;
    while i < a.len()
        invariant
            i <= a@.len(),
            a@.len() == b@.len(),
            forall|j: int| 0 <= j < i ==> a@[j] == b@[j],
        decreases a@.len() - i,
    {
        if a[i] != b[i] {
            return false;
        }
        i = i + 1;
    }
    proof {
        assert(a@ =~= b@);
    }
    true
}

/// The decimal digit character for a value below ten.
pub open spec fn dec_digit(d: nat) -> char {
    if d == 0 { '0' }
    else if d == 1 { '1' }
    else if d == 2 { '2' }
    else if d == 3 { '3' }
    else if d == 4 { '4' }
    else if d == 5 { '5' }
    else if d == 6 { '6' }
    else if d == 7 { '7' }
    else if d == 8 { '8' }
    else { '9' }
}

/// The decimal rendering of a natural number, without leading zeros.
pub open spec fn dec_str(n: nat) -> Seq<char>
    decreases n,
{
    if n < 10 {
        seq![dec_digit(n)]
    } else {
        dec_str(n / 10).push(dec_digit(n % 10))
    }
}

pub open spec fn is_digit(c: char) -> bool {
    '0' <= c && c <= '9'
}

pub open spec fn digit_val(c: char) -> nat {
    ((c as int) - ('0' as int)) as nat
}

pub open spec fn all_digits(s: Seq<char>) -> bool {
    forall|j: int| 0 <= j < s.len() ==> is_digit(#[trigger] s[j])
}

/// The value of a digit string, most significant digit first.
pub open spec fn digits_val(s: Seq<char>) -> nat
    decreases s.len(),
{
    if s.len() == 0 {
        0
    } else {
        digits_val(s.drop_last()) * 10 + digit_val(s.last())
    }
}

pub proof fn lemma_dec_str_val(n: nat)
    ensures
        dec_str(n).len() >= 1,
        all_digits(dec_str(n)),
        digits_val(dec_str(n)) == n,
    decreases n,
{
    if n < 10 {
        assert(dec_str(n) =~= seq![dec_digit(n)]);
        assert(dec_str(n).drop_last() =~= Seq::<char>::empty());
        assert(digit_val(dec_digit(n)) == n) by {
            if n == 0 { assert(digit_val('0') == 0); }
            else if n == 1 { assert(digit_val('1') == 1); }
            else if n == 2 { assert(digit_val('2') == 2); }
            else if n == 3 { assert(digit_val('3') == 3); }
            else if n == 4 { assert(digit_val('4') == 4); }
            else if n == 5 { assert(digit_val('5') == 5); }
            else if n == 6 { assert(digit_val('6') == 6); }
            else if n == 7 { assert(digit_val('7') == 7); }
            else if n == 8 { assert(digit_val('8') == 8); }
            else { assert(digit_val('9') == 9); }
        }
        assert(dec_str(n).last() == dec_digit(n));
        assert(dec_str(n).drop_last().len() == 0);
        assert(digits_val(dec_str(n).drop_last()) == 0);
        assert(digits_val(dec_str(n)) == digits_val(dec_str(n).drop_last()) * 10 + digit_val(dec_str(n).last()));
        assert(digits_val(dec_str(n)) == n);
    } else {
        lemma_dec_str_val(n / 10);
        let s = dec_str(n);
        assert(s =~= dec_str(n / 10).push(dec_digit(n % 10)));
        assert(s.drop_last() =~= dec_str(n / 10));
        assert(digit_val(dec_digit(n % 10)) == n % 10) by {
            let d = n % 10;
            if d == 0 { assert(digit_val('0') == 0); }
            else if d == 1 { assert(digit_val('1') == 1); }
            else if d == 2 { assert(digit_val('2') == 2); }
            else if d == 3 { assert(digit_val('3') == 3); }
            else if d == 4 { assert(digit_val('4') == 4); }
            else if d == 5 { assert(digit_val('5') == 5); }
            else if d == 6 { assert(digit_val('6') == 6); }
            else if d == 7 { assert(digit_val('7') == 7); }
            else if d == 8 { assert(digit_val('8') == 8); }
            else { assert(digit_val('9') == 9); }
        }
        assert((n / 10) * 10 + n % 10 == n) by {
            vstd::arithmetic::div_mod::lemma_fundamental_div_mod(n as int, 10);
        }
        assert forall|j: int| 0 <= j < s.len() implies is_digit(#[trigger] s[j]) by {
            if j < s.len() - 1 {
                assert(s[j] == dec_str(n / 10)[j]);
            }
        }
    }
}

/// Prefixes of a digit string never exceed its value.
proof fn lemma_digits_val_prefix(s: Seq<char>, k: int)
    requires
        0 <= k <= s.len(),
    ensures
        digits_val(s.subrange(0, k)) <= digits_val(s),
    decreases s.len() - k,
{
    if k == s.len() {
        assert(s.subrange(0, k) =~= s);
    } else {
        let t = s.subrange(0, k + 1);
        lemma_digits_val_prefix(s, k + 1);
        assert(t.drop_last() =~= s.subrange(0, k));
        assert(digits_val(t) == digits_val(s.subrange(0, k)) * 10 + digit_val(t.last()));
        assert(digits_val(s.subrange(0, k)) * 10 >= digits_val(s.subrange(0, k))) by {
            assert(digits_val(s.subrange(0, k)) * 10 == digits_val(s.subrange(0, k)) * 10);
            vstd::arithmetic::mul::lemma_mul_inequality(1, 10, digits_val(s.subrange(0, k)) as int);
        }
    }
}

/// The decimal digits of a 32-bit value.
pub fn u32_to_dec(n: u32) -> (r: Vec<char>)
    ensures
        r@ == dec_str(n as nat),
{
    let mut rev: Vec<char> = Vec::new();
    let mut cur: u32 = n;
    while cur >= 10
        invariant
            dec_str(n as nat) == dec_str(cur as nat) + rev@.reverse(),
        decreases cur,
    {
        let d = cur % 10;
        let ghost prev = rev@;
        rev.push(dec_digit_char(d));
        cur = cur / 10;
        proof {
            assert(rev@.reverse() =~= seq![dec_digit(d as nat)] + prev.reverse());
            assert(dec_str(cur as nat).push(dec_digit(d as nat)) + prev.reverse()
                =~= dec_str(cur as nat) + rev@.reverse());
        }
    }
    let mut r: Vec<char> = Vec::new();
    r.push(dec_digit_char(cur));
    proof {
        assert(r@ =~= seq![dec_digit(cur as nat)]);
        assert(r@ =~= dec_str(cur as nat));
    }
    let mut i: usize = rev.len();
    while i > 0
        invariant
            i <= rev@.len(),
            r@ == dec_str(cur as nat) + rev@.reverse().subrange(0, rev@.len() - i),
        decreases i,
    {
        i = i - 1;
        let ghost prev = r@;
        r.push(rev[i]);
        proof {
            assert(rev@.reverse()[rev@.len() - i - 1] == rev@[i as int]);
            assert(r@ =~= dec_str(cur as nat) + rev@.reverse().subrange(0, rev@.len() - i));
        }
    }
    proof {
        assert(rev@.reverse().subrange(0, rev@.len() as int) =~= rev@.reverse());
    }
    r
}

/// The decimal digits of a 64-bit value.
pub fn u64_to_dec(n: u64) -> (r: Vec<char>)
    ensures
        r@ == dec_str(n as nat),
{
    let mut rev: Vec<char> = Vec::new();
    let mut cur: u64 = n;
    while cur >= 10
        invariant
            dec_str(n as nat) == dec_str(cur as nat) + rev@.reverse(),
        decreases cur,
    {
        let d = cur % 10;
        let ghost prev = rev@;
        rev.push(dec_digit_char(d as u32));
        cur = cur / 10;
        proof {
            assert(rev@.reverse() =~= seq![dec_digit(d as nat)] + prev.reverse());
            assert(dec_str(cur as nat).push(dec_digit(d as nat)) + prev.reverse()
                =~= dec_str(cur as nat) + rev@.reverse());
        }
    }
    let mut r: Vec<char> = Vec::new();
    r.push(dec_digit_char(cur as u32));
    proof {
        assert(r@ =~= seq![dec_digit(cur as nat)]);
        assert(r@ =~= dec_str(cur as nat));
    }
    let mut i: usize = rev.len();
    while i > 0
        invariant
            i <= rev@.len(),
            r@ == dec_str(cur as nat) + rev@.reverse().subrange(0, rev@.len() - i),
        decreases i,
    {
        i = i - 1;
        r.push(rev[i]);
        proof {
            assert(rev@.reverse()[rev@.len() - i - 1] == rev@[i as int]);
            assert(r@ =~= dec_str(cur as nat) + rev@.reverse().subrange(0, rev@.len() - i));
        }
    }
    proof {
        assert(rev@.reverse().subrange(0, rev@.len() as int) =~= rev@.reverse());
    }
    r
}

fn dec_digit_char(d: u32) -> (r: char)
    requires
        d < 10,
    ensures
        r == dec_digit(d as nat),
{
    if d == 0 { '0' }
    else if d == 1 { '1' }
    else if d == 2 { '2' }
    else if d == 3 { '3' }
    else if d == 4 { '4' }
    else if d == 5 { '5' }
    else if d == 6 { '6' }
    else if d == 7 { '7' }
    else if d == 8 { '8' }
    else { '9' }
}

/// Parses the characters of `v` from `start` on as a decimal `u32`:
/// `None` unless they are one or more digits whose value fits.
pub fn parse_u32_from(v: &Vec<char>, start: usize) -> (r: Option<u32>)
    requires
        start <= v@.len(),
    ensures
        ({
            let t = v@.subrange(start as int, v@.len() as int);
            match r {
                Some(x) => t.len() > 0 && all_digits(t) && digits_val(t) == x as nat,
                None => !(t.len() > 0 && all_digits(t) && digits_val(t) <= u32::MAX as nat),
            }
        }),
{
    let ghost t = v@.subrange(start as int, v@.len() as int);
    if start == v.len() {
        return None;
    }
    let mut val: u32 = 0;
    let mut i: usize = start;
    while i < v.len()
        invariant
            start <= i <= v@.len(),
            t == v@.subrange(start as int, v@.len() as int),
            all_digits(t.subrange(0, i - start)),
            digits_val(t.subrange(0, i - start)) == val as nat,
        decreases v@.len() - i,
    {
        let c = v[i];
        if !(c >= '0' && c <= '9') {
            proof {
                assert(t[i - start] == v@[i as int]);
            }
            return None;
        }
        let d: u32 = (c as u32) - ('0' as u32);
        if val > (u32::MAX - d) / 10 {
            proof {
                let p = t.subrange(0, i - start);
                let q = t.subrange(0, i - start + 1);
                assert(q.drop_last() =~= p);
                assert(q.last() == v@[i as int]);
                assert(digits_val(q) == digits_val(p) * 10 + d as nat);
                assert(digits_val(p) * 10 > ((u32::MAX - d) / 10) * 10) by {
                    vstd::arithmetic::mul::lemma_mul_strict_inequality(
                        ((u32::MAX - d) / 10) as int, digits_val(p) as int, 10);
                }
                assert(((u32::MAX - d) / 10) * 10 + 10 > (u32::MAX - d) as int) by {
                    vstd::arithmetic::div_mod::lemma_fundamental_div_mod((u32::MAX - d) as int, 10);
                }
                assert(digits_val(q) > u32::MAX as nat);
                lemma_digits_val_prefix(t, i - start + 1);
            }
            return None;
        }
        proof {
            let p = t.subrange(0, i - start);
            assert(val as nat * 10 + d as nat <= u32::MAX as nat) by {
                vstd::arithmetic::mul::lemma_mul_inequality(
                    val as int, ((u32::MAX - d) / 10) as int, 10);
                vstd::arithmetic::div_mod::lemma_fundamental_div_mod((u32::MAX - d) as int, 10);
                assert(((u32::MAX - d) / 10) * 10 <= (u32::MAX - d) as int);
            }
            let q = t.subrange(0, i - start + 1);
            assert(q.drop_last() =~= p);
            assert(q.last() == v@[i as int]);
            assert(is_digit(q.last()) && digit_val(q.last()) == d as nat);
            assert forall|j: int| 0 <= j < q.len() implies is_digit(#[trigger] q[j]) by {
                if j < q.len() - 1 {
                    assert(q[j] == p[j]);
                }
            }
        }
        val = val * 10 + d;
        i = i + 1;
    }
    proof {
        assert(t.subrange(0, t.len() as int) =~= t);
    }
    Some(val)
}


/// A copy of `v[from..to]`.
pub fn sub_chars(v: &Vec<char>, from: usize, to: usize) -> (r: Vec<char>)
    requires
        from <= to <= v@.len(),
    ensures
        r@ == v@.subrange(from as int, to as int),
{
    let mut r: Vec<char> = Vec::new();
    let mut i: usize = from;
    while i < to
        invariant
            from <= i <= to <= v@.len(),
            r@ == v@.subrange(from as int, i as int),
        decreases to - i,
    {
        r.push(v[i]);
        i = i + 1;
        proof {
            assert(r@ =~= v@.subrange(from as int, i as int));
        }
    }
    r
}

/// Appends all characters of `src` to `dst`.
pub fn push_all(dst: &mut Vec<char>, src: &Vec<char>)
    ensures
        final(dst)@ == old(dst)@ + src@,
{
    let mut i: usize = 0;
    while i < src.len()
        invariant
            i <= src@.len(),
            dst@ == old(dst)@ + src@.subrange(0, i as int),
        decreases src@.len() - i,
    {
        dst.push(src[i]);
        i = i + 1;
        proof {
            assert(dst@ =~= old(dst)@ + src@.subrange(0, i as int));
        }
    }
    proof {
        assert(old(dst)@ + src@.subrange(0, src@.len() as int) =~= old(dst)@ + src@);
    }
}

/// Appending one more line to a non-empty join adds a line feed and the line.
pub proof fn lemma_join_push(a: Seq<Seq<char>>, x: Seq<char>)
    requires
        a.len() > 0,
    ensures
        join_lines(a.push(x)) == join_lines(a) + seq!['\n'] + x,
    decreases a.len(),
{
    let b = a.push(x);
    if a.len() == 1 {
        assert(b.len() == 2);
        assert(b.subrange(1, b.len() as int) =~= seq![x]);
        assert(join_lines(seq![x]) == seq![x][0]);
        assert(join_lines(b) == b[0] + seq!['\n'] + join_lines(b.subrange(1, b.len() as int)));
        assert(join_lines(b) =~= a[0] + seq!['\n'] + x);
        assert(join_lines(a) == a[0]);
    } else {
        let a2 = a.subrange(1, a.len() as int);
        lemma_join_push(a2, x);
        assert(b.subrange(1, b.len() as int) =~= a2.push(x));
        assert(join_lines(b) == b[0] + seq!['\n'] + join_lines(a2.push(x)));
        assert(join_lines(a.push(x)) =~= join_lines(a) + seq!['\n'] + x);
    }
}

/// The characters of the given lines joined with line feeds.
pub fn join_chars(ls: &Vec<Vec<char>>) -> (r: Vec<char>)
    ensures
        r@ == join_lines(ls.deep_view()),
{
    let mut r: Vec<char> = Vec::new();
    if ls.len() == 0 {
        proof {
            assert(ls.deep_view() =~~= Seq::<Seq<char>>::empty());
        }
        return r;
    }
    push_all(&mut r, &ls[0]);
    proof {
        assert(ls.deep_view().subrange(0, 1) =~~= seq![ls@[0].deep_view()]);
        assert(r@ =~= join_lines(ls.deep_view().subrange(0, 1)));
    }
    let mut i: usize = 1;
    while i < ls.len()
        invariant
            1 <= i <= ls@.len(),
            ls@.len() == ls.deep_view().len(),
            r@ == join_lines(ls.deep_view().subrange(0, i as int)),
        decreases ls@.len() - i,
    {
        r.push('\n');
        push_all(&mut r, &ls[i]);
        proof {
            let dv = ls.deep_view();
            lemma_join_push(dv.subrange(0, i as int), dv[i as int]);
            assert(dv.subrange(0, i as int).push(dv[i as int]) =~~= dv.subrange(0, i as int + 1));
            assert(r@ =~= join_lines(dv.subrange(0, i as int)) + seq!['\n'] + dv[i as int]);
        }
        i = i + 1;
    }
    proof {
        assert(ls.deep_view().subrange(0, ls.deep_view().len() as int) =~~= ls.deep_view());
    }
    r
}


/// A sequence that neither starts nor ends with whitespace is trim-stable.
pub proof fn lemma_trim_stable(s: Seq<char>)
    requires
        s.len() > 0 ==> !is_space_char(s[0]) && !is_space_char(s[s.len() - 1]),
    ensures
        trim(s) == s,
{
}

/// A trimmed sequence is never longer, and trimming a sequence with a
/// blank at either end makes it strictly shorter.
pub proof fn lemma_trim_shrinks(s: Seq<char>)
    requires
        s.len() > 0,
        is_space_char(s[0]) || is_space_char(s[s.len() - 1]),
    ensures
        trim(s).len() < s.len(),
{
    if is_space_char(s[0]) {
        let t = s.subrange(1, s.len() as int);
        assert(trim_start(s) == trim_start(t));
        lemma_trim_start_len(t);
        lemma_trim_end_len(trim_start(t));
    } else {
        assert(trim_start(s) == s);
        assert(trim_end(s) == trim_end(s.drop_last()));
        lemma_trim_end_len(s.drop_last());
    }
}

proof fn lemma_trim_start_len(s: Seq<char>)
    ensures
        trim_start(s).len() <= s.len(),
    decreases s.len(),
{
    if s.len() > 0 && is_space_char(s[0]) {
        lemma_trim_start_len(s.subrange(1, s.len() as int));
    }
}

proof fn lemma_trim_end_len(s: Seq<char>)
    ensures
        trim_end(s).len() <= s.len(),
    decreases s.len(),
{
    if s.len() > 0 && is_space_char(s[s.len() - 1]) {
        lemma_trim_end_len(s.drop_last());
    }
}

/// Trimming removes one leading blank.
pub proof fn lemma_trim_space_prefix(x: Seq<char>)
    requires
        trim(x) == x,
    ensures
        trim(seq![' '] + x) == x,
{
    let s = seq![' '] + x;
    assert(s[0] == ' ');
    assert(s.subrange(1, s.len() as int) =~= x);
}

/// If `p` is a prefix of `l`, their first characters agree.
pub proof fn lemma_prefix_first(l: Seq<char>, p: Seq<char>)
    requires
        has_prefix(l, p),
        p.len() > 0,
    ensures
        l[0] == p[0],
{
    assert(l.subrange(0, p.len() as int)[0] == l[0]);
}

/// A sequence has its own extension as a prefix.
pub proof fn lemma_prefix_concat(p: Seq<char>, rest: Seq<char>)
    ensures
        has_prefix(p + rest, p),
{
    assert((p + rest).subrange(0, p.len() as int) =~= p);
}

/// No line of a split contains a line feed; under the conditions of a
/// clean text (no carriage return before a line feed, none at the end,
/// no final line feed), every line is clean and the last one non-empty.
pub proof fn lemma_split_lines_clean(s: Seq<char>)
    requires
        forall|j: int| 0 < j < s.len() && #[trigger] s[j] == '\n' ==> s[j - 1] != '\r',
        s.len() > 0 ==> s[s.len() - 1] != '\r' && s[s.len() - 1] != '\n',
    ensures
        forall|i: int| 0 <= i < split_lines(s).len() ==> clean_line(#[trigger] split_lines(s)[i]),
        s.len() > 0 ==> split_lines(s).len() > 0 && split_lines(s)[split_lines(s).len() - 1].len()
            > 0,
    decreases s.len(),
{
    lemma_find_char(s, '\n');
    if s.len() == 0 {
    } else {
        let i = find_nl(s) as int;
        if i >= s.len() {
            assert(split_lines(s) == seq![s]);
            assert(clean_line(s));
        } else {
            let a = s.subrange(0, i);
            let b = s.subrange(i + 1, s.len() as int);
            assert(i < s.len() - 1) by {
                assert(s[s.len() - 1] != '\n');
            }
            assert forall|j: int| 0 < j < b.len() && #[trigger] b[j] == '\n' implies b[j - 1]
                != '\r' by {
                assert(b[j] == s[i + 1 + j] && b[j - 1] == s[i + j]);
            }
            assert(b.len() > 0 && b[b.len() - 1] == s[s.len() - 1]);
            lemma_split_lines_clean(b);
            assert(strip_cr(a) == a) by {
                if a.len() > 0 && a[a.len() - 1] == '\r' {
                    assert(s[i - 1] == '\r' && s[i] == '\n');
                }
            }
            assert(clean_line(a)) by {
                assert(forall|j: int| 0 <= j < a.len() ==> a[j] == s[j]);
            }
            let ls = split_lines(s);
            assert(ls == seq![a] + split_lines(b));
            assert forall|k: int| 0 <= k < ls.len() implies clean_line(#[trigger] ls[k]) by {
                if k > 0 {
                    assert(ls[k] == split_lines(b)[k - 1]);
                }
            }
            assert(ls[ls.len() - 1] == split_lines(b)[split_lines(b).len() - 1]);
        }
    }
}

/// Each line joined after the first is led in by one line feed.
pub open spec fn join_tail(ls: Seq<Seq<char>>) -> Seq<char>
    decreases ls.len(),
{
    if ls.len() == 0 {
        Seq::empty()
    } else {
        seq!['\n'] + ls[0] + join_tail(ls.subrange(1, ls.len() as int))
    }
}

/// The tail join of one line.
pub proof fn lemma_join_tail_single(x: Seq<char>)
    ensures
        join_tail(seq![x]) == seq!['\n'] + x,
{
    assert(seq![x].subrange(1, 1) =~~= Seq::<Seq<char>>::empty());
    assert(join_tail(Seq::<Seq<char>>::empty()) == Seq::<char>::empty());
    assert(join_tail(seq![x]) == seq!['\n'] + seq![x][0] + join_tail(seq![x].subrange(1, 1)));
    assert(seq![x][0] == x);
    assert(join_tail(seq![x]) =~= seq!['\n'] + x);
}

pub proof fn lemma_join_tail_rel(ls: Seq<Seq<char>>)
    requires
        ls.len() > 0,
    ensures
        join_tail(ls) == seq!['\n'] + join_lines(ls),
    decreases ls.len(),
{
    if ls.len() == 1 {
        assert(join_tail(ls.subrange(1, 1)) =~= Seq::<char>::empty());
        assert(join_tail(ls) =~= seq!['\n'] + join_lines(ls));
    } else {
        lemma_join_tail_rel(ls.subrange(1, ls.len() as int));
        assert(join_tail(ls) =~= seq!['\n'] + join_lines(ls));
    }
}

pub proof fn lemma_join_tail_concat(a: Seq<Seq<char>>, b: Seq<Seq<char>>)
    ensures
        join_tail(a + b) == join_tail(a) + join_tail(b),
    decreases a.len(),
{
    if a.len() == 0 {
        assert(a + b =~~= b);
        assert(join_tail(a) =~= Seq::<char>::empty());
        assert(join_tail(a) + join_tail(b) =~= join_tail(b));
    } else {
        let a2 = a.subrange(1, a.len() as int);
        lemma_join_tail_concat(a2, b);
        assert((a + b).subrange(1, (a + b).len() as int) =~~= a2 + b);
        assert((a + b)[0] == a[0]);
        assert(join_tail(a + b) =~= join_tail(a) + join_tail(b));
    }
}

/// A non-empty join, seen as its head line and the led-in tail.
pub proof fn lemma_join_head_tail(ls: Seq<Seq<char>>)
    requires
        ls.len() > 0,
    ensures
        join_lines(ls) == ls[0] + join_tail(ls.subrange(1, ls.len() as int)),
{
    if ls.len() == 1 {
        assert(join_tail(ls.subrange(1, 1)) =~= Seq::<char>::empty());
        assert(join_lines(ls) =~= ls[0] + join_tail(ls.subrange(1, ls.len() as int)));
    } else {
        lemma_join_tail_rel(ls.subrange(1, ls.len() as int));
    }
}

} // verus!
