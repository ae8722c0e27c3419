//! Character-level scanning and trimming over `Seq<char>` models, with the
//! verified executable scanners that the tokenizer is built from.

use vstd::prelude::*;
use vstd::string::StrSliceExecFns;
use vstd::string::StringExecFns;

verus! {

/// The whitespace characters this library recognizes: the ASCII spacing
/// characters (tab, line feed, vertical tab, form feed, carriage return,
/// space).
pub open spec fn char_is_space(c: char) -> bool {
    c == ' ' || c == '\t' || c == '\n' || c == '\u{b}' || c == '\u{c}' || c == '\r'
}

/// Executable test for [`char_is_space`].
pub fn is_space(c: char) -> (r: bool)
    ensures
        r == char_is_space(c),
{
    c == ' ' || c == '\t' || c == '\n' || c == '\u{b}' || c == '\u{c}' || c == '\r'
}

/// A single or double quotation mark, the characters stripped from the ends
/// of an attribute value.
pub open spec fn char_is_quote(c: char) -> bool {
    c == '"' || c == '\''
}

/// Executable test for [`char_is_quote`].
pub fn is_quote(c: char) -> (r: bool)
    ensures
        r == char_is_quote(c),
{
    c == '"' || c == '\''
}

/// Index of the first occurrence of `c` in `s` at or after `from`, or
/// `s.len()` if there is none.
pub open spec fn find_from(s: Seq<char>, from: int, c: char) -> int
    decreases s.len() - from,
{
    if from < 0 || from >= s.len() {
        s.len() as int
    } else if s[from] == c {
        from
    } else {
        find_from(s, from + 1, c)
    }
}

/// `find_from` returns the first occurrence of `c` at or after `from`.
pub proof fn lemma_find_from(s: Seq<char>, from: int, c: char)
    requires
        0 <= from <= s.len(),
    ensures
        from <= find_from(s, from, c) <= s.len(),
        forall|k: int| from <= k < find_from(s, from, c) ==> s[k] != c,
        find_from(s, from, c) < s.len() ==> s[find_from(s, from, c)] == c,
    decreases s.len() - from,
{
    if from < s.len() && s[from] != c {
        lemma_find_from(s, from + 1, c);
    }
}

/// Index of the first whitespace character in `s` at or after `from`, or
/// `s.len()` if there is none.
pub open spec fn find_space(s: Seq<char>, from: int) -> int
    decreases s.len() - from,
{
    if from < 0 || from >= s.len() {
        s.len() as int
    } else if char_is_space(s[from]) {
        from
    } else {
        find_space(s, from + 1)
    }
}

/// `find_space` returns the first whitespace position at or after `from`.
pub proof fn lemma_find_space(s: Seq<char>, from: int)
    requires
        0 <= from <= s.len(),
    ensures
        from <= find_space(s, from) <= s.len(),
        forall|k: int| from <= k < find_space(s, from) ==> !char_is_space(s[k]),
        find_space(s, from) < s.len() ==> char_is_space(s[find_space(s, from)]),
    decreases s.len() - from,
{
    if from < s.len() && !char_is_space(s[from]) {
        lemma_find_space(s, from + 1);
    }
}

/// Index of the first non-whitespace character in `s` at or after `from`, or
/// `s.len()` if there is none.
pub open spec fn find_non_space(s: Seq<char>, from: int) -> int
    decreases s.len() - from,
{
    if from < 0 || from >= s.len() {
        s.len() as int
    } else if !char_is_space(s[from]) {
        from
    } else {
        find_non_space(s, from + 1)
    }
}

/// `find_non_space` returns the first non-whitespace position at or after
/// `from`.
pub proof fn lemma_find_non_space(s: Seq<char>, from: int)
    requires
        0 <= from <= s.len(),
    ensures
        from <= find_non_space(s, from) <= s.len(),
        forall|k: int| from <= k < find_non_space(s, from) ==> char_is_space(s[k]),
        find_non_space(s, from) < s.len() ==> !char_is_space(s[find_non_space(s, from)]),
    decreases s.len() - from,
{
    if from < s.len() && char_is_space(s[from]) {
        lemma_find_non_space(s, from + 1);
    }
}

/// `s` with its leading whitespace removed.
pub open spec fn trim_left(s: Seq<char>) -> Seq<char>
    decreases s.len(),
{
    if s.len() > 0 && char_is_space(s[0]) {
        trim_left(s.drop_first())
    } else {
        s
    }
}

/// `s` with its trailing whitespace removed.
pub open spec fn trim_right(s: Seq<char>) -> Seq<char>
    decreases s.len(),
{
    if s.len() > 0 && char_is_space(s.last()) {
        trim_right(s.drop_last())
    } else {
        s
    }
}

/// `s` with leading and trailing whitespace removed.
pub open spec fn trim(s: Seq<char>) -> Seq<char> {
    trim_right(trim_left(s))
}

/// If every character before `k` is whitespace and `k` is either the end or a
/// non-whitespace position, trimming from the left drops exactly the first
/// `k` characters.
pub proof fn lemma_trim_left_is_subrange(s: Seq<char>, k: int)
    requires
        0 <= k <= s.len(),
        forall|m: int| 0 <= m < k ==> char_is_space(s[m]),
        k < s.len() ==> !char_is_space(s[k]),
    ensures
        trim_left(s) =~= s.subrange(k, s.len() as int),
    decreases s.len(),
{
    if s.len() > 0 && char_is_space(s[0]) {
        assert(k > 0);
        lemma_trim_left_is_subrange(s.drop_first(), k - 1);
        assert(s.drop_first().subrange(k - 1, s.drop_first().len() as int) =~= s.subrange(
            k,
            s.len() as int,
        ));
    }
}

/// If every character from `k` on is whitespace and `k` is either zero or
/// just past a non-whitespace position, trimming from the right keeps exactly
/// the first `k` characters.
pub proof fn lemma_trim_right_is_subrange(s: Seq<char>, k: int)
    requires
        0 <= k <= s.len(),
        forall|m: int| k <= m < s.len() ==> char_is_space(s[m]),
        k > 0 ==> !char_is_space(s[k - 1]),
    ensures
        trim_right(s) =~= s.subrange(0, k),
    decreases s.len(),
{
    if s.len() > 0 && char_is_space(s.last()) {
        assert(k < s.len());
        lemma_trim_right_is_subrange(s.drop_last(), k);
        assert(s.drop_last().subrange(0, k) =~= s.subrange(0, k));
    }
}

/// `s` with its leading quotation marks removed.
pub open spec fn strip_quotes_left(s: Seq<char>) -> Seq<char>
    decreases s.len(),
{
    if s.len() > 0 && char_is_quote(s[0]) {
        strip_quotes_left(s.drop_first())
    } else {
        s
    }
}

/// `s` with its trailing quotation marks removed.
pub open spec fn strip_quotes_right(s: Seq<char>) -> Seq<char>
    decreases s.len(),
{
    if s.len() > 0 && char_is_quote(s.last()) {
        strip_quotes_right(s.drop_last())
    } else {
        s
    }
}

/// `s` with all leading and trailing quotation marks removed, the way an
/// attribute value sheds its quotes.
pub open spec fn strip_quotes(s: Seq<char>) -> Seq<char> {
    strip_quotes_right(strip_quotes_left(s))
}

/// If every character before `k` is a quote and `k` is either the end or a
/// non-quote position, stripping from the left drops exactly the first `k`
/// characters.
pub proof fn lemma_strip_quotes_left_is_subrange(s: Seq<char>, k: int)
    requires
        0 <= k <= s.len(),
        forall|m: int| 0 <= m < k ==> char_is_quote(s[m]),
        k < s.len() ==> !char_is_quote(s[k]),
    ensures
        strip_quotes_left(s) =~= s.subrange(k, s.len() as int),
    decreases s.len(),
{
    if s.len() > 0 && char_is_quote(s[0]) {
        assert(k > 0);
        lemma_strip_quotes_left_is_subrange(s.drop_first(), k - 1);
        assert(s.drop_first().subrange(k - 1, s.drop_first().len() as int) =~= s.subrange(
            k,
            s.len() as int,
        ));
    }
}

/// If every character from `k` on is a quote and `k` is either zero or just
/// past a non-quote position, stripping from the right keeps exactly the
/// first `k` characters.
pub proof fn lemma_strip_quotes_right_is_subrange(s: Seq<char>, k: int)
    requires
        0 <= k <= s.len(),
        forall|m: int| k <= m < s.len() ==> char_is_quote(s[m]),
        k > 0 ==> !char_is_quote(s[k - 1]),
    ensures
        strip_quotes_right(s) =~= s.subrange(0, k),
    decreases s.len(),
{
    if s.len() > 0 && char_is_quote(s.last()) {
        assert(k < s.len());
        lemma_strip_quotes_right_is_subrange(s.drop_last(), k);
        assert(s.drop_last().subrange(0, k) =~= s.subrange(0, k));
    }
}

/// First occurrence of `c` in `s` at or after `from`, as executable code.
pub fn scan_to_char(s: &str, from: usize, c: char) -> (r: usize)
    requires
        from <= s@.len(),
    ensures
        r == find_from(s@, from as int, c),
        from <= r <= s@.len(),
    {
    proof {
        lemma_find_from(s@, from as int, c);
    }
    let n: usize = s.unicode_len();
    let mut i: usize = from;
    while i < n
        invariant
            from <= i <= n,
            n == s@.len(),
            find_from(s@, from as int, c) == find_from(s@, i as int, c),
        decreases n - i,
    {
        if s.get_char(i) == c {
            return i;
        }
        i = i + 1;
    }
    i
}

/// First whitespace character in `s` at or after `from`, as executable code.
pub fn scan_to_space(s: &str, from: usize) -> (r: usize)
    requires
        from <= s@.len(),
    ensures
        r == find_space(s@, from as int),
        from <= r <= s@.len(),
    {
    proof {
        lemma_find_space(s@, from as int);
    }
    let n: usize = s.unicode_len();
    let mut i: usize = from;
    while i < n
        invariant
            from <= i <= n,
            n == s@.len(),
            find_space(s@, from as int) == find_space(s@, i as int),
        decreases n - i,
    {
        if is_space(s.get_char(i)) {
            return i;
        }
        i = i + 1;
    }
    i
}

/// First non-whitespace character in `s` at or after `from`, as executable
/// code.
pub fn scan_to_non_space(s: &str, from: usize) -> (r: usize)
    requires
        from <= s@.len(),
    ensures
        r == find_non_space(s@, from as int),
        from <= r <= s@.len(),
    {
    proof {
        lemma_find_non_space(s@, from as int);
    }
    let n: usize = s.unicode_len();
    let mut i: usize = from;
    while i < n
        invariant
            from <= i <= n,
            n == s@.len(),
            find_non_space(s@, from as int) == find_non_space(s@, i as int),
        decreases n - i,
    {
        if !is_space(s.get_char(i)) {
            return i;
        }
        i = i + 1;
    }
    i
}

/// The whitespace-separated words of `s` from position `i` on: the maximal
/// runs free of whitespace, in order.
pub open spec fn words_from(s: Seq<char>, i: int) -> Seq<Seq<char>>
    decreases s.len() - i,
{
    if i < 0 || i >= s.len() {
        Seq::empty()
    } else if char_is_space(s[i]) {
        words_from(s, i + 1)
    } else {
        let j = find_space(s, i);
        proof {
            lemma_find_space(s, i);
        }
        seq![s.subrange(i, j)] + words_from(s, j)
    }
}

/// The whitespace-separated words of `s`.
pub open spec fn split_spaces(s: Seq<char>) -> Seq<Seq<char>> {
    words_from(s, 0)
}

/// Whether `w` is one of the whitespace-separated words of `s`.
pub fn contains_word(s: &str, w: &str) -> (r: bool)
    ensures
        r == split_spaces(s@).contains(w@),
    {
    let target: String = String::from_str(w);
    let n: usize = s.unicode_len();
    let mut i: usize = 0;
    proof {
        assert(split_spaces(s@) == words_from(s@, 0));
    }
    while i < n
        invariant
            0 <= i <= n,
            n == s@.len(),
            target@ == w@,
            split_spaces(s@).contains(w@) == words_from(s@, i as int).contains(w@),
        decreases n - i,
    {
        if is_space(s.get_char(i)) {
            i = i + 1;
        } else {
            let j = scan_to_space(s, i);
            proof {
                lemma_find_space(s@, i as int);
            }
            let word = s.substring_char(i, j);
            let ghost ws = words_from(s@, i as int);
            proof {
                assert(ws == seq![s@.subrange(i as int, j as int)] + words_from(s@, j as int));
                assert(ws[0] == word@);
                assert forall|x: Seq<char>| #[trigger] ws.contains(x) implies (x == word@
                    || words_from(s@, j as int).contains(x)) by {
                    let idx = choose|idx: int| 0 <= idx < ws.len() && ws[idx] == x;
                    if idx > 0 {
                        assert(words_from(s@, j as int)[idx - 1] == x);
                    }
                }
                assert forall|x: Seq<char>|
                    x == word@ || words_from(s@, j as int).contains(x) implies #[trigger] ws.contains(
                    x,
                ) by {
                    if x == word@ {
                        assert(ws[0] == x);
                    } else {
                        let idx = choose|idx: int|
                            0 <= idx < words_from(s@, j as int).len() && words_from(
                                s@,
                                j as int,
                            )[idx] == x;
                        assert(ws[idx + 1] == x);
                    }
                }
            }
            if String::from_str(word) == target {
                proof {
                    assert(ws.contains(w@));
                }
                return true;
            }
            i = j;
        }
    }
    false
}

/// A copy of `s` with leading and trailing whitespace removed.
pub fn str_trim(s: &str) -> (r: String)
    ensures
        r@ == trim(s@),
    {
    let n: usize = s.unicode_len();
    let a: usize = scan_to_non_space(s, 0);
    proof {
        lemma_find_non_space(s@, 0);
    }
    if a == n {
        proof {
            lemma_trim_left_is_subrange(s@, n as int);
            lemma_trim_right_is_subrange(
                s@.subrange(n as int, n as int),
                0,
            );
        }
        return String::new();
    }
    let mut b: usize = n - 1;
    while is_space(s.get_char(b))
        invariant
            a <= b < n,
            n == s@.len(),
            a < n,
            !char_is_space(s@[a as int]),
            forall|m: int| b < m < n ==> char_is_space(s@[m]),
        decreases b,
    {
        b = b - 1;
    }
    proof {
        lemma_trim_left_is_subrange(s@, a as int);
        let u = s@.subrange(a as int, n as int);
        lemma_trim_right_is_subrange(u, b - a + 1);
        assert(u.subrange(0, b - a + 1) =~= s@.subrange(a as int, b + 1));
    }
    let piece = s.substring_char(a, b + 1);
    String::from_str(piece)
}

/// A copy of `s` with all leading and trailing quotation marks removed.
pub fn str_strip_quotes(s: &str) -> (r: String)
    ensures
        r@ == strip_quotes(s@),
    {
    let n: usize = s.unicode_len();
    let mut a: usize = 0;
    while a < n && is_quote(s.get_char(a))
        invariant
            0 <= a <= n,
            n == s@.len(),
            forall|m: int| 0 <= m < a ==> char_is_quote(s@[m]),
        decreases n - a,
    {
        a = a + 1;
    }
    proof {
        lemma_strip_quotes_left_is_subrange(s@, a as int);
    }
    if a == n {
        proof {
            lemma_strip_quotes_right_is_subrange(
                s@.subrange(n as int, n as int),
                0,
            );
        }
        return String::new();
    }
    let mut b: usize = n - 1;
    while is_quote(s.get_char(b))
        invariant
            a <= b < n,
            n == s@.len(),
            a < n,
            !char_is_quote(s@[a as int]),
            forall|m: int| b < m < n ==> char_is_quote(s@[m]),
        decreases b,
    {
        b = b - 1;
    }
    proof {
        let u = s@.subrange(a as int, n as int);
        lemma_strip_quotes_right_is_subrange(u, b - a + 1);
        assert(u.subrange(0, b - a + 1) =~= s@.subrange(a as int, b + 1));
    }
    let piece = s.substring_char(a, b + 1);
    String::from_str(piece)
}

} // verus!
