//! Character classes and the small scanning utilities that both parsers share.
//!
//! Everything here works on sequences of `char`s: the parsers turn their input into
//! a `Vec<char>` once and then move an index over it.

use vstd::prelude::*;

verus! {

/// The Unicode `Alphabetic` property, for characters outside the ASCII range.
pub uninterp spec fn unicode_alphabetic(c: char) -> bool;

/// The Unicode `White_Space` property, for characters outside the ASCII range.
pub uninterp spec fn unicode_white_space(c: char) -> bool;

/// The ASCII letters `a..=z` and `A..=Z`.
pub open spec fn is_ascii_letter(c: char) -> bool {
    ('a' <= c && c <= 'z') || ('A' <= c && c <= 'Z')
}

/// The ASCII white space: the blank, and U+0009 to U+000D (tab, line feed, vertical tab,
/// form feed, carriage return).
pub open spec fn is_ascii_space(c: char) -> bool {
    c == ' ' || ('\u{9}' <= c && c <= '\u{d}')
}

/// A letter: what names (of tags, attributes, properties, keywords) are made of.
pub open spec fn is_letter(c: char) -> bool {
    if c <= '\u{7f}' {
        is_ascii_letter(c)
    } else {
        unicode_alphabetic(c)
    }
}

/// White space: what the parsers skip between tokens and trim from text.
pub open spec fn is_space(c: char) -> bool {
    if c <= '\u{7f}' {
        is_ascii_space(c)
    } else {
        unicode_white_space(c)
    }
}

/// `char::is_alphabetic` tells whether the character has the Unicode `Alphabetic`
/// property. Trusted: in the ASCII range that is exactly the 52 letters; beyond it the
/// answer is a fixed function of the character, named `unicode_alphabetic`.
pub assume_specification[ char::is_alphabetic ](c: char) -> (b: bool)
    ensures
        b == is_letter(c),
        c > '\u{7f}' ==> b == unicode_alphabetic(c),
;

/// `char::is_whitespace` tells whether the character has the Unicode `White_Space`
/// property. Trusted: in the ASCII range that is the blank and U+0009 to U+000D; beyond
/// it the answer is a fixed function of the character, named `unicode_white_space`.
pub assume_specification[ char::is_whitespace ](c: char) -> (b: bool)
    ensures
        b == is_space(c),
        c > '\u{7f}' ==> b == unicode_white_space(c),
;

/// `String::push` appends one character to the end of the string. Trusted.
pub assume_specification[ String::push ](s: &mut String, c: char)
    ensures
        final(s)@ == old(s)@.push(c),
;

/// The sets of characters that the scanners tell apart.
#[derive(Clone, Copy, Debug, PartialEq, Eq)]
pub enum CharClass {
    /// Letters.
    Letter,
    /// White space.
    Space,
    /// Everything but white space.
    NonSpace,
    /// Everything but the given character.
    Except(char),
}

impl CharClass {
    /// Whether `c` belongs to the class.
    pub open spec fn has(self, c: char) -> bool {
        match self {
            CharClass::Letter => is_letter(c),
            CharClass::Space => is_space(c),
            CharClass::NonSpace => !is_space(c),
            CharClass::Except(x) => c != x,
        }
    }

    /// Whether `c` belongs to the class.
    pub fn contains(&self, c: char) -> (b: bool)
        ensures
            b == self.has(c),
    {
        match self {
            CharClass::Letter => c.is_alphabetic(),
            CharClass::Space => c.is_whitespace(),
            CharClass::NonSpace => !c.is_whitespace(),
            CharClass::Except(x) => c != *x,
        }
    }
}

/// Where the longest run of characters of `class` that starts at `i` ends: the first
/// index from `i` on that holds a character outside the class, or the length of `s`.
pub open spec fn run_end(s: Seq<char>, i: int, class: CharClass) -> int
    decreases s.len() - i,
{
    if 0 <= i < s.len() && class.has(s[i]) {
        run_end(s, i + 1, class)
    } else {
        i
    }
}

/// Where the white space that starts at `i` ends.
pub open spec fn blank_end(s: Seq<char>, i: int) -> int {
    run_end(s, i, CharClass::Space)
}

/// Where the letters that start at `i` end.
pub open spec fn name_end(s: Seq<char>, i: int) -> int {
    run_end(s, i, CharClass::Letter)
}

/// Whether the character at `i` exists and is `c`.
pub open spec fn is_at(s: Seq<char>, i: int, c: char) -> bool {
    0 <= i < s.len() && s[i] == c
}

/// A run ends inside the sequence, at or after its start, on a character outside the
/// class, and holds only characters of the class.
pub proof fn lemma_run_end(s: Seq<char>, i: int, class: CharClass)
    requires
        0 <= i <= s.len(),
    ensures
        i <= run_end(s, i, class) <= s.len(),
        run_end(s, i, class) < s.len() ==> !class.has(s[run_end(s, i, class)]),
        forall|k: int| i <= k < run_end(s, i, class) ==> class.has(#[trigger] s[k]),
    decreases s.len() - i,
{
    if i < s.len() && class.has(s[i]) {
        lemma_run_end(s, i + 1, class);
    }
}

/// A stretch of characters of the class that is followed by the end of the sequence,
/// or by a character outside the class, is the whole run.
pub proof fn lemma_run_end_is(s: Seq<char>, i: int, j: int, class: CharClass)
    requires
        0 <= i <= j <= s.len(),
        forall|k: int| i <= k < j ==> class.has(#[trigger] s[k]),
        j < s.len() ==> !class.has(s[j]),
    ensures
        run_end(s, i, class) == j,
    decreases j - i,
{
    if i < j {
        lemma_run_end_is(s, i + 1, j, class);
    }
}

/// The characters of a string, in order.
pub fn to_chars(s: &str) -> (v: Vec<char>)
    ensures
        v@ == s@,
{
    let mut v: Vec<char> = Vec::new();
    for c in it: s.chars()
        invariant
            v@ == it.seq().take(it.index()),
    {
        v.push(c);
    }
    v
}

/// The string made of the characters `s[from..to]`.
pub fn from_chars(s: &[char], from: usize, to: usize) -> (r: String)
    requires
        from <= to <= s@.len(),
    ensures
        r@ == s@.subrange(from as int, to as int),
{
    let mut r = String::new();
    let mut i: usize = from;
    while i < to
        invariant
            from <= i <= to <= s@.len(),
            r@ == s@.subrange(from as int, i as int),
        decreases to - i,
    {
        r.push(s[i]);
        i += 1;
    }
    r
}

/// Skips the run of characters of `class` that starts at `i`.
pub fn skip(s: &[char], i: usize, class: CharClass) -> (j: usize)
    requires
        i <= s@.len(),
    ensures
        j == run_end(s@, i as int, class),
        i <= j <= s@.len() <= usize::MAX,
{
    let mut j: usize = i;
    while j < s.len() && class.contains(s[j])
        invariant
            i <= j <= s@.len(),
            run_end(s@, i as int, class) == run_end(s@, j as int, class),
        decreases s@.len() - j,
    {
        j += 1;
    }
    proof {
        lemma_run_end(s@, i as int, class);
    }
    j
}

/// Whether the character at `i` exists and is `c`.
pub fn at(s: &[char], i: usize, c: char) -> (b: bool)
    ensures
        b == (i < s@.len() && s@[i as int] == c),
        s@.len() <= usize::MAX,
{
    i < s.len() && s[i] == c
}

/// Where the text of `s` begins once leading white space is taken off.
pub open spec fn trim_start(s: Seq<char>) -> int {
    run_end(s, 0, CharClass::Space)
}

/// Where the text of `s` ends once trailing white space is taken off.
pub open spec fn trim_end(s: Seq<char>) -> int
    decreases s.len(),
{
    if s.len() > 0 && is_space(s.last()) {
        trim_end(s.drop_last())
    } else {
        s.len() as int
    }
}

/// `s` without its leading and trailing white space.
pub open spec fn trim(s: Seq<char>) -> Seq<char> {
    if trim_start(s) < trim_end(s) {
        s.subrange(trim_start(s), trim_end(s))
    } else {
        Seq::empty()
    }
}

/// What `trim_end` is: the last character before it is no white space, and all that
/// follows is.
pub proof fn lemma_trim_end(s: Seq<char>)
    ensures
        0 <= trim_end(s) <= s.len(),
        trim_end(s) > 0 ==> !is_space(s[trim_end(s) - 1]),
        forall|k: int| trim_end(s) <= k < s.len() ==> is_space(#[trigger] s[k]),
    decreases s.len(),
{
    if s.len() > 0 && is_space(s.last()) {
        let t = s.drop_last();
        lemma_trim_end(t);
        assert forall|k: int| trim_end(s) <= k < s.len() implies is_space(#[trigger] s[k]) by {
            if k < t.len() {
                assert(s[k] == t[k]);
            }
        }
        if trim_end(s) > 0 {
            assert(s[trim_end(s) - 1] == t[trim_end(t) - 1]);
        }
    }
}

/// Trimmed text is empty, or begins and ends with a character that is no white space.
pub proof fn lemma_trim_is_trimmed(s: Seq<char>)
    ensures
        trim(s).len() > 0 ==> !is_space(trim(s)[0]) && !is_space(trim(s).last()),
        trim(s).len() <= s.len(),
{
    lemma_run_end(s, 0, CharClass::Space);
    lemma_trim_end(s);
}

/// Text that neither begins nor ends with white space is its own trimmed form.
pub proof fn lemma_trim_of_trimmed(s: Seq<char>)
    requires
        s.len() > 0 ==> !is_space(s[0]) && !is_space(s.last()),
    ensures
        trim(s) == s,
{
    if s.len() > 0 {
        assert(s.subrange(0, s.len() as int) =~= s);
    }
}

/// The trimmed form of `s`, as a string.
pub fn trimmed(s: &[char]) -> (r: String)
    ensures
        r@ == trim(s@),
{
    let a = skip(s, 0, CharClass::Space);
    let mut b: usize = s.len();
    assert(s@.subrange(0, s@.len() as int) =~= s@);
    while b > 0 && s[b - 1].is_whitespace()
        invariant
            0 <= b <= s@.len(),
            trim_end(s@) == trim_end(s@.subrange(0, b as int)),
        decreases b,
    {
        proof {
            let t = s@.subrange(0, b as int);
            assert(t.drop_last() =~= s@.subrange(0, b - 1));
        }
        b -= 1;
    }
    proof {
        assert(s@.subrange(0, s@.len() as int) =~= s@);
        let t = s@.subrange(0, b as int);
        assert(t.len() == b);
        if b > 0 {
            assert(t.last() == s@[b - 1]);
        }
    }
    if a < b {
        from_chars(s, a, b)
    } else {
        String::new()
    }
}

/// Whether `s[x..y]` is one of the words of `s`: a longest stretch without white space.
pub open spec fn is_word_at(s: Seq<char>, x: int, y: int) -> bool {
    &&& 0 <= x < y <= s.len()
    &&& forall|k: int| x <= k < y ==> !is_space(#[trigger] s[k])
    &&& (x == 0 || is_space(s[x - 1]))
    &&& (y == s.len() || is_space(s[y]))
}

/// Whether `word` is one of the words that white space separates in `s`.
pub open spec fn has_word(s: Seq<char>, word: Seq<char>) -> bool {
    exists|x: int, y: int| #[trigger] is_word_at(s, x, y) && s.subrange(x, y) == word
}

/// A value made of two words with a blank between them has each of the two as a word,
/// and is neither of them.
pub proof fn lemma_words_of_pair(a: Seq<char>, b: Seq<char>)
    requires
        a.len() > 0,
        b.len() > 0,
        forall|k: int| 0 <= k < a.len() ==> !is_space(#[trigger] a[k]),
        forall|k: int| 0 <= k < b.len() ==> !is_space(#[trigger] b[k]),
    ensures
        has_word(a + seq![' '] + b, a),
        has_word(a + seq![' '] + b, b),
        a + seq![' '] + b != a,
        a + seq![' '] + b != b,
{
    let s = a + seq![' '] + b;
    let n = a.len() as int;
    assert(s.len() == n + 1 + b.len());
    assert(s[n] == ' ');
    assert forall|k: int| 0 <= k < n implies !is_space(#[trigger] s[k]) by {
        assert(s[k] == a[k]);
    }
    assert forall|k: int| n + 1 <= k < s.len() implies !is_space(#[trigger] s[k]) by {
        assert(s[k] == b[k - n - 1]);
    }
    assert(is_word_at(s, 0, n));
    assert(s.subrange(0, n) =~= a);
    assert(is_word_at(s, n + 1, s.len() as int));
    assert(s.subrange(n + 1, s.len() as int) =~= b);
}

/// Whether `s[from..to]` and `t` hold the same characters.
pub fn same_chars(s: &[char], from: usize, to: usize, t: &[char]) -> (b: bool)
    requires
        from <= to <= s@.len(),
    ensures
        b == (s@.subrange(from as int, to as int) == t@),
{
    if to - from != t.len() {
        return false;
    }
    let n = t.len();
    let mut k: usize = 0;
    while k < n
        invariant
            0 <= k <= n,
            n == t@.len(),
            to - from == n,
            from <= to <= s@.len(),
            forall|m: int| 0 <= m < k ==> s@[from + m] == t@[m],
        decreases n - k,
    {
        if s[from + k] != t[k] {
            assert(s@.subrange(from as int, to as int)[k as int] != t@[k as int]);
            return false;
        }
        k += 1;
    }
    assert(s@.subrange(from as int, to as int) =~= t@);
    true
}

/// Whether `word` is one of the words that white space separates in `s`.
pub fn contains_word(s: &str, word: &str) -> (b: bool)
    ensures
        b == has_word(s@, word@),
{
    let v = to_chars(s);
    let w = to_chars(word);
    let n = v.len();
    let mut i: usize = 0;
    while i < n
        invariant
            0 <= i <= n,
            n == v@.len(),
            v@ == s@,
            w@ == word@,
            i == 0 || i == n || is_space(v@[i as int]),
            forall|x: int, y: int|
                #[trigger] is_word_at(v@, x, y) && x < i ==> v@.subrange(x, y) != w@,
        decreases n - i,
    {
        let a = skip(v.as_slice(), i, CharClass::Space);
        proof {
            lemma_run_end(v@, i as int, CharClass::Space);
        }
        if a == n {
            proof {
                assert forall|x: int, y: int| #[trigger] is_word_at(v@, x, y) implies v@.subrange(
                    x,
                    y,
                ) != w@ by {
                    if x >= i {
                        assert(CharClass::Space.has(v@[x]));
                    }
                }
            }
            return false;
        }
        let b = skip(v.as_slice(), a, CharClass::NonSpace);
        proof {
            lemma_run_end(v@, a as int, CharClass::NonSpace);
            assert(!CharClass::Space.has(v@[a as int]));
            assert(CharClass::NonSpace.has(v@[a as int]));
            assert(b > a);
            assert forall|k: int| a <= k < b implies !is_space(#[trigger] v@[k]) by {
                assert(CharClass::NonSpace.has(v@[k]));
            }
            if a > 0 {
                if a > i {
                    assert(CharClass::Space.has(v@[a - 1]));
                }
            }
            if b < n {
                assert(!CharClass::NonSpace.has(v@[b as int]));
            }
            assert(is_word_at(v@, a as int, b as int));
        }
        if same_chars(v.as_slice(), a, b, w.as_slice()) {
            return true;
        }
        proof {
            assert forall|x: int, y: int| #[trigger] is_word_at(v@, x, y) && x < b implies v@.subrange(
                x,
                y,
            ) != w@ by {
                if x >= i {
                    if x < a {
                        assert(CharClass::Space.has(v@[x]));
                    }
                    if x > a {
                        assert(!is_space(v@[x - 1]));
                    }
                    assert(x == a);
                    if y > b {
                        assert(!is_space(v@[b as int]));
                    }
                    if y < b {
                        assert(!is_space(v@[y]));
                    }
                    assert(y == b);
                }
            }
        }
        i = b;
    }
    false
}

} // verus!
