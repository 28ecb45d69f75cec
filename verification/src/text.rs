//! Character classes and the sequence notions in which the directive grammar
//! is stated: runs of characters, trimming, and splitting into words.
//!
//! Every notion is a spec function over `Seq<char>`; the executable helpers
//! below compute them over a string that was read into a `Vec<char>` once.

use vstd::prelude::*;
use vstd::string::*;

verus! {

/// Whether `c` is white space: a character with the Unicode `White_Space` property.
pub open spec fn is_space(c: char) -> bool {
    let n = c as u32;
    ||| 0x09 <= n <= 0x0D
    ||| n == 0x20
    ||| n == 0x85
    ||| n == 0xA0
    ||| n == 0x1680
    ||| 0x2000 <= n <= 0x200A
    ||| n == 0x2028
    ||| n == 0x2029
    ||| n == 0x202F
    ||| n == 0x205F
    ||| n == 0x3000
}

/// Whether `c` is one of the two parentheses.
pub open spec fn is_paren(c: char) -> bool {
    c == '(' || c == ')'
}

/// Whether `c` may occur in a flag name: neither white space nor a parenthesis.
pub open spec fn is_flag_char(c: char) -> bool {
    !is_space(c) && !is_paren(c)
}

/// The classes of characters that the grammar tells apart.
#[derive(Clone, Copy, Debug)]
pub enum CharClass {
    /// White space.
    Space,
    /// Anything but white space.
    NonSpace,
    /// What a flag name is made of.
    Flag,
    /// Anything but a parenthesis.
    NonParen,
}

impl CharClass {
    /// Whether `c` belongs to the class.
    pub open spec fn has(self, c: char) -> bool {
        match self {
            CharClass::Space => is_space(c),
            CharClass::NonSpace => !is_space(c),
            CharClass::Flag => is_flag_char(c),
            CharClass::NonParen => !is_paren(c),
        }
    }

    /// Tests `c` for membership in the class.
    pub(crate) fn contains(&self, c: char) -> (r: bool)
        ensures
            r == self.has(c),
    {
        let n: u32 = c as u32;
        let space = (0x09 <= n && n <= 0x0D) || n == 0x20 || n == 0x85 || n == 0xA0 || n == 0x1680
            || (0x2000 <= n && n <= 0x200A) || n == 0x2028 || n == 0x2029 || n == 0x202F || n
            == 0x205F || n == 0x3000;
        match self {
            CharClass::Space => space,
            CharClass::NonSpace => !space,
            CharClass::Flag => !space && c != '(' && c != ')',
            CharClass::NonParen => c != '(' && c != ')',
        }
    }
}

/// The length of the longest prefix of `s` whose characters all belong to `k`.
pub open spec fn run_len(s: Seq<char>, k: CharClass) -> nat
    decreases s.len(),
{
    if s.len() > 0 && k.has(s[0]) {
        1 + run_len(s.skip(1), k)
    } else {
        0
    }
}

/// The length of the longest suffix of `s` that is white space.
pub open spec fn trailing_spaces(s: Seq<char>) -> nat
    decreases s.len(),
{
    if s.len() > 0 && is_space(s.last()) {
        1 + trailing_spaces(s.drop_last())
    } else {
        0
    }
}

/// `s` without its leading white space.
pub open spec fn trim_start(s: Seq<char>) -> Seq<char> {
    s.skip(run_len(s, CharClass::Space) as int)
}

/// `s` without its trailing white space.
pub open spec fn trim_end(s: Seq<char>) -> Seq<char> {
    s.take(s.len() - trailing_spaces(s))
}

/// `s` without its leading and trailing white space.
pub open spec fn trim(s: Seq<char>) -> Seq<char> {
    trim_end(trim_start(s))
}

/// Whether `s` holds nothing but white space.
pub open spec fn is_blank(s: Seq<char>) -> bool {
    forall|i: int| 0 <= i < s.len() ==> is_space(#[trigger] s[i])
}

/// Whether `s` begins with `prefix`.
pub open spec fn starts_with(s: Seq<char>, prefix: Seq<char>) -> bool {
    prefix.len() <= s.len() && s.take(prefix.len() as int) == prefix
}

/// The words of `s`: its maximal runs of characters that are not white space,
/// in the order in which they stand.
pub open spec fn words(s: Seq<char>) -> Seq<Seq<char>>
    decreases s.len(),
{
    let rest = trim_start(s);
    let n = run_len(rest, CharClass::NonSpace);
    if n == 0 {
        Seq::empty()
    } else {
        proof {
            lemma_run_len(s, CharClass::Space);
            lemma_run_len(rest, CharClass::NonSpace);
        }
        seq![rest.take(n as int)] + words(rest.skip(n as int))
    }
}

/// What `run_len` returns: it stays inside `s`, covers only characters of the
/// class, and stops at the end of `s` or before a character outside the class.
pub proof fn lemma_run_len(s: Seq<char>, k: CharClass)
    ensures
        run_len(s, k) <= s.len(),
        forall|i: int| 0 <= i < run_len(s, k) ==> k.has(#[trigger] s[i]),
        run_len(s, k) < s.len() ==> !k.has(s[run_len(s, k) as int]),
    decreases s.len(),
{
    if s.len() > 0 && k.has(s[0]) {
        let t = s.skip(1);
        lemma_run_len(t, k);
        assert forall|i: int| 0 <= i < run_len(s, k) implies k.has(#[trigger] s[i]) by {
            if i > 0 {
                assert(s[i] == t[i - 1]);
            }
        }
    }
}

/// `run_len` is the only length with the properties of `lemma_run_len`.
pub proof fn lemma_run_len_unique(s: Seq<char>, k: CharClass, n: int)
    requires
        0 <= n <= s.len(),
        forall|i: int| 0 <= i < n ==> k.has(#[trigger] s[i]),
        n < s.len() ==> !k.has(s[n]),
    ensures
        run_len(s, k) == n,
    decreases s.len(),
{
    if n > 0 {
        lemma_run_len_unique(s.skip(1), k, n - 1);
    }
}

/// What `trailing_spaces` returns, in the manner of `lemma_run_len`.
pub proof fn lemma_trailing_spaces(s: Seq<char>)
    ensures
        trailing_spaces(s) <= s.len(),
        forall|i: int| s.len() - trailing_spaces(s) <= i < s.len() ==> is_space(#[trigger] s[i]),
        trailing_spaces(s) < s.len() ==> !is_space(s[s.len() - trailing_spaces(s) - 1]),
    decreases s.len(),
{
    if s.len() > 0 && is_space(s.last()) {
        let t = s.drop_last();
        lemma_trailing_spaces(t);
        assert forall|i: int| s.len() - trailing_spaces(s) <= i < s.len() implies is_space(
            #[trigger] s[i],
        ) by {
            if i < s.len() - 1 {
                assert(s[i] == t[i]);
            }
        }
    }
}

/// `trailing_spaces` is the only length with the properties of `lemma_trailing_spaces`.
pub proof fn lemma_trailing_spaces_unique(s: Seq<char>, n: int)
    requires
        0 <= n <= s.len(),
        forall|i: int| s.len() - n <= i < s.len() ==> is_space(#[trigger] s[i]),
        n < s.len() ==> !is_space(s[s.len() - n - 1]),
    ensures
        trailing_spaces(s) == n,
    decreases s.len(),
{
    if n > 0 {
        lemma_trailing_spaces_unique(s.drop_last(), n - 1);
    }
}

/// What `trim` returns: the part of `s` between its leading and its trailing
/// white space. It neither begins nor ends with white space, and it is empty
/// exactly when `s` is blank.
pub proof fn lemma_trim(s: Seq<char>)
    ensures
        trim(s).len() > 0 ==> !is_space(trim(s)[0]) && !is_space(trim(s).last()),
        is_blank(s) <==> trim(s).len() == 0,
        trim(s) == s.subrange(
            run_len(s, CharClass::Space) as int,
            s.len() - trailing_spaces(trim_start(s)),
        ),
        run_len(s, CharClass::Space) <= s.len() - trailing_spaces(trim_start(s)) <= s.len(),
{
    let t = trim_start(s);
    lemma_run_len(s, CharClass::Space);
    lemma_trailing_spaces(t);
    if t.len() > 0 {
        // `t` begins with a character that is no white space, so that its
        // trailing white space cannot be the whole of it.
        assert(trailing_spaces(t) < t.len()) by {
            if trailing_spaces(t) == t.len() {
                assert(is_space(t[0]));
            }
        }
    }
}

/// Reads the characters of `s` into a vector.
pub(crate) fn to_chars(s: &str) -> (v: Vec<char>)
    ensures
        v@ == s@,
{
    broadcast use vstd::string::group_string_axioms;

    let mut v: Vec<char> = Vec::new();
    for c in it: s.chars()
        invariant
            it.seq() == s@,
            v@ == s@.take(it.index() as int),
    {
        v.push(c);
    }
    v
}

/// The part of `text` between the character positions `from` and `to`.
pub(crate) fn slice<'a>(text: &'a str, from: usize, to: usize) -> (r: &'a str)
    requires
        from <= to <= text@.len(),
    ensures
        r@ == text@.subrange(from as int, to as int),
{
    text.substring_char(from, to)
}

/// Whether two strings hold the same characters.
pub(crate) fn str_eq(a: &str, b: &str) -> (r: bool)
    ensures
        r == (a@ == b@),
{
    let x = a.as_bytes();
    let y = b.as_bytes();
    proof {
        // Two strings with the same UTF-8 bytes decode to the same characters.
        vstd::utf8::encode_utf8_decode_utf8(a@);
        vstd::utf8::encode_utf8_decode_utf8(b@);
    }
    if x.len() != y.len() {
        return false;
    }
    let mut i: usize = 0;
    while i < x.len()
        invariant
            i <= x.len(),
            x.len() == y.len(),
            x@ == a.spec_bytes(),
            y@ == b.spec_bytes(),
            vstd::utf8::decode_utf8(a.spec_bytes()) == a@,
            vstd::utf8::decode_utf8(b.spec_bytes()) == b@,
            forall|j: int| 0 <= j < i ==> x@[j] == y@[j],
        decreases x.len() - i,
    {
        if x[i] != y[i] {
            return false;
        }
        i += 1;
    }
    assert(x@ =~= y@);
    true
}

/// Where the run of class `k` that starts at `from` ends, looking no further
/// than `to`.
pub(crate) fn scan_run(chars: &Vec<char>, from: usize, to: usize, k: CharClass) -> (end: usize)
    requires
        from <= to <= chars.len(),
    ensures
        from <= end <= to,
        end - from == run_len(chars@.subrange(from as int, to as int), k),
{
    let ghost s = chars@.subrange(from as int, to as int);
    let mut end: usize = from;
    while end < to && k.contains(chars[end])
        invariant
            from <= end <= to <= chars.len(),
            s == chars@.subrange(from as int, to as int),
            forall|i: int| 0 <= i < end - from ==> k.has(#[trigger] s[i]),
        decreases to - end,
    {
        end += 1;
    }
    proof {
        lemma_run_len_unique(s, k, end - from);
    }
    end
}

/// Where the white space that ends at `to` begins, looking no further back
/// than `from`.
pub(crate) fn scan_spaces_back(chars: &Vec<char>, from: usize, to: usize) -> (start: usize)
    requires
        from <= to <= chars.len(),
    ensures
        from <= start <= to,
        to - start == trailing_spaces(chars@.subrange(from as int, to as int)),
{
    let ghost s = chars@.subrange(from as int, to as int);
    let mut start: usize = to;
    while start > from && CharClass::Space.contains(chars[start - 1])
        invariant
            from <= start <= to <= chars.len(),
            s == chars@.subrange(from as int, to as int),
            forall|i: int| start - from <= i < s.len() ==> is_space(#[trigger] s[i]),
        decreases start - from,
    {
        start -= 1;
    }
    proof {
        lemma_trailing_spaces_unique(s, to - start);
    }
    start
}

/// `text` without its leading and trailing white space.
pub(crate) fn trimmed<'a>(text: &'a str) -> (r: &'a str)
    ensures
        r@ == trim(text@),
{
    let chars = to_chars(text);
    let start: usize = scan_run(&chars, 0, chars.len(), CharClass::Space);
    let end: usize = scan_spaces_back(&chars, start, chars.len());
    proof {
        assert(chars@.subrange(0, chars.len() as int) =~= text@);
    }
    slice(text, start, end)
}

/// Whether `text` holds nothing but white space.
pub(crate) fn all_space(text: &str) -> (r: bool)
    ensures
        r == is_blank(text@),
{
    let chars = to_chars(text);
    let end: usize = scan_run(&chars, 0, chars.len(), CharClass::Space);
    proof {
        assert(chars@.subrange(0, chars.len() as int) =~= text@);
        lemma_run_len(text@, CharClass::Space);
    }
    end == chars.len()
}

} // verus!
