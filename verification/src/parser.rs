//! The grammar of conditions and of the lines that carry them.
//!
//! A condition is a single flag name, or a list form: `(and a b ...)` or
//! `(or a b ...)` with at least one flag name. A line is a close marker
//! (`#endif`), a directive (`#if` and a condition, alone on its line or after
//! some content), or plain content.
//!
//! The grammar is stated over sequences of characters (`form_value`,
//! `parse_condition_spec`, `classify`). The functions below consume a form
//! from the front of a string and hand back what is left, in the manner of
//! parser combinators, and each is proved to agree with that statement.

use crate::condition::{is_flag, Condition, ConditionView};
use crate::text::{
    is_blank, is_flag_char, is_paren, is_space, lemma_run_len, lemma_run_len_unique, run_len,
    scan_run, scan_spaces_back, slice, starts_with, to_chars, trim, trim_end, trim_start, trimmed,
    words, CharClass,
};
use vstd::prelude::*;

verus! {

/// The two list forms of a condition.
#[derive(Clone, Copy, Debug)]
pub enum ListKind {
    And,
    Or,
}

impl ListKind {
    /// The characters that open the form.
    pub open spec fn keyword(self) -> Seq<char> {
        match self {
            ListKind::And => seq!['(', 'a', 'n', 'd'],
            ListKind::Or => seq!['(', 'o', 'r'],
        }
    }

    /// The condition of this form over `terms`.
    pub open spec fn over(self, terms: Seq<Seq<char>>) -> ConditionView {
        match self {
            ListKind::And => ConditionView::And(terms),
            ListKind::Or => ConditionView::Or(terms),
        }
    }

    fn keyword_chars(&self) -> (v: Vec<char>)
        ensures
            v@ == self.keyword(),
    {
        match self {
            ListKind::And => vec!['(', 'a', 'n', 'd'],
            ListKind::Or => vec!['(', 'o', 'r'],
        }
    }

    fn build(&self, terms: Vec<String>) -> (c: Condition)
        ensures
            c@ == self.over(terms.deep_view()),
    {
        match self {
            ListKind::And => Condition::And(terms),
            ListKind::Or => Condition::Or(terms),
        }
    }
}

/// Whether `word` stands in `s` at position `at`.
pub open spec fn occurs_at(s: Seq<char>, word: Seq<char>, at: int) -> bool {
    0 <= at && at + word.len() <= s.len() && s.subrange(at, at + word.len()) == word
}

/// Whether `s` holds no parenthesis.
pub open spec fn paren_free(s: Seq<char>) -> bool {
    forall|i: int| 0 <= i < s.len() ==> !is_paren(#[trigger] s[i])
}

/// What stands between the keyword and the closing parenthesis of a list form.
pub open spec fn list_inner(t: Seq<char>, kind: ListKind) -> Seq<char> {
    t.subrange(kind.keyword().len() as int, t.len() - 1)
}

/// Whether `t`, as a whole, is a list form of kind `kind`: the keyword, white
/// space, one or more flag names separated by white space, and the closing
/// parenthesis, with white space allowed before it.
pub open spec fn is_list_form(t: Seq<char>, kind: ListKind) -> bool {
    &&& t.len() >= kind.keyword().len() + 2
    &&& starts_with(t, kind.keyword())
    &&& t.last() == ')'
    &&& is_space(list_inner(t, kind)[0])
    &&& paren_free(list_inner(t, kind))
    &&& words(list_inner(t, kind)).len() > 0
}

/// The condition that `t`, as a whole, states; `None` where `t` is none of
/// the three forms.
pub open spec fn form_value(t: Seq<char>) -> Option<ConditionView> {
    if is_flag(t) {
        Some(ConditionView::Single(t))
    } else if is_list_form(t, ListKind::And) {
        Some(ConditionView::And(words(list_inner(t, ListKind::And))))
    } else if is_list_form(t, ListKind::Or) {
        Some(ConditionView::Or(words(list_inner(t, ListKind::Or))))
    } else {
        None
    }
}

/// Whether some prefix of `s` is a list form of kind `kind`.
pub open spec fn has_list_prefix(s: Seq<char>, kind: ListKind) -> bool {
    exists|n: int| 0 <= n <= s.len() && is_list_form(#[trigger] s.take(n), kind)
}

/// Whether no prefix of `s` longer than `n` is a form.
pub open spec fn no_form_beyond(s: Seq<char>, n: int) -> bool {
    forall|m: int| n < m <= s.len() ==> form_value(#[trigger] s.take(m)) is None
}

/// Whether some prefix of `t` other than `t` itself is a form.
pub open spec fn has_proper_form_prefix(t: Seq<char>) -> bool {
    exists|n: int| 0 <= n < t.len() && form_value(#[trigger] t.take(n)) is Some
}

/// What a list-form parser returns on success: `rest` is what follows the
/// form that stands at the front of `s`, and `cond` is what the form states.
pub open spec fn list_parsed(
    s: Seq<char>,
    kind: ListKind,
    rest: Seq<char>,
    cond: ConditionView,
) -> bool {
    let n = s.len() - rest.len();
    &&& 0 <= n <= s.len()
    &&& rest == s.skip(n)
    &&& is_list_form(s.take(n), kind)
    &&& cond == kind.over(words(list_inner(s.take(n), kind)))
}

/// What `parse_condition` returns on success: `rest` is what follows the
/// longest form that stands at the front of `s`, and `cond` is what it states.
pub open spec fn form_parsed(s: Seq<char>, rest: Seq<char>, cond: ConditionView) -> bool {
    let n = s.len() - rest.len();
    &&& 0 <= n <= s.len()
    &&& rest == s.skip(n)
    &&& form_value(s.take(n)) == Some(cond)
    &&& no_form_beyond(s, n)
}

/// Why a text is not a condition.
#[derive(Clone, Copy, Debug, PartialEq, Eq)]
pub enum MalformedReason {
    /// The directive keyword is not followed by white space.
    MissingSeparator,
    /// The text does not begin with any of the three forms.
    NoMatch,
    /// The text begins with a form, and more follows it.
    TrailingCharacters,
}

/// A text that is not a condition, and why.
#[derive(Clone, Debug, PartialEq)]
pub struct MalformedCondition {
    /// The offending text, without surrounding white space.
    pub text: String,
    pub reason: MalformedReason,
}

/// What a `MalformedCondition` stands for.
pub struct MalformedView {
    pub text: Seq<char>,
    pub reason: MalformedReason,
}

impl View for MalformedCondition {
    type V = MalformedView;

    open spec fn view(&self) -> MalformedView {
        MalformedView { text: self.text@, reason: self.reason }
    }
}

/// What a condition text means: the condition it states once surrounding
/// white space is taken off, or why it states none.
pub open spec fn parse_condition_spec(text: Seq<char>) -> Result<ConditionView, MalformedView> {
    let t = trim(text);
    match form_value(t) {
        Some(cond) => Ok(cond),
        None => Err(
            MalformedView {
                text: t,
                reason: if has_proper_form_prefix(t) {
                    MalformedReason::TrailingCharacters
                } else {
                    MalformedReason::NoMatch
                },
            },
        ),
    }
}

/// Each word of a sequence without parentheses can be a flag name.
pub proof fn lemma_words_are_flags(s: Seq<char>)
    requires
        paren_free(s),
    ensures
        forall|i: int| 0 <= i < words(s).len() ==> is_flag(#[trigger] words(s)[i]),
    decreases s.len(),
{
    let rest = trim_start(s);
    let n = run_len(rest, CharClass::NonSpace);
    lemma_run_len(s, CharClass::Space);
    lemma_run_len(rest, CharClass::NonSpace);
    if n > 0 {
        // The first word is a run of characters that are neither white space
        // nor, being characters of `s`, parentheses; the others are the
        // words of what follows it.
        let tail = rest.skip(n as int);
        lemma_words_are_flags(tail);
        assert forall|i: int| 0 <= i < words(s).len() implies is_flag(#[trigger] words(s)[i]) by {
            if i > 0 {
                assert(words(s)[i] == words(tail)[i - 1]);
            }
        }
    }
}

/// A form states a well-formed condition.
pub proof fn lemma_form_value_well_formed(t: Seq<char>)
    ensures
        form_value(t) matches Some(cond) ==> cond.well_formed(),
{
    if !is_flag(t) {
        if is_list_form(t, ListKind::And) {
            lemma_words_are_flags(list_inner(t, ListKind::And));
        } else if is_list_form(t, ListKind::Or) {
            lemma_words_are_flags(list_inner(t, ListKind::Or));
        }
    }
}

/// A list form ends at the first parenthesis that follows its keyword: where
/// a prefix of `s` is a list form, its length is fixed by `s`.
pub proof fn lemma_list_form_end(s: Seq<char>, kind: ListKind, n: int)
    requires
        0 <= n <= s.len(),
        is_list_form(s.take(n), kind),
    ensures
        n - 1 == kind.keyword().len() + run_len(
            s.subrange(kind.keyword().len() as int, s.len() as int),
            CharClass::NonParen,
        ),
{
    // Between the keyword and the last character of the form stands no
    // parenthesis, and the last character is one.
    let k = kind.keyword().len() as int;
    let inner = list_inner(s.take(n), kind);
    let tail = s.subrange(k, s.len() as int);
    assert forall|i: int| 0 <= i < n - 1 - k implies CharClass::NonParen.has(
        #[trigger] tail[i],
    ) by {
        assert(tail[i] == inner[i]);
    }
    lemma_run_len_unique(tail, CharClass::NonParen, n - 1 - k);
}

/// Whether `word` stands in `chars` at position `at`.
fn matches_at(chars: &Vec<char>, at: usize, word: &Vec<char>) -> (r: bool)
    ensures
        r == occurs_at(chars@, word@, at as int),
{
    if word.len() > chars.len() || at > chars.len() - word.len() {
        return false;
    }
    let mut i: usize = 0;
    while i < word.len()
        invariant
            i <= word.len(),
            at + word.len() <= chars.len(),
            forall|j: int| 0 <= j < i ==> chars@[at + j] == word@[j],
        decreases word.len() - i,
    {
        if chars[at + i] != word[i] {
            return false;
        }
        i += 1;
    }
    assert(chars@.subrange(at as int, at + word.len()) =~= word@);
    true
}

/// The words of `text` between the positions `from` and `to`.
fn split_words(text: &str, chars: &Vec<char>, from: usize, to: usize) -> (out: Vec<String>)
    requires
        chars@ == text@,
        from <= to <= chars.len(),
    ensures
        out.deep_view() == words(chars@.subrange(from as int, to as int)),
{
    let mut out: Vec<String> = Vec::new();
    let mut pos: usize = from;
    let ghost all = words(chars@.subrange(from as int, to as int));
    loop
        invariant
            chars@ == text@,
            from <= pos <= to <= chars.len(),
            all == words(chars@.subrange(from as int, to as int)),
            out.deep_view() + words(chars@.subrange(pos as int, to as int)) == all,
        ensures
            out.deep_view() == all,
        decreases to - pos,
    {
        let start: usize = scan_run(chars, pos, to, CharClass::Space);
        let end: usize = scan_run(chars, start, to, CharClass::NonSpace);
        let ghost rest = trim_start(chars@.subrange(pos as int, to as int));
        assert(rest =~= chars@.subrange(start as int, to as int));
        if end == start {
            break ;
        }
        out.push(slice(text, start, end).to_owned());
        proof {
            // The word just taken is the first word of what was left, and
            // what is left now is what followed it.
            assert(rest.take(end - start) =~= chars@.subrange(start as int, end as int));
            assert(rest.skip(end - start) =~= chars@.subrange(end as int, to as int));
        }
        pos = end;
    }
    out
}

/// Consumes a list form of kind `kind` from the front of `input`, which was
/// read into `chars`.
fn list_in<'a>(input: &'a str, chars: &Vec<char>, kind: ListKind) -> (r: Option<
    (&'a str, Condition),
>)
    requires
        chars@ == input@,
    ensures
        match r {
            Some((rest, cond)) => list_parsed(input@, kind, rest@, cond@),
            None => !has_list_prefix(input@, kind),
        },
{
    let len: usize = chars.len();
    let keyword = kind.keyword_chars();
    let k: usize = keyword.len();
    let ghost s = input@;
    if !matches_at(chars, 0, &keyword) {
        assert forall|n: int| 0 <= n <= s.len() implies !is_list_form(#[trigger] s.take(n), kind) by {
            if is_list_form(s.take(n), kind) {
                assert(s.take(n).take(k as int) =~= s.subrange(0, k as int));
            }
        }
        return None;
    }
    // A list form ends at the first parenthesis after the keyword.
    let close: usize = scan_run(chars, k, len, CharClass::NonParen);
    proof {
        lemma_run_len(s.subrange(k as int, len as int), CharClass::NonParen);
    }
    if close == len || chars[close] != ')' || close == k || !CharClass::Space.contains(chars[k]) {
        assert forall|n: int| 0 <= n <= s.len() implies !is_list_form(#[trigger] s.take(n), kind) by {
            if is_list_form(s.take(n), kind) {
                lemma_list_form_end(s, kind, n);
                assert(s.take(n).last() == s[close as int]);
                assert(list_inner(s.take(n), kind)[0] == s[k as int]);
            }
        }
        return None;
    }
    let terms = split_words(input, chars, k, close);
    let ghost form = s.take(close + 1);
    assert(list_inner(form, kind) =~= s.subrange(k as int, close as int));
    if terms.len() == 0 {
        assert forall|n: int| 0 <= n <= s.len() implies !is_list_form(#[trigger] s.take(n), kind) by {
            if is_list_form(s.take(n), kind) {
                lemma_list_form_end(s, kind, n);
            }
        }
        return None;
    }
    assert(form.take(k as int) =~= s.take(k as int));
    Some((slice(input, close + 1, len), kind.build(terms)))
}

/// Consumes a flag name from the front of `input`, which was read into
/// `chars`.
fn flag_in<'a>(input: &'a str, chars: &Vec<char>) -> (r: Option<(&'a str, &'a str)>)
    requires
        chars@ == input@,
    ensures
        match r {
            Some((rest, name)) => {
                &&& name@.len() == run_len(input@, CharClass::Flag)
                &&& is_flag(name@)
                &&& name@ == input@.take(name@.len() as int)
                &&& rest@ == input@.skip(name@.len() as int)
            },
            None => run_len(input@, CharClass::Flag) == 0,
        },
{
    let end: usize = scan_run(chars, 0, chars.len(), CharClass::Flag);
    proof {
        assert(chars@.subrange(0, chars.len() as int) =~= input@);
        lemma_run_len(input@, CharClass::Flag);
    }
    if end == 0 {
        None
    } else {
        Some((slice(input, end, chars.len()), slice(input, 0, end)))
    }
}

/// Consumes a flag name from the front of `input`: its longest prefix made
/// of characters that are neither white space nor parentheses. `None` where
/// that prefix is empty.
pub fn identifier<'a>(input: &'a str) -> (r: Option<(&'a str, &'a str)>)
    ensures
        match r {
            Some((rest, name)) => {
                &&& name@.len() == run_len(input@, CharClass::Flag)
                &&& is_flag(name@)
                &&& name@ == input@.take(name@.len() as int)
                &&& rest@ == input@.skip(name@.len() as int)
            },
            None => run_len(input@, CharClass::Flag) == 0,
        },
{
    let chars = to_chars(input);
    flag_in(input, &chars)
}

/// Consumes a single-flag condition from the front of `input`.
pub fn parse_single<'a>(input: &'a str) -> (r: Option<(&'a str, Condition)>)
    ensures
        match r {
            Some((rest, cond)) => {
                let n = run_len(input@, CharClass::Flag) as int;
                &&& n > 0
                &&& cond@ == ConditionView::Single(input@.take(n))
                &&& is_flag(input@.take(n))
                &&& rest@ == input@.skip(n)
            },
            None => run_len(input@, CharClass::Flag) == 0,
        },
{
    match identifier(input) {
        Some((rest, name)) => Some((rest, Condition::Single(name.to_owned()))),
        None => None,
    }
}

/// Consumes `(and a b ...)` from the front of `input`.
pub fn parse_and<'a>(input: &'a str) -> (r: Option<(&'a str, Condition)>)
    ensures
        match r {
            Some((rest, cond)) => list_parsed(input@, ListKind::And, rest@, cond@),
            None => !has_list_prefix(input@, ListKind::And),
        },
{
    let chars = to_chars(input);
    list_in(input, &chars, ListKind::And)
}

/// Consumes `(or a b ...)` from the front of `input`.
pub fn parse_or<'a>(input: &'a str) -> (r: Option<(&'a str, Condition)>)
    ensures
        match r {
            Some((rest, cond)) => list_parsed(input@, ListKind::Or, rest@, cond@),
            None => !has_list_prefix(input@, ListKind::Or),
        },
{
    let chars = to_chars(input);
    list_in(input, &chars, ListKind::Or)
}

/// A list form is of one kind only, and it is no flag name: it begins with
/// a parenthesis, and its second character tells its kind.
proof fn lemma_list_form_head(t: Seq<char>, kind: ListKind)
    requires
        is_list_form(t, kind),
    ensures
        t[0] == '(',
        t[1] == kind.keyword()[1],
        !is_flag(t),
        is_list_form(t, ListKind::And) ==> kind is And,
        is_list_form(t, ListKind::Or) ==> kind is Or,
{
    let head = t.take(kind.keyword().len() as int);
    assert(t[0] == head[0] && t[1] == head[1]);
    assert(!is_flag_char(t[0]));
    if is_list_form(t, ListKind::And) {
        assert(t[1] == t.take(ListKind::And.keyword().len() as int)[1]);
    }
    if is_list_form(t, ListKind::Or) {
        assert(t[1] == t.take(ListKind::Or.keyword().len() as int)[1]);
    }
}

/// A prefix that is a list form is the longest prefix that is a form.
proof fn lemma_list_prefix_is_longest(s: Seq<char>, kind: ListKind, n: int)
    requires
        0 <= n <= s.len(),
        is_list_form(s.take(n), kind),
    ensures
        form_value(s.take(n)) == Some(kind.over(words(list_inner(s.take(n), kind)))),
        no_form_beyond(s, n),
{
    lemma_list_form_head(s.take(n), kind);
    assert forall|m: int| n < m <= s.len() implies form_value(#[trigger] s.take(m)) is None by {
        // A longer prefix begins with the same parenthesis, so that it is no
        // flag name; and were it a list form, it would end where this one
        // ends.
        let longer = s.take(m);
        assert(longer[0] == s.take(n)[0]);
        assert(!is_flag_char(longer[0]));
        lemma_list_form_end(s, kind, n);
        if is_list_form(longer, ListKind::And) {
            lemma_list_form_head(longer, ListKind::And);
            lemma_list_form_end(s, ListKind::And, m);
        }
        if is_list_form(longer, ListKind::Or) {
            lemma_list_form_head(longer, ListKind::Or);
            lemma_list_form_end(s, ListKind::Or, m);
        }
    }
}

/// The longest prefix of flag characters, where it is not empty, is the
/// longest prefix that is a form.
proof fn lemma_flag_prefix_is_longest(s: Seq<char>)
    requires
        run_len(s, CharClass::Flag) > 0,
    ensures
        is_flag(s.take(run_len(s, CharClass::Flag) as int)),
        form_value(s.take(run_len(s, CharClass::Flag) as int)) == Some(
            ConditionView::Single(s.take(run_len(s, CharClass::Flag) as int)),
        ),
        no_form_beyond(s, run_len(s, CharClass::Flag) as int),
{
    let n = run_len(s, CharClass::Flag) as int;
    lemma_run_len(s, CharClass::Flag);
    assert forall|m: int| n < m <= s.len() implies form_value(#[trigger] s.take(m)) is None by {
        // A longer prefix holds a character that is no flag character, and
        // it begins with one, which is no parenthesis.
        let longer = s.take(m);
        assert(!is_flag_char(longer[n]));
        assert(is_flag_char(longer[0]));
        if is_list_form(longer, ListKind::And) {
            lemma_list_form_head(longer, ListKind::And);
        }
        if is_list_form(longer, ListKind::Or) {
            lemma_list_form_head(longer, ListKind::Or);
        }
    }
}

/// Where `s` begins with neither a flag character nor a list form, no prefix
/// of it is a form.
proof fn lemma_no_form(s: Seq<char>)
    requires
        run_len(s, CharClass::Flag) == 0,
        !has_list_prefix(s, ListKind::And),
        !has_list_prefix(s, ListKind::Or),
    ensures
        no_form_beyond(s, -1),
{
    assert forall|m: int| -1 < m <= s.len() implies form_value(#[trigger] s.take(m)) is None by {
        if m > 0 {
            assert(s.take(m)[0] == s[0]);
            assert(!CharClass::Flag.has(s[0]));
        }
    }
}

/// Consumes a condition from the front of `input`: a list form if one stands
/// there, else the longest flag name.
pub fn parse_condition<'a>(input: &'a str) -> (r: Option<(&'a str, Condition)>)
    ensures
        match r {
            Some((rest, cond)) => form_parsed(input@, rest@, cond@),
            None => no_form_beyond(input@, -1),
        },
{
    let chars = to_chars(input);
    match list_in(input, &chars, ListKind::And) {
        Some((rest, cond)) => {
            proof {
                lemma_list_prefix_is_longest(input@, ListKind::And, input@.len() - rest@.len());
            }
            return Some((rest, cond));
        },
        None => {},
    }
    match list_in(input, &chars, ListKind::Or) {
        Some((rest, cond)) => {
            proof {
                lemma_list_prefix_is_longest(input@, ListKind::Or, input@.len() - rest@.len());
            }
            return Some((rest, cond));
        },
        None => {},
    }
    match flag_in(input, &chars) {
        Some((rest, name)) => {
            proof {
                lemma_flag_prefix_is_longest(input@);
                lemma_run_len(input@, CharClass::Flag);
            }
            Some((rest, Condition::Single(name.to_owned())))
        },
        None => {
            proof {
                lemma_no_form(input@);
            }
            None
        },
    }
}

/// The view of what `parse_condition_str` returns.
pub open spec fn condition_result_view(r: Result<Condition, MalformedCondition>) -> Result<
    ConditionView,
    MalformedView,
> {
    match r {
        Ok(cond) => Ok(cond@),
        Err(e) => Err(e@),
    }
}

/// Parses a condition text. The text is a condition when, once surrounding
/// white space is taken off, the whole of it is one of the three forms.
pub fn parse_condition_str(input: &str) -> (r: Result<Condition, MalformedCondition>)
    ensures
        condition_result_view(r) == parse_condition_spec(input@),
        r matches Ok(cond) ==> cond@.well_formed(),
{
    let text = trimmed(input);
    let ghost t = text@;
    proof {
        lemma_form_value_well_formed(t);
    }
    match parse_condition(text) {
        Some((rest, cond)) => {
            if rest.is_empty() {
                Ok(cond)
            } else {
                // The form ends before the text does: the whole text is no
                // form, and a proper prefix of it is one.
                assert(t.take(t.len() as int) =~= t);
                Err(
                    MalformedCondition {
                        text: text.to_owned(),
                        reason: MalformedReason::TrailingCharacters,
                    },
                )
            }
        },
        None => {
            assert(t.take(t.len() as int) =~= t);
            Err(MalformedCondition { text: text.to_owned(), reason: MalformedReason::NoMatch })
        },
    }
}

/// The characters that mark a directive.
pub open spec fn marker() -> Seq<char> {
    seq!['#', 'i', 'f']
}

/// The characters that close a block.
pub open spec fn close_token() -> Seq<char> {
    seq!['#', 'e', 'n', 'd', 'i', 'f']
}

/// The first position at or after `from` at which `word` stands in `s`.
pub open spec fn find_from(s: Seq<char>, word: Seq<char>, from: int) -> Option<int>
    decreases s.len() - from + 1,
{
    if from < 0 || from + word.len() > s.len() {
        None
    } else if occurs_at(s, word, from) {
        Some(from)
    } else {
        find_from(s, word, from + 1)
    }
}

/// The first position at which `word` stands in `s`.
pub open spec fn first_occurrence(s: Seq<char>, word: Seq<char>) -> Option<int> {
    find_from(s, word, 0)
}

/// Whether `word` stands at no position of `s` from `from` up to, and not
/// counting, `to`.
pub open spec fn absent_between(s: Seq<char>, word: Seq<char>, from: int, to: int) -> bool {
    forall|j: int| from <= j < to ==> !occurs_at(s, word, j)
}

/// What `find_from` returns: a position where `word` stands, with none
/// before it; or nothing, where `word` stands nowhere from `from` on.
pub proof fn lemma_find_from(s: Seq<char>, word: Seq<char>, from: int)
    requires
        0 <= from,
    ensures
        find_from(s, word, from) matches Some(at) ==> from <= at && occurs_at(s, word, at)
            && absent_between(s, word, from, at),
        find_from(s, word, from) is None ==> absent_between(s, word, from, s.len() as int + 1),
    decreases s.len() - from + 1,
{
    if from + word.len() > s.len() {
    } else if occurs_at(s, word, from) {
    } else {
        lemma_find_from(s, word, from + 1);
    }
}

/// A line as the grammar classifies it.
#[derive(Clone, Debug, PartialEq)]
pub enum LineParseResult<'a> {
    /// A directive alone on its line: it opens a block.
    If(Condition),
    /// A directive after some content: the content, without the white space
    /// that ends it, and the condition on which it is kept.
    Inline(&'a str, Condition),
    /// A close marker.
    Endif,
    /// Plain content: the whole line.
    Content(&'a str),
}

/// What a `LineParseResult` stands for.
pub enum LineView {
    If(ConditionView),
    Inline(Seq<char>, ConditionView),
    Endif,
    Content(Seq<char>),
}

impl<'a> View for LineParseResult<'a> {
    type V = LineView;

    open spec fn view(&self) -> LineView {
        match self {
            LineParseResult::If(cond) => LineView::If(cond@),
            LineParseResult::Inline(content, cond) => LineView::Inline(content@, cond@),
            LineParseResult::Endif => LineView::Endif,
            LineParseResult::Content(content) => LineView::Content(content@),
        }
    }
}

/// Whether `line` is a close marker: its first characters after leading white
/// space are the close token. Whatever follows the token is a comment.
pub open spec fn is_close_line(line: Seq<char>) -> bool {
    starts_with(trim_start(line), close_token())
}

/// What a line with the directive marker at position `at` means. The marker
/// must be followed by white space and then by a condition that takes up the
/// rest of the line. With nothing but white space before the marker the
/// directive opens a block; with content before it, it is an inline
/// directive on that content.
pub open spec fn directive_of(line: Seq<char>, at: int) -> Result<LineView, MalformedView> {
    let before = line.take(at);
    let after = line.skip(at + marker().len());
    if after.len() == 0 || !is_space(after[0]) {
        Err(MalformedView { text: trim(after), reason: MalformedReason::MissingSeparator })
    } else {
        match parse_condition_spec(after) {
            Err(e) => Err(e),
            Ok(cond) => if is_blank(before) {
                Ok(LineView::If(cond))
            } else {
                Ok(LineView::Inline(trim_end(before), cond))
            },
        }
    }
}

/// What a line means. A close marker is recognised first; then the first
/// directive marker on the line decides; a line with neither is content.
pub open spec fn classify(line: Seq<char>) -> Result<LineView, MalformedView> {
    if is_close_line(line) {
        Ok(LineView::Endif)
    } else {
        match first_occurrence(line, marker()) {
            Some(at) => directive_of(line, at),
            None => Ok(LineView::Content(line)),
        }
    }
}

/// The condition of a directive, where a line is classified as one, is well
/// formed: it mentions at least one flag, and each name in it can be a flag
/// name.
pub proof fn lemma_classified_conditions_well_formed(line: Seq<char>)
    ensures
        classify(line) matches Ok(LineView::If(cond)) ==> cond.well_formed(),
        classify(line) matches Ok(LineView::Inline(_, cond)) ==> cond.well_formed(),
{
    if !is_close_line(line) {
        if let Some(at) = first_occurrence(line, marker()) {
            lemma_form_value_well_formed(trim(line.skip(at + marker().len())));
        }
    }
}

/// What `parse_line` hands back beside the classification: for a close
/// marker, what follows the token and the white space after it; else nothing.
pub open spec fn line_rest(line: Seq<char>) -> Seq<char> {
    if is_close_line(line) {
        trim_start(trim_start(line).skip(close_token().len() as int))
    } else {
        Seq::empty()
    }
}

/// The view of what `parse_if_directive` finds.
pub open spec fn directive_result_view(
    r: Result<LineParseResult, MalformedCondition>,
) -> Result<LineView, MalformedView> {
    match r {
        Ok(parsed) => Ok(parsed@),
        Err(e) => Err(e@),
    }
}

/// The first position at which `word` stands in `chars`.
fn find_word(chars: &Vec<char>, word: &Vec<char>) -> (r: Option<usize>)
    requires
        word.len() > 0,
    ensures
        match r {
            Some(at) => first_occurrence(chars@, word@) == Some(at as int),
            None => first_occurrence(chars@, word@) is None,
        },
{
    if word.len() > chars.len() {
        return None;
    }
    let last: usize = chars.len() - word.len();
    let mut at: usize = 0;
    while at <= last
        invariant
            at <= last + 1,
            word.len() > 0,
            last == chars.len() - word.len(),
            first_occurrence(chars@, word@) == find_from(chars@, word@, at as int),
        decreases last + 1 - at,
    {
        if matches_at(chars, at, word) {
            return Some(at);
        }
        at += 1;
    }
    None
}

/// Recognises a close marker on a line that was read into `chars`.
fn close_marker_in<'a>(input: &'a str, chars: &Vec<char>) -> (r: Option<
    (&'a str, LineParseResult<'a>),
>)
    requires
        chars@ == input@,
    ensures
        match r {
            Some((rest, parsed)) => is_close_line(input@) && parsed@ == LineView::Endif && rest@
                == line_rest(input@),
            None => !is_close_line(input@),
        },
{
    let len: usize = chars.len();
    let token = vec!['#', 'e', 'n', 'd', 'i', 'f'];
    let start: usize = scan_run(chars, 0, len, CharClass::Space);
    let ghost t = trim_start(input@);
    proof {
        // Without its leading white space the line begins at `start`.
        assert(chars@.subrange(0, len as int) =~= input@);
        if close_token().len() <= t.len() {
            assert(t.take(close_token().len() as int) =~= input@.subrange(
                start as int,
                start + close_token().len(),
            ));
        }
    }
    if matches_at(chars, start, &token) {
        let after: usize = start + token.len();
        let rest: usize = scan_run(chars, after, len, CharClass::Space);
        assert(t.skip(close_token().len() as int) =~= input@.subrange(after as int, len as int));
        Some((slice(input, rest, len), LineParseResult::Endif))
    } else {
        None
    }
}

/// Recognises a directive on a line that was read into `chars`.
fn directive_in<'a>(input: &'a str, chars: &Vec<char>) -> (r: Option<
    Result<LineParseResult<'a>, MalformedCondition>,
>)
    requires
        chars@ == input@,
    ensures
        match first_occurrence(input@, marker()) {
            Some(at) => r matches Some(found) && directive_result_view(found) == directive_of(
                input@,
                at,
            ),
            None => r is None,
        },
{
    let len: usize = chars.len();
    let word = vec!['#', 'i', 'f'];
    let at: usize = match find_word(chars, &word) {
        Some(at) => at,
        None => {
            return None;
        },
    };
    proof {
        lemma_find_from(input@, marker(), 0);
    }
    let after = slice(input, at + 3, len);
    if at + 3 == len || !CharClass::Space.contains(chars[at + 3]) {
        return Some(
            Err(
                MalformedCondition {
                    text: trimmed(after).to_owned(),
                    reason: MalformedReason::MissingSeparator,
                },
            ),
        );
    }
    match parse_condition_str(after) {
        Err(e) => Some(Err(e)),
        Ok(cond) => {
            // What stands before the marker is blank exactly when its
            // leading white space is the whole of it.
            let ghost before = input@.take(at as int);
            let lead: usize = scan_run(chars, 0, at, CharClass::Space);
            proof {
                lemma_run_len(before, CharClass::Space);
            }
            if lead == at {
                Some(Ok(LineParseResult::If(cond)))
            } else {
                let end: usize = scan_spaces_back(chars, 0, at);
                let content = slice(input, 0, end);
                assert(content@ =~= trim_end(before));
                Some(Ok(LineParseResult::Inline(content, cond)))
            }
        },
    }
}

/// Recognises a close marker: a line whose first characters after leading
/// white space are `#endif`. Hands back what follows the token and the
/// white space after it.
pub fn parse_endif_directive<'a>(input: &'a str) -> (r: Option<(&'a str, LineParseResult<'a>)>)
    ensures
        match r {
            Some((rest, parsed)) => is_close_line(input@) && parsed@ == LineView::Endif && rest@
                == line_rest(input@),
            None => !is_close_line(input@),
        },
{
    let chars = to_chars(input);
    close_marker_in(input, &chars)
}

/// Recognises a directive: finds the first marker on the line and parses
/// what follows it. `None` where the line holds no marker.
pub fn parse_if_directive<'a>(input: &'a str) -> (r: Option<
    Result<LineParseResult<'a>, MalformedCondition>,
>)
    ensures
        match first_occurrence(input@, marker()) {
            Some(at) => r matches Some(found) && directive_result_view(found) == directive_of(
                input@,
                at,
            ),
            None => r is None,
        },
{
    let chars = to_chars(input);
    directive_in(input, &chars)
}

/// Classifies a line: a close marker, a directive, or content. Beside the
/// classification it hands back what a close marker leaves of its line.
pub fn parse_line<'a>(input: &'a str) -> (r: Result<
    (&'a str, LineParseResult<'a>),
    MalformedCondition,
>)
    ensures
        match r {
            Ok((rest, parsed)) => classify(input@) == Ok::<LineView, MalformedView>(parsed@)
                && rest@ == line_rest(input@),
            Err(e) => classify(input@) == Err::<LineView, MalformedView>(e@),
        },
{
    let chars = to_chars(input);
    match close_marker_in(input, &chars) {
        Some((rest, parsed)) => {
            return Ok((rest, parsed));
        },
        None => {},
    }
    let nothing = slice(input, 0, 0);
    match directive_in(input, &chars) {
        Some(Ok(parsed)) => Ok((nothing, parsed)),
        Some(Err(e)) => Err(e),
        None => Ok((nothing, LineParseResult::Content(input))),
    }
}

} // verus!
