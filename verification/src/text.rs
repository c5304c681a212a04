//! Text as sequences of characters: searching and slicing.

use vstd::prelude::*;
use vstd::utf8::{encode_utf8, is_ascii_chars};

verus! {

/// UTF-8 encodes a text part by part.
pub proof fn lemma_encode_add(a: Seq<char>, b: Seq<char>)
    ensures
        encode_utf8(a + b) == encode_utf8(a) + encode_utf8(b),
    decreases a.len(),
{
    if a.len() == 0 {
        assert(a + b =~= b);
        assert(encode_utf8(a) + encode_utf8(b) =~= encode_utf8(b));
    } else {
        assert((a + b).drop_first() =~= a.drop_first() + b);
        lemma_encode_add(a.drop_first(), b);
        assert(encode_utf8(a + b) =~= encode_utf8(a) + encode_utf8(b));
    }
}

/// The texts of a list of strings.
pub open spec fn views(list: Seq<String>) -> Seq<Seq<char>> {
    list.map_values(|text: String| text@)
}

/// `pattern` stands in `text` at character position `at`.
pub open spec fn occurs_at(text: Seq<char>, pattern: Seq<char>, at: int) -> bool {
    0 <= at && at + pattern.len() <= text.len() && text.subrange(at, at + pattern.len()) == pattern
}

/// `pattern` stands somewhere in `text`.
pub open spec fn contains(text: Seq<char>, pattern: Seq<char>) -> bool {
    exists|at: int| occurs_at(text, pattern, at)
}

/// The leftmost position, not before `from`, at which `pattern` stands in `text`.
pub open spec fn find_from(text: Seq<char>, pattern: Seq<char>, from: int) -> Option<int>
    decreases text.len() + 1 - from,
{
    if from < 0 || from + pattern.len() > text.len() {
        None
    } else if occurs_at(text, pattern, from) {
        Some(from)
    } else {
        find_from(text, pattern, from + 1)
    }
}

/// The leftmost position at which `pattern` stands in `text`.
pub open spec fn find(text: Seq<char>, pattern: Seq<char>) -> Option<int> {
    find_from(text, pattern, 0)
}

/// `text` ends with `suffix`.
pub open spec fn ends_with(text: Seq<char>, suffix: Seq<char>) -> bool {
    occurs_at(text, suffix, text.len() - suffix.len())
}

/// What `find_from` answers: the first position if there is one, and no position missed.
pub proof fn lemma_find_from(text: Seq<char>, pattern: Seq<char>, from: int)
    requires
        0 <= from,
    ensures
        match find_from(text, pattern, from) {
            Some(at) => {
                &&& from <= at
                &&& occurs_at(text, pattern, at)
                &&& forall|j: int| from <= j < at ==> !occurs_at(text, pattern, j)
            },
            None => forall|j: int| from <= j ==> !occurs_at(text, pattern, j),
        },
    decreases text.len() + 1 - from,
{
    if from + pattern.len() > text.len() || occurs_at(text, pattern, from) {
    } else {
        lemma_find_from(text, pattern, from + 1);
    }
}

/// A first position decides what `find_from` answers.
pub proof fn lemma_find_from_is(text: Seq<char>, pattern: Seq<char>, from: int, at: int)
    requires
        0 <= from <= at,
        occurs_at(text, pattern, at),
        forall|j: int| from <= j < at ==> !occurs_at(text, pattern, j),
    ensures
        find_from(text, pattern, from) == Some(at),
{
    lemma_find_from(text, pattern, from);
}

/// No position means that `find_from` answers `None`.
pub proof fn lemma_find_from_none(text: Seq<char>, pattern: Seq<char>, from: int)
    requires
        0 <= from,
        forall|j: int| from <= j ==> !occurs_at(text, pattern, j),
    ensures
        find_from(text, pattern, from) is None,
{
    lemma_find_from(text, pattern, from);
}

/// Skipping a beginning moves every later position.
pub proof fn lemma_occurs_at_skip(text: Seq<char>, pattern: Seq<char>, skipped: int, at: int)
    requires
        0 <= skipped <= text.len(),
        0 <= at,
    ensures
        occurs_at(text.skip(skipped), pattern, at) == occurs_at(text, pattern, skipped + at),
{
    if skipped + at + pattern.len() <= text.len() {
        assert(text.skip(skipped).subrange(at, at + pattern.len()) =~= text.subrange(
            skipped + at,
            skipped + at + pattern.len(),
        ));
    }
}

/// Searching from `from` on is searching what follows `from`.
pub proof fn lemma_find_skip(text: Seq<char>, pattern: Seq<char>, from: int)
    requires
        0 <= from <= text.len(),
    ensures
        match find_from(text, pattern, from) {
            Some(at) => find(text.skip(from), pattern) == Some(at - from),
            None => find(text.skip(from), pattern) is None,
        },
{
    lemma_find_from(text, pattern, from);
    assert forall|j: int| 0 <= j implies occurs_at(text.skip(from), pattern, j) == occurs_at(
        text,
        pattern,
        from + j,
    ) by {
        lemma_occurs_at_skip(text, pattern, from, j);
    }
    match find_from(text, pattern, from) {
        Some(at) => {
            lemma_find_from_is(text.skip(from), pattern, 0, at - from);
        },
        None => {
            lemma_find_from_none(text.skip(from), pattern, 0);
        },
    }
}

/// A text contains a pattern exactly if the pattern can be found in it.
pub proof fn lemma_contains_is_find(text: Seq<char>, pattern: Seq<char>)
    ensures
        contains(text, pattern) <==> find(text, pattern) is Some,
{
    lemma_find_from(text, pattern, 0);
}

/// The characters of a string, one by one.
pub fn to_chars(text: &str) -> (chars: Vec<char>)
    ensures
        chars@ == text@,
{
    let mut chars: Vec<char> = Vec::new();
    for c in it: text.chars()
        invariant
            chars@ == it.seq().take(it.index() as int),
            it.seq() == text@,
    {
        chars.push(c);
    }
    assert(text@.take(text@.len() as int) == text@);
    chars
}

/// The characters of `text` from `from` up to, but not including, `to`.
pub fn slice(text: &str, from: usize, to: usize) -> (part: String)
    requires
        from <= to <= text@.len(),
    ensures
        part@ == text@.subrange(from as int, to as int),
{
    text.substring_char(from, to).to_owned()
}

/// Whether `pattern` stands in `text` at position `at`.
pub fn chars_occur_at(text: &Vec<char>, pattern: &Vec<char>, at: usize) -> (found: bool)
    ensures
        found == occurs_at(text@, pattern@, at as int),
{
    if pattern.len() > text.len() || at > text.len() - pattern.len() {
        return false;
    }
    let mut i: usize = 0;
    while i < pattern.len()
        invariant
            i <= pattern.len(),
            at + pattern.len() <= text.len(),
            forall|j: int| 0 <= j < i ==> text@[at + j] == pattern@[j],
        decreases pattern.len() - i,
    {
        if text[at + i] != pattern[i] {
            assert(text@.subrange(at as int, at + pattern@.len())[i as int] != pattern@[i as int]);
            return false;
        }
        i += 1;
    }
    assert(text@.subrange(at as int, at + pattern@.len()) =~= pattern@);
    true
}

/// The leftmost position, not before `from`, of `pattern` in `text`.
pub fn chars_find_from(text: &Vec<char>, pattern: &Vec<char>, from: usize) -> (found: Option<usize>)
    ensures
        match found {
            Some(at) => find_from(text@, pattern@, from as int) == Some(at as int),
            None => find_from(text@, pattern@, from as int) is None,
        },
{
    let mut at: usize = from;
    while pattern.len() <= text.len() && at <= text.len() - pattern.len()
        invariant
            from <= at,
            find_from(text@, pattern@, from as int) == find_from(text@, pattern@, at as int),
        decreases text.len() + 1 - at,
    {
        if chars_occur_at(text, pattern, at) {
            return Some(at);
        }
        proof {
            if pattern@.len() == 0 {
                assert(text@.subrange(at as int, at as int) =~= pattern@);
            }
        }
        at += 1;
    }
    None
}

/// The character of a decimal digit.
pub open spec fn digit_char(digit: int) -> char
    recommends
        0 <= digit < 10,
{
    (0x30 + digit) as char
}

/// A number in decimal digits, without leading zeros.
pub open spec fn decimal(n: nat) -> Seq<char>
    decreases n,
{
    if n < 10 {
        seq![digit_char(n as int)]
    } else {
        decimal(n / 10).push(digit_char((n % 10) as int))
    }
}

/// A digit as text.
pub fn digit_text(digit: u64) -> (text: &'static str)
    requires
        digit < 10,
    ensures
        text@ == seq![digit_char(digit as int)],
{
    proof {
        reveal_strlit("0");
        reveal_strlit("1");
        reveal_strlit("2");
        reveal_strlit("3");
        reveal_strlit("4");
        reveal_strlit("5");
        reveal_strlit("6");
        reveal_strlit("7");
        reveal_strlit("8");
        reveal_strlit("9");
    }
    let text: &'static str = match digit {
        0 => "0",
        1 => "1",
        2 => "2",
        3 => "3",
        4 => "4",
        5 => "5",
        6 => "6",
        7 => "7",
        8 => "8",
        _ => "9",
    };
    assert(text@ =~= seq![digit_char(digit as int)]);
    text
}

/// A number in decimal digits.
pub fn decimal_text(n: u64) -> (text: String)
    ensures
        text@ == decimal(n as nat),
    decreases n,
{
    if n < 10 {
        digit_text(n).to_owned()
    } else {
        let mut text: String = decimal_text(n / 10);
        let ghost front = text@;
        text.append(digit_text(n % 10));
        assert(text@ =~= front.push(digit_char((n % 10) as int)));
        text
    }
}

/// A character with the Unicode property `White_Space`.
pub open spec fn unicode_whitespace(c: char) -> bool {
    ||| '\u{9}' <= c <= '\u{d}'
    ||| c == ' '
    ||| c == '\u{85}'
    ||| c == '\u{a0}'
    ||| c == '\u{1680}'
    ||| '\u{2000}' <= c <= '\u{200a}'
    ||| c == '\u{2028}'
    ||| c == '\u{2029}'
    ||| c == '\u{202f}'
    ||| c == '\u{205f}'
    ||| c == '\u{3000}'
}

/// Whether a character has the Unicode property `Alphabetic`.
pub uninterp spec fn unicode_alphabetic(c: char) -> bool;

/// A letter of ASCII.
pub open spec fn is_ascii_letter(c: char) -> bool {
    'a' <= c <= 'z' || 'A' <= c <= 'Z'
}

/// A character that counts as a letter: in ASCII a letter, elsewhere by its property.
pub open spec fn is_letter(c: char) -> bool {
    if c <= '\u{7f}' {
        is_ascii_letter(c)
    } else {
        unicode_alphabetic(c)
    }
}

/// The lowercase form of a text under Unicode's rules, which know no locale.
pub uninterp spec fn unicode_lowercase(text: Seq<char>) -> Seq<char>;

/// The number of a character, an ASCII capital counted as its small letter.
pub open spec fn folded(c: char) -> int {
    if 'A' <= c && c <= 'Z' {
        c as int + 32
    } else {
        c as int
    }
}

/// A text with small letters in place of ASCII capitals.
pub open spec fn ascii_lowercase(text: Seq<char>) -> Seq<char> {
    text.map_values(|c: char| folded(c) as char)
}

/// A text with ASCII capitals in place of small letters.
pub open spec fn ascii_uppercase(text: Seq<char>) -> Seq<char> {
    text.map_values(
        |c: char|
            if 'a' <= c && c <= 'z' {
                (c as int - 32) as char
            } else {
                c
            },
    )
}

/// The lowercase form of a text: of an ASCII text the one with small letters.
pub open spec fn lowercase(text: Seq<char>) -> Seq<char> {
    if is_ascii_chars(text) {
        ascii_lowercase(text)
    } else {
        unicode_lowercase(text)
    }
}

/// `char::is_whitespace` of the standard library: whether the character has the property
/// `White_Space`.
pub assume_specification[ char::is_whitespace ](c: char) -> (white: bool)
    ensures
        white == unicode_whitespace(c),
;

/// `char::is_alphabetic` of the standard library: whether the character has the property
/// `Alphabetic`. In ASCII these are the letters; of another character the answer depends on
/// the character alone.
pub assume_specification[ char::is_alphabetic ](c: char) -> (alphabetic: bool)
    ensures
        c <= '\u{7f}' ==> alphabetic == is_ascii_letter(c),
        c > '\u{7f}' ==> alphabetic == unicode_alphabetic(c),
;

/// `str::to_lowercase` of the standard library: an ASCII text becomes the one with small
/// letters; what becomes of another text depends on the text alone.
pub assume_specification[ str::to_lowercase ](text: &str) -> (lower: String)
    ensures
        is_ascii_chars(text@) ==> lower@ == ascii_lowercase(text@),
        !is_ascii_chars(text@) ==> lower@ == unicode_lowercase(text@),
;

/// The length of the longest beginning of `text` made of characters that `class` accepts.
pub open spec fn span(text: Seq<char>, class: spec_fn(char) -> bool) -> nat
    decreases text.len(),
{
    if text.len() == 0 || !class(text[0]) {
        0
    } else {
        1 + span(text.skip(1), class)
    }
}

/// The length of the longest end of `text` made of characters that `class` accepts.
pub open spec fn span_back(text: Seq<char>, class: spec_fn(char) -> bool) -> nat
    decreases text.len(),
{
    if text.len() == 0 || !class(text.last()) {
        0
    } else {
        1 + span_back(text.drop_last(), class)
    }
}

/// `text` without the characters at both ends that `class` accepts.
pub open spec fn trimmed_of(text: Seq<char>, class: spec_fn(char) -> bool) -> Seq<char> {
    let rest = text.skip(span(text, class) as int);
    rest.take(rest.len() - span_back(rest, class))
}

/// `text` without white space at both ends.
pub open spec fn trimmed(text: Seq<char>) -> Seq<char> {
    trimmed_of(text, |c: char| unicode_whitespace(c))
}

/// The first run of characters that are not white space; empty where there is none.
pub open spec fn first_word(text: Seq<char>) -> Seq<char> {
    let rest = text.skip(span(text, |c: char| unicode_whitespace(c)) as int);
    rest.take(span(rest, |c: char| !unicode_whitespace(c)) as int)
}

/// What `span` counts.
pub proof fn lemma_span(text: Seq<char>, class: spec_fn(char) -> bool)
    ensures
        span(text, class) <= text.len(),
        forall|i: int| 0 <= i < span(text, class) ==> class(#[trigger] text[i]),
        span(text, class) < text.len() ==> !class(text[span(text, class) as int]),
    decreases text.len(),
{
    if text.len() != 0 && class(text[0]) {
        lemma_span(text.skip(1), class);
        let n = span(text.skip(1), class) as int;
        assert forall|i: int| 0 <= i < n + 1 implies class(#[trigger] text[i]) by {
            if i > 0 {
                assert(text[i] == text.skip(1)[i - 1]);
            }
        }
        if n + 1 < text.len() {
            assert(text[n + 1] == text.skip(1)[n]);
        }
    }
}

/// What decides `span`.
pub proof fn lemma_span_is(text: Seq<char>, class: spec_fn(char) -> bool, n: int)
    requires
        0 <= n <= text.len(),
        forall|i: int| 0 <= i < n ==> class(#[trigger] text[i]),
        n < text.len() ==> !class(text[n]),
    ensures
        span(text, class) == n,
{
    lemma_span(text, class);
    let s = span(text, class) as int;
    if s < n {
        assert(class(text[s]));
    } else if n < s {
        assert(class(text[n]));
    }
}

/// What decides `span_back`.
pub proof fn lemma_span_back_is(text: Seq<char>, class: spec_fn(char) -> bool, n: int)
    requires
        0 <= n <= text.len(),
        forall|i: int| text.len() - n <= i < text.len() ==> class(#[trigger] text[i]),
        n < text.len() ==> !class(text[text.len() - n - 1]),
    ensures
        span_back(text, class) == n,
    decreases text.len(),
{
    if n > 0 {
        assert(class(text[text.len() - 1]));
        assert(text.last() == text[text.len() - 1]);
        assert forall|i: int|
            text.len() - n <= i < text.len() - 1 implies class(#[trigger] text.drop_last()[i]) by {
            assert(text.drop_last()[i] == text[i]);
        }
        lemma_span_back_is(text.drop_last(), class, n - 1);
    } else if text.len() > 0 {
        assert(text.last() == text[text.len() - 1]);
    }
}

/// The words of a text: its runs of characters that are not white space, in order.
pub open spec fn words(text: Seq<char>) -> Seq<Seq<char>>
    decreases text.len(),
{
    let white = |c: char| unicode_whitespace(c);
    let black = |c: char| !unicode_whitespace(c);
    proof {
        lemma_span(text, white);
        lemma_span(text.skip(span(text, white) as int), black);
    }
    let rest = text.skip(span(text, white) as int);
    let n = span(rest, black) as int;
    if n == 0 {
        seq![]
    } else {
        seq![rest.take(n)] + words(rest.skip(n))
    }
}

/// The position, not before `from`, of the first character that is not white space, or the
/// end of the text.
fn skip_white(text: &Vec<char>, from: usize) -> (at: usize)
    requires
        from <= text.len(),
    ensures
        from <= at <= text.len(),
        at - from == span(text@.skip(from as int), |c: char| unicode_whitespace(c)),
{
    let ghost rest = text@.skip(from as int);
    let mut at: usize = from;
    while at < text.len() && text[at].is_whitespace()
        invariant
            from <= at <= text.len(),
            rest == text@.skip(from as int),
            forall|i: int| 0 <= i < at - from ==> unicode_whitespace(#[trigger] rest[i]),
        decreases text.len() - at,
    {
        at += 1;
    }
    proof {
        lemma_span_is(rest, |c: char| unicode_whitespace(c), at - from);
    }
    at
}

/// The position, not before `from`, of the first white space, or the end of the text.
fn skip_black(text: &Vec<char>, from: usize) -> (at: usize)
    requires
        from <= text.len(),
    ensures
        from <= at <= text.len(),
        at - from == span(text@.skip(from as int), |c: char| !unicode_whitespace(c)),
{
    let ghost rest = text@.skip(from as int);
    let mut at: usize = from;
    while at < text.len() && !text[at].is_whitespace()
        invariant
            from <= at <= text.len(),
            rest == text@.skip(from as int),
            forall|i: int| 0 <= i < at - from ==> !unicode_whitespace(#[trigger] rest[i]),
        decreases text.len() - at,
    {
        at += 1;
    }
    proof {
        lemma_span_is(rest, |c: char| !unicode_whitespace(c), at - from);
    }
    at
}

/// The first word of a text.
pub fn first_word_text(text: &str) -> (word: String)
    ensures
        word@ == first_word(text@),
{
    let chars: Vec<char> = to_chars(text);
    assert(text@.skip(0) =~= text@);
    let start: usize = skip_white(&chars, 0);
    let end: usize = skip_black(&chars, start);
    assert(text@.subrange(start as int, end as int) =~= text@.skip(start as int).take(end - start));
    slice(text, start, end)
}

/// The words of a text.
pub fn words_of(text: &str) -> (list: Vec<String>)
    ensures
        list@.map_values(|word: String| word@) == words(text@),
{
    let chars: Vec<char> = to_chars(text);
    let mut list: Vec<String> = Vec::new();
    let mut from: usize = 0;
    assert(text@.skip(0) =~= text@);
    assert(list@.map_values(|word: String| word@) + words(text@) =~= words(text@));
    loop
        invariant
            chars@ == text@,
            from <= chars.len(),
            list@.map_values(|word: String| word@) + words(text@.skip(from as int)) == words(text@),
        decreases chars.len() - from,
    {
        let ghost before = list@.map_values(|word: String| word@);
        let ghost rest = text@.skip(from as int);
        let start: usize = skip_white(&chars, from);
        assert(text@.skip(start as int) =~= rest.skip(start - from));
        let end: usize = skip_black(&chars, start);
        if start == end {
            assert(before + words(rest) =~= before);
            return list;
        }
        let word: String = slice(text, start, end);
        proof {
            assert(word@ =~= rest.skip(start - from).take(end - start));
            assert(text@.skip(end as int) =~= rest.skip(start - from).skip(end - start));
        }
        list.push(word);
        proof {
            let now = list@.map_values(|word: String| word@);
            assert(now =~= before.push(word@));
            assert(now + words(text@.skip(end as int)) =~= before + words(rest));
        }
        from = end;
    }
}

/// A text without white space at both ends.
pub fn trim_text(text: &str) -> (part: String)
    ensures
        part@ == trimmed(text@),
{
    let chars: Vec<char> = to_chars(text);
    assert(text@.skip(0) =~= text@);
    let start: usize = skip_white(&chars, 0);
    let ghost rest = text@.skip(start as int);
    let mut end: usize = chars.len();
    while start < end && chars[end - 1].is_whitespace()
        invariant
            chars@ == text@,
            start <= end <= chars.len(),
            rest == text@.skip(start as int),
            forall|i: int| end - start <= i < rest.len() ==> unicode_whitespace(#[trigger] rest[i]),
        decreases end,
    {
        end -= 1;
    }
    proof {
        lemma_span_back_is(rest, |c: char| unicode_whitespace(c), chars.len() - end);
        assert(text@.subrange(start as int, end as int) =~= rest.take(end - start));
    }
    slice(text, start, end)
}

/// Whether a text is nothing but white space.
pub fn is_blank(text: &str) -> (blank: bool)
    ensures
        blank == (trimmed(text@).len() == 0),
{
    trim_text(text).as_str().is_empty()
}

/// Two texts are the same but for the case of ASCII letters.
pub open spec fn same_ignoring_case(a: Seq<char>, b: Seq<char>) -> bool {
    a.len() == b.len() && forall|i: int| 0 <= i < a.len() ==> folded(#[trigger] a[i]) == folded(b[i])
}

fn fold_char(c: char) -> (n: u32)
    ensures
        n == folded(c),
{
    if 'A' <= c && c <= 'Z' {
        c as u32 + 32
    } else {
        c as u32
    }
}

/// Whether two texts are the same but for the case of ASCII letters.
pub fn eq_ignoring_case(a: &str, b: &str) -> (same: bool)
    ensures
        same == same_ignoring_case(a@, b@),
{
    let x: Vec<char> = to_chars(a);
    let y: Vec<char> = to_chars(b);
    if x.len() != y.len() {
        return false;
    }
    let mut i: usize = 0;
    while i < x.len()
        invariant
            i <= x.len(),
            x.len() == y.len(),
            x@ == a@,
            y@ == b@,
            forall|j: int| 0 <= j < i ==> folded(#[trigger] x@[j]) == folded(y@[j]),
        decreases x.len() - i,
    {
        if fold_char(x[i]) != fold_char(y[i]) {
            assert(folded(a@[i as int]) != folded(b@[i as int]));
            return false;
        }
        i += 1;
    }
    true
}

/// Whether `pattern` stands somewhere in `text`.
pub fn text_contains(text: &str, pattern: &str) -> (found: bool)
    ensures
        found == contains(text@, pattern@),
{
    let x: Vec<char> = to_chars(text);
    let y: Vec<char> = to_chars(pattern);
    proof {
        lemma_contains_is_find(text@, pattern@);
    }
    chars_find_from(&x, &y, 0).is_some()
}

/// A text holds a pattern exactly if it is made of the pattern with something before and
/// something behind it.
pub proof fn law_contains_is_a_part(text: Seq<char>, pattern: Seq<char>)
    ensures
        contains(text, pattern) <==> exists|a: Seq<char>, b: Seq<char>|
            text == #[trigger] (a + pattern + b),
{
    if contains(text, pattern) {
        let at = choose|at: int| occurs_at(text, pattern, at);
        let a = text.subrange(0, at);
        let b = text.subrange(at + pattern.len(), text.len() as int);
        assert(text.subrange(at, at + pattern.len()) =~= pattern);
        assert(text =~= a + text.subrange(at, at + pattern.len()) + b);
        assert(text == a + pattern + b);
    }
    if exists|a: Seq<char>, b: Seq<char>| text == #[trigger] (a + pattern + b) {
        let (a, b) = choose|a: Seq<char>, b: Seq<char>| text == #[trigger] (a + pattern + b);
        assert(text.subrange(a.len() as int, (a.len() + pattern.len()) as int) =~= pattern);
        assert(occurs_at(text, pattern, a.len() as int));
    }
}

/// A pattern that stands in a text is found, at its first place: nothing before that place
/// begins with it.
pub proof fn law_the_first_place_is_found(a: Seq<char>, pattern: Seq<char>, b: Seq<char>)
    ensures
        ({
            let text = a + pattern + b;
            &&& find(text, pattern) matches Some(at) && 0 <= at <= a.len() && text.subrange(
                at,
                at + pattern.len(),
            ) == pattern && forall|i: int|
                0 <= i < at ==> #[trigger] text.subrange(i, i + pattern.len()) != pattern
        }),
{
    let text = a + pattern + b;
    assert(text.subrange(a.len() as int, (a.len() + pattern.len()) as int) =~= pattern);
    assert(occurs_at(text, pattern, a.len() as int));
    lemma_find_from(text, pattern, 0);
    let at = find(text, pattern)->0;
    assert forall|i: int| 0 <= i < at implies #[trigger] text.subrange(i, i + pattern.len())
        != pattern by {
        assert(!occurs_at(text, pattern, i));
    }
}

/// The number that a text of digits writes.
pub open spec fn written_number(digits: Seq<char>) -> int
    decreases digits.len(),
{
    if digits.len() == 0 {
        0
    } else {
        10 * written_number(digits.drop_last()) + (digits.last() as int - '0' as int)
    }
}

/// The digits of a number write that number, and no others do: each is a digit, and only the
/// number zero begins with a zero.
pub proof fn law_decimal_writes_the_number(n: nat)
    ensures
        written_number(decimal(n)) == n,
        decimal(n).len() > 0,
        forall|i: int| 0 <= i < decimal(n).len() ==> '0' <= #[trigger] decimal(n)[i] <= '9',
        n > 0 ==> decimal(n)[0] != '0',
        n == 0 ==> decimal(n).len() == 1,
    decreases n,
{
    if n < 10 {
        let one = decimal(n);
        assert(one.drop_last().len() == 0);
        assert(written_number(one.drop_last()) == 0);
    } else {
        law_decimal_writes_the_number(n / 10);
        let front = decimal(n / 10);
        assert(decimal(n).drop_last() =~= front);
        assert(decimal(n)[0] == front[0]);
        assert forall|i: int| 0 <= i < decimal(n).len() implies '0' <= #[trigger] decimal(n)[i]
            <= '9' by {
            if i < front.len() {
                assert(decimal(n)[i] == front[i]);
            }
        }
    }
}

/// What the class accepts at both ends is cut off, and nothing else.
pub proof fn lemma_trimmed_of(text: Seq<char>, class: spec_fn(char) -> bool) -> (ends: (
    Seq<char>,
    Seq<char>,
))
    ensures
        text == ends.0 + trimmed_of(text, class) + ends.1,
        forall|i: int| 0 <= i < ends.0.len() ==> class(#[trigger] ends.0[i]),
        forall|i: int| 0 <= i < ends.1.len() ==> class(#[trigger] ends.1[i]),
        trimmed_of(text, class).len() > 0 ==> !class(trimmed_of(text, class)[0]) && !class(
            trimmed_of(text, class).last(),
        ),
{
    lemma_span(text, class);
    let s = span(text, class) as int;
    let rest = text.skip(s);
    lemma_span_back(rest, class);
    let n = span_back(rest, class) as int;
    let front = text.take(s);
    let back = rest.skip(rest.len() - n);
    let middle = trimmed_of(text, class);
    assert(text =~= front + middle + back);
    if middle.len() > 0 {
        assert(middle[0] == text[s]);
        assert(middle.last() == rest[rest.len() - n - 1]);
    }
    (front, back)
}

/// What `span_back` counts.
pub proof fn lemma_span_back(text: Seq<char>, class: spec_fn(char) -> bool)
    ensures
        span_back(text, class) <= text.len(),
        forall|i: int|
            text.len() - span_back(text, class) <= i < text.len() ==> class(#[trigger] text[i]),
        span_back(text, class) < text.len() ==> !class(
            text[text.len() - span_back(text, class) - 1],
        ),
    decreases text.len(),
{
    if text.len() != 0 && class(text.last()) {
        let front = text.drop_last();
        lemma_span_back(front, class);
        assert forall|i: int|
            text.len() - span_back(text, class) <= i < text.len() implies class(
            #[trigger] text[i],
        ) by {
            if i < text.len() - 1 {
                assert(text[i] == front[i]);
            }
        }
    }
}

/// Trimming takes white space from both ends and leaves everything else: what is left neither
/// begins nor ends with white space.
pub proof fn law_trimming_takes_white_space_only(text: Seq<char>)
    ensures
        exists|a: Seq<char>, b: Seq<char>|
            {
                &&& text == #[trigger] (a + trimmed(text) + b)
                &&& forall|i: int| 0 <= i < a.len() ==> unicode_whitespace(#[trigger] a[i])
                &&& forall|i: int| 0 <= i < b.len() ==> unicode_whitespace(#[trigger] b[i])
            },
        trimmed(text).len() > 0 ==> !unicode_whitespace(trimmed(text)[0]) && !unicode_whitespace(
            trimmed(text).last(),
        ),
        trimmed(text).len() == 0 <==> forall|i: int|
            0 <= i < text.len() ==> unicode_whitespace(#[trigger] text[i]),
{
    let white = |c: char| unicode_whitespace(c);
    let (a, b) = lemma_trimmed_of(text, white);
    let middle = trimmed(text);
    assert(text == a + middle + b);
    assert forall|i: int| 0 <= i < a.len() implies unicode_whitespace(#[trigger] a[i]) by {
        assert(white(a[i]));
    }
    assert forall|i: int| 0 <= i < b.len() implies unicode_whitespace(#[trigger] b[i]) by {
        assert(white(b[i]));
    }
    if middle.len() > 0 {
        assert(!white(middle[0]) && !white(middle.last()));
        assert(text[a.len() as int] == middle[0]);
    } else {
        assert forall|i: int| 0 <= i < text.len() implies unicode_whitespace(
            #[trigger] text[i],
        ) by {
            if i < a.len() {
                assert(text[i] == a[i]);
            } else {
                assert(text[i] == b[i - a.len()]);
            }
        }
    }
}

/// The first word of a text stands behind white space only, holds none itself, and goes on
/// until white space follows or the text ends; it is empty only where there is no word.
pub proof fn law_the_first_word_is_whole(text: Seq<char>)
    ensures
        exists|a: Seq<char>, b: Seq<char>|
            {
                &&& text == #[trigger] (a + first_word(text) + b)
                &&& forall|i: int| 0 <= i < a.len() ==> unicode_whitespace(#[trigger] a[i])
                &&& b.len() > 0 ==> unicode_whitespace(b[0])
            },
        forall|i: int|
            0 <= i < first_word(text).len() ==> !unicode_whitespace(
                #[trigger] first_word(text)[i],
            ),
        (exists|i: int| 0 <= i < text.len() && !unicode_whitespace(#[trigger] text[i]))
            ==> first_word(text).len() > 0,
{
    let white = |c: char| unicode_whitespace(c);
    let black = |c: char| !unicode_whitespace(c);
    lemma_span(text, white);
    let s = span(text, white) as int;
    let rest = text.skip(s);
    lemma_span(rest, black);
    let n = span(rest, black) as int;
    let a = text.take(s);
    let word = first_word(text);
    let b = rest.skip(n);
    assert(text =~= a + word + b);
    assert(text == a + word + b);
    assert forall|i: int| 0 <= i < a.len() implies unicode_whitespace(#[trigger] a[i]) by {
        assert(white(text[i]));
    }
    assert forall|i: int| 0 <= i < word.len() implies !unicode_whitespace(#[trigger] word[i]) by {
        assert(black(rest[i]));
    }
    if b.len() > 0 {
        assert(!black(rest[n]));
        assert(b[0] == rest[n]);
    }
    if exists|i: int| 0 <= i < text.len() && !unicode_whitespace(#[trigger] text[i]) {
        let i = choose|i: int| 0 <= i < text.len() && !unicode_whitespace(#[trigger] text[i]);
        if i < s {
            assert(white(text[i]));
        }
        assert(!white(text[s]));
        assert(rest[0] == text[s]);
        if n == 0 {
            assert(!black(rest[0]));
        }
    }
}

/// A text that is not empty and holds no white space is its own only word.
pub proof fn law_a_word_is_a_word(text: Seq<char>)
    requires
        text.len() > 0,
        forall|i: int| 0 <= i < text.len() ==> !unicode_whitespace(#[trigger] text[i]),
    ensures
        words(text) == seq![text],
{
    let white = |c: char| unicode_whitespace(c);
    let black = |c: char| !unicode_whitespace(c);
    lemma_span_is(text, white, 0);
    assert(text.skip(0) =~= text);
    lemma_span_is(text, black, text.len() as int);
    assert(text.take(text.len() as int) =~= text);
    let end = text.skip(text.len() as int);
    assert(end.len() == 0);
    lemma_span(end, white);
    lemma_span(end.skip(0), black);
    assert(words(end).len() == 0);
    assert(words(text) =~= seq![text]);
}

/// White space in front of a text adds no word.
proof fn lemma_words_behind_white(front: Seq<char>, text: Seq<char>)
    requires
        forall|i: int| 0 <= i < front.len() ==> unicode_whitespace(#[trigger] front[i]),
    ensures
        words(front + text) == words(text),
{
    let white = |c: char| unicode_whitespace(c);
    lemma_span(text, white);
    let s = span(text, white) as int;
    let all = front + text;
    assert forall|i: int| 0 <= i < front.len() + s implies white(#[trigger] all[i]) by {
        if i < front.len() {
            assert(all[i] == front[i]);
        } else {
            assert(all[i] == text[i - front.len()]);
        }
    }
    if front.len() + s < all.len() {
        assert(all[front.len() + s] == text[s]);
    }
    lemma_span_is(all, white, front.len() + s);
    assert(all.skip(front.len() + s) =~= text.skip(s));
}

/// White space parts the words: those of a text are those before a white space and then those
/// behind it.
pub proof fn law_white_space_parts_words(a: Seq<char>, gap: char, b: Seq<char>)
    requires
        unicode_whitespace(gap),
    ensures
        words(a + seq![gap] + b) == words(a) + words(b),
    decreases a.len(),
{
    let white = |c: char| unicode_whitespace(c);
    let black = |c: char| !unicode_whitespace(c);
    let all = a + seq![gap] + b;
    lemma_span(a, white);
    let s = span(a, white) as int;
    let rest = a.skip(s);
    lemma_span(rest, black);
    let n = span(rest, black) as int;
    if n == 0 {
        if rest.len() > 0 {
            assert(!black(rest[0]));
            assert(rest[0] == a[s]);
        }
        let front = a + seq![gap];
        assert forall|i: int| 0 <= i < front.len() implies unicode_whitespace(
            #[trigger] front[i],
        ) by {
            if i < a.len() {
                assert(white(a[i]));
            }
        }
        lemma_words_behind_white(front, b);
        assert(words(a) + words(b) =~= words(b));
    } else {
        let rest_all = rest + seq![gap] + b;
        assert(a =~= a.take(s) + rest);
        assert(all =~= a.take(s) + rest_all);
        assert(all.skip(s) =~= rest_all);
        assert forall|i: int| 0 <= i < s implies white(#[trigger] all[i]) by {
            assert(all[i] == a[i]);
        }
        assert(black(rest[0]));
        assert(all[s] == rest[0]);
        lemma_span_is(all, white, s);
        assert forall|i: int| 0 <= i < n implies black(#[trigger] rest_all[i]) by {
            assert(rest_all[i] == rest[i]);
        }
        if n < rest.len() {
            assert(rest_all[n] == rest[n]);
        } else {
            assert(rest_all[n] == gap);
        }
        lemma_span_is(rest_all, black, n);
        assert(rest_all.take(n) =~= rest.take(n));
        assert(rest_all.skip(n) =~= rest.skip(n) + seq![gap] + b);
        law_white_space_parts_words(rest.skip(n), gap, b);
        assert(words(all) =~= words(a) + words(b));
    }
}

/// Two texts are the same but for their case exactly if they are of one length and at each
/// place the characters are equal, or a capital and its small letter.
pub proof fn law_case_is_all_that_may_differ(a: Seq<char>, b: Seq<char>)
    ensures
        same_ignoring_case(a, b) <==> a.len() == b.len() && forall|i: int|
            0 <= i < a.len() ==> {
                ||| #[trigger] a[i] == b[i]
                ||| 'A' <= a[i] <= 'Z' && b[i] as int == a[i] as int + 32
                ||| 'A' <= b[i] <= 'Z' && a[i] as int == b[i] as int + 32
            },
{
    if a.len() == b.len() {
        assert forall|i: int| 0 <= i < a.len() implies ((folded(#[trigger] a[i]) == folded(b[i]))
            == (a[i] == b[i] || ('A' <= a[i] <= 'Z' && b[i] as int == a[i] as int + 32) || ('A'
            <= b[i] <= 'Z' && a[i] as int == b[i] as int + 32))) by {}
    }
}

/// In ASCII the letters are those from A to Z, small or not.
pub proof fn law_ascii_letters(c: char)
    requires
        c <= '\u{7f}',
    ensures
        is_letter(c) <==> 'a' <= c <= 'z' || 'A' <= c <= 'Z',
{
}

/// In ASCII the white space is the blank and the characters from the tabulator to the carriage
/// return.
pub proof fn law_ascii_white_space(c: char)
    requires
        c <= '\u{7f}',
    ensures
        unicode_whitespace(c) <==> c == ' ' || 9 <= c as int <= 13,
{
}

/// Small letters stand in place of the capitals, and every other character stays.
pub proof fn law_lowercase_changes_capitals_only(text: Seq<char>, i: int)
    requires
        is_ascii_chars(text),
        0 <= i < text.len(),
    ensures
        lowercase(text).len() == text.len(),
        'A' <= text[i] <= 'Z' ==> lowercase(text)[i] as int == text[i] as int + 32,
        !('A' <= text[i] <= 'Z') ==> lowercase(text)[i] == text[i],
{
}

} // verus!
