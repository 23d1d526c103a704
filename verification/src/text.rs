//! Characters and text: whitespace, case folding, splitting and trimming.

use vstd::prelude::*;
use vstd::string::*;
use vstd::utf8::*;

verus! {

/// The characters with the Unicode property `White_Space`.
pub open spec fn is_white_space(c: char) -> bool {
    let code = c as u32;
    ||| 0x9 <= code <= 0xd
    ||| code == 0x20
    ||| code == 0x85
    ||| code == 0xa0
    ||| code == 0x1680
    ||| 0x2000 <= code <= 0x200a
    ||| code == 0x2028
    ||| code == 0x2029
    ||| code == 0x202f
    ||| code == 0x205f
    ||| code == 0x3000
}

/// Tells whether `c` is white space.
pub fn white_space(c: char) -> (answer: bool)
    ensures
        answer == is_white_space(c),
{
    let code: u32 = c as u32;
    (0x9 <= code && code <= 0xd) || code == 0x20 || code == 0x85 || code == 0xa0 || code == 0x1680
        || (0x2000 <= code && code <= 0x200a) || code == 0x2028 || code == 0x2029 || code == 0x202f
        || code == 0x205f || code == 0x3000
}

/// `c` with an ASCII capital letter turned into the small one.
pub open spec fn ascii_lower(c: char) -> char {
    if 'A' <= c <= 'Z' {
        ((c as u32) + 32) as char
    } else {
        c
    }
}

/// Two texts that differ at most in the case of ASCII letters.
pub open spec fn same_ignoring_case(a: Seq<char>, b: Seq<char>) -> bool {
    &&& a.len() == b.len()
    &&& forall|i: int| 0 <= i < a.len() ==> ascii_lower(#[trigger] a[i]) == ascii_lower(b[i])
}

/// Folds an ASCII capital letter to the small one.
fn fold_case(c: char) -> (folded: char)
    ensures
        folded == ascii_lower(c),
{
    if 'A' <= c && c <= 'Z' {
        let code: u8 = c as u8;
        (code + 32) as char
    } else {
        c
    }
}

/// The characters of `text`, in order.
pub fn characters(text: &str) -> (chars: Vec<char>)
    ensures
        chars@ == text@,
{
    let mut chars: Vec<char> = Vec::new();
    for c in it: text.chars()
        invariant
            it.seq() == text@,
            chars@ == text@.take(it.index()),
    {
        chars.push(c);
    }
    chars
}

/// Compares two texts, ignoring the case of ASCII letters.
pub fn equal_ignoring_case(a: &[char], b: &[char]) -> (answer: bool)
    ensures
        answer == same_ignoring_case(a@, b@),
{
    if a.len() != b.len() {
        return false;
    }
    for i in 0..a.len()
        invariant
            a@.len() == b@.len(),
            forall|j: int| 0 <= j < i ==> ascii_lower(#[trigger] a@[j]) == ascii_lower(b@[j]),
    {
        if fold_case(a[i]) != fold_case(b[i]) {
            return false;
        }
    }
    true
}

/// The number of characters before the first `wanted`, or the length of `s` without one.
pub open spec fn first_index(s: Seq<char>, wanted: char) -> int
    decreases s.len(),
{
    if s.len() == 0 || s[0] == wanted {
        0
    } else {
        1 + first_index(s.drop_first(), wanted)
    }
}

/// `first_index` stays within the text, stops at `wanted`, and passes none of it.
pub proof fn lemma_first_index(s: Seq<char>, wanted: char)
    ensures
        0 <= first_index(s, wanted) <= s.len(),
        first_index(s, wanted) < s.len() ==> s[first_index(s, wanted)] == wanted,
        forall|i: int| 0 <= i < first_index(s, wanted) ==> s[i] != wanted,
    decreases s.len(),
{
    if s.len() > 0 && s[0] != wanted {
        let rest = s.drop_first();
        lemma_first_index(rest, wanted);
        assert forall|i: int| 0 <= i < first_index(s, wanted) implies s[i] != wanted by {
            if i > 0 {
                assert(rest[i - 1] == s[i]);
            }
        }
    }
}

/// The one index with the three properties of `lemma_first_index` is `first_index`.
pub proof fn lemma_first_index_unique(s: Seq<char>, wanted: char, n: int)
    requires
        0 <= n <= s.len(),
        n < s.len() ==> s[n] == wanted,
        forall|i: int| 0 <= i < n ==> s[i] != wanted,
    ensures
        first_index(s, wanted) == n,
{
    lemma_first_index(s, wanted);
}

/// Finds the first `wanted` in `chars`, or the end of it.
pub fn find(chars: &[char], wanted: char) -> (index: usize)
    ensures
        index == first_index(chars@, wanted),
        index <= chars@.len(),
{
    let mut index: usize = 0;
    while index < chars.len() && chars[index] != wanted
        invariant
            index <= chars@.len(),
            forall|j: int| 0 <= j < index ==> chars@[j] != wanted,
        decreases chars@.len() - index,
    {
        index += 1;
    }
    proof {
        lemma_first_index_unique(chars@, wanted, index as int);
    }
    index
}

/// The parts of `s` between separators, empty ones among them.
pub open spec fn split(s: Seq<char>, separator: char) -> Seq<Seq<char>>
    decreases s.len(),
    via split_decreases
{
    let n = first_index(s, separator);
    if n < s.len() {
        seq![s.take(n)] + split(s.skip(n + 1), separator)
    } else {
        seq![s]
    }
}

#[via_fn]
proof fn split_decreases(s: Seq<char>, separator: char) {
    lemma_first_index(s, separator);
}

/// Finds the parts of `chars` between separators, each as where it begins and where it ends.
pub fn split_bounds(chars: &[char], separator: char) -> (bounds: Vec<(usize, usize)>)
    ensures
        bounds@.len() == split(chars@, separator).len(),
        forall|i: int|
            0 <= i < bounds@.len() ==> (#[trigger] bounds@[i]).0 <= bounds@[i].1 <= chars@.len()
                && chars@.subrange(bounds@[i].0 as int, bounds@[i].1 as int) == split(
                chars@,
                separator,
            )[i],
{
    let mut bounds: Vec<(usize, usize)> = Vec::new();
    let mut from: usize = 0;
    let ghost parts = split(chars@, separator);
    assert(chars@.skip(0) == chars@);
    assert(parts.skip(0) == parts);
    loop
        invariant
            from <= chars@.len(),
            parts == split(chars@, separator),
            bounds@.len() < parts.len(),
            parts.skip(bounds@.len() as int) == split(chars@.skip(from as int), separator),
            forall|i: int|
                0 <= i < bounds@.len() ==> (#[trigger] bounds@[i]).0 <= bounds@[i].1 <= chars@.len()
                    && chars@.subrange(bounds@[i].0 as int, bounds@[i].1 as int) == parts[i],
        decreases chars@.len() - from,
    {
        let rest = vstd::slice::slice_subrange(chars, from, chars.len());
        let end = find(rest, separator);
        let ghost here = parts.skip(bounds@.len() as int);
        assert(rest@ == chars@.skip(from as int));
        assert(chars@.subrange(from as int, from + end) == rest@.take(end as int));
        assert(here[0] == rest@.take(end as int)) by {
            if end == rest@.len() {
                assert(rest@.take(end as int) == rest@);
            }
        }
        assert(here[0] == parts[bounds@.len() as int]);
        bounds.push((from, from + end));
        if end == rest.len() {
            assert(here.len() == 1);
            return bounds;
        }
        assert(here.drop_first() == split(rest@.skip(end + 1), separator));
        assert(here.drop_first() == parts.skip(bounds@.len() as int));
        assert(rest@.skip(end + 1) == chars@.skip(from + end + 1));
        from = from + end + 1;
        proof {
            lemma_split_not_empty(chars@.skip(from as int), separator);
        }
    }
}

/// There is always a part.
proof fn lemma_split_not_empty(s: Seq<char>, separator: char)
    ensures
        split(s, separator).len() > 0,
{
}

/// `s` without the white space it begins with.
pub open spec fn trim_start(s: Seq<char>) -> Seq<char>
    decreases s.len(),
{
    if s.len() > 0 && is_white_space(s[0]) {
        trim_start(s.drop_first())
    } else {
        s
    }
}

/// `s` without the white space it ends with.
pub open spec fn trim_end(s: Seq<char>) -> Seq<char>
    decreases s.len(),
{
    if s.len() > 0 && is_white_space(s.last()) {
        trim_end(s.drop_last())
    } else {
        s
    }
}

/// `s` without the white space at either end.
pub open spec fn trim(s: Seq<char>) -> Seq<char> {
    trim_end(trim_start(s))
}

/// Cuts the white space off both ends of `chars`.
pub fn trimmed(chars: &[char]) -> (inner: &[char])
    ensures
        inner@ == trim(chars@),
{
    let mut from: usize = 0;
    assert(chars@.skip(0) == chars@);
    while from < chars.len() && white_space(chars[from])
        invariant
            from <= chars@.len(),
            trim_start(chars@.skip(from as int)) == trim_start(chars@),
        decreases chars@.len() - from,
    {
        assert(chars@.skip(from as int).drop_first() == chars@.skip(from + 1));
        from += 1;
    }
    let mut to: usize = chars.len();
    assert(chars@.subrange(from as int, to as int) == chars@.skip(from as int));
    while from < to && white_space(chars[to - 1])
        invariant
            from <= to <= chars@.len(),
            trim_end(chars@.subrange(from as int, to as int)) == trim(chars@),
        decreases to,
    {
        assert(chars@.subrange(from as int, to as int).drop_last() == chars@.subrange(
            from as int,
            to - 1,
        ));
        to -= 1;
    }
    vstd::slice::slice_subrange(chars, from, to)
}

/// The length of the word that `s` begins with: up to the first white space.
pub open spec fn word_length(s: Seq<char>) -> int
    decreases s.len(),
{
    if s.len() == 0 || is_white_space(s[0]) {
        0
    } else {
        1 + word_length(s.drop_first())
    }
}

/// A word stays within its text, and is empty only at the end or in front of white space.
pub proof fn lemma_word_length(s: Seq<char>)
    ensures
        0 <= word_length(s) <= s.len(),
        s.len() > 0 && !is_white_space(s[0]) ==> word_length(s) > 0,
    decreases s.len(),
{
    if s.len() > 0 && !is_white_space(s[0]) {
        lemma_word_length(s.drop_first());
    }
}

/// Trimming never makes a text longer, and leaves no white space in front.
pub proof fn lemma_trim_start(s: Seq<char>)
    ensures
        trim_start(s).len() <= s.len(),
        trim_start(s).len() > 0 ==> !is_white_space(trim_start(s)[0]),
    decreases s.len(),
{
    if s.len() > 0 && is_white_space(s[0]) {
        lemma_trim_start(s.drop_first());
    }
}

/// The words of `s`: its longest runs without white space.
pub open spec fn words(s: Seq<char>) -> Seq<Seq<char>>
    decreases s.len(),
    via words_decreases
{
    let inner = trim_start(s);
    if inner.len() == 0 {
        seq![]
    } else {
        seq![inner.take(word_length(inner))] + words(inner.skip(word_length(inner)))
    }
}

#[via_fn]
proof fn words_decreases(s: Seq<char>) {
    lemma_trim_start(s);
    lemma_word_length(trim_start(s));
}

/// Finds the first word of `chars[from..]`: where it begins and where it ends.
fn next_word(chars: &[char], from: usize) -> (bounds: (usize, usize))
    requires
        from <= chars@.len(),
    ensures
        from <= bounds.0 <= bounds.1 <= chars@.len(),
        trim_start(chars@.skip(from as int)) == chars@.skip(bounds.0 as int),
        bounds.1 - bounds.0 == word_length(chars@.skip(bounds.0 as int)),
{
    let mut start: usize = from;
    while start < chars.len() && white_space(chars[start])
        invariant
            from <= start <= chars@.len(),
            trim_start(chars@.skip(start as int)) == trim_start(chars@.skip(from as int)),
        decreases chars@.len() - start,
    {
        assert(chars@.skip(start as int).drop_first() == chars@.skip(start + 1));
        start += 1;
    }
    let mut end: usize = start;
    while end < chars.len() && !white_space(chars[end])
        invariant
            start <= end <= chars@.len(),
            word_length(chars@.skip(start as int)) == end - start + word_length(
                chars@.skip(end as int),
            ),
        decreases chars@.len() - end,
    {
        assert(chars@.skip(end as int).drop_first() == chars@.skip(end + 1));
        end += 1;
    }
    (start, end)
}

/// Finds the first two words of `chars`, each as where it begins and where it ends.
pub fn first_two_words(chars: &[char]) -> (found: (Option<(usize, usize)>, Option<(usize, usize)>))
    ensures
        found.0 is Some <==> words(chars@).len() > 0,
        found.1 is Some <==> words(chars@).len() > 1,
        found.0 matches Some((a, b)) ==> a <= b <= chars@.len() && chars@.subrange(a as int, b as int)
            == words(chars@)[0],
        found.1 matches Some((a, b)) ==> a <= b <= chars@.len() && chars@.subrange(a as int, b as int)
            == words(chars@)[1],
{
    let (start, end) = next_word(chars, 0);
    let ghost inner = trim_start(chars@);
    assert(chars@.skip(0) == chars@);
    proof {
        reveal_with_fuel(words, 3);
        lemma_trim_start(chars@);
        lemma_word_length(inner);
    }
    if start == end {
        return (None, None);
    }
    assert(inner.take(word_length(inner)) == chars@.subrange(start as int, end as int));
    assert(inner.skip(word_length(inner)) == chars@.skip(end as int));
    let (next_start, next_end) = next_word(chars, end);
    let ghost rest = trim_start(chars@.skip(end as int));
    proof {
        lemma_trim_start(chars@.skip(end as int));
        lemma_word_length(rest);
    }
    if next_start == next_end {
        return (Some((start, end)), None);
    }
    assert(rest.take(word_length(rest)) == chars@.subrange(next_start as int, next_end as int));
    (Some((start, end)), Some((next_start, next_end)))
}

/// Whether one of the comma-separated parts of `s`, trimmed, is `token` in some case.
pub open spec fn lists(s: Seq<char>, token: Seq<char>) -> bool {
    exists|i: int|
        0 <= i < split(s, ',').len() && same_ignoring_case(
            trim(#[trigger] split(s, ',')[i]),
            token,
        )
}

/// A list holds a token in its first part or in the list behind the first comma.
proof fn lemma_lists(s: Seq<char>, token: Seq<char>)
    ensures
        ({
            let n = first_index(s, ',');
            lists(s, token) == (same_ignoring_case(trim(s.take(n)), token) || (n < s.len() && lists(
                s.skip(n + 1),
                token,
            )))
        }),
{
    let n = first_index(s, ',');
    let parts = split(s, ',');
    lemma_first_index(s, ',');
    assert(parts[0] == s.take(n)) by {
        if n == s.len() {
            assert(s.take(n) == s);
        }
    }
    if n < s.len() {
        let rest = split(s.skip(n + 1), ',');
        assert(parts.len() == rest.len() + 1);
        assert forall|i: int| 0 <= i < rest.len() implies rest[i] == parts[i + 1] by {}
        if lists(s, token) {
            let i = choose|i: int|
                0 <= i < parts.len() && same_ignoring_case(trim(#[trigger] parts[i]), token);
            if i > 0 {
                assert(rest[i - 1] == parts[i]);
            }
        }
        if lists(s.skip(n + 1), token) {
            let i = choose|i: int|
                0 <= i < rest.len() && same_ignoring_case(trim(#[trigger] rest[i]), token);
            assert(parts[i + 1] == rest[i]);
        }
    }
}

/// Looks for `token` among the comma-separated parts of `text`.
pub fn list_contains(text: &str, token: &str) -> (answer: bool)
    ensures
        answer == lists(text@, token@),
{
    let chars = characters(text);
    let wanted = characters(token);
    let mut from: usize = 0;
    assert(chars@.skip(0) == chars@);
    loop
        invariant
            chars@ == text@,
            wanted@ == token@,
            from <= chars@.len(),
            lists(text@, token@) == lists(chars@.skip(from as int), token@),
        decreases chars@.len() - from,
    {
        let rest = vstd::slice::slice_subrange(chars.as_slice(), from, chars.len());
        let end = find(rest, ',');
        assert(rest@ == chars@.skip(from as int));
        proof {
            lemma_lists(rest@, token@);
        }
        let part = trimmed(vstd::slice::slice_subrange(rest, 0, end));
        assert(rest@.subrange(0, end as int) == rest@.take(end as int));
        if equal_ignoring_case(part, wanted.as_slice()) {
            return true;
        }
        if end == rest.len() {
            return false;
        }
        assert(rest@.skip(end + 1) == chars@.skip(from + end + 1));
        from = from + end + 1;
    }
}

/// Reads `bytes` as text, by calling `core::str::from_utf8`: there is a text exactly if the bytes
/// are well-formed UTF-8, and it holds the characters that they encode.
#[verifier::external_body]
pub(crate) fn utf8_text(bytes: &[u8]) -> (text: Option<&str>)
    ensures
        text is Some <==> valid_utf8(bytes@),
        text matches Some(t) ==> t@ == decode_utf8(bytes@),
{
    core::str::from_utf8(bytes).ok()
}

/// White space is exactly these characters: tab to carriage return, space, next line, no-break
/// space, ogham space, the spaces from en quad to hair space, line and paragraph separator, and the
/// narrow, mathematical and ideographic spaces.
pub proof fn law_white_space(c: char, answer: bool)
    requires
        call_ensures(white_space, (c,), answer),
    ensures
        answer == is_white_space(c),
        answer <==> seq![
            0x9u32, 0xa, 0xb, 0xc, 0xd, 0x20, 0x85, 0xa0, 0x1680, 0x2000, 0x2001, 0x2002, 0x2003,
            0x2004, 0x2005, 0x2006, 0x2007, 0x2008, 0x2009, 0x200a, 0x2028, 0x2029, 0x202f, 0x205f,
            0x3000,
        ].contains(c as u32),
{
    let spaces = seq![
        0x9u32, 0xa, 0xb, 0xc, 0xd, 0x20, 0x85, 0xa0, 0x1680, 0x2000, 0x2001, 0x2002, 0x2003,
        0x2004, 0x2005, 0x2006, 0x2007, 0x2008, 0x2009, 0x200a, 0x2028, 0x2029, 0x202f, 0x205f,
        0x3000,
    ];
    let code = c as u32;
    if is_white_space(c) {
        let i = if code <= 0xd {
            code - 9
        } else if code == 0x20 {
            5
        } else if code == 0x85 {
            6
        } else if code == 0xa0 {
            7
        } else if code == 0x1680 {
            8
        } else if code <= 0x200a {
            code - 0x2000 + 9
        } else if code == 0x2028 {
            20
        } else if code == 0x2029 {
            21
        } else if code == 0x202f {
            22
        } else if code == 0x205f {
            23
        } else {
            24
        };
        assert(spaces[i] == code);
    }
}

/// Two texts are the same but for case exactly if they are equally long and each character is the
/// same or one is an ASCII capital letter and the other that letter in small.
pub proof fn law_case_of_ascii_letters_alone(a: &[char], b: &[char], answer: bool)
    requires
        call_ensures(equal_ignoring_case, (a, b), answer),
    ensures
        answer == same_ignoring_case(a@, b@),
        answer <==> a@.len() == b@.len() && forall|i: int|
            0 <= i < a@.len() ==> {
                ||| #[trigger] a@[i] == b@[i]
                ||| 'A' <= a@[i] <= 'Z' && b@[i] as int == a@[i] as int + 32
                ||| 'A' <= b@[i] <= 'Z' && a@[i] as int == b@[i] as int + 32
            },
{
    if answer {
        assert forall|i: int| 0 <= i < a@.len() implies {
            ||| #[trigger] a@[i] == b@[i]
            ||| 'A' <= a@[i] <= 'Z' && b@[i] as int == a@[i] as int + 32
            ||| 'A' <= b@[i] <= 'Z' && a@[i] as int == b@[i] as int + 32
        } by {
            lemma_same_letter(a@[i], b@[i]);
        }
    }
    if a@.len() == b@.len() && forall|i: int|
        0 <= i < a@.len() ==> {
            ||| #[trigger] a@[i] == b@[i]
            ||| 'A' <= a@[i] <= 'Z' && b@[i] as int == a@[i] as int + 32
            ||| 'A' <= b@[i] <= 'Z' && a@[i] as int == b@[i] as int + 32
        } {
        assert forall|i: int| 0 <= i < a@.len() implies ascii_lower(#[trigger] a@[i])
            == ascii_lower(b@[i]) by {
            lemma_same_letter(a@[i], b@[i]);
        }
    }
}

/// Two characters are the same letter.
proof fn lemma_same_letter(a: char, b: char)
    ensures
        ascii_lower(a) == ascii_lower(b) <==> {
            ||| a == b
            ||| 'A' <= a <= 'Z' && b as int == a as int + 32
            ||| 'A' <= b <= 'Z' && a as int == b as int + 32
        },
{
}

/// Whether `s` holds no `c`.
pub open spec fn lacks(s: Seq<char>, c: char) -> bool {
    forall|i: int| 0 <= i < s.len() ==> #[trigger] s[i] != c
}

/// The parts with separators between them.
pub open spec fn joined(parts: Seq<Seq<char>>, separator: char) -> Seq<char>
    decreases parts.len(),
{
    if parts.len() == 0 {
        Seq::empty()
    } else if parts.len() == 1 {
        parts[0]
    } else {
        parts[0] + seq![separator] + joined(parts.drop_first(), separator)
    }
}

/// Parts that hold no separator, written with separators between them, are the parts again.
pub proof fn law_parts_are_split(parts: Seq<Seq<char>>, separator: char)
    requires
        parts.len() > 0,
        forall|i: int| 0 <= i < parts.len() ==> lacks(#[trigger] parts[i], separator),
    ensures
        split(joined(parts, separator), separator) == parts,
    decreases parts.len(),
{
    let s = joined(parts, separator);
    let n = parts[0].len() as int;
    assert(lacks(parts[0], separator));
    assert forall|i: int| 0 <= i < n implies s[i] != separator by {
        assert(s[i] == parts[0][i]);
    }
    lemma_first_index_unique(s, separator, n);
    if parts.len() == 1 {
        assert(split(s, separator) == parts);
    } else {
        let rest = parts.drop_first();
        assert forall|i: int| 0 <= i < rest.len() implies lacks(#[trigger] rest[i], separator) by {
            assert(rest[i] == parts[i + 1]);
        }
        law_parts_are_split(rest, separator);
        assert(s.take(n) == parts[0]);
        assert(s.skip(n + 1) == joined(rest, separator));
        assert(split(s, separator) == parts);
    }
}

/// Every text is its parts with separators between them, and no part holds one.
pub proof fn law_split_parts_make_up_the_text(s: Seq<char>, separator: char)
    ensures
        split(s, separator).len() > 0,
        joined(split(s, separator), separator) == s,
        forall|i: int|
            0 <= i < split(s, separator).len() ==> lacks(
                #[trigger] split(s, separator)[i],
                separator,
            ),
    decreases s.len(),
{
    let n = first_index(s, separator);
    lemma_first_index(s, separator);
    if n < s.len() {
        let rest = split(s.skip(n + 1), separator);
        law_split_parts_make_up_the_text(s.skip(n + 1), separator);
        let parts = split(s, separator);
        assert(parts.drop_first() == rest);
        assert forall|i: int| 0 <= i < parts.len() implies lacks(#[trigger] parts[i], separator) by {
            if i > 0 {
                assert(parts[i] == rest[i - 1]);
            }
        }
        assert(s == s.take(n) + seq![separator] + s.skip(n + 1));
    } else {
        assert(split(s, separator) == seq![s]);
    }
}

/// Whether `s` is white space throughout.
pub open spec fn blank(s: Seq<char>) -> bool {
    forall|i: int| 0 <= i < s.len() ==> is_white_space(#[trigger] s[i])
}

/// Whether `s` neither begins nor ends with white space.
pub open spec fn bare(s: Seq<char>) -> bool {
    s.len() > 0 ==> !is_white_space(s[0]) && !is_white_space(s.last())
}

/// White space in front is cut off.
proof fn lemma_trim_start_blank(front: Seq<char>, s: Seq<char>)
    requires
        blank(front),
        s.len() > 0 ==> !is_white_space(s[0]),
    ensures
        trim_start(front + s) == s,
    decreases front.len(),
{
    if front.len() == 0 {
        assert(front + s == s);
    } else {
        assert(is_white_space(front[0]));
        assert((front + s).drop_first() == front.drop_first() + s);
        assert forall|i: int| 0 <= i < front.len() - 1 implies is_white_space(
            #[trigger] front.drop_first()[i],
        ) by {
            assert(front[i + 1] == front.drop_first()[i]);
        }
        lemma_trim_start_blank(front.drop_first(), s);
    }
}

/// White space behind is cut off.
proof fn lemma_trim_end_blank(s: Seq<char>, back: Seq<char>)
    requires
        blank(back),
        s.len() > 0 ==> !is_white_space(s.last()),
    ensures
        trim_end(s + back) == s,
    decreases back.len(),
{
    if back.len() == 0 {
        assert(s + back == s);
    } else {
        assert(is_white_space(back.last()));
        assert((s + back).drop_last() == s + back.drop_last());
        lemma_trim_end_blank(s, back.drop_last());
    }
}

/// A text is trimmed of all the white space at either end and of nothing else.
pub proof fn law_trim_cuts_white_space(front: Seq<char>, s: Seq<char>, back: Seq<char>)
    requires
        blank(front),
        bare(s),
        blank(back),
    ensures
        trim(front + s + back) == s,
{
    if s.len() == 0 {
        assert(front + s + back == (front + back) + s);
        assert forall|i: int| 0 <= i < (front + back).len() implies is_white_space(
            #[trigger] (front + back)[i],
        ) by {
            if i < front.len() {
                assert(is_white_space(front[i]));
            } else {
                assert(is_white_space(back[i - front.len()]));
            }
        }
        lemma_trim_start_blank(front + back, s);
        assert(trim_end(s) == s);
    } else {
        assert(front + s + back == front + (s + back));
        assert((s + back)[0] == s[0]);
        lemma_trim_start_blank(front, s + back);
        lemma_trim_end_blank(s, back);
    }
}

/// Every text is white space, what trimming leaves, and white space.
pub proof fn law_trimmed_text_is_within(s: Seq<char>) -> (ends: (Seq<char>, Seq<char>))
    ensures
        blank(ends.0),
        blank(ends.1),
        bare(trim(s)),
        s == ends.0 + trim(s) + ends.1,
    decreases s.len(),
{
    if s.len() > 0 && is_white_space(s[0]) {
        let (front, back) = law_trimmed_text_is_within(s.drop_first());
        let longer = seq![s[0]] + front;
        assert forall|i: int| 0 <= i < longer.len() implies is_white_space(#[trigger] longer[i]) by {
            if i > 0 {
                assert(longer[i] == front[i - 1]);
            }
        }
        assert(s == seq![s[0]] + s.drop_first());
        assert(trim(s) == trim(s.drop_first()));
        assert(s == longer + trim(s) + back);
        (longer, back)
    } else {
        let back = lemma_trim_end_within(s);
        assert(s == Seq::<char>::empty() + trim(s) + back);
        if trim(s).len() > 0 {
            assert(trim(s)[0] == s[0]);
        }
        (Seq::empty(), back)
    }
}

/// A text is what cutting at its end leaves, and white space.
proof fn lemma_trim_end_within(s: Seq<char>) -> (back: Seq<char>)
    ensures
        blank(back),
        s == trim_end(s) + back,
        trim_end(s).len() > 0 ==> !is_white_space(trim_end(s).last()),
    decreases s.len(),
{
    if s.len() > 0 && is_white_space(s.last()) {
        let back = lemma_trim_end_within(s.drop_last());
        assert(s == s.drop_last().push(s.last()));
        assert(s == trim_end(s) + back.push(s.last()));
        back.push(s.last())
    } else {
        assert(s == trim_end(s) + Seq::<char>::empty());
        Seq::empty()
    }
}

/// Whether `s` is a word: something without white space.
pub open spec fn is_word(s: Seq<char>) -> bool {
    s.len() > 0 && forall|i: int| 0 <= i < s.len() ==> !is_white_space(#[trigger] s[i])
}

/// A word ends where white space or nothing follows.
proof fn lemma_word_in_front(word: Seq<char>, rest: Seq<char>)
    requires
        forall|i: int| 0 <= i < word.len() ==> !is_white_space(#[trigger] word[i]),
        rest.len() > 0 ==> is_white_space(rest[0]),
    ensures
        word_length(word + rest) == word.len(),
    decreases word.len(),
{
    if word.len() == 0 {
        assert(word + rest == rest);
    } else {
        assert((word + rest).drop_first() == word.drop_first() + rest);
        assert forall|i: int| 0 <= i < word.len() - 1 implies !is_white_space(
            #[trigger] word.drop_first()[i],
        ) by {
            assert(word.drop_first()[i] == word[i + 1]);
        }
        assert(!is_white_space(word[0]));
        lemma_word_in_front(word.drop_first(), rest);
    }
}

/// White space alone holds no words. A word behind white space, with white space or nothing behind
/// it, is the first word, and the words of what follows are the others.
pub proof fn law_words_stand_between_white_space(
    front: Seq<char>,
    word: Seq<char>,
    rest: Seq<char>,
)
    requires
        blank(front),
        is_word(word),
        rest.len() > 0 ==> is_white_space(rest[0]),
    ensures
        words(front) == Seq::<Seq<char>>::empty(),
        words(front + word + rest) == seq![word] + words(rest),
{
    assert(front + Seq::<char>::empty() == front);
    lemma_trim_start_blank(front, Seq::empty());
    let inner = word + rest;
    assert(front + word + rest == front + inner);
    assert(inner[0] == word[0] && !is_white_space(word[0]));
    lemma_trim_start_blank(front, inner);
    lemma_word_in_front(word, rest);
    assert(inner.take(word.len() as int) == word);
    assert(inner.skip(word.len() as int) == rest);
}

/// A comma-separated list holds a token exactly if one of its parts is the token in some case with
/// nothing but white space around it.
pub proof fn law_list_holds_its_parts(
    text: &str,
    token: &str,
    answer: bool,
    parts: Seq<Seq<char>>,
)
    requires
        call_ensures(list_contains, (text, token), answer),
        parts.len() > 0,
        forall|i: int| 0 <= i < parts.len() ==> lacks(#[trigger] parts[i], ','),
        text@ == joined(parts, ','),
    ensures
        answer == lists(text@, token@),
        answer <==> exists|i: int|
            0 <= i < parts.len() && same_ignoring_case(trim(#[trigger] parts[i]), token@),
{
    law_parts_are_split(parts, ',');
}

} // verus!
