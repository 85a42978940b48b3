//! Text as a sequence of characters: searching, splitting and trimming.
//!
//! The parser works on `[char]` rather than on `str`, so that a position is an index and a
//! piece of text is a sub-slice. The contracts speak of `Seq<char>`, the view of both.

use vstd::prelude::*;
use vstd::slice::slice_subrange;

verus! {

/// Whether `c` is white space: one of the characters with the Unicode property
/// `White_Space`.
pub open spec fn is_whitespace(c: char) -> bool {
    let code: u32 = c as u32;
    ||| 0x0009 <= code <= 0x000D
    ||| code == 0x0020
    ||| code == 0x0085
    ||| code == 0x00A0
    ||| code == 0x1680
    ||| 0x2000 <= code <= 0x200A
    ||| code == 0x2028
    ||| code == 0x2029
    ||| code == 0x202F
    ||| code == 0x205F
    ||| code == 0x3000
}

/// Whether `c` is a letter of the ASCII alphabet.
pub open spec fn is_ascii_letter(c: char) -> bool {
    let code: u32 = c as u32;
    0x41 <= code <= 0x5A || 0x61 <= code <= 0x7A
}

/// Whether `c` is a letter or a digit of ASCII, or `_`.
pub open spec fn is_name_char(c: char) -> bool {
    let code: u32 = c as u32;
    is_ascii_letter(c) || 0x30 <= code <= 0x39 || c == '_'
}

/// Calls `char::is_whitespace`, which tells whether the character has the Unicode property
/// `White_Space`: the result is [`is_whitespace`] of it.
#[verifier::external_body]
pub(crate) fn char_is_whitespace(c: char) -> (res: bool)
    ensures
        res == is_whitespace(c),
{
    c.is_whitespace()
}

/// Calls `String::push`, which appends `c` to the end of `s` and leaves the rest of `s` as
/// it was.
#[verifier::external_body]
pub(crate) fn push_char(s: &mut String, c: char)
    ensures
        final(s)@ == old(s)@.push(c),
{
    s.push(c)
}

/// Whether `needle` stands in `s` at index `i`.
pub open spec fn occurs_at(s: Seq<char>, needle: Seq<char>, i: int) -> bool {
    0 <= i && i + needle.len() <= s.len() && s.subrange(i, i + needle.len()) == needle
}

/// The first index at or after `from` at which `needle` stands in `s`.
pub open spec fn find(s: Seq<char>, needle: Seq<char>, from: int) -> Option<int>
    decreases s.len() - from,
{
    if from < 0 || from + needle.len() > s.len() {
        None
    } else if occurs_at(s, needle, from) {
        Some(from)
    } else {
        proof {
            if needle.len() == 0 {
                lemma_empty_occurs(s, needle, from);
            }
        }
        find(s, needle, from + 1)
    }
}

/// The empty text stands at every index up to the end.
pub proof fn lemma_empty_occurs(s: Seq<char>, needle: Seq<char>, i: int)
    requires
        0 <= i <= s.len(),
        needle.len() == 0,
    ensures
        occurs_at(s, needle, i),
{
    assert(s.subrange(i, i + needle.len()) =~= needle);
}

/// `s` cut in two at the first occurrence of `needle`, which belongs to neither part.
pub open spec fn split_once(s: Seq<char>, needle: Seq<char>) -> Option<(Seq<char>, Seq<char>)> {
    match find(s, needle, 0) {
        Some(i) => Some((s.subrange(0, i), s.subrange(i + needle.len(), s.len() as int))),
        None => None,
    }
}

/// `s` without the white space it starts with.
pub open spec fn trim_start(s: Seq<char>) -> Seq<char>
    decreases s.len(),
{
    if s.len() > 0 && is_whitespace(s.first()) {
        trim_start(s.drop_first())
    } else {
        s
    }
}

/// `s` without the white space it ends with.
pub open spec fn trim_end(s: Seq<char>) -> Seq<char>
    decreases s.len(),
{
    if s.len() > 0 && is_whitespace(s.last()) {
        trim_end(s.drop_last())
    } else {
        s
    }
}

/// `s` without the white space at either end.
pub open spec fn trim(s: Seq<char>) -> Seq<char> {
    trim_end(trim_start(s))
}

/// [`find`] returns the least index from `from` on at which `needle` stands, and `None`
/// only where it stands at none.
pub proof fn lemma_find(s: Seq<char>, needle: Seq<char>, from: int)
    requires
        0 <= from,
    ensures
        match find(s, needle, from) {
            Some(i) => from <= i && occurs_at(s, needle, i) && forall|j: int|
                from <= j < i ==> !occurs_at(s, needle, j),
            None => forall|j: int| from <= j ==> !occurs_at(s, needle, j),
        },
    decreases s.len() - from,
{
    if from + needle.len() <= s.len() && !occurs_at(s, needle, from) {
        if needle.len() == 0 {
            lemma_empty_occurs(s, needle, from);
        }
        lemma_find(s, needle, from + 1);
    }
}

/// What [`split_once`] returns are the text before the first occurrence of `needle` and the
/// text after it, and `None` only where `needle` stands nowhere in `s`.
pub proof fn lemma_split_once(s: Seq<char>, needle: Seq<char>)
    ensures
        match split_once(s, needle) {
            Some((before, after)) => {
                &&& s == before + needle + after
                &&& forall|j: int| 0 <= j < before.len() ==> !occurs_at(s, needle, j)
            },
            None => forall|j: int| 0 <= j ==> !occurs_at(s, needle, j),
        },
{
    lemma_find(s, needle, 0);
    if let Some((before, after)) = split_once(s, needle) {
        assert(s =~= before + needle + after);
    }
}

/// A text that is put together from `before`, `needle` and `after` is cut into `before` and
/// `after` again, where `needle` does not stand in it earlier.
pub proof fn lemma_split_joined(before: Seq<char>, needle: Seq<char>, after: Seq<char>)
    requires
        forall|j: int| 0 <= j < before.len() ==> !occurs_at(before + needle + after, needle, j),
    ensures
        split_once(before + needle + after, needle) == Some((before, after)),
{
    let s = before + needle + after;
    let at = before.len() as int;
    assert(occurs_at(s, needle, at)) by {
        assert(s.subrange(at, at + needle.len()) =~= needle);
    }
    lemma_find(s, needle, 0);
    assert(find(s, needle, 0) == Some(at));
    assert(s.subrange(0, at) =~= before);
    assert(s.subrange(at + needle.len(), s.len() as int) =~= after);
}

/// A text without the character `c` has no place where `c` stands.
pub proof fn lemma_absent(s: Seq<char>, c: char, rest: Seq<char>, j: int)
    requires
        !s.contains(c),
        0 <= j < s.len(),
    ensures
        !occurs_at(s + rest, seq![c], j),
{
    if occurs_at(s + rest, seq![c], j) {
        assert((s + rest).subrange(j, j + 1)[0] == c);
        assert(s[j] == c);
    }
}

/// A text that stands in a later part of another stands in the whole.
pub proof fn lemma_occurs_in_suffix(s: Seq<char>, needle: Seq<char>, from: int, j: int)
    requires
        0 <= from <= s.len(),
        occurs_at(s.subrange(from, s.len() as int), needle, j),
    ensures
        occurs_at(s, needle, from + j),
{
    let rest = s.subrange(from, s.len() as int);
    assert(s.subrange(from + j, from + j + needle.len()) =~= rest.subrange(j, j + needle.len()));
}

/// Trimming at the start leaves a suffix of the text.
pub proof fn lemma_trim_start(s: Seq<char>)
    ensures
        trim_start(s).len() <= s.len(),
        trim_start(s) == s.subrange(s.len() - trim_start(s).len(), s.len() as int),
        trim_start(s).len() > 0 ==> !is_whitespace(trim_start(s).first()),
        forall|i: int| 0 <= i < s.len() - trim_start(s).len() ==> is_whitespace(s[i]),
    decreases s.len(),
{
    if s.len() > 0 && is_whitespace(s.first()) {
        let t = s.drop_first();
        lemma_trim_start(t);
        let k = t.len() - trim_start(t).len();
        assert(t.subrange(k, t.len() as int) =~= s.subrange(k + 1, s.len() as int));
        assert forall|i: int| 0 <= i < s.len() - trim_start(s).len() implies is_whitespace(
            s[i],
        ) by {
            if i > 0 {
                assert(s[i] == t[i - 1]);
            }
        }
    } else {
        assert(s =~= s.subrange(0, s.len() as int));
    }
}

/// Trimming at the end leaves a prefix of the text.
pub proof fn lemma_trim_end(s: Seq<char>)
    ensures
        trim_end(s).len() <= s.len(),
        trim_end(s) == s.subrange(0, trim_end(s).len() as int),
        trim_end(s).len() > 0 ==> !is_whitespace(trim_end(s).last()),
        forall|i: int| trim_end(s).len() <= i < s.len() ==> is_whitespace(s[i]),
    decreases s.len(),
{
    if s.len() > 0 && is_whitespace(s.last()) {
        let t = s.drop_last();
        lemma_trim_end(t);
        assert(t.subrange(0, trim_end(t).len() as int) =~= s.subrange(
            0,
            trim_end(t).len() as int,
        ));
        assert forall|i: int| trim_end(s).len() <= i < s.len() implies is_whitespace(s[i]) by {
            if i < t.len() {
                assert(s[i] == t[i]);
            }
        }
    } else {
        assert(s =~= s.subrange(0, s.len() as int));
    }
}

/// A text between white space is what trimming leaves of the three, where the text neither
/// starts nor ends with white space.
pub proof fn lemma_trim_padded(left: Seq<char>, s: Seq<char>, right: Seq<char>)
    requires
        forall|i: int| 0 <= i < left.len() ==> is_whitespace(#[trigger] left[i]),
        forall|i: int| 0 <= i < right.len() ==> is_whitespace(#[trigger] right[i]),
        s.len() > 0 ==> !is_whitespace(s.first()) && !is_whitespace(s.last()),
    ensures
        trim(left + s + right) == s,
    decreases left.len() + right.len(),
{
    let all = left + s + right;
    if left.len() > 0 {
        assert(all.first() == left[0]);
        assert(all.drop_first() =~= left.drop_first() + s + right);
        lemma_trim_padded(left.drop_first(), s, right);
    } else if right.len() > 0 {
        let rest = right.drop_last();
        assert(all.drop_last() =~= left + s + rest);
        lemma_trim_padded(left, s, rest);
        if s.len() > 0 {
            assert(all.first() == s.first());
            assert((left + s + rest).first() == s.first());
            assert(trim_start(all) == all);
            assert(trim_start(left + s + rest) == left + s + rest);
            assert(all.last() == right.last());
        } else {
            lemma_trim_white(all);
            lemma_trim_white(left + s + rest);
        }
    } else {
        assert(all =~= s);
        if s.len() > 0 {
            assert(trim_start(s) == s);
        }
    }
}

/// Nothing is left of a text of white space.
pub proof fn lemma_trim_white(s: Seq<char>)
    requires
        forall|i: int| 0 <= i < s.len() ==> is_whitespace(#[trigger] s[i]),
    ensures
        trim_start(s) == Seq::<char>::empty(),
        trim(s) == Seq::<char>::empty(),
    decreases s.len(),
{
    if s.len() > 0 {
        assert(is_whitespace(s[0]));
        lemma_trim_white(s.drop_first());
    } else {
        assert(s =~= Seq::<char>::empty());
    }
}

/// Trimming leaves a piece of the text that is no longer than the text.
pub proof fn lemma_trim_len(s: Seq<char>)
    ensures
        trim(s).len() <= s.len(),
{
    lemma_trim_start(s);
    lemma_trim_end(trim_start(s));
}

/// The characters of `s`.
pub fn to_chars(s: &str) -> (res: Vec<char>)
    ensures
        res@ == s@,
{
    let mut res: Vec<char> = Vec::new();
    for c in it: s.chars()
        invariant
            it.seq() == s@,
            res@ == it.seq().take(it.index() as int),
    {
        res.push(c);
    }
    res
}

/// The string made of the characters of `value`.
pub fn to_string(value: &[char]) -> (res: String)
    ensures
        res@ == value@,
{
    let mut res = String::new();
    let mut i: usize = 0;
    while i < value.len()
        invariant
            i <= value.len(),
            res@ == value@.take(i as int),
        decreases value.len() - i,
    {
        push_char(&mut res, value[i]);
        i += 1;
    }
    res
}

/// Whether two texts hold the same characters.
pub fn chars_eq(a: &[char], b: &[char]) -> (res: bool)
    ensures
        res == (a@ == b@),
{
    if a.len() != b.len() {
        return false;
    }
    let mut i: usize = 0;
    while i < a.len()
        invariant
            i <= a.len(),
            a.len() == b.len(),
            a@.take(i as int) == b@.take(i as int),
        decreases a.len() - i,
    {
        if a[i] != b[i] {
            return false;
        }
        proof {
            assert(a@.take(i + 1) =~= a@.take(i as int).push(a@[i as int]));
            assert(b@.take(i + 1) =~= b@.take(i as int).push(b@[i as int]));
        }
        i += 1;
    }
    proof {
        assert(a@ =~= a@.take(a.len() as int));
        assert(b@ =~= b@.take(b.len() as int));
    }
    true
}

/// Whether two strings hold the same characters.
pub fn str_eq(a: &str, b: &str) -> (res: bool)
    ensures
        res == (a@ == b@),
{
    let a = to_chars(a);
    let b = to_chars(b);
    chars_eq(a.as_slice(), b.as_slice())
}

/// Whether `needle` stands in `value` at index `at`.
pub fn starts_with_at(value: &[char], needle: &[char], at: usize) -> (res: bool)
    ensures
        res == occurs_at(value@, needle@, at as int),
{
    if at > value.len() || needle.len() > value.len() - at {
        return false;
    }
    let piece = slice_subrange(value, at, at + needle.len());
    chars_eq(piece, needle)
}

/// The first index at which `needle` stands in `value`.
pub fn find_first(value: &[char], needle: &[char]) -> (res: Option<usize>)
    ensures
        match res {
            Some(i) => find(value@, needle@, 0) == Some(i as int) && i + needle.len()
                <= value.len(),
            None => find(value@, needle@, 0) is None,
        },
{
    if needle.len() > value.len() {
        return None;
    }
    let last = value.len() - needle.len();
    let mut i: usize = 0;
    loop
        invariant
            last + needle.len() == value.len(),
            i <= last,
            find(value@, needle@, 0) == find(value@, needle@, i as int),
        decreases last - i,
    {
        if starts_with_at(value, needle, i) {
            return Some(i);
        }
        if i == last {
            assert(find(value@, needle@, i + 1) is None);
            return None;
        }
        i += 1;
    }
}

/// Cuts `value` in two at the first occurrence of `needle`.
pub fn split_once_chars<'a>(value: &'a [char], needle: &[char]) -> (res: Option<
    (&'a [char], &'a [char]),
>)
    ensures
        match res {
            Some((before, after)) => split_once(value@, needle@) == Some((before@, after@)),
            None => split_once(value@, needle@) is None,
        },
{
    match find_first(value, needle) {
        Some(i) => {
            proof {
                lemma_find(value@, needle@, 0);
            }
            let before = slice_subrange(value, 0, i);
            let after = slice_subrange(value, i + needle.len(), value.len());
            Some((before, after))
        },
        None => None,
    }
}

/// Cuts `value` in two at the first `c`.
pub fn split_once_char(value: &[char], c: char) -> (res: Option<(&[char], &[char])>)
    ensures
        match res {
            Some((before, after)) => split_once(value@, seq![c]) == Some((before@, after@)),
            None => split_once(value@, seq![c]) is None,
        },
{
    let needle = [c];
    proof {
        assert(needle@ =~= seq![c]);
    }
    split_once_chars(value, needle.as_slice())
}

/// Cuts `value` in two at the first place where `c` stands twice in a row.
pub fn split_once_pair(value: &[char], c: char) -> (res: Option<(&[char], &[char])>)
    ensures
        match res {
            Some((before, after)) => split_once(value@, seq![c, c]) == Some((before@, after@)),
            None => split_once(value@, seq![c, c]) is None,
        },
{
    let needle = [c, c];
    proof {
        assert(needle@ =~= seq![c, c]);
    }
    split_once_chars(value, needle.as_slice())
}

/// `value` without the white space it starts with.
pub fn trim_start_chars(value: &[char]) -> (res: &[char])
    ensures
        res@ == trim_start(value@),
{
    let mut i: usize = 0;
    proof {
        assert(value@.subrange(0, value@.len() as int) =~= value@);
    }
    while i < value.len() && char_is_whitespace(value[i])
        invariant
            i <= value.len(),
            trim_start(value@) == trim_start(value@.subrange(i as int, value@.len() as int)),
        decreases value.len() - i,
    {
        proof {
            assert(value@.subrange(i as int, value@.len() as int).drop_first()
                =~= value@.subrange(i + 1, value@.len() as int));
        }
        i += 1;
    }
    slice_subrange(value, i, value.len())
}

/// `value` without the white space it ends with.
pub fn trim_end_chars(value: &[char]) -> (res: &[char])
    ensures
        res@ == trim_end(value@),
{
    let mut n: usize = value.len();
    proof {
        assert(value@.subrange(0, value@.len() as int) =~= value@);
    }
    while n > 0 && char_is_whitespace(value[n - 1])
        invariant
            n <= value.len(),
            trim_end(value@) == trim_end(value@.subrange(0, n as int)),
        decreases n,
    {
        proof {
            assert(value@.subrange(0, n as int).drop_last() =~= value@.subrange(0, n - 1));
        }
        n -= 1;
    }
    slice_subrange(value, 0, n)
}

/// `value` without the white space at either end.
pub fn trim_chars(value: &[char]) -> (res: &[char])
    ensures
        res@ == trim(value@),
{
    trim_end_chars(trim_start_chars(value))
}

} // verus!
