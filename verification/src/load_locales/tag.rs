//! Tags: what `<name>` and `</name>` mean in the text of a locale entry.
//!
//! A tag runs from a `<` to the next `>`. Its text is what stands between the two, without
//! the white space at either end. A tag whose text starts with `/` closes; any other opens.
//!
//! The tag that closes a component is looked for in the text after the tag that opens it.
//! There every `<` with a `>` after it starts a tag. Tags of the same name in that text
//! pair up, each closing tag with the nearest open one before it; the first closing tag
//! that finds none open closes the component. Tags of other names count for nothing.

use super::text::chars_eq;
use super::text::lemma_absent;
use super::text::lemma_split_joined;
use super::text::lemma_split_once;
use super::text::lemma_trim_len;
use super::text::occurs_at;
use super::text::split_once;
use super::text::split_once_char;
use super::text::trim;
use super::text::trim_chars;
use super::text::trim_start;
use super::text::trim_start_chars;
use vstd::prelude::*;
use vstd::slice::slice_subrange;

verus! {

/// The first tag of a text, taken as one that opens.
pub struct OpenTag {
    /// The text before the `<`.
    pub before: Seq<char>,
    /// The text of the tag.
    pub name: Seq<char>,
    /// The text after the `>`.
    pub after: Seq<char>,
    /// How many characters the tag and the text before it take.
    pub skip: nat,
}

/// The tag that starts at some index of a text.
pub struct Tag {
    /// The text of the tag.
    pub text: Seq<char>,
    /// The index after the `>` of the tag.
    pub end: int,
}

/// The text round the tag that closes a component.
pub struct CloseTag {
    /// The text before the `<` of the closing tag.
    pub between: Seq<char>,
    /// The text after the `>` of the closing tag.
    pub after: Seq<char>,
}

/// The first tag of `s`: it starts at the first `<` and ends at the first `>` after that.
pub open spec fn opening_tag(s: Seq<char>) -> Option<OpenTag> {
    match split_once(s, seq!['<']) {
        None => None,
        Some((before, rest)) => match split_once(rest, seq!['>']) {
            None => None,
            Some((ident, after)) => Some(
                OpenTag { before, name: trim(ident), after, skip: before.len() + ident.len() + 2 },
            ),
        },
    }
}

/// The tag that starts at index `i` of `s`, if `s` has a `<` there and a `>` after it.
pub open spec fn tag_at(s: Seq<char>, i: int) -> Option<Tag> {
    if 0 <= i < s.len() && s[i] == '<' {
        match split_once(s.subrange(i + 1, s.len() as int), seq!['>']) {
            Some((ident, _)) => Some(Tag { text: trim(ident), end: i + ident.len() + 2 }),
            None => None,
        }
    } else {
        None
    }
}

/// Whether a tag with this text closes the component `name`.
pub open spec fn closes(text: Seq<char>, name: Seq<char>) -> bool {
    text.len() > 0 && text[0] == '/' && trim_start(text.subrange(1, text.len() as int)) == name
}

/// Whether a tag with this text opens the component `name`.
pub open spec fn opens(text: Seq<char>, name: Seq<char>) -> bool {
    !(text.len() > 0 && text[0] == '/') && text == name
}

/// How many components `name` are open at index `i` of `s`, counting from the start of `s`:
/// each tag that opens `name` before `i` adds one, and each tag that closes `name` takes one
/// away where there is one to take.
pub open spec fn depth(s: Seq<char>, name: Seq<char>, i: int) -> nat
    decreases i,
{
    if i <= 0 {
        0
    } else {
        let before = depth(s, name, i - 1);
        match tag_at(s, i - 1) {
            Some(tag) => if opens(tag.text, name) {
                before + 1
            } else if closes(tag.text, name) && before > 0 {
                (before - 1) as nat
            } else {
                before
            },
            None => before,
        }
    }
}

/// Whether the tag at index `i` of `s` closes `name` while no `name` opened in `s` is open.
pub open spec fn closes_outermost(s: Seq<char>, name: Seq<char>, i: int) -> bool {
    match tag_at(s, i) {
        Some(tag) => closes(tag.text, name) && depth(s, name, i) == 0,
        None => false,
    }
}

/// The first index at or after `from` at which [`closes_outermost`] holds.
pub open spec fn first_closing(s: Seq<char>, name: Seq<char>, from: int) -> Option<int>
    decreases s.len() - from,
{
    if from < 0 || from >= s.len() {
        None
    } else if closes_outermost(s, name, from) {
        Some(from)
    } else {
        first_closing(s, name, from + 1)
    }
}

/// The tag that closes the component `name` whose opening tag stands just before `s`: the
/// first tag of `s` at which [`closes_outermost`] holds.
pub open spec fn closing_tag(s: Seq<char>, name: Seq<char>) -> Option<CloseTag> {
    match first_closing(s, name, 0) {
        Some(i) => Some(
            CloseTag {
                between: s.subrange(0, i),
                after: s.subrange(tag_at(s, i).unwrap().end, s.len() as int),
            },
        ),
        None => None,
    }
}

/// The parts of an [`OpenTag`] lie in the text, one after the other.
pub proof fn lemma_opening_tag(s: Seq<char>)
    ensures
        match opening_tag(s) {
            Some(tag) => {
                &&& tag.before.len() < tag.skip <= s.len()
                &&& tag.before == s.subrange(0, tag.before.len() as int)
                &&& s[tag.before.len() as int] == '<'
                &&& s[tag.skip - 1] == '>'
                &&& tag.after == s.subrange(tag.skip as int, s.len() as int)
                &&& tag.name == trim(s.subrange(tag.before.len() as int + 1, tag.skip - 1))
                &&& tag.name.len() + 2 <= tag.skip - tag.before.len()
                &&& forall|j: int| 0 <= j < tag.before.len() ==> s[j] != '<'
            },
            None => true,
        },
{
    let lt = seq!['<'];
    let gt = seq!['>'];
    lemma_split_once(s, lt);
    if let Some((before, rest)) = split_once(s, lt) {
        lemma_split_once(rest, gt);
        if let Some((ident, after)) = split_once(rest, gt) {
            lemma_trim_len(ident);
            let open: int = before.len() as int;
            let close: int = open + ident.len() + 1;
            assert(before =~= s.subrange(0, open));
            assert(after =~= s.subrange(close + 1, s.len() as int));
            assert(ident =~= s.subrange(open + 1, close));
            assert(s[open] == lt[0]);
            assert(s[close] == gt[0]);
            assert forall|j: int| 0 <= j < open implies s[j] != '<' by {
                if s[j] == '<' {
                    assert(s.subrange(j, j + 1) =~= lt);
                    assert(occurs_at(s, lt, j));
                }
            }
        }
    }
}

/// A tag ends after it starts, and within the text.
pub proof fn lemma_tag_at(s: Seq<char>, i: int)
    ensures
        match tag_at(s, i) {
            Some(tag) => {
                &&& 0 <= i
                &&& i + 2 <= tag.end <= s.len()
                &&& s[i] == '<'
                &&& s[tag.end - 1] == '>'
                &&& tag.text == trim(s.subrange(i + 1, tag.end - 1))
            },
            None => true,
        },
{
    if 0 <= i < s.len() && s[i] == '<' {
        let rest = s.subrange(i + 1, s.len() as int);
        let gt = seq!['>'];
        lemma_split_once(rest, gt);
        if let Some((ident, after)) = split_once(rest, gt) {
            assert(ident =~= s.subrange(i + 1, i + ident.len() + 1));
            assert(rest[ident.len() as int] == gt[0]);
            assert(rest[ident.len() as int] == s[i + ident.len() + 1]);
        }
    }
}

/// What [`first_closing`] returns is the least index from `from` on at which
/// [`closes_outermost`] holds, and `None` only where it holds at none.
pub proof fn lemma_first_closing(s: Seq<char>, name: Seq<char>, from: int)
    requires
        0 <= from,
    ensures
        match first_closing(s, name, from) {
            Some(i) => from <= i < s.len() && closes_outermost(s, name, i) && forall|j: int|
                from <= j < i ==> !closes_outermost(s, name, j),
            None => forall|j: int| from <= j ==> !closes_outermost(s, name, j),
        },
    decreases s.len() - from,
{
    if from < s.len() && !closes_outermost(s, name, from) {
        lemma_first_closing(s, name, from + 1);
    }
}

/// The tag that closes a component is the first closing tag of its name that finds none of
/// that name open, so that the tags of the name in the text before it pair up. The text
/// before its `<` and the text after its `>` are the two parts of the [`CloseTag`]. There
/// is none only where no closing tag of the name finds none open.
pub proof fn lemma_closing_tag(s: Seq<char>, name: Seq<char>)
    ensures
        match closing_tag(s, name) {
            Some(tag) => {
                let at = tag.between.len() as int;
                &&& closes_outermost(s, name, at)
                &&& forall|j: int| 0 <= j < at ==> !closes_outermost(s, name, j)
                &&& tag.between == s.subrange(0, at)
                &&& tag.after == s.subrange(tag_at(s, at).unwrap().end, s.len() as int)
                &&& tag.between.len() + 2 + tag.after.len() <= s.len()
            },
            None => forall|j: int| 0 <= j ==> !closes_outermost(s, name, j),
        },
{
    lemma_first_closing(s, name, 0);
    if let Some(i) = first_closing(s, name, 0) {
        lemma_tag_at(s, i);
    }
}

/// The text in which a tag with the text `raw` stands after `before` and before `after`.
pub open spec fn tag_text(before: Seq<char>, raw: Seq<char>, after: Seq<char>) -> Seq<char> {
    before + seq!['<'] + raw + seq!['>'] + after
}

/// A tag after a text without `<` is the first tag of the whole: its name is what stands
/// between `<` and `>` without the white space round it.
pub proof fn lemma_first_tag(before: Seq<char>, raw: Seq<char>, after: Seq<char>)
    requires
        !before.contains('<'),
        !raw.contains('>'),
    ensures
        opening_tag(tag_text(before, raw, after)) == Some(
            OpenTag { before, name: trim(raw), after, skip: before.len() + raw.len() + 2 },
        ),
{
    let lt = seq!['<'];
    let gt = seq!['>'];
    let rest = raw + gt + after;
    assert(tag_text(before, raw, after) =~= before + lt + rest);
    assert forall|j: int| 0 <= j < before.len() implies !occurs_at(before + lt + rest, lt, j) by {
        assert(before + lt + rest =~= before + (lt + rest));
        lemma_absent(before, '<', lt + rest, j);
    }
    assert forall|j: int| 0 <= j < raw.len() implies !occurs_at(raw + gt + after, gt, j) by {
        assert(raw + gt + after =~= raw + (gt + after));
        lemma_absent(raw, '>', gt + after, j);
    }
    lemma_split_joined(before, lt, rest);
    lemma_split_joined(raw, gt, after);
}

/// Where no `<` stands from `from` up to `upto`, as many components are open at `upto` as
/// at `from`, and no closing tag is found in between.
pub proof fn lemma_no_tag_between(s: Seq<char>, name: Seq<char>, from: int, upto: int)
    requires
        0 <= from <= upto <= s.len(),
        forall|j: int| from <= j < upto ==> s[j] != '<',
    ensures
        depth(s, name, upto) == depth(s, name, from),
        first_closing(s, name, from) == first_closing(s, name, upto),
    decreases upto - from,
{
    if from < upto {
        lemma_no_tag_between(s, name, from, upto - 1);
        lemma_no_tag_between(s, name, from + 1, upto);
    }
}

/// A closing tag after a text without `<` is the one that closes the component: the text
/// before it is what the component is wrapped round, and the text after it follows the
/// component, whatever it holds.
pub proof fn lemma_first_tag_closes(
    inner: Seq<char>,
    raw: Seq<char>,
    after: Seq<char>,
    name: Seq<char>,
)
    requires
        !inner.contains('<'),
        !raw.contains('>'),
        closes(trim(raw), name),
    ensures
        closing_tag(tag_text(inner, raw, after), name) == Some(
            CloseTag { between: inner, after },
        ),
{
    let s = tag_text(inner, raw, after);
    let gt = seq!['>'];
    let at = inner.len() as int;
    let rest = s.subrange(at + 1, s.len() as int);
    assert(rest =~= raw + gt + after);
    assert forall|j: int| 0 <= j < raw.len() implies !occurs_at(raw + gt + after, gt, j) by {
        assert(raw + gt + after =~= raw + (gt + after));
        lemma_absent(raw, '>', gt + after, j);
    }
    lemma_split_joined(raw, gt, after);
    assert(tag_at(s, at) == Some(Tag { text: trim(raw), end: at + raw.len() + 2 }));
    assert forall|j: int| 0 <= j < at implies s[j] != '<' by {
        assert(s[j] == inner[j]);
    }
    lemma_no_tag_between(s, name, 0, at);
    assert(closes_outermost(s, name, at));
    assert(first_closing(s, name, at) == Some(at));
    assert(s.subrange(0, at) =~= inner);
    assert(s.subrange(at + raw.len() + 2, s.len() as int) =~= after);
}

/// Where the tag that closes `key` starts and where the text after it starts.
pub fn scan_closing_tag(value: &[char], key: &[char]) -> (res: Option<(usize, usize)>)
    ensures
        match res {
            Some((start, end)) => {
                &&& start < end <= value.len()
                &&& first_closing(value@, key@, 0) == Some(start as int)
                &&& tag_at(value@, start as int).unwrap().end == end
            },
            None => first_closing(value@, key@, 0) is None,
        },
{
    let mut open: usize = 0;
    let mut i: usize = 0;
    while i < value.len()
        invariant
            i <= value.len(),
            open == depth(value@, key@, i as int),
            open <= i,
            first_closing(value@, key@, 0) == first_closing(value@, key@, i as int),
        decreases value.len() - i,
    {
        proof {
            lemma_tag_at(value@, i as int);
        }
        if value[i] == '<' {
            let rest = slice_subrange(value, i + 1, value.len());
            if let Some((ident, _)) = split_once_char(rest, '>') {
                let text = trim_chars(ident);
                if text.len() > 0 && text[0] == '/' {
                    let name = trim_start_chars(slice_subrange(text, 1, text.len()));
                    if chars_eq(name, key) {
                        if open == 0 {
                            return Some((i, i + ident.len() + 2));
                        }
                        open -= 1;
                    }
                } else if chars_eq(text, key) {
                    open += 1;
                }
            }
        }
        i += 1;
    }
    None
}

} // verus!
