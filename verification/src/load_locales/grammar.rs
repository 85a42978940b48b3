//! What the text of a locale entry means.
//!
//! In a text, `{{ name }}` stands for a variable and `<name>…</name>` for a component
//! wrapped round what is between the tags. [`parse`] says which value a text stands for;
//! the functions before it say where the first variable and the first component of a text
//! are.

use super::key::is_identifier;
use super::key::is_plain_name;
use super::parsed_value::ValueView;
use super::tag::closes;
use super::tag::closing_tag;
use super::tag::lemma_closing_tag;
use super::tag::lemma_first_tag;
use super::tag::lemma_first_tag_closes;
use super::tag::lemma_opening_tag;
use super::tag::opening_tag;
use super::tag::tag_text;
use super::text::find;
use super::text::is_name_char;
use super::text::is_whitespace;
use super::text::lemma_find;
use super::text::lemma_occurs_in_suffix;
use super::text::lemma_split_joined;
use super::text::lemma_split_once;
use super::text::lemma_trim_padded;
use super::text::occurs_at;
use super::text::split_once;
use super::text::trim;
use vstd::prelude::*;

verus! {

/// What stands before the name of a variable in the name of its key.
pub open spec fn variable_prefix() -> Seq<char> {
    seq!['v', 'a', 'r', '_']
}

/// What stands before the name of a component in the name of its key.
pub open spec fn component_prefix() -> Seq<char> {
    seq!['c', 'o', 'm', 'p', '_']
}

/// The name of the key of the variable that the text calls `name`.
pub open spec fn variable_key(name: Seq<char>) -> Seq<char> {
    variable_prefix() + name
}

/// The name of the key of the component that the text calls `name`.
pub open spec fn component_key(name: Seq<char>) -> Seq<char> {
    component_prefix() + name
}

/// The text in which `ident` stands between `{{` and `}}`, after `before` and before
/// `after`.
pub open spec fn variable_text(before: Seq<char>, ident: Seq<char>, after: Seq<char>) -> Seq<
    char,
> {
    before + seq!['{', '{'] + ident + seq!['}', '}'] + after
}

/// A variable in a text, and the text on either side of it.
pub struct VariableParts {
    pub key: Seq<char>,
    pub before: Seq<char>,
    pub after: Seq<char>,
}

/// A component in a text, the text that it is wrapped round, and the text on either side.
pub struct ComponentParts {
    pub key: Seq<char>,
    pub before: Seq<char>,
    pub inner: Seq<char>,
    pub after: Seq<char>,
}

/// The variable of `s`: what stands between the first `{{` and the first `}}` after it,
/// where that names a key. Where it names none, `s` has no variable, whatever follows.
pub open spec fn variable_parts(s: Seq<char>) -> Option<VariableParts> {
    match split_once(s, seq!['{', '{']) {
        None => None,
        Some((before, rest)) => match split_once(rest, seq!['}', '}']) {
            None => None,
            Some((ident, after)) => {
                let key = variable_key(trim(ident));
                if is_identifier(key) {
                    Some(VariableParts { key, before, after })
                } else {
                    None
                }
            },
        },
    }
}

/// A component that was found in the text after `skipped`, as a component of the whole.
pub open spec fn after_text(skipped: Seq<char>, found: Option<ComponentParts>) -> Option<
    ComponentParts,
> {
    match found {
        Some(later) => Some(
            ComponentParts {
                key: later.key,
                before: skipped + later.before,
                inner: later.inner,
                after: later.after,
            },
        ),
        None => None,
    }
}

/// The first component of `s`. The first tag of `s` is tried as the tag that opens it: its
/// name has to give a key, and the text after it has to hold the tag that closes it. Where
/// the tag fails, it is text, with every `<` that stands inside it, and the search goes on
/// in the text after it.
pub open spec fn component_parts(s: Seq<char>) -> Option<ComponentParts>
    decreases s.len(),
{
    match opening_tag(s) {
        None => None,
        Some(open) => {
            let key = component_key(open.name);
            let close = closing_tag(open.after, open.name);
            if is_identifier(key) && close is Some {
                Some(
                    ComponentParts {
                        key,
                        before: open.before,
                        inner: close.unwrap().between,
                        after: close.unwrap().after,
                    },
                )
            } else {
                proof {
                    lemma_opening_tag(s);
                }
                after_text(
                    s.subrange(0, open.skip as int),
                    component_parts(s.subrange(open.skip as int, s.len() as int)),
                )
            }
        },
    }
}

/// The value that the text `s` stands for. A component is looked for first, then a
/// variable; a text with neither is shown as it is. The text on either side of what was
/// found, and the text inside a component, are read in the same way.
pub open spec fn parse(s: Seq<char>) -> ValueView
    decreases s.len(),
{
    match component_parts(s) {
        Some(component) => {
            proof {
                lemma_component_parts(s);
            }
            ValueView::Bloc(
                seq![
                    parse(component.before),
                    ValueView::Component {
                        key: component.key,
                        inner: Box::new(parse(component.inner)),
                    },
                    parse(component.after),
                ],
            )
        },
        None => match variable_parts(s) {
            Some(variable) => {
                proof {
                    lemma_variable_parts(s);
                }
                ValueView::Bloc(
                    seq![
                        parse(variable.before),
                        ValueView::Variable(variable.key),
                        parse(variable.after),
                    ],
                )
            },
            None => ValueView::Literal(s),
        },
    }
}

impl ValueView {
    /// Whether the value has the shape of what a text stands for. It holds no plural. Each
    /// key is an identifier that starts as the key of its kind does. Values shown one after
    /// the other are three: a variable or a component, between what the text before it and
    /// the text after it stand for.
    pub open spec fn is_parsed(self) -> bool
        decreases self,
    {
        match self {
            ValueView::Literal(_) => true,
            ValueView::Variable(key) => is_identifier(key) && variable_prefix().is_prefix_of(key),
            ValueView::Component { key, inner } => is_identifier(key)
                && component_prefix().is_prefix_of(key) && inner.is_parsed(),
            ValueView::Bloc(values) => values.len() == 3 && (values[1] is Variable
                || values[1] is Component) && forall|i: int|
                0 <= i < values.len() ==> (#[trigger] values[i]).is_parsed(),
            ValueView::Plural(_) => false,
        }
    }
}

/// A variable and the text on either side of it take less room than the text they are
/// found in.
pub proof fn lemma_variable_parts(s: Seq<char>)
    ensures
        match variable_parts(s) {
            Some(variable) => variable.before.len() + 4 + variable.after.len() <= s.len(),
            None => true,
        },
{
    let open = seq!['{', '{'];
    let close = seq!['}', '}'];
    lemma_split_once(s, open);
    if let Some((before, rest)) = split_once(s, open) {
        lemma_split_once(rest, close);
    }
}

/// A component, the text inside it and the text on either side take less room than the
/// text they are found in.
pub proof fn lemma_component_parts(s: Seq<char>)
    ensures
        match component_parts(s) {
            Some(component) => component.before.len() + component.inner.len() + 4
                + component.after.len() <= s.len(),
            None => true,
        },
    decreases s.len(),
{
    lemma_opening_tag(s);
    if let Some(open) = opening_tag(s) {
        let close = closing_tag(open.after, open.name);
        if is_identifier(component_key(open.name)) && close is Some {
            lemma_closing_tag(open.after, open.name);
        } else {
            lemma_component_parts(s.subrange(open.skip as int, s.len() as int));
        }
    }
}

/// The key of a component that was found is an identifier that starts as the key of a
/// component does.
pub proof fn lemma_component_key(s: Seq<char>)
    ensures
        match component_parts(s) {
            Some(component) => is_identifier(component.key) && component_prefix().is_prefix_of(
                component.key,
            ),
            None => true,
        },
    decreases s.len(),
{
    lemma_opening_tag(s);
    if let Some(open) = opening_tag(s) {
        let close = closing_tag(open.after, open.name);
        if !(is_identifier(component_key(open.name)) && close is Some) {
            lemma_component_key(s.subrange(open.skip as int, s.len() as int));
        } else {
            assert(component_prefix().is_prefix_of(component_key(open.name)));
        }
    }
}

/// A component found after no text is the component as it was found.
pub proof fn lemma_after_empty(found: Option<ComponentParts>)
    ensures
        after_text(Seq::empty(), found) == found,
{
    if let Some(later) = found {
        assert(Seq::<char>::empty() + later.before =~= later.before);
    }
}

/// To skip one text and then another is to skip the two of them.
pub proof fn lemma_after_after(
    first: Seq<char>,
    second: Seq<char>,
    found: Option<ComponentParts>,
)
    ensures
        after_text(first, after_text(second, found)) == after_text(first + second, found),
{
    if let Some(later) = found {
        assert(first + (second + later.before) =~= (first + second) + later.before);
    }
}

/// A name between `{{` and `}}` is a variable where it gives a key: the white space round
/// the name is not part of it, and the text on either side is read as it is. This holds of
/// a text without a component, whose first `{{` and the first `}}` after that are the two
/// round the name.
pub proof fn lemma_variable_text(before: Seq<char>, ident: Seq<char>, after: Seq<char>)
    requires
        component_parts(variable_text(before, ident, after)) is None,
        forall|j: int|
            0 <= j < before.len() ==> !occurs_at(
                variable_text(before, ident, after),
                seq!['{', '{'],
                j,
            ),
        forall|j: int|
            0 <= j < ident.len() ==> !occurs_at(ident + seq!['}', '}'] + after, seq!['}', '}'], j),
        is_identifier(variable_key(trim(ident))),
    ensures
        parse(variable_text(before, ident, after)) == ValueView::Bloc(
            seq![
                parse(before),
                ValueView::Variable(variable_key(trim(ident))),
                parse(after),
            ],
        ),
{
    let open = seq!['{', '{'];
    let close = seq!['}', '}'];
    let rest = ident + close + after;
    assert(variable_text(before, ident, after) =~= before + open + rest);
    lemma_split_joined(before, open, rest);
    lemma_split_joined(ident, close, after);
}

/// A pair of tags round a text is a component where the name of the first gives a key and
/// the second closes that name: the white space in the tags is not part of the name, and
/// the text before, between and after the tags is read as it is. This holds where no `<`
/// stands before the first tag or between the two.
pub proof fn lemma_component_text(
    before: Seq<char>,
    open: Seq<char>,
    inner: Seq<char>,
    close: Seq<char>,
    after: Seq<char>,
)
    requires
        !before.contains('<'),
        !open.contains('>'),
        !inner.contains('<'),
        !close.contains('>'),
        closes(trim(close), trim(open)),
        is_identifier(component_key(trim(open))),
    ensures
        parse(tag_text(before, open, tag_text(inner, close, after))) == ValueView::Bloc(
            seq![
                parse(before),
                ValueView::Component {
                    key: component_key(trim(open)),
                    inner: Box::new(parse(inner)),
                },
                parse(after),
            ],
        ),
{
    lemma_first_tag(before, open, tag_text(inner, close, after));
    lemma_first_tag_closes(inner, close, after, trim(open));
}

/// A pair of tags of one name round a text is a component of that name, where the name is
/// made of letters and digits of ASCII and of `_`: white space in the tags is no part of
/// the key, and the text before, between and after the tags is kept as it is. This holds
/// where those three texts have no `<`, `{` or `}`.
pub proof fn lemma_component_name(
    before: Seq<char>,
    open: Seq<char>,
    name: Seq<char>,
    inner: Seq<char>,
    close: Seq<char>,
    after: Seq<char>,
)
    requires
        forall|i: int| 0 <= i < name.len() ==> is_name_char(#[trigger] name[i]),
        trim(open) == name,
        trim(close) == seq!['/'] + name,
        !open.contains('>'),
        !close.contains('>'),
        !before.contains('<') && !before.contains('{') && !before.contains('}'),
        !inner.contains('<') && !inner.contains('{') && !inner.contains('}'),
        !after.contains('<') && !after.contains('{') && !after.contains('}'),
    ensures
        parse(tag_text(before, open, tag_text(inner, close, after))) == ValueView::Bloc(
            seq![
                ValueView::Literal(before),
                ValueView::Component {
                    key: component_key(name),
                    inner: Box::new(ValueView::Literal(inner)),
                },
                ValueView::Literal(after),
            ],
        ),
{
    let key = component_key(name);
    let text = seq!['/'] + name;
    assert(is_plain_name(key)) by {
        assert(key[4] == '_');
        assert forall|i: int| 0 <= i < key.len() implies is_name_char(#[trigger] key[i]) by {
            if i >= 5 {
                assert(key[i] == name[i - 5]);
            }
        }
    }
    assert(closes(text, name)) by {
        assert(text.subrange(1, text.len() as int) =~= name);
        if name.len() > 0 {
            assert(is_name_char(name.first()));
        }
    }
    lemma_component_text(before, open, inner, close, after);
    lemma_plain_characters(before);
    lemma_plain_characters(inner);
    lemma_plain_characters(after);
}

/// A name of letters and digits of ASCII and of `_`, between `{{` and `}}` with any white
/// space round it, is a variable of that name: the white space is no part of the key, and
/// the text on either side is kept as it is, with its own white space. This holds where the
/// text on either side has no `<`, `{` or `}`.
pub proof fn lemma_variable_name(
    before: Seq<char>,
    left: Seq<char>,
    name: Seq<char>,
    right: Seq<char>,
    after: Seq<char>,
)
    requires
        name.len() > 0,
        forall|i: int| 0 <= i < name.len() ==> is_name_char(#[trigger] name[i]),
        forall|i: int| 0 <= i < left.len() ==> is_whitespace(#[trigger] left[i]),
        forall|i: int| 0 <= i < right.len() ==> is_whitespace(#[trigger] right[i]),
        !before.contains('<') && !before.contains('{') && !before.contains('}'),
        !after.contains('<') && !after.contains('{') && !after.contains('}'),
    ensures
        parse(variable_text(before, left + name + right, after)) == ValueView::Bloc(
            seq![
                ValueView::Literal(before),
                ValueView::Variable(variable_key(name)),
                ValueView::Literal(after),
            ],
        ),
{
    let open = seq!['{', '{'];
    let close = seq!['}', '}'];
    let ident = left + name + right;
    let s = variable_text(before, ident, after);
    let key = variable_key(name);
    assert(is_name_char(name.first()) && is_name_char(name.last()));
    lemma_trim_padded(left, name, right);
    assert(is_plain_name(key)) by {
        assert(key[3] == '_');
        assert forall|i: int| 0 <= i < key.len() implies is_name_char(#[trigger] key[i]) by {
            if i >= 4 {
                assert(key[i] == name[i - 4]);
            }
        }
    }
    assert forall|i: int| 0 <= i < ident.len() implies (#[trigger] ident[i]) != '<' && ident[i]
        != '}' by {
        if i < left.len() {
            assert(ident[i] == left[i]);
        } else if i < left.len() + name.len() {
            assert(ident[i] == name[i - left.len()]);
        } else {
            assert(ident[i] == right[i - left.len() - name.len()]);
        }
    }
    assert(!s.contains('<')) by {
        if s.contains('<') {
            let i = choose|i: int| 0 <= i < s.len() && s[i] == '<';
            let at = i - before.len() - 2;
            if i < before.len() {
                assert(s[i] == before[i]);
            } else if 0 <= at < ident.len() {
                assert(s[i] == ident[at]);
            } else if at >= ident.len() + 2 {
                assert(s[i] == after[at - ident.len() - 2]);
            }
        }
    }
    lemma_no_tag(s);
    assert forall|j: int| 0 <= j < before.len() implies !occurs_at(s, open, j) by {
        if occurs_at(s, open, j) {
            assert(s.subrange(j, j + 2)[0] == '{');
            assert(s[j] == before[j]);
        }
    }
    assert forall|j: int| 0 <= j < ident.len() implies !occurs_at(ident + close + after, close, j) by {
        if occurs_at(ident + close + after, close, j) {
            assert((ident + close + after).subrange(j, j + 2)[0] == '}');
            assert((ident + close + after)[j] == ident[j]);
        }
    }
    lemma_variable_text(before, ident, after);
    lemma_plain_characters(before);
    lemma_plain_characters(after);
}

/// A text without `<` or without `>` holds no component.
pub proof fn lemma_no_tag(s: Seq<char>)
    requires
        !s.contains('<') || !s.contains('>'),
    ensures
        component_parts(s) is None,
{
    let lt = seq!['<'];
    let gt = seq!['>'];
    lemma_split_once(s, lt);
    if let Some((before, rest)) = split_once(s, lt) {
        assert(s[before.len() as int] == lt[0]);
        lemma_split_once(rest, gt);
        if let Some((ident, after)) = split_once(rest, gt) {
            let at: int = ident.len() as int;
            assert(rest[at] == gt[0]);
            assert(rest[at] == s[before.len() + 1 + at]);
        }
    }
}

/// A text without `{{` or without `}}` holds no variable.
pub proof fn lemma_no_braces(s: Seq<char>)
    requires
        find(s, seq!['{', '{'], 0) is None || find(s, seq!['}', '}'], 0) is None,
    ensures
        variable_parts(s) is None,
{
    let open = seq!['{', '{'];
    let close = seq!['}', '}'];
    lemma_find(s, close, 0);
    lemma_split_once(s, open);
    if let Some((before, rest)) = split_once(s, open) {
        lemma_split_once(rest, close);
        if let Some((ident, after)) = split_once(rest, close) {
            let from: int = before.len() as int + 2;
            let at: int = ident.len() as int;
            assert(rest =~= s.subrange(from, s.len() as int));
            assert(occurs_at(rest, close, at)) by {
                assert(rest.subrange(at, at + 2) =~= close);
            }
            lemma_occurs_in_suffix(s, close, from, at);
        }
    }
}

/// A text that holds no component, and no `{{` or no `}}`, stands for itself; so does the
/// empty text.
pub proof fn lemma_plain_text(s: Seq<char>)
    requires
        component_parts(s) is None,
        find(s, seq!['{', '{'], 0) is None || find(s, seq!['}', '}'], 0) is None,
    ensures
        parse(s) == ValueView::Literal(s),
{
    lemma_no_braces(s);
}

/// A text stands for itself where it has no `<` or no `>`, and no `{` or no `}`.
pub proof fn lemma_plain_characters(s: Seq<char>)
    requires
        !s.contains('<') || !s.contains('>'),
        !s.contains('{') || !s.contains('}'),
    ensures
        parse(s) == ValueView::Literal(s),
{
    let open = seq!['{', '{'];
    let close = seq!['}', '}'];
    lemma_no_tag(s);
    lemma_find(s, open, 0);
    lemma_find(s, close, 0);
    if let Some(i) = find(s, open, 0) {
        assert(s.subrange(i, i + 2)[0] == '{');
        assert(s[i] == '{');
    }
    if let Some(i) = find(s, close, 0) {
        assert(s.subrange(i, i + 2)[0] == '}');
        assert(s[i] == '}');
    }
    lemma_plain_text(s);
}

/// The empty text stands for itself.
pub proof fn lemma_parse_empty()
    ensures
        parse(Seq::empty()) == ValueView::Literal(Seq::empty()),
{
    lemma_plain_characters(Seq::empty());
}

/// What a text stands for has the shape that [`ValueView::is_parsed`] tells.
pub proof fn lemma_parse_shape(s: Seq<char>)
    ensures
        parse(s).is_parsed(),
    decreases s.len(),
{
    lemma_component_parts(s);
    lemma_variable_parts(s);
    match component_parts(s) {
        Some(component) => {
            lemma_component_key(s);
            lemma_parse_shape(component.before);
            lemma_parse_shape(component.inner);
            lemma_parse_shape(component.after);
            let values = parse(s)->Bloc_0;
            assert(values[0] == parse(component.before));
            assert(values[1].is_parsed());
            assert(values[2] == parse(component.after));
        },
        None => match variable_parts(s) {
            Some(variable) => {
                lemma_parse_shape(variable.before);
                lemma_parse_shape(variable.after);
                let name = variable.key.subrange(4, variable.key.len() as int);
                assert(variable.key =~= variable_prefix() + name);
                assert(variable_prefix().is_prefix_of(variable.key));
                let values = parse(s)->Bloc_0;
                assert(values[0] == parse(variable.before));
                assert(values[1].is_parsed());
                assert(values[2] == parse(variable.after));
            },
            None => {},
        },
    }
}

} // verus!
