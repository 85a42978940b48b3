//! The value of one locale entry, and how it is read from the text of a locale file.

use super::grammar::after_text;
use super::grammar::component_key;
use super::grammar::component_parts;
use super::grammar::ComponentParts;
use super::grammar::lemma_after_after;
use super::grammar::lemma_after_empty;
use super::grammar::lemma_component_parts;
use super::grammar::lemma_parse_shape;
use super::grammar::lemma_variable_parts;
use super::grammar::parse;
use super::grammar::variable_parts;
use super::interpolate::held_keys;
use super::interpolate::insert_key;
use super::interpolate::InterpolateKey;
use super::interpolate::keys_among;
use super::interpolate::KeySet;
use super::interpolate::KeyView;
use super::interpolate::lemma_keys_among;
use super::interpolate::lemma_union_empty;
use super::key::is_identifier;
use super::key::Key;
use super::plural::Plurals;
use super::plural::PluralsView;
use super::tag::CloseTag;
use super::tag::closing_tag;
use super::tag::lemma_opening_tag;
use super::tag::opening_tag;
use super::tag::OpenTag;
use super::tag::scan_closing_tag;
use super::text::lemma_split_once;
use super::text::split_once_char;
use super::text::split_once_pair;
use super::text::to_chars;
use super::text::to_string;
use super::text::trim_chars;
use vstd::prelude::*;
use vstd::slice::slice_subrange;

verus! {

/// The value of a locale entry.
#[derive(Debug, PartialEq)]
pub enum ParsedValue {
    /// Several texts, one of which is chosen by a count.
    Plural(Plurals),
    /// Text that is shown as it is.
    String(String),
    /// A value that the caller supplies.
    Variable(Key),
    /// A component that the caller supplies, wrapped round `inner`.
    Component { key: Key, inner: Box<Self> },
    /// Values shown one after the other.
    Bloc(Vec<Self>),
}

/// A [`ParsedValue`] as a mathematical value.
pub enum ValueView {
    Plural(PluralsView),
    Literal(Seq<char>),
    Variable(Seq<char>),
    Component { key: Seq<char>, inner: Box<ValueView> },
    Bloc(Seq<ValueView>),
}

impl ValueView {
    /// What is shown for the value, piece by piece: the value itself, but nothing for an
    /// empty text, and for values shown one after the other the pieces of each in turn.
    pub open spec fn pieces(self) -> Seq<ValueView>
        decreases self, 0int,
    {
        match self {
            ValueView::Literal(text) => if text.len() == 0 {
                Seq::empty()
            } else {
                seq![self]
            },
            ValueView::Bloc(values) => pieces_of(values, values.len() as int),
            _ => seq![self],
        }
    }
}

/// The pieces of the first `n` of `values`.
pub open spec fn pieces_of(values: Seq<ValueView>, n: int) -> Seq<ValueView>
    decreases values, n,
{
    if n <= 0 || n > values.len() {
        Seq::empty()
    } else {
        pieces_of(values, n - 1) + values[n - 1].pieces()
    }
}

/// The values that `pieces` refers to.
pub open spec fn piece_views(pieces: Seq<&ParsedValue>) -> Seq<ValueView> {
    Seq::new(pieces.len(), |i: int| pieces[i].view())
}

impl ParsedValue {
    /// The value without its representation: texts as sequences of characters, keys as
    /// their names.
    pub open spec fn view(&self) -> ValueView
        decreases self,
    {
        match self {
            ParsedValue::Plural(plurals) => ValueView::Plural(plurals.view()),
            ParsedValue::String(text) => ValueView::Literal(text@),
            ParsedValue::Variable(key) => ValueView::Variable(key@),
            ParsedValue::Component { key, inner } => ValueView::Component {
                key: key@,
                inner: Box::new(inner.view()),
            },
            ParsedValue::Bloc(values) => ValueView::Bloc(
                Seq::new(
                    values.len() as nat,
                    |i: int|
                        if 0 <= i < values.len() {
                            values[i].view()
                        } else {
                            arbitrary()
                        },
                ),
            ),
        }
    }
}

impl Clone for ParsedValue {
    fn clone(&self) -> (res: Self)
        ensures
            res@ == self@,
        decreases self,
    {
        match self {
            ParsedValue::Plural(plurals) => ParsedValue::Plural(plurals.clone()),
            ParsedValue::String(text) => ParsedValue::String(text.clone()),
            ParsedValue::Variable(key) => ParsedValue::Variable(key.clone()),
            ParsedValue::Component { key, inner } => ParsedValue::Component {
                key: key.clone(),
                inner: Box::new((**inner).clone()),
            },
            ParsedValue::Bloc(values) => {
                let mut copies: Vec<ParsedValue> = Vec::new();
                let mut i: usize = 0;
                while i < values.len()
                    invariant
                        i <= values.len(),
                        *self == ParsedValue::Bloc(*values),
                        copies.len() == i,
                        forall|j: int| 0 <= j < i ==> (#[trigger] copies[j]).view() == values[j].view(),
                    decreases values.len() - i,
                {
                    assert(decreases_to!(*self => self->Bloc_0[i as int]));
                    copies.push(values[i].clone());
                    i += 1;
                }
                let res = ParsedValue::Bloc(copies);
                assert(res@->Bloc_0 =~= self@->Bloc_0);
                res
            },
        }
    }
}

impl ParsedValue {
    /// Reads a locale string.
    pub fn new(value: &str) -> (res: Self)
        ensures
            res@ == parse(value@),
            res@.is_parsed(),
    {
        proof {
            lemma_parse_shape(value@);
        }
        let chars = to_chars(value);
        Self::from_chars(chars.as_slice())
    }

    /// Reads a locale string that is given by its characters.
    pub fn from_chars(value: &[char]) -> (res: Self)
        ensures
            res@ == parse(value@),
        decreases value@.len(), 1int,
    {
        // look for a component
        if let Some(component) = Self::find_component(value) {
            return component;
        }
        // else look for a variable
        if let Some(variable) = Self::find_variable(value) {
            return variable;
        }
        // else it is just text
        ParsedValue::String(to_string(value))
    }

    /// The value of a text that holds a variable: what the text before it stands for, the
    /// variable, and what the text after it stands for.
    pub fn find_variable(value: &[char]) -> (res: Option<Self>)
        ensures
            match res {
                Some(found) => variable_parts(value@) matches Some(variable) && found@
                    == ValueView::Bloc(
                    seq![
                        parse(variable.before),
                        ValueView::Variable(variable.key),
                        parse(variable.after),
                    ],
                ),
                None => variable_parts(value@) is None,
            },
        decreases value@.len(), 0int,
    {
        let (before, rest) = match split_once_pair(value, '{') {
            Some(parts) => parts,
            None => { return None; },
        };
        let (ident, after) = match split_once_pair(rest, '}') {
            Some(parts) => parts,
            None => { return None; },
        };
        proof {
            reveal_strlit("var_");
            assert("var_"@ =~= seq!['v', 'a', 'r', '_']);
            lemma_variable_parts(value@);
        }
        let ident = match Key::with_prefix("var_", trim_chars(ident)) {
            Some(key) => key,
            None => { return None; },
        };
        let before = Self::from_chars(before);
        let after = Self::from_chars(after);
        let this = ParsedValue::Variable(ident);
        assert(this@ == ValueView::Variable(ident@));
        let bloc = ParsedValue::Bloc(vec![before, this, after]);
        proof {
            let variable = variable_parts(value@).unwrap();
            assert(bloc@->Bloc_0 =~= seq![
                parse(variable.before),
                ValueView::Variable(variable.key),
                parse(variable.after),
            ]);
        }
        Some(bloc)
    }

    /// The first component of `value`: its key, the text before it, the text inside it
    /// and the text after it.
    pub fn find_valid_component(value: &[char]) -> (res: Option<
        (Key, &[char], &[char], &[char]),
    >)
        ensures
            match res {
                Some((key, before, inner, after)) => component_parts(value@) == Some(
                    ComponentParts {
                        key: key@,
                        before: before@,
                        inner: inner@,
                        after: after@,
                    },
                ),
                None => component_parts(value@) is None,
            },
    {
        let mut skip_sum: usize = 0;
        proof {
            assert(value@.subrange(0, value@.len() as int) =~= value@);
            lemma_after_empty(component_parts(value@));
            assert(value@.subrange(0, 0) =~= Seq::<char>::empty());
        }
        loop
            invariant
                skip_sum <= value.len(),
                component_parts(value@) == after_text(
                    value@.subrange(0, skip_sum as int),
                    component_parts(value@.subrange(skip_sum as int, value@.len() as int)),
                ),
            decreases value.len() - skip_sum,
        {
            let rest = slice_subrange(value, skip_sum, value.len());
            proof {
                lemma_opening_tag(rest@);
            }
            let (before, key, after, skip) = match Self::find_opening_tag(rest) {
                Some(tag) => tag,
                None => { return None; },
            };
            match Self::find_closing_tag(after, key) {
                Some((key, between, after)) => {
                    let before_len = skip_sum + before.len();
                    let before = slice_subrange(value, 0, before_len);
                    proof {
                        assert(before@ =~= value@.subrange(0, skip_sum as int)
                            + opening_tag(rest@).unwrap().before);
                    }
                    return Some((key, before, between, after));
                },
                None => {
                    proof {
                        let next = rest@.subrange(skip as int, rest@.len() as int);
                        assert(next =~= value@.subrange(skip_sum + skip, value@.len() as int));
                        assert(value@.subrange(0, skip_sum + skip) =~= value@.subrange(
                            0,
                            skip_sum as int,
                        ) + rest@.subrange(0, skip as int));
                        lemma_after_after(
                            value@.subrange(0, skip_sum as int),
                            rest@.subrange(0, skip as int),
                            component_parts(next),
                        );
                    }
                    skip_sum += skip;
                },
            }
        }
    }

    /// The value of a text that holds a component: what the text before it stands for,
    /// the component round what the text inside it stands for, and what the text after it
    /// stands for.
    pub fn find_component(value: &[char]) -> (res: Option<Self>)
        ensures
            match res {
                Some(found) => component_parts(value@) is Some && found@ == parse(value@),
                None => component_parts(value@) is None,
            },
        decreases value@.len(), 0int,
    {
        let (key, before, between, after) = match Self::find_valid_component(value) {
            Some(parts) => parts,
            None => { return None; },
        };
        proof {
            lemma_component_parts(value@);
        }
        let before = Self::from_chars(before);
        let between = Self::from_chars(between);
        let after = Self::from_chars(after);
        let this = ParsedValue::Component { key, inner: Box::new(between) };
        assert(this@ == ValueView::Component { key: key@, inner: Box::new(between@) });
        let bloc = ParsedValue::Bloc(vec![before, this, after]);
        proof {
            let component = component_parts(value@).unwrap();
            assert(bloc@->Bloc_0 =~= seq![
                parse(component.before),
                ValueView::Component {
                    key: component.key,
                    inner: Box::new(parse(component.inner)),
                },
                parse(component.after),
            ]);
        }
        Some(bloc)
    }

    /// Looks in `value`, the text after the tag that opens `key`, for the first tag that
    /// closes it: the key of the component, the text before the closing tag and the text
    /// after it.
    pub fn find_closing_tag<'a>(value: &'a [char], key: &[char]) -> (res: Option<
        (Key, &'a [char], &'a [char]),
    >)
        ensures
            match res {
                Some((ident, between, after)) => {
                    &&& is_identifier(component_key(key@))
                    &&& ident@ == component_key(key@)
                    &&& closing_tag(value@, key@) == Some(
                        CloseTag { between: between@, after: after@ },
                    )
                },
                None => !is_identifier(component_key(key@)) || closing_tag(value@, key@) is None,
            },
    {
        proof {
            reveal_strlit("comp_");
            assert("comp_"@ =~= seq!['c', 'o', 'm', 'p', '_']);
        }
        let key_ident = match Key::with_prefix("comp_", key) {
            Some(ident) => ident,
            None => { return None; },
        };
        match scan_closing_tag(value, key) {
            Some((start, end)) => {
                let before = slice_subrange(value, 0, start);
                let after = slice_subrange(value, end, value.len());
                Some((key_ident, before, after))
            },
            None => None,
        }
    }

    /// Reads the first tag of `value` as one that opens: the text before it, its name, the
    /// text after it, and how many characters it and the text before it take.
    pub fn find_opening_tag(value: &[char]) -> (res: Option<(&[char], &[char], &[char], usize)>)
        ensures
            match res {
                Some((before, name, after, skip)) => opening_tag(value@) == Some(
                    OpenTag { before: before@, name: name@, after: after@, skip: skip as nat },
                ),
                None => opening_tag(value@) is None,
            },
    {
        proof {
            lemma_split_once(value@, seq!['<']);
        }
        let (before, rest) = match split_once_char(value, '<') {
            Some(parts) => parts,
            None => { return None; },
        };
        proof {
            lemma_split_once(rest@, seq!['>']);
        }
        let (ident, after) = match split_once_char(rest, '>') {
            Some(parts) => parts,
            None => { return None; },
        };
        proof {
            assert(value@.len() == (before@ + seq!['<'] + rest@).len());
            assert(rest@.len() == (ident@ + seq!['>'] + after@).len());
        }
        // the tag ends where `after` starts
        let skip = value.len() - after.len();
        Some((before, trim_chars(ident), after, skip))
    }

    /// The text of a value that is nothing but text.
    pub fn is_string(&self) -> (res: Option<&str>)
        ensures
            match res {
                Some(text) => self@ == ValueView::Literal(text@),
                None => !(self@ is Literal),
            },
    {
        match self {
            ParsedValue::String(value) => Some(value.as_str()),
            _ => None,
        }
    }

    /// Adds to `keys` the keys that the value needs. A set that is missing stays missing
    /// where the value needs none.
    pub fn get_keys_inner<'a>(&'a self, keys: &mut Option<KeySet<'a>>)
        ensures
            held_keys(*final(keys)) == held_keys(*old(keys)).union(self@.keys()),
            (*final(keys)) is None <==> (*old(keys)) is None && self@.keys() == Set::<KeyView>::empty(),
        decreases self,
    {
        match self {
            ParsedValue::String(_) => {
                assert(held_keys(*keys).union(self@.keys()) =~= held_keys(*keys));
            },
            ParsedValue::Variable(key) => {
                insert_key(keys, InterpolateKey::Variable(key));
                assert(self@.keys().contains(KeyView::Variable(key@)));
                assert(held_keys(*old(keys)).union(self@.keys()) =~= held_keys(*old(keys)).insert(
                    KeyView::Variable(key@),
                ));
            },
            ParsedValue::Component { key, inner } => {
                insert_key(keys, InterpolateKey::Component(key));
                inner.get_keys_inner(keys);
                assert(self@.keys().contains(KeyView::Component(key@)));
                assert(held_keys(*keys) =~= held_keys(*old(keys)).union(self@.keys()));
            },
            ParsedValue::Bloc(values) => {
                let ghost views = self@->Bloc_0;
                let mut i: usize = 0;
                proof {
                    if values.len() > 0 {
                        lemma_keys_among(views, 0);
                    }
                    assert(keys_among(views, 0) =~= Set::<KeyView>::empty());
                    assert(held_keys(*keys).union(keys_among(views, 0)) =~= held_keys(*keys));
                }
                while i < values.len()
                    invariant
                        i <= values.len(),
                        *self == ParsedValue::Bloc(*values),
                        views == self@->Bloc_0,
                        held_keys(*keys) == held_keys(*old(keys)).union(
                            keys_among(views, i as int),
                        ),
                        (*keys) is None <==> (*old(keys)) is None && keys_among(views, i as int)
                            == Set::<KeyView>::empty(),
                    decreases values.len() - i,
                {
                    assert(decreases_to!(*self => self->Bloc_0[i as int]));
                    values[i].get_keys_inner(keys);
                    proof {
                        assert(views[i as int] == values[i as int].view());
                        lemma_keys_among(views, i as int);
                        lemma_union_empty(keys_among(views, i as int), views[i as int].keys());
                        assert(held_keys(*keys) =~= held_keys(*old(keys)).union(
                            keys_among(views, i + 1),
                        ));
                    }
                    i += 1;
                }
            },
            ParsedValue::Plural(plurals) => {
                plurals.get_keys_inner(keys);
                let plural_type = plurals.get_type();
                insert_key(keys, InterpolateKey::Count(plural_type));
                assert(self@.keys() == plurals@.keys());
                assert(self@.keys().contains(KeyView::Count(plural_type)));
                assert(held_keys(*keys) =~= held_keys(*old(keys)).union(self@.keys()));
            },
        }
    }

    /// The keys that the value needs, or `None` where it needs none.
    pub fn get_keys(&self) -> (res: Option<KeySet<'_>>)
        ensures
            held_keys(res) == self@.keys(),
            res is None <==> self@.keys() == Set::<KeyView>::empty(),
    {
        let mut keys = None;
        self.get_keys_inner(&mut keys);
        assert(Set::<KeyView>::empty().union(self@.keys()) =~= self@.keys());
        keys
    }

    /// Adds to `tokens` what is shown for the value, piece by piece.
    pub fn flatten<'a>(&'a self, tokens: &mut Vec<&'a ParsedValue>)
        ensures
            piece_views(final(tokens)@) == piece_views(old(tokens)@) + self@.pieces(),
        decreases self,
    {
        match self {
            ParsedValue::String(text) => {
                if !text.as_str().is_empty() {
                    tokens.push(self);
                }
                assert(piece_views(tokens@) =~= piece_views(old(tokens)@) + self@.pieces());
            },
            ParsedValue::Bloc(values) => {
                let mut i: usize = 0;
                assert(piece_views(tokens@) =~= piece_views(old(tokens)@) + pieces_of(
                    self@->Bloc_0,
                    0,
                ));
                while i < values.len()
                    invariant
                        i <= values.len(),
                        *self == ParsedValue::Bloc(*values),
                        piece_views(tokens@) == piece_views(old(tokens)@) + pieces_of(
                            self@->Bloc_0,
                            i as int,
                        ),
                    decreases values.len() - i,
                {
                    assert(decreases_to!(*self => self->Bloc_0[i as int]));
                    values[i].flatten(tokens);
                    proof {
                        assert(self@->Bloc_0[i as int] == values[i as int].view());
                        assert(piece_views(tokens@) =~= piece_views(old(tokens)@) + pieces_of(
                            self@->Bloc_0,
                            i + 1,
                        ));
                    }
                    i += 1;
                }
            },
            _ => {
                tokens.push(self);
                assert(piece_views(tokens@) =~= piece_views(old(tokens)@) + self@.pieces());
            },
        }
    }
}

} // verus!
