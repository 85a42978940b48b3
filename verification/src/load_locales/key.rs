//! Keys: the names under which a locale string asks its caller for a value.

use super::text::is_ascii_letter;
use super::text::is_name_char;
use super::text::to_string;
use vstd::prelude::*;
use vstd::string::StringExecFns;

verus! {

/// What `syn::parse_str::<syn::Ident>` says of `name`: whether it reads as one Rust
/// identifier.
///
/// The text has to lex as a single identifier token, which may stand between white space
/// and comments, and the identifier may be neither `_` nor a keyword.
pub uninterp spec fn reads_as_identifier(name: Seq<char>) -> bool;

/// Whether `name` is made of letters and digits of ASCII and of `_`, starts with a letter
/// and holds a `_`. Such a name is an identifier, and no keyword, since no keyword holds
/// a `_`.
pub open spec fn is_plain_name(name: Seq<char>) -> bool {
    &&& name.len() > 0
    &&& is_ascii_letter(name[0])
    &&& name.contains('_')
    &&& forall|i: int| 0 <= i < name.len() ==> is_name_char(#[trigger] name[i])
}

/// Whether `name` is an identifier: a plain name, or whatever else reads as an identifier.
pub open spec fn is_identifier(name: Seq<char>) -> bool {
    is_plain_name(name) || reads_as_identifier(name)
}

/// Calls `syn::parse_str::<syn::Ident>` and tells whether it returned an identifier. The
/// result is what [`reads_as_identifier`] names: this crate builds `proc-macro2` without its
/// bridge to the compiler, so the text is lexed by `proc-macro2` itself, from the text alone.
/// (A build that turns the feature `proc-macro` of `proc-macro2` on hands the text to the
/// compiler while a macro is expanded.)
/// Of a plain name the result is `true`: its characters start and continue an identifier
/// for the lexer, nothing in it starts a literal, and `syn` refuses only `_` and the
/// keywords. `syn` goes into the brackets of the text one call deep for each, so a text
/// costs as much stack as its brackets nest.
#[verifier::external_body]
pub(crate) fn parses_as_identifier(name: &str) -> (res: bool)
    ensures
        res == reads_as_identifier(name@),
        is_plain_name(name@) ==> res,
{
    syn::parse_str::<syn::Ident>(name).is_ok()
}

/// A name that is known to be an identifier.
#[derive(Debug, PartialEq, Eq, Hash)]
pub struct Key {
    name: String,
}

impl View for Key {
    type V = Seq<char>;

    closed spec fn view(&self) -> Seq<char> {
        self.name@
    }
}

impl Clone for Key {
    fn clone(&self) -> (res: Self)
        ensures
            res@ == self@,
    {
        proof {
            use_type_invariant(self);
        }
        Key { name: self.name.clone() }
    }
}

impl Key {
    #[verifier::type_invariant]
    spec fn is_valid(self) -> bool {
        is_identifier(self.name@)
    }

    /// The key named `name`, where `name` is an identifier.
    pub fn try_new(name: &str) -> (res: Option<Key>)
        ensures
            res is Some <==> is_identifier(name@),
            res matches Some(key) ==> key@ == name@,
    {
        if parses_as_identifier(name) {
            Some(Key { name: name.to_owned() })
        } else {
            None
        }
    }

    /// The key named `prefix` followed by `name`, where that is an identifier.
    pub fn with_prefix(prefix: &str, name: &[char]) -> (res: Option<Key>)
        ensures
            res is Some <==> is_identifier(prefix@ + name@),
            res matches Some(key) ==> key@ == prefix@ + name@,
    {
        let mut text = prefix.to_owned();
        let tail = to_string(name);
        text.append(tail.as_str());
        if parses_as_identifier(text.as_str()) {
            Some(Key { name: text })
        } else {
            None
        }
    }

    /// The name of the key, which is an identifier.
    pub fn name(&self) -> (res: &str)
        ensures
            res@ == self@,
            is_identifier(res@),
    {
        proof {
            use_type_invariant(self);
        }
        self.name.as_str()
    }

    /// Whether two keys have the same name.
    pub fn same_as(&self, other: &Key) -> (res: bool)
        ensures
            res == (self@ == other@),
    {
        self.name == other.name
    }
}

} // verus!
