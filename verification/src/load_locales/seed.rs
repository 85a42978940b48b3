//! Reading the value of a locale entry from what the locale file holds for it: a text, or a
//! mapping from plural forms to texts.

use super::grammar::parse;
use super::parsed_value::ParsedValue;
use super::parsed_value::ValueView;
use super::plural::BranchView;
use super::plural::FallbackFault;
use super::plural::FormView;
use super::plural::judge_fallbacks;
use super::plural::kind_name;
use super::plural::PluralBranch;
use super::plural::PluralForm;
use super::plural::Plurals;
use super::plural::PluralsView;
use super::plural::PluralType;
use vstd::prelude::*;
use vstd::string::StringExecFns;

verus! {

/// What a locale file holds for one entry.
#[derive(Debug, PartialEq)]
pub enum RawValue {
    /// A text.
    Text(String),
    /// A mapping from plural forms to what the file holds for each, in the order of the
    /// file, with the kind of count that the forms are of.
    Mapping(PluralType, Vec<RawBranch>),
}

/// One entry of a mapping.
#[derive(Debug, PartialEq)]
pub struct RawBranch {
    pub form: PluralForm,
    pub value: RawValue,
}

/// A [`RawValue`] as a mathematical value.
pub enum RawView {
    Text(Seq<char>),
    Mapping(PluralType, Seq<RawBranchView>),
}

/// A [`RawBranch`] as a mathematical value.
pub struct RawBranchView {
    pub form: FormView,
    pub value: RawView,
}

impl RawValue {
    /// What the file holds, without its representation.
    pub open spec fn view(&self) -> RawView
        decreases self,
    {
        match self {
            RawValue::Text(text) => RawView::Text(text@),
            RawValue::Mapping(plural_type, branches) => RawView::Mapping(
                *plural_type,
                Seq::new(
                    branches.len() as nat,
                    |i: int|
                        if 0 <= i < branches.len() {
                            branches[i].view()
                        } else {
                            arbitrary()
                        },
                ),
            ),
        }
    }
}

impl RawBranch {
    /// The entry without its representation.
    pub open spec fn view(&self) -> RawBranchView
        decreases self,
    {
        RawBranchView { form: self.form@, value: self.value.view() }
    }
}

/// The entries of a mapping without their representation.
pub open spec fn branch_views(entries: Seq<RawBranch>) -> Seq<RawBranchView> {
    Seq::new(entries.len(), |i: int| entries[i].view())
}

/// Why a mapping is no plural.
#[derive(Debug, Clone, Copy, PartialEq, Eq, Structural)]
pub enum PluralErrorKind {
    /// A branch of a plural is itself a mapping.
    NestedPlurals,
    /// A fallback stands before the last branch.
    MisplacedFallback,
    /// There is more than one fallback.
    MultipleFallbacks,
    /// There is no fallback, and the kind of count asks for one.
    MissingFallback(PluralType),
}

/// Why a mapping is no plural, and the message that says so and where.
#[derive(Debug, PartialEq, Eq)]
pub struct PluralError {
    pub kind: PluralErrorKind,
    pub message: String,
}

/// The text that `{:?}` writes for a text: the text between double quotes, with the
/// characters escaped that `str`'s `Debug` escapes.
pub uninterp spec fn debug_text(text: Seq<char>) -> Seq<char>;

/// Formats `text` with `{:?}`. The result is what [`debug_text`] names.
#[verifier::external_body]
pub(crate) fn debug_string(text: &str) -> (res: String)
    ensures
        res@ == debug_text(text@),
{
    format!("{:?}", text)
}

/// What a message says is wrong.
pub open spec fn reason(kind: PluralErrorKind) -> Seq<char> {
    match kind {
        PluralErrorKind::NestedPlurals => "nested plurals are not allowed"@,
        PluralErrorKind::MisplacedFallback => "fallback is only allowed in last position"@,
        PluralErrorKind::MultipleFallbacks => "multiple fallbacks are not allowed"@,
        PluralErrorKind::MissingFallback(plural_type) => "for plural type "@ + kind_name(
            plural_type,
        ) + " a fallback is required"@,
    }
}

/// The error kind for a fault of the fallbacks of a plural of kind `plural_type`.
pub open spec fn kind_of(fault: FallbackFault, plural_type: PluralType) -> PluralErrorKind {
    match fault {
        FallbackFault::Misplaced => PluralErrorKind::MisplacedFallback,
        FallbackFault::Multiple => PluralErrorKind::MultipleFallbacks,
        FallbackFault::Missing => PluralErrorKind::MissingFallback(plural_type),
    }
}

/// The plural that the texts of a mapping stand for, each text read by [`parse`]. A branch
/// that is no text stands for nothing that is said here.
pub open spec fn plural_of(plural_type: PluralType, branches: Seq<RawBranchView>) -> PluralsView {
    PluralsView {
        plural_type,
        branches: Seq::new(
            branches.len(),
            |i: int| BranchView { form: branches[i].form, value: parse(branches[i].value->Text_0) },
        ),
    }
}

/// What reading `raw` gives, inside a plural or not. A text is read by [`parse`]. A mapping
/// is a plural: it is refused inside a plural and where one of its branches is a mapping,
/// and else where its fallbacks are at fault.
pub open spec fn read(in_plural: bool, raw: RawView) -> Result<ValueView, PluralErrorKind> {
    match raw {
        RawView::Text(text) => Ok(parse(text)),
        RawView::Mapping(plural_type, branches) => {
            if in_plural {
                Err(PluralErrorKind::NestedPlurals)
            } else if exists|i: int| 0 <= i < branches.len() && (#[trigger] branches[i]).value is Mapping {
                Err(PluralErrorKind::NestedPlurals)
            } else {
                let plurals = plural_of(plural_type, branches);
                match plurals.fault() {
                    Some(fault) => Err(kind_of(fault, plural_type)),
                    None => Ok(ValueView::Plural(plurals)),
                }
            }
        },
    }
}

/// A plural in a plural is refused: a mapping that is read inside a plural, and a mapping
/// with a mapping in one of its branches, whatever the inner mapping holds and however
/// deep the mappings in it go.
pub proof fn lemma_nested_plurals(
    in_plural: bool,
    plural_type: PluralType,
    branches: Seq<RawBranchView>,
)
    requires
        in_plural || exists|i: int| 0 <= i < branches.len() && (#[trigger] branches[i]).value is Mapping,
    ensures
        read(in_plural, RawView::Mapping(plural_type, branches)) == Err::<
            ValueView,
            PluralErrorKind,
        >(PluralErrorKind::NestedPlurals),
{
}

/// A mapping of texts that is not read inside a plural is a plural, and is refused only
/// for its fallbacks.
pub proof fn lemma_plural_of_texts(plural_type: PluralType, branches: Seq<RawBranchView>)
    requires
        forall|i: int| 0 <= i < branches.len() ==> (#[trigger] branches[i]).value is Text,
    ensures
        read(false, RawView::Mapping(plural_type, branches)) == match plural_of(
            plural_type,
            branches,
        ).fault() {
            Some(fault) => Err::<ValueView, PluralErrorKind>(kind_of(fault, plural_type)),
            None => Ok(ValueView::Plural(plural_of(plural_type, branches))),
        },
        read(false, RawView::Mapping(plural_type, branches)) != Err::<ValueView, PluralErrorKind>(
            PluralErrorKind::NestedPlurals,
        ),
{
}

/// How to read one locale entry: where the entry is, for messages, and whether it is read
/// as a branch of a plural.
#[derive(Debug, Clone, Copy)]
pub struct ParsedValueSeed<'a> {
    pub in_plural: bool,
    pub locale: &'a str,
    pub locale_key: &'a str,
    pub namespace: Option<&'a str>,
}

/// Where an entry is: the place that a message names.
pub struct Place {
    pub locale: Seq<char>,
    pub namespace: Option<Seq<char>>,
    pub locale_key: Seq<char>,
}

impl Place {
    /// The message for an error of this kind at this place.
    pub open spec fn message(self, kind: PluralErrorKind) -> Seq<char> {
        "in locale "@ + debug_text(self.locale) + (match self.namespace {
            Some(namespace) => " at namespace "@ + debug_text(namespace),
            None => Seq::empty(),
        }) + " at key "@ + debug_text(self.locale_key) + ": "@ + reason(kind)
    }
}

impl PluralErrorKind {
    /// What a message says is wrong.
    pub fn reason(self) -> (res: String)
        ensures
            res@ == reason(self),
    {
        match self {
            PluralErrorKind::NestedPlurals => "nested plurals are not allowed".to_owned(),
            PluralErrorKind::MisplacedFallback => "fallback is only allowed in last position".to_owned(),
            PluralErrorKind::MultipleFallbacks => "multiple fallbacks are not allowed".to_owned(),
            PluralErrorKind::MissingFallback(plural_type) => {
                let mut text = "for plural type ".to_owned();
                text.append(plural_type.name());
                text.append(" a fallback is required");
                text
            },
        }
    }

    /// The error kind for a fault of the fallbacks of a plural of kind `plural_type`.
    pub fn from_fault(fault: FallbackFault, plural_type: PluralType) -> (res: Self)
        ensures
            res == kind_of(fault, plural_type),
    {
        match fault {
            FallbackFault::Misplaced => PluralErrorKind::MisplacedFallback,
            FallbackFault::Multiple => PluralErrorKind::MultipleFallbacks,
            FallbackFault::Missing => PluralErrorKind::MissingFallback(plural_type),
        }
    }
}

impl<'a> ParsedValueSeed<'a> {
    /// The place that messages name.
    pub open spec fn place(self) -> Place {
        Place {
            locale: self.locale@,
            namespace: match self.namespace {
                Some(namespace) => Some(namespace@),
                None => None,
            },
            locale_key: self.locale_key@,
        }
    }

    /// The error of this kind for the entry.
    pub fn error(self, kind: PluralErrorKind) -> (res: PluralError)
        ensures
            res.kind == kind,
            res.message@ == self.place().message(kind),
    {
        let mut message = "in locale ".to_owned();
        message.append(debug_string(self.locale).as_str());
        if let Some(namespace) = self.namespace {
            message.append(" at namespace ");
            message.append(debug_string(namespace).as_str());
        }
        message.append(" at key ");
        message.append(debug_string(self.locale_key).as_str());
        message.append(": ");
        message.append(kind.reason().as_str());
        proof {
            let place = self.place();
            let start = "in locale "@ + debug_text(place.locale);
            match place.namespace {
                Some(namespace) => {
                    assert(message@ =~= start + (" at namespace "@ + debug_text(namespace))
                        + " at key "@ + debug_text(place.locale_key) + ": "@ + reason(kind));
                },
                None => {
                    assert(message@ =~= start + Seq::<char>::empty() + " at key "@ + debug_text(
                        place.locale_key,
                    ) + ": "@ + reason(kind));
                },
            }
        }
        PluralError { kind, message }
    }

    /// What a message says was expected where the file holds something else.
    pub fn expecting(&self) -> (res: &'static str)
        ensures
            res@ == "either a string or a map of string:string"@,
    {
        "either a string or a map of string:string"
    }

    /// Reads an entry.
    pub fn deserialize(self, raw: &RawValue) -> (res: Result<ParsedValue, PluralError>)
        ensures
            match res {
                Ok(value) => read(self.in_plural, raw@) == Ok::<ValueView, PluralErrorKind>(value@),
                Err(error) => read(self.in_plural, raw@) == Err::<ValueView, PluralErrorKind>(
                    error.kind,
                ) && error.message@ == self.place().message(error.kind),
            },
        decreases raw,
    {
        match raw {
            RawValue::Text(text) => Ok(self.visit_str(text.as_str())),
            RawValue::Mapping(plural_type, entries) => {
                assert(raw@ == RawView::Mapping(*plural_type, branch_views(entries@))) by {
                    assert(raw@->Mapping_1 =~= branch_views(entries@));
                }
                self.visit_map(*plural_type, entries)
            },
        }
    }

    /// Reads an entry that is a mapping.
    pub fn visit_map(self, plural_type: PluralType, entries: &Vec<RawBranch>) -> (res: Result<
        ParsedValue,
        PluralError,
    >)
        ensures
            match res {
                Ok(value) => read(
                    self.in_plural,
                    RawView::Mapping(plural_type, branch_views(entries@)),
                ) == Ok::<ValueView, PluralErrorKind>(value@),
                Err(error) => read(
                    self.in_plural,
                    RawView::Mapping(plural_type, branch_views(entries@)),
                ) == Err::<ValueView, PluralErrorKind>(error.kind) && error.message@
                    == self.place().message(error.kind),
            },
        decreases entries,
    {
        let inner = match self.enter_plural() {
            Ok(inner) => inner,
            Err(error) => { return Err(error); },
        };
        let ghost raws = branch_views(entries@);
        let mut branches: Vec<PluralBranch> = Vec::new();
        let mut i: usize = 0;
        while i < entries.len()
            invariant
                i <= entries.len(),
                raws == branch_views(entries@),
                inner.in_plural,
                inner.place() == self.place(),
                branches.len() == i,
                forall|j: int| 0 <= j < i ==> (#[trigger] raws[j]).value is Text,
                forall|j: int|
                    0 <= j < i ==> (#[trigger] branches[j]).form@ == raws[j].form
                        && branches[j].value.view() == parse(raws[j].value->Text_0),
            decreases entries.len() - i,
        {
            let value = match inner.deserialize(&entries[i].value) {
                Ok(value) => value,
                Err(error) => {
                    assert(raws[i as int].value is Mapping);
                    return Err(error);
                },
            };
            branches.push(PluralBranch { form: entries[i].form.clone(), value });
            i += 1;
        }
        proof {
            let plurals = Plurals { plural_type, branches };
            assert(plurals@.branches =~= plural_of(plural_type, raws).branches);
        }
        self.check_plural(plural_type, branches)
    }

    /// The seed for the branches of a mapping. A mapping that is itself read as a branch
    /// is refused before anything of it is read.
    pub fn enter_plural(self) -> (res: Result<ParsedValueSeed<'a>, PluralError>)
        ensures
            match res {
                Ok(inner) => !self.in_plural && inner.in_plural && inner.place() == self.place(),
                Err(error) => self.in_plural && error.kind == PluralErrorKind::NestedPlurals
                    && error.message@ == self.place().message(error.kind),
            },
    {
        // a plural inside a plural is not allowed
        if self.in_plural {
            return Err(self.error(PluralErrorKind::NestedPlurals));
        }
        Ok(
            ParsedValueSeed {
                in_plural: true,
                locale: self.locale,
                locale_key: self.locale_key,
                namespace: self.namespace,
            },
        )
    }

    /// The plural of the branches that were read from a mapping, where its fallbacks are
    /// not at fault.
    pub fn check_plural(self, plural_type: PluralType, branches: Vec<PluralBranch>) -> (res:
        Result<ParsedValue, PluralError>)
        ensures
            match res {
                Ok(value) => (Plurals { plural_type, branches }).view().fault() is None
                    && value@ == ValueView::Plural((Plurals { plural_type, branches }).view()),
                Err(error) => (Plurals { plural_type, branches }).view().fault() matches Some(
                    fault,
                ) && error.kind == kind_of(fault, plural_type) && error.message@
                    == self.place().message(error.kind),
            },
    {
        let plurals = Plurals { plural_type, branches };
        let (invalid_fallback, fallback_count, should_have_fallback) =
            plurals.check_deserialization();
        match judge_fallbacks(invalid_fallback, fallback_count, should_have_fallback) {
            Some(fault) => Err(self.error(PluralErrorKind::from_fault(fault, plurals.get_type()))),
            None => Ok(ParsedValue::Plural(plurals)),
        }
    }

    /// Reads an entry that is a text.
    pub fn visit_str(self, v: &str) -> (res: ParsedValue)
        ensures
            res@ == parse(v@),
    {
        ParsedValue::new(v)
    }
}

} // verus!
