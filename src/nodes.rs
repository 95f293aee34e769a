use vstd::prelude::*;

use crate::arguments::{CandidateValues, SourceView, StringVariationArg};
use crate::jsfbt_builder::{Combo, ComboView};
use crate::util::{token_name_to_text_pattern, token_pattern};

verus! {

/// A list argument: the list's items are one argument of the phrase.
#[derive(Clone, Debug)]
pub struct FbtListNode {
    pub name: String,
}

/// How a plural shows its count.
#[derive(Clone, Copy, Debug, PartialEq, Eq)]
pub enum ShowCount {
    Yes,
    IfMany,
    No,
}

/// The grammatical role of a pronoun.
#[derive(Clone, Copy, Debug, PartialEq, Eq)]
pub enum ValidProunounUsage {
    Object,
    Possessive,
    Reflexive,
    Subject,
}

/// One part of a phrase.
#[derive(Clone, Debug)]
#[allow(inconsistent_fields)]
pub enum FbtChildNodeEnum {
    /// A choice among the keys `range`, made at run time by the expression
    /// whose identity is `value`; renders as the chosen key.
    Enum { name: String, range: Vec<String>, value: u64 },
    /// A named person; varies by the gender source; renders as `{name}`.
    Name { name: String, gender: StringVariationArg },
    /// A parameter; varies by gender or by number, never both; renders as
    /// `{name}`.
    Param {
        name: String,
        gender: Option<StringVariationArg>,
        number: Option<StringVariationArg>,
    },
    /// A list; renders as `{name}`.
    List(FbtListNode),
    /// A reference to an argument named before; renders as `{name}`.
    SameParam { name: String },
    /// Literal text.
    Text(String),
}

impl FbtChildNodeEnum {
    /// A parameter never varies by gender and number at once.
    pub open spec fn valid(self) -> bool {
        match self {
            FbtChildNodeEnum::Param { gender, number, .. } => !(gender is Some && number is Some),
            _ => true,
        }
    }

    /// The variation sources this part introduces, in order.
    pub open spec fn args(self) -> Seq<SourceView> {
        match self {
            FbtChildNodeEnum::Enum { range, value, .. } => seq![
                SourceView { id: value, candidates: CandidateValues::EnumKeys(range)@ },
            ],
            FbtChildNodeEnum::Name { gender, .. } => seq![gender@],
            FbtChildNodeEnum::Param { gender, number, .. } => match (gender, number) {
                (Some(g), None) => seq![g@],
                (None, Some(n)) => seq![n@],
                _ => Seq::empty(),
            },
            _ => Seq::empty(),
        }
    }

    /// The placeholder name of this part, if it has one.
    pub open spec fn token_name(self) -> Option<Seq<char>> {
        match self {
            FbtChildNodeEnum::Name { name, .. } => Some(name@),
            FbtChildNodeEnum::Param { name, .. } => Some(name@),
            FbtChildNodeEnum::List(l) => Some(l.name@),
            FbtChildNodeEnum::SameParam { name } => Some(name@),
            _ => None,
        }
    }

    /// The text of this part, given the values chosen for its sources.
    pub open spec fn text(self, chosen: Seq<ComboView>) -> Seq<char> {
        match self {
            FbtChildNodeEnum::Enum { .. } => if chosen.len() > 0 {
                chosen[0].value.key()
            } else {
                Seq::empty()
            },
            FbtChildNodeEnum::Text(t) => t@,
            _ => token_pattern(self.token_name().unwrap()),
        }
    }

    /// The variation sources this part introduces, in order.
    pub fn get_args_for_string_variation_calc(&self) -> (r: Vec<StringVariationArg>)
        requires
            self.valid(),
        ensures
            r@.map_values(|a: StringVariationArg| a@) == self.args(),
    {
        let mut r: Vec<StringVariationArg> = Vec::new();
        match self {
            FbtChildNodeEnum::Enum { range, value, .. } => {
                r.push(
                    StringVariationArg {
                        node: *value,
                        candidate_values: CandidateValues::EnumKeys(
                            crate::arguments::copy_strings(range),
                        ),
                    },
                );
            },
            FbtChildNodeEnum::Name { gender, .. } => {
                r.push(gender.duplicate());
            },
            FbtChildNodeEnum::Param { gender, number, .. } => {
                match (gender, number) {
                    (Some(g), None) => r.push(g.duplicate()),
                    (None, Some(n)) => r.push(n.duplicate()),
                    _ => {},
                }
            },
            _ => {},
        }
        assert(r@.map_values(|a: StringVariationArg| a@) =~= self.args());
        r
    }

    /// The placeholder name of this part, if it has one.
    pub fn get_token_name(&self) -> (r: Option<String>)
        ensures
            match r {
                Some(s) => self.token_name() == Some(s@),
                None => self.token_name() is None,
            },
    {
        match self {
            FbtChildNodeEnum::Name { name, .. } => Some(name.clone()),
            FbtChildNodeEnum::Param { name, .. } => Some(name.clone()),
            FbtChildNodeEnum::List(list) => Some(list.name.clone()),
            FbtChildNodeEnum::SameParam { name } => Some(name.clone()),
            _ => None,
        }
    }

    /// The text of this part, given the values chosen for its sources (the
    /// entries of `combo` from `offset` on).
    pub fn get_text(&self, combo: &Vec<Combo>, offset: usize) -> (r: String)
        requires
            offset <= combo@.len(),
        ensures
            r@ == self.text(combo@.skip(offset as int).map_values(|c: Combo| c@)),
    {
        let ghost chosen = combo@.skip(offset as int).map_values(|c: Combo| c@);
        match self {
            FbtChildNodeEnum::Enum { .. } => {
                if offset < combo.len() {
                    assert(chosen[0] == combo@[offset as int]@);
                    combo[offset].value.to_string()
                } else {
                    String::new()
                }
            },
            FbtChildNodeEnum::Name { name, .. } => token_name_to_text_pattern(name.as_str()),
            FbtChildNodeEnum::Param { name, .. } => token_name_to_text_pattern(name.as_str()),
            FbtChildNodeEnum::List(list) => token_name_to_text_pattern(list.name.as_str()),
            FbtChildNodeEnum::SameParam { name } => token_name_to_text_pattern(name.as_str()),
            FbtChildNodeEnum::Text(text) => text.clone(),
        }
    }
}

} // verus!
