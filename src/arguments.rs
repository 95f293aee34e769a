use vstd::prelude::*;

verus! {

/// Grammatical gender values a gender variation can take.
#[derive(Clone, Copy, Debug, PartialEq, Eq, Hash, Structural)]
pub enum GenderConst {
    NotAPerson,
    FemaleSingular,
    MaleSingular,
    UnknownSingular,
    UnknownPlural,
    Any,
}

/// Plural-number values a number variation can take.
#[derive(Clone, Copy, Debug, PartialEq, Eq, Hash, Structural)]
pub enum NumberConst {
    Any,
    ExactlyOne,
}

/// The table key of a gender value: its numeric code, or `*` for `Any`.
pub open spec fn gender_key(g: GenderConst) -> Seq<char> {
    match g {
        GenderConst::NotAPerson => seq!['0'],
        GenderConst::FemaleSingular => seq!['1'],
        GenderConst::MaleSingular => seq!['2'],
        GenderConst::UnknownSingular => seq!['7'],
        GenderConst::UnknownPlural => seq!['1', '1'],
        GenderConst::Any => seq!['*'],
    }
}

/// The table key of a number value: `*` for `Any`, `_1` for `ExactlyOne`.
pub open spec fn number_key(n: NumberConst) -> Seq<char> {
    match n {
        NumberConst::Any => seq!['*'],
        NumberConst::ExactlyOne => seq!['_', '1'],
    }
}

fn string_of_chars(cs: &[char]) -> (r: String)
    ensures
        r@ == cs@,
{
    let mut s = String::new();
    let mut i: usize = 0;
    while i < cs.len()
        invariant
            i <= cs@.len(),
            s@ == cs@.subrange(0, i as int),
        decreases cs@.len() - i,
    {
        crate::hash::push_char(&mut s, cs[i]);
        assert(cs@.subrange(0, i + 1) =~= cs@.subrange(0, i as int).push(cs@[i as int]));
        i = i + 1;
    }
    assert(cs@.subrange(0, cs@.len() as int) =~= cs@);
    s
}

impl GenderConst {
    /// The table key of this value.
    pub fn to_string(&self) -> (r: String)
        ensures
            r@ == gender_key(*self),
    {
        let r = match self {
            GenderConst::NotAPerson => string_of_chars(&['0']),
            GenderConst::FemaleSingular => string_of_chars(&['1']),
            GenderConst::MaleSingular => string_of_chars(&['2']),
            GenderConst::UnknownSingular => string_of_chars(&['7']),
            GenderConst::UnknownPlural => string_of_chars(&['1', '1']),
            GenderConst::Any => string_of_chars(&['*']),
        };
        assert(r@ =~= gender_key(*self));
        r
    }
}

impl NumberConst {
    /// The table key of this value.
    pub fn to_string(&self) -> (r: String)
        ensures
            r@ == number_key(*self),
    {
        let r = match self {
            NumberConst::Any => string_of_chars(&['*']),
            NumberConst::ExactlyOne => string_of_chars(&['_', '1']),
        };
        assert(r@ =~= number_key(*self));
        r
    }
}

/// A value chosen for one variation source, as a mathematical value.
pub ghost enum ArgValue {
    EnumKey(Seq<char>),
    Gender(GenderConst),
    Number(NumberConst),
}

impl ArgValue {
    /// The table key under which this value files its variant.
    pub open spec fn key(self) -> Seq<char> {
        match self {
            ArgValue::EnumKey(k) => k,
            ArgValue::Gender(g) => gender_key(g),
            ArgValue::Number(n) => number_key(n),
        }
    }
}

/// A value chosen for one variation source.
#[derive(Clone, Debug)]
pub enum SVArgValue {
    EnumKey(String),
    GenderConst(GenderConst),
    Number(NumberConst),
}

impl View for SVArgValue {
    type V = ArgValue;

    open spec fn view(&self) -> ArgValue {
        match self {
            SVArgValue::EnumKey(k) => ArgValue::EnumKey(k@),
            SVArgValue::GenderConst(g) => ArgValue::Gender(*g),
            SVArgValue::Number(n) => ArgValue::Number(*n),
        }
    }
}

impl SVArgValue {
    /// The table key of this value: the enum key itself, or the key of the
    /// gender or number constant.
    pub fn to_string(&self) -> (r: String)
        ensures
            r@ == self@.key(),
    {
        match self {
            SVArgValue::EnumKey(key) => key.clone(),
            SVArgValue::GenderConst(gender) => gender.to_string(),
            SVArgValue::Number(number) => number.to_string(),
        }
    }

    /// A copy with the same value.
    pub fn duplicate(&self) -> (r: SVArgValue)
        ensures
            r@ == self@,
    {
        match self {
            SVArgValue::EnumKey(key) => SVArgValue::EnumKey(key.clone()),
            SVArgValue::GenderConst(gender) => SVArgValue::GenderConst(*gender),
            SVArgValue::Number(number) => SVArgValue::Number(*number),
        }
    }
}

/// The candidate values of one variation source, in order.
#[derive(Clone, Debug)]
pub enum CandidateValues {
    EnumKeys(Vec<String>),
    GenderConsts(Vec<GenderConst>),
    Numbers(Vec<NumberConst>),
}

impl View for CandidateValues {
    type V = Seq<ArgValue>;

    open spec fn view(&self) -> Seq<ArgValue> {
        match self {
            CandidateValues::EnumKeys(keys) => keys@.map_values(|k: String| ArgValue::EnumKey(k@)),
            CandidateValues::GenderConsts(gs) => gs@.map_values(|g: GenderConst| ArgValue::Gender(g)),
            CandidateValues::Numbers(ns) => ns@.map_values(|n: NumberConst| ArgValue::Number(n)),
        }
    }
}

impl CandidateValues {
    /// Number of candidates.
    pub fn len(&self) -> (r: usize)
        ensures
            r == self@.len(),
    {
        match self {
            CandidateValues::EnumKeys(keys) => keys.len(),
            CandidateValues::GenderConsts(gs) => gs.len(),
            CandidateValues::Numbers(ns) => ns.len(),
        }
    }

    /// The candidate at position `i`.
    pub fn get(&self, i: usize) -> (r: SVArgValue)
        requires
            i < self@.len(),
        ensures
            r@ == self@[i as int],
    {
        match self {
            CandidateValues::EnumKeys(keys) => SVArgValue::EnumKey(keys[i].clone()),
            CandidateValues::GenderConsts(gs) => SVArgValue::GenderConst(gs[i]),
            CandidateValues::Numbers(ns) => SVArgValue::Number(ns[i]),
        }
    }
}

fn copy_vec<T: Copy>(v: &Vec<T>) -> (r: Vec<T>)
    ensures
        r@ == v@,
{
    let mut r: Vec<T> = Vec::new();
    let mut i: usize = 0;
    while i < v.len()
        invariant
            i <= v@.len(),
            r@ == v@.subrange(0, i as int),
        decreases v@.len() - i,
    {
        r.push(v[i]);
        assert(v@.subrange(0, i + 1) =~= v@.subrange(0, i as int).push(v@[i as int]));
        i = i + 1;
    }
    assert(v@.subrange(0, v@.len() as int) =~= v@);
    r
}

/// A copy of a list of strings.
pub fn copy_strings(v: &Vec<String>) -> (r: Vec<String>)
    ensures
        r@ == v@,
{
    let mut r: Vec<String> = Vec::new();
    let mut i: usize = 0;
    while i < v.len()
        invariant
            i <= v@.len(),
            r@ == v@.subrange(0, i as int),
        decreases v@.len() - i,
    {
        r.push(v[i].clone());
        assert(v@.subrange(0, i + 1) =~= v@.subrange(0, i as int).push(v@[i as int]));
        i = i + 1;
    }
    assert(v@.subrange(0, v@.len() as int) =~= v@);
    r
}

impl CandidateValues {
    /// A copy with the same candidates.
    pub fn duplicate(&self) -> (r: CandidateValues)
        ensures
            r@ == self@,
    {
        match self {
            CandidateValues::EnumKeys(keys) => CandidateValues::EnumKeys(copy_strings(keys)),
            CandidateValues::GenderConsts(gs) => CandidateValues::GenderConsts(copy_vec(gs)),
            CandidateValues::Numbers(ns) => CandidateValues::Numbers(copy_vec(ns)),
        }
    }
}

/// One variation source: the identity of the expression it stems from, and
/// the values it may take.
#[derive(Clone, Debug)]
pub struct StringVariationArg {
    /// Identity of the originating expression; two sources with the same
    /// identity always take the same value.
    pub node: u64,
    pub candidate_values: CandidateValues,
}

/// A variation source as a mathematical value.
pub ghost struct SourceView {
    pub id: u64,
    pub candidates: Seq<ArgValue>,
}

impl StringVariationArg {
    /// A copy of this source.
    pub fn duplicate(&self) -> (r: StringVariationArg)
        ensures
            r@ == self@,
    {
        StringVariationArg { node: self.node, candidate_values: self.candidate_values.duplicate() }
    }
}

impl View for StringVariationArg {
    type V = SourceView;

    open spec fn view(&self) -> SourceView {
        SourceView { id: self.node, candidates: self.candidate_values@ }
    }
}

} // verus!
