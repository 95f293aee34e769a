use vstd::prelude::*;

use crate::arguments::{SourceView, StringVariationArg};
use crate::jsfbt::{keys_view, LeafView, TableJSFBTTree, TableJSFBTTreeLeaf, TableView};
use crate::jsfbt_builder::{all_combinations, combos_view, Combo, ComboView, JSFbtBuilder, sources_view};
use crate::nodes::FbtChildNodeEnum;
use crate::util::{differ_by_space_run, lemma_space_run_normalizes_alike, normalize_text, normalized_text};

verus! {

/// Why a phrase cannot be compiled.
#[derive(Clone, Copy, Debug, PartialEq, Eq, Structural)]
pub enum FbtError {
    /// A parameter varies by gender and by number at once.
    GenderAndNumber,
    /// A variation source has no candidate values.
    EmptyCandidates,
    /// The phrase has more combinations than the caller allows.
    TooManyCombinations,
    /// Two combinations file their leaves under the same key path.
    DuplicatePath,
    /// The table has no leaf.
    EmptyTable,
}

/// The variation sources of a list of parts, in order.
pub open spec fn children_args(cs: Seq<FbtChildNodeEnum>) -> Seq<SourceView>
    decreases cs.len(),
{
    if cs.len() == 0 {
        Seq::empty()
    } else {
        children_args(cs.drop_last()) + cs.last().args()
    }
}

/// The concatenated texts of a list of parts, each part reading the values
/// of its own sources in `combo`.
pub open spec fn raw_text(cs: Seq<FbtChildNodeEnum>, combo: Seq<ComboView>) -> Seq<char>
    decreases cs.len(),
{
    if cs.len() == 0 {
        Seq::empty()
    } else {
        raw_text(cs.drop_last(), combo) + cs.last().text(
            combo.skip(children_args(cs.drop_last()).len() as int),
        )
    }
}

/// The key path of a combination: the key of each chosen value, in order.
pub open spec fn key_path(combo: Seq<ComboView>) -> Seq<Seq<char>> {
    combo.map_values(|c: ComboView| c.value.key())
}

/// The view of a leaf, as a function.
pub open spec fn leaf_views() -> spec_fn(TableJSFBTTreeLeaf) -> LeafView {
    |l: TableJSFBTTreeLeaf| l@
}

/// A whole phrase: its parts, its description, and an optional subject
/// whose gender the phrase varies by.
#[derive(Clone, Debug)]
pub struct FbtElementNode {
    pub children: Vec<FbtChildNodeEnum>,
    pub desc: String,
    pub subject: Option<StringVariationArg>,
}

impl FbtElementNode {
    pub open spec fn subject_args(self) -> Seq<SourceView> {
        match self.subject {
            Some(s) => seq![s@],
            None => Seq::empty(),
        }
    }

    /// Every part is valid.
    pub open spec fn valid(self) -> bool {
        forall|i: int| 0 <= i < self.children@.len() ==> (#[trigger] self.children@[i]).valid()
    }

    /// The variation sources of the phrase: the subject first, then those of
    /// the parts in order.
    pub open spec fn args(self) -> Seq<SourceView> {
        self.subject_args() + children_args(self.children@)
    }

    /// The text of the phrase for one combination, before normalization.
    pub open spec fn rendered(self, combo: Seq<ComboView>) -> Seq<char> {
        raw_text(self.children@, combo.skip(self.subject_args().len() as int))
    }

    /// The normalized text of the phrase for one combination.
    pub open spec fn text_for(self, combo: Seq<ComboView>) -> Seq<char> {
        normalized_text(self.rendered(combo))
    }

    /// The leaf of the phrase for one combination.
    pub open spec fn leaf_for(self, combo: Seq<ComboView>) -> LeafView {
        LeafView {
            desc: self.desc@,
            hash: None,
            outer_token_name: None,
            text: self.text_for(combo),
            token_aliases: None,
        }
    }

    /// The table after filing the leaves of `combos` in order into an empty
    /// branch; `None` when some path is taken or runs through a leaf.
    pub open spec fn table_from(self, combos: Seq<Seq<ComboView>>) -> Option<TableView<LeafView>>
        decreases combos.len(),
    {
        if combos.len() == 0 {
            Some(TableView::Branch(Seq::empty()))
        } else {
            match self.table_from(combos.drop_last()) {
                None => None,
                Some(t) => {
                    let c = combos.last();
                    if t.can_insert(key_path(c)) {
                        Some(t.insert(key_path(c), self.leaf_for(c)))
                    } else {
                        None
                    }
                },
            }
        }
    }

    /// The variation table of the phrase, or why there is none.
    pub open spec fn phrase_table(self) -> Result<TableView<LeafView>, FbtError> {
        if !self.valid() {
            Err(FbtError::GenderAndNumber)
        } else if exists|i: int| 0 <= i < self.args().len() && (#[trigger] self.args()[i]).candidates.len() == 0 {
            Err(FbtError::EmptyCandidates)
        } else if self.args().len() == 0 {
            Ok(TableView::Leaf(self.leaf_for(Seq::empty())))
        } else {
            match self.table_from(all_combinations(self.args())) {
                Some(t) => Ok(t),
                None => Err(FbtError::DuplicatePath),
            }
        }
    }
}

proof fn lemma_table_from_same_leaves(e1: FbtElementNode, e2: FbtElementNode, combos: Seq<Seq<ComboView>>)
    requires
        forall|c: Seq<ComboView>| #[trigger] e1.leaf_for(c) == e2.leaf_for(c),
    ensures
        e1.table_from(combos) == e2.table_from(combos),
    decreases combos.len(),
{
    if combos.len() > 0 {
        lemma_table_from_same_leaves(e1, e2, combos.drop_last());
    }
}

/// Two phrases with the same description and sources, whose rendered texts
/// for every combination are equal or differ only in one run of white
/// space, compile to the same table, and so to the same hash key.
pub proof fn lemma_whitespace_insensitive(e1: FbtElementNode, e2: FbtElementNode, max_combinations: u64)
    requires
        e1.desc@ == e2.desc@,
        e1.args() == e2.args(),
        e1.valid() == e2.valid(),
        forall|c: Seq<ComboView>|
            #[trigger] e1.rendered(c) == e2.rendered(c) || differ_by_space_run(
                e1.rendered(c),
                e2.rendered(c),
            ),
    ensures
        e1.phrase_table() == e2.phrase_table(),
        crate::transform::compile_outcome(e1, max_combinations) == crate::transform::compile_outcome(
            e2,
            max_combinations,
        ),
{
    assert forall|c: Seq<ComboView>| #[trigger] e1.leaf_for(c) == e2.leaf_for(c) by {
        if e1.rendered(c) != e2.rendered(c) {
            lemma_space_run_normalizes_alike(e1.rendered(c), e2.rendered(c));
        }
    }
    lemma_table_from_same_leaves(e1, e2, all_combinations(e1.args()));
}

/// Once filing fails, it fails for every longer list of combinations.
proof fn lemma_table_from_none(e: FbtElementNode, combos: Seq<Seq<ComboView>>, m: int)
    requires
        0 <= m <= combos.len(),
        e.table_from(combos.subrange(0, m)) is None,
    ensures
        e.table_from(combos) is None,
    decreases combos.len(),
{
    if m == combos.len() {
        assert(combos.subrange(0, m) =~= combos);
    } else {
        assert(combos.drop_last().subrange(0, m) =~= combos.subrange(0, m));
        lemma_table_from_none(e, combos.drop_last(), m);
    }
}

proof fn lemma_children_args_prefix(cs: Seq<FbtChildNodeEnum>, i: int)
    requires
        0 <= i <= cs.len(),
    ensures
        children_args(cs.subrange(0, i)).len() <= children_args(cs).len(),
    decreases cs.len(),
{
    if i < cs.len() {
        assert(cs.drop_last().subrange(0, i) =~= cs.subrange(0, i));
        lemma_children_args_prefix(cs.drop_last(), i);
    } else {
        assert(cs.subrange(0, i) =~= cs);
    }
}

impl FbtElementNode {
    /// Whether every part is valid.
    pub fn is_valid(&self) -> (r: bool)
        ensures
            r == self.valid(),
    {
        let mut i: usize = 0;
        while i < self.children.len()
            invariant
                i <= self.children@.len(),
                forall|j: int| 0 <= j < i ==> (#[trigger] self.children@[j]).valid(),
            decreases self.children@.len() - i,
        {
            if let FbtChildNodeEnum::Param { gender: Some(_), number: Some(_), .. } = &self.children[i] {
                return false;
            }
            i = i + 1;
        }
        true
    }

    /// The variation sources of the phrase: the subject first, then those of
    /// the parts in order.
    pub fn get_args_for_string_variation_calc(&self) -> (r: Vec<StringVariationArg>)
        requires
            self.valid(),
        ensures
            sources_view(r@) == self.args(),
    {
        let mut r: Vec<StringVariationArg> = Vec::new();
        if let Some(subject) = &self.subject {
            r.push(subject.duplicate());
        }
        assert(sources_view(r@) =~= self.subject_args() + children_args(self.children@.subrange(0, 0)));
        let mut i: usize = 0;
        while i < self.children.len()
            invariant
                self.valid(),
                i <= self.children@.len(),
                sources_view(r@) == self.subject_args() + children_args(self.children@.subrange(0, i as int)),
            decreases self.children@.len() - i,
        {
            let part = self.children[i].get_args_for_string_variation_calc();
            let ghost before = r@;
            let mut j: usize = 0;
            while j < part.len()
                invariant
                    j <= part@.len(),
                    sources_view(r@) == sources_view(before) + sources_view(part@.subrange(0, j as int)),
                decreases part@.len() - j,
            {
                let ghost prev = r@;
                r.push(part[j].duplicate());
                assert(sources_view(r@) =~= sources_view(prev).push(part@[j as int]@));
                assert(sources_view(part@.subrange(0, j + 1)) =~= sources_view(part@.subrange(0, j as int)).push(part@[j as int]@));
                assert(sources_view(r@) =~= sources_view(before) + sources_view(part@.subrange(0, j + 1)));
                j = j + 1;
            }
            assert(part@.subrange(0, part@.len() as int) =~= part@);
            assert(self.children@.subrange(0, i + 1).drop_last() =~= self.children@.subrange(0, i as int));
            assert(sources_view(r@) =~= self.subject_args() + children_args(self.children@.subrange(0, i + 1)));
            i = i + 1;
        }
        assert(self.children@.subrange(0, self.children@.len() as int) =~= self.children@);
        r
    }

    /// Number of variation sources of part `c`.
    fn arg_count(c: &FbtChildNodeEnum) -> (r: usize)
        ensures
            r == c.args().len(),
    {
        match c {
            FbtChildNodeEnum::Enum { .. } => 1,
            FbtChildNodeEnum::Name { .. } => 1,
            FbtChildNodeEnum::Param { gender, number, .. } => match (gender, number) {
                (Some(_), None) => 1,
                (None, Some(_)) => 1,
                _ => 0,
            },
            _ => 0,
        }
    }

    /// The concatenated texts of the parts for one combination, before
    /// normalization.
    pub fn get_text(&self, combo: &Vec<Combo>) -> (r: String)
        requires
            combo@.len() == self.args().len(),
        ensures
            r@ == raw_text(
                self.children@,
                combo@.map_values(|c: Combo| c@).skip(self.subject_args().len() as int),
            ),
    {
        let ghost cs = self.children@;
        let ghost cv = combo@.map_values(|c: Combo| c@).skip(self.subject_args().len() as int);
        let mut offset: usize = if self.subject.is_some() { 1 } else { 0 };
        let ghost base = offset as int;
        let mut out = String::new();
        let total = combo.len();
        assert(out@ =~= raw_text(cs.subrange(0, 0), cv));
        let mut i: usize = 0;
        while i < self.children.len()
            invariant
                cs == self.children@,
                combo@.len() == self.args().len(),
                total == combo@.len(),
                base == self.subject_args().len(),
                cv == combo@.map_values(|c: Combo| c@).skip(base),
                i <= cs.len(),
                offset == base + children_args(cs.subrange(0, i as int)).len(),
                out@ == raw_text(cs.subrange(0, i as int), cv),
            decreases cs.len() - i,
        {
            proof {
                lemma_children_args_prefix(cs, i + 1);
                assert(cs.subrange(0, i + 1).drop_last() =~= cs.subrange(0, i as int));
                assert(cs.subrange(0, i + 1).last() == cs[i as int]);
            }
            let piece = self.children[i].get_text(combo, offset);
            assert(combo@.skip(offset as int).map_values(|c: Combo| c@) =~= cv.skip(
                children_args(cs.subrange(0, i as int)).len() as int,
            ));
            out.append(piece.as_str());
            offset = offset + Self::arg_count(&self.children[i]);
            i = i + 1;
        }
        assert(cs.subrange(0, cs.len() as int) =~= cs);
        out
    }

    /// The leaf of the phrase for one combination.
    pub fn make_leaf(&self, combo: &Vec<Combo>) -> (r: TableJSFBTTreeLeaf)
        requires
            combo@.len() == self.args().len(),
        ensures
            r@ == self.leaf_for(combo@.map_values(|c: Combo| c@)),
    {
        let raw = self.get_text(combo);
        let text = normalize_text(raw.as_str());
        TableJSFBTTreeLeaf {
            desc: self.desc.clone(),
            hash: None,
            outer_token_name: None,
            text,
            token_aliases: None,
        }
    }
}

impl FbtElementNode {
    /// The variation table of the phrase: one leaf per combination of the
    /// values of its sources, filed under the keys of those values; a single
    /// leaf when the phrase has no sources.
    pub fn build_table(&self) -> (r: Result<TableJSFBTTree<TableJSFBTTreeLeaf>, FbtError>)
        ensures
            match r {
                Ok(t) => self.phrase_table() == Ok::<TableView<LeafView>, FbtError>(
                    t.model().map(leaf_views()),
                ) && t.model().wf(),
                Err(e) => self.phrase_table() == Err::<TableView<LeafView>, FbtError>(e),
            },
    {
        if !self.is_valid() {
            return Err(FbtError::GenderAndNumber);
        }
        let args = self.get_args_for_string_variation_calc();
        let ghost av = self.args();
        let mut i: usize = 0;
        while i < args.len()
            invariant
                sources_view(args@) == av,
                av == self.args(),
                self.valid(),
                i <= args@.len(),
                forall|j: int| 0 <= j < i ==> (#[trigger] av[j]).candidates.len() != 0,
            decreases args@.len() - i,
        {
            assert(av[i as int] == args@[i as int]@);
            if args[i].candidate_values.len() == 0 {
                assert(self.args()[i as int].candidates.len() == 0);
                return Err(FbtError::EmptyCandidates);
            }
            i = i + 1;
        }
        let n_args = args.len();
        let builder = JSFbtBuilder::new(args);
        let combos = builder.get_string_variation_combinations();
        let ghost cv = combos_view(combos@);
        assert(cv == all_combinations(av));
        proof {
            crate::jsfbt_builder::lemma_combos_from_len(av, 0, Seq::empty(), Seq::empty());
        }
        if n_args == 0 {
            assert(cv == seq![Seq::<ComboView>::empty()]);
            assert(combos@[0]@.map_values(|c: Combo| c@) == cv[0]);
            let leaf = self.make_leaf(&combos[0]);
            let t = TableJSFBTTree::Leaf(leaf);
            assert(t.model().map(leaf_views()) == TableView::Leaf(leaf@));
            return Ok(t);
        }
        let mut table: TableJSFBTTree<TableJSFBTTreeLeaf> = TableJSFBTTree::new_branch();
        assert(TableView::<TableJSFBTTreeLeaf>::map_children(Seq::empty(), leaf_views()) =~= Seq::<
            (Seq<char>, TableView<LeafView>),
        >::empty());
        assert(cv.subrange(0, 0) =~= Seq::<Seq<ComboView>>::empty());
        let mut k: usize = 0;
        while k < combos.len()
            invariant
                cv == combos_view(combos@),
                cv == all_combinations(av),
                av == self.args(),
                self.valid(),
                av.len() > 0,
                forall|j: int| 0 <= j < av.len() ==> (#[trigger] av[j]).candidates.len() != 0,
                forall|j: int| 0 <= j < cv.len() ==> (#[trigger] cv[j]).len() == av.len(),
                k <= combos@.len(),
                table.model().wf(),
                self.table_from(cv.subrange(0, k as int)) == Some(table.model().map(leaf_views())),
            decreases combos@.len() - k,
        {
            let combo = &combos[k];
            assert(combo@.map_values(|c: Combo| c@) == cv[k as int]);
            assert(cv[k as int].len() == av.len());
            let keys = key_path_of(combo);
            let ghost path = keys_view(keys@);
            let ghost before = table.model();
            assert(cv.subrange(0, k + 1).drop_last() =~= cv.subrange(0, k as int));
            assert(cv.subrange(0, k + 1).last() == cv[k as int]);
            proof {
                crate::jsfbt::lemma_can_insert_map(before, path, leaf_views());
            }
            if !table.can_add_leave(&keys) {
                proof {
                    assert(self.table_from(cv.subrange(0, k + 1)) is None);
                    lemma_table_from_none(*self, cv, k + 1);
                }
                return Err(FbtError::DuplicatePath);
            }
            let leaf = self.make_leaf(combo);
            let ghost lv = leaf;
            table.add_leave(keys, leaf);
            proof {
                crate::jsfbt::lemma_insert_map(before, path, lv, leaf_views());
            }
            k = k + 1;
        }
        assert(cv.subrange(0, cv.len() as int) =~= cv);
        Ok(table)
    }
}

/// The keys of the values of a combination, in order.
pub fn key_path_of(combo: &Vec<Combo>) -> (r: Vec<String>)
    ensures
        keys_view(r@) == key_path(combo@.map_values(|c: Combo| c@)),
{
    let mut r: Vec<String> = Vec::new();
    let mut i: usize = 0;
    while i < combo.len()
        invariant
            i <= combo@.len(),
            keys_view(r@) == key_path(combo@.subrange(0, i as int).map_values(|c: Combo| c@)),
        decreases combo@.len() - i,
    {
        let ghost prev = r@;
        r.push(combo[i].value.to_string());
        assert(keys_view(r@) =~= keys_view(prev).push(combo@[i as int]@.value.key()));
        assert(keys_view(r@) =~= key_path(combo@.subrange(0, i + 1).map_values(|c: Combo| c@)));
        i = i + 1;
    }
    assert(combo@.subrange(0, combo@.len() as int) =~= combo@);
    r
}

} // verus!
