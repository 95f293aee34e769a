use vstd::prelude::*;

use crate::util::{seq_lt, str_equal, str_less};

verus! {

/// Per-source metadata of a phrase table.
#[derive(Debug)]
pub enum JSFbtMetaEntry {
    Number { token: Option<String> },
    Gender { token: Option<String> },
    Prounoun,
    Unknown { range: Vec<String> },
}

/// A phrase table with its per-source metadata.
#[derive(Debug)]
pub struct TableJSFbt {
    pub m: Vec<Option<JSFbtMetaEntry>>,
    pub t: TableJSFBTTree<TableJSFBTTreeLeaf>,
}

/// One rendering of a phrase.
#[derive(Clone, Debug)]
pub struct TableJSFBTTreeLeaf {
    pub desc: String,
    pub hash: Option<String>,
    pub outer_token_name: Option<String>,
    pub text: String,
    /// Clear token name to mangled token name, one pair per clear name, in
    /// the order in which they are hashed.
    pub token_aliases: Option<Vec<(String, String)>>,
}

/// A leaf as a mathematical value.
pub ghost struct LeafView {
    pub desc: Seq<char>,
    pub hash: Option<Seq<char>>,
    pub outer_token_name: Option<Seq<char>>,
    pub text: Seq<char>,
    pub token_aliases: Option<Seq<(Seq<char>, Seq<char>)>>,
}

pub open spec fn opt_view(o: Option<String>) -> Option<Seq<char>> {
    match o {
        Some(s) => Some(s@),
        None => None,
    }
}

pub open spec fn pairs_view(v: Seq<(String, String)>) -> Seq<(Seq<char>, Seq<char>)> {
    v.map_values(|p: (String, String)| (p.0@, p.1@))
}

impl View for TableJSFBTTreeLeaf {
    type V = LeafView;

    open spec fn view(&self) -> LeafView {
        LeafView {
            desc: self.desc@,
            hash: opt_view(self.hash),
            outer_token_name: opt_view(self.outer_token_name),
            text: self.text@,
            token_aliases: match self.token_aliases {
                Some(v) => Some(pairs_view(v@)),
                None => None,
            },
        }
    }
}

impl Default for TableJSFBTTreeLeaf {
    fn default() -> (r: Self)
        ensures
            r@ == (LeafView {
                desc: Seq::empty(),
                hash: None,
                outer_token_name: None,
                text: Seq::empty(),
                token_aliases: None,
            }),
    {
        TableJSFBTTreeLeaf {
            desc: String::new(),
            hash: None,
            outer_token_name: None,
            text: String::new(),
            token_aliases: None,
        }
    }
}

impl From<TableJSFBTTreeLeaf> for TableJSFBTTree<TableJSFBTTreeLeaf> {
    fn from(leaf: TableJSFBTTreeLeaf) -> (r: Self)
        ensures
            r == TableJSFBTTree::Leaf(leaf),
    {
        TableJSFBTTree::Leaf(leaf)
    }
}

impl vstd::std_specs::convert::FromSpecImpl<TableJSFBTTreeLeaf> for TableJSFBTTree<TableJSFBTTreeLeaf> {
    open spec fn obeys_from_spec() -> bool {
        true
    }

    open spec fn from_spec(v: TableJSFBTTreeLeaf) -> Self {
        TableJSFBTTree::Leaf(v)
    }
}

/// A variation table as a mathematical value: a leaf, or a branch mapping
/// keys to subtables, listed in key order.
pub ghost enum TableView<L> {
    Leaf(L),
    Branch(Seq<(Seq<char>, TableView<L>)>),
}

/// Keys of a branch, each strictly before the next.
pub open spec fn keys_sorted<L>(ch: Seq<(Seq<char>, TableView<L>)>) -> bool {
    forall|i: int| 0 <= i < ch.len() - 1 ==> seq_lt(#[trigger] ch[i].0, ch[i + 1].0)
}

/// The table with a single chain of branches along `path` down to `leaf`.
pub open spec fn chain<L>(path: Seq<Seq<char>>, leaf: L) -> TableView<L>
    decreases path.len(),
{
    if path.len() == 0 {
        TableView::Leaf(leaf)
    } else {
        TableView::Branch(seq![(path[0], chain(path.drop_first(), leaf))])
    }
}

/// Position at which key `k` stands, or would be inserted, in a branch
/// whose entries from `j` on are searched.
pub open spec fn key_position<L>(ch: Seq<(Seq<char>, TableView<L>)>, k: Seq<char>, j: int) -> int
    decreases ch.len() - j,
{
    if j < 0 || j >= ch.len() {
        ch.len() as int
    } else if seq_lt(ch[j].0, k) {
        key_position(ch, k, j + 1)
    } else {
        j
    }
}

impl<L> TableView<L> {
    /// Every branch has its keys in strictly increasing order.
    pub open spec fn wf(self) -> bool
        decreases self,
    {
        match self {
            TableView::Leaf(_) => true,
            TableView::Branch(ch) => keys_sorted(ch) && forall|i: int|
                0 <= i < ch.len() ==> (#[trigger] ch[i]).1.wf(),
        }
    }

    /// The leaves, left to right.
    pub open spec fn leaves(self) -> Seq<L>
        decreases self,
    {
        match self {
            TableView::Leaf(l) => seq![l],
            TableView::Branch(ch) => Self::leaves_parts(ch).flatten(),
        }
    }

    /// The leaves of each entry of a branch.
    pub open spec fn leaves_parts(ch: Seq<(Seq<char>, TableView<L>)>) -> Seq<Seq<L>>
        decreases ch,
    {
        Seq::new(
            ch.len(),
            |i: int|
                if 0 <= i < ch.len() {
                    ch[i].1.leaves()
                } else {
                    Seq::empty()
                },
        )
    }

    /// Whether a leaf can be filed under `path`: the path is not empty, it
    /// runs through branches only, and its last key is free.
    pub open spec fn can_insert(self, path: Seq<Seq<char>>) -> bool
        decreases path.len(),
    {
        match self {
            TableView::Leaf(_) => false,
            TableView::Branch(ch) => {
                if path.len() == 0 {
                    false
                } else {
                    let p = key_position(ch, path[0], 0);
                    if p < ch.len() && ch[p].0 == path[0] {
                        path.len() > 1 && ch[p].1.can_insert(path.drop_first())
                    } else {
                        true
                    }
                }
            },
        }
    }

    /// The table with `leaf` filed under `path`; missing branches are
    /// created in key order.
    pub open spec fn insert(self, path: Seq<Seq<char>>, leaf: L) -> TableView<L>
        decreases path.len(),
    {
        match self {
            TableView::Leaf(_) => self,
            TableView::Branch(ch) => {
                if path.len() == 0 {
                    self
                } else {
                    let k = path[0];
                    let p = key_position(ch, k, 0);
                    if p < ch.len() && ch[p].0 == k {
                        TableView::Branch(ch.update(p, (k, ch[p].1.insert(path.drop_first(), leaf))))
                    } else {
                        TableView::Branch(ch.insert(p, (k, chain(path.drop_first(), leaf))))
                    }
                }
            },
        }
    }

    /// `self` and `other` have the same keys in the same places, and each
    /// leaf of `other` is related by `rel` to the leaf of `self` in its place.
    pub open spec fn corresponds<O>(self, other: TableView<O>, rel: spec_fn(L, O) -> bool) -> bool
        decreases self,
    {
        match (self, other) {
            (TableView::Leaf(a), TableView::Leaf(b)) => rel(a, b),
            (TableView::Branch(c1), TableView::Branch(c2)) => c1.len() == c2.len() && forall|i: int|
                0 <= i < c1.len() ==> (#[trigger] c1[i]).0 == c2[i].0 && c1[i].1.corresponds(
                    c2[i].1,
                    rel,
                ),
            _ => false,
        }
    }

    /// The table with `f` applied to every leaf.
    pub open spec fn map<O>(self, f: spec_fn(L) -> O) -> TableView<O>
        decreases self,
    {
        match self {
            TableView::Leaf(l) => TableView::Leaf(f(l)),
            TableView::Branch(ch) => TableView::Branch(Self::map_children(ch, f)),
        }
    }

    /// The entries of a branch with `f` applied to every leaf.
    pub open spec fn map_children<O>(ch: Seq<(Seq<char>, TableView<L>)>, f: spec_fn(L) -> O) -> Seq<
        (Seq<char>, TableView<O>),
    >
        decreases ch,
    {
        Seq::new(
            ch.len(),
            |i: int|
                (
                    ch[i].0,
                    if 0 <= i < ch.len() {
                        ch[i].1.map(f)
                    } else {
                        TableView::Branch(Seq::empty())
                    },
                ),
        )
    }
}

/// The key path that a list of keys spells.
pub open spec fn keys_view(keys: Seq<String>) -> Seq<Seq<char>> {
    keys.map_values(|k: String| k@)
}

pub proof fn lemma_chain_wf<L>(path: Seq<Seq<char>>, leaf: L)
    ensures
        chain(path, leaf).wf(),
    decreases path.len(),
{
    if path.len() > 0 {
        lemma_chain_wf(path.drop_first(), leaf);
        let ch = seq![(path[0], chain(path.drop_first(), leaf))];
        assert(ch[0].1.wf());
    }
}

/// Relates a leaf to what `f` may return for it.
pub open spec fn converts_by<L, O, F: Fn(L) -> O>(f: &F) -> spec_fn(L, O) -> bool {
    |a: L, b: O| f.ensures((a,), b)
}

pub proof fn lemma_key_position_bounds<L>(ch: Seq<(Seq<char>, TableView<L>)>, k: Seq<char>, j: int)
    requires
        0 <= j,
    ensures
        0 <= key_position(ch, k, j) <= ch.len(),
        j <= ch.len() ==> j <= key_position(ch, k, j),
    decreases ch.len() - j,
{
    if j < ch.len() {
        lemma_key_position_bounds(ch, k, j + 1);
    }
}

proof fn lemma_key_position_map<L, O>(
    ch: Seq<(Seq<char>, TableView<L>)>,
    f: spec_fn(L) -> O,
    k: Seq<char>,
    j: int,
)
    requires
        0 <= j,
    ensures
        key_position(TableView::map_children(ch, f), k, j) == key_position(ch, k, j),
    decreases ch.len() - j,
{
    if j < ch.len() {
        lemma_key_position_map(ch, f, k, j + 1);
    }
}

pub proof fn lemma_chain_map<L, O>(path: Seq<Seq<char>>, leaf: L, f: spec_fn(L) -> O)
    ensures
        chain(path, leaf).map(f) == chain(path, f(leaf)),
    decreases path.len(),
{
    if path.len() > 0 {
        lemma_chain_map(path.drop_first(), leaf, f);
        let ch = seq![(path[0], chain(path.drop_first(), leaf))];
        assert(TableView::map_children(ch, f) =~= seq![(path[0], chain(path.drop_first(), f(leaf)))]);
    }
}

/// Mapping the leaves keeps the paths at which a leaf can be filed.
pub proof fn lemma_can_insert_map<L, O>(t: TableView<L>, path: Seq<Seq<char>>, f: spec_fn(L) -> O)
    ensures
        t.map(f).can_insert(path) == t.can_insert(path),
    decreases path.len(),
{
    if let TableView::Branch(ch) = t {
        if path.len() > 0 {
            lemma_key_position_map(ch, f, path[0], 0);
            lemma_key_position_bounds(ch, path[0], 0);
            let p = key_position(ch, path[0], 0);
            if p < ch.len() && ch[p].0 == path[0] && path.len() > 1 {
                lemma_can_insert_map(ch[p].1, path.drop_first(), f);
            }
        }
    }
}

/// Filing a leaf and then mapping the leaves is mapping and then filing the
/// mapped leaf.
pub proof fn lemma_insert_map<L, O>(t: TableView<L>, path: Seq<Seq<char>>, leaf: L, f: spec_fn(L) -> O)
    ensures
        t.insert(path, leaf).map(f) == t.map(f).insert(path, f(leaf)),
    decreases path.len(),
{
    if let TableView::Branch(ch) = t {
        if path.len() > 0 {
            let k = path[0];
            lemma_key_position_map(ch, f, k, 0);
            lemma_key_position_bounds(ch, k, 0);
            let p = key_position(ch, k, 0);
            let mch = TableView::map_children(ch, f);
            if p < ch.len() && ch[p].0 == k {
                lemma_insert_map(ch[p].1, path.drop_first(), leaf, f);
                let nch = ch.update(p, (k, ch[p].1.insert(path.drop_first(), leaf)));
                assert(TableView::map_children(nch, f) =~= mch.update(
                    p,
                    (k, mch[p].1.insert(path.drop_first(), f(leaf))),
                ));
            } else {
                lemma_chain_map(path.drop_first(), leaf, f);
                let nch = ch.insert(p, (k, chain(path.drop_first(), leaf)));
                assert(TableView::map_children(nch, f) =~= mch.insert(
                    p,
                    (k, chain(path.drop_first(), f(leaf))),
                ));
            }
        }
    }
}

proof fn lemma_flatten_map<A, B>(s: Seq<Seq<A>>, f: spec_fn(A) -> B)
    ensures
        s.map_values(|x: Seq<A>| x.map_values(f)).flatten() == s.flatten().map_values(f),
    decreases s.len(),
{
    if s.len() > 0 {
        lemma_flatten_map(s.drop_first(), f);
        assert(s.map_values(|x: Seq<A>| x.map_values(f)).drop_first() =~= s.drop_first().map_values(
            |x: Seq<A>| x.map_values(f),
        ));
        assert((s.first() + s.drop_first().flatten()).map_values(f) =~= s.first().map_values(f)
            + s.drop_first().flatten().map_values(f));
    }
}

/// The leaves of a mapped table are the mapped leaves.
pub proof fn lemma_leaves_map<L, O>(t: TableView<L>, f: spec_fn(L) -> O)
    ensures
        t.map(f).leaves() == t.leaves().map_values(f),
    decreases t,
{
    match t {
        TableView::Leaf(l) => {
            assert(seq![l].map_values(f) =~= seq![f(l)]);
        },
        TableView::Branch(ch) => {
            let mch = TableView::map_children(ch, f);
            let parts = TableView::leaves_parts(ch);
            assert forall|i: int| 0 <= i < ch.len() implies TableView::leaves_parts(mch)[i]
                == parts[i].map_values(f) by {
                assert(decreases_to!(t => ch[i].1)) by {
                    assert(decreases_to!(t => t->Branch_0));
                    assert(decreases_to!(ch => ch[i]));
                    assert(decreases_to!(ch[i] => ch[i].1));
                }
                lemma_leaves_map(ch[i].1, f);
            }
            assert(TableView::leaves_parts(mch) =~= parts.map_values(|x: Seq<L>| x.map_values(f)));
            lemma_flatten_map(parts, f);
        },
    }
}

/// A correspondence under a relation holds under any weaker relation.
pub proof fn lemma_corresponds_weaken<L, O>(
    a: TableView<L>,
    b: TableView<O>,
    r1: spec_fn(L, O) -> bool,
    r2: spec_fn(L, O) -> bool,
)
    requires
        a.corresponds(b, r1),
        forall|x: L, y: O| #[trigger] r1(x, y) ==> r2(x, y),
    ensures
        a.corresponds(b, r2),
    decreases a,
{
    if let (TableView::Branch(c1), TableView::Branch(c2)) = (a, b) {
        assert forall|i: int| 0 <= i < c1.len() implies (#[trigger] c1[i]).0 == c2[i].0
            && c1[i].1.corresponds(c2[i].1, r2) by {
            assert(decreases_to!(a => c1[i].1)) by {
                assert(decreases_to!(a => a->Branch_0));
                assert(decreases_to!(c1 => c1[i]));
                assert(decreases_to!(c1[i] => c1[i].1));
            }
            lemma_corresponds_weaken(c1[i].1, c2[i].1, r1, r2);
        }
    }
}

/// The values behind a sequence of references.
pub open spec fn derefs<L>(s: Seq<&L>) -> Seq<L> {
    s.map_values(|r: &L| *r)
}

/// A variation table: a leaf, or a branch mapping keys to subtables, kept
/// in strictly increasing key order.
#[derive(Debug)]
pub enum TableJSFBTTree<L> {
    Leaf(L),
    Branch(Vec<(String, TableJSFBTTree<L>)>),
}

impl<L> TableJSFBTTree<L> {
    pub open spec fn model(self) -> TableView<L>
        decreases self,
    {
        match self {
            TableJSFBTTree::Leaf(l) => TableView::Leaf(l),
            TableJSFBTTree::Branch(ch) => TableView::Branch(Self::children_model(ch@)),
        }
    }

    /// The entries of a branch as mathematical values.
    pub open spec fn children_model(ch: Seq<(String, TableJSFBTTree<L>)>) -> Seq<(Seq<char>, TableView<L>)>
        decreases ch,
    {
        Seq::new(
            ch.len(),
            |i: int|
                (
                    ch[i].0@,
                    if 0 <= i < ch.len() {
                        ch[i].1.model()
                    } else {
                        TableView::Branch(Seq::empty())
                    },
                ),
        )
    }

    /// An empty branch.
    pub fn new_branch() -> (r: Self)
        ensures
            r.model() == TableView::<L>::Branch(Seq::empty()),
    {
        let r = TableJSFBTTree::Branch(Vec::new());
        assert(Self::children_model(Seq::empty()) =~= Seq::<(Seq<char>, TableView<L>)>::empty());
        r
    }

    /// The entries of a branch, for modification.
    pub fn expect_branch_mut(&mut self) -> (r: &mut Vec<(String, Self)>)
        requires
            (*old(self)) is Branch,
        ensures
            *old(self) == TableJSFBTTree::Branch(*r),
            *final(self) == TableJSFBTTree::Branch(*final(r)),
    {
        match self {
            TableJSFBTTree::Branch(branch) => branch,
            TableJSFBTTree::Leaf(_) => vstd::pervasive::unreached(),
        }
    }

    /// Files `leaf` under the key path `keys`, creating missing branches in
    /// key order. The path must end at a free key of a branch.
    pub fn add_leave(&mut self, keys: Vec<String>, leaf: L)
        requires
            old(self).model().wf(),
            old(self).model().can_insert(keys_view(keys@)),
        ensures
            final(self).model() == old(self).model().insert(keys_view(keys@), leaf),
            final(self).model().wf(),
    {
        assert(keys_view(keys@).skip(0) =~= keys_view(keys@));
        self.add_leaf_from(&keys, 0, leaf);
    }

    fn add_leaf_from(&mut self, keys: &Vec<String>, from: usize, leaf: L)
        requires
            from < keys@.len(),
            old(self).model().wf(),
            old(self).model().can_insert(keys_view(keys@).skip(from as int)),
        ensures
            final(self).model() == old(self).model().insert(keys_view(keys@).skip(from as int), leaf),
            final(self).model().wf(),
        decreases keys@.len() - from,
    {
        let ghost path = keys_view(keys@).skip(from as int);
        let ghost old_model = self.model();
        let ghost ch = old_model->Branch_0;
        let key = &keys[from];
        let n = keys.len();
        assert(path[0] == key@);
        assert(path.drop_first() =~= keys_view(keys@).skip(from + 1));
        let branch = self.expect_branch_mut();
        assert(ch == Self::children_model(branch@));
        let mut p: usize = 0;
        while p < branch.len() && str_less(branch[p].0.as_str(), key.as_str())
            invariant
                p <= branch@.len(),
                ch == Self::children_model(branch@),
                key_position(ch, key@, 0) == key_position(ch, key@, p as int),
                forall|i: int| 0 <= i < p ==> seq_lt(#[trigger] ch[i].0, key@),
            decreases branch@.len() - p,
        {
            p = p + 1;
        }
        assert(key_position(ch, key@, 0) == p);
        if p < branch.len() && str_equal(branch[p].0.as_str(), key.as_str()) {
            let (k, mut sub) = branch.remove(p);
            assert(ch[p as int].1 == sub.model());
            assert(old_model.wf());
            assert(sub.model().wf());
            sub.add_leaf_from(keys, from + 1, leaf);
            let ghost sub_model = sub.model();
            branch.insert(p, (k, sub));
            proof {
                assert(Self::children_model(branch@) =~= ch.update(p as int, (key@, sub_model)));
                let nch = ch.update(p as int, (key@, sub_model));
                assert forall|i: int| 0 <= i < nch.len() implies (#[trigger] nch[i]).1.wf() by {
                    if i != p {
                        assert(nch[i] == ch[i]);
                    }
                }
                assert(keys_sorted(nch)) by {
                    assert forall|i: int| 0 <= i < nch.len() - 1 implies seq_lt(#[trigger] nch[i].0, nch[i + 1].0) by {
                        assert(nch[i].0 == ch[i].0);
                        assert(nch[i + 1].0 == ch[i + 1].0);
                    }
                }
            }
        } else {
            let ghost k = key@;
            let sub = Self::chain_from(keys, from + 1, leaf);
            let ghost sub_model = sub.model();
            branch.insert(p, (key.clone(), sub));
            proof {
                assert(Self::children_model(branch@) =~= ch.insert(p as int, (k, sub_model)));
                let nch = ch.insert(p as int, (k, sub_model));
                lemma_chain_wf(path.drop_first(), leaf);
                assert forall|i: int| 0 <= i < nch.len() implies (#[trigger] nch[i]).1.wf() by {
                    if i < p {
                        assert(nch[i] == ch[i]);
                    } else if i > p {
                        assert(nch[i] == ch[i - 1]);
                    }
                }
                if p < ch.len() {
                    assert(ch[p as int].0 != k);
                    crate::util::lemma_seq_lt_total(ch[p as int].0, k);
                    assert(seq_lt(k, ch[p as int].0));
                }
                assert(keys_sorted(nch)) by {
                    assert forall|i: int| 0 <= i < nch.len() - 1 implies seq_lt(#[trigger] nch[i].0, nch[i + 1].0) by {
                        if i + 1 < p {
                            assert(nch[i] == ch[i] && nch[i + 1] == ch[i + 1]);
                        } else if i + 1 == p {
                            assert(nch[i] == ch[i]);
                        } else if i == p {
                            assert(nch[i + 1] == ch[i]);
                        } else {
                            assert(nch[i] == ch[i - 1] && nch[i + 1] == ch[i]);
                        }
                    }
                }
            }
        }
    }

    /// Whether a leaf can be filed under `keys`: see `TableView::can_insert`.
    pub fn can_add_leave(&self, keys: &Vec<String>) -> (r: bool)
        ensures
            r == self.model().can_insert(keys_view(keys@)),
    {
        assert(keys_view(keys@).skip(0) =~= keys_view(keys@));
        self.can_add_from(keys, 0)
    }

    fn can_add_from(&self, keys: &Vec<String>, from: usize) -> (r: bool)
        requires
            from <= keys@.len(),
        ensures
            r == self.model().can_insert(keys_view(keys@).skip(from as int)),
        decreases keys@.len() - from,
    {
        let ghost path = keys_view(keys@).skip(from as int);
        let n = keys.len();
        match self {
            TableJSFBTTree::Leaf(_) => false,
            TableJSFBTTree::Branch(branch) => {
                if from == n {
                    return false;
                }
                let ghost ch = self.model()->Branch_0;
                let key = &keys[from];
                assert(path[0] == key@);
                assert(path.drop_first() =~= keys_view(keys@).skip(from + 1));
                let mut p: usize = 0;
                while p < branch.len() && str_less(branch[p].0.as_str(), key.as_str())
                    invariant
                        p <= branch@.len(),
                        ch == Self::children_model(branch@),
                        key_position(ch, key@, 0) == key_position(ch, key@, p as int),
                    decreases branch@.len() - p,
                {
                    p = p + 1;
                }
                assert(key_position(ch, key@, 0) == p);
                if p < branch.len() && str_equal(branch[p].0.as_str(), key.as_str()) {
                    if from + 1 == n {
                        false
                    } else {
                        assert(ch[p as int].1 == branch@[p as int].1.model());
                        branch[p].1.can_add_from(keys, from + 1)
                    }
                } else {
                    true
                }
            },
        }
    }

    fn chain_from(keys: &Vec<String>, from: usize, leaf: L) -> (r: Self)
        requires
            from <= keys@.len(),
        ensures
            r.model() == chain(keys_view(keys@).skip(from as int), leaf),
        decreases keys@.len() - from,
    {
        let ghost path = keys_view(keys@).skip(from as int);
        let n = keys.len();
        if from == n {
            assert(path.len() == 0);
            TableJSFBTTree::Leaf(leaf)
        } else {
            let sub = Self::chain_from(keys, from + 1, leaf);
            let mut v: Vec<(String, TableJSFBTTree<L>)> = Vec::new();
            v.push((keys[from].clone(), sub));
            assert(path.drop_first() =~= keys_view(keys@).skip(from + 1));
            assert(Self::children_model(v@) =~= seq![(path[0], chain(path.drop_first(), leaf))]);
            TableJSFBTTree::Branch(v)
        }
    }

    /// The table with `convert_leaf` applied to every leaf; keys and shape
    /// are kept.
    pub fn map_leaves<O, F: Fn(L) -> O>(self, convert_leaf: &F) -> (r: TableJSFBTTree<O>)
        requires
            forall|l: L| convert_leaf.requires((l,)),
        ensures
            self.model().corresponds(r.model(), converts_by(convert_leaf)),
        decreases self,
    {
        let ghost rel = converts_by(convert_leaf);
        let ghost orig = self;
        match self {
            TableJSFBTTree::Leaf(leaf) => TableJSFBTTree::Leaf(convert_leaf(leaf)),
            TableJSFBTTree::Branch(children) => {
                let ghost ochildren = children@;
                let mut rest = children;
                let total = rest.len();
                let mut out: Vec<(String, TableJSFBTTree<O>)> = Vec::new();
                let mut j: usize = 0;
                while rest.len() > 0
                    invariant
                        orig == TableJSFBTTree::Branch(children),
                        orig == self,
                        rel == converts_by(convert_leaf),
                        ochildren == children@,
                        total == ochildren.len(),
                        forall|l: L| convert_leaf.requires((l,)),
                        j + rest@.len() == ochildren.len(),
                        rest@ == ochildren.skip(j as int),
                        out@.len() == j,
                        forall|i: int| 0 <= i < j ==> (#[trigger] out@[i]).0@ == ochildren[i].0@
                            && ochildren[i].1.model().corresponds(out@[i].1.model(), rel),
                    decreases rest@.len(),
                {
                    let (k, v) = rest.remove(0);
                    proof {
                        assert(v == ochildren[j as int].1);
                        assert(decreases_to!(orig => ochildren[j as int].1)) by {
                            broadcast use vstd::std_specs::vec::axiom_vec_decreases_to_view,
                                vstd::seq::axiom_seq_index_decreases;
                            let c = orig->Branch_0;
                            assert(decreases_to!(orig => orig->Branch_0));
                            assert(decreases_to!(c => c@));
                            assert(decreases_to!(c@ => c@[j as int]));
                            assert(decreases_to!(c@[j as int] => c@[j as int].1));
                        }
                        assert(rest@ =~= ochildren.skip(j + 1));
                    }
                    assert(k == ochildren[j as int].0);
                    let mapped = v.map_leaves(convert_leaf);
                    let ghost prev = out@;
                    out.push((k, mapped));
                    proof {
                        assert(out@[j as int] == (k, mapped));
                        assert(ochildren[j as int].1.model().corresponds(mapped.model(), rel));
                        assert forall|i: int| 0 <= i < j + 1 implies (#[trigger] out@[i]).0@ == ochildren[i].0@
                            && ochildren[i].1.model().corresponds(out@[i].1.model(), rel) by {
                            if i < j {
                                assert(out@[i] == prev[i]);
                            }
                        }
                    }
                    j = j + 1;
                }
                let r = TableJSFBTTree::Branch(out);
                proof {
                    let c1 = orig.model()->Branch_0;
                    let c2 = r.model()->Branch_0;
                    assert forall|i: int| 0 <= i < c1.len() implies (#[trigger] c1[i]).0 == c2[i].0
                        && c1[i].1.corresponds(c2[i].1, rel) by {
                        assert(c1[i] == (ochildren[i].0@, ochildren[i].1.model()));
                        assert(c2[i] == (out@[i].0@, out@[i].1.model()));
                    }
                }
                r
            },
        }
    }

    /// Collects references to the leaves, left to right, after the ones
    /// already in `out`.
    pub fn on_each_leaf<'a>(&'a self, out: &mut Vec<&'a L>)
        ensures
            derefs(final(out)@) == derefs(old(out)@) + self.model().leaves(),
        decreases self,
    {
        match self {
            TableJSFBTTree::Leaf(leaf) => {
                let ghost before = out@;
                out.push(leaf);
                assert(self.model() == TableView::Leaf(*leaf));
                assert(self.model().leaves() == seq![*leaf]);
                assert(out@ == before.push(leaf));
                assert(before == old(out)@);
                assert(derefs(out@) =~= derefs(before) + seq![*leaf]);
            },
            TableJSFBTTree::Branch(children) => {
                let ghost parts = Seq::new(
                    children@.len(),
                    |i: int|
                        if 0 <= i < children@.len() {
                            children@[i].1.model().leaves()
                        } else {
                            Seq::empty()
                        },
                );
                let mut j: usize = 0;
                assert(parts.subrange(0, 0).flatten() =~= Seq::<L>::empty());
                assert(derefs(out@) =~= derefs(old(out)@) + Seq::<L>::empty());
                while j < children.len()
                    invariant
                        j <= children@.len(),
                        *self == TableJSFBTTree::Branch(*children),
                        parts.len() == children@.len(),
                        forall|i: int| 0 <= i < children@.len() ==> parts[i] == (#[trigger] children@[i]).1.model().leaves(),
                        derefs(out@) == derefs(old(out)@) + parts.subrange(0, j as int).flatten(),
                    decreases children@.len() - j,
                {
                    proof {
                        assert(decreases_to!(*self => children@[j as int].1)) by {
                            broadcast use vstd::std_specs::vec::axiom_vec_decreases_to_view,
                                vstd::seq::axiom_seq_index_decreases;
                            let v = (*self)->Branch_0;
                            assert(decreases_to!(*self => (*self)->Branch_0));
                            assert(decreases_to!(v => v@));
                            assert(decreases_to!(v@ => v@[j as int]));
                            assert(decreases_to!(v@[j as int] => v@[j as int].1));
                        }
                    }
                    children[j].1.on_each_leaf(out);
                    proof {
                        assert(parts.subrange(0, j + 1) =~= parts.subrange(0, j as int).push(parts[j as int]));
                        parts.subrange(0, j as int).lemma_flatten_push(parts[j as int]);
                    }
                    j = j + 1;
                }
                assert(parts.subrange(0, children@.len() as int) =~= parts);
                proof {
                    assert(self.model() is Branch);
                    let ch = self.model()->Branch_0;
                    assert(TableView::leaves_parts(ch) =~= parts);
                    assert(self.model().leaves() == parts.flatten());
                }
                assert(derefs(out@) == derefs(old(out)@) + self.model().leaves());
            },
        }
    }
}

} // verus!
