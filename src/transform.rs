use vstd::prelude::*;

use crate::element::{leaf_views, FbtElementNode, FbtError};
use crate::hash::{base_digits, fbt_hash_key, table_hash};
use crate::jsfbt::{pairs_view, LeafView, TableJSFBTTree, TableJSFBTTreeLeaf, TableJSFbt, TableView};
use crate::jsfbt_builder::{distinct_product, JSFbtBuilder};
use crate::util::{chars_of, token_name_to_text_pattern, token_pattern};

verus! {

/// Index of the first alias, from `j` on, whose clear placeholder `{name}`
/// starts `t`.
pub open spec fn alias_at(t: Seq<char>, al: Seq<(Seq<char>, Seq<char>)>, j: int) -> Option<int>
    decreases al.len() - j,
{
    if j < 0 || j >= al.len() {
        None
    } else if token_pattern(al[j].0).is_prefix_of(t) {
        Some(j)
    } else {
        alias_at(t, al, j + 1)
    }
}

proof fn lemma_alias_at(t: Seq<char>, al: Seq<(Seq<char>, Seq<char>)>, j: int)
    ensures
        match alias_at(t, al, j) {
            Some(f) => 0 <= f < al.len() && token_pattern(al[f].0).is_prefix_of(t),
            None => true,
        },
    decreases al.len() - j,
{
    if 0 <= j < al.len() && !token_pattern(al[j].0).is_prefix_of(t) {
        lemma_alias_at(t, al, j + 1);
    }
}

/// `t` with every clear placeholder `{clear}` replaced by `{mangled}` for
/// the pairs of `al`, scanning `t` once from the left: replacement text is
/// never scanned again, so substitutions do not chain.
pub open spec fn substitute(t: Seq<char>, al: Seq<(Seq<char>, Seq<char>)>) -> Seq<char>
    decreases t.len(),
{
    if t.len() == 0 {
        t
    } else {
        match alias_at(t, al, 0) {
            Some(j) => {
                let p = token_pattern(al[j].0);
                if 0 < p.len() <= t.len() {
                    token_pattern(al[j].1) + substitute(t.skip(p.len() as int), al)
                } else {
                    seq![t[0]] + substitute(t.drop_first(), al)
                }
            },
            None => seq![t[0]] + substitute(t.drop_first(), al),
        }
    }
}

/// The display text of a leaf's text under its optional aliases.
pub open spec fn display_text(t: Seq<char>, aliases: Option<Seq<(Seq<char>, Seq<char>)>>) -> Seq<char> {
    match aliases {
        Some(al) => substitute(t, al),
        None => t,
    }
}

pub open spec fn aliases_view(a: Option<Vec<(String, String)>>) -> Option<Seq<(Seq<char>, Seq<char>)>> {
    match a {
        Some(v) => Some(pairs_view(v@)),
        None => None,
    }
}

/// The display text of a leaf.
pub open spec fn leaf_display(l: LeafView) -> Seq<char> {
    display_text(l.text, l.token_aliases)
}

/// Whether `pat` occurs in `t` at position `i`.
fn occurs_at(t: &Vec<char>, i: usize, pat: &Vec<char>) -> (r: bool)
    requires
        i <= t@.len(),
    ensures
        r == pat@.is_prefix_of(t@.skip(i as int)),
{
    if pat.len() > t.len() - i {
        return false;
    }
    let n = t.len();
    let mut k: usize = 0;
    while k < pat.len()
        invariant
            n == t@.len(),
            i + pat@.len() <= t@.len(),
            k <= pat@.len(),
            forall|m: int| 0 <= m < k ==> pat@[m] == t@[i + m],
        decreases pat@.len() - k,
    {
        if pat[k] != t[i + k] {
            assert(t@.skip(i as int)[k as int] == t@[i + k]);
            return false;
        }
        k = k + 1;
    }
    assert forall|m: int| 0 <= m < pat@.len() implies pat@[m] == t@.skip(i as int)[m] by {
        assert(t@.skip(i as int)[m] == t@[i + m]);
    }
    true
}

/// Replaces every clear placeholder `{clear}` in `text` by its mangled
/// placeholder `{mangled}`, all against the original text (one pass).
pub fn replace_clear_tokens_with_token_aliases(
    text: &str,
    token_aliases: &Option<Vec<(String, String)>>,
) -> (r: String)
    ensures
        r@ == display_text(text@, aliases_view(*token_aliases)),
{
    let aliases = match token_aliases {
        None => {
            return text.to_string();
        },
        Some(a) => a,
    };
    let ghost al = pairs_view(aliases@);
    let ghost t = text@;
    let chars = chars_of(text);
    let mut out = String::new();
    let mut i: usize = 0;
    assert(t.skip(0) =~= t);
    while i < chars.len()
        invariant
            chars@ == t,
            al == pairs_view(aliases@),
            i <= t.len(),
            substitute(t, al) == out@ + substitute(t.skip(i as int), al),
        decreases t.len() - i,
    {
        let ghost rest = t.skip(i as int);
        let mut j: usize = 0;
        let mut found: Option<usize> = None;
        let mut found_len: usize = 0;
        while j < aliases.len() && found.is_none()
            invariant
                chars@ == t,
                al == pairs_view(aliases@),
                i < t.len(),
                rest == t.skip(i as int),
                j <= aliases@.len(),
                match found {
                    Some(f) => alias_at(rest, al, 0) == Some(f as int) && f < al.len()
                        && found_len == token_pattern(al[f as int].0).len(),
                    None => alias_at(rest, al, 0) == alias_at(rest, al, j as int),
                },
            decreases aliases@.len() - j,
        {
            let pattern = token_name_to_text_pattern(aliases[j].0.as_str());
            let pat = chars_of(pattern.as_str());
            assert(al[j as int].0 == aliases@[j as int].0@);
            if occurs_at(&chars, i, &pat) {
                found = Some(j);
                found_len = pat.len();
            }
            j = j + 1;
        }
        if found.is_none() {
            proof {
                assert(alias_at(rest, al, j as int) is None);
            }
        }
        match found {
            Some(f) => {
                let mangled = token_name_to_text_pattern(aliases[f].1.as_str());
                assert(al[f as int].1 == aliases@[f as int].1@);
                out.append(mangled.as_str());
                proof {
                    let p = token_pattern(al[f as int].0);
                    lemma_alias_at(rest, al, 0);
                    assert(p.is_prefix_of(rest));
                    assert(rest.skip(p.len() as int) =~= t.skip(i + found_len));
                }
                i = i + found_len;
            },
            None => {
                crate::hash::push_char(&mut out, chars[i]);
                assert(rest.drop_first() =~= t.skip(i + 1));
                i = i + 1;
            },
        }
    }
    assert(t.skip(t.len() as int) =~= Seq::<char>::empty());
    assert(out@ =~= substitute(t, al));
    out
}

/// The table of display texts: each leaf replaced by its text with its
/// aliases substituted.
pub fn display_table(table: TableJSFBTTree<TableJSFBTTreeLeaf>) -> (r: TableJSFBTTree<String>)
    ensures
        table.model().corresponds(
            r.model(),
            |l: TableJSFBTTreeLeaf, s: String| s@ == leaf_display(l@),
        ),
{
    let convert = |leaf: TableJSFBTTreeLeaf| -> (s: String)
        ensures
            s@ == leaf_display(leaf@),
        { replace_clear_tokens_with_token_aliases(leaf.text.as_str(), &leaf.token_aliases) };
    let ghost t = table;
    let r = table.map_leaves(&convert);
    proof {
        crate::jsfbt::lemma_corresponds_weaken(
            t.model(),
            r.model(),
            crate::jsfbt::converts_by(&convert),
            |l: TableJSFBTTreeLeaf, s: String| s@ == leaf_display(l@),
        );
    }
    r
}

/// A compiled phrase: its table, and the identifier of the table.
#[derive(Debug)]
pub struct CompiledPhrase {
    pub jsfbt: TableJSFbt,
    pub hash_key: String,
}

/// The outcome of compiling `e` with at most `max_combinations`
/// combinations (`u64::MAX` meaning no limit): the checks of `phrase_table`
/// in order, with the combination limit checked before any table is built,
/// and a table without leaves refused.
pub open spec fn compile_outcome(e: FbtElementNode, max_combinations: u64) -> Result<
    TableView<LeafView>,
    FbtError,
> {
    if !e.valid() {
        Err(FbtError::GenderAndNumber)
    } else if exists|i: int| 0 <= i < e.args().len() && (#[trigger] e.args()[i]).candidates.len() == 0 {
        Err(FbtError::EmptyCandidates)
    } else if max_combinations < u64::MAX && distinct_product(e.args()) > max_combinations {
        Err(FbtError::TooManyCombinations)
    } else {
        match e.phrase_table() {
            Ok(t) => if t.leaves().len() == 0 {
                Err(FbtError::EmptyTable)
            } else {
                Ok(t)
            },
            Err(err) => Err(err),
        }
    }
}

fn no_metadata(n: usize) -> (r: Vec<Option<crate::jsfbt::JSFbtMetaEntry>>)
    ensures
        r@.len() == n,
{
    let mut m: Vec<Option<crate::jsfbt::JSFbtMetaEntry>> = Vec::new();
    let mut k: usize = 0;
    while k < n
        invariant
            k <= n,
            m@.len() == k,
        decreases n - k,
    {
        m.push(None);
        k = k + 1;
    }
    m
}

/// What compiling `e` with the limit `max_combinations` may return: the
/// outcome of `compile_outcome`, with a well-formed table and the base-62
/// hash of that table.
pub open spec fn compile_result(
    e: FbtElementNode,
    max_combinations: u64,
    r: Result<CompiledPhrase, FbtError>,
) -> bool {
    match r {
        Ok(c) => {
            &&& compile_outcome(e, max_combinations) == Ok::<TableView<LeafView>, FbtError>(
                c.table_view(),
            )
            &&& c.jsfbt.t.model().wf()
            &&& c.hash_key@ == base_digits(table_hash(c.table_view()) as nat, 62)
            &&& c.jsfbt.m@.len() == e.args().len()
        },
        Err(err) => compile_outcome(e, max_combinations) == Err::<TableView<LeafView>, FbtError>(err),
    }
}

impl CompiledPhrase {
    /// The table as a mathematical value.
    pub open spec fn table_view(self) -> TableView<LeafView> {
        self.jsfbt.t.model().map(leaf_views())
    }
}

/// Compiling a phrase twice gives the same table and the same hash key, or
/// the same error.
pub proof fn lemma_compile_deterministic(
    e: FbtElementNode,
    max_combinations: u64,
    r1: Result<CompiledPhrase, FbtError>,
    r2: Result<CompiledPhrase, FbtError>,
)
    requires
        compile_result(e, max_combinations, r1),
        compile_result(e, max_combinations, r2),
    ensures
        match (r1, r2) {
            (Ok(a), Ok(b)) => a.table_view() == b.table_view() && a.hash_key@ == b.hash_key@,
            (Err(x), Err(y)) => x == y,
            _ => false,
        },
{
}

/// Compiles a phrase: checks it, builds its variation table, and computes
/// the table's identifier.
pub fn compile_phrase(element: &FbtElementNode, max_combinations: u64) -> (r: Result<
    CompiledPhrase,
    FbtError,
>)
    ensures
        compile_result(*element, max_combinations, r),
{
    if !element.is_valid() {
        return Err(FbtError::GenderAndNumber);
    }
    let args = element.get_args_for_string_variation_calc();
    let ghost av = element.args();
    let mut i: usize = 0;
    while i < args.len()
        invariant
            crate::jsfbt_builder::sources_view(args@) == av,
            av == element.args(),
            element.valid(),
            i <= args@.len(),
            forall|j: int| 0 <= j < i ==> (#[trigger] av[j]).candidates.len() != 0,
        decreases args@.len() - i,
    {
        assert(av[i as int] == args@[i as int]@);
        if args[i].candidate_values.len() == 0 {
            assert(element.args()[i as int].candidates.len() == 0);
            return Err(FbtError::EmptyCandidates);
        }
        i = i + 1;
    }
    let n_args = args.len();
    assert(n_args == av.len());
    let builder = JSFbtBuilder::new(args);
    let count = builder.combination_count();
    if max_combinations < u64::MAX && count > max_combinations {
        return Err(FbtError::TooManyCombinations);
    }
    assert(!(max_combinations < u64::MAX && distinct_product(av) > max_combinations));
    let mut table = match element.build_table() {
        Ok(t) => t,
        Err(e) => {
            return Err(e);
        },
    };
    let ghost tv = table.model().map(leaf_views());
    assert(element.phrase_table() == Ok::<TableView<LeafView>, FbtError>(tv));
    proof {
        crate::jsfbt::lemma_leaves_map(table.model(), leaf_views());
    }
    let mut leaves: Vec<&TableJSFBTTreeLeaf> = Vec::new();
    table.on_each_leaf(&mut leaves);
    assert(crate::jsfbt::derefs(leaves@).len() == leaves@.len());
    if leaves.len() == 0 {
        assert(tv.leaves().len() == 0);
        return Err(FbtError::EmptyTable);
    }
    assert(tv.leaves().len() > 0);
    let hash_key = fbt_hash_key(&mut table);
    let m = no_metadata(n_args);
    Ok(CompiledPhrase { jsfbt: TableJSFbt { m, t: table }, hash_key })
}

/// Whether `tag` names a phrase function: `fbt` or `fbs`.
pub fn is_known_tag(tag: &str) -> (r: bool)
    ensures
        r == (tag@ == seq!['f', 'b', 't'] || tag@ == seq!['f', 'b', 's']),
{
    proof {
        reveal_strlit("fbt");
        reveal_strlit("fbs");
    }
    assert("fbt"@ =~= seq!['f', 'b', 't']);
    assert("fbs"@ =~= seq!['f', 'b', 's']);
    crate::util::str_equal(tag, "fbt") || crate::util::str_equal(tag, "fbs")
}

/// Whether `tag` names a part that may stand inside a phrase: `list`.
pub fn is_known_child_tag(tag: &str) -> (r: bool)
    ensures
        r == (tag@ == seq!['l', 'i', 's', 't']),
{
    proof {
        reveal_strlit("list");
    }
    assert("list"@ =~= seq!['l', 'i', 's', 't']);
    crate::util::str_equal(tag, "list")
}

/// The map that a list of pairs spells, later pairs overriding earlier
/// ones.
pub open spec fn pairs_map(s: Seq<(Seq<char>, Seq<char>)>) -> Map<Seq<char>, Seq<char>>
    decreases s.len(),
{
    if s.len() == 0 {
        Map::empty()
    } else {
        pairs_map(s.drop_last()).insert(s.last().0, s.last().1)
    }
}

/// Records the modules that enum aliases were imported from.
pub struct TransformVisitor {
    fbt_enum_mapping: Vec<(String, String)>,
}

impl TransformVisitor {
    /// The recorded imports, alias to module source.
    pub closed spec fn imports(&self) -> Map<Seq<char>, Seq<char>> {
        pairs_map(pairs_view(self.fbt_enum_mapping@))
    }

    /// A visitor with no recorded imports.
    pub fn new() -> (r: Self)
        ensures
            r.imports() == Map::<Seq<char>, Seq<char>>::empty(),
    {
        let r = TransformVisitor { fbt_enum_mapping: Vec::new() };
        assert(pairs_view(r.fbt_enum_mapping@) =~= Seq::<(Seq<char>, Seq<char>)>::empty());
        r
    }

    /// Records that `alias` names the module at `source`, replacing an
    /// earlier record of the same alias.
    pub fn record_import(&mut self, alias: String, source: String)
        ensures
            final(self).imports() == old(self).imports().insert(alias@, source@),
    {
        let ghost before = pairs_view(self.fbt_enum_mapping@);
        self.fbt_enum_mapping.push((alias, source));
        assert(pairs_view(self.fbt_enum_mapping@).drop_last() =~= before);
    }
}

} // verus!
