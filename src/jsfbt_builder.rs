use vstd::prelude::*;

use crate::arguments::{ArgValue, SVArgValue, SourceView, StringVariationArg};

verus! {

/// The value chosen for one variation source within one combination.
#[derive(Clone, Debug)]
pub struct Combo {
    pub value: SVArgValue,
    /// Set when the value was forced by an earlier source with the same
    /// identity rather than chosen independently.
    pub is_collapsible: bool,
}

/// A `Combo` as a mathematical value.
pub ghost struct ComboView {
    pub value: ArgValue,
    pub is_collapsible: bool,
}

impl View for Combo {
    type V = ComboView;

    open spec fn view(&self) -> ComboView {
        ComboView { value: self.value@, is_collapsible: self.is_collapsible }
    }
}

/// The view of a list of combinations.
pub open spec fn combos_view(v: Seq<Vec<Combo>>) -> Seq<Seq<ComboView>> {
    v.map_values(|c: Vec<Combo>| c@.map_values(|x: Combo| x@))
}

/// The value most recently recorded for `id` in a stack of choices.
pub open spec fn lookup_choice(chosen: Seq<(u64, ArgValue)>, id: u64) -> Option<ArgValue>
    decreases chosen.len(),
{
    if chosen.len() == 0 {
        None
    } else if chosen.last().0 == id {
        Some(chosen.last().1)
    } else {
        lookup_choice(chosen.drop_last(), id)
    }
}

/// All combinations for the sources from `i` on, in depth-first order, each
/// extending `prefix`, given the choices already made in `chosen`.
pub open spec fn combos_from(
    args: Seq<SourceView>,
    i: int,
    chosen: Seq<(u64, ArgValue)>,
    prefix: Seq<ComboView>,
) -> Seq<Seq<ComboView>>
    decreases args.len() - i, args[i].candidates.len() + 1,
{
    if i < 0 || i >= args.len() {
        seq![prefix]
    } else {
        match lookup_choice(chosen, args[i].id) {
            Some(v) => combos_from(
                args,
                i + 1,
                chosen,
                prefix.push(ComboView { value: v, is_collapsible: true }),
            ),
            None => combos_expand(args, i, chosen, prefix, args[i].candidates.len() as int),
        }
    }
}

/// The combinations of `combos_from` at source `i` that pick one of the
/// first `k` candidates of that source, in candidate order.
pub open spec fn combos_expand(
    args: Seq<SourceView>,
    i: int,
    chosen: Seq<(u64, ArgValue)>,
    prefix: Seq<ComboView>,
    k: int,
) -> Seq<Seq<ComboView>>
    decreases args.len() - i, k,
{
    if i < 0 || i >= args.len() || k <= 0 || k > args[i].candidates.len() {
        Seq::empty()
    } else {
        let c = args[i].candidates[k - 1];
        combos_expand(args, i, chosen, prefix, k - 1) + combos_from(
            args,
            i + 1,
            chosen.push((args[i].id, c)),
            prefix.push(ComboView { value: c, is_collapsible: false }),
        )
    }
}

/// Every combination of values for the sources `args`, in depth-first order.
pub open spec fn all_combinations(args: Seq<SourceView>) -> Seq<Seq<ComboView>> {
    combos_from(args, 0, Seq::empty(), Seq::empty())
}

/// Each combination from source `i` on extends `prefix` by one value per
/// remaining source.
pub proof fn lemma_combos_from_len(
    args: Seq<SourceView>,
    i: int,
    chosen: Seq<(u64, ArgValue)>,
    prefix: Seq<ComboView>,
)
    requires
        0 <= i <= args.len(),
    ensures
        forall|j: int|
            0 <= j < combos_from(args, i, chosen, prefix).len() ==> (#[trigger] combos_from(
                args,
                i,
                chosen,
                prefix,
            )[j]).len() == prefix.len() + args.len() - i,
    decreases args.len() - i, args[i].candidates.len() + 1,
{
    let x = combos_from(args, i, chosen, prefix);
    if i < args.len() {
        match lookup_choice(chosen, args[i].id) {
            Some(v) => {
                let np = prefix.push(ComboView { value: v, is_collapsible: true });
                lemma_combos_from_len(args, i + 1, chosen, np);
                let y = combos_from(args, i + 1, chosen, np);
                assert(x == y);
                assert forall|j: int| 0 <= j < x.len() implies (#[trigger] x[j]).len() == prefix.len()
                    + args.len() - i by {
                    assert(y[j].len() == np.len() + args.len() - (i + 1));
                }
            },
            None => {
                let n = args[i].candidates.len() as int;
                lemma_combos_expand_len(args, i, chosen, prefix, n);
                let y = combos_expand(args, i, chosen, prefix, n);
                assert(x == y);
                assert forall|j: int| 0 <= j < x.len() implies (#[trigger] x[j]).len() == prefix.len()
                    + args.len() - i by {
                    assert(y[j].len() == prefix.len() + args.len() - i);
                }
            },
        }
    } else {
        assert(x == seq![prefix]);
        assert(seq![prefix][0] == prefix);
    }
}

pub proof fn lemma_combos_expand_len(
    args: Seq<SourceView>,
    i: int,
    chosen: Seq<(u64, ArgValue)>,
    prefix: Seq<ComboView>,
    k: int,
)
    requires
        0 <= i < args.len(),
        0 <= k <= args[i].candidates.len(),
    ensures
        forall|j: int|
            0 <= j < combos_expand(args, i, chosen, prefix, k).len() ==> (#[trigger] combos_expand(
                args,
                i,
                chosen,
                prefix,
                k,
            )[j]).len() == prefix.len() + args.len() - i,
    decreases args.len() - i, k,
{
    if k > 0 {
        let c = args[i].candidates[k - 1];
        lemma_combos_expand_len(args, i, chosen, prefix, k - 1);
        let np = prefix.push(ComboView { value: c, is_collapsible: false });
        lemma_combos_from_len(args, i + 1, chosen.push((args[i].id, c)), np);
        let a = combos_expand(args, i, chosen, prefix, k - 1);
        let b = combos_from(args, i + 1, chosen.push((args[i].id, c)), np);
        assert forall|j: int| 0 <= j < (a + b).len() implies (#[trigger] (a + b)[j]).len() == prefix.len()
            + args.len() - i by {
            if j >= a.len() {
                assert((a + b)[j] == b[j - a.len()]);
            }
        }
    }
}

/// Source `j` is the first with its identity.
pub open spec fn first_occurrence(args: Seq<SourceView>, j: int) -> bool {
    forall|i: int| 0 <= i < j ==> args[i].id != args[j].id
}

/// The product of the candidate counts over distinct identities, each
/// identity counted at its first source.
pub open spec fn distinct_product(args: Seq<SourceView>) -> nat
    decreases args.len(),
{
    if args.len() == 0 {
        1
    } else {
        distinct_product(args.drop_last()) * if first_occurrence(args, args.len() - 1) {
            args.last().candidates.len()
        } else {
            1
        }
    }
}

/// `n` capped at `u64::MAX`.
pub open spec fn saturate(n: nat) -> u64 {
    if n > u64::MAX {
        u64::MAX
    } else {
        n as u64
    }
}

proof fn lemma_saturate_mul(x: nat, c: nat)
    ensures
        saturate(saturate(x) as nat * c) == saturate(x * c),
{
    if x > u64::MAX && c >= 1 {
        assert(x * c >= x) by (nonlinear_arith)
            requires
                c >= 1,
        ;
        assert(u64::MAX as nat * c >= u64::MAX) by (nonlinear_arith)
            requires
                c >= 1,
        ;
    }
}

proof fn lemma_lookup_push(chosen: Seq<(u64, ArgValue)>, id: u64, v: ArgValue, x: u64)
    ensures
        lookup_choice(chosen.push((id, v)), x) == if x == id {
            Some(v)
        } else {
            lookup_choice(chosen, x)
        },
{
    assert(chosen.push((id, v)).drop_last() =~= chosen);
}

/// The number of combinations from source `i` on, when the identities in
/// `ids` are already chosen.
pub open spec fn count_from(args: Seq<SourceView>, i: int, ids: Set<u64>) -> nat
    decreases args.len() - i,
{
    if i < 0 || i >= args.len() {
        1
    } else if ids.contains(args[i].id) {
        count_from(args, i + 1, ids)
    } else {
        args[i].candidates.len() * count_from(args, i + 1, ids.insert(args[i].id))
    }
}

proof fn lemma_count_combos_from(
    args: Seq<SourceView>,
    i: int,
    chosen: Seq<(u64, ArgValue)>,
    ids: Set<u64>,
    prefix: Seq<ComboView>,
)
    requires
        0 <= i <= args.len(),
        forall|x: u64| lookup_choice(chosen, x) is Some <==> #[trigger] ids.contains(x),
    ensures
        combos_from(args, i, chosen, prefix).len() == count_from(args, i, ids),
    decreases args.len() - i, args[i].candidates.len() + 1,
{
    if i < args.len() {
        assert(ids.contains(args[i].id) <==> lookup_choice(chosen, args[i].id) is Some);
        match lookup_choice(chosen, args[i].id) {
            Some(v) => {
                lemma_count_combos_from(
                    args,
                    i + 1,
                    chosen,
                    ids,
                    prefix.push(ComboView { value: v, is_collapsible: true }),
                );
            },
            None => {
                lemma_count_combos_expand(args, i, chosen, ids, prefix, args[i].candidates.len() as int);
            },
        }
    }
}

proof fn lemma_count_combos_expand(
    args: Seq<SourceView>,
    i: int,
    chosen: Seq<(u64, ArgValue)>,
    ids: Set<u64>,
    prefix: Seq<ComboView>,
    k: int,
)
    requires
        0 <= i < args.len(),
        0 <= k <= args[i].candidates.len(),
        !ids.contains(args[i].id),
        forall|x: u64| lookup_choice(chosen, x) is Some <==> #[trigger] ids.contains(x),
    ensures
        combos_expand(args, i, chosen, prefix, k).len() == k * count_from(
            args,
            i + 1,
            ids.insert(args[i].id),
        ),
    decreases args.len() - i, k,
{
    if k > 0 {
        let c = args[i].candidates[k - 1];
        lemma_count_combos_expand(args, i, chosen, ids, prefix, k - 1);
        let nc = chosen.push((args[i].id, c));
        let nids = ids.insert(args[i].id);
        assert forall|x: u64| lookup_choice(nc, x) is Some <==> #[trigger] nids.contains(x) by {
            lemma_lookup_push(chosen, args[i].id, c, x);
        }
        lemma_count_combos_from(
            args,
            i + 1,
            nc,
            nids,
            prefix.push(ComboView { value: c, is_collapsible: false }),
        );
        let n = count_from(args, i + 1, nids);
        assert(k * n == (k - 1) * n + n) by (nonlinear_arith);
    } else {
        let n = count_from(args, i + 1, ids.insert(args[i].id));
        assert(0 * n == 0) by (nonlinear_arith);
    }
}

/// The identities of the first `n` sources.
pub open spec fn ids_before(args: Seq<SourceView>, n: int) -> Set<u64> {
    Set::new(|x: u64| exists|j: int| 0 <= j < n && args[j].id == x)
}

proof fn lemma_count_from_product(args: Seq<SourceView>, n: int)
    requires
        0 <= n <= args.len(),
    ensures
        distinct_product(args.subrange(0, n)) * count_from(args, n, ids_before(args, n))
            == count_from(args, 0, Set::empty()),
    decreases n,
{
    if n == 0 {
        assert(ids_before(args, 0) =~= Set::<u64>::empty());
        assert(args.subrange(0, 0) =~= Seq::<SourceView>::empty());
        assert(distinct_product(args.subrange(0, 0)) == 1);
    } else {
        let m = n - 1;
        lemma_count_from_product(args, m);
        let sub = args.subrange(0, n);
        assert(sub.drop_last() =~= args.subrange(0, m));
        let s = ids_before(args, m);
        let id = args[m].id;
        let a = distinct_product(args.subrange(0, m));
        assert(sub.last() == args[m]);
        assert(sub.len() - 1 == m);
        assert(first_occurrence(sub, m) <==> !s.contains(id)) by {
            if !first_occurrence(sub, m) {
                let j = choose|j: int| 0 <= j < m && sub[j].id != sub[m].id == false;
                assert(args[j].id == id);
            }
            if s.contains(id) {
                let j = choose|j: int| 0 <= j < m && args[j].id == id;
                assert(sub[j].id == sub[m].id);
            }
        }
        if s.contains(id) {
            assert(ids_before(args, n) =~= s) by {
                assert forall|x: u64| ids_before(args, n).contains(x) implies s.contains(x) by {
                    let j = choose|j: int| 0 <= j < n && args[j].id == x;
                    if j == m {
                        assert(x == id);
                    } else {
                        assert(0 <= j < m && args[j].id == x);
                    }
                }
                assert forall|x: u64| s.contains(x) implies ids_before(args, n).contains(x) by {
                    let j = choose|j: int| 0 <= j < m && args[j].id == x;
                    assert(0 <= j < n && args[j].id == x);
                }
            }
            assert(distinct_product(sub) == a * 1);
            assert(count_from(args, m, s) == count_from(args, n, s));
            assert(a * 1 == a);
            assert(distinct_product(sub) * count_from(args, n, ids_before(args, n)) == a * count_from(args, m, s));
        } else {
            assert(ids_before(args, n) =~= s.insert(id)) by {
                assert forall|x: u64| ids_before(args, n).contains(x) implies s.insert(id).contains(x) by {
                    let j = choose|j: int| 0 <= j < n && args[j].id == x;
                    if j < m {
                        assert(0 <= j < m && args[j].id == x);
                    }
                }
                assert forall|x: u64| s.insert(id).contains(x) implies ids_before(args, n).contains(x) by {
                    if x == id {
                        assert(0 <= m < n && args[m].id == x);
                    } else {
                        let j = choose|j: int| 0 <= j < m && args[j].id == x;
                        assert(0 <= j < n && args[j].id == x);
                    }
                }
            }
            let l = args[m].candidates.len();
            let r = count_from(args, n, s.insert(id));
            assert(count_from(args, m, s) == l * r);
            assert(distinct_product(sub) == a * l);
            assert(a * (l * r) == (a * l) * r) by (nonlinear_arith);
            assert(distinct_product(sub) * count_from(args, n, ids_before(args, n)) == a * count_from(args, m, s));
        }
    }
}

/// The number of combinations is the product of the candidate counts over
/// the distinct identities: repeated identities do not multiply.
pub proof fn lemma_combination_count(args: Seq<SourceView>)
    ensures
        all_combinations(args).len() == distinct_product(args),
{
    lemma_count_combos_from(args, 0, Seq::empty(), Set::empty(), Seq::empty());
    lemma_count_from_product(args, args.len() as int);
    assert(args.subrange(0, args.len() as int) =~= args);
    let d = distinct_product(args);
    assert(count_from(args, args.len() as int, ids_before(args, args.len() as int)) == 1);
    assert(d * 1 == d) by (nonlinear_arith);
}

/// Within `c`, the first `n` values obey the sharing rule: a value is
/// collapsible exactly when an earlier source has its identity, and sources
/// with one identity get one value.
pub open spec fn shares_values(args: Seq<SourceView>, c: Seq<ComboView>, n: int) -> bool {
    &&& forall|j: int| 0 <= j < n ==> (#[trigger] c[j]).is_collapsible == !first_occurrence(args, j)
    &&& forall|i: int, j: int|
        0 <= i < j < n && args[i].id == args[j].id ==> (#[trigger] c[i]).value == (#[trigger] c[j]).value
}

/// The choices recorded so far agree with the values in `prefix`.
pub open spec fn choices_match(
    args: Seq<SourceView>,
    chosen: Seq<(u64, ArgValue)>,
    prefix: Seq<ComboView>,
) -> bool {
    &&& forall|j: int| 0 <= j < prefix.len() ==> lookup_choice(chosen, #[trigger] args[j].id) == Some(prefix[j].value)
    &&& forall|x: u64| #[trigger] lookup_choice(chosen, x) is Some ==> exists|j: int| 0 <= j < prefix.len() && args[j].id == x
}

proof fn lemma_sharing_from(
    args: Seq<SourceView>,
    i: int,
    chosen: Seq<(u64, ArgValue)>,
    prefix: Seq<ComboView>,
)
    requires
        0 <= i <= args.len(),
        prefix.len() == i,
        shares_values(args, prefix, i),
        choices_match(args, chosen, prefix),
    ensures
        forall|k: int|
            0 <= k < combos_from(args, i, chosen, prefix).len() ==> shares_values(
                args,
                #[trigger] combos_from(args, i, chosen, prefix)[k],
                args.len() as int,
            ),
    decreases args.len() - i, args[i].candidates.len() + 1,
{
    let x = combos_from(args, i, chosen, prefix);
    if i < args.len() {
        let id = args[i].id;
        match lookup_choice(chosen, id) {
            Some(v) => {
                let np = prefix.push(ComboView { value: v, is_collapsible: true });
                let j0 = choose|j: int| 0 <= j < prefix.len() && args[j].id == id;
                assert(!first_occurrence(args, i)) by {
                    assert(args[j0].id == args[i].id);
                }
                assert(shares_values(args, np, i + 1)) by {
                    assert forall|j: int| 0 <= j < i + 1 implies (#[trigger] np[j]).is_collapsible
                        == !first_occurrence(args, j) by {
                        if j < i {
                            assert(np[j] == prefix[j]);
                        }
                    }
                    assert forall|a: int, b: int|
                        0 <= a < b < i + 1 && args[a].id == args[b].id implies (#[trigger] np[a]).value
                        == (#[trigger] np[b]).value by {
                        assert(np[a] == prefix[a]);
                        if b < i {
                            assert(np[b] == prefix[b]);
                        } else {
                            assert(lookup_choice(chosen, args[a].id) == Some(prefix[a].value));
                        }
                    }
                }
                assert(choices_match(args, chosen, np)) by {
                    assert forall|j: int| 0 <= j < np.len() implies lookup_choice(chosen, #[trigger] args[j].id)
                        == Some(np[j].value) by {
                        if j < i {
                            assert(np[j] == prefix[j]);
                        }
                    }
                    assert forall|y: u64| #[trigger] lookup_choice(chosen, y) is Some implies exists|j: int|
                        0 <= j < np.len() && args[j].id == y by {
                        let j = choose|j: int| 0 <= j < prefix.len() && args[j].id == y;
                        assert(0 <= j < np.len() && args[j].id == y);
                    }
                }
                lemma_sharing_from(args, i + 1, chosen, np);
                assert(x == combos_from(args, i + 1, chosen, np));
            },
            None => {
                assert(first_occurrence(args, i)) by {
                    assert forall|j: int| 0 <= j < i implies args[j].id != args[i].id by {
                        assert(lookup_choice(chosen, args[j].id) == Some(prefix[j].value));
                    }
                }
                let n = args[i].candidates.len() as int;
                lemma_sharing_expand(args, i, chosen, prefix, n);
                assert(x == combos_expand(args, i, chosen, prefix, n));
            },
        }
    } else {
        assert(x == seq![prefix]);
        assert(x[0] == prefix);
    }
}

proof fn lemma_sharing_expand(
    args: Seq<SourceView>,
    i: int,
    chosen: Seq<(u64, ArgValue)>,
    prefix: Seq<ComboView>,
    k: int,
)
    requires
        0 <= i < args.len(),
        0 <= k <= args[i].candidates.len(),
        prefix.len() == i,
        first_occurrence(args, i),
        lookup_choice(chosen, args[i].id) is None,
        shares_values(args, prefix, i),
        choices_match(args, chosen, prefix),
    ensures
        forall|m: int|
            0 <= m < combos_expand(args, i, chosen, prefix, k).len() ==> shares_values(
                args,
                #[trigger] combos_expand(args, i, chosen, prefix, k)[m],
                args.len() as int,
            ),
    decreases args.len() - i, k,
{
    if k > 0 {
        let id = args[i].id;
        let c = args[i].candidates[k - 1];
        lemma_sharing_expand(args, i, chosen, prefix, k - 1);
        let nc = chosen.push((id, c));
        let np = prefix.push(ComboView { value: c, is_collapsible: false });
        assert(shares_values(args, np, i + 1)) by {
            assert forall|j: int| 0 <= j < i + 1 implies (#[trigger] np[j]).is_collapsible
                == !first_occurrence(args, j) by {
                if j < i {
                    assert(np[j] == prefix[j]);
                }
            }
            assert forall|a: int, b: int|
                0 <= a < b < i + 1 && args[a].id == args[b].id implies (#[trigger] np[a]).value
                == (#[trigger] np[b]).value by {
                assert(np[a] == prefix[a]);
                if b < i {
                    assert(np[b] == prefix[b]);
                }
            }
        }
        assert(choices_match(args, nc, np)) by {
            assert forall|j: int| 0 <= j < np.len() implies lookup_choice(nc, #[trigger] args[j].id)
                == Some(np[j].value) by {
                lemma_lookup_push(chosen, id, c, args[j].id);
                if j < i {
                    assert(np[j] == prefix[j]);
                    assert(args[j].id != id);
                }
            }
            assert forall|y: u64| #[trigger] lookup_choice(nc, y) is Some implies exists|j: int|
                0 <= j < np.len() && args[j].id == y by {
                lemma_lookup_push(chosen, id, c, y);
                if y == id {
                    assert(0 <= i < np.len() && args[i].id == y);
                } else {
                    let j = choose|j: int| 0 <= j < prefix.len() && args[j].id == y;
                    assert(0 <= j < np.len() && args[j].id == y);
                }
            }
        }
        lemma_sharing_from(args, i + 1, nc, np);
        let a = combos_expand(args, i, chosen, prefix, k - 1);
        let b = combos_from(args, i + 1, nc, np);
        assert forall|m: int| 0 <= m < (a + b).len() implies shares_values(
            args,
            #[trigger] (a + b)[m],
            args.len() as int,
        ) by {
            if m < a.len() {
                assert((a + b)[m] == a[m]);
            } else {
                assert((a + b)[m] == b[m - a.len()]);
            }
        }
    }
}

/// The sharing rule: in every combination, sources with one identity take
/// one value, and a source is collapsible exactly when an earlier source has
/// its identity; so of two sources sharing an identity, the first of them
/// with it is the only one not collapsible.
pub proof fn lemma_sharing_rule(args: Seq<SourceView>, k: int, i: int, j: int)
    requires
        0 <= k < all_combinations(args).len(),
        0 <= i < j < args.len(),
        args[i].id == args[j].id,
    ensures
        all_combinations(args)[k][i].value == all_combinations(args)[k][j].value,
        all_combinations(args)[k][j].is_collapsible,
        first_occurrence(args, i) ==> !all_combinations(args)[k][i].is_collapsible,
{
    let e: Seq<ComboView> = Seq::empty();
    assert(shares_values(args, e, 0));
    assert(choices_match(args, Seq::empty(), e));
    lemma_sharing_from(args, 0, Seq::empty(), e);
    let c = all_combinations(args)[k];
    assert(shares_values(args, c, args.len() as int));
    assert(c[i].value == c[j].value);
    assert(!first_occurrence(args, j)) by {
        assert(args[i].id == args[j].id);
    }
    assert(c[j].is_collapsible == !first_occurrence(args, j));
    assert(c[i].is_collapsible == !first_occurrence(args, i));
}

/// Enumerates the combinations of values of an ordered list of variation
/// sources.
pub struct JSFbtBuilder {
    string_variation_args: Vec<StringVariationArg>,
}

pub open spec fn sources_view(args: Seq<StringVariationArg>) -> Seq<SourceView> {
    args.map_values(|a: StringVariationArg| a@)
}

pub open spec fn choices_view(chosen: Seq<(u64, SVArgValue)>) -> Seq<(u64, ArgValue)> {
    chosen.map_values(|p: (u64, SVArgValue)| (p.0, p.1@))
}

fn find_choice(chosen: &Vec<(u64, SVArgValue)>, id: u64) -> (r: Option<SVArgValue>)
    ensures
        match r {
            Some(v) => lookup_choice(choices_view(chosen@), id) == Some(v@),
            None => lookup_choice(choices_view(chosen@), id).is_none(),
        },
{
    let mut j: usize = chosen.len();
    assert(chosen@.subrange(0, j as int) =~= chosen@);
    while j > 0
        invariant
            j <= chosen@.len(),
            lookup_choice(choices_view(chosen@), id) == lookup_choice(
                choices_view(chosen@.subrange(0, j as int)),
                id,
            ),
        decreases j,
    {
        let ghost s = choices_view(chosen@.subrange(0, j as int));
        assert(s.drop_last() =~= choices_view(chosen@.subrange(0, j - 1)));
        if chosen[j - 1].0 == id {
            return Some(chosen[j - 1].1.duplicate());
        }
        j = j - 1;
    }
    assert(choices_view(chosen@.subrange(0, 0)) =~= Seq::<(u64, ArgValue)>::empty());
    None
}

fn copy_combos(prefix: &Vec<Combo>) -> (r: Vec<Combo>)
    ensures
        r@.map_values(|x: Combo| x@) == prefix@.map_values(|x: Combo| x@),
{
    let mut r: Vec<Combo> = Vec::new();
    let mut j: usize = 0;
    while j < prefix.len()
        invariant
            j <= prefix@.len(),
            r@.len() == j,
            forall|m: int| 0 <= m < j ==> r@[m]@ == prefix@[m]@,
        decreases prefix@.len() - j,
    {
        r.push(Combo { value: prefix[j].value.duplicate(), is_collapsible: prefix[j].is_collapsible });
        j = j + 1;
    }
    assert(r@.map_values(|x: Combo| x@) =~= prefix@.map_values(|x: Combo| x@));
    r
}

impl JSFbtBuilder {
    pub closed spec fn sources(&self) -> Seq<SourceView> {
        sources_view(self.string_variation_args@)
    }

    pub fn new(string_variation_args: Vec<StringVariationArg>) -> (r: Self)
        ensures
            r.sources() == sources_view(string_variation_args@),
    {
        JSFbtBuilder { string_variation_args }
    }

    /// The number of combinations that `get_string_variation_combinations`
    /// yields, capped at `u64::MAX`; computed without enumerating them.
    pub fn combination_count(&self) -> (r: u64)
        ensures
            r == saturate(distinct_product(self.sources())),
    {
        let ghost args = self.sources();
        let mut count: u64 = 1;
        let mut j: usize = 0;
        while j < self.string_variation_args.len()
            invariant
                args == self.sources(),
                args.len() == self.string_variation_args@.len(),
                j <= args.len(),
                count == saturate(distinct_product(args.subrange(0, j as int))),
            decreases args.len() - j,
        {
            let id = self.string_variation_args[j].node;
            let mut i: usize = 0;
            let mut first = true;
            while i < j
                invariant
                    args == self.sources(),
                    args.len() == self.string_variation_args@.len(),
                    j < args.len(),
                    id == args[j as int].id,
                    i <= j,
                    first == (forall|m: int| 0 <= m < i ==> args[m].id != id),
                decreases j - i,
            {
                assert(args[i as int].id == self.string_variation_args@[i as int].node);
                if self.string_variation_args[i].node == id {
                    first = false;
                }
                i = i + 1;
            }
            let ghost prefix = args.subrange(0, j + 1);
            assert(prefix.drop_last() =~= args.subrange(0, j as int));
            assert(id == self.string_variation_args@[j as int].node);
            assert(first == first_occurrence(prefix, j as int)) by {
                assert(forall|m: int| 0 <= m <= j ==> prefix[m] == args[m]);
            }
            let factor: u64 = if first {
                self.string_variation_args[j].candidate_values.len() as u64
            } else {
                1
            };
            proof {
                lemma_saturate_mul(distinct_product(args.subrange(0, j as int)), factor as nat);
            }
            count = match count.checked_mul(factor) {
                Some(c) => c,
                None => u64::MAX,
            };
            j = j + 1;
        }
        assert(args.subrange(0, args.len() as int) =~= args);
        count
    }

    /// Every combination of values of the sources, in depth-first order: a
    /// source whose identity was already chosen earlier repeats that value
    /// and is marked collapsible; otherwise each of its candidates is tried in
    /// turn. No sources give exactly one empty combination.
    pub fn get_string_variation_combinations(&self) -> (r: Vec<Vec<Combo>>)
        ensures
            combos_view(r@) == all_combinations(self.sources()),
    {
        let mut combos: Vec<Vec<Combo>> = Vec::new();
        let mut chosen: Vec<(u64, SVArgValue)> = Vec::new();
        let start: Vec<Combo> = Vec::new();
        assert(choices_view(chosen@) =~= Seq::<(u64, ArgValue)>::empty());
        assert(start@.map_values(|x: Combo| x@) =~= Seq::<ComboView>::empty());
        self.collect_combinations(&mut combos, 0, &mut chosen, start);
        assert(combos_view(Seq::<Vec<Combo>>::empty()) =~= Seq::<Seq<ComboView>>::empty());
        combos
    }

    fn collect_combinations(
        &self,
        combos: &mut Vec<Vec<Combo>>,
        current_arg_index: usize,
        chosen: &mut Vec<(u64, SVArgValue)>,
        prev_args: Vec<Combo>,
    )
        requires
            current_arg_index <= self.sources().len(),
        ensures
            combos_view(final(combos)@) == combos_view(old(combos)@) + combos_from(
                self.sources(),
                current_arg_index as int,
                choices_view(old(chosen)@),
                prev_args@.map_values(|x: Combo| x@),
            ),
            choices_view(final(chosen)@) == choices_view(old(chosen)@),
        decreases self.sources().len() - current_arg_index,
    {
        let ghost args = self.sources();
        let ghost prefix = prev_args@.map_values(|x: Combo| x@);
        if current_arg_index >= self.string_variation_args.len() {
            combos.push(prev_args);
            assert(combos_view(combos@) =~= combos_view(old(combos)@) + seq![prefix]);
            return;
        }
        let arg = &self.string_variation_args[current_arg_index];
        let ghost i = current_arg_index as int;
        match find_choice(chosen, arg.node) {
            Some(value) => {
                let mut next = copy_combos(&prev_args);
                next.push(Combo { value, is_collapsible: true });
                proof {
                    assert(next@.map_values(|x: Combo| x@) =~= prefix.push(
                        ComboView { value: value@, is_collapsible: true },
                    ));
                }
                self.collect_combinations(combos, current_arg_index + 1, chosen, next);
            },
            None => {
                let n = arg.candidate_values.len();
                let next_index = current_arg_index + 1;
                let mut k: usize = 0;
                assert(combos_view(combos@) =~= combos_view(old(combos)@) + combos_expand(
                    args,
                    i,
                    choices_view(old(chosen)@),
                    prefix,
                    0,
                ));
                while k < n
                    invariant
                        0 <= i < args.len(),
                        i == current_arg_index,
                        next_index == current_arg_index + 1,
                        args == self.sources(),
                        args.len() == self.string_variation_args@.len(),
                        arg@ == args[i],
                        n == args[i].candidates.len(),
                        k <= n,
                        prefix == prev_args@.map_values(|x: Combo| x@),
                        choices_view(chosen@) == choices_view(old(chosen)@),
                        lookup_choice(choices_view(old(chosen)@), args[i].id).is_none(),
                        combos_view(combos@) == combos_view(old(combos)@) + combos_expand(
                            args,
                            i,
                            choices_view(old(chosen)@),
                            prefix,
                            k as int,
                        ),
                    decreases n - k,
                {
                    let value = arg.candidate_values.get(k);
                    let mut next = copy_combos(&prev_args);
                    let ghost c = value@;
                    next.push(Combo { value: value.duplicate(), is_collapsible: false });
                    proof {
                        assert(next@.map_values(|x: Combo| x@) =~= prefix.push(
                            ComboView { value: c, is_collapsible: false },
                        ));
                    }
                    chosen.push((arg.node, value));
                    assert(choices_view(chosen@) =~= choices_view(old(chosen)@).push((args[i].id, c)));
                    self.collect_combinations(combos, next_index, chosen, next);
                    let ghost after = chosen@;
                    chosen.pop();
                    assert(choices_view(chosen@) =~= choices_view(after).drop_last());
                    assert(choices_view(chosen@) =~= choices_view(old(chosen)@));
                    assert(combos_view(combos@) =~= combos_view(old(combos)@) + combos_expand(
                        args,
                        i,
                        choices_view(old(chosen)@),
                        prefix,
                        k + 1,
                    ));
                    k = k + 1;
                }
            },
        }
    }
}

} // verus!
