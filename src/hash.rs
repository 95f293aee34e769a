use vstd::prelude::*;

use crate::element::leaf_views;
use crate::jsfbt::{LeafView, TableJSFBTTree, TableJSFBTTreeLeaf, TableView};
use crate::util::{json_quote, json_string};

verus! {

/// Addition modulo 2^32.
pub open spec fn add32(x: u32, y: u32) -> u32 {
    ((x as int + y as int) % 0x1_0000_0000) as u32
}

/// One round of the one-at-a-time hash: absorb byte `b` into state `h`.
pub open spec fn jenkins_mix(h: u32, b: u8) -> u32 {
    let a = add32(h, b as u32);
    let c = add32(a, a << 10u32);
    c ^ (c >> 6u32)
}

/// The hash state after absorbing every byte of `data`, starting from 0.
pub open spec fn jenkins_absorb(data: Seq<u8>) -> u32
    decreases data.len(),
{
    if data.len() == 0 {
        0
    } else {
        jenkins_mix(jenkins_absorb(data.drop_last()), data.last())
    }
}

/// The final avalanche applied after the last byte.
pub open spec fn jenkins_finish(h: u32) -> u32 {
    let a = add32(h, h << 3u32);
    let b = a ^ (a >> 11u32);
    add32(b, b << 15u32)
}

/// Jenkins one-at-a-time hash of a byte sequence.
pub open spec fn jenkins_spec(data: Seq<u8>) -> u32 {
    jenkins_finish(jenkins_absorb(data))
}

/// 32-bit Jenkins one-at-a-time hash.
pub fn jenkins_hash(data: &[u8]) -> (r: u32)
    ensures
        r == jenkins_spec(data@),
{
    let mut hash: u32 = 0;
    let mut i: usize = 0;
    while i < data.len()
        invariant
            i <= data@.len(),
            hash == jenkins_absorb(data@.subrange(0, i as int)),
        decreases data@.len() - i,
    {
        let byte = data[i];
        hash = hash.wrapping_add(byte as u32);
        hash = hash.wrapping_add(hash << 10u32);
        hash = hash ^ (hash >> 6u32);
        assert(data@.subrange(0, i + 1).drop_last() =~= data@.subrange(0, i as int));
        i = i + 1;
    }
    assert(data@.subrange(0, data@.len() as int) =~= data@);
    hash = hash.wrapping_add(hash << 3u32);
    hash = hash ^ (hash >> 11u32);
    hash = hash.wrapping_add(hash << 15u32);
    hash
}

/// The digit character for digit value `d` in the alphabet `0-9a-zA-Z`.
pub open spec fn digit_char(d: nat) -> char {
    if d < 10 {
        ((48 + d) as u8) as char
    } else if d < 36 {
        ((97 + d - 10) as u8) as char
    } else {
        ((65 + d - 36) as u8) as char
    }
}

/// The digit value of a character of the alphabet `0-9a-zA-Z`.
pub open spec fn digit_value(c: char) -> nat {
    let u = c as u32;
    if 48 <= u <= 57 {
        (u - 48) as nat
    } else if 97 <= u <= 122 {
        (u - 97 + 10) as nat
    } else if 65 <= u <= 90 {
        (u - 65 + 36) as nat
    } else {
        0
    }
}

/// Digits of `n` in base `base`, most significant first; zero has no digits.
pub open spec fn base_digits(n: nat, base: nat) -> Seq<char>
    decreases n
    via base_digits_decreases
{
    if n == 0 || base < 2 {
        Seq::empty()
    } else {
        base_digits(n / base, base).push(digit_char(n % base))
    }
}

/// The number that a digit string denotes in base `base`.
pub open spec fn digits_value(s: Seq<char>, base: nat) -> nat
    decreases s.len(),
{
    if s.len() == 0 {
        0
    } else {
        digits_value(s.drop_last(), base) * base + digit_value(s.last())
    }
}

#[via_fn]
proof fn base_digits_decreases(n: nat, base: nat) {
    if n != 0 && base >= 2 {
        vstd::arithmetic::div_mod::lemma_div_decreases(n as int, base as int);
    }
}

fn digit_of(d: u32) -> (c: char)
    requires
        d < 62,
    ensures
        c == digit_char(d as nat),
{
    if d < 10 {
        ((48 + d) as u8) as char
    } else if d < 36 {
        ((97 + d - 10) as u8) as char
    } else {
        ((65 + d - 36) as u8) as char
    }
}

/// Relies on `String::push`: appends one character.
#[verifier::external_body]
pub(crate) fn push_char(s: &mut String, c: char)
    ensures
        final(s)@ == old(s)@.push(c),
{
    s.push(c)
}

/// Writes `num` in base `base` with the alphabet `0-9a-zA-Z`, without
/// leading zeros; zero yields the empty string.
pub fn u32_to_base_n(num: u32, base: u32) -> (r: String)
    requires
        2 <= base <= 62,
    ensures
        r@ == base_digits(num as nat, base as nat),
{
    let mut result = String::new();
    let mut n: u32 = num;
    while n > 0
        invariant
            2 <= base <= 62,
            base_digits(num as nat, base as nat) == base_digits(n as nat, base as nat) + result@,
        decreases n,
    {
        let mut c = String::new();
        push_char(&mut c, digit_of(n % base));
        c.append(result.as_str());
        assert(base_digits(n as nat, base as nat) == base_digits((n / base) as nat, base as nat).push(
            digit_char((n % base) as nat),
        ));
        assert(base_digits(n as nat, base as nat) + result@ =~= base_digits(
            (n / base) as nat,
            base as nat,
        ) + c@);
        result = c;
        n = n / base;
    }
    assert(result@ =~= base_digits(num as nat, base as nat));
    result
}

proof fn lemma_digit_round_trip(d: nat)
    requires
        d < 62,
    ensures
        digit_value(digit_char(d)) == d,
{
}

/// Reading back the digits of `n` gives `n`.
pub proof fn lemma_base_digits_value(n: nat, base: nat)
    requires
        2 <= base <= 62,
    ensures
        digits_value(base_digits(n, base), base) == n,
    decreases n,
{
    if n > 0 {
        vstd::arithmetic::div_mod::lemma_div_decreases(n as int, base as int);
        lemma_base_digits_value(n / base, base);
        lemma_digit_round_trip(n % base);
        let s = base_digits(n, base);
        assert(s.drop_last() =~= base_digits(n / base, base));
        vstd::arithmetic::div_mod::lemma_fundamental_div_mod(n as int, base as int);
    }
}

/// Decoding an emitted identifier as a base-62 number and encoding that
/// number again reproduces the identifier; zero encodes as the empty string.
pub proof fn lemma_base62_round_trip(n: u32)
    ensures
        base_digits(digits_value(base_digits(n as nat, 62), 62), 62) == base_digits(n as nat, 62),
        base_digits(0, 62) == Seq::<char>::empty(),
{
    lemma_base_digits_value(n as nat, 62);
}

/// The parts joined with commas.
pub open spec fn comma_join(parts: Seq<Seq<char>>) -> Seq<char>
    decreases parts.len(),
{
    if parts.len() == 0 {
        Seq::empty()
    } else if parts.len() == 1 {
        parts[0]
    } else {
        comma_join(parts.drop_last()) + seq![','] + parts.last()
    }
}

/// `{"text":`
pub open spec fn text_field() -> Seq<char> {
    seq!['{', '"', 't', 'e', 'x', 't', '"', ':']
}

/// `,"desc":`
pub open spec fn desc_field() -> Seq<char> {
    seq![',', '"', 'd', 'e', 's', 'c', '"', ':']
}

/// `,"tokenAliases":`
pub open spec fn aliases_field() -> Seq<char> {
    seq![',', '"', 't', 'o', 'k', 'e', 'n', 'A', 'l', 'i', 'a', 's', 'e', 's', '"', ':']
}

/// `,"token_aliases":`
pub open spec fn uniform_aliases_field() -> Seq<char> {
    seq![',', '"', 't', 'o', 'k', 'e', 'n', '_', 'a', 'l', 'i', 'a', 's', 'e', 's', '"', ':']
}

/// One `"key":value` member of a JSON object.
pub open spec fn member(key: Seq<char>, value: Seq<char>) -> Seq<char> {
    json_quote(key) + seq![':'] + value
}

/// An alias list as a JSON object, in list order.
pub open spec fn aliases_json(a: Seq<(Seq<char>, Seq<char>)>) -> Seq<char> {
    seq!['{'] + comma_join(Seq::new(a.len(), |i: int| member(a[i].0, json_quote(a[i].1))))
        + seq!['}']
}

/// A leaf in canonical form. With `uniform` (all leaves share one
/// description) a leaf is its JSON text, or an object of text and aliases
/// when it has aliases; otherwise an object of text, description and, if
/// present, aliases.
pub open spec fn leaf_json(l: LeafView, uniform: bool) -> Seq<char> {
    if uniform {
        match l.token_aliases {
            Some(a) => text_field() + json_quote(l.text) + uniform_aliases_field() + aliases_json(a)
                + seq!['}'],
            None => json_quote(l.text),
        }
    } else {
        text_field() + json_quote(l.text) + desc_field() + json_quote(l.desc) + match l.token_aliases {
            Some(a) => aliases_field() + aliases_json(a),
            None => Seq::empty(),
        } + seq!['}']
    }
}

/// A table in canonical form: a branch is a JSON object of its entries in
/// key order.
pub open spec fn table_json(t: TableView<LeafView>, uniform: bool) -> Seq<char>
    decreases t,
{
    match t {
        TableView::Leaf(l) => leaf_json(l, uniform),
        TableView::Branch(ch) => seq!['{'] + comma_join(entries_json(ch, uniform)) + seq!['}'],
    }
}

/// The members of a branch in canonical form.
pub open spec fn entries_json(ch: Seq<(Seq<char>, TableView<LeafView>)>, uniform: bool) -> Seq<
    Seq<char>,
>
    decreases ch,
{
    Seq::new(
        ch.len(),
        |i: int|
            member(
                ch[i].0,
                if 0 <= i < ch.len() {
                    table_json(ch[i].1, uniform)
                } else {
                    Seq::empty()
                },
            ),
    )
}

/// All leaves carry the description of the first.
pub open spec fn same_desc(ls: Seq<LeafView>) -> bool {
    forall|i: int| 0 <= i < ls.len() ==> (#[trigger] ls[i]).desc == ls[0].desc
}

/// The text that is hashed for a table: its canonical form, followed by `|`
/// and the shared description when all leaves share one.
pub open spec fn hash_input(t: TableView<LeafView>) -> Seq<char> {
    let ls = t.leaves();
    if same_desc(ls) {
        table_json(t, true) + seq!['|'] + ls[0].desc
    } else {
        table_json(t, false)
    }
}

/// The hash of a table.
pub open spec fn table_hash(t: TableView<LeafView>) -> u32 {
    jenkins_spec(vstd::utf8::encode_utf8(hash_input(t)))
}

/// Joining one more part adds a comma before it, unless it is the first.
proof fn lemma_comma_join_push(parts: Seq<Seq<char>>, x: Seq<char>)
    ensures
        comma_join(parts.push(x)) == if parts.len() == 0 {
            x
        } else {
            comma_join(parts) + seq![','] + x
        },
{
    assert(parts.push(x).drop_last() =~= parts);
}

fn append_str(out: &mut String, s: &str)
    ensures
        final(out)@ == old(out)@ + s@,
{
    out.append(s);
}

fn write_aliases(a: &Vec<(String, String)>, out: &mut String)
    ensures
        final(out)@ == old(out)@ + aliases_json(crate::jsfbt::pairs_view(a@)),
{
    let ghost av = crate::jsfbt::pairs_view(a@);
    let ghost parts = Seq::new(av.len(), |i: int| member(av[i].0, json_quote(av[i].1)));
    let ghost start = out@;
    push_char(out, '{');
    let mut j: usize = 0;
    assert(parts.subrange(0, 0) =~= Seq::<Seq<char>>::empty());
    while j < a.len()
        invariant
            av == crate::jsfbt::pairs_view(a@),
            parts == Seq::new(av.len(), |i: int| member(av[i].0, json_quote(av[i].1))),
            j <= a@.len(),
            out@ == start + seq!['{'] + comma_join(parts.subrange(0, j as int)),
        decreases a@.len() - j,
    {
        if j > 0 {
            push_char(out, ',');
        }
        let k = json_string(a[j].0.as_str());
        append_str(out, k.as_str());
        push_char(out, ':');
        let v = json_string(a[j].1.as_str());
        append_str(out, v.as_str());
        proof {
            lemma_comma_join_push(parts.subrange(0, j as int), parts[j as int]);
            assert(parts.subrange(0, j + 1) =~= parts.subrange(0, j as int).push(parts[j as int]));
            assert(out@ =~= start + seq!['{'] + comma_join(parts.subrange(0, j + 1)));
        }
        j = j + 1;
    }
    assert(parts.subrange(0, a@.len() as int) =~= parts);
    push_char(out, '}');
    assert(out@ =~= start + aliases_json(av));
}

fn write_leaf(l: &TableJSFBTTreeLeaf, uniform: bool, out: &mut String)
    ensures
        final(out)@ == old(out)@ + leaf_json(l@, uniform),
{
    let ghost start = out@;
    proof {
        reveal_strlit("{\"text\":");
        reveal_strlit(",\"desc\":");
        reveal_strlit(",\"tokenAliases\":");
        reveal_strlit(",\"token_aliases\":");
    }
    assert("{\"text\":"@ =~= text_field());
    assert(",\"desc\":"@ =~= desc_field());
    assert(",\"tokenAliases\":"@ =~= aliases_field());
    assert(",\"token_aliases\":"@ =~= uniform_aliases_field());
    let text = json_string(l.text.as_str());
    if uniform {
        match &l.token_aliases {
            Some(a) => {
                append_str(out, "{\"text\":");
                append_str(out, text.as_str());
                append_str(out, ",\"token_aliases\":");
                write_aliases(a, out);
                push_char(out, '}');
            },
            None => {
                append_str(out, text.as_str());
            },
        }
    } else {
        append_str(out, "{\"text\":");
        append_str(out, text.as_str());
        append_str(out, ",\"desc\":");
        let desc = json_string(l.desc.as_str());
        append_str(out, desc.as_str());
        if let Some(a) = &l.token_aliases {
            append_str(out, ",\"tokenAliases\":");
            write_aliases(a, out);
        }
        push_char(out, '}');
    }
    assert(out@ =~= start + leaf_json(l@, uniform));
}

fn write_table(t: &TableJSFBTTree<TableJSFBTTreeLeaf>, uniform: bool, out: &mut String)
    ensures
        final(out)@ == old(out)@ + table_json(t.model().map(leaf_views()), uniform),
    decreases t,
{
    match t {
        TableJSFBTTree::Leaf(l) => {
            write_leaf(l, uniform, out);
        },
        TableJSFBTTree::Branch(children) => {
            let ghost ch = t.model().map(leaf_views())->Branch_0;
            let ghost parts = entries_json(ch, uniform);
            let ghost start = out@;
            push_char(out, '{');
            let mut j: usize = 0;
            assert(parts.subrange(0, 0) =~= Seq::<Seq<char>>::empty());
            while j < children.len()
                invariant
                    *t == TableJSFBTTree::Branch(*children),
                    ch == t.model().map(leaf_views())->Branch_0,
                    parts == entries_json(ch, uniform),
                    ch.len() == children@.len(),
                    j <= children@.len(),
                    out@ == start + seq!['{'] + comma_join(parts.subrange(0, j as int)),
                decreases children@.len() - j,
            {
                if j > 0 {
                    push_char(out, ',');
                }
                let k = json_string(children[j].0.as_str());
                append_str(out, k.as_str());
                push_char(out, ':');
                proof {
                    assert(decreases_to!(*t => children@[j as int].1)) by {
                        broadcast use vstd::std_specs::vec::axiom_vec_decreases_to_view,
                            vstd::seq::axiom_seq_index_decreases;
                        let v = (*t)->Branch_0;
                        assert(decreases_to!(*t => (*t)->Branch_0));
                        assert(decreases_to!(v => v@));
                        assert(decreases_to!(v@ => v@[j as int]));
                        assert(decreases_to!(v@[j as int] => v@[j as int].1));
                    }
                    let mc = TableJSFBTTree::<TableJSFBTTreeLeaf>::children_model(children@);
                    assert(ch == TableView::map_children(mc, leaf_views()));
                    assert(ch[j as int] == (children@[j as int].0@, children@[j as int].1.model().map(
                        leaf_views(),
                    )));
                }
                write_table(&children[j].1, uniform, out);
                proof {
                    lemma_comma_join_push(parts.subrange(0, j as int), parts[j as int]);
                    assert(parts.subrange(0, j + 1) =~= parts.subrange(0, j as int).push(
                        parts[j as int],
                    ));
                    assert(out@ =~= start + seq!['{'] + comma_join(parts.subrange(0, j + 1)));
                }
                j = j + 1;
            }
            assert(parts.subrange(0, children@.len() as int) =~= parts);
            push_char(out, '}');
            assert(out@ =~= start + table_json(t.model().map(leaf_views()), uniform));
        },
    }
}

/// The hash of a table with at least one leaf: the Jenkins hash of the UTF-8
/// bytes of its canonical form (see `hash_input`).
pub fn fbt_jenkins_hash(jsfbt: &TableJSFBTTree<TableJSFBTTreeLeaf>) -> (r: u32)
    requires
        jsfbt.model().leaves().len() > 0,
    ensures
        r == table_hash(jsfbt.model().map(leaf_views())),
{
    let ghost tv = jsfbt.model().map(leaf_views());
    proof {
        crate::jsfbt::lemma_leaves_map(jsfbt.model(), leaf_views());
    }
    let mut leaves: Vec<&TableJSFBTTreeLeaf> = Vec::new();
    jsfbt.on_each_leaf(&mut leaves);
    assert(crate::jsfbt::derefs(leaves@) =~= jsfbt.model().leaves());
    let ghost ls = tv.leaves();
    assert(ls.len() == leaves@.len());
    let first: &TableJSFBTTreeLeaf = leaves[0];
    assert(ls[0] == first@);
    let mut same = true;
    let mut i: usize = 1;
    while i < leaves.len()
        invariant
            1 <= i <= leaves@.len(),
            ls == tv.leaves(),
            ls.len() == leaves@.len(),
            forall|m: int| 0 <= m < ls.len() ==> #[trigger] ls[m] == (*leaves@[m])@,
            ls[0] == first@,
            same == (forall|m: int| 0 <= m < i ==> (#[trigger] ls[m]).desc == ls[0].desc),
        decreases leaves@.len() - i,
    {
        assert(ls[i as int] == (*leaves@[i as int])@);
        if !crate::util::str_equal(leaves[i].desc.as_str(), first.desc.as_str()) {
            same = false;
        }
        i = i + 1;
    }
    let mut key = String::new();
    if same {
        write_table(jsfbt, true, &mut key);
        push_char(&mut key, '|');
        append_str(&mut key, first.desc.as_str());
    } else {
        write_table(jsfbt, false, &mut key);
    }
    assert(key@ =~= hash_input(tv));
    jenkins_hash(key.as_str().as_bytes())
}

/// The identifier of a table: its hash written in base 62.
pub fn fbt_hash_key(jsfbt: &mut TableJSFBTTree<TableJSFBTTreeLeaf>) -> (r: String)
    requires
        old(jsfbt).model().leaves().len() > 0,
    ensures
        r@ == base_digits(table_hash(old(jsfbt).model().map(leaf_views())) as nat, 62),
        *final(jsfbt) == *old(jsfbt),
{
    let h = fbt_jenkins_hash(jsfbt);
    u32_to_base_n(h, 62)
}

} // verus!
