use fbtee_core::arguments::{CandidateValues, GenderConst, NumberConst, SVArgValue, StringVariationArg};
use fbtee_core::element::{FbtElementNode, FbtError};
use fbtee_core::hash::{fbt_hash_key, jenkins_hash, u32_to_base_n};
use fbtee_core::jsfbt::{TableJSFBTTree, TableJSFBTTreeLeaf};
use fbtee_core::jsfbt_builder::JSFbtBuilder;
use fbtee_core::nodes::{FbtChildNodeEnum, FbtListNode};
use fbtee_core::transform::{compile_phrase, display_table, replace_clear_tokens_with_token_aliases};
use fbtee_core::util::{normalize_spaces, normalize_text, token_name_to_text_pattern};

const NO_LIMIT: u64 = u64::MAX;

fn text(s: &str) -> FbtChildNodeEnum {
    FbtChildNodeEnum::Text(s.to_string())
}

fn gender_any(id: u64) -> StringVariationArg {
    StringVariationArg { node: id, candidate_values: CandidateValues::GenderConsts(vec![GenderConst::Any]) }
}

fn enum_node(name: &str, keys: &[&str], id: u64) -> FbtChildNodeEnum {
    FbtChildNodeEnum::Enum {
        name: name.to_string(),
        range: keys.iter().map(|k| k.to_string()).collect(),
        value: id,
    }
}

fn element(children: Vec<FbtChildNodeEnum>, desc: &str) -> FbtElementNode {
    FbtElementNode { children, desc: desc.to_string(), subject: None }
}

fn leaf(text: &str, desc: &str) -> TableJSFBTTreeLeaf {
    TableJSFBTTreeLeaf {
        desc: desc.to_string(),
        hash: None,
        outer_token_name: None,
        text: text.to_string(),
        token_aliases: None,
    }
}

fn base62_value(s: &str) -> u64 {
    let alphabet = "0123456789abcdefghijklmnopqrstuvwxyzABCDEFGHIJKLMNOPQRSTUVWXYZ";
    s.chars().fold(0u64, |acc, c| acc * 62 + alphabet.find(c).unwrap() as u64)
}

#[test]
fn jenkins_hash_of_known_inputs() {
    assert_eq!(jenkins_hash(b"a"), 3392050242);
    assert_eq!(jenkins_hash(b""), 0);
}

#[test]
fn base62_digits() {
    assert_eq!(u32_to_base_n(0, 62), "");
    assert_eq!(u32_to_base_n(61, 62), "Z");
    assert_eq!(u32_to_base_n(62, 62), "10");
    assert_eq!(u32_to_base_n(3843, 62), "ZZ");
    assert_eq!(u32_to_base_n(u32::MAX, 62), "4GFfc3");
    assert_eq!(u32_to_base_n(5, 2), "101");
}

#[test]
fn base62_round_trip() {
    for n in [0u32, 1, 61, 62, 3392050242, u32::MAX] {
        let s = u32_to_base_n(n, 62);
        assert_eq!(base62_value(&s), n as u64);
        assert_eq!(u32_to_base_n(base62_value(&s) as u32, 62), s);
    }
}

#[test]
fn aliases_do_not_chain() {
    let aliases = Some(vec![("a".to_string(), "b".to_string()), ("b".to_string(), "c".to_string())]);
    assert_eq!(replace_clear_tokens_with_token_aliases("{a}{b}", &aliases), "{b}{c}");
}

#[test]
fn aliases_absent_or_unmatched() {
    assert_eq!(replace_clear_tokens_with_token_aliases("x {a} y", &None), "x {a} y");
    let aliases = Some(vec![("name".to_string(), "n1".to_string())]);
    assert_eq!(replace_clear_tokens_with_token_aliases("hi {name}, {name2} {nam", &aliases), "hi {n1}, {name2} {nam");
}

#[test]
fn token_pattern_wraps_name() {
    assert_eq!(token_name_to_text_pattern("count"), "{count}");
}

#[test]
fn whitespace_is_collapsed_and_trimmed() {
    assert_eq!(normalize_spaces("a \t\n b"), "a b");
    assert_eq!(normalize_spaces("a\u{a0}\u{a0}b"), "a\u{a0}\u{a0}b");
    assert_eq!(normalize_text("  Hello \n world  "), "Hello world");
}

#[test]
fn plain_phrase_is_one_leaf() {
    let e = element(vec![text("Hello world")], "greeting");
    let mut c = compile_phrase(&e, NO_LIMIT).unwrap();
    match &c.jsfbt.t {
        TableJSFBTTree::Leaf(l) => {
            assert_eq!(l.text, "Hello world");
            assert_eq!(l.desc, "greeting");
            assert!(l.token_aliases.is_none());
        }
        TableJSFBTTree::Branch(_) => panic!("expected a leaf"),
    }
    assert_eq!(c.hash_key, "29ANVK");
    assert_eq!(fbt_hash_key(&mut c.jsfbt.t), "29ANVK");
    assert!(c.jsfbt.m.is_empty());
}

#[test]
fn number_parameter_gives_two_keys() {
    let count = StringVariationArg {
        node: 1,
        candidate_values: CandidateValues::Numbers(vec![NumberConst::Any, NumberConst::ExactlyOne]),
    };
    let e = element(
        vec![
            text("You have "),
            FbtChildNodeEnum::Param { name: "count".to_string(), gender: None, number: Some(count) },
            text(" items"),
        ],
        "count phrase",
    );
    let c = compile_phrase(&e, NO_LIMIT).unwrap();
    match &c.jsfbt.t {
        TableJSFBTTree::Branch(ch) => {
            assert_eq!(ch.len(), 2);
            assert_eq!(ch[0].0, "*");
            assert_eq!(ch[1].0, "_1");
            for (_, t) in ch {
                match t {
                    TableJSFBTTree::Leaf(l) => assert_eq!(l.text, "You have {count} items"),
                    TableJSFBTTree::Branch(_) => panic!("expected a leaf"),
                }
            }
        }
        TableJSFBTTree::Leaf(_) => panic!("expected a branch"),
    }
    assert_eq!(c.hash_key, "1BJShJ");
    assert_eq!(c.jsfbt.m.len(), 1);
}

#[test]
fn shared_sources_count_once() {
    let args = vec![
        gender_any(1),
        gender_any(2),
        StringVariationArg {
            node: 3,
            candidate_values: CandidateValues::EnumKeys(vec!["a".to_string(), "b".to_string(), "c".to_string()]),
        },
    ];
    let b = JSFbtBuilder::new(args);
    assert_eq!(b.get_string_variation_combinations().len(), 3);
    assert_eq!(b.combination_count(), 3);
}

#[test]
fn repeated_identity_is_collapsed() {
    let keys = || CandidateValues::EnumKeys(vec!["x".to_string(), "y".to_string()]);
    let args = vec![
        StringVariationArg { node: 7, candidate_values: keys() },
        StringVariationArg { node: 7, candidate_values: keys() },
    ];
    let b = JSFbtBuilder::new(args);
    let combos = b.get_string_variation_combinations();
    assert_eq!(combos.len(), 2);
    assert_eq!(b.combination_count(), 2);
    for (combo, expected) in combos.iter().zip(["x", "y"]) {
        assert_eq!(combo.len(), 2);
        assert!(!combo[0].is_collapsible);
        assert!(combo[1].is_collapsible);
        assert_eq!(combo[0].value.to_string(), expected);
        assert_eq!(combo[1].value.to_string(), expected);
    }
}

#[test]
fn no_sources_give_one_empty_combination() {
    let b = JSFbtBuilder::new(vec![]);
    let combos = b.get_string_variation_combinations();
    assert_eq!(combos.len(), 1);
    assert!(combos[0].is_empty());
    assert_eq!(b.combination_count(), 1);
}

#[test]
fn enum_and_name_phrase() {
    let e = element(
        vec![
            FbtChildNodeEnum::Name { name: "user".to_string(), gender: gender_any(1) },
            text(" likes "),
            enum_node("fruit", &["pear", "apple"], 2),
        ],
        "likes",
    );
    let c = compile_phrase(&e, NO_LIMIT).unwrap();
    let TableJSFBTTree::Branch(top) = &c.jsfbt.t else { panic!("expected a branch") };
    assert_eq!(top.len(), 1);
    assert_eq!(top[0].0, "*");
    let TableJSFBTTree::Branch(inner) = &top[0].1 else { panic!("expected a branch") };
    let keys: Vec<&str> = inner.iter().map(|(k, _)| k.as_str()).collect();
    assert_eq!(keys, vec!["apple", "pear"]);
    let texts: Vec<String> = inner
        .iter()
        .map(|(_, t)| match t {
            TableJSFBTTree::Leaf(l) => l.text.clone(),
            TableJSFBTTree::Branch(_) => panic!("expected a leaf"),
        })
        .collect();
    assert_eq!(texts, vec!["{user} likes apple", "{user} likes pear"]);
}

#[test]
fn whitespace_variants_hash_alike() {
    let a = element(vec![text("Hello"), text("   "), text("world ")], "greeting");
    let b = element(vec![text(" Hello \n\t world")], "greeting");
    let ca = compile_phrase(&a, NO_LIMIT).unwrap();
    let cb = compile_phrase(&b, NO_LIMIT).unwrap();
    assert_eq!(ca.hash_key, cb.hash_key);
    assert_eq!(ca.hash_key, "29ANVK");
}

#[test]
fn compiling_twice_is_identical() {
    let e = element(vec![text("Pick "), enum_node("c", &["a", "b"], 5)], "pick");
    let c1 = compile_phrase(&e, NO_LIMIT).unwrap();
    let c2 = compile_phrase(&e, NO_LIMIT).unwrap();
    assert_eq!(c1.hash_key, c2.hash_key);
    assert_eq!(format!("{:?}", c1.jsfbt.t), format!("{:?}", c2.jsfbt.t));
}

#[test]
fn gender_and_number_is_refused() {
    let e = element(
        vec![FbtChildNodeEnum::Param {
            name: "p".to_string(),
            gender: Some(gender_any(1)),
            number: Some(StringVariationArg { node: 2, candidate_values: CandidateValues::Numbers(vec![NumberConst::Any]) }),
        }],
        "d",
    );
    assert_eq!(compile_phrase(&e, NO_LIMIT).unwrap_err(), FbtError::GenderAndNumber);
    assert!(e.build_table().is_err());
}

#[test]
fn empty_enum_is_refused() {
    let e = element(vec![enum_node("e", &[], 1)], "d");
    assert_eq!(compile_phrase(&e, NO_LIMIT).unwrap_err(), FbtError::EmptyCandidates);
}

#[test]
fn combination_limit_is_enforced() {
    let e = element(vec![enum_node("e", &["a", "b", "c"], 1), enum_node("f", &["x", "y"], 2)], "d");
    assert_eq!(compile_phrase(&e, 5).unwrap_err(), FbtError::TooManyCombinations);
    assert!(compile_phrase(&e, 6).is_ok());
}

#[test]
fn duplicate_key_path_is_refused() {
    let e = element(vec![enum_node("e", &["a", "a"], 1)], "d");
    assert_eq!(compile_phrase(&e, NO_LIMIT).unwrap_err(), FbtError::DuplicatePath);
}

#[test]
fn subject_adds_a_dimension() {
    let mut e = element(vec![text("Hi "), FbtChildNodeEnum::List(FbtListNode { name: "items".to_string() })], "d");
    e.subject = Some(gender_any(9));
    let c = compile_phrase(&e, NO_LIMIT).unwrap();
    let TableJSFBTTree::Branch(top) = &c.jsfbt.t else { panic!("expected a branch") };
    assert_eq!(top[0].0, "*");
    match &top[0].1 {
        TableJSFBTTree::Leaf(l) => assert_eq!(l.text, "Hi {items}"),
        TableJSFBTTree::Branch(_) => panic!("expected a leaf"),
    }
}

#[test]
fn table_keeps_keys_sorted() {
    let mut t: TableJSFBTTree<u32> = TableJSFBTTree::new_branch();
    t.add_leave(vec!["b".to_string(), "y".to_string()], 1);
    t.add_leave(vec!["a".to_string(), "z".to_string()], 2);
    t.add_leave(vec!["b".to_string(), "x".to_string()], 3);
    assert!(!t.can_add_leave(&vec!["b".to_string(), "x".to_string()]));
    assert!(!t.can_add_leave(&vec!["b".to_string()]));
    assert!(t.can_add_leave(&vec!["c".to_string()]));
    let mut leaves = Vec::new();
    t.on_each_leaf(&mut leaves);
    assert_eq!(leaves, vec![&2, &3, &1]);
    let doubled = t.map_leaves(&|x: u32| x as u64 * 2);
    let mut out = Vec::new();
    doubled.on_each_leaf(&mut out);
    assert_eq!(out, vec![&4u64, &6, &2]);
}

#[test]
fn distinct_descriptions_hash_per_leaf() {
    let mut t: TableJSFBTTree<TableJSFBTTreeLeaf> = TableJSFBTTree::new_branch();
    t.add_leave(vec!["b".to_string()], leaf("y", "d2"));
    t.add_leave(vec!["a".to_string()], leaf("x", "d1"));
    assert_eq!(fbt_hash_key(&mut t), "SFNK0");
}

#[test]
fn display_table_substitutes_aliases() {
    let mut l = leaf("{a} and {b}", "d");
    l.token_aliases = Some(vec![("a".to_string(), "b".to_string()), ("b".to_string(), "c".to_string())]);
    let shown = display_table(TableJSFBTTree::from(l));
    match shown {
        TableJSFBTTree::Leaf(s) => assert_eq!(s, "{b} and {c}"),
        TableJSFBTTree::Branch(_) => panic!("expected a leaf"),
    }
}

#[test]
fn value_keys() {
    assert_eq!(GenderConst::UnknownPlural.to_string(), "11");
    assert_eq!(GenderConst::NotAPerson.to_string(), "0");
    assert_eq!(GenderConst::Any.to_string(), "*");
    assert_eq!(NumberConst::ExactlyOne.to_string(), "_1");
    assert_eq!(SVArgValue::EnumKey("k".to_string()).to_string(), "k");
    assert_eq!(TableJSFBTTreeLeaf::default().text, "");
}

#[test]
fn quotes_and_controls_are_escaped() {
    let e = element(vec![text("say \"hi\"")], "d");
    assert_eq!(compile_phrase(&e, NO_LIMIT).unwrap().hash_key, "3eSnLK");
    let mut t = TableJSFBTTree::from(leaf("a\u{1}b\\c", "d"));
    assert_eq!(fbt_hash_key(&mut t), "4AGJsJ");
}

#[test]
fn aliases_enter_the_hash() {
    let mut l = leaf("{a}", "d");
    l.token_aliases = Some(vec![("a".to_string(), "x1".to_string())]);
    let mut t = TableJSFBTTree::from(l);
    assert_eq!(fbt_hash_key(&mut t), "4mpKAd");

    let mut k = leaf("t", "d1");
    k.token_aliases = Some(vec![("a".to_string(), "x1".to_string())]);
    let mut t2: TableJSFBTTree<TableJSFBTTreeLeaf> = TableJSFBTTree::new_branch();
    t2.add_leave(vec!["l".to_string()], leaf("u", "d2"));
    t2.add_leave(vec!["k".to_string()], k);
    assert_eq!(fbt_hash_key(&mut t2), "4w2oBb");
}

#[test]
fn trim_removes_no_break_space_at_the_ends() {
    assert_eq!(normalize_text("\u{a0} x \u{a0}"), "x");
    assert_eq!(normalize_text("x\u{a0} \u{a0}y"), "x\u{a0} \u{a0}y");
}

#[test]
fn known_tags() {
    assert!(fbtee_core::transform::is_known_tag("fbt"));
    assert!(fbtee_core::transform::is_known_tag("fbs"));
    assert!(!fbtee_core::transform::is_known_tag("fb"));
    assert!(fbtee_core::transform::is_known_child_tag("list"));
    assert!(!fbtee_core::transform::is_known_child_tag("lists"));
}

