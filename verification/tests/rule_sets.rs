use lib::lexis::token::TokenSet;
use lib::syntax::index::RuleSet;
use lib::syntax::rule::{NodeSet, NON_RULE};

fn node_entries(set: &NodeSet) -> Vec<u16> {
    let mut iter = set.iter();
    let mut out = Vec::new();
    while let Some(rule) = iter.next() {
        out.push(rule);
    }
    out
}

#[test]
fn node_set_keeps_rules_sorted_and_unique() {
    let set = NodeSet::new(&[5, 1, 3, 5, 1]);
    assert_eq!(node_entries(&set), vec![1, 3, 5]);
    assert_eq!(set.len(), 3);
    assert!(set.contains(3));
    assert!(!set.contains(2));
    assert!(!set.contains(NON_RULE));
}

#[test]
fn node_set_empty() {
    let set = NodeSet::empty();
    assert!(set.is_empty());
    assert_eq!(set.len(), 0);
    assert_eq!(node_entries(&set), Vec::<u16>::new());
}

#[test]
fn node_set_insert_exclude() {
    let set = NodeSet::empty().insert(10).insert(2).insert(7);
    assert_eq!(node_entries(&set), vec![2, 7, 10]);
    let set = set.exclude(7);
    assert_eq!(node_entries(&set), vec![2, 10]);
    let set = set.exclude(99);
    assert_eq!(node_entries(&set), vec![2, 10]);
    let set = set.exclude(NON_RULE);
    assert_eq!(set.len(), 2);
}

#[test]
fn node_set_insert_then_exclude_restores() {
    let set = NodeSet::new(&[3, 9, 4]);
    let same = set.insert(6).exclude(6);
    assert!(same == set);
    let again = set.insert(9);
    assert!(again == set);
}

#[test]
fn node_set_full() {
    let rules: Vec<u16> = (0..16).rev().collect();
    let set = NodeSet::new(&rules);
    assert_eq!(set.len(), 16);
    assert_eq!(node_entries(&set), (0..16).collect::<Vec<u16>>());
    let set = set.insert(15);
    assert_eq!(set.len(), 16);
}

#[test]
fn node_set_all_operations() {
    let set = NodeSet::empty().include_all(&[4, 8, 15, 16, 23, 42]);
    let set = set.exclude_all(&[8, 23, 100]);
    assert_eq!(node_entries(&set), vec![4, 15, 16, 42]);
}

#[test]
fn rule_set_keeps_insertion_order() {
    let set = RuleSet::new(&[7, 3, 7, 1]);
    assert_eq!(set.to_vec(), vec![7, 3, 1]);
    assert_eq!(set.length(), 3);
    assert!(set.contains(7));
    assert!(set.contains(1));
    assert!(!set.contains(2));
    let set = set.exclude(3);
    assert_eq!(set.to_vec(), vec![7, 1]);
    assert_eq!(set.length(), 2);
    assert!(!set.contains(3));
    let set = set.insert(3);
    assert_eq!(set.to_vec(), vec![7, 1, 3]);
    assert!(set.contains(3));
    assert!(!set.is_empty());
    let set = set.exclude_all(&[1, 3, 7]);
    assert!(set.is_empty());
}

#[test]
fn rule_set_default_is_empty() {
    let set = RuleSet::default();
    assert!(set.is_empty());
    assert!(set == RuleSet::empty());
}

#[test]
fn token_set_bits() {
    let set = TokenSet::empty().insert(0).insert(127).insert(128).insert(255);
    assert!(set.contains(0));
    assert!(set.contains(127));
    assert!(set.contains(128));
    assert!(set.contains(255));
    assert!(!set.contains(1));
    assert!(!set.contains(200));
    let other = TokenSet::empty().insert(200);
    let union = set.union(other);
    assert!(union.contains(200));
    assert!(union.contains(127));
    assert!(TokenSet::all().contains(77));
    assert!(!TokenSet::empty().contains(77));
}

fn names<'a>(entries: &[(usize, &'a str)]) -> Vec<Option<&'a str>> {
    let mut result = vec![None; 64];
    for (rule, name) in entries {
        result[*rule] = Some(*name);
    }
    result
}

#[test]
fn node_set_display_sorts_names() {
    let set = NodeSet::new(&[5, 1, 3, 9, 40]);
    let table = names(&[(1, "Root"), (3, "Expr"), (5, "Block"), (9, "Expr")]);
    assert_eq!(set.display(&table), vec!["Block", "Expr", "Expr", "Root"]);
    assert!(NodeSet::empty().display(&table).is_empty());
}

#[test]
fn rule_set_display_sorts_descriptions() {
    let set = RuleSet::new(&[7, 2, 30]);
    let table = names(&[(2, "type"), (7, "function"), (30, "argument")]);
    assert_eq!(set.display(&table), vec!["argument", "function", "type"]);
    assert_eq!(set.display(&[]), Vec::<&str>::new());
}

#[test]
fn rule_set_exclude_undoes_insert() {
    let set = RuleSet::new(&[4, 9, 2]);
    let round_trip = set.insert(6).exclude(6);
    assert_eq!(round_trip.to_vec(), set.to_vec());
    assert_eq!(set.insert(9).to_vec(), vec![4, 9, 2]);
}

#[test]
fn rule_set_keeps_first_occurrences() {
    let set = RuleSet::new(&[2, 2, 1]);
    assert_eq!(set.to_vec(), vec![2, 1]);
    let set = RuleSet::new(&[3, 1, 2]);
    assert_eq!(set.exclude(1).to_vec(), vec![3, 2]);
    assert_eq!(set.exclude(7).to_vec(), vec![3, 1, 2]);
    assert_eq!(set.include_all(&[5, 1, 5, 4]).to_vec(), vec![3, 1, 2, 5, 4]);
    assert_eq!(set.exclude_all(&[2, 9, 3]).to_vec(), vec![1]);
}

#[test]
fn built_node_sets_are_well_formed() {
    assert!(NodeSet::empty().is_well_formed());
    assert!(NodeSet::new(&[9, 2, 40]).is_well_formed());
    assert!(NodeSet::new(&[9, 2, 40]).exclude(2).is_well_formed());
}
