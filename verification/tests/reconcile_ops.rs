use elmore::html::Attr;
use elmore::reconcile::{checked_to_sync, reuse_plan, stale_attributes, value_to_sync};

fn keys(ks: &[Option<&str>]) -> Vec<Option<String>> {
    ks.iter().map(|k| k.map(|s| s.to_string())).collect()
}

fn attr(name: &'static str, value: &str) -> Attr {
    Attr::new(name, value.to_string())
}

#[test]
fn keyed_reorder_reuses_the_same_nodes() {
    let old = keys(&[Some("a"), Some("b")]);
    let new = keys(&[Some("b"), Some("a")]);
    assert_eq!(reuse_plan(&new, &old), vec![Some(1), Some(0)]);
}

#[test]
fn keyed_removal_leaves_siblings_matched() {
    let old = keys(&[Some("a"), Some("b"), Some("c")]);
    let new = keys(&[Some("a"), Some("c")]);
    assert_eq!(reuse_plan(&new, &old), vec![Some(0), Some(2)]);
}

#[test]
fn unkeyed_children_match_positionally() {
    let old = keys(&[None, None]);
    let new = keys(&[None, None, None]);
    assert_eq!(reuse_plan(&new, &old), vec![Some(0), Some(1), None]);
}

#[test]
fn unkeyed_children_never_take_a_keyed_slot() {
    let old = keys(&[Some("a"), None]);
    let new = keys(&[None, None]);
    assert_eq!(reuse_plan(&new, &old), vec![None, Some(1)]);
}

#[test]
fn new_keys_build_fresh_nodes() {
    let old = keys(&[Some("a")]);
    let new = keys(&[Some("z"), Some("a")]);
    assert_eq!(reuse_plan(&new, &old), vec![None, Some(0)]);
}

#[test]
fn repeated_keys_take_the_first_free_match() {
    let old = keys(&[Some("a"), Some("a")]);
    let new = keys(&[Some("a"), Some("a"), Some("a")]);
    assert_eq!(reuse_plan(&new, &old), vec![Some(0), Some(1), None]);
}

#[test]
fn empty_trees() {
    assert_eq!(reuse_plan(&Vec::new(), &keys(&[Some("a")])), Vec::<Option<usize>>::new());
    assert_eq!(reuse_plan(&keys(&[None]), &Vec::new()), vec![None]);
}

#[test]
fn removed_attributes_are_reported_in_old_order() {
    let old = vec![attr("disabled", ""), attr("class", "a"), attr("id", "x")];
    let new = vec![attr("class", "b")];
    assert_eq!(stale_attributes(&new, &old), vec!["disabled", "id"]);
    assert!(stale_attributes(&old, &old).is_empty());
    assert!(stale_attributes(&old, &[]).is_empty());
}

#[test]
fn value_property_follows_the_controlled_semantics() {
    let with_value = vec![attr("class", "c"), attr("value", "ab"), attr("value", "zz")];
    let without = vec![attr("class", "c")];
    assert_eq!(value_to_sync(&with_value, None), Some("ab".to_string()));
    assert_eq!(value_to_sync(&with_value, Some(&without)), Some("ab".to_string()));
    // The attribute just disappeared: the field is cleared.
    assert_eq!(value_to_sync(&without, Some(&with_value)), Some(String::new()));
    // Never controlled: left alone.
    assert_eq!(value_to_sync(&without, Some(&without)), None);
    assert_eq!(value_to_sync(&without, None), None);
}

#[test]
fn checked_property_follows_the_controlled_semantics() {
    let checked = vec![attr("type", "checkbox"), attr("checked", "")];
    let unchecked = vec![attr("type", "checkbox")];
    assert_eq!(checked_to_sync(&checked, None), Some(true));
    assert_eq!(checked_to_sync(&unchecked, Some(&checked)), Some(false));
    assert_eq!(checked_to_sync(&unchecked, Some(&unchecked)), None);
    assert_eq!(checked_to_sync(&unchecked, None), None);
}

use elmore::reconcile::{placements, Placement};

fn apply(children: &mut Vec<usize>, ops: &[Placement]) {
    for op in ops {
        match *op {
            Placement::InsertBefore { node, before } => {
                if let Some(q) = children.iter().position(|c| *c == node) {
                    children.remove(q);
                }
                match before {
                    Some(b) => {
                        let at = children.iter().position(|c| *c == b).unwrap();
                        children.insert(at, node);
                    }
                    None => children.push(node),
                }
            }
            Placement::Remove(node) => {
                let q = children.iter().position(|c| *c == node).unwrap();
                children.remove(q);
            }
        }
    }
}

#[test]
fn placing_children_in_order_leaves_settled_nodes_alone() {
    let ops = placements(&vec![0, 1, 2], &vec![0, 1, 2]);
    assert!(ops.is_empty());
}

#[test]
fn placing_a_swap_moves_one_node() {
    let current = vec![0, 1];
    let ops = placements(&current, &vec![1, 0]);
    assert_eq!(ops, vec![Placement::InsertBefore { node: 1, before: Some(0) }]);
    let mut children = current.clone();
    apply(&mut children, &ops);
    assert_eq!(children, vec![1, 0]);
}

#[test]
fn placing_removes_stale_nodes_and_appends_new_ones() {
    let current = vec![0, 1, 2];
    let desired = vec![0, 2, 3];
    let ops = placements(&current, &desired);
    assert_eq!(
        ops,
        vec![
            Placement::InsertBefore { node: 2, before: Some(1) },
            Placement::InsertBefore { node: 3, before: Some(1) },
            Placement::Remove(1),
        ]
    );
    let mut children = current.clone();
    apply(&mut children, &ops);
    assert_eq!(children, desired);
}

#[test]
fn placing_into_an_empty_parent() {
    let ops = placements(&Vec::new(), &vec![4, 5]);
    assert_eq!(
        ops,
        vec![
            Placement::InsertBefore { node: 4, before: None },
            Placement::InsertBefore { node: 5, before: None },
        ]
    );
    assert_eq!(placements(&vec![0, 1], &Vec::new()), vec![Placement::Remove(0), Placement::Remove(1)]);
}

#[test]
fn placing_settled_children_emits_nothing() {
    assert!(placements(&vec![3, 1, 2], &vec![3, 1, 2]).is_empty());
    assert!(placements(&Vec::new(), &Vec::new()).is_empty());
}
