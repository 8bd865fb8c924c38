use reestr::dump::dump;
use reestr::dump::node_eq;
use reestr::dump::DumpNode;
use reestr::tree::RegBranch;

fn entry(name: &str, data: &str) -> Option<(String, String)> {
    Some((name.to_string(), data.to_string()))
}

fn leaf(entries: Vec<Option<(String, String)>>) -> RegBranch {
    RegBranch { entries, children: Vec::new() }
}

#[test]
fn empty_branch_dumps_to_placeholder() {
    let b = leaf(Vec::new());
    let d = dump(&b);
    assert!(matches!(d, DumpNode::Empty));
}

#[test]
fn all_failed_branch_dumps_to_placeholder() {
    let b = RegBranch { entries: vec![None, None], children: vec![None] };
    let d = dump(&b);
    assert!(matches!(d, DumpNode::Empty));
}

#[test]
fn values_only_branch_keeps_every_entry_in_order() {
    let b = leaf(vec![entry("a", "1"), entry("b", "2"), entry("c", "3")]);
    match dump(&b) {
        DumpNode::Branch { values, subkeys } => {
            assert_eq!(values.len(), 3);
            assert_eq!(values[0], ("a".to_string(), "1".to_string()));
            assert_eq!(values[1], ("b".to_string(), "2".to_string()));
            assert_eq!(values[2], ("c".to_string(), "3".to_string()));
            assert_eq!(subkeys.len(), 0);
        }
        DumpNode::Empty => panic!("expected a document with values"),
    }
}

#[test]
fn recursion_depth_matches_tree_depth() {
    let child = leaf(vec![entry("inner", "x")]);
    let b = RegBranch {
        entries: vec![entry("outer", "y")],
        children: vec![Some(("Child".to_string(), child))],
    };
    match dump(&b) {
        DumpNode::Branch { values, subkeys } => {
            assert_eq!(values.len(), 1);
            assert_eq!(values[0], ("outer".to_string(), "y".to_string()));
            assert_eq!(subkeys.len(), 1);
            assert_eq!(subkeys[0].0, "Child");
            match &subkeys[0].1 {
                DumpNode::Branch { values, subkeys } => {
                    assert_eq!(values.len(), 1);
                    assert_eq!(values[0], ("inner".to_string(), "x".to_string()));
                    assert_eq!(subkeys.len(), 0);
                }
                DumpNode::Empty => panic!("expected a nested document with one value"),
            }
        }
        DumpNode::Empty => panic!("expected a document with a subkey"),
    }
}

#[test]
fn failed_entry_is_skipped_not_fatal() {
    let b = leaf(vec![None, entry("ok", "fine")]);
    match dump(&b) {
        DumpNode::Branch { values, subkeys } => {
            assert_eq!(values.len(), 1);
            assert_eq!(values[0], ("ok".to_string(), "fine".to_string()));
            assert_eq!(subkeys.len(), 0);
        }
        DumpNode::Empty => panic!("expected the decoded entry to survive"),
    }
}

#[test]
fn failed_child_is_skipped_not_fatal() {
    let b = RegBranch {
        entries: vec![entry("v", "1")],
        children: vec![None, Some(("Kept".to_string(), leaf(vec![entry("w", "2")])))],
    };
    match dump(&b) {
        DumpNode::Branch { subkeys, .. } => {
            assert_eq!(subkeys.len(), 1);
            assert_eq!(subkeys[0].0, "Kept");
        }
        DumpNode::Empty => panic!("expected the opened child to survive"),
    }
}

#[test]
fn empty_child_becomes_placeholder_subkey() {
    let b = RegBranch {
        entries: Vec::new(),
        children: vec![Some(("Hollow".to_string(), leaf(Vec::new())))],
    };
    match dump(&b) {
        DumpNode::Branch { values, subkeys } => {
            assert_eq!(values.len(), 0);
            assert_eq!(subkeys.len(), 1);
            assert_eq!(subkeys[0].0, "Hollow");
            assert!(matches!(subkeys[0].1, DumpNode::Empty));
        }
        DumpNode::Empty => panic!("expected a document with one subkey"),
    }
}

#[test]
fn two_dumps_of_one_branch_are_identical() {
    let child = leaf(vec![entry("k", "v"), None]);
    let b = RegBranch {
        entries: vec![entry("a", "1"), None, entry("b", "2")],
        children: vec![Some(("C".to_string(), child)), None],
    };
    let d1 = dump(&b);
    let d2 = dump(&b);
    assert!(node_eq(&d1, &d2));
}

#[test]
fn node_eq_tells_different_documents_apart() {
    let d1 = dump(&leaf(vec![entry("a", "1")]));
    let d2 = dump(&leaf(vec![entry("a", "2")]));
    let d3 = dump(&leaf(Vec::new()));
    assert!(!node_eq(&d1, &d2));
    assert!(!node_eq(&d1, &d3));
    assert!(node_eq(&d1, &d1));
}
