use pzmod::copy::{copy_tree, CopyStep, Item, Kind};

fn item(name: &str, kind: Kind) -> Item {
    Item { name: name.to_string(), path: format!("src/{name}"), kind }
}

#[test]
fn a_directory_is_copied_in_order_of_listing() {
    let plan = copy_tree(&vec![item("b", Kind::File), item("A", Kind::Dir), item("c", Kind::File)]);
    assert!(plan.steps == [CopyStep::Enter(1), CopyStep::Copy(0), CopyStep::Copy(2)]);
    assert_eq!(plan.fault, None);
}

#[test]
fn links_are_not_copied() {
    let plan = copy_tree(&vec![item("b", Kind::Other), item("a", Kind::File), item("c", Kind::File)]);
    assert!(plan.steps == [CopyStep::Copy(1)]);
    assert_eq!(plan.fault, Some("Không hỗ trợ symlink trong mod: src/b".to_string()));
    let plan = copy_tree(&vec![item("a", Kind::Unread("denied".to_string()))]);
    assert!(plan.steps.is_empty());
    assert_eq!(plan.fault, Some("Không đọc được loại file src/a: denied".to_string()));
}
