use gba_test::ledger::{Ledger, TestOutcomes};
use gba_test::modules::{adjust_index_for_new_parent, find_parent_in_outcomes, same_path};
use gba_test::Outcome;

fn p(parts: &[&str]) -> Vec<String> {
    parts.iter().map(|s| s.to_string()).collect()
}

fn finished(modules: Vec<Vec<String>>) -> TestOutcomes {
    let n = modules.len();
    let mut ledger = Ledger::new(modules, vec![0; 256]);
    for _ in 0..n {
        ledger.start_test().unwrap();
        ledger.complete_test(Outcome::Passed).unwrap();
    }
    ledger.outcomes()
}

fn tree() -> TestOutcomes {
    finished(vec![
        p(&["a"]),
        p(&["a", "b"]),
        p(&["a", "b", "c"]),
        p(&["d"]),
        p(&["a", "e"]),
    ])
}

#[test]
fn top_level_lists_each_module_once() {
    assert_eq!(tree().modules(&p(&[])), vec![p(&["a"]), p(&["d"])]);
}

#[test]
fn expanding_a_module_lists_its_children_in_order() {
    assert_eq!(
        tree().modules(&p(&["a"])),
        vec![p(&["a"]), p(&["a", "b"]), p(&["d"]), p(&["a", "e"])]
    );
    assert_eq!(
        tree().modules(&p(&["a", "b"])),
        vec![p(&["a"]), p(&["a", "b"]), p(&["a", "b", "c"]), p(&["d"]), p(&["a", "e"])]
    );
}

#[test]
fn finding_the_parent() {
    let out = tree();
    assert_eq!(find_parent_in_outcomes(&out, &p(&["a", "b"])), Some(p(&["a", "b"])));
    assert_eq!(find_parent_in_outcomes(&out, &p(&["z"])), None);
    assert_eq!(find_parent_in_outcomes(&out, &p(&[])), None);
}

#[test]
fn adjusting_the_index() {
    let list: Vec<Vec<String>> = (0..40).map(|i| p(&[&format!("m{i}")])).collect();
    assert_eq!(adjust_index_for_new_parent(3, &list, &p(&["m5"])), (5, 3));
    assert_eq!(adjust_index_for_new_parent(10, &list, &p(&["m5"])), (5, 5));
    assert_eq!(adjust_index_for_new_parent(0, &list, &p(&["m30"])), (30, 13));
    assert_eq!(adjust_index_for_new_parent(13, &list, &p(&["m30"])), (30, 13));
    assert_eq!(adjust_index_for_new_parent(7, &list, &p(&["nope"])), (0, 0));
}

#[test]
fn comparing_paths() {
    assert!(same_path(&p(&["a", "b"]), &p(&["a", "b"])));
    assert!(!same_path(&p(&["a", "b"]), &p(&["a"])));
    assert!(!same_path(&p(&["a", "b"]), &p(&["a", "c"])));
}

use gba_test::mmio::{KeyInput, KEY_A, KEY_B, KEY_DOWN, KEY_LEFT, KEY_NONE, KEY_RIGHT, KEY_UP};
use gba_test::modules::{ModuleAction, ModuleBrowser};

fn tap(b: &mut ModuleBrowser, out: &TestOutcomes, key: u16) -> ModuleAction {
    let action = b.press(out, KeyInput(key));
    assert!(matches!(b.press(out, KeyInput(KEY_NONE)), ModuleAction::Wait));
    action
}

#[test]
fn module_browser_expands_and_collapses() {
    let out = tree();
    let mut b = ModuleBrowser::new(&out, &p(&[]));
    assert_eq!(b.parent(), &p(&[]));
    // Rows: every module, a, d.
    tap(&mut b, &out, KEY_DOWN);
    assert_eq!(b.selected(), 1);
    assert!(matches!(tap(&mut b, &out, KEY_RIGHT), ModuleAction::Redraw));
    assert_eq!(b.parent(), &p(&["a"]));
    // Rows under a: every module, a, a::b, d, a::e; a stays selected.
    assert_eq!(b.selected(), 1);
    tap(&mut b, &out, KEY_DOWN);
    tap(&mut b, &out, KEY_RIGHT);
    assert_eq!(b.parent(), &p(&["a", "b"]));
    assert_eq!(b.selected(), 2);
    tap(&mut b, &out, KEY_UP);
    tap(&mut b, &out, KEY_LEFT);
    assert_eq!(b.parent(), &p(&[]));
    match tap(&mut b, &out, KEY_A) {
        ModuleAction::Select(Some(path)) => assert_eq!(path, p(&["a"])),
        _ => panic!("expected a module"),
    }
}

#[test]
fn module_browser_choices() {
    let out = tree();
    let mut b = ModuleBrowser::new(&out, &p(&["z"]));
    assert_eq!(b.parent(), &p(&[]));
    assert!(matches!(tap(&mut b, &out, KEY_A), ModuleAction::Select(None)));
    assert!(matches!(tap(&mut b, &out, KEY_B), ModuleAction::Cancel));
    for _ in 0..5 {
        tap(&mut b, &out, KEY_DOWN);
    }
    assert_eq!(b.selected(), 5);
    assert!(matches!(tap(&mut b, &out, KEY_A), ModuleAction::Wait));
    assert!(matches!(tap(&mut b, &out, KEY_LEFT), ModuleAction::Wait));
}

#[test]
fn module_browser_keeps_a_listed_parent() {
    let out = tree();
    let b = ModuleBrowser::new(&out, &p(&["a", "b"]));
    assert_eq!(b.parent(), &p(&["a", "b"]));
    assert_eq!(b.selected(), 0);
    assert_eq!(b.first_shown(), 0);
}
