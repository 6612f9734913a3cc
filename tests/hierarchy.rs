use taso::browse::{Key, Signal, State, Tree};
use taso::cascade::{descendants, done, mark_done};
use taso::date::Date;
use taso::error::Error;
use taso::hierarchy::{
    add_todo, clean, modify_todo, move_to_children, move_to_top, next_id, remove_child_id,
    remove_todo, remove_todos,
};
use taso::model::{Todo, TodoMap};
use taso::store::Store;
use taso::tree::build_tree;
use taso::ui::tree::TreeUI;

fn day(y: i32, m: u32, d: u32) -> Date {
    Date::from_ymd(y, m, d).unwrap()
}

fn todo(desc: &str, children: Option<Vec<u32>>, parent: Option<u32>) -> Todo {
    Todo::new(desc.to_string(), None, children, parent, day(2024, 1, 1), None)
}

/// 1 with children 2 and 3, 2 with child 4.
fn sample() -> TodoMap {
    let mut m = TodoMap::new();
    m.insert(1, todo("root", Some(vec![2, 3]), None));
    m.insert(2, todo("two", Some(vec![4]), Some(1)));
    m.insert(3, todo("three", None, Some(1)));
    m.insert(4, todo("four", None, Some(2)));
    m
}

/// Parent/children duality over the whole list.
fn consistent(m: &TodoMap) -> bool {
    for &id in m.ids() {
        let t = m.get(id).unwrap();
        if let Some(p) = t.parent {
            match m.get(p) {
                Some(pt) => {
                    if !pt.children.as_ref().map_or(false, |c| c.contains(&id)) {
                        return false;
                    }
                }
                None => return false,
            }
        }
        if let Some(ch) = &t.children {
            for c in ch {
                match m.get(*c) {
                    Some(ct) => {
                        if ct.parent != Some(id) {
                            return false;
                        }
                    }
                    None => return false,
                }
            }
        }
    }
    true
}

#[test]
fn next_id_is_one_past_largest() {
    let mut m = TodoMap::new();
    assert_eq!(next_id(&m), Ok(1));
    m.insert(1, todo("a", None, None));
    m.insert(3, todo("b", None, None));
    m.insert(7, todo("c", None, None));
    assert_eq!(next_id(&m), Ok(8));
    m.remove(7);
    assert_eq!(next_id(&m), Ok(4));
}

#[test]
fn next_id_exhausted() {
    let mut m = TodoMap::new();
    m.insert(u32::MAX, todo("last", None, None));
    assert_eq!(next_id(&m), Err(Error::IdExhausted));
}

#[test]
fn ids_stay_ascending() {
    let mut m = TodoMap::new();
    m.insert(5, todo("a", None, None));
    m.insert(2, todo("b", None, None));
    m.insert(9, todo("c", None, None));
    m.insert(2, todo("d", None, None));
    assert_eq!(m.ids().clone(), vec![2, 5, 9]);
    assert_eq!(m.get(2).unwrap().desc, "d");
    assert_eq!(m.len(), 3);
    assert_eq!(m.max_id(), 9);
}

#[test]
fn removal_needs_empty_children() {
    let mut m = sample();
    assert_eq!(remove_todo(&mut m, 2).unwrap_err(), Error::HasChildren);
    assert!(m.contains_key(2));
    let removed = remove_todo(&mut m, 4).unwrap();
    assert_eq!(removed.desc, "four");
    assert_eq!(m.get(2).unwrap().children, None);
    let removed = remove_todo(&mut m, 2).unwrap();
    assert_eq!(removed.desc, "two");
    assert_eq!(m.get(1).unwrap().children, Some(vec![3]));
    assert!(consistent(&m));
    assert_eq!(remove_todo(&mut m, 42).unwrap_err(), Error::NoSuchTodo);
}

#[test]
fn batch_removal_skips_and_goes_on() {
    let mut m = sample();
    let (removed, skipped) = remove_todos(&mut m, &vec![9, 2, 4, 3]);
    let descs: Vec<String> = removed.iter().map(|t| t.desc.clone()).collect();
    assert_eq!(descs, vec!["four".to_string(), "three".to_string()]);
    assert_eq!(skipped, vec![9, 2]);
    assert!(consistent(&m));
}

#[test]
fn invariant_holds_through_moves_inserts_and_removals() {
    let mut m = sample();
    assert!(consistent(&m));
    move_to_children(&mut m, 4, 3).unwrap();
    assert!(consistent(&m));
    assert_eq!(m.get(3).unwrap().children, Some(vec![4]));
    assert_eq!(m.get(2).unwrap().children, None);
    move_to_top(&mut m, 3).unwrap();
    assert!(consistent(&m));
    assert_eq!(m.get(3).unwrap().parent, None);
    assert_eq!(m.get(1).unwrap().children, Some(vec![2]));
    let id = add_todo(&mut m, Some(2), "five".to_string(), None, day(2024, 2, 1)).unwrap();
    assert_eq!(id, 5);
    assert!(consistent(&m));
    assert_eq!(m.get(2).unwrap().children, Some(vec![5]));
    remove_todo(&mut m, 5).unwrap();
    assert!(consistent(&m));
    move_to_children(&mut m, 1, 3).unwrap();
    assert!(consistent(&m));
    assert_eq!(m.get(3).unwrap().children, Some(vec![4, 1]));
}

#[test]
fn move_rejects_cycles_and_missing() {
    let mut m = sample();
    assert_eq!(move_to_children(&mut m, 1, 4), Err(Error::WouldCreateCycle));
    assert_eq!(move_to_children(&mut m, 2, 2), Err(Error::WouldCreateCycle));
    assert_eq!(move_to_children(&mut m, 2, 8), Err(Error::NoSuchTodo));
    assert_eq!(move_to_top(&mut m, 8), Err(Error::NoSuchTodo));
    assert!(consistent(&m));
    assert_eq!(m.get(1).unwrap().children, Some(vec![2, 3]));
}

#[test]
fn move_to_top_of_root_changes_nothing() {
    let mut m = sample();
    move_to_top(&mut m, 1).unwrap();
    assert_eq!(m.get(1).unwrap().children, Some(vec![2, 3]));
    assert_eq!(m.get(1).unwrap().parent, None);
}

#[test]
fn remove_child_id_collapses_empty() {
    let mut m = sample();
    remove_child_id(&mut m, 2, 4).unwrap();
    assert_eq!(m.get(2).unwrap().children, None);
    assert_eq!(remove_child_id(&mut m, 9, 4), Err(Error::NoSuchTodo));
}

#[test]
fn add_under_missing_parent_fails() {
    let mut m = sample();
    let r = add_todo(&mut m, Some(10), "x".to_string(), None, day(2024, 1, 1));
    assert_eq!(r, Err(Error::NoSuchTodo));
    assert_eq!(m.len(), 4);
}

#[test]
fn modify_changes_given_fields() {
    let mut m = sample();
    modify_todo(&mut m, 3, Some("new".to_string()), None).unwrap();
    assert_eq!(m.get(3).unwrap().desc, "new");
    assert_eq!(m.get(3).unwrap().link, None);
    modify_todo(&mut m, 3, None, Some("https://x".to_string())).unwrap();
    assert_eq!(m.get(3).unwrap().desc, "new");
    assert_eq!(m.get(3).unwrap().link, Some("https://x".to_string()));
    assert_eq!(modify_todo(&mut m, 30, None, None), Err(Error::NoSuchTodo));
}

#[test]
fn done_twice_skips_and_keeps_date() {
    let mut m = sample();
    let (ok, skip) = mark_done(&mut m, &vec![3], Some(day(2024, 3, 1)));
    assert_eq!((ok, skip), (vec![3], vec![]));
    let (ok, skip) = mark_done(&mut m, &vec![3, 4], Some(day(2024, 4, 1)));
    assert_eq!(ok, vec![4]);
    assert_eq!(skip, vec![3]);
    assert_eq!(m.get(3).unwrap().complete_at, Some(day(2024, 3, 1)));
    let (ok, skip) = mark_done(&mut m, &vec![3, 77], None);
    assert_eq!((ok, skip), (vec![3], vec![77]));
    assert_eq!(m.get(3).unwrap().complete_at, None);
}

#[test]
fn recursive_done_covers_descendants_once() {
    let m = sample();
    let mut all = descendants(&m, &vec![1, 4]);
    all.sort();
    assert_eq!(all, vec![1, 2, 3, 4]);
    let mut m = sample();
    let (mut ok, skip) = done(&mut m, &vec![1, 4], false, true, day(2024, 5, 5));
    ok.sort();
    assert_eq!(ok, vec![1, 2, 3, 4]);
    assert!(skip.is_empty());
    assert_eq!(m.get(4).unwrap().complete_at, Some(day(2024, 5, 5)));
}

#[test]
fn descendants_survive_a_cycle_and_missing_ids() {
    let mut m = TodoMap::new();
    m.insert(1, todo("a", Some(vec![2, 9]), Some(2)));
    m.insert(2, todo("b", Some(vec![1]), Some(1)));
    let mut all = descendants(&m, &vec![1, 5]);
    all.sort();
    assert_eq!(all, vec![1, 2]);
}

#[test]
fn clean_removes_completed_up_to_date() {
    let mut m = sample();
    mark_done(&mut m, &vec![3], Some(day(2024, 3, 1)));
    mark_done(&mut m, &vec![4], Some(day(2024, 3, 9)));
    let (removed, skipped) = clean(&mut m, day(2024, 3, 5));
    assert_eq!(removed.len(), 1);
    assert_eq!(removed[0].desc, "three");
    assert!(skipped.is_empty());
    assert!(m.contains_key(4));
    assert!(consistent(&m));
}

#[test]
fn tree_siblings_in_ascending_order() {
    let mut m = TodoMap::new();
    m.insert(1, todo("root", Some(vec![3, 2]), None));
    m.insert(3, todo("leaf three", None, Some(1)));
    m.insert(2, todo("leaf two", None, Some(1)));
    let rows = build_tree(&m).unwrap();
    let ids: Vec<u32> = rows.iter().map(|r| r.id).collect();
    assert_eq!(ids, vec![1, 2, 3]);
    let depths: Vec<usize> = rows.iter().map(|r| r.depth).collect();
    assert_eq!(depths, vec![0, 1, 1]);
    assert!(rows[0].branch);
    assert!(!rows[1].branch);
    assert_eq!(rows[1].text.id, "2");
    assert_eq!(rows[1].text.desc, "leaf two");
}

#[test]
fn tree_roots_in_ascending_order() {
    let mut m = sample();
    m.insert(0, todo("zero", None, None));
    let rows = build_tree(&m).unwrap();
    let ids: Vec<u32> = rows.iter().map(|r| r.id).collect();
    assert_eq!(ids, vec![0, 1, 2, 4, 3]);
}

#[test]
fn tree_rejects_dangling_child() {
    let mut m = TodoMap::new();
    m.insert(1, todo("root", Some(vec![5]), None));
    assert_eq!(build_tree(&m).unwrap_err(), Error::DanglingReference);
}

#[test]
fn tree_rejects_cycle() {
    let mut m = TodoMap::new();
    m.insert(1, todo("root", Some(vec![1]), None));
    assert_eq!(build_tree(&m).unwrap_err(), Error::Cyclic);
}

#[test]
fn tree_shows_completion_date() {
    let mut m = sample();
    mark_done(&mut m, &vec![3], Some(day(2024, 3, 1)));
    let rows = build_tree(&m).unwrap();
    let three = rows.iter().find(|r| r.id == 3).unwrap();
    assert_eq!(three.text.complete, Some("2024-03-01".to_string()));
    assert_eq!(three.text.to_text(), "#3 three2024-03-01");
}

fn browser() -> Tree {
    TreeUI::tree(&"work".to_string(), &sample()).unwrap()
}

#[test]
fn folding_hides_exactly_the_subtree() {
    let mut t = browser();
    assert_eq!(t.kinds().clone(), vec![0, 1, 2, 3]);
    t.forward();
    assert_eq!(t.position(), 1);
    t.toggle();
    assert_eq!(t.kinds().clone(), vec![0, 1, 3]);
    assert_eq!(t.position(), 1);
    t.toggle();
    assert_eq!(t.kinds().clone(), vec![0, 1, 2, 3]);
    t.move_to_head();
    t.toggle();
    assert_eq!(t.kinds().clone(), vec![0]);
    t.toggle();
    assert_eq!(t.kinds().clone(), vec![0, 1, 2, 3]);
}

#[test]
fn leaf_toggle_changes_nothing() {
    let mut t = browser();
    t.move_to_tail();
    assert_eq!(t.position(), 3);
    t.toggle();
    assert_eq!(t.kinds().clone(), vec![0, 1, 2, 3]);
    assert!(!t.row(3).folded);
}

#[test]
fn cursor_stops_at_both_ends() {
    let mut t = browser();
    assert!(!t.backward());
    assert_eq!(t.position(), 0);
    t.move_to_tail();
    assert!(!t.forward());
    assert_eq!(t.position(), 3);
    assert!(t.backward());
    assert_eq!(t.position(), 2);
}

#[test]
fn path_runs_from_root() {
    let mut t = browser();
    t.forward();
    t.forward();
    assert_eq!(t.get(), vec!["work".to_string(), "1".to_string(), "2".to_string(), "4".to_string()]);
    t.move_to_tail();
    assert_eq!(t.get(), vec!["work".to_string(), "1".to_string(), "3".to_string()]);
}

#[test]
fn key_bindings() {
    let mut t = browser();
    assert_eq!(taso::browse::default(Key::Char('j'), &mut t), Ok(Signal::Continue));
    assert_eq!(t.position(), 1);
    assert_eq!(taso::browse::default(Key::Char('k'), &mut t), Ok(Signal::Continue));
    assert_eq!(t.position(), 0);
    assert_eq!(taso::browse::default(Key::Char(' '), &mut t), Ok(Signal::Continue));
    assert_eq!(t.kinds().clone(), vec![0]);
    assert_eq!(taso::browse::default(Key::Char('x'), &mut t), Ok(Signal::Continue));
    assert_eq!(taso::browse::default(Key::Enter, &mut t), Ok(Signal::Quit));
    assert_eq!(taso::browse::default(Key::Char('q'), &mut t), Ok(Signal::Quit));
    assert_eq!(taso::browse::default(Key::CtrlC, &mut t), Err(Error::Interrupted));
}

#[test]
fn window_scrolls_one_line_at_a_time() {
    let mut s = State::new(browser());
    s.set_list_end(2);
    s.follow_cursor();
    assert_eq!((s.list_start, s.list_end), (0, 2));
    let lines = s.window();
    assert_eq!(lines.len(), 2);
    assert!(lines[0].active);
    assert_eq!(lines[0].marker, Some(false));
    assert_eq!(lines[0].id, "1");
    s.tree.forward();
    s.tree.forward();
    s.follow_cursor();
    assert_eq!((s.list_start, s.list_end), (1, 3));
    let lines = s.window();
    assert_eq!(lines.len(), 2);
    assert_eq!(lines[1].id, "4");
    assert!(lines[1].active);
    assert_eq!(lines[1].marker, None);
    s.tree.move_to_head();
    s.follow_cursor();
    assert_eq!((s.list_start, s.list_end), (0, 2));
}

#[test]
fn store_lists_and_lookup() {
    let mut s = Store::create("main".to_string(), vec!["side".to_string(), "main".to_string()]);
    assert_eq!(s.lists().len(), 2);
    assert_eq!(s.generate_id(&"main".to_string()), Ok(1));
    assert_eq!(s.generate_id(&"nope".to_string()), Err(Error::NoSuchList));
    {
        let todos = s.todos_mut(&"side".to_string()).unwrap();
        add_todo(todos, None, "x".to_string(), None, day(2024, 1, 1)).unwrap();
    }
    assert_eq!(s.todo_by_id(&"side".to_string(), 1).unwrap().desc, "x");
    assert_eq!(s.todo_by_id(&"side".to_string(), 2).unwrap_err(), Error::NoSuchTodo);
    assert_eq!(s.todo_by_id(&"none".to_string(), 1).unwrap_err(), Error::NoSuchList);
    assert!(s.todos(&"zzz".to_string()).is_err());
}

#[test]
fn list_removal_keeps_default_and_migrates_on_force() {
    let mut s = Store::create("main".to_string(), vec!["side".to_string(), "empty".to_string()]);
    {
        let todos = s.todos_mut(&"side".to_string()).unwrap();
        add_todo(todos, None, "x".to_string(), None, day(2024, 1, 1)).unwrap();
    }
    let kept = s
        .remove_lists(&vec!["main".to_string(), "side".to_string(), "empty".to_string()], false)
        .unwrap();
    assert_eq!(kept, vec!["main".to_string(), "side".to_string()]);
    assert!(s.todos(&"empty".to_string()).is_err());
    let kept = s.remove_lists(&vec!["side".to_string()], true).unwrap();
    assert!(kept.is_empty());
    assert_eq!(s.todo_by_id(&"main".to_string(), 1).unwrap().desc, "x");
    assert_eq!(s.remove_lists(&vec!["gone".to_string()], true), Err(Error::NoSuchList));
}

#[test]
fn default_list_choice() {
    let mut s = Store::create("main".to_string(), vec![]);
    assert_eq!(s.make_default("other".to_string(), false), Err(Error::NoSuchList));
    assert_eq!(s.default_list(), "main");
    s.make_default("other".to_string(), true).unwrap();
    assert_eq!(s.default_list(), "other");
    assert!(s.todos(&"other".to_string()).is_ok());
}

#[test]
fn dates_validate_and_order() {
    assert!(Date::from_ymd(2024, 2, 29).is_some());
    assert!(Date::from_ymd(2023, 2, 29).is_none());
    assert!(Date::from_ymd(1900, 2, 29).is_none());
    assert!(Date::from_ymd(2000, 2, 29).is_some());
    assert!(Date::from_ymd(2024, 13, 1).is_none());
    assert!(Date::from_ymd(2024, 4, 31).is_none());
    assert!(day(2024, 1, 31).on_or_before(&day(2024, 2, 1)));
    assert!(!day(2024, 2, 2).on_or_before(&day(2024, 2, 1)));
    assert_eq!(day(2024, 7, 4).text(), "2024-07-04");
}

#[test]
fn todo_details_text() {
    let mut m = sample();
    mark_done(&mut m, &vec![2], Some(day(2024, 3, 1)));
    let t = m.get(2).unwrap();
    assert_eq!(
        t.to_text(),
        "Todo: two\nLink: (none)\nCreate At: 2024-01-01\nComplete At: 2024-03-01\nChildren: 4\nParent: 1"
    );
    let t = m.get(1).unwrap();
    assert_eq!(
        t.to_text(),
        "Todo: root\nLink: (none)\nCreate At: 2024-01-01\nComplete At: (todo)\nChildren: 2,3\nParent: (none)"
    );
}
