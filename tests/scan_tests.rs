use rmempty::scan::{find_removable, plan, scan};
use rmempty::tree::{DirNode, Entry};

fn dir(path: &str, entries: Vec<Entry<String>>) -> Entry<String> {
    Entry::Dir(DirNode { path: path.to_string(), entries })
}

fn root(path: &str, entries: Vec<Entry<String>>) -> DirNode<String> {
    DirNode { path: path.to_string(), entries }
}

fn scenario_one() -> DirNode<String> {
    root("/t", vec![dir("/t/a", vec![dir("/t/a/b", vec![]), dir("/t/a/c", vec![])])])
}

fn position(order: &[String], p: &str) -> usize {
    order.iter().position(|x| x == p).unwrap()
}

#[test]
fn nested_empty_directories_are_listed_bottom_up() {
    let order = find_removable(scenario_one());
    assert_eq!(order, vec!["/t/a/b".to_string(), "/t/a/c".to_string(), "/t/a".to_string()]);
    assert!(position(&order, "/t/a/b") < position(&order, "/t/a"));
    assert!(position(&order, "/t/a/c") < position(&order, "/t/a"));
    assert!(!order.contains(&"/t".to_string()));
}

#[test]
fn directory_with_a_file_is_kept() {
    let t = root("/t", vec![dir("/t/a", vec![Entry::Other]), dir("/t/b", vec![])]);
    assert_eq!(find_removable(t), vec!["/t/b".to_string()]);
}

#[test]
fn empty_root_lists_nothing() {
    assert!(find_removable(root("/t", vec![])).is_empty());
}

#[test]
fn dry_run_reports_the_same_paths_and_deletes_nothing() {
    let dry = plan(scenario_one(), true);
    let real = plan(scenario_one(), false);
    let dry_paths: Vec<String> = dry.iter().map(|s| s.path.clone()).collect();
    let real_paths: Vec<String> = real.iter().map(|s| s.path.clone()).collect();
    assert_eq!(dry_paths, vec!["/t/a/b".to_string(), "/t/a/c".to_string(), "/t/a".to_string()]);
    assert_eq!(dry_paths, real_paths);
    assert!(dry.iter().all(|s| !s.delete));
    assert!(real.iter().all(|s| s.delete));
}

#[test]
fn second_run_on_what_remains_lists_nothing() {
    let first = root(
        "/t",
        vec![
            dir("/t/a", vec![Entry::Other, dir("/t/a/e", vec![])]),
            dir("/t/b", vec![dir("/t/b/c", vec![])]),
        ],
    );
    assert_eq!(
        find_removable(first),
        vec!["/t/a/e".to_string(), "/t/b/c".to_string(), "/t/b".to_string()]
    );
    let after = root("/t", vec![dir("/t/a", vec![Entry::Other])]);
    assert!(find_removable(after).is_empty());
}

#[test]
fn removable_directories_below_a_kept_one_are_still_listed() {
    let t = root(
        "/t",
        vec![dir("/t/a", vec![dir("/t/a/x", vec![dir("/t/a/x/y", vec![])]), Entry::Other])],
    );
    assert_eq!(find_removable(t), vec!["/t/a/x/y".to_string(), "/t/a/x".to_string()]);
}

#[test]
fn a_link_or_file_deep_down_keeps_every_ancestor() {
    let t = root("/t", vec![dir("/t/a", vec![dir("/t/a/b", vec![dir("/t/a/b/c", vec![Entry::Other])])])]);
    assert!(find_removable(t).is_empty());
}

#[test]
fn entries_keep_their_order() {
    let t = root("/t", vec![dir("/t/z", vec![]), dir("/t/m", vec![]), dir("/t/a", vec![])]);
    assert_eq!(
        find_removable(t),
        vec!["/t/z".to_string(), "/t/m".to_string(), "/t/a".to_string()]
    );
}

#[test]
fn scan_never_appends_the_root_even_when_removable() {
    let mut out = vec!["/earlier".to_string()];
    assert!(scan(scenario_one(), &mut out));
    assert_eq!(
        out,
        vec![
            "/earlier".to_string(),
            "/t/a/b".to_string(),
            "/t/a/c".to_string(),
            "/t/a".to_string()
        ]
    );
}

#[test]
fn scan_of_an_empty_root_appends_nothing() {
    let mut out: Vec<String> = Vec::new();
    assert!(scan(root("/t", vec![]), &mut out));
    assert!(out.is_empty());
}

#[test]
fn scan_of_a_kept_directory_appends_only_what_is_below() {
    let mut out = Vec::new();
    let t = root("/t", vec![dir("/t/b", vec![]), Entry::Other]);
    assert!(!scan(t, &mut out));
    assert_eq!(out, vec!["/t/b".to_string()]);
}
