use trapezoid::engine::{apply_tags, InputError, TagError, TagRequest, WalkEntry};
use trapezoid::filter::IgnoreRules;
use trapezoid::store::{ItemRow, StoreError, TagRow, TagStore};

fn strings(v: &[&str]) -> Vec<String> {
    v.iter().map(|s| s.to_string()).collect()
}

fn request(tags: &[&str], globs: &[&str], roots: &[&str]) -> TagRequest {
    TagRequest::new(strings(tags), &strings(globs), strings(roots)).unwrap()
}

fn rules(lines: &[&str]) -> IgnoreRules {
    IgnoreRules::parse(&strings(lines)).unwrap()
}

fn entry(root: usize, path: &str, is_dir: bool) -> WalkEntry {
    let name = path.rsplit('/').next().unwrap().to_string();
    WalkEntry { root, path: path.to_string(), name, is_dir }
}

fn sample_tree() -> Vec<WalkEntry> {
    vec![
        entry(0, "/data", true),
        entry(0, "/data/a.md", false),
        entry(0, "/data/b.txt", false),
        entry(0, "/data/sub", true),
        entry(0, "/data/sub/c.md", false),
    ]
}

#[test]
fn scenario_inbox_markdown() {
    let mut store = TagStore::new();
    let req = request(&["inbox"], &["*.md"], &["/data"]);
    let out = apply_tags(&mut store, &req, &IgnoreRules::new(), &sample_tree()).unwrap();
    assert_eq!(out.matched_files, 2);
    assert_eq!(out.tagged_files, 2);
    assert_eq!(out.matched_dirs, 0);
    assert_eq!(out.tagged_dirs, 0);
    assert_eq!(out.tags, strings(&["inbox"]));
    assert_eq!(store.tags().len(), 1);
    assert_eq!(store.items().len(), 2);
}

#[test]
fn empty_tag_list_fails_before_walking() {
    let mut walked = 0;
    match TagRequest::new(Vec::new(), &strings(&["*.md"]), strings(&["/data"])) {
        Ok(_) => walked += 1,
        Err(e) => assert_eq!(e, InputError::NoTagsProvided),
    }
    assert_eq!(walked, 0);
}

#[test]
fn empty_globs_and_roots_fail() {
    let e = TagRequest::new(strings(&["t"]), &Vec::new(), strings(&["/data"])).unwrap_err();
    assert_eq!(e, InputError::NoGlobsProvided);
    let e = TagRequest::new(strings(&["t"]), &strings(&["*"]), Vec::new()).unwrap_err();
    assert_eq!(e, InputError::NoPathsProvided);
}

#[test]
fn malformed_glob_is_reported_by_index() {
    let e = TagRequest::new(strings(&["t"]), &strings(&["*.md", "[abc"]), strings(&["/data"])).unwrap_err();
    assert_eq!(e, InputError::MalformedGlob { index: 1 });
}

#[test]
fn request_keeps_its_parts() {
    let req = request(&["a", "b"], &["*.md"], &["/x", "/y"]);
    assert_eq!(req.tags(), &strings(&["a", "b"]));
    assert_eq!(req.roots(), &strings(&["/x", "/y"]));
    assert_eq!(req.globs()[0].as_str(), "*.md");
}

#[test]
fn relative_path_of_entry() {
    let req = request(&["t"], &["*"], &["/data"]);
    assert_eq!(req.relative(0, &"/data/sub/c.md".to_string()), Some("sub/c.md".to_string()));
    assert_eq!(req.relative(0, &"/data".to_string()), Some(String::new()));
    assert_eq!(req.relative(1, &"/data/a".to_string()), None);
}

#[test]
fn second_identical_run_tags_nothing_new() {
    let mut store = TagStore::new();
    let req = request(&["inbox"], &["a.md"], &["/data"]);
    let entries = vec![entry(0, "/data/a.md", false)];
    let first = apply_tags(&mut store, &req, &IgnoreRules::new(), &entries).unwrap();
    assert_eq!(first.matched_files, 1);
    assert_eq!(first.tagged_files, 1);
    let second = apply_tags(&mut store, &req, &IgnoreRules::new(), &entries).unwrap();
    assert_eq!(second.matched_files, 1);
    assert_eq!(second.tagged_files, 0);
    assert_eq!(store.items().len(), 1);
}

#[test]
fn same_tag_name_keeps_one_identity_across_runs() {
    let mut store = TagStore::new();
    let entries = sample_tree();
    apply_tags(&mut store, &request(&["inbox"], &["*.md"], &["/data"]), &IgnoreRules::new(), &entries).unwrap();
    let id = store.find_tag(&"inbox".to_string()).unwrap();
    apply_tags(&mut store, &request(&["work", "inbox"], &["*.txt"], &["/data"]), &IgnoreRules::new(), &entries)
        .unwrap();
    assert_eq!(store.find_tag(&"inbox".to_string()), Some(id));
    assert_eq!(store.tags().len(), 2);
}

#[test]
fn ignored_directory_wins_over_include() {
    let mut store = TagStore::new();
    let req = request(&["t"], &["*.txt"], &["/r"]);
    let ignore = rules(&["build/"]);
    assert!(!req.visits(&ignore, 0, &"/r/build".to_string(), true));
    assert!(req.visits(&ignore, 0, &"/r".to_string(), true));
    let entries = vec![entry(0, "/r/build/notes.txt", false), entry(0, "/r/notes.txt", false)];
    assert!(!req.selects(&ignore, &entries[0]));
    assert!(req.selects(&ignore, &entries[1]));
    let out = apply_tags(&mut store, &req, &ignore, &entries).unwrap();
    assert_eq!(out.matched_files, 1);
    assert!(store.has_item(&"/r/notes.txt".to_string(), 1));
    assert!(!store.has_item(&"/r/build/notes.txt".to_string(), 1));
}

#[test]
fn negated_rule_reincludes_file() {
    let req = request(&["t"], &["*.log"], &["/r"]);
    let ignore = rules(&["*.log", "!keep.log"]);
    assert!(req.selects(&ignore, &entry(0, "/r/keep.log", false)));
    assert!(!req.selects(&ignore, &entry(0, "/r/other.log", false)));
}

#[test]
fn directories_count_separately() {
    let mut store = TagStore::new();
    let req = request(&["t"], &["sub"], &["/data"]);
    let out = apply_tags(&mut store, &req, &IgnoreRules::new(), &sample_tree()).unwrap();
    assert_eq!(out.matched_dirs, 1);
    assert_eq!(out.tagged_dirs, 1);
    assert_eq!(out.matched_files, 0);
}

#[test]
fn entry_counts_once_with_several_tags() {
    let mut store = TagStore::new();
    let req = request(&["a", "b", "a"], &["*.md"], &["/data"]);
    let out = apply_tags(&mut store, &req, &IgnoreRules::new(), &sample_tree()).unwrap();
    assert_eq!(out.matched_files, 2);
    assert_eq!(out.tagged_files, 2);
    assert_eq!(out.tags, strings(&["a", "b"]));
    assert_eq!(store.items().len(), 4);
    let again = apply_tags(&mut store, &request(&["a", "c"], &["*.md"], &["/data"]), &IgnoreRules::new(), &sample_tree())
        .unwrap();
    assert_eq!(again.tagged_files, 2);
    assert_eq!(store.items().len(), 6);
}

#[test]
fn repeated_entry_is_newly_tagged_once() {
    let mut store = TagStore::new();
    let req = request(&["t"], &["*.md"], &["/data", "/data"]);
    let entries = vec![entry(0, "/data/a.md", false), entry(1, "/data/a.md", false)];
    let out = apply_tags(&mut store, &req, &IgnoreRules::new(), &entries).unwrap();
    assert_eq!(out.matched_files, 2);
    assert_eq!(out.tagged_files, 1);
}

#[test]
fn entry_with_unknown_root_is_not_matched() {
    let mut store = TagStore::new();
    let req = request(&["t"], &["*.md"], &["/data"]);
    let out = apply_tags(&mut store, &req, &IgnoreRules::new(), &vec![entry(3, "/data/a.md", false)]).unwrap();
    assert_eq!(out.matched_files, 0);
}

#[test]
fn store_failure_mid_run_leaves_store_unchanged() {
    let mut store = TagStore::new();
    store.add_tag_row(TagRow { id: 1, name: "old".to_string() }).unwrap();
    store.add_item_row(ItemRow { id: i64::MAX - 1, path: "/x".to_string(), tag: 1 }).unwrap();
    let req = request(&["inbox"], &["*.md"], &["/data"]);
    let r = apply_tags(&mut store, &req, &IgnoreRules::new(), &sample_tree());
    assert_eq!(r, Err(TagError::Store(StoreError::IdsExhausted)));
    assert_eq!(store.tags().len(), 1);
    assert_eq!(store.items().len(), 1);
    assert_eq!(store.find_tag(&"inbox".to_string()), None);
}
