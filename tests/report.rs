use trapezoid::report::{vec_union, AddOutput};

fn strings(v: &[&str]) -> Vec<String> {
    v.iter().map(|s| s.to_string()).collect()
}

fn report(counts: [i32; 4], tags: &[&str]) -> AddOutput {
    AddOutput {
        matched_files: counts[0],
        tagged_files: counts[1],
        matched_dirs: counts[2],
        tagged_dirs: counts[3],
        tags: strings(tags),
    }
}

#[test]
fn new_report_is_zero() {
    let r = AddOutput::new();
    assert_eq!(r, report([0, 0, 0, 0], &[]));
}

#[test]
fn vec_union_keeps_first_appearance() {
    let u = vec_union(&strings(&["a", "b"]), strings(&["b", "c", "a", "c", "d"]));
    assert_eq!(u, strings(&["a", "b", "c", "d"]));
}

#[test]
fn vec_union_with_empty_sides() {
    assert_eq!(vec_union(&strings(&[]), strings(&["x", "x"])), strings(&["x"]));
    assert_eq!(vec_union(&strings(&["x"]), strings(&[])), strings(&["x"]));
}

#[test]
fn merge_adds_counters_and_unites_tags() {
    let a = report([1, 2, 3, 4], &["inbox", "work"]);
    let b = report([10, 20, 30, 40], &["work", "home"]);
    let m = a.merge(b);
    assert_eq!(m, report([11, 22, 33, 44], &["inbox", "work", "home"]));
}

#[test]
fn merge_is_associative_on_values() {
    let a = || report([1, 0, 2, 0], &["x"]);
    let b = || report([3, 1, 0, 0], &["y", "x"]);
    let c = || report([0, 0, 5, 5], &["z", "y"]);
    let left = a().merge(b().merge(c()));
    let right = a().merge(b()).merge(c());
    assert_eq!(left, right);
    assert_eq!(left, report([4, 1, 7, 5], &["x", "y", "z"]));
}

#[test]
fn merge_with_zero_is_identity() {
    let a = report([7, 3, 2, 1], &["p", "q"]);
    assert_eq!(a.merge(AddOutput::new()), report([7, 3, 2, 1], &["p", "q"]));
}

#[test]
fn merge_commutes_up_to_tag_order() {
    let ab = report([1, 1, 0, 0], &["a"]).merge(report([2, 0, 1, 0], &["b"]));
    let ba = report([2, 0, 1, 0], &["b"]).merge(report([1, 1, 0, 0], &["a"]));
    assert_eq!(ab.matched_files, ba.matched_files);
    assert_eq!(ab.tagged_files, ba.tagged_files);
    assert_eq!(ab.matched_dirs, ba.matched_dirs);
    assert_eq!(ab.tagged_dirs, ba.tagged_dirs);
    assert_eq!(ab.tags, strings(&["a", "b"]));
    assert_eq!(ba.tags, strings(&["b", "a"]));
    assert_eq!(ab, ba);
}

#[test]
fn reports_equal_when_counters_and_tag_sets_agree() {
    assert_eq!(report([1, 2, 3, 4], &["a", "b"]), report([1, 2, 3, 4], &["b", "a", "b"]));
    assert_ne!(report([1, 2, 3, 4], &["a"]), report([1, 2, 3, 4], &["a", "b"]));
    assert_ne!(report([1, 2, 3, 4], &["a"]), report([1, 2, 3, 5], &["a"]));
}

#[test]
fn plus_operator_merges() {
    let m = report([1, 1, 1, 1], &["a"]) + report([2, 2, 2, 2], &["a", "b"]);
    assert_eq!(m, report([3, 3, 3, 3], &["a", "b"]));
}

#[test]
fn add_assign_merges_in_place() {
    let mut a = report([1, 0, 0, 0], &["a"]);
    a.add_assign(report([0, 1, 0, 2], &["b", "a"]));
    assert_eq!(a, report([1, 1, 0, 2], &["a", "b"]));
}
