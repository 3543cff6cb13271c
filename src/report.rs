//! The outcome of one tagging run and how outcomes combine.

use vstd::prelude::*;

verus! {

/// The union of two name lists: `a` followed by each name of `b` that is
/// not yet present, in order of first appearance.
pub open spec fn union_seq<T>(a: Seq<T>, b: Seq<T>) -> Seq<T>
    decreases b.len(),
{
    if b.len() == 0 {
        a
    } else {
        let u = union_seq(a, b.drop_last());
        if u.contains(b.last()) {
            u
        } else {
            u.push(b.last())
        }
    }
}

/// The text of each string of a sequence.
pub open spec fn texts(v: Seq<String>) -> Seq<Seq<char>> {
    v.map_values(|s: String| s@)
}

/// Mathematical model of a report.
pub ghost struct ReportView {
    pub matched_files: int,
    pub tagged_files: int,
    pub matched_dirs: int,
    pub tagged_dirs: int,
    pub tags: Seq<Seq<char>>,
}

impl ReportView {
    /// The report of a run that matched nothing and applied no tag.
    pub open spec fn zero() -> ReportView {
        ReportView {
            matched_files: 0,
            tagged_files: 0,
            matched_dirs: 0,
            tagged_dirs: 0,
            tags: Seq::empty(),
        }
    }

    /// Counters add field by field; tag names are united.
    pub open spec fn merge(self, other: ReportView) -> ReportView {
        ReportView {
            matched_files: self.matched_files + other.matched_files,
            tagged_files: self.tagged_files + other.tagged_files,
            matched_dirs: self.matched_dirs + other.matched_dirs,
            tagged_dirs: self.tagged_dirs + other.tagged_dirs,
            tags: union_seq(self.tags, other.tags),
        }
    }

    /// Two reports are the same when all four counters and the set of tag
    /// names agree.
    pub open spec fn same_as(self, other: ReportView) -> bool {
        &&& self.matched_files == other.matched_files
        &&& self.tagged_files == other.tagged_files
        &&& self.matched_dirs == other.matched_dirs
        &&& self.tagged_dirs == other.tagged_dirs
        &&& self.tags.to_set() == other.tags.to_set()
    }
}

/// Whether every counter of the merge of `a` and `b` fits in an `i32`.
pub open spec fn merge_fits(a: ReportView, b: ReportView) -> bool {
    let m = a.merge(b);
    &&& i32::MIN <= m.matched_files <= i32::MAX
    &&& i32::MIN <= m.tagged_files <= i32::MAX
    &&& i32::MIN <= m.matched_dirs <= i32::MAX
    &&& i32::MIN <= m.tagged_dirs <= i32::MAX
}

/// Counts of matched and newly tagged entries, with the tag names applied.
///
/// Two reports are equal when their counters and their sets of tag names
/// agree.
#[derive(Debug)]
pub struct AddOutput {
    pub matched_files: i32,
    pub tagged_files: i32,
    pub matched_dirs: i32,
    pub tagged_dirs: i32,
    pub tags: Vec<String>,
}

impl View for AddOutput {
    type V = ReportView;

    open spec fn view(&self) -> ReportView {
        ReportView {
            matched_files: self.matched_files as int,
            tagged_files: self.tagged_files as int,
            matched_dirs: self.matched_dirs as int,
            tagged_dirs: self.tagged_dirs as int,
            tags: texts(self.tags@),
        }
    }
}

/// Whether `v` holds a string with the text of `s`.
pub fn contains_text(v: &Vec<String>, s: &String) -> (r: bool)
    ensures
        r == texts(v@).contains(s@),
{
    let mut i: usize = 0;
    while i < v.len()
        invariant
            i <= v.len(),
            forall|j: int| 0 <= j < i ==> v@[j]@ != s@,
        decreases v.len() - i,
    {
        if v[i] == *s {
            assert(texts(v@)[i as int] == s@);
            return true;
        }
        i = i + 1;
    }
    proof {
        if texts(v@).contains(s@) {
            let k = choose|k: int| 0 <= k < texts(v@).len() && texts(v@)[k] == s@;
            assert(v@[k]@ == s@);
        }
    }
    false
}

/// A copy of `v`, string by string.
pub fn copy_texts(v: &Vec<String>) -> (r: Vec<String>)
    ensures
        texts(r@) == texts(v@),
{
    let mut r: Vec<String> = Vec::new();
    let mut i: usize = 0;
    while i < v.len()
        invariant
            i <= v.len(),
            texts(r@) == texts(v@).subrange(0, i as int),
        decreases v.len() - i,
    {
        let ghost before = r@;
        r.push(v[i].clone());
        assert(r@ == before.push(v@[i as int]));
        assert(texts(r@) =~= texts(before).push(v@[i as int]@));
        assert(texts(r@) =~= texts(v@).subrange(0, i + 1));
        i = i + 1;
    }
    assert(texts(v@).subrange(0, v.len() as int) =~= texts(v@));
    r
}

/// `first` followed by the names of `second` that `first` and the earlier
/// names of `second` do not already hold.
pub fn vec_union(first: &Vec<String>, second: Vec<String>) -> (r: Vec<String>)
    ensures
        texts(r@) == union_seq(texts(first@), texts(second@)),
{
    let mut output = copy_texts(first);
    let mut i: usize = 0;
    while i < second.len()
        invariant
            i <= second.len(),
            texts(output@) == union_seq(texts(first@), texts(second@).subrange(0, i as int)),
        decreases second.len() - i,
    {
        let ghost prefix = texts(second@).subrange(0, i + 1);
        assert(prefix.drop_last() =~= texts(second@).subrange(0, i as int));
        assert(prefix.last() == second@[i as int]@);
        if !contains_text(&output, &second[i]) {
            let ghost before = output@;
            output.push(second[i].clone());
            assert(texts(output@) =~= texts(before).push(second@[i as int]@));
        }
        i = i + 1;
    }
    assert(texts(second@).subrange(0, second.len() as int) =~= texts(second@));
    output
}

/// Whether every name of `a` is also in `b`.
fn all_contained(a: &Vec<String>, b: &Vec<String>) -> (r: bool)
    ensures
        r == texts(a@).to_set().subset_of(texts(b@).to_set()),
{
    let mut i: usize = 0;
    while i < a.len()
        invariant
            i <= a.len(),
            forall|j: int| 0 <= j < i ==> texts(b@).contains(#[trigger] texts(a@)[j]),
        decreases a.len() - i,
    {
        if !contains_text(b, &a[i]) {
            proof {
                assert(texts(a@).to_set().contains(texts(a@)[i as int]));
            }
            return false;
        }
        i = i + 1;
    }
    proof {
        assert forall|x: Seq<char>| texts(a@).to_set().contains(x) implies texts(b@).to_set().contains(x) by {
            let k = choose|k: int| 0 <= k < texts(a@).len() && texts(a@)[k] == x;
        }
    }
    true
}

impl PartialEq for AddOutput {
    fn eq(&self, other: &AddOutput) -> (r: bool) {
        let same = self.matched_files == other.matched_files && self.tagged_files == other.tagged_files
            && self.matched_dirs == other.matched_dirs && self.tagged_dirs == other.tagged_dirs
            && all_contained(&self.tags, &other.tags) && all_contained(&other.tags, &self.tags);
        proof {
            let a = texts(self.tags@).to_set();
            let b = texts(other.tags@).to_set();
            if a.subset_of(b) && b.subset_of(a) {
                assert(a =~= b);
            }
        }
        same
    }
}

impl vstd::std_specs::cmp::PartialEqSpecImpl for AddOutput {
    open spec fn obeys_eq_spec() -> bool {
        true
    }

    open spec fn eq_spec(&self, other: &AddOutput) -> bool {
        self@.same_as(other@)
    }
}

impl AddOutput {
    /// An empty report: every counter zero, no tag names.
    pub fn new() -> (r: AddOutput)
        ensures
            r@ == ReportView::zero(),
    {
        let r = AddOutput {
            matched_files: 0,
            tagged_files: 0,
            matched_dirs: 0,
            tagged_dirs: 0,
            tags: Vec::new(),
        };
        assert(texts(r.tags@) =~= Seq::empty());
        r
    }

    /// The report of both runs: counters add, tag names are united.
    pub fn merge(self, other: AddOutput) -> (r: AddOutput)
        requires
            merge_fits(self@, other@),
        ensures
            r@ == self@.merge(other@),
            r.matched_files == self.matched_files + other.matched_files,
            r.tagged_files == self.tagged_files + other.tagged_files,
            r.matched_dirs == self.matched_dirs + other.matched_dirs,
            r.tagged_dirs == self.tagged_dirs + other.tagged_dirs,
    {
        AddOutput {
            matched_files: self.matched_files + other.matched_files,
            tagged_files: self.tagged_files + other.tagged_files,
            matched_dirs: self.matched_dirs + other.matched_dirs,
            tagged_dirs: self.tagged_dirs + other.tagged_dirs,
            tags: vec_union(&self.tags, other.tags),
        }
    }

    /// Merges `other` into this report in place.
    pub fn add_assign(&mut self, other: AddOutput)
        requires
            merge_fits(old(self)@, other@),
        ensures
            final(self)@ == old(self)@.merge(other@),
    {
        self.matched_files = self.matched_files + other.matched_files;
        self.tagged_files = self.tagged_files + other.tagged_files;
        self.matched_dirs = self.matched_dirs + other.matched_dirs;
        self.tagged_dirs = self.tagged_dirs + other.tagged_dirs;
        self.tags = vec_union(&self.tags, other.tags);
    }
}

impl core::ops::Add for AddOutput {
    type Output = AddOutput;

    /// The report of both runs; see `merge`.
    fn add(self, other: AddOutput) -> (r: AddOutput)
        ensures
            r@ == self@.merge(other@),
    {
        self.merge(other)
    }
}

impl vstd::std_specs::ops::AddSpecImpl for AddOutput {
    open spec fn obeys_add_spec() -> bool {
        false
    }

    open spec fn add_req(self, rhs: AddOutput) -> bool {
        merge_fits(self@, rhs@)
    }

    open spec fn add_spec(self, rhs: AddOutput) -> AddOutput {
        arbitrary()
    }
}

/// A name is in the union exactly when it is in one of the two lists.
pub proof fn lemma_union_contains<T>(a: Seq<T>, b: Seq<T>, x: T)
    ensures
        union_seq(a, b).contains(x) <==> a.contains(x) || b.contains(x),
    decreases b.len(),
{
    if b.len() > 0 {
        lemma_union_contains(a, b.drop_last(), x);
        if b.drop_last().contains(x) {
            let k = choose|k: int| 0 <= k < b.drop_last().len() && b.drop_last()[k] == x;
            assert(b[k] == x);
        }
        if b.contains(x) && x != b.last() {
            let k = choose|k: int| 0 <= k < b.len() && b[k] == x;
            assert(b.drop_last()[k] == x);
        }
        let u = union_seq(a, b.drop_last());
        if !u.contains(b.last()) {
            assert(u.push(b.last())[u.len() as int] == b.last());
            if u.contains(x) {
                let k = choose|k: int| 0 <= k < u.len() && u[k] == x;
                assert(u.push(b.last())[k] == x);
            }
            if u.push(b.last()).contains(x) && x != b.last() {
                let k = choose|k: int| 0 <= k < u.len() + 1 && u.push(b.last())[k] == x;
                assert(u[k] == x);
            }
        }
    }
}

/// Uniting is associative on name lists, order included.
pub proof fn lemma_union_assoc<T>(a: Seq<T>, b: Seq<T>, c: Seq<T>)
    ensures
        union_seq(a, union_seq(b, c)) == union_seq(union_seq(a, b), c),
    decreases c.len(),
{
    if c.len() > 0 {
        lemma_union_assoc(a, b, c.drop_last());
        let x = c.last();
        let u = union_seq(b, c.drop_last());
        if u.contains(x) {
            lemma_union_contains(a, u, x);
        } else {
            assert(u.push(x).drop_last() =~= u);
            assert(u.push(x).last() == x);
        }
    }
}

/// Merging is associative.
pub proof fn merge_associative(a: AddOutput, b: AddOutput, c: AddOutput)
    ensures
        a@.merge(b@.merge(c@)) == a@.merge(b@).merge(c@),
{
    lemma_union_assoc(a@.tags, b@.tags, c@.tags);
}

/// The empty report is a right identity of merging.
pub proof fn merge_zero_identity(a: AddOutput)
    ensures
        a@.merge(ReportView::zero()) == a@,
{
}

/// Merging is commutative up to report equality: counters and tag sets
/// agree whichever report comes first.
pub proof fn merge_commutative(a: AddOutput, b: AddOutput)
    ensures
        a@.merge(b@).same_as(b@.merge(a@)),
{
    let ab = union_seq(a@.tags, b@.tags);
    let ba = union_seq(b@.tags, a@.tags);
    assert forall|x: Seq<char>| ab.to_set().contains(x) <==> ba.to_set().contains(x) by {
        lemma_union_contains(a@.tags, b@.tags, x);
        lemma_union_contains(b@.tags, a@.tags, x);
    }
    assert(ab.to_set() =~= ba.to_set());
}

/// The counters of a merge are the pairwise sums of the counters.
pub proof fn merge_adds_counters(a: AddOutput, b: AddOutput)
    ensures
        a@.merge(b@).matched_files == a.matched_files + b.matched_files,
        a@.merge(b@).tagged_files == a.tagged_files + b.tagged_files,
        a@.merge(b@).matched_dirs == a.matched_dirs + b.matched_dirs,
        a@.merge(b@).tagged_dirs == a.tagged_dirs + b.tagged_dirs,
{
}

} // verus!
