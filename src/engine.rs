//! The tag application engine: validated requests, the selection of walked
//! entries, and the run that records tags for the selected entries in one
//! transaction.

use crate::filter::{include_match, matches_include, visible, IgnoreRules, RuleSyntax};
use crate::paths::{path_diff, relative_path};
use crate::pattern::{glob_texts, glob_well_formed, to_pattern, Glob};
use crate::report::{copy_texts, texts, union_seq, vec_union, AddOutput, ReportView};
use crate::store::{StoreError, StoreView, TagStore};
use vstd::prelude::*;

verus! {

/// A caller's mistake, found before any work is done.
#[derive(Debug, PartialEq, Eq, Structural)]
pub enum InputError {
    NoTagsProvided,
    NoGlobsProvided,
    NoPathsProvided,
    /// The glob at this index does not compile.
    MalformedGlob { index: usize },
}

/// Why a tagging run failed.
#[derive(Debug, PartialEq, Eq, Structural)]
pub enum TagError {
    Input(InputError),
    /// The store directory is absent and was not to be created.
    StoreNotFound,
    /// The ignore file holds a line whose glob does not compile.
    InvalidIgnoreRule { line: usize },
    Store(StoreError),
}

/// One entry produced by walking the roots.
#[derive(Debug)]
pub struct WalkEntry {
    /// Index of the root the entry was found under.
    pub root: usize,
    /// The entry's path, as the walk produced it.
    pub path: String,
    /// The entry's file name.
    pub name: String,
    pub is_dir: bool,
}

pub ghost struct EntryView {
    pub root: int,
    pub path: Seq<char>,
    pub name: Seq<char>,
    pub is_dir: bool,
}

impl View for WalkEntry {
    type V = EntryView;

    open spec fn view(&self) -> EntryView {
        EntryView { root: self.root as int, path: self.path@, name: self.name@, is_dir: self.is_dir }
    }
}

pub open spec fn entry_views(v: Seq<WalkEntry>) -> Seq<EntryView> {
    v.map_values(|e: WalkEntry| e@)
}

/// The tags to apply, the include globs and the roots to walk, each
/// non-empty.
#[derive(Debug)]
pub struct TagRequest {
    tags: Vec<String>,
    globs: Vec<Glob>,
    roots: Vec<String>,
}

pub ghost struct RequestView {
    pub tags: Seq<Seq<char>>,
    pub globs: Seq<Seq<char>>,
    pub roots: Seq<Seq<char>>,
}

impl View for TagRequest {
    type V = RequestView;

    closed spec fn view(&self) -> RequestView {
        RequestView { tags: texts(self.tags@), globs: glob_texts(self.globs@), roots: texts(self.roots@) }
    }
}

/// The path of an entry relative to its root, if it has one.
pub open spec fn relative_of(roots: Seq<Seq<char>>, root: int, path: Seq<char>) -> Option<Seq<char>> {
    if 0 <= root < roots.len() {
        path_diff(path, roots[root])
    } else {
        None
    }
}

/// Whether the walk enters or yields the path: it has a path relative to
/// its root and the ignore rules let it through.
pub open spec fn walk_visits(q: RequestView, rules: Seq<RuleSyntax>, root: int, path: Seq<char>, is_dir: bool) -> bool {
    match relative_of(q.roots, root, path) {
        Some(rel) => visible(rules, rel, is_dir),
        None => false,
    }
}

/// Whether an entry is matched: the ignore rules let it through and an
/// include glob matches its name or its relative path.
pub open spec fn selected(q: RequestView, rules: Seq<RuleSyntax>, e: EntryView) -> bool {
    match relative_of(q.roots, e.root, e.path) {
        Some(rel) => visible(rules, rel, e.is_dir) && include_match(q.globs, e.name, rel),
        None => false,
    }
}

/// The identities that the tag names resolve to.
pub open spec fn resolved_ids(tags: Seq<Seq<char>>, m: Map<Seq<char>, i64>) -> Seq<i64> {
    tags.map_values(|t: Seq<char>| m[t])
}

/// The (path, tag) pairs that the first `n` entries call for.
pub open spec fn tagged_pairs(
    q: RequestView,
    rules: Seq<RuleSyntax>,
    es: Seq<EntryView>,
    ids: Seq<i64>,
    n: int,
) -> Set<(Seq<char>, i64)> {
    Set::new(
        |pr: (Seq<char>, i64)|
            exists|i: int, k: int|
                #![trigger es[i], ids[k]]
                0 <= i < n && 0 <= k < ids.len() && selected(q, rules, es[i]) && pr == (es[i].path, ids[k]),
    )
}

/// Entry `i` is newly tagged: it is matched and one of the tags was new to
/// its path, neither in the store before the run nor recorded by an
/// earlier entry of the run.
pub open spec fn fresh(
    items: Set<(Seq<char>, i64)>,
    q: RequestView,
    rules: Seq<RuleSyntax>,
    es: Seq<EntryView>,
    ids: Seq<i64>,
    i: int,
) -> bool {
    &&& selected(q, rules, es[i])
    &&& exists|k: int|
        0 <= k < ids.len() && !items.contains((es[i].path, #[trigger] ids[k])) && !tagged_pairs(
            q,
            rules,
            es,
            ids,
            i,
        ).contains((es[i].path, ids[k]))
}

/// How many of the first `n` entries are matched, of directories when
/// `dirs` holds, else of files.
pub open spec fn matched_count(q: RequestView, rules: Seq<RuleSyntax>, es: Seq<EntryView>, n: int, dirs: bool) -> nat
    decreases n,
{
    if n <= 0 {
        0
    } else {
        matched_count(q, rules, es, n - 1, dirs) + if selected(q, rules, es[n - 1]) && es[n - 1].is_dir == dirs {
            1nat
        } else {
            0nat
        }
    }
}

/// How many of the first `n` entries are newly tagged, of directories when
/// `dirs` holds, else of files.
pub open spec fn tagged_count(
    items: Set<(Seq<char>, i64)>,
    q: RequestView,
    rules: Seq<RuleSyntax>,
    es: Seq<EntryView>,
    ids: Seq<i64>,
    n: int,
    dirs: bool,
) -> nat
    decreases n,
{
    if n <= 0 {
        0
    } else {
        tagged_count(items, q, rules, es, ids, n - 1, dirs) + if fresh(items, q, rules, es, ids, n - 1)
            && es[n - 1].is_dir == dirs {
            1nat
        } else {
            0nat
        }
    }
}

/// A run of the request over the entries took the store from `s0` to `s1`
/// and reported `out`.
pub open spec fn applied(
    s0: StoreView,
    q: RequestView,
    rules: Seq<RuleSyntax>,
    es: Seq<EntryView>,
    s1: StoreView,
    out: ReportView,
) -> bool {
    let ids = resolved_ids(q.tags, s1.tags);
    &&& s1.tags.dom() == s0.tags.dom().union(q.tags.to_set())
    &&& forall|n: Seq<char>| #[trigger] s0.tags.contains_key(n) ==> s1.tags[n] == s0.tags[n]
    &&& s1.items == s0.items.union(tagged_pairs(q, rules, es, ids, es.len() as int))
    &&& out.matched_files == matched_count(q, rules, es, es.len() as int, false)
    &&& out.matched_dirs == matched_count(q, rules, es, es.len() as int, true)
    &&& out.tagged_files == tagged_count(s0.items, q, rules, es, ids, es.len() as int, false)
    &&& out.tagged_dirs == tagged_count(s0.items, q, rules, es, ids, es.len() as int, true)
    &&& out.tags == union_seq(Seq::empty(), q.tags)
}

/// The pairs of `path` with each of the first `k` identities.
pub open spec fn entry_pairs(path: Seq<char>, ids: Seq<i64>, k: int) -> Set<(Seq<char>, i64)> {
    Set::new(|pr: (Seq<char>, i64)| exists|j: int| 0 <= j < k && pr == (path, #[trigger] ids[j]))
}

impl TagRequest {
    /// Validates a request: tags, globs and roots must each be non-empty,
    /// and every glob must compile.
    pub fn new(tags: Vec<String>, globs: &Vec<String>, roots: Vec<String>) -> (r: Result<TagRequest, InputError>)
        ensures
            tags.len() == 0 ==> r == Err::<TagRequest, InputError>(InputError::NoTagsProvided),
            tags.len() > 0 && globs.len() == 0 ==> r == Err::<TagRequest, InputError>(InputError::NoGlobsProvided),
            tags.len() > 0 && globs.len() > 0 && roots.len() == 0 ==> r == Err::<TagRequest, InputError>(
                InputError::NoPathsProvided,
            ),
            tags.len() > 0 && globs.len() > 0 && roots.len() > 0 ==> {
                &&& r is Ok <==> forall|i: int| 0 <= i < globs.len() ==> glob_well_formed(#[trigger] globs@[i]@)
                &&& r matches Err(e) ==> e matches InputError::MalformedGlob { index } && index < globs.len()
                    && !glob_well_formed(globs@[index as int]@) && forall|j: int|
                    0 <= j < index ==> glob_well_formed(#[trigger] globs@[j]@)
            },
            r matches Ok(q) ==> q@ == (RequestView {
                tags: texts(tags@),
                globs: texts(globs@),
                roots: texts(roots@),
            }),
    {
        if tags.len() == 0 {
            return Err(InputError::NoTagsProvided);
        }
        if globs.len() == 0 {
            return Err(InputError::NoGlobsProvided);
        }
        if roots.len() == 0 {
            return Err(InputError::NoPathsProvided);
        }
        let mut compiled: Vec<Glob> = Vec::new();
        let mut i: usize = 0;
        while i < globs.len()
            invariant
                i <= globs.len(),
                tags.len() > 0,
                roots.len() > 0,
                glob_texts(compiled@) == texts(globs@).subrange(0, i as int),
                forall|j: int| 0 <= j < i ==> glob_well_formed(#[trigger] globs@[j]@),
            decreases globs.len() - i,
        {
            match to_pattern(globs[i].as_str()) {
                Ok(g) => {
                    let ghost before = compiled@;
                    compiled.push(g);
                    assert(glob_texts(compiled@) =~= glob_texts(before).push(globs@[i as int]@));
                    assert(texts(globs@).subrange(0, i + 1) =~= texts(globs@).subrange(0, i as int).push(
                        globs@[i as int]@,
                    ));
                },
                Err(_) => {
                    return Err(InputError::MalformedGlob { index: i });
                },
            }
            i = i + 1;
        }
        assert(texts(globs@).subrange(0, globs.len() as int) =~= texts(globs@));
        Ok(TagRequest { tags, globs: compiled, roots })
    }

    /// The tag names to apply.
    pub fn tags(&self) -> (r: &Vec<String>)
        ensures
            texts(r@) == self@.tags,
    {
        &self.tags
    }

    /// The include globs.
    pub fn globs(&self) -> (r: &Vec<Glob>)
        ensures
            glob_texts(r@) == self@.globs,
    {
        &self.globs
    }

    /// The roots to walk, in order.
    pub fn roots(&self) -> (r: &Vec<String>)
        ensures
            texts(r@) == self@.roots,
    {
        &self.roots
    }

    /// The path relative to the root with index `root`, if it has one.
    pub fn relative(&self, root: usize, path: &String) -> (r: Option<String>)
        ensures
            r matches Some(s) ==> relative_of(self@.roots, root as int, path@) == Some(s@),
            r is None ==> relative_of(self@.roots, root as int, path@) is None,
    {
        if root < self.roots.len() {
            relative_path(path.as_str(), self.roots[root].as_str())
        } else {
            None
        }
    }

    /// Whether the walk of root `root` enters or yields the path.
    pub fn visits(&self, ignore: &IgnoreRules, root: usize, path: &String, is_dir: bool) -> (r: bool)
        ensures
            r == walk_visits(self@, ignore@, root as int, path@, is_dir),
    {
        match self.relative(root, path) {
            Some(rel) => ignore.should_visit(rel.as_str(), is_dir),
            None => false,
        }
    }

    /// Whether the entry is matched.
    pub fn selects(&self, ignore: &IgnoreRules, entry: &WalkEntry) -> (r: bool)
        ensures
            r == selected(self@, ignore@, entry@),
    {
        match self.relative(entry.root, &entry.path) {
            Some(rel) => ignore.should_visit(rel.as_str(), entry.is_dir) && matches_include(
                &self.globs,
                entry.name.as_str(),
                rel.as_str(),
            ),
            None => false,
        }
    }
}

/// Resolves each tag name to its identity, creating the absent ones.
fn resolve_all(store: &mut TagStore, tags: &Vec<String>) -> (r: Result<Vec<i64>, StoreError>)
    requires
        old(store).wf(),
    ensures
        final(store).wf(),
        final(store).grown_from(*old(store)),
        r matches Ok(ids) ==> {
            &&& final(store)@.tags.dom() == old(store)@.tags.dom().union(texts(tags@).to_set())
            &&& forall|n: Seq<char>| #[trigger] old(store)@.tags.contains_key(n) ==> final(store)@.tags[n] == old(
                store,
            )@.tags[n]
            &&& ids@ == resolved_ids(texts(tags@), final(store)@.tags)
            &&& final(store)@.items == old(store)@.items
            &&& final(store)@.item_ids == old(store)@.item_ids
            &&& final(store)@.next_item == old(store)@.next_item
        },
        r matches Err(e) ==> e == StoreError::IdsExhausted && old(store)@.next_tag + tags.len() > i64::MAX,
{
    let ghost s0 = *store;
    proof {
        store.lemma_grown_from_refl();
    }
    let mut ids: Vec<i64> = Vec::new();
    let mut k: usize = 0;
    while k < tags.len()
        invariant
            k <= tags.len(),
            s0 == *old(store),
            store.wf(),
            store.grown_from(s0),
            store@.tags.dom() == s0@.tags.dom().union(texts(tags@).subrange(0, k as int).to_set()),
            forall|n: Seq<char>| #[trigger] s0@.tags.contains_key(n) ==> store@.tags[n] == s0@.tags[n],
            ids@ == resolved_ids(texts(tags@).subrange(0, k as int), store@.tags),
            store@.items == s0@.items,
            store@.item_ids == s0@.item_ids,
            store@.next_item == s0@.next_item,
            store@.next_tag <= s0@.next_tag + k,
        decreases tags.len() - k,
    {
        let ghost before = *store;
        let res = store.resolve_or_create_tag(&tags[k]);
        proof {
            store.lemma_grown_from_trans(before, s0);
        }
        match res {
            Ok(id) => {
                let ghost t = texts(tags@);
                assert(tags@[k as int]@ == t[k as int]);
                let ghost old_ids = ids@;
                ids.push(id);
                assert(ids@ == old_ids.push(id));
                assert(t.subrange(0, k + 1) =~= t.subrange(0, k as int).push(t[k as int]));
                assert(t.subrange(0, k + 1).to_set() =~= t.subrange(0, k as int).to_set().insert(t[k as int])) by {
                    t.subrange(0, k as int).lemma_push_to_set_commute(t[k as int]);
                }
                assert forall|j: int| 0 <= j < k implies ids@[j] == store@.tags[t[j]] by {
                    assert(t.subrange(0, k as int)[j] == t[j]);
                    assert(t.subrange(0, k as int).to_set().contains(t[j]));
                    assert(before@.tags.contains_key(t[j]));
                    assert(old_ids[j] == before@.tags[t.subrange(0, k as int)[j]]);
                    assert(t[j] != t[k as int] ==> store@.tags[t[j]] == before@.tags[t[j]]);
                    assert(ids@[j] == before@.tags[t[j]]);
                }
                assert(t[k as int] == tags@[k as int]@);
                assert(ids@[k as int] == store@.tags[t[k as int]]);
                assert(ids@ =~= resolved_ids(t.subrange(0, k + 1), store@.tags));
            },
            Err(e) => {
                return Err(e);
            },
        }
        k = k + 1;
    }
    assert(texts(tags@).subrange(0, tags.len() as int) =~= texts(tags@));
    Ok(ids)
}

/// Records each tag identity for `path`; tells whether any was new to it.
fn record_entry(store: &mut TagStore, path: &String, ids: &Vec<i64>) -> (r: Result<bool, StoreError>)
    requires
        old(store).wf(),
        forall|k: int| 0 <= k < ids.len() ==> old(store)@.tags.values().contains(#[trigger] ids@[k]),
    ensures
        final(store).wf(),
        final(store).grown_from(*old(store)),
        r matches Ok(added) ==> {
            &&& final(store)@.items == old(store)@.items.union(entry_pairs(path@, ids@, ids.len() as int))
            &&& added == exists|k: int|
                0 <= k < ids.len() && !old(store)@.items.contains((path@, #[trigger] ids@[k]))
            &&& final(store)@.tags == old(store)@.tags
            &&& final(store)@.next_tag == old(store)@.next_tag
            &&& final(store)@.next_item <= old(store)@.next_item + ids.len()
        },
        r matches Err(e) ==> e == StoreError::IdsExhausted && old(store)@.next_item + ids.len() > i64::MAX,
{
    let ghost s0 = *store;
    proof {
        store.lemma_grown_from_refl();
        assert(s0@.items.union(entry_pairs(path@, ids@, 0)) =~= s0@.items);
    }
    let mut added = false;
    let mut k: usize = 0;
    while k < ids.len()
        invariant
            k <= ids.len(),
            s0 == *old(store),
            store.wf(),
            store.grown_from(s0),
            store@.tags == s0@.tags,
            store@.next_tag == s0@.next_tag,
            store@.items == s0@.items.union(entry_pairs(path@, ids@, k as int)),
            added == exists|j: int| 0 <= j < k && !s0@.items.contains((path@, #[trigger] ids@[j])),
            store@.next_item <= s0@.next_item + k,
            forall|j: int| 0 <= j < ids.len() ==> s0@.tags.values().contains(#[trigger] ids@[j]),
        decreases ids.len() - k,
    {
        let ghost before = *store;
        let res = store.record_item_if_absent(path, ids[k]);
        proof {
            store.lemma_grown_from_trans(before, s0);
        }
        match res {
            Ok(b) => {
                let ghost pair = (path@, ids@[k as int]);
                assert(store@.items =~= s0@.items.union(entry_pairs(path@, ids@, k + 1))) by {
                    assert forall|pr: (Seq<char>, i64)| #[trigger] store@.items.contains(pr) <==> s0@.items.union(
                        entry_pairs(path@, ids@, k + 1),
                    ).contains(pr) by {
                        if entry_pairs(path@, ids@, k as int).contains(pr) {
                            let j = choose|j: int| 0 <= j < k && pr == (path@, #[trigger] ids@[j]);
                            assert(entry_pairs(path@, ids@, k + 1).contains(pr));
                        }
                        if pr == pair {
                            assert(entry_pairs(path@, ids@, k + 1).contains(pr));
                        }
                        if entry_pairs(path@, ids@, k + 1).contains(pr) && pr != pair {
                            let j = choose|j: int| 0 <= j < k + 1 && pr == (path@, #[trigger] ids@[j]);
                            assert(entry_pairs(path@, ids@, k as int).contains(pr));
                        }
                    }
                }
                proof {
                    if !b && !s0@.items.contains(pair) {
                        assert(entry_pairs(path@, ids@, k as int).contains(pair));
                        let j = choose|j: int| 0 <= j < k && pair == (path@, #[trigger] ids@[j]);
                        assert(!s0@.items.contains((path@, ids@[j])));
                    }
                }
                if b {
                    added = true;
                }
            },
            Err(e) => {
                return Err(e);
            },
        }
        k = k + 1;
    }
    Ok(added)
}

pub proof fn lemma_tagged_pairs_step(
    q: RequestView,
    rules: Seq<RuleSyntax>,
    es: Seq<EntryView>,
    ids: Seq<i64>,
    n: int,
)
    requires
        0 <= n < es.len(),
    ensures
        selected(q, rules, es[n]) ==> tagged_pairs(q, rules, es, ids, n + 1) == tagged_pairs(q, rules, es, ids, n).union(
            entry_pairs(es[n].path, ids, ids.len() as int),
        ),
        !selected(q, rules, es[n]) ==> tagged_pairs(q, rules, es, ids, n + 1) == tagged_pairs(q, rules, es, ids, n),
{
    let a = tagged_pairs(q, rules, es, ids, n + 1);
    let b = tagged_pairs(q, rules, es, ids, n);
    let c = entry_pairs(es[n].path, ids, ids.len() as int);
    if selected(q, rules, es[n]) {
        assert forall|pr: (Seq<char>, i64)| a.contains(pr) <==> #[trigger] b.union(c).contains(pr) by {
            if a.contains(pr) {
                let (i, k) = choose|i: int, k: int|
                    #![trigger es[i], ids[k]]
                    0 <= i < n + 1 && 0 <= k < ids.len() && selected(q, rules, es[i]) && pr == (es[i].path, ids[k]);
                if i == n {
                    assert(c.contains(pr));
                } else {
                    assert(b.contains(pr));
                }
            }
            if b.contains(pr) {
                let (i, k) = choose|i: int, k: int|
                    #![trigger es[i], ids[k]]
                    0 <= i < n && 0 <= k < ids.len() && selected(q, rules, es[i]) && pr == (es[i].path, ids[k]);
                assert(a.contains(pr));
            }
            if c.contains(pr) {
                let k = choose|k: int| 0 <= k < ids.len() && pr == (es[n].path, #[trigger] ids[k]);
                assert(a.contains(pr));
            }
        }
        assert(a =~= b.union(c));
    } else {
        assert forall|pr: (Seq<char>, i64)| #[trigger] a.contains(pr) <==> b.contains(pr) by {
            if a.contains(pr) {
                let (i, k) = choose|i: int, k: int|
                    #![trigger es[i], ids[k]]
                    0 <= i < n + 1 && 0 <= k < ids.len() && selected(q, rules, es[i]) && pr == (es[i].path, ids[k]);
                assert(b.contains(pr));
            }
            if b.contains(pr) {
                let (i, k) = choose|i: int, k: int|
                    #![trigger es[i], ids[k]]
                    0 <= i < n && 0 <= k < ids.len() && selected(q, rules, es[i]) && pr == (es[i].path, ids[k]);
                assert(a.contains(pr));
            }
        }
        assert(a =~= b);
    }
}

pub proof fn lemma_counts_bounded(
    items: Set<(Seq<char>, i64)>,
    q: RequestView,
    rules: Seq<RuleSyntax>,
    es: Seq<EntryView>,
    ids: Seq<i64>,
    n: int,
    dirs: bool,
)
    requires
        0 <= n,
    ensures
        matched_count(q, rules, es, n, dirs) <= n,
        tagged_count(items, q, rules, es, ids, n, dirs) <= n,
    decreases n,
{
    if n > 0 {
        lemma_counts_bounded(items, q, rules, es, ids, n - 1, dirs);
    }
}

/// Applies the request's tags to the selected entries, in one transaction.
///
/// The tag names are resolved first, creating the absent ones; then each
/// selected entry is counted as matched and receives every tag it lacks, and
/// counts as newly tagged when at least one tag was new to it. On failure
/// the store is left as it was.
pub fn apply_tags(
    store: &mut TagStore,
    request: &TagRequest,
    ignore: &IgnoreRules,
    entries: &Vec<WalkEntry>,
) -> (r: Result<AddOutput, TagError>)
    requires
        old(store).wf(),
        entries.len() <= i32::MAX,
    ensures
        final(store).wf(),
        r is Err ==> r == Err::<AddOutput, TagError>(TagError::Store(StoreError::IdsExhausted)) && final(store)@
            == old(store)@,
        r matches Ok(out) ==> applied(
            old(store)@,
            request@,
            ignore@,
            entry_views(entries@),
            final(store)@,
            out@,
        ),
        old(store)@.next_tag + request@.tags.len() <= i64::MAX && old(store)@.next_item + entries.len()
            * request@.tags.len() <= i64::MAX ==> r is Ok,
{
    let ghost s0 = *store;
    let ghost q = request@;
    let ghost rules = ignore@;
    let ghost es = entry_views(entries@);
    let mark = store.begin();
    let ids = match resolve_all(store, request.tags()) {
        Ok(ids) => ids,
        Err(e) => {
            store.rollback(mark);
            return Err(TagError::Store(e));
        },
    };
    let ghost s1 = *store;
    let ghost t_len = ids@.len();
    proof {
        assert(ids@.len() == q.tags.len());
        assert forall|k: int| 0 <= k < ids@.len() implies s1@.tags.values().contains(#[trigger] ids@[k]) by {
            assert(q.tags.to_set().contains(q.tags[k]));
            assert(s1@.tags.contains_key(q.tags[k]));
        }
        assert(s0@.items.union(tagged_pairs(q, rules, es, ids@, 0)) =~= s0@.items);
    }
    let mut matched_files: i32 = 0;
    let mut tagged_files: i32 = 0;
    let mut matched_dirs: i32 = 0;
    let mut tagged_dirs: i32 = 0;
    let mut i: usize = 0;
    while i < entries.len()
        invariant
            i <= entries.len() <= i32::MAX,
            s0 == *old(store),
            q == request@,
            rules == ignore@,
            es == entry_views(entries@),
            mark.wf(),
            mark.store() == s0,
            store.wf(),
            store.grown_from(s0),
            store@.tags == s1@.tags,
            store@.next_tag == s1@.next_tag,
            ids@ == resolved_ids(q.tags, s1@.tags),
            forall|k: int| 0 <= k < ids@.len() ==> s1@.tags.values().contains(#[trigger] ids@[k]),
            store@.items == s0@.items.union(tagged_pairs(q, rules, es, ids@, i as int)),
            store@.next_item <= s0@.next_item + i * ids@.len(),
            matched_files == matched_count(q, rules, es, i as int, false),
            matched_dirs == matched_count(q, rules, es, i as int, true),
            tagged_files == tagged_count(s0@.items, q, rules, es, ids@, i as int, false),
            tagged_dirs == tagged_count(s0@.items, q, rules, es, ids@, i as int, true),
        decreases entries.len() - i,
    {
        let entry = &entries[i];
        assert(es[i as int] == entry@);
        proof {
            lemma_counts_bounded(s0@.items, q, rules, es, ids@, i as int, false);
            lemma_counts_bounded(s0@.items, q, rules, es, ids@, i as int, true);
            lemma_tagged_pairs_step(q, rules, es, ids@, i as int);
        }
        if request.selects(ignore, entry) {
            if entry.is_dir {
                matched_dirs = matched_dirs + 1;
            } else {
                matched_files = matched_files + 1;
            }
            let ghost before = *store;
            let res = record_entry(store, &entry.path, &ids);
            proof {
                store.lemma_grown_from_trans(before, s0);
            }
            match res {
                Ok(added) => {
                    proof {
                        let items_i = s0@.items.union(tagged_pairs(q, rules, es, ids@, i as int));
                        assert(store@.items =~= s0@.items.union(tagged_pairs(q, rules, es, ids@, i + 1)));
                        assert(added == fresh(s0@.items, q, rules, es, ids@, i as int));
                        assert(store@.next_item <= s0@.next_item + (i + 1) * ids@.len()) by (nonlinear_arith)
                            requires
                                store@.next_item <= before@.next_item + ids@.len(),
                                before@.next_item <= s0@.next_item + i * ids@.len(),
                        ;
                    }
                    if added {
                        if entry.is_dir {
                            tagged_dirs = tagged_dirs + 1;
                        } else {
                            tagged_files = tagged_files + 1;
                        }
                    }
                },
                Err(e) => {
                    proof {
                        assert(i * ids@.len() + ids@.len() <= entries.len() * ids@.len()) by (nonlinear_arith)
                            requires
                                i < entries.len(),
                        ;
                    }
                    store.rollback(mark);
                    return Err(TagError::Store(e));
                },
            }
        } else {
            proof {
                assert(!fresh(s0@.items, q, rules, es, ids@, i as int));
                assert(s0@.next_item + i * ids@.len() <= s0@.next_item + (i + 1) * ids@.len()) by (nonlinear_arith);
            }
        }
        i = i + 1;
    }
    let no_tags: Vec<String> = Vec::new();
    assert(texts(no_tags@) =~= Seq::<Seq<char>>::empty());
    let tags = vec_union(&no_tags, copy_texts(request.tags()));
    Ok(AddOutput { matched_files, tagged_files, matched_dirs, tagged_dirs, tags })
}

proof fn lemma_no_fresh(
    items: Set<(Seq<char>, i64)>,
    q: RequestView,
    rules: Seq<RuleSyntax>,
    es: Seq<EntryView>,
    ids: Seq<i64>,
    n: int,
    dirs: bool,
)
    requires
        0 <= n <= es.len(),
        tagged_pairs(q, rules, es, ids, es.len() as int).subset_of(items),
    ensures
        tagged_count(items, q, rules, es, ids, n, dirs) == 0,
    decreases n,
{
    if n > 0 {
        lemma_no_fresh(items, q, rules, es, ids, n - 1, dirs);
        let i = n - 1;
        if fresh(items, q, rules, es, ids, i) {
            let k = choose|k: int|
                0 <= k < ids.len() && !items.contains((es[i].path, #[trigger] ids[k])) && !tagged_pairs(
                    q,
                    rules,
                    es,
                    ids,
                    i,
                ).contains((es[i].path, ids[k]));
            assert(tagged_pairs(q, rules, es, ids, es.len() as int).contains((es[i].path, ids[k])));
        }
    }
}

/// Running the same request over the same entries a second time tags
/// nothing new: no file or directory is newly tagged, the same entries are
/// matched, and the store's tags and items stay as the first run left them.
pub proof fn apply_idempotent(
    s0: StoreView,
    q: RequestView,
    rules: Seq<RuleSyntax>,
    es: Seq<EntryView>,
    s1: StoreView,
    r1: ReportView,
    s2: StoreView,
    r2: ReportView,
)
    requires
        applied(s0, q, rules, es, s1, r1),
        applied(s1, q, rules, es, s2, r2),
    ensures
        r2.tagged_files == 0,
        r2.tagged_dirs == 0,
        r2.matched_files == r1.matched_files,
        r2.matched_dirs == r1.matched_dirs,
        s2.tags == s1.tags,
        s2.items == s1.items,
{
    assert(s2.tags.dom() =~= s1.tags.dom());
    assert(s2.tags =~= s1.tags);
    let ids = resolved_ids(q.tags, s1.tags);
    let tp = tagged_pairs(q, rules, es, ids, es.len() as int);
    assert(tp.subset_of(s1.items));
    assert(s2.items =~= s1.items);
    lemma_no_fresh(s1.items, q, rules, es, ids, es.len() as int, false);
    lemma_no_fresh(s1.items, q, rules, es, ids, es.len() as int, true);
}

/// Two runs that both request a tag name leave it with one identity: the
/// second run finds the tag that the first one resolved or created.
pub proof fn apply_keeps_tag_identity(
    s0: StoreView,
    q1: RequestView,
    rules1: Seq<RuleSyntax>,
    es1: Seq<EntryView>,
    s1: StoreView,
    r1: ReportView,
    q2: RequestView,
    rules2: Seq<RuleSyntax>,
    es2: Seq<EntryView>,
    s2: StoreView,
    r2: ReportView,
    name: Seq<char>,
)
    requires
        applied(s0, q1, rules1, es1, s1, r1),
        applied(s1, q2, rules2, es2, s2, r2),
        q1.tags.contains(name),
        q2.tags.contains(name),
    ensures
        s1.tags.contains_key(name),
        s2.tags.contains_key(name),
        s2.tags[name] == s1.tags[name],
{
    assert(q1.tags.to_set().contains(name));
    assert(s1.tags.contains_key(name));
}

} // verus!
