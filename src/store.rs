//! The tag store: tags with unique names, and items that link a path to a
//! tag, each (path, tag) pair at most once.
//!
//! The store is held in memory for the length of a run; reading it from and
//! writing it to a database is left to the caller.

use vstd::prelude::*;

verus! {

/// One row of the tag table.
#[derive(Debug)]
pub struct TagRow {
    pub id: i64,
    pub name: String,
}

/// One row of the item table: `path` holds the tag with id `tag`.
#[derive(Debug)]
pub struct ItemRow {
    pub id: i64,
    pub path: String,
    pub tag: i64,
}

/// Failures of the store.
#[derive(Debug, PartialEq, Eq, Structural)]
pub enum StoreError {
    /// An identity outside `1 .. i64::MAX`.
    InvalidId,
    /// No identity is left for a new row.
    IdsExhausted,
    /// A row would repeat the identity of another row.
    DuplicateId,
    /// A tag row would repeat the name of another tag.
    DuplicateName,
    /// An item row would repeat the (path, tag) pair of another item.
    DuplicateItem,
    /// An item refers to no tag of the store.
    UnknownTag,
}

/// Mathematical model of a store.
pub ghost struct StoreView {
    /// Each tag name with its identity.
    pub tags: Map<Seq<char>, i64>,
    /// Each (path, tag identity) pair that an item records.
    pub items: Set<(Seq<char>, i64)>,
    /// The identities of the items.
    pub item_ids: Set<i64>,
    /// The identity the next new tag receives.
    pub next_tag: int,
    /// The identity the next new item receives.
    pub next_item: int,
}

/// The outcome of resolving `name` in `s0`: a known name keeps its identity
/// and the store is unchanged; a new name takes the next identity.
pub open spec fn tag_resolved(s0: StoreView, name: Seq<char>, s1: StoreView, id: i64) -> bool {
    if s0.tags.contains_key(name) {
        id == s0.tags[name] && s1 == s0
    } else {
        &&& s0.next_tag < i64::MAX
        &&& id == s0.next_tag
        &&& s1 == StoreView { tags: s0.tags.insert(name, id), next_tag: s0.next_tag + 1, ..s0 }
    }
}

/// Resolving the same name twice gives the same identity, and the second
/// call changes nothing: a name never gets a second tag.
pub proof fn resolve_twice_same_identity(
    s0: StoreView,
    name: Seq<char>,
    s1: StoreView,
    id1: i64,
    s2: StoreView,
    id2: i64,
)
    requires
        tag_resolved(s0, name, s1, id1),
        tag_resolved(s1, name, s2, id2),
    ensures
        id1 == id2,
        s2 == s1,
        s2.tags.contains_key(name),
{
}

/// The names of tag rows, each with its identity.
pub open spec fn tag_map(rows: Seq<TagRow>) -> Map<Seq<char>, i64>
    decreases rows.len(),
{
    if rows.len() == 0 {
        Map::empty()
    } else {
        tag_map(rows.drop_last()).insert(rows.last().name@, rows.last().id)
    }
}

/// The (path, tag) pairs of item rows.
pub open spec fn item_set(rows: Seq<ItemRow>) -> Set<(Seq<char>, i64)>
    decreases rows.len(),
{
    if rows.len() == 0 {
        Set::empty()
    } else {
        item_set(rows.drop_last()).insert((rows.last().path@, rows.last().tag))
    }
}

/// The identities of item rows.
pub open spec fn item_id_set(rows: Seq<ItemRow>) -> Set<i64> {
    Set::new(|id: i64| exists|j: int| 0 <= j < rows.len() && #[trigger] rows[j].id == id)
}

/// Whether some tag row has identity `id`.
pub open spec fn has_tag_id(rows: Seq<TagRow>, id: i64) -> bool {
    exists|j: int| 0 <= j < rows.len() && #[trigger] rows[j].id == id
}

pub proof fn lemma_tag_map(rows: Seq<TagRow>)
    requires
        forall|i: int, j: int| 0 <= i < j < rows.len() ==> rows[i].name@ != rows[j].name@,
    ensures
        forall|n: Seq<char>|
            #[trigger] tag_map(rows).contains_key(n) <==> exists|i: int| 0 <= i < rows.len() && rows[i].name@ == n,
        forall|i: int| 0 <= i < rows.len() ==> tag_map(rows)[#[trigger] rows[i].name@] == rows[i].id,
    decreases rows.len(),
{
    if rows.len() > 0 {
        let q = rows.drop_last();
        lemma_tag_map(q);
        assert forall|n: Seq<char>|
            #[trigger] tag_map(rows).contains_key(n) <==> exists|i: int| 0 <= i < rows.len() && rows[i].name@ == n by {
            if tag_map(q).contains_key(n) {
                let i = choose|i: int| 0 <= i < q.len() && q[i].name@ == n;
                assert(rows[i].name@ == n);
            }
            if exists|i: int| 0 <= i < rows.len() && rows[i].name@ == n {
                let i = choose|i: int| 0 <= i < rows.len() && rows[i].name@ == n;
                if i < q.len() {
                    assert(q[i].name@ == n);
                }
            }
        }
        assert forall|i: int| 0 <= i < rows.len() implies tag_map(rows)[#[trigger] rows[i].name@] == rows[i].id by {
            if i < q.len() {
                assert(q[i] == rows[i]);
            }
        }
    }
}

pub proof fn lemma_item_set(rows: Seq<ItemRow>)
    ensures
        forall|p: Seq<char>, t: i64|
            #[trigger] item_set(rows).contains((p, t)) <==> exists|i: int|
                0 <= i < rows.len() && rows[i].path@ == p && rows[i].tag == t,
    decreases rows.len(),
{
    if rows.len() > 0 {
        let q = rows.drop_last();
        lemma_item_set(q);
        assert forall|p: Seq<char>, t: i64|
            #[trigger] item_set(rows).contains((p, t)) <==> exists|i: int|
                0 <= i < rows.len() && rows[i].path@ == p && rows[i].tag == t by {
            if item_set(q).contains((p, t)) {
                let i = choose|i: int| 0 <= i < q.len() && q[i].path@ == p && q[i].tag == t;
                assert(rows[i] == q[i]);
            }
            if exists|i: int| 0 <= i < rows.len() && rows[i].path@ == p && rows[i].tag == t {
                let i = choose|i: int| 0 <= i < rows.len() && rows[i].path@ == p && rows[i].tag == t;
                if i < q.len() {
                    assert(rows[i] == q[i]);
                }
            }
        }
    }
}

/// The tags and items of one store.
#[derive(Debug)]
pub struct TagStore {
    tags: Vec<TagRow>,
    items: Vec<ItemRow>,
    next_tag_id: i64,
    next_item_id: i64,
}

/// The state of a store at the start of a transaction.
pub struct StoreMark {
    tags: usize,
    items: usize,
    next_tag_id: i64,
    next_item_id: i64,
    at: Ghost<TagStore>,
}

impl StoreMark {
    /// The store as it was when the mark was taken.
    pub closed spec fn store(&self) -> TagStore {
        self.at@
    }

    pub closed spec fn wf(&self) -> bool {
        &&& self.tags == self.at@.tags@.len()
        &&& self.items == self.at@.items@.len()
        &&& self.next_tag_id == self.at@.next_tag_id
        &&& self.next_item_id == self.at@.next_item_id
        &&& self.at@.wf()
    }
}

impl View for TagStore {
    type V = StoreView;

    closed spec fn view(&self) -> StoreView {
        StoreView {
            tags: tag_map(self.tags@),
            items: item_set(self.items@),
            item_ids: item_id_set(self.items@),
            next_tag: self.next_tag_id as int,
            next_item: self.next_item_id as int,
        }
    }
}

impl TagStore {
    /// The tag rows, in order of insertion.
    pub closed spec fn tag_rows(&self) -> Seq<TagRow> {
        self.tags@
    }

    /// The item rows, in order of insertion.
    pub closed spec fn item_rows(&self) -> Seq<ItemRow> {
        self.items@
    }

    /// Identities are positive and below the next ones, tag identities and
    /// names are unique, item identities and (path, tag) pairs are unique,
    /// and each item refers to a tag of the store.
    pub closed spec fn wf(&self) -> bool {
        let t = self.tags@;
        let it = self.items@;
        &&& 1 <= self.next_tag_id
        &&& 1 <= self.next_item_id
        &&& forall|i: int| 0 <= i < t.len() ==> 1 <= #[trigger] t[i].id < self.next_tag_id
        &&& forall|i: int, j: int| 0 <= i < j < t.len() ==> t[i].id != t[j].id && t[i].name@ != t[j].name@
        &&& forall|i: int| 0 <= i < it.len() ==> 1 <= #[trigger] it[i].id < self.next_item_id
        &&& forall|i: int, j: int|
            0 <= i < j < it.len() ==> it[i].id != it[j].id && (it[i].path@ != it[j].path@ || it[i].tag != it[j].tag)
        &&& forall|i: int| 0 <= i < it.len() ==> has_tag_id(t, #[trigger] it[i].tag)
    }

    /// `self` holds the rows of `earlier` as a prefix of its own, and its
    /// next identities are no smaller.
    pub closed spec fn grown_from(&self, earlier: TagStore) -> bool {
        &&& earlier.tags@.len() <= self.tags@.len()
        &&& self.tags@.subrange(0, earlier.tags@.len() as int) == earlier.tags@
        &&& earlier.items@.len() <= self.items@.len()
        &&& self.items@.subrange(0, earlier.items@.len() as int) == earlier.items@
        &&& earlier.next_tag_id <= self.next_tag_id
        &&& earlier.next_item_id <= self.next_item_id
    }

    pub proof fn lemma_grown_from_refl(&self)
        ensures
            self.grown_from(*self),
    {
        assert(self.tags@.subrange(0, self.tags@.len() as int) =~= self.tags@);
        assert(self.items@.subrange(0, self.items@.len() as int) =~= self.items@);
    }

    pub proof fn lemma_grown_from_trans(&self, b: TagStore, a: TagStore)
        requires
            self.grown_from(b),
            b.grown_from(a),
        ensures
            self.grown_from(a),
    {
        assert(self.tags@.subrange(0, a.tags@.len() as int) =~= b.tags@.subrange(0, a.tags@.len() as int));
        assert(self.items@.subrange(0, a.items@.len() as int) =~= b.items@.subrange(
            0,
            a.items@.len() as int,
        ));
    }

    /// In a well-formed store, no two tag rows share a name and each name of
    /// the model maps to the identity of its row.
    pub proof fn lemma_rows_match_view(&self)
        requires
            self.wf(),
        ensures
            forall|i: int, j: int|
                0 <= i < j < self.tag_rows().len() ==> self.tag_rows()[i].name@ != self.tag_rows()[j].name@,
            forall|i: int|
                0 <= i < self.tag_rows().len() ==> self@.tags.contains_key(#[trigger] self.tag_rows()[i].name@)
                    && self@.tags[self.tag_rows()[i].name@] == self.tag_rows()[i].id,
            forall|n: Seq<char>|
                #[trigger] self@.tags.contains_key(n) ==> exists|i: int|
                    0 <= i < self.tag_rows().len() && self.tag_rows()[i].name@ == n,
    {
        lemma_tag_map(self.tags@);
        assert forall|n: Seq<char>| #[trigger] self@.tags.contains_key(n) implies exists|i: int|
            0 <= i < self.tag_rows().len() && self.tag_rows()[i].name@ == n by {
            assert(tag_map(self.tags@).contains_key(n));
            let i = choose|i: int| 0 <= i < self.tags@.len() && self.tags@[i].name@ == n;
            assert(self.tag_rows()[i].name@ == n);
        }
    }

    /// A store with no tags and no items.
    pub fn new() -> (r: TagStore)
        ensures
            r.wf(),
            r@.tags == Map::<Seq<char>, i64>::empty(),
            r@.items == Set::<(Seq<char>, i64)>::empty(),
            r@.next_tag == 1,
            r@.next_item == 1,
    {
        TagStore { tags: Vec::new(), items: Vec::new(), next_tag_id: 1, next_item_id: 1 }
    }

    /// The tag rows, in order of insertion.
    pub fn tags(&self) -> (r: &Vec<TagRow>)
        ensures
            r@ == self.tag_rows(),
    {
        &self.tags
    }

    /// The item rows, in order of insertion.
    pub fn items(&self) -> (r: &Vec<ItemRow>)
        ensures
            r@ == self.item_rows(),
    {
        &self.items
    }

    /// The identity of the tag with this name, if there is one.
    pub fn find_tag(&self, name: &String) -> (r: Option<i64>)
        requires
            self.wf(),
        ensures
            r == (if self@.tags.contains_key(name@) { Some(self@.tags[name@]) } else { None::<i64> }),
    {
        proof {
            lemma_tag_map(self.tags@);
        }
        let mut i: usize = 0;
        while i < self.tags.len()
            invariant
                i <= self.tags.len(),
                forall|j: int| 0 <= j < i ==> self.tags@[j].name@ != name@,
                self.wf(),
            decreases self.tags.len() - i,
        {
            if self.tags[i].name == *name {
                proof {
                    lemma_tag_map(self.tags@);
                }
                assert(tag_map(self.tags@)[self.tags@[i as int].name@] == self.tags@[i as int].id);
                return Some(self.tags[i].id);
            }
            i = i + 1;
        }
        None
    }

    /// Whether some tag has this identity.
    fn knows_tag_id(&self, id: i64) -> (r: bool)
        ensures
            r == has_tag_id(self.tags@, id),
    {
        let mut i: usize = 0;
        while i < self.tags.len()
            invariant
                i <= self.tags.len(),
                forall|j: int| 0 <= j < i ==> self.tags@[j].id != id,
            decreases self.tags.len() - i,
        {
            if self.tags[i].id == id {
                return true;
            }
            i = i + 1;
        }
        false
    }

    /// Whether an item records this (path, tag) pair.
    pub fn has_item(&self, path: &String, tag: i64) -> (r: bool)
        ensures
            r == self@.items.contains((path@, tag)),
    {
        proof {
            lemma_item_set(self.items@);
        }
        let mut i: usize = 0;
        while i < self.items.len()
            invariant
                i <= self.items.len(),
                forall|j: int| 0 <= j < i ==> !(self.items@[j].path@ == path@ && self.items@[j].tag == tag),
            decreases self.items.len() - i,
        {
            if self.items[i].tag == tag && self.items[i].path == *path {
                proof {
                    lemma_item_set(self.items@);
                }
                assert(self.items@[i as int].path@ == path@ && self.items@[i as int].tag == tag);
                return true;
            }
            i = i + 1;
        }
        false
    }

    /// Whether an item row has this identity.
    fn knows_item_id(&self, id: i64) -> (r: bool)
        ensures
            r == exists|j: int| 0 <= j < self.items@.len() && #[trigger] self.items@[j].id == id,
    {
        let mut i: usize = 0;
        while i < self.items.len()
            invariant
                i <= self.items.len(),
                forall|j: int| 0 <= j < i ==> self.items@[j].id != id,
            decreases self.items.len() - i,
        {
            if self.items[i].id == id {
                return true;
            }
            i = i + 1;
        }
        false
    }
}

impl TagStore {
    proof fn lemma_tag_ids(&self)
        requires
            self.wf(),
        ensures
            forall|id: i64| #[trigger] self@.tags.values().contains(id) <==> has_tag_id(self.tags@, id),
    {
        lemma_tag_map(self.tags@);
        assert forall|id: i64| #[trigger] self@.tags.values().contains(id) <==> has_tag_id(self.tags@, id) by {
            if self@.tags.values().contains(id) {
                let k = choose|k: Seq<char>| #[trigger] self@.tags.contains_key(k) && self@.tags[k] == id;
                let i = choose|i: int| 0 <= i < self.tags@.len() && self.tags@[i].name@ == k;
                assert(self.tags@[i].id == id);
            }
            if has_tag_id(self.tags@, id) {
                let j = choose|j: int| 0 <= j < self.tags@.len() && #[trigger] self.tags@[j].id == id;
                assert(self@.tags.contains_key(self.tags@[j].name@));
            }
        }
    }

    proof fn lemma_push_tag(&self, row: TagRow, next: i64, after: TagStore)
        requires
            self.wf(),
            !self@.tags.contains_key(row.name@),
            !self@.tags.values().contains(row.id),
            1 <= row.id < next,
            self.next_tag_id <= next,
            after.tags@ == self.tags@.push(row),
            after.items == self.items,
            after.next_tag_id == next,
            after.next_item_id == self.next_item_id,
        ensures
            after.wf(),
            after.grown_from(*self),
            after@ == (StoreView { tags: self@.tags.insert(row.name@, row.id), next_tag: next as int, ..self@ }),
    {
        self.lemma_tag_ids();
        lemma_tag_map(self.tags@);
        let t = after.tags@;
        assert(t.drop_last() =~= self.tags@);
        assert forall|i: int, j: int| 0 <= i < j < t.len() implies t[i].id != t[j].id && t[i].name@ != t[j].name@ by {
            if j == t.len() - 1 {
                assert(self@.tags.contains_key(self.tags@[i].name@));
                assert(has_tag_id(self.tags@, self.tags@[i].id));
            }
        }
        assert forall|i: int| 0 <= i < after.items@.len() implies has_tag_id(t, #[trigger] after.items@[i].tag) by {
            let j = choose|j: int| 0 <= j < self.tags@.len() && #[trigger] self.tags@[j].id == self.items@[i].tag;
            assert(t[j].id == after.items@[i].tag);
        }
        assert(t.subrange(0, self.tags@.len() as int) =~= self.tags@);
        assert(self.items@.subrange(0, self.items@.len() as int) =~= self.items@);
    }

    proof fn lemma_push_item(&self, row: ItemRow, next: i64, after: TagStore)
        requires
            self.wf(),
            !self@.items.contains((row.path@, row.tag)),
            !self@.item_ids.contains(row.id),
            has_tag_id(self.tags@, row.tag),
            1 <= row.id < next,
            self.next_item_id <= next,
            after.items@ == self.items@.push(row),
            after.tags == self.tags,
            after.next_item_id == next,
            after.next_tag_id == self.next_tag_id,
        ensures
            after.wf(),
            after.grown_from(*self),
            after@ == (StoreView {
                items: self@.items.insert((row.path@, row.tag)),
                item_ids: self@.item_ids.insert(row.id),
                next_item: next as int,
                ..self@
            }),
    {
        lemma_item_set(self.items@);
        let it = after.items@;
        assert(it.drop_last() =~= self.items@);
        assert forall|i: int, j: int| 0 <= i < j < it.len() implies it[i].id != it[j].id && (it[i].path@
            != it[j].path@ || it[i].tag != it[j].tag) by {
            if j == it.len() - 1 {
                assert(self@.item_ids.contains(self.items@[i].id));
                assert(item_set(self.items@).contains((self.items@[i].path@, self.items@[i].tag)));
            }
        }
        assert forall|i: int| 0 <= i < it.len() implies has_tag_id(after.tags@, #[trigger] it[i].tag) by {
            if i < self.items@.len() {
                assert(it[i] == self.items@[i]);
            }
        }
        assert forall|id: i64| #[trigger] item_id_set(it).contains(id) <==> self@.item_ids.insert(row.id).contains(id) by {
            if item_id_set(it).contains(id) && id != row.id {
                let j = choose|j: int| 0 <= j < it.len() && #[trigger] it[j].id == id;
                assert(self.items@[j].id == id);
            }
            if self@.item_ids.contains(id) {
                let j = choose|j: int| 0 <= j < self.items@.len() && #[trigger] self.items@[j].id == id;
                assert(it[j].id == id);
            }
            if id == row.id {
                assert(it[it.len() - 1].id == id);
            }
        }
        assert(item_id_set(it) =~= self@.item_ids.insert(row.id));
        assert(it.subrange(0, self.items@.len() as int) =~= self.items@);
        assert(self.tags@.subrange(0, self.tags@.len() as int) =~= self.tags@);
    }

    /// Adds a tag row read back from storage, keeping its identity.
    pub fn add_tag_row(&mut self, row: TagRow) -> (r: Result<(), StoreError>)
        requires
            old(self).wf(),
        ensures
            final(self).wf(),
            final(self).grown_from(*old(self)),
            r is Err ==> final(self)@ == old(self)@,
            r == (if row.id < 1 || row.id == i64::MAX {
                Err::<(), StoreError>(StoreError::InvalidId)
            } else if old(self)@.tags.contains_key(row.name@) {
                Err(StoreError::DuplicateName)
            } else if old(self)@.tags.values().contains(row.id) {
                Err(StoreError::DuplicateId)
            } else {
                Ok(())
            }),
            r is Ok ==> final(self)@ == (StoreView {
                tags: old(self)@.tags.insert(row.name@, row.id),
                next_tag: if old(self)@.next_tag > row.id + 1 { old(self)@.next_tag } else { row.id + 1 },
                ..old(self)@
            }),
    {
        proof {
            self.lemma_grown_from_refl();
            self.lemma_tag_ids();
        }
        if row.id < 1 || row.id == i64::MAX {
            return Err(StoreError::InvalidId);
        }
        if self.find_tag(&row.name).is_some() {
            return Err(StoreError::DuplicateName);
        }
        if self.knows_tag_id(row.id) {
            return Err(StoreError::DuplicateId);
        }
        let next = if self.next_tag_id > row.id + 1 { self.next_tag_id } else { row.id + 1 };
        let ghost before = *self;
        let ghost pushed = row;
        self.tags.push(row);
        self.next_tag_id = next;
        proof {
            before.lemma_push_tag(pushed, next, *self);
        }
        Ok(())
    }

    /// Adds an item row read back from storage, keeping its identity.
    pub fn add_item_row(&mut self, row: ItemRow) -> (r: Result<(), StoreError>)
        requires
            old(self).wf(),
        ensures
            final(self).wf(),
            final(self).grown_from(*old(self)),
            r is Err ==> final(self)@ == old(self)@,
            r == (if row.id < 1 || row.id == i64::MAX {
                Err::<(), StoreError>(StoreError::InvalidId)
            } else if !old(self)@.tags.values().contains(row.tag) {
                Err(StoreError::UnknownTag)
            } else if old(self)@.items.contains((row.path@, row.tag)) {
                Err(StoreError::DuplicateItem)
            } else if old(self)@.item_ids.contains(row.id) {
                Err(StoreError::DuplicateId)
            } else {
                Ok(())
            }),
            r is Ok ==> final(self)@ == (StoreView {
                items: old(self)@.items.insert((row.path@, row.tag)),
                item_ids: old(self)@.item_ids.insert(row.id),
                next_item: if old(self)@.next_item > row.id + 1 { old(self)@.next_item } else { row.id + 1 },
                ..old(self)@
            }),
    {
        proof {
            self.lemma_grown_from_refl();
            self.lemma_tag_ids();
        }
        if row.id < 1 || row.id == i64::MAX {
            return Err(StoreError::InvalidId);
        }
        if !self.knows_tag_id(row.tag) {
            return Err(StoreError::UnknownTag);
        }
        if self.has_item(&row.path, row.tag) {
            return Err(StoreError::DuplicateItem);
        }
        if self.knows_item_id(row.id) {
            return Err(StoreError::DuplicateId);
        }
        let next = if self.next_item_id > row.id + 1 { self.next_item_id } else { row.id + 1 };
        let ghost before = *self;
        let ghost pushed = row;
        self.items.push(row);
        self.next_item_id = next;
        proof {
            before.lemma_push_item(pushed, next, *self);
        }
        Ok(())
    }

    /// Opens a transaction: the mark remembers the store as it is now.
    pub fn begin(&self) -> (m: StoreMark)
        requires
            self.wf(),
        ensures
            m.wf(),
            m.store() == *self,
    {
        StoreMark {
            tags: self.tags.len(),
            items: self.items.len(),
            next_tag_id: self.next_tag_id,
            next_item_id: self.next_item_id,
            at: Ghost(*self),
        }
    }

    /// Abandons a transaction: the store returns to the state of the mark.
    pub fn rollback(&mut self, m: StoreMark)
        requires
            old(self).wf(),
            m.wf(),
            old(self).grown_from(m.store()),
        ensures
            final(self).wf(),
            final(self)@ == m.store()@,
    {
        self.tags.truncate(m.tags);
        self.items.truncate(m.items);
        self.next_tag_id = m.next_tag_id;
        self.next_item_id = m.next_item_id;
        assert(self.tags@ == m.store().tags@);
        assert(self.items@ == m.store().items@);
    }

    /// Looks a tag up by name and creates it if it is absent. A name that
    /// the store already holds keeps its identity; a new tag takes the next
    /// identity.
    pub fn resolve_or_create_tag(&mut self, name: &String) -> (r: Result<i64, StoreError>)
        requires
            old(self).wf(),
        ensures
            final(self).wf(),
            final(self).grown_from(*old(self)),
            r matches Ok(id) ==> tag_resolved(old(self)@, name@, final(self)@, id),
            old(self)@.tags.contains_key(name@) ==> r == Ok::<i64, StoreError>(old(self)@.tags[name@])
                && final(self)@ == old(self)@,
            !old(self)@.tags.contains_key(name@) && old(self)@.next_tag < i64::MAX ==> r == Ok::<
                i64,
                StoreError,
            >(old(self)@.next_tag as i64) && final(self)@ == (StoreView {
                tags: old(self)@.tags.insert(name@, old(self)@.next_tag as i64),
                next_tag: old(self)@.next_tag + 1,
                ..old(self)@
            }),
            !old(self)@.tags.contains_key(name@) && old(self)@.next_tag >= i64::MAX ==> r == Err::<
                i64,
                StoreError,
            >(StoreError::IdsExhausted) && final(self)@ == old(self)@,
    {
        proof {
            self.lemma_grown_from_refl();
        }
        match self.find_tag(name) {
            Some(id) => Ok(id),
            None => {
                if self.next_tag_id == i64::MAX {
                    return Err(StoreError::IdsExhausted);
                }
                let id = self.next_tag_id;
                let ghost before = *self;
                proof {
                    self.lemma_tag_ids();
                }
                let row = TagRow { id, name: name.clone() };
                let ghost pushed = row;
                self.tags.push(row);
                self.next_tag_id = id + 1;
                proof {
                    before.lemma_push_tag(pushed, (id + 1) as i64, *self);
                }
                Ok(id)
            },
        }
    }

    /// Records that `path` holds the tag `tag` unless an item already says
    /// so; tells whether a new item was recorded.
    pub fn record_item_if_absent(&mut self, path: &String, tag: i64) -> (r: Result<bool, StoreError>)
        requires
            old(self).wf(),
        ensures
            final(self).wf(),
            final(self).grown_from(*old(self)),
            !old(self)@.tags.values().contains(tag) ==> r == Err::<bool, StoreError>(StoreError::UnknownTag)
                && final(self)@ == old(self)@,
            old(self)@.tags.values().contains(tag) && old(self)@.items.contains((path@, tag)) ==> r == Ok::<
                bool,
                StoreError,
            >(false) && final(self)@ == old(self)@,
            old(self)@.tags.values().contains(tag) && !old(self)@.items.contains((path@, tag))
                && old(self)@.next_item < i64::MAX ==> r == Ok::<bool, StoreError>(true) && final(self)@
                == (StoreView {
                items: old(self)@.items.insert((path@, tag)),
                item_ids: old(self)@.item_ids.insert(old(self)@.next_item as i64),
                next_item: old(self)@.next_item + 1,
                ..old(self)@
            }),
            old(self)@.tags.values().contains(tag) && !old(self)@.items.contains((path@, tag))
                && old(self)@.next_item >= i64::MAX ==> r == Err::<bool, StoreError>(
                StoreError::IdsExhausted,
            ) && final(self)@ == old(self)@,
    {
        proof {
            self.lemma_grown_from_refl();
            self.lemma_tag_ids();
        }
        if !self.knows_tag_id(tag) {
            return Err(StoreError::UnknownTag);
        }
        if self.has_item(path, tag) {
            return Ok(false);
        }
        if self.next_item_id == i64::MAX {
            return Err(StoreError::IdsExhausted);
        }
        let id = self.next_item_id;
        let ghost before = *self;
        let row = ItemRow { id, path: path.clone(), tag };
        let ghost pushed = row;
        proof {
            if before@.item_ids.contains(id) {
                let j = choose|j: int| 0 <= j < before.items@.len() && #[trigger] before.items@[j].id == id;
            }
        }
        self.items.push(row);
        self.next_item_id = id + 1;
        proof {
            before.lemma_push_item(pushed, (id + 1) as i64, *self);
        }
        Ok(true)
    }
}

} // verus!
