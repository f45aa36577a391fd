use crate::base::TuplePointer;
use crate::btree::{
    find, has_key, insertion_point, is_insertion_point, lemma_absent, lemma_find_at, lemma_insertion_point,
    lemma_split_partition, lemma_upsert_sorted, lemma_upsert_then_find, upsert, BTree,
};
use crate::page::{
    keys_sorted, page_entries, page_is_leaf, page_magic, page_ok, IndexEntry, IndexError, IndexPage,
    INDEX_MAGIC, MAX_INDEX_ENTRIES,
};
use vstd::prelude::*;

verus! {

/// The entries of a sequence of pages, one page after the other.
pub open spec fn concat(ps: Seq<Seq<IndexEntry>>) -> Seq<IndexEntry>
    decreases ps.len(),
{
    if ps.len() == 0 {
        Seq::empty()
    } else {
        concat(ps.drop_last()) + ps.last()
    }
}

proof fn lemma_concat_append(a: Seq<Seq<IndexEntry>>, b: Seq<Seq<IndexEntry>>)
    ensures
        concat(a + b) == concat(a) + concat(b),
    decreases b.len(),
{
    if b.len() == 0 {
        assert(a + b =~= a);
        assert(concat(b) =~= Seq::<IndexEntry>::empty());
        assert(concat(a) + concat(b) =~= concat(a));
    } else {
        assert((a + b).drop_last() =~= a + b.drop_last());
        lemma_concat_append(a, b.drop_last());
        assert(concat(a) + concat(b) =~= concat(a) + concat(b.drop_last()) + b.last());
    }
}

/// Every entry of `concat(ps)` is an entry of one of the pages.
proof fn lemma_concat_member(ps: Seq<Seq<IndexEntry>>, idx: int)
    requires
        0 <= idx < concat(ps).len(),
    ensures
        exists|i: int, t: int| 0 <= i < ps.len() && 0 <= t < ps[i].len() && concat(ps)[idx] == ps[i][t],
    decreases ps.len(),
{
    let init = concat(ps.drop_last());
    if idx < init.len() {
        lemma_concat_member(ps.drop_last(), idx);
        let (i, t) = choose|i: int, t: int|
            0 <= i < ps.drop_last().len() && 0 <= t < ps.drop_last()[i].len() && init[idx]
                == ps.drop_last()[i][t];
        assert(ps[i] == ps.drop_last()[i]);
    } else {
        let i = ps.len() - 1;
        let t = idx - init.len();
        assert(concat(ps)[idx] == ps[i][t]);
    }
}

/// Keys of `a` all below `key`, keys of `b` all above it.
pub open spec fn brackets(a: Seq<IndexEntry>, b: Seq<IndexEntry>, key: u64) -> bool {
    &&& forall|i: int| 0 <= i < a.len() ==> #[trigger] a[i].key < key
    &&& forall|i: int| 0 <= i < b.len() ==> #[trigger] b[i].key > key
}

proof fn lemma_upsert_middle(a: Seq<IndexEntry>, l: Seq<IndexEntry>, b: Seq<IndexEntry>, e: IndexEntry)
    requires
        keys_sorted(l),
        brackets(a, b, e.key),
    ensures
        upsert(a + l + b, e) == a + upsert(l, e) + b,
{
    lemma_insertion_point(l, e.key);
    let pl = insertion_point(l, e.key);
    let s = a + l + b;
    let p = a.len() + pl;
    assert(is_insertion_point(s, e.key, p)) by {
        assert forall|i: int| 0 <= i < p implies #[trigger] s[i].key < e.key by {
            if i < a.len() {
                assert(s[i] == a[i]);
            } else {
                assert(s[i] == l[i - a.len()]);
            }
        }
        assert forall|i: int| p <= i < s.len() implies #[trigger] s[i].key >= e.key by {
            if i < a.len() + l.len() {
                assert(s[i] == l[i - a.len()]);
            } else {
                assert(s[i] == b[i - a.len() - l.len()]);
            }
        }
    }
    let q = insertion_point(s, e.key);
    assert(is_insertion_point(s, e.key, q));
    if q < p {
        assert(s[q].key < e.key);
    } else if p < q {
        assert(s[p].key < e.key);
    }
    if pl < l.len() && l[pl].key == e.key {
        assert(s[p] == l[pl]);
        assert(upsert(s, e) =~= a + upsert(l, e) + b);
    } else {
        if p < s.len() && s[p].key == e.key {
            if pl >= l.len() {
                assert(s[p] == b[p - a.len() - l.len()]);
            } else {
                assert(s[p] == l[pl]);
            }
        }
        assert(upsert(s, e) =~= a + upsert(l, e) + b);
    }
}

proof fn lemma_find_middle(a: Seq<IndexEntry>, l: Seq<IndexEntry>, b: Seq<IndexEntry>, key: u64)
    requires
        keys_sorted(l),
        brackets(a, b, key),
    ensures
        find(a + l + b, key) == find(l, key),
{
    let s = a + l + b;
    if has_key(l, key) {
        let i = choose|i: int| 0 <= i < l.len() && #[trigger] l[i].key == key;
        lemma_find_at(l, i);
        assert(s[a.len() + i] == l[i]);
        assert(has_key(s, key));
        let j = choose|j: int| 0 <= j < s.len() && #[trigger] s[j].key == key;
        if j < a.len() {
            assert(s[j] == a[j]);
        } else if j >= a.len() + l.len() {
            assert(s[j] == b[j - a.len() - l.len()]);
        } else {
            assert(s[j] == l[j - a.len()]);
            let t = j - a.len();
            if t < i {
                assert(l[t].key < l[i].key);
            } else if i < t {
                assert(l[i].key < l[t].key);
            }
        }
    } else if has_key(s, key) {
        let j = choose|j: int| 0 <= j < s.len() && #[trigger] s[j].key == key;
        if j < a.len() {
            assert(s[j] == a[j]);
        } else if j >= a.len() + l.len() {
            assert(s[j] == b[j - a.len() - l.len()]);
        } else {
            assert(s[j] == l[j - a.len()]);
        }
    }
}

/// Entry `j` of the routing keys `keys` is the one that routes `key`.
pub open spec fn routes_to(keys: Seq<IndexEntry>, key: u64, j: int) -> bool {
    &&& 0 <= j < keys.len()
    &&& j > 0 ==> keys[j].key <= key
    &&& j + 1 < keys.len() ==> key < keys[j + 1].key
}

/// Storing a new `key` would split a leaf whose routing entry the root has
/// no room for: the root is full, and the leaf `key` is routed to is full
/// and does not hold `key`.
pub open spec fn blocked(keys: Seq<IndexEntry>, ps: Seq<Seq<IndexEntry>>, key: u64) -> bool {
    &&& keys.len() >= MAX_INDEX_ENTRIES
    &&& exists|j: int| #[trigger] routes_to(keys, key, j) && ps[j].len() >= MAX_INDEX_ENTRIES && !has_key(ps[j], key)
}

proof fn lemma_routes_unique(keys: Seq<IndexEntry>, key: u64, i: int, j: int)
    requires
        keys_sorted(keys),
        routes_to(keys, key, i),
        routes_to(keys, key, j),
    ensures
        i == j,
{
    if i < j {
        if i + 1 < j {
            assert(keys[i + 1].key < keys[j].key);
        }
    } else if j < i {
        if j + 1 < i {
            assert(keys[j + 1].key < keys[i].key);
        }
    }
}

/// An in-memory B+Tree of one or two levels. The root is a leaf, or an
/// internal page whose entry `j` holds the smallest key routed to
/// `leaves[j]`.
pub struct InMemoryBTree {
    root: Option<IndexPage>,
    leaves: Vec<IndexPage>,
}

/// The stored keys of `ps[j]` lie in `[keys[j], keys[j + 1])`.
pub open spec fn routed(keys: Seq<IndexEntry>, ps: Seq<Seq<IndexEntry>>) -> bool {
    forall|j: int, t: int|
        #![trigger ps[j][t]]
        0 <= j < ps.len() && 0 <= t < ps[j].len() ==> keys[j].key <= ps[j][t].key && (j + 1 < keys.len()
            ==> ps[j][t].key < keys[j + 1].key)
}

impl InMemoryBTree {
    pub closed spec fn blocks(&self) -> Seq<Seq<IndexEntry>> {
        Seq::new(self.leaves@.len(), |j: int| page_entries(self.leaves@[j]@))
    }

    pub closed spec fn wf(&self) -> bool {
        match self.root {
            None => self.leaves@.len() == 0,
            Some(r) => {
                &&& r.wf()
                &&& page_is_leaf(r@) ==> self.leaves@.len() == 0
                &&& !page_is_leaf(r@) ==> {
                    &&& page_entries(r@).len() == self.leaves@.len()
                    &&& self.leaves@.len() >= 1
                    &&& forall|j: int| 0 <= j < self.leaves@.len() ==> #[trigger] self.leaves@[j].wf()
                        && page_is_leaf(self.leaves@[j]@)
                    &&& routed(page_entries(r@), self.blocks())
                }
            },
        }
    }

    /// The root page.
    pub closed spec fn root(&self) -> Option<IndexPage> {
        self.root
    }

    /// Whether storing a new `key` fails for want of room: the root is an
    /// internal page with no free entry and the leaf `key` is routed to is
    /// full without holding `key`.
    pub closed spec fn full_for(&self, key: u64) -> bool {
        match self.root {
            None => false,
            Some(r) => !page_is_leaf(r@) && blocked(page_entries(r@), self.blocks(), key),
        }
    }

    /// The stored entries in key order.
    pub closed spec fn view(&self) -> Seq<IndexEntry> {
        match self.root {
            None => Seq::empty(),
            Some(r) => if page_is_leaf(r@) {
                page_entries(r@)
            } else {
                concat(self.blocks())
            },
        }
    }

    pub fn new() -> (r: InMemoryBTree)
        ensures
            r.wf(),
            r.view() == Seq::<IndexEntry>::empty(),
    {
        InMemoryBTree { root: None, leaves: Vec::new() }
    }

    /// Takes a persisted leaf page as the root.
    pub fn load(page: IndexPage) -> (r: InMemoryBTree)
        requires
            page.wf(),
            page_is_leaf(page@),
        ensures
            r.wf(),
            r.view() == page_entries(page@),
            r.root() == Some(page),
    {
        InMemoryBTree { root: Some(page), leaves: Vec::new() }
    }

    /// The root page, if any key was ever stored.
    pub fn root_page(&self) -> (r: Option<&IndexPage>)
        requires
            self.wf(),
        ensures
            self.view().len() > 0 ==> r is Some,
            r matches Some(p) ==> p.wf() && self.root() == Some(*p) && (page_is_leaf(p@) ==> page_entries(p@) == self.view()),
            r is None <==> self.root() is None,
    {
        match &self.root {
            None => None,
            Some(p) => Some(p),
        }
    }
}

proof fn lemma_concat_split(ps: Seq<Seq<IndexEntry>>, j: int)
    requires
        0 <= j < ps.len(),
    ensures
        concat(ps) == concat(ps.subrange(0, j)) + ps[j] + concat(ps.subrange(j + 1, ps.len() as int)),
{
    let a = ps.subrange(0, j);
    let b = ps.subrange(j + 1, ps.len() as int);
    assert(ps =~= a + seq![ps[j]] + b);
    lemma_concat_append(a + seq![ps[j]], b);
    lemma_concat_append(a, seq![ps[j]]);
    let one = seq![ps[j]];
    assert(one.drop_last() =~= Seq::<Seq<IndexEntry>>::empty());
    assert(concat(Seq::<Seq<IndexEntry>>::empty()) == Seq::<IndexEntry>::empty());
    assert(one.last() == ps[j]);
    assert(concat(one) =~= ps[j]);
}

/// With `key` routed to page `j`, the pages before `j` hold only smaller
/// keys and the pages after it only larger ones.
proof fn lemma_route_brackets(keys: Seq<IndexEntry>, ps: Seq<Seq<IndexEntry>>, j: int, key: u64)
    requires
        keys.len() == ps.len(),
        keys_sorted(keys),
        routed(keys, ps),
        0 <= j < ps.len(),
        j > 0 ==> keys[j].key <= key,
        j + 1 < keys.len() ==> key < keys[j + 1].key,
    ensures
        brackets(concat(ps.subrange(0, j)), concat(ps.subrange(j + 1, ps.len() as int)), key),
{
    let a = ps.subrange(0, j);
    let b = ps.subrange(j + 1, ps.len() as int);
    assert forall|x: int| 0 <= x < concat(a).len() implies #[trigger] concat(a)[x].key < key by {
        lemma_concat_member(a, x);
        let (i, t) = choose|i: int, t: int| 0 <= i < a.len() && 0 <= t < a[i].len() && concat(a)[x] == a[i][t];
        assert(a[i] == ps[i]);
        assert(ps[i][t].key < keys[i + 1].key);
        if i + 1 < j {
            assert(keys[i + 1].key < keys[j].key);
        }
    }
    assert forall|x: int| 0 <= x < concat(b).len() implies #[trigger] concat(b)[x].key > key by {
        lemma_concat_member(b, x);
        let (i, t) = choose|i: int, t: int| 0 <= i < b.len() && 0 <= t < b[i].len() && concat(b)[x] == b[i][t];
        assert(b[i] == ps[j + 1 + i]);
        assert(keys[j + 1 + i].key <= ps[j + 1 + i][t].key);
        if i > 0 {
            assert(keys[j + 1].key < keys[j + 1 + i].key);
        }
    }
}

/// The entry stored under `key` with pointer `ptr`.
pub open spec fn entry_of(key: u64, ptr: TuplePointer) -> IndexEntry {
    IndexEntry { key, segment_id: ptr.segment_id, block_id: ptr.block_id, slot_id: ptr.slot_id }
}

/// Position of the leaf that `key` is routed to by the keys of an internal root.
fn route(root: &IndexPage, key: u64) -> (j: usize)
    requires
        root.wf(),
        page_entries(root@).len() >= 1,
    ensures
        ({
            let keys = page_entries(root@);
            &&& j < keys.len()
            &&& (j > 0 ==> keys[j as int].key <= key)
            &&& j == 0 && key < keys[0].key ==> forall|i: int| 0 <= i < keys.len() ==> key < #[trigger] keys[i].key
            &&& j + 1 < keys.len() ==> key < keys[j + 1].key
        }),
{
    let ghost keys = page_entries(root@);
    let (found, pos) = match root.binary_search(key) {
        Ok(fp) => fp,
        Err(_) => (false, 0),
    };
    if found {
        proof {
            if pos + 1 < keys.len() {
                assert(keys[pos as int].key < keys[pos + 1].key);
            }
        }
        pos
    } else if pos == 0 {
        0
    } else {
        pos - 1
    }
}

impl InMemoryBTree {
    /// The pointer stored under `key`, if any.
    pub fn search(&self, key: u64) -> (r: Result<Option<TuplePointer>, IndexError>)
        requires
            self.wf(),
        ensures
            r == Ok::<Option<TuplePointer>, IndexError>(find(self.view(), key)),
    {
        match &self.root {
            None => Ok(None),
            Some(page) => {
                let header = page.header()?;
                if header.is_leaf {
                    BTree::search_page(page, key)
                } else {
                    let j = route(page, key);
                    let leaf = &self.leaves[j];
                    assert(self.leaves@[j as int].wf());
                    let r = BTree::search_page(leaf, key);
                    proof {
                        let ps = self.blocks();
                        let keys = page_entries(page@);
                        assert(ps[j as int] == page_entries(leaf@));
                        lemma_concat_split(ps, j as int);
                        lemma_route_brackets(keys, ps, j as int, key);
                        lemma_find_middle(concat(ps.subrange(0, j as int)), ps[j as int], concat(ps.subrange(j + 1, ps.len() as int)), key);
                    }
                    r
                }
            },
        }
    }
}

/// Every entry of `upsert(s, e)` is `e` or an entry of `s`.
proof fn lemma_upsert_members(s: Seq<IndexEntry>, e: IndexEntry)
    requires
        keys_sorted(s),
    ensures
        forall|t: int|
            0 <= t < upsert(s, e).len() ==> #[trigger] upsert(s, e)[t] == e || exists|v: int|
                0 <= v < s.len() && upsert(s, e)[t] == s[v],
{
    lemma_insertion_point(s, e.key);
    let p = insertion_point(s, e.key);
    let u = upsert(s, e);
    assert forall|t: int| 0 <= t < u.len() implies #[trigger] u[t] == e || exists|v: int|
        0 <= v < s.len() && u[t] == s[v] by {
        if p < s.len() && s[p].key == e.key {
            if t != p {
                assert(u[t] == s[t]);
            }
        } else {
            if t < p {
                assert(u[t] == s[t]);
            } else if t > p {
                assert(u[t] == s[t - 1]);
            }
        }
    }
}

proof fn lemma_routed_replace(
    keys: Seq<IndexEntry>,
    ps: Seq<Seq<IndexEntry>>,
    keys2: Seq<IndexEntry>,
    j: int,
    l2: Seq<IndexEntry>,
)
    requires
        routed(keys, ps),
        keys.len() == ps.len(),
        0 <= j < ps.len(),
        keys2.len() == keys.len(),
        forall|i: int| 0 < i < keys.len() ==> keys2[i] == keys[i],
        keys2[0].key <= keys[0].key,
        forall|t: int|
            0 <= t < l2.len() ==> keys2[j].key <= #[trigger] l2[t].key && (j + 1 < keys.len()
                ==> l2[t].key < keys2[j + 1].key),
    ensures
        routed(keys2, ps.update(j, l2)),
{
    let ps2 = ps.update(j, l2);
    assert forall|i: int, t: int| 0 <= i < ps2.len() && 0 <= t < ps2[i].len() implies keys2[i].key
        <= #[trigger] ps2[i][t].key && (i + 1 < keys2.len() ==> ps2[i][t].key < keys2[i + 1].key) by {
        if i != j {
            assert(ps2[i][t] == ps[i][t]);
            assert(keys[i].key <= ps[i][t].key);
        }
    }
}

proof fn lemma_routed_split(
    keys: Seq<IndexEntry>,
    ps: Seq<Seq<IndexEntry>>,
    j: int,
    left: Seq<IndexEntry>,
    right: Seq<IndexEntry>,
    pk: IndexEntry,
)
    requires
        routed(keys, ps),
        keys.len() == ps.len(),
        0 <= j < ps.len(),
        forall|t: int| 0 <= t < left.len() ==> keys[j].key <= #[trigger] left[t].key && left[t].key < pk.key,
        forall|t: int|
            0 <= t < right.len() ==> pk.key <= #[trigger] right[t].key && (j + 1 < keys.len()
                ==> right[t].key < keys[j + 1].key),
    ensures
        routed(
            keys.insert(j + 1, pk),
            ps.subrange(0, j) + seq![left, right] + ps.subrange(j + 1, ps.len() as int),
        ),
{
    let k2 = keys.insert(j + 1, pk);
    let ps2 = ps.subrange(0, j) + seq![left, right] + ps.subrange(j + 1, ps.len() as int);
    assert(ps2.len() == k2.len());
    assert forall|i: int, t: int| 0 <= i < ps2.len() && 0 <= t < ps2[i].len() implies k2[i].key
        <= #[trigger] ps2[i][t].key && (i + 1 < k2.len() ==> ps2[i][t].key < k2[i + 1].key) by {
        if i < j {
            assert(ps2[i] == ps[i]);
            assert(keys[i].key <= ps[i][t].key);
        } else if i == j {
            assert(ps2[i] == left);
        } else if i == j + 1 {
            assert(ps2[i] == right);
        } else {
            assert(ps2[i] == ps[i - 1]);
            assert(keys[i - 1].key <= ps[i - 1][t].key);
        }
    }
}

proof fn lemma_concat_pair(x: Seq<IndexEntry>, y: Seq<IndexEntry>)
    ensures
        concat(seq![x, y]) == x + y,
{
    let p = seq![x, y];
    let q = seq![x];
    assert(p.drop_last() =~= q);
    assert(q.drop_last() =~= Seq::<Seq<IndexEntry>>::empty());
    assert(concat(Seq::<Seq<IndexEntry>>::empty()) =~= Seq::<IndexEntry>::empty());
    assert(concat(q) == concat(q.drop_last()) + q.last());
    assert(concat(q) =~= x);
    assert(concat(p) == concat(p.drop_last()) + p.last());
}

proof fn lemma_keys_insert_sorted(keys: Seq<IndexEntry>, j: int, pk: IndexEntry)
    requires
        keys_sorted(keys),
        0 <= j < keys.len(),
        keys[j].key < pk.key,
        j + 1 < keys.len() ==> pk.key < keys[j + 1].key,
    ensures
        keys_sorted(keys.insert(j + 1, pk)),
{
    let k2 = keys.insert(j + 1, pk);
    assert forall|i: int, k: int| 0 <= i < k < k2.len() implies k2[i].key < k2[k].key by {
        if k <= j {
            assert(keys[i].key < keys[k].key);
        } else if k == j + 1 {
            if i < j {
                assert(keys[i].key < keys[j].key);
            }
        } else if i == j + 1 {
            assert(k2[k] == keys[k - 1]);
            if k - 1 > j + 1 {
                assert(keys[j + 1].key < keys[k - 1].key);
            }
        } else if i < j + 1 {
            assert(keys[i].key < keys[k - 1].key);
        } else {
            assert(keys[i - 1].key < keys[k - 1].key);
        }
    }
}

proof fn lemma_keys_lower_first(keys0: Seq<IndexEntry>, keys1: Seq<IndexEntry>)
    requires
        keys_sorted(keys0),
        keys1.len() == keys0.len(),
        keys0.len() >= 1,
        forall|i: int| 0 < i < keys0.len() ==> keys1[i] == keys0[i],
        keys1[0].key <= keys0[0].key,
    ensures
        keys_sorted(keys1),
{
    assert forall|i: int, k: int| 0 <= i < k < keys1.len() implies keys1[i].key < keys1[k].key by {
        assert(keys0[i].key < keys0[k].key);
    }
}

pub open spec fn all_leaves(ls: Seq<IndexPage>) -> bool {
    forall|j: int| 0 <= j < ls.len() ==> #[trigger] ls[j].wf() && page_is_leaf(ls[j]@)
}

proof fn lemma_leaves_insert(ls: Seq<IndexPage>, j: int, p: IndexPage)
    requires
        all_leaves(ls),
        0 <= j <= ls.len(),
        p.wf(),
        page_is_leaf(p@),
    ensures
        all_leaves(ls.insert(j, p)),
{
    assert forall|i: int| 0 <= i < ls.len() + 1 implies #[trigger] ls.insert(j, p)[i].wf() && page_is_leaf(
        ls.insert(j, p)[i]@,
    ) by {
        if i < j {
            assert(ls.insert(j, p)[i] == ls[i]);
            assert(ls[i].wf());
        } else if i > j {
            assert(ls.insert(j, p)[i] == ls[i - 1]);
            assert(ls[i - 1].wf());
        } else {
            assert(ls.insert(j, p)[i] == p);
        }
    }
}

proof fn lemma_upsert_single(e: IndexEntry)
    ensures
        upsert(Seq::empty(), e) == seq![e],
{
    lemma_insertion_point(Seq::<IndexEntry>::empty(), e.key);
    assert(upsert(Seq::empty(), e) =~= seq![e]);
}

impl InMemoryBTree {
    /// Stores `key -> tuple_ptr`, overwriting a stored key. A full leaf splits
    /// and its upper half's first key is added to the root; a full leaf
    /// root is replaced by an internal root over the two halves. Fails only
    /// when the leaf and the internal root are both full.
    pub fn insert(&mut self, key: u64, tuple_ptr: TuplePointer) -> (r: Result<(), IndexError>)
        requires
            old(self).wf(),
        ensures
            final(self).wf(),
            r is Ok ==> final(self).view() == upsert(old(self).view(), entry_of(key, tuple_ptr)),
            r is Err <==> old(self).full_for(key),
            r is Err ==> {
                &&& r == Err::<(), IndexError>(IndexError::PageFull)
                &&& final(self).view() == old(self).view()
                &&& old(self).view().len() >= MAX_INDEX_ENTRIES
                &&& !has_key(old(self).view(), key)
            },
    {
        let entry = IndexEntry::new(key, tuple_ptr);
        assert(entry == entry_of(key, tuple_ptr));
        let root_opt = self.root.take();
        match root_opt {
            None => {
                let mut root = IndexPage::new(true);
                let _ = root.insert_at(0, entry);
                self.root = Some(root);
                proof {
                    lemma_upsert_single(entry);
                    assert(page_entries(root@) =~= seq![entry]);
                }
                Ok(())
            },
            Some(root) => {
                let is_leaf = match root.header() {
                    Ok(h) => h.is_leaf,
                    Err(_) => true,
                };
                if is_leaf {
                    self.insert_into_leaf_root(root, entry)
                } else {
                    self.insert_into_internal_root(root, entry)
                }
            },
        }
    }

    fn insert_into_leaf_root(&mut self, root: IndexPage, entry: IndexEntry) -> (r: Result<(), IndexError>)
        requires
            old(self).root is None,
            old(self).leaves@.len() == 0,
            root.wf(),
            page_is_leaf(root@),
        ensures
            final(self).wf(),
            r is Ok,
            final(self).view() == upsert(page_entries(root@), entry),
    {
        let mut root = root;
        let ghost s = page_entries(root@);
        match BTree::insert_into_page(&mut root, entry.key, entry.as_tuple_pointer()) {
            Ok(Some(split)) => {
                let first = match root.get_entry(0) {
                    Ok(e) => e.key,
                    Err(_) => 0,
                };
                proof {
                    lemma_split_partition(s, entry);
                }
                let mut new_root = IndexPage::new(false);
                let zero = TuplePointer::new(0, 0, 0);
                let _ = new_root.insert_at(0, IndexEntry::new(first, zero));
                let _ = new_root.insert_at(1, IndexEntry::new(split.promoted_key, zero));
                let ghost left = page_entries(root@);
                let ghost right = page_entries(split.right_page@);
                let ghost keys = page_entries(new_root@);
                let ghost lp = root;
                let ghost rp = split.right_page;
                self.leaves.push(root);
                self.leaves.push(split.right_page);
                assert(self.leaves@ =~= seq![lp, rp]);
                self.root = Some(new_root);
                proof {
                    let ps = self.blocks();
                    assert(ps =~= seq![left, right]);
                    assert(keys.len() == 2);
                    assert(keys_sorted(keys));
                    assert forall|j: int, t: int| 0 <= j < ps.len() && 0 <= t < ps[j].len() implies keys[j].key
                        <= #[trigger] ps[j][t].key && (j + 1 < keys.len() ==> ps[j][t].key < keys[j + 1].key) by {
                        if j == 0 {
                            if t > 0 {
                                assert(left[0].key < left[t].key);
                            }
                        }
                    }
                    assert(self.leaves@[0] == lp && self.leaves@[1] == rp);
                    lemma_concat_pair(left, right);
                }
                Ok(())
            },
            _ => {
                self.root = Some(root);
                Ok(())
            },
        }
    }
}

impl InMemoryBTree {
    #[verifier::rlimit(100)]
    #[verifier::spinoff_prover]
    fn insert_into_internal_root(&mut self, root: IndexPage, entry: IndexEntry) -> (r: Result<(), IndexError>)
        requires
            old(self).root is None,
            root.wf(),
            !page_is_leaf(root@),
            page_entries(root@).len() == old(self).leaves@.len(),
            old(self).leaves@.len() >= 1,
            forall|j: int| 0 <= j < old(self).leaves@.len() ==> #[trigger] old(self).leaves@[j].wf()
                && page_is_leaf(old(self).leaves@[j]@),
            routed(page_entries(root@), old(self).blocks()),
        ensures
            final(self).wf(),
            r is Ok ==> final(self).view() == upsert(concat(old(self).blocks()), entry),
            r is Err <==> blocked(page_entries(root@), old(self).blocks(), entry.key),
            r is Err ==> {
                &&& r == Err::<(), IndexError>(IndexError::PageFull)
                &&& final(self).view() == concat(old(self).blocks())
                &&& concat(old(self).blocks()).len() >= MAX_INDEX_ENTRIES
                &&& !has_key(concat(old(self).blocks()), entry.key)
            },
    {
        let mut root = root;
        let key = entry.key;
        let ghost keys0 = page_entries(root@);
        let ghost ps0 = self.blocks();
        let ghost leaves0 = self.leaves@;
        let rcount = match root.header() {
            Ok(h) => h.num_keys as usize,
            Err(_) => 0,
        };
        let j = route(&root, key);
        proof {
            lemma_concat_split(ps0, j as int);
            lemma_route_brackets(keys0, ps0, j as int, key);
            assert(leaves0[j as int].wf());
        }
        let ghost a = concat(ps0.subrange(0, j as int));
        let ghost b = concat(ps0.subrange(j + 1, ps0.len() as int));
        let mut leaf = self.leaves.remove(j);
        proof {
            assert forall|i: int| 0 <= i < self.leaves@.len() implies #[trigger] self.leaves@[i].wf()
                && page_is_leaf(self.leaves@[i]@) by {
                if i < j {
                    assert(self.leaves@[i] == leaves0[i]);
                } else {
                    assert(self.leaves@[i] == leaves0[i + 1]);
                }
            }
            assert(all_leaves(self.leaves@));
        }
        let ghost l = page_entries(leaf@);
        assert(l == ps0[j as int]);
        let (lfound, lpos) = match leaf.binary_search(key) {
            Ok(x) => x,
            Err(_) => (false, 0),
        };
        let lcount = match leaf.header() {
            Ok(h) => h.num_keys as usize,
            Err(_) => 0,
        };
        proof {
            if !lfound {
                lemma_absent(l, key, lpos as int);
            } else {
                assert(l[lpos as int].key == key);
            }
            lemma_find_middle(a, l, b, key);
            assert(routes_to(keys0, key, j as int));
            if blocked(keys0, ps0, key) {
                let j2 = choose|j2: int| #[trigger] routes_to(keys0, key, j2) && ps0[j2].len() >= MAX_INDEX_ENTRIES && !has_key(ps0[j2], key);
                lemma_routes_unique(keys0, key, j as int, j2);
                if lfound {
                    assert(l[lpos as int].key == key);
                    assert(has_key(l, key));
                }
            }
        }
        if !lfound && lcount >= MAX_INDEX_ENTRIES && rcount >= MAX_INDEX_ENTRIES {
            self.leaves.insert(j, leaf);
            self.root = Some(root);
            proof {
                assert(self.leaves@ =~= leaves0);
                assert(self.blocks() =~= ps0);
            }
            return Err(IndexError::PageFull);
        }
        if j == 0 {
            let first = match root.get_entry(0) {
                Ok(e) => e,
                Err(_) => entry,
            };
            if key < first.key {
                root.set_entry(
                    0,
                    IndexEntry {
                        key,
                        segment_id: first.segment_id,
                        block_id: first.block_id,
                        slot_id: first.slot_id,
                    },
                );
            }
        }
        let ghost keys1 = page_entries(root@);
        proof {
            lemma_keys_lower_first(keys0, keys1);
            assert forall|t: int| 0 <= t < l.len() implies keys1[j as int].key <= #[trigger] l[t].key
                && (j + 1 < keys0.len() ==> l[t].key < keys1[j + 1].key) by {
                assert(keys0[j as int].key <= ps0[j as int][t].key);
            }
            lemma_routed_replace(keys0, ps0, keys1, j as int, l);
            assert(ps0.update(j as int, l) =~= ps0);
            assert(keys1[j as int].key <= key);
            lemma_upsert_members(l, entry);
            lemma_upsert_middle(a, l, b, entry);
        }
        let ghost u = upsert(l, entry);
        match BTree::insert_into_page(&mut leaf, key, entry.as_tuple_pointer()) {
            Ok(Some(split)) => {
                let ghost left = page_entries(leaf@);
                let ghost right = page_entries(split.right_page@);
                let ghost pk = IndexEntry { key: split.promoted_key, segment_id: 0, block_id: 0, slot_id: 0 };
                proof {
                    lemma_split_partition(l, entry);
                    assert(left + right == u);
                    assert forall|t: int| 0 <= t < left.len() implies keys1[j as int].key <= #[trigger] left[t].key
                        && left[t].key < pk.key by {
                        assert(left[t] == u[t]);
                        assert(keys1[j as int].key <= u[t].key);
                    }
                    assert forall|t: int| 0 <= t < right.len() implies pk.key <= #[trigger] right[t].key
                        && (j + 1 < keys1.len() ==> right[t].key < keys1[j + 1].key) by {
                        assert(right[t] == u[left.len() + t]);
                    }
                    lemma_routed_split(keys1, ps0, j as int, left, right, pk);
                }
                proof {
                    assert(all_leaves(self.leaves@.insert(j as int, leaf))) by {
                        lemma_leaves_insert(self.leaves@, j as int, leaf);
                    }
                    lemma_leaves_insert(self.leaves@.insert(j as int, leaf), j + 1, split.right_page);
                }
                self.leaves.insert(j, leaf);
                self.leaves.insert(j + 1, split.right_page);
                let zero = TuplePointer::new(0, 0, 0);
                let _ = root.insert_at(j + 1, IndexEntry::new(split.promoted_key, zero));
                self.root = Some(root);
                proof {
                    let ps2 = ps0.subrange(0, j as int) + seq![left, right] + ps0.subrange(j + 1, ps0.len() as int);
                    assert(self.blocks() =~= ps2);
                    let keys2 = page_entries(root@);
                    assert(keys2 == keys1.insert(j + 1, pk));
                    assert(left[0].key < pk.key);
                    assert(right[0].key == pk.key);
                    lemma_keys_insert_sorted(keys1, j as int, pk);
                    assert(all_leaves(self.leaves@));
                    lemma_concat_append(ps0.subrange(0, j as int) + seq![left, right], ps0.subrange(j + 1, ps0.len() as int));
                    lemma_concat_append(ps0.subrange(0, j as int), seq![left, right]);
                    lemma_concat_pair(left, right);
                    assert(a + u + b =~= a + (left + right) + b);
                }
                Ok(())
            },
            _ => {
                proof {
                    lemma_leaves_insert(self.leaves@, j as int, leaf);
                }
                self.leaves.insert(j, leaf);
                self.root = Some(root);
                proof {
                    let ps2 = ps0.update(j as int, u);
                    assert(self.blocks() =~= ps2);
                    lemma_routed_replace(keys1, ps0, keys1, j as int, u);
                    assert(all_leaves(self.leaves@));
                    lemma_concat_split(ps2, j as int);
                    assert(ps2.subrange(0, j as int) =~= ps0.subrange(0, j as int));
                    assert(ps2.subrange(j + 1, ps2.len() as int) =~= ps0.subrange(j + 1, ps0.len() as int));
                }
                Ok(())
            },
        }
    }
}

/// Routed pages of sorted keys, one after the other, are sorted.
proof fn lemma_concat_sorted(keys: Seq<IndexEntry>, ps: Seq<Seq<IndexEntry>>)
    requires
        keys.len() == ps.len(),
        keys_sorted(keys),
        routed(keys, ps),
        forall|j: int| 0 <= j < ps.len() ==> keys_sorted(#[trigger] ps[j]),
    ensures
        keys_sorted(concat(ps)),
    decreases ps.len(),
{
    if ps.len() > 0 {
        let n = ps.len() - 1;
        let init = ps.drop_last();
        let kinit = keys.drop_last();
        assert(routed(kinit, init)) by {
            assert forall|j: int, t: int| 0 <= j < init.len() && 0 <= t < init[j].len() implies kinit[j].key
                <= #[trigger] init[j][t].key && (j + 1 < kinit.len() ==> init[j][t].key < kinit[j + 1].key) by {
                assert(init[j] == ps[j]);
                assert(keys[j].key <= ps[j][t].key);
            }
        }
        assert(keys_sorted(kinit)) by {
            assert forall|i: int, k: int| 0 <= i < k < kinit.len() implies kinit[i].key < kinit[k].key by {
                assert(keys[i].key < keys[k].key);
            }
        }
        assert forall|j: int| 0 <= j < init.len() implies keys_sorted(#[trigger] init[j]) by {
            assert(init[j] == ps[j]);
        }
        lemma_concat_sorted(kinit, init);
        let a = concat(init);
        let l = ps[n];
        assert(keys_sorted(l));
        assert forall|x: int, y: int| 0 <= x < a.len() && 0 <= y < l.len() implies a[x].key < l[y].key by {
            lemma_concat_member(init, x);
            let (i, t) = choose|i: int, t: int| 0 <= i < init.len() && 0 <= t < init[i].len() && a[x] == init[i][t];
            assert(init[i] == ps[i]);
            assert(ps[i][t].key < keys[i + 1].key);
            if i + 1 < n {
                assert(keys[i + 1].key < keys[n].key);
            }
            assert(keys[n].key <= ps[n][y].key);
        }
        let c = a + l;
        assert(concat(ps) == c);
        assert forall|i: int, k: int| 0 <= i < k < c.len() implies c[i].key < c[k].key by {
            if k < a.len() {
                assert(c[i] == a[i] && c[k] == a[k]);
            } else if i >= a.len() {
                assert(c[i] == l[i - a.len()] && c[k] == l[k - a.len()]);
            } else {
                assert(c[i] == a[i] && c[k] == l[k - a.len()]);
            }
        }
    }
}

impl InMemoryBTree {
    /// The entries of a well-formed tree are in strictly ascending key order.
    pub proof fn lemma_view_sorted(&self)
        requires
            self.wf(),
        ensures
            keys_sorted(self.view()),
    {
        match self.root {
            None => {},
            Some(r) => {
                if !page_is_leaf(r@) {
                    let ps = self.blocks();
                    assert forall|j: int| 0 <= j < ps.len() implies keys_sorted(#[trigger] ps[j]) by {
                        assert(self.leaves@[j].wf());
                    }
                    lemma_concat_sorted(page_entries(r@), ps);
                }
            },
        }
    }
}

/// Storing `key -> ptr` in a well-formed tree and then searching for `key`
/// gives exactly `ptr`; every other key finds what it found before, and a
/// key already in the tree is overwritten rather than duplicated.
pub proof fn lemma_tree_insert_then_search(t: InMemoryBTree, key: u64, ptr: TuplePointer)
    requires
        t.wf(),
    ensures
        find(upsert(t.view(), entry_of(key, ptr)), key) == Some(ptr),
        forall|k: u64| k != key ==> #[trigger] find(upsert(t.view(), entry_of(key, ptr)), k) == find(t.view(), k),
        has_key(t.view(), key) ==> upsert(t.view(), entry_of(key, ptr)).len() == t.view().len(),
{
    t.lemma_view_sorted();
    lemma_upsert_then_find(t.view(), entry_of(key, ptr));
    assert(entry_of(key, ptr).pointer() == ptr);
}

} // verus!
