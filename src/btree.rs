use crate::base::TuplePointer;
use crate::page::{
    keys_sorted, page_entries, page_is_leaf, page_magic, page_ok, IndexEntry, IndexError, IndexPage,
    INDEX_MAGIC, MAX_INDEX_ENTRIES,
};
use vstd::prelude::*;

verus! {

/// Whether some entry of `s` holds `key`.
pub open spec fn has_key(s: Seq<IndexEntry>, key: u64) -> bool {
    exists|i: int| 0 <= i < s.len() && #[trigger] s[i].key == key
}

/// The pointer stored under `key` in `s`, if any.
pub open spec fn find(s: Seq<IndexEntry>, key: u64) -> Option<TuplePointer> {
    if has_key(s, key) {
        Some(s[choose|i: int| 0 <= i < s.len() && #[trigger] s[i].key == key].pointer())
    } else {
        None
    }
}

/// `p` is where `key` belongs in `s`: every key before it is smaller, none
/// from it on is.
pub open spec fn is_insertion_point(s: Seq<IndexEntry>, key: u64, p: int) -> bool {
    &&& 0 <= p <= s.len()
    &&& forall|i: int| 0 <= i < p ==> #[trigger] s[i].key < key
    &&& forall|i: int| p <= i < s.len() ==> #[trigger] s[i].key >= key
}

pub open spec fn insertion_point(s: Seq<IndexEntry>, key: u64) -> int {
    choose|p: int| is_insertion_point(s, key, p)
}

/// `s` with `e` stored under its key: an entry with the same key is
/// replaced, otherwise `e` goes in at its place in key order.
pub open spec fn upsert(s: Seq<IndexEntry>, e: IndexEntry) -> Seq<IndexEntry> {
    let p = insertion_point(s, e.key);
    if p < s.len() && s[p].key == e.key {
        s.update(p, e)
    } else {
        s.insert(p, e)
    }
}

/// The (key, pointer) pairs of `s` whose key lies in `[lo, hi]`, in order.
pub open spec fn pairs_in_range(s: Seq<IndexEntry>, lo: u64, hi: u64) -> Seq<(u64, TuplePointer)>
    decreases s.len(),
{
    if s.len() == 0 {
        Seq::empty()
    } else {
        let rest = pairs_in_range(s.drop_last(), lo, hi);
        let e = s.last();
        if lo <= e.key && e.key <= hi {
            rest.push((e.key, e.pointer()))
        } else {
            rest
        }
    }
}

pub open spec fn pairs(s: Seq<IndexEntry>) -> Seq<(u64, TuplePointer)> {
    s.map_values(|e: IndexEntry| (e.key, e.pointer()))
}

proof fn lemma_insertion_point_unique(s: Seq<IndexEntry>, key: u64, p: int)
    requires
        is_insertion_point(s, key, p),
    ensures
        insertion_point(s, key) == p,
{
    let q = insertion_point(s, key);
    assert(is_insertion_point(s, key, q));
    if q < p {
        assert(s[q].key < key);
    } else if p < q {
        assert(s[p].key < key);
    }
}

/// A sorted sequence has exactly one insertion point for every key.
pub proof fn lemma_insertion_point(s: Seq<IndexEntry>, key: u64)
    requires
        keys_sorted(s),
    ensures
        is_insertion_point(s, key, insertion_point(s, key)),
    decreases s.len(),
{
    if s.len() == 0 {
        assert(is_insertion_point(s, key, 0));
    } else {
        let t = s.drop_last();
        assert(keys_sorted(t)) by {
            assert forall|i: int, j: int| 0 <= i < j < t.len() implies t[i].key < t[j].key by {
                assert(t[i] == s[i] && t[j] == s[j]);
            }
        }
        lemma_insertion_point(t, key);
        let q = insertion_point(t, key);
        if s.last().key < key {
            assert forall|i: int| 0 <= i < s.len() implies #[trigger] s[i].key < key by {
                if i < s.len() - 1 {
                    assert(s[i].key < s.last().key);
                }
            }
            assert(is_insertion_point(s, key, s.len() as int));
        } else {
            assert forall|i: int| 0 <= i < q implies #[trigger] s[i].key < key by {
                assert(s[i] == t[i]);
            }
            assert forall|i: int| q <= i < s.len() implies #[trigger] s[i].key >= key by {
                if i < s.len() - 1 {
                    assert(s[i] == t[i]);
                }
            }
            assert(is_insertion_point(s, key, q));
        }
    }
}

/// The result of a page split: the first key of the upper half, which
/// routes between the two pages, and the new page holding that half.
#[derive(Debug)]
pub struct SplitResult {
    pub promoted_key: u64,
    pub right_page: IndexPage,
}

/// Operations on single B+Tree pages.
pub struct BTree;

impl BTree {
    /// Stores `key -> tuple_ptr` in a page. A stored key is overwritten in
    /// place; a new key goes in at its place in key order. When the page is
    /// full it splits: the lower half of the entries stays, the upper half
    /// moves to a new page, and its first key is promoted.
    pub fn insert_into_page(page: &mut IndexPage, key: u64, tuple_ptr: TuplePointer) -> (r: Result<
        Option<SplitResult>,
        IndexError,
    >)
        requires
            page_ok(old(page)@),
            keys_sorted(page_entries(old(page)@)),
        ensures
            page_ok(final(page)@),
            page_magic(old(page)@) != INDEX_MAGIC ==> r == Err::<Option<SplitResult>, IndexError>(IndexError::BadMagic)
                && final(page)@ == old(page)@,
            page_magic(old(page)@) == INDEX_MAGIC ==> r is Ok,
            ({
                let s = page_entries(old(page)@);
                let e = (IndexEntry { key, segment_id: tuple_ptr.segment_id, block_id: tuple_ptr.block_id, slot_id: tuple_ptr.slot_id });
                let all = upsert(s, e);
                let mid = (all.len() / 2) as int;
                &&& r matches Ok(None) ==> final(page).wf() && page_entries(final(page)@) == all
                    && page_is_leaf(final(page)@) == page_is_leaf(old(page)@)
                &&& (r matches Ok(Some(_))) <==> page_magic(old(page)@) == INDEX_MAGIC && !has_key(s, key)
                    && s.len() >= MAX_INDEX_ENTRIES
                &&& r matches Ok(Some(split)) ==> {
                    &&& final(page).wf()
                    &&& split.right_page.wf()
                    &&& page_entries(final(page)@) == all.subrange(0, mid)
                    &&& page_entries(split.right_page@) == all.subrange(mid, all.len() as int)
                    &&& split.promoted_key == all[mid].key
                    &&& page_is_leaf(final(page)@) == page_is_leaf(old(page)@)
                    &&& page_is_leaf(split.right_page@) == page_is_leaf(old(page)@)
                }
            }),
    {
        let ghost s = page_entries(page@);
        let (found, pos) = page.binary_search(key)?;
        let entry = IndexEntry::new(key, tuple_ptr);
        proof {
            if found {
                lemma_found_point(s, key, pos as int);
            }
            lemma_insertion_point_unique(s, key, pos as int);
            lemma_upsert_sorted(s, entry);
        }
        if found {
            page.set_entry(pos, entry);
            return Ok(None);
        }
        proof {
            lemma_absent(s, key, pos as int);
        }
        match page.insert_at(pos, entry) {
            Ok(()) => Ok(None),
            Err(IndexError::PageFull) => Self::split_page(page, pos, entry),
            Err(e) => Err(e),
        }
    }

    /// Splits a full page around the insertion of `new_entry` at `insert_pos`.
    fn split_page(page: &mut IndexPage, insert_pos: usize, new_entry: IndexEntry) -> (r: Result<
        Option<SplitResult>,
        IndexError,
    >)
        requires
            page_ok(old(page)@),
            page_magic(old(page)@) == INDEX_MAGIC,
            keys_sorted(page_entries(old(page)@)),
            page_entries(old(page)@).len() == MAX_INDEX_ENTRIES,
            is_insertion_point(page_entries(old(page)@), new_entry.key, insert_pos as int),
            !has_key(page_entries(old(page)@), new_entry.key),
        ensures
            page_ok(final(page)@),
            r matches Ok(Some(split)) && ({
                let all = page_entries(old(page)@).insert(insert_pos as int, new_entry);
                let mid = (all.len() / 2) as int;
                &&& final(page).wf()
                &&& split.right_page.wf()
                &&& page_entries(final(page)@) == all.subrange(0, mid)
                &&& page_entries(split.right_page@) == all.subrange(mid, all.len() as int)
                &&& split.promoted_key == all[mid].key
                &&& page_is_leaf(final(page)@) == page_is_leaf(old(page)@)
                &&& page_is_leaf(split.right_page@) == page_is_leaf(old(page)@)
            }),
    {
        let ghost s = page_entries(page@);
        let mut entries = match page.entries() {
            Ok(v) => v,
            Err(e) => return Err(e),
        };
        entries.insert(insert_pos, new_entry);
        let ghost all = entries@;
        proof {
            lemma_upsert_sorted(s, new_entry);
            lemma_insertion_point_unique(s, new_entry.key, insert_pos as int);
            assert(all == upsert(s, new_entry));
        }
        let is_leaf = match page.header() {
            Ok(h) => h.is_leaf,
            Err(e) => return Err(e),
        };
        let split_point = entries.len() / 2;
        let right_entries = entries.split_off(split_point);
        let promoted_key = right_entries[0].key;
        proof {
            assert(entries@ == all.subrange(0, split_point as int));
            assert(right_entries@ == all.subrange(split_point as int, all.len() as int));
            lemma_subrange_sorted(all, 0, split_point as int);
            lemma_subrange_sorted(all, split_point as int, all.len() as int);
        }
        match page.set_entries(is_leaf, entries) {
            Ok(()) => {},
            Err(e) => return Err(e),
        }
        let mut right_page = IndexPage::new(is_leaf);
        match right_page.set_entries(is_leaf, right_entries) {
            Ok(()) => {},
            Err(e) => return Err(e),
        }
        Ok(Some(SplitResult { promoted_key, right_page }))
    }
}

impl BTree {
    /// The pointer stored under `key` in a page, if any.
    pub fn search_page(page: &IndexPage, key: u64) -> (r: Result<Option<TuplePointer>, IndexError>)
        requires
            page_ok(page@),
            keys_sorted(page_entries(page@)),
        ensures
            page_magic(page@) != INDEX_MAGIC ==> r == Err::<Option<TuplePointer>, IndexError>(IndexError::BadMagic),
            page_magic(page@) == INDEX_MAGIC ==> r == Ok::<Option<TuplePointer>, IndexError>(find(page_entries(page@), key)),
    {
        let ghost s = page_entries(page@);
        let (found, pos) = page.binary_search(key)?;
        if !found {
            proof {
                lemma_absent(s, key, pos as int);
            }
            return Ok(None);
        }
        let entry = page.get_entry(pos)?;
        proof {
            lemma_find_at(s, pos as int);
        }
        Ok(Some(entry.as_tuple_pointer()))
    }

    /// The (key, pointer) pairs of a page whose key lies in
    /// `[start_key, end_key]`, in stored order.
    pub fn range_scan_page(page: &IndexPage, start_key: u64, end_key: u64) -> (r: Result<
        Vec<(u64, TuplePointer)>,
        IndexError,
    >)
        requires
            page_ok(page@),
        ensures
            page_magic(page@) != INDEX_MAGIC ==> r == Err::<Vec<(u64, TuplePointer)>, IndexError>(IndexError::BadMagic),
            page_magic(page@) == INDEX_MAGIC ==> r is Ok,
            r matches Ok(v) ==> v@ == pairs_in_range(page_entries(page@), start_key, end_key),
    {
        let header = page.header()?;
        let count = header.num_keys as usize;
        let ghost s = page_entries(page@);
        let mut results: Vec<(u64, TuplePointer)> = Vec::new();
        let mut i: usize = 0;
        while i < count
            invariant
                page_ok(page@),
                page_magic(page@) == INDEX_MAGIC,
                s == page_entries(page@),
                count == s.len(),
                i <= count,
                results@ == pairs_in_range(s.subrange(0, i as int), start_key, end_key),
            decreases count - i,
        {
            let entry = page.get_entry(i)?;
            proof {
                assert(s.subrange(0, i + 1).drop_last() =~= s.subrange(0, i as int));
            }
            if entry.key >= start_key && entry.key <= end_key {
                results.push((entry.key, entry.as_tuple_pointer()));
            }
            i = i + 1;
        }
        assert(s.subrange(0, count as int) =~= s);
        Ok(results)
    }

    /// Every (key, pointer) pair of a page, in stored order.
    pub fn scan_page(page: &IndexPage) -> (r: Result<Vec<(u64, TuplePointer)>, IndexError>)
        requires
            page_ok(page@),
        ensures
            page_magic(page@) != INDEX_MAGIC ==> r == Err::<Vec<(u64, TuplePointer)>, IndexError>(IndexError::BadMagic),
            page_magic(page@) == INDEX_MAGIC ==> r is Ok,
            r matches Ok(v) ==> v@ == pairs(page_entries(page@)),
    {
        let entries = page.entries()?;
        let mut results: Vec<(u64, TuplePointer)> = Vec::new();
        let mut i: usize = 0;
        while i < entries.len()
            invariant
                i <= entries@.len(),
                results@ == pairs(entries@.subrange(0, i as int)),
            decreases entries@.len() - i,
        {
            let e = entries[i];
            results.push((e.key, e.as_tuple_pointer()));
            i = i + 1;
            assert(results@ =~= pairs(entries@.subrange(0, i as int)));
        }
        assert(entries@.subrange(0, entries@.len() as int) =~= entries@);
        Ok(results)
    }
}

/// In a sorted sequence the entry at `i` is the one found under its key.
pub proof fn lemma_find_at(s: Seq<IndexEntry>, i: int)
    requires
        keys_sorted(s),
        0 <= i < s.len(),
    ensures
        find(s, s[i].key) == Some(s[i].pointer()),
{
    let key = s[i].key;
    assert(has_key(s, key));
    let j = choose|j: int| 0 <= j < s.len() && #[trigger] s[j].key == key;
    if j < i {
        assert(s[j].key < s[i].key);
    } else if i < j {
        assert(s[i].key < s[j].key);
    }
}

/// Storing an entry in a sorted sequence: its key then finds exactly its
/// pointer, every other key finds what it found before, and a key that was
/// already there is overwritten rather than duplicated.
pub proof fn lemma_upsert_then_find(s: Seq<IndexEntry>, e: IndexEntry)
    requires
        keys_sorted(s),
    ensures
        find(upsert(s, e), e.key) == Some(e.pointer()),
        forall|k: u64| k != e.key ==> #[trigger] find(upsert(s, e), k) == find(s, k),
        has_key(s, e.key) ==> upsert(s, e).len() == s.len(),
        !has_key(s, e.key) ==> upsert(s, e).len() == s.len() + 1,
{
    lemma_insertion_point(s, e.key);
    lemma_upsert_sorted(s, e);
    let p = insertion_point(s, e.key);
    let u = upsert(s, e);
    let replaced = p < s.len() && s[p].key == e.key;
    assert(u[p] == e);
    lemma_find_at(u, p);
    if has_key(s, e.key) {
        let i = choose|i: int| 0 <= i < s.len() && #[trigger] s[i].key == e.key;
        assert(s[i].key == e.key);
        assert(replaced) by {
            if i < p {
                assert(s[i].key < e.key);
            }
            if i > p {
                assert(s[p].key < s[i].key);
            }
        }
    } else {
        if replaced {
            assert(s[p].key == e.key);
        }
    }
    assert forall|k: u64| k != e.key implies #[trigger] find(u, k) == find(s, k) by {
        if has_key(s, k) {
            let i = choose|i: int| 0 <= i < s.len() && #[trigger] s[i].key == k;
            lemma_find_at(s, i);
            let j = if replaced || i < p { i } else { i + 1 };
            assert(u[j] == s[i]);
            lemma_find_at(u, j);
        } else if has_key(u, k) {
            let j = choose|j: int| 0 <= j < u.len() && #[trigger] u[j].key == k;
            if replaced {
                assert(j != p);
                assert(s[j].key == k);
            } else if j < p {
                assert(s[j].key == k);
            } else {
                assert(j != p);
                assert(s[j - 1].key == k);
            }
        }
    }
}

/// Splitting a full page around a new key: the two halves together are the
/// old entries with the new one in its place, every key of the lower half is
/// below the promoted key, and the promoted key is the first of the upper
/// half.
pub proof fn lemma_split_partition(s: Seq<IndexEntry>, e: IndexEntry)
    requires
        keys_sorted(s),
        !has_key(s, e.key),
        s.len() >= 1,
    ensures
        ({
            let all = upsert(s, e);
            let mid = (all.len() / 2) as int;
            let left = all.subrange(0, mid);
            let right = all.subrange(mid, all.len() as int);
            &&& all.len() == s.len() + 1
            &&& left + right == all
            &&& left.len() >= 1 && right.len() >= 1
            &&& keys_sorted(left) && keys_sorted(right)
            &&& forall|i: int| 0 <= i < left.len() ==> #[trigger] left[i].key < right[0].key
            &&& forall|i: int| 0 <= i < right.len() ==> right[0].key <= #[trigger] right[i].key
            &&& forall|k: u64| has_key(all, k) <==> (has_key(s, k) || k == e.key)
        }),
{
    lemma_insertion_point(s, e.key);
    lemma_upsert_sorted(s, e);
    let p = insertion_point(s, e.key);
    let all = upsert(s, e);
    if p < s.len() && s[p].key == e.key {
        assert(has_key(s, e.key));
    }
    let mid = (all.len() / 2) as int;
    let left = all.subrange(0, mid);
    let right = all.subrange(mid, all.len() as int);
    assert(left + right =~= all);
    lemma_subrange_sorted(all, 0, mid);
    lemma_subrange_sorted(all, mid, all.len() as int);
    assert forall|i: int| 0 <= i < left.len() implies #[trigger] left[i].key < right[0].key by {
        assert(all[i].key < all[mid].key);
    }
    assert forall|i: int| 0 <= i < right.len() implies right[0].key <= #[trigger] right[i].key by {
        if i > 0 {
            assert(all[mid].key < all[mid + i].key);
        }
    }
    assert forall|k: u64| has_key(all, k) <==> (has_key(s, k) || k == e.key) by {
        if has_key(s, k) {
            let i = choose|i: int| 0 <= i < s.len() && #[trigger] s[i].key == k;
            let j = if i < p { i } else { i + 1 };
            assert(all[j].key == k);
        }
        if k == e.key {
            assert(all[p].key == k);
        }
        if has_key(all, k) {
            let j = choose|j: int| 0 <= j < all.len() && #[trigger] all[j].key == k;
            if j < p {
                assert(s[j].key == k);
            } else if j > p {
                assert(s[j - 1].key == k);
            }
        }
    }
}

proof fn lemma_found_point(s: Seq<IndexEntry>, key: u64, pos: int)
    requires
        keys_sorted(s),
        0 <= pos < s.len(),
        s[pos].key == key,
    ensures
        is_insertion_point(s, key, pos),
{
    assert forall|i: int| 0 <= i < pos implies #[trigger] s[i].key < key by {
        assert(s[i].key < s[pos].key);
    }
    assert forall|i: int| pos <= i < s.len() implies #[trigger] s[i].key >= key by {
        if i > pos {
            assert(s[pos].key < s[i].key);
        }
    }
}

pub proof fn lemma_absent(s: Seq<IndexEntry>, key: u64, pos: int)
    requires
        0 <= pos <= s.len(),
        forall|i: int| 0 <= i < pos ==> #[trigger] s[i].key < key,
        forall|i: int| pos <= i < s.len() ==> #[trigger] s[i].key > key,
    ensures
        !has_key(s, key),
        is_insertion_point(s, key, pos),
{
    if has_key(s, key) {
        let i = choose|i: int| 0 <= i < s.len() && #[trigger] s[i].key == key;
        assert(s[i].key == key);
    }
}

proof fn lemma_subrange_sorted(s: Seq<IndexEntry>, lo: int, hi: int)
    requires
        keys_sorted(s),
        0 <= lo <= hi <= s.len(),
    ensures
        keys_sorted(s.subrange(lo, hi)),
{
    let t = s.subrange(lo, hi);
    assert forall|i: int, j: int| 0 <= i < j < t.len() implies t[i].key < t[j].key by {
        assert(t[i] == s[lo + i] && t[j] == s[lo + j]);
    }
}

/// Storing an entry keeps a sorted sequence sorted.
pub proof fn lemma_upsert_sorted(s: Seq<IndexEntry>, e: IndexEntry)
    requires
        keys_sorted(s),
    ensures
        keys_sorted(upsert(s, e)),
{
    lemma_insertion_point(s, e.key);
    let p = insertion_point(s, e.key);
    let u = upsert(s, e);
    if p < s.len() && s[p].key == e.key {
        assert forall|i: int, j: int| 0 <= i < j < u.len() implies u[i].key < u[j].key by {
            if i != p && j != p {
                assert(u[i] == s[i] && u[j] == s[j]);
            } else if i == p {
                assert(s[i].key < s[j].key);
            } else {
                assert(s[i].key < s[j].key);
            }
        }
    } else {
        assert forall|i: int, j: int| 0 <= i < j < u.len() implies u[i].key < u[j].key by {
            if j < p {
                assert(u[i] == s[i] && u[j] == s[j]);
            } else if j == p {
                assert(u[i] == s[i]);
            } else if i < p {
                assert(u[j] == s[j - 1]);
                assert(s[i].key < e.key);
            } else if i == p {
                assert(u[j] == s[j - 1]);
                assert(s[j - 1].key >= e.key);
                assert(s[j - 1].key != e.key) by {
                    if j - 1 > p {
                        assert(s[p].key < s[j - 1].key);
                    }
                }
            } else {
                assert(u[i] == s[i - 1] && u[j] == s[j - 1]);
            }
        }
    }
}

} // verus!
