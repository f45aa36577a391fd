use crate::catalog::{
    catalog_fits, catalog_image, decode_catalog, encode_catalog, lemma_catalog_round_trip, read_catalog,
    tables_view, CatalogError, MetaV, TableMetadata,
};
use crate::encoding::{enc_row, get_row, holds_at, lemma_row_round_trip, parse_row, put_row};
use crate::file::DatabaseFile;
use crate::storage::{has_room, Segment, StorageError};
use crate::types::{copy_schema, names_equal, Row, Schema, ValueV};
use vstd::slice::slice_to_vec;
use vstd::prelude::*;

verus! {

broadcast use Seq::lemma_flatten_push;

/// Why a database operation failed.
#[derive(Debug, Clone, Copy, PartialEq, Eq, Structural)]
pub enum DbError {
    /// A table of that name exists already.
    TableExists,
    /// No table has that name.
    TableNotFound,
    /// The row does not have as many values as the schema has columns.
    ColumnCountMismatch { expected: usize, got: usize },
    /// The catalog would no longer fit in one block.
    CatalogTooLarge,
    /// Every segment id has been handed out.
    SegmentIdsExhausted,
    /// The encoded row is larger than a block can hold.
    RowTooLarge,
    /// The table owns no segment.
    NoSegments,
    /// The table names a segment that the file does not hold.
    MissingSegment,
    /// A stored tuple does not decode as a row.
    BadTuple,
    /// The catalog does not decode.
    CatalogUnreadable,
    /// The catalog decodes but its checksum does not match: it is corrupt.
    CatalogChecksumMismatch,
}

/// Which of the two reserved metadata segments holds the current catalog.
#[derive(Debug)]
pub struct MetadataManager {
    active_segment: u8,
}

impl MetadataManager {
    pub closed spec fn active(&self) -> u32 {
        self.active_segment as u32
    }

    pub closed spec fn wf(&self) -> bool {
        self.active_segment < 2
    }

    pub fn new() -> (r: MetadataManager)
        ensures
            r.wf(),
            r.active() == 0,
    {
        MetadataManager { active_segment: 0 }
    }

    pub fn get_active(&self) -> (r: u32)
        requires
            self.wf(),
        ensures
            r == self.active(),
            r < 2,
    {
        self.active_segment as u32
    }

    pub fn get_inactive(&self) -> (r: u32)
        requires
            self.wf(),
        ensures
            r == 1 - self.active(),
            r < 2,
    {
        (1 - self.active_segment) as u32
    }

    /// Makes the other metadata segment the active one.
    pub fn flip(&mut self)
        requires
            old(self).wf(),
        ensures
            final(self).wf(),
            final(self).active() == 1 - old(self).active(),
    {
        self.active_segment = 1 - self.active_segment;
    }
}

/// The catalog `ts` as the database keeps it: table names are unique,
/// each table's segment ids ascend, and every one of them is at least 2,
/// below `next` and present in `f`.
pub open spec fn catalog_ok(ts: Seq<(Seq<char>, MetaV)>, next: u32, f: DatabaseFile) -> bool {
    &&& forall|i: int, j: int| 0 <= i < j < ts.len() ==> ts[i].0 != ts[j].0
    &&& forall|i: int, k: int|
        0 <= i < ts.len() && 0 <= k < ts[i].1.1.len() ==> 2 <= #[trigger] ts[i].1.1[k] < next && f.segment_view(
            ts[i].1.1[k],
        ) is Some
    &&& forall|i: int, k: int, k2: int|
        0 <= i < ts.len() && 0 <= k < k2 < ts[i].1.1.len() ==> #[trigger] ts[i].1.1[k] < #[trigger] ts[i].1.1[k2]
}

/// A catalog that can be taken as it was stored: unique table names, and
/// ascending segment ids from 2 to below `u32::MAX` in each table.
pub open spec fn catalog_valid(ts: Seq<(Seq<char>, MetaV)>) -> bool {
    &&& forall|i: int, j: int| 0 <= i < j < ts.len() ==> ts[i].0 != ts[j].0
    &&& forall|i: int, k: int|
        0 <= i < ts.len() && 0 <= k < ts[i].1.1.len() ==> 2 <= #[trigger] ts[i].1.1[k] < u32::MAX
    &&& forall|i: int, k: int, k2: int|
        0 <= i < ts.len() && 0 <= k < k2 < ts[i].1.1.len() ==> #[trigger] ts[i].1.1[k] < #[trigger] ts[i].1.1[k2]
}

/// What loading the catalog block `b` yields.
pub open spec fn load_result(b: Seq<u8>) -> Result<Seq<(Seq<char>, MetaV)>, DbError> {
    match read_catalog(b) {
        Ok(ts) => if catalog_valid(ts) {
            Ok(ts)
        } else {
            Err(DbError::CatalogUnreadable)
        },
        Err(e) => Err(catalog_error(e)),
    }
}

/// Whether `ts` has a table named `name`.
pub open spec fn has_table(ts: Seq<(Seq<char>, MetaV)>, name: Seq<char>) -> bool {
    exists|i: int| 0 <= i < ts.len() && #[trigger] ts[i].0 == name
}

/// `i` is the first table of `ts` named `name`.
pub open spec fn first_table(ts: Seq<(Seq<char>, MetaV)>, name: Seq<char>, i: int) -> bool {
    &&& 0 <= i < ts.len()
    &&& ts[i].0 == name
    &&& forall|j: int| 0 <= j < i ==> #[trigger] ts[j].0 != name
}

/// The metadata of the first table named `name`.
pub open spec fn table_meta(ts: Seq<(Seq<char>, MetaV)>, name: Seq<char>) -> MetaV {
    ts[choose|i: int| first_table(ts, name, i)].1
}

proof fn lemma_first_table_unique(ts: Seq<(Seq<char>, MetaV)>, name: Seq<char>, i: int)
    requires
        first_table(ts, name, i),
    ensures
        (choose|k: int| first_table(ts, name, k)) == i,
        has_table(ts, name),
{
    let k = choose|k: int| first_table(ts, name, k);
    assert(first_table(ts, name, k));
    if k < i {
        assert(ts[k].0 != name);
    } else if i < k {
        assert(ts[i].0 != name);
    }
}

/// The storage engine: the database file, the catalog of tables, the next
/// segment id to hand out, and which metadata segment is current.
pub struct Database {
    file: DatabaseFile,
    tables: Vec<(String, TableMetadata)>,
    next_segment_id: u32,
    metadata_mgr: MetadataManager,
}

impl Database {
    /// The catalog: each table's name and metadata, in creation order.
    pub closed spec fn tables(&self) -> Seq<(Seq<char>, MetaV)> {
        tables_view(self.tables@)
    }

    pub closed spec fn file(&self) -> DatabaseFile {
        self.file
    }

    pub closed spec fn next_segment(&self) -> u32 {
        self.next_segment_id
    }

    pub closed spec fn active(&self) -> u32 {
        self.metadata_mgr.active()
    }

    pub closed spec fn wf(&self) -> bool {
        &&& catalog_ok(self.tables(), self.next_segment_id, self.file)
        &&& self.file.wf()
        &&& self.metadata_mgr.wf()
        &&& self.next_segment_id >= 2
    }

    /// A well-formed database keeps its catalog as `catalog_ok` says: unique
    /// names, and each table's segment ids ascending, at least 2, below the
    /// next id to hand out, and present in the file. So the segment a new
    /// table gets is owned by no other table.
    pub proof fn lemma_catalog_ok(&self)
        requires
            self.wf(),
        ensures
            catalog_ok(self.tables(), self.next_segment(), self.file()),
    {
    }

    /// An empty database over a fresh file. Segments 0 and 1 are reserved
    /// for the catalog, so the first table segment is 2.
    pub fn new() -> (r: Database)
        ensures
            r.wf(),
            r.tables() == Seq::<(Seq<char>, MetaV)>::empty(),
            r.next_segment() == 2,
            r.active() == 0,
    {
        let r = Database {
            file: DatabaseFile::new(),
            tables: Vec::new(),
            next_segment_id: 2,
            metadata_mgr: MetadataManager::new(),
        };
        assert(r.tables() =~= Seq::<(Seq<char>, MetaV)>::empty());
        r
    }

    /// The database file.
    pub fn database_file(&self) -> (r: &DatabaseFile)
        ensures
            *r == self.file(),
    {
        &self.file
    }

    /// Position of the first table named `name`.
    fn find_table(&self, name: &str) -> (r: Option<usize>)
        ensures
            r matches Some(i) ==> first_table(self.tables(), name@, i as int),
            r is None ==> !has_table(self.tables(), name@),
    {
        let mut i: usize = 0;
        while i < self.tables.len()
            invariant
                i <= self.tables@.len(),
                forall|j: int| 0 <= j < i ==> #[trigger] self.tables()[j].0 != name@,
            decreases self.tables@.len() - i,
        {
            if names_equal(self.tables[i].0.as_str(), name) {
                return Some(i);
            }
            i = i + 1;
        }
        proof {
            if has_table(self.tables(), name@) {
                let k = choose|k: int| 0 <= k < self.tables().len() && #[trigger] self.tables()[k].0 == name@;
                assert(self.tables()[k].0 == name@);
            }
        }
        None
    }

    /// The metadata of the table named `name`.
    pub fn get_table(&self, name: &str) -> (r: Result<&TableMetadata, DbError>)
        ensures
            !has_table(self.tables(), name@) <==> r == Err::<&TableMetadata, DbError>(DbError::TableNotFound),
            r is Ok <==> has_table(self.tables(), name@),
            r matches Ok(m) ==> m@ == table_meta(self.tables(), name@),
    {
        match self.find_table(name) {
            Some(i) => {
                proof {
                    lemma_first_table_unique(self.tables(), name@, i as int);
                }
                Ok(&self.tables[i].1)
            },
            None => Err(DbError::TableNotFound),
        }
    }

    /// A copy of the schema of the table named `table_name`.
    pub fn get_schema(&self, table_name: &str) -> (r: Result<Schema, DbError>)
        ensures
            !has_table(self.tables(), table_name@) <==> r == Err::<Schema, DbError>(DbError::TableNotFound),
            r is Ok <==> has_table(self.tables(), table_name@),
            r matches Ok(s) ==> s@ == table_meta(self.tables(), table_name@).0,
    {
        let metadata = self.get_table(table_name)?;
        Ok(copy_schema(&metadata.schema))
    }

    /// Whether the catalog as it stands fits in one block.
    fn catalog_fits(&self) -> (r: Result<(), DbError>)
        ensures
            r is Ok <==> catalog_fits(self.tables()),
            r is Err ==> r == Err::<(), DbError>(DbError::CatalogTooLarge),
    {
        match encode_catalog(&self.tables) {
            Some(_) => Ok(()),
            None => Err(DbError::CatalogTooLarge),
        }
    }

    /// Writes the catalog to the inactive metadata segment, then makes that
    /// segment the active one. The active copy is never written.
    fn save_catalog(&mut self) -> (r: Result<(), DbError>)
        requires
            old(self).wf(),
        ensures
            final(self).wf(),
            final(self).tables() == old(self).tables(),
            final(self).next_segment() == old(self).next_segment(),
            r is Ok <==> catalog_fits(old(self).tables()),
            r is Err ==> r == Err::<(), DbError>(DbError::CatalogTooLarge) && final(self).active() == old(self).active()
                && final(self).file() == old(self).file(),
            r is Ok ==> {
                &&& final(self).active() == 1 - old(self).active()
                &&& final(self).file().meta_block(1 - old(self).active()) == catalog_image(old(self).tables())
                &&& final(self).file().meta_block(old(self).active() as int) == old(self).file().meta_block(old(self).active() as int)
                &&& forall|id: u32| #[trigger] final(self).file().segment_view(id) == old(self).file().segment_view(id)
            },
    {
        let block = match encode_catalog(&self.tables) {
            Some(b) => b,
            None => return Err(DbError::CatalogTooLarge),
        };
        let inactive_segment = self.metadata_mgr.get_inactive();
        self.file.write_meta_block(inactive_segment, block);
        self.metadata_mgr.flip();
        Ok(())
    }
}

impl Database {
    /// Creates table `name` with `schema`, owning a fresh segment. Either the
    /// table, its segment and the saved catalog all come into being, or
    /// nothing changes.
    pub fn create_table(&mut self, name: String, schema: Schema) -> (r: Result<(), DbError>)
        requires
            old(self).wf(),
        ensures
            final(self).wf(),
            ({
                let ts = old(self).tables();
                let seg = old(self).next_segment();
                let ts2 = ts.push((name@, (schema@, seq![seg])));
                &&& has_table(ts, name@) ==> r == Err::<(), DbError>(DbError::TableExists)
                &&& !has_table(ts, name@) && seg == u32::MAX ==> r == Err::<(), DbError>(DbError::SegmentIdsExhausted)
                &&& !has_table(ts, name@) && seg < u32::MAX && !catalog_fits(ts2) ==> r == Err::<(), DbError>(DbError::CatalogTooLarge)
                &&& r is Ok <==> !has_table(ts, name@) && seg < u32::MAX && catalog_fits(ts2)
                &&& r is Err ==> final(self).tables() == ts && final(self).next_segment() == seg
                    && final(self).active() == old(self).active() && final(self).file() == old(self).file()
                &&& r is Ok ==> {
                    &&& final(self).tables() == ts2
                    &&& final(self).next_segment() == seg + 1
                    &&& final(self).active() == 1 - old(self).active()
                    &&& final(self).file().meta_block(1 - old(self).active()) == catalog_image(ts2)
                    &&& final(self).file().meta_block(old(self).active() as int) == old(self).file().meta_block(old(self).active() as int)
                    &&& final(self).file().segment_view(seg) == Some(Seq::<Seq<Seq<u8>>>::empty())
                    &&& forall|id: u32| id != seg && old(self).file().segment_view(id) is Some ==> #[trigger] final(self).file().segment_view(id) == old(self).file().segment_view(id)
                }
            }),
    {
        if self.find_table(name.as_str()).is_some() {
            return Err(DbError::TableExists);
        }
        if self.next_segment_id == u32::MAX {
            return Err(DbError::SegmentIdsExhausted);
        }
        let segment_id = self.next_segment_id;
        let mut segments: Vec<u32> = Vec::new();
        segments.push(segment_id);
        let ghost ts = self.tables();
        let ghost entry = (name@, (schema@, seq![segment_id]));
        self.tables.push((name, TableMetadata { schema, segments }));
        assert(self.tables() =~= ts.push(entry));
        if self.catalog_fits().is_err() {
            self.tables.pop();
            assert(self.tables() =~= ts);
            return Err(DbError::CatalogTooLarge);
        }
        self.next_segment_id = segment_id + 1;
        let ghost file0 = self.file;
        if self.file.initialize_segment(segment_id).is_err() {
            self.tables.pop();
            self.next_segment_id = segment_id;
            assert(self.tables() =~= ts);
            return Err(DbError::MissingSegment);
        }
        match self.save_catalog() {
            Ok(()) => Ok(()),
            Err(e) => {
                self.tables.pop();
                self.next_segment_id = segment_id;
                assert(self.tables() =~= ts);
                Err(e)
            },
        }
    }
}

/// The database error for a catalog that could not be read.
pub open spec fn catalog_error(e: CatalogError) -> DbError {
    match e {
        CatalogError::Decode => DbError::CatalogUnreadable,
        CatalogError::ChecksumMismatch => DbError::CatalogChecksumMismatch,
    }
}

/// `n` raised past every id in `segs`: the next id after the largest one,
/// if that is larger than `n` (an id of `u32::MAX` gives `u32::MAX`).
pub open spec fn bump(n: u32, segs: Seq<u32>) -> u32
    decreases segs.len(),
{
    if segs.len() == 0 {
        n
    } else {
        let m = bump(n, segs.drop_last());
        let s = segs.last();
        if s >= m {
            if s == u32::MAX {
                s
            } else {
                (s + 1) as u32
            }
        } else {
            m
        }
    }
}

/// The next segment id after folding in every segment of `ts`.
pub open spec fn next_after(ts: Seq<(Seq<char>, MetaV)>, n: u32) -> u32
    decreases ts.len(),
{
    if ts.len() == 0 {
        n
    } else {
        bump(next_after(ts.drop_last(), n), ts.last().1.1)
    }
}

fn bump_over(n: u32, segs: &Vec<u32>) -> (r: u32)
    ensures
        r == bump(n, segs@),
        r >= n,
{
    let mut acc = n;
    let mut i: usize = 0;
    while i < segs.len()
        invariant
            i <= segs@.len(),
            acc == bump(n, segs@.subrange(0, i as int)),
            acc >= n,
        decreases segs@.len() - i,
    {
        proof {
            assert(segs@.subrange(0, i + 1).drop_last() =~= segs@.subrange(0, i as int));
        }
        let s = segs[i];
        if s >= acc {
            acc = if s == u32::MAX { s } else { s + 1 };
        }
        i = i + 1;
    }
    assert(segs@.subrange(0, segs@.len() as int) =~= segs@);
    acc
}

fn next_after_tables(tables: &Vec<(String, TableMetadata)>, n: u32) -> (r: u32)
    ensures
        r == next_after(tables_view(tables@), n),
        r >= n,
{
    let ghost ts = tables_view(tables@);
    let mut acc = n;
    let mut i: usize = 0;
    while i < tables.len()
        invariant
            ts == tables_view(tables@),
            i <= tables@.len(),
            acc == next_after(ts.subrange(0, i as int), n),
            acc >= n,
        decreases tables@.len() - i,
    {
        proof {
            assert(ts.subrange(0, i + 1).drop_last() =~= ts.subrange(0, i as int));
        }
        acc = bump_over(acc, &tables[i].1.segments);
        i = i + 1;
    }
    assert(ts.subrange(0, ts.len() as int) =~= ts);
    acc
}

proof fn lemma_bump(n: u32, segs: Seq<u32>)
    ensures
        bump(n, segs) >= n,
        forall|k: int| 0 <= k < segs.len() && segs[k] < u32::MAX ==> #[trigger] segs[k] < bump(n, segs),
    decreases segs.len(),
{
    if segs.len() > 0 {
        lemma_bump(n, segs.drop_last());
        assert forall|k: int| 0 <= k < segs.len() && segs[k] < u32::MAX implies #[trigger] segs[k] < bump(n, segs) by {
            if k < segs.len() - 1 {
                assert(segs[k] == segs.drop_last()[k]);
            }
        }
    }
}

/// Every segment id below `u32::MAX` in `ts` is below `next_after(ts, n)`,
/// which is at least `n`.
proof fn lemma_next_after(ts: Seq<(Seq<char>, MetaV)>, n: u32)
    ensures
        next_after(ts, n) >= n,
        forall|i: int, k: int|
            0 <= i < ts.len() && 0 <= k < ts[i].1.1.len() && ts[i].1.1[k] < u32::MAX ==> #[trigger] ts[i].1.1[k]
                < next_after(ts, n),
    decreases ts.len(),
{
    if ts.len() > 0 {
        let init = ts.drop_last();
        lemma_next_after(init, n);
        lemma_bump(next_after(init, n), ts.last().1.1);
        assert forall|i: int, k: int|
            0 <= i < ts.len() && 0 <= k < ts[i].1.1.len() && ts[i].1.1[k] < u32::MAX implies #[trigger] ts[i].1.1[k]
                < next_after(ts, n) by {
            if i < ts.len() - 1 {
                assert(ts[i] == init[i]);
            }
        }
    }
}

/// Makes sure every segment of `segs` is present in `f`, creating the
/// missing ones empty.
fn ensure_segments(f: &mut DatabaseFile, segs: &Vec<u32>)
    requires
        old(f).wf(),
    ensures
        final(f).wf(),
        forall|x: int| 0 <= x < 2 ==> #[trigger] final(f).meta_block(x) == old(f).meta_block(x),
        forall|id: u32| old(f).segment_view(id) is Some ==> #[trigger] final(f).segment_view(id) == old(f).segment_view(id),
        forall|k: int| 0 <= k < segs@.len() && segs@[k] >= 2 ==> #[trigger] final(f).segment_view(segs@[k]) is Some,
{
    let ghost f0 = *f;
    let mut k: usize = 0;
    while k < segs.len()
        invariant
            f.wf(),
            k <= segs@.len(),
            forall|x: int| 0 <= x < 2 ==> #[trigger] f.meta_block(x) == f0.meta_block(x),
            forall|id: u32| f0.segment_view(id) is Some ==> #[trigger] f.segment_view(id) == f0.segment_view(id),
            forall|j: int| 0 <= j < k && segs@[j] >= 2 ==> #[trigger] f.segment_view(segs@[j]) is Some,
        decreases segs@.len() - k,
    {
        let id = segs[k];
        if id >= 2 && f.segment(id).is_none() {
            let _ = f.initialize_segment(id);
        }
        k = k + 1;
    }
}

/// Whether a decoded catalog can be taken as it is.
fn check_catalog(tables: &Vec<(String, TableMetadata)>) -> (r: bool)
    ensures
        r == catalog_valid(tables_view(tables@)),
{
    let ghost ts = tables_view(tables@);
    let mut i: usize = 0;
    while i < tables.len()
        invariant
            ts == tables_view(tables@),
            i <= tables@.len(),
            forall|x: int, j: int| 0 <= x < j < i ==> ts[x].0 != ts[j].0,
            forall|x: int, k: int| 0 <= x < i && 0 <= k < ts[x].1.1.len() ==> 2 <= #[trigger] ts[x].1.1[k] < u32::MAX,
            forall|x: int, k: int, k2: int| 0 <= x < i && 0 <= k < k2 < ts[x].1.1.len() ==> #[trigger] ts[x].1.1[k] < #[trigger] ts[x].1.1[k2],
        decreases tables@.len() - i,
    {
        let mut j: usize = 0;
        while j < i
            invariant
                ts == tables_view(tables@),
                i < tables@.len(),
                j <= i,
                forall|x: int| 0 <= x < j ==> ts[x].0 != ts[i as int].0,
            decreases i - j,
        {
            if names_equal(tables[j].0.as_str(), tables[i].0.as_str()) {
                assert(ts[j as int].0 == ts[i as int].0);
                return false;
            }
            j = j + 1;
        }
        let segs = &tables[i].1.segments;
        assert(segs@ == ts[i as int].1.1);
        let mut k: usize = 0;
        while k < segs.len()
            invariant
                ts == tables_view(tables@),
                i < tables@.len(),
                segs@ == ts[i as int].1.1,
                k <= segs@.len(),
                forall|q: int| 0 <= q < k ==> 2 <= #[trigger] segs@[q] < u32::MAX,
                forall|q: int, q2: int| 0 <= q < q2 < k ==> #[trigger] segs@[q] < #[trigger] segs@[q2],
            decreases segs@.len() - k,
        {
            let id = segs[k];
            if id < 2 || id == u32::MAX {
                assert(ts[i as int].1.1[k as int] == id);
                return false;
            }
            if k > 0 && segs[k - 1] >= id {
                assert(ts[i as int].1.1[k - 1] >= ts[i as int].1.1[k as int]);
                return false;
            }
            proof {
                assert forall|q: int, q2: int| 0 <= q < q2 < k + 1 implies #[trigger] segs@[q] < #[trigger] segs@[q2] by {
                    if q2 == k && q < k - 1 {
                        assert(segs@[q] < segs@[k - 1]);
                    }
                }
            }
            k = k + 1;
        }
        i = i + 1;
    }
    true
}

impl Database {
    /// Loads the catalog stored in metadata segment `segment_id`.
    fn load_from_segment(&mut self, segment_id: u32) -> (r: Result<(), DbError>)
        requires
            old(self).wf(),
            segment_id < 2,
        ensures
            final(self).wf(),
            final(self).active() == old(self).active(),
            forall|i: int| 0 <= i < 2 ==> #[trigger] final(self).file().meta_block(i) == old(self).file().meta_block(i),
            forall|id: u32| old(self).file().segment_view(id) is Some ==> #[trigger] final(self).file().segment_view(id) == old(self).file().segment_view(id),
            match load_result(old(self).file().meta_block(segment_id as int)) {
                Ok(ts) => r is Ok && final(self).tables() == ts && final(self).next_segment() == next_after(
                    ts,
                    old(self).next_segment(),
                ),
                Err(e) => r == Err::<(), DbError>(e) && final(self).tables() == old(self).tables()
                    && final(self).next_segment() == old(self).next_segment() && final(self).file() == old(self).file(),
            },
    {
        let block = self.file.read_meta_block(segment_id);
        match decode_catalog(block.as_slice()) {
            Ok(tables) => {
                if !check_catalog(&tables) {
                    return Err(DbError::CatalogUnreadable);
                }
                let next = next_after_tables(&tables, self.next_segment_id);
                proof {
                    lemma_next_after(tables_view(tables@), self.next_segment_id);
                }
                let ghost f0 = self.file;
                let mut i: usize = 0;
                while i < tables.len()
                    invariant
                        self.file.wf(),
                        self.metadata_mgr == old(self).metadata_mgr,
                        catalog_valid(tables_view(tables@)),
                        i <= tables@.len(),
                        forall|x: int| 0 <= x < 2 ==> #[trigger] self.file.meta_block(x) == f0.meta_block(x),
                        forall|id: u32| f0.segment_view(id) is Some ==> #[trigger] self.file.segment_view(id) == f0.segment_view(id),
                        forall|x: int, k: int| 0 <= x < i && 0 <= k < tables@[x].1.segments@.len() ==> #[trigger] self.file.segment_view(tables@[x].1.segments@[k]) is Some,
                    decreases tables@.len() - i,
                {
                    ensure_segments(&mut self.file, &tables[i].1.segments);
                    proof {
                        let ts = tables_view(tables@);
                        assert forall|k: int| 0 <= k < tables@[i as int].1.segments@.len() implies tables@[i as int].1.segments@[k] >= 2 by {
                            assert(ts[i as int].1.1[k] == tables@[i as int].1.segments@[k]);
                        }
                    }
                    i = i + 1;
                }
                self.tables = tables;
                self.next_segment_id = next;
                proof {
                    let ts = self.tables();
                    assert forall|x: int, k: int| 0 <= x < ts.len() && 0 <= k < ts[x].1.1.len() implies 2 <= #[trigger] ts[x].1.1[k] < next
                        && self.file.segment_view(ts[x].1.1[k]) is Some by {
                        assert(ts[x].1.1[k] == self.tables@[x].1.segments@[k]);
                    }
                }
                Ok(())
            },
            Err(CatalogError::Decode) => Err(DbError::CatalogUnreadable),
            Err(CatalogError::ChecksumMismatch) => Err(DbError::CatalogChecksumMismatch),
        }
    }

    /// Loads the catalog from the active metadata segment. When that copy
    /// is unreadable (bad checksum or undecodable), the other copy is loaded
    /// and becomes the active one.
    pub fn load_catalog(&mut self) -> (r: Result<(), DbError>)
        requires
            old(self).wf(),
        ensures
            final(self).wf(),
            forall|i: int| 0 <= i < 2 ==> #[trigger] final(self).file().meta_block(i) == old(self).file().meta_block(i),
            forall|id: u32| old(self).file().segment_view(id) is Some ==> #[trigger] final(self).file().segment_view(id) == old(self).file().segment_view(id),
            ({
                let a = old(self).active();
                let ra = load_result(old(self).file().meta_block(a as int));
                let rb = load_result(old(self).file().meta_block(1 - a));
                &&& ra matches Ok(ts) ==> r is Ok && final(self).tables() == ts && final(self).active() == a
                    && final(self).next_segment() == next_after(ts, old(self).next_segment())
                &&& ra is Err ==> (rb matches Ok(ts) ==> r is Ok && final(self).tables() == ts
                    && final(self).active() == 1 - a && final(self).next_segment() == next_after(ts, old(self).next_segment()))
                &&& ra is Err && rb is Err ==> r == Err::<(), DbError>(rb->Err_0) && final(self).file() == old(self).file()
                    && final(self).tables() == old(self).tables() && final(self).active() == a
                    && final(self).next_segment() == old(self).next_segment()
                &&& forall|ts: Seq<(Seq<char>, MetaV)>| ra is Err && #[trigger] catalog_image(ts) == old(self).file().meta_block(1 - a)
                    && catalog_fits(ts) && catalog_valid(ts) ==> final(self).tables() == ts && final(self).active() == 1 - a
            }),
    {
        let active = self.metadata_mgr.get_active();
        let inactive = self.metadata_mgr.get_inactive();
        proof {
            assert forall|ts: Seq<(Seq<char>, MetaV)>| #[trigger] catalog_image(ts) == old(self).file().meta_block(1 - active)
                && catalog_fits(ts) && catalog_valid(ts) implies load_result(old(self).file().meta_block(1 - active)) == Ok::<Seq<(Seq<char>, MetaV)>, DbError>(ts) by {
                lemma_catalog_round_trip(ts);
            }
        }
        match self.load_from_segment(active) {
            Ok(()) => Ok(()),
            Err(_) => match self.load_from_segment(inactive) {
                Ok(()) => {
                    self.metadata_mgr.flip();
                    Ok(())
                },
                Err(e) => Err(e),
            },
        }
    }

    /// A database over `file`, with the catalog it holds loaded as
    /// `load_catalog` does. A file without a readable catalog gives an
    /// empty database.
    pub fn open(file: DatabaseFile) -> (r: Database)
        requires
            file.wf(),
        ensures
            r.wf(),
            forall|i: int| 0 <= i < 2 ==> #[trigger] r.file().meta_block(i) == file.meta_block(i),
            forall|id: u32| file.segment_view(id) is Some ==> #[trigger] r.file().segment_view(id) == file.segment_view(id),
            ({
                let r0 = load_result(file.meta_block(0));
                let r1 = load_result(file.meta_block(1));
                &&& r0 matches Ok(ts) ==> r.tables() == ts && r.active() == 0 && r.next_segment() == next_after(ts, 2)
                &&& r0 is Err ==> (r1 matches Ok(ts) ==> r.tables() == ts && r.active() == 1 && r.next_segment() == next_after(ts, 2))
                &&& r0 is Err && r1 is Err ==> r.tables() == Seq::<(Seq<char>, MetaV)>::empty() && r.active() == 0
                    && r.next_segment() == 2 && r.file() == file
            }),
    {
        let mut db = Database {
            file,
            tables: Vec::new(),
            next_segment_id: 2,
            metadata_mgr: MetadataManager::new(),
        };
        assert(db.tables() =~= Seq::<(Seq<char>, MetaV)>::empty());
        let _ = db.load_catalog();
        db
    }
}

/// The tuples stored in segments `segs` of `f`, segment by segment, block
/// by block, slot by slot; `None` when one of them is not in the file.
pub open spec fn table_tuples(f: DatabaseFile, segs: Seq<u32>) -> Option<Seq<Seq<u8>>>
    decreases segs.len(),
{
    if segs.len() == 0 {
        Some(Seq::empty())
    } else {
        match (table_tuples(f, segs.drop_last()), f.segment_view(segs.last())) {
            (Some(ts), Some(bs)) => Some(ts + bs.flatten()),
            _ => None,
        }
    }
}

/// Two files that hold the same metadata blocks and the same segments.
pub open spec fn same_contents(f1: DatabaseFile, f2: DatabaseFile) -> bool {
    &&& forall|i: int| 0 <= i < 2 ==> #[trigger] f1.meta_block(i) == f2.meta_block(i)
    &&& forall|id: u32| #[trigger] f1.segment_view(id) == f2.segment_view(id)
}

/// `d2` is `d1` with `t` stored in the newest segment of table `name`.
pub open spec fn appended_to_last(d1: Database, d2: Database, name: Seq<char>, t: Seq<u8>) -> bool {
    let segs = table_meta(d1.tables(), name).1;
    &&& d2.tables() == d1.tables()
    &&& d2.next_segment() == d1.next_segment()
    &&& d2.active() == d1.active()
    &&& d1.file().segment_view(segs.last()) matches Some(bs)
    &&& d2.file().segment_view(segs.last()) matches Some(bs2)
    &&& bs2.flatten() == bs.flatten().push(t)
    &&& forall|i: int| 0 <= i < 2 ==> #[trigger] d2.file().meta_block(i) == d1.file().meta_block(i)
    &&& forall|id: u32| id != segs.last() ==> #[trigger] d2.file().segment_view(id) == d1.file().segment_view(id)
}

/// `d2` is `d1` with a new segment added to table `name`, `t` stored in it,
/// and the catalog saved with it; every other segment is unchanged.
pub open spec fn appended_to_new(d1: Database, d2: Database, name: Seq<char>, t: Seq<u8>) -> bool {
    let id = d1.next_segment();
    let ts2 = with_segment(d1.tables(), name, id);
    &&& d2.tables() == ts2
    &&& d2.next_segment() == id + 1
    &&& d2.active() == 1 - d1.active()
    &&& d2.file().meta_block(1 - d1.active()) == catalog_image(ts2)
    &&& d2.file().meta_block(d1.active() as int) == d1.file().meta_block(d1.active() as int)
    &&& d2.file().segment_view(id) matches Some(bs)
    &&& bs.flatten() == seq![t]
    &&& forall|s: u32| s != id && d1.file().segment_view(s) is Some ==> #[trigger] d2.file().segment_view(s) == d1.file().segment_view(s)
}

/// Whether the blocks `bs` of a segment can take a tuple of `n` bytes: in
/// the last used block, or in a free one.
pub open spec fn segment_has_room(bs: Seq<Seq<Seq<u8>>>, n: nat) -> bool {
    (bs.len() > 0 && has_room(bs.last(), n)) || bs.len() < crate::base::BLOCKS_PER_UNCOMPRESSED_SEGMENT
}

/// The error that inserting `row` into table `name` of `d` gives, or `None`
/// when the insert succeeds.
pub open spec fn insert_error(d: Database, name: Seq<char>, row: Seq<ValueV>) -> Option<DbError> {
    let ts = d.tables();
    let m = table_meta(ts, name);
    let n = enc_row(row).len();
    if !has_table(ts, name) {
        Some(DbError::TableNotFound)
    } else if row.len() != m.0.len() {
        Some(DbError::ColumnCountMismatch { expected: m.0.len() as usize, got: row.len() as usize })
    } else if m.1.len() == 0 {
        Some(DbError::NoSegments)
    } else {
        match d.file().segment_view(m.1.last()) {
            None => Some(DbError::MissingSegment),
            Some(bs) => if !has_room(Seq::empty(), n) {
                Some(DbError::RowTooLarge)
            } else if segment_has_room(bs, n) {
                None
            } else if d.next_segment() == u32::MAX {
                Some(DbError::SegmentIdsExhausted)
            } else if !catalog_fits(with_segment(ts, name, d.next_segment())) {
                Some(DbError::CatalogTooLarge)
            } else {
                None
            },
        }
    }
}

/// Whether inserting `row` into table `name` of `d` goes into the table's
/// newest segment (rather than a new one).
pub open spec fn fits_newest(d: Database, name: Seq<char>, row: Seq<ValueV>) -> bool {
    let segs = table_meta(d.tables(), name).1;
    d.file().segment_view(segs.last()) matches Some(bs) && segment_has_room(bs, enc_row(row).len())
}

/// Every tuple of `ts` decoded as a row; `None` when one does not decode.
pub open spec fn decode_rows(ts: Seq<Seq<u8>>) -> Option<Seq<Seq<ValueV>>>
    decreases ts.len(),
{
    if ts.len() == 0 {
        Some(Seq::empty())
    } else {
        match (decode_rows(ts.drop_last()), parse_row(ts.last(), 0)) {
            (Some(rs), Some((r, _))) => Some(rs.push(r)),
            _ => None,
        }
    }
}

pub open spec fn rows_view(rows: Seq<Row>) -> Seq<Seq<ValueV>> {
    rows.map_values(|r: Row| r@)
}

pub open spec fn bytes_view(ts: Seq<Vec<u8>>) -> Seq<Seq<u8>> {
    ts.map_values(|t: Vec<u8>| t@)
}

/// `ts` with segment `id` added to the first table named `name`.
pub open spec fn with_segment(ts: Seq<(Seq<char>, MetaV)>, name: Seq<char>, id: u32) -> Seq<(Seq<char>, MetaV)> {
    let i = choose|i: int| first_table(ts, name, i);
    ts.update(i, (ts[i].0, (ts[i].1.0, ts[i].1.1.push(id))))
}

/// Appends every tuple of `seg`, in order, to `out`.
fn collect_segment(seg: &Segment, out: &mut Vec<Vec<u8>>)
    requires
        seg.wf(),
    ensures
        bytes_view(final(out)@) == bytes_view(old(out)@) + seg.view().flatten(),
{
    let ghost out0 = bytes_view(out@);
    let ghost bs = seg.view();
    let n = seg.header().used_blocks;
    let mut b: u8 = 0;
    while b < n
        invariant
            seg.wf(),
            bs == seg.view(),
            n == bs.len(),
            b <= n,
            bytes_view(out@) == out0 + bs.subrange(0, b as int).flatten(),
        decreases n - b,
    {
        let block = match seg.block(b) {
            Some(blk) => blk,
            None => return,
        };
        let count = block.header().slot_count;
        let ghost before = bytes_view(out@);
        let mut slot: u16 = 0;
        while slot < count
            invariant
                block.wf(),
                count == block@.len(),
                slot <= count,
                bytes_view(out@) == before + block@.subrange(0, slot as int),
            decreases count - slot,
        {
            let t = match block.read_tuple(slot) {
                Some(t) => t,
                None => return,
            };
            let ghost o = out@;
            out.push(slice_to_vec(t.as_slice()));
            proof {
                assert(bytes_view(out@) =~= bytes_view(o).push(t@));
                assert(block@.subrange(0, slot + 1) =~= block@.subrange(0, slot as int).push(block@[slot as int]));
            }
            slot = slot + 1;
        }
        proof {
            assert(block@.subrange(0, count as int) =~= block@);
            assert(bs.subrange(0, b + 1) =~= bs.subrange(0, b as int).push(bs[b as int]));
        }
        b = b + 1;
    }
    assert(bs.subrange(0, n as int) =~= bs);
}

impl Database {
    /// Every row of table `table_name`: segment by segment, block by block,
    /// slot by slot.
    pub fn scan_table(&self, table_name: &str) -> (r: Result<Vec<Row>, DbError>)
        requires
            self.wf(),
        ensures
            !has_table(self.tables(), table_name@) <==> r == Err::<Vec<Row>, DbError>(DbError::TableNotFound),
            r is Ok <==> has_table(self.tables(), table_name@) && (table_tuples(
                self.file(),
                table_meta(self.tables(), table_name@).1,
            ) matches Some(ts) && decode_rows(ts) is Some),
            r matches Ok(rows) ==> table_tuples(self.file(), table_meta(self.tables(), table_name@).1) matches Some(ts)
                && decode_rows(ts) == Some(rows_view(rows@)),
    {
        let metadata = self.get_table(table_name)?;
        let segs = &metadata.segments;
        let ghost f = self.file;
        let mut tuples: Vec<Vec<u8>> = Vec::new();
        let mut k: usize = 0;
        while k < segs.len()
            invariant
                self.file.wf(),
                f == self.file,
                has_table(self.tables(), table_name@),
                segs@ == table_meta(self.tables(), table_name@).1,
                k <= segs@.len(),
                table_tuples(f, segs@.subrange(0, k as int)) == Some(bytes_view(tuples@)),
            decreases segs@.len() - k,
        {
            proof {
                assert(segs@.subrange(0, k + 1).drop_last() =~= segs@.subrange(0, k as int));
            }
            let seg = match self.file.segment(segs[k]) {
                Some(s) => s,
                None => {
                    proof {
                        lemma_table_tuples_missing(f, segs@, k as int);
                    }
                    return Err(DbError::MissingSegment);
                },
            };
            collect_segment(seg, &mut tuples);
            k = k + 1;
        }
        assert(segs@.subrange(0, segs@.len() as int) =~= segs@);
        let ghost ts = bytes_view(tuples@);
        let mut rows: Vec<Row> = Vec::new();
        let mut i: usize = 0;
        while i < tuples.len()
            invariant
                ts == bytes_view(tuples@),
                has_table(self.tables(), table_name@),
                table_tuples(self.file(), table_meta(self.tables(), table_name@).1) == Some(ts),
                i <= tuples@.len(),
                decode_rows(ts.subrange(0, i as int)) == Some(rows_view(rows@)),
            decreases tuples@.len() - i,
        {
            proof {
                assert(ts.subrange(0, i + 1).drop_last() =~= ts.subrange(0, i as int));
                assert(ts[i as int] == tuples@[i as int]@);
            }
            let row = match get_row(tuples[i].as_slice(), 0) {
                Some((row, _)) => row,
                None => {
                    proof {
                        lemma_decode_rows_fails(ts, i as int);
                    }
                    return Err(DbError::BadTuple);
                },
            };
            let ghost rs = rows@;
            rows.push(row);
            proof {
                assert(rows_view(rows@) =~= rows_view(rs).push(row@));
            }
            i = i + 1;
        }
        assert(ts.subrange(0, ts.len() as int) =~= ts);
        Ok(rows)
    }
}

proof fn lemma_table_tuples_missing(f: DatabaseFile, segs: Seq<u32>, k: int)
    requires
        0 <= k < segs.len(),
        f.segment_view(segs[k]) is None,
    ensures
        table_tuples(f, segs) is None,
    decreases segs.len(),
{
    if k < segs.len() - 1 {
        lemma_table_tuples_missing(f, segs.drop_last(), k);
    }
}

proof fn lemma_decode_rows_fails(ts: Seq<Seq<u8>>, i: int)
    requires
        0 <= i < ts.len(),
        parse_row(ts[i], 0) is None,
    ensures
        decode_rows(ts) is None,
    decreases ts.len(),
{
    if i < ts.len() - 1 {
        lemma_decode_rows_fails(ts.drop_last(), i);
    }
}

impl Database {
    /// Adds a new segment to table `idx`, saves the catalog and stores
    /// `bytes` in the new segment.
    fn grow_and_insert(&mut self, idx: usize, bytes: Vec<u8>) -> (r: Result<(), DbError>)
        requires
            old(self).wf(),
            idx < old(self).tables().len(),
            has_room(Seq::empty(), bytes@.len()),
        ensures
            final(self).wf(),
            ({
                let ts = old(self).tables();
                let id = old(self).next_segment();
                let ts2 = ts.update(idx as int, (ts[idx as int].0, (ts[idx as int].1.0, ts[idx as int].1.1.push(id))));
                &&& r is Ok <==> id < u32::MAX && catalog_fits(ts2)
                &&& id == u32::MAX ==> r == Err::<(), DbError>(DbError::SegmentIdsExhausted)
                &&& id < u32::MAX && !catalog_fits(ts2) ==> r == Err::<(), DbError>(DbError::CatalogTooLarge)
                &&& r is Err ==> final(self).tables() == ts && final(self).next_segment() == id
                    && final(self).active() == old(self).active() && final(self).file() == old(self).file()
                &&& r is Ok ==> {
                    &&& final(self).tables() == ts2
                    &&& final(self).next_segment() == id + 1
                    &&& final(self).active() == 1 - old(self).active()
                    &&& final(self).file().meta_block(1 - old(self).active()) == catalog_image(ts2)
                    &&& final(self).file().meta_block(old(self).active() as int) == old(self).file().meta_block(old(self).active() as int)
                    &&& final(self).file().segment_view(id) matches Some(bs) && bs.flatten() == seq![bytes@]
                    &&& forall|s: u32| s != id && old(self).file().segment_view(s) is Some ==> #[trigger] final(self).file().segment_view(s) == old(self).file().segment_view(s)
                }
            }),
    {
        if self.next_segment_id == u32::MAX {
            return Err(DbError::SegmentIdsExhausted);
        }
        let new_id = self.next_segment_id;
        let ghost ts = self.tables();
        let ghost t0 = self.tables@;
        let (name, mut meta) = self.tables.remove(idx);
        meta.segments.push(new_id);
        self.tables.insert(idx, (name, meta));
        let ghost ts2 = ts.update(idx as int, (ts[idx as int].0, (ts[idx as int].1.0, ts[idx as int].1.1.push(new_id))));
        assert(self.tables() =~= ts2);
        if self.catalog_fits().is_err() {
            let (name, mut meta) = self.tables.remove(idx);
            meta.segments.pop();
            assert(meta.segments@ =~= t0[idx as int].1.segments@);
            assert(meta@ == t0[idx as int].1@);
            self.tables.insert(idx, (name, meta));
            assert(self.tables() =~= ts);
            return Err(DbError::CatalogTooLarge);
        }
        self.next_segment_id = new_id + 1;
        let ghost f0 = self.file;
        let _ = self.file.initialize_segment(new_id);
        let _ = self.save_catalog();
        let ghost f1 = self.file;
        let _ = self.file.append_tuple(new_id, bytes.as_slice());
        proof {
            assert(f1.segment_view(new_id) == Some(Seq::<Seq<Seq<u8>>>::empty()));
            assert(Seq::<Seq<Seq<u8>>>::empty().flatten() =~= Seq::<Seq<u8>>::empty());
            assert(Seq::<Seq<u8>>::empty().push(bytes@) =~= seq![bytes@]);
        }
        Ok(())
    }

    /// Stores `row` in table `table_name`: the row must have one value per
    /// column; its encoding goes into the table's newest segment, and when
    /// that segment is full, into a new segment added to the table.
    pub fn insert_row(&mut self, table_name: &str, row: Row) -> (r: Result<(), DbError>)
        requires
            old(self).wf(),
        ensures
            final(self).wf(),
            r == (match insert_error(*old(self), table_name@, row@) {
                Some(e) => Err(e),
                None => Ok(()),
            }),
            r is Err ==> final(self).tables() == old(self).tables() && final(self).next_segment() == old(self).next_segment()
                && final(self).active() == old(self).active() && same_contents(final(self).file(), old(self).file()),
            r is Ok && fits_newest(*old(self), table_name@, row@) ==> appended_to_last(*old(self), *final(self), table_name@, enc_row(row@)),
            r is Ok && !fits_newest(*old(self), table_name@, row@) ==> appended_to_new(*old(self), *final(self), table_name@, enc_row(row@)),
    {
        let idx = match self.find_table(table_name) {
            Some(i) => i,
            None => return Err(DbError::TableNotFound),
        };
        proof {
            lemma_first_table_unique(self.tables(), table_name@, idx as int);
        }
        let expected = self.tables[idx].1.schema.len();
        if row.len() != expected {
            return Err(DbError::ColumnCountMismatch { expected, got: row.len() });
        }
        let mut bytes: Vec<u8> = Vec::new();
        put_row(&mut bytes, &row);
        assert(bytes@ =~= enc_row(row@));
        let count = self.tables[idx].1.segments.len();
        if count == 0 {
            return Err(DbError::NoSegments);
        }
        let segment_id = self.tables[idx].1.segments[count - 1];
        let ghost ts = self.tables();
        let ghost m = table_meta(ts, table_name@);
        let ghost f0 = self.file;
        assert(m == ts[idx as int].1);
        assert(m.1 == self.tables@[idx as int].1.segments@);
        assert(m.1.last() == segment_id);
        assert(row@.len() == m.0.len());
        let ghost d0 = *self;
        assert(d0 == *old(self));
        let ghost n = enc_row(row@).len();
        assert(has_table(ts, table_name@));
        assert(m.1.len() > 0);
        match self.file.append_tuple(segment_id, bytes.as_slice()) {
            Ok(_) => {
                assert(f0.segment_view(segment_id) is Some);
                assert(insert_error(d0, table_name@, row@) is None);
                Ok(())
            },
            Err(StorageError::SegmentFull) => {
                let ghost id = self.next_segment_id;
                assert(f0.segment_view(segment_id) is Some);
                assert(has_room(Seq::empty(), n));
                assert(!segment_has_room(f0.segment_view(segment_id)->0, n));
                assert(self.tables() == ts);
                assert(idx < self.tables().len());
                let ghost ts2 = ts.update(idx as int, (ts[idx as int].0, (ts[idx as int].1.0, ts[idx as int].1.1.push(id))));
                let r = self.grow_and_insert(idx, bytes);
                assert(r is Ok <==> id < u32::MAX && catalog_fits(ts2));
                match r {
                    Ok(_) => Ok(()),
                    Err(e) => Err(e),
                }
            },
            Err(StorageError::TupleTooLarge) => {
                assert(f0.segment_view(segment_id) is Some);
                assert(!has_room(Seq::empty(), n));
                assert(insert_error(d0, table_name@, row@) == Some(DbError::RowTooLarge));
                Err(DbError::RowTooLarge)
            },
            Err(StorageError::NoSuchSegment) => {
                assert(f0.segment_view(segment_id) is None);
                assert(insert_error(d0, table_name@, row@) == Some(DbError::MissingSegment));
                Err(DbError::MissingSegment)
            },
        }
    }
}

impl Database {
    /// Which metadata segment holds the current catalog.
    pub fn active_segment(&self) -> (r: u32)
        requires
            self.wf(),
        ensures
            r == self.active(),
    {
        self.metadata_mgr.get_active()
    }

    /// Number of tables in the catalog.
    pub fn table_count(&self) -> (r: usize)
        ensures
            r == self.tables().len(),
    {
        self.tables.len()
    }

    /// Gives up the database and returns its file.
    pub fn into_file(self) -> (r: DatabaseFile)
        ensures
            r == self.file(),
            self.wf() ==> r.wf(),
    {
        self.file
    }
}

proof fn lemma_table_tuples_frame(f1: DatabaseFile, f2: DatabaseFile, segs: Seq<u32>)
    requires
        forall|k: int| 0 <= k < segs.len() ==> f1.segment_view(#[trigger] segs[k]) == f2.segment_view(segs[k]),
    ensures
        table_tuples(f1, segs) == table_tuples(f2, segs),
    decreases segs.len(),
{
    if segs.len() > 0 {
        assert(f1.segment_view(segs.last()) == f2.segment_view(segs[segs.len() - 1]));
        lemma_table_tuples_frame(f1, f2, segs.drop_last());
    }
}

proof fn lemma_table_tuples_present(f: DatabaseFile, segs: Seq<u32>)
    requires
        forall|k: int| 0 <= k < segs.len() ==> f.segment_view(#[trigger] segs[k]) is Some,
    ensures
        table_tuples(f, segs) is Some,
    decreases segs.len(),
{
    if segs.len() > 0 {
        assert(f.segment_view(segs[segs.len() - 1]) is Some);
        lemma_table_tuples_present(f, segs.drop_last());
    }
}

/// Inserting a row into a table keeps every row the table held and adds
/// the new row once, after them: whether the row went into the newest
/// segment or into a new one, a scan of the table reads the old tuples and
/// then the new one, which decodes as the row.
pub proof fn lemma_insert_then_scan(d1: Database, d2: Database, name: Seq<char>, row: Seq<ValueV>)
    requires
        d1.wf(),
        insert_error(d1, name, row) is None,
        fits_newest(d1, name, row) ==> appended_to_last(d1, d2, name, enc_row(row)),
        !fits_newest(d1, name, row) ==> appended_to_new(d1, d2, name, enc_row(row)),
    ensures
        table_tuples(d1.file(), table_meta(d1.tables(), name).1) matches Some(ts1) && table_tuples(
            d2.file(),
            table_meta(d2.tables(), name).1,
        ) == Some(ts1.push(enc_row(row))) && decode_rows(ts1.push(enc_row(row))) == (match decode_rows(ts1) {
            Some(rs) => Some(rs.push(row)),
            None => None,
        }),
{
    let ts = d1.tables();
    let f1 = d1.file();
    let f2 = d2.file();
    let t = enc_row(row);
    let i = choose|i: int| first_table(ts, name, i);
    assert(has_table(ts, name));
    let w = choose|w: int| 0 <= w < ts.len() && #[trigger] ts[w].0 == name;
    lemma_first_exists(ts, name, w);
    assert(first_table(ts, name, i));
    let segs = ts[i].1.1;
    assert(table_meta(ts, name).1 == segs);
    assert forall|k: int| 0 <= k < segs.len() implies f1.segment_view(#[trigger] segs[k]) is Some && segs[k] < d1.next_segment() by {
        assert(2 <= ts[i].1.1[k]);
    }
    lemma_table_tuples_present(f1, segs);
    let ts1 = table_tuples(f1, segs)->0;
    assert(t.len() <= crate::base::BLOCK_SIZE);
    assert(t.subrange(0, t.len() as int) =~= t);
    lemma_row_round_trip(t, 0, row);
    assert(ts1.push(t).drop_last() =~= ts1);
    if fits_newest(d1, name, row) {
        let s = segs.last();
        let init = segs.drop_last();
        assert forall|k: int| 0 <= k < init.len() implies f1.segment_view(#[trigger] init[k]) == f2.segment_view(init[k]) by {
            assert(ts[i].1.1[k] < ts[i].1.1[segs.len() - 1]);
        }
        lemma_table_tuples_frame(f1, f2, init);
        let bs = f1.segment_view(s)->0;
        let bs2 = f2.segment_view(s)->0;
        assert(table_tuples(f2, segs) == Some(table_tuples(f2, init)->0 + bs2.flatten()));
        assert(table_tuples(f2, segs)->0 =~= ts1.push(t));
    } else {
        let id = d1.next_segment();
        let ts2 = with_segment(ts, name, id);
        assert(ts2 == ts.update(i, (ts[i].0, (ts[i].1.0, segs.push(id)))));
        assert(first_table(ts2, name, i)) by {
            assert forall|j: int| 0 <= j < i implies #[trigger] ts2[j].0 != name by {
                assert(ts2[j] == ts[j]);
            }
        }
        lemma_first_table_unique(ts2, name, i);
        assert(table_meta(ts2, name).1 == segs.push(id));
        assert forall|k: int| 0 <= k < segs.len() implies f1.segment_view(#[trigger] segs[k]) == f2.segment_view(segs[k]) by {
            assert(ts[i].1.1[k] < id);
        }
        lemma_table_tuples_frame(f1, f2, segs);
        assert(segs.push(id).drop_last() =~= segs);
        let bs = f2.segment_view(id)->0;
        assert(table_tuples(f2, segs.push(id)) == Some(table_tuples(f2, segs)->0 + bs.flatten()));
        assert(table_tuples(f2, segs.push(id))->0 =~= ts1.push(t));
    }
}

proof fn lemma_first_exists(ts: Seq<(Seq<char>, MetaV)>, name: Seq<char>, w: int)
    requires
        0 <= w < ts.len(),
        ts[w].0 == name,
    ensures
        exists|k: int| first_table(ts, name, k),
    decreases w,
{
    if exists|j: int| 0 <= j < w && #[trigger] ts[j].0 == name {
        let j = choose|j: int| 0 <= j < w && #[trigger] ts[j].0 == name;
        lemma_first_exists(ts, name, j);
    } else {
        assert(first_table(ts, name, w));
    }
}

} // verus!
