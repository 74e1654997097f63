//! The manifest: which sorted tables are live at each level, and the allocators for
//! table ids and log segment numbers.
use vstd::prelude::*;

use crate::bytes::{compare_bytes, lex_lt};

verus! {

/// The persisted description of one sorted table.
#[derive(Debug, Clone)]
pub struct SSTableMetadata {
    pub id: u64,
    pub level: usize,
    pub path: String,
    pub size: u64,
    pub num_entries: u64,
    pub min_key: Vec<u8>,
    pub max_key: Vec<u8>,
}

/// Mathematical form of a table description.
pub struct TableView {
    pub id: u64,
    pub level: usize,
    pub path: Seq<char>,
    pub size: u64,
    pub num_entries: u64,
    pub min_key: Seq<u8>,
    pub max_key: Seq<u8>,
}

impl View for SSTableMetadata {
    type V = TableView;

    open spec fn view(&self) -> TableView {
        TableView {
            id: self.id,
            level: self.level,
            path: self.path@,
            size: self.size,
            num_entries: self.num_entries,
            min_key: self.min_key@,
            max_key: self.max_key@,
        }
    }
}

/// The tables of one level.
#[derive(Debug, Clone)]
pub struct Level {
    pub level: usize,
    pub sstables: Vec<SSTableMetadata>,
}

/// The tables of a level, as views.
pub open spec fn tables_view(tables: Seq<SSTableMetadata>) -> Seq<TableView> {
    tables.map_values(|t: SSTableMetadata| t@)
}

/// The catalogue of live tables.
#[derive(Debug, Clone)]
pub struct Manifest {
    pub version: u64,
    pub levels: Vec<Level>,
    pub next_sstable_id: u64,
    pub wal_seq: u64,
}

impl Manifest {
    /// The tables of each level, as views.
    pub open spec fn levels_view(&self) -> Seq<Seq<TableView>> {
        self.levels@.map_values(|l: Level| tables_view(l.sstables@))
    }
}

/// The key range of `t` meets `[min_key, max_key]`.
pub open spec fn overlaps(t: TableView, min_key: Seq<u8>, max_key: Seq<u8>) -> bool {
    !(lex_lt(t.max_key, min_key) || lex_lt(max_key, t.min_key))
}

/// `removed` lists a table of level `level` with id `id`.
pub open spec fn listed(removed: Seq<TableView>, level: int, id: u64) -> bool {
    exists|k: int| 0 <= k < removed.len() && removed[k].level == level && #[trigger] removed[k].id == id
}

fn copy_table(t: &SSTableMetadata) -> (r: SSTableMetadata)
    ensures
        r@ == t@,
{
    SSTableMetadata {
        id: t.id,
        level: t.level,
        path: t.path.clone(),
        size: t.size,
        num_entries: t.num_entries,
        min_key: vstd::slice::slice_to_vec(t.min_key.as_slice()),
        max_key: vstd::slice::slice_to_vec(t.max_key.as_slice()),
    }
}

/// Whether `removed` lists a table of level `level` with id `id`.
fn is_listed(removed: &[SSTableMetadata], level: usize, id: u64) -> (r: bool)
    ensures
        r == listed(tables_view(removed@), level as int, id),
{
    let ghost rv = tables_view(removed@);
    let mut k: usize = 0;
    while k < removed.len()
        invariant
            0 <= k <= removed@.len(),
            rv == tables_view(removed@),
            forall|j: int| 0 <= j < k ==> !(rv[j].level == level && #[trigger] rv[j].id == id),
        decreases removed@.len() - k,
    {
        if removed[k].level == level && removed[k].id == id {
            assert(rv[k as int].level == level && rv[k as int].id == id);
            return true;
        }
        k = k + 1;
    }
    false
}

impl Manifest {
    /// An empty manifest with `max_levels` empty levels, version 1, and both
    /// allocators at 1.
    pub fn new(max_levels: usize) -> (r: Manifest)
        ensures
            r.version == 1,
            r.next_sstable_id == 1,
            r.wal_seq == 1,
            r.levels@.len() == max_levels,
            forall|i: int|
                0 <= i < max_levels ==> (#[trigger] r.levels@[i]).level == i
                    && r.levels@[i].sstables@.len() == 0,
    {
        let mut levels: Vec<Level> = Vec::new();
        let mut level: usize = 0;
        while level < max_levels
            invariant
                0 <= level <= max_levels,
                levels@.len() == level,
                forall|i: int|
                    0 <= i < level ==> (#[trigger] levels@[i]).level == i
                        && levels@[i].sstables@.len() == 0,
            decreases max_levels - level,
        {
            levels.push(Level { level, sstables: Vec::new() });
            level = level + 1;
        }
        Manifest { version: 1, levels, next_sstable_id: 1, wal_seq: 1 }
    }

    /// A loaded manifest must have at least one level.
    pub fn check_levels(&self) -> (r: Result<(), String>)
        ensures
            r is Ok <==> self.levels@.len() > 0,
    {
        if self.levels.len() == 0 {
            Err("manifest has no levels".to_string())
        } else {
            Ok(())
        }
    }

    /// Appends a table to `level` and advances the version; a level beyond the last
    /// leaves the manifest as it was.
    pub fn add_sstable(&mut self, level: usize, metadata: SSTableMetadata)
        requires
            old(self).version < u64::MAX,
        ensures
            level < old(self).levels@.len() ==> {
                &&& final(self).version == old(self).version + 1
                &&& final(self).levels_view() == old(self).levels_view().update(
                    level as int,
                    old(self).levels_view()[level as int].push(metadata@),
                )
                &&& final(self).levels@.len() == old(self).levels@.len()
                &&& forall|i: int|
                    0 <= i < final(self).levels@.len() ==> (#[trigger] final(self).levels@[i]).level
                        == old(self).levels@[i].level
            },
            level >= old(self).levels@.len() ==> *final(self) == *old(self),
            final(self).next_sstable_id == old(self).next_sstable_id,
            final(self).wal_seq == old(self).wal_seq,
    {
        if level < self.levels.len() {
            let ghost before = self.levels_view();
            let ghost old_levels = self.levels@;
            self.levels[level].sstables.push(metadata);
            self.version = self.version + 1;
            proof {
                assert forall|i: int| 0 <= i < self.levels@.len() implies (#[trigger] self.levels@[i]).level
                    == old_levels[i].level by {}
                assert(tables_view(self.levels@[level as int].sstables@) =~= before[level as int].push(
                    metadata@,
                ));
                assert(self.levels_view() =~= before.update(
                    level as int,
                    before[level as int].push(metadata@),
                ));
            }
        }
    }

    /// Removes each listed table from its level (matching by level and id) and
    /// advances the version.
    pub fn remove_sstables(&mut self, sstables: &[SSTableMetadata])
        requires
            old(self).version < u64::MAX,
        ensures
            final(self).version == old(self).version + 1,
            final(self).levels@.len() == old(self).levels@.len(),
            forall|l: int|
                0 <= l < old(self).levels@.len() ==> (#[trigger] final(self).levels_view()[l])
                    == old(self).levels_view()[l].filter(
                    |t: TableView| !listed(tables_view(sstables@), l, t.id),
                ),
            forall|l: int|
                0 <= l < final(self).levels@.len() ==> (#[trigger] final(self).levels@[l]).level
                    == old(self).levels@[l].level,
            final(self).next_sstable_id == old(self).next_sstable_id,
            final(self).wal_seq == old(self).wal_seq,
    {
        let ghost rv = tables_view(sstables@);
        let mut levels: Vec<Level> = Vec::new();
        let mut l: usize = 0;
        while l < self.levels.len()
            invariant
                0 <= l <= self.levels@.len(),
                self == old(self),
                rv == tables_view(sstables@),
                levels@.len() == l,
                forall|i: int|
                    0 <= i < l ==> tables_view((#[trigger] levels@[i]).sstables@) == self.levels_view()[i].filter(
                        |t: TableView| !listed(rv, i, t.id),
                    ) && levels@[i].level == self.levels@[i].level,
            decreases self.levels@.len() - l,
        {
            let tables = &self.levels[l].sstables;
            let ghost pred = |t: TableView| !listed(rv, l as int, t.id);
            let ghost src = tables_view(tables@);
            assert(src == self.levels_view()[l as int]);
            let mut kept: Vec<SSTableMetadata> = Vec::new();
            let mut k: usize = 0;
            proof {
                reveal(Seq::filter);
                assert(src.take(0) =~= Seq::<TableView>::empty());
                assert(tables_view(kept@) =~= Seq::<TableView>::empty());
            }
            while k < tables.len()
                invariant
                    0 <= k <= tables@.len(),
                    src == tables_view(tables@),
                    rv == tables_view(sstables@),
                    pred == (|t: TableView| !listed(rv, l as int, t.id)),
                    tables_view(kept@) == src.take(k as int).filter(pred),
                decreases tables@.len() - k,
            {
                let drop = is_listed(sstables, l, tables[k].id);
                proof {
                    reveal(Seq::filter);
                    assert(src.take(k as int + 1).drop_last() =~= src.take(k as int));
                    assert(src.take(k as int + 1).last() == src[k as int]);
                    assert(src[k as int] == tables@[k as int]@);
                }
                if !drop {
                    let ghost prev = kept@;
                    kept.push(copy_table(&tables[k]));
                    proof {
                        assert(tables_view(kept@) =~= tables_view(prev).push(src[k as int]));
                    }
                }
                k = k + 1;
            }
            assert(src.take(tables@.len() as int) =~= src);
            levels.push(Level { level: self.levels[l].level, sstables: kept });
            l = l + 1;
        }
        self.levels = levels;
        self.version = self.version + 1;
        proof {
            assert forall|i: int| 0 <= i < old(self).levels@.len() implies (
            #[trigger] self.levels_view()[i]) == old(self).levels_view()[i].filter(
                |t: TableView| !listed(tables_view(sstables@), i, t.id),
            ) by {
                assert(self.levels_view()[i] == tables_view(self.levels@[i].sstables@));
            }
        }
    }

    /// The tables of `level`; none for a level beyond the last.
    pub fn get_level(&self, level: usize) -> (r: &[SSTableMetadata])
        ensures
            level < self.levels@.len() ==> r@ == self.levels@[level as int].sstables@,
            level >= self.levels@.len() ==> r@.len() == 0,
    {
        if level < self.levels.len() {
            self.levels[level].sstables.as_slice()
        } else {
            &[]
        }
    }

    /// The tables of `level` whose key range meets `[min_key, max_key]`, in level
    /// order; none for a level beyond the last.
    pub fn find_overlapping(&self, level: usize, min_key: &[u8], max_key: &[u8]) -> (r: Vec<
        SSTableMetadata,
    >)
        ensures
            level < self.levels@.len() ==> tables_view(r@) == self.levels_view()[level as int].filter(
                |t: TableView| overlaps(t, min_key@, max_key@),
            ),
            level >= self.levels@.len() ==> r@.len() == 0,
    {
        let mut out: Vec<SSTableMetadata> = Vec::new();
        if level >= self.levels.len() {
            return out;
        }
        let tables = &self.levels[level].sstables;
        let ghost src = tables_view(tables@);
        let ghost pred = |t: TableView| overlaps(t, min_key@, max_key@);
        assert(src == self.levels_view()[level as int]);
        proof {
            reveal(Seq::filter);
            assert(src.take(0) =~= Seq::<TableView>::empty());
            assert(tables_view(out@) =~= Seq::<TableView>::empty());
        }
        let mut k: usize = 0;
        while k < tables.len()
            invariant
                0 <= k <= tables@.len(),
                src == tables_view(tables@),
                pred == (|t: TableView| overlaps(t, min_key@, max_key@)),
                tables_view(out@) == src.take(k as int).filter(pred),
            decreases tables@.len() - k,
        {
            let t = &tables[k];
            let below = compare_bytes(t.max_key.as_slice(), min_key) < 0;
            let above = compare_bytes(max_key, t.min_key.as_slice()) < 0;
            proof {
                reveal(Seq::filter);
                assert(src.take(k as int + 1).drop_last() =~= src.take(k as int));
                assert(src.take(k as int + 1).last() == src[k as int]);
                assert(src[k as int] == tables@[k as int]@);
            }
            if !(below || above) {
                let ghost prev = out@;
                out.push(copy_table(t));
                proof {
                    assert(tables_view(out@) =~= tables_view(prev).push(src[k as int]));
                }
            }
            k = k + 1;
        }
        assert(src.take(tables@.len() as int) =~= src);
        out
    }

    /// Hands out the next table id.
    pub fn next_sstable_id(&mut self) -> (r: u64)
        requires
            old(self).next_sstable_id < u64::MAX,
        ensures
            r == old(self).next_sstable_id,
            *final(self) == (Manifest { next_sstable_id: (r + 1) as u64, ..*old(self) }),
    {
        let id = self.next_sstable_id;
        self.next_sstable_id = self.next_sstable_id + 1;
        id
    }

    /// Hands out the next log segment number.
    pub fn next_wal_seq(&mut self) -> (r: u64)
        requires
            old(self).wal_seq < u64::MAX,
        ensures
            r == old(self).wal_seq,
            *final(self) == (Manifest { wal_seq: (r + 1) as u64, ..*old(self) }),
    {
        let seq = self.wal_seq;
        self.wal_seq = self.wal_seq + 1;
        seq
    }
}

} // verus!
