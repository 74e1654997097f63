//! The memtable: an in-memory sorted write buffer of puts and tombstones, each with
//! the sequence number of the write that made it.
use vstd::prelude::*;

use crate::bytes::{compare_bytes, lex_le, lex_lt};
use crate::wal::LogOp;

verus! {

/// Estimated bookkeeping cost of one entry beyond its key and value bytes.
pub const ENTRY_OVERHEAD: usize = 24;

/// Mathematical form of an entry: the value (`None` for a tombstone) and its
/// sequence number.
pub type EntryView = (Option<Seq<u8>>, u64);

/// The latest write to a key.
#[derive(Debug, Clone)]
pub struct MemtableEntry {
    /// The value; `None` marks a deletion.
    pub value: Option<Vec<u8>>,
    pub seq_num: u64,
}

impl View for MemtableEntry {
    type V = EntryView;

    open spec fn view(&self) -> EntryView {
        (
            match self.value {
                Some(v) => Some(v@),
                None => None,
            },
            self.seq_num,
        )
    }
}

/// Keys with their entries, as byte strings.
pub open spec fn entry_pairs(s: Seq<(Vec<u8>, MemtableEntry)>) -> Seq<(Seq<u8>, EntryView)> {
    s.map_values(|p: (Vec<u8>, MemtableEntry)| (p.0@, p.1@))
}

/// Keys strictly ascending.
pub open spec fn strictly_sorted(s: Seq<(Seq<u8>, EntryView)>) -> bool {
    forall|i: int, j: int| 0 <= i < j < s.len() ==> lex_lt(#[trigger] s[i].0, #[trigger] s[j].0)
}

/// The entry that `s` holds for `k` (the last one, where there were several).
pub open spec fn lookup(s: Seq<(Seq<u8>, EntryView)>, k: Seq<u8>) -> Option<EntryView>
    decreases s.len(),
{
    if s.len() == 0 {
        None
    } else if s.last().0 == k {
        Some(s.last().1)
    } else {
        lookup(s.drop_last(), k)
    }
}

/// The map from key to entry that `s` holds.
pub open spec fn pairs_to_map(s: Seq<(Seq<u8>, EntryView)>) -> Map<Seq<u8>, EntryView> {
    Map::new(|k: Seq<u8>| lookup(s, k) is Some, |k: Seq<u8>| lookup(s, k)->Some_0)
}

/// `x` capped at the largest `usize`.
pub open spec fn saturate(x: int) -> int {
    if x > usize::MAX {
        usize::MAX as int
    } else {
        x
    }
}

/// Growth of the size estimate by a put: key, value and overhead for a new key; for
/// an overwrite, only what the value grew by (the estimate never shrinks).
pub open spec fn put_growth(prev: Option<EntryView>, klen: int, vlen: int) -> int {
    match prev {
        Some(e) => {
            let old_len = match e.0 {
                Some(v) => v.len() as int,
                None => 0,
            };
            if vlen > old_len {
                vlen - old_len
            } else {
                0
            }
        },
        None => klen + vlen + ENTRY_OVERHEAD,
    }
}

/// Growth of the size estimate by a delete: key and overhead for a new key only.
pub open spec fn delete_growth(prev: Option<EntryView>, klen: int) -> int {
    match prev {
        Some(_) => 0,
        None => klen + ENTRY_OVERHEAD,
    }
}

/// In sorted pairs, the entry at a key's position is the one that `lookup` finds.
pub proof fn lemma_lookup_at(s: Seq<(Seq<u8>, EntryView)>, i: int)
    requires
        strictly_sorted(s),
        0 <= i < s.len(),
    ensures
        lookup(s, s[i].0) == Some(s[i].1),
    decreases s.len(),
{
    if i < s.len() - 1 {
        let last = s.len() - 1;
        assert(lex_lt(s[i].0, s[last].0));
        crate::bytes::lemma_lex_order(s[i].0, s[last].0, s[last].0);
        let init = s.drop_last();
        assert forall|a: int, b: int| 0 <= a < b < init.len() implies lex_lt(
            #[trigger] init[a].0,
            #[trigger] init[b].0,
        ) by {
            assert(init[a] == s[a] && init[b] == s[b]);
        }
        assert(init[i] == s[i]);
        lemma_lookup_at(init, i);
    }
}

/// A key that no pair holds is not found.
pub proof fn lemma_lookup_absent(s: Seq<(Seq<u8>, EntryView)>, k: Seq<u8>)
    requires
        forall|i: int| 0 <= i < s.len() ==> (#[trigger] s[i]).0 != k,
    ensures
        lookup(s, k) is None,
    decreases s.len(),
{
    if s.len() > 0 {
        let init = s.drop_last();
        assert forall|i: int| 0 <= i < init.len() implies (#[trigger] init[i]).0 != k by {
            assert(init[i] == s[i]);
        }
        lemma_lookup_absent(init, k);
    }
}

/// No entry of `m` is newer than sequence number `seq`.
pub open spec fn seqs_at_most(m: Map<Seq<u8>, EntryView>, seq: u64) -> bool {
    forall|k: Seq<u8>| m.contains_key(k) ==> (#[trigger] m[k]).1 <= seq
}

/// What `lookup` finds is the entry of some pair with that key.
pub proof fn lemma_lookup_member(s: Seq<(Seq<u8>, EntryView)>, k: Seq<u8>)
    requires
        lookup(s, k) is Some,
    ensures
        exists|i: int| 0 <= i < s.len() && s[i].0 == k && #[trigger] s[i].1 == lookup(s, k)->Some_0,
    decreases s.len(),
{
    if s.last().0 != k {
        let init = s.drop_last();
        lemma_lookup_member(init, k);
        let i = choose|i: int| 0 <= i < init.len() && init[i].0 == k && #[trigger] init[i].1 == lookup(init, k)->Some_0;
        assert(s[i] == init[i]);
    } else {
        assert(s[s.len() - 1] == s.last());
    }
}

/// Sorted pairs make a finite map with one key per pair.
pub proof fn lemma_map_size(s: Seq<(Seq<u8>, EntryView)>)
    requires
        strictly_sorted(s),
    ensures
        pairs_to_map(s).dom().finite(),
        pairs_to_map(s).dom().len() == s.len(),
    decreases s.len(),
{
    if s.len() == 0 {
        assert(pairs_to_map(s).dom() =~= Set::<Seq<u8>>::empty());
    } else {
        let init = s.drop_last();
        let k = s.last().0;
        assert forall|a: int, b: int| 0 <= a < b < init.len() implies lex_lt(
            #[trigger] init[a].0,
            #[trigger] init[b].0,
        ) by {
            assert(init[a] == s[a] && init[b] == s[b]);
        }
        lemma_map_size(init);
        assert forall|i: int| 0 <= i < init.len() implies (#[trigger] init[i]).0 != k by {
            assert(init[i] == s[i]);
            assert(lex_lt(s[i].0, s[s.len() - 1].0));
            crate::bytes::lemma_lex_order(s[i].0, k, k);
        }
        lemma_lookup_absent(init, k);
        assert(pairs_to_map(s).dom() =~= pairs_to_map(init).dom().insert(k));
    }
}

fn sat_add(a: usize, b: usize) -> (r: usize)
    ensures
        r == saturate(a + b),
{
    if a > usize::MAX - b {
        usize::MAX
    } else {
        a + b
    }
}

fn copy_entry(e: &MemtableEntry) -> (r: MemtableEntry)
    ensures
        r@ == e@,
{
    let value = match &e.value {
        Some(v) => Some(vstd::slice::slice_to_vec(v.as_slice())),
        None => None,
    };
    MemtableEntry { value, seq_num: e.seq_num }
}

/// In-memory sorted map from key to its latest write.
#[derive(Debug)]
pub struct Memtable {
    entries: Vec<(Vec<u8>, MemtableEntry)>,
    size: usize,
    max_size: usize,
    seq_num: u64,
}

impl View for Memtable {
    type V = Map<Seq<u8>, EntryView>;

    closed spec fn view(&self) -> Map<Seq<u8>, EntryView> {
        pairs_to_map(self.contents())
    }
}

impl Memtable {
    /// The entries in ascending key order.
    pub closed spec fn contents(&self) -> Seq<(Seq<u8>, EntryView)> {
        entry_pairs(self.entries@)
    }

    /// Sequence number of the latest write.
    pub closed spec fn seq_spec(&self) -> u64 {
        self.seq_num
    }

    /// The size estimate.
    pub closed spec fn size_spec(&self) -> usize {
        self.size
    }

    /// The size at which the memtable counts as full.
    pub closed spec fn max_size_spec(&self) -> usize {
        self.max_size
    }

    /// Keys ascend strictly, and no entry is newer than the latest write.
    pub closed spec fn wf(&self) -> bool {
        &&& strictly_sorted(self.contents())
        &&& forall|i: int|
            0 <= i < self.contents().len() ==> (#[trigger] self.contents()[i]).1.1
                <= self.seq_num
    }

    /// Under `wf`, no entry is newer than the latest write.
    proof fn lemma_seq_bound(&self)
        requires
            self.wf(),
        ensures
            seqs_at_most(self@, self.seq_spec()),
    {
        assert forall|k: Seq<u8>| self@.contains_key(k) implies (#[trigger] self@[k]).1
            <= self.seq_spec() by {
            lemma_lookup_member(self.contents(), k);
            let i = choose|i: int|
                0 <= i < self.contents().len() && self.contents()[i].0 == k && #[trigger] self.contents()[i].1
                    == lookup(self.contents(), k)->Some_0;
            assert(self.contents()[i].1.1 <= self.seq_num);
        }
    }

    /// An empty memtable that counts as full from `max_size` bytes on.
    pub fn new(max_size: usize) -> (r: Memtable)
        ensures
            r.wf(),
            r@ == Map::<Seq<u8>, EntryView>::empty(),
            r.contents().len() == 0,
            seqs_at_most(r@, r.seq_spec()),
            r.seq_spec() == 0,
            r.size_spec() == 0,
            r.max_size_spec() == max_size,
    {
        let r = Memtable { entries: Vec::new(), size: 0, max_size, seq_num: 0 };
        assert(r.contents() =~= Seq::<(Seq<u8>, EntryView)>::empty());
        assert(r@ =~= Map::<Seq<u8>, EntryView>::empty());
        r
    }

    /// Where `key` stands: its index if present, else the index where it belongs.
    fn find(&self, key: &[u8]) -> (r: (bool, usize))
        requires
            self.wf(),
        ensures
            r.1 <= self.contents().len(),
            r.0 ==> r.1 < self.contents().len() && self.contents()[r.1 as int].0 == key@,
            !r.0 ==> forall|i: int|
                0 <= i < self.contents().len() ==> (i < r.1 ==> lex_lt(
                    (#[trigger] self.contents()[i]).0,
                    key@,
                )) && (i >= r.1 ==> lex_lt(key@, self.contents()[i].0)),
    {
        let ghost s = self.contents();
        let mut lo: usize = 0;
        let mut hi: usize = self.entries.len();
        while lo < hi
            invariant
                self.wf(),
                s == self.contents(),
                s.len() == self.entries@.len(),
                0 <= lo <= hi <= s.len(),
                forall|i: int| 0 <= i < lo ==> lex_lt((#[trigger] s[i]).0, key@),
                forall|i: int| hi <= i < s.len() ==> lex_lt(key@, (#[trigger] s[i]).0),
            decreases hi - lo,
        {
            let mid = lo + (hi - lo) / 2;
            assert(s[mid as int].0 == self.entries@[mid as int].0@);
            let c = compare_bytes(self.entries[mid].0.as_slice(), key);
            if c == 0 {
                return (true, mid);
            } else if c < 0 {
                proof {
                    assert forall|i: int| 0 <= i < mid + 1 implies lex_lt((#[trigger] s[i]).0, key@) by {
                        if i < mid {
                            crate::bytes::lemma_lex_order(s[i].0, s[mid as int].0, key@);
                        }
                    }
                }
                lo = mid + 1;
            } else {
                proof {
                    assert forall|i: int| mid <= i < s.len() implies lex_lt(key@, (#[trigger] s[i]).0) by {
                        if i > mid {
                            crate::bytes::lemma_lex_order(key@, s[mid as int].0, s[i].0);
                        }
                    }
                }
                hi = mid;
            }
        }
        (false, lo)
    }

    /// Stores `entry` under `key`, replacing an entry of that key.
    fn store(&mut self, key: &[u8], entry: MemtableEntry)
        requires
            old(self).wf(),
            entry.seq_num > old(self).seq_num,
        ensures
            strictly_sorted(final(self).contents()),
            final(self)@ == old(self)@.insert(key@, entry@),
            forall|i: int|
                0 <= i < final(self).contents().len() ==> (#[trigger] final(self).contents()[i]).1.1
                    <= entry.seq_num,
            final(self).seq_num == old(self).seq_num,
            final(self).size == old(self).size,
            final(self).max_size == old(self).max_size,
    {
        let (found, idx) = self.find(key);
        let ghost s = self.contents();
        let ghost ev = entry@;
        let ghost key_vec_view = key@;
        let key_vec = vstd::slice::slice_to_vec(key);
        if found {
            self.entries.set(idx, (key_vec, entry));
            proof {
                let t = self.contents();
                assert(t =~= s.update(idx as int, (key@, ev)));
                assert forall|i: int, j: int| 0 <= i < j < t.len() implies lex_lt(
                    #[trigger] t[i].0,
                    #[trigger] t[j].0,
                ) by {
                    assert(s[i].0 == t[i].0 && s[j].0 == t[j].0);
                }
                assert forall|k: Seq<u8>| lookup(t, k) == (if k == key@ { Some(ev) } else { lookup(s, k) }) by {
                    if k == key@ {
                        lemma_lookup_at(t, idx as int);
                    } else if exists|i: int| 0 <= i < s.len() && s[i].0 == k {
                        let i = choose|i: int| 0 <= i < s.len() && s[i].0 == k;
                        lemma_lookup_at(s, i);
                        lemma_lookup_at(t, i);
                    } else {
                        lemma_lookup_absent(s, k);
                        assert forall|i: int| 0 <= i < t.len() implies (#[trigger] t[i]).0 != k by {
                            assert(t[i].0 == s[i].0);
                        }
                        lemma_lookup_absent(t, k);
                    }
                }
                assert(self@ =~= old(self)@.insert(key@, ev));
            }
        } else {
            self.entries.insert(idx, (key_vec, entry));
            proof {
                let t = self.contents();
                assert(t =~= s.insert(idx as int, (key@, ev)));
                assert forall|i: int, j: int| 0 <= i < j < t.len() implies lex_lt(
                    #[trigger] t[i].0,
                    #[trigger] t[j].0,
                ) by {
                    if j < idx {
                        assert(t[i] == s[i] && t[j] == s[j]);
                    } else if j == idx {
                        assert(t[i] == s[i]);
                    } else if i < idx {
                        assert(t[i] == s[i] && t[j] == s[j - 1]);
                        crate::bytes::lemma_lex_order(s[i].0, key@, s[j - 1].0);
                    } else if i == idx {
                        assert(t[j] == s[j - 1]);
                    } else {
                        assert(t[i] == s[i - 1] && t[j] == s[j - 1]);
                    }
                }
                assert forall|k: Seq<u8>| lookup(t, k) == (if k == key@ { Some(ev) } else { lookup(s, k) }) by {
                    if k == key@ {
                        lemma_lookup_at(t, idx as int);
                    } else if exists|i: int| 0 <= i < s.len() && s[i].0 == k {
                        let i = choose|i: int| 0 <= i < s.len() && s[i].0 == k;
                        lemma_lookup_at(s, i);
                        if i < idx {
                            lemma_lookup_at(t, i);
                        } else {
                            assert(t[i + 1] == s[i]);
                            lemma_lookup_at(t, i + 1);
                        }
                    } else {
                        lemma_lookup_absent(s, k);
                        assert forall|i: int| 0 <= i < t.len() implies (#[trigger] t[i]).0 != k by {
                            if i < idx {
                                assert(t[i] == s[i]);
                            } else if i > idx {
                                assert(t[i] == s[i - 1]);
                            }
                        }
                        lemma_lookup_absent(t, k);
                    }
                }
                assert(self@ =~= old(self)@.insert(key@, ev));
            }
        }
    }

    /// Records a put of `value` under `key` with the next sequence number. Fails,
    /// changing nothing, only where the sequence numbers are used up.
    pub fn put(&mut self, key: &[u8], value: &[u8]) -> (r: Result<(), String>)
        requires
            old(self).wf(),
        ensures
            final(self).wf(),
            seqs_at_most(final(self)@, final(self).seq_spec()),
            r is Ok <==> old(self).seq_spec() < u64::MAX,
            r is Err ==> *final(self) == *old(self),
            r is Ok ==> {
                &&& final(self).seq_spec() == old(self).seq_spec() + 1
                &&& final(self)@ == old(self)@.insert(
                    key@,
                    (Some(value@), final(self).seq_spec()),
                )
                &&& final(self)@ == apply_ops(
                    old(self)@,
                    old(self).seq_spec() as int,
                    seq![LogOp::Put { key: key@, value: value@ }],
                )
                &&& final(self).size_spec() == saturate(
                    old(self).size_spec() + put_growth(
                        lookup(old(self).contents(), key@),
                        key@.len() as int,
                        value@.len() as int,
                    ),
                )
                &&& final(self).max_size_spec() == old(self).max_size_spec()
            },
    {
        if self.seq_num == u64::MAX {
            proof {
                self.lemma_seq_bound();
            }
            return Err("sequence numbers exhausted".to_string());
        }
        let seq = self.seq_num + 1;
        let (found, idx) = self.find(key);
        let growth = if found {
            proof {
                lemma_lookup_at(self.contents(), idx as int);
            }
            let old_len: usize = match &self.entries[idx].1.value {
                Some(v) => v.len(),
                None => 0,
            };
            if value.len() > old_len {
                value.len() - old_len
            } else {
                0
            }
        } else {
            proof {
                assert forall|i: int| 0 <= i < self.contents().len() implies (
                #[trigger] self.contents()[i]).0 != key@ by {
                    if i < idx {
                        crate::bytes::lemma_lex_order(self.contents()[i].0, key@, key@);
                    } else {
                        crate::bytes::lemma_lex_order(key@, self.contents()[i].0, key@);
                    }
                }
                lemma_lookup_absent(self.contents(), key@);
            }
            sat_add(sat_add(key.len(), value.len()), ENTRY_OVERHEAD)
        };
        let entry = MemtableEntry { value: Some(vstd::slice::slice_to_vec(value)), seq_num: seq };
        self.store(key, entry);
        self.seq_num = seq;
        self.size = sat_add(self.size, growth);
        proof {
            self.lemma_seq_bound();
            let op = LogOp::Put { key: key@, value: value@ };
            assert(Seq::<LogOp>::empty().push(op) =~= seq![op]);
            lemma_apply_ops_push(old(self)@, old(self).seq_spec() as int, Seq::empty(), op);
        }
        Ok(())
    }

    /// Records a delete of `key` (a tombstone) with the next sequence number. Fails,
    /// changing nothing, only where the sequence numbers are used up.
    pub fn delete(&mut self, key: &[u8]) -> (r: Result<(), String>)
        requires
            old(self).wf(),
        ensures
            final(self).wf(),
            seqs_at_most(final(self)@, final(self).seq_spec()),
            r is Ok <==> old(self).seq_spec() < u64::MAX,
            r is Err ==> *final(self) == *old(self),
            r is Ok ==> {
                &&& final(self).seq_spec() == old(self).seq_spec() + 1
                &&& final(self)@ == old(self)@.insert(key@, (None, final(self).seq_spec()))
                &&& final(self)@ == apply_ops(
                    old(self)@,
                    old(self).seq_spec() as int,
                    seq![LogOp::Delete { key: key@ }],
                )
                &&& final(self).size_spec() == saturate(
                    old(self).size_spec() + delete_growth(
                        lookup(old(self).contents(), key@),
                        key@.len() as int,
                    ),
                )
                &&& final(self).max_size_spec() == old(self).max_size_spec()
            },
    {
        if self.seq_num == u64::MAX {
            proof {
                self.lemma_seq_bound();
            }
            return Err("sequence numbers exhausted".to_string());
        }
        let seq = self.seq_num + 1;
        let (found, idx) = self.find(key);
        let growth = if found {
            proof {
                lemma_lookup_at(self.contents(), idx as int);
            }
            0
        } else {
            proof {
                assert forall|i: int| 0 <= i < self.contents().len() implies (
                #[trigger] self.contents()[i]).0 != key@ by {
                    if i < idx {
                        crate::bytes::lemma_lex_order(self.contents()[i].0, key@, key@);
                    } else {
                        crate::bytes::lemma_lex_order(key@, self.contents()[i].0, key@);
                    }
                }
                lemma_lookup_absent(self.contents(), key@);
            }
            sat_add(key.len(), ENTRY_OVERHEAD)
        };
        let entry = MemtableEntry { value: None, seq_num: seq };
        self.store(key, entry);
        self.seq_num = seq;
        self.size = sat_add(self.size, growth);
        proof {
            self.lemma_seq_bound();
            let op = LogOp::Delete { key: key@ };
            assert(Seq::<LogOp>::empty().push(op) =~= seq![op]);
            lemma_apply_ops_push(old(self)@, old(self).seq_spec() as int, Seq::empty(), op);
        }
        Ok(())
    }

    /// The entry of `key`, a tombstone included.
    pub fn get(&self, key: &[u8]) -> (r: Option<&MemtableEntry>)
        requires
            self.wf(),
        ensures
            r is Some <==> self@.contains_key(key@),
            r is Some ==> r->Some_0@ == self@[key@],
    {
        let (found, idx) = self.find(key);
        if found {
            proof {
                lemma_lookup_at(self.contents(), idx as int);
            }
            Some(&self.entries[idx].1)
        } else {
            proof {
                assert forall|i: int| 0 <= i < self.contents().len() implies (
                #[trigger] self.contents()[i]).0 != key@ by {
                    if i < idx {
                        crate::bytes::lemma_lex_order(self.contents()[i].0, key@, key@);
                    } else {
                        crate::bytes::lemma_lex_order(key@, self.contents()[i].0, key@);
                    }
                }
                lemma_lookup_absent(self.contents(), key@);
            }
            None
        }
    }

    /// The size estimate has reached the limit.
    pub fn is_full(&self) -> (r: bool)
        ensures
            r <==> self.size_spec() >= self.max_size_spec(),
    {
        self.size >= self.max_size
    }

    /// The size estimate: key, value and overhead bytes of each key, never lowered.
    pub fn size(&self) -> (r: usize)
        ensures
            r == self.size_spec(),
    {
        self.size
    }

    /// Number of keys, tombstones included.
    pub fn len(&self) -> (r: usize)
        requires
            self.wf(),
        ensures
            r == self.contents().len(),
            r == self@.dom().len(),
    {
        proof {
            lemma_map_size(self.contents());
        }
        self.entries.len()
    }

    /// No key is stored.
    pub fn is_empty(&self) -> (r: bool)
        requires
            self.wf(),
        ensures
            r <==> self.contents().len() == 0,
            r <==> self@.dom().len() == 0,
    {
        proof {
            lemma_map_size(self.contents());
        }
        self.entries.len() == 0
    }

    /// Sequence number of the latest write.
    pub fn seq_num(&self) -> (r: u64)
        ensures
            r == self.seq_spec(),
    {
        self.seq_num
    }

    /// All entries in ascending key order.
    pub fn iter(&self) -> (r: Vec<(Vec<u8>, MemtableEntry)>)
        requires
            self.wf(),
        ensures
            entry_pairs(r@) == self.contents(),
            strictly_sorted(entry_pairs(r@)),
            pairs_to_map(entry_pairs(r@)) == self@,
    {
        let mut out: Vec<(Vec<u8>, MemtableEntry)> = Vec::new();
        let mut i: usize = 0;
        while i < self.entries.len()
            invariant
                0 <= i <= self.entries@.len(),
                entry_pairs(out@) == self.contents().take(i as int),
            decreases self.entries@.len() - i,
        {
            let key = vstd::slice::slice_to_vec(self.entries[i].0.as_slice());
            let entry = copy_entry(&self.entries[i].1);
            let ghost before = out@;
            out.push((key, entry));
            proof {
                assert(self.contents()[i as int] == (self.entries@[i as int].0@, self.entries@[
                    i as int
                ].1@));
                assert(entry_pairs(out@) =~= entry_pairs(before).push(self.contents()[i as int]));
                assert(self.contents().take(i as int + 1) =~= self.contents().take(i as int).push(
                    self.contents()[i as int],
                ));
            }
            i = i + 1;
        }
        assert(self.contents().take(self.entries@.len() as int) =~= self.contents());
        out
    }

    /// The entries with `start <= key < end`, in ascending key order.
    pub fn range(&self, start: &[u8], end: &[u8]) -> (r: Vec<(Vec<u8>, MemtableEntry)>)
        requires
            self.wf(),
        ensures
            entry_pairs(r@) == self.contents().filter(
                |p: (Seq<u8>, EntryView)| lex_le(start@, p.0) && lex_lt(p.0, end@),
            ),
    {
        let ghost pred = |p: (Seq<u8>, EntryView)| lex_le(start@, p.0) && lex_lt(p.0, end@);
        let mut out: Vec<(Vec<u8>, MemtableEntry)> = Vec::new();
        let mut i: usize = 0;
        proof {
            reveal(Seq::filter);
            assert(self.contents().take(0) =~= Seq::<(Seq<u8>, EntryView)>::empty());
            assert(entry_pairs(out@) =~= Seq::<(Seq<u8>, EntryView)>::empty());
        }
        while i < self.entries.len()
            invariant
                0 <= i <= self.entries@.len(),
                pred == (|p: (Seq<u8>, EntryView)| lex_le(start@, p.0) && lex_lt(p.0, end@)),
                entry_pairs(out@) == self.contents().take(i as int).filter(pred),
            decreases self.entries@.len() - i,
        {
            let k = self.entries[i].0.as_slice();
            let lo = compare_bytes(start, k);
            let hi = compare_bytes(k, end);
            let ghost before = self.contents().take(i as int);
            proof {
                reveal(Seq::filter);
                assert(self.contents().take(i as int + 1).drop_last() =~= before);
                assert(self.contents().take(i as int + 1).last() == self.contents()[i as int]);
            }
            proof {
                assert(self.contents()[i as int].0 == k@);
                crate::bytes::lemma_lex_order(start@, k@, k@);
                crate::bytes::lemma_lex_order(k@, end@, end@);
            }
            if lo <= 0 && hi < 0 {
                let key = vstd::slice::slice_to_vec(k);
                let entry = copy_entry(&self.entries[i].1);
                let ghost prev = out@;
                out.push((key, entry));
                proof {
                    assert(self.contents()[i as int] == (self.entries@[i as int].0@, self.entries@[
                        i as int
                    ].1@));
                    assert(entry_pairs(out@) =~= entry_pairs(prev).push(self.contents()[i as int]));
                    assert(pred(self.contents()[i as int]));
                    assert(entry_pairs(out@) =~= before.filter(pred).push(
                        self.contents()[i as int],
                    ));
                }
            }
            else {
                proof {
                    assert(!pred(self.contents()[i as int]));
                }
            }
            i = i + 1;
        }
        assert(self.contents().take(self.entries@.len() as int) =~= self.contents());
        out
    }
}

/// The memtable after applying `ops` in order to `m`, the write `i` of them taking
/// sequence number `seq + i + 1`.
pub open spec fn apply_ops(m: Map<Seq<u8>, EntryView>, seq: int, ops: Seq<LogOp>) -> Map<
    Seq<u8>,
    EntryView,
>
    decreases ops.len(),
{
    if ops.len() == 0 {
        m
    } else {
        let prev = apply_ops(m, seq, ops.drop_last());
        let s = (seq + ops.len()) as u64;
        match ops.last() {
            LogOp::Put { key, value } => prev.insert(key, (Some(value), s)),
            LogOp::Delete { key } => prev.insert(key, (None, s)),
        }
    }
}

/// What the last write to `k` in `ops` left: `Some(Some(v))` for a put of `v`,
/// `Some(None)` for a delete, `None` where no write touched `k`.
pub open spec fn last_write(ops: Seq<LogOp>, k: Seq<u8>) -> Option<Option<Seq<u8>>>
    decreases ops.len(),
{
    if ops.len() == 0 {
        None
    } else {
        match ops.last() {
            LogOp::Put { key, value } => if key == k {
                Some(Some(value))
            } else {
                last_write(ops.drop_last(), k)
            },
            LogOp::Delete { key } => if key == k {
                Some(None)
            } else {
                last_write(ops.drop_last(), k)
            },
        }
    }
}

/// Applying the writes `ops.push(op)` applies `ops`, then `op` with the next sequence
/// number: the memtable after each `put` or `delete` is the next step of `apply_ops`.
pub proof fn lemma_apply_ops_push(m: Map<Seq<u8>, EntryView>, seq: int, ops: Seq<LogOp>, op: LogOp)
    ensures
        apply_ops(m, seq, ops.push(op)) == match op {
            LogOp::Put { key, value } => apply_ops(m, seq, ops).insert(
                key,
                (Some(value), (seq + ops.len() + 1) as u64),
            ),
            LogOp::Delete { key } => apply_ops(m, seq, ops).insert(
                key,
                (None, (seq + ops.len() + 1) as u64),
            ),
        },
{
    assert(ops.push(op).drop_last() =~= ops);
}

/// Read-your-writes: after any sequence of puts and deletes, the entry of a key holds
/// what the last write to it left (a value or a tombstone), and a key that no write
/// touched keeps its earlier entry.
pub proof fn lemma_read_your_writes(m: Map<Seq<u8>, EntryView>, seq: int, ops: Seq<LogOp>, k: Seq<u8>)
    ensures
        match last_write(ops, k) {
            Some(v) => apply_ops(m, seq, ops).contains_key(k) && apply_ops(m, seq, ops)[k].0 == v,
            None => apply_ops(m, seq, ops).contains_key(k) == m.contains_key(k) && (m.contains_key(
                k,
            ) ==> apply_ops(m, seq, ops)[k] == m[k]),
        },
    decreases ops.len(),
{
    if ops.len() > 0 {
        lemma_read_your_writes(m, seq, ops.drop_last(), k);
    }
}

} // verus!
