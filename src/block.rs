//! Data blocks: sorted key/value entries packed into one page, with restart points
//! that let a lookup binary-search before it scans.
use vstd::prelude::*;

use crate::bytes::{
    compare_bytes, le_u32_at, lex_le, lex_lt, push_bytes, push_u32_le, read_u32_le, u32_le,
};

verus! {

/// Byte budget of one block.
pub const BLOCK_SIZE: usize = 4096;

/// Number of entries between two restart points.
pub const RESTART_INTERVAL: usize = 16;

/// One key/value pair of a block, as byte strings.
pub type BlockEntry = (Seq<u8>, Seq<u8>);

/// `[key_len][val_len][key][value]`.
pub open spec fn entry_bytes(e: BlockEntry) -> Seq<u8> {
    u32_le(e.0.len() as u32) + u32_le(e.1.len() as u32) + e.0 + e.1
}

/// The entries, one after another.
pub open spec fn encode_entries(es: Seq<BlockEntry>) -> Seq<u8>
    decreases es.len(),
{
    if es.len() == 0 {
        Seq::empty()
    } else {
        entry_bytes(es[0]) + encode_entries(es.drop_first())
    }
}

/// Byte offset of entry `j` in the entry section.
pub open spec fn entry_offset(es: Seq<BlockEntry>, j: int) -> int {
    encode_entries(es.take(j)).len() as int
}

/// Both lengths of every entry fit their 32-bit fields.
pub open spec fn entries_fit(es: Seq<BlockEntry>) -> bool {
    forall|i: int| 0 <= i < es.len() ==> #[trigger] es[i].0.len() <= u32::MAX && es[i].1.len() <= u32::MAX
}

/// Keys strictly ascending.
pub open spec fn sorted_keys(es: Seq<BlockEntry>) -> bool {
    forall|i: int, j: int| 0 <= i < j < es.len() ==> lex_lt(#[trigger] es[i].0, #[trigger] es[j].0)
}

/// The restart offsets, four little-endian bytes each.
pub open spec fn encode_restarts(rs: Seq<u32>) -> Seq<u8>
    decreases rs.len(),
{
    if rs.len() == 0 {
        Seq::empty()
    } else {
        encode_restarts(rs.drop_last()) + u32_le(rs.last())
    }
}

/// Number of restart points that the trailer of `d` announces.
pub open spec fn restart_count(d: Seq<u8>) -> int {
    le_u32_at(d, d.len() - 4) as int
}

/// The trailer is consistent: a count of at least one, and room for the offsets.
pub open spec fn trailer_ok(d: Seq<u8>) -> bool {
    &&& d.len() >= 4
    &&& restart_count(d) >= 1
    &&& 4 * restart_count(d) + 4 <= d.len()
}

/// End of the entry section.
pub open spec fn entries_end(d: Seq<u8>) -> int {
    d.len() - 4 - 4 * restart_count(d)
}

/// Restart offset `i`.
pub open spec fn restart_at(d: Seq<u8>, i: int) -> int {
    le_u32_at(d, entries_end(d) + 4 * i) as int
}

/// The entries stored between `p` and `end`, or `None` where the bytes there do not
/// split into whole entries.
pub open spec fn parse_entries(d: Seq<u8>, p: int, end: int) -> Option<Seq<BlockEntry>>
    decreases end - p,
{
    if p < 0 || end > d.len() || p > end {
        None
    } else if p == end {
        Some(Seq::empty())
    } else if end - p < 8 {
        None
    } else {
        let klen = le_u32_at(d, p) as int;
        let vlen = le_u32_at(d, p + 4) as int;
        let next = p + 8 + klen + vlen;
        if next > end {
            None
        } else {
            match parse_entries(d, next, end) {
                Some(rest) => Some(
                    seq![(d.subrange(p + 8, p + 8 + klen), d.subrange(p + 8 + klen, next))]
                        + rest,
                ),
                None => None,
            }
        }
    }
}

/// The entries of the block image `d`.
pub open spec fn block_entries(d: Seq<u8>) -> Option<Seq<BlockEntry>> {
    if trailer_ok(d) {
        parse_entries(d, 0, entries_end(d))
    } else {
        None
    }
}

/// Every restart point is the offset of an entry, in increasing order, the first at 0.
pub open spec fn restarts_ok(d: Seq<u8>, es: Seq<BlockEntry>) -> bool {
    &&& restart_at(d, 0) == 0
    &&& forall|i: int| 0 < i < restart_count(d) ==> restart_at(d, i - 1) < #[trigger] restart_at(d, i)
    &&& es.len() > 0 ==> forall|i: int|
        0 <= i < restart_count(d) ==> exists|j: int|
            0 <= j < es.len() && entry_offset(es, j) == #[trigger] restart_at(d, i)
}

/// A block image whose entries parse, ascend strictly by key, and whose restart
/// points mark entries.
pub open spec fn well_formed_block(d: Seq<u8>) -> bool {
    &&& trailer_ok(d)
    &&& block_entries(d) is Some
    &&& sorted_keys(block_entries(d)->Some_0)
    &&& restarts_ok(d, block_entries(d)->Some_0)
}

// ---------------------------------------------------------------- lemmas on the layout

/// Appending an entry appends its bytes.
pub proof fn lemma_encode_entries_push(es: Seq<BlockEntry>, e: BlockEntry)
    ensures
        encode_entries(es.push(e)) == encode_entries(es) + entry_bytes(e),
    decreases es.len(),
{
    if es.len() == 0 {
        assert(es.push(e).drop_first() =~= Seq::<BlockEntry>::empty());
        assert(es.push(e)[0] == e);
        assert(encode_entries(Seq::<BlockEntry>::empty()) == Seq::<u8>::empty());
        assert(encode_entries(es) == Seq::<u8>::empty());
        assert(encode_entries(es.push(e)) =~= entry_bytes(e));
    } else {
        assert(es.push(e).drop_first() =~= es.drop_first().push(e));
        lemma_encode_entries_push(es.drop_first(), e);
        assert(encode_entries(es.push(e)) =~= encode_entries(es) + entry_bytes(e));
    }
}

/// The offset of entry `j + 1` follows entry `j`.
pub proof fn lemma_entry_offset_next(es: Seq<BlockEntry>, j: int)
    requires
        0 <= j < es.len(),
    ensures
        entry_offset(es, j + 1) == entry_offset(es, j) + 8 + es[j].0.len() + es[j].1.len(),
{
    assert(es.take(j + 1) =~= es.take(j).push(es[j]));
    lemma_encode_entries_push(es.take(j), es[j]);
}

/// Entry offsets grow strictly with the index.
pub proof fn lemma_entry_offset_increasing(es: Seq<BlockEntry>, i: int, j: int)
    requires
        0 <= i < j <= es.len(),
    ensures
        entry_offset(es, i) + 8 <= entry_offset(es, j),
    decreases j - i,
{
    lemma_entry_offset_next(es, j - 1);
    if i < j - 1 {
        lemma_entry_offset_increasing(es, i, j - 1);
    }
}

/// Entries encoded at `p` parse back.
pub proof fn lemma_parse_encoded(es: Seq<BlockEntry>, d: Seq<u8>, p: int)
    requires
        entries_fit(es),
        0 <= p,
        p + encode_entries(es).len() <= d.len(),
        d.subrange(p, p + encode_entries(es).len()) == encode_entries(es),
    ensures
        parse_entries(d, p, p + encode_entries(es).len()) == Some(es),
    decreases es.len(),
{
    let end = p + encode_entries(es).len();
    if es.len() > 0 {
        let e = es[0];
        let rest = es.drop_first();
        let eb = entry_bytes(e);
        let whole = encode_entries(es);
        assert(whole == eb + encode_entries(rest));
        assert(e.0.len() <= u32::MAX && e.1.len() <= u32::MAX);
        assert forall|j: int| 0 <= j < whole.len() implies d[p + j] == #[trigger] whole[j] by {
            assert(d.subrange(p, end)[j] == d[p + j]);
        }
        assert forall|j: int| 0 <= j < eb.len() implies d[p + j] == #[trigger] eb[j] by {
            assert(whole[j] == eb[j]);
        }
        let la = u32_le(e.0.len() as u32);
        let lb = u32_le(e.1.len() as u32);
        assert(eb == la + lb + e.0 + e.1);
        assert(eb.subrange(0, 4) =~= la);
        assert(eb.subrange(4, 8) =~= lb);
        assert(eb.subrange(8, 8 + e.0.len() as int) =~= e.0);
        assert(eb.subrange(8 + e.0.len() as int, eb.len() as int) =~= e.1);
        assert(d.subrange(p, p + 4) =~= u32_le(e.0.len() as u32));
        crate::bytes::lemma_u32_le_read(e.0.len() as u32, d, p);
        assert(d.subrange(p + 4, p + 8) =~= u32_le(e.1.len() as u32));
        crate::bytes::lemma_u32_le_read(e.1.len() as u32, d, p + 4);
        let next = p + eb.len();
        assert(d.subrange(p + 8, p + 8 + e.0.len()) =~= e.0);
        assert(d.subrange(p + 8 + e.0.len(), next) =~= e.1);
        assert(entries_fit(rest)) by {
            assert forall|i: int| 0 <= i < rest.len() implies #[trigger] rest[i].0.len()
                <= u32::MAX && rest[i].1.len() <= u32::MAX by {
                assert(rest[i] == es[i + 1]);
            }
        }
        assert forall|j: int| 0 <= j < encode_entries(rest).len() implies d.subrange(next, end)[j]
            == #[trigger] encode_entries(rest)[j] by {
            assert(whole[eb.len() + j] == encode_entries(rest)[j]);
            assert(d[p + eb.len() + j] == whole[eb.len() + j]);
        }
        assert(d.subrange(next, end) =~= encode_entries(rest));
        lemma_parse_encoded(rest, d, next);
        assert(seq![(e.0, e.1)] + rest =~= es);
    }
}

/// Where the entries `es` parse from 0, entry `j` stands at its offset: the bytes
/// there hold its lengths and contents, and the entries from `j` on parse from there.
pub proof fn lemma_parsed_entry_at(d: Seq<u8>, end: int, es: Seq<BlockEntry>, j: int)
    requires
        parse_entries(d, 0, end) == Some(es),
        0 <= j <= es.len(),
    ensures
        parse_entries(d, entry_offset(es, j), end) == Some(es.skip(j)),
        entry_offset(es, j) <= end <= d.len(),
        j == es.len() ==> entry_offset(es, j) == end,
        j < es.len() ==> {
            let o = entry_offset(es, j);
            &&& o + 8 + es[j].0.len() + es[j].1.len() <= end
            &&& le_u32_at(d, o) == es[j].0.len()
            &&& le_u32_at(d, o + 4) == es[j].1.len()
            &&& d.subrange(o + 8, o + 8 + es[j].0.len()) == es[j].0
            &&& d.subrange(o + 8 + es[j].0.len(), o + 8 + es[j].0.len() + es[j].1.len()) == es[j].1
        },
    decreases j,
{
    if j == 0 {
        assert(es.skip(0) =~= es);
        assert(es.take(0) =~= Seq::<BlockEntry>::empty());
    } else {
        lemma_parsed_entry_at(d, end, es, j - 1);
        lemma_entry_offset_next(es, j - 1);
        let o = entry_offset(es, j - 1);
        let rest = es.skip(j - 1);
        assert(rest[0] == es[j - 1]);
        assert(rest.drop_first() =~= es.skip(j));
        match parse_entries(d, o + 8 + le_u32_at(d, o) + le_u32_at(d, o + 4), end) {
            Some(r) => {
                assert(r =~= (seq![rest[0]] + r).drop_first());
            },
            None => {},
        }
    }
    if j < es.len() {
        let o = entry_offset(es, j);
        let rest = es.skip(j);
        assert(rest[0] == es[j]);
        if o == end {
            assert(false);
        }
    } else {
        let o = entry_offset(es, j);
        assert(es.skip(j) =~= Seq::<BlockEntry>::empty());
        if o < end {
            match parse_entries(d, o + 8 + le_u32_at(d, o) + le_u32_at(d, o + 4), end) {
                Some(r) => {
                    assert((seq![(
                        d.subrange(o + 8, o + 8 + le_u32_at(d, o)),
                        d.subrange(o + 8 + le_u32_at(d, o), o + 8 + le_u32_at(d, o) + le_u32_at(d, o + 4)),
                    )] + r).len() > 0);
                },
                None => {},
            }
        }
    }
}

/// The restart offsets encode to four bytes each, offset `i` at `4 * i`.
pub proof fn lemma_encode_restarts(rs: Seq<u32>)
    ensures
        encode_restarts(rs).len() == 4 * rs.len(),
        forall|i: int|
            0 <= i < rs.len() ==> encode_restarts(rs).subrange(4 * i, 4 * i + 4) == u32_le(
                #[trigger] rs[i],
            ),
    decreases rs.len(),
{
    if rs.len() > 0 {
        let init = rs.drop_last();
        lemma_encode_restarts(init);
        let e = encode_restarts(rs);
        assert forall|i: int| 0 <= i < rs.len() implies e.subrange(4 * i, 4 * i + 4) == u32_le(
            #[trigger] rs[i],
        ) by {
            if i < init.len() {
                assert(init[i] == rs[i]);
                assert(e.subrange(4 * i, 4 * i + 4) =~= encode_restarts(init).subrange(
                    4 * i,
                    4 * i + 4,
                ));
            } else {
                assert(e.subrange(4 * i, 4 * i + 4) =~= u32_le(rs.last()));
            }
        }
    }
}

/// Index of the entry that restart point `i` of a well-formed block marks.
pub open spec fn restart_entry(d: Seq<u8>, i: int) -> int {
    let es = block_entries(d)->Some_0;
    choose|j: int| 0 <= j < es.len() && entry_offset(es, j) == restart_at(d, i)
}

/// Key of the entry that restart point `i` of a well-formed block marks.
pub open spec fn restart_key(d: Seq<u8>, i: int) -> Seq<u8> {
    block_entries(d)->Some_0[restart_entry(d, i)].0
}

/// A well-formed block with a non-empty entry section has entries, and its restart
/// points mark entries in increasing order, the first marking the first entry.
proof fn lemma_restart_entries(d: Seq<u8>)
    requires
        well_formed_block(d),
        entries_end(d) > 0,
    ensures
        block_entries(d)->Some_0.len() > 0,
        restart_entry(d, 0) == 0,
        forall|i: int|
            0 <= i < restart_count(d) ==> 0 <= #[trigger] restart_entry(d, i) < block_entries(
                d,
            )->Some_0.len() && entry_offset(block_entries(d)->Some_0, restart_entry(d, i))
                == restart_at(d, i),
        forall|i1: int, i2: int|
            0 <= i1 < i2 < restart_count(d) ==> #[trigger] restart_entry(d, i1) < #[trigger] restart_entry(d, i2),
{
    let es = block_entries(d)->Some_0;
    let end = entries_end(d);
    lemma_parsed_entry_at(d, end, es, es.len() as int);
    assert(es.take(0) =~= Seq::<BlockEntry>::empty());
    assert forall|i: int| 0 <= i < restart_count(d) implies 0 <= #[trigger] restart_entry(d, i)
        < es.len() && entry_offset(es, restart_entry(d, i)) == restart_at(d, i) by {
        assert(exists|j: int| 0 <= j < es.len() && entry_offset(es, j) == restart_at(d, i));
    }
    let j0 = restart_entry(d, 0);
    if j0 > 0 {
        lemma_entry_offset_increasing(es, 0, j0);
    }
    assert forall|i1: int, i2: int| 0 <= i1 < i2 < restart_count(d) implies #[trigger] restart_entry(
        d,
        i1,
    ) < #[trigger] restart_entry(d, i2) by {
        lemma_restart_at_increasing(d, i1, i2);
        let x1 = restart_entry(d, i1);
        let x2 = restart_entry(d, i2);
        if x2 < x1 {
            lemma_entry_offset_increasing(es, x2, x1);
        }
    }
}

/// The bytes at the offset of parsed entry `j` read back as that entry, in the form
/// that `parse_entry` reports.
proof fn lemma_entry_readable(d: Seq<u8>, end: int, es: Seq<BlockEntry>, j: int)
    requires
        parse_entries(d, 0, end) == Some(es),
        0 <= j < es.len(),
    ensures
        ({
            let o = entry_offset(es, j);
            let kl = le_u32_at(d, o) as int;
            let vl = le_u32_at(d, o + 4) as int;
            &&& 0 <= o
            &&& o + 8 <= end
            &&& o + 8 + kl + vl <= end
            &&& end <= d.len()
            &&& d.subrange(o + 8, o + 8 + kl) == es[j].0
            &&& d.subrange(o + 8 + kl, o + 8 + kl + vl) == es[j].1
            &&& entry_offset(es, j + 1) == o + 8 + kl + vl
        }),
{
    lemma_parsed_entry_at(d, end, es, j);
    lemma_entry_offset_next(es, j);
}

/// Keys at restart points ascend: a target below the key at `mid` is below the key
/// at every later restart point.
proof fn lemma_below_later_restarts(d: Seq<u8>, target: Seq<u8>, mid: int)
    requires
        well_formed_block(d),
        entries_end(d) > 0,
        0 <= mid < restart_count(d),
        lex_lt(target, restart_key(d, mid)),
    ensures
        forall|i: int| mid <= i < restart_count(d) ==> lex_lt(target, #[trigger] restart_key(d, i)),
{
    let es = block_entries(d)->Some_0;
    lemma_restart_entries(d);
    assert forall|i: int| mid <= i < restart_count(d) implies lex_lt(
        target,
        #[trigger] restart_key(d, i),
    ) by {
        if i > mid {
            let x1 = restart_entry(d, mid);
            let x2 = restart_entry(d, i);
            assert(x1 < x2);
            assert(lex_lt(es[x1].0, es[x2].0));
            crate::bytes::lemma_lex_order(target, es[x1].0, es[x2].0);
        }
    }
}

/// The key at restart point `i` of a well-formed block is readable there.
proof fn lemma_restart_key_readable(d: Seq<u8>, i: int)
    requires
        well_formed_block(d),
        entries_end(d) > 0,
        0 <= i < restart_count(d),
    ensures
        ({
            let o = restart_at(d, i);
            let kl = le_u32_at(d, o) as int;
            let vl = le_u32_at(d, o + 4) as int;
            &&& o + 8 <= entries_end(d)
            &&& o + 8 + kl + vl <= entries_end(d)
            &&& d.subrange(o + 8, o + 8 + kl) == restart_key(d, i)
        }),
{
    let es = block_entries(d)->Some_0;
    lemma_restart_entries(d);
    lemma_entry_readable(d, entries_end(d), es, restart_entry(d, i));
}

/// Restart offsets grow strictly.
proof fn lemma_restart_at_increasing(d: Seq<u8>, i1: int, i2: int)
    requires
        restarts_ok(d, block_entries(d)->Some_0),
        0 <= i1 < i2 < restart_count(d),
    ensures
        restart_at(d, i1) < restart_at(d, i2),
    decreases i2 - i1,
{
    if i1 < i2 - 1 {
        lemma_restart_at_increasing(d, i1, i2 - 1);
    }
}

// ---------------------------------------------------------------- errors

/// Errors of block handling.
#[derive(Debug)]
pub enum BlockError {
    Io(std::io::Error),
    Corrupted(String),
    /// An entry larger than an empty block can hold.
    Full,
}

// ---------------------------------------------------------------- builder

/// Size that an entry of these lengths needs: both length fields and the bytes.
pub open spec fn entry_size(klen: int, vlen: int) -> int {
    8 + klen + vlen
}

/// The entry header at `o` in `d` announces an entry that ends by `end`.
pub open spec fn entry_fits_at(d: Seq<u8>, o: int, end: int) -> bool {
    o + 8 <= end && o + 8 + le_u32_at(d, o) + le_u32_at(d, o + 4) <= end
}

/// An entry of these lengths fits an empty block, with its restart slot and the count.
pub open spec fn fits_empty_block(klen: int, vlen: int) -> bool {
    entry_size(klen, vlen) + 12 <= BLOCK_SIZE
}

/// Number of restart points of a block of `n` entries: one per 16 entries, at least one.
pub open spec fn restarts_for(n: int) -> int {
    if n <= 0 {
        1
    } else {
        (n - 1) / 16 + 1
    }
}

/// The restart offsets of a block holding `es`: the offsets of entries 0, 16, 32, ...
pub open spec fn restart_offsets(es: Seq<BlockEntry>) -> Seq<u32> {
    Seq::new(restarts_for(es.len() as int) as nat, |i: int| entry_offset(es, i * 16) as u32)
}

/// The image of a block holding `es`: the entries, the restart offsets, their count.
pub open spec fn block_image(es: Seq<BlockEntry>) -> Seq<u8> {
    encode_entries(es) + encode_restarts(restart_offsets(es)) + u32_le(
        restarts_for(es.len() as int) as u32,
    )
}

/// Builds a block from entries added in ascending key order.
pub struct BlockBuilder {
    data: Vec<u8>,
    restart_points: Vec<u32>,
    counter: usize,
    restart_interval: usize,
    entries: Ghost<Seq<BlockEntry>>,
}

impl View for BlockBuilder {
    type V = Seq<BlockEntry>;

    closed spec fn view(&self) -> Seq<BlockEntry> {
        self.entries@
    }
}

impl BlockBuilder {
    /// The builder's fields agree with its entries.
    pub closed spec fn wf(&self) -> bool {
        &&& self.restart_interval == RESTART_INTERVAL
        &&& self.data@ == encode_entries(self@)
        &&& entries_fit(self@)
        &&& self.restart_points@.len() >= 1
        &&& forall|r: int|
            0 <= r < self.restart_points@.len() ==> #[trigger] self.restart_points@[r] as int
                == entry_offset(self@, r * 16)
        &&& self@.len() == 0 ==> self.counter == 0 && self.restart_points@.len() == 1
        &&& self@.len() > 0 ==> 1 <= self.counter <= 16 && self@.len() == 16 * (
        self.restart_points@.len() - 1) + self.counter
        &&& self.data@.len() + 4 * self.restart_points@.len() + 4 <= BLOCK_SIZE
    }

    /// Size of the block that `finish` would seal now.
    pub closed spec fn size_spec(&self) -> int {
        self.data@.len() + 4 * self.restart_points@.len() as int + 4
    }

    /// The block image that `finish` seals.
    pub closed spec fn image(&self) -> Seq<u8> {
        self.data@ + encode_restarts(self.restart_points@) + u32_le(
            self.restart_points@.len() as u32,
        )
    }

    /// The builder's image is the block image of its entries.
    proof fn lemma_image(&self)
        requires
            self.wf(),
        ensures
            self.restart_points@ == restart_offsets(self@),
            self.image() == block_image(self@),
            self.size_spec() == block_image(self@).len(),
    {
        let n = self@.len() as int;
        let rp = self.restart_points@;
        if n > 0 {
            let c = self.counter as int;
            let m = rp.len() as int;
            assert((n - 1) / 16 == m - 1) by (nonlinear_arith)
                requires
                    n == 16 * (m - 1) + c,
                    1 <= c <= 16,
            ;
        }
        assert(rp =~= restart_offsets(self@));
        lemma_encode_restarts(rp);
    }

    /// An empty builder; its first entry will be a restart point.
    pub fn new() -> (r: BlockBuilder)
        ensures
            r.wf(),
            r@ == Seq::<BlockEntry>::empty(),
            r.size_spec() == 8,
            r.size_spec() == block_image(r@).len(),
    {
        let mut restart_points: Vec<u32> = Vec::new();
        restart_points.push(0);
        let r = BlockBuilder {
            data: Vec::new(),
            restart_points,
            counter: 0,
            restart_interval: RESTART_INTERVAL,
            entries: Ghost(Seq::empty()),
        };
        assert(Seq::<BlockEntry>::empty().take(0) =~= Seq::<BlockEntry>::empty());
        proof {
            r.lemma_image();
        }
        r
    }

    /// Appends an entry where it fits. `Ok(false)`, with nothing changed, where the
    /// block has no room left for it; `Full`, with nothing changed, where even an
    /// empty block could not hold it. Keys must come in strictly ascending order;
    /// that is not checked here.
    pub fn add(&mut self, key: &[u8], value: &[u8]) -> (r: Result<bool, BlockError>)
        requires
            old(self).wf(),
        ensures
            final(self).wf(),
            r is Err <==> !fits_empty_block(key@.len() as int, value@.len() as int),
            r is Err ==> r->Err_0 is Full,
            r is Ok ==> (r->Ok_0 <==> old(self).size_spec() + entry_size(
                key@.len() as int,
                value@.len() as int,
            ) + 4 <= BLOCK_SIZE),
            r == Ok::<bool, BlockError>(true) ==> final(self)@ == old(self)@.push((key@, value@)),
            r != Ok::<bool, BlockError>(true) ==> *final(self) == *old(self),
            final(self).size_spec() <= BLOCK_SIZE,
            final(self).size_spec() == block_image(final(self)@).len(),
            r == Ok::<bool, BlockError>(true) ==> final(self).size_spec() == old(self).size_spec()
                + entry_size(key@.len() as int, value@.len() as int) + (if old(self)@.len() > 0
                && old(self)@.len() % 16 == 0 {
                4int
            } else {
                0int
            }),
    {
        proof {
            old(self).lemma_image();
        }
        if key.len() > BLOCK_SIZE || value.len() > BLOCK_SIZE || 8 + key.len() + value.len() + 12
            > BLOCK_SIZE {
            return Err(BlockError::Full);
        }
        let entry_size = 8 + key.len() + value.len();
        let restart_size = (self.restart_points.len() + 1) * 4 + 4;
        if self.data.len() + entry_size + restart_size > BLOCK_SIZE {
            return Ok(false);
        }
        let ghost old_entries = self@;
        let ghost e: BlockEntry = (key@, value@);
        let ghost new_entries = old_entries.push(e);
        proof {
            lemma_encode_entries_push(old_entries, e);
            assert forall|i: int| 0 <= i <= old_entries.len() implies entry_offset(new_entries, i)
                == entry_offset(old_entries, i) by {
                assert(new_entries.take(i) =~= old_entries.take(i));
            }
            assert(new_entries.take(new_entries.len() as int) =~= new_entries);
        }
        proof {
            let n = old_entries.len() as int;
            let c = self.counter as int;
            let m = self.restart_points@.len() as int;
            if n > 0 {
                assert((c == 16) <==> (n % 16 == 0)) by (nonlinear_arith)
                    requires
                        n == 16 * (m - 1) + c,
                        1 <= c <= 16,
                ;
            }
        }
        if self.counter >= self.restart_interval {
            proof {
                assert(old_entries.take(old_entries.len() as int) =~= old_entries);
            }
            self.restart_points.push(self.data.len() as u32);
            self.counter = 0;
        }
        push_u32_le(&mut self.data, key.len() as u32);
        push_u32_le(&mut self.data, value.len() as u32);
        push_bytes(&mut self.data, key);
        push_bytes(&mut self.data, value);
        self.counter = self.counter + 1;
        self.entries = Ghost(new_entries);
        proof {
            assert(self.data@ =~= encode_entries(new_entries));
            assert forall|i: int| 0 <= i < new_entries.len() implies #[trigger] new_entries[i].0.len()
                <= u32::MAX && new_entries[i].1.len() <= u32::MAX by {
                if i < old_entries.len() {
                    assert(new_entries[i] == old_entries[i]);
                }
            }
            assert(self.wf());
            self.lemma_image();
        }
        Ok(true)
    }

    /// Seals the builder: the entries, then each restart offset, then their count.
    pub fn finish(self) -> (r: Block)
        requires
            self.wf(),
        ensures
            r.wf(),
            r@ == self.image(),
            r@ == block_image(self@),
            r@.len() == self.size_spec(),
            r@.len() <= BLOCK_SIZE,
            trailer_ok(r@),
            restart_count(r@) == restarts_for(self@.len() as int),
            entries_end(r@) == encode_entries(self@).len(),
            forall|i: int|
                0 <= i < restart_count(r@) ==> #[trigger] restart_at(r@, i) == entry_offset(
                    self@,
                    i * 16,
                ),
    {
        let mut data = self.data;
        let restart_points = self.restart_points;
        let mut i: usize = 0;
        while i < restart_points.len()
            invariant
                0 <= i <= restart_points@.len(),
                restart_points@ == self.restart_points@,
                data@ == self.data@ + encode_restarts(restart_points@.take(i as int)),
            decreases restart_points@.len() - i,
        {
            push_u32_le(&mut data, restart_points[i]);
            proof {
                let t = restart_points@.take(i as int + 1);
                assert(t.drop_last() =~= restart_points@.take(i as int));
            }
            i = i + 1;
        }
        assert(restart_points@.take(restart_points@.len() as int) =~= restart_points@);
        push_u32_le(&mut data, restart_points.len() as u32);
        proof {
            assert(data@ == self.image());
            lemma_image_trailer(self);
            self.lemma_image();
            assert forall|i: int| 0 <= i < restart_count(data@) implies #[trigger] restart_at(data@, i)
                == entry_offset(self@, i * 16) by {
                assert(restart_points@[i] as int == entry_offset(self@, i * 16));
            }
        }
        Block { data, restart_points }
    }

    /// Size of the block that `finish` would seal now.
    pub fn current_size(&self) -> (r: usize)
        requires
            self.wf(),
        ensures
            r == self.size_spec(),
    {
        self.data.len() + (self.restart_points.len() * 4) + 4
    }

    /// No entry has been added.
    pub fn is_empty(&self) -> (r: bool)
        requires
            self.wf(),
        ensures
            r <==> self@.len() == 0,
    {
        self.counter == 0 && self.restart_points.len() == 1
    }
}

impl Default for BlockBuilder {
    fn default() -> (r: Self)
        ensures
            r.wf(),
            r@ == Seq::<BlockEntry>::empty(),
    {
        BlockBuilder::new()
    }
}

// ---------------------------------------------------------------- sealed blocks

/// An immutable block image with its restart offsets loaded.
#[derive(Debug, Clone)]
pub struct Block {
    data: Vec<u8>,
    restart_points: Vec<u32>,
}

impl View for Block {
    type V = Seq<u8>;

    closed spec fn view(&self) -> Seq<u8> {
        self.data@
    }
}

/// Reads the entry at `offset`, which must end by `limit`: its key, its value and
/// the offset after it.
fn parse_entry(data: &[u8], offset: usize, limit: usize) -> (r: Result<
    (Vec<u8>, Vec<u8>, usize),
    BlockError,
>)
    requires
        limit <= data@.len(),
    ensures
        r is Ok <==> (offset + 8 <= limit && offset + 8 + le_u32_at(data@, offset as int)
            + le_u32_at(data@, offset + 4) <= limit),
        r is Err ==> r->Err_0 is Corrupted,
        r is Ok ==> {
            let kl = le_u32_at(data@, offset as int) as int;
            let vl = le_u32_at(data@, offset + 4) as int;
            &&& r->Ok_0.0@ == data@.subrange(offset + 8, offset + 8 + kl)
            &&& r->Ok_0.1@ == data@.subrange(offset + 8 + kl, offset + 8 + kl + vl)
            &&& r->Ok_0.2 == offset + 8 + kl + vl
        },
{
    if offset > limit || limit - offset < 8 {
        return Err(BlockError::Corrupted("entry offset out of bounds".to_string()));
    }
    let key_len = read_u32_le(data, offset) as usize;
    let val_len = read_u32_le(data, offset + 4) as usize;
    let key_start = offset + 8;
    if key_len > limit - key_start || val_len > limit - key_start - key_len {
        return Err(BlockError::Corrupted("entry extends beyond block".to_string()));
    }
    let val_start = key_start + key_len;
    let next_offset = val_start + val_len;
    let key = vstd::slice::slice_to_vec(&data[key_start..val_start]);
    let value = vstd::slice::slice_to_vec(&data[val_start..next_offset]);
    Ok((key, value, next_offset))
}

impl Block {
    /// The loaded restart offsets are those that the trailer holds.
    pub closed spec fn wf(&self) -> bool {
        &&& trailer_ok(self@)
        &&& self.restart_points@.len() == restart_count(self@)
        &&& forall|i: int|
            0 <= i < self.restart_points@.len() ==> #[trigger] self.restart_points@[i] as int
                == restart_at(self@, i)
    }

    /// Loads a block image: checks the trailing count and loads the restart offsets.
    /// Fails where the image is shorter than its count, the count is zero, or the
    /// offsets do not fit.
    pub fn from_bytes(data: Vec<u8>) -> (r: Result<Block, BlockError>)
        ensures
            r is Ok <==> trailer_ok(data@),
            r is Ok ==> r->Ok_0.wf() && r->Ok_0@ == data@,
            r is Err ==> r->Err_0 is Corrupted,
    {
        if data.len() < 4 {
            return Err(BlockError::Corrupted("block too small for restart count".to_string()));
        }
        let count_offset = data.len() - 4;
        let num_restarts = read_u32_le(data.as_slice(), count_offset) as usize;
        if num_restarts == 0 {
            return Err(BlockError::Corrupted("block has no restart points".to_string()));
        }
        if num_restarts > count_offset / 4 {
            return Err(BlockError::Corrupted("invalid restart offset".to_string()));
        }
        let restart_offset = count_offset - num_restarts * 4;
        let mut restart_points: Vec<u32> = Vec::new();
        let mut i: usize = 0;
        let mut pos: usize = restart_offset;
        while i < num_restarts
            invariant
                0 <= i <= num_restarts,
                pos == restart_offset + 4 * i,
                data@.len() <= usize::MAX,
                num_restarts == restart_count(data@),
                restart_offset == entries_end(data@),
                restart_offset + 4 * num_restarts + 4 == data@.len(),
                restart_points@.len() == i,
                forall|k: int|
                    0 <= k < i ==> #[trigger] restart_points@[k] as int == restart_at(data@, k),
            decreases num_restarts - i,
        {
            let point = read_u32_le(data.as_slice(), pos);
            restart_points.push(point);
            i = i + 1;
            pos = pos + 4;
        }
        Ok(Block { data, restart_points })
    }

    /// The block image.
    pub fn as_bytes(&self) -> (r: &[u8])
        ensures
            r@ == self@,
    {
        self.data.as_slice()
    }

    /// Size of the block image in bytes.
    pub fn size(&self) -> (r: usize)
        ensures
            r == self@.len(),
    {
        self.data.len()
    }

    /// The restart offsets, in order.
    pub fn restart_points(&self) -> (r: &[u32])
        requires
            self.wf(),
        ensures
            r@.len() == restart_count(self@),
            forall|i: int| 0 <= i < r@.len() ==> #[trigger] r@[i] as int == restart_at(self@, i),
    {
        self.restart_points.as_slice()
    }

    /// An iterator over the entries, from the first.
    pub fn iter(&self) -> (r: BlockIterator)
        requires
            self.wf(),
        ensures
            r.wf(),
            r.entries() == block_entries(self@),
            r.position() == 0,
            r.data() == self@,
            r.section_end() == entries_end(self@),
    {
        let end = self.data.len() - 4 - self.restart_points.len() * 4;
        BlockIterator {
            data: vstd::slice::slice_to_vec(self.data.as_slice()),
            end,
            current_offset: 0,
        }
    }
}

/// Walks the entries of a block in stored order.
pub struct BlockIterator {
    data: Vec<u8>,
    end: usize,
    current_offset: usize,
}

impl BlockIterator {
    /// The entry section lies within the image.
    pub closed spec fn wf(&self) -> bool {
        self.end <= self.data@.len()
    }

    /// The entries that the iterator walks, where they parse.
    pub closed spec fn entries(&self) -> Option<Seq<BlockEntry>> {
        parse_entries(self.data@, 0, self.end as int)
    }

    /// Offset of the next entry in the entry section.
    pub closed spec fn position(&self) -> int {
        self.current_offset as int
    }

    /// The block image that the iterator walks.
    pub closed spec fn data(&self) -> Seq<u8> {
        self.data@
    }

    /// End of the entry section.
    pub closed spec fn section_end(&self) -> int {
        self.end as int
    }

    /// The next entry: `None` at the end of the entries, `Corrupted` (once, after
    /// which the iterator is at its end) where an entry does not parse.
    pub fn next(&mut self) -> (r: Option<Result<(Vec<u8>, Vec<u8>), BlockError>>)
        requires
            old(self).wf(),
        ensures
            final(self).wf(),
            final(self).entries() == old(self).entries(),
            final(self).data() == old(self).data(),
            final(self).section_end() == old(self).section_end(),
            r is Some && r->Some_0 is Err ==> r->Some_0->Err_0 is Corrupted,
            old(self).position() >= old(self).section_end() ==> r is None && final(self).position()
                == old(self).position(),
            old(self).position() < old(self).section_end() && !entry_fits_at(
                old(self).data(),
                old(self).position(),
                old(self).section_end(),
            ) ==> {
                &&& r is Some
                &&& r->Some_0 is Err
                &&& final(self).position() == old(self).section_end()
            },
            old(self).position() < old(self).section_end() && entry_fits_at(
                old(self).data(),
                old(self).position(),
                old(self).section_end(),
            ) ==> {
                let o = old(self).position();
                let kl = le_u32_at(old(self).data(), o) as int;
                let vl = le_u32_at(old(self).data(), o + 4) as int;
                &&& r is Some
                &&& r->Some_0 is Ok
                &&& r->Some_0->Ok_0.0@ == old(self).data().subrange(o + 8, o + 8 + kl)
                &&& r->Some_0->Ok_0.1@ == old(self).data().subrange(o + 8 + kl, o + 8 + kl + vl)
                &&& final(self).position() == o + 8 + kl + vl
            },
            match old(self).entries() {
                Some(es) => forall|j: int|
                    0 <= j <= es.len() && old(self).position() == #[trigger] entry_offset(es, j)
                        ==> if j == es.len() {
                        r is None
                    } else {
                        &&& r is Some
                        &&& r->Some_0 is Ok
                        &&& r->Some_0->Ok_0.0@ == es[j].0
                        &&& r->Some_0->Ok_0.1@ == es[j].1
                        &&& final(self).position() == entry_offset(es, j + 1)
                    },
                None => true,
            },
    {
        if self.current_offset >= self.end {
            proof {
                match self.entries() {
                    Some(es) => {
                        assert forall|j: int|
                            0 <= j < es.len() && self.position() == #[trigger] entry_offset(
                                es,
                                j,
                            ) implies false by {
                            lemma_parsed_entry_at(self.data@, self.end as int, es, j);
                        }
                    },
                    None => {},
                }
            }
            return None;
        }
        match parse_entry(self.data.as_slice(), self.current_offset, self.end) {
            Ok((key, value, next)) => {
                proof {
                    match self.entries() {
                        Some(es) => {
                            assert forall|j: int|
                                0 <= j <= es.len() && self.position() == #[trigger] entry_offset(
                                    es,
                                    j,
                                ) implies j < es.len() && key@ == es[j].0 && value@ == es[j].1
                                && next == entry_offset(es, j + 1) by {
                                lemma_parsed_entry_at(self.data@, self.end as int, es, j);
                                if j < es.len() {
                                    lemma_entry_offset_next(es, j);
                                }
                            }
                        },
                        None => {},
                    }
                }
                self.current_offset = next;
                Some(Ok((key, value)))
            },
            Err(e) => {
                proof {
                    match self.entries() {
                        Some(es) => {
                            assert forall|j: int|
                                0 <= j <= es.len() && self.position() == #[trigger] entry_offset(
                                    es,
                                    j,
                                ) implies false by {
                                lemma_parsed_entry_at(self.data@, self.end as int, es, j);
                            }
                        },
                        None => {},
                    }
                }
                self.current_offset = self.end;
                Some(Err(e))
            },
        }
    }
}

impl Block {
    /// Finds the last restart point whose key is at most `target` (the first one
    /// where none is), by binary search over the restart points.
    #[verifier::rlimit(40)]
    fn find_restart_point(&self, target: &[u8], end: usize) -> (r: Result<usize, BlockError>)
        requires
            self.wf(),
            end == entries_end(self@),
            end > 0,
        ensures
            r is Err ==> r->Err_0 is Corrupted,
            r is Ok ==> r->Ok_0 < restart_count(self@),
            well_formed_block(self@) ==> {
                &&& r is Ok
                &&& r->Ok_0 == 0 || lex_le(restart_key(self@, r->Ok_0 as int), target@)
                &&& r->Ok_0 + 1 < restart_count(self@) ==> lex_lt(
                    target@,
                    restart_key(self@, r->Ok_0 + 1),
                )
            },
    {
        let n = self.restart_points.len();
        let ghost d = self@;
        let mut lo: usize = 0;
        let mut hi: usize = n;
        while hi - lo > 1
            invariant
                self.wf(),
                d == self@,
                n == restart_count(d),
                end == entries_end(d),
                end > 0,
                end <= self.data@.len(),
                lo < hi <= n,
                well_formed_block(d) ==> lo == 0 || lex_le(restart_key(d, lo as int), target@),
                well_formed_block(d) ==> forall|i: int|
                    hi <= i < n ==> lex_lt(target@, #[trigger] restart_key(d, i)),
            decreases hi - lo,
        {
            let mid = lo + (hi - lo) / 2;
            let off = self.restart_points[mid] as usize;
            proof {
                if well_formed_block(d) {
                    lemma_restart_key_readable(d, mid as int);
                }
            }
            let (key, _, _) = match parse_entry(self.data.as_slice(), off, end) {
                Ok(parsed) => parsed,
                Err(e) => {
                    return Err(e);
                },
            };
            let c = compare_bytes(key.as_slice(), target);
            if c <= 0 {
                lo = mid;
            } else {
                proof {
                    if well_formed_block(d) {
                        lemma_below_later_restarts(d, target@, mid as int);
                    }
                }
                hi = mid;
            }
        }
        Ok(lo)
    }

    /// Looks `target` up: the binary search over the restart points picks the run of
    /// entries that can hold it, and a scan of that run stops at the key or at the
    /// first greater one.
    pub fn get(&self, target: &[u8]) -> (r: Result<Option<Vec<u8>>, BlockError>)
        requires
            self.wf(),
        ensures
            r is Err ==> r->Err_0 is Corrupted,
            well_formed_block(self@) ==> {
                let es = block_entries(self@)->Some_0;
                &&& r is Ok
                &&& forall|j: int|
                    0 <= j < es.len() && #[trigger] es[j].0 == target@ ==> r->Ok_0 is Some
                        && r->Ok_0->Some_0@ == es[j].1
                &&& (forall|j: int| 0 <= j < es.len() ==> #[trigger] es[j].0 != target@)
                    ==> r->Ok_0 is None
            },
    {
        let n = self.restart_points.len();
        let end = self.data.len() - 4 - n * 4;
        let ghost d = self@;
        let ghost es = block_entries(d)->Some_0;
        if end == 0 {
            proof {
                if well_formed_block(d) {
                    lemma_parsed_entry_at(d, 0, es, es.len() as int);
                    if es.len() > 0 {
                        lemma_entry_offset_increasing(es, 0, es.len() as int);
                    }
                }
            }
            return Ok(None);
        }
        let r = match self.find_restart_point(target, end) {
            Ok(r) => r,
            Err(e) => {
                return Err(e);
            },
        };
        let start = self.restart_points[r] as usize;
        let limit = if r + 1 < n {
            self.restart_points[r + 1] as usize
        } else {
            end
        };
        let ghost a = restart_entry(d, r as int);
        let ghost b = if r + 1 < n {
            restart_entry(d, r + 1)
        } else {
            es.len() as int
        };
        proof {
            if well_formed_block(d) {
                lemma_restart_entries(d);
                lemma_parsed_entry_at(d, end as int, es, es.len() as int);
                assert(es.take(0) =~= Seq::<BlockEntry>::empty());
                if r + 1 < n {
                    assert(restart_entry(d, r as int) < restart_entry(d, r + 1));
                    let xb = restart_entry(d, r + 1);
                    assert(lex_lt(target@, es[xb].0));
                    lemma_entry_offset_increasing(es, xb, es.len() as int);
                }
                assert forall|i: int| 0 <= i < a implies lex_lt(#[trigger] es[i].0, target@) by {
                    assert(lex_lt(es[i].0, es[a].0));
                    crate::bytes::lemma_lex_order(es[i].0, es[a].0, target@);
                }
            }
        }
        let mut off = start;
        let ghost mut j: int = a;
        while off < limit && off < end
            invariant
                self.wf(),
                d == self@,
                es == block_entries(d)->Some_0,
                n == restart_count(d),
                end == entries_end(d),
                end <= self.data@.len(),
                well_formed_block(d) ==> {
                    &&& 0 <= a <= j <= b <= es.len()
                    &&& off == entry_offset(es, j)
                    &&& limit == entry_offset(es, b)
                    &&& limit <= end
                    &&& forall|i: int| 0 <= i < j ==> lex_lt(#[trigger] es[i].0, target@)
                    &&& b < es.len() ==> lex_lt(target@, es[b].0)
                },
            decreases end - off,
        {
            proof {
                if well_formed_block(d) {
                    if j >= b {
                        if j > b {
                            lemma_entry_offset_increasing(es, b, j);
                        }
                        assert(false);
                    }
                    lemma_entry_readable(d, end as int, es, j);
                }
            }
            let (key, value, next) = match parse_entry(self.data.as_slice(), off, end) {
                Ok(parsed) => parsed,
                Err(e) => {
                    return Err(e);
                },
            };
            let c = compare_bytes(key.as_slice(), target);
            if c == 0 {
                proof {
                    if well_formed_block(d) {
                        assert forall|i: int|
                            0 <= i < es.len() && #[trigger] es[i].0 == target@ implies i == j by {
                            if i < j {
                                assert(lex_lt(es[i].0, es[j].0));
                            } else if i > j {
                                assert(lex_lt(es[j].0, es[i].0));
                            }
                            crate::bytes::lemma_lex_order(es[i].0, es[j].0, target@);
                        }
                    }
                }
                return Ok(Some(value));
            }
            if c > 0 {
                proof {
                    if well_formed_block(d) {
                        assert forall|i: int| 0 <= i < es.len() implies #[trigger] es[i].0
                            != target@ by {
                            if i < j {
                                crate::bytes::lemma_lex_order(es[i].0, target@, target@);
                            } else if i == j {
                                crate::bytes::lemma_lex_order(target@, es[j].0, es[j].0);
                            } else {
                                assert(lex_lt(es[j].0, es[i].0));
                                crate::bytes::lemma_lex_order(target@, es[j].0, es[i].0);
                                crate::bytes::lemma_lex_order(target@, es[i].0, es[i].0);
                            }
                        }
                    }
                }
                return Ok(None);
            }
            assert(next > off);
            proof {
                if well_formed_block(d) {
                    assert(key@ == es[j].0);
                    assert(lex_lt(es[j].0, target@));
                    assert(next == entry_offset(es, j + 1));
                }
            }
            off = next;
            proof {
                j = j + 1;
            }
        }
        proof {
            if well_formed_block(d) {
                if j < b {
                    lemma_entry_offset_increasing(es, j, b);
                }
                assert forall|i: int| 0 <= i < es.len() implies #[trigger] es[i].0 != target@ by {
                    if i < b {
                        crate::bytes::lemma_lex_order(es[i].0, target@, target@);
                    } else if i == b {
                        crate::bytes::lemma_lex_order(target@, es[b].0, es[b].0);
                    } else {
                        assert(lex_lt(es[b].0, es[i].0));
                        crate::bytes::lemma_lex_order(target@, es[b].0, es[i].0);
                        crate::bytes::lemma_lex_order(target@, es[i].0, es[i].0);
                    }
                }
            }
        }
        Ok(None)
    }
}

/// The trailer of a builder's image: its count, and each restart offset where the
/// entries end.
proof fn lemma_image_trailer(b: BlockBuilder)
    requires
        b.wf(),
    ensures
        trailer_ok(b.image()),
        restart_count(b.image()) == b.restart_points@.len(),
        entries_end(b.image()) == b.data@.len(),
        b.image().len() == b.size_spec(),
        forall|k: int|
            0 <= k < b.restart_points@.len() ==> restart_at(b.image(), k)
                == #[trigger] b.restart_points@[k] as int,
{
    let rp = b.restart_points@;
    let n = rp.len() as int;
    let d = b.image();
    let base = b.data@.len() as int;
    lemma_encode_restarts(rp);
    assert(d.subrange(d.len() - 4, d.len() as int) =~= u32_le(n as u32));
    crate::bytes::lemma_u32_le_read(n as u32, d, d.len() - 4);
    assert forall|k: int| 0 <= k < n implies restart_at(d, k) == #[trigger] rp[k] as int by {
        let rs = encode_restarts(rp);
        assert(d.subrange(base + 4 * k, base + 4 * k + 4) =~= rs.subrange(4 * k, 4 * k + 4));
        crate::bytes::lemma_u32_le_read(rp[k], d, base + 4 * k);
    }
}

/// The restart offsets of a builder's image mark its entries, ascending from 0.
proof fn lemma_image_restarts(b: BlockBuilder)
    requires
        b.wf(),
    ensures
        restarts_ok(b.image(), b@),
{
    let es = b@;
    let d = b.image();
    let rp = b.restart_points@;
    lemma_image_trailer(b);
    assert(es.take(0) =~= Seq::<BlockEntry>::empty());
    assert(restart_at(d, 0) == rp[0] as int);
    assert forall|i: int| 0 < i < restart_count(d) implies restart_at(d, i - 1) < #[trigger] restart_at(
        d,
        i,
    ) by {
        assert(rp[i - 1] as int == entry_offset(es, (i - 1) * 16));
        assert(rp[i] as int == entry_offset(es, i * 16));
        lemma_entry_offset_increasing(es, (i - 1) * 16, i * 16);
    }
    if es.len() > 0 {
        assert forall|i: int| 0 <= i < restart_count(d) implies exists|j: int|
            0 <= j < es.len() && entry_offset(es, j) == #[trigger] restart_at(d, i) by {
            assert(rp[i] as int == entry_offset(es, i * 16));
        }
    }
}

/// The block that a builder of strictly ascending keys seals is well formed and holds
/// exactly the entries added, in the order added; a lookup in it or in a block loaded
/// from its bytes therefore finds each of them.
pub proof fn lemma_block_round_trip(b: BlockBuilder)
    requires
        b.wf(),
        sorted_keys(b@),
    ensures
        well_formed_block(b.image()),
        block_entries(b.image()) == Some(b@),
        well_formed_block(block_image(b@)),
        block_entries(block_image(b@)) == Some(b@),
        entry_offset(b@, 0) == 0,
{
    b.lemma_image();
    assert(b@.take(0) =~= Seq::<BlockEntry>::empty());
    let es = b@;
    let d = b.image();
    lemma_image_trailer(b);
    assert(d.subrange(0, b.data@.len() as int) =~= encode_entries(es));
    lemma_parse_encoded(es, d, 0);
    lemma_image_restarts(b);
}

} // verus!
