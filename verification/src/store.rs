//! A content-addressed block store.
//!
//! Blocks are keyed by a [`Cid`]: a codec tag plus a 64-bit FNV-1a digest of
//! the codec tag's eight little-endian bytes followed by the block bytes —
//! the store's fixed hash algorithm. Raw blocks hold opaque bytes; node
//! blocks hold a structured encoding together with their outbound
//! references. Large byte strings are chunked into raw leaf blocks linked
//! from one node block.

use vstd::prelude::*;

use crate::codec::{codec_code, Codec};
use crate::error::{StoreError, StoreResult};

verus! {

/// A content identifier: the block's codec and its digest.
#[derive(Debug, Clone, Copy, PartialEq, Eq, Hash, Structural)]
pub struct Cid {
    /// The codec the block was written under.
    pub codec: Codec,
    /// The FNV-1a digest of the codec tag bytes followed by the block bytes.
    pub hash: u64,
}

/// The FNV-1a offset basis.
pub const FNV_OFFSET_BASIS: u64 = 0xcbf29ce484222325;

/// The FNV-1a 64-bit prime.
pub const FNV_PRIME: u64 = 0x100000001b3;

/// One FNV-1a step: fold a byte into the running digest.
pub open spec fn fnv1a_step(h: u64, b: u8) -> u64 {
    vstd::wrapping::u64_specs::wrapping_mul(h ^ (b as u64), FNV_PRIME as u64)
}

/// The running FNV-1a digest after folding in `bytes`.
pub open spec fn fnv1a_extend(h: u64, bytes: Seq<u8>) -> u64
    decreases bytes.len(),
{
    if bytes.len() == 0 {
        h
    } else {
        fnv1a_extend(fnv1a_step(h, bytes[0]), bytes.drop_first())
    }
}

/// The `k`-th little-endian byte of `x`.
pub open spec fn le_byte(x: u64, k: nat) -> u8
    decreases k,
{
    if k == 0 {
        (x % 256) as u8
    } else {
        le_byte(x / 256, (k - 1) as nat)
    }
}

/// The eight little-endian bytes of `x`.
pub open spec fn le_bytes8(x: u64) -> Seq<u8> {
    Seq::new(8, |k: int| le_byte(x, k as nat))
}

/// The digest a block is stored under: FNV-1a over the codec tag's eight
/// little-endian bytes, then the block bytes.
pub open spec fn digest_spec(codec: Codec, bytes: Seq<u8>) -> u64 {
    fnv1a_extend(fnv1a_extend(FNV_OFFSET_BASIS as u64, le_bytes8(codec_code(codec))), bytes)
}

/// The content identifier of a block.
pub open spec fn cid_spec(codec: Codec, bytes: Seq<u8>) -> Cid {
    Cid { codec, hash: digest_spec(codec, bytes) }
}

/// Folds the bytes of a slice into a running FNV-1a digest.
fn fnv1a_bytes(h0: u64, bytes: &[u8]) -> (r: u64)
    ensures
        r == fnv1a_extend(h0, bytes@),
{
    let mut h = h0;
    let mut i: usize = 0;
    proof {
        assert(bytes@.skip(0) =~= bytes@);
    }
    while i < bytes.len()
        invariant
            0 <= i <= bytes@.len(),
            fnv1a_extend(h, bytes@.skip(i as int)) == fnv1a_extend(h0, bytes@),
        decreases bytes@.len() - i,
    {
        proof {
            assert(bytes@.skip(i as int).drop_first() =~= bytes@.skip(i + 1int));
            assert(bytes@.skip(i as int)[0] == bytes@[i as int]);
        }
        h = (h ^ (bytes[i] as u64)).wrapping_mul(FNV_PRIME);
        i += 1;
    }
    proof {
        assert(bytes@.skip(bytes@.len() as int) =~= Seq::<u8>::empty());
    }
    h
}

/// The eight little-endian bytes of `x`, as a vector.
fn le_bytes8_exec(x: u64) -> (r: Vec<u8>)
    ensures
        r@ == le_bytes8(x),
{
    let mut r: Vec<u8> = Vec::new();
    let mut v = x;
    let mut k: usize = 0;
    while k < 8
        invariant
            0 <= k <= 8,
            r@.len() == k,
            forall|j: int| 0 <= j < k ==> r@[j] == le_byte(x, j as nat),
            forall|j: nat| le_byte(v, j) == le_byte(x, (j + k) as nat),
        decreases 8 - k,
    {
        let b = (v % 256) as u8;
        proof {
            assert(le_byte(v, 0) == b);
            assert forall|j: nat| #[trigger] le_byte(v / 256, j) == le_byte(x, (j + k + 1) as nat)
                by {
                assert(le_byte(v, j + 1) == le_byte(x, (j + 1 + k) as nat));
                assert(le_byte(v, j + 1) == le_byte(v / 256, j));
            }
        }
        r.push(b);
        v = v / 256;
        k += 1;
    }
    proof {
        assert(r@ =~= le_bytes8(x));
    }
    r
}

/// A power of 256.
pub open spec fn pow256(k: nat) -> nat
    decreases k,
{
    if k == 0 {
        1nat
    } else {
        256 * pow256((k - 1) as nat)
    }
}

/// The value of a little-endian byte string.
pub open spec fn le_val(s: Seq<u8>) -> nat
    decreases s.len(),
{
    if s.len() == 0 {
        0nat
    } else {
        (s[0] + 256 * le_val(s.drop_first())) as nat
    }
}

/// A little-endian byte string of length `k` holds a value below `256^k`.
pub proof fn lemma_le_val_bound(s: Seq<u8>)
    ensures
        le_val(s) < pow256(s.len()),
    decreases s.len(),
{
    if s.len() > 0 {
        lemma_le_val_bound(s.drop_first());
        assert(le_val(s) == s[0] + 256 * le_val(s.drop_first()));
        assert(s[0] < 256);
        assert(256 * le_val(s.drop_first()) <= 256 * (pow256((s.len() - 1) as nat) - 1))
            by (nonlinear_arith)
            requires
                le_val(s.drop_first()) <= pow256((s.len() - 1) as nat) - 1,
        ;
    }
}

/// Reading back the little-endian bytes of `x` yields `x % 256^k`.
pub proof fn lemma_le_val_le_bytes(x: u64, k: nat)
    ensures
        le_val(Seq::new(k, |j: int| le_byte(x, j as nat))) == (x as nat) % pow256(k),
    decreases k,
{
    let s = Seq::new(k, |j: int| le_byte(x, j as nat));
    if k == 0 {
        assert((x as nat) % 1 == 0);
    } else {
        lemma_le_val_le_bytes(x / 256, (k - 1) as nat);
        lemma_pow256_pos((k - 1) as nat);
        assert(s.drop_first() =~= Seq::new((k - 1) as nat, |j: int| le_byte(x / 256, j as nat)));
        assert(s[0] == le_byte(x, 0) == (x % 256) as u8);
        assert(le_val(s) == (x as nat) % 256 + 256 * (((x / 256) as nat) % pow256((k - 1) as nat)));
        vstd::arithmetic::div_mod::lemma_mod_breakdown(
            x as int,
            256,
            pow256((k - 1) as nat) as int,
        );
        assert(256 * pow256((k - 1) as nat) == pow256(k));
        assert((x as nat) % pow256(k) == 256 * (((x / 256) as nat) % pow256((k - 1) as nat)) + (
        x as nat) % 256);
    }
}

/// Powers of 256 are positive.
pub proof fn lemma_pow256_pos(k: nat)
    ensures
        pow256(k) >= 1,
    decreases k,
{
    if k > 0 {
        lemma_pow256_pos((k - 1) as nat);
    }
}

/// `256^8` written out.
pub proof fn lemma_pow256_8()
    ensures
        pow256(8) == 0x10000000000000000,
{
    reveal_with_fuel(pow256, 9);
}

/// Reads the eight little-endian bytes at `off` as a value.
fn le_val8_exec(bytes: &Vec<u8>, off: usize) -> (r: u64)
    requires
        off + 8 <= bytes@.len(),
    ensures
        r as nat == le_val(bytes@.subrange(off as int, off + 8int)),
{
    let ghost s = bytes@.subrange(off as int, off + 8int);
    let n = bytes.len();
    proof {
        lemma_le_val_bound(s);
        lemma_pow256_8();
    }
    let mut acc: u64 = 0;
    let mut k: usize = 8;
    while k > 0
        invariant
            0 <= k <= 8,
            off + 8 <= bytes@.len(),
            bytes@.len() <= usize::MAX,
            s == bytes@.subrange(off as int, off + 8int),
            acc as nat == le_val(s.skip(k as int)),
            (acc as nat) < pow256((8 - k) as nat),
        decreases k,
    {
        k -= 1;
        let b = bytes[off + k];
        proof {
            assert(s.skip(k as int)[0] == s[k as int] == bytes@[off + k]);
            assert(s.skip(k as int).drop_first() =~= s.skip(k + 1int));
            assert(le_val(s.skip(k as int)) == s[k as int] + 256 * le_val(s.skip(k + 1int)));
            lemma_le_val_bound(s.skip(k as int));
            assert(s.skip(k as int).len() == 8 - k);
            assert(pow256((8 - k) as nat) <= pow256(8)) by {
                lemma_pow256_increases((8 - k) as nat, 8);
            }
            lemma_pow256_8();
        }
        acc = (b as u64) + 256 * acc;
        proof {
            assert((acc as nat) < pow256((8 - k) as nat));
        }
    }
    proof {
        assert(s.skip(0) =~= s);
    }
    acc
}

/// `256^a` divides `256^b` upward: powers of 256 never shrink.
pub proof fn lemma_pow256_increases(a: nat, b: nat)
    requires
        a <= b,
    ensures
        pow256(a) <= pow256(b),
    decreases b,
{
    if a < b {
        lemma_pow256_increases(a, (b - 1) as nat);
        assert(pow256(b) == 256 * pow256((b - 1) as nat));
        assert(pow256((b - 1) as nat) <= 256 * pow256((b - 1) as nat)) by (nonlinear_arith)
            requires
                pow256((b - 1) as nat) >= 0,
        ;
    }
}

/// Computes the content identifier of a block.
fn compute_cid(codec: Codec, bytes: &[u8]) -> (c: Cid)
    ensures
        c == cid_spec(codec, bytes@),
{
    let tag = le_bytes8_exec(codec.to_code());
    let h1 = fnv1a_bytes(FNV_OFFSET_BASIS, tag.as_slice());
    let h = fnv1a_bytes(h1, bytes);
    Cid { codec, hash: h }
}

/// What the store holds under one content identifier.
pub ghost struct BlockData {
    /// The block's bytes.
    pub bytes: Seq<u8>,
    /// The block's outbound references; empty for raw blocks.
    pub links: Seq<Cid>,
}

/// One stored block.
pub struct BlockEntry {
    /// The block's content identifier.
    pub cid: Cid,
    /// The block's bytes.
    pub bytes: Vec<u8>,
    /// The block's outbound references; empty for raw blocks.
    pub links: Vec<Cid>,
}

/// The blocks of an entry list, as a map from identifier to data; a later
/// entry with the same identifier wins.
pub open spec fn entries_blocks(s: Seq<BlockEntry>) -> Map<Cid, BlockData>
    decreases s.len(),
{
    if s.len() == 0 {
        Map::<Cid, BlockData>::empty()
    } else {
        entries_blocks(s.drop_last()).insert(
            s.last().cid,
            BlockData { bytes: s.last().bytes@, links: s.last().links@ },
        )
    }
}

/// An identifier is in the block map exactly when some entry carries it.
pub proof fn lemma_entries_blocks_contains(s: Seq<BlockEntry>, c: Cid)
    ensures
        entries_blocks(s).contains_key(c) <==> exists|i: int| 0 <= i < s.len() && s[i].cid == c,
    decreases s.len(),
{
    if s.len() > 0 {
        lemma_entries_blocks_contains(s.drop_last(), c);
        if s.last().cid == c {
            assert(s[s.len() - 1].cid == c);
        } else if entries_blocks(s).contains_key(c) {
            let i = choose|i: int| 0 <= i < s.drop_last().len() && s.drop_last()[i].cid == c;
            assert(s[i].cid == c);
        } else if exists|i: int| 0 <= i < s.len() && s[i].cid == c {
            let i = choose|i: int| 0 <= i < s.len() && s[i].cid == c;
            assert(s.drop_last()[i].cid == c);
        }
    }
}

/// With no duplicate identifiers, each entry is what its identifier maps to.
pub proof fn lemma_entries_blocks_get(s: Seq<BlockEntry>, i: int)
    requires
        0 <= i < s.len(),
        forall|a: int, b: int| 0 <= a < b < s.len() ==> s[a].cid != s[b].cid,
    ensures
        entries_blocks(s).contains_key(s[i].cid),
        entries_blocks(s)[s[i].cid] == (BlockData { bytes: s[i].bytes@, links: s[i].links@ }),
    decreases s.len(),
{
    if i == s.len() - 1 {
    } else {
        lemma_entries_blocks_get(s.drop_last(), i);
        assert(s.drop_last()[i] == s[i]);
        assert(s.last().cid != s[i].cid);
    }
}

/// With no duplicate identifiers, the block map is as large as the entry
/// list.
pub proof fn lemma_entries_blocks_len(s: Seq<BlockEntry>)
    requires
        forall|a: int, b: int| 0 <= a < b < s.len() ==> s[a].cid != s[b].cid,
    ensures
        entries_blocks(s).len() == s.len(),
        entries_blocks(s).dom().finite(),
    decreases s.len(),
{
    if s.len() > 0 {
        lemma_entries_blocks_len(s.drop_last());
        lemma_entries_blocks_contains(s.drop_last(), s.last().cid);
        assert(forall|i: int|
            0 <= i < s.drop_last().len() ==> s.drop_last()[i] == s[i] && s[i].cid != s.last().cid);
        assert(!entries_blocks(s.drop_last()).contains_key(s.last().cid));
    }
}

/// Updating the entry that carries an identifier updates the block map at
/// that identifier.
pub proof fn lemma_entries_blocks_update(s: Seq<BlockEntry>, k: int, e: BlockEntry)
    requires
        0 <= k < s.len(),
        e.cid == s[k].cid,
        forall|a: int, b: int| 0 <= a < b < s.len() ==> s[a].cid != s[b].cid,
    ensures
        entries_blocks(s.update(k, e)) == entries_blocks(s).insert(
            e.cid,
            BlockData { bytes: e.bytes@, links: e.links@ },
        ),
    decreases s.len(),
{
    let data = BlockData { bytes: e.bytes@, links: e.links@ };
    if k == s.len() - 1 {
        assert(s.update(k, e).drop_last() =~= s.drop_last());
        assert(s.update(k, e).last() == e);
        assert(entries_blocks(s.update(k, e)) =~= entries_blocks(s).insert(e.cid, data));
    } else {
        assert(s.update(k, e).drop_last() =~= s.drop_last().update(k, e));
        assert(s.update(k, e).last() == s.last());
        assert(forall|a: int, b: int|
            0 <= a < b < s.drop_last().len() ==> s.drop_last()[a].cid != s.drop_last()[b].cid);
        lemma_entries_blocks_update(s.drop_last(), k, e);
        assert(s.last().cid != e.cid);
        assert(entries_blocks(s.update(k, e)) =~= entries_blocks(s).insert(e.cid, data));
    }
}

/// Whether a size is within an optional limit.
pub open spec fn within_limit(limit: Option<u64>, n: nat) -> bool {
    match limit {
        Option::Some(m) => n <= m,
        Option::None => true,
    }
}

/// What putting a raw block does: the resulting identifier and block map.
pub open spec fn put_raw_spec(m: Map<Cid, BlockData>, bytes: Seq<u8>) -> (Map<Cid, BlockData>, Cid) {
    let cid = cid_spec(Codec::Raw, bytes);
    (m.insert(cid, BlockData { bytes, links: Seq::<Cid>::empty() }), cid)
}

/// What getting a raw block returns: the bytes under the identifier, if any.
pub open spec fn get_raw_spec(m: Map<Cid, BlockData>, cid: Cid) -> Option<Seq<u8>> {
    if m.contains_key(cid) {
        Some(m[cid].bytes)
    } else {
        Option::None
    }
}

/// Putting a raw block and getting it back returns exactly the bytes put,
/// under exactly the identifier the put returned — and the identifier is a
/// function of the bytes alone, so a second put returns the same one.
pub proof fn lemma_raw_block_round_trip(m: Map<Cid, BlockData>, bytes: Seq<u8>)
    ensures
        get_raw_spec(put_raw_spec(m, bytes).0, put_raw_spec(m, bytes).1) == Some(bytes),
        put_raw_spec(m, bytes).1 == put_raw_spec(put_raw_spec(m, bytes).0, bytes).1,
{
}

/// An in-memory content-addressed block store.
pub struct MemoryIpldStore {
    /// The stored blocks, one entry per identifier.
    pub entries: Vec<BlockEntry>,
    /// The largest accepted raw block, if bounded.
    pub raw_block_max_size: Option<u64>,
    /// The largest accepted node block, if bounded.
    pub node_block_max_size: Option<u64>,
    /// The chunk size used when storing byte streams.
    pub chunk_size: u64,
}

impl MemoryIpldStore {
    /// Well-formedness: identifiers are unique, every entry's identifier is
    /// the digest of its bytes, and the chunk size is positive and within
    /// the raw block limit.
    pub open spec fn inv(self) -> bool {
        &&& forall|a: int, b: int|
            0 <= a < b < self.entries@.len() ==> self.entries@[a].cid != self.entries@[b].cid
        &&& forall|i: int|
            0 <= i < self.entries@.len() ==> #[trigger] self.entries@[i].cid == cid_spec(
                self.entries@[i].cid.codec,
                self.entries@[i].bytes@,
            )
        &&& self.chunk_size >= 1
        &&& within_limit(self.raw_block_max_size, self.chunk_size as nat)
    }

    /// The stored blocks, by identifier.
    pub open spec fn blocks(self) -> Map<Cid, BlockData> {
        entries_blocks(self.entries@)
    }

    /// The store's configuration, which operations never change.
    pub open spec fn same_config(self, other: MemoryIpldStore) -> bool {
        self.raw_block_max_size == other.raw_block_max_size && self.node_block_max_size
            == other.node_block_max_size && self.chunk_size == other.chunk_size
    }

    /// Creates an empty store with the given size limits and chunk size.
    pub fn new(raw_block_max_size: Option<u64>, node_block_max_size: Option<u64>, chunk_size: u64)
        -> (r: MemoryIpldStore)
        requires
            chunk_size >= 1,
            within_limit(raw_block_max_size, chunk_size as nat),
        ensures
            r.inv(),
            r.blocks() =~= Map::<Cid, BlockData>::empty(),
            r.raw_block_max_size == raw_block_max_size,
            r.node_block_max_size == node_block_max_size,
            r.chunk_size == chunk_size,
    {
        MemoryIpldStore { entries: Vec::new(), raw_block_max_size, node_block_max_size, chunk_size }
    }

    /// The raw block size limit, if any.
    pub fn get_raw_block_max_size(&self) -> (r: Option<u64>)
        ensures
            r == self.raw_block_max_size,
    {
        self.raw_block_max_size
    }

    /// The node block size limit, if any.
    pub fn get_node_block_max_size(&self) -> (r: Option<u64>)
        ensures
            r == self.node_block_max_size,
    {
        self.node_block_max_size
    }

    /// Finds the entry carrying an identifier.
    fn find(&self, cid: &Cid) -> (r: Option<usize>)
        ensures
            match r {
                Option::Some(i) => i < self.entries@.len() && self.entries@[i as int].cid == *cid,
                Option::None => forall|i: int|
                    0 <= i < self.entries@.len() ==> self.entries@[i].cid != *cid,
            },
    {
        let mut i: usize = 0;
        while i < self.entries.len()
            invariant
                0 <= i <= self.entries@.len(),
                forall|j: int| 0 <= j < i ==> self.entries@[j].cid != *cid,
            decreases self.entries@.len() - i,
        {
            let e = &self.entries[i];
            if e.cid.hash == cid.hash && e.cid.codec.to_code() == cid.codec.to_code() {
                proof {
                    crate::codec::lemma_codec_round_trip(e.cid.codec);
                }
                return Option::Some(i);
            }
            i += 1;
        }
        Option::None
    }

    /// Whether the store holds a block with this identifier.
    pub fn has(&self, cid: &Cid) -> (r: bool)
        ensures
            r == self.blocks().contains_key(*cid),
    {
        proof {
            lemma_entries_blocks_contains(self.entries@, *cid);
        }
        match self.find(cid) {
            Option::Some(_) => true,
            Option::None => false,
        }
    }

    /// The number of blocks in the store.
    pub fn get_block_count(&self) -> (r: u64)
        requires
            self.inv(),
            self.entries@.len() <= u64::MAX,
        ensures
            r as nat == self.blocks().len(),
    {
        proof {
            lemma_entries_blocks_len(self.entries@);
        }
        self.entries.len() as u64
    }

    /// Whether the store is empty.
    pub fn is_empty(&self) -> (r: bool)
        requires
            self.inv(),
        ensures
            r == (self.blocks().len() == 0),
    {
        proof {
            lemma_entries_blocks_len(self.entries@);
        }
        self.entries.len() == 0
    }

    /// Saves bytes as a single raw block and returns its identifier.
    ///
    /// Fails with `RawBlockTooLarge`, leaving the store unchanged, exactly
    /// when the bytes exceed the raw block size limit. Putting the same
    /// bytes twice yields the same identifier and does not grow the store.
    pub fn put_raw_block(&mut self, bytes: Vec<u8>) -> (r: StoreResult<Cid>)
        requires
            old(self).inv(),
        ensures
            final(self).inv(),
            final(self).same_config(*old(self)),
            r is Ok <==> within_limit(old(self).raw_block_max_size, bytes@.len()),
            r matches Result::Ok(cid) ==> (final(self).blocks(), cid) == put_raw_spec(
                old(self).blocks(),
                bytes@,
            ),
            r is Err ==> *final(self) == *old(self) && r == StoreResult::<Cid>::Err(
                StoreError::RawBlockTooLarge,
            ),
    {
        match self.raw_block_max_size {
            Option::Some(m) => {
                if bytes.len() as u64 > m {
                    return Result::Err(StoreError::RawBlockTooLarge);
                }
            },
            Option::None => {},
        }
        let cid = compute_cid(Codec::Raw, bytes.as_slice());
        match self.find(&cid) {
            Option::Some(k) => {
                let e = BlockEntry { cid, bytes, links: Vec::new() };
                proof {
                    lemma_entries_blocks_update(self.entries@, k as int, e);
                }
                self.entries[k] = e;
                Result::Ok(cid)
            },
            Option::None => {
                let ghost pre = self.entries@;
                self.entries.push(BlockEntry { cid, bytes, links: Vec::new() });
                proof {
                    assert(self.entries@.drop_last() =~= pre);
                }
                Result::Ok(cid)
            },
        }
    }

    /// Retrieves the bytes of a single block by its identifier.
    ///
    /// Fails with `BlockNotFound` exactly when the store holds no block
    /// with this identifier.
    pub fn get_raw_block(&self, cid: &Cid) -> (r: StoreResult<Vec<u8>>)
        requires
            self.inv(),
        ensures
            match r {
                Result::Ok(b) => get_raw_spec(self.blocks(), *cid) == Some(b@),
                Result::Err(e) => get_raw_spec(self.blocks(), *cid) is None && e
                    == StoreError::BlockNotFound,
            },
    {
        proof {
            lemma_entries_blocks_contains(self.entries@, *cid);
        }
        match self.find(cid) {
            Option::Some(k) => {
                proof {
                    lemma_entries_blocks_get(self.entries@, k as int);
                }
                Result::Ok(clone_bytes(&self.entries[k].bytes))
            },
            Option::None => Result::Err(StoreError::BlockNotFound),
        }
    }

    /// Saves an already-serialized node block with its outbound references
    /// and returns its identifier.
    ///
    /// Fails with `NodeBlockTooLarge`, leaving the store unchanged, exactly
    /// when the bytes exceed the node block size limit.
    pub fn put_node_bytes(&mut self, codec: Codec, bytes: Vec<u8>, links: Vec<Cid>) -> (r:
        StoreResult<Cid>)
        requires
            old(self).inv(),
        ensures
            final(self).inv(),
            final(self).same_config(*old(self)),
            r is Ok <==> within_limit(old(self).node_block_max_size, bytes@.len()),
            r matches Result::Ok(cid) ==> cid == cid_spec(codec, bytes@) && final(self).blocks()
                == old(self).blocks().insert(
                cid,
                BlockData { bytes: bytes@, links: links@ },
            ),
            r is Err ==> *final(self) == *old(self) && r == StoreResult::<Cid>::Err(
                StoreError::NodeBlockTooLarge,
            ),
    {
        match self.node_block_max_size {
            Option::Some(m) => {
                if bytes.len() as u64 > m {
                    return Result::Err(StoreError::NodeBlockTooLarge);
                }
            },
            Option::None => {},
        }
        let cid = compute_cid(codec, bytes.as_slice());
        match self.find(&cid) {
            Option::Some(k) => {
                let e = BlockEntry { cid, bytes, links };
                proof {
                    lemma_entries_blocks_update(self.entries@, k as int, e);
                }
                self.entries[k] = e;
                Result::Ok(cid)
            },
            Option::None => {
                let ghost pre = self.entries@;
                self.entries.push(BlockEntry { cid, bytes, links });
                proof {
                    assert(self.entries@.drop_last() =~= pre);
                }
                Result::Ok(cid)
            },
        }
    }

    /// Saves a byte string: chunks it into raw leaf blocks of at most the
    /// store's chunk size, then writes one node block linking the chunks in
    /// order, and returns the node's identifier.
    ///
    /// Fails with `NodeBlockTooLarge` exactly when the node encoding
    /// exceeds the node block size limit; the leaf blocks are already
    /// stored by then and remain.
    pub fn put_bytes(&mut self, data: &[u8]) -> (r: StoreResult<Cid>)
        requires
            old(self).inv(),
            data@.len() <= 0x0FFF_0000,
        ensures
            final(self).inv(),
            final(self).same_config(*old(self)),
            r is Ok <==> within_limit(
                old(self).node_block_max_size,
                (16 + 16 * chunks_of(data@, old(self).chunk_size as nat).len()) as nat,
            ),
            r matches Result::Ok(cid) ==> (final(self).blocks(), cid) == put_bytes_spec(
                old(self).blocks(),
                data@,
                old(self).chunk_size as nat,
            ),
            r is Err ==> final(self).blocks() == put_chunks(
                old(self).blocks(),
                chunks_of(data@, old(self).chunk_size as nat),
            ) && r == StoreResult::<Cid>::Err(StoreError::NodeBlockTooLarge),
    {
        let ghost cs = self.chunk_size as nat;
        let ghost chunks = chunks_of(data@, cs);
        let ghost m0 = old(self).blocks();
        proof {
            lemma_chunks_shape(data@, cs);
        }
        let n = data.len();
        let mut kids: Vec<Cid> = Vec::new();
        let mut pos: usize = 0;
        let mut done_first = false;
        while !done_first || pos < n
            invariant
                old(self).inv(),
                self.inv(),
                self.same_config(*old(self)),
                cs == self.chunk_size as nat,
                cs >= 1,
                chunks == chunks_of(data@, cs),
                m0 == old(self).blocks(),
                n == data@.len(),
                n <= 0x0FFF_0000,
                0 <= pos <= n,
                kids@.len() <= chunks.len(),
                kids@ == chunk_cids(chunks).take(kids@.len() as int),
                self.blocks() == put_chunks(m0, chunks.take(kids@.len() as int)),
                !done_first ==> pos == 0 && kids@.len() == 0,
                done_first ==> pos > 0 || n == 0,
                done_first ==> (if pos < n {
                    chunks.skip(kids@.len() as int) =~= chunks_of(data@.skip(pos as int), cs)
                        && kids@.len() < chunks.len()
                } else {
                    kids@.len() == chunks.len()
                }),
            decreases 2 * (n - pos) + (if done_first { 0int } else { 1int }),
        {
            let ghost k = kids@.len() as int;
            let ghost rest = data@.skip(pos as int);
            proof {
                if !done_first {
                    assert(data@.skip(0) =~= data@);
                    assert(chunks.skip(0) =~= chunks);
                }
            }
            let remaining = n - pos;
            let step: usize = if (self.chunk_size as u64) < (remaining as u64) {
                self.chunk_size as usize
            } else {
                remaining
            };
            let chunk = vstd::slice::slice_to_vec(vstd::slice::slice_subrange(
                data,
                pos,
                pos + step,
            ));
            let ghost chunk_view = chunk@;
            proof {
                if step < remaining {
                    // a full chunk: the spec splits here
                    assert(rest.len() > cs);
                    assert(rest.take(cs as int) =~= data@.subrange(pos as int, pos + step));
                    assert(rest.skip(cs as int) =~= data@.skip(pos + step));
                    assert(chunks_of(rest, cs) == seq![chunk_view] + chunks_of(
                        data@.skip(pos + step),
                        cs,
                    ));
                } else {
                    // the final chunk takes the rest
                    assert(rest.len() <= cs);
                    assert(rest =~= data@.subrange(pos as int, pos + step));
                    assert(chunks_of(rest, cs) == seq![chunk_view]);
                }
                assert(chunks.skip(k) == chunks_of(rest, cs));
                assert(chunks.skip(k)[0] == chunk_view);
                assert(chunks[k] == chunk_view);
            }
            let ghost pre_blocks = self.blocks();
            match self.put_raw_block(chunk) {
                Result::Ok(cid) => {
                    kids.push(cid);
                    proof {
                        assert(chunks.take(k + 1).drop_last() =~= chunks.take(k));
                        assert(chunks.take(k + 1).last() == chunks[k]);
                        assert(self.blocks() == put_chunks(m0, chunks.take(k + 1)));
                        assert(kids@ =~= chunk_cids(chunks).take(k + 1));
                    }
                },
                Result::Err(_) => {
                    proof {
                        assert(chunk_view.len() <= cs);
                        assert(within_limit(self.raw_block_max_size, chunk_view.len()));
                        assert(false);
                    }
                    return Result::Err(StoreError::NodeBlockTooLarge);
                },
            }
            pos = pos + step;
            done_first = true;
            proof {
                if pos < n {
                    assert(chunks.skip(k + 1) =~= chunks_of(data@.skip(pos as int), cs)) by {
                        assert(chunks.skip(k) == seq![chunk_view] + chunks_of(
                            data@.skip(pos as int),
                            cs,
                        ));
                        assert(chunks.skip(k).drop_first() =~= chunks.skip(k + 1));
                        assert((seq![chunk_view] + chunks_of(
                            data@.skip(pos as int),
                            cs,
                        )).drop_first() =~= chunks_of(data@.skip(pos as int), cs));
                    }
                    assert(kids@.len() < chunks.len());
                } else {
                    assert(chunks.skip(k) == seq![chunk_view]);
                    assert(chunks.len() == k + 1);
                }
            }
        }
        proof {
            assert(chunks.take(chunks.len() as int) =~= chunks);
            assert(kids@ == chunk_cids(chunks));
        }
        let total = n as u64;
        let node_bytes = node_encode(total, &kids);
        proof {
            assert(node_bytes@.len() == 16 + 16 * chunks.len());
        }
        let ghost mid_blocks = self.blocks();
        match self.put_node_bytes(Codec::DagCbor, node_bytes, kids) {
            Result::Ok(cid) => Result::Ok(cid),
            Result::Err(e) => Result::Err(e),
        }
    }

    /// Reads back all the bytes a content identifier denotes: a raw block's
    /// own bytes, or the concatenation of a node block's raw leaves.
    ///
    /// Fails with `BlockNotFound` exactly when the identifier denotes no
    /// readable content here: the block is absent, or it is a node whose
    /// encoding or leaves are not intact.
    pub fn read_all(&self, cid: &Cid) -> (r: StoreResult<Vec<u8>>)
        requires
            self.inv(),
        ensures
            match r {
                Result::Ok(b) => read_all_spec(self.blocks(), *cid) == Some(b@),
                Result::Err(e) => read_all_spec(self.blocks(), *cid) is None && e
                    == StoreError::BlockNotFound,
            },
    {
        proof {
            lemma_entries_blocks_contains(self.entries@, *cid);
        }
        let k = match self.find(cid) {
            Option::Some(k) => k,
            Option::None => {
                return Result::Err(StoreError::BlockNotFound);
            },
        };
        proof {
            lemma_entries_blocks_get(self.entries@, k as int);
        }
        let is_raw = match cid.codec {
            Codec::Raw => true,
            _ => false,
        };
        if is_raw {
            return Result::Ok(clone_bytes(&self.entries[k].bytes));
        }
        let decoded = match node_decode(&self.entries[k].bytes) {
            Option::Some(p) => p,
            Option::None => {
                return Result::Err(StoreError::BlockNotFound);
            },
        };
        let total = decoded.0;
        let kids = decoded.1;
        let mut out: Vec<u8> = Vec::new();
        let mut i: usize = 0;
        proof {
            assert(kids@.take(0) =~= Seq::<Cid>::empty());
            assert(cat_leaves(self.blocks(), kids@.take(0)) == Some(out@));
        }
        while i < kids.len()
            invariant
                self.inv(),
                0 <= i <= kids@.len(),
                self.blocks().contains_key(*cid),
                cid.codec != Codec::Raw,
                node_decode_spec(self.blocks()[*cid].bytes) == Some((total, kids@)),
                cat_leaves(self.blocks(), kids@.take(i as int)) == Some(out@),
            decreases kids@.len() - i,
        {
            proof {
                lemma_entries_blocks_contains(self.entries@, kids@[i as int]);
                assert(kids@.take(i + 1int).drop_last() =~= kids@.take(i as int));
                assert(kids@.take(i + 1int).last() == kids@[i as int]);
            }
            let kid = kids[i];
            let is_kid_raw = match kid.codec {
                Codec::Raw => true,
                _ => false,
            };
            if !is_kid_raw {
                proof {
                    lemma_cat_leaves_none(self.blocks(), kids@, i as int);
                }
                return Result::Err(StoreError::BlockNotFound);
            }
            match self.find(&kid) {
                Option::Some(j) => {
                    proof {
                        lemma_entries_blocks_get(self.entries@, j as int);
                    }
                    let leaf = &self.entries[j].bytes;
                    push_bytes(&mut out, leaf);
                },
                Option::None => {
                    proof {
                        lemma_cat_leaves_none(self.blocks(), kids@, i as int);
                    }
                    return Result::Err(StoreError::BlockNotFound);
                },
            }
            i += 1;
        }
        proof {
            assert(kids@.take(kids@.len() as int) =~= kids@);
        }
        Result::Ok(out)
    }

    /// The size of the content a content identifier denotes: a raw block's
    /// own length, or the total recorded in a node block.
    ///
    /// Fails with `BlockNotFound` exactly when the block is absent or is a
    /// node whose encoding is not intact.
    pub fn get_bytes_size(&self, cid: &Cid) -> (r: StoreResult<u64>)
        requires
            self.inv(),
        ensures
            match r {
                Result::Ok(sz) => bytes_size_spec(self.blocks(), *cid) == Some(sz),
                Result::Err(e) => bytes_size_spec(self.blocks(), *cid) is None && e
                    == StoreError::BlockNotFound,
            },
    {
        proof {
            lemma_entries_blocks_contains(self.entries@, *cid);
        }
        let k = match self.find(cid) {
            Option::Some(k) => k,
            Option::None => {
                return Result::Err(StoreError::BlockNotFound);
            },
        };
        proof {
            lemma_entries_blocks_get(self.entries@, k as int);
        }
        let is_raw = match cid.codec {
            Codec::Raw => true,
            _ => false,
        };
        if is_raw {
            let b = &self.entries[k].bytes;
            let n = b.len();
            proof {
                lemma_pow256_8();
            }
            return Result::Ok(n as u64);
        }
        match node_decode(&self.entries[k].bytes) {
            Option::Some(p) => Result::Ok(p.0),
            Option::None => Result::Err(StoreError::BlockNotFound),
        }
    }
}

/// Where one leaf of a run is missing or is not raw, the whole run reads as
/// nothing.
proof fn lemma_cat_leaves_none(m: Map<Cid, BlockData>, kids: Seq<Cid>, i: int)
    requires
        0 <= i < kids.len(),
        !(kids[i].codec == Codec::Raw && m.contains_key(kids[i])),
    ensures
        cat_leaves(m, kids) is None,
    decreases kids.len(),
{
    if kids.len() > 0 {
        if i < kids.len() - 1 {
            assert(kids.drop_last()[i] == kids[i]);
            lemma_cat_leaves_none(m, kids.drop_last(), i);
        }
    }
}

/// Copies a byte vector.
fn clone_bytes(v: &Vec<u8>) -> (r: Vec<u8>)
    ensures
        r@ == v@,
{
    let r = v.clone();
    proof {
        assert forall|i: int| 0 <= i < v@.len() implies r@[i] == v@[i] by {
            assert(vstd::pervasive::cloned::<u8>(v[i], r[i]));
        }
        assert(r@ =~= v@);
    }
    r
}

/// Appends the bytes of `src` to `dst`.
fn push_bytes(dst: &mut Vec<u8>, src: &Vec<u8>)
    ensures
        final(dst)@ == old(dst)@ + src@,
{
    dst.extend_from_slice(src.as_slice());
    proof {
        assert forall|i: int| 0 <= i < dst@.len() implies dst@[i] == (old(dst)@ + src@)[i] by {
            if i >= old(dst)@.len() {
                assert(vstd::pervasive::cloned::<u8>(src@[i - old(dst)@.len()], dst@[i]));
            }
        }
        assert(dst@ =~= old(dst)@ + src@);
    }
}

/// The byte at position `p` of a node block encoding: eight little-endian
/// bytes of the total content size, eight of the child count, then sixteen
/// per child — its codec tag and its digest.
pub open spec fn node_byte(total: u64, kids: Seq<Cid>, p: int) -> u8 {
    if p < 8 {
        le_byte(total, p as nat)
    } else if p < 16 {
        le_byte(kids.len() as u64, (p - 8) as nat)
    } else {
        let i = (p - 16) / 16;
        let o = (p - 16) % 16;
        if o < 8 {
            le_byte(codec_code(kids[i].codec), o as nat)
        } else {
            le_byte(kids[i].hash, (o - 8) as nat)
        }
    }
}

/// The encoding of a node block that links `kids` and describes `total`
/// bytes of content.
pub open spec fn node_encode_spec(total: u64, kids: Seq<Cid>) -> Seq<u8> {
    Seq::new(16 + 16 * kids.len(), |p: int| node_byte(total, kids, p))
}

/// The codec tag stored for the `i`-th child of a node block.
pub open spec fn kid_code(bytes: Seq<u8>, i: int) -> u64 {
    le_val(bytes.subrange(16 + 16 * i, 16 + 16 * i + 8)) as u64
}

/// The digest stored for the `i`-th child of a node block.
pub open spec fn kid_hash(bytes: Seq<u8>, i: int) -> u64 {
    le_val(bytes.subrange(16 + 16 * i + 8, 16 + 16 * i + 16)) as u64
}

/// The total size and children of a node block, or `None` where the bytes
/// are not a well-formed node encoding.
pub open spec fn node_decode_spec(bytes: Seq<u8>) -> Option<(u64, Seq<Cid>)> {
    if bytes.len() < 16 {
        Option::None
    } else {
        let total = le_val(bytes.subrange(0, 8)) as u64;
        let count = le_val(bytes.subrange(8, 16));
        if bytes.len() != 16 + 16 * count {
            Option::None
        } else if exists|i: int|
            0 <= i < count && crate::codec::codec_of_code(kid_code(bytes, i)) is None {
            Option::None
        } else {
            Some(
                (
                    total,
                    Seq::new(
                        count,
                        |i: int|
                            Cid {
                                codec: crate::codec::codec_of_code(kid_code(bytes, i)).unwrap(),
                                hash: kid_hash(bytes, i),
                            },
                    ),
                ),
            )
        }
    }
}

/// Encodes a node block.
fn node_encode(total: u64, kids: &Vec<Cid>) -> (r: Vec<u8>)
    requires
        16 + 16 * kids@.len() <= 0xFFFF_FFFF,
    ensures
        r@ == node_encode_spec(total, kids@),
{
    let mut r = le_bytes8_exec(total);
    let cnt = le_bytes8_exec(kids.len() as u64);
    push_bytes(&mut r, &cnt);
    proof {
        assert(forall|p: int| 0 <= p < 16 ==> r@[p] == node_byte(total, kids@, p));
    }
    let mut i: usize = 0;
    while i < kids.len()
        invariant
            0 <= i <= kids@.len(),
            16 + 16 * kids@.len() <= 0xFFFF_FFFF,
            r@.len() == 16 + 16 * i,
            forall|p: int| 0 <= p < r@.len() ==> r@[p] == node_byte(total, kids@, p),
        decreases kids@.len() - i,
    {
        let code_b = le_bytes8_exec(kids[i].codec.to_code());
        push_bytes(&mut r, &code_b);
        let hash_b = le_bytes8_exec(kids[i].hash);
        push_bytes(&mut r, &hash_b);
        proof {
            assert forall|p: int| 16 + 16 * i <= p < 16 + 16 * (i + 1) implies r@[p] == node_byte(
                total,
                kids@,
                p,
            ) by {
                let o = p - 16 - 16 * i;
                vstd::arithmetic::div_mod::lemma_fundamental_div_mod_converse(
                    (p - 16) as int,
                    16,
                    i as int,
                    o,
                );
                if o < 8 {
                    assert(r@[p] == code_b@[o]);
                } else {
                    assert(r@[p] == hash_b@[o - 8]);
                }
            }
        }
        i += 1;
    }
    proof {
        assert(r@ =~= node_encode_spec(total, kids@));
    }
    r
}

/// Decodes a node block.
fn node_decode(bytes: &Vec<u8>) -> (r: Option<(u64, Vec<Cid>)>)
    ensures
        match r {
            Option::Some(p) => node_decode_spec(bytes@) == Some((p.0, p.1@)),
            Option::None => node_decode_spec(bytes@) is None,
        },
{
    let n = bytes.len();
    if n < 16 {
        return Option::None;
    }
    let total = le_val8_exec(bytes, 0);
    let count64 = le_val8_exec(bytes, 8);
    proof {
        assert(bytes@.subrange(0, 8) =~= bytes@.subrange(0int, 0 + 8int));
        assert(bytes@.subrange(8, 16) =~= bytes@.subrange(8int, 8 + 8int));
    }
    let body = n - 16;
    let ghost c = le_val(bytes@.subrange(8, 16));
    proof {
        vstd::arithmetic::div_mod::lemma_fundamental_div_mod(body as int, 16);
    }
    if body % 16 != 0 {
        proof {
            if bytes@.len() == 16 + 16 * c {
                assert(body == 16 * c);
                assert((16 * (c as int)) % 16 == 0) by (nonlinear_arith);
            }
        }
        return Option::None;
    }
    let count = body / 16;
    proof {
        assert(body == 16 * (body / 16) + body % 16);
        assert(n == 16 + 16 * count);
    }
    if count64 != count as u64 {
        proof {
            if bytes@.len() == 16 + 16 * c {
                assert(16 * c == 16 * (count as int));
                assert(c == count) by (nonlinear_arith)
                    requires
                        16 * c == 16 * (count as int),
                ;
            }
        }
        return Option::None;
    }
    let mut kids: Vec<Cid> = Vec::new();
    let mut i: usize = 0;
    while i < count
        invariant
            0 <= i <= count,
            n == bytes@.len(),
            n == 16 + 16 * count,
            kids@.len() == i,
            count == le_val(bytes@.subrange(8, 16)),
            forall|j: int|
                0 <= j < i ==> crate::codec::codec_of_code(kid_code(bytes@, j)) is Some,
            forall|j: int|
                0 <= j < i ==> #[trigger] kids@[j] == (Cid {
                    codec: crate::codec::codec_of_code(kid_code(bytes@, j)).unwrap(),
                    hash: kid_hash(bytes@, j),
                }),
        decreases count - i,
    {
        let code = le_val8_exec(bytes, 16 + 16 * i);
        let hash = le_val8_exec(bytes, 16 + 16 * i + 8);
        proof {
            assert(bytes@.subrange(16 + 16 * i, 16 + 16 * i + 8) =~= bytes@.subrange(
                (16 + 16 * i) as int,
                (16 + 16 * i) + 8int,
            ));
            assert(bytes@.subrange(16 + 16 * i + 8, 16 + 16 * i + 16) =~= bytes@.subrange(
                (16 + 16 * i + 8) as int,
                (16 + 16 * i + 8) + 8int,
            ));
            lemma_le_val_bound(bytes@.subrange(16 + 16 * i, 16 + 16 * i + 8));
            lemma_le_val_bound(bytes@.subrange(16 + 16 * i + 8, 16 + 16 * i + 16));
            lemma_pow256_8();
            assert(code == kid_code(bytes@, i as int));
            assert(hash == kid_hash(bytes@, i as int));
        }
        match Codec::try_from_code(code) {
            Result::Ok(c) => {
                kids.push(Cid { codec: c, hash });
            },
            Result::Err(_) => {
                proof {
                    assert(crate::codec::codec_of_code(kid_code(bytes@, i as int)) is None);
                }
                return Option::None;
            },
        }
        i += 1;
    }
    proof {
        lemma_le_val_bound(bytes@.subrange(0, 8));
        lemma_pow256_8();
        assert(node_decode_spec(bytes@) matches Some(p) && p.0 == total && p.1 =~= kids@);
    }
    Option::Some((total, kids))
}

/// The chunks a byte string is split into: full pieces of `cs` bytes, with
/// whatever remains as the last piece. An empty string is one empty chunk.
pub open spec fn chunks_of(data: Seq<u8>, cs: nat) -> Seq<Seq<u8>>
    decreases data.len(),
{
    if data.len() <= cs || cs < 1 {
        seq![data]
    } else {
        seq![data.take(cs as int)] + chunks_of(data.skip(cs as int), cs)
    }
}

/// The concatenation of a chunk list.
pub open spec fn concat_chunks(chunks: Seq<Seq<u8>>) -> Seq<u8>
    decreases chunks.len(),
{
    if chunks.len() == 0 {
        Seq::<u8>::empty()
    } else {
        concat_chunks(chunks.drop_last()) + chunks.last()
    }
}

/// A single chunk concatenates to itself.
pub proof fn lemma_concat_singleton(x: Seq<u8>)
    ensures
        concat_chunks(seq![x]) == x,
{
    assert(seq![x].drop_last() =~= Seq::<Seq<u8>>::empty());
    assert(seq![x].last() == x);
    assert(concat_chunks(Seq::<Seq<u8>>::empty()) =~= Seq::<u8>::empty());
    assert(concat_chunks(seq![x]) == concat_chunks(seq![x].drop_last()) + seq![x].last());
    assert(Seq::<u8>::empty() + x =~= x);
}

/// Concatenation splits over appending chunk lists.
pub proof fn lemma_concat_append(a: Seq<Seq<u8>>, b: Seq<Seq<u8>>)
    ensures
        concat_chunks(a + b) == concat_chunks(a) + concat_chunks(b),
    decreases b.len(),
{
    if b.len() == 0 {
        assert(a + b =~= a);
        assert(concat_chunks(a) + concat_chunks(b) =~= concat_chunks(a));
    } else {
        lemma_concat_append(a, b.drop_last());
        assert((a + b).drop_last() =~= a + b.drop_last());
        assert((a + b).last() == b.last());
        assert(concat_chunks(a) + concat_chunks(b.drop_last()) + b.last() =~= concat_chunks(a)
            + concat_chunks(b));
    }
}

/// The chunks of a byte string concatenate back to it.
pub proof fn lemma_chunks_concat(data: Seq<u8>, cs: nat)
    ensures
        concat_chunks(chunks_of(data, cs)) == data,
    decreases data.len(),
{
    if data.len() <= cs || cs < 1 {
        lemma_concat_singleton(data);
    } else {
        lemma_chunks_concat(data.skip(cs as int), cs);
        lemma_concat_append(seq![data.take(cs as int)], chunks_of(data.skip(cs as int), cs));
        lemma_concat_singleton(data.take(cs as int));
        assert(data.take(cs as int) + data.skip(cs as int) =~= data);
    }
}

/// A byte string has at least one chunk and at most one more than its
/// length, and every chunk is within the chunk size.
pub proof fn lemma_chunks_shape(data: Seq<u8>, cs: nat)
    requires
        cs >= 1,
    ensures
        1 <= chunks_of(data, cs).len() <= data.len() + 1,
        forall|i: int|
            0 <= i < chunks_of(data, cs).len() ==> #[trigger] chunks_of(data, cs)[i].len() <= cs,
    decreases data.len(),
{
    if data.len() > cs {
        lemma_chunks_shape(data.skip(cs as int), cs);
        let rest = chunks_of(data.skip(cs as int), cs);
        assert(forall|i: int|
            1 <= i < chunks_of(data, cs).len() ==> chunks_of(data, cs)[i] == rest[i - 1]);
    }
}

/// The identifiers of a chunk list's raw leaf blocks.
pub open spec fn chunk_cids(chunks: Seq<Seq<u8>>) -> Seq<Cid> {
    chunks.map_values(|c: Seq<u8>| cid_spec(Codec::Raw, c))
}

/// The block map after storing each chunk as a raw leaf block, in order.
pub open spec fn put_chunks(m: Map<Cid, BlockData>, chunks: Seq<Seq<u8>>) -> Map<Cid, BlockData>
    decreases chunks.len(),
{
    if chunks.len() == 0 {
        m
    } else {
        put_raw_spec(put_chunks(m, chunks.drop_last()), chunks.last()).0
    }
}

/// Whether no two distinct chunks share an identifier: the digest never
/// collides within this chunk list.
pub open spec fn chunks_collision_free(chunks: Seq<Seq<u8>>) -> bool {
    forall|i: int, j: int|
        0 <= i < chunks.len() && 0 <= j < chunks.len() && cid_spec(Codec::Raw, chunks[i])
            == cid_spec(Codec::Raw, chunks[j]) ==> chunks[i] == chunks[j]
}

/// What putting a byte string does: leaves for each chunk, then one node
/// block linking them; the result is the block map and the node's
/// identifier.
pub open spec fn put_bytes_spec(m: Map<Cid, BlockData>, data: Seq<u8>, cs: nat) -> (
    Map<Cid, BlockData>,
    Cid,
) {
    let chunks = chunks_of(data, cs);
    let kids = chunk_cids(chunks);
    let node_bytes = node_encode_spec(data.len() as u64, kids);
    let ncid = cid_spec(Codec::DagCbor, node_bytes);
    (
        put_chunks(m, chunks).insert(ncid, BlockData { bytes: node_bytes, links: kids }),
        ncid,
    )
}

/// The concatenated bytes of a run of raw leaf blocks, or `None` where one
/// is missing or is not raw.
pub open spec fn cat_leaves(m: Map<Cid, BlockData>, kids: Seq<Cid>) -> Option<Seq<u8>>
    decreases kids.len(),
{
    if kids.len() == 0 {
        Some(Seq::<u8>::empty())
    } else {
        match cat_leaves(m, kids.drop_last()) {
            Option::None => Option::None,
            Option::Some(acc) => {
                let k = kids.last();
                if k.codec == Codec::Raw && m.contains_key(k) {
                    Some(acc + m[k].bytes)
                } else {
                    Option::None
                }
            },
        }
    }
}

/// The bytes a content identifier denotes: a raw block's own bytes, or the
/// concatenation of a node block's raw leaves.
pub open spec fn read_all_spec(m: Map<Cid, BlockData>, cid: Cid) -> Option<Seq<u8>> {
    if !m.contains_key(cid) {
        Option::None
    } else if cid.codec == Codec::Raw {
        Some(m[cid].bytes)
    } else {
        match node_decode_spec(m[cid].bytes) {
            Option::None => Option::None,
            Option::Some(p) => cat_leaves(m, p.1),
        }
    }
}

/// The size a content identifier denotes: a raw block's own length, or the
/// total recorded in a node block.
pub open spec fn bytes_size_spec(m: Map<Cid, BlockData>, cid: Cid) -> Option<u64> {
    if !m.contains_key(cid) {
        Option::None
    } else if cid.codec == Codec::Raw {
        Some(m[cid].bytes.len() as u64)
    } else {
        match node_decode_spec(m[cid].bytes) {
            Option::None => Option::None,
            Option::Some(p) => Some(p.0),
        }
    }
}

/// After storing a collision-free chunk list, each leaf identifier maps to
/// its chunk.
proof fn lemma_put_chunks_leaves(m: Map<Cid, BlockData>, chunks: Seq<Seq<u8>>, i: int)
    requires
        chunks_collision_free(chunks),
        0 <= i < chunks.len(),
    ensures
        put_chunks(m, chunks).contains_key(cid_spec(Codec::Raw, chunks[i])),
        put_chunks(m, chunks)[cid_spec(Codec::Raw, chunks[i])] == (BlockData {
            bytes: chunks[i],
            links: Seq::<Cid>::empty(),
        }),
    decreases chunks.len(),
{
    let last = chunks.last();
    if i == chunks.len() - 1 {
    } else {
        assert(chunks_collision_free(chunks.drop_last())) by {
            assert(forall|a: int|
                0 <= a < chunks.drop_last().len() ==> chunks.drop_last()[a] == chunks[a]);
        }
        lemma_put_chunks_leaves(m, chunks.drop_last(), i);
        assert(chunks.drop_last()[i] == chunks[i]);
        if cid_spec(Codec::Raw, last) == cid_spec(Codec::Raw, chunks[i]) {
            assert(last == chunks[i]);
        }
    }
}

/// Putting a byte string and reading it back through its node yields
/// exactly the original bytes and records exactly its length, provided no
/// two distinct chunks collide on their digest.
#[verifier::rlimit(100)]
pub proof fn lemma_put_bytes_round_trip(m: Map<Cid, BlockData>, data: Seq<u8>, cs: nat)
    requires
        cs >= 1,
        data.len() <= u64::MAX,
        16 + 16 * chunks_of(data, cs).len() <= 0xFFFF_FFFF,
        chunks_collision_free(chunks_of(data, cs)),
    ensures
        read_all_spec(put_bytes_spec(m, data, cs).0, put_bytes_spec(m, data, cs).1) == Some(data),
        bytes_size_spec(put_bytes_spec(m, data, cs).0, put_bytes_spec(m, data, cs).1) == Some(
            data.len() as u64,
        ),
{
    let chunks = chunks_of(data, cs);
    let kids = chunk_cids(chunks);
    let node_bytes = node_encode_spec(data.len() as u64, kids);
    let ncid = cid_spec(Codec::DagCbor, node_bytes);
    let m1 = put_chunks(m, chunks);
    let m2 = put_bytes_spec(m, data, cs).0;
    lemma_node_round_trip(data.len() as u64, kids);
    assert(node_decode_spec(m2[ncid].bytes) == Some((data.len() as u64, kids)));
    assert forall|i: int| 0 <= i < kids.len() implies m2.contains_key(#[trigger] kids[i])
        && m2[kids[i]] == (BlockData { bytes: chunks[i], links: Seq::<Cid>::empty() })
        && kids[i].codec == Codec::Raw by {
        lemma_put_chunks_leaves(m, chunks, i);
        assert(kids[i] == cid_spec(Codec::Raw, chunks[i]));
        assert(ncid.codec == Codec::DagCbor && kids[i].codec == Codec::Raw);
        assert(ncid != kids[i]);
    }
    lemma_cat_leaves_of_chunks(m2, chunks);
    lemma_chunks_concat(data, cs);
}

/// Where every leaf of a chunk list is present with its chunk's bytes, the
/// leaves concatenate to the chunk list's concatenation.
proof fn lemma_cat_leaves_of_chunks(m: Map<Cid, BlockData>, chunks: Seq<Seq<u8>>)
    requires
        forall|i: int|
            0 <= i < chunks.len() ==> m.contains_key(#[trigger] chunk_cids(chunks)[i])
                && m[chunk_cids(chunks)[i]] == (BlockData {
                bytes: chunks[i],
                links: Seq::<Cid>::empty(),
            }),
    ensures
        cat_leaves(m, chunk_cids(chunks)) == Some(concat_chunks(chunks)),
    decreases chunks.len(),
{
    let kids = chunk_cids(chunks);
    if chunks.len() > 0 {
        assert(chunk_cids(chunks.drop_last()) =~= kids.drop_last());
        assert(forall|i: int|
            0 <= i < chunks.drop_last().len() ==> chunk_cids(chunks.drop_last())[i] == kids[i]
                && chunks.drop_last()[i] == chunks[i]);
        lemma_cat_leaves_of_chunks(m, chunks.drop_last());
        assert(kids.last() == cid_spec(Codec::Raw, chunks.last()));
        assert(kids.last().codec == Codec::Raw);
        assert(m[kids.last()].bytes == chunks.last());
    }
}

/// Encoding a node block and decoding it back yields the same total size
/// and the same children.
pub proof fn lemma_node_round_trip(total: u64, kids: Seq<Cid>)
    requires
        16 + 16 * kids.len() <= 0xFFFF_FFFF,
    ensures
        node_decode_spec(node_encode_spec(total, kids)) == Some((total, kids)),
{
    let bytes = node_encode_spec(total, kids);
    assert(bytes.subrange(0, 8) =~= Seq::new(8, |j: int| le_byte(total, j as nat)));
    lemma_le_val_le_bytes(total, 8);
    lemma_pow256_8();
    assert(le_val(bytes.subrange(0, 8)) == total);
    assert(bytes.subrange(8, 16) =~= Seq::new(8, |j: int| le_byte(kids.len() as u64, j as nat)));
    lemma_le_val_le_bytes(kids.len() as u64, 8);
    assert(le_val(bytes.subrange(8, 16)) == kids.len());
    assert(bytes.len() == 16 + 16 * kids.len());
    assert forall|i: int| 0 <= i < kids.len() implies kid_code(bytes, i) == codec_code(
        kids[i].codec,
    ) && kid_hash(bytes, i) == kids[i].hash by {
        assert forall|p: int| 16 + 16 * i <= p < 16 + 16 * i + 16 implies #[trigger] bytes[p] == ({
            let o = p - 16 - 16 * i;
            if o < 8 {
                le_byte(codec_code(kids[i].codec), o as nat)
            } else {
                le_byte(kids[i].hash, (o - 8) as nat)
            }
        }) by {
            let o = p - 16 - 16 * i;
            vstd::arithmetic::div_mod::lemma_fundamental_div_mod_converse(
                (p - 16) as int,
                16,
                i,
                o,
            );
        }
        assert(bytes.subrange(16 + 16 * i, 16 + 16 * i + 8) =~= Seq::new(
            8,
            |j: int| le_byte(codec_code(kids[i].codec), j as nat),
        ));
        lemma_le_val_le_bytes(codec_code(kids[i].codec), 8);
        assert(bytes.subrange(16 + 16 * i + 8, 16 + 16 * i + 16) =~= Seq::new(
            8,
            |j: int| le_byte(kids[i].hash, j as nat),
        ));
        lemma_le_val_le_bytes(kids[i].hash, 8);
    }
    assert forall|i: int|
        0 <= i < kids.len() implies crate::codec::codec_of_code(kid_code(bytes, i)) == Some(
        kids[i].codec,
    ) by {
        crate::codec::lemma_codec_round_trip(kids[i].codec);
    }
    assert(node_decode_spec(bytes) matches Some(p) && p.0 == total && p.1 =~= kids);
}

} // verus!
