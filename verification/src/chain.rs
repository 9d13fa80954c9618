//! The chain graph resolver: turns an unordered set of discovered blocks —
//! each a hash, a predecessor hash and a location — into a dense
//! height-indexed chain, detecting orphans and demanding a unique tip.

use vstd::prelude::*;
use std::collections::HashMap;
use crate::hash::Hash256;

verus! {

broadcast use vstd::std_specs::hash::group_hash_axioms;

/// The mathematical content of a [`BlockLocation`]: its path as a character
/// sequence, its offset, its hash and its size.
pub type LocView = (Seq<char>, u64, Hash256, u32);

/// The mathematical content of a [`DiscoveredBlock`] beyond its own hash:
/// its predecessor hash and its location.
pub type RecView = (Hash256, LocView);

/// Why a chain index could not be built.
#[derive(Clone, Copy, PartialEq, Eq, Debug, Structural)]
pub enum ChainError {
    /// No discovered block names the all-zero hash as its predecessor.
    MissingGenesis,
    /// Two different blocks resolved to the greatest known height; the tip
    /// is ambiguous and is never guessed.
    ForkAtTip,
    /// No block resolved to a known height.
    NoKnownBlocks,
    /// Following the chain backward from the tip met a hash that no
    /// discovered block carries.
    BrokenChain,
}

/// Where a block's serialized bytes live.
#[derive(PartialEq, Eq, Debug)]
pub struct BlockLocation {
    /// The container file holding the block.
    pub file_path: String,
    /// The byte offset of the block's record in that container.
    pub file_offset: u64,
    /// The block's content hash.
    pub block_hash: Hash256,
    /// The payload length of the block's record.
    pub block_size: u32,
}

/// The mathematical content of a location.
pub open spec fn spec_loc(l: BlockLocation) -> LocView {
    (l.file_path@, l.file_offset, l.block_hash, l.block_size)
}

impl Clone for BlockLocation {
    /// Clones the location; the copy carries the same content.
    fn clone(&self) -> (r: Self)
        ensures
            spec_loc(r) == spec_loc(*self),
    {
        BlockLocation {
            file_path: self.file_path.clone(),
            file_offset: self.file_offset,
            block_hash: self.block_hash,
            block_size: self.block_size,
        }
    }
}

/// A block's resolution state. Every discovered block starts unresolved but
/// the genesis block; resolution moves each block once, to `Known` or to
/// `Orphaned`, and never revisits it.
#[derive(Clone, Copy, PartialEq, Eq, Debug, Structural)]
pub enum BlockHeight {
    /// Not yet resolved.
    NotYetKnown,
    /// Resolved: the block sits this many links above the genesis block.
    Known(u32),
    /// Resolved: the block's ancestry leaves the discovered set before
    /// reaching the genesis block.
    Orphaned,
}

/// One block as the header scan discovered it.
#[derive(PartialEq, Eq, Debug)]
pub struct DiscoveredBlock {
    /// The block's content hash.
    pub hash: Hash256,
    /// The predecessor block's content hash.
    pub prev_hash: Hash256,
    /// Where the block's bytes live.
    pub location: BlockLocation,
}

/// The mathematical content of a discovered record beyond its hash.
pub open spec fn spec_rec(r: DiscoveredBlock) -> RecView {
    (r.prev_hash, spec_loc(r.location))
}

impl Clone for DiscoveredBlock {
    /// Clones the record; the copy carries the same hash and content.
    fn clone(&self) -> (r: Self)
        ensures
            r.hash == self.hash,
            spec_rec(r) == spec_rec(*self),
    {
        DiscoveredBlock {
            hash: self.hash,
            prev_hash: self.prev_hash,
            location: self.location.clone(),
        }
    }
}

/// The all-zero hash.
pub open spec fn spec_zero_hash() -> Hash256 {
    Hash256 { w0: 0, w1: 0, w2: 0, w3: 0 }
}

/// The discovered set as a map from hash to record content; a hash
/// discovered twice keeps the later record.
pub open spec fn spec_block_map(recs: Seq<DiscoveredBlock>) -> Map<Hash256, RecView>
    decreases recs.len(),
{
    if recs.len() == 0 {
        Map::empty()
    } else {
        spec_block_map(recs.drop_last()).insert(recs.last().hash, spec_rec(recs.last()))
    }
}

/// The genesis block: the last discovered block whose predecessor hash is
/// all zero, if any.
pub open spec fn spec_genesis(recs: Seq<DiscoveredBlock>) -> Option<Hash256>
    decreases recs.len(),
{
    if recs.len() == 0 {
        None
    } else if recs.last().prev_hash == spec_zero_hash() {
        Some(recs.last().hash)
    } else {
        spec_genesis(recs.drop_last())
    }
}

/// The resolution a backward walk owes to `h`: the genesis block sits at
/// height zero; a hash absent from the discovered set is orphaned, and so is
/// any block whose predecessor chain exhausts `fuel` without reaching the
/// genesis block or leaving the set — with one unit of fuel per discovered
/// hash that happens exactly on a predecessor cycle, which cannot reach the
/// genesis block either. Otherwise a block sits one link above its
/// predecessor.
pub open spec fn spec_walk(m: Map<Hash256, RecView>, gen: Hash256, h: Hash256, fuel: nat) -> BlockHeight
    decreases fuel,
{
    if h == gen {
        BlockHeight::Known(0)
    } else if !m.dom().contains(h) {
        BlockHeight::Orphaned
    } else if fuel == 0 {
        BlockHeight::Orphaned
    } else {
        match spec_walk(m, gen, m[h].0, (fuel - 1) as nat) {
            BlockHeight::Known(d) => BlockHeight::Known((d + 1) as u32),
            _ => BlockHeight::Orphaned,
        }
    }
}

/// The height resolution of `h` within the discovered set `recs`: a
/// backward walk with one unit of fuel per discovered record, which any
/// acyclic predecessor chain inside the set stays under.
pub open spec fn spec_height_of(recs: Seq<DiscoveredBlock>, gen: Hash256, h: Hash256) -> BlockHeight {
    spec_walk(spec_block_map(recs), gen, h, recs.len())
}

/// A known height never exceeds the fuel that resolved it.
pub proof fn lemma_walk_bound(m: Map<Hash256, RecView>, gen: Hash256, h: Hash256, fuel: nat)
    ensures
        spec_walk(m, gen, h, fuel) matches BlockHeight::Known(d) ==> d <= fuel,
    decreases fuel,
{
    if h == gen || !m.dom().contains(h) || fuel == 0 {
    } else {
        lemma_walk_bound(m, gen, m[h].0, (fuel - 1) as nat);
    }
}

/// Whether every record in `recs` carries a different hash.
pub open spec fn spec_distinct_hashes(recs: Seq<DiscoveredBlock>) -> bool {
    forall|i: int, j: int| 0 <= i < j < recs.len() ==> recs[i].hash != recs[j].hash
}

/// Every hash in the map belongs to some record.
pub proof fn lemma_block_map_dom(recs: Seq<DiscoveredBlock>, h: Hash256)
    requires
        spec_block_map(recs).dom().contains(h),
    ensures
        exists|i: int| 0 <= i < recs.len() && recs[i].hash == h,
    decreases recs.len(),
{
    if recs.len() > 0 {
        if recs.last().hash == h {
            assert(recs[recs.len() - 1].hash == h);
        } else {
            lemma_block_map_dom(recs.drop_last(), h);
            let i = choose|i: int|
                0 <= i < recs.drop_last().len() && recs.drop_last()[i].hash == h;
            assert(recs[i].hash == h);
        }
    }
}

/// Lifts a walk result by `s` links: what a chain `s` links above a block
/// resolves to.
pub open spec fn spec_lift(bh: BlockHeight, s: int) -> BlockHeight {
    match bh {
        BlockHeight::Known(d) => BlockHeight::Known((d + s) as u32),
        BlockHeight::NotYetKnown => BlockHeight::NotYetKnown,
        BlockHeight::Orphaned => BlockHeight::Orphaned,
    }
}

/// Resolves the height of one block by walking predecessor links backward
/// from `start` until the walk reaches the genesis block, leaves the
/// discovered set, or exhausts one step per discovered record — the last
/// only happens on a predecessor cycle, which cannot reach the genesis
/// block.
pub fn get_block_height(recs: &Vec<DiscoveredBlock>, gen: &Hash256, start: &Hash256) -> (r:
    BlockHeight)
    requires
        recs@.len() <= 0xffff_ffff,
    ensures
        r == spec_walk(spec_block_map(recs@), *gen, *start, recs@.len() as nat),
        r != BlockHeight::NotYetKnown,
{
    let ghost m = spec_block_map(recs@);
    let n = recs.len();
    let mut cur: Hash256 = *start;
    let mut s: u32 = 0;
    loop
        invariant
            s <= n,
            n == recs@.len() <= 0xffff_ffff,
            m == spec_block_map(recs@),
            spec_walk(m, *gen, *start, n as nat) == spec_lift(
                spec_walk(m, *gen, cur, (n - s) as nat),
                s as int,
            ),
        decreases n - s,
    {
        if cur.w0 == gen.w0 && cur.w1 == gen.w1 && cur.w2 == gen.w2 && cur.w3 == gen.w3 {
            proof {
                lemma_walk_bound(m, *gen, cur, (n - s) as nat);
            }
            return BlockHeight::Known(s);
        }
        let idx = match find_block_last(recs, &cur) {
            Some(i) => i,
            None => {
                return BlockHeight::Orphaned;
            },
        };
        if s as usize == n {
            proof {
                assert(spec_walk(m, *gen, cur, 0) == BlockHeight::Orphaned);
            }
            return BlockHeight::Orphaned;
        }
        proof {
            lemma_walk_bound(m, *gen, m[cur].0, (n - s - 1) as nat);
        }
        cur = recs[idx].prev_hash;
        s = s + 1;
    }
}

/// A walk always resolves: it never answers `NotYetKnown`.
pub proof fn lemma_walk_total(m: Map<Hash256, RecView>, gen: Hash256, h: Hash256, fuel: nat)
    ensures
        spec_walk(m, gen, h, fuel) != BlockHeight::NotYetKnown,
    decreases fuel,
{
    if h == gen || !m.dom().contains(h) || fuel == 0 {
    } else {
        lemma_walk_total(m, gen, m[h].0, (fuel - 1) as nat);
    }
}

/// A known height survives any fuel that covers it: once a walk reaches the
/// genesis block in `d` links, more fuel changes nothing.
pub proof fn lemma_walk_fuel(
    m: Map<Hash256, RecView>,
    gen: Hash256,
    h: Hash256,
    f1: nat,
    f2: nat,
    d: u32,
)
    requires
        spec_walk(m, gen, h, f1) == BlockHeight::Known(d),
        f2 >= d,
        f1 <= 0xffff_ffff,
    ensures
        spec_walk(m, gen, h, f2) == BlockHeight::Known(d),
    decreases f1,
{
    lemma_walk_bound(m, gen, h, f1);
    if h == gen {
    } else {
        let prev = m[h].0;
        match spec_walk(m, gen, prev, (f1 - 1) as nat) {
            BlockHeight::Known(d0) => {
                lemma_walk_bound(m, gen, prev, (f1 - 1) as nat);
                lemma_walk_fuel(m, gen, prev, (f1 - 1) as nat, (f2 - 1) as nat, d0);
            },
            _ => {},
        }
    }
}

/// An orphan at some fuel is an orphan at every smaller fuel: a walk that
/// could reach the genesis block under little fuel would reach it under
/// more.
pub proof fn lemma_orphan_down_fuel(
    m: Map<Hash256, RecView>,
    gen: Hash256,
    h: Hash256,
    f1: nat,
    f2: nat,
)
    requires
        spec_walk(m, gen, h, f2) == BlockHeight::Orphaned,
        f1 <= f2,
        f2 <= 0xffff_ffff,
    ensures
        spec_walk(m, gen, h, f1) == BlockHeight::Orphaned,
{
    lemma_walk_total(m, gen, h, f1);
    match spec_walk(m, gen, h, f1) {
        BlockHeight::Known(d) => {
            lemma_walk_bound(m, gen, h, f1);
            lemma_walk_fuel(m, gen, h, f1, f2, d);
            assert(false);
        },
        _ => {},
    }
}

/// Finds the genesis block among the discovered records: the last one whose
/// predecessor hash is all zero.
pub fn find_genesis(discovered: &Vec<DiscoveredBlock>) -> (r: Option<Hash256>)
    ensures
        r == spec_genesis(discovered@),
{
    let mut gen: Option<Hash256> = None;
    let mut i: usize = 0;
    proof {
        assert(discovered@.take(0) =~= Seq::<DiscoveredBlock>::empty());
    }
    while i < discovered.len()
        invariant
            i <= discovered@.len(),
            gen == spec_genesis(discovered@.take(i as int)),
        decreases discovered@.len() - i,
    {
        proof {
            assert(discovered@.take(i + 1).drop_last() =~= discovered@.take(i as int));
            assert(discovered@.take(i + 1).last() == discovered@[i as int]);
        }
        let rec = &discovered[i];
        if rec.prev_hash.is_zero() {
            gen = Some(rec.hash);
        }
        i = i + 1;
    }
    proof {
        assert(discovered@.take(discovered@.len() as int) =~= discovered@);
    }
    gen
}

/// Every discovered record's hash is in the map.
pub proof fn lemma_block_map_contains(recs: Seq<DiscoveredBlock>, i: int)
    requires
        0 <= i < recs.len(),
    ensures
        spec_block_map(recs).dom().contains(recs[i].hash),
    decreases recs.len(),
{
    if i < recs.len() - 1 {
        assert(recs.drop_last()[i] == recs[i]);
        lemma_block_map_contains(recs.drop_last(), i);
    }
}

/// The map entry of a hash is the content of its last-discovered record.
proof fn lemma_block_map_last(recs: Seq<DiscoveredBlock>, j: int)
    requires
        0 <= j < recs.len(),
        forall|k: int| j < k < recs.len() ==> recs[k].hash != recs[j].hash,
    ensures
        spec_block_map(recs).dom().contains(recs[j].hash),
        spec_block_map(recs)[recs[j].hash] == spec_rec(recs[j]),
    decreases recs.len(),
{
    if j == recs.len() - 1 {
    } else {
        assert(recs.drop_last()[j] == recs[j]);
        lemma_block_map_last(recs.drop_last(), j);
        assert(recs.last().hash != recs[j].hash);
    }
}

/// Looks a hash up among the discovered records, taking the last record
/// that carries it — the one the discovery map keeps.
fn find_block_last(recs: &Vec<DiscoveredBlock>, h: &Hash256) -> (r: Option<usize>)
    ensures
        r matches Some(i) ==> i < recs@.len() && recs@[i as int].hash == *h
            && spec_block_map(recs@).dom().contains(*h) && spec_block_map(recs@)[*h]
            == spec_rec(recs@[i as int]),
        r is None ==> !spec_block_map(recs@).dom().contains(*h),
{
    let mut i: usize = recs.len();
    while i > 0
        invariant
            i <= recs@.len(),
            forall|k: int| i <= k < recs@.len() ==> recs@[k].hash != *h,
        decreases i,
    {
        i = i - 1;
        if recs[i].hash == *h {
            proof {
                lemma_block_map_last(recs@, i as int);
            }
            return Some(i);
        }
    }
    proof {
        if spec_block_map(recs@).dom().contains(*h) {
            lemma_block_map_dom(recs@, *h);
        }
    }
    None
}

/// The genesis hash belongs to some discovered record.
pub proof fn lemma_genesis_discovered(recs: Seq<DiscoveredBlock>, g: Hash256)
    requires
        spec_genesis(recs) == Some(g),
    ensures
        exists|i: int| 0 <= i < recs.len() && recs[i].hash == g,
        spec_block_map(recs).dom().contains(g),
    decreases recs.len(),
{
    if recs.len() > 0 {
        if recs.last().prev_hash == spec_zero_hash() {
            assert(recs[recs.len() - 1].hash == g);
        } else {
            lemma_genesis_discovered(recs.drop_last(), g);
            let i = choose|i: int|
                0 <= i < recs.drop_last().len() && recs.drop_last()[i].hash == g;
            assert(recs[i].hash == g);
            lemma_block_map_contains(recs, i);
        }
    }
}

/// Whether a resolution is a known height no greater than `mx`.
pub open spec fn spec_height_at_most(bh: BlockHeight, mx: u32) -> bool {
    match bh {
        BlockHeight::Known(d) => d <= mx,
        _ => true,
    }
}

/// Whether `mx` is the greatest height any discovered block resolves to.
pub open spec fn spec_is_max_height(recs: Seq<DiscoveredBlock>, gen: Hash256, mx: u32) -> bool {
    &&& exists|i: int|
        0 <= i < recs.len() && spec_height_of(recs, gen, recs[i].hash) == BlockHeight::Known(mx)
    &&& forall|i: int|
        0 <= i < recs.len() ==> spec_height_at_most(spec_height_of(recs, gen, recs[i].hash), mx)
}

/// Whether `tip` is the one block at the greatest resolved height `mx`.
pub open spec fn spec_unique_tip(
    recs: Seq<DiscoveredBlock>,
    gen: Hash256,
    tip: Hash256,
    mx: u32,
) -> bool {
    &&& spec_is_max_height(recs, gen, mx)
    &&& spec_height_of(recs, gen, tip) == BlockHeight::Known(mx)
    &&& exists|i: int| 0 <= i < recs.len() && recs[i].hash == tip
    &&& forall|i: int|
        0 <= i < recs.len() && spec_height_of(recs, gen, recs[i].hash) == BlockHeight::Known(mx)
            ==> recs[i].hash == tip
}

/// The block `k` predecessor links above `h`, as long as the chain stays in
/// the discovered set.
pub open spec fn spec_ancestor(m: Map<Hash256, RecView>, h: Hash256, k: nat) -> Hash256
    decreases k,
{
    if k == 0 {
        h
    } else if m.dom().contains(h) {
        spec_ancestor(m, m[h].0, (k - 1) as nat)
    } else {
        h
    }
}

/// Extends an ancestor chain by one link at its far end.
proof fn lemma_ancestor_step(m: Map<Hash256, RecView>, h: Hash256, k: nat)
    requires
        m.dom().contains(spec_ancestor(m, h, k)),
    ensures
        spec_ancestor(m, h, k + 1) == m[spec_ancestor(m, h, k)].0,
    decreases k,
{
    if k == 0 {
        assert(spec_ancestor(m, h, 0) == h);
        assert(m.dom().contains(h));
        assert(spec_ancestor(m, h, 1) == spec_ancestor(m, m[h].0, 0));
    } else {
        if m.dom().contains(h) {
            assert(spec_ancestor(m, h, k) == spec_ancestor(m, m[h].0, (k - 1) as nat));
            lemma_ancestor_step(m, m[h].0, (k - 1) as nat);
            assert(spec_ancestor(m, h, k + 1) == spec_ancestor(m, m[h].0, ((k + 1) - 1) as nat));
            assert(spec_ancestor(m, m[h].0, ((k + 1) - 1) as nat) == spec_ancestor(
                m,
                m[h].0,
                ((k - 1) + 1) as nat,
            ));
        } else {
            assert(spec_ancestor(m, h, k) == h);
        }
    }
}

/// The durable artifact: a mapping from height to block location, dense
/// from zero to the tip height after a successful build.
#[derive(Debug)]
pub struct BlockIndex {
    /// Each indexed height's block location.
    pub blocks: HashMap<u32, BlockLocation>,
    /// The greatest indexed height.
    pub tip_height: u32,
}

/// The heights present in `m` from `from` down to zero, each with its
/// location's content, in descending order.
pub open spec fn spec_iter_reverse(m: Map<u32, BlockLocation>, from: int) -> Seq<(u32, LocView)>
    decreases from + 1,
    when from >= -1
{
    if from < 0 {
        Seq::empty()
    } else if m.dom().contains(from as u32) {
        seq![(from as u32, spec_loc(m[from as u32]))] + spec_iter_reverse(m, from - 1)
    } else {
        spec_iter_reverse(m, from - 1)
    }
}

impl BlockIndex {
    /// An empty index.
    pub fn new() -> (r: BlockIndex)
        ensures
            r.blocks@ == Map::<u32, BlockLocation>::empty(),
            r.tip_height == 0,
    {
        BlockIndex { blocks: HashMap::new(), tip_height: 0 }
    }

    /// Records a block's location at its height, raising the tip height when
    /// the new height tops it.
    pub fn add_block(&mut self, height: u32, location: BlockLocation)
        ensures
            final(self).blocks@ == old(self).blocks@.insert(height, location),
            final(self).tip_height == if height > old(self).tip_height {
                height as int
            } else {
                old(self).tip_height as int
            },
    {
        self.blocks.insert(height, location);
        if height > self.tip_height {
            self.tip_height = height;
        }
    }

    /// The location indexed at `height`, if any.
    pub fn get_block_location(&self, height: u32) -> (r: Option<&BlockLocation>)
        ensures
            r matches Some(l) ==> self.blocks@.contains_key(height) && *l == self.blocks@[height],
            r is None ==> !self.blocks@.contains_key(height),
    {
        self.blocks.get(&height)
    }

    /// Every indexed height from the tip down to zero with its location, in
    /// descending height order.
    pub fn iter_reverse(&self) -> (r: Vec<(u32, BlockLocation)>)
        ensures
            r@.map_values(|p: (u32, BlockLocation)| (p.0, spec_loc(p.1))) == spec_iter_reverse(
                self.blocks@,
                self.tip_height as int,
            ),
    {
        let ghost m = self.blocks@;
        let mut out: Vec<(u32, BlockLocation)> = Vec::new();
        let mut h = self.tip_height;
        proof {
            assert(out@.map_values(|p: (u32, BlockLocation)| (p.0, spec_loc(p.1))) =~= Seq::<
                (u32, LocView),
            >::empty());
        }
        loop
            invariant
                m == self.blocks@,
                h <= self.tip_height,
                spec_iter_reverse(m, self.tip_height as int) =~= out@.map_values(
                    |p: (u32, BlockLocation)| (p.0, spec_loc(p.1)),
                ) + spec_iter_reverse(m, h as int),
            decreases h,
        {
            let ghost out_pre = out@;
            match self.blocks.get(&h) {
                Some(loc) => {
                    out.push((h, loc.clone()));
                    proof {
                        assert(out@ =~= out_pre.push((h, out@.last().1)));
                        assert(out@.map_values(|p: (u32, BlockLocation)| (p.0, spec_loc(p.1)))
                            =~= out_pre.map_values(
                            |p: (u32, BlockLocation)| (p.0, spec_loc(p.1)),
                        ).push((h, spec_loc(m[h]))));
                        assert(spec_iter_reverse(m, h as int) =~= seq![(h, spec_loc(m[h]))]
                            + spec_iter_reverse(m, h - 1));
                        assert(out_pre.map_values(|p: (u32, BlockLocation)| (p.0, spec_loc(p.1)))
                            + spec_iter_reverse(m, h as int) =~= out@.map_values(
                            |p: (u32, BlockLocation)| (p.0, spec_loc(p.1)),
                        ) + spec_iter_reverse(m, h - 1));
                    }
                },
                None => {
                    proof {
                        assert(spec_iter_reverse(m, h as int) =~= spec_iter_reverse(m, h - 1));
                    }
                },
            }
            if h == 0 {
                proof {
                    assert(spec_iter_reverse(m, -1) =~= Seq::<(u32, LocView)>::empty());
                    assert(out@.map_values(|p: (u32, BlockLocation)| (p.0, spec_loc(p.1)))
                        + spec_iter_reverse(m, -1) =~= out@.map_values(
                        |p: (u32, BlockLocation)| (p.0, spec_loc(p.1)),
                    ));
                }
                return out;
            }
            h = h - 1;
        }
    }
}

/// What a successfully built index owes: its tip height is the unique tip's
/// resolved height, its heights are dense from zero to the tip, and the
/// entry at each height is the location of the tip's ancestor that resolved
/// to that height.
pub open spec fn spec_index_ok(recs: Seq<DiscoveredBlock>, gen: Hash256, idx: BlockIndex) -> bool {
    exists|tip: Hash256| #[trigger]
        spec_unique_tip(recs, gen, tip, idx.tip_height) && {
            &&& forall|q: u32| q <= idx.tip_height ==> #[trigger] idx.blocks@.contains_key(q)
            &&& forall|q: u32| #[trigger] idx.blocks@.contains_key(q) ==> q <= idx.tip_height
            &&& forall|q: u32|
                q <= idx.tip_height ==> #[trigger] spec_loc(idx.blocks@[q]) == spec_block_map(
                    recs,
                )[spec_ancestor(spec_block_map(recs), tip, (idx.tip_height - q) as nat)].1
            &&& forall|q: u32|
                q <= idx.tip_height ==> spec_height_of(
                    recs,
                    gen,
                    #[trigger] spec_ancestor(spec_block_map(recs), tip, (idx.tip_height - q) as nat),
                ) == BlockHeight::Known(q)
        }
}

/// Builds the height index from the discovered blocks: finds the genesis
/// block, resolves every block's height, demands a unique tip, and follows
/// predecessor links from the tip down to height zero, recording each
/// block's location at its height. Any inconsistency — no genesis, an
/// ambiguous tip — aborts the build; there is no partial index.
pub fn build_chain_index(discovered: &Vec<DiscoveredBlock>) -> (r: Result<BlockIndex, ChainError>)
    requires
        discovered@.len() <= 0xffff_ffff,
    ensures
        r == Err::<BlockIndex, ChainError>(ChainError::MissingGenesis) <==> spec_genesis(
            discovered@,
        ) is None,
        r != Err::<BlockIndex, ChainError>(ChainError::NoKnownBlocks),
        r != Err::<BlockIndex, ChainError>(ChainError::BrokenChain),
        spec_genesis(discovered@) matches Some(gen) ==> {
            &&& (r is Ok <==> exists|tip: Hash256, mx: u32| spec_unique_tip(
                discovered@,
                gen,
                tip,
                mx,
            ))
            &&& (r is Err ==> r == Err::<BlockIndex, ChainError>(ChainError::ForkAtTip))
            &&& (r matches Ok(idx) ==> spec_index_ok(discovered@, gen, idx))
        },
{
    let ghost recs = discovered@;
    let ghost m = spec_block_map(recs);
    let n = discovered.len();
    let gen = match find_genesis(discovered) {
        Some(g) => g,
        None => {
            return Err(ChainError::MissingGenesis);
        },
    };
    // Greatest height any block resolves to.
    let mut max_known: Option<u32> = None;
    let mut i: usize = 0;
    while i < n
        invariant
            i <= n,
            n == recs.len() <= 0xffff_ffff,
            recs == discovered@,
            m == spec_block_map(recs),
            max_known matches Some(d) ==> (exists|j: int|
                0 <= j < i && spec_height_of(recs, gen, #[trigger] recs[j].hash)
                    == BlockHeight::Known(d)) && (forall|j: int|
                0 <= j < i ==> spec_height_at_most(
                    spec_height_of(recs, gen, #[trigger] recs[j].hash),
                    d,
                )),
            max_known is None ==> forall|j: int|
                0 <= j < i ==> !(spec_height_of(recs, gen, #[trigger] recs[j].hash)
                    is Known),
        decreases n - i,
    {
        let bh = get_block_height(discovered, &gen, &discovered[i].hash);
        if let BlockHeight::Known(d) = bh {
            max_known = match max_known {
                Some(m0) => if d > m0 {
                    Some(d)
                } else {
                    Some(m0)
                },
                None => Some(d),
            };
        }
        i = i + 1;
    }
    let mx = match max_known {
        Some(d) => d,
        None => {
            proof {
                lemma_genesis_discovered(recs, gen);
                let ig = choose|ig: int| 0 <= ig < recs.len() && recs[ig].hash == gen;
                assert(spec_height_of(recs, gen, recs[ig].hash) == BlockHeight::Known(0));
                assert(false);
            }
            return Err(ChainError::NoKnownBlocks);
        },
    };
    // The one block at that height, or a fork.
    let mut tip: Option<Hash256> = None;
    let mut fork = false;
    let mut i: usize = 0;
    while i < n
        invariant
            i <= n,
            n == recs.len() <= 0xffff_ffff,
            recs == discovered@,
            m == spec_block_map(recs),
            spec_is_max_height(recs, gen, mx),
            tip matches Some(t) ==> spec_height_of(recs, gen, t) == BlockHeight::Known(mx) && (
            exists|j: int| 0 <= j < recs.len() && recs[j].hash == t),
            tip is None ==> !fork && forall|j: int|
                0 <= j < i ==> spec_height_of(recs, gen, #[trigger] recs[j].hash)
                    != BlockHeight::Known(mx),
            !fork ==> (tip matches Some(t) ==> forall|j: int|
                0 <= j < i && spec_height_of(recs, gen, #[trigger] recs[j].hash)
                    == BlockHeight::Known(mx) ==> recs[j].hash == t),
            fork ==> exists|j1: int, j2: int|
                0 <= j1 < recs.len() && 0 <= j2 < recs.len() && recs[j1].hash != recs[j2].hash
                    && spec_height_of(recs, gen, recs[j1].hash) == BlockHeight::Known(mx)
                    && spec_height_of(recs, gen, recs[j2].hash) == BlockHeight::Known(mx),
        decreases n - i,
    {
        let bh = get_block_height(discovered, &gen, &discovered[i].hash);
        if bh == BlockHeight::Known(mx) {
            match &tip {
                None => {
                    tip = Some(discovered[i].hash);
                },
                Some(t) => {
                    if !(t.w0 == discovered[i].hash.w0 && t.w1 == discovered[i].hash.w1 && t.w2
                        == discovered[i].hash.w2 && t.w3 == discovered[i].hash.w3) {
                        fork = true;
                    }
                },
            }
        }
        i = i + 1;
    }
    if fork {
        proof {
            assert forall|tip2: Hash256, mx2: u32| !spec_unique_tip(recs, gen, tip2, mx2) by {
                if spec_unique_tip(recs, gen, tip2, mx2) {
                    let (j1, j2) = choose|j1: int, j2: int|
                        0 <= j1 < recs.len() && 0 <= j2 < recs.len() && recs[j1].hash
                            != recs[j2].hash && spec_height_of(recs, gen, recs[j1].hash)
                            == BlockHeight::Known(mx) && spec_height_of(recs, gen, recs[j2].hash)
                            == BlockHeight::Known(mx);
                    // The two maxima agree, so both forks sit at `mx2`.
                    let je = choose|je: int|
                        0 <= je < recs.len() && spec_height_of(recs, gen, recs[je].hash)
                            == BlockHeight::Known(mx2);
                    assert(spec_height_at_most(
                        spec_height_of(recs, gen, recs[je].hash),
                        mx,
                    ));
                    assert(spec_height_at_most(
                        spec_height_of(recs, gen, recs[j1].hash),
                        mx2,
                    ));
                    assert(mx2 == mx);
                    assert(recs[j1].hash == tip2);
                    assert(recs[j2].hash == tip2);
                    assert(false);
                }
            }
        }
        return Err(ChainError::ForkAtTip);
    }
    let tip_hash = match tip {
        Some(t) => t,
        None => {
            proof {
                let je = choose|je: int|
                    0 <= je < recs.len() && spec_height_of(recs, gen, recs[je].hash)
                        == BlockHeight::Known(mx);
                assert(false);
            }
            return Err(ChainError::NoKnownBlocks);
        },
    };
    // Linearize: follow predecessor links from the tip down to height zero.
    let mut blocks: HashMap<u32, BlockLocation> = HashMap::new();
    let mut q: u32 = mx;
    let mut cur: Hash256 = tip_hash;
    loop
        invariant_except_break
            forall|h: u32| #[trigger] blocks@.contains_key(h) <==> q < h <= mx,
            forall|h: u32|
                q < h <= mx ==> #[trigger] spec_loc(blocks@[h]) == m[spec_ancestor(
                    m,
                    tip_hash,
                    (mx - h) as nat,
                )].1,
        invariant
            q <= mx,
            n == recs.len() <= 0xffff_ffff,
            recs == discovered@,
            m == spec_block_map(recs),
            spec_genesis(recs) == Some(gen),
            cur == spec_ancestor(m, tip_hash, (mx - q) as nat),
            spec_walk(m, gen, cur, n as nat) == BlockHeight::Known(q),
            forall|h: u32|
                q <= h <= mx ==> spec_walk(
                    m,
                    gen,
                    #[trigger] spec_ancestor(m, tip_hash, (mx - h) as nat),
                    n as nat,
                ) == BlockHeight::Known(h),
        ensures
            forall|h: u32| #[trigger] blocks@.contains_key(h) <==> h <= mx,
            forall|h: u32|
                h <= mx ==> #[trigger] spec_loc(blocks@[h]) == m[spec_ancestor(
                    m,
                    tip_hash,
                    (mx - h) as nat,
                )].1,
            forall|h: u32|
                h <= mx ==> spec_walk(
                    m,
                    gen,
                    #[trigger] spec_ancestor(m, tip_hash, (mx - h) as nat),
                    n as nat,
                ) == BlockHeight::Known(h),
        decreases q,
    {
        let idx = match find_block_last(discovered, &cur) {
            Some(i) => i,
            None => {
                proof {
                    if cur == gen {
                        lemma_genesis_discovered(recs, gen);
                    }
                    assert(false);
                }
                return Err(ChainError::BrokenChain);
            },
        };
        blocks.insert(q, discovered[idx].location.clone());
        if q == 0 {
            break;
        }
        proof {
            // The walk from `cur` still has `q` links to go, so `cur` is not
            // the genesis block and its predecessor resolves one lower.
            assert(cur != gen);
            match spec_walk(m, gen, m[cur].0, (n - 1) as nat) {
                BlockHeight::Known(d0) => {
                    lemma_walk_bound(m, gen, m[cur].0, (n - 1) as nat);
                    assert(d0 == q - 1);
                    lemma_walk_fuel(m, gen, m[cur].0, (n - 1) as nat, n as nat, d0);
                },
                _ => {
                    assert(false);
                },
            }
            lemma_ancestor_step(m, tip_hash, (mx - q) as nat);
            assert(m[cur].0 == discovered@[idx as int].prev_hash);
        }
        cur = discovered[idx].prev_hash;
        q = q - 1;
    }
    let idx = BlockIndex { blocks, tip_height: mx };
    proof {
        assert(spec_unique_tip(recs, gen, tip_hash, idx.tip_height));
        assert forall|h: u32| h <= idx.tip_height implies spec_height_of(
            recs,
            gen,
            #[trigger] spec_ancestor(m, tip_hash, (idx.tip_height - h) as nat),
        ) == BlockHeight::Known(h) by {}
        assert(spec_index_ok(recs, gen, idx));
    }
    Ok(idx)
}

/// Every record with a given hash in a distinct-hash sequence is one and
/// the same record.
proof fn lemma_block_map_entry_of(recs: Seq<DiscoveredBlock>, h: Hash256, x: DiscoveredBlock)
    requires
        exists|i: int| 0 <= i < recs.len() && recs[i].hash == h,
        forall|i: int| 0 <= i < recs.len() && recs[i].hash == h ==> #[trigger] recs[i] == x,
    ensures
        spec_block_map(recs).dom().contains(h),
        spec_block_map(recs)[h] == spec_rec(x),
    decreases recs.len(),
{
    let i0 = choose|i: int| 0 <= i < recs.len() && recs[i].hash == h;
    if recs.last().hash == h {
        assert(recs[recs.len() - 1] == x);
    } else {
        assert(i0 < recs.len() - 1);
        assert(recs.drop_last()[i0] == recs[i0]);
        assert forall|i: int|
            0 <= i < recs.drop_last().len() && recs.drop_last()[i].hash == h implies #[trigger]
        recs.drop_last()[i] == x by {
            assert(recs.drop_last()[i] == recs[i]);
        }
        lemma_block_map_entry_of(recs.drop_last(), h, x);
    }
}

/// Discovery order does not matter: two discoveries of the same records —
/// in any order — build the same map, pick the same genesis when exactly
/// one block has the zero predecessor, and resolve every hash to the same
/// height.
pub proof fn lemma_resolution_order_independent(
    r1: Seq<DiscoveredBlock>,
    r2: Seq<DiscoveredBlock>,
    h: Hash256,
)
    requires
        spec_distinct_hashes(r1),
        r1.to_multiset() == r2.to_multiset(),
        exists|g: int|
            0 <= g < r1.len() && r1[g].prev_hash == spec_zero_hash() && (forall|j: int|
                0 <= j < r1.len() && #[trigger] r1[j].prev_hash == spec_zero_hash() ==> j == g),
    ensures
        spec_block_map(r1) == spec_block_map(r2),
        spec_genesis(r1) == spec_genesis(r2),
        spec_genesis(r1) matches Some(gen) ==> spec_height_of(r1, gen, h) == spec_height_of(
            r2,
            gen,
            h,
        ),
{
    broadcast use vstd::seq_lib::group_to_multiset_ensures;

    assert(r1.to_multiset().len() == r1.len());
    assert(r2.to_multiset().len() == r2.len());
    assert(r1.len() == r2.len());
    assert forall|hh: Hash256|
        #[trigger] spec_block_map(r1).dom().contains(hh) implies spec_block_map(
        r2,
    ).dom().contains(hh) && spec_block_map(r1)[hh] == spec_block_map(r2)[hh] by {
        lemma_block_map_dom(r1, hh);
        let i = choose|i: int| 0 <= i < r1.len() && r1[i].hash == hh;
        let x = r1[i];
        assert(r1.contains(x));
        assert(r1.to_multiset().contains(x));
        assert(r2.to_multiset().contains(x));
        assert(r2.contains(x));
        assert forall|j: int|
            0 <= j < r2.len() && r2[j].hash == hh implies #[trigger] r2[j] == x by {
            assert(r2.contains(r2[j]));
            assert(r2.to_multiset().contains(r2[j]));
            assert(r1.to_multiset().contains(r2[j]));
            assert(r1.contains(r2[j]));
            let i2 = choose|i2: int| 0 <= i2 < r1.len() && r1[i2] == r2[j];
            assert(r1[i2].hash == hh);
        }
        let j0 = choose|j0: int| 0 <= j0 < r2.len() && r2[j0] == x;
        assert(r2[j0].hash == hh);
        lemma_block_map_entry_of(r2, hh, x);
        assert forall|i1: int|
            0 <= i1 < r1.len() && r1[i1].hash == hh implies #[trigger] r1[i1] == x by {}
        lemma_block_map_entry_of(r1, hh, x);
    }
    assert forall|hh: Hash256|
        #[trigger] spec_block_map(r2).dom().contains(hh) implies spec_block_map(
        r1,
    ).dom().contains(hh) by {
        lemma_block_map_dom(r2, hh);
        let j = choose|j: int| 0 <= j < r2.len() && r2[j].hash == hh;
        assert(r2.contains(r2[j]));
        assert(r2.to_multiset().contains(r2[j]));
        assert(r1.to_multiset().contains(r2[j]));
        assert(r1.contains(r2[j]));
        let i = choose|i: int| 0 <= i < r1.len() && r1[i] == r2[j];
        lemma_block_map_contains(r1, i);
    }
    assert(spec_block_map(r1) =~= spec_block_map(r2));
    let g = choose|g: int|
        0 <= g < r1.len() && r1[g].prev_hash == spec_zero_hash() && (forall|j: int|
            0 <= j < r1.len() && #[trigger] r1[j].prev_hash == spec_zero_hash() ==> j == g);
    assert(r1.contains(r1[g]));
    assert(r1.to_multiset().contains(r1[g]));
    assert(r2.to_multiset().contains(r1[g]));
    assert(r2.contains(r1[g]));
    let g2 = choose|g2: int| 0 <= g2 < r2.len() && r2[g2] == r1[g];
    assert forall|j: int|
        0 <= j < r2.len() && #[trigger] r2[j].prev_hash == spec_zero_hash() implies r2[j]
        == r1[g] by {
        assert(r2.contains(r2[j]));
        assert(r2.to_multiset().contains(r2[j]));
        assert(r1.to_multiset().contains(r2[j]));
        assert(r1.contains(r2[j]));
        let i2 = choose|i2: int| 0 <= i2 < r1.len() && r1[i2] == r2[j];
        assert(i2 == g);
    }
    lemma_genesis_of_unique(r1, r1[g].hash);
    lemma_genesis_of_unique(r2, r1[g].hash);
}

/// When every zero-predecessor record carries one hash, that hash is the
/// genesis.
proof fn lemma_genesis_of_unique(recs: Seq<DiscoveredBlock>, gh: Hash256)
    requires
        exists|i: int|
            0 <= i < recs.len() && #[trigger] recs[i].prev_hash == spec_zero_hash() && recs[i].hash
                == gh,
        forall|i: int|
            0 <= i < recs.len() && #[trigger] recs[i].prev_hash == spec_zero_hash() ==> recs[i].hash
                == gh,
    ensures
        spec_genesis(recs) == Some(gh),
    decreases recs.len(),
{
    let i0 = choose|i: int|
        0 <= i < recs.len() && #[trigger] recs[i].prev_hash == spec_zero_hash() && recs[i].hash
            == gh;
    if recs.last().prev_hash == spec_zero_hash() {
        assert(recs[recs.len() - 1].hash == gh);
    } else {
        assert(i0 < recs.len() - 1);
        assert(recs.drop_last()[i0] == recs[i0]);
        assert forall|i: int|
            0 <= i < recs.drop_last().len() && #[trigger] recs.drop_last()[i].prev_hash
                == spec_zero_hash() implies recs.drop_last()[i].hash == gh by {
            assert(recs.drop_last()[i] == recs[i]);
        }
        lemma_genesis_of_unique(recs.drop_last(), gh);
    }
}

/// A known height is the graph distance from the genesis block: the walk
/// meets the genesis block after exactly that many predecessor links, every
/// earlier link landing on a present, non-genesis block.
pub proof fn lemma_known_height_is_distance(
    m: Map<Hash256, RecView>,
    gen: Hash256,
    h: Hash256,
    fuel: nat,
    d: u32,
)
    requires
        spec_walk(m, gen, h, fuel) == BlockHeight::Known(d),
        fuel <= 0xffff_ffff,
    ensures
        spec_ancestor(m, h, d as nat) == gen,
        forall|k: int|
            0 <= k < d ==> #[trigger] spec_ancestor(m, h, k as nat) != gen && m.dom().contains(
                spec_ancestor(m, h, k as nat),
            ),
    decreases fuel,
{
    lemma_walk_bound(m, gen, h, fuel);
    if h == gen {
    } else {
        let prev = m[h].0;
        match spec_walk(m, gen, prev, (fuel - 1) as nat) {
            BlockHeight::Known(d0) => {
                lemma_walk_bound(m, gen, prev, (fuel - 1) as nat);
                assert(d0 == d - 1);
                lemma_known_height_is_distance(m, gen, prev, (fuel - 1) as nat, d0);
                assert(spec_ancestor(m, h, d as nat) == spec_ancestor(
                    m,
                    prev,
                    (d - 1) as nat,
                ));
                assert forall|k: int|
                    0 <= k < d implies #[trigger] spec_ancestor(m, h, k as nat) != gen
                    && m.dom().contains(spec_ancestor(m, h, k as nat)) by {
                    if k == 0 {
                        assert(spec_ancestor(m, h, 0) == h);
                    } else {
                        assert(spec_ancestor(m, h, k as nat) == spec_ancestor(
                            m,
                            prev,
                            (k - 1) as nat,
                        ));
                    }
                }
            },
            _ => {
                assert(false);
            },
        }
    }
}

/// The converse: a chain of exactly `d` present links from a block to the
/// genesis block resolves the block to height `d`, under any fuel that
/// covers it.
pub proof fn lemma_distance_is_known_height(
    m: Map<Hash256, RecView>,
    gen: Hash256,
    h: Hash256,
    fuel: nat,
    d: u32,
)
    requires
        fuel >= d,
        spec_ancestor(m, h, d as nat) == gen,
        forall|k: int|
            0 <= k < d ==> #[trigger] spec_ancestor(m, h, k as nat) != gen && m.dom().contains(
                spec_ancestor(m, h, k as nat),
            ),
    ensures
        spec_walk(m, gen, h, fuel) == BlockHeight::Known(d),
    decreases d,
{
    if d == 0 {
        assert(spec_ancestor(m, h, 0) == h);
    } else {
        assert(spec_ancestor(m, h, (0int) as nat) == h);
        assert(spec_ancestor(m, h, (0int) as nat) != gen && m.dom().contains(
            spec_ancestor(m, h, (0int) as nat),
        ));
        assert(h != gen && m.dom().contains(h));
        let prev = m[h].0;
        assert(spec_ancestor(m, prev, (d - 1) as nat) == gen) by {
            assert(spec_ancestor(m, h, d as nat) == spec_ancestor(m, prev, (d - 1) as nat));
        }
        assert forall|k: int|
            0 <= k < d - 1 implies #[trigger] spec_ancestor(m, prev, k as nat) != gen
            && m.dom().contains(spec_ancestor(m, prev, k as nat)) by {
            assert(spec_ancestor(m, h, (k + 1) as nat) == spec_ancestor(m, prev, k as nat));
        }
        lemma_distance_is_known_height(m, gen, prev, (fuel - 1) as nat, (d - 1) as u32);
    }
}

/// A block whose predecessor is absent from the discovered set — and is not
/// the genesis block — is orphaned.
pub proof fn lemma_missing_prev_orphans(recs: Seq<DiscoveredBlock>, gen: Hash256, b: Hash256)
    requires
        spec_block_map(recs).dom().contains(b),
        b != gen,
        spec_block_map(recs)[b].0 != gen,
        !spec_block_map(recs).dom().contains(spec_block_map(recs)[b].0),
    ensures
        spec_height_of(recs, gen, b) == BlockHeight::Orphaned,
{
    let m = spec_block_map(recs);
    lemma_block_map_dom(recs, b);
    assert(recs.len() >= 1);
    assert(spec_walk(m, gen, m[b].0, (recs.len() - 1) as nat) == BlockHeight::Orphaned);
}

/// Orphanhood flows to every block that stands on an orphaned predecessor:
/// a descendant reachable only through an orphan is itself an orphan.
pub proof fn lemma_orphan_descendants(
    recs: Seq<DiscoveredBlock>,
    gen: Hash256,
    parent: Hash256,
    c: Hash256,
)
    requires
        recs.len() <= 0xffff_ffff,
        spec_height_of(recs, gen, parent) == BlockHeight::Orphaned,
        spec_block_map(recs).dom().contains(c),
        c != gen,
        spec_block_map(recs)[c].0 == parent,
    ensures
        spec_height_of(recs, gen, c) == BlockHeight::Orphaned,
{
    let m = spec_block_map(recs);
    let n = recs.len();
    lemma_block_map_dom(recs, c);
    assert(n >= 1);
    lemma_orphan_down_fuel(m, gen, parent, (n - 1) as nat, n);
    assert(spec_walk(m, gen, parent, (n - 1) as nat) == BlockHeight::Orphaned);
}

/// Every ancestor of a block at a known height sits at its own known
/// height, one lower per link.
pub proof fn lemma_ancestor_known(
    m: Map<Hash256, RecView>,
    gen: Hash256,
    tip: Hash256,
    fuel: nat,
    mx: u32,
    k: u32,
)
    requires
        spec_walk(m, gen, tip, fuel) == BlockHeight::Known(mx),
        k <= mx,
        fuel <= 0xffff_ffff,
    ensures
        spec_walk(m, gen, spec_ancestor(m, tip, k as nat), fuel) == BlockHeight::Known(
            (mx - k) as u32,
        ),
    decreases k,
{
    if k == 0 {
    } else {
        lemma_walk_bound(m, gen, tip, fuel);
        assert(tip != gen);
        let prev = m[tip].0;
        match spec_walk(m, gen, prev, (fuel - 1) as nat) {
            BlockHeight::Known(d0) => {
                lemma_walk_bound(m, gen, prev, (fuel - 1) as nat);
                assert(d0 == mx - 1);
                lemma_walk_fuel(m, gen, prev, (fuel - 1) as nat, fuel, d0);
                lemma_ancestor_known(m, gen, prev, fuel, d0, (k - 1) as u32);
                assert(spec_ancestor(m, tip, k as nat) == spec_ancestor(
                    m,
                    prev,
                    (k - 1) as nat,
                ));
            },
            _ => {
                assert(false);
            },
        }
    }
}

/// No orphaned block's hash stands in the index: the block recorded at any
/// height is an ancestor of the tip at a known height, which an orphan is
/// never.
pub proof fn lemma_orphans_not_indexed(
    recs: Seq<DiscoveredBlock>,
    gen: Hash256,
    tip: Hash256,
    mx: u32,
    orphan: Hash256,
    q: u32,
)
    requires
        recs.len() <= 0xffff_ffff,
        spec_unique_tip(recs, gen, tip, mx),
        q <= mx,
        spec_height_of(recs, gen, orphan) == BlockHeight::Orphaned,
    ensures
        spec_ancestor(spec_block_map(recs), tip, (mx - q) as nat) != orphan,
{
    let m = spec_block_map(recs);
    lemma_ancestor_known(m, gen, tip, recs.len() as nat, mx, (mx - q) as u32);
}


} // verus!
