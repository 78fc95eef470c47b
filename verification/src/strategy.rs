//! The scheduler: which blocks to ask of which peers.

use crate::engine::{addrs_of, has_peer, peer_index, EngineView, MainState, PeerView};
use crate::file::{BlockInfo, StoreView};
use crate::peers::PeerAddr;
use crate::requests::{count_to, holds_block, same_block, Entry, Pending};
use core::ops::Range;
use rand::seq::SliceRandom;
use vstd::prelude::*;

verus! {

/// The number of picks that are requests to `peer`.
pub open spec fn picked_to(picks: Seq<Pending>, peer: PeerAddr) -> int
    decreases picks.len(),
{
    if picks.len() == 0 {
        0
    } else {
        picked_to(picks.drop_last(), peer) + if picks.last().1 == peer {
            1int
        } else {
            0int
        }
    }
}

/// Whether some pick is a request for `block`.
pub open spec fn picked_block(picks: Seq<Pending>, block: BlockInfo) -> bool {
    exists|i: int| 0 <= i < picks.len() && (#[trigger] picks[i]).0 == block
}

/// The picks after `block` was considered for `peer`: it is added unless
/// the peer's pipeline is full, or the block is already asked for, in the
/// table or among the picks.
pub open spec fn consider(
    picks: Seq<Pending>,
    table: Seq<Entry>,
    depth: int,
    peer: PeerAddr,
    block: BlockInfo,
) -> Seq<Pending> {
    if count_to(table, peer) + picked_to(picks, peer) >= depth || holds_block(table, block) || picked_block(
        picks,
        block,
    ) {
        picks
    } else {
        picks.push((block, peer))
    }
}

/// The picks after the first `k` of `ranges`, the missing blocks of
/// `piece`, were considered for `peer` in order.
pub open spec fn walk_piece(
    picks: Seq<Pending>,
    table: Seq<Entry>,
    depth: int,
    peer: PeerAddr,
    piece: int,
    ranges: Seq<Range<usize>>,
    k: int,
) -> Seq<Pending>
    decreases k,
{
    if k <= 0 {
        picks
    } else {
        consider(
            walk_piece(picks, table, depth, peer, piece, ranges, k - 1),
            table,
            depth,
            peer,
            BlockInfo { piece: piece as usize, range: ranges[k - 1] },
        )
    }
}

/// The picks after the first `p` pieces were considered for `peer`: each
/// piece that the peer has, in ascending order, with its missing blocks.
pub open spec fn walk_peer(
    picks: Seq<Pending>,
    table: Seq<Entry>,
    depth: int,
    store: StoreView,
    peer: PeerAddr,
    owned: Seq<bool>,
    p: int,
) -> Seq<Pending>
    decreases p,
{
    if p <= 0 {
        picks
    } else {
        let before = walk_peer(picks, table, depth, store, peer, owned, p - 1);
        if owned[p - 1] && p - 1 < store.len() {
            walk_piece(
                before,
                table,
                depth,
                peer,
                p - 1,
                store.unfilled[p - 1],
                store.unfilled[p - 1].len() as int,
            )
        } else {
            before
        }
    }
}

/// The picks after one peer had its turn: nothing new for an address that
/// is not connected or a peer that chokes us, else all its pieces.
pub open spec fn visit(
    picks: Seq<Pending>,
    peers: Seq<PeerView>,
    table: Seq<Entry>,
    depth: int,
    store: StoreView,
    addr: PeerAddr,
) -> Seq<Pending> {
    if !has_peer(peers, addr) || peers[peer_index(peers, addr)].peer_choked {
        picks
    } else {
        let owned = peers[peer_index(peers, addr)].has;
        walk_peer(picks, table, depth, store, addr, owned, owned.len() as int)
    }
}

/// The picks after the first `k` addresses of `order` had their turn.
pub open spec fn walk_peers(
    peers: Seq<PeerView>,
    table: Seq<Entry>,
    depth: int,
    store: StoreView,
    order: Seq<PeerAddr>,
    k: int,
) -> Seq<Pending>
    decreases k,
{
    if k <= 0 {
        Seq::empty()
    } else {
        visit(walk_peers(peers, table, depth, store, order, k - 1), peers, table, depth, store, order[k - 1])
    }
}

/// The requests of one scheduling pass that visits the peers in `order`.
pub open spec fn picks_in_order(state: EngineView, order: Seq<PeerAddr>) -> Seq<Pending> {
    walk_peers(state.peers, state.requested, state.depth, state.store, order, order.len() as int)
}

/// What holds of the picks at every step of a pass: no block is picked
/// twice, none is in the table, and no peer is asked for more than its
/// pipeline takes.
pub open spec fn sound(picks: Seq<Pending>, table: Seq<Entry>, depth: int) -> bool {
    &&& forall|i: int, j: int| 0 <= i < j < picks.len() ==> (#[trigger] picks[i]).0 != (#[trigger] picks[j]).0
    &&& forall|i: int| 0 <= i < picks.len() ==> !holds_block(table, (#[trigger] picks[i]).0)
    &&& forall|peer: PeerAddr|
        count_to(table, peer) + #[trigger] picked_to(picks, peer) <= if count_to(table, peer) > depth {
            count_to(table, peer)
        } else {
            depth
        }
}

proof fn lemma_picked_to_bounds(picks: Seq<Pending>, peer: PeerAddr)
    ensures
        0 <= picked_to(picks, peer) <= picks.len(),
    decreases picks.len(),
{
    if picks.len() > 0 {
        lemma_picked_to_bounds(picks.drop_last(), peer);
    }
}

proof fn lemma_consider_sound(picks: Seq<Pending>, table: Seq<Entry>, depth: int, peer: PeerAddr, block: BlockInfo)
    requires
        sound(picks, table, depth),
    ensures
        sound(consider(picks, table, depth, peer, block), table, depth),
{
    let out = consider(picks, table, depth, peer, block);
    if out != picks {
        assert(out.drop_last() =~= picks);
        assert forall|i: int, j: int| 0 <= i < j < out.len() implies (#[trigger] out[i]).0 != (#[trigger] out[j]).0 by {
            assert(out[i] == picks[i]);
            if j < picks.len() {
                assert(out[j] == picks[j]);
            }
        }
        assert forall|i: int| 0 <= i < out.len() implies !holds_block(table, (#[trigger] out[i]).0) by {
            if i < picks.len() {
                assert(out[i] == picks[i]);
            }
        }
        assert forall|other: PeerAddr|
            count_to(table, other) + #[trigger] picked_to(out, other) <= if count_to(table, other) > depth {
                count_to(table, other)
            } else {
                depth
            } by {
            assert(picked_to(out, other) == picked_to(picks, other) + if peer == other {
                1int
            } else {
                0int
            });
            assert(count_to(table, other) + picked_to(picks, other) <= if count_to(table, other) > depth {
                count_to(table, other)
            } else {
                depth
            });
        }
    }
}

proof fn lemma_walk_piece_sound(
    picks: Seq<Pending>,
    table: Seq<Entry>,
    depth: int,
    peer: PeerAddr,
    piece: int,
    ranges: Seq<Range<usize>>,
    k: int,
)
    requires
        sound(picks, table, depth),
    ensures
        sound(walk_piece(picks, table, depth, peer, piece, ranges, k), table, depth),
    decreases k,
{
    if k > 0 {
        lemma_walk_piece_sound(picks, table, depth, peer, piece, ranges, k - 1);
        lemma_consider_sound(
            walk_piece(picks, table, depth, peer, piece, ranges, k - 1),
            table,
            depth,
            peer,
            BlockInfo { piece: piece as usize, range: ranges[k - 1] },
        );
    }
}

proof fn lemma_walk_peer_sound(
    picks: Seq<Pending>,
    table: Seq<Entry>,
    depth: int,
    store: StoreView,
    peer: PeerAddr,
    owned: Seq<bool>,
    p: int,
)
    requires
        sound(picks, table, depth),
    ensures
        sound(walk_peer(picks, table, depth, store, peer, owned, p), table, depth),
    decreases p,
{
    if p > 0 {
        lemma_walk_peer_sound(picks, table, depth, store, peer, owned, p - 1);
        if owned[p - 1] && p - 1 < store.len() {
            lemma_walk_piece_sound(
                walk_peer(picks, table, depth, store, peer, owned, p - 1),
                table,
                depth,
                peer,
                p - 1,
                store.unfilled[p - 1],
                store.unfilled[p - 1].len() as int,
            );
        }
    }
}

proof fn lemma_walk_peers_sound(
    peers: Seq<PeerView>,
    table: Seq<Entry>,
    depth: int,
    store: StoreView,
    order: Seq<PeerAddr>,
    k: int,
)
    ensures
        sound(walk_peers(peers, table, depth, store, order, k), table, depth),
    decreases k,
{
    if k > 0 {
        lemma_walk_peers_sound(peers, table, depth, store, order, k - 1);
        let before = walk_peers(peers, table, depth, store, order, k - 1);
        let addr = order[k - 1];
        if has_peer(peers, addr) && !peers[peer_index(peers, addr)].peer_choked {
            let owned = peers[peer_index(peers, addr)].has;
            lemma_walk_peer_sound(before, table, depth, store, addr, owned, owned.len() as int);
        }
    } else {
        let none = Seq::<Pending>::empty();
        assert forall|peer: PeerAddr|
            count_to(table, peer) + #[trigger] picked_to(none, peer) <= if count_to(table, peer) > depth {
                count_to(table, peer)
            } else {
                depth
            } by {}
    }
}

/// In one pass, together with the requests in flight, no block is asked for
/// twice: the picks are for different blocks, and none of them is for a
/// block that the table holds.
pub proof fn lemma_picks_unique(state: EngineView, order: Seq<PeerAddr>)
    ensures
        forall|i: int, j: int|
            0 <= i < j < picks_in_order(state, order).len() ==> (#[trigger] picks_in_order(state, order)[i]).0 != (
            #[trigger] picks_in_order(state, order)[j]).0,
        forall|i: int|
            0 <= i < picks_in_order(state, order).len() ==> !holds_block(
                state.requested,
                (#[trigger] picks_in_order(state, order)[i]).0,
            ),
{
    lemma_walk_peers_sound(
        state.peers,
        state.requested,
        state.depth,
        state.store,
        order,
        order.len() as int,
    );
}

/// For each peer, the requests in flight and the new ones together do not
/// pass the pipeline depth, unless those in flight alone already did, and
/// then there is no new one.
pub proof fn lemma_pipeline_bound(state: EngineView, order: Seq<PeerAddr>, peer: PeerAddr)
    ensures
        count_to(state.requested, peer) <= state.depth ==> count_to(state.requested, peer)
            + picked_to(picks_in_order(state, order), peer) <= state.depth,
        count_to(state.requested, peer) > state.depth ==> picked_to(
            picks_in_order(state, order),
            peer,
        ) == 0,
{
    lemma_walk_peers_sound(
        state.peers,
        state.requested,
        state.depth,
        state.store,
        order,
        order.len() as int,
    );
    lemma_picked_to_bounds(picks_in_order(state, order), peer);
}


/// Whether the pipeline of `peer` is full: requests in flight and picks
/// together reach the depth.
pub open spec fn full(picks: Seq<Pending>, table: Seq<Entry>, depth: int, peer: PeerAddr) -> bool {
    count_to(table, peer) + picked_to(picks, peer) >= depth
}

proof fn lemma_full_piece(
    picks: Seq<Pending>,
    table: Seq<Entry>,
    depth: int,
    peer: PeerAddr,
    piece: int,
    ranges: Seq<Range<usize>>,
    j: int,
    k: int,
)
    requires
        0 <= j <= k,
        full(walk_piece(picks, table, depth, peer, piece, ranges, j), table, depth, peer),
    ensures
        walk_piece(picks, table, depth, peer, piece, ranges, k) == walk_piece(
            picks,
            table,
            depth,
            peer,
            piece,
            ranges,
            j,
        ),
    decreases k,
{
    if k > j {
        lemma_full_piece(picks, table, depth, peer, piece, ranges, j, k - 1);
    }
}

proof fn lemma_full_peer(
    picks: Seq<Pending>,
    table: Seq<Entry>,
    depth: int,
    store: StoreView,
    peer: PeerAddr,
    owned: Seq<bool>,
    p: int,
    q: int,
)
    requires
        0 <= p <= q,
        full(walk_peer(picks, table, depth, store, peer, owned, p), table, depth, peer),
    ensures
        walk_peer(picks, table, depth, store, peer, owned, q) == walk_peer(picks, table, depth, store, peer, owned, p),
    decreases q,
{
    if q > p {
        lemma_full_peer(picks, table, depth, store, peer, owned, p, q - 1);
        if owned[q - 1] && q - 1 < store.len() {
            lemma_full_piece(
                walk_peer(picks, table, depth, store, peer, owned, q - 1),
                table,
                depth,
                peer,
                q - 1,
                store.unfilled[q - 1],
                0,
                store.unfilled[q - 1].len() as int,
            );
        }
    }
}

proof fn lemma_skip_unset(
    picks: Seq<Pending>,
    table: Seq<Entry>,
    depth: int,
    store: StoreView,
    peer: PeerAddr,
    owned: Seq<bool>,
    p: int,
    q: int,
)
    requires
        0 <= p <= q,
        forall|i: int| p <= i < q ==> !owned[i],
    ensures
        walk_peer(picks, table, depth, store, peer, owned, q) == walk_peer(picks, table, depth, store, peer, owned, p),
    decreases q,
{
    if q > p {
        lemma_skip_unset(picks, table, depth, store, peer, owned, p, q - 1);
    }
}

fn count_picked(picks: &Vec<Pending>, peer: PeerAddr) -> (r: usize)
    ensures
        r == picked_to(picks@, peer),
{
    let mut count: usize = 0;
    let mut i: usize = 0;
    while i < picks.len()
        invariant
            i <= picks@.len(),
            count == picked_to(picks@.take(i as int), peer),
            count <= i,
        decreases picks@.len() - i,
    {
        assert(picks@.take(i + 1).drop_last() =~= picks@.take(i as int));
        if picks[i].1 == peer {
            count += 1;
        }
        i += 1;
    }
    assert(picks@.take(i as int) =~= picks@);
    count
}

fn is_picked(picks: &Vec<Pending>, block: &BlockInfo) -> (r: bool)
    ensures
        r == picked_block(picks@, *block),
{
    let mut i: usize = 0;
    while i < picks.len()
        invariant
            i <= picks@.len(),
            forall|k: int| 0 <= k < i ==> (#[trigger] picks@[k]).0 != *block,
        decreases picks@.len() - i,
    {
        if same_block(&picks[i].0, block) {
            return true;
        }
        i += 1;
    }
    false
}

/// Gives the peer at `idx` its turn: its pieces in ascending order, the
/// missing blocks of each in ascending order, until its pipeline is full.
fn visit_peer(state: &MainState, idx: usize, picks: Vec<Pending>) -> (r: Vec<Pending>)
    requires
        state.wf(),
        idx < state@.peers.len(),
    ensures
        r@ == walk_peer(
            picks@,
            state@.requested,
            state@.depth,
            state@.store,
            state@.peers[idx as int].addr,
            state@.peers[idx as int].has,
            state@.peers[idx as int].has.len() as int,
        ),
{
    let depth = state.args.pipeline_depth;
    let addr = state.peers[idx].addr;
    let ghost table = state@.requested;
    let ghost store = state@.store;
    let ghost owned = state@.peers[idx as int].has;
    let ghost start = picks@;
    let mut ret = picks;
    let in_flight = state.requested.count_to(addr);
    let mut picked = count_picked(&ret, addr);
    let mut is_full = in_flight >= depth || picked >= depth - in_flight;
    let ones = state.peers[idx].has.ones();
    let mut m: usize = 0;
    let ghost mut done: int = 0;
    while m < ones.len() && !is_full
        invariant
            state.wf(),
            idx < state@.peers.len(),
            depth == state@.depth,
            addr == state@.peers[idx as int].addr,
            table == state@.requested,
            store == state@.store,
            owned == state@.peers[idx as int].has,
            in_flight == count_to(table, addr),
            picked == picked_to(ret@, addr),
            is_full == full(ret@, table, depth as int, addr),
            m <= ones@.len(),
            0 <= done <= owned.len(),
            m == 0 ==> done == 0,
            m > 0 ==> done == ones@[m - 1] + 1,
            forall|k: int| 0 <= k < ones@.len() ==> (#[trigger] ones@[k]) < owned.len() && owned[ones@[k] as int],
            forall|j: int, k: int| 0 <= j < k < ones@.len() ==> ones@[j] < ones@[k],
            forall|i: int| 0 <= i < owned.len() && owned[i] ==> ones@.contains(i as usize),
            ret@ == walk_peer(start, table, depth as int, store, addr, owned, done),
        decreases ones@.len() - m,
    {
        let piece = ones[m];
        proof {
            assert forall|i: int| done <= i < piece implies !owned[i] by {
                if owned[i] {
                    let q = choose|q: int| 0 <= q < ones@.len() && ones@[q] == i as usize;
                    if q < m {
                        if q < m - 1 {
                            assert(ones@[q] < ones@[m - 1]);
                        }
                    } else if q > m {
                        assert(ones@[m as int] < ones@[q]);
                    }
                }
            }
            if m > 0 {
                assert(ones@[m - 1] < ones@[m as int]);
            }
            lemma_skip_unset(start, table, depth as int, store, addr, owned, done, piece as int);
        }
        let ghost base = ret@;
        match state.file.get_unfilled(piece) {
            None => {},
            Some(ranges) => {
                let mut j: usize = 0;
                while j < ranges.len() && !is_full
                    invariant
                        table == state@.requested,
                        in_flight == count_to(table, addr),
                        picked == picked_to(ret@, addr),
                        is_full == full(ret@, table, depth as int, addr),
                        j <= ranges@.len(),
                        ret@ == walk_piece(base, table, depth as int, addr, piece as int, ranges@, j as int),
                    decreases ranges@.len() - j,
                {
                    let block = BlockInfo { piece, range: ranges[j].start..ranges[j].end };
                    if !state.requested.holds_block(&block) && !is_picked(&ret, &block) {
                        let ghost before = ret@;
                        ret.push((block, addr));
                        proof {
                            assert(ret@.drop_last() =~= before);
                            lemma_picked_to_bounds(before, addr);
                        }
                        picked += 1;
                        is_full = picked >= depth - in_flight;
                    }
                    j += 1;
                }
                proof {
                    if j < ranges@.len() {
                        lemma_full_piece(
                            base,
                            table,
                            depth as int,
                            addr,
                            piece as int,
                            ranges@,
                            j as int,
                            ranges@.len() as int,
                        );
                    }
                }
            },
        }
        m += 1;
        proof {
            done = piece + 1;
        }
    }
    proof {
        if is_full {
            lemma_full_peer(start, table, depth as int, store, addr, owned, done, owned.len() as int);
        } else {
            assert forall|i: int| done <= i < owned.len() implies !owned[i] by {
                if owned[i] {
                    let q = choose|q: int| 0 <= q < ones@.len() && ones@[q] == i as usize;
                    if m > 0 && q < m - 1 {
                        assert(ones@[q] < ones@[m - 1]);
                    }
                }
            }
            lemma_skip_unset(start, table, depth as int, store, addr, owned, done, owned.len() as int);
        }
    }
    ret
}

/// One scheduling pass that visits the peers in the given order.
///
/// A peer that chokes us gets nothing. Any other is asked for the missing
/// blocks of the pieces it has, by piece and then by offset, as long as
/// its requests in flight and its new ones stay below the pipeline depth.
/// A block that is in flight to any peer, or already picked in this pass,
/// is passed over.
pub fn pick_in_order(state: &MainState, order: &[PeerAddr]) -> (r: Vec<Pending>)
    requires
        state.wf(),
    ensures
        r@ == picks_in_order(state@, order@),
{
    let mut ret: Vec<Pending> = Vec::new();
    let mut k: usize = 0;
    while k < order.len()
        invariant
            state.wf(),
            k <= order@.len(),
            ret@ == walk_peers(state@.peers, state@.requested, state@.depth, state@.store, order@, k as int),
        decreases order@.len() - k,
    {
        let addr = order[k];
        match state.find_peer(addr) {
            None => {},
            Some(idx) => {
                if !state.peers[idx].peer_choked {
                    ret = visit_peer(state, idx, ret);
                }
            },
        }
        k += 1;
    }
    ret
}

/// `SliceRandom::shuffle` with `rand::thread_rng()`: puts the addresses in
/// an order that chance decides. None is lost and none is added.
#[verifier::external_body]
fn shuffle(addrs: &mut Vec<PeerAddr>)
    ensures
        final(addrs)@.to_multiset() == old(addrs)@.to_multiset(),
{
    addrs.shuffle(&mut rand::thread_rng());
}

/// One scheduling pass: the blocks to ask for now, each with the peer to
/// ask. The peers are visited in random order, and the pass is then that
/// of [`pick_in_order`].
pub fn pick_blocks(state: &MainState) -> (r: Vec<Pending>)
    requires
        state.wf(),
    ensures
        exists|order: Seq<PeerAddr>|
            order.to_multiset() == addrs_of(state@.peers).to_multiset() && r@ == #[trigger] picks_in_order(
                state@,
                order,
            ),
        forall|i: int, j: int| 0 <= i < j < r@.len() ==> (#[trigger] r@[i]).0 != (#[trigger] r@[j]).0,
        forall|i: int| 0 <= i < r@.len() ==> !holds_block(state@.requested, (#[trigger] r@[i]).0),
        forall|peer: PeerAddr|
            count_to(state@.requested, peer) <= state@.depth ==> count_to(state@.requested, peer)
                + #[trigger] picked_to(r@, peer) <= state@.depth,
{
    let mut addrs: Vec<PeerAddr> = Vec::new();
    let mut i: usize = 0;
    while i < state.peers.len()
        invariant
            i <= state.peers@.len(),
            addrs@ == addrs_of(state@.peers).take(i as int),
        decreases state.peers@.len() - i,
    {
        addrs.push(state.peers[i].addr);
        i += 1;
        assert(addrs@ =~= addrs_of(state@.peers).take(i as int));
    }
    assert(addrs_of(state@.peers).take(i as int) =~= addrs_of(state@.peers));
    shuffle(&mut addrs);
    let r = pick_in_order(state, addrs.as_slice());
    proof {
        lemma_picks_unique(state@, addrs@);
        assert forall|peer: PeerAddr|
            count_to(state@.requested, peer) <= state@.depth implies count_to(state@.requested, peer)
                + #[trigger] picked_to(r@, peer) <= state@.depth by {
            lemma_pipeline_bound(state@, addrs@, peer);
        }
    }
    r
}

} // verus!
