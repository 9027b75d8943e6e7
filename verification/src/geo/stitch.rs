//! Reassembling closed loops from a pool of tagged, disconnected edge fragments.

use crate::geo::edge::Edge;
use crate::geo::{Point, Pt};
use vstd::prelude::*;

verus! {

/// Which of the two contours being merged a fragment came from.
#[derive(Clone, Copy, Debug, PartialEq, Eq, Structural)]
pub enum BelongsTo {
    A,
    B,
}

impl BelongsTo {
    /// The label of the opposite contour.
    pub open spec fn flipped(self) -> BelongsTo {
        match self {
            BelongsTo::A => BelongsTo::B,
            BelongsTo::B => BelongsTo::A,
        }
    }

    /// The label of the opposite contour.
    pub fn other(&self) -> (r: Self)
        ensures
            r == self.flipped(),
    {
        match self {
            BelongsTo::A => BelongsTo::B,
            BelongsTo::B => BelongsTo::A,
        }
    }
}

/// A surviving piece of a contour's boundary, labelled with the contour it came from.
#[derive(Clone, Copy, Debug)]
pub struct Fragment {
    pub edge: Edge,
    pub owner: BelongsTo,
}

/// Whether fragment `i` of the pool has the wanted label and starts where the chain ends.
pub open spec fn continues(pool: Seq<Fragment>, i: int, at: Pt, owner: BelongsTo) -> bool {
    pool[i].owner == owner && at.coincides(pool[i].edge@.start)
}

/// Index of the first fragment at or after `from` that has the wanted label and starts at `at`.
pub open spec fn find_from(pool: Seq<Fragment>, at: Pt, owner: BelongsTo, from: int) -> Option<int>
    decreases pool.len() - from,
{
    if from < 0 || from >= pool.len() {
        None
    } else if continues(pool, from, at, owner) {
        Some(from)
    } else {
        find_from(pool, at, owner, from + 1)
    }
}

/// What happens to a chain at the end of its last edge.
pub enum Step {
    /// The chain goes on with the fragment at this index.
    Take(int),
    /// The chain is back at its start and closes.
    Close,
    /// Nothing continues the chain.
    Stop,
}

/// The next step of the chain that started at `origin` and now ends with `prev`.
///
/// A fragment of the other contour that starts where `prev` ends is taken first: this is the
/// cross-over at a point where the contours meet. Failing that, the chain closes if it is back
/// at `origin`. Failing that, a fragment of the same contour is taken.
pub open spec fn next_step(pool: Seq<Fragment>, origin: Pt, prev: Fragment) -> Step {
    match find_from(pool, prev.edge@.end, prev.owner.flipped(), 0) {
        Some(i) => Step::Take(i),
        None => if prev.edge@.end.coincides(origin) {
            Step::Close
        } else {
            match find_from(pool, prev.edge@.end, prev.owner, 0) {
                Some(i) => Step::Take(i),
                None => Step::Stop,
            }
        },
    }
}

/// Outcome of following one chain through the pool.
pub struct Walk {
    /// The edges of the chain, in order.
    pub chain: Seq<Edge>,
    /// The fragments the chain did not consume.
    pub rest: Seq<Fragment>,
    /// Whether the chain came back to its first edge's start.
    pub closed: bool,
}

/// Follows the chain that so far consists of `chain` and ends with `prev`, taking fragments out
/// of `pool` until the chain closes or nothing continues it.
pub open spec fn walk(pool: Seq<Fragment>, chain: Seq<Edge>, prev: Fragment) -> Walk
    decreases pool.len(),
{
    match next_step(pool, chain[0]@.start, prev) {
        Step::Take(i) => if 0 <= i < pool.len() {
            walk(pool.remove(i), chain.push(pool[i].edge), pool[i])
        } else {
            Walk { chain, rest: pool, closed: false }
        },
        Step::Close => Walk { chain, rest: pool, closed: true },
        Step::Stop => Walk { chain, rest: pool, closed: false },
    }
}

/// The edges of a pool of fragments, labels dropped.
pub open spec fn edges_of(pool: Seq<Fragment>) -> Seq<Edge> {
    Seq::new(pool.len(), |i: int| pool[i].edge)
}

/// Outcome of stitching a whole pool.
pub struct Stitched {
    /// The closed chains found, in the order found.
    pub loops: Seq<Seq<Edge>>,
    /// The chain that could not be closed, followed by everything left in the pool.
    pub problems: Seq<Edge>,
}

/// Stitches the pool into closed chains: the last fragment seeds a chain, the chain is walked,
/// and the rest of the pool is stitched in turn; the first chain that cannot be closed ends the
/// pass, and it and all remaining fragments become problems.
pub open spec fn stitch(pool: Seq<Fragment>) -> Stitched
    decreases pool.len(),
{
    if pool.len() == 0 {
        Stitched { loops: Seq::empty(), problems: Seq::empty() }
    } else {
        let seed = pool.last();
        let w = walk(pool.drop_last(), seq![seed.edge], seed);
        if w.closed && w.rest.len() < pool.len() {
            let s = stitch(w.rest);
            Stitched { loops: seq![w.chain] + s.loops, problems: s.problems }
        } else {
            Stitched { loops: Seq::empty(), problems: w.chain + edges_of(w.rest) }
        }
    }
}

/// A walk never adds fragments to the pool, and consumes one for every edge it adds to the chain.
pub proof fn lemma_walk_conserves(pool: Seq<Fragment>, chain: Seq<Edge>, prev: Fragment)
    ensures
        walk(pool, chain, prev).chain.len() + walk(pool, chain, prev).rest.len() == chain.len()
            + pool.len(),
        walk(pool, chain, prev).chain.len() >= chain.len(),
    decreases pool.len(),
{
    match next_step(pool, chain[0]@.start, prev) {
        Step::Take(i) => {
            if 0 <= i < pool.len() {
                lemma_walk_conserves(pool.remove(i), chain.push(pool[i].edge), pool[i]);
            }
        },
        _ => {},
    }
}

/// `find_from` returns an index inside the pool, at or after `from`, that continues the chain,
/// and no fragment between `from` and that index does.
pub proof fn lemma_find_from_first(pool: Seq<Fragment>, at: Pt, owner: BelongsTo, from: int)
    requires
        0 <= from,
    ensures
        match find_from(pool, at, owner, from) {
            Some(i) => from <= i < pool.len() && continues(pool, i, at, owner) && forall|j: int|
                from <= j < i ==> !continues(pool, j, at, owner),
            None => forall|j: int| from <= j < pool.len() ==> !continues(pool, j, at, owner),
        },
    decreases pool.len() - from,
{
    if from < pool.len() && !continues(pool, from, at, owner) {
        lemma_find_from_first(pool, at, owner, from + 1);
    }
}

/// Edge `k` of the chain ends where the edge after it starts, within the tolerance.
pub open spec fn links(chain: Seq<Edge>, k: int) -> bool {
    chain[k]@.end.coincides(chain[k + 1]@.start)
}

/// Each edge of the chain starts where the edge before it ends, within the tolerance.
pub open spec fn is_connected(chain: Seq<Edge>) -> bool {
    forall|k: int| 0 <= k < chain.len() - 1 ==> #[trigger] links(chain, k)
}

/// The chain is connected and its last edge ends where its first edge starts.
pub open spec fn is_closed_chain(chain: Seq<Edge>) -> bool {
    &&& chain.len() > 0
    &&& is_connected(chain)
    &&& chain.last()@.end.coincides(chain[0]@.start)
}

/// The number of edges in all the chains together.
pub open spec fn total_len(loops: Seq<Seq<Edge>>) -> nat
    decreases loops.len(),
{
    if loops.len() == 0 {
        0
    } else {
        loops[0].len() + total_len(loops.drop_first())
    }
}

/// A walk keeps a connected chain connected, and a walk that closes ends where it began.
pub proof fn lemma_walk_connected(pool: Seq<Fragment>, chain: Seq<Edge>, prev: Fragment)
    requires
        chain.len() > 0,
        chain.last() == prev.edge,
        is_connected(chain),
    ensures
        is_connected(walk(pool, chain, prev).chain),
        walk(pool, chain, prev).chain.len() > 0,
        walk(pool, chain, prev).chain[0] == chain[0],
        walk(pool, chain, prev).closed ==> is_closed_chain(walk(pool, chain, prev).chain),
    decreases pool.len(),
{
    match next_step(pool, chain[0]@.start, prev) {
        Step::Take(i) => {
            lemma_find_from_first(pool, prev.edge@.end, prev.owner.flipped(), 0);
            lemma_find_from_first(pool, prev.edge@.end, prev.owner, 0);
            if 0 <= i < pool.len() {
                let longer = chain.push(pool[i].edge);
                assert forall|k: int| 0 <= k < longer.len() - 1 implies #[trigger] links(longer, k) by {
                    if k < chain.len() - 1 {
                        assert(links(chain, k));
                    }
                }
                lemma_walk_connected(pool.remove(i), longer, pool[i]);
            }
        },
        Step::Close => {},
        Step::Stop => {},
    }
}

/// Every chain that stitching returns is closed, and no edge is lost or made up: the chains
/// and the problems together hold as many edges as the pool held fragments.
pub proof fn lemma_stitch_sound(pool: Seq<Fragment>)
    ensures
        forall|k: int| 0 <= k < stitch(pool).loops.len() ==> is_closed_chain(#[trigger] stitch(pool).loops[k]),
        total_len(stitch(pool).loops) + stitch(pool).problems.len() == pool.len(),
    decreases pool.len(),
{
    if pool.len() > 0 {
        let seed = pool.last();
        let start = seq![seed.edge];
        let w = walk(pool.drop_last(), start, seed);
        lemma_walk_conserves(pool.drop_last(), start, seed);
        lemma_walk_connected(pool.drop_last(), start, seed);
        if w.closed && w.rest.len() < pool.len() {
            lemma_stitch_sound(w.rest);
            let s = stitch(w.rest);
            let all = seq![w.chain] + s.loops;
            assert(all.drop_first() =~= s.loops);
            assert forall|k: int| 0 <= k < all.len() implies is_closed_chain(#[trigger] all[k]) by {
                if k > 0 {
                    assert(all[k] == s.loops[k - 1]);
                }
            }
        } else {
            assert(total_len(Seq::<Seq<Edge>>::empty()) == 0);
        }
    }
}

/// Index of the first fragment with the wanted label that starts at `at`.
pub fn find_next(pool: &Vec<Fragment>, at: &Point, owner: BelongsTo) -> (r: Option<usize>)
    ensures
        match r {
            Some(i) => find_from(pool@, at@, owner, 0) == Some(i as int) && i < pool.len(),
            None => find_from(pool@, at@, owner, 0) is None,
        },
{
    let mut i: usize = 0;
    while i < pool.len()
        invariant
            i <= pool.len(),
            find_from(pool@, at@, owner, 0) == find_from(pool@, at@, owner, i as int),
        decreases pool.len() - i,
    {
        let f = &pool[i];
        if f.owner == owner && at.coincides(f.edge.start()) {
            return Some(i);
        }
        i += 1;
    }
    None
}

/// What the chain does next, as an executable value.
#[derive(Clone, Copy, Debug, PartialEq, Eq)]
pub enum Move {
    /// Go on with the fragment at this index.
    Take(usize),
    /// Close the chain.
    Close,
    /// Give the chain up.
    Stop,
}

/// Decides the next step of the chain that started at `origin` and now ends with `prev`.
pub fn decide_step(pool: &Vec<Fragment>, origin: &Point, prev: &Fragment) -> (r: Move)
    ensures
        match r {
            Move::Take(i) => next_step(pool@, origin@, *prev) == Step::Take(i as int) && i
                < pool.len(),
            Move::Close => next_step(pool@, origin@, *prev) == Step::Close,
            Move::Stop => next_step(pool@, origin@, *prev) == Step::Stop,
        },
{
    match find_next(pool, prev.edge.end(), prev.owner.other()) {
        Some(i) => Move::Take(i),
        None => {
            if prev.edge.end().coincides(origin) {
                Move::Close
            } else {
                match find_next(pool, prev.edge.end(), prev.owner) {
                    Some(i) => Move::Take(i),
                    None => Move::Stop,
                }
            }
        },
    }
}

/// Follows the chain seeded by `seed` through `pool`, removing the fragments it consumes.
/// Returns the chain and whether it closed.
pub fn walk_chain(pool: &mut Vec<Fragment>, seed: Fragment) -> (r: (Vec<Edge>, bool))
    ensures
        r.0@ == walk(old(pool)@, seq![seed.edge], seed).chain,
        final(pool)@ == walk(old(pool)@, seq![seed.edge], seed).rest,
        r.1 == walk(old(pool)@, seq![seed.edge], seed).closed,
{
    let ghost goal = walk(pool@, seq![seed.edge], seed);
    let mut chain: Vec<Edge> = Vec::new();
    chain.push(seed.edge);
    assert(chain@ == seq![seed.edge]);
    let origin: Point = *seed.edge.start();
    let mut prev: Fragment = seed;
    let mut closed: bool = false;
    let mut done: bool = false;
    while !done
        invariant
            chain.len() > 0,
            chain@[0]@.start == origin@,
            done || !closed,
            goal == if done {
                Walk { chain: chain@, rest: pool@, closed }
            } else {
                walk(pool@, chain@, prev)
            },
        decreases pool.len() + if done { 0nat } else { 1nat },
    {
        let ghost pool0 = pool@;
        let ghost chain0 = chain@;
        let ghost prev0 = prev;
        match decide_step(pool, &origin, &prev) {
            Move::Take(i) => {
                let next = pool.remove(i);
                chain.push(next.edge);
                prev = next;
                assert(chain@[0] == chain0[0]);
                assert(walk(pool0, chain0, prev0) == walk(pool@, chain@, prev));
            },
            Move::Close => {
                closed = true;
                done = true;
                assert(walk(pool0, chain0, prev0) == Walk { chain: chain0, rest: pool0, closed: true });
            },
            Move::Stop => {
                done = true;
                assert(walk(pool0, chain0, prev0) == Walk { chain: chain0, rest: pool0, closed: false });
            },
        }
    }
    (chain, closed)
}

/// Copies the edges of the fragments onto the end of `out`.
pub fn append_edges(out: &mut Vec<Edge>, pool: &Vec<Fragment>)
    ensures
        final(out)@ == old(out)@ + edges_of(pool@),
{
    let mut i: usize = 0;
    while i < pool.len()
        invariant
            i <= pool.len(),
            out@ == old(out)@ + edges_of(pool@).subrange(0, i as int),
        decreases pool.len() - i,
    {
        out.push(pool[i].edge);
        assert(edges_of(pool@).subrange(0, i + 1) == edges_of(pool@).subrange(0, i as int).push(
            pool@[i as int].edge,
        ));
        i += 1;
    }
    assert(edges_of(pool@).subrange(0, pool.len() as int) == edges_of(pool@));
}

/// Stitches a pool of fragments into closed chains; what cannot be closed comes back as
/// problems.
pub fn stitch_pool(fragments: Vec<Fragment>) -> (r: (Vec<Vec<Edge>>, Vec<Edge>))
    ensures
        r.0.len() == stitch(fragments@).loops.len(),
        forall|i: int| 0 <= i < r.0.len() ==> (#[trigger] r.0[i])@ == stitch(fragments@).loops[i],
        r.1@ == stitch(fragments@).problems,
{
    let ghost start = fragments@;
    let mut pool = fragments;
    let mut loops: Vec<Vec<Edge>> = Vec::new();
    let mut problems: Vec<Edge> = Vec::new();
    let ghost mut found: Seq<Seq<Edge>> = Seq::empty();
    while pool.len() > 0
        invariant
            start == fragments@,
            loops.len() == found.len(),
            forall|i: int| 0 <= i < loops.len() ==> (#[trigger] loops[i])@ == found[i],
            problems@.len() == 0,
            stitch(start).loops == found + stitch(pool@).loops,
            stitch(start).problems == stitch(pool@).problems,
        decreases pool.len(),
    {
        let ghost before = pool@;
        let seed = pool.pop().unwrap();
        assert(pool@ == before.drop_last());
        let (chain, closed) = walk_chain(&mut pool, seed);
        proof {
            lemma_walk_conserves(before.drop_last(), seq![seed.edge], seed);
        }
        if closed {
            proof {
                let s = stitch(pool@);
                assert(stitch(before).loops == seq![chain@] + s.loops);
                assert(found + (seq![chain@] + s.loops) == found.push(chain@) + s.loops);
                found = found.push(chain@);
            }
            loops.push(chain);
        } else {
            let mut chain = chain;
            append_edges(&mut chain, &pool);
            assert(stitch(before).loops == Seq::<Seq<Edge>>::empty());
            assert(found + Seq::<Seq<Edge>>::empty() == found);
            assert(stitch(start).loops == found);
            return (loops, chain);
        }
    }
    assert(found + Seq::<Seq<Edge>>::empty() == found);
    (loops, problems)
}

} // verus!
