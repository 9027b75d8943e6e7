//! The working set of contours, merged until no two of them meet.

use crate::geo::contour::{lemma_mergeable_symmetric, ring_fault, Contour, ContourModel};
use crate::geo::edge::Edge;
use crate::geo::shape::{copy_shapes, ring_check, shape_models, wrap, ShapeE, ShapeModel};
use crate::geo::split::broken;
use crate::geo::stitch::{stitch, stitch_pool, BelongsTo, Fragment};
use crate::geo::Point;
use vstd::prelude::*;

verus! {

/// The contours held and the edge fragments that could not be stitched.
pub struct RepoModel {
    pub contours: Seq<ContourModel>,
    pub problems: Seq<Edge>,
}

/// The views of a sequence of contours.
pub open spec fn contour_models(contours: Seq<Contour>) -> Seq<ContourModel> {
    Seq::new(contours.len(), |i: int| contours[i]@)
}

/// The edges, each labelled `owner`.
pub open spec fn tagged(edges: Seq<Edge>, owner: BelongsTo) -> Seq<Fragment> {
    Seq::new(edges.len(), |i: int| Fragment { edge: edges[i], owner })
}

/// The first points of the edges of a chain.
pub open spec fn chain_starts(chain: Seq<Edge>) -> Seq<Point> {
    Seq::new(chain.len(), |i: int| chain[i].first())
}

/// The edges of the closed ring through `boundary`.
pub open spec fn ring_edges(boundary: Seq<Point>) -> Seq<Edge> {
    Seq::new(
        boundary.len(),
        |i: int| Edge::between(boundary[i], boundary[wrap(i + 1, boundary.len() as int)]),
    )
}

/// The repository after taking in one closed chain: a new contour over `area` if the starts of
/// the chain form a closed boundary, else the chain's edges as problems.
pub open spec fn absorb_loop(repo: RepoModel, chain: Seq<Edge>, area: Seq<ShapeModel>) -> RepoModel {
    let boundary = chain_starts(chain);
    if ring_fault(boundary) is None {
        RepoModel { contours: repo.contours.push(ContourModel { boundary, area }), ..repo }
    } else {
        RepoModel { problems: repo.problems + chain, ..repo }
    }
}

/// The repository after taking in the closed chains `loops[from..]` in order.
pub open spec fn absorb(repo: RepoModel, loops: Seq<Seq<Edge>>, from: int, area: Seq<ShapeModel>) -> RepoModel
    decreases loops.len() - from,
{
    if from < 0 || from >= loops.len() {
        repo
    } else {
        absorb(absorb_loop(repo, loops[from], area), loops, from + 1, area)
    }
}

/// The repository after merging the contours `a` and `b`, neither of which it holds.
///
/// The edges of each are broken against the other, the surviving fragments are stitched, and
/// every closed chain becomes a contour over the shapes of both. What could not be stitched is
/// added to the problems. When a meeting point cannot be found, all edges of both contours
/// become problems.
pub open spec fn merged(repo: RepoModel, a: ContourModel, b: ContourModel) -> RepoModel {
    let ea = broken(a, b, a.boundary.len() as int);
    let eb = broken(b, a, b.boundary.len() as int);
    if ea is Ok && eb is Ok {
        let s = stitch(tagged(ea->Ok_0, BelongsTo::A) + tagged(eb->Ok_0, BelongsTo::B));
        let r = absorb(repo, s.loops, 0, a.area + b.area);
        RepoModel { problems: r.problems + s.problems, ..r }
    } else {
        RepoModel {
            problems: repo.problems + ring_edges(a.boundary) + ring_edges(b.boundary),
            ..repo
        }
    }
}

/// The contours from `from` on are all over the shapes `area`.
pub open spec fn all_over(contours: Seq<ContourModel>, from: int, area: Seq<ShapeModel>) -> bool {
    forall|k: int| from <= k < contours.len() ==> (#[trigger] contours[k]).area == area
}

/// Taking in closed chains keeps the contours held, in their places, and adds only contours
/// over the given shapes and problems behind those there were.
pub proof fn lemma_absorb_adds(repo: RepoModel, loops: Seq<Seq<Edge>>, from: int, area: Seq<ShapeModel>)
    requires
        0 <= from,
    ensures
        absorb(repo, loops, from, area).contours.len() >= repo.contours.len(),
        absorb(repo, loops, from, area).contours.subrange(0, repo.contours.len() as int)
            == repo.contours,
        all_over(absorb(repo, loops, from, area).contours, repo.contours.len() as int, area),
        absorb(repo, loops, from, area).problems.len() >= repo.problems.len(),
        absorb(repo, loops, from, area).problems.subrange(0, repo.problems.len() as int)
            == repo.problems,
    decreases loops.len() - from,
{
    if from < loops.len() {
        let next = absorb_loop(repo, loops[from], area);
        lemma_absorb_adds(next, loops, from + 1, area);
        let out = absorb(repo, loops, from, area);
        assert(next.contours.subrange(0, repo.contours.len() as int) =~= repo.contours);
        assert(next.problems.subrange(0, repo.problems.len() as int) =~= repo.problems);
        assert(out.contours.subrange(0, repo.contours.len() as int) =~= out.contours.subrange(
            0,
            next.contours.len() as int,
        ).subrange(0, repo.contours.len() as int));
        assert(out.problems.subrange(0, repo.problems.len() as int) =~= out.problems.subrange(
            0,
            next.problems.len() as int,
        ).subrange(0, repo.problems.len() as int));
        assert forall|k: int| repo.contours.len() <= k < out.contours.len() implies (#[trigger] out.contours[k]).area
            == area by {
            if k < next.contours.len() {
                assert(out.contours.subrange(0, next.contours.len() as int)[k] == next.contours[k]);
            }
        }
    } else {
        assert(repo.contours.subrange(0, repo.contours.len() as int) =~= repo.contours);
        assert(repo.problems.subrange(0, repo.problems.len() as int) =~= repo.problems);
    }
}

/// Merging two contours keeps the contours held, in their places, and every contour it adds is
/// over the shapes of both; no problem recorded before is lost.
pub proof fn lemma_merged_adds(repo: RepoModel, a: ContourModel, b: ContourModel)
    ensures
        merged(repo, a, b).contours.len() >= repo.contours.len(),
        merged(repo, a, b).contours.subrange(0, repo.contours.len() as int) == repo.contours,
        all_over(merged(repo, a, b).contours, repo.contours.len() as int, a.area + b.area),
        merged(repo, a, b).problems.len() >= repo.problems.len(),
        merged(repo, a, b).problems.subrange(0, repo.problems.len() as int) == repo.problems,
{
    let ea = broken(a, b, a.boundary.len() as int);
    let eb = broken(b, a, b.boundary.len() as int);
    if ea is Ok && eb is Ok {
        let s = stitch(tagged(ea->Ok_0, BelongsTo::A) + tagged(eb->Ok_0, BelongsTo::B));
        lemma_absorb_adds(repo, s.loops, 0, a.area + b.area);
        let r = absorb(repo, s.loops, 0, a.area + b.area);
        assert((r.problems + s.problems).subrange(0, repo.problems.len() as int) =~= r.problems.subrange(
            0,
            repo.problems.len() as int,
        ));
    } else {
        let added = repo.problems + ring_edges(a.boundary) + ring_edges(b.boundary);
        assert(added.subrange(0, repo.problems.len() as int) =~= repo.problems);
        assert(repo.contours.subrange(0, repo.contours.len() as int) =~= repo.contours);
    }
}

/// `a` contains the whole boundary of `b`, so that `b` adds nothing to it. Two contours that
/// contain each other's boundary subsume each other.
pub open spec fn subsumes(a: ContourModel, b: ContourModel) -> bool {
    a.is_superset_of(b)
}

/// The boundaries meet and neither contour contains the other's boundary.
pub open spec fn fusible(a: ContourModel, b: ContourModel) -> bool {
    a.is_mergeable(b) && !a.is_superset_of(b) && !b.is_superset_of(a)
}

/// Something is to be done about the pair: one is dropped, or the two are merged.
pub open spec fn actionable(a: ContourModel, b: ContourModel) -> bool {
    subsumes(a, b) || subsumes(b, a) || fusible(a, b)
}

/// The two contours have nothing to do with each other: their boundaries do not meet, and
/// neither contains the whole boundary of the other.
pub open spec fn unrelated(a: ContourModel, b: ContourModel) -> bool {
    !a.is_mergeable(b) && !b.is_mergeable(a) && !a.is_superset_of(b) && !b.is_superset_of(a)
}

/// Any two different contours of the sequence are unrelated.
pub open spec fn all_unrelated(cs: Seq<ContourModel>) -> bool {
    forall|p: int, q: int|
        0 <= p < cs.len() && 0 <= q < cs.len() && p != q ==> #[trigger] unrelated(cs[p], cs[q])
}

/// The first actionable pair at or after `(i, j)`, pairs taken row by row.
pub open spec fn scan_from(cs: Seq<ContourModel>, i: int, j: int) -> Option<(int, int)>
    decreases cs.len() - i, cs.len() - j,
{
    if i < 0 || j <= i || i + 1 >= cs.len() {
        None
    } else if j >= cs.len() {
        scan_from(cs, i + 1, i + 2)
    } else if actionable(cs[i], cs[j]) {
        Some((i, j))
    } else {
        scan_from(cs, i, j + 1)
    }
}

/// The first actionable pair of contours, if there is one.
pub open spec fn first_pair(cs: Seq<ContourModel>) -> Option<(int, int)> {
    scan_from(cs, 0, 1)
}

/// The repository after acting on the pair `(i, j)`: the subsumed one is dropped (the second,
/// where each subsumes the other), or the two are taken out and merged.
pub open spec fn act(repo: RepoModel, i: int, j: int) -> RepoModel {
    let a = repo.contours[i];
    let b = repo.contours[j];
    if subsumes(a, b) {
        RepoModel { contours: repo.contours.remove(j), ..repo }
    } else if subsumes(b, a) {
        RepoModel { contours: repo.contours.remove(i), ..repo }
    } else {
        merged(RepoModel { contours: repo.contours.remove(j).remove(i), ..repo }, a, b)
    }
}

/// The repository after at most `rounds` rounds of acting on the first actionable pair.
pub open spec fn settle(repo: RepoModel, rounds: nat) -> RepoModel
    decreases rounds,
{
    if rounds == 0 {
        repo
    } else {
        match first_pair(repo.contours) {
            None => repo,
            Some((i, j)) => settle(act(repo, i, j), (rounds - 1) as nat),
        }
    }
}

/// Index of the first contour at or after `from` that contains the whole boundary of `c`.
pub open spec fn first_superset(cs: Seq<ContourModel>, c: ContourModel, from: int) -> Option<int>
    decreases cs.len() - from,
{
    if from < 0 || from >= cs.len() {
        None
    } else if cs[from].is_superset_of(c) {
        Some(from)
    } else {
        first_superset(cs, c, from + 1)
    }
}

/// Index of the first contour at or after `from` whose boundary meets that of `c`.
pub open spec fn first_mergeable(cs: Seq<ContourModel>, c: ContourModel, from: int) -> Option<int>
    decreases cs.len() - from,
{
    if from < 0 || from >= cs.len() {
        None
    } else if cs[from].is_mergeable(c) {
        Some(from)
    } else {
        first_mergeable(cs, c, from + 1)
    }
}

/// The repository after adding `c`: unchanged when a held contour contains it, else merged
/// with the first held contour it meets, else with `c` as a new contour.
pub open spec fn added(repo: RepoModel, c: ContourModel) -> RepoModel {
    if first_superset(repo.contours, c, 0) is Some {
        repo
    } else {
        match first_mergeable(repo.contours, c, 0) {
            Some(i) => merged(
                RepoModel { contours: repo.contours.remove(i), ..repo },
                repo.contours[i],
                c,
            ),
            None => RepoModel { contours: repo.contours.push(c), ..repo },
        }
    }
}

/// A working set of contours and the list of unresolved edge fragments.
#[derive(Debug)]
pub struct Contours {
    contours: Vec<Contour>,
    problems: Vec<Edge>,
}

impl View for Contours {
    type V = RepoModel;

    closed spec fn view(&self) -> RepoModel {
        RepoModel { contours: contour_models(self.contours@), problems: self.problems@ }
    }
}

/// The edges, each labelled `owner`, appended to the pool.
fn tag_into(pool: &mut Vec<Fragment>, edges: &Vec<Edge>, owner: BelongsTo)
    ensures
        final(pool)@ == old(pool)@ + tagged(edges@, owner),
{
    let mut i: usize = 0;
    while i < edges.len()
        invariant
            i <= edges.len(),
            pool@ == old(pool)@ + tagged(edges@, owner).subrange(0, i as int),
        decreases edges.len() - i,
    {
        pool.push(Fragment { edge: edges[i], owner });
        assert(tagged(edges@, owner).subrange(0, i + 1) =~= tagged(edges@, owner).subrange(
            0,
            i as int,
        ).push(Fragment { edge: edges@[i as int], owner }));
        i += 1;
    }
    assert(tagged(edges@, owner).subrange(0, edges.len() as int) =~= tagged(edges@, owner));
}

/// The first points of the edges of a chain.
fn starts_of(chain: &Vec<Edge>) -> (r: Vec<Point>)
    ensures
        r@ == chain_starts(chain@),
{
    let mut out: Vec<Point> = Vec::new();
    let mut i: usize = 0;
    while i < chain.len()
        invariant
            i <= chain.len(),
            out.len() == i,
            forall|j: int| 0 <= j < i ==> out@[j] == (#[trigger] chain@[j]).first(),
        decreases chain.len() - i,
    {
        out.push(*chain[i].start());
        i += 1;
    }
    assert(out@ =~= chain_starts(chain@));
    out
}

/// Appends all of `more` to `out`.
fn append_all(out: &mut Vec<Edge>, more: &Vec<Edge>)
    ensures
        final(out)@ == old(out)@ + more@,
{
    let mut i: usize = 0;
    while i < more.len()
        invariant
            i <= more.len(),
            out@ == old(out)@ + more@.subrange(0, i as int),
        decreases more.len() - i,
    {
        out.push(more[i]);
        assert(more@.subrange(0, i + 1) =~= more@.subrange(0, i as int).push(more@[i as int]));
        i += 1;
    }
    assert(more@.subrange(0, more.len() as int) =~= more@);
}

impl Contours {
    /// An empty repository.
    pub fn new() -> (r: Contours)
        ensures
            r@.contours.len() == 0,
            r@.problems.len() == 0,
    {
        Contours { contours: Vec::new(), problems: Vec::new() }
    }

    /// A repository holding the given contours as they are, with no problems.
    pub fn from(contours: Vec<Contour>) -> (r: Contours)
        ensures
            r@.contours == contour_models(contours@),
            r@.problems.len() == 0,
    {
        Contours { contours, problems: Vec::new() }
    }

    /// The contours held.
    pub fn contours(&self) -> (r: &Vec<Contour>)
        ensures
            contour_models(r@) == self@.contours,
    {
        &self.contours
    }

    /// The edge fragments that could not be stitched into a closed loop.
    pub fn problems(&self) -> (r: &Vec<Edge>)
        ensures
            r@ == self@.problems,
    {
        &self.problems
    }

    /// The contours and the problems, handed out.
    pub fn into_parts(self) -> (r: (Vec<Contour>, Vec<Edge>))
        ensures
            contour_models(r.0@) == self@.contours,
            r.1@ == self@.problems,
    {
        (self.contours, self.problems)
    }

    /// Takes in one closed chain found by stitching.
    fn absorb_chain(&mut self, chain: &Vec<Edge>, area: &Vec<ShapeE>)
        ensures
            final(self)@ == absorb_loop(old(self)@, chain@, shape_models(area@)),
    {
        let boundary = starts_of(chain);
        if boundary.len() >= 3 && ring_check(&boundary) {
            let c = Contour::assemble(boundary, copy_shapes(area));
            let ghost before = self.contours@;
            self.contours.push(c);
            assert(contour_models(self.contours@) =~= contour_models(before).push(c@));
        } else {
            append_all(&mut self.problems, chain);
        }
    }

    /// Takes in all the closed chains found by stitching, in order.
    fn absorb_chains(&mut self, loops: &Vec<Vec<Edge>>, area: &Vec<ShapeE>, Ghost(chains): Ghost<Seq<Seq<Edge>>>)
        requires
            loops.len() == chains.len(),
            forall|k: int| 0 <= k < loops.len() ==> (#[trigger] loops@[k])@ == chains[k],
        ensures
            final(self)@ == absorb(old(self)@, chains, 0, shape_models(area@)),
    {
        let ghost start = self@;
        let mut i: usize = 0;
        while i < loops.len()
            invariant
                i <= loops.len(),
                loops.len() == chains.len(),
                forall|k: int| 0 <= k < loops.len() ==> (#[trigger] loops@[k])@ == chains[k],
                absorb(start, chains, 0, shape_models(area@)) == absorb(
                    self@,
                    chains,
                    i as int,
                    shape_models(area@),
                ),
            decreases loops.len() - i,
        {
            self.absorb_chain(&loops[i], area);
            i += 1;
        }
    }

    /// Stitches the fragments and takes in the outcome.
    fn stitch_in(&mut self, pool: Vec<Fragment>, area: &Vec<ShapeE>)
        ensures
            final(self)@ == (RepoModel {
                problems: absorb(old(self)@, stitch(pool@).loops, 0, shape_models(area@)).problems
                    + stitch(pool@).problems,
                ..absorb(old(self)@, stitch(pool@).loops, 0, shape_models(area@))
            }),
    {
        let ghost chains = stitch(pool@).loops;
        let (loops, leftover) = stitch_pool(pool);
        self.absorb_chains(&loops, area, Ghost(chains));
        append_all(&mut self.problems, &leftover);
    }

    /// Records every edge of both contours as a problem.
    fn give_up(&mut self, a: &Contour, b: &Contour)
        ensures
            final(self)@ == (RepoModel {
                problems: old(self)@.problems + ring_edges(a@.boundary) + ring_edges(b@.boundary),
                ..old(self)@
            }),
    {
        let ra = a.edges();
        let rb = b.edges();
        assert(ra@ =~= ring_edges(a@.boundary));
        assert(rb@ =~= ring_edges(b@.boundary));
        append_all(&mut self.problems, &ra);
        append_all(&mut self.problems, &rb);
    }

    /// Merges two contours taken out of the repository and puts the outcome back.
    pub fn merge(&mut self, a: Contour, b: Contour)
        ensures
            final(self)@ == merged(old(self)@, a@, b@),
    {
        let edges_a = a.break_edges(&b);
        let edges_b = b.break_edges(&a);
        match edges_a {
            Ok(ea) => match edges_b {
                Ok(eb) => {
                    let mut pool: Vec<Fragment> = Vec::new();
                    tag_into(&mut pool, &ea, BelongsTo::A);
                    tag_into(&mut pool, &eb, BelongsTo::B);
                    assert(pool@ =~= tagged(ea@, BelongsTo::A) + tagged(eb@, BelongsTo::B));
                    let area = join_areas(a, b);
                    self.stitch_in(pool, &area);
                },
                Err(_) => {
                    self.give_up(&a, &b);
                },
            },
            Err(_) => {
                self.give_up(&a, &b);
            },
        }
    }
}

/// What is to be done about a pair of contours.
#[derive(Clone, Copy, Debug, PartialEq, Eq, Structural)]
pub enum PairAction {
    /// Nothing: the two stay as they are.
    Keep,
    /// The second is dropped: the first contains its whole boundary.
    DropSecond,
    /// The first is dropped: the second contains its whole boundary, and the first does not
    /// contain the second's.
    DropFirst,
    /// The two are merged.
    Merge,
}

/// What is to be done about the pair `(a, b)`.
pub open spec fn action_for(a: ContourModel, b: ContourModel) -> PairAction {
    if subsumes(a, b) {
        PairAction::DropSecond
    } else if subsumes(b, a) {
        PairAction::DropFirst
    } else if fusible(a, b) {
        PairAction::Merge
    } else {
        PairAction::Keep
    }
}

/// Decides what is to be done about a pair of contours.
pub fn decide(a: &Contour, b: &Contour) -> (r: PairAction)
    ensures
        r == action_for(a@, b@),
        (r != PairAction::Keep) == actionable(a@, b@),
{
    if a.is_superset_of(b) {
        PairAction::DropSecond
    } else if b.is_superset_of(a) {
        PairAction::DropFirst
    } else if a.is_mergeable(b) {
        PairAction::Merge
    } else {
        PairAction::Keep
    }
}

/// The scan finds a pair inside the sequence that is actionable, and every pair before it, row
/// by row, is not; when it finds none, no pair at or after the starting one is actionable.
pub proof fn lemma_scan_finds_first(cs: Seq<ContourModel>, i: int, j: int)
    requires
        0 <= i < j,
    ensures
        match scan_from(cs, i, j) {
            Some((a, b)) => i <= a < b < cs.len() && actionable(cs[a], cs[b]) && (forall|q: int|
                j <= q < cs.len() && a > i ==> !actionable(cs[i], #[trigger] cs[q])) && (forall|
                p: int,
                q: int,
            |
                i < p < a && p < q < cs.len() ==> !#[trigger] actionable(cs[p], cs[q])) && (
            forall|q: int|
                (if a == i {
                    j
                } else {
                    a + 1
                }) <= q < b ==> !actionable(cs[a], #[trigger] cs[q])),
            None => (forall|q: int| j <= q < cs.len() ==> !actionable(cs[i], #[trigger] cs[q]))
                && (forall|p: int, q: int|
                i < p < q < cs.len() ==> !#[trigger] actionable(cs[p], cs[q])),
        },
    decreases cs.len() - i, cs.len() - j,
{
    if i + 1 >= cs.len() {
    } else if j >= cs.len() {
        lemma_scan_finds_first(cs, i + 1, i + 2);
    } else if actionable(cs[i], cs[j]) {
    } else {
        lemma_scan_finds_first(cs, i, j + 1);
    }
}

/// A repository is settled exactly when no pair of its contours is actionable.
pub proof fn lemma_settled_means_no_pair(cs: Seq<ContourModel>)
    ensures
        first_pair(cs) is None <==> forall|p: int, q: int|
            0 <= p < q < cs.len() ==> !#[trigger] actionable(cs[p], cs[q]),
{
    lemma_scan_finds_first(cs, 0, 1);
}

/// A pair is left alone exactly when its boundaries do not meet and neither contour contains
/// the whole boundary of the other; this holds of `(a, b)` exactly when it holds of `(b, a)`.
pub proof fn lemma_actionable_or_unrelated(a: ContourModel, b: ContourModel)
    ensures
        actionable(a, b) == !unrelated(a, b),
        actionable(a, b) == actionable(b, a),
        unrelated(a, b) == unrelated(b, a),
{
    lemma_mergeable_symmetric(a, b);
}

/// A repository is settled exactly when no two of its contours meet and none contains the
/// whole boundary of another. Two contours that contain each other's boundary are therefore
/// never both left in a settled repository.
pub proof fn lemma_settled_means_unrelated(cs: Seq<ContourModel>)
    ensures
        first_pair(cs) is None <==> all_unrelated(cs),
{
    lemma_settled_means_no_pair(cs);
    if first_pair(cs) is None {
        assert forall|p: int, q: int|
            0 <= p < cs.len() && 0 <= q < cs.len() && p != q implies #[trigger] unrelated(
            cs[p],
            cs[q],
        ) by {
            lemma_actionable_or_unrelated(cs[p], cs[q]);
            if p < q {
                assert(!actionable(cs[p], cs[q]));
            } else {
                lemma_actionable_or_unrelated(cs[q], cs[p]);
                assert(!actionable(cs[q], cs[p]));
            }
        }
    }
    if all_unrelated(cs) {
        assert forall|p: int, q: int| 0 <= p < q < cs.len() implies !#[trigger] actionable(
            cs[p],
            cs[q],
        ) by {
            assert(unrelated(cs[p], cs[q]));
            lemma_actionable_or_unrelated(cs[p], cs[q]);
        }
    }
}

/// A settled repository is a fixed point: no number of further rounds changes it.
pub proof fn lemma_settled_is_fixed(repo: RepoModel, rounds: nat)
    requires
        first_pair(repo.contours) is None,
    ensures
        settle(repo, rounds) == repo,
{
}

/// Settling again after the repository has settled changes nothing.
pub proof fn lemma_settle_again(repo: RepoModel, rounds: nat, again: nat)
    requires
        first_pair(settle(repo, rounds).contours) is None,
    ensures
        settle(settle(repo, rounds), again) == settle(repo, rounds),
{
    lemma_settled_is_fixed(settle(repo, rounds), again);
}

/// Rounds add up: settling for `m + n` rounds is settling for `m` and then for `n`.
pub proof fn lemma_settle_rounds_add(repo: RepoModel, m: nat, n: nat)
    ensures
        settle(repo, m + n) == settle(settle(repo, m), n),
    decreases m,
{
    if m == 0 {
    } else {
        match first_pair(repo.contours) {
            None => {
                lemma_settled_is_fixed(repo, n);
            },
            Some((i, j)) => {
                lemma_settle_rounds_add(act(repo, i, j), (m - 1) as nat, n);
            },
        }
    }
}

impl Contours {
    /// The first pair of contours, row by row, about which something is to be done.
    pub fn find_pair(&self) -> (r: Option<(usize, usize, PairAction)>)
        ensures
            match r {
                Some((i, j, what)) => first_pair(self@.contours) == Some((i as int, j as int))
                    && i < j < self@.contours.len() && what == action_for(
                    self@.contours[i as int],
                    self@.contours[j as int],
                ) && what != PairAction::Keep,
                None => first_pair(self@.contours) is None,
            },
    {
        let n = self.contours.len();
        let ghost cs = self@.contours;
        let mut i: usize = 0;
        while i < n
            invariant
                i <= n,
                n == self.contours.len(),
                cs == self@.contours,
                cs.len() == n,
                first_pair(cs) == scan_from(cs, i as int, i + 1),
            decreases n - i,
        {
            let mut j: usize = i + 1;
            while j < n
                invariant
                    i < n,
                    i < j <= n,
                    n == self.contours.len(),
                    cs == self@.contours,
                    cs.len() == n,
                    first_pair(cs) == scan_from(cs, i as int, j as int),
                decreases n - j,
            {
                let what = decide(&self.contours[i], &self.contours[j]);
                if what != PairAction::Keep {
                    return Some((i, j, what));
                }
                j += 1;
            }
            i += 1;
        }
        None
    }

    /// Adds a contour: it is discarded when a held contour contains its whole boundary, else
    /// merged with the first held contour whose boundary it meets, else kept as a new one.
    pub fn add(&mut self, contour: Contour)
        ensures
            final(self)@ == added(old(self)@, contour@),
    {
        let ghost cs = self@.contours;
        let n = self.contours.len();
        let mut i: usize = 0;
        while i < n
            invariant
                i <= n,
                n == self.contours.len(),
                cs == self@.contours,
                self@ == old(self)@,
                first_superset(cs, contour@, 0) == first_superset(cs, contour@, i as int),
            decreases n - i,
        {
            if self.contours[i].is_superset_of(&contour) {
                return ;
            }
            i += 1;
        }
        let mut k: usize = 0;
        while k < n
            invariant
                k <= n,
                n == self.contours.len(),
                cs == self@.contours,
                self@ == old(self)@,
                first_superset(cs, contour@, 0) is None,
                first_mergeable(cs, contour@, 0) == first_mergeable(cs, contour@, k as int),
            decreases n - k,
        {
            if self.contours[k].is_mergeable(&contour) {
                let ghost before = self.contours@;
                let held = self.contours.remove(k);
                assert(contour_models(self.contours@) =~= contour_models(before).remove(k as int));
                self.merge(held, contour);
                return ;
            }
            k += 1;
        }
        let ghost before = self.contours@;
        self.contours.push(contour);
        assert(contour_models(self.contours@) =~= contour_models(before).push(contour@));
    }

    /// Acts on the pair `(i, j)` as `what` says.
    fn act_on(&mut self, i: usize, j: usize, what: PairAction)
        requires
            i < j < old(self)@.contours.len(),
            what == action_for(old(self)@.contours[i as int], old(self)@.contours[j as int]),
            what != PairAction::Keep,
        ensures
            final(self)@ == act(old(self)@, i as int, j as int),
    {
        let ghost before = self.contours@;
        match what {
            PairAction::DropSecond => {
                let _ = self.contours.remove(j);
                assert(contour_models(self.contours@) =~= contour_models(before).remove(j as int));
            },
            PairAction::DropFirst => {
                let _ = self.contours.remove(i);
                assert(contour_models(self.contours@) =~= contour_models(before).remove(i as int));
            },
            _ => {
                let b = self.contours.remove(j);
                let a = self.contours.remove(i);
                assert(contour_models(self.contours@) =~= contour_models(before).remove(
                    j as int,
                ).remove(i as int));
                self.merge(a, b);
            },
        }
    }

    /// Acts on the first actionable pair, again and again, for at most `rounds` rounds.
    /// Returns whether no actionable pair is left: whether no two contours meet any more and
    /// none contains the whole boundary of another.
    pub fn merge_rounds(&mut self, rounds: usize) -> (settled: bool)
        ensures
            final(self)@ == settle(old(self)@, rounds as nat),
            settled == (first_pair(final(self)@.contours) is None),
            settled == all_unrelated(final(self)@.contours),
            first_pair(old(self)@.contours) is None ==> settled && final(self)@ == old(self)@,
    {
        let mut left: usize = rounds;
        loop
            invariant
                settle(old(self)@, rounds as nat) == settle(self@, left as nat),
                first_pair(old(self)@.contours) is None ==> self@ == old(self)@,
            decreases left,
        {
            proof {
                lemma_settled_means_unrelated(self@.contours);
            }
            match self.find_pair() {
                None => {
                    return true;
                },
                Some((i, j, what)) => {
                    if left == 0 {
                        return false;
                    }
                    self.act_on(i, j, what);
                    left -= 1;
                },
            }
        }
    }

    /// Takes the first pair of contours of which one contains the whole boundary of the other,
    /// or whose boundaries meet, drops the contained one (the second, where each contains the
    /// other) or merges the two, and starts again, until no such pair is left. Returns whether
    /// that state was reached within `usize::MAX` rounds: then no two contours meet and none
    /// contains the whole boundary of another.
    ///
    /// A repository that is already settled is left as it is.
    pub fn merge_all(&mut self) -> (settled: bool)
        ensures
            final(self)@ == settle(old(self)@, usize::MAX as nat),
            settled == (first_pair(final(self)@.contours) is None),
            settled == all_unrelated(final(self)@.contours),
            first_pair(old(self)@.contours) is None ==> settled && final(self)@ == old(self)@,
    {
        self.merge_rounds(usize::MAX)
    }
}

/// The shapes of both contours, those of `a` first.
fn join_areas(a: Contour, b: Contour) -> (area: Vec<ShapeE>)
    ensures
        shape_models(area@) == a@.area + b@.area,
{
    let (_, mut area) = a.dismantle();
    let (_, mut area_b) = b.dismantle();
    let ghost first = area@;
    let ghost second = area_b@;
    area.append(&mut area_b);
    assert(shape_models(area@) =~= shape_models(first) + shape_models(second));
    area
}

} // verus!
