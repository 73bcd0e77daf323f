//! The rebase planner: turns requested moves of commits onto new parents
//! into an ordered list of picks, refusing illegal moves, moves of public
//! commits, and moves whose constraints form a cycle.
use vstd::prelude::*;
use crate::event::Oid;
use crate::graph::{contains, copy_oids, is_ancestor_of_any, CommitGraph, GraphModel};

verus! {

/// A request to move `commit` (with its descendants) onto `new_parents`.
pub struct Move {
    pub commit: Oid,
    pub new_parents: Vec<Oid>,
}

/// One step of a plan: pick `commit` onto `parents`.
pub struct RebaseStep {
    pub commit: Oid,
    pub parents: Vec<Oid>,
}

/// An ordered list of picks.
pub struct RebasePlan {
    pub steps: Vec<RebaseStep>,
}

/// Why a plan could not be built.
pub enum BuildRebasePlanError {
    /// The moves' constraints form a cycle among these commits.
    ConstraintCycle { commits: Vec<Oid> },
    /// These commits cannot be moved: not visible, a root, or moved onto an
    /// unknown commit.
    MoveIllegalCommits { commits: Vec<Oid> },
    /// These public commits would be rewritten.
    MovePublicCommits { public_commits_to_move: Vec<Oid> },
}

/// How a plan is built.
pub struct BuildRebasePlanOptions {
    pub force_rewrite_public_commits: bool,
    pub detect_duplicate_commits_via_patch_id: bool,
}

/// Move `m` can be carried out in `g`.
pub open spec fn is_legal_move(g: GraphModel, m: Move) -> bool {
    g.visible.contains(m.commit) && g.parents.dom().contains(m.commit)
        && g.parents[m.commit].len() > 0 && forall|k: int|
        0 <= k < m.new_parents@.len() ==> g.parents.dom().contains(
            #[trigger] m.new_parents@[k],
        )
}

/// The commits of the moves that cannot be carried out, in order.
pub open spec fn illegal_commits(g: GraphModel, moves: Seq<Move>) -> Seq<Oid>
    decreases moves.len(),
{
    if moves.len() == 0 {
        Seq::empty()
    } else {
        let rest = illegal_commits(g, moves.drop_last());
        if is_legal_move(g, moves.last()) {
            rest
        } else {
            rest.push(moves.last().commit)
        }
    }
}

/// The commits of the moves that are public, in order.
pub open spec fn public_commits(g: GraphModel, moves: Seq<Move>) -> Seq<Oid>
    decreases moves.len(),
{
    if moves.len() == 0 {
        Seq::empty()
    } else {
        let rest = public_commits(g, moves.drop_last());
        if g.public.contains(moves.last().commit) {
            rest.push(moves.last().commit)
        } else {
            rest
        }
    }
}

/// Move `m` puts its commit onto one of its own descendants (or onto
/// itself), which would close a cycle of parents.
pub open spec fn is_onto_descendant(g: GraphModel, m: Move) -> bool {
    exists|k: int|
        0 <= k < m.new_parents@.len() && is_ancestor_of_any(
            g.parents,
            seq![#[trigger] m.new_parents@[k]],
            m.commit,
        )
}

/// The commits of the moves onto their own descendants, in order.
pub open spec fn looping_commits(g: GraphModel, moves: Seq<Move>) -> Seq<Oid>
    decreases moves.len(),
{
    if moves.len() == 0 {
        Seq::empty()
    } else {
        let rest = looping_commits(g, moves.drop_last());
        if is_onto_descendant(g, moves.last()) {
            rest.push(moves.last().commit)
        } else {
            rest
        }
    }
}

/// Move `i` must come after move `j`: `j`'s commit is a new parent of `i`.
pub open spec fn depends(moves: Seq<Move>, i: int, j: int) -> bool {
    moves[i].new_parents@.contains(moves[j].commit)
}

/// `idx` names moves each of which depends on another move of `idx`: no
/// order can satisfy them.
pub open spec fn is_cycle_witness(moves: Seq<Move>, idx: Seq<int>) -> bool {
    idx.len() > 0 && (forall|a: int| 0 <= a < idx.len() ==> 0 <= #[trigger] idx[a] < moves.len())
        && forall|a: int| 0 <= a < idx.len() ==> #[trigger] depends_within(moves, idx, idx[a])
}

/// Move `x` depends on some move of `idx`.
pub open spec fn depends_within(moves: Seq<Move>, idx: Seq<int>, x: int) -> bool {
    exists|b: int| 0 <= b < idx.len() && #[trigger] depends(moves, x, idx[b])
}

/// No two moves name the same commit.
pub open spec fn distinct_commits(moves: Seq<Move>) -> bool {
    forall|i: int, j: int|
        0 <= i < moves.len() && 0 <= j < moves.len() && i != j ==> moves[i].commit
            != moves[j].commit
}

/// No two steps name the same commit.
pub open spec fn distinct_steps(steps: Seq<RebaseStep>) -> bool {
    forall|i: int, j: int|
        0 <= i < steps.len() && 0 <= j < steps.len() && i != j ==> steps[i].commit
            != steps[j].commit
}

/// Move `i` is left out because its patch is already at the destination.
pub open spec fn is_elided(moves: Seq<Move>, i: int, detect: bool, duplicates: Seq<Oid>) -> bool {
    detect && duplicates.contains(moves[i].commit)
}

/// Step `s` picks the commit of a move that is not elided onto the move's
/// declared parents.
pub open spec fn step_is_requested(
    moves: Seq<Move>,
    detect: bool,
    duplicates: Seq<Oid>,
    s: RebaseStep,
) -> bool {
    exists|i: int|
        0 <= i < moves.len() && !is_elided(moves, i, detect, duplicates) && (#[trigger] moves[i]).commit
            == s.commit && moves[i].new_parents@ == s.parents@
}

/// `steps` carry out exactly the moves that are not elided, each once with
/// its declared parents, every commit picked after the moved commits it is
/// picked onto.
pub open spec fn plan_realizes(
    moves: Seq<Move>,
    detect: bool,
    duplicates: Seq<Oid>,
    steps: Seq<RebaseStep>,
) -> bool {
    &&& distinct_steps(steps)
    &&& forall|k: int|
        0 <= k < steps.len() ==> #[trigger] step_is_requested(moves, detect, duplicates, steps[k])
    &&& forall|i: int|
        0 <= i < moves.len() && !is_elided(moves, i, detect, duplicates) ==> exists|k: int|
            0 <= k < steps.len() && (#[trigger] steps[k]).commit == moves[i].commit
    &&& forall|a: int, b: int|
        0 <= a < b < steps.len() ==> !(#[trigger] steps[a]).parents@.contains(
            (#[trigger] steps[b]).commit,
        )
}

/// Collects requested moves and builds a plan from them.
pub struct RebasePlanBuilder {
    moves: Vec<Move>,
}

impl RebasePlanBuilder {
    /// The moves requested so far, in order of first request.
    pub closed spec fn moves(&self) -> Seq<Move> {
        self.moves@
    }

    pub open spec fn well_formed(&self) -> bool {
        distinct_commits(self.moves())
    }

    /// A builder with no moves.
    pub fn new() -> (r: RebasePlanBuilder)
        ensures
            r.well_formed(),
            r.moves().len() == 0,
    {
        RebasePlanBuilder { moves: Vec::new() }
    }

    /// Requests that `commit` move onto `new_parents`; a later request for
    /// the same commit replaces the earlier one in its place.
    pub fn move_subtree(&mut self, commit: Oid, new_parents: Vec<Oid>)
        requires
            old(self).well_formed(),
        ensures
            final(self).well_formed(),
            requested(final(self).moves(), commit, new_parents@),
            (exists|k: int| 0 <= k < old(self).moves().len() && old(self).moves()[k].commit == commit)
                ==> final(self).moves().len() == old(self).moves().len(),
            !(exists|k: int| 0 <= k < old(self).moves().len() && old(self).moves()[k].commit == commit)
                ==> final(self).moves().len() == old(self).moves().len() + 1,
            forall|k: int|
                0 <= k < old(self).moves().len() && old(self).moves()[k].commit != commit
                    ==> final(self).moves()[k] == old(self).moves()[k],
    {
        let mut i: usize = 0;
        while i < self.moves.len()
            invariant
                i <= self.moves@.len(),
                self.moves@ == old(self).moves@,
                distinct_commits(old(self).moves@),
                forall|k: int| 0 <= k < i ==> self.moves@[k].commit != commit,
            decreases self.moves@.len() - i,
        {
            if self.moves[i].commit == commit {
                self.moves.set(i, Move { commit, new_parents });
                proof {
                    assert(distinct_commits(old(self).moves@));
                    assert forall|a: int, b: int|
                        0 <= a < self.moves@.len() && 0 <= b < self.moves@.len() && a != b
                            implies self.moves@[a].commit != self.moves@[b].commit by {
                        assert(old(self).moves@[a].commit != old(self).moves@[b].commit);
                    }
                    assert(self.moves@[i as int].commit == commit);
                }
                return;
            }
            i = i + 1;
        }
        self.moves.push(Move { commit, new_parents });
        proof {
            let n = old(self).moves@.len();
            assert(distinct_commits(old(self).moves@));
            assert(self.moves@[n as int].commit == commit);
            assert forall|a: int, b: int|
                0 <= a < self.moves@.len() && 0 <= b < self.moves@.len() && a != b
                    implies self.moves@[a].commit != self.moves@[b].commit by {
                if a < n && b < n {
                    assert(old(self).moves@[a].commit != old(self).moves@[b].commit);
                }
            }
        }
    }
}

/// `moves` holds a request to move `commit` onto `new_parents`.
pub open spec fn requested(moves: Seq<Move>, commit: Oid, new_parents: Seq<Oid>) -> bool {
    exists|k: int|
        0 <= k < moves.len() && (#[trigger] moves[k]).commit == commit && moves[k].new_parents@
            == new_parents
}

/// Whether `m` can be carried out in `g`.
pub fn is_legal(g: &CommitGraph, m: &Move) -> (r: bool)
    ensures
        r == is_legal_move(g@, *m),
{
    if !g.is_visible(m.commit) {
        return false;
    }
    match g.parents(m.commit) {
        None => {
            return false;
        },
        Some(ps) => {
            if ps.len() == 0 {
                return false;
            }
        },
    }
    let mut k: usize = 0;
    while k < m.new_parents.len()
        invariant
            k <= m.new_parents@.len(),
            forall|j: int| 0 <= j < k ==> g@.parents.dom().contains(#[trigger] m.new_parents@[j]),
        decreases m.new_parents@.len() - k,
    {
        if g.parents(m.new_parents[k]).is_none() {
            return false;
        }
        k = k + 1;
    }
    true
}

/// The commits of the moves that cannot be carried out, in order.
pub fn collect_illegal(g: &CommitGraph, moves: &Vec<Move>) -> (r: Vec<Oid>)
    ensures
        r@ == illegal_commits(g@, moves@),
{
    let mut r: Vec<Oid> = Vec::new();
    let mut i: usize = 0;
    while i < moves.len()
        invariant
            i <= moves@.len(),
            r@ == illegal_commits(g@, moves@.subrange(0, i as int)),
        decreases moves@.len() - i,
    {
        proof {
            assert(moves@.subrange(0, i + 1).drop_last() =~= moves@.subrange(0, i as int));
        }
        if !is_legal(g, &moves[i]) {
            r.push(moves[i].commit);
        }
        i = i + 1;
    }
    proof {
        assert(moves@.subrange(0, i as int) =~= moves@);
    }
    r
}

/// The commits of the moves that are public, in order.
pub fn collect_public(g: &CommitGraph, moves: &Vec<Move>) -> (r: Vec<Oid>)
    ensures
        r@ == public_commits(g@, moves@),
{
    let mut r: Vec<Oid> = Vec::new();
    let mut i: usize = 0;
    while i < moves.len()
        invariant
            i <= moves@.len(),
            r@ == public_commits(g@, moves@.subrange(0, i as int)),
        decreases moves@.len() - i,
    {
        proof {
            assert(moves@.subrange(0, i + 1).drop_last() =~= moves@.subrange(0, i as int));
        }
        if g.is_public(moves[i].commit) {
            r.push(moves[i].commit);
        }
        i = i + 1;
    }
    proof {
        assert(moves@.subrange(0, i as int) =~= moves@);
    }
    r
}

/// Whether `m` puts its commit onto one of its own descendants.
pub fn onto_descendant(g: &CommitGraph, m: &Move) -> (r: bool)
    ensures
        r == is_onto_descendant(g@, *m),
{
    let mut k: usize = 0;
    while k < m.new_parents.len()
        invariant
            k <= m.new_parents@.len(),
            forall|j: int|
                0 <= j < k ==> !is_ancestor_of_any(
                    g@.parents,
                    seq![#[trigger] m.new_parents@[j]],
                    m.commit,
                ),
        decreases m.new_parents@.len() - k,
    {
        let mut seeds: Vec<Oid> = Vec::new();
        seeds.push(m.new_parents[k]);
        proof {
            assert(seeds@ =~= seq![m.new_parents@[k as int]]);
        }
        let above = g.ancestors(&seeds);
        if contains(&above, m.commit) {
            return true;
        }
        k = k + 1;
    }
    false
}

/// The commits of the moves onto their own descendants, in order.
pub fn collect_looping(g: &CommitGraph, moves: &Vec<Move>) -> (r: Vec<Oid>)
    ensures
        r@ == looping_commits(g@, moves@),
{
    let mut r: Vec<Oid> = Vec::new();
    let mut i: usize = 0;
    while i < moves.len()
        invariant
            i <= moves@.len(),
            r@ == looping_commits(g@, moves@.subrange(0, i as int)),
        decreases moves@.len() - i,
    {
        proof {
            assert(moves@.subrange(0, i + 1).drop_last() =~= moves@.subrange(0, i as int));
        }
        if onto_descendant(g, &moves[i]) {
            r.push(moves[i].commit);
        }
        i = i + 1;
    }
    proof {
        assert(moves@.subrange(0, i as int) =~= moves@);
    }
    r
}

/// Whether move `i` depends on move `j`.
fn depends_on(moves: &Vec<Move>, i: usize, j: usize) -> (r: bool)
    requires
        i < moves@.len(),
        j < moves@.len(),
    ensures
        r == depends(moves@, i as int, j as int),
{
    contains(&moves[i].new_parents, moves[j].commit)
}

/// Whether move `i` depends on no move that is not placed yet.
fn is_ready(moves: &Vec<Move>, placed: &Vec<bool>, i: usize) -> (r: bool)
    requires
        i < moves@.len(),
        placed@.len() == moves@.len(),
    ensures
        r == forall|j: int| 0 <= j < moves@.len() ==> placed@[j] || !#[trigger] depends(moves@, i as int, j),
{
    let mut j: usize = 0;
    while j < moves.len()
        invariant
            i < moves@.len(),
            placed@.len() == moves@.len(),
            j <= moves@.len(),
            forall|l: int| 0 <= l < j ==> placed@[l] || !#[trigger] depends(moves@, i as int, l),
        decreases moves@.len() - j,
    {
        if !placed[j] && depends_on(moves, i, j) {
            return false;
        }
        j = j + 1;
    }
    true
}

/// The order built so far: `order` lists the placed moves, each after the
/// moves it depends on and before none that is still unplaced.
#[verifier::opaque]
pub open spec fn order_inv(moves: Seq<Move>, order: Seq<usize>, placed: Seq<bool>) -> bool {
    &&& placed.len() == moves.len()
    &&& order.no_duplicates()
    &&& forall|a: int| 0 <= a < order.len() ==> #[trigger] order[a] < moves.len() && placed[order[a] as int]
    &&& forall|x: int| 0 <= x < moves.len() && placed[x] ==> order.contains(x as usize)
    &&& forall|a: int, j: int|
        0 <= a < order.len() && 0 <= j < moves.len() && !placed[j] ==> !#[trigger] depends(
            moves,
            order[a] as int,
            j,
        )
    &&& forall|a: int, b: int|
        0 <= a < b < order.len() ==> !depends(moves, #[trigger] order[a] as int, #[trigger] order[b] as int)
    &&& forall|a: int| 0 <= a < order.len() ==> !depends(moves, #[trigger] order[a] as int, order[a] as int)
}

/// An order is a topological order of all the moves.
pub open spec fn is_move_order(moves: Seq<Move>, order: Seq<usize>) -> bool {
    &&& order.len() == moves.len()
    &&& order.no_duplicates()
    &&& forall|a: int| 0 <= a < order.len() ==> #[trigger] order[a] < moves.len()
    &&& forall|i: usize| (i as int) < moves.len() ==> order.contains(i)
    &&& forall|a: int, b: int|
        0 <= a < b < order.len() ==> !depends(moves, #[trigger] order[a] as int, #[trigger] order[b] as int)
    &&& forall|a: int| 0 <= a < order.len() ==> !depends(moves, #[trigger] order[a] as int, order[a] as int)
}

proof fn lemma_order_start(moves: Seq<Move>, placed: Seq<bool>)
    requires
        placed.len() == moves.len(),
        forall|k: int| 0 <= k < placed.len() ==> !placed[k],
    ensures
        order_inv(moves, Seq::empty(), placed),
{
    reveal(order_inv);
}

proof fn lemma_order_place(moves: Seq<Move>, order: Seq<usize>, placed: Seq<bool>, f: usize)
    requires
        order_inv(moves, order, placed),
        f < moves.len(),
        !placed[f as int],
        forall|j: int| 0 <= j < moves.len() ==> placed[j] || !#[trigger] depends(moves, f as int, j),
    ensures
        order_inv(moves, order.push(f), placed.update(f as int, true)),
{
    reveal(order_inv);
    let now_order = order.push(f);
    let now_placed = placed.update(f as int, true);
    assert(!order.contains(f)) by {
        if order.contains(f) {
            let a = choose|a: int| 0 <= a < order.len() && order[a] == f;
            assert(placed[order[a] as int]);
        }
    }
    assert forall|x: int| 0 <= x < moves.len() && now_placed[x] implies now_order.contains(x as usize) by {
        if x == f as int {
            assert(now_order[now_order.len() - 1] == f);
        } else {
            assert(placed[x]);
            let a = choose|a: int| 0 <= a < order.len() && order[a] == x as usize;
            assert(now_order[a] == x as usize);
        }
    }
    assert forall|a: int| 0 <= a < now_order.len() implies #[trigger] now_order[a] < moves.len() && now_placed[now_order[a] as int] by {
        if a < order.len() {
            assert(now_order[a] == order[a]);
        }
    }
    assert forall|a: int, j: int| 0 <= a < now_order.len() && 0 <= j < moves.len() && !now_placed[j] implies !#[trigger] depends(
        moves,
        now_order[a] as int,
        j,
    ) by {
        assert(!placed[j]);
        if a < order.len() {
            assert(now_order[a] == order[a]);
        }
    }
    assert forall|a: int| 0 <= a < now_order.len() implies !depends(moves, #[trigger] now_order[a] as int, now_order[a] as int) by {
        if a < order.len() {
            assert(now_order[a] == order[a]);
        } else {
            assert(now_order[a] == f);
        }
    }
    assert forall|a: int, b: int| 0 <= a < b < now_order.len() implies !depends(
        moves,
        #[trigger] now_order[a] as int,
        #[trigger] now_order[b] as int,
    ) by {
        assert(now_order[a] == order[a]);
        if b < order.len() {
            assert(now_order[b] == order[b]);
        } else {
            assert(now_order[b] == f);
            assert(!placed[f as int]);
        }
    }
}

proof fn lemma_order_done(moves: Seq<Move>, order: Seq<usize>, placed: Seq<bool>)
    requires
        order_inv(moves, order, placed),
        moves.len() <= usize::MAX,
        forall|x: int| 0 <= x < moves.len() ==> placed[x],
    ensures
        is_move_order(moves, order),
{
    reveal(order_inv);
    assert forall|x: usize| (x as int) < moves.len() implies order.contains(x) by {
        assert(placed[x as int]);
    }
    lemma_permutation_len(order, moves.len() as int);
}

/// Indices as integers.
pub open spec fn as_ints(s: Seq<usize>) -> Seq<int> {
    s.map_values(|x: usize| x as int)
}

/// Move `x` depends on a move that is not placed yet.
pub open spec fn is_blocked(moves: Seq<Move>, placed: Seq<bool>, x: int) -> bool {
    exists|j: int| 0 <= j < moves.len() && !placed[j] && #[trigger] depends(moves, x, j)
}

proof fn lemma_order_stuck(moves: Seq<Move>, placed: Seq<bool>, rem: Seq<usize>, first: int)
    requires
        placed.len() == moves.len(),
        moves.len() <= usize::MAX,
        0 <= first < moves.len(),
        !placed[first],
        forall|a: int| 0 <= a < rem.len() ==> #[trigger] rem[a] < placed.len() && !placed[rem[a] as int],
        forall|x: int| 0 <= x < placed.len() && !placed[x] ==> rem.contains(x as usize),
        forall|x: int| 0 <= x < moves.len() && !placed[x] ==> #[trigger] is_blocked(moves, placed, x),
    ensures
        is_cycle_witness(moves, as_ints(rem)),
{
    let w = as_ints(rem);
    assert(rem.contains(first as usize));
    assert(w.len() > 0);
    assert forall|a: int| 0 <= a < w.len() implies #[trigger] depends_within(moves, w, w[a]) by {
        let x = w[a];
        assert(x == rem[a] as int);
        assert(!placed[x]);
        assert(is_blocked(moves, placed, x));
        let j = choose|j: int| 0 <= j < moves.len() && !placed[j] && #[trigger] depends(moves, x, j);
        assert(rem.contains(j as usize));
        let b = choose|b: int| 0 <= b < rem.len() && rem[b] == j as usize;
        assert(w[b] == j);
        assert(depends(moves, x, w[b]));
    }
    assert forall|a: int| 0 <= a < w.len() implies 0 <= #[trigger] w[a] < moves.len() by {
        assert(w[a] == rem[a] as int);
    }
}

/// The first position in `order` that holds a move of `s`, at or before `start`.
proof fn lemma_first_position(order: Seq<usize>, s: Set<int>, start: int) -> (p: int)
    requires
        0 <= start < order.len(),
        s.contains(order[start] as int),
    ensures
        0 <= p <= start,
        s.contains(order[p] as int),
        forall|q: int| 0 <= q < p ==> !s.contains(#[trigger] order[q] as int),
    decreases start,
{
    if exists|q: int| 0 <= q < start && s.contains(#[trigger] order[q] as int) {
        let q = choose|q: int| 0 <= q < start && s.contains(#[trigger] order[q] as int);
        lemma_first_position(order, s, q)
    } else {
        start
    }
}

/// Moves that can be ordered hold no cycle.
pub proof fn lemma_order_excludes_cycle(moves: Seq<Move>, order: Seq<usize>, idx: Seq<int>)
    requires
        is_move_order(moves, order),
        moves.len() <= usize::MAX,
    ensures
        !is_cycle_witness(moves, idx),
{
    if is_cycle_witness(moves, idx) {
        let s = idx.to_set();
        let first = idx[0];
        assert(0 <= idx[0] < moves.len());
        assert(order.contains(first as usize));
        let start = choose|p: int| 0 <= p < order.len() && order[p] == first as usize;
        assert(s.contains(idx[0]));
        let p = lemma_first_position(order, s, start);
        let x = order[p] as int;
        let a = choose|a: int| 0 <= a < idx.len() && idx[a] == x;
        assert(depends_within(moves, idx, idx[a]));
        let b = choose|b: int| 0 <= b < idx.len() && #[trigger] depends(moves, x, idx[b]);
        let y = idx[b];
        assert(0 <= idx[b] < moves.len());
        assert(order.contains(y as usize));
        let py = choose|q: int| 0 <= q < order.len() && order[q] == y as usize;
        assert(s.contains(idx[b]));
        if py < p {
            assert(s.contains(order[py] as int));
        } else if py == p {
            assert(!depends(moves, order[p] as int, order[p] as int));
        } else {
            assert(!depends(moves, order[p] as int, order[py] as int));
        }
    }
}

/// The order of the moves as indices, each move after every move it
/// depends on; or, where the constraints form a cycle, the moves that
/// could not be ordered.
pub fn order_moves(moves: &Vec<Move>) -> (r: Result<Vec<usize>, Vec<usize>>)
    ensures
        r is Ok ==> is_move_order(moves@, r->Ok_0@),
        r is Err ==> is_cycle_witness(moves@, as_ints(r->Err_0@)),
{
    let n = moves.len();
    let mut placed: Vec<bool> = Vec::new();
    let mut order: Vec<usize> = Vec::new();
    let mut i: usize = 0;
    while i < n
        invariant
            n == moves@.len(),
            i <= n,
            placed@.len() == i,
            forall|k: int| 0 <= k < i ==> !placed@[k],
        decreases n - i,
    {
        placed.push(false);
        i = i + 1;
    }
    let ghost mut unplaced: Set<int> = Set::new(|x: int| 0 <= x < n);
    proof {
        vstd::set_lib::lemma_int_range(0, n as int);
        assert(unplaced =~= vstd::set_lib::set_int_range(0, n as int));
        lemma_order_start(moves@, placed@);
    }
    loop
        invariant
            n == moves@.len(),
            placed@.len() == n,
            unplaced.finite(),
            forall|x: int| unplaced.contains(x) <==> (0 <= x < n && !placed@[x]),
            order_inv(moves@, order@, placed@),
        decreases unplaced.len(),
    {
        let mut found: Option<usize> = None;
        let mut any_unplaced = false;
        let mut k: usize = 0;
        while k < n
            invariant
                n == moves@.len(),
                placed@.len() == n,
                k <= n,
                any_unplaced == exists|x: int| 0 <= x < k && !placed@[x],
                found is Some ==> {
                    let f = found->Some_0;
                    &&& f < n
                    &&& !placed@[f as int]
                    &&& forall|j: int| 0 <= j < n ==> placed@[j] || !#[trigger] depends(moves@, f as int, j)
                },
                found is None ==> forall|x: int|
                    0 <= x < k && !placed@[x] ==> #[trigger] is_blocked(moves@, placed@, x),
            decreases n - k,
        {
            if !placed[k] {
                any_unplaced = true;
                if found.is_none() && is_ready(moves, &placed, k) {
                    found = Some(k);
                }
            }
            k = k + 1;
        }
        match found {
            Some(f) => {
                proof {
                    lemma_order_place(moves@, order@, placed@, f);
                    unplaced = unplaced.remove(f as int);
                }
                placed.set(f, true);
                order.push(f);
            },
            None => {
                if !any_unplaced {
                    proof {
                        lemma_order_done(moves@, order@, placed@);
                    }
                    return Ok(order);
                }
                let rem = unplaced_indices(&placed);
                proof {
                    let first = choose|x: int| 0 <= x < n && !placed@[x];
                    lemma_order_stuck(moves@, placed@, rem@, first);
                }
                return Err(rem);
            },
        }
    }
}

/// The indices that are not placed, in order.
fn unplaced_indices(placed: &Vec<bool>) -> (r: Vec<usize>)
    ensures
        forall|a: int| 0 <= a < r@.len() ==> #[trigger] r@[a] < placed@.len() && !placed@[r@[a] as int],
        forall|x: int| 0 <= x < placed@.len() && !placed@[x] ==> r@.contains(x as usize),
{
    let mut r: Vec<usize> = Vec::new();
    let mut i: usize = 0;
    while i < placed.len()
        invariant
            i <= placed@.len(),
            forall|a: int| 0 <= a < r@.len() ==> #[trigger] r@[a] < placed@.len() && !placed@[r@[a] as int],
            forall|x: int| 0 <= x < i && !placed@[x] ==> r@.contains(x as usize),
        decreases placed@.len() - i,
    {
        if !placed[i] {
            let ghost before = r@;
            r.push(i);
            proof {
                assert forall|x: int| 0 <= x < i + 1 && !placed@[x] implies r@.contains(x as usize) by {
                    if x < i {
                        let a = choose|a: int| 0 <= a < before.len() && before[a] == x as usize;
                        assert(r@[a] == x as usize);
                    } else {
                        assert(r@[r@.len() - 1] == i);
                    }
                }
            }
        }
        i = i + 1;
    }
    r
}

/// A duplicate-free sequence of indices below `n` that holds every index
/// below `n` has length `n`.
proof fn lemma_permutation_len(s: Seq<usize>, n: int)
    requires
        0 <= n <= usize::MAX,
        s.no_duplicates(),
        forall|a: int| 0 <= a < s.len() ==> #[trigger] s[a] < n,
        forall|x: usize| (x as int) < n ==> s.contains(x),
    ensures
        s.len() == n,
{
    let m = s.map_values(|x: usize| x as int);
    let range = vstd::set_lib::set_int_range(0, n);
    vstd::set_lib::lemma_int_range(0, n);
    assert(m.to_set() =~= range) by {
        assert forall|x: int| m.to_set().contains(x) implies range.contains(x) by {
            let a = choose|a: int| 0 <= a < m.len() && m[a] == x;
            assert(s[a] < n);
        }
        assert forall|x: int| range.contains(x) implies m.to_set().contains(x) by {
            assert(s.contains(x as usize));
            let a = choose|a: int| 0 <= a < s.len() && s[a] == x as usize;
            assert(m[a] == x);
        }
    }
    assert(m.no_duplicates()) by {
        assert forall|a: int, b: int| 0 <= a < m.len() && 0 <= b < m.len() && a != b implies m[a] != m[b] by {
            assert(s[a] != s[b]);
        }
    }
    m.unique_seq_to_set();
}

/// What `build` returns for `moves` in `g`: the illegal moves first, then
/// the public ones (unless forced), then moves onto their own descendants,
/// then a cycle among the moves' constraints; otherwise the plan, or none
/// where every move was elided.
pub open spec fn build_outcome(
    g: GraphModel,
    moves: Seq<Move>,
    force: bool,
    detect: bool,
    duplicates: Seq<Oid>,
    r: Result<Option<RebasePlan>, BuildRebasePlanError>,
) -> bool {
    let illegal = illegal_commits(g, moves);
    let public = public_commits(g, moves);
    if illegal.len() > 0 {
        match r {
            Err(BuildRebasePlanError::MoveIllegalCommits { commits }) => commits@ == illegal,
            _ => false,
        }
    } else if !force && public.len() > 0 {
        match r {
            Err(BuildRebasePlanError::MovePublicCommits { public_commits_to_move }) =>
                public_commits_to_move@ == public,
            _ => false,
        }
    } else if looping_commits(g, moves).len() > 0 {
        match r {
            Err(BuildRebasePlanError::ConstraintCycle { commits }) => commits@ == looping_commits(
                g,
                moves,
            ),
            _ => false,
        }
    } else {
        match r {
            Ok(Some(plan)) => plan.steps@.len() > 0 && plan_realizes(
                moves,
                detect,
                duplicates,
                plan.steps@,
            ) && !has_cycle(moves),
            Ok(None) => plan_realizes(moves, detect, duplicates, Seq::empty()) && !has_cycle(moves),
            Err(BuildRebasePlanError::ConstraintCycle { commits }) => exists|idx: Seq<int>|
                is_cycle_witness(moves, idx) && commits@ == #[trigger] commits_at(moves, idx),
            _ => false,
        }
    }
}

/// The moves' constraints form a cycle.
pub open spec fn has_cycle(moves: Seq<Move>) -> bool {
    exists|idx: Seq<int>| #[trigger] is_cycle_witness(moves, idx)
}

/// The commits of the moves at `idx`.
pub open spec fn commits_at(moves: Seq<Move>, idx: Seq<int>) -> Seq<Oid> {
    idx.map_values(|i: int| moves[i].commit)
}

/// The steps built so far from the first `j` positions of `order`; `pos`
/// gives the position in `order` of each step.
pub open spec fn steps_inv(
    moves: Seq<Move>,
    order: Seq<usize>,
    detect: bool,
    duplicates: Seq<Oid>,
    steps: Seq<RebaseStep>,
    pos: Seq<int>,
    j: int,
) -> bool {
    &&& steps.len() == pos.len()
    &&& forall|k: int| 0 <= k < pos.len() ==> 0 <= #[trigger] pos[k] < j
    &&& forall|k1: int, k2: int| 0 <= k1 < k2 < pos.len() ==> #[trigger] pos[k1] < #[trigger] pos[k2]
    &&& forall|k: int|
        0 <= k < steps.len() ==> {
            let i = order[pos[k]] as int;
            &&& (#[trigger] steps[k]).commit == moves[i].commit
            &&& steps[k].parents@ == moves[i].new_parents@
            &&& !is_elided(moves, i, detect, duplicates)
        }
    &&& forall|p: int|
        0 <= p < j && !is_elided(moves, #[trigger] order[p] as int, detect, duplicates) ==> exists|
            k: int,
        | 0 <= k < pos.len() && pos[k] == p
}

proof fn lemma_steps_realize(
    moves: Seq<Move>,
    order: Seq<usize>,
    detect: bool,
    duplicates: Seq<Oid>,
    steps: Seq<RebaseStep>,
    pos: Seq<int>,
)
    requires
        is_move_order(moves, order),
        moves.len() <= usize::MAX,
        distinct_commits(moves),
        steps_inv(moves, order, detect, duplicates, steps, pos, order.len() as int),
    ensures
        plan_realizes(moves, detect, duplicates, steps),
{
    assert forall|k1: int, k2: int|
        0 <= k1 < steps.len() && 0 <= k2 < steps.len() && k1 != k2 implies steps[k1].commit
            != steps[k2].commit by {
        let i1 = order[pos[k1]] as int;
        let i2 = order[pos[k2]] as int;
        assert(steps[k1].commit == moves[i1].commit);
        assert(steps[k2].commit == moves[i2].commit);
        if k1 < k2 {
            assert(pos[k1] < pos[k2]);
        } else {
            assert(pos[k2] < pos[k1]);
        }
        assert(order[pos[k1]] != order[pos[k2]]);
    }
    assert forall|k: int| 0 <= k < steps.len() implies #[trigger] step_is_requested(
        moves,
        detect,
        duplicates,
        steps[k],
    ) by {
        let i = order[pos[k]] as int;
        assert(0 <= pos[k] < order.len());
        assert(order[pos[k]] < moves.len());
        assert(0 <= i < moves.len());
        assert(steps[k].commit == moves[i].commit);
        assert(steps[k].parents@ == moves[i].new_parents@);
        assert(!is_elided(moves, i, detect, duplicates));
        assert(moves[i].commit == steps[k].commit);
    }
    assert forall|i: int| 0 <= i < moves.len() && !is_elided(moves, i, detect, duplicates) implies exists|
        k: int,
    | 0 <= k < steps.len() && (#[trigger] steps[k]).commit == moves[i].commit by {
        assert(order.contains(i as usize));
        let p = choose|p: int| 0 <= p < order.len() && order[p] == i as usize;
        assert(!is_elided(moves, order[p] as int, detect, duplicates));
        let k = choose|k: int| 0 <= k < pos.len() && pos[k] == p;
        assert(order[pos[k]] as int == i);
        assert(steps[k].commit == moves[i].commit);
    }
    assert forall|a: int, b: int| 0 <= a < b < steps.len() implies !(#[trigger] steps[a]).parents@.contains(
        (#[trigger] steps[b]).commit,
    ) by {
        assert(pos[a] < pos[b]);
        assert(!depends(moves, order[pos[a]] as int, order[pos[b]] as int));
    }
}

proof fn lemma_steps_skip(
    moves: Seq<Move>,
    order: Seq<usize>,
    detect: bool,
    duplicates: Seq<Oid>,
    steps: Seq<RebaseStep>,
    pos: Seq<int>,
    j: int,
)
    requires
        0 <= j < order.len(),
        steps_inv(moves, order, detect, duplicates, steps, pos, j),
        is_elided(moves, order[j] as int, detect, duplicates),
    ensures
        steps_inv(moves, order, detect, duplicates, steps, pos, j + 1),
{
    assert forall|p: int|
        0 <= p < j + 1 && !is_elided(moves, #[trigger] order[p] as int, detect, duplicates) implies exists|
            k: int,
        | 0 <= k < pos.len() && pos[k] == p by {
        assert(p != j);
    }
}

proof fn lemma_steps_take(
    moves: Seq<Move>,
    order: Seq<usize>,
    detect: bool,
    duplicates: Seq<Oid>,
    steps: Seq<RebaseStep>,
    pos: Seq<int>,
    j: int,
    steps2: Seq<RebaseStep>,
)
    requires
        0 <= j < order.len(),
        steps_inv(moves, order, detect, duplicates, steps, pos, j),
        !is_elided(moves, order[j] as int, detect, duplicates),
        steps2.len() == steps.len() + 1,
        forall|k: int| 0 <= k < steps.len() ==> steps2[k] == steps[k],
        steps2.last().commit == moves[order[j] as int].commit,
        steps2.last().parents@ == moves[order[j] as int].new_parents@,
    ensures
        steps_inv(moves, order, detect, duplicates, steps2, pos.push(j), j + 1),
{
    let pos2 = pos.push(j);
    assert forall|p: int|
        0 <= p < j + 1 && !is_elided(moves, #[trigger] order[p] as int, detect, duplicates) implies exists|
            k: int,
        | 0 <= k < pos2.len() && pos2[k] == p by {
        if p == j {
            assert(pos2[pos.len() as int] == p);
        } else {
            let k = choose|k: int| 0 <= k < pos.len() && pos[k] == p;
            assert(pos2[k] == p);
        }
    }
    assert forall|k: int| 0 <= k < steps2.len() implies {
        let i = order[pos2[k]] as int;
        &&& (#[trigger] steps2[k]).commit == moves[i].commit
        &&& steps2[k].parents@ == moves[i].new_parents@
        &&& !is_elided(moves, i, detect, duplicates)
    } by {
        if k < steps.len() {
            assert(steps2[k] == steps[k]);
            assert(pos2[k] == pos[k]);
        } else {
            assert(pos2[k] == j);
        }
    }
    assert forall|k1: int, k2: int| 0 <= k1 < k2 < pos2.len() implies #[trigger] pos2[k1] < #[trigger] pos2[k2] by {
        if k2 < pos.len() {
            assert(pos2[k1] == pos[k1]);
            assert(pos2[k2] == pos[k2]);
        } else {
            assert(pos2[k1] == pos[k1]);
        }
    }
    assert forall|k: int| 0 <= k < pos2.len() implies 0 <= #[trigger] pos2[k] < j + 1 by {
        if k < pos.len() {
            assert(pos2[k] == pos[k]);
        }
    }
}

/// The picks of the moves in `order`, without the elided ones.
fn steps_from_order(
    moves: &Vec<Move>,
    order: &Vec<usize>,
    detect: bool,
    duplicates: &Vec<Oid>,
) -> (r: Vec<RebaseStep>)
    requires
        is_move_order(moves@, order@),
        distinct_commits(moves@),
    ensures
        plan_realizes(moves@, detect, duplicates@, r@),
{
    let mut steps: Vec<RebaseStep> = Vec::new();
    let ghost mut pos: Seq<int> = Seq::empty();
    let mut j: usize = 0;
    while j < order.len()
        invariant
            is_move_order(moves@, order@),
            j <= order@.len(),
            steps_inv(moves@, order@, detect, duplicates@, steps@, pos, j as int),
        decreases order@.len() - j,
    {
        let i = order[j];
        assert(order@[j as int] < moves@.len());
        let m = &moves[i];
        let ghost old_pos = pos;
        let ghost old_steps = steps@;
        if detect && contains(duplicates, m.commit) {
            proof {
                lemma_steps_skip(moves@, order@, detect, duplicates@, steps@, pos, j as int);
            }
        } else {
            steps.push(RebaseStep { commit: m.commit, parents: copy_oids(&m.new_parents) });
            proof {
                pos = pos.push(j as int);
                lemma_steps_take(moves@, order@, detect, duplicates@, old_steps, old_pos, j as int, steps@);
            }
        }
        j = j + 1;
    }
    proof {
        lemma_steps_realize(moves@, order@, detect, duplicates@, steps@, pos);
    }
    steps
}

impl RebasePlanBuilder {
    /// Builds the plan for the requested moves in `g`. With duplicate
    /// detection, the moves of the commits in `duplicates` (whose patch is
    /// already at the destination) are elided.
    pub fn build(
        &self,
        g: &CommitGraph,
        options: &BuildRebasePlanOptions,
        duplicates: &Vec<Oid>,
    ) -> (r: Result<Option<RebasePlan>, BuildRebasePlanError>)
        requires
            self.well_formed(),
        ensures
            build_outcome(
                g@,
                self.moves(),
                options.force_rewrite_public_commits,
                options.detect_duplicate_commits_via_patch_id,
                duplicates@,
                r,
            ),
    {
        let illegal = collect_illegal(g, &self.moves);
        if illegal.len() > 0 {
            return Err(BuildRebasePlanError::MoveIllegalCommits { commits: illegal });
        }
        let public = collect_public(g, &self.moves);
        if !options.force_rewrite_public_commits && public.len() > 0 {
            return Err(BuildRebasePlanError::MovePublicCommits { public_commits_to_move: public });
        }
        let looping = collect_looping(g, &self.moves);
        if looping.len() > 0 {
            return Err(BuildRebasePlanError::ConstraintCycle { commits: looping });
        }
        match order_moves(&self.moves) {
            Err(idx) => {
                let mut commits: Vec<Oid> = Vec::new();
                let mut k: usize = 0;
                let ghost w = as_ints(idx@);
                while k < idx.len()
                    invariant
                        k <= idx@.len(),
                        w == as_ints(idx@),
                        is_cycle_witness(self.moves@, w),
                        commits@ =~= commits_at(self.moves@, w.subrange(0, k as int)),
                    decreases idx@.len() - k,
                {
                    assert(0 <= w[k as int] < self.moves@.len());
                    commits.push(self.moves[idx[k]].commit);
                    k = k + 1;
                }
                proof {
                    assert(w.subrange(0, k as int) =~= w);
                }
                Err(BuildRebasePlanError::ConstraintCycle { commits })
            },
            Ok(order) => {
                let n = self.moves.len();
                proof {
                    assert(self.moves@.len() == n);
                    if has_cycle(self.moves@) {
                        let idx = choose|idx: Seq<int>| #[trigger] is_cycle_witness(self.moves@, idx);
                        lemma_order_excludes_cycle(self.moves@, order@, idx);
                    }
                }
                let steps = steps_from_order(
                    &self.moves,
                    &order,
                    options.detect_duplicate_commits_via_patch_id,
                    duplicates,
                );
                if steps.len() == 0 {
                    proof {
                        assert(steps@ =~= Seq::<RebaseStep>::empty());
                    }
                    Ok(None)
                } else {
                    Ok(Some(RebasePlan { steps }))
                }
            },
        }
    }
}

/// The parent relation after picking one commit onto new parents.
pub open spec fn apply_step(parents: Map<Oid, Seq<Oid>>, s: RebaseStep) -> Map<Oid, Seq<Oid>> {
    if parents.dom().contains(s.commit) {
        parents.insert(s.commit, s.parents@)
    } else {
        parents
    }
}

/// The parent relation after carrying out `steps` in order.
pub open spec fn apply_steps(parents: Map<Oid, Seq<Oid>>, steps: Seq<RebaseStep>) -> Map<
    Oid,
    Seq<Oid>,
>
    decreases steps.len(),
{
    if steps.len() == 0 {
        parents
    } else {
        apply_step(apply_steps(parents, steps.drop_last()), steps.last())
    }
}

/// Carries out `plan` on the graph in memory: every picked commit gets its
/// new parents.
pub fn execute_in_memory(g: &mut CommitGraph, plan: &RebasePlan)
    ensures
        final(g)@.parents == apply_steps(old(g)@.parents, plan.steps@),
        final(g)@.visible == old(g)@.visible,
        final(g)@.public == old(g)@.public,
{
    let mut k: usize = 0;
    while k < plan.steps.len()
        invariant
            k <= plan.steps@.len(),
            g@.parents == apply_steps(old(g)@.parents, plan.steps@.subrange(0, k as int)),
            g@.visible == old(g)@.visible,
            g@.public == old(g)@.public,
        decreases plan.steps@.len() - k,
    {
        let s = &plan.steps[k];
        g.set_parents(s.commit, &s.parents);
        proof {
            let cur = plan.steps@.subrange(0, k + 1);
            assert(cur.drop_last() =~= plan.steps@.subrange(0, k as int));
            assert(cur.last() == *s);
        }
        k = k + 1;
    }
    proof {
        assert(plan.steps@.subrange(0, k as int) =~= plan.steps@);
    }
}

} // verus!
