//! The commit graph as the core sees it: each commit with its parents, the
//! visible commits, and the public ones.
use vstd::prelude::*;
use crate::event::Oid;

verus! {

/// A commit and its parents, in order.
pub struct CommitNode {
    pub oid: Oid,
    pub parents: Vec<Oid>,
}

/// The parents of `c` in the first node for it, if any.
pub open spec fn node_parents(nodes: Seq<CommitNode>, c: Oid) -> Option<Seq<Oid>>
    decreases nodes.len(),
{
    if nodes.len() == 0 {
        None
    } else if nodes[0].oid == c {
        Some(nodes[0].parents@)
    } else {
        node_parents(nodes.drop_first(), c)
    }
}

/// Commit to parents, for every commit of the graph.
pub open spec fn parent_map(nodes: Seq<CommitNode>) -> Map<Oid, Seq<Oid>> {
    Map::new(|c: Oid| node_parents(nodes, c).is_some(), |c: Oid| node_parents(nodes, c).unwrap())
}

/// The mathematical model of a commit graph.
pub struct GraphModel {
    pub parents: Map<Oid, Seq<Oid>>,
    pub visible: Set<Oid>,
    pub public: Set<Oid>,
}

/// A commit graph: its commits, which of them are visible, and which are
/// public (reachable from a main branch).
pub struct CommitGraph {
    pub nodes: Vec<CommitNode>,
    pub visible: Vec<Oid>,
    pub public: Vec<Oid>,
}

impl View for CommitGraph {
    type V = GraphModel;

    open spec fn view(&self) -> GraphModel {
        GraphModel {
            parents: parent_map(self.nodes@),
            visible: self.visible@.to_set(),
            public: self.public@.to_set(),
        }
    }
}

/// `c` is a child of some commit of `ps` in `g`.
pub open spec fn is_child_of_any(g: GraphModel, c: Oid, ps: Seq<Oid>) -> bool {
    g.parents.dom().contains(c) && exists|k: int|
        0 <= k < g.parents[c].len() && ps.contains(#[trigger] g.parents[c][k])
}


/// `path` climbs from its first commit through parents to its last.
pub open spec fn is_parent_path(parents: Map<Oid, Seq<Oid>>, path: Seq<Oid>) -> bool {
    path.len() > 0 && forall|k: int|
        0 <= k < path.len() - 1 ==> parents.dom().contains(#[trigger] path[k]) && parents[path[k]].contains(
            path[k + 1],
        )
}

/// `x` is one of `seeds` or an ancestor of one of them.
pub open spec fn is_ancestor_of_any(parents: Map<Oid, Seq<Oid>>, seeds: Seq<Oid>, x: Oid) -> bool {
    exists|path: Seq<Oid>|
        #[trigger] is_parent_path(parents, path) && seeds.contains(path[0]) && path.last() == x
}

/// Whether `v` holds `x`.
pub fn contains(v: &Vec<Oid>, x: Oid) -> (r: bool)
    ensures
        r == v@.contains(x),
{
    let mut i: usize = 0;
    while i < v.len()
        invariant
            i <= v@.len(),
            forall|k: int| 0 <= k < i ==> v@[k] != x,
        decreases v@.len() - i,
    {
        if v[i] == x {
            return true;
        }
        i = i + 1;
    }
    false
}

/// A copy of `v`.
pub fn copy_oids(v: &Vec<Oid>) -> (r: Vec<Oid>)
    ensures
        r@ == v@,
{
    let mut r: Vec<Oid> = Vec::new();
    let mut i: usize = 0;
    while i < v.len()
        invariant
            i <= v@.len(),
            r@ =~= v@.subrange(0, i as int),
        decreases v@.len() - i,
    {
        r.push(v[i]);
        i = i + 1;
    }
    r
}

/// Whether some element of `a` is in `b`.
pub fn intersects(a: &Vec<Oid>, b: &Vec<Oid>) -> (r: bool)
    ensures
        r == exists|k: int| 0 <= k < a@.len() && b@.contains(#[trigger] a@[k]),
{
    let mut i: usize = 0;
    while i < a.len()
        invariant
            i <= a@.len(),
            forall|k: int| 0 <= k < i ==> !b@.contains(#[trigger] a@[k]),
        decreases a@.len() - i,
    {
        if contains(b, a[i]) {
            return true;
        }
        i = i + 1;
    }
    false
}

impl CommitGraph {
    /// The parents of `c`, if `c` is in the graph.
    pub fn parents(&self, c: Oid) -> (r: Option<Vec<Oid>>)
        ensures
            r.is_some() == self@.parents.dom().contains(c),
            r.is_some() ==> r.unwrap()@ == self@.parents[c],
    {
        let mut i: usize = 0;
        proof {
            assert(self.nodes@.skip(0) =~= self.nodes@);
        }
        while i < self.nodes.len()
            invariant
                i <= self.nodes@.len(),
                node_parents(self.nodes@.skip(i as int), c) == node_parents(self.nodes@, c),
            decreases self.nodes@.len() - i,
        {
            proof {
                assert(self.nodes@.skip(i as int).drop_first() =~= self.nodes@.skip(i + 1));
                assert(self.nodes@.skip(i as int)[0] == self.nodes@[i as int]);
            }
            if self.nodes[i].oid == c {
                return Some(copy_oids(&self.nodes[i].parents));
            }
            i = i + 1;
        }
        None
    }

    /// Whether `c` is visible.
    pub fn is_visible(&self, c: Oid) -> (r: bool)
        ensures
            r == self@.visible.contains(c),
    {
        contains(&self.visible, c)
    }

    /// Whether `c` is public.
    pub fn is_public(&self, c: Oid) -> (r: bool)
        ensures
            r == self@.public.contains(c),
    {
        contains(&self.public, c)
    }

    /// Gives commit `c` the parents `ps`; a commit outside the graph is
    /// left out.
    pub fn set_parents(&mut self, c: Oid, ps: &Vec<Oid>)
        ensures
            final(self)@.parents == (if old(self)@.parents.dom().contains(c) {
                old(self)@.parents.insert(c, ps@)
            } else {
                old(self)@.parents
            }),
            final(self)@.visible == old(self)@.visible,
            final(self)@.public == old(self)@.public,
    {
        let ghost s = self.nodes@;
        let mut i: usize = 0;
        while i < self.nodes.len()
            invariant
                i <= self.nodes@.len(),
                self.nodes@.len() == s.len(),
                self.visible == old(self).visible,
                self.public == old(self).public,
                s == old(self).nodes@,
                forall|j: int|
                    0 <= j < s.len() ==> (#[trigger] self.nodes@[j]).oid == s[j].oid
                        && self.nodes@[j].parents@ == (if j < i && s[j].oid == c {
                        ps@
                    } else {
                        s[j].parents@
                    }),
            decreases s.len() - i,
        {
            if self.nodes[i].oid == c {
                let parents = copy_oids(ps);
                self.nodes.set(i, CommitNode { oid: c, parents });
            }
            i = i + 1;
        }
        proof {
            assert forall|k: Oid| true implies node_parents(self.nodes@, k) == (if k == c && node_parents(s, c).is_some() {
                Some(ps@)
            } else {
                node_parents(s, k)
            }) by {
                lemma_node_parents_set(s, self.nodes@, c, ps@, k);
            }
            if old(self)@.parents.dom().contains(c) {
                assert(self@.parents =~= old(self)@.parents.insert(c, ps@));
            } else {
                assert(self@.parents =~= old(self)@.parents);
            }
        }
    }

    /// Every commit that occurs as a parent in the graph.
    fn all_parents(&self) -> (r: Vec<Oid>)
        ensures
            forall|c: Oid, j: int|
                self@.parents.dom().contains(c) && 0 <= j < self@.parents[c].len() ==> r@.contains(
                    #[trigger] self@.parents[c][j],
                ),
    {
        let mut r: Vec<Oid> = Vec::new();
        let mut i: usize = 0;
        while i < self.nodes.len()
            invariant
                i <= self.nodes@.len(),
                forall|k: int, j: int|
                    0 <= k < i && 0 <= j < self.nodes@[k].parents@.len() ==> r@.contains(
                        #[trigger] self.nodes@[k].parents@[j],
                    ),
            decreases self.nodes@.len() - i,
        {
            let ps = &self.nodes[i].parents;
            let mut j: usize = 0;
            while j < ps.len()
                invariant
                    i < self.nodes@.len(),
                    *ps == self.nodes@[i as int].parents,
                    j <= ps@.len(),
                    forall|k: int, l: int|
                        0 <= k < i && 0 <= l < self.nodes@[k].parents@.len() ==> r@.contains(
                            #[trigger] self.nodes@[k].parents@[l],
                        ),
                    forall|l: int| 0 <= l < j ==> r@.contains(#[trigger] ps@[l]),
                decreases ps@.len() - j,
            {
                let ghost before = r@;
                r.push(ps[j]);
                proof {
                    assert forall|x: Oid| before.contains(x) implies r@.contains(x) by {
                        let a = choose|a: int| 0 <= a < before.len() && before[a] == x;
                        assert(r@[a] == x);
                    }
                    assert(r@[r@.len() - 1] == ps@[j as int]);
                }
                j = j + 1;
            }
            i = i + 1;
        }
        proof {
            assert forall|c: Oid, j: int|
                self@.parents.dom().contains(c) && 0 <= j < self@.parents[c].len() implies r@.contains(
                    #[trigger] self@.parents[c][j],
                ) by {
                lemma_node_parents_found(self.nodes@, c);
                let k = choose|k: int|
                    0 <= k < self.nodes@.len() && (#[trigger] self.nodes@[k]).oid == c
                        && self.nodes@[k].parents@ == node_parents(self.nodes@, c).unwrap();
                assert(self.nodes@[k].parents@[j] == self@.parents[c][j]);
            }
        }
        r
    }

    /// The commits of `seeds` and all their ancestors, each once.
    pub fn ancestors(&self, seeds: &Vec<Oid>) -> (r: Vec<Oid>)
        ensures
            r@.no_duplicates(),
            forall|x: Oid| r@.contains(x) <==> is_ancestor_of_any(self@.parents, seeds@, x),
    {
        let universe = self.all_parents();
        let ghost u = seeds@.to_set().union(universe@.to_set());
        let ghost par = self@.parents;
        let mut r: Vec<Oid> = Vec::new();
        let mut s: usize = 0;
        while s < seeds.len()
            invariant
                s <= seeds@.len(),
                r@.no_duplicates(),
                forall|x: Oid| r@.contains(x) ==> seeds@.contains(x),
                forall|k: int| 0 <= k < s ==> r@.contains(#[trigger] seeds@[k]),
            decreases seeds@.len() - s,
        {
            if !contains(&r, seeds[s]) {
                let ghost before = r@;
                r.push(seeds[s]);
                proof {
                    lemma_push_contains(before, seeds@[s as int]);
                }
            }
            s = s + 1;
        }
        proof {
            assert forall|x: Oid| r@.contains(x) implies is_ancestor_of_any(par, seeds@, x) by {
                let path = seq![x];
                assert(is_parent_path(par, path));
            }
            assert(u.finite());
            assert(r@.to_set().subset_of(u));
            lemma_unique_len(r@, u);
        }
        let mut i: usize = 0;
        while i < r.len()
            invariant
                u.finite(),
                u == seeds@.to_set().union(universe@.to_set()),
                par == self@.parents,
                forall|c: Oid, j: int|
                    par.dom().contains(c) && 0 <= j < par[c].len() ==> universe@.contains(
                        #[trigger] par[c][j],
                    ),
                i <= r@.len(),
                r@.len() <= u.len(),
                r@.no_duplicates(),
                r@.to_set().subset_of(u),
                forall|x: Oid| r@.contains(x) ==> is_ancestor_of_any(par, seeds@, x),
                forall|x: Oid| seeds@.contains(x) ==> r@.contains(x),
                forall|k: int, j: int|
                    0 <= k < i && par.dom().contains(r@[k]) && 0 <= j < par[r@[k]].len()
                        ==> r@.contains(#[trigger] par[r@[k]][j]),
            decreases (u.len() - r@.len()) + (u.len() - i),
        {
            let x = r[i];
            let ghost r0 = r@;
            match self.parents(x) {
                None => {},
                Some(ps) => {
                    let mut j: usize = 0;
                    while j < ps.len()
                        invariant
                            u.finite(),
                            u == seeds@.to_set().union(universe@.to_set()),
                            par == self@.parents,
                            forall|c: Oid, l: int|
                                par.dom().contains(c) && 0 <= l < par[c].len() ==> universe@.contains(
                                    #[trigger] par[c][l],
                                ),
                            par.dom().contains(x),
                            ps@ == par[x],
                            i < r@.len(),
                            r@[i as int] == x,
                            r@.len() >= r0.len(),
                            forall|k: int| 0 <= k < r0.len() ==> r@[k] == r0[k],
                            j <= ps@.len(),
                            r@.no_duplicates(),
                            r@.to_set().subset_of(u),
                            forall|y: Oid| r@.contains(y) ==> is_ancestor_of_any(par, seeds@, y),
                            forall|l: int| 0 <= l < j ==> r@.contains(#[trigger] ps@[l]),
                        decreases ps@.len() - j,
                    {
                        let p = ps[j];
                        let ghost before = r@;
                        if !contains(&r, p) {
                            r.push(p);
                            proof {
                                lemma_push_contains(before, p);
                                assert(before[i as int] == x);
                                assert(before.contains(x));
                                assert(is_ancestor_of_any(par, seeds@, x));
                                let path = choose|path: Seq<Oid>|
                                    #[trigger] is_parent_path(par, path) && seeds@.contains(path[0])
                                        && path.last() == x;
                                let longer = path.push(p);
                                assert(par[x][j as int] == p);
                                assert(par[x].contains(p));
                                assert forall|k: int| 0 <= k < longer.len() - 1 implies par.dom().contains(
                                    #[trigger] longer[k],
                                ) && par[longer[k]].contains(longer[k + 1]) by {
                                    if k < path.len() - 1 {
                                        assert(longer[k] == path[k] && longer[k + 1] == path[k + 1]);
                                    } else {
                                        assert(longer[k] == x && longer[k + 1] == p);
                                    }
                                }
                                assert(is_parent_path(par, longer));
                                assert(longer[0] == path[0]);
                                assert(is_ancestor_of_any(par, seeds@, p));
                                assert forall|y: Oid| r@.contains(y) implies is_ancestor_of_any(
                                    par,
                                    seeds@,
                                    y,
                                ) by {
                                    if y != p {
                                        assert(before.contains(y));
                                    }
                                }
                                assert(universe@.contains(par[x][j as int]));
                                assert forall|y: Oid| r@.to_set().contains(y) implies u.contains(y) by {
                                    if y != p {
                                        assert(before.contains(y));
                                        assert(before.to_set().contains(y));
                                    }
                                }
                            }
                        }
                        proof {
                            assert forall|l: int| 0 <= l < j + 1 implies r@.contains(#[trigger] ps@[l]) by {
                                if l < j {
                                    assert(before.contains(ps@[l]));
                                    lemma_prefix_contains(before, r@, ps@[l]);
                                }
                            }
                        }
                        j = j + 1;
                    }
                },
            }
            proof {
                lemma_unique_len(r@, u);
                assert forall|y: Oid| seeds@.contains(y) implies r@.contains(y) by {
                    assert(r0.contains(y));
                    lemma_prefix_contains(r0, r@, y);
                }
                assert forall|k: int, j: int|
                    0 <= k < i + 1 && par.dom().contains(r@[k]) && 0 <= j < par[r@[k]].len()
                        implies r@.contains(#[trigger] par[r@[k]][j]) by {
                    if k < i {
                        assert(r@[k] == r0[k]);
                        assert(r0.contains(par[r0[k]][j]));
                        lemma_prefix_contains(r0, r@, par[r0[k]][j]);
                    } else {
                        assert(r@[k] == x);
                    }
                }
            }
            i = i + 1;
        }
        proof {
            assert forall|x: Oid| is_ancestor_of_any(par, seeds@, x) implies r@.contains(x) by {
                let path = choose|path: Seq<Oid>|
                    #[trigger] is_parent_path(par, path) && seeds@.contains(path[0]) && path.last() == x;
                lemma_closed_path(par, r@, path, path.len() - 1);
            }
        }
        r
    }

    /// The visible children of the commits of `ps` other than `exclude`,
    /// in the order of the graph's nodes, each once.
    pub fn visible_children_except(&self, ps: &Vec<Oid>, exclude: Oid) -> (r: Vec<Oid>)
        ensures
            r@.no_duplicates(),
            forall|c: Oid|
                r@.contains(c) <==> (c != exclude && self@.visible.contains(c) && is_child_of_any(
                    self@,
                    c,
                    ps@,
                )),
    {
        let mut r: Vec<Oid> = Vec::new();
        let mut i: usize = 0;
        while i < self.nodes.len()
            invariant
                i <= self.nodes@.len(),
                r@.no_duplicates(),
                forall|c: Oid|
                    r@.contains(c) ==> (c != exclude && self@.visible.contains(c)
                        && is_child_of_any(self@, c, ps@)),
                forall|k: int|
                    0 <= k < i && (#[trigger] self.nodes@[k]).oid != exclude
                        && self@.visible.contains(self.nodes@[k].oid) && is_child_of_any(
                        self@,
                        self.nodes@[k].oid,
                        ps@,
                    ) ==> r@.contains(self.nodes@[k].oid),
            decreases self.nodes@.len() - i,
        {
            let c = self.nodes[i].oid;
            if c != exclude && self.is_visible(c) && !contains(&r, c) {
                let parents = self.parents(c);
                match parents {
                    Some(p) => {
                        if intersects(&p, ps) {
                            let ghost before = r@;
                            r.push(c);
                            proof {
                                assert forall|x: Oid| before.contains(x) implies r@.contains(x) by {
                                    let k = choose|k: int| 0 <= k < before.len() && before[k] == x;
                                    assert(r@[k] == x);
                                }
                                assert(r@[r@.len() - 1] == c);
                                let w = choose|w: int| 0 <= w < p@.len() && ps@.contains(#[trigger] p@[w]);
                                assert(ps@.contains(self@.parents[c][w]));
                                assert(is_child_of_any(self@, c, ps@));
                                assert forall|x: Oid| r@.contains(x) implies (x != exclude
                                    && self@.visible.contains(x) && is_child_of_any(
                                    self@,
                                    x,
                                    ps@,
                                )) by {
                                    let k = choose|k: int| 0 <= k < r@.len() && r@[k] == x;
                                    if k < before.len() {
                                        assert(before[k] == x);
                                        assert(before.contains(x));
                                    } else {
                                        assert(x == c);
                                    }
                                }
                            }
                        } else {
                            proof {
                                assert(!is_child_of_any(self@, c, ps@));
                            }
                        }
                    },
                    None => {},
                }
            }
            i = i + 1;
        }
        proof {
            assert forall|c: Oid|
                (c != exclude && self@.visible.contains(c) && is_child_of_any(
                    self@,
                    c,
                    ps@,
                )) implies r@.contains(c) by {
                lemma_node_parents_index(self.nodes@, c);
                let k = choose|k: int| 0 <= k < self.nodes@.len() && (#[trigger] self.nodes@[k]).oid == c;
                assert(self.nodes@[k].oid == c);
            }
        }
        r
    }
}

/// A commit that the graph knows is held by one of its nodes.
proof fn lemma_node_parents_index(nodes: Seq<CommitNode>, c: Oid)
    requires
        node_parents(nodes, c).is_some(),
    ensures
        exists|k: int| 0 <= k < nodes.len() && (#[trigger] nodes[k]).oid == c,
    decreases nodes.len(),
{
    if nodes[0].oid != c {
        lemma_node_parents_index(nodes.drop_first(), c);
        let k = choose|k: int| 0 <= k < nodes.drop_first().len() && (#[trigger] nodes.drop_first()[k]).oid == c;
        assert(nodes[k + 1] == nodes.drop_first()[k]);
    } else {
        assert(nodes[0].oid == c);
    }
}

/// Giving every node of `c` the parents `ps` changes what a lookup of `c`
/// finds, and nothing else.
proof fn lemma_node_parents_set(s: Seq<CommitNode>, t: Seq<CommitNode>, c: Oid, ps: Seq<Oid>, k: Oid)
    requires
        s.len() == t.len(),
        forall|j: int|
            0 <= j < s.len() ==> (#[trigger] t[j]).oid == s[j].oid && t[j].parents@ == (if s[j].oid
                == c {
                ps
            } else {
                s[j].parents@
            }),
    ensures
        node_parents(t, k) == (if k == c && node_parents(s, c).is_some() {
            Some(ps)
        } else {
            node_parents(s, k)
        }),
    decreases s.len(),
{
    if s.len() > 0 {
        assert(t[0].oid == s[0].oid);
        assert forall|j: int| 0 <= j < s.drop_first().len() implies (#[trigger] t.drop_first()[j]).oid
            == s.drop_first()[j].oid && t.drop_first()[j].parents@ == (if s.drop_first()[j].oid == c {
            ps
        } else {
            s.drop_first()[j].parents@
        }) by {
            assert(t.drop_first()[j] == t[j + 1]);
            assert(s.drop_first()[j] == s[j + 1]);
        }
        lemma_node_parents_set(s.drop_first(), t.drop_first(), c, ps, k);
    }
}

/// A commit that the graph knows is held by a node with the same parents.
proof fn lemma_node_parents_found(nodes: Seq<CommitNode>, c: Oid)
    requires
        node_parents(nodes, c).is_some(),
    ensures
        exists|k: int|
            0 <= k < nodes.len() && (#[trigger] nodes[k]).oid == c && nodes[k].parents@
                == node_parents(nodes, c).unwrap(),
    decreases nodes.len(),
{
    if nodes[0].oid != c {
        lemma_node_parents_found(nodes.drop_first(), c);
        let k = choose|k: int|
            0 <= k < nodes.drop_first().len() && (#[trigger] nodes.drop_first()[k]).oid == c
                && nodes.drop_first()[k].parents@ == node_parents(nodes.drop_first(), c).unwrap();
        assert(nodes[k + 1] == nodes.drop_first()[k]);
    } else {
        assert(nodes[0].oid == c);
    }
}

proof fn lemma_push_contains(s: Seq<Oid>, x: Oid)
    ensures
        s.push(x).contains(x),
        forall|y: Oid| s.contains(y) ==> s.push(x).contains(y),
        forall|y: Oid| s.push(x).contains(y) ==> s.contains(y) || y == x,
        !s.contains(x) && s.no_duplicates() ==> s.push(x).no_duplicates(),
{
    assert(s.push(x)[s.len() as int] == x);
    assert forall|y: Oid| s.contains(y) implies s.push(x).contains(y) by {
        let a = choose|a: int| 0 <= a < s.len() && s[a] == y;
        assert(s.push(x)[a] == y);
    }
    assert forall|y: Oid| s.push(x).contains(y) implies s.contains(y) || y == x by {
        let a = choose|a: int| 0 <= a < s.push(x).len() && s.push(x)[a] == y;
        if a < s.len() {
            assert(s[a] == y);
        }
    }
}

proof fn lemma_prefix_contains(s: Seq<Oid>, t: Seq<Oid>, x: Oid)
    requires
        s.len() <= t.len(),
        forall|k: int| 0 <= k < s.len() ==> t[k] == s[k],
        s.contains(x),
    ensures
        t.contains(x),
{
    let a = choose|a: int| 0 <= a < s.len() && s[a] == x;
    assert(t[a] == x);
}

/// A duplicate-free sequence within a finite set is no longer than it.
proof fn lemma_unique_len(s: Seq<Oid>, u: Set<Oid>)
    requires
        s.no_duplicates(),
        u.finite(),
        s.to_set().subset_of(u),
    ensures
        s.len() <= u.len(),
{
    s.unique_seq_to_set();
    vstd::set_lib::lemma_len_subset(s.to_set(), u);
}

/// A sequence that holds the start of a path and the parents of each of
/// its commits holds the whole path.
proof fn lemma_closed_path(par: Map<Oid, Seq<Oid>>, r: Seq<Oid>, path: Seq<Oid>, k: int)
    requires
        is_parent_path(par, path),
        0 <= k < path.len(),
        r.contains(path[0]),
        forall|a: int, j: int|
            0 <= a < r.len() && par.dom().contains(r[a]) && 0 <= j < par[r[a]].len() ==> r.contains(
                #[trigger] par[r[a]][j],
            ),
    ensures
        r.contains(path[k]),
    decreases k,
{
    if k > 0 {
        lemma_closed_path(par, r, path, k - 1);
        let a = choose|a: int| 0 <= a < r.len() && r[a] == path[k - 1];
        assert(par.dom().contains(path[k - 1]));
        assert(par[path[k - 1]].contains(path[k]));
        let ps = par[path[k - 1]];
        let j = choose|j: int| 0 <= j < ps.len() && #[trigger] ps[j] == path[k];
        assert(r.contains(par[r[a]][j]));
    }
}

} // verus!
