use vstd::prelude::*;

verus! {

/// The views of a sequence of strings.
pub open spec fn views(v: Seq<String>) -> Seq<Seq<char>> {
    v.map_values(|s: String| s@)
}

/// Whether the abstract graph `g` holds the edge `a -> b`.
pub open spec fn has_edge_in(g: Map<Seq<char>, Set<Seq<char>>>, a: Seq<char>, b: Seq<char>) -> bool {
    g.contains_key(a) && g[a].contains(b)
}

/// A directed graph over string nodes. Every name that occurs in it, as a
/// key or as a successor, gets a node id; `keyed` tells which ids are keys.
pub struct Graph {
    pub names: Vec<String>,
    pub keyed: Vec<bool>,
    pub adj: Vec<Vec<usize>>,
}

impl View for Graph {
    type V = Map<Seq<char>, Set<Seq<char>>>;

    open spec fn view(&self) -> Map<Seq<char>, Set<Seq<char>>> {
        Map::new(
            |a: Seq<char>| exists|i: int| self.key_at(i, a),
            |a: Seq<char>| Set::new(|b: Seq<char>| exists|i: int| self.key_at(i, a) && self.edge_at(i, b)),
        )
    }
}

impl Graph {
    pub open spec fn wf(&self) -> bool {
        &&& self.keyed.len() == self.names.len()
        &&& self.adj.len() == self.names.len()
        &&& forall|i: int, j: int|
            0 <= i < self.names.len() && 0 <= j < self.names.len() && i != j
                ==> self.names[i]@ != self.names[j]@
        &&& forall|i: int, k: int|
            0 <= i < self.adj.len() && 0 <= k < self.adj[i].len() ==> self.adj[i][k] < self.names.len()
        &&& forall|i: int| 0 <= i < self.adj.len() ==> self.adj[i]@.no_duplicates()
        &&& forall|i: int| 0 <= i < self.adj.len() && !self.keyed[i] ==> self.adj[i].len() == 0
    }

    /// Node `i` is a key named `a`.
    pub open spec fn key_at(&self, i: int, a: Seq<char>) -> bool {
        0 <= i < self.names.len() && self.keyed[i] && self.names[i]@ == a
    }

    /// Node `i` has a successor named `b`.
    pub open spec fn edge_at(&self, i: int, b: Seq<char>) -> bool {
        exists|k: int| 0 <= k < self.adj[i].len() && self.names[self.adj[i][k] as int]@ == b
    }

    /// The names of the successors of node `i`.
    pub open spec fn succ_names(&self, i: int) -> Set<Seq<char>> {
        Set::new(|b: Seq<char>| self.edge_at(i, b))
    }

    /// Whether node id `i` has an edge to node id `j`.
    pub open spec fn id_edge(&self, i: int, j: int) -> bool {
        0 <= i < self.adj.len() && exists|k: int| 0 <= k < self.adj[i].len() && self.adj[i][k] as int == j
    }

    pub proof fn lemma_view_at(&self, i: int)
        requires
            self.wf(),
            0 <= i < self.names.len(),
        ensures
            self@.contains_key(self.names[i]@) == self.keyed[i],
            self.keyed[i] ==> self@[self.names[i]@] == self.succ_names(i),
    {
        let a = self.names[i]@;
        if self.keyed[i] {
            assert(self.key_at(i, a));
            assert(self@[a] =~= self.succ_names(i)) by {
                assert forall|b: Seq<char>| self@[a].contains(b) implies self.succ_names(i).contains(b) by {
                    let i2 = choose|i2: int| self.key_at(i2, a) && self.edge_at(i2, b);
                    assert(i2 == i);
                }
                assert forall|b: Seq<char>| self.succ_names(i).contains(b) implies self@[a].contains(b) by {
                    assert(self.key_at(i, a) && self.edge_at(i, b));
                }
            }
        } else {
            assert forall|i2: int| !self.key_at(i2, a) by {
                if self.key_at(i2, a) {
                    assert(i2 == i);
                }
            }
        }
    }

    pub proof fn lemma_view_absent(&self, a: Seq<char>)
        requires
            self.wf(),
            forall|i: int| 0 <= i < self.names.len() ==> self.names[i]@ != a,
        ensures
            !self@.contains_key(a),
    {
    }

    /// Edges between node ids are edges between their names.
    pub proof fn lemma_id_edge(&self, i: int, j: int)
        requires
            self.wf(),
            self.id_edge(i, j),
        ensures
            0 <= j < self.names.len(),
            has_edge_in(self@, self.names[i]@, self.names[j]@),
    {
        let k = choose|k: int| 0 <= k < self.adj[i].len() && self.adj[i][k] as int == j;
        assert(self.keyed[i]);
        self.lemma_view_at(i);
        assert(self.edge_at(i, self.names[j]@));
    }

    /// An empty graph.
    pub fn new() -> (g: Graph)
        ensures
            g.wf(),
            g@ == Map::<Seq<char>, Set<Seq<char>>>::empty(),
    {
        let g = Graph { names: Vec::new(), keyed: Vec::new(), adj: Vec::new() };
        assert(g@ =~= Map::<Seq<char>, Set<Seq<char>>>::empty());
        g
    }

    /// The id of the node named `name`, if there is one.
    pub(crate) fn find(&self, name: &String) -> (r: Option<usize>)
        requires
            self.wf(),
        ensures
            match r {
                Some(i) => i < self.names.len() && self.names[i as int]@ == name@,
                None => forall|i: int| 0 <= i < self.names.len() ==> self.names[i]@ != name@,
            },
    {
        let mut i: usize = 0;
        while i < self.names.len()
            invariant
                i <= self.names.len(),
                forall|k: int| 0 <= k < i ==> self.names[k]@ != name@,
            decreases self.names.len() - i,
        {
            if self.names[i] == *name {
                return Some(i);
            }
            i = i + 1;
        }
        None
    }

    /// Whether `key` is a key of the graph.
    pub fn contains_key(&self, key: &String) -> (r: bool)
        requires
            self.wf(),
        ensures
            r == self@.contains_key(key@),
    {
        match self.find(key) {
            Some(i) => {
                proof {
                    self.lemma_view_at(i as int);
                }
                self.keyed[i]
            },
            None => {
                proof {
                    self.lemma_view_absent(key@);
                }
                false
            },
        }
    }

    /// `self` keeps every node of `old` as it was, and possibly adds nodes.
    pub open spec fn extends(&self, old: &Graph) -> bool {
        &&& self.names.len() >= old.names.len()
        &&& forall|i: int|
            0 <= i < old.names.len() ==> {
                &&& self.names[i] == old.names[i]
                &&& self.keyed[i] == old.keyed[i]
                &&& self.adj[i] == old.adj[i]
            }
    }

    /// Two graphs that differ only in the entry of node `i` agree on every
    /// other name.
    pub proof fn lemma_other_entry(g0: &Graph, g2: &Graph, i: int, a: Seq<char>)
        requires
            g0.wf(),
            g2.wf(),
            0 <= i < g0.names.len(),
            g2.names@ == g0.names@,
            g2.keyed@ == g0.keyed@.update(i, g2.keyed[i]),
            forall|i2: int| 0 <= i2 < g0.names.len() && i2 != i ==> g2.adj[i2] == g0.adj[i2],
            a != g0.names[i]@,
        ensures
            g2@.contains_key(a) == g0@.contains_key(a),
            g2@.contains_key(a) ==> g2@[a] == g0@[a],
    {
        if exists|i2: int| 0 <= i2 < g0.names.len() && g0.names[i2]@ == a {
            let i2 = choose|i2: int| 0 <= i2 < g0.names.len() && g0.names[i2]@ == a;
            g0.lemma_view_at(i2);
            g2.lemma_view_at(i2);
            assert(g2.keyed[i2] == g0.keyed[i2]);
            assert(g2.succ_names(i2) =~= g0.succ_names(i2));
        } else {
            g0.lemma_view_absent(a);
            g2.lemma_view_absent(a);
        }
    }

    /// Two graphs that differ only in the entry of node `i`.
    pub proof fn lemma_set_node(g0: &Graph, g2: &Graph, i: int)
        requires
            g0.wf(),
            g2.wf(),
            0 <= i < g0.names.len(),
            g2.names@ == g0.names@,
            g2.keyed@ == g0.keyed@.update(i, g2.keyed[i]),
            forall|i2: int| 0 <= i2 < g0.names.len() && i2 != i ==> g2.adj[i2] == g0.adj[i2],
        ensures
            g2.keyed[i] ==> g2@ == g0@.insert(g0.names[i]@, g2.succ_names(i)),
            !g2.keyed[i] ==> g2@ == g0@.remove(g0.names[i]@),
    {
        let ki = g0.names[i]@;
        g2.lemma_view_at(i);
        g0.lemma_view_at(i);
        if g2.keyed[i] {
            let m = g0@.insert(ki, g2.succ_names(i));
            assert forall|a: Seq<char>| #[trigger] g2@.contains_key(a) == m.contains_key(a)
                && (a != ki && g2@.contains_key(a) ==> g2@[a] == m[a]) by {
                if a != ki {
                    Graph::lemma_other_entry(g0, g2, i, a);
                }
            }
            assert(g2@.dom() =~= m.dom());
            assert(g2@ =~= m);
        } else {
            let m = g0@.remove(ki);
            assert forall|a: Seq<char>| #[trigger] g2@.contains_key(a) == m.contains_key(a)
                && (a != ki && g2@.contains_key(a) ==> g2@[a] == m[a]) by {
                if a != ki {
                    Graph::lemma_other_entry(g0, g2, i, a);
                }
            }
            assert(g2@.dom() =~= m.dom());
            assert(g2@ =~= m);
        }
    }

    /// Whether the graph holds the edge `a -> b`.
    pub fn has_edge(&self, a: &String, b: &String) -> (r: bool)
        requires
            self.wf(),
        ensures
            r == has_edge_in(self@, a@, b@),
    {
        match self.find(a) {
            None => {
                proof {
                    self.lemma_view_absent(a@);
                }
                false
            },
            Some(i) => {
                proof {
                    self.lemma_view_at(i as int);
                }
                if !self.keyed[i] {
                    return false;
                }
                let mut k: usize = 0;
                while k < self.adj[i].len()
                    invariant
                        self.wf(),
                        i < self.names.len(),
                        k <= self.adj[i as int].len(),
                        self.names[i as int]@ == a@,
                        self.keyed[i as int],
                        forall|t: int| 0 <= t < k ==> self.names[self.adj[i as int][t] as int]@ != b@,
                    decreases self.adj[i as int].len() - k,
                {
                    let j = self.adj[i][k];
                    if self.names[j] == *b {
                        proof {
                            self.lemma_view_at(i as int);
                            assert(self.edge_at(i as int, b@));
                            assert(self.succ_names(i as int).contains(b@));
                        }
                        return true;
                    }
                    k = k + 1;
                }
                false
            },
        }
    }

    /// The id of the node named `name`, added as a node without an entry
    /// where it is new.
    pub(crate) fn intern(&mut self, name: &String) -> (i: usize)
        requires
            old(self).wf(),
        ensures
            final(self).wf(),
            final(self)@ == old(self)@,
            final(self).extends(old(self)),
            i < final(self).names.len(),
            final(self).names[i as int]@ == name@,
    {
        match self.find(name) {
            Some(i) => i,
            None => {
                let ghost g0 = *self;
                let n = self.names.len();
                self.names.push(name.clone());
                self.keyed.push(false);
                self.adj.push(Vec::new());
                proof {
                    let g1 = *self;
                    assert forall|i2: int| 0 <= i2 < n implies #[trigger] g1.succ_names(i2) =~= g0.succ_names(i2) by {
                        assert forall|b: Seq<char>| g1.edge_at(i2, b) == g0.edge_at(i2, b) by {
                            if g0.edge_at(i2, b) {
                                let k = choose|k: int| 0 <= k < g0.adj[i2].len() && g0.names[g0.adj[i2][k] as int]@ == b;
                                assert(g1.names[g1.adj[i2][k] as int]@ == b);
                            }
                            if g1.edge_at(i2, b) {
                                let k = choose|k: int| 0 <= k < g1.adj[i2].len() && g1.names[g1.adj[i2][k] as int]@ == b;
                                assert(g0.names[g0.adj[i2][k] as int]@ == b);
                            }
                        }
                    }
                    assert forall|a: Seq<char>| #[trigger] g1@.contains_key(a) == g0@.contains_key(a)
                        && (g1@.contains_key(a) ==> g1@[a] == g0@[a]) by {
                        if exists|i2: int| 0 <= i2 < n && g0.names[i2]@ == a {
                            let i2 = choose|i2: int| 0 <= i2 < n && g0.names[i2]@ == a;
                            g0.lemma_view_at(i2);
                            g1.lemma_view_at(i2);
                        } else {
                            g0.lemma_view_absent(a);
                            if a != name@ {
                                g1.lemma_view_absent(a);
                            } else {
                                g1.lemma_view_at(n as int);
                            }
                        }
                    }
                    assert(g1@.dom() =~= g0@.dom());
                    assert(g1@ =~= g0@);
                }
                n
            },
        }
    }

    /// Sets the successors of `key` to the names in `succs`, replacing any
    /// it had.
    pub fn insert(&mut self, key: &String, succs: &Vec<String>)
        requires
            old(self).wf(),
        ensures
            final(self).wf(),
            final(self)@ == old(self)@.insert(key@, views(succs@).to_set()),
    {
        let i = self.intern(key);
        let mut list: Vec<usize> = Vec::new();
        let mut t: usize = 0;
        while t < succs.len()
            invariant
                self.wf(),
                self@ == old(self)@,
                i < self.names.len(),
                self.names[i as int]@ == key@,
                t <= succs.len(),
                forall|k: int| 0 <= k < list.len() ==> list[k] < self.names.len(),
                list@.no_duplicates(),
                forall|k: int|
                    0 <= k < list.len() ==> exists|u: int|
                        0 <= u < t && succs[u]@ == #[trigger] self.names[list[k] as int]@,
                forall|u: int|
                    0 <= u < t ==> exists|k: int|
                        0 <= k < list.len() && self.names[list[k] as int]@ == #[trigger] succs[u]@,
            decreases succs.len() - t,
        {
            let ghost gb = *self;
            let ghost lb = list@;
            let j = self.intern(&succs[t]);
            proof {
                assert forall|k: int| 0 <= k < list.len() implies self.names[list[k] as int] == gb.names[list[k] as int] by {}
            }
            let ghost mut jk: int = 0;
            if !contains_id(&list, j) {
                list.push(j);
                proof {
                    jk = list.len() - 1;
                }
            } else {
                proof {
                    jk = choose|k: int| 0 <= k < list.len() && list[k] == j;
                }
            }
            proof {
                assert(list[jk] == j);
                assert forall|u: int| 0 <= u < t + 1 implies exists|k: int|
                    0 <= k < list.len() && self.names[list[k] as int]@ == #[trigger] succs[u]@ by {
                    if u < t {
                        let k = choose|k: int| 0 <= k < lb.len() && gb.names[lb[k] as int]@ == succs[u]@;
                        assert(list[k] == lb[k]);
                    } else {
                        assert(self.names[list[jk] as int]@ == succs[u]@);
                    }
                }
                assert forall|k: int| 0 <= k < list.len() implies exists|u: int|
                    0 <= u < t + 1 && succs[u]@ == #[trigger] self.names[list[k] as int]@ by {
                    if k < lb.len() {
                        assert(list[k] == lb[k]);
                        let u = choose|u: int| 0 <= u < t && succs[u]@ == gb.names[lb[k] as int]@;
                        assert(succs[u]@ == self.names[list[k] as int]@);
                    } else {
                        assert(succs[t as int]@ == self.names[list[k] as int]@);
                    }
                }
            }
            t = t + 1;
        }
        let ghost g0 = *self;
        self.adj.set(i, list);
        self.keyed.set(i, true);
        proof {
            Graph::lemma_set_node(&g0, self, i as int);
            let want = views(succs@).to_set();
            assert forall|b: Seq<char>| self.succ_names(i as int).contains(b) == want.contains(b) by {
                if want.contains(b) {
                    let u = choose|u: int| 0 <= u < succs.len() && views(succs@)[u] == b;
                    assert(succs[u]@ == b);
                }
                if self.edge_at(i as int, b) {
                    let k = choose|k: int| 0 <= k < self.adj[i as int].len() && self.names[self.adj[i as int][k] as int]@ == b;
                    let u = choose|u: int| 0 <= u < succs.len() && succs[u]@ == self.names[self.adj[i as int][k] as int]@;
                    assert(views(succs@)[u] == b);
                }
            }
            assert(self.succ_names(i as int) =~= want);
        }
    }

    /// Adds the edge `from -> to`, making `from` a key where it was none.
    pub fn add_edge(&mut self, from: &String, to: &String)
        requires
            old(self).wf(),
        ensures
            final(self).wf(),
            final(self)@ == old(self)@.insert(
                from@,
                if old(self)@.contains_key(from@) {
                    old(self)@[from@].insert(to@)
                } else {
                    set![to@]
                },
            ),
    {
        let i = self.intern(from);
        let j = self.intern(to);
        let ghost g0 = *self;
        proof {
            g0.lemma_view_at(i as int);
        }
        let mut list = copy_ids(&self.adj[i]);
        if !contains_id(&list, j) {
            list.push(j);
            proof {
                assert(list[list.len() - 1] == j);
            }
        }
        proof {
            assert(list@.contains(j));
        }
        self.adj.set(i, list);
        self.keyed.set(i, true);
        proof {
            Graph::lemma_set_node(&g0, self, i as int);
            let want = if g0@.contains_key(from@) { g0@[from@].insert(to@) } else { set![to@] };
            assert forall|b: Seq<char>| self.succ_names(i as int).contains(b) == want.contains(b) by {
                if self.edge_at(i as int, b) {
                    let k = choose|k: int| 0 <= k < self.adj[i as int].len() && self.names[self.adj[i as int][k] as int]@ == b;
                    if self.adj[i as int][k] != j {
                        assert(g0.edge_at(i as int, b));
                    }
                }
                if want.contains(b) && b != to@ {
                    assert(g0.edge_at(i as int, b));
                    let k = choose|k: int| 0 <= k < g0.adj[i as int].len() && g0.names[g0.adj[i as int][k] as int]@ == b;
                    assert(self.names[self.adj[i as int][k] as int]@ == b);
                }
                if b == to@ {
                    let k = choose|k: int| 0 <= k < self.adj[i as int].len() && self.adj[i as int][k] == j;
                    assert(self.names[self.adj[i as int][k] as int]@ == b);
                }
            }
            assert(self.succ_names(i as int) =~= want);
        }
    }

    /// The successors of `key`, each once, where `key` is a key.
    pub fn successors(&self, key: &String) -> (r: Option<Vec<String>>)
        requires
            self.wf(),
        ensures
            r is Some == self@.contains_key(key@),
            r matches Some(v) ==> views(v@).to_set() == self@[key@] && views(v@).no_duplicates(),
    {
        let i = match self.find(key) {
            Some(i) => i,
            None => {
                proof {
                    self.lemma_view_absent(key@);
                }
                return None;
            },
        };
        proof {
            self.lemma_view_at(i as int);
        }
        if !self.keyed[i] {
            return None;
        }
        let mut v: Vec<String> = Vec::new();
        let mut k: usize = 0;
        while k < self.adj[i].len()
            invariant
                self.wf(),
                i < self.names.len(),
                k <= self.adj[i as int].len(),
                v.len() == k,
                forall|t: int| 0 <= t < k ==> v[t]@ == self.names[self.adj[i as int][t] as int]@,
            decreases self.adj[i as int].len() - k,
        {
            v.push(self.names[self.adj[i][k]].clone());
            k = k + 1;
        }
        proof {
            let vs = views(v@);
            assert forall|b: Seq<char>| vs.to_set().contains(b) == self.succ_names(i as int).contains(b) by {
                if self.edge_at(i as int, b) {
                    let t = choose|t: int| 0 <= t < self.adj[i as int].len() && self.names[self.adj[i as int][t] as int]@ == b;
                    assert(vs[t] == b);
                }
                if vs.to_set().contains(b) {
                    let t = choose|t: int| 0 <= t < vs.len() && vs[t] == b;
                    assert(self.names[self.adj[i as int][t] as int]@ == b);
                }
            }
            assert(vs.to_set() =~= self.succ_names(i as int));
            assert forall|a: int, b: int| 0 <= a < vs.len() && 0 <= b < vs.len() && a != b implies vs[a] != vs[b] by {
                assert(self.adj[i as int][a] != self.adj[i as int][b]);
            }
        }
        Some(v)
    }

    /// The position of `to` among the successors of node `i`.
    fn find_succ(&self, i: usize, to: &String) -> (r: Option<usize>)
        requires
            self.wf(),
            i < self.names.len(),
        ensures
            match r {
                Some(k) => k < self.adj[i as int].len() && self.names[self.adj[i as int][k as int] as int]@ == to@,
                None => !self.edge_at(i as int, to@),
            },
    {
        let mut k: usize = 0;
        while k < self.adj[i].len()
            invariant
                self.wf(),
                i < self.names.len(),
                k <= self.adj[i as int].len(),
                forall|t: int| 0 <= t < k ==> self.names[self.adj[i as int][t] as int]@ != to@,
            decreases self.adj[i as int].len() - k,
        {
            if self.names[self.adj[i][k]] == *to {
                return Some(k);
            }
            k = k + 1;
        }
        None
    }

    /// Removes the edge `from -> to` where `from` is a key.
    pub fn remove_edge(&mut self, from: &String, to: &String)
        requires
            old(self).wf(),
        ensures
            final(self).wf(),
            final(self).names@ == old(self).names@,
            final(self)@ == if old(self)@.contains_key(from@) {
                old(self)@.insert(from@, old(self)@[from@].remove(to@))
            } else {
                old(self)@
            },
    {
        let i = match self.find(from) {
            Some(i) => i,
            None => {
                proof {
                    self.lemma_view_absent(from@);
                }
                return;
            },
        };
        proof {
            self.lemma_view_at(i as int);
        }
        if !self.keyed[i] {
            return;
        }
        let ghost g0 = *self;
        let k = match self.find_succ(i, to) {
            Some(k) => k,
            None => {
                proof {
                    assert forall|b: Seq<char>| self.succ_names(i as int).contains(b) == g0@[from@].remove(to@).contains(b) by {}
                    assert(self.succ_names(i as int) =~= g0@[from@].remove(to@));
                    assert(self@ =~= g0@.insert(from@, g0@[from@].remove(to@)));
                }
                return;
            },
        };
        let mut list = copy_ids(&self.adj[i]);
        list.remove(k);
        proof {
            let s0 = g0.adj[i as int]@;
            assert forall|a: int, b: int| 0 <= a < list.len() && 0 <= b < list.len() && a != b implies list[a] != list[b] by {
                let a0 = if a < k { a } else { a + 1 };
                let b0 = if b < k { b } else { b + 1 };
                assert(list[a] == s0[a0] && list[b] == s0[b0]);
            }
        }
        self.adj.set(i, list);
        proof {
            assert(self.keyed@ =~= g0.keyed@.update(i as int, self.keyed[i as int]));
            Graph::lemma_set_node(&g0, self, i as int);
            let want = g0@[from@].remove(to@);
            assert forall|b: Seq<char>| self.succ_names(i as int).contains(b) == want.contains(b) by {
                let s0 = g0.adj[i as int]@;
                if self.edge_at(i as int, b) {
                    let t = choose|t: int| 0 <= t < self.adj[i as int].len() && self.names[self.adj[i as int][t] as int]@ == b;
                    let t0 = if t < k { t } else { t + 1 };
                    assert(self.adj[i as int][t] == s0[t0]);
                    assert(g0.edge_at(i as int, b));
                    assert(s0[t0] != s0[k as int]);
                }
                if want.contains(b) {
                    assert(g0.edge_at(i as int, b));
                    let t0 = choose|t: int| 0 <= t < s0.len() && g0.names[s0[t] as int]@ == b;
                    assert(t0 != k);
                    let t = if t0 < k { t0 } else { t0 - 1 };
                    assert(self.adj[i as int][t] == s0[t0]);
                    assert(self.names[self.adj[i as int][t] as int]@ == b);
                }
            }
            assert(self.succ_names(i as int) =~= want);
        }
    }

    /// Removes `to` from the successors of every key.
    pub fn remove_from_all(&mut self, to: &String)
        requires
            old(self).wf(),
        ensures
            final(self).wf(),
            final(self)@ == Map::new(
                |m: Seq<char>| old(self)@.contains_key(m),
                |m: Seq<char>| old(self)@[m].remove(to@),
            ),
    {
        let ghost g0 = self@;
        let ghost names0 = self.names@;
        let mut i: usize = 0;
        while i < self.names.len()
            invariant
                self.wf(),
                self.names@ == names0,
                i <= self.names.len(),
                self@ == Map::new(
                    |m: Seq<char>| g0.contains_key(m),
                    |m: Seq<char>|
                        if exists|u: int| 0 <= u < i && names0[u]@ == m {
                            g0[m].remove(to@)
                        } else {
                            g0[m]
                        },
                ),
            decreases self.names.len() - i,
        {
            let ghost before = self@;
            let nm = self.names[i].clone();
            proof {
                self.lemma_view_at(i as int);
            }
            self.remove_edge(&nm, to);
            proof {
                let want = Map::new(
                    |m: Seq<char>| g0.contains_key(m),
                    |m: Seq<char>|
                        if exists|u: int| 0 <= u < i + 1 && names0[u]@ == m {
                            g0[m].remove(to@)
                        } else {
                            g0[m]
                        },
                );
                assert forall|m: Seq<char>| #[trigger] self@.contains_key(m) == want.contains_key(m)
                    && (want.contains_key(m) ==> self@[m] == want[m]) by {
                    if m == nm@ {
                        if before.contains_key(m) {
                            assert(names0[i as int]@ == m);
                            assert(g0[m].remove(to@).remove(to@) =~= g0[m].remove(to@));
                        }
                    } else {
                        if exists|u: int| 0 <= u < i + 1 && names0[u]@ == m {
                            let u = choose|u: int| 0 <= u < i + 1 && names0[u]@ == m;
                            assert(u != i);
                        }
                    }
                }
                assert(self@.dom() =~= want.dom());
                assert(self@ =~= want);
            }
            i = i + 1;
        }
        proof {
            let want = Map::new(|m: Seq<char>| g0.contains_key(m), |m: Seq<char>| g0[m].remove(to@));
            assert forall|m: Seq<char>| #[trigger] self@.contains_key(m) == want.contains_key(m)
                && (want.contains_key(m) ==> self@[m] == want[m]) by {
                if g0.contains_key(m) {
                    let i2 = choose|i2: int| self.key_at(i2, m);
                    assert(names0[i2]@ == m);
                }
            }
            assert(self@.dom() =~= want.dom());
            assert(self@ =~= want);
        }
    }

    /// Removes `key` and its successors; edges into it stay.
    pub fn remove_key(&mut self, key: &String)
        requires
            old(self).wf(),
        ensures
            final(self).wf(),
            final(self)@ == old(self)@.remove(key@),
    {
        let i = match self.find(key) {
            Some(i) => i,
            None => {
                proof {
                    self.lemma_view_absent(key@);
                    assert(self@ =~= self@.remove(key@));
                }
                return;
            },
        };
        let ghost g0 = *self;
        proof {
            g0.lemma_view_at(i as int);
        }
        if !self.keyed[i] {
            proof {
                assert(self@ =~= self@.remove(key@));
            }
            return;
        }
        self.adj.set(i, Vec::new());
        self.keyed.set(i, false);
        proof {
            Graph::lemma_set_node(&g0, self, i as int);
        }
    }
}

/// Whether `x` occurs in `v`.
fn contains_id(v: &Vec<usize>, x: usize) -> (r: bool)
    ensures
        r == v@.contains(x),
{
    let mut k: usize = 0;
    while k < v.len()
        invariant
            k <= v.len(),
            forall|t: int| 0 <= t < k ==> v[t] != x,
        decreases v.len() - k,
    {
        if v[k] == x {
            return true;
        }
        k = k + 1;
    }
    false
}

/// A copy of `v`.
pub(crate) fn copy_ids(v: &Vec<usize>) -> (r: Vec<usize>)
    ensures
        r@ == v@,
{
    let mut r: Vec<usize> = Vec::new();
    let mut k: usize = 0;
    while k < v.len()
        invariant
            k <= v.len(),
            r@ == v@.subrange(0, k as int),
        decreases v.len() - k,
    {
        r.push(v[k]);
        k = k + 1;
    }
    assert(r@ =~= v@);
    r
}

} // verus!
