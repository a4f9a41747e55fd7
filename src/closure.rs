use vstd::prelude::*;

verus! {

broadcast use vstd::seq_lib::lemma_seq_contains_after_push;

/// A directed relation over transaction ids, kept closed under transitivity,
/// with both the successor lists and the predecessor lists materialized.
pub struct EdgeClosure {
    forward_edge: Vec<Vec<usize>>,
    backward_edge: Vec<Vec<usize>>,
}

impl EdgeClosure {
    /// Number of ids the index tables currently cover.
    pub closed spec fn dim(&self) -> nat {
        self.forward_edge@.len()
    }

    /// `v` is listed among the successors of `u`; this is the relation itself.
    pub closed spec fn has(&self, u: usize, v: usize) -> bool {
        u < self.forward_edge@.len() && self.forward_edge@[u as int]@.contains(v)
    }

    /// `u` is listed among the predecessors of `v`.
    pub closed spec fn has_backward(&self, v: usize, u: usize) -> bool {
        v < self.backward_edge@.len() && self.backward_edge@[v as int]@.contains(u)
    }

    /// The two indexes cover the same ids, hold ids in range, repeat no id,
    /// and list exactly the same pairs.
    pub closed spec fn indexes_wf(&self) -> bool {
        &&& self.forward_edge@.len() == self.backward_edge@.len()
        &&& forall|u: int| 0 <= u < self.forward_edge@.len()
                ==> #[trigger] self.forward_edge@[u]@.no_duplicates()
        &&& forall|v: int| 0 <= v < self.backward_edge@.len()
                ==> #[trigger] self.backward_edge@[v]@.no_duplicates()
        &&& forall|u: usize, v: usize| #[trigger] self.has(u, v)
                ==> v < self.forward_edge@.len() && self.has_backward(v, u)
        &&& forall|u: usize, v: usize| #[trigger] self.has_backward(v, u) ==> self.has(u, v)
    }

    pub open spec fn transitive(&self) -> bool {
        forall|a: usize, b: usize, c: usize|
            #[trigger] self.has(a, b) && #[trigger] self.has(b, c) ==> self.has(a, c)
    }

    pub open spec fn wf(&self) -> bool {
        self.indexes_wf() && self.transitive()
    }

    /// No id reaches itself.
    pub open spec fn acyclic(&self) -> bool {
        forall|a: usize| !#[trigger] self.has(a, a)
    }

    /// Every pair of the relation is a pair of `rel`.
    pub open spec fn within(&self, rel: spec_fn(usize, usize) -> bool) -> bool {
        forall|a: usize, b: usize| #[trigger] self.has(a, b) ==> rel(a, b)
    }

    /// `a -> b` holds once `u -> v` and everything it implies by transitivity is added.
    pub open spec fn has_after_add(&self, u: usize, v: usize, a: usize, b: usize) -> bool {
        self.has(a, b) || ((a == u || self.has(a, u)) && (b == v || self.has(v, b)))
    }

    pub proof fn lemma_in_range(&self, u: usize, v: usize)
        requires
            self.indexes_wf(),
            self.has(u, v),
        ensures
            u < self.dim(),
            v < self.dim(),
    {
    }

    /// The relation is transitive: this holds after `new` and after every
    /// `add_edge`, so after any sequence of insertions.
    pub proof fn lemma_transitive(&self, u: usize, v: usize, w: usize)
        requires
            self.wf(),
            self.has(u, v),
            self.has(v, w),
        ensures
            self.has(u, w),
    {
    }

    /// Both indexes describe one relation: `v` is a successor of `u` exactly
    /// when `u` is a predecessor of `v`.
    pub proof fn lemma_index_symmetry(&self, u: usize, v: usize)
        requires
            self.indexes_wf(),
        ensures
            self.has(u, v) <==> self.has_backward(v, u),
    {
    }

    pub fn new() -> (r: Self)
        ensures
            r.wf(),
            r.dim() == 0,
            forall|u: usize, v: usize| !r.has(u, v),
    {
        EdgeClosure { forward_edge: Vec::new(), backward_edge: Vec::new() }
    }

    pub fn contains(&self, u: usize, v: usize) -> (r: bool)
        requires
            self.indexes_wf(),
        ensures
            r == self.has(u, v),
    {
        if u >= self.forward_edge.len() {
            return false;
        }
        let row = &self.forward_edge[u];
        let mut i: usize = 0;
        while i < row.len()
            invariant
                i <= row@.len(),
                u < self.forward_edge@.len(),
                row@ == self.forward_edge@[u as int]@,
                forall|j: int| 0 <= j < i ==> row@[j] != v,
            decreases row@.len() - i,
        {
            if row[i] == v {
                assert(row@[i as int] == v);
                return true;
            }
            i = i + 1;
        }
        false
    }

    /// The successors of `u`, each once.
    pub fn successors(&self, u: usize) -> (r: Vec<usize>)
        requires
            self.indexes_wf(),
        ensures
            r@.no_duplicates(),
            forall|v: usize| r@.contains(v) <==> self.has(u, v),
    {
        if u < self.forward_edge.len() {
            self.forward_edge[u].clone()
        } else {
            Vec::new()
        }
    }

    /// The predecessors of `v`, each once.
    pub fn predecessors(&self, v: usize) -> (r: Vec<usize>)
        requires
            self.indexes_wf(),
        ensures
            r@.no_duplicates(),
            forall|u: usize| r@.contains(u) <==> self.has(u, v),
    {
        if v < self.backward_edge.len() {
            let r = self.backward_edge[v].clone();
            assert(r@ == self.backward_edge@[v as int]@);
            assert forall|u: usize| r@.contains(u) <==> self.has(u, v) by {
                assert(r@.contains(u) == self.has_backward(v, u));
            }
            r
        } else {
            Vec::new()
        }
    }

    /// Inserts `u -> v` and every pair it implies by transitivity with the
    /// current relation: each predecessor of `u` (and `u`) now reaches each
    /// successor of `v` (and `v`). Returns whether any pair was new.
    pub fn add_edge(&mut self, u: usize, v: usize) -> (r: bool)
        requires
            old(self).wf(),
            u < usize::MAX,
            v < usize::MAX,
        ensures
            final(self).wf(),
            r == !old(self).has(u, v),
            forall|a: usize, b: usize|
                #[trigger] final(self).has(a, b) == old(self).has_after_add(u, v, a, b),
            forall|a: usize, b: usize| old(self).has(a, b) ==> #[trigger] final(self).has(a, b),
            final(self).has(u, v),
            forall|rel: spec_fn(usize, usize) -> bool|
                old(self).within(rel) && rel(u, v) && rel_transitive(rel) ==> #[trigger] final(self).within(rel),
            old(self).acyclic() && !old(self).has(v, u) && u != v ==> final(self).acyclic(),
            old(self).dim() <= final(self).dim(),
            final(self).dim() <= old(self).dim() || final(self).dim() <= u + 1
                || final(self).dim() <= v + 1,
    {
        if self.contains(u, v) {
            proof {
                assert forall|a: usize, b: usize|
                    #[trigger] self.has(a, b) == self.has_after_add(u, v, a, b) by {
                    if (a == u || self.has(a, u)) && (b == v || self.has(v, b)) {
                        if a != u {
                            assert(self.has(a, v));
                        }
                    }
                }
            }
            return false;
        }
        let n: usize = if u > v { u + 1 } else { v + 1 };
        self.grow(n);
        let ghost pre = *self;
        let mut prevs = self.predecessors(u);
        let ghost pv = prevs@;
        prevs.push(u);
        let mut nexts = self.successors(v);
        let ghost nv = nexts@;
        nexts.push(v);
        proof {
            assert forall|i: int| 0 <= i < prevs@.len() implies #[trigger] prevs@[i] < pre.dim() by {
                if i < prevs@.len() - 1 {
                    assert(prevs@[i] == pv[i]);
                    assert(pv.contains(pv[i]));
                    pre.lemma_in_range(prevs@[i], u);
                }
            }
            assert forall|j: int| 0 <= j < nexts@.len() implies #[trigger] nexts@[j] < pre.dim() by {
                if j < nexts@.len() - 1 {
                    assert(nexts@[j] == nv[j]);
                    assert(nv.contains(nv[j]));
                    pre.lemma_in_range(v, nexts@[j]);
                }
            }
        }
        let mut i: usize = 0;
        while i < prevs.len()
            invariant
                self.indexes_wf(),
                self.dim() == pre.dim(),
                i <= prevs@.len(),
                forall|k: int| 0 <= k < prevs@.len() ==> #[trigger] prevs@[k] < pre.dim(),
                forall|k: int| 0 <= k < nexts@.len() ==> #[trigger] nexts@[k] < pre.dim(),
                forall|a: usize, b: usize|
                    #[trigger] self.has(a, b) == (pre.has(a, b) || (exists|k: int|
                        0 <= k < i && prevs@[k] == a) && nexts@.contains(b)),
            decreases prevs@.len() - i,
        {
            let p = prevs[i];
            let mut j: usize = 0;
            while j < nexts.len()
                invariant
                    self.indexes_wf(),
                    self.dim() == pre.dim(),
                    i < prevs@.len(),
                    p == prevs@[i as int],
                    j <= nexts@.len(),
                    forall|k: int| 0 <= k < prevs@.len() ==> #[trigger] prevs@[k] < pre.dim(),
                    forall|k: int| 0 <= k < nexts@.len() ==> #[trigger] nexts@[k] < pre.dim(),
                    forall|a: usize, b: usize|
                        #[trigger] self.has(a, b) == (pre.has(a, b) || (exists|k: int|
                            0 <= k < i && prevs@[k] == a) && nexts@.contains(b) || (a == p
                            && exists|k: int| 0 <= k < j && nexts@[k] == b)),
                decreases nexts@.len() - j,
            {
                let q = nexts[j];
                let ghost before = *self;
                self.insert_pair(p, q);
                proof {
                    assert forall|a: usize, b: usize|
                        #[trigger] self.has(a, b) == (pre.has(a, b) || (exists|k: int|
                            0 <= k < i && prevs@[k] == a) && nexts@.contains(b) || (a == p
                            && exists|k: int| 0 <= k < j + 1 && nexts@[k] == b)) by {
                        if a == p && b == q {
                            assert(nexts@[j as int] == b);
                        }
                        if a == p && (exists|k: int| 0 <= k < j + 1 && nexts@[k] == b) && b != q {
                            let k = choose|k: int| 0 <= k < j + 1 && nexts@[k] == b;
                            assert(0 <= k < j);
                        }
                        assert(self.has(a, b) == (before.has(a, b) || (a == p && b == q)));
                    }
                }
                j = j + 1;
            }
            proof {
                assert forall|a: usize, b: usize|
                    #[trigger] self.has(a, b) == (pre.has(a, b) || (exists|k: int|
                        0 <= k < i + 1 && prevs@[k] == a) && nexts@.contains(b)) by {
                    if a == p && nexts@.contains(b) {
                        let k = choose|k: int| 0 <= k < nexts@.len() && nexts@[k] == b;
                        assert(exists|k: int| 0 <= k < j && nexts@[k] == b);
                    }
                    if a == p && (exists|k: int| 0 <= k < j && nexts@[k] == b) {
                        let k = choose|k: int| 0 <= k < j && nexts@[k] == b;
                        assert(nexts@.contains(b));
                    }
                    if (exists|k: int| 0 <= k < i + 1 && prevs@[k] == a) && a != p {
                        let k = choose|k: int| 0 <= k < i + 1 && prevs@[k] == a;
                        assert(0 <= k < i);
                    }
                    if a == p {
                        assert(prevs@[i as int] == a);
                    }
                }
            }
            i = i + 1;
        }
        proof {
            assert forall|a: usize, b: usize|
                #[trigger] self.has(a, b) == pre.has_after_add(u, v, a, b) by {
                assert(prevs@.contains(a) == (a == u || pre.has(a, u)));
                assert(nexts@.contains(b) == (b == v || pre.has(v, b)));
                if prevs@.contains(a) {
                    let k = choose|k: int| 0 <= k < prevs@.len() && prevs@[k] == a;
                    assert(exists|k: int| 0 <= k < i && prevs@[k] == a);
                }
            }
            lemma_add_keeps_transitive(pre, *self, u, v);
            assert forall|rel: spec_fn(usize, usize) -> bool|
                pre.within(rel) && rel(u, v) && rel_transitive(rel) implies #[trigger] self.within(rel) by {
                assert forall|a: usize, b: usize| #[trigger] self.has(a, b) implies rel(a, b) by {
                    assert(pre.has_after_add(u, v, a, b));
                    if !pre.has(a, b) {
                        if a != u {
                            assert(rel(a, u));
                        }
                        if b != v {
                            assert(rel(v, b));
                            assert(rel(u, b));
                        }
                    }
                }
            }
            if pre.acyclic() && !pre.has(v, u) && u != v {
                assert forall|a: usize| !#[trigger] self.has(a, a) by {
                    assert(pre.has_after_add(u, v, a, a) == self.has(a, a));
                    if (a == u || pre.has(a, u)) && (a == v || pre.has(v, a)) {
                        if a != u && a != v {
                            assert(pre.has(v, u));
                        }
                    }
                }
            }
        }
        true
    }

    /// Extends both indexes so that they cover ids below `n`.
    fn grow(&mut self, n: usize)
        requires
            old(self).indexes_wf(),
        ensures
            final(self).indexes_wf(),
            final(self).dim() == if n > old(self).dim() { n as nat } else { old(self).dim() },
            forall|a: usize, b: usize| final(self).has(a, b) == old(self).has(a, b),
    {
        while self.forward_edge.len() < n
            invariant
                self.indexes_wf(),
                old(self).dim() <= self.dim(),
                n > old(self).dim() ==> self.dim() <= n,
                n <= old(self).dim() ==> self.dim() == old(self).dim(),
                forall|a: usize, b: usize| self.has(a, b) == old(self).has(a, b),
            decreases n - self.forward_edge@.len(),
        {
            let ghost pre = *self;
            self.forward_edge.push(Vec::new());
            self.backward_edge.push(Vec::new());
            proof {
                let k = pre.forward_edge@.len() as int;
                assert(self.forward_edge@[k]@ =~= Seq::<usize>::empty());
                assert(self.backward_edge@[k]@ =~= Seq::<usize>::empty());
                assert forall|a: usize, b: usize| #[trigger] self.has(a, b) == pre.has(a, b) by {
                    if a < k {
                        assert(self.forward_edge@[a as int] == pre.forward_edge@[a as int]);
                    }
                }
                assert forall|b: usize, a: usize|
                    #[trigger] self.has_backward(b, a) == pre.has_backward(b, a) by {
                    if b < k {
                        assert(self.backward_edge@[b as int] == pre.backward_edge@[b as int]);
                    }
                }
                assert forall|u: int| 0 <= u < self.forward_edge@.len()
                    implies #[trigger] self.forward_edge@[u]@.no_duplicates() by {
                    if u < k {
                        assert(self.forward_edge@[u] == pre.forward_edge@[u]);
                    }
                }
                assert forall|v: int| 0 <= v < self.backward_edge@.len()
                    implies #[trigger] self.backward_edge@[v]@.no_duplicates() by {
                    if v < k {
                        assert(self.backward_edge@[v] == pre.backward_edge@[v]);
                    }
                }
            }
        }
    }

    /// Adds the single pair `p -> q` to both indexes, without closing.
    fn insert_pair(&mut self, p: usize, q: usize)
        requires
            old(self).indexes_wf(),
            p < old(self).dim(),
            q < old(self).dim(),
        ensures
            final(self).indexes_wf(),
            final(self).dim() == old(self).dim(),
            forall|a: usize, b: usize|
                final(self).has(a, b) == (old(self).has(a, b) || (a == p && b == q)),
    {
        if self.contains(p, q) {
            return;
        }
        let ghost pre = *self;
        proof {
            if pre.has_backward(q, p) {
                assert(pre.has(p, q));
            }
        }
        self.forward_edge[p].push(q);
        self.backward_edge[q].push(p);
        proof {
            assert forall|a: usize, b: usize|
                #[trigger] self.has(a, b) == (pre.has(a, b) || (a == p && b == q)) by {
                if a != p && a < pre.forward_edge@.len() {
                    assert(self.forward_edge@[a as int] == pre.forward_edge@[a as int]);
                }
            }
            assert forall|b: usize, a: usize|
                #[trigger] self.has_backward(b, a) == (pre.has_backward(b, a) || (a == p && b == q)) by {
                if b != q && b < pre.backward_edge@.len() {
                    assert(self.backward_edge@[b as int] == pre.backward_edge@[b as int]);
                }
            }
            assert forall|u: int| 0 <= u < self.forward_edge@.len()
                implies #[trigger] self.forward_edge@[u]@.no_duplicates() by {
                if u != p {
                    assert(self.forward_edge@[u] == pre.forward_edge@[u]);
                } else {
                    lemma_push_no_duplicates(pre.forward_edge@[u]@, q);
                }
            }
            assert forall|v: int| 0 <= v < self.backward_edge@.len()
                implies #[trigger] self.backward_edge@[v]@.no_duplicates() by {
                if v != q {
                    assert(self.backward_edge@[v] == pre.backward_edge@[v]);
                } else {
                    lemma_push_no_duplicates(pre.backward_edge@[v]@, p);
                }
            }
        }
    }
}

/// `rel` is transitive.
pub open spec fn rel_transitive(rel: spec_fn(usize, usize) -> bool) -> bool {
    forall|a: usize, b: usize, c: usize| #[trigger] rel(a, b) && #[trigger] rel(b, c) ==> rel(a, c)
}

/// How many `v < m` the relation does not reach from `u`.
pub open spec fn missing_in_row(c: EdgeClosure, u: usize, m: nat) -> nat
    decreases m,
{
    if m == 0 {
        0
    } else {
        missing_in_row(c, u, (m - 1) as nat) + if c.has(u, (m - 1) as usize) { 0nat } else { 1nat }
    }
}

/// How many pairs `(u, v)` with `u < k` and `v < n` are not in the relation.
pub open spec fn missing(c: EdgeClosure, k: nat, n: nat) -> nat
    decreases k,
{
    if k == 0 {
        0
    } else {
        missing(c, (k - 1) as nat, n) + missing_in_row(c, (k - 1) as usize, n)
    }
}

proof fn lemma_missing_in_row_mono(c0: EdgeClosure, c1: EdgeClosure, u: usize, m: nat)
    requires
        m <= usize::MAX,
        forall|a: usize, b: usize| c0.has(a, b) ==> #[trigger] c1.has(a, b),
    ensures
        missing_in_row(c1, u, m) <= missing_in_row(c0, u, m),
        forall|b: usize| b < m && !c0.has(u, b) && #[trigger] c1.has(u, b)
            ==> missing_in_row(c1, u, m) < missing_in_row(c0, u, m),
    decreases m,
{
    if m > 0 {
        lemma_missing_in_row_mono(c0, c1, u, (m - 1) as nat);
    }
}

/// Growing the relation never adds missing pairs, and adding a pair in
/// range removes at least one.
pub proof fn lemma_missing_mono(c0: EdgeClosure, c1: EdgeClosure, k: nat, n: nat)
    requires
        k <= usize::MAX,
        n <= usize::MAX,
        forall|a: usize, b: usize| c0.has(a, b) ==> #[trigger] c1.has(a, b),
    ensures
        missing(c1, k, n) <= missing(c0, k, n),
        forall|a: usize, b: usize| a < k && b < n && !c0.has(a, b) && #[trigger] c1.has(a, b)
            ==> missing(c1, k, n) < missing(c0, k, n),
    decreases k,
{
    if k > 0 {
        lemma_missing_mono(c0, c1, (k - 1) as nat, n);
        lemma_missing_in_row_mono(c0, c1, (k - 1) as usize, n);
    }
}

/// Adding `u -> v` together with every pair it implies keeps a transitive relation transitive.
proof fn lemma_add_keeps_transitive(pre: EdgeClosure, post: EdgeClosure, u: usize, v: usize)
    requires
        pre.transitive(),
        forall|a: usize, b: usize| #[trigger] post.has(a, b) == pre.has_after_add(u, v, a, b),
    ensures
        post.transitive(),
{
    assert forall|a: usize, b: usize, c: usize|
        #[trigger] post.has(a, b) && #[trigger] post.has(b, c) implies post.has(a, c) by {
        assert(pre.has_after_add(u, v, a, b));
        assert(pre.has_after_add(u, v, b, c));
        if pre.has(a, b) && !pre.has(b, c) {
            if b != u {
                assert(pre.has(a, u));
            }
        }
        if !pre.has(a, b) && pre.has(b, c) {
            if b != v {
                assert(pre.has(v, c));
            }
        }
        assert(pre.has_after_add(u, v, a, c));
    }
}

pub proof fn lemma_push_no_duplicates(s: Seq<usize>, x: usize)
    requires
        s.no_duplicates(),
        !s.contains(x),
    ensures
        s.push(x).no_duplicates(),
{
    assert forall|i: int, j: int|
        0 <= i < s.push(x).len() && 0 <= j < s.push(x).len() && i != j
            implies s.push(x)[i] != s.push(x)[j] by {
        if i < s.len() && j < s.len() {
        } else if i < s.len() {
            assert(s.contains(s[i]));
        } else {
            assert(s.contains(s[j]));
        }
    }
}

} // verus!
