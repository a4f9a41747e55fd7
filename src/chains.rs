use vstd::prelude::*;
use crate::closure::{lemma_missing_mono, lemma_push_no_duplicates, missing, rel_transitive, EdgeClosure};
use crate::history::{
    build_ids, id_of_pos, id_tables, lemma_id_in_range, total, valid_pos, well_formed_input, TxnInfo,
};

verus! {

broadcast use vstd::seq_lib::lemma_seq_contains_after_push;

/// A read recorded by ids: `(key, id of the transaction read from)`.
pub open spec fn mapped_reads(n_sizes: Seq<usize>, reads: Seq<(usize, (usize, usize))>) -> Seq<(usize, usize)> {
    reads.map_values(|r: (usize, (usize, usize))| (r.0, id_of_pos(n_sizes, r.1.0, r.1.1) as usize))
}

/// Some transaction of the input reads `x` from the root.
pub open spec fn read_from_root(txns_info: Seq<TxnInfo>, x: usize) -> bool {
    exists|i: int, j: int|
        0 <= i < txns_info.len() && 0 <= j < txns_info[i].reads@.len()
            && #[trigger] txns_info[i].reads@[j] == (x, (0usize, 0usize))
}

/// The keys of a row of the write-read index, in order.
pub open spec fn keys_of(row: Seq<(usize, Vec<usize>)>) -> Seq<usize> {
    row.map_values(|e: (usize, Vec<usize>)| e.0)
}

proof fn lemma_keys_push(row: Seq<(usize, Vec<usize>)>, e: (usize, Vec<usize>))
    ensures
        keys_of(row.push(e)) == keys_of(row).push(e.0),
{
    assert(keys_of(row.push(e)) =~= keys_of(row).push(e.0));
}

proof fn lemma_keys_fresh(row: Seq<(usize, Vec<usize>)>, x: usize)
    requires
        forall|i: int| 0 <= i < row.len() ==> (#[trigger] row[i]).0 != x,
    ensures
        !keys_of(row).contains(x),
{
    if keys_of(row).contains(x) {
        let i = choose|i: int| 0 <= i < keys_of(row).len() && keys_of(row)[i] == x;
        assert(row[i].0 == x);
    }
}

proof fn lemma_keys_found(row: Seq<(usize, Vec<usize>)>, x: usize)
    requires
        exists|i: int| 0 <= i < row.len() && (#[trigger] row[i]).0 == x,
    ensures
        keys_of(row).contains(x),
{
    let i = choose|i: int| 0 <= i < row.len() && (#[trigger] row[i]).0 == x;
    assert(keys_of(row)[i] == x);
}

proof fn lemma_covered_push(c: &Chains, ne: Seq<(usize, usize)>, e: (usize, usize))
    ensures
        forall|u: usize, u2: usize, v: usize, x: usize|
            c.covered(ne, u, u2, v, x) ==> #[trigger] c.covered(ne.push(e), u, u2, v, x),
{
}

/// Each edge a rule asks for is still asked for once the closure has grown.
proof fn lemma_demands_mono(c0: &Chains, c1: &Chains, a: usize, b: usize)
    requires
        c1.same_history(c0),
        c0.demands(a, b),
        forall|p: usize, q: usize| #[trigger] c0.vis(p, q) ==> c1.vis(p, q),
    ensures
        c1.demands(a, b),
{
    c1.lemma_same_history(c0);
    let (u, u2, v, x) = choose|u: usize, u2: usize, v: usize, x: usize|
        #[trigger] c0.rule_instance(u, u2, v, x) && (
        (a == v && b == u2 && c0.vis(u, u2)) || (a == u2 && b == u && c0.vis(u2, v)));
    if c0.writes(u2 as int).contains(x) {
        assert(c1.writes(u2 as int).contains(x));
    } else {
        let w = choose|w: int| #[trigger] c0.reads_from(w, x, u2);
        assert(c1.reads_from(w, x, u2));
    }
    assert(c1.rule_instance(u, u2, v, x));
}

proof fn lemma_index_transfer(c0: &Chains, c1: &Chains)
    requires
        c1.same_history(c0),
        c1.wr_index() == c0.wr_index(),
        c0.wr_index_wf(),
    ensures
        c1.wr_index_wf(),
{
    c1.lemma_same_history(c0);
    assert forall|u: usize, x: usize| c1.writer_of(u, x) == c0.writer_of(u, x) by {
        if c0.writer_of(u, x) && !c0.writes(u as int).contains(x) {
            let w = choose|w: int| #[trigger] c0.reads_from(w, x, u);
            assert(c1.reads_from(w, x, u));
        }
        if c1.writer_of(u, x) && !c1.writes(u as int).contains(x) {
            let w = choose|w: int| #[trigger] c1.reads_from(w, x, u);
            assert(c0.reads_from(w, x, u));
        }
    }
}

proof fn lemma_rules_closed_same(c0: &Chains, c1: &Chains, rel: spec_fn(usize, usize) -> bool)
    requires
        c1.same_history(c0),
        c0.rules_closed(rel),
    ensures
        c1.rules_closed(rel),
{
    c1.lemma_same_history(c0);
    assert forall|u: usize, u2: usize, v: usize, x: usize| #[trigger] c1.rule_instance(u, u2, v, x)
        implies c0.rule_instance(u, u2, v, x) by {
        if !c1.writes(u2 as int).contains(x) {
            let w = choose|w: int| #[trigger] c1.reads_from(w, x, u2);
            assert(c0.reads_from(w, x, u2));
        }
    }
}

proof fn lemma_demand_distinct(c: &Chains, a: usize, b: usize)
    requires
        c.demands(a, b),
    ensures
        a != b,
{
}

/// An edge a rule asks for lies in every relation that holds the closure
/// and is closed under the rules.
proof fn lemma_demand_within(c: &Chains, rel: spec_fn(usize, usize) -> bool, a: usize, b: usize)
    requires
        c.demands(a, b),
        c.closure().within(rel),
        c.rules_closed(rel),
    ensures
        rel(a, b),
        a != b,
{
    let (u, u2, v, x) = choose|u: usize, u2: usize, v: usize, x: usize|
        #[trigger] c.rule_instance(u, u2, v, x) && (
        (a == v && b == u2 && c.vis(u, u2)) || (a == u2 && b == u && c.vis(u2, v)));
    assert(c.closure().has(u, u2) ==> rel(u, u2));
    assert(c.closure().has(u2, v) ==> rel(u2, v));
}

/// `a` comes strictly before `b` in `ord`.
pub open spec fn before_in(ord: Seq<usize>) -> spec_fn(usize, usize) -> bool {
    |a: usize, b: usize| exists|i: int, j: int| 0 <= i < j < ord.len() && ord[i] == a && ord[j] == b
}

proof fn lemma_before_in_transitive(ord: Seq<usize>)
    requires
        ord.no_duplicates(),
    ensures
        rel_transitive(before_in(ord)),
{
    assert forall|a: usize, b: usize, c: usize| #[trigger] before_in(ord)(a, b) && #[trigger] before_in(ord)(b, c)
        implies before_in(ord)(a, c) by {
        let (i, j) = choose|i: int, j: int| 0 <= i < j < ord.len() && ord[i] == a && ord[j] == b;
        let (j2, k) = choose|i: int, j: int| 0 <= i < j < ord.len() && ord[i] == b && ord[j] == c;
        assert(j == j2);
    }
}

proof fn lemma_seeds_within_same(c0: &Chains, c1: &Chains, rel: spec_fn(usize, usize) -> bool)
    requires
        c1.same_history(c0),
        c0.seeds_within(rel),
    ensures
        c1.seeds_within(rel),
{
    c1.lemma_same_history(c0);
    assert forall|p: usize, k: usize| 1 <= p <= c1.sizes().len() && k + 1 < c1.sizes()[p - 1]
        implies rel(
        #[trigger] id_of_pos(c1.sizes(), p, k) as usize,
        id_of_pos(c1.sizes(), p, (k + 1) as usize) as usize,
    ) by {
        assert(rel(id_of_pos(c0.sizes(), p, k) as usize, id_of_pos(c0.sizes(), p, (k + 1) as usize) as usize));
    }
    assert forall|w: int, x: usize, u: usize| #[trigger] c1.reads_from(w, x, u) implies rel(u, w as usize) by {
        assert(c0.reads_from(w, x, u));
    }
}

/// A closure inside the order of a serialization has no cycle and no
/// demanded edge whose reverse it holds.
proof fn lemma_no_order(c: &Chains, ord: Seq<usize>)
    requires
        c.ids_wf(),
        c.closure().within(before_in(ord)),
        (exists|a: usize| #[trigger] c.vis(a, a))
            || exists|a: usize, b: usize| c.demands(a, b) && #[trigger] c.vis(b, a),
    ensures
        !c.history_order(ord),
{
    if c.history_order(ord) {
        c.lemma_history_order_rel(ord);
        let rel = before_in(ord);
        if exists|a: usize| #[trigger] c.vis(a, a) {
            let a = choose|a: usize| #[trigger] c.vis(a, a);
            assert(c.closure().has(a, a));
            assert(rel(a, a));
            let (i, j) = choose|i: int, j: int| 0 <= i < j < ord.len() && ord[i] == a && ord[j] == a;
        } else {
            let (a, b) = choose|a: usize, b: usize| c.demands(a, b) && #[trigger] c.vis(b, a);
            lemma_demand_within(c, rel, a, b);
            assert(c.closure().has(b, a));
            assert(rel(b, a));
            let (i, j) = choose|i: int, j: int| 0 <= i < j < ord.len() && ord[i] == a && ord[j] == b;
            let (i2, j2) = choose|i: int, j: int| 0 <= i < j < ord.len() && ord[i] == b && ord[j] == a;
            assert(i == j2 && j == i2);
        }
    }
}

/// Index of the entry for key `x` in a row of the write-read index.
fn find_key(row: &Vec<(usize, Vec<usize>)>, x: usize) -> (r: Option<usize>)
    ensures
        match r {
            Some(i) => i < row@.len() && row@[i as int].0 == x,
            None => forall|i: int| 0 <= i < row@.len() ==> (#[trigger] row@[i]).0 != x,
        },
{
    let mut i: usize = 0;
    while i < row.len()
        invariant
            i <= row@.len(),
            forall|k: int| 0 <= k < i ==> (#[trigger] row@[k]).0 != x,
        decreases row@.len() - i,
    {
        if row[i].0 == x {
            return Some(i);
        }
        i = i + 1;
    }
    None
}

/// The state of the search for a serialization: how far each process has
/// been emitted, which transactions are emitted, the last writer of each key
/// written so far, and the order so far. The readers a last writer still
/// expects are those of the write-read index not yet emitted.
pub struct SearchState {
    cut: Vec<usize>,
    emitted: Vec<bool>,
    lw_keys: Vec<usize>,
    lw_writers: Vec<usize>,
    order: Vec<usize>,
}

impl SearchState {
    /// The transactions emitted so far, in order.
    pub closed spec fn order(&self) -> Seq<usize> {
        self.order@
    }
}

/// Index of `x` in `keys`.
fn lookup(keys: &Vec<usize>, x: usize) -> (r: Option<usize>)
    ensures
        match r {
            Some(i) => i < keys@.len() && keys@[i as int] == x,
            None => !keys@.contains(x),
        },
{
    let mut i: usize = 0;
    while i < keys.len()
        invariant
            i <= keys@.len(),
            forall|k: int| 0 <= k < i ==> keys@[k] != x,
        decreases keys@.len() - i,
    {
        if keys[i] == x {
            return Some(i);
        }
        i = i + 1;
    }
    None
}

/// The history, indexed by transaction id, with its visibility closure.
pub struct Chains {
    n_sizes: Vec<usize>,
    root_txn_id: usize,
    txns: Vec<(Vec<(usize, usize)>, Vec<usize>)>,
    tuple_to_id: Vec<Vec<usize>>,
    id_to_tuple: Vec<(usize, usize)>,
    wr_order_by_txn: Vec<Vec<(usize, Vec<usize>)>>,
    vis_closure: EdgeClosure,
}

impl Chains {
    pub closed spec fn sizes(&self) -> Seq<usize> {
        self.n_sizes@
    }

    /// Number of transactions, the root included.
    pub closed spec fn n_txns(&self) -> nat {
        self.id_to_tuple@.len()
    }

    /// The position of transaction `t`.
    pub closed spec fn pos_of(&self, t: int) -> (usize, usize) {
        self.id_to_tuple@[t]
    }

    /// The reads of transaction `t`, as `(key, source id)`.
    pub closed spec fn reads(&self, t: int) -> Seq<(usize, usize)> {
        self.txns@[t].0@
    }

    /// The keys transaction `t` writes.
    pub closed spec fn writes(&self, t: int) -> Seq<usize> {
        self.txns@[t].1@
    }

    /// The visibility closure.
    pub closed spec fn closure(&self) -> EdgeClosure {
        self.vis_closure
    }

    /// `u -> v` is in the visibility closure.
    pub closed spec fn vis(&self, u: usize, v: usize) -> bool {
        self.vis_closure.has(u, v)
    }

    /// `w` reads key `x` from transaction `u`.
    pub closed spec fn reads_from(&self, w: int, x: usize, u: usize) -> bool {
        0 <= w < self.txns@.len() && exists|j: int|
            0 <= j < self.txns@[w].0@.len() && #[trigger] self.txns@[w].0@[j] == (x, u)
    }

    /// `u` is a writer of `x`: it writes `x`, or some transaction reads `x` from it.
    pub open spec fn writer_of(&self, u: usize, x: usize) -> bool {
        self.writes(u as int).contains(x) || exists|w: int| #[trigger] self.reads_from(w, x, u)
    }

    /// The write-read index: for each writer `u`, one entry per key it writes,
    /// listing the transactions that read that key from `u`.
    pub open spec fn wr_index_wf(&self) -> bool {
        let wr = self.wr_index();
        &&& wr.len() == self.n_txns()
        &&& forall|u: int, i: int, j: int| 0 <= u < wr.len() && 0 <= i < j < wr[u]@.len()
                ==> (#[trigger] wr[u]@[i]).0 != (#[trigger] wr[u]@[j]).0
        &&& forall|u: usize, x: usize| u < wr.len()
                ==> (self.writer_of(u, x) <==> #[trigger] keys_of(wr[u as int]@).contains(x))
        &&& forall|u: usize, i: int, w: usize| u < wr.len() && 0 <= i < wr[u as int]@.len()
                ==> (#[trigger] wr[u as int]@[i].1@.contains(w)
                <==> self.reads_from(w as int, wr[u as int]@[i].0, u))
    }

    /// The history itself (sizes, ids, transactions) is that of `other`.
    pub closed spec fn same_history(&self, other: &Chains) -> bool {
        &&& self.n_sizes@ == other.n_sizes@
        &&& self.root_txn_id == other.root_txn_id
        &&& self.txns@ == other.txns@
        &&& self.tuple_to_id@ == other.tuple_to_id@
        &&& self.id_to_tuple@ == other.id_to_tuple@
    }

    pub proof fn lemma_same_history(&self, other: &Chains)
        requires
            self.same_history(other),
        ensures
            self.ids_wf() == other.ids_wf(),
            self.sizes() == other.sizes(),
            self.n_txns() == other.n_txns(),
            forall|t: int| #[trigger] self.reads(t) == other.reads(t),
            forall|t: int| #[trigger] self.writes(t) == other.writes(t),
            forall|t: int| #[trigger] self.pos_of(t) == other.pos_of(t),
            forall|w: int, x: usize, u: usize| #[trigger] self.reads_from(w, x, u) == other.reads_from(w, x, u),
    {
    }

    /// The write-read index.
    pub closed spec fn wr_index(&self) -> Seq<Vec<(usize, Vec<usize>)>> {
        self.wr_order_by_txn@
    }

    /// The closure is transitive, consistent, and over ids of this history.
    pub open spec fn closure_wf(&self) -> bool {
        self.closure().wf() && self.closure().dim() <= self.n_txns()
    }

    /// The program-order and write-read edges are in the closure.
    pub open spec fn seeded(&self) -> bool {
        &&& forall|p: usize, k: usize| 1 <= p <= self.sizes().len() && k + 1 < self.sizes()[p - 1]
                ==> self.vis(
                #[trigger] id_of_pos(self.sizes(), p, k) as usize,
                id_of_pos(self.sizes(), p, (k + 1) as usize) as usize,
            )
        &&& forall|p: usize| 1 <= p && #[trigger] valid_pos(self.sizes(), p, 0)
                ==> self.vis(0, id_of_pos(self.sizes(), p, 0) as usize)
        &&& forall|w: int, x: usize, u: usize| #[trigger] self.reads_from(w, x, u)
                ==> self.vis(u, w as usize)
    }

    /// Where `v` reads `x` from `u` and `u2` is another writer of `x`: if
    /// `u2` is visible after `u`, it is after `v` too (read-write); if `u2`
    /// is visible before `v`, it is before `u` too (write-write).
    pub open spec fn rule_holds(&self, u: usize, u2: usize, v: usize, x: usize) -> bool {
        self.rule_instance(u, u2, v, x) ==> {
            &&& self.vis(u, u2) ==> self.vis(v, u2)
            &&& self.vis(u2, v) ==> self.vis(u2, u)
        }
    }

    /// The closure is closed under the write-write and read-write rules.
    pub open spec fn saturated(&self) -> bool {
        forall|u: usize, u2: usize, v: usize, x: usize| #[trigger] self.rule_holds(u, u2, v, x)
    }

    /// One of the two rules asks for the edge `a -> b` under the current closure.
    pub open spec fn demands(&self, a: usize, b: usize) -> bool {
        exists|u: usize, u2: usize, v: usize, x: usize|
            #[trigger] self.rule_instance(u, u2, v, x) && (
            (a == v && b == u2 && self.vis(u, u2)) || (a == u2 && b == u && self.vis(u2, v)))
    }

    pub open spec fn rule_instance(&self, u: usize, u2: usize, v: usize, x: usize) -> bool {
        u != u2 && v != u2 && u2 < self.n_txns() && self.writer_of(u2, x) && self.reads_from(v as int, x, u)
    }

    /// Every instance of the rules is met, or the edge it asks for is in `ne`.
    pub open spec fn covered(&self, ne: Seq<(usize, usize)>, u: usize, u2: usize, v: usize, x: usize) -> bool {
        self.rule_instance(u, u2, v, x) ==> {
            &&& self.vis(u, u2) ==> self.vis(v, u2) || ne.contains((v, u2))
            &&& self.vis(u2, v) ==> self.vis(u2, u) || ne.contains((u2, u))
        }
    }

    /// The most recent writer of `x` in `ord`.
    pub open spec fn last_writer(&self, ord: Seq<usize>, x: usize) -> Option<usize>
        decreases ord.len(),
    {
        if ord.len() == 0 {
            None
        } else if self.writer_of(ord.last(), x) {
            Some(ord.last())
        } else {
            self.last_writer(ord.drop_last(), x)
        }
    }

    /// Whatever the closure puts before a transaction comes earlier in `ord`.
    pub open spec fn respects_closure(&self, ord: Seq<usize>) -> bool {
        forall|i: int, a: usize| 0 <= i < ord.len() && #[trigger] self.vis(a, ord[i])
            ==> ord.take(i).contains(a)
    }

    /// Each read in `ord` observes the most recent writer of its key before it.
    pub open spec fn reads_latest(&self, ord: Seq<usize>) -> bool {
        forall|i: int, j: int| 0 <= i < ord.len() && 0 <= j < self.reads(ord[i] as int).len()
            ==> self.last_writer(ord.take(i), (#[trigger] self.reads(ord[i] as int)[j]).0)
            == Some(self.reads(ord[i] as int)[j].1)
    }

    /// `ord` is a serialization of the history: the root, then every other
    /// transaction exactly once, in an order that extends the closure and in
    /// which every read sees the last write before it.
    pub open spec fn is_serialization(&self, ord: Seq<usize>) -> bool {
        &&& ord.len() > 0 && ord[0] == 0
        &&& ord.no_duplicates()
        &&& forall|i: int| 0 <= i < ord.len() ==> (#[trigger] ord[i]) < self.n_txns()
        &&& forall|t: usize| t < self.n_txns() ==> ord.contains(t)
        &&& self.respects_closure(ord)
        &&& self.reads_latest(ord)
    }

    /// The history is ready for the search.
    pub open spec fn search_ready(&self) -> bool {
        self.ids_wf() && self.wr_index_wf() && self.closure_wf() && self.seeded()
    }

    /// Cuts left to take, summed over the first `k` processes.
    pub closed spec fn slack(&self, cut: Seq<usize>, k: nat) -> nat
        decreases k,
    {
        if k == 0 {
            0
        } else {
            self.slack(cut, (k - 1) as nat) + (self.tuple_to_id@[k - 1]@.len() - cut[k - 1]) as nat
        }
    }

    /// The search state agrees with itself and with the history.
    pub closed spec fn search_ok(&self, st: &SearchState) -> bool {
        let n = self.n_txns();
        let ord = st.order@;
        &&& st.cut@.len() == self.tuple_to_id@.len()
        &&& forall|p: int| 0 <= p < st.cut@.len() ==> #[trigger] st.cut@[p] <= self.tuple_to_id@[p]@.len()
        &&& st.emitted@.len() == n
        &&& forall|t: int| 0 <= t < n ==> (#[trigger] st.emitted@[t] <==> ord.contains(t as usize))
        &&& ord.no_duplicates()
        &&& forall|i: int| 0 <= i < ord.len() ==> (#[trigger] ord[i]) < n
        &&& forall|t: usize| t < n ==> (#[trigger] ord.contains(t)
            <==> st.cut@[self.id_to_tuple@[t as int].0 as int] > self.id_to_tuple@[t as int].1)
        &&& ord.len() > 0 ==> ord[0] == 0
        &&& st.lw_writers@.len() == st.lw_keys@.len()
        &&& st.lw_keys@.no_duplicates()
        &&& forall|x: usize| #[trigger] self.last_writer(ord, x) is Some ==> st.lw_keys@.contains(x)
        &&& forall|e: int| 0 <= e < st.lw_keys@.len()
            ==> self.last_writer(ord, #[trigger] st.lw_keys@[e]) == Some(st.lw_writers@[e])
        &&& self.respects_closure(ord)
        &&& self.reads_latest(ord)
    }

    proof fn lemma_slack_step(&self, cut: Seq<usize>, i: int, k: nat)
        requires
            0 <= i < k <= cut.len(),
            cut.len() == self.tuple_to_id@.len(),
            forall|p: int| 0 <= p < cut.len() ==> #[trigger] cut[p] <= self.tuple_to_id@[p]@.len(),
            cut[i] < self.tuple_to_id@[i]@.len(),
            cut[i] < usize::MAX,
        ensures
            self.slack(cut.update(i, (cut[i] + 1) as usize), k) + 1 == self.slack(cut, k),
        decreases k,
    {
        let c1 = cut.update(i, (cut[i] + 1) as usize);
        assert(self.slack(c1, k) == self.slack(c1, (k - 1) as nat) + (self.tuple_to_id@[k - 1]@.len() - c1[k - 1]) as nat);
        assert(self.slack(cut, k) == self.slack(cut, (k - 1) as nat) + (self.tuple_to_id@[k - 1]@.len() - cut[k - 1]) as nat);
        if k - 1 > i {
            self.lemma_slack_step(cut, i, (k - 1) as nat);
            assert(c1[k - 1] == cut[k - 1]);
        } else {
            self.lemma_slack_same(cut, c1, i as nat);
            assert(c1[i] == cut[i] + 1);
        }
    }

    proof fn lemma_slack_same(&self, c0: Seq<usize>, c1: Seq<usize>, k: nat)
        requires
            k <= c0.len(),
            k <= c1.len(),
            forall|p: int| 0 <= p < k ==> c0[p] == c1[p],
        ensures
            self.slack(c0, k) == self.slack(c1, k),
        decreases k,
    {
        if k > 0 {
            self.lemma_slack_same(c0, c1, (k - 1) as nat);
        }
    }

    /// After seeding, the root reaches every other transaction.
    proof fn lemma_root_reaches(&self, p: usize, k: usize)
        requires
            self.ids_wf(),
            self.closure_wf(),
            self.seeded(),
            1 <= p <= self.sizes().len(),
            k < self.sizes()[p - 1],
        ensures
            self.vis(0, id_of_pos(self.sizes(), p, k) as usize),
        decreases k,
    {
        assert(valid_pos(self.sizes(), p, 0));
        if k > 0 {
            let k1 = (k - 1) as usize;
            self.lemma_root_reaches(p, k1);
            assert(((k1 + 1) as usize) == k);
            assert(self.vis(id_of_pos(self.sizes(), p, k1) as usize, id_of_pos(self.sizes(), p, k) as usize));
            assert(self.vis_closure.transitive());
        }
    }

    proof fn lemma_last_writer_push(&self, ord: Seq<usize>, c: usize, x: usize)
        ensures
            self.last_writer(ord.push(c), x) == if self.writer_of(c, x) {
                Some(c)
            } else {
                self.last_writer(ord, x)
            },
    {
        assert(ord.push(c).drop_last() =~= ord);
    }

    /// The process of each transaction of `ord` after the first.
    pub open spec fn processes_of(&self, ord: Seq<usize>) -> Seq<usize> {
        ord.drop_first().map_values(|t: usize| self.pos_of(t as int).0)
    }

    /// This history is the one `n_sizes` and `txns_info` describe.
    pub open spec fn describes(&self, n_sizes: Seq<usize>, txns_info: Seq<TxnInfo>) -> bool {
        &&& self.ids_wf()
        &&& self.sizes() == n_sizes
        &&& self.n_txns() == 1 + total(n_sizes)
        &&& forall|p: usize, k: usize| #[trigger] valid_pos(n_sizes, p, k)
            ==> self.pos_of(id_of_pos(n_sizes, p, k) as int) == (p, k)
        &&& forall|i: int| 0 <= i < txns_info.len() ==> {
            let e = #[trigger] txns_info[i];
            let t = id_of_pos(n_sizes, e.pos.0, e.pos.1) as int;
            &&& self.reads(t) == mapped_reads(n_sizes, e.reads@)
            &&& self.writes(t) == e.writes@
        }
        &&& forall|t: int| 0 < t < self.n_txns() && !(exists|i: int| 0 <= i < txns_info.len()
            && id_of_pos(n_sizes, (#[trigger] txns_info[i]).pos.0, txns_info[i].pos.1) == t)
            ==> self.reads(t).len() == 0 && self.writes(t).len() == 0
        &&& self.reads(0).len() == 0
        &&& self.writes(0).no_duplicates()
        &&& forall|x: usize| self.writes(0).contains(x) <==> read_from_root(txns_info, x)
    }

    /// In a serialization no two transactions each precede the other in the closure.
    pub proof fn lemma_acyclic(&self, ord: Seq<usize>, u: usize, v: usize)
        requires
            self.closure_wf(),
            self.is_serialization(ord),
        ensures
            !(self.vis(u, v) && self.vis(v, u)),
    {
        if self.vis(u, v) && self.vis(v, u) {
            self.vis_closure.lemma_in_range(u, v);
            assert(ord.contains(u) && ord.contains(v));
            let iu = choose|i: int| 0 <= i < ord.len() && ord[i] == u;
            let iv = choose|i: int| 0 <= i < ord.len() && ord[i] == v;
            assert(ord.take(iv).contains(u));
            assert(ord.take(iu).contains(v));
            let ju = choose|j: int| 0 <= j < ord.take(iv).len() && ord.take(iv)[j] == u;
            let jv = choose|j: int| 0 <= j < ord.take(iu).len() && ord.take(iu)[j] == v;
            assert(ord[ju] == u);
            assert(ord[jv] == v);
            assert(ju == iu);
            assert(jv == iv);
        }
    }

    /// `vis` is membership in the closure, so the closure's laws apply to it.
    pub proof fn lemma_vis(&self, u: usize, v: usize)
        ensures
            self.vis(u, v) == self.closure().has(u, v),
    {
    }

    /// `reads_from(w, x, u)` says that `(x, u)` is among the reads of `w`.
    pub proof fn lemma_reads_from(&self, w: int, x: usize, u: usize)
        requires
            self.ids_wf(),
        ensures
            self.reads_from(w, x, u) <==> 0 <= w < self.n_txns() && self.reads(w).contains((x, u)),
    {
        if 0 <= w < self.n_txns() && self.reads(w).contains((x, u)) {
            let j = choose|j: int| 0 <= j < self.reads(w).len() && self.reads(w)[j] == (x, u);
            assert(self.txns@[w].0@[j] == (x, u));
        }
    }

    /// The root has id 0 and position `(0, 0)`.
    pub closed spec fn root(&self) -> usize {
        self.root_txn_id
    }

    /// The program-order and write-read edges are pairs of `rel`.
    pub open spec fn seeds_within(&self, rel: spec_fn(usize, usize) -> bool) -> bool {
        &&& forall|p: usize, k: usize| 1 <= p <= self.sizes().len() && k + 1 < self.sizes()[p - 1]
                ==> rel(
                #[trigger] id_of_pos(self.sizes(), p, k) as usize,
                id_of_pos(self.sizes(), p, (k + 1) as usize) as usize,
            )
        &&& forall|p: usize| 1 <= p && #[trigger] valid_pos(self.sizes(), p, 0)
                ==> rel(0, id_of_pos(self.sizes(), p, 0) as usize)
        &&& forall|w: int, x: usize, u: usize| #[trigger] self.reads_from(w, x, u) ==> rel(u, w as usize)
    }

    /// `rel` is closed under the write-write and read-write rules.
    pub open spec fn rules_closed(&self, rel: spec_fn(usize, usize) -> bool) -> bool {
        forall|u: usize, u2: usize, v: usize, x: usize| #[trigger] self.rule_instance(u, u2, v, x) ==> {
            &&& rel(u, u2) ==> rel(v, u2)
            &&& rel(u2, v) ==> rel(u2, u)
        }
    }

    /// `ord` serializes the history, whatever the closure holds: the root
    /// first, every transaction exactly once, each process in index order,
    /// and every read seeing the last writer of its key before it.
    pub open spec fn history_order(&self, ord: Seq<usize>) -> bool {
        &&& ord.len() > 0 && ord[0] == 0
        &&& ord.no_duplicates()
        &&& forall|i: int| 0 <= i < ord.len() ==> (#[trigger] ord[i]) < self.n_txns()
        &&& forall|t: usize| t < self.n_txns() ==> ord.contains(t)
        &&& forall|p: usize, k: usize| 1 <= p <= self.sizes().len() && k + 1 < self.sizes()[p - 1]
                ==> before_in(ord)(
                #[trigger] id_of_pos(self.sizes(), p, k) as usize,
                id_of_pos(self.sizes(), p, (k + 1) as usize) as usize,
            )
        &&& self.reads_latest(ord)
    }

    /// Where `s` is the last writer of `x` in `ord`, it stands in `ord` and
    /// no writer of `x` comes after it.
    pub proof fn lemma_last_writer_pos(&self, ord: Seq<usize>, x: usize, s: usize) -> (js: int)
        requires
            self.last_writer(ord, x) == Some(s),
        ensures
            0 <= js < ord.len(),
            ord[js] == s,
            forall|k: int| js < k < ord.len() ==> !self.writer_of(#[trigger] ord[k], x),
        decreases ord.len(),
    {
        if self.writer_of(ord.last(), x) {
            (ord.len() - 1) as int
        } else {
            let js = self.lemma_last_writer_pos(ord.drop_last(), x, s);
            assert forall|k: int| js < k < ord.len() implies !self.writer_of(#[trigger] ord[k], x) by {
                if k < ord.len() - 1 {
                    assert(ord[k] == ord.drop_last()[k]);
                }
            }
            js
        }
    }

    /// The order of a serialization holds the seed edges and is closed
    /// under both rules.
    pub proof fn lemma_history_order_rel(&self, ord: Seq<usize>)
        requires
            self.ids_wf(),
            self.history_order(ord),
        ensures
            rel_transitive(before_in(ord)),
            self.seeds_within(before_in(ord)),
            self.rules_closed(before_in(ord)),
    {
        lemma_before_in_transitive(ord);
        let rel = before_in(ord);
        assert forall|p: usize| 1 <= p && #[trigger] valid_pos(self.sizes(), p, 0)
            implies rel(0, id_of_pos(self.sizes(), p, 0) as usize) by {
            let t = id_of_pos(self.sizes(), p, 0) as usize;
            lemma_id_in_range(self.sizes(), p, 0);
            assert(ord.contains(t));
            let i = choose|i: int| 0 <= i < ord.len() && ord[i] == t;
            assert(i != 0);
        }
        assert forall|w: int, x: usize, u: usize| #[trigger] self.reads_from(w, x, u) implies rel(u, w as usize) by {
            let (iw, ju) = self.lemma_reader_pos(ord, w, x, u);
        }
        assert forall|u: usize, u2: usize, v: usize, x: usize| #[trigger] self.rule_instance(u, u2, v, x) implies {
            &&& rel(u, u2) ==> rel(v, u2)
            &&& rel(u2, v) ==> rel(u2, u)
        } by {
            let (iv, js) = self.lemma_reader_pos(ord, v as int, x, u);
            if rel(u, u2) {
                let (a, b) = choose|i: int, j: int| 0 <= i < j < ord.len() && ord[i] == u && ord[j] == u2;
                assert(a == js);
                if b < iv {
                    assert(!self.writer_of(ord.take(iv)[b], x));
                }
                assert(b != iv);
            }
            if rel(u2, v) {
                let (a, b) = choose|i: int, j: int| 0 <= i < j < ord.len() && ord[i] == u2 && ord[j] == v;
                assert(b == iv);
                if a > js {
                    assert(!self.writer_of(ord.take(iv)[a], x));
                }
                assert(a != js);
            }
        }
    }

    /// Where `w` reads `x` from `u` in a serialization, `u` stands before
    /// `w` and no writer of `x` comes between them.
    proof fn lemma_reader_pos(&self, ord: Seq<usize>, w: int, x: usize, u: usize) -> (r: (int, int))
        requires
            self.ids_wf(),
            self.history_order(ord),
            self.reads_from(w, x, u),
        ensures
            0 <= r.1 < r.0 < ord.len(),
            ord[r.0] == w,
            ord[r.1] == u,
            forall|k: int| r.1 < k < r.0 ==> !self.writer_of(#[trigger] ord.take(r.0)[k], x),
    {
        assert(ord.contains(w as usize));
        let iw = choose|i: int| 0 <= i < ord.len() && ord[i] == w as usize;
        let j = choose|j: int| 0 <= j < self.txns@[w].0@.len() && #[trigger] self.txns@[w].0@[j] == (x, u);
        assert(self.reads(ord[iw] as int)[j] == (x, u));
        let js = self.lemma_last_writer_pos(ord.take(iw), x, u);
        assert(ord[js] == ord.take(iw)[js]);
        (iw, js)
    }

    /// A serialization of the seeded closure serializes the history.
    pub proof fn lemma_serialization_is_history_order(&self, ord: Seq<usize>)
        requires
            self.ids_wf(),
            self.closure_wf(),
            self.seeded(),
            self.is_serialization(ord),
        ensures
            self.history_order(ord),
    {
        assert forall|p: usize, k: usize| 1 <= p <= self.sizes().len() && k + 1 < self.sizes()[p - 1]
            implies before_in(ord)(
            #[trigger] id_of_pos(self.sizes(), p, k) as usize,
            id_of_pos(self.sizes(), p, (k + 1) as usize) as usize,
        ) by {
            let a = id_of_pos(self.sizes(), p, k) as usize;
            let b = id_of_pos(self.sizes(), p, (k + 1) as usize) as usize;
            assert(self.vis(a, b));
            assert(valid_pos(self.sizes(), p, (k + 1) as usize));
            lemma_id_in_range(self.sizes(), p, (k + 1) as usize);
            assert(ord.contains(b));
            let j = choose|j: int| 0 <= j < ord.len() && ord[j] == b;
            assert(ord.take(j).contains(a));
            let i = choose|i: int| 0 <= i < ord.take(j).len() && ord.take(j)[i] == a;
            assert(ord[i] == a);
        }
    }

    /// Emitting `cand` after `ord` hides no value a reader not yet in
    /// `ord` still has to see: every reader of the last writer of a key
    /// `cand` writes is emitted already, or is `cand`.
    pub open spec fn clobber_free(&self, cand: usize, ord: Seq<usize>) -> bool {
        forall|x: usize, w: usize, r2: usize|
            self.writer_of(cand, x) && self.last_writer(ord, x) == Some(w)
                && #[trigger] self.reads_from(r2 as int, x, w) && !ord.contains(r2) ==> r2 == cand
    }

    /// An order serializing the history, inside which the closure lies, is a
    /// serialization of the closure.
    pub proof fn lemma_history_order_is_serialization(&self, ord: Seq<usize>)
        requires
            self.history_order(ord),
            self.closure().within(before_in(ord)),
        ensures
            self.is_serialization(ord),
    {
        assert forall|i: int, a: usize| 0 <= i < ord.len() && #[trigger] self.vis(a, ord[i])
            implies ord.take(i).contains(a) by {
            assert(self.closure().has(a, ord[i]));
            let (i1, j1) = choose|i1: int, j1: int| 0 <= i1 < j1 < ord.len() && ord[i1] == a && ord[j1] == ord[i];
            assert(j1 == i);
            assert(ord.take(i)[i1] == a);
        }
    }

    /// The id tables and the transaction table agree with the sizes.
    pub closed spec fn ids_wf(&self) -> bool {
        let n = self.n_sizes@;
        &&& total(n) + 1 < usize::MAX
        &&& n.len() < usize::MAX
        &&& self.root_txn_id == 0
        &&& id_tables(n, self.tuple_to_id@, self.id_to_tuple@)
        &&& self.txns@.len() == self.id_to_tuple@.len()
        &&& forall|t: int, j: int| 0 <= t < self.txns@.len() && 0 <= j < self.txns@[t].0@.len()
                ==> (#[trigger] self.txns@[t].0@[j]).1 < self.txns@.len()
    }

    /// Whether transaction `w` reads key `x` from `u`.
    fn has_read(&self, w: usize, x: usize, u: usize) -> (r: bool)
        requires
            w < self.txns@.len(),
        ensures
            r == self.reads_from(w as int, x, u),
    {
        let rd = &self.txns[w].0;
        let mut j: usize = 0;
        while j < rd.len()
            invariant
                j <= rd@.len(),
                w < self.txns@.len(),
                rd@ == self.txns@[w as int].0@,
                forall|k: int| 0 <= k < j ==> rd@[k] != (x, u),
            decreases rd@.len() - j,
        {
            if rd[j].0 == x && rd[j].1 == u {
                assert(rd@[j as int] == (x, u));
                assert(self.txns@[w as int].0@[j as int] == (x, u));
                return true;
            }
            j = j + 1;
        }
        false
    }

    /// The transactions that read key `x` from `u`, each once.
    fn collect_readers(&self, u: usize, x: usize) -> (r: Vec<usize>)
        ensures
            r@.no_duplicates(),
            forall|w: usize| r@.contains(w) <==> self.reads_from(w as int, x, u),
    {
        let mut r: Vec<usize> = Vec::new();
        let mut w: usize = 0;
        while w < self.txns.len()
            invariant
                w <= self.txns@.len(),
                r@.no_duplicates(),
                forall|k: int| 0 <= k < r@.len() ==> #[trigger] r@[k] < w,
                forall|w2: usize| r@.contains(w2) <==> w2 < w && self.reads_from(w2 as int, x, u),
            decreases self.txns@.len() - w,
        {
            if self.has_read(w, x, u) {
                proof {
                    assert forall|i: int, j: int| 0 <= i < j < r@.push(w).len()
                        implies r@.push(w)[i] != r@.push(w)[j] by {
                        if j == r@.len() {
                            assert(r@[i] < w);
                        }
                    }
                }
                r.push(w);
            }
            w = w + 1;
        }
        r
    }

    /// Builds the write-read index: for each transaction `u` and each key it
    /// writes (or that is read from it), the transactions that read that key
    /// from `u`.
    pub fn preprocess_wr(&mut self)
        requires
            old(self).ids_wf(),
        ensures
            final(self).same_history(old(self)),
            final(self).wr_index_wf(),
            final(self).closure() == old(self).closure(),
    {
        let n = self.txns.len();
        let mut wr: Vec<Vec<(usize, Vec<usize>)>> = Vec::new();
        let mut u: usize = 0;
        while u < n
            invariant
                n == self.txns@.len(),
                self.ids_wf(),
                u <= n,
                wr@.len() == u,
                forall|u2: int, i: int, j: int| 0 <= u2 < wr@.len() && 0 <= i < j < wr@[u2]@.len()
                    ==> (#[trigger] wr@[u2]@[i]).0 != (#[trigger] wr@[u2]@[j]).0,
                forall|u2: usize, x: usize| u2 < wr@.len()
                    ==> (self.writer_of(u2, x) <==> #[trigger] keys_of(wr@[u2 as int]@).contains(x)),
                forall|u2: usize, i: int, w: usize| u2 < wr@.len() && 0 <= i < wr@[u2 as int]@.len()
                    ==> (#[trigger] wr@[u2 as int]@[i].1@.contains(w)
                    <==> self.reads_from(w as int, wr@[u2 as int]@[i].0, u2)),
            decreases n - u,
        {
            let row = self.build_row(u);
            wr.push(row);
            proof {
                assert forall|u2: usize, x: usize| u2 < wr@.len()
                    implies (self.writer_of(u2, x) <==> #[trigger] keys_of(wr@[u2 as int]@).contains(x)) by {
                    if u2 < u {
                        assert(wr@[u2 as int] == wr@.drop_last()[u2 as int]);
                    }
                }
            }
            u = u + 1;
        }
        let ghost s0 = *self;
        self.wr_order_by_txn = wr;
        proof {
            self.lemma_same_history(&s0);
            assert(self.wr_order_by_txn@ == wr@);
            assert forall|u2: usize, x: usize| u2 < wr@.len()
                implies (self.writer_of(u2, x) <==> #[trigger] keys_of(wr@[u2 as int]@).contains(x)) by {
                assert(s0.writer_of(u2, x) <==> keys_of(wr@[u2 as int]@).contains(x));
                if s0.writer_of(u2, x) && !s0.writes(u2 as int).contains(x) {
                    let w = choose|w: int| #[trigger] s0.reads_from(w, x, u2);
                    assert(self.reads_from(w, x, u2));
                }
                if self.writer_of(u2, x) && !self.writes(u2 as int).contains(x) {
                    let w = choose|w: int| #[trigger] self.reads_from(w, x, u2);
                    assert(s0.reads_from(w, x, u2));
                }
            }
        }
    }

    /// One row of the write-read index: the entries of writer `u`.
    fn build_row(&self, u: usize) -> (row: Vec<(usize, Vec<usize>)>)
        requires
            self.ids_wf(),
            u < self.txns@.len(),
        ensures
            forall|i: int, j: int| 0 <= i < j < row@.len() ==> (#[trigger] row@[i]).0 != (#[trigger] row@[j]).0,
            forall|x: usize| self.writer_of(u, x) <==> #[trigger] keys_of(row@).contains(x),
            forall|i: int, w: usize| 0 <= i < row@.len()
                ==> (#[trigger] row@[i].1@.contains(w) <==> self.reads_from(w as int, row@[i].0, u)),
    {
        let n = self.txns.len();
        let mut row: Vec<(usize, Vec<usize>)> = Vec::new();
        let mut w: usize = 0;
        while w < n
            invariant
                n == self.txns@.len(),
                w <= n,
                forall|i: int, j: int| 0 <= i < j < row@.len() ==> (#[trigger] row@[i]).0 != (#[trigger] row@[j]).0,
                forall|w2: int, x: usize| 0 <= w2 < w && #[trigger] self.reads_from(w2, x, u) ==> keys_of(row@).contains(x),
                forall|i: int| 0 <= i < row@.len() ==> self.writer_of(u, (#[trigger] row@[i]).0),
                forall|i: int, w2: usize| 0 <= i < row@.len()
                    ==> (#[trigger] row@[i].1@.contains(w2) <==> self.reads_from(w2 as int, row@[i].0, u)),
            decreases n - w,
        {
            let rd = &self.txns[w].0;
            let mut j: usize = 0;
            while j < rd.len()
                invariant
                    n == self.txns@.len(),
                    w < n,
                    j <= rd@.len(),
                    rd@ == self.txns@[w as int].0@,
                    forall|i: int, k: int| 0 <= i < k < row@.len() ==> (#[trigger] row@[i]).0 != (#[trigger] row@[k]).0,
                    forall|w2: int, x: usize| 0 <= w2 < w && #[trigger] self.reads_from(w2, x, u) ==> keys_of(row@).contains(x),
                    forall|k: int| 0 <= k < j && (#[trigger] rd@[k]).1 == u ==> keys_of(row@).contains(rd@[k].0),
                    forall|i: int| 0 <= i < row@.len() ==> self.writer_of(u, (#[trigger] row@[i]).0),
                    forall|i: int, w2: usize| 0 <= i < row@.len()
                        ==> (#[trigger] row@[i].1@.contains(w2) <==> self.reads_from(w2 as int, row@[i].0, u)),
                decreases rd@.len() - j,
            {
                let (x, src) = rd[j];
                if src == u {
                    proof {
                        assert(self.txns@[w as int].0@[j as int] == (x, u));
                        assert(self.reads_from(w as int, x, u));
                    }
                    if find_key(&row, x).is_none() {
                        let readers = self.collect_readers(u, x);
                        let ghost r0 = row@;
                        row.push((x, readers));
                        proof {
                            lemma_keys_push(r0, (x, readers));
                            lemma_keys_fresh(r0, x);
                        }
                    } else {
                        proof {
                            lemma_keys_found(row@, x);
                        }
                    }
                }
                j = j + 1;
            }
            proof {
                assert forall|w2: int, x: usize| 0 <= w2 < w + 1 && #[trigger] self.reads_from(w2, x, u) implies
                    keys_of(row@).contains(x) by {
                    if w2 == w {
                        let k = choose|k: int| 0 <= k < self.txns@[w2].0@.len() && #[trigger] self.txns@[w2].0@[k] == (x, u);
                        assert(rd@[k] == (x, u));
                    }
                }
            }
            w = w + 1;
        }
        let wrs = &self.txns[u].1;
        let mut k: usize = 0;
        while k < wrs.len()
            invariant
                k <= wrs@.len(),
                wrs@ == self.txns@[u as int].1@,
                forall|i: int, j: int| 0 <= i < j < row@.len() ==> (#[trigger] row@[i]).0 != (#[trigger] row@[j]).0,
                forall|w2: int, x: usize| #[trigger] self.reads_from(w2, x, u) ==> keys_of(row@).contains(x),
                forall|k2: int| 0 <= k2 < k ==> keys_of(row@).contains(#[trigger] wrs@[k2]),
                forall|i: int| 0 <= i < row@.len() ==> self.writer_of(u, (#[trigger] row@[i]).0),
                forall|i: int, w2: usize| 0 <= i < row@.len()
                    ==> (#[trigger] row@[i].1@.contains(w2) <==> self.reads_from(w2 as int, row@[i].0, u)),
            decreases wrs@.len() - k,
        {
            let x = wrs[k];
            proof {
                assert(self.writes(u as int)[k as int] == x);
            }
            if find_key(&row, x).is_none() {
                let readers = self.collect_readers(u, x);
                let ghost r0 = row@;
                row.push((x, readers));
                proof {
                    lemma_keys_push(r0, (x, readers));
                    lemma_keys_fresh(r0, x);
                }
            } else {
                proof {
                    lemma_keys_found(row@, x);
                }
            }
            k = k + 1;
        }
        proof {
            assert forall|x: usize| self.writer_of(u, x) implies keys_of(row@).contains(x) by {
                if self.writes(u as int).contains(x) {
                    let k2 = choose|k2: int| 0 <= k2 < wrs@.len() && wrs@[k2] == x;
                }
            }
        }
        row
    }

    /// Seeds the closure with program order (the root before each process's
    /// first transaction, and each transaction before the next of its
    /// process) and with an edge from each transaction to every reader of it.
    pub fn preprocess_vis(&mut self)
        requires
            old(self).ids_wf(),
            old(self).closure_wf(),
        ensures
            final(self).same_history(old(self)),
            final(self).wr_index() == old(self).wr_index(),
            final(self).closure_wf(),
            forall|a: usize, b: usize| old(self).vis(a, b) ==> #[trigger] final(self).vis(a, b),
            final(self).seeded(),
            forall|rel: spec_fn(usize, usize) -> bool|
                rel_transitive(rel) && old(self).closure().within(rel) && old(self).seeds_within(rel)
                    ==> #[trigger] final(self).closure().within(rel),
    {
        let ghost s0 = *self;
        let np = self.tuple_to_id.len();
        let mut p: usize = 1;
        while p < np
            invariant
                self.same_history(&s0),
                self.wr_order_by_txn == s0.wr_order_by_txn,
                self.ids_wf(),
                self.closure_wf(),
                forall|rel: spec_fn(usize, usize) -> bool| rel_transitive(rel) && s0.closure().within(rel) && s0.seeds_within(rel) ==> #[trigger] self.closure().within(rel),
                np == self.tuple_to_id@.len(),
                1 <= p <= np,
                forall|a: usize, b: usize| #[trigger] s0.vis(a, b) ==> self.vis(a, b),
                forall|q: usize, k: usize| 1 <= q < p && q <= s0.sizes().len() && k + 1 < s0.sizes()[q - 1]
                    ==> self.vis(
                    #[trigger] id_of_pos(s0.sizes(), q, k) as usize,
                    id_of_pos(s0.sizes(), q, (k + 1) as usize) as usize,
                ),
                forall|q: usize| 1 <= q < p && #[trigger] valid_pos(s0.sizes(), q, 0)
                    ==> self.vis(0, id_of_pos(s0.sizes(), q, 0) as usize),
            decreases np - p,
        {
            let len = self.tuple_to_id[p].len();
            let mut j: usize = 1;
            while j < len
                invariant
                    self.same_history(&s0),
                    self.wr_order_by_txn == s0.wr_order_by_txn,
                    self.ids_wf(),
                    self.closure_wf(),
                    forall|rel: spec_fn(usize, usize) -> bool| rel_transitive(rel) && s0.closure().within(rel) && s0.seeds_within(rel) ==> #[trigger] self.closure().within(rel),
                forall|rel: spec_fn(usize, usize) -> bool| rel_transitive(rel) && s0.closure().within(rel) && s0.seeds_within(rel) ==> #[trigger] self.closure().within(rel),
                    np == self.tuple_to_id@.len(),
                    1 <= p < np,
                    len == self.tuple_to_id@[p as int]@.len(),
                    1 <= j,
                    len > 0 ==> j <= len,
                    forall|a: usize, b: usize| #[trigger] s0.vis(a, b) ==> self.vis(a, b),
                    forall|q: usize, k: usize| 1 <= q < p && q <= s0.sizes().len() && k + 1 < s0.sizes()[q - 1]
                        ==> self.vis(
                        #[trigger] id_of_pos(s0.sizes(), q, k) as usize,
                        id_of_pos(s0.sizes(), q, (k + 1) as usize) as usize,
                    ),
                    forall|q: usize| 1 <= q < p && #[trigger] valid_pos(s0.sizes(), q, 0)
                        ==> self.vis(0, id_of_pos(s0.sizes(), q, 0) as usize),
                    forall|k: usize| k + 1 < j && k + 1 < len ==> self.vis(
                        #[trigger] id_of_pos(s0.sizes(), p, k) as usize,
                        id_of_pos(s0.sizes(), p, (k + 1) as usize) as usize,
                    ),
                decreases len - j,
            {
                let a = self.tuple_to_id[p][j - 1];
                let b = self.tuple_to_id[p][j];
                proof {
                    assert(valid_pos(s0.sizes(), p, (j - 1) as usize));
                    assert(valid_pos(s0.sizes(), p, j));
                    lemma_id_in_range(s0.sizes(), p, (j - 1) as usize);
                    lemma_id_in_range(s0.sizes(), p, j);
                    assert(((j - 1) as usize + 1) as usize == j);
                }
                let ghost before = *self;
                self.vis_closure.add_edge(a, b);
                proof {
                    assert forall|rel: spec_fn(usize, usize) -> bool| rel_transitive(rel) && s0.closure().within(rel)
                        && s0.seeds_within(rel) implies #[trigger] self.closure().within(rel) by {
                        assert(before.closure().within(rel));
                        assert(a == id_of_pos(s0.sizes(), p, (j - 1) as usize) as usize);
                        assert(rel(a, b));
                    }
                }
                j = j + 1;
            }
            if len > 0 {
                let first = self.tuple_to_id[p][0];
                proof {
                    assert(valid_pos(s0.sizes(), p, 0));
                    lemma_id_in_range(s0.sizes(), p, 0);
                }
                let ghost before = *self;
                self.vis_closure.add_edge(0, first);
                proof {
                    assert forall|rel: spec_fn(usize, usize) -> bool| rel_transitive(rel) && s0.closure().within(rel)
                        && s0.seeds_within(rel) implies #[trigger] self.closure().within(rel) by {
                        assert(before.closure().within(rel));
                        assert(rel(0, first));
                    }
                }
            }
            proof {
                assert forall|q: usize, k: usize| 1 <= q < p + 1 && q <= s0.sizes().len() && k + 1 < s0.sizes()[q - 1]
                    implies self.vis(
                    #[trigger] id_of_pos(s0.sizes(), q, k) as usize,
                    id_of_pos(s0.sizes(), q, (k + 1) as usize) as usize,
                ) by {
                    if q == p {
                        assert(k + 1 < len);
                    }
                }
            }
            p = p + 1;
        }
        let n = self.txns.len();
        let mut w: usize = 0;
        while w < n
            invariant
                self.same_history(&s0),
                self.wr_order_by_txn == s0.wr_order_by_txn,
                self.ids_wf(),
                self.closure_wf(),
                forall|rel: spec_fn(usize, usize) -> bool| rel_transitive(rel) && s0.closure().within(rel) && s0.seeds_within(rel) ==> #[trigger] self.closure().within(rel),
                n == self.txns@.len(),
                w <= n,
                forall|a: usize, b: usize| #[trigger] s0.vis(a, b) ==> self.vis(a, b),
                forall|q: usize, k: usize| 1 <= q <= s0.sizes().len() && k + 1 < s0.sizes()[q - 1]
                    ==> self.vis(
                    #[trigger] id_of_pos(s0.sizes(), q, k) as usize,
                    id_of_pos(s0.sizes(), q, (k + 1) as usize) as usize,
                ),
                forall|q: usize| 1 <= q && #[trigger] valid_pos(s0.sizes(), q, 0)
                    ==> self.vis(0, id_of_pos(s0.sizes(), q, 0) as usize),
                forall|w2: int, x: usize, u: usize| 0 <= w2 < w && #[trigger] s0.reads_from(w2, x, u)
                    ==> self.vis(u, w2 as usize),
            decreases n - w,
        {
            let nr = self.txns[w].0.len();
            let mut j: usize = 0;
            while j < nr
                invariant
                    self.same_history(&s0),
                    self.wr_order_by_txn == s0.wr_order_by_txn,
                    self.ids_wf(),
                    self.closure_wf(),
                    forall|rel: spec_fn(usize, usize) -> bool| rel_transitive(rel) && s0.closure().within(rel) && s0.seeds_within(rel) ==> #[trigger] self.closure().within(rel),
                forall|rel: spec_fn(usize, usize) -> bool| rel_transitive(rel) && s0.closure().within(rel) && s0.seeds_within(rel) ==> #[trigger] self.closure().within(rel),
                    n == self.txns@.len(),
                    w < n,
                    j <= nr,
                    nr == self.txns@[w as int].0@.len(),
                    forall|a: usize, b: usize| #[trigger] s0.vis(a, b) ==> self.vis(a, b),
                    forall|q: usize, k: usize| 1 <= q <= s0.sizes().len() && k + 1 < s0.sizes()[q - 1]
                        ==> self.vis(
                        #[trigger] id_of_pos(s0.sizes(), q, k) as usize,
                        id_of_pos(s0.sizes(), q, (k + 1) as usize) as usize,
                    ),
                    forall|q: usize| 1 <= q && #[trigger] valid_pos(s0.sizes(), q, 0)
                        ==> self.vis(0, id_of_pos(s0.sizes(), q, 0) as usize),
                    forall|w2: int, x: usize, u: usize| 0 <= w2 < w && #[trigger] s0.reads_from(w2, x, u)
                        ==> self.vis(u, w2 as usize),
                    forall|k: int| 0 <= k < j ==> self.vis((#[trigger] s0.txns@[w as int].0@[k]).1, w),
                decreases nr - j,
            {
                let u = self.txns[w].0[j].1;
                let ghost before = *self;
                proof {
                    assert(s0.txns@[w as int].0@[j as int] == (s0.txns@[w as int].0@[j as int].0, u));
                    assert(s0.reads_from(w as int, s0.txns@[w as int].0@[j as int].0, u));
                }
                self.vis_closure.add_edge(u, w);
                proof {
                    assert forall|rel: spec_fn(usize, usize) -> bool| rel_transitive(rel) && s0.closure().within(rel)
                        && s0.seeds_within(rel) implies #[trigger] self.closure().within(rel) by {
                        assert(before.closure().within(rel));
                        assert(rel(u, w));
                    }
                }
                j = j + 1;
            }
            proof {
                assert forall|w2: int, x: usize, u: usize| 0 <= w2 < w + 1 && #[trigger] s0.reads_from(w2, x, u)
                    implies self.vis(u, w2 as usize) by {
                    if w2 == w {
                        let k = choose|k: int| 0 <= k < self.txns@[w2].0@.len() && #[trigger] self.txns@[w2].0@[k] == (x, u);
                        assert(s0.txns@[w as int].0@[k].1 == u);
                    }
                }
            }
            w = w + 1;
        }
        proof {
            self.lemma_same_history(&s0);
        }
    }

    /// Whether `u` is a writer of `x`, read off the write-read index.
    fn is_writer(&self, u: usize, x: usize) -> (r: bool)
        requires
            self.ids_wf(),
            self.wr_index_wf(),
            u < self.txns@.len(),
        ensures
            r == self.writer_of(u, x),
    {
        match find_key(&self.wr_order_by_txn[u], x) {
            Some(i) => {
                proof {
                    lemma_keys_found(self.wr_order_by_txn@[u as int]@, x);
                }
                true
            },
            None => {
                proof {
                    lemma_keys_fresh(self.wr_order_by_txn@[u as int]@, x);
                }
                false
            },
        }
    }

    /// One pass of the rules under the current closure: the edges they ask
    /// for, or `None` where one asks for an edge whose reverse is present.
    fn collect_candidates(&self) -> (r: Option<Vec<(usize, usize)>>)
        requires
            self.ids_wf(),
            self.wr_index_wf(),
            self.closure_wf(),
        ensures
            match r {
                None => exists|a: usize, b: usize| self.demands(a, b) && #[trigger] self.vis(b, a),
                Some(ne) => {
                    &&& forall|k: int| 0 <= k < ne@.len() ==> self.demands((#[trigger] ne@[k]).0, ne@[k].1)
                    &&& forall|k: int| 0 <= k < ne@.len() ==> (#[trigger] ne@[k]).0 < self.n_txns()
                        && ne@[k].1 < self.n_txns()
                    &&& forall|u: usize, u2: usize, v: usize, x: usize| #[trigger] self.covered(ne@, u, u2, v, x)
                },
            },
    {
        let n = self.txns.len();
        let mut ne: Vec<(usize, usize)> = Vec::new();
        let mut v: usize = 0;
        while v < n
            invariant
                self.ids_wf(),
                self.wr_index_wf(),
                self.closure_wf(),
                n == self.txns@.len(),
                v <= n,
                forall|k: int| 0 <= k < ne@.len() ==> self.demands((#[trigger] ne@[k]).0, ne@[k].1),
                forall|k: int| 0 <= k < ne@.len() ==> (#[trigger] ne@[k]).0 < n && ne@[k].1 < n,
                forall|u: usize, u2: usize, v2: usize, x: usize| v2 < v ==> #[trigger] self.covered(ne@, u, u2, v2, x),
            decreases n - v,
        {
            let nr = self.txns[v].0.len();
            let mut j: usize = 0;
            while j < nr
                invariant
                    self.ids_wf(),
                    self.wr_index_wf(),
                    self.closure_wf(),
                    n == self.txns@.len(),
                    v < n,
                    j <= nr,
                    nr == self.txns@[v as int].0@.len(),
                    forall|k: int| 0 <= k < ne@.len() ==> self.demands((#[trigger] ne@[k]).0, ne@[k].1),
                    forall|k: int| 0 <= k < ne@.len() ==> (#[trigger] ne@[k]).0 < n && ne@[k].1 < n,
                    forall|u: usize, u2: usize, v2: usize, x: usize| v2 < v ==> #[trigger] self.covered(ne@, u, u2, v2, x),
                    forall|j2: int, u2: usize| 0 <= j2 < j ==> #[trigger] self.covered(ne@,
                        self.txns@[v as int].0@[j2].1, u2, v, self.txns@[v as int].0@[j2].0),
                decreases nr - j,
            {
                let x = self.txns[v].0[j].0;
                let u = self.txns[v].0[j].1;
                proof {
                    assert(self.txns@[v as int].0@[j as int] == (x, u));
                    assert(self.reads_from(v as int, x, u));
                }
                let mut u2: usize = 0;
                while u2 < n
                    invariant
                        self.ids_wf(),
                        self.wr_index_wf(),
                        self.closure_wf(),
                        n == self.txns@.len(),
                        v < n,
                        j < nr,
                        nr == self.txns@[v as int].0@.len(),
                        self.txns@[v as int].0@[j as int] == (x, u),
                        self.reads_from(v as int, x, u),
                        u < n,
                        u2 <= n,
                        forall|k: int| 0 <= k < ne@.len() ==> self.demands((#[trigger] ne@[k]).0, ne@[k].1),
                        forall|k: int| 0 <= k < ne@.len() ==> (#[trigger] ne@[k]).0 < n && ne@[k].1 < n,
                        forall|u3: usize, u4: usize, v2: usize, x2: usize| v2 < v ==> #[trigger] self.covered(ne@, u3, u4, v2, x2),
                        forall|j2: int, u4: usize| 0 <= j2 < j ==> #[trigger] self.covered(ne@,
                            self.txns@[v as int].0@[j2].1, u4, v, self.txns@[v as int].0@[j2].0),
                        forall|u4: usize| u4 < u2 ==> #[trigger] self.covered(ne@, u, u4, v, x),
                    decreases n - u2,
                {
                    if u != u2 && v != u2 && self.is_writer(u2, x) {
                        proof {
                            assert(self.rule_instance(u, u2, v, x));
                        }
                        if self.vis_closure.contains(u, u2) {
                            if self.vis_closure.contains(u2, v) {
                                proof {
                                    assert(self.demands(v, u2));
                                }
                                return None;
                            }
                            proof {
                                assert(self.demands(v, u2));
                                lemma_covered_push(self, ne@, (v, u2));
                            }
                            ne.push((v, u2));
                        }
                        if self.vis_closure.contains(u2, v) {
                            if self.vis_closure.contains(u, u2) {
                                proof {
                                    assert(self.demands(u2, u));
                                }
                                return None;
                            }
                            proof {
                                assert(self.demands(u2, u));
                                lemma_covered_push(self, ne@, (u2, u));
                            }
                            ne.push((u2, u));
                        }
                    }
                    proof {
                        assert(self.covered(ne@, u, u2, v, x));
                    }
                    u2 = u2 + 1;
                }
                proof {
                    assert forall|j2: int, u4: usize| 0 <= j2 < j + 1 implies #[trigger] self.covered(ne@,
                        self.txns@[v as int].0@[j2].1, u4, v, self.txns@[v as int].0@[j2].0) by {
                        if j2 == j {
                            if u4 >= n {
                                assert(!self.rule_instance(u, u4, v, x));
                            } else {
                                assert(self.covered(ne@, u, u4, v, x));
                            }
                        }
                    }
                }
                j = j + 1;
            }
            proof {
                assert forall|u: usize, u2: usize, v2: usize, x: usize| v2 < v + 1
                    implies #[trigger] self.covered(ne@, u, u2, v2, x) by {
                    if v2 == v && self.reads_from(v as int, x, u) {
                        let j2 = choose|j2: int| 0 <= j2 < self.txns@[v as int].0@.len()
                            && #[trigger] self.txns@[v as int].0@[j2] == (x, u);
                        assert(self.covered(ne@, self.txns@[v as int].0@[j2].1, u2, v, self.txns@[v as int].0@[j2].0));
                    }
                }
            }
            v = v + 1;
        }
        proof {
            assert forall|u: usize, u2: usize, v2: usize, x: usize| #[trigger] self.covered(ne@, u, u2, v2, x) by {
                if v2 >= n {
                    assert(!self.reads_from(v2 as int, x, u));
                }
            }
        }
        Some(ne)
    }

    /// Saturates the closure under the write-write and read-write rules, one
    /// pass at a time, until a pass adds nothing. Returns false where a rule
    /// asks for an edge whose reverse is already in the closure.
    pub fn preprocess_ww_rw(&mut self) -> (r: bool)
        requires
            old(self).ids_wf(),
            old(self).wr_index_wf(),
            old(self).closure_wf(),
        ensures
            final(self).same_history(old(self)),
            final(self).wr_index() == old(self).wr_index(),
            final(self).closure_wf(),
            forall|a: usize, b: usize| #[trigger] old(self).vis(a, b) ==> final(self).vis(a, b),
            r ==> final(self).saturated(),
            forall|rel: spec_fn(usize, usize) -> bool|
                rel_transitive(rel) && old(self).closure().within(rel) && old(self).rules_closed(rel)
                    ==> #[trigger] final(self).closure().within(rel),
            r && old(self).closure().acyclic() ==> final(self).closure().acyclic(),
            !r ==> exists|a: usize, b: usize| final(self).demands(a, b) && #[trigger] final(self).vis(b, a),
    {
        let ghost s0 = *self;
        let n = self.txns.len();
        loop
            invariant
                s0 == *old(self),
                self.same_history(&s0),
                self.wr_order_by_txn == s0.wr_order_by_txn,
                self.ids_wf(),
                self.wr_index_wf(),
                self.closure_wf(),
                n == self.txns@.len(),
                forall|a: usize, b: usize| #[trigger] s0.vis(a, b) ==> self.vis(a, b),
                forall|rel: spec_fn(usize, usize) -> bool| rel_transitive(rel) && s0.closure().within(rel) && s0.rules_closed(rel) ==> #[trigger] self.closure().within(rel),
                s0.closure().acyclic() ==> self.closure().acyclic(),
            decreases missing(self.vis_closure, n as nat, n as nat),
        {
            let ghost start = *self;
            let ne = match self.collect_candidates() {
                Some(ne) => ne,
                None => {
                    return false;
                },
            };
            let mut converged = true;
            let mut k: usize = 0;
            while k < ne.len()
                invariant
                    s0 == *old(self),
                    self.same_history(&s0),
                    self.same_history(&start),
                    self.wr_order_by_txn == s0.wr_order_by_txn,
                    self.ids_wf(),
                    self.wr_index_wf(),
                    self.closure_wf(),
                    n == self.txns@.len(),
                    k <= ne@.len(),
                    forall|a: usize, b: usize| #[trigger] s0.vis(a, b) ==> self.vis(a, b),
                    forall|rel: spec_fn(usize, usize) -> bool| rel_transitive(rel) && s0.closure().within(rel) && s0.rules_closed(rel) ==> #[trigger] self.closure().within(rel),
                    s0.closure().acyclic() ==> self.closure().acyclic(),
                    forall|rel: spec_fn(usize, usize) -> bool| rel_transitive(rel) && s0.closure().within(rel) && s0.rules_closed(rel) ==> #[trigger] start.closure().within(rel),
                    forall|a: usize, b: usize| #[trigger] start.vis(a, b) ==> self.vis(a, b),
                    forall|i: int| 0 <= i < ne@.len() ==> start.demands((#[trigger] ne@[i]).0, ne@[i].1),
                    forall|i: int| 0 <= i < ne@.len() ==> (#[trigger] ne@[i]).0 < n && ne@[i].1 < n,
                    forall|i: int| 0 <= i < k ==> self.vis((#[trigger] ne@[i]).0, ne@[i].1),
                    converged ==> forall|a: usize, b: usize| #[trigger] self.vis(a, b) == start.vis(a, b),
                    !converged ==> exists|a: usize, b: usize| a < n && b < n && !start.vis(a, b)
                        && #[trigger] self.vis(a, b),
                decreases ne@.len() - k,
            {
                let (a, b) = ne[k];
                if self.vis_closure.contains(b, a) {
                    proof {
                        assert(start.demands(a, b));
                        lemma_demands_mono(&start, self, a, b);
                    }
                    return false;
                }
                let ghost before = *self;
                let added = self.vis_closure.add_edge(a, b);
                proof {
                    lemma_index_transfer(&before, self);
                    assert(start.demands(a, b));
                    lemma_demand_distinct(&start, a, b);
                    assert forall|rel: spec_fn(usize, usize) -> bool| rel_transitive(rel) && s0.closure().within(rel)
                        && s0.rules_closed(rel) implies #[trigger] self.closure().within(rel) by {
                        assert(before.closure().within(rel));
                        assert(start.closure().within(rel));
                        lemma_rules_closed_same(&s0, &start, rel);
                        lemma_demand_within(&start, rel, a, b);
                    }
                }
                if added {
                    proof {
                        assert(!before.vis(a, b));
                        assert(!start.vis(a, b));
                        assert(self.vis(a, b));
                    }
                    converged = false;
                }
                proof {
                    if !added {
                        assert forall|p: usize, q: usize| #[trigger] self.vis(p, q) == before.vis(p, q) by {
                            if (p == a || before.vis(p, a)) && (q == b || before.vis(b, q)) {
                                if p != a {
                                    assert(before.vis(p, b));
                                }
                            }
                        }
                    }
                    if added {
                        assert(a < n && b < n && !start.vis(a, b) && self.vis(a, b));
                    } else if !converged {
                        let (p, q) = choose|p: usize, q: usize| p < n && q < n && !start.vis(p, q)
                            && #[trigger] before.vis(p, q);
                        assert(self.vis(p, q));
                    }
                }
                k = k + 1;
            }
            if converged {
                proof {
                    assert forall|u: usize, u2: usize, v: usize, x: usize| #[trigger] self.rule_holds(u, u2, v, x) by {
                        assert(start.covered(ne@, u, u2, v, x));
                        if ne@.contains((v, u2)) {
                            let i = choose|i: int| 0 <= i < ne@.len() && ne@[i] == (v, u2);
                            assert(self.vis(ne@[i].0, ne@[i].1));
                        }
                        if ne@.contains((u2, u)) {
                            let i = choose|i: int| 0 <= i < ne@.len() && ne@[i] == (u2, u);
                            assert(self.vis(ne@[i].0, ne@[i].1));
                        }
                        self.lemma_same_history(&start);
                        if start.writes(u2 as int).contains(x) {
                            assert(self.writes(u2 as int).contains(x));
                        }
                        if self.writer_of(u2, x) && !self.writes(u2 as int).contains(x) {
                            let w = choose|w: int| #[trigger] self.reads_from(w, x, u2);
                            assert(start.reads_from(w, x, u2));
                        }
                    }
                }
                return true;
            }
            proof {
                let (p, q) = choose|p: usize, q: usize| p < n && q < n && !start.vis(p, q)
                    && #[trigger] self.vis(p, q);
                assert forall|a: usize, b: usize| start.vis_closure.has(a, b) implies #[trigger] self.vis_closure.has(a, b) by {
                    assert(start.vis(a, b));
                }
                lemma_missing_mono(start.vis_closure, self.vis_closure, n as nat, n as nat);
                assert(!start.vis_closure.has(p, q) && self.vis_closure.has(p, q));
            }
        }
    }

    /// Builds the write-read index, seeds the closure, and saturates it.
    /// Returns false where saturation finds the history infeasible.
    pub fn preprocess(&mut self) -> (r: bool)
        requires
            old(self).ids_wf(),
            old(self).closure_wf(),
        ensures
            final(self).same_history(old(self)),
            final(self).wr_index_wf(),
            final(self).closure_wf(),
            final(self).seeded(),
            forall|a: usize, b: usize| #[trigger] old(self).vis(a, b) ==> final(self).vis(a, b),
            forall|rel: spec_fn(usize, usize) -> bool|
                rel_transitive(rel) && old(self).closure().within(rel) && old(self).seeds_within(rel)
                    && old(self).rules_closed(rel) ==> #[trigger] final(self).closure().within(rel),
            r ==> final(self).saturated(),
            r ==> final(self).closure().acyclic(),
            !r ==> (exists|a: usize| #[trigger] final(self).vis(a, a))
                || exists|a: usize, b: usize| final(self).demands(a, b) && #[trigger] final(self).vis(b, a),
            !r ==> forall|ord: Seq<usize>| old(self).closure().within(before_in(ord))
                ==> !#[trigger] final(self).history_order(ord),
    {
        let ghost s0 = *self;
        self.preprocess_wr();
        let ghost s1 = *self;
        self.preprocess_vis();
        proof {
            lemma_index_transfer(&s1, self);
        }
        let n = self.txns.len();
        let mut a: usize = 0;
        let mut cyclic = false;
        while a < n && !cyclic
            invariant
                n == self.txns@.len(),
                self.ids_wf(),
                self.closure_wf(),
                a <= n,
                cyclic ==> a < n && self.vis(a, a),
                !cyclic ==> forall|b: usize| b < a ==> !#[trigger] self.vis(b, b),
            decreases n - a + (if cyclic { 0int } else { 1int }),
        {
            if self.vis_closure.contains(a, a) {
                cyclic = true;
            } else {
                a = a + 1;
            }
        }
        if cyclic {
            proof {
                self.lemma_same_history(&s1);
                s1.lemma_same_history(&s0);
                assert forall|a2: usize, b2: usize| #[trigger] s0.vis(a2, b2) implies self.vis(a2, b2) by {
                    assert(s1.vis(a2, b2));
                }
                assert forall|ord: Seq<usize>| s0.closure().within(before_in(ord))
                    implies !#[trigger] self.history_order(ord) by {
                    if self.history_order(ord) {
                        self.lemma_history_order_rel(ord);
                        lemma_seeds_within_same(self, &s1, before_in(ord));
                        assert(s1.closure() == s0.closure());
                        assert(self.closure().within(before_in(ord)));
                        lemma_no_order(self, ord);
                    }
                }
            }
            return false;
        }
        proof {
            assert forall|b: usize| !#[trigger] self.vis_closure.has(b, b) by {
                if self.vis_closure.has(b, b) {
                    self.vis_closure.lemma_in_range(b, b);
                    assert(self.vis(b, b));
                }
            }
        }
        let ghost s2 = *self;
        let r = self.preprocess_ww_rw();
        proof {
            self.lemma_same_history(&s2);
            lemma_index_transfer(&s2, self);
            s2.lemma_same_history(&s1);
            s1.lemma_same_history(&s0);
            assert forall|a: usize, b: usize| #[trigger] s0.vis(a, b) implies self.vis(a, b) by {
                assert(s1.vis(a, b));
                assert(s2.vis(a, b));
            }
            assert forall|p: usize, k: usize| 1 <= p <= self.sizes().len() && k + 1 < self.sizes()[p - 1]
                implies self.vis(
                #[trigger] id_of_pos(self.sizes(), p, k) as usize,
                id_of_pos(self.sizes(), p, (k + 1) as usize) as usize,
            ) by {
                assert(s2.vis(id_of_pos(s2.sizes(), p, k) as usize, id_of_pos(s2.sizes(), p, (k + 1) as usize) as usize));
            }
            assert forall|p: usize| 1 <= p && #[trigger] valid_pos(self.sizes(), p, 0)
                implies self.vis(0, id_of_pos(self.sizes(), p, 0) as usize) by {
                assert(s2.vis(0, id_of_pos(s2.sizes(), p, 0) as usize));
            }
            assert forall|w: int, x: usize, u: usize| #[trigger] self.reads_from(w, x, u)
                implies self.vis(u, w as usize) by {
                assert(s2.reads_from(w, x, u));
                assert(s2.vis(u, w as usize));
            }
            assert forall|rel: spec_fn(usize, usize) -> bool|
                rel_transitive(rel) && s0.closure().within(rel) && s0.seeds_within(rel)
                    && s0.rules_closed(rel) implies #[trigger] self.closure().within(rel) by {
                assert(s1.closure() == s0.closure());
                assert(s1.closure().within(rel));
                assert forall|p: usize, k: usize| 1 <= p <= s1.sizes().len() && k + 1 < s1.sizes()[p - 1]
                    implies rel(
                    #[trigger] id_of_pos(s1.sizes(), p, k) as usize,
                    id_of_pos(s1.sizes(), p, (k + 1) as usize) as usize,
                ) by {
                    assert(rel(id_of_pos(s0.sizes(), p, k) as usize, id_of_pos(s0.sizes(), p, (k + 1) as usize) as usize));
                }
                assert forall|w: int, x: usize, u: usize| #[trigger] s1.reads_from(w, x, u) implies rel(u, w as usize) by {
                    assert(s0.reads_from(w, x, u));
                }
                assert(s1.seeds_within(rel));
                assert(s2.closure().within(rel));
                lemma_rules_closed_same(&s0, &s2, rel);
            }
            if !r {
                assert forall|ord: Seq<usize>| s0.closure().within(before_in(ord))
                    implies !#[trigger] self.history_order(ord) by {
                    if self.history_order(ord) {
                        self.lemma_history_order_rel(ord);
                        lemma_seeds_within_same(self, &s1, before_in(ord));
                        assert(s1.closure() == s0.closure());
                        assert(s2.closure().within(before_in(ord)));
                        lemma_rules_closed_same(self, &s2, before_in(ord));
                        assert(self.closure().within(before_in(ord)));
                        lemma_no_order(self, ord);
                    }
                }
            }
        }
        r
    }

    /// Every closure predecessor of `cand` is emitted.
    fn eligible(&self, cand: usize, emitted: &Vec<bool>) -> (r: bool)
        requires
            self.closure_wf(),
            emitted@.len() == self.n_txns(),
        ensures
            r ==> forall|a: usize| #[trigger] self.vis(a, cand) ==> a < emitted@.len() && emitted@[a as int],
            (forall|a: usize| #[trigger] self.vis(a, cand) ==> a < emitted@.len() && emitted@[a as int]) ==> r,
    {
        let preds = self.vis_closure.predecessors(cand);
        let mut k: usize = 0;
        while k < preds.len()
            invariant
                k <= preds@.len(),
                forall|u: usize| preds@.contains(u) <==> self.vis_closure.has(u, cand),
                forall|k2: int| 0 <= k2 < k ==> (#[trigger] preds@[k2]) < emitted@.len() && emitted@[preds@[k2] as int],
            decreases preds@.len() - k,
        {
            let a = preds[k];
            if a >= emitted.len() || !emitted[a] {
                assert(preds@[k as int] == a);
                assert(preds@.contains(a));
                assert(self.vis(a, cand));
                return false;
            }
            k = k + 1;
        }
        proof {
            assert forall|a: usize| #[trigger] self.vis(a, cand) implies a < emitted@.len() && emitted@[a as int] by {
                assert(preds@.contains(a));
                let k2 = choose|k2: int| 0 <= k2 < preds@.len() && preds@[k2] == a;
                assert(preds@[k2] < emitted@.len());
            }
        }
        true
    }

    /// Read guard: for each key `cand` reads, the recorded last writer is
    /// the transaction it read from.
    fn reads_ok(&self, cand: usize, st: &SearchState) -> (r: bool)
        requires
            self.ids_wf(),
            cand < self.n_txns(),
            self.search_ok(st),
        ensures
            r == forall|j: int| 0 <= j < self.reads(cand as int).len() ==> self.last_writer(
                st.order(),
                (#[trigger] self.reads(cand as int)[j]).0,
            ) == Some(self.reads(cand as int)[j].1),
    {
        let rd = &self.txns[cand].0;
        let mut j: usize = 0;
        while j < rd.len()
            invariant
                j <= rd@.len(),
                rd@ == self.reads(cand as int),
                self.search_ok(st),
                forall|j2: int| 0 <= j2 < j ==> self.last_writer(st.order@, (#[trigger] rd@[j2]).0)
                    == Some(rd@[j2].1),
            decreases rd@.len() - j,
        {
            match lookup(&st.lw_keys, rd[j].0) {
                Some(e) => {
                    if st.lw_writers[e] != rd[j].1 {
                        assert(self.reads(cand as int)[j as int] == rd@[j as int]);
                        assert(self.last_writer(st.order@, st.lw_keys@[e as int]) == Some(st.lw_writers@[e as int]));
                        return false;
                    }
                    assert(self.last_writer(st.order@, st.lw_keys@[e as int]) == Some(st.lw_writers@[e as int]));
                },
                None => {
                    assert(self.reads(cand as int)[j as int] == rd@[j as int]);
                    assert(!(self.last_writer(st.order@, rd@[j as int].0) is Some));
                    return false;
                },
            }
            j = j + 1;
        }
        proof {
            assert forall|j2: int| 0 <= j2 < self.reads(cand as int).len() implies self.last_writer(
                st.order(),
                (#[trigger] self.reads(cand as int)[j2]).0,
            ) == Some(self.reads(cand as int)[j2].1) by {
                assert(rd@[j2] == self.reads(cand as int)[j2]);
            }
        }
        true
    }

    /// Write guard: for each key `cand` writes, no reader other than `cand`
    /// still expects the value of the recorded last writer. The readers
    /// expected are those of the write-read index not yet emitted.
    fn writes_ok(&self, cand: usize, st: &SearchState) -> (r: bool)
        requires
            self.search_ready(),
            self.search_ok(st),
            cand < self.n_txns(),
        ensures
            self.clobber_free(cand, st.order()) ==> r,
    {
        let row = &self.wr_order_by_txn[cand];
        let mut k: usize = 0;
        while k < row.len()
            invariant
                k <= row@.len(),
                row@ == self.wr_order_by_txn@[cand as int]@,
                self.search_ready(),
                self.search_ok(st),
                cand < self.n_txns(),
            decreases row@.len() - k,
        {
            let x = row[k].0;
            match lookup(&st.lw_keys, x) {
                Some(e) => {
                    let w = st.lw_writers[e];
                    proof {
                        assert(self.last_writer(st.order@, st.lw_keys@[e as int]) == Some(st.lw_writers@[e as int]));
                        let js = self.lemma_last_writer_pos(st.order@, x, w);
                        assert(st.order@[js] < self.n_txns());
                    }
                    match find_key(&self.wr_order_by_txn[w], x) {
                        Some(i2) => {
                            let readers = &self.wr_order_by_txn[w][i2].1;
                            let mut m: usize = 0;
                            while m < readers.len()
                                invariant
                                    m <= readers@.len(),
                                    w < self.n_txns(),
                                    readers@ == self.wr_order_by_txn@[w as int]@[i2 as int].1@,
                                    self.search_ready(),
                                    self.search_ok(st),
                                    cand < self.n_txns(),
                                    i2 < self.wr_order_by_txn@[w as int]@.len(),
                                    self.wr_order_by_txn@[w as int]@[i2 as int].0 == x,
                                    k < row@.len(),
                                    row@[k as int].0 == x,
                                    row@ == self.wr_order_by_txn@[cand as int]@,
                                    self.last_writer(st.order@, x) == Some(w),
                                decreases readers@.len() - m,
                            {
                                let r2 = readers[m];
                                if r2 != cand && (r2 >= st.emitted.len() || !st.emitted[r2]) {
                                    proof {
                                        assert(readers@[m as int] == r2);
                                        assert(readers@.contains(r2));
                                        assert(self.wr_order_by_txn@[w as int]@[i2 as int].1@.contains(r2));
                                        assert(self.reads_from(r2 as int, x, w));
                                        assert(keys_of(row@)[k as int] == x);
                                        assert(keys_of(row@).contains(x));
                                        assert(self.wr_index()[cand as int]@ == row@);
                                        assert(self.writer_of(cand, x));
                                        assert(!st.order@.contains(r2));
                                    }
                                    return false;
                                }
                                m = m + 1;
                            }
                        },
                        None => {},
                    }
                },
                None => {},
            }
            k = k + 1;
        }
        true
    }

    /// Emits `cand`, the next transaction of process `i`: records it as the
    /// last writer of each key it writes and advances the cut.
    fn apply(&self, cand: usize, i: usize, st: &mut SearchState)
        requires
            self.search_ready(),
            self.search_ok(old(st)),
            i < old(st).cut@.len(),
            old(st).cut@[i as int] < self.tuple_to_id@[i as int]@.len(),
            cand == self.tuple_to_id@[i as int]@[old(st).cut@[i as int] as int],
            forall|a: usize| #[trigger] self.vis(a, cand) ==> old(st).order@.contains(a),
            forall|j: int| 0 <= j < self.reads(cand as int).len() ==> self.last_writer(
                old(st).order@,
                (#[trigger] self.reads(cand as int)[j]).0,
            ) == Some(self.reads(cand as int)[j].1),
        ensures
            self.search_ok(final(st)),
            final(st).order@ == old(st).order@.push(cand),
            final(st).cut@ == old(st).cut@.update(i as int, (old(st).cut@[i as int] + 1) as usize),
            final(st).emitted@ == old(st).emitted@.update(cand as int, true),
    {
        let ghost ord0 = st.order@;
        let ghost st0 = *st;
        let ghost k0 = st.cut@[i as int];
        proof {
            let n = self.n_sizes@;
            if i == 0 {
                assert(valid_pos(n, 0, 0));
            } else {
                assert(self.tuple_to_id@[i as int]@.len() == n[i - 1]);
                assert(valid_pos(n, i, k0));
            }
            assert(cand == id_of_pos(n, i, k0));
            lemma_id_in_range(n, i, k0);
        }
        let row = &self.wr_order_by_txn[cand];
        let mut k: usize = 0;
        while k < row.len()
            invariant
                self.ids_wf(),
                self.wr_index_wf(),
                cand < self.n_txns(),
                row@ == self.wr_order_by_txn@[cand as int]@,
                st.order@ == ord0,
                st.cut@ == st0.cut@,
                st.emitted@ == st0.emitted@,
                k <= row@.len(),
                st.lw_writers@.len() == st.lw_keys@.len(),
                forall|x: usize| #[trigger] st0.lw_keys@.contains(x) ==> st.lw_keys@.contains(x),
                forall|k2: int| 0 <= k2 < k ==> st.lw_keys@.contains(#[trigger] keys_of(row@)[k2]),
                st.lw_keys@.no_duplicates(),
                forall|e: int| 0 <= e < st.lw_keys@.len() ==> if keys_of(row@).take(k as int).contains(
                    #[trigger] st.lw_keys@[e],
                ) {
                    st.lw_writers@[e] == cand
                } else {
                    self.last_writer(ord0, st.lw_keys@[e]) == Some(st.lw_writers@[e])
                },
            decreases row@.len() - k,
        {
            let x = row[k].0;
            let ghost keys0 = st.lw_keys@;
            let ghost wr0 = st.lw_writers@;
            proof {
                assert(keys_of(row@).take(k + 1) =~= keys_of(row@).take(k as int).push(x));
            }
            match lookup(&st.lw_keys, x) {
                Some(e) => {
                    st.lw_writers.set(e, cand);
                    assert(st.lw_keys@[e as int] == x);
                    proof {
                        assert forall|e2: int| 0 <= e2 < st.lw_keys@.len() implies if keys_of(row@).take(k + 1).contains(
                            #[trigger] st.lw_keys@[e2],
                        ) {
                            st.lw_writers@[e2] == cand
                        } else {
                            self.last_writer(ord0, st.lw_keys@[e2]) == Some(st.lw_writers@[e2])
                        } by {
                            if e2 != e {
                                assert(st.lw_keys@[e2] != x);
                                assert(keys_of(row@).take(k + 1).contains(st.lw_keys@[e2])
                                    == keys_of(row@).take(k as int).contains(st.lw_keys@[e2]));
                            }
                        }
                    }
                },
                None => {
                    st.lw_keys.push(x);
                    st.lw_writers.push(cand);
                    proof {
                        assert forall|e2: int| 0 <= e2 < st.lw_keys@.len() implies if keys_of(row@).take(k + 1).contains(
                            #[trigger] st.lw_keys@[e2],
                        ) {
                            st.lw_writers@[e2] == cand
                        } else {
                            self.last_writer(ord0, st.lw_keys@[e2]) == Some(st.lw_writers@[e2])
                        } by {
                            if e2 < keys0.len() {
                                assert(st.lw_keys@[e2] == keys0[e2]);
                                assert(keys0.contains(keys0[e2]));
                                assert(st.lw_keys@[e2] != x);
                                assert(keys_of(row@).take(k + 1).contains(st.lw_keys@[e2])
                                    == keys_of(row@).take(k as int).contains(st.lw_keys@[e2]));
                            } else {
                                assert(keys_of(row@).take(k + 1)[k as int] == x);
                            }
                        }
                        lemma_push_no_duplicates(keys0, x);
                    }
                },
            }
            proof {
                assert(keys_of(row@)[k as int] == x);
                assert(st.lw_keys@.contains(x));
                assert forall|k2: int| 0 <= k2 < k + 1 implies st.lw_keys@.contains(#[trigger] keys_of(row@)[k2]) by {
                    if k2 < k {
                        assert(keys0.contains(keys_of(row@)[k2]));
                    }
                }
            }
            k = k + 1;
        }
        st.emitted.set(cand, true);
        st.order.push(cand);
        let c = st.cut[i];
        st.cut.set(i, c + 1);
        proof {
            let ord = st.order@;
            let n = self.n_txns();
            assert(keys_of(row@).take(row@.len() as int) =~= keys_of(row@));
            // the last-writer entries
            assert forall|e: int| 0 <= e < st.lw_keys@.len()
                implies self.last_writer(ord, #[trigger] st.lw_keys@[e]) == Some(st.lw_writers@[e]) by {
                let x = st.lw_keys@[e];
                self.lemma_last_writer_push(ord0, cand, x);
                assert(self.writer_of(cand, x) == keys_of(self.wr_order_by_txn@[cand as int]@).contains(x));
            }
            assert forall|x: usize| #[trigger] self.last_writer(ord, x) is Some implies st.lw_keys@.contains(x) by {
                self.lemma_last_writer_push(ord0, cand, x);
                if self.writer_of(cand, x) {
                    assert(keys_of(self.wr_order_by_txn@[cand as int]@).contains(x));
                    let k2 = choose|k2: int| 0 <= k2 < keys_of(row@).len() && keys_of(row@)[k2] == x;
                    assert(st.lw_keys@.contains(keys_of(row@)[k2]));
                } else {
                    assert(st0.lw_keys@.contains(x));
                }
            }
            // cand was not emitted yet
            assert(self.id_to_tuple@[cand as int] == (i, k0));
            assert(!ord0.contains(cand));
            lemma_push_no_duplicates(ord0, cand);
            assert forall|t: usize| t < n implies (#[trigger] ord.contains(t)
                <==> st.cut@[self.id_to_tuple@[t as int].0 as int] > self.id_to_tuple@[t as int].1) by {
                let pt = self.id_to_tuple@[t as int];
                assert(ord0.contains(t) <==> st0.cut@[pt.0 as int] > pt.1);
                assert(id_of_pos(self.n_sizes@, pt.0, pt.1) == t);
                if pt.0 == i && pt.1 == k0 {
                    assert(t == cand);
                }
                if t == cand {
                    assert(pt == (i, k0));
                }
            }
            assert forall|t: int| 0 <= t < n implies (#[trigger] st.emitted@[t] <==> ord.contains(t as usize)) by {
                assert(st0.emitted@[t] <==> ord0.contains(t as usize));
            }
            assert forall|p: int| 0 <= p < st.cut@.len() implies #[trigger] st.cut@[p] <= self.tuple_to_id@[p]@.len() by {
                assert(st0.cut@[p] <= self.tuple_to_id@[p]@.len());
            }
            // the root comes first
            if ord0.len() == 0 && cand != 0 {
                let pc = self.id_to_tuple@[cand as int];
                assert(valid_pos(self.n_sizes@, pc.0, pc.1));
                assert(id_of_pos(self.n_sizes@, pc.0, pc.1) == cand);
                self.lemma_root_reaches(pc.0, pc.1);
                assert(ord0.contains(0));
            }
            // order respects the closure
            assert forall|i2: int, a: usize| 0 <= i2 < ord.len() && #[trigger] self.vis(a, ord[i2])
                implies ord.take(i2).contains(a) by {
                if i2 < ord0.len() {
                    assert(ord.take(i2) =~= ord0.take(i2));
                    assert(ord[i2] == ord0[i2]);
                } else {
                    assert(ord.take(i2) =~= ord0);
                }
            }
            assert forall|i2: int, j2: int| 0 <= i2 < ord.len() && 0 <= j2 < self.reads(ord[i2] as int).len()
                implies self.last_writer(ord.take(i2), (#[trigger] self.reads(ord[i2] as int)[j2]).0)
                == Some(self.reads(ord[i2] as int)[j2].1) by {
                if i2 < ord0.len() {
                    assert(ord.take(i2) =~= ord0.take(i2));
                    assert(ord[i2] == ord0[i2]);
                } else {
                    assert(ord.take(i2) =~= ord0);
                }
            }
        }
    }

    /// Every process, and the root, is emitted to its end.
    pub closed spec fn full(&self, st: &SearchState) -> bool {
        forall|p: int| 0 <= p < st.cut@.len() ==> #[trigger] st.cut@[p] == self.tuple_to_id@[p]@.len()
    }

    /// Transactions the search has still to emit, counted by the cut.
    pub closed spec fn remaining(&self, st: &SearchState) -> nat {
        self.slack(st.cut@, st.cut@.len())
    }

    /// The search states `a` and `b` agree.
    pub closed spec fn same_search(&self, a: &SearchState, b: &SearchState) -> bool {
        &&& a.order@ == b.order@
        &&& a.cut@ == b.cut@
        &&& a.emitted@ == b.emitted@
        &&& a.lw_keys@ == b.lw_keys@
        &&& a.lw_writers@ == b.lw_writers@
    }

    proof fn lemma_search_ok_same(&self, a: &SearchState, b: &SearchState)
        requires
            self.search_ok(a),
            self.same_search(a, b),
        ensures
            self.search_ok(b),
    {
    }

    /// Every process, and the root, is emitted to its end.
    fn finished(&self, cut: &Vec<usize>) -> (r: bool)
        requires
            cut@.len() == self.tuple_to_id@.len(),
        ensures
            r == forall|p: int| 0 <= p < cut@.len() ==> #[trigger] cut@[p] == self.tuple_to_id@[p]@.len(),
    {
        let mut p: usize = 0;
        while p < cut.len()
            invariant
                p <= cut@.len(),
                cut@.len() == self.tuple_to_id@.len(),
                forall|q: int| 0 <= q < p ==> #[trigger] cut@[q] == self.tuple_to_id@[q]@.len(),
            decreases cut@.len() - p,
        {
            if cut[p] != self.tuple_to_id[p].len() {
                assert(cut@[p as int] != self.tuple_to_id@[p as int]@.len());
                return false;
            }
            p = p + 1;
        }
        true
    }

    /// Where a serialization extends the emitted prefix and the cut is not
    /// full, its next transaction is the next one of some process `p`, and
    /// that transaction passes every check of the search.
    proof fn lemma_next(&self, st: &SearchState, ord: Seq<usize>) -> (p: usize)
        requires
            self.search_ready(),
            self.search_ok(st),
            !self.full(st),
            self.is_serialization(ord),
            st.order@.len() <= ord.len(),
            ord.take(st.order@.len() as int) == st.order@,
        ensures
            st.order@.len() < ord.len(),
            p < st.cut@.len(),
            st.cut@[p as int] < self.tuple_to_id@[p as int]@.len(),
            ord[st.order@.len() as int] == self.tuple_to_id@[p as int]@[st.cut@[p as int] as int],
            forall|a: usize| #[trigger] self.vis(a, ord[st.order@.len() as int])
                ==> a < st.emitted@.len() && st.emitted@[a as int],
            forall|j: int| 0 <= j < self.reads(ord[st.order@.len() as int] as int).len() ==> self.last_writer(
                st.order(),
                (#[trigger] self.reads(ord[st.order@.len() as int] as int)[j]).0,
            ) == Some(self.reads(ord[st.order@.len() as int] as int)[j].1),
            self.clobber_free(ord[st.order@.len() as int], st.order()),
    {
        let m = st.order@.len() as int;
        let n = self.n_txns();
        let sz = self.n_sizes@;
        if m == ord.len() {
            assert(ord =~= st.order@);
            assert forall|q: int| 0 <= q < st.cut@.len() implies #[trigger] st.cut@[q] == self.tuple_to_id@[q]@.len() by {
                let lim = self.tuple_to_id@[q]@.len();
                if lim > 0 {
                    let qq = q as usize;
                    let kk = (lim - 1) as usize;
                    if q > 0 {
                        assert(lim == sz[q - 1]);
                    }
                    assert(valid_pos(sz, qq, kk));
                    lemma_id_in_range(sz, qq, kk);
                    let t = id_of_pos(sz, qq, kk) as usize;
                    assert(self.id_to_tuple@[t as int] == (qq, kk));
                    assert(st.order@.contains(t));
                }
            }
            assert(false);
        }
        let t = ord[m];
        let pt = self.id_to_tuple@[t as int];
        let p = pt.0;
        let k = pt.1;
        assert(valid_pos(sz, p, k));
        assert(id_of_pos(sz, p, k) == t);
        if st.order@.contains(t) {
            let i = choose|i: int| 0 <= i < st.order@.len() && st.order@[i] == t;
            assert(ord[i] == t);
        }
        assert(st.cut@[p as int] <= k);
        if k > 0 {
            let k1 = (k - 1) as usize;
            assert(((k1 + 1) as usize) == k);
            let a = id_of_pos(self.sizes(), p, k1) as usize;
            assert(self.sizes() == sz);
            assert(self.vis(a, id_of_pos(self.sizes(), p, ((k1 + 1) as usize)) as usize));
            assert(self.vis(a, t));
            assert(ord.take(m).contains(a));
            assert(valid_pos(sz, p, k1));
            lemma_id_in_range(sz, p, k1);
            assert(self.id_to_tuple@[a as int] == (p, k1));
        }
        assert(st.cut@[p as int] == k);
        if p > 0 {
            assert(self.tuple_to_id@[p as int]@.len() == sz[p - 1]);
        }
        assert forall|a: usize| #[trigger] self.vis(a, t) implies a < st.emitted@.len() && st.emitted@[a as int] by {
            assert(ord.take(m).contains(a));
            let i = choose|i: int| 0 <= i < m && ord.take(m)[i] == a;
            assert(ord[i] == a);
        }
        assert forall|j: int| 0 <= j < self.reads(t as int).len() implies self.last_writer(
            st.order(),
            (#[trigger] self.reads(t as int)[j]).0,
        ) == Some(self.reads(t as int)[j].1) by {
        }
        assert forall|x: usize, w: usize, r2: usize|
            self.writer_of(t, x) && self.last_writer(st.order@, x) == Some(w)
                && #[trigger] self.reads_from(r2 as int, x, w) && !st.order@.contains(r2) implies r2 == t by {
            if r2 != t {
                assert(r2 < n);
                assert(ord.contains(r2));
                let ir = choose|i: int| 0 <= i < ord.len() && ord[i] == r2;
                if ir < m {
                    assert(ord.take(m)[ir] == r2);
                }
                assert(ir > m);
                let j = choose|j: int| 0 <= j < self.txns@[r2 as int].0@.len() && #[trigger] self.txns@[r2 as int].0@[j] == (x, w);
                assert(self.reads(ord[ir] as int)[j] == (x, w));
                let js = self.lemma_last_writer_pos(ord.take(ir), x, w);
                let jw = self.lemma_last_writer_pos(st.order@, x, w);
                assert(ord[jw] == w);
                assert(ord.take(ir)[js] == w);
                assert(js == jw);
                assert(ord.take(ir)[m] == t);
            }
        }
        p
    }

    /// Depth-first search for a serialization extending the current state:
    /// tries each process's next transaction in turn, emits it where it is
    /// eligible and passes both guards, and backtracks on failure. It fails
    /// only where no serialization extends the transactions emitted so far;
    /// then the state is as it was.
    pub fn _serializable_order_dfs(&self, st: &mut SearchState) -> (r: bool)
        requires
            self.search_ready(),
            self.search_ok(old(st)),
        ensures
            self.search_ok(final(st)),
            r ==> self.is_serialization(final(st).order()),
            r ==> old(st).order().len() <= final(st).order().len()
                && final(st).order().take(old(st).order().len() as int) == old(st).order(),
            self.full(old(st)) ==> r && *final(st) == *old(st),
            !r ==> self.same_search(final(st), old(st)),
            !r ==> forall|ord: Seq<usize>| #[trigger] self.is_serialization(ord)
                && old(st).order().len() <= ord.len()
                ==> ord.take(old(st).order().len() as int) != old(st).order(),
        decreases self.remaining(old(st)),
    {
        let ghost st0 = *st;
        if self.finished(&st.cut) {
            proof {
                let ord = st.order@;
                let n = self.n_txns();
                assert forall|t: usize| t < n implies ord.contains(t) by {
                    let pt = self.id_to_tuple@[t as int];
                    assert(valid_pos(self.n_sizes@, pt.0, pt.1));
                    if pt.0 > 0 {
                        assert(self.tuple_to_id@[pt.0 as int]@.len() == self.n_sizes@[pt.0 - 1]);
                    }
                    assert(st.cut@[pt.0 as int] == self.tuple_to_id@[pt.0 as int]@.len());
                }
                assert(ord.contains(0));
                assert(ord.take(ord.len() as int) =~= ord);
            }
            return true;
        }
        let np = st.cut.len();
        let mut i: usize = 0;
        while i < np
            invariant
                st0 == *old(st),
                !self.full(&st0),
                self.search_ready(),
                self.search_ok(st),
                self.same_search(st, &st0),
                self.search_ok(&st0),
                np == st.cut@.len(),
                i <= np,
                forall|ord: Seq<usize>| #[trigger] self.is_serialization(ord)
                    && st0.order@.len() <= ord.len() && ord.take(st0.order@.len() as int) == st0.order@
                    ==> self.id_to_tuple@[ord[st0.order@.len() as int] as int].0 >= i,
            decreases np - i,
        {
            let k = st.cut[i];
            if k < self.tuple_to_id[i].len() {
                let cand = self.tuple_to_id[i][k];
                proof {
                    if i == 0 {
                        assert(valid_pos(self.n_sizes@, 0, 0));
                    } else {
                        assert(self.tuple_to_id@[i as int]@.len() == self.n_sizes@[i - 1]);
                        assert(valid_pos(self.n_sizes@, i, k));
                    }
                    assert(self.id_to_tuple@[cand as int] == (i, k));
                    lemma_id_in_range(self.n_sizes@, i, k);
                }
                let e = self.eligible(cand, &st.emitted);
                let rd = self.reads_ok(cand, st);
                let wr = self.writes_ok(cand, st);
                let ghost mut after_st = *st;
                if e && rd && wr {
                    let keys0 = st.lw_keys.clone();
                    let writers0 = st.lw_writers.clone();
                    let ghost pre = *st;
                    proof {
                        assert forall|a: usize| #[trigger] self.vis(a, cand) implies st.order@.contains(a) by {
                            assert(st.emitted@[a as int]);
                        }
                        assert(keys0@ =~= st.lw_keys@);
                        assert(writers0@ =~= st.lw_writers@);
                    }
                    self.apply(cand, i, st);
                    proof {
                        assert(pre.cut@ == st0.cut@);
                        assert(pre.cut@[i as int] == k);
                        self.lemma_slack_step(pre.cut@, i as int, pre.cut@.len());
                        assert(st.cut@ == pre.cut@.update(i as int, (k + 1) as usize));
                        assert(self.remaining(st) == self.slack(st.cut@, pre.cut@.len()));
                        assert(self.remaining(&st0) == self.slack(pre.cut@, pre.cut@.len()));
                    }
                    let ghost after = *st;
                    proof {
                        after_st = after;
                    }
                    if self._serializable_order_dfs(st) {
                        proof {
                            assert(after.order@ == st0.order@.push(cand));
                            assert(st.order@.take(after.order@.len() as int) == after.order@);
                            assert(st.order@.take(st0.order@.len() as int)
                                =~= after.order@.take(st0.order@.len() as int));
                        }
                        return true;
                    }
                    proof {
                        assert(after.order@ == st0.order@.push(cand));
                    }
                    st.lw_keys = keys0;
                    st.lw_writers = writers0;
                    st.emitted.set(cand, false);
                    st.order.pop();
                    st.cut.set(i, k);
                    proof {
                        assert(!pre.order@.contains(cand));
                        assert(st.order@ =~= pre.order@);
                        assert(st.cut@ =~= pre.cut@);
                        assert(st.emitted@ =~= pre.emitted@);
                        self.lemma_search_ok_same(&pre, st);
                    }
                }
                proof {
                    assert forall|ord: Seq<usize>| #[trigger] self.is_serialization(ord)
                        && st0.order@.len() <= ord.len() && ord.take(st0.order@.len() as int) == st0.order@
                        implies self.id_to_tuple@[ord[st0.order@.len() as int] as int].0 >= i + 1 by {
                        let m = st0.order@.len() as int;
                        let p = self.lemma_next(&st0, ord);
                        assert(self.id_to_tuple@[ord[m] as int] == (p, st0.cut@[p as int]));
                        if p == i {
                            assert(ord[m] == cand);
                            assert(ord.take(m + 1) =~= st0.order@.push(cand));
                            assert(e && rd && wr);
                            assert(after_st.order@ == st0.order@.push(cand));
                        }
                    }
                }
            } else {
                proof {
                    assert forall|ord: Seq<usize>| #[trigger] self.is_serialization(ord)
                        && st0.order@.len() <= ord.len() && ord.take(st0.order@.len() as int) == st0.order@
                        implies self.id_to_tuple@[ord[st0.order@.len() as int] as int].0 >= i + 1 by {
                        let m = st0.order@.len() as int;
                        let p = self.lemma_next(&st0, ord);
                        let t = ord[m];
                        let pt = self.id_to_tuple@[t as int];
                        assert(valid_pos(self.n_sizes@, pt.0, pt.1));
                        assert(id_of_pos(self.n_sizes@, pt.0, pt.1) == t);
                        if pt.0 > 0 {
                            assert(self.tuple_to_id@[pt.0 as int]@.len() == self.n_sizes@[pt.0 - 1]);
                        }
                        assert(self.tuple_to_id@[p as int]@[st0.cut@[p as int] as int]
                            == id_of_pos(self.n_sizes@, p, st0.cut@[p as int]));
                    }
                }
            }
            i = i + 1;
        }
        proof {
            assert forall|ord: Seq<usize>| #[trigger] self.is_serialization(ord)
                && st0.order@.len() <= ord.len()
                implies ord.take(st0.order@.len() as int) != st0.order@ by {
                if ord.take(st0.order@.len() as int) == st0.order@ {
                    let p = self.lemma_next(&st0, ord);
                }
            }
        }
        false
    }

    /// Searches for a serialization of the saturated history and returns it
    /// as transaction ids, the root first; `None` only where there is none.
    pub fn serialization_ids(&self) -> (r: Option<Vec<usize>>)
        requires
            self.search_ready(),
        ensures
            match r {
                Some(ord) => self.is_serialization(ord@),
                None => forall|ord: Seq<usize>| !#[trigger] self.is_serialization(ord),
            },
    {
        let np = self.tuple_to_id.len();
        let n = self.txns.len();
        let mut cut: Vec<usize> = Vec::new();
        while cut.len() < np
            invariant
                cut@.len() <= np,
                forall|p: int| 0 <= p < cut@.len() ==> #[trigger] cut@[p] == 0,
            decreases np - cut@.len(),
        {
            cut.push(0);
        }
        let mut emitted: Vec<bool> = Vec::new();
        while emitted.len() < n
            invariant
                emitted@.len() <= n,
                forall|t: int| 0 <= t < emitted@.len() ==> !#[trigger] emitted@[t],
            decreases n - emitted@.len(),
        {
            emitted.push(false);
        }
        let mut st = SearchState {
            cut,
            emitted,
            lw_keys: Vec::new(),
            lw_writers: Vec::new(),
            order: Vec::new(),
        };
        proof {
            assert forall|t: usize| t < n implies (#[trigger] st.order@.contains(t)
                <==> st.cut@[self.id_to_tuple@[t as int].0 as int] > self.id_to_tuple@[t as int].1) by {
                let pt = self.id_to_tuple@[t as int];
                assert(valid_pos(self.n_sizes@, pt.0, pt.1));
            }
            assert forall|x: usize| #[trigger] self.last_writer(st.order@, x) is Some implies st.lw_keys@.contains(x) by {
            }
        }
        if self._serializable_order_dfs(&mut st) {
            Some(st.order)
        } else {
            proof {
                assert forall|ord: Seq<usize>| !#[trigger] self.is_serialization(ord) by {
                    if self.is_serialization(ord) {
                        assert(ord.take(0) =~= Seq::<usize>::empty());
                    }
                }
            }
            None
        }
    }

    /// Searches for a serialization and returns the process of each of its
    /// transactions in order, the root left out.
    pub fn serializable_order_dfs(&self) -> (r: Option<Vec<usize>>)
        requires
            self.search_ready(),
        ensures
            match r {
                Some(l) => {
                    &&& exists|ord: Seq<usize>| self.is_serialization(ord) && l@ == self.processes_of(ord)
                    &&& forall|i: int| 0 <= i < l@.len() ==> 1 <= #[trigger] l@[i] <= self.sizes().len()
                },
                None => forall|ord: Seq<usize>| !#[trigger] self.is_serialization(ord),
            },
    {
        match self.serialization_ids() {
            Some(ord) => {
                let mut l: Vec<usize> = Vec::new();
                let mut k: usize = 1;
                while k < ord.len()
                    invariant
                        self.ids_wf(),
                        self.is_serialization(ord@),
                        1 <= k <= ord@.len(),
                        l@ == ord@.drop_first().take(k - 1).map_values(|t: usize| self.pos_of(t as int).0),
                    decreases ord@.len() - k,
                {
                    let t = ord[k];
                    let p = self.id_to_tuple[t].0;
                    proof {
                        assert(ord@.drop_first().take(k as int) =~= ord@.drop_first().take(k - 1).push(t));
                    }
                    l.push(p);
                    k = k + 1;
                }
                proof {
                    assert(ord@.drop_first().take(ord@.len() - 1) =~= ord@.drop_first());
                    assert forall|i: int| 0 <= i < l@.len() implies 1 <= #[trigger] l@[i] <= self.sizes().len() by {
                        let t = ord@[i + 1];
                        let pt = self.id_to_tuple@[t as int];
                        assert(l@[i] == pt.0);
                        assert(valid_pos(self.n_sizes@, pt.0, pt.1));
                        assert(id_of_pos(self.n_sizes@, pt.0, pt.1) == t);
                        assert(ord@[0] == 0);
                        assert(t != 0);
                    }
                }
                Some(l)
            },
            None => None,
        }
    }

    /// Whether `u -> v` is in the visibility closure.
    pub fn visible(&self, u: usize, v: usize) -> (r: bool)
        requires
            self.closure_wf(),
        ensures
            r == self.vis(u, v),
    {
        self.vis_closure.contains(u, v)
    }

    /// Number of transactions, the root included.
    pub fn txn_count(&self) -> (r: usize)
        requires
            self.ids_wf(),
        ensures
            r == self.n_txns(),
    {
        self.id_to_tuple.len()
    }

    /// Builds the transaction index of a history: ids are given to the root
    /// and then to each process's transactions in order, reads are recorded
    /// by id, and the root writes exactly the keys read from it.
    pub fn new(n_sizes: &Vec<usize>, txns_info: &Vec<TxnInfo>) -> (r: Self)
        requires
            well_formed_input(n_sizes@, txns_info@),
            n_sizes@.len() < usize::MAX,
        ensures
            r.ids_wf(),
            r.sizes() == n_sizes@,
            r.n_txns() == 1 + total(n_sizes@),
            forall|p: usize, k: usize| #[trigger] valid_pos(n_sizes@, p, k)
                ==> r.pos_of(id_of_pos(n_sizes@, p, k) as int) == (p, k),
            forall|i: int| 0 <= i < txns_info@.len() ==> {
                let e = #[trigger] txns_info@[i];
                let t = id_of_pos(n_sizes@, e.pos.0, e.pos.1) as int;
                &&& r.reads(t) == mapped_reads(n_sizes@, e.reads@)
                &&& r.writes(t) == e.writes@
            },
            forall|t: int| 0 < t < r.n_txns() && !(exists|i: int| 0 <= i < txns_info@.len()
                && id_of_pos(n_sizes@, (#[trigger] txns_info@[i]).pos.0, txns_info@[i].pos.1) == t)
                ==> r.reads(t).len() == 0 && r.writes(t).len() == 0,
            r.reads(0).len() == 0,
            r.writes(0).no_duplicates(),
            forall|x: usize| r.writes(0).contains(x) <==> read_from_root(txns_info@, x),
            forall|u: usize, v: usize| !r.vis(u, v),
            r.closure_wf(),
            r.wr_index().len() == 0,
            r.root() == 0,
            r.pos_of(0) == (0usize, 0usize),
    {
        let ids = build_ids(n_sizes);
        let tuple_to_id = ids.0;
        let id_to_tuple = ids.1;
        let n = id_to_tuple.len();
        let mut txns: Vec<(Vec<(usize, usize)>, Vec<usize>)> = Vec::new();
        while txns.len() < n
            invariant
                txns@.len() <= n,
                forall|t: int| 0 <= t < txns@.len() ==> (#[trigger] txns@[t]).0@.len() == 0
                    && txns@[t].1@.len() == 0,
            decreases n - txns@.len(),
        {
            txns.push((Vec::new(), Vec::new()));
        }
        let mut root_writes: Vec<usize> = Vec::new();
        let mut i: usize = 0;
        while i < txns_info.len()
            invariant
                well_formed_input(n_sizes@, txns_info@),
                i <= txns_info@.len(),
                n == id_to_tuple@.len(),
                txns@.len() == n,
                n == 1 + total(n_sizes@),
                id_tables(n_sizes@, tuple_to_id@, id_to_tuple@),
                forall|t: int, j: int| 0 <= t < txns@.len() && 0 <= j < txns@[t].0@.len()
                    ==> (#[trigger] txns@[t].0@[j]).1 < n,
                forall|i2: int| 0 <= i2 < i ==> {
                    let e = #[trigger] txns_info@[i2];
                    let t = id_of_pos(n_sizes@, e.pos.0, e.pos.1) as int;
                    &&& txns@[t].0@ == mapped_reads(n_sizes@, e.reads@)
                    &&& txns@[t].1@ == e.writes@
                },
                forall|t: int| 0 <= t < n && !(exists|i2: int| 0 <= i2 < i
                    && id_of_pos(n_sizes@, (#[trigger] txns_info@[i2]).pos.0, txns_info@[i2].pos.1) == t)
                    ==> txns@[t].0@.len() == 0 && txns@[t].1@.len() == 0,
                root_writes@.no_duplicates(),
                forall|x: usize| root_writes@.contains(x) <==> exists|i2: int, j: int|
                    0 <= i2 < i && 0 <= j < txns_info@[i2].reads@.len()
                        && #[trigger] txns_info@[i2].reads@[j] == (x, (0usize, 0usize)),
            decreases txns_info@.len() - i,
        {
            let e = &txns_info[i];
            assert(1 <= e.pos.0 && valid_pos(n_sizes@, e.pos.0, e.pos.1));
            assert(tuple_to_id@[e.pos.0 as int]@.len() == n_sizes@[e.pos.0 - 1]);
            let t = tuple_to_id[e.pos.0][e.pos.1];
            proof {
                lemma_id_in_range(n_sizes@, e.pos.0, e.pos.1);
            }
            let mut rd: Vec<(usize, usize)> = Vec::new();
            let mut j: usize = 0;
            while j < e.reads.len()
                invariant
                    well_formed_input(n_sizes@, txns_info@),
                    i < txns_info@.len(),
                    e == txns_info@[i as int],
                    j <= e.reads@.len(),
                    n == 1 + total(n_sizes@),
                    id_tables(n_sizes@, tuple_to_id@, id_to_tuple@),
                    rd@ == mapped_reads(n_sizes@, e.reads@.take(j as int)),
                    forall|k: int| 0 <= k < rd@.len() ==> (#[trigger] rd@[k]).1 < n,
                    root_writes@.no_duplicates(),
                    forall|x: usize| root_writes@.contains(x) <==> (exists|i2: int, j2: int|
                        0 <= i2 < i && 0 <= j2 < txns_info@[i2].reads@.len()
                            && #[trigger] txns_info@[i2].reads@[j2] == (x, (0usize, 0usize)))
                        || (exists|j2: int| 0 <= j2 < j && e.reads@[j2] == (x, (0usize, 0usize))),
                decreases e.reads@.len() - j,
            {
                let (x, src) = e.reads[j];
                assert(valid_pos(n_sizes@, e.reads@[j as int].1.0, e.reads@[j as int].1.1));
                if src.0 > 0 {
                    assert(tuple_to_id@[src.0 as int]@.len() == n_sizes@[src.0 - 1]);
                }
                let s = tuple_to_id[src.0][src.1];
                proof {
                    lemma_id_in_range(n_sizes@, src.0, src.1);
                    assert(e.reads@.take(j + 1) == e.reads@.take(j as int).push(e.reads@[j as int]));
                }
                rd.push((x, s));
                let ghost rw0 = root_writes@;
                assert(s == id_of_pos(n_sizes@, src.0, src.1));
                if s == 0 {
                    let mut found = false;
                    let mut k: usize = 0;
                    while k < root_writes.len()
                        invariant
                            k <= root_writes@.len(),
                            found == (exists|k2: int| 0 <= k2 < k && root_writes@[k2] == x),
                        decreases root_writes@.len() - k,
                    {
                        if root_writes[k] == x {
                            found = true;
                        }
                        k = k + 1;
                    }
                    if !found {
                        proof {
                            vstd::seq_lib::lemma_seq_contains_after_push(root_writes@, x, x);
                        }
                        root_writes.push(x);
                    } else {
                        let ghost k2 = choose|k2: int| 0 <= k2 < k && root_writes@[k2] == x;
                        assert(rw0.contains(root_writes@[k2]));
                    }
                }
                assert forall|x2: usize| root_writes@.contains(x2) == (rw0.contains(x2) || (s == 0 && x2 == x)) by {
                    if s == 0 && x2 == x && root_writes@.len() > rw0.len() {
                        assert(root_writes@[rw0.len() as int] == x);
                    }
                }
                proof {
                    assert forall|x2: usize| root_writes@.contains(x2) <==> (exists|i2: int, j2: int|
                        0 <= i2 < i && 0 <= j2 < txns_info@[i2].reads@.len()
                            && #[trigger] txns_info@[i2].reads@[j2] == (x2, (0usize, 0usize)))
                        || (exists|j2: int| 0 <= j2 < j + 1 && e.reads@[j2] == (x2, (0usize, 0usize))) by {
                        if s == 0 {
                            assert(id_of_pos(n_sizes@, src.0, src.1) == 0);
                            if src.0 != 0 {
                                assert(id_of_pos(n_sizes@, src.0, src.1) >= 1);
                            }
                        }
                        if src == (0usize, 0usize) {
                            assert(s == 0);
                        }
                        if exists|j2: int| 0 <= j2 < j + 1 && e.reads@[j2] == (x2, (0usize, 0usize)) {
                            let j2 = choose|j2: int| 0 <= j2 < j + 1 && e.reads@[j2] == (x2, (0usize, 0usize));
                            if j2 == j {
                                assert(x2 == x);
                            }
                        }
                        if x2 == x && s == 0 {
                            assert(e.reads@[j as int] == (x2, (0usize, 0usize)));
                        }
                    }
                }
                j = j + 1;
            }
            proof {
                assert(e.reads@.take(e.reads@.len() as int) == e.reads@);
            }
            let ghost pre = txns@;
            txns.set(t, (rd, e.writes.clone()));
            proof {
                assert(txns@[t as int].1@ == e.writes@);
                assert forall|i2: int| 0 <= i2 < i + 1 implies {
                    let e2 = #[trigger] txns_info@[i2];
                    let t2 = id_of_pos(n_sizes@, e2.pos.0, e2.pos.1) as int;
                    &&& txns@[t2].0@ == mapped_reads(n_sizes@, e2.reads@)
                    &&& txns@[t2].1@ == e2.writes@
                } by {
                    let e2 = txns_info@[i2];
                    let t2 = id_of_pos(n_sizes@, e2.pos.0, e2.pos.1) as int;
                    lemma_id_in_range(n_sizes@, e2.pos.0, e2.pos.1);
                    if i2 < i {
                        assert(e2.pos != e.pos);
                        assert(t2 != t);
                        assert(txns@[t2] == pre[t2]);
                        assert(id_to_tuple@[id_of_pos(n_sizes@, e2.pos.0, e2.pos.1) as int] == e2.pos);
                        assert(id_to_tuple@[id_of_pos(n_sizes@, e.pos.0, e.pos.1) as int] == e.pos);
                    }
                }
                assert forall|x2: usize| root_writes@.contains(x2) <==> exists|i2: int, j: int|
                    0 <= i2 < i + 1 && 0 <= j < txns_info@[i2].reads@.len()
                        && #[trigger] txns_info@[i2].reads@[j] == (x2, (0usize, 0usize)) by {
                    if exists|i2: int, j: int| 0 <= i2 < i + 1 && 0 <= j < txns_info@[i2].reads@.len()
                        && #[trigger] txns_info@[i2].reads@[j] == (x2, (0usize, 0usize)) {
                        let (i2, j2) = choose|i2: int, j: int| 0 <= i2 < i + 1 && 0 <= j < txns_info@[i2].reads@.len()
                            && #[trigger] txns_info@[i2].reads@[j] == (x2, (0usize, 0usize));
                        if i2 == i {
                            assert(e.reads@[j2] == (x2, (0usize, 0usize)));
                        }
                    }
                }
            }
            i = i + 1;
        }
        let ghost before_root = txns@;
        txns.set(0, (Vec::new(), root_writes));
        let r = Chains {
            n_sizes: n_sizes.clone(),
            root_txn_id: 0,
            txns,
            tuple_to_id,
            id_to_tuple,
            wr_order_by_txn: Vec::new(),
            vis_closure: EdgeClosure::new(),
        };
        proof {
            assert(r.n_sizes@ == n_sizes@);
            assert forall|i2: int| 0 <= i2 < txns_info@.len() implies {
                let e = #[trigger] txns_info@[i2];
                let t = id_of_pos(n_sizes@, e.pos.0, e.pos.1) as int;
                &&& r.reads(t) == mapped_reads(n_sizes@, e.reads@)
                &&& r.writes(t) == e.writes@
            } by {
                let e = txns_info@[i2];
                assert(id_of_pos(n_sizes@, e.pos.0, e.pos.1) >= 1);
                lemma_id_in_range(n_sizes@, e.pos.0, e.pos.1);
                assert(txns@[id_of_pos(n_sizes@, e.pos.0, e.pos.1) as int] == before_root[id_of_pos(n_sizes@, e.pos.0, e.pos.1) as int]);
            }
        }
        r
    }
}


/// Decides whether the history is serializable: builds its index, saturates
/// its visibility closure, and searches for an order. Returns the process of
/// each transaction in the order found, or `None` where the history is found
/// infeasible.
pub fn check(n_sizes: &Vec<usize>, txns_info: &Vec<TxnInfo>) -> (r: Option<Vec<usize>>)
    requires
        well_formed_input(n_sizes@, txns_info@),
        n_sizes@.len() < usize::MAX,
    ensures
        match r {
            Some(l) => exists|c: Chains, ord: Seq<usize>| {
                &&& c.describes(n_sizes@, txns_info@)
                &&& c.closure_wf() && c.seeded() && c.saturated() && c.closure().acyclic()
                &&& c.is_serialization(ord)
                &&& c.history_order(ord)
                &&& l@ == c.processes_of(ord)
            },
            None => exists|c: Chains| {
                &&& c.describes(n_sizes@, txns_info@)
                &&& forall|ord: Seq<usize>| !#[trigger] c.history_order(ord)
            },
        },
{
    let mut c = Chains::new(n_sizes, txns_info);
    let ghost c0 = c;
    if !c.preprocess() {
        proof {
            c.lemma_same_history(&c0);
            assert(c.describes(n_sizes@, txns_info@));
            assert forall|ord: Seq<usize>| !#[trigger] c.history_order(ord) by {
                assert forall|a: usize, b: usize| #[trigger] c0.closure().has(a, b) implies before_in(ord)(a, b) by {
                    assert(!c0.vis(a, b));
                }
            }
        }
        return None;
    }
    proof {
        c.lemma_same_history(&c0);
        assert(c.describes(n_sizes@, txns_info@));
    }
    match c.serializable_order_dfs() {
        Some(l) => {
            proof {
                let ord = choose|ord: Seq<usize>| c.is_serialization(ord) && l@ == c.processes_of(ord);
                c.lemma_serialization_is_history_order(ord);
                assert(c.describes(n_sizes@, txns_info@) && c.closure_wf() && c.seeded() && c.saturated()
                    && c.closure().acyclic() && c.is_serialization(ord) && c.history_order(ord)
                    && l@ == c.processes_of(ord));
            }
            Some(l)
        },
        None => {
            proof {
                assert forall|ord: Seq<usize>| !#[trigger] c.history_order(ord) by {
                    if c.history_order(ord) {
                        c.lemma_history_order_rel(ord);
                        lemma_seeds_within_same(&c, &c0, before_in(ord));
                        lemma_rules_closed_same(&c, &c0, before_in(ord));
                        assert forall|a: usize, b: usize| #[trigger] c0.closure().has(a, b) implies before_in(ord)(a, b) by {
                            assert(!c0.vis(a, b));
                        }
                        assert(c.closure().within(before_in(ord)));
                        c.lemma_history_order_is_serialization(ord);
                    }
                }
            }
            None
        },
    }
}

} // verus!
