use vstd::prelude::*;

verus! {

/// What one transaction observed: its position `(process, index)`, each read
/// as `(key, position of the transaction it read from)`, and the keys it wrote.
/// Processes are numbered from 1; position `(0, 0)` is the root.
pub struct TxnInfo {
    pub pos: (usize, usize),
    pub reads: Vec<(usize, (usize, usize))>,
    pub writes: Vec<usize>,
}

/// Sum of the process sizes.
pub open spec fn total(n_sizes: Seq<usize>) -> nat
    decreases n_sizes.len(),
{
    if n_sizes.len() == 0 {
        0
    } else {
        (total(n_sizes.drop_last()) + n_sizes.last()) as nat
    }
}

/// A position that names a transaction: the root, or `(p, k)` with `k`
/// below the size of process `p`.
pub open spec fn valid_pos(n_sizes: Seq<usize>, p: usize, k: usize) -> bool {
    (p == 0 && k == 0) || (1 <= p <= n_sizes.len() && k < n_sizes[p - 1])
}

/// The id given to position `(p, k)`: the root is 0, then the processes in
/// turn, each in index order.
pub open spec fn id_of_pos(n_sizes: Seq<usize>, p: usize, k: usize) -> nat {
    if p == 0 {
        0
    } else {
        (1 + total(n_sizes.take(p - 1)) + k) as nat
    }
}

pub open spec fn keys_unique(reads: Seq<(usize, (usize, usize))>) -> bool {
    forall|i: int, j: int| 0 <= i < j < reads.len() ==> reads[i].0 != reads[j].0
}

/// The input describes a history: every position named is valid, no
/// position is described twice, and no key is read twice or written twice
/// by one transaction.
pub open spec fn well_formed_input(n_sizes: Seq<usize>, txns_info: Seq<TxnInfo>) -> bool {
    &&& total(n_sizes) + 1 < usize::MAX
    &&& forall|i: int| 0 <= i < txns_info.len() ==> {
        let e = #[trigger] txns_info[i];
        &&& 1 <= e.pos.0 && valid_pos(n_sizes, e.pos.0, e.pos.1)
        &&& keys_unique(e.reads@)
        &&& e.writes@.no_duplicates()
        &&& forall|j: int| 0 <= j < e.reads@.len()
                ==> valid_pos(n_sizes, (#[trigger] e.reads@[j]).1.0, e.reads@[j].1.1)
    }
    &&& forall|i: int, j: int| 0 <= i < j < txns_info.len()
            ==> txns_info[i].pos != txns_info[j].pos
}

proof fn lemma_total_take_step(s: Seq<usize>, p: int)
    requires
        0 <= p < s.len(),
    ensures
        total(s.take(p + 1)) == total(s.take(p)) + s[p],
{
    assert(s.take(p + 1).drop_last() =~= s.take(p));
}

proof fn lemma_total_take_mono(s: Seq<usize>, p: int, q: int)
    requires
        0 <= p <= q <= s.len(),
    ensures
        total(s.take(p)) <= total(s.take(q)),
    decreases q - p,
{
    if p < q {
        lemma_total_take_step(s, q - 1);
        lemma_total_take_mono(s, p, q - 1);
    }
}

proof fn lemma_total_take_all(s: Seq<usize>)
    ensures
        total(s.take(s.len() as int)) == total(s),
{
    assert(s.take(s.len() as int) =~= s);
}

proof fn lemma_id_below(n_sizes: Seq<usize>, q: usize, k: usize, p: int)
    requires
        valid_pos(n_sizes, q, k),
        q <= p <= n_sizes.len(),
    ensures
        id_of_pos(n_sizes, q, k) < 1 + total(n_sizes.take(p)),
{
    if q != 0 {
        lemma_total_take_step(n_sizes, q - 1);
        lemma_total_take_mono(n_sizes, q as int, p);
    }
}

/// Ids are dense: distinct valid positions get distinct ids below `1 + total`.
pub proof fn lemma_id_in_range(n_sizes: Seq<usize>, p: usize, k: usize)
    requires
        valid_pos(n_sizes, p, k),
    ensures
        id_of_pos(n_sizes, p, k) < 1 + total(n_sizes),
{
    if p != 0 {
        lemma_total_take_step(n_sizes, p - 1);
        lemma_total_take_mono(n_sizes, p as int, n_sizes.len() as int);
        lemma_total_take_all(n_sizes);
    }
}

/// `t2i[p][k]` is the id of `(p, k)` and `i2t[t]` the position of `t`, for
/// every valid position and every id.
pub open spec fn id_tables(n_sizes: Seq<usize>, t2i: Seq<Vec<usize>>, i2t: Seq<(usize, usize)>) -> bool {
    &&& t2i.len() == n_sizes.len() + 1
    &&& i2t.len() == 1 + total(n_sizes)
    &&& t2i[0]@.len() == 1
    &&& forall|p: int| 0 < p < t2i.len() ==> (#[trigger] t2i[p])@.len() == n_sizes[p - 1]
    &&& forall|p: usize, k: usize| valid_pos(n_sizes, p, k)
            ==> (#[trigger] t2i[p as int]@[k as int]) == id_of_pos(n_sizes, p, k)
    &&& forall|p: usize, k: usize| valid_pos(n_sizes, p, k)
            ==> i2t[#[trigger] id_of_pos(n_sizes, p, k) as int] == (p, k)
    &&& forall|t: int| 0 <= t < i2t.len() ==> {
        &&& valid_pos(n_sizes, (#[trigger] i2t[t]).0, i2t[t].1)
        &&& id_of_pos(n_sizes, i2t[t].0, i2t[t].1) == t
    }
}

/// Builds the id tables: `tuple_to_id[p][k]` is the id of `(p, k)` and
/// `id_to_tuple[t]` the position of `t`.
pub fn build_ids(n_sizes: &Vec<usize>) -> (r: (Vec<Vec<usize>>, Vec<(usize, usize)>))
    requires
        total(n_sizes@) + 1 < usize::MAX,
        n_sizes@.len() < usize::MAX,
    ensures
        id_tables(n_sizes@, r.0@, r.1@),
{
    let mut tuple_to_id: Vec<Vec<usize>> = Vec::new();
    let mut id_to_tuple: Vec<(usize, usize)> = Vec::new();
    let mut root: Vec<usize> = Vec::new();
    root.push(0);
    tuple_to_id.push(root);
    id_to_tuple.push((0, 0));
    let mut p: usize = 0;
    while p < n_sizes.len()
        invariant
            p <= n_sizes@.len(),
            n_sizes@.len() < usize::MAX,
            total(n_sizes@) + 1 < usize::MAX,
            tuple_to_id@.len() == p + 1,
            id_to_tuple@.len() == 1 + total(n_sizes@.take(p as int)),
            tuple_to_id@[0]@ == seq![0usize],
            forall|q: int| 0 < q < tuple_to_id@.len() ==> (#[trigger] tuple_to_id@[q])@.len() == n_sizes@[q - 1],
            forall|q: usize, k: usize| q <= p && valid_pos(n_sizes@, q, k)
                ==> (#[trigger] tuple_to_id@[q as int]@[k as int]) == id_of_pos(n_sizes@, q, k),
            forall|q: usize, k: usize| q <= p && valid_pos(n_sizes@, q, k)
                ==> id_to_tuple@[#[trigger] id_of_pos(n_sizes@, q, k) as int] == (q, k),
            forall|t: int| 0 <= t < id_to_tuple@.len() ==> {
                &&& valid_pos(n_sizes@, (#[trigger] id_to_tuple@[t]).0, id_to_tuple@[t].1)
                &&& id_to_tuple@[t].0 <= p
                &&& id_of_pos(n_sizes@, id_to_tuple@[t].0, id_to_tuple@[t].1) == t
            },
        decreases n_sizes@.len() - p,
    {
        let size = n_sizes[p];
        proof {
            lemma_total_take_step(n_sizes@, p as int);
            lemma_total_take_mono(n_sizes@, p as int + 1, n_sizes@.len() as int);
            lemma_total_take_all(n_sizes@);
        }
        let ghost base = id_to_tuple@.len();
        let ghost prefix = id_to_tuple@;
        let mut row: Vec<usize> = Vec::new();
        let mut k: usize = 0;
        while k < size
            invariant
                k <= size,
                size == n_sizes@[p as int],
                p < n_sizes@.len(),
                n_sizes@.len() < usize::MAX,
                base == 1 + total(n_sizes@.take(p as int)),
                base + size < usize::MAX,
                row@.len() == k,
                id_to_tuple@.len() == base + k,
                tuple_to_id@.len() == p + 1,
                forall|j: int| 0 <= j < k ==> (#[trigger] row@[j]) == base + j,
                forall|j: int| 0 <= j < k ==> (#[trigger] id_to_tuple@[base + j]) == (
                    (p + 1) as usize,
                    j as usize,
                ),
                forall|t: int| 0 <= t < base ==> #[trigger] id_to_tuple@[t] == prefix[t],
            decreases size - k,
        {
            row.push(id_to_tuple.len());
            id_to_tuple.push((p + 1, k));
            k = k + 1;
        }
        let ghost old_t2i = tuple_to_id@;
        tuple_to_id.push(row);
        proof {
            assert(tuple_to_id@ == old_t2i.push(row));
            assert forall|q: usize, k2: usize| q <= p + 1 && valid_pos(n_sizes@, q, k2) implies
                (#[trigger] tuple_to_id@[q as int]@[k2 as int]) == id_of_pos(n_sizes@, q, k2)
                && id_to_tuple@[id_of_pos(n_sizes@, q, k2) as int] == (q, k2) by {
                lemma_id_below(n_sizes@, q, k2, q as int);
                if q <= p {
                    lemma_id_below(n_sizes@, q, k2, p as int);
                    assert(tuple_to_id@[q as int] == old_t2i[q as int]);
                    assert(prefix[id_of_pos(n_sizes@, q, k2) as int] == (q, k2));
                    assert(old_t2i[q as int]@[k2 as int] == id_of_pos(n_sizes@, q, k2));
                    assert(id_to_tuple@[id_of_pos(n_sizes@, q, k2) as int] == prefix[id_of_pos(n_sizes@, q, k2) as int]);
                }
                if q == p + 1 {
                    assert(n_sizes@.take(q - 1) == n_sizes@.take(p as int));
                    assert(id_of_pos(n_sizes@, q, k2) == base + k2);
                    assert(tuple_to_id@[q as int] == row);
                    assert(row@[k2 as int] == base + k2);
                    assert(id_to_tuple@[base + k2] == ((p + 1) as usize, k2));
                }
            }
            assert forall|q: usize, k2: usize| q <= p + 1 && valid_pos(n_sizes@, q, k2) implies
                id_to_tuple@[#[trigger] id_of_pos(n_sizes@, q, k2) as int] == (q, k2) by {
                assert(tuple_to_id@[q as int]@[k2 as int] == id_of_pos(n_sizes@, q, k2));
            }
            assert forall|t: int| 0 <= t < id_to_tuple@.len() implies {
                &&& valid_pos(n_sizes@, (#[trigger] id_to_tuple@[t]).0, id_to_tuple@[t].1)
                &&& id_to_tuple@[t].0 <= p + 1
                &&& id_of_pos(n_sizes@, id_to_tuple@[t].0, id_to_tuple@[t].1) == t
            } by {
                if t < base {
                    assert(id_to_tuple@[t] == prefix[t]);
                }
                if t >= base {
                    assert(id_to_tuple@[t] == id_to_tuple@[base + (t - base)]);
                    assert(id_to_tuple@[base + (t - base)] == ((p + 1) as usize, (t - base) as usize));
                    assert(n_sizes@.take(p as int) == n_sizes@.take((p + 1) as usize - 1));
                }
            }
        }
        p = p + 1;
    }
    proof {
        lemma_total_take_all(n_sizes@);
        assert(n_sizes@.take(n_sizes@.len() as int) == n_sizes@);
    }
    (tuple_to_id, id_to_tuple)
}

} // verus!
