//! The adjacency graph over the dictionary: one node per word index, an
//! undirected edge between two indices exactly when their words differ in
//! exactly one letter position.

use vstd::prelude::*;
use crate::dict::Dictionary;
use crate::dict::WORD_LEN;
use crate::dict::hamming;
use crate::dict::lemma_hamming_symmetric;

verus! {

/// Adjacency lists indexed by word index. Built once from a dictionary and
/// read-only thereafter.
pub struct Graph {
    adj: Vec<Vec<usize>>,
}

impl View for Graph {
    type V = Seq<Seq<usize>>;

    closed spec fn view(&self) -> Seq<Seq<usize>> {
        Seq::new(self.adj@.len(), |i: int| self.adj@[i]@)
    }
}

/// There is an edge from `a` to `b`: both are nodes and `b` occurs in the
/// adjacency list of `a`.
pub open spec fn edge(g: Seq<Seq<usize>>, a: int, b: int) -> bool {
    &&& 0 <= a < g.len()
    &&& 0 <= b < g.len()
    &&& g[a].contains(b as usize)
}

/// Indices `a` and `b` name distinct dictionary words at Hamming distance
/// exactly 1: the relation the adjacency graph must realise.
pub open spec fn word_step(dict: Seq<Seq<u8>>, a: int, b: int) -> bool {
    &&& 0 <= a < dict.len()
    &&& 0 <= b < dict.len()
    &&& a != b
    &&& hamming(dict[a], dict[b]) == 1
}

/// `g` is the adjacency graph of `dict`: one node per word, and an edge
/// exactly between words one letter apart.
pub open spec fn graph_of(dict: Seq<Seq<u8>>, g: Seq<Seq<usize>>) -> bool {
    &&& g.len() == dict.len()
    &&& forall|a: int, b: int| #[trigger] edge(g, a, b) <==> word_step(dict, a, b)
}

impl Graph {
    /// Every adjacency entry is a node index.
    pub open spec fn wf(&self) -> bool {
        forall|i: int, k: int|
            0 <= i < self@.len() && 0 <= k < self@[i].len() ==> (#[trigger] self@[i][k]) < self@.len()
    }

    pub fn node_count(&self) -> (n: usize)
        ensures
            n == self@.len(),
    {
        self.adj.len()
    }

    pub fn degree(&self, i: usize) -> (d: usize)
        requires
            i < self@.len(),
        ensures
            d == self@[i as int].len(),
    {
        self.adj[i].len()
    }

    pub fn neighbor(&self, i: usize, k: usize) -> (b: usize)
        requires
            i < self@.len(),
            k < self@[i as int].len(),
        ensures
            b == self@[i as int][k as int],
    {
        self.adj[i][k]
    }
}

/// An adjacency graph is symmetric and has no self-loops.
pub proof fn lemma_graph_symmetric(dict: Seq<Seq<u8>>, g: Seq<Seq<usize>>)
    requires
        graph_of(dict, g),
        forall|i: int| 0 <= i < dict.len() ==> (#[trigger] dict[i]).len() == WORD_LEN,
    ensures
        forall|a: int, b: int| #[trigger] edge(g, a, b) ==> edge(g, b, a),
        forall|a: int| !edge(g, a, a),
{
    assert forall|a: int, b: int| #[trigger] edge(g, a, b) implies edge(g, b, a) by {
        assert(word_step(dict, a, b));
        lemma_hamming_symmetric(dict[a], dict[b]);
        assert(word_step(dict, b, a));
        assert(edge(g, b, a));
    }
    assert forall|a: int| !edge(g, a, a) by {
        if edge(g, a, a) {
            assert(word_step(dict, a, a));
        }
    }
}

/// Builds the adjacency graph of `dict`: for every pair of distinct indices,
/// compares the two words across all positions and records an undirected
/// edge exactly when they differ in exactly one position. Every index gets an
/// entry (possibly empty), and each adjacency list is strictly increasing.
pub fn generate_graph(dict: &Dictionary) -> (g: Graph)
    requires
        dict.wf(),
    ensures
        g.wf(),
        graph_of(dict@, g@),
        forall|a: int, k1: int, k2: int|
            0 <= a < g@.len() && 0 <= k1 < k2 < g@[a].len() ==> g@[a][k1] < g@[a][k2],
{
    let n = dict.len();
    let mut adj: Vec<Vec<usize>> = Vec::new();
    let mut i: usize = 0;
    while i < n
        invariant
            dict.wf(),
            n == dict@.len(),
            i <= n,
            adj@.len() == i,
            forall|a: int, b: usize|
                0 <= a < i ==> ((#[trigger] adj@[a]@.contains(b)) <==> word_step(
                    dict@,
                    a,
                    b as int,
                )),
            forall|a: int, k1: int, k2: int|
                0 <= a < i && 0 <= k1 < k2 < adj@[a]@.len() ==> adj@[a]@[k1] < adj@[a]@[k2],
        decreases n - i,
    {
        let mut row: Vec<usize> = Vec::new();
        let mut j: usize = 0;
        while j < n
            invariant
                dict.wf(),
                n == dict@.len(),
                i < n,
                j <= n,
                forall|b: usize| ((#[trigger] row@.contains(b)) <==> (b < j && word_step(
                    dict@,
                    i as int,
                    b as int,
                ))),
                forall|k1: int, k2: int|
                    0 <= k1 < k2 < row@.len() ==> row@[k1] < row@[k2],
                forall|k: int| 0 <= k < row@.len() ==> (#[trigger] row@[k]) < j,
            decreases n - j,
        {
            if i != j && crate::dict::matches(dict, i, j) {
                let ghost old_row = row@;
                row.push(j);
                proof {
                    assert(row@ == old_row.push(j));
                    assert forall|b: usize| (#[trigger] row@.contains(b)) implies (b < j + 1
                        && word_step(dict@, i as int, b as int)) by {
                        let k = choose|k: int| 0 <= k < row@.len() && row@[k] == b;
                        if k < old_row.len() {
                            assert(old_row[k] == b);
                            assert(old_row.contains(b));
                        } else {
                            assert(b == j);
                        }
                    }
                    assert forall|b: usize| (b < j + 1 && word_step(dict@, i as int, b as int))
                        implies #[trigger] row@.contains(b) by {
                        if b < j {
                            assert(old_row.contains(b));
                            let k = choose|k: int| 0 <= k < old_row.len() && old_row[k] == b;
                            assert(row@[k] == b);
                        } else {
                            assert(row@[old_row.len() as int] == b);
                        }
                    }
                    assert forall|k: int| 0 <= k < row@.len() implies (#[trigger] row@[k]) < j
                        + 1 by {
                        if k < old_row.len() {
                            assert(row@[k] == old_row[k]);
                            assert(old_row.contains(old_row[k]));
                        }
                    }
                    assert forall|k1: int, k2: int| 0 <= k1 < k2 < row@.len() implies row@[k1]
                        < row@[k2] by {
                        if k2 < old_row.len() {
                            assert(old_row[k1] < old_row[k2]);
                        } else {
                            assert(row@[k2] == j);
                            assert(old_row.contains(old_row[k1]));
                        }
                    }
                }
            } else {
                assert forall|b: usize| ((#[trigger] row@.contains(b)) <==> (b < j + 1
                    && word_step(dict@, i as int, b as int))) by {
                    if b == j {
                        assert(!word_step(dict@, i as int, b as int));
                    }
                }
            }
            j = j + 1;
        }
        adj.push(row);
        i = i + 1;
    }
    let g = Graph { adj };
    proof {
        assert(g@.len() == n);
        assert(forall|a: int| 0 <= a < n ==> g@[a] == adj@[a]@);
        assert forall|a: int, b: int| #[trigger] edge(g@, a, b) implies word_step(
            dict@,
            a,
            b,
        ) by {
            assert(adj@[a]@.contains(b as usize));
        }
        assert forall|a: int, b: int| word_step(dict@, a, b) implies #[trigger] edge(
            g@,
            a,
            b,
        ) by {
            assert(adj@[a]@.contains(b as usize));
            assert(g@[a].contains(b as usize));
        }
        assert forall|i0: int, k: int|
            0 <= i0 < g@.len() && 0 <= k < g@[i0].len() implies (#[trigger] g@[i0][k])
            < g@.len() by {
            assert(g@[i0].contains(g@[i0][k]));
            assert(adj@[i0]@.contains(g@[i0][k]));
        }
    }
    g
}

} // verus!
