//! A disjoint-set forest over the elements `0..n`, with union by rank and
//! path halving.

use vstd::prelude::*;

verus! {

/// A partition of `0..n` into disjoint non-empty sets, each with one
/// representative.
///
/// The view is the sequence that maps every element to the representative of
/// its set.
pub struct DisjointSetForest {
    parent: Vec<usize>,
    rank: Vec<usize>,
    sets: usize,
    reps: Ghost<Seq<usize>>,
}

impl View for DisjointSetForest {
    type V = Seq<usize>;

    closed spec fn view(&self) -> Seq<usize> {
        self.reps@
    }
}

/// The representatives after the sets of the representatives `winner` and
/// `loser` have been joined under `winner`.
pub open spec fn join(reps: Seq<usize>, winner: usize, loser: usize) -> Seq<usize> {
    Seq::new(reps.len(), |z: int| if reps[z] == loser { winner } else { reps[z] })
}

/// The partition in which every element of `0..n` is alone in its set.
pub open spec fn singletons(n: nat) -> Seq<usize> {
    Seq::new(n, |z: int| z as usize)
}

/// Whether the parent links and ranks form a forest whose roots are the
/// representatives `reps`, `sets` in number.
spec fn linked(parent: Seq<usize>, rank: Seq<usize>, reps: Seq<usize>, sets: nat) -> bool {
    let n = parent.len();
    &&& n <= usize::MAX
    &&& rank.len() == n
    &&& reps.len() == n
    &&& forall|x: int| 0 <= x < n ==> (#[trigger] parent[x]) < n
    &&& forall|x: int|
        0 <= x < n && (#[trigger] parent[x]) != x ==> rank[x] < rank[parent[x] as int]
    &&& forall|x: int| 0 <= x < n ==> (#[trigger] reps[x]) < n
    &&& forall|x: int| 0 <= x < n ==> parent[(#[trigger] reps[x]) as int] == reps[x]
    &&& forall|x: int| 0 <= x < n ==> reps[(#[trigger] parent[x]) as int] == reps[x]
    &&& forall|x: int| 0 <= x < n && (#[trigger] parent[x]) == x ==> reps[x] == x
    &&& sets == reps.to_set().len()
    &&& forall|x: int| 0 <= x < n ==> (#[trigger] rank[x]) + sets <= n
}

impl DisjointSetForest {
    /// The rank stored with each element. Only the rank of a representative
    /// bears on what `union` does.
    pub closed spec fn ranks(&self) -> Seq<usize> {
        self.rank@
    }

    /// The number of sets of the partition.
    pub closed spec fn count(&self) -> nat {
        self.sets as nat
    }

    /// The invariant of the forest: parent links stay in range and lead, with
    /// strictly growing rank, to the representative that the view names.
    pub closed spec fn wf(&self) -> bool {
        linked(self.parent@, self.rank@, self.reps@, self.sets as nat)
    }

    /// What the view of a well-formed forest always satisfies: it names, for
    /// each element, an element that represents itself, and the sets are as
    /// many as the distinct representatives.
    pub proof fn lemma_view(&self)
        requires
            self.wf(),
        ensures
            self.ranks().len() == self@.len(),
            forall|x: int|
                0 <= x < self@.len() ==> (#[trigger] self@[x]) < self@.len() && self@[self@[x] as int]
                    == self@[x],
            self.count() == self@.to_set().len(),
            self.count() <= self@.len(),
            self@.len() > 0 ==> self.count() >= 1,
    {
        self@.lemma_cardinality_of_set();
        if self@.len() > 0 {
            assert(self@.to_set().contains(self@[0]));
        }
    }

    /// A forest of `n` sets of one element each, all of rank zero.
    pub fn new(n: usize) -> (forest: Self)
        ensures
            forest.wf(),
            forest@ == singletons(n as nat),
            forest.ranks() == Seq::new(n as nat, |z: int| 0usize),
            forest.count() == n,
    {
        let mut parent: Vec<usize> = Vec::new();
        let mut rank: Vec<usize> = Vec::new();
        let mut i: usize = 0;
        while i < n
            invariant
                i <= n,
                parent@ == singletons(i as nat),
                rank@ == Seq::new(i as nat, |z: int| 0usize),
            decreases n - i,
        {
            parent.push(i);
            rank.push(0);
            i = i + 1;
            assert(parent@ =~= singletons(i as nat));
            assert(rank@ =~= Seq::new(i as nat, |z: int| 0usize));
        }
        proof {
            singletons(n as nat).unique_seq_to_set();
        }
        DisjointSetForest { parent, rank, sets: n, reps: Ghost(singletons(n as nat)) }
    }

    /// The number of elements.
    pub fn len(&self) -> (n: usize)
        requires
            self.wf(),
        ensures
            n == self@.len(),
    {
        self.parent.len()
    }

    /// The number of sets.
    pub fn set_count(&self) -> (k: usize)
        requires
            self.wf(),
        ensures
            k == self.count(),
            k == self@.to_set().len(),
    {
        self.sets
    }

    /// The representative of the set that holds `x`. The links passed on the
    /// way are shortened; the partition, the ranks and every representative
    /// stay as they were.
    pub fn find(&mut self, x: usize) -> (root: usize)
        requires
            old(self).wf(),
            x < old(self)@.len(),
        ensures
            final(self).wf(),
            final(self)@ == old(self)@,
            final(self).ranks() == old(self).ranks(),
            final(self).count() == old(self).count(),
            root == old(self)@[x as int],
    {
        let mut k: usize = x;
        let mut p: usize = self.parent[k];
        while p != k
            invariant
                self.wf(),
                self.reps@ == old(self).reps@,
                self.rank@ == old(self).rank@,
                self.sets == old(self).sets,
                k < self.parent.len(),
                p == self.parent[k as int],
                self.reps@[k as int] == self.reps@[x as int],
            decreases usize::MAX - self.rank[k as int],
        {
            let pp: usize = self.parent[p];
            self.parent.set(k, pp);
            k = p;
            p = pp;
        }
        k
    }

    /// Joins the sets that hold `x` and `y`, and says whether there were two.
    ///
    /// Where the two representatives differ, the one of lower rank is put
    /// under the other; at equal rank the representative of `y` is put under
    /// that of `x`, whose rank then grows by one.
    pub fn union(&mut self, x: usize, y: usize) -> (merged: bool)
        requires
            old(self).wf(),
            x < old(self)@.len(),
            y < old(self)@.len(),
        ensures
            final(self).wf(),
            merged == (old(self)@[x as int] != old(self)@[y as int]),
            !merged ==> final(self)@ == old(self)@ && final(self).ranks() == old(self).ranks()
                && final(self).count() == old(self).count(),
            merged ==> final(self)@ == join(
                old(self)@,
                old(self).winner(x, y),
                old(self).loser(x, y),
            ) && final(self).ranks() == old(self).ranks_after_union(x, y) && final(self).count()
                == old(self).count() - 1,
    {
        let a: usize = self.find(x);
        let b: usize = self.find(y);
        if a == b {
            return false;
        }
        let rank_a: usize = self.rank[a];
        let rank_b: usize = self.rank[b];
        if rank_a < rank_b {
            proof {
                lemma_link(self.parent@, self.rank@, self.reps@, self.sets as nat, b, a);
                self.reps = Ghost(join(self.reps@, b, a));
            }
            self.parent.set(a, b);
        } else {
            proof {
                lemma_link(self.parent@, self.rank@, self.reps@, self.sets as nat, a, b);
                self.reps = Ghost(join(self.reps@, a, b));
            }
            self.parent.set(b, a);
            if rank_a == rank_b {
                self.rank.set(a, rank_a + 1);
            }
        }
        self.sets = self.sets - 1;
        true
    }

    /// Whether `x` and `y` are in one set.
    pub fn same_set(&mut self, x: usize, y: usize) -> (same: bool)
        requires
            old(self).wf(),
            x < old(self)@.len(),
            y < old(self)@.len(),
        ensures
            final(self).wf(),
            final(self)@ == old(self)@,
            final(self).ranks() == old(self).ranks(),
            final(self).count() == old(self).count(),
            same == (old(self)@[x as int] == old(self)@[y as int]),
    {
        let a: usize = self.find(x);
        let b: usize = self.find(y);
        a == b
    }

    /// The representative that stays one when the sets of `x` and `y` are
    /// joined.
    pub open spec fn winner(&self, x: usize, y: usize) -> usize {
        let a = self@[x as int];
        let b = self@[y as int];
        if self.ranks()[a as int] < self.ranks()[b as int] {
            b
        } else {
            a
        }
    }

    /// The representative that is put under the other when the sets of `x`
    /// and `y` are joined.
    pub open spec fn loser(&self, x: usize, y: usize) -> usize {
        let a = self@[x as int];
        let b = self@[y as int];
        if self.ranks()[a as int] < self.ranks()[b as int] {
            a
        } else {
            b
        }
    }

    /// The ranks after the sets of `x` and `y`, which differ, have been
    /// joined.
    pub open spec fn ranks_after_union(&self, x: usize, y: usize) -> Seq<usize> {
        let a = self@[x as int];
        let b = self@[y as int];
        if self.ranks()[a as int] == self.ranks()[b as int] {
            self.ranks().update(a as int, (self.ranks()[a as int] + 1) as usize)
        } else {
            self.ranks()
        }
    }
}

/// Joining two distinct representatives takes the loser, and nothing else,
/// out of the set of representatives.
pub proof fn lemma_join_removes(reps: Seq<usize>, winner: usize, loser: usize)
    requires
        winner != loser,
        reps.to_set().contains(winner),
        reps.to_set().contains(loser),
    ensures
        join(reps, winner, loser).to_set() == reps.to_set().remove(loser),
        join(reps, winner, loser).to_set().len() == reps.to_set().len() - 1,
{
    let joined = join(reps, winner, loser);
    assert forall|r: usize| joined.to_set().contains(r) implies reps.to_set().remove(
        loser,
    ).contains(r) by {
        let z = choose|z: int| 0 <= z < joined.len() && joined[z] == r;
        if reps[z] != loser {
            assert(reps.to_set().contains(reps[z]));
        }
    }
    assert forall|r: usize| reps.to_set().remove(loser).contains(r) implies joined.to_set().contains(
        r,
    ) by {
        let z = choose|z: int| 0 <= z < reps.len() && reps[z] == r;
        assert(joined[z] == r);
    }
    assert(joined.to_set() =~= reps.to_set().remove(loser));
    reps.lemma_cardinality_of_set();
}

/// Putting the root `loser` under the root `winner`, whose rank grows by one
/// where the two ranks are equal, keeps the forest and joins the two sets.
proof fn lemma_link(
    parent: Seq<usize>,
    rank: Seq<usize>,
    reps: Seq<usize>,
    sets: nat,
    winner: usize,
    loser: usize,
) -> (next_rank: Seq<usize>)
    requires
        linked(parent, rank, reps, sets),
        winner < parent.len(),
        loser < parent.len(),
        winner != loser,
        parent[winner as int] == winner,
        parent[loser as int] == loser,
        rank[loser as int] <= rank[winner as int],
    ensures
        sets >= 2,
        rank[winner as int] + 1 <= usize::MAX,
        next_rank == if rank[loser as int] == rank[winner as int] {
            rank.update(winner as int, (rank[winner as int] + 1) as usize)
        } else {
            rank
        },
        linked(
            parent.update(loser as int, winner),
            next_rank,
            join(reps, winner, loser),
            (sets - 1) as nat,
        ),
{
    let n = parent.len();
    let next_parent = parent.update(loser as int, winner);
    let next_reps = join(reps, winner, loser);
    assert(reps[winner as int] == winner);
    assert(reps[loser as int] == loser);
    assert(reps.to_set().contains(reps[winner as int]));
    assert(reps.to_set().contains(reps[loser as int]));
    lemma_join_removes(reps, winner, loser);
    reps.lemma_cardinality_of_set();
    assert(reps.to_set().remove(loser).contains(winner));
    assert(sets >= 2);
    assert(rank[winner as int] + sets <= n);
    let next_rank = if rank[loser as int] == rank[winner as int] {
        rank.update(winner as int, (rank[winner as int] + 1) as usize)
    } else {
        rank
    };
    assert forall|x: int| 0 <= x < n implies (#[trigger] next_parent[x]) < n by {
        assert(parent[x] < n);
    }
    assert forall|x: int| 0 <= x < n && (#[trigger] next_parent[x]) != x implies next_rank[x]
        < next_rank[next_parent[x] as int] by {
        if x != loser {
            assert(parent[x] != x);
            assert(rank[x] < rank[parent[x] as int]);
        }
    }
    assert forall|x: int| 0 <= x < n implies (#[trigger] next_reps[x]) < n by {
        assert(reps[x] < n);
    }
    assert forall|x: int| 0 <= x < n implies next_parent[(#[trigger] next_reps[x]) as int]
        == next_reps[x] by {
        assert(parent[reps[x] as int] == reps[x]);
    }
    assert forall|x: int| 0 <= x < n implies next_reps[(#[trigger] next_parent[x]) as int]
        == next_reps[x] by {
        assert(reps[parent[x] as int] == reps[x]);
    }
    assert forall|x: int| 0 <= x < n && (#[trigger] next_parent[x]) == x implies next_reps[x]
        == x by {
        assert(parent[x] == x);
    }
    assert forall|x: int| 0 <= x < n implies (#[trigger] next_rank[x]) + (sets - 1) <= n by {
        assert(rank[x] + sets <= n);
    }
    next_rank
}

} // verus!
