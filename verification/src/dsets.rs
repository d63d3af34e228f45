//! Disjoint-set forest over the indices `0..n`, with path compression and
//! union by size.

use vstd::prelude::*;

verus! {

/// Number of positions of `roots` that are labelled `r`.
pub open spec fn set_size(roots: Seq<int>, r: int) -> nat
    decreases roots.len(),
{
    if roots.len() == 0 {
        0
    } else {
        set_size(roots.drop_last(), r) + if roots.last() == r { 1nat } else { 0nat }
    }
}

/// Number of positions `i < n` of `roots` that are labelled with themselves.
pub open spec fn roots_below(roots: Seq<int>, n: nat) -> nat
    decreases n,
{
    if n == 0 {
        0
    } else {
        roots_below(roots, (n - 1) as nat) + if roots[n - 1] == n - 1 { 1nat } else { 0nat }
    }
}

/// Number of sets of the partition that `roots` describes.
pub open spec fn num_sets(roots: Seq<int>) -> nat {
    roots_below(roots, roots.len())
}

/// `roots` labels every position with a representative that labels itself.
pub open spec fn is_partition(roots: Seq<int>) -> bool {
    forall|i: int|
        0 <= i < roots.len() ==> 0 <= #[trigger] roots[i] < roots.len() && roots[roots[i]]
            == roots[i]
}

/// The partition of `0..n` into singletons.
pub open spec fn singletons(n: nat) -> Seq<int> {
    Seq::new(n, |i: int| i)
}

/// `roots` with every label `gone` replaced by `keep`.
pub open spec fn relabel(roots: Seq<int>, gone: int, keep: int) -> Seq<int> {
    Seq::new(roots.len(), |i: int| if roots[i] == gone { keep } else { roots[i] })
}

/// The partition after the sets of `a` and `b` are merged: the representative
/// of the larger set survives, and on a tie that of `a`.
pub open spec fn merged(roots: Seq<int>, a: int, b: int) -> Seq<int> {
    let ra = roots[a];
    let rb = roots[b];
    if ra == rb {
        roots
    } else if set_size(roots, ra) >= set_size(roots, rb) {
        relabel(roots, rb, ra)
    } else {
        relabel(roots, ra, rb)
    }
}

/// The parent of element `i`: a representative is its own parent.
pub open spec fn parent(entries: Seq<i64>, i: int) -> int {
    if entries[i] < 0 {
        i
    } else {
        entries[i] as int
    }
}

/// The element that `k` parent links lead to from `i`.
pub open spec fn ancestor(entries: Seq<i64>, i: int, k: nat) -> int
    decreases k,
{
    if k == 0 {
        i
    } else {
        parent(entries, ancestor(entries, i, (k - 1) as nat))
    }
}

/// Element `i` lies on the way from `from` to its representative.
pub open spec fn on_way(entries: Seq<i64>, from: int, i: int) -> bool {
    exists|k: nat| ancestor(entries, from, k) == i
}

/// The entries after the way from `from` to its representative is
/// compressed: every element on that way that has a parent gets the
/// representative as its parent.
#[verifier::opaque]
pub open spec fn compressed(entries: Seq<i64>, roots: Seq<int>, from: int) -> Seq<i64> {
    Seq::new(
        entries.len(),
        |i: int|
            if entries[i] >= 0 && on_way(entries, from, i) {
                roots[from] as i64
            } else {
                entries[i]
            },
    )
}

/// The entries after the representative `gone` is hung under the
/// representative `keep`, which takes over its size.
pub open spec fn hung(entries: Seq<i64>, keep: int, gone: int) -> Seq<i64> {
    entries.update(keep, (entries[keep] + entries[gone]) as i64).update(gone, keep as i64)
}

/// The entries after the sets of `a` and `b` are merged: both ways are
/// compressed, then the representative with the smaller set is hung under the
/// other one, the representative of `b` on a tie.
#[verifier::opaque]
pub open spec fn united(entries: Seq<i64>, roots: Seq<int>, a: int, b: int) -> Seq<i64> {
    let ready = compressed(compressed(entries, roots, a), roots, b);
    let ra = roots[a];
    let rb = roots[b];
    if ra == rb {
        ready
    } else if ready[ra] <= ready[rb] {
        hung(ready, ra, rb)
    } else {
        hung(ready, rb, ra)
    }
}

/// The entries stand for the partition: a negative entry marks a
/// representative and holds the size of its set, negated; any other entry is
/// the parent, an element of the same set.
pub open spec fn represents(entries: Seq<i64>, roots: Seq<int>) -> bool {
    &&& entries.len() == roots.len()
    &&& forall|i: int|
        0 <= i < entries.len() ==> if (#[trigger] entries[i]) < 0 {
            roots[i] == i && -entries[i] == set_size(roots, i)
        } else {
            entries[i] < entries.len() && roots[entries[i] as int] == roots[i]
        }
}

/// A partition of the elements `0..n` into sets, each with a
/// representative. An entry below zero marks a representative and holds the
/// size of its set, negated; any other entry is the parent of its element.
pub struct DisjointSets {
    sets: Vec<i64>,
    roots: Ghost<Seq<int>>,
    rank: Ghost<Seq<nat>>,
}

impl View for DisjointSets {
    type V = Seq<int>;

    /// The representative of each element.
    closed spec fn view(&self) -> Seq<int> {
        self.roots@
    }
}

/// What the forest's invariant asks of element `i`.
spec fn node_ok(sets: Seq<i64>, roots: Seq<int>, rank: Seq<nat>, i: int) -> bool {
    &&& 0 <= roots[i] < sets.len()
    &&& sets[roots[i]] < 0
    &&& rank[i] <= rank[roots[i]]
    &&& sets[i] < 0 ==> roots[i] == i && -sets[i] == set_size(roots, i)
    &&& sets[i] >= 0 ==> sets[i] < sets.len() && rank[i] < rank[sets[i] as int] && roots[sets[i] as int]
        == roots[i]
}

proof fn lemma_size_of_absent(roots: Seq<int>, r: int)
    requires
        forall|i: int| 0 <= i < roots.len() ==> roots[i] != r,
    ensures
        set_size(roots, r) == 0,
    decreases roots.len(),
{
    if roots.len() > 0 {
        lemma_size_of_absent(roots.drop_last(), r);
    }
}

proof fn lemma_size_in_singletons(n: nat, r: int)
    ensures
        set_size(singletons(n), r) == if 0 <= r < n { 1nat } else { 0nat },
    decreases n,
{
    if n > 0 {
        assert(singletons(n).drop_last() =~= singletons((n - 1) as nat));
        lemma_size_in_singletons((n - 1) as nat, r);
    }
}

proof fn lemma_size_after_push(roots: Seq<int>, x: int, r: int)
    ensures
        set_size(roots.push(x), r) == set_size(roots, r) + if x == r { 1nat } else { 0nat },
{
    assert(roots.push(x).drop_last() =~= roots);
}

/// Two different labels share at most all positions between them.
proof fn lemma_two_sizes_bound(roots: Seq<int>, r1: int, r2: int)
    requires
        r1 != r2,
    ensures
        set_size(roots, r1) + set_size(roots, r2) <= roots.len(),
    decreases roots.len(),
{
    if roots.len() > 0 {
        lemma_two_sizes_bound(roots.drop_last(), r1, r2);
    }
}

/// How the sizes change when one label is replaced by another.
pub proof fn lemma_relabel_sizes(roots: Seq<int>, gone: int, keep: int, r: int)
    requires
        gone != keep,
    ensures
        set_size(relabel(roots, gone, keep), r) == if r == keep {
            set_size(roots, keep) + set_size(roots, gone)
        } else if r == gone {
            0
        } else {
            set_size(roots, r)
        },
    decreases roots.len(),
{
    if roots.len() > 0 {
        assert(relabel(roots, gone, keep).drop_last() =~= relabel(roots.drop_last(), gone, keep));
        lemma_relabel_sizes(roots.drop_last(), gone, keep, r);
    }
}

proof fn lemma_relabel_roots_below(roots: Seq<int>, gone: int, keep: int, n: nat)
    requires
        is_partition(roots),
        n <= roots.len(),
        gone != keep,
        0 <= gone < roots.len(),
        0 <= keep < roots.len(),
        roots[gone] == gone,
        roots[keep] == keep,
    ensures
        roots_below(relabel(roots, gone, keep), n) + (if gone < n { 1nat } else { 0nat })
            == roots_below(roots, n),
    decreases n,
{
    if n > 0 {
        lemma_relabel_roots_below(roots, gone, keep, (n - 1) as nat);
        let i = n - 1;
        assert(roots[roots[i]] == roots[i]);
    }
}

/// Replacing the label of one representative by another leaves a partition
/// with one set fewer.
pub proof fn lemma_relabel_partition(roots: Seq<int>, gone: int, keep: int)
    requires
        is_partition(roots),
        gone != keep,
        0 <= gone < roots.len(),
        0 <= keep < roots.len(),
        roots[gone] == gone,
        roots[keep] == keep,
    ensures
        is_partition(relabel(roots, gone, keep)),
        num_sets(relabel(roots, gone, keep)) + 1 == num_sets(roots),
{
    let new = relabel(roots, gone, keep);
    assert forall|i: int| 0 <= i < new.len() implies 0 <= #[trigger] new[i] < new.len()
        && new[new[i]] == new[i] by {
        assert(roots[roots[i]] == roots[i]);
    }
    lemma_relabel_roots_below(roots, gone, keep, roots.len());
}

/// Merging two sets leaves a partition; the number of sets falls by one
/// unless the two elements were together already.
pub proof fn lemma_merged_partition(roots: Seq<int>, a: int, b: int)
    requires
        is_partition(roots),
        0 <= a < roots.len(),
        0 <= b < roots.len(),
    ensures
        is_partition(merged(roots, a, b)),
        merged(roots, a, b).len() == roots.len(),
        num_sets(merged(roots, a, b)) + (if roots[a] == roots[b] { 0nat } else { 1nat })
            == num_sets(roots),
{
    let ra = roots[a];
    let rb = roots[b];
    assert(roots[ra] == ra && roots[rb] == rb);
    if ra != rb {
        if set_size(roots, ra) >= set_size(roots, rb) {
            lemma_relabel_partition(roots, rb, ra);
        } else {
            lemma_relabel_partition(roots, ra, rb);
        }
    }
}

proof fn lemma_roots_below_singletons(n: nat, k: nat)
    requires
        k <= n,
    ensures
        roots_below(singletons(n), k) == k,
    decreases k,
{
    if k > 0 {
        lemma_roots_below_singletons(n, (k - 1) as nat);
    }
}

/// `n` singletons are a partition into `n` sets.
pub proof fn lemma_singletons_partition(n: nat)
    ensures
        is_partition(singletons(n)),
        num_sets(singletons(n)) == n,
{
    lemma_roots_below_singletons(n, n);
}

/// One more link from `i` leads where as many links lead from its parent.
proof fn lemma_ancestor_shift(entries: Seq<i64>, i: int, k: nat)
    ensures
        ancestor(entries, i, k + 1) == ancestor(entries, parent(entries, i), k),
    decreases k,
{
    if k > 0 {
        lemma_ancestor_shift(entries, i, (k - 1) as nat);
        assert(ancestor(entries, i, k + 1) == parent(entries, ancestor(entries, i, k)));
    } else {
        assert(ancestor(entries, i, 1) == parent(entries, ancestor(entries, i, 0)));
    }
}

/// A representative is where every way from it ends at once.
proof fn lemma_ancestor_of_root(entries: Seq<i64>, i: int, k: nat)
    requires
        entries[i] < 0,
    ensures
        ancestor(entries, i, k) == i,
    decreases k,
{
    if k > 0 {
        lemma_ancestor_of_root(entries, i, (k - 1) as nat);
    }
}

impl DisjointSets {
    /// The structural invariant: parent links stay in range and lead upward
    /// to the representative, and each representative stores its set's size.
    pub closed spec fn inv(&self) -> bool {
        &&& self.sets@.len() == self.roots@.len()
        &&& self.sets@.len() == self.rank@.len()
        &&& self.sets@.len() <= i64::MAX
        &&& self.sets@.len() <= usize::MAX
        &&& forall|i: int|
            0 <= i < self.sets@.len() ==> #[trigger] node_ok(self.sets@, self.roots@, self.rank@, i)
    }

    /// The stored entries, one for each element.
    pub closed spec fn entries(&self) -> Seq<i64> {
        self.sets@
    }

    /// Well-formedness: the invariant holds, the view is a partition, and
    /// the entries stand for it.
    pub open spec fn wf(&self) -> bool {
        self.inv() && is_partition(self@) && represents(self.entries(), self@)
    }

    proof fn lemma_inv_represents(&self)
        requires
            self.inv(),
        ensures
            represents(self.entries(), self@),
    {
        assert forall|i: int| 0 <= i < self.sets@.len() implies if (#[trigger] self.sets@[i]) < 0 {
            self.roots@[i] == i && -self.sets@[i] == set_size(self.roots@, i)
        } else {
            self.sets@[i] < self.sets@.len() && self.roots@[self.sets@[i] as int] == self.roots@[i]
        } by {
            assert(node_ok(self.sets@, self.roots@, self.rank@, i));
        }
    }

    /// `size` singleton sets.
    pub fn new(size: usize) -> (ds: DisjointSets)
        requires
            size <= i64::MAX,
        ensures
            ds.wf(),
            ds@ == singletons(size as nat),
            ds.entries() == Seq::new(size as nat, |i: int| -1i64),
    {
        let sets: Vec<i64> = vec![-1i64; size];
        let ds = DisjointSets {
            sets,
            roots: Ghost(singletons(size as nat)),
            rank: Ghost(Seq::new(size as nat, |i: int| 0nat)),
        };
        proof {
            assert forall|i: int| 0 <= i < ds.sets@.len() implies #[trigger] node_ok(
                ds.sets@,
                ds.roots@,
                ds.rank@,
                i,
            ) by {
                lemma_size_in_singletons(size as nat, i);
            }
            ds.lemma_inv_represents();
            assert(ds.entries() =~= Seq::new(size as nat, |i: int| -1i64));
        }
        ds
    }

    /// Appends `count` singleton sets; the elements that were there keep
    /// their representatives.
    pub fn add_sets(&mut self, count: usize)
        requires
            old(self).wf(),
            old(self)@.len() + count <= i64::MAX,
            old(self)@.len() + count <= usize::MAX,
        ensures
            final(self).wf(),
            final(self)@ == old(self)@ + Seq::new(count as nat, |i: int| old(self)@.len() + i),
            final(self).entries() == old(self).entries() + Seq::new(count as nat, |i: int| -1i64),
    {
        let ghost start = self.roots@;
        let ghost start_entries = self.sets@;
        let mut done: usize = 0;
        while done < count
            invariant
                done <= count,
                start.len() + count <= i64::MAX,
                start.len() + count <= usize::MAX,
                self.wf(),
                self.roots@ == start + Seq::new(done as nat, |i: int| start.len() + i),
                self.sets@ == start_entries + Seq::new(done as nat, |i: int| -1i64),
            decreases count - done,
        {
            let ghost before = *self;
            let ghost fresh = self.roots@.len() as int;
            self.sets.push(-1);
            proof {
                self.roots = Ghost(before.roots@.push(fresh));
                self.rank = Ghost(before.rank@.push(0nat));
                assert forall|i: int| 0 <= i < self.sets@.len() implies #[trigger] node_ok(
                    self.sets@,
                    self.roots@,
                    self.rank@,
                    i,
                ) by {
                    lemma_size_after_push(before.roots@, fresh, i);
                    if i < fresh {
                        assert(node_ok(before.sets@, before.roots@, before.rank@, i));
                    } else {
                        assert forall|j: int| 0 <= j < before.roots@.len() implies before.roots@[j]
                            != fresh by {
                            assert(node_ok(before.sets@, before.roots@, before.rank@, j));
                        }
                        lemma_size_of_absent(before.roots@, fresh);
                    }
                }
                assert forall|i: int| 0 <= i < self@.len() implies 0 <= #[trigger] self@[i]
                    < self@.len() && self@[self@[i]] == self@[i] by {
                    if i < fresh {
                        assert(before@[before@[i]] == before@[i]);
                    }
                }
                assert(self.roots@ =~= start + Seq::new((done + 1) as nat, |i: int| start.len() + i));
                assert(self.sets@ =~= start_entries + Seq::new((done + 1) as nat, |i: int| -1i64));
                self.lemma_inv_represents();
            }
            done = done + 1;
        }
        proof {
            assert(self.roots@ =~= start + Seq::new(count as nat, |i: int| start.len() + i));
            assert(self.sets@ =~= start_entries + Seq::new(count as nat, |i: int| -1i64));
        }
    }

    /// Follows the parent links from `element` to its representative and
    /// points every element on the way straight at it.
    fn compress(&mut self, element: usize) -> (root: usize)
        requires
            old(self).inv(),
            element < old(self).sets@.len(),
        ensures
            final(self).inv(),
            final(self).roots@ == old(self).roots@,
            final(self).rank@ == old(self).rank@,
            final(self).sets@.len() == old(self).sets@.len(),
            root == old(self).roots@[element as int],
            final(self).sets@ == compressed(old(self).sets@, old(self).roots@, element as int),
        decreases old(self).rank@[old(self).roots@[element as int]] - old(self).rank@[element as int],
    {
        proof {
            assert(node_ok(self.sets@, self.roots@, self.rank@, element as int));
        }
        let ghost start = self.sets@;
        let ghost roots = self.roots@;
        proof {
            reveal(compressed);
        }
        if self.sets[element] < 0 {
            proof {
                assert forall|i: int| 0 <= i < start.len() && start[i] >= 0 implies !on_way(
                    start,
                    element as int,
                    i,
                ) by {
                    assert forall|k: nat| ancestor(start, element as int, k) != i by {
                        lemma_ancestor_of_root(start, element as int, k);
                    }
                }
                assert(start =~= compressed(start, roots, element as int));
            }
            return element;
        }
        let parent: usize = self.sets[element] as usize;
        proof {
            assert(node_ok(self.sets@, self.roots@, self.rank@, parent as int));
        }
        let root = self.compress(parent);
        let ghost mid = *self;
        proof {
            assert(node_ok(mid.sets@, mid.roots@, mid.rank@, element as int));
            assert(node_ok(mid.sets@, mid.roots@, mid.rank@, root as int));
        }
        self.sets.set(element, root as i64);
        proof {
            assert forall|i: int| 0 <= i < self.sets@.len() implies #[trigger] node_ok(
                self.sets@,
                self.roots@,
                self.rank@,
                i,
            ) by {
                assert(node_ok(mid.sets@, mid.roots@, mid.rank@, i));
            }
            assert forall|i: int| 0 <= i < start.len() implies self.sets@[i] == compressed(
                start,
                roots,
                element as int,
            )[i] by {
                if i == element {
                    assert(ancestor(start, element as int, 0) == i);
                } else {
                    if on_way(start, parent as int, i) {
                        let k = choose|k: nat| ancestor(start, parent as int, k) == i;
                        lemma_ancestor_shift(start, element as int, k);
                        assert(ancestor(start, element as int, k + 1) == i);
                    }
                    if on_way(start, element as int, i) {
                        let k = choose|k: nat| ancestor(start, element as int, k) == i;
                        lemma_ancestor_shift(start, element as int, (k - 1) as nat);
                        assert(ancestor(start, parent as int, (k - 1) as nat) == i);
                    }
                }
            }
            assert(self.sets@ =~= compressed(start, roots, element as int));
        }
        root
    }

    /// The representative of `element`'s set, or an error when `element` is
    /// not an element of the forest. The partition stays as it is.
    pub fn find_root(&mut self, element: usize) -> (result: Result<usize, String>)
        requires
            old(self).wf(),
        ensures
            final(self).wf(),
            final(self)@ == old(self)@,
            match result {
                Ok(root) => element < old(self)@.len() && root == old(self)@[element as int]
                    && final(self).entries() == compressed(
                    old(self).entries(),
                    old(self)@,
                    element as int,
                ),
                Err(message) => element >= old(self)@.len() && message@ == "Out of bounds"@
                    && final(self).entries() == old(self).entries(),
            },
    {
        if element >= self.size() {
            return Err("Out of bounds".to_string());
        }
        let root = self.compress(element);
        proof {
            self.lemma_inv_represents();
        }
        Ok(root)
    }

    /// Merges the sets of `a` and `b`. The representative of the larger set
    /// becomes that of both; on a tie it is the representative of `a`.
    pub fn set_union(&mut self, a: usize, b: usize)
        requires
            old(self).wf(),
            a < old(self)@.len(),
            b < old(self)@.len(),
        ensures
            final(self).wf(),
            final(self)@ == merged(old(self)@, a as int, b as int),
            final(self).entries() == united(old(self).entries(), old(self)@, a as int, b as int),
    {
        let ghost start = self.roots@;
        proof {
            reveal(united);
        }
        let root_a = self.compress(a);
        let root_b = self.compress(b);
        if root_a == root_b {
            proof {
                self.lemma_inv_represents();
            }
            return;
        }
        proof {
            assert(node_ok(self.sets@, self.roots@, self.rank@, a as int));
            assert(node_ok(self.sets@, self.roots@, self.rank@, b as int));
            assert(node_ok(self.sets@, self.roots@, self.rank@, root_a as int));
            assert(node_ok(self.sets@, self.roots@, self.rank@, root_b as int));
            lemma_two_sizes_bound(start, root_a as int, root_b as int);
            lemma_merged_partition(start, a as int, b as int);
        }
        if self.sets[root_a] <= self.sets[root_b] {
            self.absorb(root_a, root_b);
        } else {
            self.absorb(root_b, root_a);
        }
        proof {
            self.lemma_inv_represents();
        }
    }

    /// Hangs the representative `gone` under the representative `keep`.
    fn absorb(&mut self, keep: usize, gone: usize)
        requires
            old(self).inv(),
            keep < old(self).sets@.len(),
            gone < old(self).sets@.len(),
            keep != gone,
            old(self).sets@[keep as int] < 0,
            old(self).sets@[gone as int] < 0,
            set_size(old(self).roots@, keep as int) + set_size(old(self).roots@, gone as int)
                <= i64::MAX,
        ensures
            final(self).inv(),
            final(self).roots@ == relabel(old(self).roots@, gone as int, keep as int),
            final(self).sets@ == hung(old(self).sets@, keep as int, gone as int),
    {
        let ghost before = *self;
        proof {
            assert(node_ok(before.sets@, before.roots@, before.rank@, keep as int));
            assert(node_ok(before.sets@, before.roots@, before.rank@, gone as int));
        }
        let total: i64 = self.sets[keep] + self.sets[gone];
        self.sets.set(keep, total);
        self.sets.set(gone, keep as i64);
        proof {
            let top = before.rank@[keep as int];
            let low = before.rank@[gone as int];
            self.roots = Ghost(relabel(before.roots@, gone as int, keep as int));
            self.rank = Ghost(before.rank@.update(keep as int, if top > low { top } else { low + 1 }));
            assert forall|i: int| 0 <= i < self.sets@.len() implies #[trigger] node_ok(
                self.sets@,
                self.roots@,
                self.rank@,
                i,
            ) by {
                assert(node_ok(before.sets@, before.roots@, before.rank@, i));
                lemma_relabel_sizes(before.roots@, gone as int, keep as int, i);
                if before.sets@[i] >= 0 {
                    assert(node_ok(before.sets@, before.roots@, before.rank@, before.sets@[i] as int));
                }
            }
        }
    }

    /// Number of elements.
    pub fn size(&self) -> (n: usize)
        requires
            self.wf(),
        ensures
            n == self@.len(),
    {
        self.sets.len()
    }
}

/// The partition after the pairs of `pairs` are merged one after another.
pub open spec fn union_all(roots: Seq<int>, pairs: Seq<(int, int)>) -> Seq<int>
    decreases pairs.len(),
{
    if pairs.len() == 0 {
        roots
    } else {
        merged(union_all(roots, pairs.drop_last()), pairs.last().0, pairs.last().1)
    }
}

/// Number of pairs of `pairs` that joined two different sets when their turn
/// came.
pub open spec fn effective_unions(roots: Seq<int>, pairs: Seq<(int, int)>) -> nat
    decreases pairs.len(),
{
    if pairs.len() == 0 {
        0
    } else {
        let before = union_all(roots, pairs.drop_last());
        effective_unions(roots, pairs.drop_last()) + if before[pairs.last().0]
            != before[pairs.last().1] {
            1nat
        } else {
            0nat
        }
    }
}

/// Every pair of `pairs` joined two different sets when its turn came.
pub open spec fn all_effective(roots: Seq<int>, pairs: Seq<(int, int)>) -> bool {
    forall|k: int|
        0 <= k < pairs.len() ==> {
            let before = #[trigger] union_all(roots, pairs.take(k));
            before[pairs[k].0] != before[pairs[k].1]
        }
}

/// Both elements of every pair are below `n`.
pub open spec fn pairs_in_range(n: nat, pairs: Seq<(int, int)>) -> bool {
    forall|k: int|
        0 <= k < pairs.len() ==> 0 <= (#[trigger] pairs[k]).0 < n && 0 <= pairs[k].1 < n
}

/// A representative represents itself: resolving the root of a root gives
/// that root again.
pub proof fn law_root_idempotent(ds: &DisjointSets, x: int)
    requires
        ds.wf(),
        0 <= x < ds@.len(),
    ensures
        0 <= ds@[x] < ds@.len(),
        ds@[ds@[x]] == ds@[x],
{
}

/// Merging keeps a partition a partition, and each merge of two different
/// sets removes exactly one set.
pub proof fn law_union_all_count(roots: Seq<int>, pairs: Seq<(int, int)>)
    requires
        is_partition(roots),
        pairs_in_range(roots.len(), pairs),
    ensures
        is_partition(union_all(roots, pairs)),
        union_all(roots, pairs).len() == roots.len(),
        num_sets(union_all(roots, pairs)) + effective_unions(roots, pairs) == num_sets(roots),
        effective_unions(roots, pairs) <= pairs.len(),
        all_effective(roots, pairs) ==> effective_unions(roots, pairs) == pairs.len(),
    decreases pairs.len(),
{
    if pairs.len() > 0 {
        let init = pairs.drop_last();
        assert(pairs[pairs.len() - 1] == pairs.last());
        assert forall|k: int| 0 <= k < init.len() implies 0 <= (#[trigger] init[k]).0 < roots.len()
            && 0 <= init[k].1 < roots.len() by {
            assert(init[k] == pairs[k]);
        }
        law_union_all_count(roots, init);
        lemma_merged_partition(union_all(roots, init), pairs.last().0, pairs.last().1);
        if all_effective(roots, pairs) {
            assert forall|k: int| 0 <= k < init.len() implies {
                let before = #[trigger] union_all(roots, init.take(k));
                before[init[k].0] != before[init[k].1]
            } by {
                assert(init.take(k) =~= pairs.take(k));
                let before = union_all(roots, pairs.take(k));
                assert(before[pairs[k].0] != before[pairs[k].1]);
            }
            assert(pairs.take(pairs.len() - 1) =~= init);
            let before = union_all(roots, pairs.take(pairs.len() - 1));
            assert(before[pairs[pairs.len() - 1].0] != before[pairs[pairs.len() - 1].1]);
        }
    }
}

/// After `k` merges on `n` singletons at least `n - k` sets are left, and
/// exactly `n - k` when every merge joined two different sets.
pub proof fn law_sets_after_unions(n: nat, pairs: Seq<(int, int)>)
    requires
        pairs_in_range(n, pairs),
    ensures
        num_sets(union_all(singletons(n), pairs)) >= n - pairs.len(),
        num_sets(union_all(singletons(n), pairs)) + effective_unions(singletons(n), pairs) == n,
        all_effective(singletons(n), pairs) ==> num_sets(union_all(singletons(n), pairs)) == n
            - pairs.len(),
{
    lemma_singletons_partition(n);
    law_union_all_count(singletons(n), pairs);
}

} // verus!
