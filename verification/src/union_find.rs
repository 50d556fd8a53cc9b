//! Union-find over the raw numbers of points.
use std::collections::HashMap;

use vstd::prelude::*;

verus! {

/// The classes after the given pairs are merged one after the other: each
/// number's representative. Merging `(a, b)` moves the class of `a` under the
/// representative of `b`.
pub open spec fn merged(pairs: Seq<(u64, u64)>, x: u64) -> u64
    decreases pairs.len(),
{
    if pairs.len() == 0 {
        x
    } else {
        let rest = pairs.drop_last();
        let (a, b) = pairs.last();
        if merged(rest, x) == merged(rest, a) {
            merged(rest, b)
        } else {
            merged(rest, x)
        }
    }
}

/// Both numbers of every merged pair have the same representative.
pub proof fn lemma_pairs_are_merged(pairs: Seq<(u64, u64)>, i: int)
    requires
        0 <= i < pairs.len(),
    ensures
        merged(pairs, pairs[i].0) == merged(pairs, pairs[i].1),
    decreases pairs.len(),
{
    if i < pairs.len() - 1 {
        lemma_pairs_are_merged(pairs.drop_last(), i);
    }
}

/// The classes are the finest that join all pairs: numbers with the same
/// representative are joined by everything that joins all pairs.
pub proof fn lemma_merged_is_finest(
    pairs: Seq<(u64, u64)>,
    class: spec_fn(u64) -> int,
    x: u64,
    y: u64,
)
    requires
        forall|i: int| 0 <= i < pairs.len() ==> class((#[trigger] pairs[i]).0) == class(pairs[i].1),
        merged(pairs, x) == merged(pairs, y),
    ensures
        class(x) == class(y),
    decreases pairs.len(),
{
    lemma_representative_in_class(pairs, class, x);
    lemma_representative_in_class(pairs, class, y);
}

proof fn lemma_representative_in_class(
    pairs: Seq<(u64, u64)>,
    class: spec_fn(u64) -> int,
    x: u64,
)
    requires
        forall|i: int| 0 <= i < pairs.len() ==> class((#[trigger] pairs[i]).0) == class(pairs[i].1),
    ensures
        class(merged(pairs, x)) == class(x),
    decreases pairs.len(),
{
    if pairs.len() > 0 {
        let rest = pairs.drop_last();
        let (a, b) = pairs.last();
        assert(class(pairs[pairs.len() - 1].0) == class(pairs[pairs.len() - 1].1));
        assert forall|i: int| 0 <= i < rest.len() implies class((#[trigger] rest[i]).0) == class(
            rest[i].1,
        ) by {
            assert(rest[i] == pairs[i]);
        }
        lemma_representative_in_class(rest, class, x);
        lemma_representative_in_class(rest, class, a);
        lemma_representative_in_class(rest, class, b);
    }
}

/// A representative represents itself.
pub proof fn lemma_representative_is_own(pairs: Seq<(u64, u64)>, x: u64)
    ensures
        merged(pairs, merged(pairs, x)) == merged(pairs, x),
    decreases pairs.len(),
{
    if pairs.len() > 0 {
        let rest = pairs.drop_last();
        let (a, b) = pairs.last();
        lemma_representative_is_own(rest, x);
        lemma_representative_is_own(rest, a);
        lemma_representative_is_own(rest, b);
    }
}

/// A number or one of the numbers in the pairs represents each number.
pub proof fn lemma_representative_origin(pairs: Seq<(u64, u64)>, x: u64)
    ensures
        merged(pairs, x) == x || exists|i: int|
            0 <= i < pairs.len() && ((#[trigger] pairs[i]).0 == merged(pairs, x) || pairs[i].1
                == merged(pairs, x)),
    decreases pairs.len(),
{
    if pairs.len() > 0 {
        let rest = pairs.drop_last();
        let (a, b) = pairs.last();
        let r = merged(pairs, x);
        lemma_representative_origin(rest, x);
        lemma_representative_origin(rest, b);
        assert(pairs[pairs.len() - 1] == (a, b));
        if merged(rest, x) == merged(rest, a) {
            if merged(rest, b) != b {
                let i = choose|i: int|
                    0 <= i < rest.len() && ((#[trigger] rest[i]).0 == merged(rest, b) || rest[i].1
                        == merged(rest, b));
                assert(pairs[i] == rest[i]);
            }
        } else if merged(rest, x) != x {
            let i = choose|i: int|
                0 <= i < rest.len() && ((#[trigger] rest[i]).0 == merged(rest, x) || rest[i].1
                    == merged(rest, x));
            assert(pairs[i] == rest[i]);
        }
    }
}

/// A forest in which every number leads to its representative.
pub struct UnionFind {
    parent: HashMap<u64, u64>,
    pairs: Ghost<Seq<(u64, u64)>>,
    depth: Ghost<spec_fn(u64) -> nat>,
}

impl UnionFind {
    /// The pairs that have been merged so far.
    pub closed spec fn pairs(&self) -> Seq<(u64, u64)> {
        self.pairs@
    }

    /// A bound on the length of the path from each number to its root.
    pub closed spec fn heights(&self) -> spec_fn(u64) -> nat {
        self.depth@
    }

    /// Every step towards the root stays in the class and comes nearer to its
    /// representative, which is the root.
    pub closed spec fn wf(&self) -> bool {
        &&& forall|x: u64| #[trigger]
            self.parent@.contains_key(x) ==> {
                &&& (self.depth@)(self.parent@[x]) < (self.depth@)(x)
                &&& merged(self.pairs@, self.parent@[x]) == merged(self.pairs@, x)
            }
        &&& forall|x: u64|
            !#[trigger] self.parent@.contains_key(x) <==> merged(self.pairs@, x) == x
        &&& forall|x: u64|
            merged(self.pairs@, x) != x ==> (self.depth@)(#[trigger] merged(self.pairs@, x)) < (
            self.depth@)(x)
    }

    /// Every number represents itself.
    pub fn new() -> (classes: Self)
        ensures
            classes.wf(),
            classes.pairs() == Seq::<(u64, u64)>::empty(),
    {
        broadcast use vstd::std_specs::hash::group_hash_axioms;

        UnionFind {
            parent: HashMap::new(),
            pairs: Ghost(Seq::empty()),
            depth: Ghost(|x: u64| 0nat),
        }
    }

    /// The representative of a number. The path to it becomes shorter; no
    /// class changes.
    pub fn find(&mut self, id: u64) -> (root: u64)
        requires
            old(self).wf(),
        ensures
            final(self).wf(),
            final(self).pairs() == old(self).pairs(),
            root == merged(old(self).pairs(), id),
            final(self).heights() == old(self).heights(),
        decreases (old(self).heights())(id),
    {
        broadcast use vstd::std_specs::hash::group_hash_axioms;

        let parent = match self.parent.get(&id) {
            Some(parent) => *parent,
            None => id,
        };
        if parent == id {
            return id;
        }
        let root = self.find(parent);
        proof {
            lemma_representative_is_own(self.pairs@, id);
        }
        self.parent.insert(id, root);
        root
    }

    /// Merges the classes of two numbers.
    pub fn union(&mut self, a: u64, b: u64)
        requires
            old(self).wf(),
        ensures
            final(self).wf(),
            final(self).pairs() == old(self).pairs().push((a, b)),
    {
        broadcast use vstd::std_specs::hash::group_hash_axioms;

        let ghost before = self.pairs@;
        let ghost depth = self.depth@;
        let ra = self.find(a);
        let rb = self.find(b);
        let ghost after = before.push((a, b));
        proof {
            assert(after.drop_last() =~= before);
            assert forall|x: u64| #[trigger] merged(after, x) == (if merged(before, x) == ra {
                rb
            } else {
                merged(before, x)
            }) by {}
            lemma_representative_is_own(before, a);
            lemma_representative_is_own(before, b);
        }
        if ra != rb {
            self.parent.insert(ra, rb);
            proof {
                self.depth@ = |x: u64|
                    if merged(before, x) == ra {
                        (depth(x) + depth(rb) + 1) as nat
                    } else {
                        depth(x)
                    };
            }
        }
        proof {
            self.pairs@ = after;
            assert forall|x: u64|
                !#[trigger] self.parent@.contains_key(x) <==> merged(after, x) == x by {
                lemma_representative_is_own(before, x);
            }
            assert forall|x: u64| merged(after, x) != x implies (self.depth@)(
                #[trigger] merged(after, x),
            ) < (self.depth@)(x) by {
                lemma_representative_is_own(before, x);
            }
        }
    }
}

} // verus!
