//! The order in which the files of a directory are taken: by path, byte by
//! byte, so that the same files get the same numbers in every run.

use vstd::multiset::Multiset;
use vstd::prelude::*;
use vstd::seq_lib::{to_multiset_build, to_multiset_remove};

verus! {

/// Whether `a` stands before `b`, or is `b`, in the order of the dictionary:
/// the first byte in which they differ decides, and a string stands before
/// every longer string that starts with it.
pub open spec fn precedes(a: Seq<u8>, b: Seq<u8>) -> bool
    decreases a.len(),
{
    if a.len() == 0 {
        true
    } else if b.len() == 0 {
        false
    } else if a[0] != b[0] {
        a[0] < b[0]
    } else {
        precedes(a.drop_first(), b.drop_first())
    }
}

/// Whether each path stands before all that follow it.
pub open spec fn ordered(paths: Seq<Seq<u8>>) -> bool {
    forall|i: int, j: int| 0 <= i <= j < paths.len() ==> precedes(paths[i], paths[j])
}

/// The byte strings that a sequence of vectors holds.
pub open spec fn contents(paths: Seq<Vec<u8>>) -> Seq<Seq<u8>> {
    paths.map_values(|path: Vec<u8>| path@)
}

/// Of two paths, one stands before the other.
pub proof fn lemma_precedes_total(a: Seq<u8>, b: Seq<u8>)
    ensures
        precedes(a, b) || precedes(b, a),
    decreases a.len(),
{
    if a.len() > 0 && b.len() > 0 && a[0] == b[0] {
        lemma_precedes_total(a.drop_first(), b.drop_first());
    }
}

/// What stands before a path stands before all that the path stands before.
pub proof fn lemma_precedes_transitive(a: Seq<u8>, b: Seq<u8>, c: Seq<u8>)
    requires
        precedes(a, b),
        precedes(b, c),
    ensures
        precedes(a, c),
    decreases a.len(),
{
    if a.len() > 0 && a[0] == b[0] && b[0] == c[0] {
        lemma_precedes_transitive(a.drop_first(), b.drop_first(), c.drop_first());
    }
}

/// Two paths that stand before each other are the same path.
pub proof fn lemma_precedes_antisymmetric(a: Seq<u8>, b: Seq<u8>)
    requires
        precedes(a, b),
        precedes(b, a),
    ensures
        a == b,
    decreases a.len(),
{
    if a.len() > 0 {
        lemma_precedes_antisymmetric(a.drop_first(), b.drop_first());
        assert(a =~= seq![a[0]] + a.drop_first());
        assert(b =~= seq![b[0]] + b.drop_first());
    } else {
        assert(a =~= b);
    }
}

/// There is one order only: two ordered sequences that hold the same paths,
/// each as often as the other, are the same sequence. So the order of a
/// directory's files does not depend on how the directory was read.
pub proof fn lemma_ordered_unique(a: Seq<Seq<u8>>, b: Seq<Seq<u8>>)
    requires
        ordered(a),
        ordered(b),
        a.to_multiset() == b.to_multiset(),
    ensures
        a == b,
    decreases a.len(),
{
    a.to_multiset_ensures();
    b.to_multiset_ensures();
    if a.len() == 0 {
        assert(a =~= b);
    } else {
        assert(a.contains(a[0]));
        assert(b.contains(b[0]));
        assert(a.to_multiset().count(a[0]) > 0);
        assert(b.to_multiset().count(b[0]) > 0);
        assert(b.to_multiset().count(a[0]) > 0);
        assert(a.to_multiset().count(b[0]) > 0);
        assert(b.contains(a[0]));
        assert(a.contains(b[0]));
        let j = choose|j: int| 0 <= j < b.len() && b[j] == a[0];
        let k = choose|k: int| 0 <= k < a.len() && a[k] == b[0];
        assert(precedes(b[0], b[j]));
        assert(precedes(a[0], a[k]));
        lemma_precedes_antisymmetric(a[0], b[0]);
        let a_rest = a.drop_first();
        let b_rest = b.drop_first();
        assert(a_rest =~= a.remove(0));
        assert(b_rest =~= b.remove(0));
        to_multiset_remove(a, 0);
        to_multiset_remove(b, 0);
        assert forall|i: int, j: int| 0 <= i <= j < a_rest.len() implies precedes(
            a_rest[i],
            a_rest[j],
        ) by {
            assert(a_rest[i] == a[i + 1] && a_rest[j] == a[j + 1]);
        }
        assert forall|i: int, j: int| 0 <= i <= j < b_rest.len() implies precedes(
            b_rest[i],
            b_rest[j],
        ) by {
            assert(b_rest[i] == b[i + 1] && b_rest[j] == b[j + 1]);
        }
        lemma_ordered_unique(a_rest, b_rest);
        assert(a =~= seq![a[0]] + a_rest);
        assert(b =~= seq![b[0]] + b_rest);
    }
}

/// Whether `a` stands before `b`, or is `b`.
pub fn path_precedes(a: &[u8], b: &[u8]) -> (before: bool)
    ensures
        before == precedes(a@, b@),
{
    let mut i: usize = 0;
    assert(a@.skip(0) =~= a@ && b@.skip(0) =~= b@);
    while i < a.len() && i < b.len() && a[i] == b[i]
        invariant
            i <= a.len(),
            i <= b.len(),
            precedes(a@, b@) == precedes(a@.skip(i as int), b@.skip(i as int)),
        decreases a.len() - i,
    {
        assert(a@.skip(i as int).drop_first() =~= a@.skip(i + 1));
        assert(b@.skip(i as int).drop_first() =~= b@.skip(i + 1));
        i = i + 1;
    }
    if i == a.len() {
        true
    } else if i == b.len() {
        false
    } else {
        a[i] < b[i]
    }
}

/// The paths in order. Nothing is added and nothing is lost: each path comes
/// out as often as it went in.
pub fn sort_paths(paths: Vec<Vec<u8>>) -> (sorted: Vec<Vec<u8>>)
    ensures
        ordered(contents(sorted@)),
        contents(sorted@).to_multiset() == contents(paths@).to_multiset(),
        sorted@.len() == paths@.len(),
{
    let mut sorted: Vec<Vec<u8>> = Vec::new();
    let mut rest = paths;
    assert(contents(sorted@).to_multiset().add(contents(rest@).to_multiset()) =~= contents(
        paths@,
    ).to_multiset()) by {
        assert(contents(sorted@) =~= Seq::<Seq<u8>>::empty());
        Seq::<Seq<u8>>::empty().to_multiset_ensures();
        assert(Seq::<Seq<u8>>::empty().to_multiset() =~= Multiset::<Seq<u8>>::empty());
    }
    while rest.len() > 0
        invariant
            ordered(contents(sorted@)),
            contents(sorted@).to_multiset().add(contents(rest@).to_multiset()) == contents(
                paths@,
            ).to_multiset(),
            sorted@.len() + rest@.len() == paths@.len(),
        decreases rest.len(),
    {
        let ghost rest_before = contents(rest@);
        let ghost sorted_before = contents(sorted@);
        let path = rest.pop().unwrap();
        proof {
            assert(rest_before =~= contents(rest@).push(path@));
            to_multiset_build(contents(rest@), path@);
        }
        let mut k: usize = 0;
        while k < sorted.len() && path_precedes(sorted[k].as_slice(), path.as_slice())
            invariant
                k <= sorted.len(),
                forall|i: int| 0 <= i < k ==> precedes(#[trigger] contents(sorted@)[i], path@),
            decreases sorted.len() - k,
        {
            k = k + 1;
        }
        proof {
            let before = contents(sorted@);
            let after = before.insert(k as int, path@);
            assert forall|i: int, j: int| 0 <= i <= j < after.len() implies precedes(
                after[i],
                after[j],
            ) by {
                if j < k {
                    assert(after[i] == before[i] && after[j] == before[j]);
                } else if j == k {
                    if i < k {
                        assert(after[i] == before[i]);
                    } else {
                        lemma_precedes_total(path@, path@);
                    }
                } else {
                    assert(after[j] == before[j - 1]);
                    lemma_precedes_total(before[k as int], path@);
                    if i < k {
                        assert(after[i] == before[i]);
                    } else if i == k {
                        if j - 1 > k {
                            lemma_precedes_transitive(path@, before[k as int], before[j - 1]);
                        }
                    } else {
                        assert(after[i] == before[i - 1]);
                    }
                }
            }
            assert(after.remove(k as int) =~= before);
            to_multiset_remove(after, k as int);
            after.to_multiset_ensures();
            assert(after.contains(path@)) by {
                assert(after[k as int] == path@);
            }
            assert(after.to_multiset() =~= before.to_multiset().insert(path@));
        }
        sorted.insert(k, path);
        assert(contents(sorted@) =~= sorted_before.insert(k as int, path@));
    }
    proof {
        assert(contents(rest@) =~= Seq::<Seq<u8>>::empty());
        Seq::<Seq<u8>>::empty().to_multiset_ensures();
        assert(contents(rest@).to_multiset() =~= Multiset::<Seq<u8>>::empty());
        assert(contents(sorted@).to_multiset().add(contents(rest@).to_multiset()) =~= contents(
            sorted@,
        ).to_multiset());
    }
    sorted
}

} // verus!
