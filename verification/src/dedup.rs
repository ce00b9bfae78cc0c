//! Order-preserving de-duplication of the expanded host list, and the
//! assignment of each surviving host's original index.
//!
//! Equality is by exact name bytes; the first occurrence of a name wins and
//! keeps its relative position. Indices are assigned densely, `0..n-1`, in
//! output order, and are never reassigned by any later stage.

use vstd::prelude::*;

use crate::util::{bytes_eq, copy_bytes, views};

verus! {

/// A host name with the position it occupied immediately after
/// de-duplication.
pub struct IndexedHost {
    pub name: Vec<u8>,
    pub original_index: usize,
}

/// Ghost image of an [`IndexedHost`].
pub struct IndexedHostV {
    pub name: Seq<u8>,
    pub original_index: int,
}

impl View for IndexedHost {
    type V = IndexedHostV;

    open spec fn view(&self) -> IndexedHostV {
        IndexedHostV { name: self.name@, original_index: self.original_index as int }
    }
}

/// First-occurrence-wins de-duplication: the distinct names of `s`, each at
/// the position of its first occurrence.
pub open spec fn spec_dedup(s: Seq<Seq<u8>>) -> Seq<Seq<u8>>
    decreases s.len(),
{
    if s.len() == 0 {
        seq![]
    } else {
        let pre = spec_dedup(s.drop_last());
        if pre.contains(s.last()) {
            pre
        } else {
            pre.push(s.last())
        }
    }
}

/// No name appears twice.
pub open spec fn no_duplicates(s: Seq<Seq<u8>>) -> bool {
    forall|i: int, j: int| 0 <= i < j < s.len() ==> s[i] != s[j]
}

/// De-duplication keeps exactly the names that were there.
pub proof fn lemma_dedup_contains(s: Seq<Seq<u8>>, x: Seq<u8>)
    ensures
        spec_dedup(s).contains(x) <==> s.contains(x),
    decreases s.len(),
{
    if s.len() > 0 {
        lemma_dedup_contains(s.drop_last(), x);
        let pre = spec_dedup(s.drop_last());
        let d = spec_dedup(s);
        if d.contains(x) {
            if pre.contains(x) {
                let i = choose|i: int| 0 <= i < pre.len() && pre[i] == x;
                assert(s.drop_last().contains(x));
                let j = choose|j: int| 0 <= j < s.drop_last().len() && s.drop_last()[j] == x;
                assert(s[j] == x);
                assert(s.contains(x));
            } else {
                assert(d == pre.push(s.last()));
                let i = choose|i: int| 0 <= i < d.len() && d[i] == x;
                if i < pre.len() {
                    assert(pre[i] == x);
                    assert(pre.contains(x));
                    assert(false);
                }
                assert(x == s.last());
                assert(s[s.len() - 1] == x);
                assert(s.contains(x));
            }
        }
        if s.contains(x) {
            let i = choose|i: int| 0 <= i < s.len() && s[i] == x;
            if i < s.len() - 1 {
                assert(s.drop_last()[i] == x);
                assert(s.drop_last().contains(x));
                let j = choose|j: int| 0 <= j < pre.len() && pre[j] == x;
                if pre.contains(s.last()) {
                    assert(d == pre);
                    assert(d.contains(x));
                } else {
                    assert(d == pre.push(s.last()));
                    assert(d[j] == x);
                    assert(d.contains(x));
                }
            } else {
                assert(x == s.last());
                if pre.contains(s.last()) {
                    assert(d == pre);
                    assert(d.contains(x));
                } else {
                    assert(d == pre.push(s.last()));
                    assert(d[d.len() - 1] == x);
                    assert(d.contains(x));
                }
            }
        }
    }
}

/// De-duplication leaves no duplicate behind.
pub proof fn lemma_dedup_no_duplicates(s: Seq<Seq<u8>>)
    ensures
        no_duplicates(spec_dedup(s)),
    decreases s.len(),
{
    if s.len() > 0 {
        lemma_dedup_no_duplicates(s.drop_last());
        let pre = spec_dedup(s.drop_last());
        if !pre.contains(s.last()) {
            assert forall|i: int, j: int|
                0 <= i < j < spec_dedup(s).len() implies spec_dedup(s)[i] != spec_dedup(
                s,
            )[j] by {
                if j == spec_dedup(s).len() - 1 {
                    assert(spec_dedup(s)[i] == pre[i]);
                    assert(pre.contains(pre[i]));
                }
            }
        }
    }
}

/// A list without duplicates is already de-duplicated.
pub proof fn lemma_dedup_of_distinct(s: Seq<Seq<u8>>)
    requires
        no_duplicates(s),
    ensures
        spec_dedup(s) == s,
    decreases s.len(),
{
    if s.len() == 0 {
        assert(spec_dedup(s) =~= s);
    } else {
        assert(forall|i: int, j: int|
            0 <= i < j < s.len() - 1 ==> s.drop_last()[i] != s.drop_last()[j]);
        lemma_dedup_of_distinct(s.drop_last());
        if s.drop_last().contains(s.last()) {
            let i = choose|i: int| 0 <= i < s.len() - 1 && s.drop_last()[i] == s.last();
            assert(s[i] == s[s.len() - 1]);
            assert(false);
        }
        assert(spec_dedup(s) =~= s);
    }
}

/// De-duplication is idempotent: de-duplicating an already de-duplicated
/// list gives the same list back.
pub proof fn lemma_dedup_idempotent(s: Seq<Seq<u8>>)
    ensures
        spec_dedup(spec_dedup(s)) == spec_dedup(s),
{
    lemma_dedup_no_duplicates(s);
    lemma_dedup_of_distinct(spec_dedup(s));
}

/// Whether any of `seen` holds the same bytes as `x`.
fn contains_name(seen: &Vec<Vec<u8>>, x: &Vec<u8>) -> (r: bool)
    ensures
        r == views(seen@).contains(x@),
{
    let mut i: usize = 0;
    while i < seen.len()
        invariant
            i <= seen@.len(),
            forall|j: int| 0 <= j < i ==> views(seen@)[j] != x@,
        decreases seen@.len() - i,
    {
        if bytes_eq(&seen[i], x) {
            proof {
                assert(views(seen@)[i as int] == x@);
            }
            return true;
        }
        proof {
            assert(views(seen@)[i as int] == seen@[i as int]@);
        }
        i = i + 1;
    }
    proof {
        if views(seen@).contains(x@) {
            let j = choose|j: int| 0 <= j < views(seen@).len() && views(seen@)[j] == x@;
            assert(views(seen@)[j] != x@);
        }
    }
    false
}

/// Removes duplicate names, first occurrence winning and order kept, and
/// assigns each surviving host its original index, densely from zero in
/// output order.
pub fn dedup(hosts: &Vec<Vec<u8>>) -> (r: Vec<IndexedHost>)
    ensures
        r@.len() == spec_dedup(views(hosts@)).len(),
        forall|i: int| 0 <= i < r@.len() ==> r@[i]@.name == spec_dedup(views(hosts@))[i],
        forall|i: int| 0 <= i < r@.len() ==> r@[i]@.original_index == i,
{
    let mut seen: Vec<Vec<u8>> = Vec::new();
    let mut out: Vec<IndexedHost> = Vec::new();
    let mut i: usize = 0;
    proof {
        assert(views(hosts@).subrange(0, 0) =~= Seq::<Seq<u8>>::empty());
    }
    while i < hosts.len()
        invariant
            i <= hosts@.len(),
            views(seen@) == spec_dedup(views(hosts@).subrange(0, i as int)),
            out@.len() == seen@.len(),
            forall|j: int| 0 <= j < out@.len() ==> out@[j]@.name == views(seen@)[j],
            forall|j: int| 0 <= j < out@.len() ==> out@[j]@.original_index == j,
        decreases hosts@.len() - i,
    {
        let ghost prefix = views(hosts@).subrange(0, i as int);
        let ghost prefix1 = views(hosts@).subrange(0, i + 1 as int);
        proof {
            assert(prefix1.drop_last() =~= prefix);
            assert(prefix1.last() == hosts@[i as int]@);
        }
        let name = &hosts[i];
        if !contains_name(&seen, name) {
            let idx = out.len();
            out.push(IndexedHost { name: copy_bytes(name), original_index: idx });
            seen.push(copy_bytes(name));
            proof {
                assert(views(seen@) =~= spec_dedup(prefix).push(hosts@[i as int]@));
            }
        }
        proof {
            assert(views(seen@) =~= spec_dedup(prefix1));
        }
        i = i + 1;
    }
    proof {
        assert(views(hosts@).subrange(0, hosts@.len() as int) =~= views(hosts@));
    }
    out
}

} // verus!
