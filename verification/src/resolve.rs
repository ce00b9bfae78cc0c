//! Order restoration and validity accounting for concurrent host resolution.
//!
//! Lookups run concurrently and complete in any order; each one yields a
//! [`ResolvedHost`] carrying the host's original index, with `None` standing
//! for a name that did not resolve (or resolved to no address) — never an
//! absent entry. `order_results` collects such a buffer back into
//! original-index order, and `split_valid` separates the hosts that can be
//! dispatched from the count of those that cannot, so the caller can report
//! how many of the hosts failed to resolve without losing count.

use vstd::prelude::*;

use crate::util::copy_bytes;

verus! {

/// The result of resolving one host: its name, its address (`None` when
/// resolution failed or returned no address), and the original index the
/// name was assigned after de-duplication.
pub struct ResolvedHost {
    pub name: Vec<u8>,
    pub address: Option<Vec<u8>>,
    pub original_index: usize,
}

/// Ghost image of a [`ResolvedHost`].
pub struct ResolvedHostV {
    pub name: Seq<u8>,
    pub address: Option<Seq<u8>>,
    pub original_index: int,
}

impl View for ResolvedHost {
    type V = ResolvedHostV;

    open spec fn view(&self) -> ResolvedHostV {
        ResolvedHostV {
            name: self.name@,
            address: match self.address {
                Some(a) => Some(a@),
                None => None,
            },
            original_index: self.original_index as int,
        }
    }
}

/// The ghost images of a buffer of resolved hosts.
pub open spec fn rviews(s: Seq<ResolvedHost>) -> Seq<ResolvedHostV> {
    s.map_values(|h: ResolvedHost| h@)
}

/// Sorted by original index, ties allowed.
pub open spec fn sorted_by_index(s: Seq<ResolvedHostV>) -> bool {
    forall|i: int, j: int|
        0 <= i < j < s.len() ==> #[trigger] s[i].original_index <= #[trigger] s[j].original_index
}

/// No two entries carry the same original index.
pub open spec fn distinct_indices(s: Seq<ResolvedHostV>) -> bool {
    forall|i: int, j: int|
        0 <= i < j < s.len() ==> #[trigger] s[i].original_index != #[trigger] s[j].original_index
}

/// Copies a resolved host.
pub fn clone_resolved(h: &ResolvedHost) -> (r: ResolvedHost)
    ensures
        r@ == h@,
{
    let address = match &h.address {
        Some(a) => Some(copy_bytes(a)),
        None => None,
    };
    ResolvedHost { name: copy_bytes(&h.name), address, original_index: h.original_index }
}

/// Restores a concurrently filled buffer to original-index order: the same
/// entries — one per input, exactly as they came — sorted by original index.
pub fn order_results(results: Vec<ResolvedHost>) -> (r: Vec<ResolvedHost>)
    ensures
        r@.len() == results@.len(),
        rviews(r@).to_multiset() == rviews(results@).to_multiset(),
        sorted_by_index(rviews(r@)),
{
    broadcast use vstd::seq_lib::group_to_multiset_ensures;
    broadcast use vstd::seq_lib::to_multiset_insert;

    let mut work = results;
    let mut out: Vec<ResolvedHost> = Vec::new();
    proof {
        assert(rviews(out@) =~= Seq::<ResolvedHostV>::empty());
        assert(rviews(out@).to_multiset().add(rviews(work@).to_multiset()) =~= rviews(
            work@,
        ).to_multiset());
    }
    while work.len() > 0
        invariant
            out@.len() + work@.len() == results@.len(),
            rviews(out@).to_multiset().add(rviews(work@).to_multiset()) == rviews(
                results@,
            ).to_multiset(),
            sorted_by_index(rviews(out@)),
        decreases work@.len(),
    {
        let ghost work0 = work@;
        let h = match work.pop() {
            Some(h) => h,
            None => {
                proof {
                    assert(false);
                }
                unreached()
            },
        };
        proof {
            broadcast use vstd::seq_lib::group_to_multiset_ensures;
            broadcast use vstd::seq_lib::to_multiset_insert;

            assert(rviews(work0) =~= rviews(work@).push(h@));
            assert(rviews(work0).to_multiset() =~= rviews(work@).to_multiset().insert(h@));
        }
        let mut pos: usize = 0;
        while pos < out.len()
            invariant
                pos <= out@.len(),
                forall|j: int|
                    0 <= j < pos ==> #[trigger] rviews(out@)[j].original_index
                        <= h@.original_index,
            ensures
                pos <= out@.len(),
                forall|j: int|
                    0 <= j < pos ==> #[trigger] rviews(out@)[j].original_index
                        <= h@.original_index,
                pos < out@.len() ==> rviews(out@)[pos as int].original_index > h@.original_index,
            decreases out@.len() - pos,
        {
            proof {
                assert(rviews(out@)[pos as int] == out@[pos as int]@);
            }
            if out[pos].original_index > h.original_index {
                break;
            }
            pos = pos + 1;
        }
        let ghost out0 = out@;
        out.insert(pos, h);
        proof {
            broadcast use vstd::seq_lib::group_to_multiset_ensures;
            broadcast use vstd::seq_lib::to_multiset_insert;

            assert(rviews(out@) =~= rviews(out0).insert(pos as int, h@));
            assert(rviews(out@).to_multiset() =~= rviews(out0).to_multiset().insert(h@));
            rviews(out0).insert_ensures(pos as int, h@);
            assert forall|i: int, j: int|
                0 <= i < j < rviews(out@).len() implies #[trigger] rviews(
                out@,
            )[i].original_index <= #[trigger] rviews(out@)[j].original_index by {
                if j < pos {
                    assert(rviews(out@)[i] == rviews(out0)[i]);
                    assert(rviews(out@)[j] == rviews(out0)[j]);
                } else if j == pos {
                    assert(rviews(out@)[i] == rviews(out0)[i]);
                    assert(rviews(out@)[j] == h@);
                } else {
                    assert(rviews(out@)[j] == rviews(out0)[j - 1]);
                    assert(pos < out0.len());
                    assert(rviews(out0)[pos as int].original_index > h@.original_index);
                    if i < pos {
                        assert(rviews(out@)[i] == rviews(out0)[i]);
                        assert(rviews(out0)[i].original_index <= rviews(
                            out0,
                        )[pos as int].original_index);
                    } else if i == pos {
                        assert(rviews(out@)[i] == h@);
                    } else {
                        assert(rviews(out@)[i] == rviews(out0)[i - 1]);
                    }
                }
            }
            assert(rviews(out@).to_multiset().add(rviews(work@).to_multiset()) =~= rviews(
                results@,
            ).to_multiset());
        }
    }
    proof {
        assert(rviews(work@) =~= Seq::<ResolvedHostV>::empty());
        assert(rviews(out@).to_multiset().add(rviews(work@).to_multiset()) =~= rviews(
            out@,
        ).to_multiset());
    }
    out
}

/// Two sorted collections of the same lookup results are the same list:
/// whatever order concurrent lookups completed in, restoring original-index
/// order gives one and the same output, one entry per input.
pub proof fn lemma_order_deterministic(a: Seq<ResolvedHostV>, b: Seq<ResolvedHostV>)
    requires
        a.to_multiset() == b.to_multiset(),
        sorted_by_index(a),
        sorted_by_index(b),
        distinct_indices(a),
    ensures
        a == b,
    decreases a.len(),
{
    broadcast use vstd::seq_lib::group_to_multiset_ensures;

    assert(a.len() == a.to_multiset().len());
    assert(b.len() == b.to_multiset().len());
    if a.len() == 0 {
        assert(a =~= b);
    } else {
        assert(b.to_multiset().contains(b[0]));
        assert(a.to_multiset().contains(b[0]));
        assert(a.contains(b[0]));
        let i = choose|i: int| 0 <= i < a.len() && a[i] == b[0];
        assert(a.to_multiset().contains(a[0]));
        assert(b.to_multiset().contains(a[0]));
        assert(b.contains(a[0]));
        let j = choose|j: int| 0 <= j < b.len() && b[j] == a[0];
        assert(a[0].original_index <= a[i].original_index);
        assert(b[0].original_index <= b[j].original_index);
        if i > 0 {
            assert(a[0].original_index != a[i].original_index);
            assert(a[0].original_index < b[0].original_index);
            assert(b[0].original_index <= a[0].original_index);
            assert(false);
        }
        assert(a[0] == b[0]);
        assert(a.drop_first().to_multiset() =~= a.to_multiset().remove(a[0])) by {
            assert(a.remove(0) =~= a.drop_first());
        }
        assert(b.drop_first().to_multiset() =~= b.to_multiset().remove(b[0])) by {
            assert(b.remove(0) =~= b.drop_first());
        }
        assert forall|p: int, q: int|
            0 <= p < q < a.drop_first().len() implies #[trigger] a.drop_first()[p].original_index
            != #[trigger] a.drop_first()[q].original_index by {
            assert(a.drop_first()[p] == a[p + 1]);
            assert(a.drop_first()[q] == a[q + 1]);
        }
        lemma_order_deterministic(a.drop_first(), b.drop_first());
        assert(a =~= seq![a[0]] + a.drop_first());
        assert(b =~= seq![b[0]] + b.drop_first());
    }
}

/// The subsequence of `s` whose entries carry an address, in order.
pub open spec fn valid_hosts(s: Seq<ResolvedHostV>) -> Seq<ResolvedHostV>
    decreases s.len(),
{
    if s.len() == 0 {
        Seq::empty()
    } else if s.last().address is Some {
        valid_hosts(s.drop_last()).push(s.last())
    } else {
        valid_hosts(s.drop_last())
    }
}

/// What survives the validity split: every kept entry has an address and
/// comes from the input, no more entries than there were, and both the
/// original-index order and the uniqueness of indices are preserved.
pub proof fn lemma_valid_hosts(s: Seq<ResolvedHostV>)
    ensures
        valid_hosts(s).len() <= s.len(),
        forall|k: int|
            0 <= k < valid_hosts(s).len() ==> (#[trigger] valid_hosts(s)[k]).address is Some
                && s.contains(valid_hosts(s)[k]),
        sorted_by_index(s) ==> sorted_by_index(valid_hosts(s)),
        distinct_indices(s) ==> distinct_indices(valid_hosts(s)),
    decreases s.len(),
{
    if s.len() > 0 {
        lemma_valid_hosts(s.drop_last());
        let d = s.drop_last();
        let v = valid_hosts(s);
        assert forall|k: int|
            0 <= k < valid_hosts(d).len() implies s.contains(
            #[trigger] valid_hosts(d)[k],
        ) && (exists|p: int| 0 <= p < s.len() - 1 && s[p] == valid_hosts(d)[k]) by {
            assert(d.contains(valid_hosts(d)[k]));
            let p = choose|p: int| 0 <= p < d.len() && d[p] == valid_hosts(d)[k];
            assert(s[p] == valid_hosts(d)[k]);
        }
        if s.last().address is Some {
            assert(v == valid_hosts(d).push(s.last()));
            assert forall|k: int|
                0 <= k < v.len() implies (#[trigger] v[k]).address is Some && s.contains(
                v[k],
            ) by {
                if k < v.len() - 1 {
                    assert(v[k] == valid_hosts(d)[k]);
                } else {
                    assert(v[k] == s.last());
                    assert(s[s.len() - 1] == s.last());
                }
            }
            if sorted_by_index(s) {
                assert(forall|i: int, j: int|
                    0 <= i < j < d.len() ==> #[trigger] d[i].original_index
                        <= #[trigger] d[j].original_index);
                assert forall|i: int, j: int|
                    0 <= i < j < v.len() implies #[trigger] v[i].original_index
                    <= #[trigger] v[j].original_index by {
                    if j == v.len() - 1 {
                        let p = choose|p: int| 0 <= p < s.len() - 1 && s[p] == valid_hosts(d)[i];
                        assert(s[p].original_index <= s[s.len() - 1].original_index);
                    }
                }
            }
            if distinct_indices(s) {
                assert(forall|i: int, j: int|
                    0 <= i < j < d.len() ==> #[trigger] d[i].original_index
                        != #[trigger] d[j].original_index);
                assert forall|i: int, j: int|
                    0 <= i < j < v.len() implies #[trigger] v[i].original_index
                    != #[trigger] v[j].original_index by {
                    if j == v.len() - 1 {
                        let p = choose|p: int| 0 <= p < s.len() - 1 && s[p] == valid_hosts(d)[i];
                        assert(s[p].original_index != s[s.len() - 1].original_index);
                    }
                }
            }
        } else {
            if sorted_by_index(s) {
                assert(forall|i: int, j: int|
                    0 <= i < j < d.len() ==> #[trigger] d[i].original_index
                        <= #[trigger] d[j].original_index);
            }
            if distinct_indices(s) {
                assert(forall|i: int, j: int|
                    0 <= i < j < d.len() ==> #[trigger] d[i].original_index
                        != #[trigger] d[j].original_index);
            }
        }
    }
}

/// Keeps, in order, the hosts that resolved to an address, and counts those
/// that did not; the latter are excluded from dispatch but reported.
pub fn split_valid(hosts: &Vec<ResolvedHost>) -> (r: (Vec<ResolvedHost>, usize))
    ensures
        rviews(r.0@) == valid_hosts(rviews(hosts@)),
        r.1 == hosts@.len() - r.0@.len(),
        r.0@.len() <= hosts@.len(),
{
    let mut kept: Vec<ResolvedHost> = Vec::new();
    let mut i: usize = 0;
    proof {
        assert(rviews(hosts@).subrange(0, 0) =~= Seq::<ResolvedHostV>::empty());
        assert(rviews(kept@) =~= valid_hosts(rviews(hosts@).subrange(0, 0)));
    }
    while i < hosts.len()
        invariant
            i <= hosts@.len(),
            kept@.len() <= i,
            rviews(kept@) == valid_hosts(rviews(hosts@).subrange(0, i as int)),
        decreases hosts@.len() - i,
    {
        let ghost prefix = rviews(hosts@).subrange(0, i as int);
        let ghost prefix1 = rviews(hosts@).subrange(0, i + 1 as int);
        proof {
            assert(prefix1.drop_last() =~= prefix);
            assert(prefix1.last() == hosts@[i as int]@);
        }
        let h = &hosts[i];
        let is_valid = match &h.address {
            Some(_) => true,
            None => false,
        };
        if is_valid {
            kept.push(clone_resolved(h));
            proof {
                assert(rviews(kept@) =~= valid_hosts(prefix).push(hosts@[i as int]@));
            }
        }
        proof {
            assert(rviews(kept@) =~= valid_hosts(prefix1));
        }
        i = i + 1;
    }
    proof {
        assert(rviews(hosts@).subrange(0, hosts@.len() as int) =~= rviews(hosts@));
    }
    let count = hosts.len() - kept.len();
    (kept, count)
}

} // verus!
