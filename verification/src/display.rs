//! Display-name shortening.
//!
//! When every host of a run shares a domain suffix, the suffix carries no
//! information: the run computes, once, the longest suffix that begins with
//! a dot and is common to all names, and — if there are at least two hosts
//! and such a suffix exists — every display name drops it in favour of a `*`
//! placeholder. Otherwise names are shown unchanged.

use vstd::prelude::*;

use crate::util::{copy_bytes, find_byte, lemma_first_at, subvec, views};

verus! {

pub const DOT: u8 = 46;

pub const STAR: u8 = 42;

/// `s` is a suffix of `t`.
pub open spec fn is_suffix_of(s: Seq<u8>, t: Seq<u8>) -> bool {
    s.len() <= t.len() && s == t.subrange(t.len() - s.len(), t.len() as int)
}

/// `s` is a suffix of every name.
pub open spec fn common_suffix_of_all(s: Seq<u8>, names: Seq<Seq<u8>>) -> bool {
    forall|i: int| 0 <= i < names.len() ==> is_suffix_of(s, #[trigger] names[i])
}

/// A suffix of a suffix is a suffix.
proof fn lemma_suffix_trans(s: Seq<u8>, t: Seq<u8>, u: Seq<u8>)
    requires
        is_suffix_of(s, t),
        is_suffix_of(t, u),
    ensures
        is_suffix_of(s, u),
{
    assert(s =~= u.subrange(u.len() - s.len(), u.len() as int));
}

/// Of two suffixes of one string, the shorter is a suffix of the longer.
proof fn lemma_suffix_nested(s: Seq<u8>, t: Seq<u8>, u: Seq<u8>)
    requires
        is_suffix_of(s, u),
        is_suffix_of(t, u),
        s.len() <= t.len(),
    ensures
        is_suffix_of(s, t),
{
    assert(s =~= t.subrange(t.len() - s.len(), t.len() as int));
}

/// The longest common suffix of two byte strings.
fn common_suffix2(a: &Vec<u8>, b: &Vec<u8>) -> (r: Vec<u8>)
    ensures
        is_suffix_of(r@, a@),
        is_suffix_of(r@, b@),
        forall|c: Seq<u8>| is_suffix_of(c, a@) && is_suffix_of(c, b@) ==> c.len() <= r@.len(),
{
    let alen = a.len();
    let blen = b.len();
    let mut k: usize = 0;
    loop
        invariant
            k <= alen,
            k <= blen,
            alen == a@.len(),
            blen == b@.len(),
            forall|d: int| 0 <= d < k ==> #[trigger] a@[alen - 1 - d] == b@[blen - 1 - d],
        ensures
            k <= alen && k <= blen,
            forall|d: int| 0 <= d < k ==> #[trigger] a@[alen - 1 - d] == b@[blen - 1 - d],
            k < alen && k < blen ==> a@[alen - 1 - k] != b@[blen - 1 - k],
        decreases alen - k,
    {
        if k >= alen || k >= blen {
            break;
        }
        if a[alen - 1 - k] != b[blen - 1 - k] {
            break;
        }
        k = k + 1;
    }
    let r = subvec(a, alen - k, alen);
    proof {
        assert(is_suffix_of(r@, a@));
        assert forall|d2: int|
            0 <= d2 < k implies r@[d2] == b@.subrange(blen - k, blen as int)[d2] by {
            let d = k - 1 - d2;
            assert(a@[alen - 1 - d] == b@[blen - 1 - d]);
            assert(r@[d2] == a@[alen - k + d2]);
            assert(alen - 1 - d == alen - k + d2);
            assert(b@.subrange(blen - k, blen as int)[d2] == b@[blen - k + d2]);
            assert(blen - 1 - d == blen - k + d2);
        }
        assert(r@ =~= b@.subrange(blen - k, blen as int));
        assert(is_suffix_of(r@, b@));
        assert forall|c: Seq<u8>|
            is_suffix_of(c, a@) && is_suffix_of(c, b@) implies c.len() <= r@.len() by {
            if c.len() > k {
                assert(k < alen && k < blen);
                assert(c[c.len() - 1 - k] == a@[alen - 1 - k]) by {
                    assert(c == a@.subrange(alen - c.len(), alen as int));
                    assert(c[c.len() - 1 - k] == a@.subrange(alen - c.len(), alen as int)[c.len()
                        - 1 - k]);
                }
                assert(c[c.len() - 1 - k] == b@[blen - 1 - k]) by {
                    assert(c == b@.subrange(blen - c.len(), blen as int));
                    assert(c[c.len() - 1 - k] == b@.subrange(blen - c.len(), blen as int)[c.len()
                        - 1 - k]);
                }
                assert(false);
            }
        }
    }
    r
}

/// Finds the longest suffix that begins with a dot and is common to every
/// name: the longest common suffix, cut down to its first dot. `Some`
/// exactly when there are at least two names and some dot-led suffix is
/// common to all of them; `None` otherwise.
pub fn find_common_suffix(hostnames: &Vec<Vec<u8>>) -> (r: Option<Vec<u8>>)
    ensures
        match r {
            Some(s) => hostnames@.len() >= 2 && s@.len() > 0 && s@[0] == DOT
                && common_suffix_of_all(s@, views(hostnames@)) && (forall|c: Seq<u8>|
                common_suffix_of_all(c, views(hostnames@)) && c.len() > 0 && c[0] == DOT
                    ==> c.len() <= s@.len()),
            None => hostnames@.len() < 2 || (forall|c: Seq<u8>|
                common_suffix_of_all(c, views(hostnames@)) ==> c.len() == 0 || c[0] != DOT),
        },
{
    if hostnames.len() < 2 {
        return None;
    }
    let mut common = copy_bytes(&hostnames[0]);
    proof {
        assert(views(hostnames@)[0] == hostnames@[0]@);
        assert(common@ =~= hostnames@[0]@.subrange(0, hostnames@[0]@.len() as int));
        assert(is_suffix_of(common@, views(hostnames@)[0]));
        let pre1 = views(hostnames@).subrange(0, 1);
        assert(pre1[0] == views(hostnames@)[0]);
        assert(common_suffix_of_all(common@, pre1));
        assert forall|c: Seq<u8>|
            common_suffix_of_all(c, pre1) implies c.len() <= common@.len() by {
            assert(is_suffix_of(c, pre1[0]));
        }
    }
    let mut i: usize = 1;
    while i < hostnames.len()
        invariant
            1 <= i <= hostnames@.len(),
            common_suffix_of_all(common@, views(hostnames@).subrange(0, i as int)),
            forall|c: Seq<u8>|
                common_suffix_of_all(c, views(hostnames@).subrange(0, i as int)) ==> c.len()
                    <= common@.len(),
        decreases hostnames@.len() - i,
    {
        proof {
            assert(views(hostnames@)[i as int] == hostnames@[i as int]@);
        }
        let next = common_suffix2(&common, &hostnames[i]);
        let ghost old_common = common@;
        let ghost pre_i = views(hostnames@).subrange(0, i as int);
        let ghost pre_i1 = views(hostnames@).subrange(0, i + 1 as int);
        proof {
            assert forall|j: int|
                0 <= j < pre_i1.len() implies is_suffix_of(next@, #[trigger] pre_i1[j]) by {
                if j < i {
                    assert(pre_i1[j] == pre_i[j]);
                    assert(is_suffix_of(old_common, pre_i[j]));
                    lemma_suffix_trans(next@, old_common, pre_i[j]);
                } else {
                    assert(pre_i1[j] == views(hostnames@)[i as int]);
                }
            }
            assert(common_suffix_of_all(next@, pre_i1));
            assert forall|c: Seq<u8>|
                common_suffix_of_all(c, pre_i1) implies c.len() <= next@.len() by {
                assert forall|j: int|
                    0 <= j < pre_i.len() implies is_suffix_of(c, #[trigger] pre_i[j]) by {
                    assert(pre_i[j] == pre_i1[j]);
                    assert(is_suffix_of(c, pre_i1[j]));
                }
                assert(common_suffix_of_all(c, pre_i));
                assert(c.len() <= old_common.len());
                assert(is_suffix_of(c, pre_i[0]));
                assert(is_suffix_of(old_common, pre_i[0]));
                lemma_suffix_nested(c, old_common, pre_i[0]);
                assert(is_suffix_of(c, pre_i1[i as int]));
                assert(pre_i1[i as int] == views(hostnames@)[i as int]);
            }
        }
        common = next;
        i = i + 1;
    }
    proof {
        let full = views(hostnames@).subrange(0, hostnames@.len() as int);
        assert(full =~= views(hostnames@));
        assert(common_suffix_of_all(common@, views(hostnames@)));
    }
    // `common` is the longest common suffix; every common suffix is a suffix
    // of it, so the dot-led ones are exactly its suffixes that start at a
    // dot, and the longest of those starts at its first dot.
    match find_byte(&common, DOT, 0) {
        None => {
            proof {
                lemma_first_at(common@, DOT, 0);
                let full = views(hostnames@).subrange(0, hostnames@.len() as int);
                assert(full =~= views(hostnames@));
                assert forall|c: Seq<u8>|
                    common_suffix_of_all(c, views(hostnames@)) implies c.len() == 0 || c[0]
                    != DOT by {
                    if c.len() > 0 && c[0] == DOT {
                        assert(common_suffix_of_all(c, full));
                        assert(c.len() <= common@.len());
                        assert(is_suffix_of(c, views(hostnames@)[0]));
                        assert(is_suffix_of(common@, views(hostnames@)[0]));
                        lemma_suffix_nested(c, common@, views(hostnames@)[0]);
                        assert(c[0] == common@.subrange(
                            common@.len() - c.len(),
                            common@.len() as int,
                        )[0]);
                        assert(common@[common@.len() - c.len()] == DOT);
                        assert(false);
                    }
                }
            }
            None
        },
        Some(p) => {
            proof {
                lemma_first_at(common@, DOT, 0);
            }
            let sfx = subvec(&common, p, common.len());
            proof {
                let cv = common@;
                let sv = sfx@;
                assert(sv[0] == cv[p as int]);
                assert(sv =~= cv.subrange(cv.len() - sv.len(), cv.len() as int));
                assert(is_suffix_of(sv, cv));
                assert forall|j: int|
                    0 <= j < views(hostnames@).len() implies is_suffix_of(
                    sv,
                    #[trigger] views(hostnames@)[j],
                ) by {
                    lemma_suffix_trans(sv, cv, views(hostnames@)[j]);
                }
                assert(common_suffix_of_all(sv, views(hostnames@)));
                let full = views(hostnames@).subrange(0, hostnames@.len() as int);
                assert(full =~= views(hostnames@));
                assert forall|c: Seq<u8>|
                    common_suffix_of_all(c, views(hostnames@)) && c.len() > 0 && c[0]
                    == DOT implies c.len() <= sv.len() by {
                    assert(common_suffix_of_all(c, full));
                    assert(c.len() <= cv.len());
                    assert(is_suffix_of(c, views(hostnames@)[0]));
                    assert(is_suffix_of(cv, views(hostnames@)[0]));
                    lemma_suffix_nested(c, cv, views(hostnames@)[0]);
                    assert(c[0] == cv.subrange(cv.len() - c.len(), cv.len() as int)[0]);
                    assert(cv[cv.len() - c.len()] == DOT);
                    assert(cv.len() - c.len() >= p);
                }
            }
            Some(sfx)
        },
    }
}

/// Whether `t` ends with `s`.
pub fn ends_with(t: &Vec<u8>, s: &Vec<u8>) -> (r: bool)
    ensures
        r == is_suffix_of(s@, t@),
{
    if s.len() > t.len() {
        return false;
    }
    let off = t.len() - s.len();
    let mut d: usize = 0;
    while d < s.len()
        invariant
            d <= s@.len(),
            s@.len() <= t@.len(),
            t@.len() <= usize::MAX,
            off == t@.len() - s@.len(),
            forall|e: int| 0 <= e < d ==> s@[e] == t@[off + e],
        decreases s@.len() - d,
    {
        if s[d] != t[off + d] {
            proof {
                assert(t@.subrange(off as int, t@.len() as int)[d as int] == t@[off + d]);
            }
            return false;
        }
        d = d + 1;
    }
    proof {
        assert(s@ =~= t@.subrange(t@.len() - s@.len(), t@.len() as int));
    }
    true
}

/// The display name of one host: the common suffix replaced by a `*` when
/// the name ends with it, the name unchanged otherwise.
pub fn shorten_hostname(hostname: &Vec<u8>, common_suffix: &Option<Vec<u8>>) -> (r: Vec<u8>)
    ensures
        match common_suffix {
            Some(s) => if is_suffix_of(s@, hostname@) {
                r@ == hostname@.subrange(0, hostname@.len() - s@.len()).push(STAR)
            } else {
                r@ == hostname@
            },
            None => r@ == hostname@,
        },
{
    match common_suffix {
        Some(suffix) => {
            if ends_with(hostname, suffix) {
                let mut r = subvec(hostname, 0, hostname.len() - suffix.len());
                r.push(STAR);
                r
            } else {
                copy_bytes(hostname)
            }
        },
        None => copy_bytes(hostname),
    }
}

} // verus!
