//! Host-expression expansion: rewriting a compact pattern into the explicit,
//! ordered list of host names it denotes.
//!
//! Two passes run in order over an expression. First every range span
//! `prefix[LOW:HIGH]suffix` becomes one string per integer of the closed
//! interval; then every list span `prefix{a,b}suffix` becomes one string per
//! comma-separated item. Both substitute the rendered item verbatim for the
//! span and repeat until no rewritten string holds their bracket — in
//! particular, an item that itself holds a `{…}` span is expanded in turn.
//! The result reads left to right: earlier range values (and, within them,
//! earlier list items) come first.
//!
//! Malformed syntax is a fatal expansion error: a `[` without a later `]`, a
//! range without a `:` before its `]`, a bound that is not a 32-bit integer,
//! and a `{` without a `}` after it all reject the whole expression. A
//! reversed range (`LOW > HIGH`) is rejected the same way: expansion fails
//! fast rather than producing an empty set of hosts.

use vstd::prelude::*;

use crate::numbers::{i32_digits, parse_i32, spec_i32_digits, spec_parse_i32};
use crate::util::{append_bytes, copy_bytes, find_byte, first_at, lemma_first_at, subvec, views};

verus! {

pub const LBRACKET: u8 = 91;

pub const RBRACKET: u8 = 93;

pub const COLON: u8 = 58;

pub const LBRACE: u8 = 123;

pub const RBRACE: u8 = 125;

pub const COMMA: u8 = 44;

/// A fatal expansion error: the whole run is rejected, no host list is
/// produced.
#[derive(Clone, Copy, Debug, PartialEq, Eq, Structural)]
pub enum ExpandError {
    /// A `[` has no `]` after it.
    UnclosedBracket,
    /// A range span has no `:` between its `[` and its `]`.
    MissingColon,
    /// A range bound is empty, not a decimal integer, or out of the 32-bit
    /// range.
    InvalidNumber,
    /// A range runs backwards: its low bound is greater than its high bound.
    EmptyRange,
    /// A `{` has no `}` after it.
    UnclosedBrace,
}

/// The first syntax error of the range pass on `s`, or `None` when every
/// range span of `s` is well formed.
pub open spec fn check_ranges(s: Seq<u8>) -> Option<ExpandError>
    decreases s.len(),
        via check_ranges_decreases
{
    match first_at(s, LBRACKET, 0) {
        None => None,
        Some(start) => match first_at(s, RBRACKET, start) {
            None => Some(ExpandError::UnclosedBracket),
            Some(end) => match first_at(s, COLON, start) {
                None => Some(ExpandError::MissingColon),
                Some(colon) => if colon >= end {
                    Some(ExpandError::MissingColon)
                } else {
                    match (
                        spec_parse_i32(s.subrange(start + 1, colon)),
                        spec_parse_i32(s.subrange(colon + 1, end)),
                    ) {
                        (Some(lo), Some(hi)) => if lo > hi {
                            Some(ExpandError::EmptyRange)
                        } else {
                            check_ranges(s.subrange(end + 1, s.len() as int))
                        },
                        _ => Some(ExpandError::InvalidNumber),
                    }
                },
            },
        },
    }
}

#[via_fn]
proof fn check_ranges_decreases(s: Seq<u8>) {
    lemma_first_at(s, LBRACKET, 0);
    if let Some(start) = first_at(s, LBRACKET, 0) {
        lemma_first_at(s, RBRACKET, start);
    }
}

/// One string per integer of `[lo, hi]`, each rendered in decimal, in
/// increasing order.
pub open spec fn spec_expand_range(lo: int, hi: int) -> Seq<Seq<u8>> {
    Seq::new(
        if hi + 1 - lo < 0 {
            0
        } else {
            (hi + 1 - lo) as nat
        },
        |k: int| spec_i32_digits(lo + k),
    )
}

/// Every way of wrapping a rendered range value between `pre` and one of
/// `tails`, range values outermost: all of `tails` under `lo`, then all of
/// `tails` under `lo + 1`, and so on.
pub open spec fn vals_cross(pre: Seq<u8>, lo: int, hi: int, tails: Seq<Seq<u8>>) -> Seq<Seq<u8>>
    decreases hi + 1 - lo,
{
    if lo > hi {
        seq![]
    } else {
        tails.map_values(|t: Seq<u8>| pre + spec_i32_digits(lo) + t) + vals_cross(
            pre,
            lo + 1,
            hi,
            tails,
        )
    }
}

/// The strings the range pass rewrites `s` to, when `check_ranges(s)` finds
/// no error: each range span replaced by each of its values, leftmost span
/// outermost.
pub open spec fn range_val(s: Seq<u8>) -> Seq<Seq<u8>>
    decreases s.len(),
        via range_val_decreases
{
    match first_at(s, LBRACKET, 0) {
        None => seq![s],
        Some(start) => match first_at(s, RBRACKET, start) {
            None => seq![],
            Some(end) => match first_at(s, COLON, start) {
                None => seq![],
                Some(colon) => if colon >= end {
                    seq![]
                } else {
                    match (
                        spec_parse_i32(s.subrange(start + 1, colon)),
                        spec_parse_i32(s.subrange(colon + 1, end)),
                    ) {
                        (Some(lo), Some(hi)) => vals_cross(
                            s.subrange(0, start),
                            lo as int,
                            hi as int,
                            range_val(s.subrange(end + 1, s.len() as int)),
                        ),
                        _ => seq![],
                    }
                },
            },
        },
    }
}

#[via_fn]
proof fn range_val_decreases(s: Seq<u8>) {
    lemma_first_at(s, LBRACKET, 0);
    if let Some(start) = first_at(s, LBRACKET, 0) {
        lemma_first_at(s, RBRACKET, start);
    }
}

/// The comma-separated items of `s`: splitting on every comma, empty items
/// kept.
pub open spec fn split_commas(s: Seq<u8>) -> Seq<Seq<u8>>
    decreases s.len(),
        via split_commas_decreases
{
    match first_at(s, COMMA, 0) {
        None => seq![s],
        Some(i) => seq![s.subrange(0, i)] + split_commas(s.subrange(i + 1, s.len() as int)),
    }
}

#[via_fn]
proof fn split_commas_decreases(s: Seq<u8>) {
    lemma_first_at(s, COMMA, 0);
}

/// The items' lengths, added up.
pub open spec fn sum_len(items: Seq<Seq<u8>>) -> nat
    decreases items.len(),
{
    if items.len() == 0 {
        0
    } else {
        items[0].len() + sum_len(items.drop_first())
    }
}

/// Splitting on commas never lengthens: the items of `s` together are at
/// most as long as `s` itself.
proof fn lemma_split_commas_len(s: Seq<u8>)
    ensures
        sum_len(split_commas(s)) <= s.len(),
    decreases s.len(),
{
    lemma_first_at(s, COMMA, 0);
    match first_at(s, COMMA, 0) {
        None => {
            assert(split_commas(s) == seq![s]);
            assert(seq![s].drop_first() =~= Seq::<Seq<u8>>::empty());
            assert(sum_len(seq![s].drop_first()) == 0);
            assert(sum_len(seq![s]) == seq![s][0].len() + sum_len(seq![s].drop_first()));
            assert(seq![s][0] == s);
        },
        Some(i) => {
            lemma_split_commas_len(s.subrange(i + 1, s.len() as int));
            let parts = seq![s.subrange(0, i)] + split_commas(s.subrange(i + 1, s.len() as int));
            assert(split_commas(s) == parts);
            assert(parts[0] == s.subrange(0, i));
            assert(parts.drop_first() =~= split_commas(s.subrange(i + 1, s.len() as int)));
            assert(sum_len(parts) == parts[0].len() + sum_len(parts.drop_first()));
        },
    }
}

/// No item is longer than all the items together.
proof fn lemma_sum_len_piece(items: Seq<Seq<u8>>, k: int)
    requires
        0 <= k < items.len(),
    ensures
        items[k].len() <= sum_len(items),
    decreases k,
{
    if k > 0 {
        lemma_sum_len_piece(items.drop_first(), k - 1);
        assert(items.drop_first()[k - 1] == items[k]);
    }
}

/// The first syntax error of the list pass on `s`, or `None` when rewriting
/// reaches its fixed point without one. A `{` whose first `}` is missing or
/// stands before it is the error; otherwise the first span's items are
/// substituted and each rewritten string is checked whole, so a span nested
/// inside an item is found in its turn.
pub open spec fn check_lists(s: Seq<u8>) -> Option<ExpandError>
    decreases s.len(), 0int,
        via check_lists_decreases
{
    match first_at(s, LBRACE, 0) {
        None => None,
        Some(start) => match first_at(s, RBRACE, 0) {
            None => Some(ExpandError::UnclosedBrace),
            Some(end) => if end < start {
                Some(ExpandError::UnclosedBrace)
            } else {
                check_items(
                    s.subrange(0, start),
                    split_commas(s.subrange(start + 1, end)),
                    s.subrange(end + 1, s.len() as int),
                )
            },
        },
    }
}

/// The first error among the rewritten strings `pre + item + suf`, item by
/// item.
pub open spec fn check_items(pre: Seq<u8>, items: Seq<Seq<u8>>, suf: Seq<u8>) -> Option<
    ExpandError,
>
    decreases pre.len() + suf.len() + sum_len(items) + 1, items.len(),
{
    if items.len() == 0 {
        None
    } else {
        match check_lists(pre + items[0] + suf) {
            Some(e) => Some(e),
            None => check_items(pre, items.drop_first(), suf),
        }
    }
}

#[via_fn]
proof fn check_lists_decreases(s: Seq<u8>) {
    lemma_first_at(s, LBRACE, 0);
    lemma_first_at(s, RBRACE, 0);
    if let Some(start) = first_at(s, LBRACE, 0) {
        if let Some(end) = first_at(s, RBRACE, 0) {
            if end >= start {
                lemma_split_commas_len(s.subrange(start + 1, end));
            }
        }
    }
}

/// The strings the list pass rewrites `s` to, when `check_lists(s)` finds no
/// error: the first `{…}` span replaced by each of its items in turn, and
/// every rewritten string expanded again until no `{` remains — so earlier
/// items come first, and an item that itself holds a span is expanded too.
pub open spec fn list_val(s: Seq<u8>) -> Seq<Seq<u8>>
    decreases s.len(), 0int,
        via list_val_decreases
{
    match first_at(s, LBRACE, 0) {
        None => seq![s],
        Some(start) => match first_at(s, RBRACE, 0) {
            None => seq![],
            Some(end) => if end < start {
                seq![]
            } else {
                items_val(
                    s.subrange(0, start),
                    split_commas(s.subrange(start + 1, end)),
                    s.subrange(end + 1, s.len() as int),
                )
            },
        },
    }
}

/// The full expansions of the rewritten strings `pre + item + suf`,
/// concatenated item by item.
pub open spec fn items_val(pre: Seq<u8>, items: Seq<Seq<u8>>, suf: Seq<u8>) -> Seq<Seq<u8>>
    decreases pre.len() + suf.len() + sum_len(items) + 1, items.len(),
{
    if items.len() == 0 {
        seq![]
    } else {
        list_val(pre + items[0] + suf) + items_val(pre, items.drop_first(), suf)
    }
}

#[via_fn]
proof fn list_val_decreases(s: Seq<u8>) {
    lemma_first_at(s, LBRACE, 0);
    lemma_first_at(s, RBRACE, 0);
    if let Some(start) = first_at(s, LBRACE, 0) {
        if let Some(end) = first_at(s, RBRACE, 0) {
            if end >= start {
                lemma_split_commas_len(s.subrange(start + 1, end));
            }
        }
    }
}

/// The list pass over a working set: the first error any string raises, or
/// the concatenation of every string's list expansion, in order.
pub open spec fn spec_expand_lists_all(rs: Seq<Seq<u8>>) -> Result<Seq<Seq<u8>>, ExpandError>
    decreases rs.len(),
{
    if rs.len() == 0 {
        Ok(seq![])
    } else {
        match check_lists(rs[0]) {
            Some(e) => Err(e),
            None => match spec_expand_lists_all(rs.drop_first()) {
                Err(e) => Err(e),
                Ok(rest) => Ok(list_val(rs[0]) + rest),
            },
        }
    }
}

/// Full expansion of one expression: the range pass, then the list pass over
/// its results, or the first syntax error met.
pub open spec fn spec_expand(s: Seq<u8>) -> Result<Seq<Seq<u8>>, ExpandError> {
    match check_ranges(s) {
        Some(e) => Err(e),
        None => spec_expand_lists_all(range_val(s)),
    }
}

/// Expansion of several independently supplied expressions: each expanded on
/// its own, results concatenated in caller order, or the first error met.
pub open spec fn spec_expand_exprs(es: Seq<Seq<u8>>) -> Result<Seq<Seq<u8>>, ExpandError>
    decreases es.len(),
{
    if es.len() == 0 {
        Ok(seq![])
    } else {
        match spec_expand(es[0]) {
            Err(e) => Err(e),
            Ok(first) => match spec_expand_exprs(es.drop_first()) {
                Err(e) => Err(e),
                Ok(rest) => Ok(first + rest),
            },
        }
    }
}

/// Renders every integer of the closed interval `[start, end]` in decimal,
/// in increasing order; empty when `start > end`.
pub fn expand_range(start: i32, end: i32) -> (r: Vec<Vec<u8>>)
    ensures
        views(r@) == spec_expand_range(start as int, end as int),
{
    let mut out: Vec<Vec<u8>> = Vec::new();
    if start > end {
        proof {
            assert(views(out@) =~= spec_expand_range(start as int, end as int));
        }
        return out;
    }
    let mut v: i32 = start;
    loop
        invariant_except_break
            out@.len() == v - start,
        invariant
            start <= v <= end,
            forall|k: int| 0 <= k < out@.len() ==> views(out@)[k] == spec_i32_digits(start + k),
        ensures
            out@.len() == end + 1 - start,
            forall|k: int| 0 <= k < out@.len() ==> views(out@)[k] == spec_i32_digits(start + k),
        decreases end - v,
    {
        let ds = i32_digits(v);
        let ghost prev = out@;
        out.push(ds);
        proof {
            assert forall|k: int| 0 <= k < out@.len() implies views(out@)[k] == spec_i32_digits(
                start + k,
            ) by {
                if k == prev.len() {
                    assert(out@[k] == ds);
                } else {
                    assert(out@[k] == prev[k]);
                    assert(views(prev)[k] == spec_i32_digits(start + k));
                }
            }
        }
        if v == end {
            break;
        }
        v = v + 1;
    }
    proof {
        assert(views(out@) =~= spec_expand_range(start as int, end as int));
    }
    out
}

/// Extending a range by its high end appends that value's wrappings.
proof fn lemma_vals_cross_snoc(pre: Seq<u8>, lo: int, v: int, tails: Seq<Seq<u8>>)
    requires
        lo <= v,
    ensures
        vals_cross(pre, lo, v, tails) == vals_cross(pre, lo, v - 1, tails) + tails.map_values(
            |t: Seq<u8>| pre + spec_i32_digits(v) + t,
        ),
    decreases v - lo,
{
    if lo == v {
        assert(vals_cross(pre, lo, v - 1, tails) =~= Seq::<Seq<u8>>::empty());
        assert(vals_cross(pre, lo + 1, v, tails) =~= Seq::<Seq<u8>>::empty());
        assert(vals_cross(pre, lo, v, tails) =~= vals_cross(pre, lo, v - 1, tails)
            + tails.map_values(|t: Seq<u8>| pre + spec_i32_digits(v) + t));
    } else {
        lemma_vals_cross_snoc(pre, lo + 1, v, tails);
        assert(vals_cross(pre, lo, v, tails) =~= vals_cross(pre, lo, v - 1, tails)
            + tails.map_values(|t: Seq<u8>| pre + spec_i32_digits(v) + t));
    }
}

/// Pushes `pre + mid + t` onto `out` for every `t` of `tails`, in order.
fn cross_append(out: &mut Vec<Vec<u8>>, pre: &Vec<u8>, mid: &Vec<u8>, tails: &Vec<Vec<u8>>)
    ensures
        views(final(out)@) == views(old(out)@) + views(tails@).map_values(
            |t: Seq<u8>| pre@ + mid@ + t,
        ),
{
    let ghost mapped = views(tails@).map_values(|t: Seq<u8>| pre@ + mid@ + t);
    let mut j: usize = 0;
    while j < tails.len()
        invariant
            j <= tails@.len(),
            mapped == views(tails@).map_values(|t: Seq<u8>| pre@ + mid@ + t),
            views(out@) == views(old(out)@) + mapped.subrange(0, j as int),
        decreases tails@.len() - j,
    {
        let mut item = copy_bytes(pre);
        append_bytes(&mut item, mid);
        append_bytes(&mut item, &tails[j]);
        proof {
            assert(item@ =~= pre@ + mid@ + tails@[j as int]@);
            assert(views(tails@)[j as int] == tails@[j as int]@);
        }
        let ghost prev = out@;
        out.push(item);
        proof {
            assert(views(out@) =~= views(prev).push(item@));
            assert(mapped.subrange(0, j + 1 as int) =~= mapped.subrange(0, j as int).push(
                mapped[j as int],
            ));
            assert(views(out@) =~= views(old(out)@) + mapped.subrange(0, j + 1 as int));
        }
        j = j + 1;
    }
    proof {
        assert(mapped.subrange(0, tails@.len() as int) =~= mapped);
    }
}

/// The range pass over one expression: every `[LOW:HIGH]` span replaced by
/// each of its values, leftmost span outermost, or the first syntax error.
pub fn expand_ranges(s: &Vec<u8>) -> (r: Result<Vec<Vec<u8>>, ExpandError>)
    ensures
        match r {
            Ok(v) => check_ranges(s@) is None && views(v@) == range_val(s@),
            Err(e) => check_ranges(s@) == Some(e),
        },
    decreases s@.len(),
{
    let n = s.len();
    let start = match find_byte(s, LBRACKET, 0) {
        None => {
            let mut r: Vec<Vec<u8>> = Vec::new();
            r.push(copy_bytes(s));
            proof {
                assert(views(r@) =~= range_val(s@));
            }
            return Ok(r);
        },
        Some(start) => start,
    };
    proof {
        lemma_first_at(s@, LBRACKET, 0);
    }
    let end = match find_byte(s, RBRACKET, start) {
        None => {
            return Err(ExpandError::UnclosedBracket);
        },
        Some(end) => end,
    };
    proof {
        lemma_first_at(s@, RBRACKET, start as int);
    }
    let colon = match find_byte(s, COLON, start) {
        None => {
            return Err(ExpandError::MissingColon);
        },
        Some(colon) => colon,
    };
    proof {
        lemma_first_at(s@, COLON, start as int);
    }
    if colon >= end {
        return Err(ExpandError::MissingColon);
    }
    let lo_bytes = subvec(s, start + 1, colon);
    let hi_bytes = subvec(s, colon + 1, end);
    let lo = match parse_i32(&lo_bytes) {
        None => {
            return Err(ExpandError::InvalidNumber);
        },
        Some(lo) => lo,
    };
    let hi = match parse_i32(&hi_bytes) {
        None => {
            return Err(ExpandError::InvalidNumber);
        },
        Some(hi) => hi,
    };
    if lo > hi {
        return Err(ExpandError::EmptyRange);
    }
    let suffix = subvec(s, end + 1, n);
    let tails = match expand_ranges(&suffix) {
        Err(e) => {
            return Err(e);
        },
        Ok(tails) => tails,
    };
    let pre = subvec(s, 0, start);
    let nums = expand_range(lo, hi);
    let mut out: Vec<Vec<u8>> = Vec::new();
    proof {
        assert(views(nums@).len() == nums@.len());
        assert(spec_expand_range(lo as int, hi as int).len() == hi + 1 - lo);
        assert(views(out@) =~= vals_cross(pre@, lo as int, lo - 1, views(tails@)));
    }
    let mut k: usize = 0;
    while k < nums.len()
        invariant
            k <= nums@.len(),
            nums@.len() == hi + 1 - lo,
            views(nums@) == spec_expand_range(lo as int, hi as int),
            views(out@) == vals_cross(pre@, lo as int, lo + k - 1, views(tails@)),
            lo <= hi,
        decreases nums@.len() - k,
    {
        cross_append(&mut out, &pre, &nums[k], &tails);
        proof {
            lemma_vals_cross_snoc(pre@, lo as int, lo + k as int, views(tails@));
            assert(views(nums@)[k as int] == nums@[k as int]@);
            assert(views(nums@)[k as int] == spec_expand_range(lo as int, hi as int)[k as int]);
            assert(nums@[k as int]@ == spec_i32_digits(lo + k));
            assert(views(tails@).map_values(|t: Seq<u8>| pre@ + nums@[k as int]@ + t)
                =~= views(tails@).map_values(|t: Seq<u8>| pre@ + spec_i32_digits(lo + k) + t));
            assert(views(out@) =~= vals_cross(pre@, lo as int, lo + k, views(tails@)));
        }
        k = k + 1;
    }
    proof {
        assert(views(out@) == vals_cross(pre@, lo as int, hi as int, views(tails@)));
        assert(views(out@) == range_val(s@));
    }
    Ok(out)
}

/// Splits `list` on every comma; empty items are kept.
pub fn expand_list(list: &Vec<u8>) -> (r: Vec<Vec<u8>>)
    ensures
        views(r@) == split_commas(list@),
    decreases list@.len(),
{
    match find_byte(list, COMMA, 0) {
        None => {
            let mut r: Vec<Vec<u8>> = Vec::new();
            r.push(copy_bytes(list));
            proof {
                assert(views(r@) =~= split_commas(list@));
            }
            r
        },
        Some(i) => {
            proof {
                lemma_first_at(list@, COMMA, 0);
                assert(i < list@.len());
            }
            let n = list.len();
            let head = subvec(list, 0, i);
            let tail = subvec(list, i + 1, n);
            let mut r = expand_list(&tail);
            r.insert(0, head);
            proof {
                assert(views(r@) =~= seq![list@.subrange(0, i as int)] + split_commas(
                    list@.subrange(i + 1, list@.len() as int),
                ));
            }
            r
        },
    }
}

/// The list pass over one string, repeated until no `{` remains: the first
/// `{a,b,…}` span is replaced by each of its items in turn, and every
/// rewritten string is expanded again — so a span nested inside an item is
/// expanded too — or the first syntax error is returned.
pub fn expand_lists(s: &Vec<u8>) -> (r: Result<Vec<Vec<u8>>, ExpandError>)
    ensures
        match r {
            Ok(v) => check_lists(s@) is None && views(v@) == list_val(s@),
            Err(e) => check_lists(s@) == Some(e),
        },
    decreases s@.len(),
{
    let n = s.len();
    let start = match find_byte(s, LBRACE, 0) {
        None => {
            let mut r: Vec<Vec<u8>> = Vec::new();
            r.push(copy_bytes(s));
            proof {
                assert(views(r@) =~= list_val(s@));
            }
            return Ok(r);
        },
        Some(start) => start,
    };
    proof {
        lemma_first_at(s@, LBRACE, 0);
    }
    let end = match find_byte(s, RBRACE, 0) {
        None => {
            return Err(ExpandError::UnclosedBrace);
        },
        Some(end) => end,
    };
    proof {
        lemma_first_at(s@, RBRACE, 0);
    }
    if end < start {
        return Err(ExpandError::UnclosedBrace);
    }
    proof {
        assert(s@[start as int] == LBRACE);
        assert(s@[end as int] == RBRACE);
        assert(end > start);
    }
    let interior = subvec(s, start + 1, end);
    let items = expand_list(&interior);
    let pre = subvec(s, 0, start);
    let suf = subvec(s, end + 1, n);
    let ghost all_items = split_commas(interior@);
    let mut out: Vec<Vec<u8>> = Vec::new();
    proof {
        assert(views(items@).len() == items@.len());
        assert(all_items.subrange(0, all_items.len() as int) =~= all_items);
        match check_items(pre@, all_items, suf@) {
            None => {
                assert(views(out@) + items_val(pre@, all_items, suf@) =~= items_val(
                    pre@,
                    all_items,
                    suf@,
                ));
            },
            Some(_) => {},
        }
    }
    let mut k: usize = 0;
    while k < items.len()
        invariant
            k <= items@.len(),
            all_items == split_commas(interior@),
            views(items@) == all_items,
            items@.len() == all_items.len(),
            first_at(s@, LBRACE, 0) == Some(start as int),
            first_at(s@, RBRACE, 0) == Some(end as int),
            0 <= start < end < s@.len(),
            pre@ == s@.subrange(0, start as int),
            interior@ == s@.subrange(start + 1, end as int),
            suf@ == s@.subrange(end + 1, s@.len() as int),
            match check_items(pre@, all_items.subrange(k as int, all_items.len() as int), suf@) {
                None => check_items(pre@, all_items, suf@) is None && items_val(
                    pre@,
                    all_items,
                    suf@,
                ) == views(out@) + items_val(
                    pre@,
                    all_items.subrange(k as int, all_items.len() as int),
                    suf@,
                ),
                Some(e) => check_items(pre@, all_items, suf@) == Some(e),
            },
        decreases items@.len() - k,
    {
        let ghost tail = all_items.subrange(k as int, all_items.len() as int);
        proof {
            assert(tail[0] == all_items[k as int]);
            assert(views(items@)[k as int] == items@[k as int]@);
            assert(tail.drop_first() =~= all_items.subrange(k + 1 as int, all_items.len() as int));
        }
        let mut repl = copy_bytes(&pre);
        append_bytes(&mut repl, &items[k]);
        append_bytes(&mut repl, &suf);
        proof {
            assert(repl@ == pre@ + all_items[k as int] + suf@);
            lemma_split_commas_len(interior@);
            lemma_sum_len_piece(all_items, k as int);
            assert(all_items[k as int].len() <= interior@.len());
            assert(repl@.len() < s@.len());
        }
        match expand_lists(&repl) {
            Err(e) => {
                proof {
                    assert(check_items(pre@, tail, suf@) == Some(e));
                    assert(check_lists(s@) == Some(e));
                }
                return Err(e);
            },
            Ok(mut xs) => {
                let ghost prev = views(out@);
                let ghost xsv = views(xs@);
                out.append(&mut xs);
                proof {
                    assert(views(out@) =~= prev + xsv);
                    assert(xsv == list_val(pre@ + tail[0] + suf@));
                    match check_items(
                        pre@,
                        all_items.subrange(k + 1 as int, all_items.len() as int),
                        suf@,
                    ) {
                        None => {
                            assert(check_items(pre@, tail, suf@) is None);
                            assert(items_val(pre@, tail, suf@) == xsv + items_val(
                                pre@,
                                all_items.subrange(k + 1 as int, all_items.len() as int),
                                suf@,
                            ));
                            assert(prev + (xsv + items_val(
                                pre@,
                                all_items.subrange(k + 1 as int, all_items.len() as int),
                                suf@,
                            )) =~= (prev + xsv) + items_val(
                                pre@,
                                all_items.subrange(k + 1 as int, all_items.len() as int),
                                suf@,
                            ));
                        },
                        Some(_) => {
                            assert(check_items(pre@, tail, suf@) == check_items(
                                pre@,
                                all_items.subrange(k + 1 as int, all_items.len() as int),
                                suf@,
                            ));
                        },
                    }
                }
            },
        }
        k = k + 1;
    }
    proof {
        let empty_tail = all_items.subrange(all_items.len() as int, all_items.len() as int);
        assert(empty_tail =~= Seq::<Seq<u8>>::empty());
        assert(check_items(pre@, empty_tail, suf@) is None);
        assert(items_val(pre@, empty_tail, suf@) =~= Seq::<Seq<u8>>::empty());
        assert(views(out@) + Seq::<Seq<u8>>::empty() =~= views(out@));
        assert(check_lists(s@) is None);
        assert(views(out@) == list_val(s@));
    }
    Ok(out)
}

/// Full expansion of one expression: the range pass, then the list pass over
/// each of its results in order, or the first syntax error met.
pub fn expand_string(s: &Vec<u8>) -> (r: Result<Vec<Vec<u8>>, ExpandError>)
    ensures
        match r {
            Ok(v) => spec_expand(s@) == Ok::<Seq<Seq<u8>>, ExpandError>(views(v@)),
            Err(e) => spec_expand(s@) == Err::<Seq<Seq<u8>>, ExpandError>(e),
        },
{
    let rs = match expand_ranges(s) {
        Err(e) => {
            return Err(e);
        },
        Ok(rs) => rs,
    };
    let ghost vs = views(rs@);
    let mut out: Vec<Vec<u8>> = Vec::new();
    proof {
        assert(vs.subrange(0, vs.len() as int) =~= vs);
        assert(views(out@) + Seq::<Seq<u8>>::empty() =~= views(out@));
    }
    let mut k: usize = 0;
    while k < rs.len()
        invariant
            k <= rs@.len(),
            vs == views(rs@),
            rs@.len() == vs.len(),
            check_ranges(s@) is None,
            vs == range_val(s@),
            match spec_expand_lists_all(vs.subrange(k as int, vs.len() as int)) {
                Ok(rest) => spec_expand_lists_all(vs) == Ok::<Seq<Seq<u8>>, ExpandError>(
                    views(out@) + rest,
                ),
                Err(e) => spec_expand_lists_all(vs) == Err::<Seq<Seq<u8>>, ExpandError>(e),
            },
        decreases rs@.len() - k,
    {
        let ghost tail = vs.subrange(k as int, vs.len() as int);
        proof {
            assert(tail[0] == vs[k as int]);
            assert(vs[k as int] == rs@[k as int]@);
            assert(tail.drop_first() =~= vs.subrange(k + 1 as int, vs.len() as int));
        }
        match expand_lists(&rs[k]) {
            Err(e) => {
                proof {
                    assert(spec_expand_lists_all(tail) == Err::<Seq<Seq<u8>>, ExpandError>(e));
                }
                return Err(e);
            },
            Ok(mut xs) => {
                let ghost prev = views(out@);
                let ghost xsv = views(xs@);
                out.append(&mut xs);
                proof {
                    assert(views(out@) =~= prev + xsv);
                    assert(xsv == list_val(vs[k as int]));
                    match spec_expand_lists_all(vs.subrange(k + 1 as int, vs.len() as int)) {
                        Ok(rest) => {
                            assert(spec_expand_lists_all(tail) == Ok::<Seq<Seq<u8>>, ExpandError>(
                                xsv + rest,
                            ));
                            assert(prev + (xsv + rest) =~= (prev + xsv) + rest);
                        },
                        Err(_) => {},
                    }
                }
            },
        }
        k = k + 1;
    }
    proof {
        assert(vs.subrange(vs.len() as int, vs.len() as int) =~= Seq::<Seq<u8>>::empty());
        assert(spec_expand_lists_all(Seq::<Seq<u8>>::empty()) == Ok::<Seq<Seq<u8>>, ExpandError>(
            seq![],
        ));
        assert(views(out@) + seq![] =~= views(out@));
    }
    Ok(out)
}

/// Expands several independently supplied expressions, one at a time, and
/// concatenates their host lists in caller order; the first syntax error in
/// any expression rejects the whole set.
pub fn expand_expressions(exprs: &Vec<Vec<u8>>) -> (r: Result<Vec<Vec<u8>>, ExpandError>)
    ensures
        match r {
            Ok(v) => spec_expand_exprs(views(exprs@)) == Ok::<Seq<Seq<u8>>, ExpandError>(
                views(v@),
            ),
            Err(e) => spec_expand_exprs(views(exprs@)) == Err::<Seq<Seq<u8>>, ExpandError>(e),
        },
{
    let ghost vs = views(exprs@);
    let mut out: Vec<Vec<u8>> = Vec::new();
    proof {
        assert(vs.subrange(0, vs.len() as int) =~= vs);
        match spec_expand_exprs(vs) {
            Ok(rest) => {
                assert(views(out@) + rest =~= rest);
            },
            Err(_) => {},
        }
    }
    let mut k: usize = 0;
    while k < exprs.len()
        invariant
            k <= exprs@.len(),
            vs == views(exprs@),
            exprs@.len() == vs.len(),
            match spec_expand_exprs(vs.subrange(k as int, vs.len() as int)) {
                Ok(rest) => spec_expand_exprs(vs) == Ok::<Seq<Seq<u8>>, ExpandError>(
                    views(out@) + rest,
                ),
                Err(e) => spec_expand_exprs(vs) == Err::<Seq<Seq<u8>>, ExpandError>(e),
            },
        decreases exprs@.len() - k,
    {
        let ghost tail = vs.subrange(k as int, vs.len() as int);
        proof {
            assert(tail[0] == vs[k as int]);
            assert(vs[k as int] == exprs@[k as int]@);
            assert(tail.drop_first() =~= vs.subrange(k + 1 as int, vs.len() as int));
        }
        match expand_string(&exprs[k]) {
            Err(e) => {
                proof {
                    assert(spec_expand_exprs(tail) == Err::<Seq<Seq<u8>>, ExpandError>(e));
                }
                return Err(e);
            },
            Ok(mut xs) => {
                let ghost prev = views(out@);
                let ghost xsv = views(xs@);
                out.append(&mut xs);
                proof {
                    assert(views(out@) =~= prev + xsv);
                    match spec_expand_exprs(vs.subrange(k + 1 as int, vs.len() as int)) {
                        Ok(rest) => {
                            assert(spec_expand_exprs(tail) == Ok::<Seq<Seq<u8>>, ExpandError>(
                                xsv + rest,
                            ));
                            assert(prev + (xsv + rest) =~= (prev + xsv) + rest);
                        },
                        Err(_) => {},
                    }
                }
            },
        }
        k = k + 1;
    }
    proof {
        assert(vs.subrange(vs.len() as int, vs.len() as int) =~= Seq::<Seq<u8>>::empty());
        assert(spec_expand_exprs(Seq::<Seq<u8>>::empty()) == Ok::<Seq<Seq<u8>>, ExpandError>(
            seq![],
        ));
        assert(views(out@) + seq![] =~= views(out@));
        assert(vs.subrange(0, vs.len() as int) =~= vs);
    }
    Ok(out)
}

/// An expression with no range and no list syntax expands to exactly one
/// host, whose name is the expression itself.
pub proof fn lemma_expand_literal(s: Seq<u8>)
    requires
        forall|i: int| 0 <= i < s.len() ==> (#[trigger] s[i]) != LBRACKET && s[i] != LBRACE,
    ensures
        spec_expand(s) == Ok::<Seq<Seq<u8>>, ExpandError>(seq![s]),
{
    lemma_first_at(s, LBRACKET, 0);
    lemma_first_at(s, LBRACE, 0);
    if let Some(i) = first_at(s, LBRACKET, 0) {
        assert(s[i] == LBRACKET);
        assert(false);
    }
    if let Some(i) = first_at(s, LBRACE, 0) {
        assert(s[i] == LBRACE);
        assert(false);
    }
    assert(check_ranges(s) is None);
    assert(range_val(s) == seq![s]);
    assert(check_lists(s) is None);
    assert(list_val(s) == seq![s]);
    let rs = seq![s];
    assert(rs.drop_first() =~= Seq::<Seq<u8>>::empty());
    assert(spec_expand_lists_all(Seq::<Seq<u8>>::empty()) == Ok::<Seq<Seq<u8>>, ExpandError>(
        seq![],
    ));
    assert(list_val(s) + seq![] =~= seq![s]);
    assert(spec_expand_lists_all(rs) == Ok::<Seq<Seq<u8>>, ExpandError>(seq![s]));
}

} // verus!
