//! The alternate, matcher mode of building the host list: instead of
//! expanding an expression, a regular-expression pattern is run over an
//! externally supplied corpus of candidate names (a known-hosts style file),
//! and every candidate in whose text the pattern finds a match is kept, in
//! corpus order. An invalid pattern is a fatal configuration error.
//!
//! The regular-expression engine itself is the `regex` crate's; what it
//! decides is carried by the two uninterpreted names below, so everything
//! around the calls — validation, filtering, order — is verified.

use vstd::prelude::*;

use crate::util::{copy_bytes, find_byte, first_at, lemma_first_at, subvec, views};

verus! {

pub const NEWLINE: u8 = 10;

pub const CARRIAGE_RETURN: u8 = 13;

pub const SPACE: u8 = 32;

/// A fatal configuration error of matcher mode.
#[derive(Clone, Copy, Debug, PartialEq, Eq, Structural)]
pub enum MatchError {
    /// The pattern is not a valid regular expression.
    InvalidPattern,
}

/// Whether `pattern` is a valid regular expression: UTF-8 text that the
/// engine compiles under its default limits. A function of the pattern
/// bytes alone.
pub uninterp spec fn regex_valid(pattern: Seq<u8>) -> bool;

/// Whether a valid `pattern` finds a match anywhere in `text`
/// (search semantics, not full-string anchoring unless the pattern anchors
/// itself). A function of the pattern and text bytes alone.
pub uninterp spec fn regex_match(pattern: Seq<u8>, text: Seq<u8>) -> bool;

/// Relies on `regex::bytes::Regex::new`: whether a pattern compiles is a
/// function of the pattern text alone (the crate's default size limit
/// included); pattern bytes that are not UTF-8 are not a valid pattern.
#[verifier::external_body]
fn regex_compile_ok(pattern: &Vec<u8>) -> (r: bool)
    ensures
        r == regex_valid(pattern@),
{
    match std::str::from_utf8(pattern) {
        Ok(p) => regex::bytes::Regex::new(p).is_ok(),
        Err(_) => false,
    }
}

/// Relies on `regex::bytes::Regex::new` and `Regex::is_match`: whether a
/// valid pattern finds a match in a haystack depends on the pattern and the
/// haystack bytes alone. The unwraps cannot fail: `regex_valid` holds of
/// exactly the patterns that are UTF-8 and compile.
#[verifier::external_body]
fn regex_find(pattern: &Vec<u8>, text: &Vec<u8>) -> (r: bool)
    requires
        regex_valid(pattern@),
    ensures
        r == regex_match(pattern@, text@),
{
    let p = std::str::from_utf8(pattern).unwrap();
    regex::bytes::Regex::new(p).unwrap().is_match(text)
}

/// The corpus entries, in order, in whose text the pattern finds a match.
pub open spec fn spec_matched(pattern: Seq<u8>, corpus: Seq<Seq<u8>>) -> Seq<Seq<u8>>
    decreases corpus.len(),
{
    if corpus.len() == 0 {
        seq![]
    } else if regex_match(pattern, corpus.last()) {
        spec_matched(pattern, corpus.drop_last()).push(corpus.last())
    } else {
        spec_matched(pattern, corpus.drop_last())
    }
}

/// Filters the corpus by one pattern: every entry the pattern matches, in
/// corpus order — no sorting, no re-indexing. `Err` exactly when the
/// pattern is invalid.
pub fn match_hosts(pattern: &Vec<u8>, corpus: &Vec<Vec<u8>>) -> (r: Result<
    Vec<Vec<u8>>,
    MatchError,
>)
    ensures
        r is Ok <==> regex_valid(pattern@),
        r is Ok ==> views(r->Ok_0@) == spec_matched(pattern@, views(corpus@)),
{
    if !regex_compile_ok(pattern) {
        return Err(MatchError::InvalidPattern);
    }
    let mut out: Vec<Vec<u8>> = Vec::new();
    proof {
        assert(views(corpus@).subrange(0, 0) =~= Seq::<Seq<u8>>::empty());
        assert(views(out@) =~= spec_matched(pattern@, views(corpus@).subrange(0, 0)));
    }
    let mut i: usize = 0;
    while i < corpus.len()
        invariant
            i <= corpus@.len(),
            regex_valid(pattern@),
            views(out@) == spec_matched(pattern@, views(corpus@).subrange(0, i as int)),
        decreases corpus@.len() - i,
    {
        let ghost prefix = views(corpus@).subrange(0, i as int);
        let ghost prefix1 = views(corpus@).subrange(0, i + 1 as int);
        proof {
            assert(prefix1.drop_last() =~= prefix);
            assert(prefix1.last() == corpus@[i as int]@);
        }
        if regex_find(pattern, &corpus[i]) {
            out.push(copy_bytes(&corpus[i]));
            proof {
                assert(views(out@) =~= spec_matched(pattern@, prefix).push(corpus@[i as int]@));
            }
        }
        proof {
            assert(views(out@) =~= spec_matched(pattern@, prefix1));
        }
        i = i + 1;
    }
    proof {
        assert(views(corpus@).subrange(0, corpus@.len() as int) =~= views(corpus@));
    }
    Ok(out)
}

/// Matcher mode over several patterns: each filters the corpus on its own,
/// results concatenated in pattern order; the first invalid pattern rejects
/// the whole set.
pub open spec fn spec_match_all(patterns: Seq<Seq<u8>>, corpus: Seq<Seq<u8>>) -> Result<
    Seq<Seq<u8>>,
    MatchError,
>
    decreases patterns.len(),
{
    if patterns.len() == 0 {
        Ok(seq![])
    } else if !regex_valid(patterns[0]) {
        Err(MatchError::InvalidPattern)
    } else {
        match spec_match_all(patterns.drop_first(), corpus) {
            Err(e) => Err(e),
            Ok(rest) => Ok(spec_matched(patterns[0], corpus) + rest),
        }
    }
}

/// Runs every pattern over the corpus, in caller order, concatenating what
/// each keeps; the first invalid pattern is a fatal configuration error.
pub fn match_all(patterns: &Vec<Vec<u8>>, corpus: &Vec<Vec<u8>>) -> (r: Result<
    Vec<Vec<u8>>,
    MatchError,
>)
    ensures
        match r {
            Ok(v) => spec_match_all(views(patterns@), views(corpus@)) == Ok::<
                Seq<Seq<u8>>,
                MatchError,
            >(views(v@)),
            Err(e) => spec_match_all(views(patterns@), views(corpus@)) == Err::<
                Seq<Seq<u8>>,
                MatchError,
            >(e),
        },
{
    let ghost ps = views(patterns@);
    let ghost cs = views(corpus@);
    let mut out: Vec<Vec<u8>> = Vec::new();
    proof {
        assert(ps.subrange(0, ps.len() as int) =~= ps);
        match spec_match_all(ps, cs) {
            Ok(rest) => {
                assert(views(out@) + rest =~= rest);
            },
            Err(_) => {},
        }
    }
    let mut k: usize = 0;
    while k < patterns.len()
        invariant
            k <= patterns@.len(),
            ps == views(patterns@),
            cs == views(corpus@),
            patterns@.len() == ps.len(),
            match spec_match_all(ps.subrange(k as int, ps.len() as int), cs) {
                Ok(rest) => spec_match_all(ps, cs) == Ok::<Seq<Seq<u8>>, MatchError>(
                    views(out@) + rest,
                ),
                Err(e) => spec_match_all(ps, cs) == Err::<Seq<Seq<u8>>, MatchError>(e),
            },
        decreases patterns@.len() - k,
    {
        let ghost tail = ps.subrange(k as int, ps.len() as int);
        proof {
            assert(tail[0] == ps[k as int]);
            assert(ps[k as int] == patterns@[k as int]@);
            assert(tail.drop_first() =~= ps.subrange(k + 1 as int, ps.len() as int));
        }
        match match_hosts(&patterns[k], corpus) {
            Err(e) => {
                proof {
                    assert(spec_match_all(tail, cs) == Err::<Seq<Seq<u8>>, MatchError>(e));
                }
                return Err(e);
            },
            Ok(mut xs) => {
                let ghost prev = views(out@);
                let ghost xsv = views(xs@);
                out.append(&mut xs);
                proof {
                    assert(views(out@) =~= prev + xsv);
                    assert(xsv == spec_matched(ps[k as int], cs));
                    match spec_match_all(ps.subrange(k + 1 as int, ps.len() as int), cs) {
                        Ok(rest) => {
                            assert(spec_match_all(tail, cs) == Ok::<Seq<Seq<u8>>, MatchError>(
                                xsv + rest,
                            ));
                            assert(prev + (xsv + rest) =~= (prev + xsv) + rest);
                        },
                        Err(_) => {},
                    }
                }
            },
        }
        k = k + 1;
    }
    proof {
        assert(ps.subrange(ps.len() as int, ps.len() as int) =~= Seq::<Seq<u8>>::empty());
        assert(spec_match_all(Seq::<Seq<u8>>::empty(), cs) == Ok::<Seq<Seq<u8>>, MatchError>(
            seq![],
        ));
        assert(views(out@) + seq![] =~= views(out@));
    }
    Ok(out)
}

/// A line without its trailing carriage return, if it has one.
pub open spec fn strip_cr(line: Seq<u8>) -> Seq<u8> {
    if line.len() > 0 && line.last() == CARRIAGE_RETURN {
        line.drop_last()
    } else {
        line
    }
}

/// The host-name field of a known-hosts line: everything before the first
/// space, or the whole line when it has none.
pub open spec fn first_field(line: Seq<u8>) -> Seq<u8> {
    match first_at(line, SPACE, 0) {
        None => line,
        Some(i) => line.subrange(0, i),
    }
}

/// The candidate names a known-hosts file yields: one per line — lines split
/// on newlines, a trailing carriage return dropped, the final line ending
/// optional — each reduced to its host-name field.
pub open spec fn spec_known_hosts(content: Seq<u8>) -> Seq<Seq<u8>>
    decreases content.len(),
        via spec_known_hosts_decreases
{
    if content.len() == 0 {
        seq![]
    } else {
        match first_at(content, NEWLINE, 0) {
            None => seq![first_field(strip_cr(content))],
            Some(i) => seq![first_field(strip_cr(content.subrange(0, i)))] + spec_known_hosts(
                content.subrange(i + 1, content.len() as int),
            ),
        }
    }
}

#[via_fn]
proof fn spec_known_hosts_decreases(content: Seq<u8>) {
    lemma_first_at(content, NEWLINE, 0);
}

/// Reduces one line to its host-name field, the trailing carriage return
/// dropped first.
fn parse_line(line: &Vec<u8>) -> (r: Vec<u8>)
    ensures
        r@ == first_field(strip_cr(line@)),
{
    let n = line.len();
    let stripped: Vec<u8> = if n > 0 && line[n - 1] == CARRIAGE_RETURN {
        subvec(line, 0, n - 1)
    } else {
        copy_bytes(line)
    };
    proof {
        assert(line@.subrange(0, n - 1 as int) =~= line@.drop_last());
        assert(stripped@ == strip_cr(line@));
    }
    match find_byte(&stripped, SPACE, 0) {
        None => stripped,
        Some(i) => {
            proof {
                lemma_first_at(stripped@, SPACE, 0);
            }
            subvec(&stripped, 0, i)
        },
    }
}

/// Parses the text of a known-hosts style file into its candidate host
/// names, one per line, in file order.
pub fn parse_known_hosts(content: &Vec<u8>) -> (r: Vec<Vec<u8>>)
    ensures
        views(r@) == spec_known_hosts(content@),
    decreases content@.len(),
{
    let n = content.len();
    if n == 0 {
        let r: Vec<Vec<u8>> = Vec::new();
        proof {
            assert(views(r@) =~= spec_known_hosts(content@));
        }
        return r;
    }
    match find_byte(content, NEWLINE, 0) {
        None => {
            let mut r: Vec<Vec<u8>> = Vec::new();
            r.push(parse_line(content));
            proof {
                assert(views(r@) =~= spec_known_hosts(content@));
            }
            r
        },
        Some(i) => {
            proof {
                lemma_first_at(content@, NEWLINE, 0);
            }
            let head_line = subvec(content, 0, i);
            let head = parse_line(&head_line);
            let rest_bytes = subvec(content, i + 1, n);
            let mut r = parse_known_hosts(&rest_bytes);
            r.insert(0, head);
            proof {
                assert(views(r@) =~= seq![first_field(strip_cr(content@.subrange(0, i as int)))]
                    + spec_known_hosts(content@.subrange(i + 1, content@.len() as int)));
            }
            r
        },
    }
}

} // verus!
