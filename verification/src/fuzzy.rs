//! Fuzzy tag matching: a query matches a tag when, after case folding,
//! it occurs inside it. Case folding is done by the standard library;
//! the substring search on the folded strings is verified.

use vstd::prelude::*;

use crate::issue::IssueWithId;
use crate::strutil::{ascii_lower, contains_str, eq_ignore_ascii_case, seq_contains_seq};

verus! {

/// What `str::to_lowercase` returns for the given characters: a fixed
/// function of them alone.
pub uninterp spec fn lower_of(s: Seq<char>) -> Seq<char>;

/// Relies on `str::to_lowercase`: the Unicode lowercase of the string,
/// a function of its characters alone; empty input stays empty.
#[verifier::external_body]
fn to_lowercase(s: &str) -> (r: String)
    ensures
        r@ == lower_of(s@),
        s@.len() == 0 ==> r@.len() == 0,
{
    s.to_lowercase()
}

/// A query matches a tag when its lowercase form occurs inside the
/// tag's lowercase form, so matching is case-insensitive and accepts
/// any substring: `sec` matches `security`.
pub fn fuzzy_match_tag(query: &str, tag: &str) -> (r: bool)
    ensures
        r == seq_contains_seq(lower_of(tag@), lower_of(query@)),
{
    let lt = to_lowercase(tag);
    let lq = to_lowercase(query);
    contains_str(lt.as_str(), lq.as_str())
}

/// Keeps the issues that every query matches on some tag, fuzzily, in
/// their given order.
pub fn filter_by_tags(issues: Vec<IssueWithId>, tag_queries: &Vec<String>) -> (r: Vec<IssueWithId>)
    ensures
        tag_queries@.len() == 0 ==> r == issues,
        forall|u: int|
            0 <= u < r@.len() ==> issues@.contains(#[trigger] r@[u]) && fuzzy_matches_all(
                r@[u],
                tag_queries@,
            ),
        forall|t: int|
            0 <= t < issues@.len() && fuzzy_matches_all(#[trigger] issues@[t], tag_queries@)
                ==> r@.contains(issues@[t]),
{
    if tag_queries.len() == 0 {
        return issues;
    }
    let mut out: Vec<IssueWithId> = Vec::new();
    let mut rest = issues;
    let ghost orig = rest@;
    let ghost mut done: int = 0;
    while rest.len() > 0
        invariant
            0 <= done <= orig.len(),
            rest@ == orig.subrange(done, orig.len() as int),
            forall|u: int|
                0 <= u < out@.len() ==> orig.contains(#[trigger] out@[u]) && fuzzy_matches_all(
                    out@[u],
                    tag_queries@,
                ),
            forall|t: int|
                0 <= t < done && fuzzy_matches_all(#[trigger] orig[t], tag_queries@)
                    ==> out@.contains(orig[t]),
        decreases rest@.len(),
    {
        let ghost pre_rest = rest@;
        let rec = rest.remove(0);
        proof {
            assert(rest@ =~= orig.subrange(done + 1, orig.len() as int));
            assert(rec == orig[done]);
            assert(orig.contains(rec)) by {
                assert(orig[done] == rec);
            }
        }
        let hit = matches_all_queries(&rec, tag_queries);
        let ghost pre = out@;
        if hit {
            out.push(rec);
            proof {
                assert(forall|u: int| 0 <= u < pre.len() ==> #[trigger] out@[u] == pre[u]);
                assert(out@[out@.len() - 1] == orig[done]);
            }
        }
        proof {
            assert forall|t: int|
                0 <= t < done + 1 && fuzzy_matches_all(#[trigger] orig[t], tag_queries@)
                    implies out@.contains(orig[t]) by {
                if t < done {
                    let u = choose|u: int| 0 <= u < pre.len() && pre[u] == orig[t];
                    assert(out@[u] == orig[t]);
                } else {
                    assert(out@[out@.len() - 1] == orig[done]);
                }
            }
            done = done + 1;
        }
    }
    proof {
        assert(done == orig.len());
    }
    out
}

/// Keeps the issues carrying every listed tag exactly, up to ASCII case,
/// in their given order.
pub fn filter_by_tags_exact(issues: Vec<IssueWithId>, tags: &Vec<String>) -> (r: Vec<IssueWithId>)
    ensures
        tags@.len() == 0 ==> r == issues,
        forall|u: int|
            0 <= u < r@.len() ==> issues@.contains(#[trigger] r@[u]) && exact_matches_all(
                r@[u],
                tags@,
            ),
        forall|t: int|
            0 <= t < issues@.len() && exact_matches_all(#[trigger] issues@[t], tags@)
                ==> r@.contains(issues@[t]),
{
    if tags.len() == 0 {
        return issues;
    }
    let mut out: Vec<IssueWithId> = Vec::new();
    let mut rest = issues;
    let ghost orig = rest@;
    let ghost mut done: int = 0;
    while rest.len() > 0
        invariant
            0 <= done <= orig.len(),
            rest@ == orig.subrange(done, orig.len() as int),
            forall|u: int|
                0 <= u < out@.len() ==> orig.contains(#[trigger] out@[u]) && exact_matches_all(
                    out@[u],
                    tags@,
                ),
            forall|t: int|
                0 <= t < done && exact_matches_all(#[trigger] orig[t], tags@) ==> out@.contains(
                    orig[t],
                ),
        decreases rest@.len(),
    {
        let rec = rest.remove(0);
        proof {
            assert(rest@ =~= orig.subrange(done + 1, orig.len() as int));
            assert(rec == orig[done]);
            assert(orig.contains(rec)) by {
                assert(orig[done] == rec);
            }
        }
        let hit = matches_all_exact(&rec, tags);
        let ghost pre = out@;
        if hit {
            out.push(rec);
            proof {
                assert(forall|u: int| 0 <= u < pre.len() ==> #[trigger] out@[u] == pre[u]);
                assert(out@[out@.len() - 1] == orig[done]);
            }
        }
        proof {
            assert forall|t: int|
                0 <= t < done + 1 && exact_matches_all(#[trigger] orig[t], tags@)
                    implies out@.contains(orig[t]) by {
                if t < done {
                    let u = choose|u: int| 0 <= u < pre.len() && pre[u] == orig[t];
                    assert(out@[u] == orig[t]);
                } else {
                    assert(out@[out@.len() - 1] == orig[done]);
                }
            }
            done = done + 1;
        }
    }
    proof {
        assert(done == orig.len());
    }
    out
}

/// The query fuzzily matches some tag of the issue.
pub open spec fn query_hits(rec: IssueWithId, q: String) -> bool {
    exists|t: int|
        0 <= t < rec.issue.metadata.tags@.len() && seq_contains_seq(
            lower_of((#[trigger] rec.issue.metadata.tags@[t])@),
            lower_of(q@),
        )
}

/// Every query fuzzily matches some tag of the issue.
pub open spec fn fuzzy_matches_all(rec: IssueWithId, queries: Seq<String>) -> bool {
    forall|q: int| 0 <= q < queries.len() ==> query_hits(rec, #[trigger] queries[q])
}

/// The tag appears among the issue's tags, up to ASCII case.
pub open spec fn tag_present(rec: IssueWithId, tag: String) -> bool {
    exists|t: int|
        0 <= t < rec.issue.metadata.tags@.len() && ascii_lower(
            (#[trigger] rec.issue.metadata.tags@[t])@,
        ) == ascii_lower(tag@)
}

/// Every listed tag appears among the issue's tags, up to ASCII case.
pub open spec fn exact_matches_all(rec: IssueWithId, tags: Seq<String>) -> bool {
    forall|q: int| 0 <= q < tags.len() ==> tag_present(rec, #[trigger] tags[q])
}

/// Decides `fuzzy_matches_all` for one issue.
fn matches_all_queries(rec: &IssueWithId, queries: &Vec<String>) -> (r: bool)
    ensures
        r == fuzzy_matches_all(*rec, queries@),
{
    let mut q: usize = 0;
    while q < queries.len()
        invariant
            q <= queries@.len(),
            forall|q2: int| 0 <= q2 < q ==> query_hits(*rec, #[trigger] queries@[q2]),
        decreases queries@.len() - q,
    {
        let mut hit = false;
        let mut t: usize = 0;
        while t < rec.issue.metadata.tags.len()
            invariant
                q < queries@.len(),
                t <= rec.issue.metadata.tags@.len(),
                hit ==> query_hits(*rec, queries@[q as int]),
                !hit ==> forall|t2: int|
                    0 <= t2 < t ==> !seq_contains_seq(
                        lower_of((#[trigger] rec.issue.metadata.tags@[t2])@),
                        lower_of(queries@[q as int]@),
                    ),
            ensures
                hit ==> query_hits(*rec, queries@[q as int]),
                !hit ==> forall|t2: int|
                    0 <= t2 < rec.issue.metadata.tags@.len() ==> !seq_contains_seq(
                        lower_of((#[trigger] rec.issue.metadata.tags@[t2])@),
                        lower_of(queries@[q as int]@),
                    ),
            decreases rec.issue.metadata.tags@.len() - t,
        {
            if fuzzy_match_tag(queries[q].as_str(), rec.issue.metadata.tags[t].as_str()) {
                hit = true;
                proof {
                    assert(seq_contains_seq(
                        lower_of(rec.issue.metadata.tags@[t as int]@),
                        lower_of(queries@[q as int]@),
                    ));
                }
                break;
            }
            t = t + 1;
        }
        if !hit {
            proof {
                assert(!query_hits(*rec, queries@[q as int])) by {
                    if query_hits(*rec, queries@[q as int]) {
                        let t2 = choose|t2: int|
                            0 <= t2 < rec.issue.metadata.tags@.len() && seq_contains_seq(
                                lower_of((#[trigger] rec.issue.metadata.tags@[t2])@),
                                lower_of(queries@[q as int]@),
                            );
                        assert(!seq_contains_seq(
                            lower_of(rec.issue.metadata.tags@[t2]@),
                            lower_of(queries@[q as int]@),
                        ));
                    }
                }
            }
            return false;
        }
        q = q + 1;
    }
    true
}

/// Decides `exact_matches_all` for one issue.
fn matches_all_exact(rec: &IssueWithId, tags: &Vec<String>) -> (r: bool)
    ensures
        r == exact_matches_all(*rec, tags@),
{
    let mut q: usize = 0;
    while q < tags.len()
        invariant
            q <= tags@.len(),
            forall|q2: int| 0 <= q2 < q ==> tag_present(*rec, #[trigger] tags@[q2]),
        decreases tags@.len() - q,
    {
        let mut hit = false;
        let mut t: usize = 0;
        while t < rec.issue.metadata.tags.len()
            invariant
                q < tags@.len(),
                t <= rec.issue.metadata.tags@.len(),
                hit ==> tag_present(*rec, tags@[q as int]),
                !hit ==> forall|t2: int|
                    0 <= t2 < t ==> ascii_lower((#[trigger] rec.issue.metadata.tags@[t2])@)
                        != ascii_lower(tags@[q as int]@),
            ensures
                hit ==> tag_present(*rec, tags@[q as int]),
                !hit ==> forall|t2: int|
                    0 <= t2 < rec.issue.metadata.tags@.len() ==> ascii_lower(
                        (#[trigger] rec.issue.metadata.tags@[t2])@,
                    ) != ascii_lower(tags@[q as int]@),
            decreases rec.issue.metadata.tags@.len() - t,
        {
            if eq_ignore_ascii_case(rec.issue.metadata.tags[t].as_str(), tags[q].as_str()) {
                hit = true;
                proof {
                    assert(ascii_lower(rec.issue.metadata.tags@[t as int]@) == ascii_lower(
                        tags@[q as int]@,
                    ));
                }
                break;
            }
            t = t + 1;
        }
        if !hit {
            proof {
                assert(!tag_present(*rec, tags@[q as int])) by {
                    if tag_present(*rec, tags@[q as int]) {
                        let t2 = choose|t2: int|
                            0 <= t2 < rec.issue.metadata.tags@.len() && ascii_lower(
                                (#[trigger] rec.issue.metadata.tags@[t2])@,
                            ) == ascii_lower(tags@[q as int]@);
                        assert(ascii_lower(rec.issue.metadata.tags@[t2]@) != ascii_lower(
                            tags@[q as int]@,
                        ));
                    }
                }
            }
            return false;
        }
        q = q + 1;
    }
    true
}

} // verus!
