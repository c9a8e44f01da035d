use vstd::prelude::*;

use crate::text::{chars_of, contains_chars, has_substring, lines, lines_of, views_of};

verus! {

/// What `str::to_lowercase` makes of a string.
pub uninterp spec fn lower_of(s: Seq<char>) -> Seq<char>;

/// Relies on `str::to_lowercase`: its result depends on the characters alone.
#[verifier::external_body]
fn lowercase(s: &str) -> (r: String)
    ensures
        r@ == lower_of(s@),
{
    s.to_lowercase()
}

/// A line matches when the query occurs in it exactly.
pub open spec fn exact_match(q: Seq<char>) -> spec_fn(Seq<char>) -> bool {
    |l: Seq<char>| has_substring(l, q)
}

/// A line matches when the lowercased query occurs in the lowercased line.
pub open spec fn folded_match(q: Seq<char>) -> spec_fn(Seq<char>) -> bool {
    |l: Seq<char>| has_substring(lower_of(l), lower_of(q))
}

/// The lines of `contents` that hold `query`, in order.
pub open spec fn search_result(query: Seq<char>, contents: Seq<char>) -> Seq<Seq<char>> {
    lines_of(contents).filter(exact_match(query))
}

/// The lines of `contents` that hold `query` once both are lowercased, in order.
pub open spec fn search_insensitive_result(query: Seq<char>, contents: Seq<char>) -> Seq<
    Seq<char>,
> {
    lines_of(contents).filter(folded_match(query))
}

/// The lines of `contents` that contain `query`, in the order they appear.
pub fn search<'a>(query: &str, contents: &'a str) -> (r: Vec<&'a str>)
    ensures
        views_of(r@) == search_result(query@, contents@),
{
    let all = lines(contents);
    let q = chars_of(query);
    let ghost src = views_of(all@);
    let mut out: Vec<&'a str> = Vec::new();
    let mut i: usize = 0;
    proof {
        assert(src.take(0) =~= Seq::<Seq<char>>::empty());
        reveal(Seq::filter);
        assert(views_of(out@) =~= src.take(0).filter(exact_match(q@)));
    }
    while i < all.len()
        invariant
            src == views_of(all@),
            src == lines_of(contents@),
            q@ == query@,
            i <= all.len(),
            views_of(out@) == src.take(i as int).filter(exact_match(q@)),
        decreases all.len() - i,
    {
        let line = all[i];
        let l = chars_of(line);
        proof {
            assert(src.take(i + 1) =~= src.take(i as int).push(line@));
            src.take(i as int).lemma_filter_push(line@, exact_match(q@));
        }
        if contains_chars(&l, &q) {
            let ghost old_out = out@;
            out.push(line);
            proof {
                assert(views_of(out@) =~= views_of(old_out).push(line@));
            }
        }
        i = i + 1;
    }
    proof {
        assert(src.take(all.len() as int) =~= src);
    }
    out
}

/// The lines of `contents` that contain `query` when both are lowercased, in
/// the order they appear; the lines keep their own case.
pub fn search_insensitive<'a>(query: &str, contents: &'a str) -> (r: Vec<&'a str>)
    ensures
        views_of(r@) == search_insensitive_result(query@, contents@),
{
    let all = lines(contents);
    let lowered_query = lowercase(query);
    let q = chars_of(lowered_query.as_str());
    let ghost src = views_of(all@);
    let mut out: Vec<&'a str> = Vec::new();
    let mut i: usize = 0;
    proof {
        assert(src.take(0) =~= Seq::<Seq<char>>::empty());
        reveal(Seq::filter);
        assert(views_of(out@) =~= src.take(0).filter(folded_match(query@)));
    }
    while i < all.len()
        invariant
            src == views_of(all@),
            src == lines_of(contents@),
            q@ == lower_of(query@),
            i <= all.len(),
            views_of(out@) == src.take(i as int).filter(folded_match(query@)),
        decreases all.len() - i,
    {
        let line = all[i];
        let lowered_line = lowercase(line);
        let l = chars_of(lowered_line.as_str());
        proof {
            assert(src.take(i + 1) =~= src.take(i as int).push(line@));
            src.take(i as int).lemma_filter_push(line@, folded_match(query@));
        }
        if contains_chars(&l, &q) {
            let ghost old_out = out@;
            out.push(line);
            proof {
                assert(views_of(out@) =~= views_of(old_out).push(line@));
            }
        }
        i = i + 1;
    }
    proof {
        assert(src.take(all.len() as int) =~= src);
    }
    out
}

/// `idx` places each element of `a` at a position of `b`, positions rising.
pub open spec fn embeds<A>(idx: Seq<int>, a: Seq<A>, b: Seq<A>) -> bool {
    &&& idx.len() == a.len()
    &&& forall|i: int| 0 <= i < idx.len() ==> 0 <= #[trigger] idx[i] < b.len() && b[idx[i]] == a[i]
    &&& forall|i: int, j: int| 0 <= i < j < idx.len() ==> #[trigger] idx[i] < #[trigger] idx[j]
}

/// `a` is `b` with some elements left out: order kept, nothing added or repeated.
pub open spec fn is_subsequence<A>(a: Seq<A>, b: Seq<A>) -> bool {
    exists|idx: Seq<int>| embeds(idx, a, b)
}

proof fn lemma_filter_embeds<A>(s: Seq<A>, p: spec_fn(A) -> bool, wider: spec_fn(A) -> bool) -> (idx:
    Seq<int>)
    requires
        forall|i: int| 0 <= i < s.len() && p(#[trigger] s[i]) ==> wider(s[i]),
    ensures
        embeds(idx, s.filter(p), s.filter(wider)),
    decreases s.len(),
{
    if s.len() == 0 {
        reveal(Seq::filter);
        Seq::<int>::empty()
    } else {
        let t = s.drop_last();
        let x = s.last();
        assert forall|i: int| 0 <= i < t.len() && p(#[trigger] t[i]) implies wider(t[i]) by {
            assert(t[i] == s[i]);
        }
        let idx0 = lemma_filter_embeds(t, p, wider);
        assert(t.push(x) =~= s);
        t.lemma_filter_push(x, p);
        t.lemma_filter_push(x, wider);
        if p(x) {
            assert(wider(s[s.len() - 1]));
            let n = t.filter(wider).len() as int;
            let idx = idx0.push(n);
            assert(embeds(idx, s.filter(p), s.filter(wider)));
            idx
        } else {
            if wider(x) {
                assert forall|i: int| 0 <= i < idx0.len() implies s.filter(wider)[#[trigger] idx0[i]]
                    == s.filter(p)[i] by {
                    assert(s.filter(wider)[idx0[i]] == t.filter(wider)[idx0[i]]);
                }
            }
            idx0
        }
    }
}

proof fn lemma_filter_embeds_in_source<A>(s: Seq<A>, p: spec_fn(A) -> bool) -> (idx: Seq<int>)
    ensures
        embeds(idx, s.filter(p), s),
    decreases s.len(),
{
    if s.len() == 0 {
        reveal(Seq::filter);
        Seq::<int>::empty()
    } else {
        let t = s.drop_last();
        let x = s.last();
        let idx0 = lemma_filter_embeds_in_source(t, p);
        assert(t.push(x) =~= s);
        t.lemma_filter_push(x, p);
        assert forall|i: int| 0 <= i < idx0.len() implies s[#[trigger] idx0[i]] == t[idx0[i]] by {}
        if p(x) {
            let idx = idx0.push(t.len() as int);
            assert(embeds(idx, s.filter(p), s));
            idx
        } else {
            idx0
        }
    }
}

/// Every line that `search` returns is a line of `contents`, in the order of
/// `contents`, none added and none repeated.
pub proof fn search_keeps_order(query: Seq<char>, contents: Seq<char>)
    ensures
        is_subsequence(search_result(query, contents), lines_of(contents)),
{
    let idx = lemma_filter_embeds_in_source(lines_of(contents), exact_match(query));
}

/// Every line that `search` returns contains the query.
pub proof fn search_lines_hold_query(query: Seq<char>, contents: Seq<char>)
    ensures
        forall|i: int|
            0 <= i < search_result(query, contents).len() ==> has_substring(
                #[trigger] search_result(query, contents)[i],
                query,
            ),
{
    assert forall|i: int| 0 <= i < search_result(query, contents).len() implies has_substring(
        #[trigger] search_result(query, contents)[i],
        query,
    ) by {
        lines_of(contents).lemma_filter_pred(exact_match(query), i);
    }
}

/// Every line that `search_insensitive` returns contains the query once both
/// are lowercased.
pub proof fn search_insensitive_lines_hold_query(query: Seq<char>, contents: Seq<char>)
    ensures
        forall|i: int|
            0 <= i < search_insensitive_result(query, contents).len() ==> has_substring(
                lower_of(#[trigger] search_insensitive_result(query, contents)[i]),
                lower_of(query),
            ),
{
    assert forall|i: int| 0 <= i < search_insensitive_result(query, contents).len() implies has_substring(
        lower_of(#[trigger] search_insensitive_result(query, contents)[i]),
        lower_of(query),
    ) by {
        lines_of(contents).lemma_filter_pred(folded_match(query), i);
    }
}

/// Where every line of `contents` that holds `query` still holds it once both
/// are lowercased, the lines of `search` come, in order, among those of
/// `search_insensitive`.
pub proof fn insensitive_keeps_sensitive_matches(query: Seq<char>, contents: Seq<char>)
    requires
        forall|i: int|
            0 <= i < lines_of(contents).len() && has_substring(#[trigger] lines_of(contents)[i], query)
                ==> has_substring(lower_of(lines_of(contents)[i]), lower_of(query)),
    ensures
        is_subsequence(
            search_result(query, contents),
            search_insensitive_result(query, contents),
        ),
{
    let s = lines_of(contents);
    assert forall|i: int| 0 <= i < s.len() && exact_match(query)(#[trigger] s[i]) implies folded_match(
        query,
    )(s[i]) by {}
    let idx = lemma_filter_embeds(s, exact_match(query), folded_match(query));
}

} // verus!
