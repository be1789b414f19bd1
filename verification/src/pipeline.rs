use vstd::prelude::*;

use crate::alias::{all_lower, resolve_spec, AliasMap, AliasPairs};
use crate::models::{ModelScore, PondusOutput, QueryInfo, SourceResult, SourceStatus};
use crate::text::{lower, lowercase, str_eq};

verus! {

/// Filtering one more element off the front of a sequence.
proof fn lemma_filter_snoc<A>(s: Seq<A>, pred: spec_fn(A) -> bool, i: int)
    requires
        0 <= i < s.len(),
    ensures
        s.take(i + 1).filter(pred) == if pred(s[i]) {
            s.take(i).filter(pred).push(s[i])
        } else {
            s.take(i).filter(pred)
        },
{
    reveal(Seq::filter);
    assert(s.take(i + 1).drop_last() =~= s.take(i));
    assert(s.take(i + 1).last() == s[i]);
}

/// What fetching every registered source yields, given each source's name
/// and the outcome of its own fetch, in registration order: a success is
/// passed through as it is; a failure is converted into a result that
/// carries the failure as this one source's status, with no scores — it
/// never propagates to any other source, and the output keeps registration
/// order and length.
pub fn fetch_all(outcomes: Vec<(String, Result<SourceResult, String>)>) -> (r: Vec<SourceResult>)
    ensures
        r@.len() == outcomes@.len(),
        forall|i: int|
            0 <= i < outcomes@.len() ==> match (#[trigger] outcomes@[i]).1 {
                Ok(res) => r@[i] == res,
                Err(msg) => r@[i].source == outcomes@[i].0 && r@[i].fetched_at is None && (
                r@[i].status matches SourceStatus::Error(t) && t@ == msg@) && r@[i].scores@.len()
                    == 0,
            },
{
    let ghost orig = outcomes@;
    let mut rest = outcomes;
    let mut r: Vec<SourceResult> = Vec::new();
    while rest.len() > 0
        invariant
            r@.len() + rest@.len() == orig.len(),
            rest@ == orig.skip(r@.len() as int),
            forall|i: int|
                0 <= i < r@.len() ==> match (#[trigger] orig[i]).1 {
                    Ok(res) => r@[i] == res,
                    Err(msg) => r@[i].source == orig[i].0 && r@[i].fetched_at is None && (
                    r@[i].status matches SourceStatus::Error(t) && t@ == msg@)
                        && r@[i].scores@.len() == 0,
                },
        decreases rest@.len(),
    {
        let ghost done = r@.len() as int;
        let (name, outcome) = rest.remove(0);
        proof {
            assert(orig.skip(done)[0] == orig[done]);
            assert(orig.skip(done).remove(0) =~= orig.skip(done + 1));
        }
        match outcome {
            Ok(res) => r.push(res),
            Err(msg) => {
                let status = SourceStatus::Error(msg);
                r.push(
                    SourceResult { source: name, fetched_at: None, status, scores: Vec::new() },
                );
            },
        }
    }
    proof {
        assert(orig.skip(r@.len() as int).len() == 0);
    }
    r
}

/// Whether the check query keeps a score: either the source's own
/// normalization of the model name already equals the canonical name
/// (lowercased), or the raw source spelling resolves to it. The
/// disjunction exists because the two name fields are normalized
/// independently and need not agree.
pub open spec fn check_keeps(m: AliasPairs, s: ModelScore, c: Seq<char>) -> bool {
    lower(s.model@) == c || resolve_spec(m, s.source_model_name@) == c
}

/// The scores the check query keeps, in order.
pub open spec fn check_filter(m: AliasPairs, scores: Seq<ModelScore>, c: Seq<char>) -> Seq<
    ModelScore,
> {
    scores.filter(|s: ModelScore| check_keeps(m, s, c))
}

/// Whether the compare query keeps a score: its raw source spelling
/// resolves to one of the two canonical names.
pub open spec fn compare_keeps(m: AliasPairs, s: ModelScore, c1: Seq<char>, c2: Seq<char>) -> bool {
    resolve_spec(m, s.source_model_name@) == c1 || resolve_spec(m, s.source_model_name@) == c2
}

/// The scores the compare query keeps, in order.
pub open spec fn compare_filter(
    m: AliasPairs,
    scores: Seq<ModelScore>,
    c1: Seq<char>,
    c2: Seq<char>,
) -> Seq<ModelScore> {
    scores.filter(|s: ModelScore| compare_keeps(m, s, c1, c2))
}

/// Keep the scores of one source that the check query asks for.
fn filter_scores_check(aliases: &AliasMap, scores: Vec<ModelScore>, canonical: &String) -> (r: Vec<
    ModelScore,
>)
    requires
        lower(canonical@) == canonical@,
    ensures
        r@ == check_filter(aliases@, scores@, canonical@),
{
    let ghost m = aliases@;
    let ghost c = canonical@;
    let ghost orig = scores@;
    let ghost pred = |s: ModelScore| check_keeps(m, s, c);
    let mut rest = scores;
    let mut kept: Vec<ModelScore> = Vec::new();
    proof {
        reveal(Seq::filter);
        assert(orig.take(0) =~= Seq::<ModelScore>::empty());
    }
    while rest.len() > 0
        invariant
            c == canonical@,
            lower(c) == c,
            m == aliases@,
            rest@ == orig.skip((orig.len() - rest@.len()) as int),
            rest@.len() <= orig.len(),
            kept@ == orig.take((orig.len() - rest@.len()) as int).filter(pred),
            pred == (|s: ModelScore| check_keeps(m, s, c)),
        decreases rest@.len(),
    {
        let ghost done = orig.len() - rest@.len();
        let s = rest.remove(0);
        proof {
            assert(orig.skip(done as int)[0] == orig[done as int]);
            assert(orig.skip(done as int).remove(0) =~= orig.skip(done as int + 1));
        }
        let low_model = lowercase(s.model.as_str());
        let keep = str_eq(low_model.as_str(), canonical.as_str()) || aliases.matches(
            s.source_model_name.as_str(),
            canonical.as_str(),
        );
        proof {
            assert(keep == check_keeps(m, orig[done as int], c));
            lemma_filter_snoc(orig, pred, done as int);
        }
        if keep {
            kept.push(s);
        }
    }
    proof {
        assert(orig.take(orig.len() as int) =~= orig);
    }
    kept
}

/// Keep the scores of one source that the compare query asks for.
fn filter_scores_compare(
    aliases: &AliasMap,
    scores: Vec<ModelScore>,
    c1: &String,
    c2: &String,
) -> (r: Vec<ModelScore>)
    ensures
        r@ == compare_filter(aliases@, scores@, c1@, c2@),
{
    let ghost m = aliases@;
    let ghost g1 = c1@;
    let ghost g2 = c2@;
    let ghost orig = scores@;
    let ghost pred = |s: ModelScore| compare_keeps(m, s, g1, g2);
    let mut rest = scores;
    let mut kept: Vec<ModelScore> = Vec::new();
    proof {
        reveal(Seq::filter);
        assert(orig.take(0) =~= Seq::<ModelScore>::empty());
    }
    while rest.len() > 0
        invariant
            m == aliases@,
            g1 == c1@,
            g2 == c2@,
            rest@ == orig.skip((orig.len() - rest@.len()) as int),
            rest@.len() <= orig.len(),
            kept@ == orig.take((orig.len() - rest@.len()) as int).filter(pred),
            pred == (|s: ModelScore| compare_keeps(m, s, g1, g2)),
        decreases rest@.len(),
    {
        let ghost done = orig.len() - rest@.len();
        let s = rest.remove(0);
        proof {
            assert(orig.skip(done as int)[0] == orig[done as int]);
            assert(orig.skip(done as int).remove(0) =~= orig.skip(done as int + 1));
        }
        let resolved = aliases.resolve(s.source_model_name.as_str());
        let keep = str_eq(resolved.as_str(), c1.as_str()) || str_eq(
            resolved.as_str(),
            c2.as_str(),
        );
        proof {
            assert(keep == compare_keeps(m, orig[done as int], g1, g2));
            lemma_filter_snoc(orig, pred, done as int);
        }
        if keep {
            kept.push(s);
        }
    }
    proof {
        assert(orig.take(orig.len() as int) =~= orig);
    }
    kept
}

/// Answer the rank query: every source's results, each score list cut to
/// its first `n` entries when `top` is `n` (the lists come pre-sorted from
/// the sources), no filtering by identity.
pub fn rank(results: Vec<SourceResult>, top: Option<usize>, now: i64) -> (r: PondusOutput)
    ensures
        r.timestamp == now,
        r.query.query_type@ == "rank"@,
        r.query.model is None,
        r.query.models is None,
        r.query.top == top,
        r.sources@.len() == results@.len(),
        forall|i: int|
            0 <= i < results@.len() ==> match top {
                None => #[trigger] r.sources@[i] == results@[i],
                Some(n) => r.sources@[i].source == results@[i].source && r.sources@[i].fetched_at
                    == results@[i].fetched_at && r.sources@[i].status == results@[i].status
                    && r.sources@[i].scores@ == (if n <= results@[i].scores@.len() {
                    results@[i].scores@.subrange(0, n as int)
                } else {
                    results@[i].scores@
                }),
            },
{
    let ghost orig = results@;
    let mut rest = results;
    let mut out: Vec<SourceResult> = Vec::new();
    while rest.len() > 0
        invariant
            out@.len() + rest@.len() == orig.len(),
            rest@ == orig.skip(out@.len() as int),
            forall|i: int|
                0 <= i < out@.len() ==> match top {
                    None => #[trigger] out@[i] == orig[i],
                    Some(n) => out@[i].source == orig[i].source && out@[i].fetched_at
                        == orig[i].fetched_at && out@[i].status == orig[i].status
                        && out@[i].scores@ == (if n <= orig[i].scores@.len() {
                        orig[i].scores@.subrange(0, n as int)
                    } else {
                        orig[i].scores@
                    }),
                },
        decreases rest@.len(),
    {
        let ghost done = out@.len() as int;
        let mut sr = rest.remove(0);
        proof {
            assert(orig.skip(done)[0] == orig[done]);
            assert(orig.skip(done).remove(0) =~= orig.skip(done + 1));
        }
        match top {
            None => {},
            Some(n) => {
                sr.scores.truncate(n);
            },
        }
        out.push(sr);
    }
    proof {
        assert(orig.skip(out@.len() as int).len() == 0);
    }
    PondusOutput {
        timestamp: now,
        query: QueryInfo {
            query_type: String::from_str("rank"),
            model: None,
            models: None,
            top,
        },
        sources: out,
    }
}

/// Answer the check query: resolve the asked-for model to its canonical
/// name, then keep, per source, exactly the scores that name (see
/// `check_keeps`). The canonical name travels in the output's query part.
pub fn check(aliases: &AliasMap, results: Vec<SourceResult>, model: &str, now: i64) -> (r:
    PondusOutput)
    ensures
        r.timestamp == now,
        r.query.query_type@ == "check"@,
        r.query.model matches Some(c) && c@ == resolve_spec(aliases@, model@),
        r.query.models is None,
        r.query.top is None,
        r.sources@.len() == results@.len(),
        forall|i: int|
            0 <= i < results@.len() ==> (#[trigger] r.sources@[i]).source == results@[i].source
                && r.sources@[i].fetched_at == results@[i].fetched_at && r.sources@[i].status
                == results@[i].status && r.sources@[i].scores@ == check_filter(
                aliases@,
                results@[i].scores@,
                resolve_spec(aliases@, model@),
            ),
{
    let ghost m = aliases@;
    let canonical = aliases.resolve(model);
    proof {
        use_type_invariant(aliases);
        crate::alias::lemma_resolve_is_lower(m, model@);
    }
    let ghost c = canonical@;
    let ghost orig = results@;
    let mut rest = results;
    let mut out: Vec<SourceResult> = Vec::new();
    while rest.len() > 0
        invariant
            m == aliases@,
            c == canonical@,
            lower(c) == c,
            out@.len() + rest@.len() == orig.len(),
            rest@ == orig.skip(out@.len() as int),
            forall|i: int|
                0 <= i < out@.len() ==> (#[trigger] out@[i]).source == orig[i].source
                    && out@[i].fetched_at == orig[i].fetched_at && out@[i].status == orig[i].status
                    && out@[i].scores@ == check_filter(m, orig[i].scores@, c),
        decreases rest@.len(),
    {
        let ghost done = out@.len() as int;
        let sr = rest.remove(0);
        proof {
            assert(orig.skip(done)[0] == orig[done]);
            assert(orig.skip(done).remove(0) =~= orig.skip(done + 1));
        }
        let filtered = filter_scores_check(aliases, sr.scores, &canonical);
        out.push(
            SourceResult {
                source: sr.source,
                fetched_at: sr.fetched_at,
                status: sr.status,
                scores: filtered,
            },
        );
    }
    proof {
        assert(orig.skip(out@.len() as int).len() == 0);
    }
    PondusOutput {
        timestamp: now,
        query: QueryInfo {
            query_type: String::from_str("check"),
            model: Some(canonical),
            models: None,
            top: None,
        },
        sources: out,
    }
}

/// Answer the compare query: resolve both models to canonical names, then
/// keep, per source, exactly the scores whose raw source spelling resolves
/// to one of the two. Both canonical names travel in the output's query
/// part, in order.
pub fn compare(
    aliases: &AliasMap,
    results: Vec<SourceResult>,
    model1: &str,
    model2: &str,
    now: i64,
) -> (r: PondusOutput)
    ensures
        r.timestamp == now,
        r.query.query_type@ == "compare"@,
        r.query.model is None,
        r.query.models matches Some(ms) && ms@.len() == 2 && ms@[0]@ == resolve_spec(
            aliases@,
            model1@,
        ) && ms@[1]@ == resolve_spec(aliases@, model2@),
        r.query.top is None,
        r.sources@.len() == results@.len(),
        forall|i: int|
            0 <= i < results@.len() ==> (#[trigger] r.sources@[i]).source == results@[i].source
                && r.sources@[i].fetched_at == results@[i].fetched_at && r.sources@[i].status
                == results@[i].status && r.sources@[i].scores@ == compare_filter(
                aliases@,
                results@[i].scores@,
                resolve_spec(aliases@, model1@),
                resolve_spec(aliases@, model2@),
            ),
{
    let ghost m = aliases@;
    let c1 = aliases.resolve(model1);
    let c2 = aliases.resolve(model2);
    let ghost g1 = c1@;
    let ghost g2 = c2@;
    let ghost orig = results@;
    let mut rest = results;
    let mut out: Vec<SourceResult> = Vec::new();
    while rest.len() > 0
        invariant
            m == aliases@,
            g1 == c1@,
            g2 == c2@,
            out@.len() + rest@.len() == orig.len(),
            rest@ == orig.skip(out@.len() as int),
            forall|i: int|
                0 <= i < out@.len() ==> (#[trigger] out@[i]).source == orig[i].source
                    && out@[i].fetched_at == orig[i].fetched_at && out@[i].status == orig[i].status
                    && out@[i].scores@ == compare_filter(m, orig[i].scores@, g1, g2),
        decreases rest@.len(),
    {
        let ghost done = out@.len() as int;
        let sr = rest.remove(0);
        proof {
            assert(orig.skip(done)[0] == orig[done]);
            assert(orig.skip(done).remove(0) =~= orig.skip(done + 1));
        }
        let filtered = filter_scores_compare(aliases, sr.scores, &c1, &c2);
        out.push(
            SourceResult {
                source: sr.source,
                fetched_at: sr.fetched_at,
                status: sr.status,
                scores: filtered,
            },
        );
    }
    proof {
        assert(orig.skip(out@.len() as int).len() == 0);
    }
    let mut models: Vec<String> = Vec::new();
    models.push(c1);
    models.push(c2);
    PondusOutput {
        timestamp: now,
        query: QueryInfo {
            query_type: String::from_str("compare"),
            model: None,
            models: Some(models),
            top: None,
        },
        sources: out,
    }
}

/// Answer the sources query: every source's results, unfiltered — a
/// diagnostic view of what each source returned.
pub fn sources(results: Vec<SourceResult>, now: i64) -> (r: PondusOutput)
    ensures
        r.timestamp == now,
        r.query.query_type@ == "sources"@,
        r.query.model is None,
        r.query.models is None,
        r.query.top is None,
        r.sources == results,
{
    PondusOutput {
        timestamp: now,
        query: QueryInfo {
            query_type: String::from_str("sources"),
            model: None,
            models: None,
            top: None,
        },
        sources: results,
    }
}

/// The compare query never keeps a score whose resolved identity is neither
/// of the two asked-for models' canonical names.
pub proof fn lemma_compare_only_matches(
    m: AliasPairs,
    scores: Seq<ModelScore>,
    c1: Seq<char>,
    c2: Seq<char>,
    i: int,
)
    requires
        0 <= i < compare_filter(m, scores, c1, c2).len(),
    ensures
        resolve_spec(m, compare_filter(m, scores, c1, c2)[i].source_model_name@) == c1
            || resolve_spec(m, compare_filter(m, scores, c1, c2)[i].source_model_name@) == c2,
{
    let pred = |s: ModelScore| compare_keeps(m, s, c1, c2);
    scores.lemma_filter_pred(pred, i);
}

/// The check query keeps exactly the scores that name the resolved model:
/// every kept score satisfies `check_keeps`, and every score of the input
/// that satisfies it is kept.
pub proof fn lemma_check_exact(m: AliasPairs, scores: Seq<ModelScore>, c: Seq<char>)
    ensures
        forall|i: int|
            0 <= i < check_filter(m, scores, c).len() ==> check_keeps(
                m,
                #[trigger] check_filter(m, scores, c)[i],
                c,
            ),
        forall|i: int|
            0 <= i < scores.len() && check_keeps(m, #[trigger] scores[i], c) ==> check_filter(
                m,
                scores,
                c,
            ).contains(scores[i]),
{
    let pred = |s: ModelScore| check_keeps(m, s, c);
    assert forall|i: int| 0 <= i < check_filter(m, scores, c).len() implies check_keeps(
        m,
        #[trigger] check_filter(m, scores, c)[i],
        c,
    ) by {
        scores.lemma_filter_pred(pred, i);
    }
    assert forall|i: int|
        0 <= i < scores.len() && check_keeps(m, #[trigger] scores[i], c) implies check_filter(
        m,
        scores,
        c,
    ).contains(scores[i]) by {
        scores.lemma_filter_contains(pred, i);
    }
}

} // verus!
