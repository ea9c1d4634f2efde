//! The decisions of a hybrid search: which stages run (expansion, rerank),
//! where the query variants come from, and which texts are searched, in
//! the order their result lists are fused (the first one weighs double).

use vstd::prelude::*;

use crate::text::unicode::views;

verus! {

/// What the caller asked for and what the lexical probe found.
#[derive(Debug, Clone, Copy, PartialEq, Eq, Structural)]
pub struct PipelineSignals {
    /// Fast mode: no expansion, no rerank.
    pub fast: bool,
    /// Skip expansion but keep rerank.
    pub skip_expansion: bool,
    /// An intent accompanies the query.
    pub has_intent: bool,
    /// The BM25 probe's top hit is a strong signal.
    pub strong_signal: bool,
    /// The title probe found an exact alias match.
    pub has_exact_alias: bool,
}

/// Which stages of the pipeline are skipped.
#[derive(Debug, Clone, Copy, PartialEq, Eq, Structural)]
pub struct PipelinePlan {
    /// The probe is decisive: a strong signal with no intent.
    pub probe_decisive: bool,
    /// Expansion and rerank are both skipped.
    pub skip_expensive: bool,
    /// LLM expansion is skipped.
    pub skip_llm: bool,
}

/// The plan: the probe is decisive on a strong signal without intent;
/// fast mode or a decisive probe skips the expensive stages; those, skip-
/// expansion mode or an exact alias hit skip expansion.
pub open spec fn plan_spec(s: PipelineSignals) -> PipelinePlan {
    let probe_decisive = !s.has_intent && s.strong_signal;
    let skip_expensive = s.fast || probe_decisive;
    PipelinePlan { probe_decisive, skip_expensive, skip_llm: skip_expensive || s.skip_expansion || s.has_exact_alias }
}

/// The short-circuit rules: fast mode or a decisive probe (a strong BM25
/// signal, and no intent) skips expansion and rerank; skip-expansion mode
/// or an exact alias hit skips expansion only.
pub fn plan_pipeline(s: PipelineSignals) -> (p: PipelinePlan)
    ensures
        p == plan_spec(s),
{
    let probe_decisive = !s.has_intent && s.strong_signal;
    let skip_expensive = s.fast || probe_decisive;
    let skip_llm = skip_expensive || s.skip_expansion || s.has_exact_alias;
    PipelinePlan { probe_decisive, skip_expensive, skip_llm }
}

/// Where the query variants come from.
#[derive(Debug, Clone, Copy, PartialEq, Eq, Structural)]
pub enum VariantSource {
    /// The caller's variants, deduplicated.
    Supplied,
    /// None: the query alone is searched.
    NoVariants,
    /// The LLM expansion client.
    Expansion,
}

/// Supplied variants win; otherwise expansion runs unless it is skipped,
/// the deadline has passed, or there is no expansion client.
pub fn variant_source(has_supplied: bool, skip_llm: bool, deadline_passed: bool, has_client: bool) -> (v: VariantSource)
    ensures
        v == (if has_supplied {
            VariantSource::Supplied
        } else if skip_llm || deadline_passed || !has_client {
            VariantSource::NoVariants
        } else {
            VariantSource::Expansion
        }),
{
    if has_supplied {
        VariantSource::Supplied
    } else if skip_llm || deadline_passed || !has_client {
        VariantSource::NoVariants
    } else {
        VariantSource::Expansion
    }
}

/// Fast mode, or a decisive probe, never expands nor reranks; an exact
/// alias hit never expands, yet keeps rerank unless fast mode or a decisive
/// probe skips it; outside fast mode an intent keeps rerank, however strong
/// the probe.
pub proof fn lemma_short_circuits(s: PipelineSignals)
    ensures
        (s.fast || (!s.has_intent && s.strong_signal)) ==> ({
            let p = plan_spec(s);
            p.skip_expensive && p.skip_llm
        }),
        s.has_exact_alias ==> plan_spec(s).skip_llm,
        (s.has_exact_alias && !s.fast && !(s.strong_signal && !s.has_intent)) ==> !plan_spec(s).skip_expensive,
        (s.has_intent && !s.fast) ==> !plan_spec(s).skip_expensive,
{
}

/// The texts searched: the supplied variants alone when the caller gave
/// some; otherwise the query followed by its expansions; the query alone
/// when there is nothing else.
pub open spec fn query_list(query: Seq<char>, has_supplied: bool, variants: Seq<Seq<char>>) -> Seq<Seq<char>> {
    if variants.len() == 0 {
        seq![query]
    } else if has_supplied {
        variants
    } else {
        seq![query] + variants
    }
}

/// Builds the list of texts to search (see [`query_list`]).
pub fn build_query_list(query: &str, has_supplied: bool, variants: &[String]) -> (r: Vec<String>)
    ensures
        views(r@) == query_list(query@, has_supplied, views(variants@)),
{
    let mut out: Vec<String> = Vec::new();
    let ghost vs = views(variants@);
    if variants.len() == 0 || !has_supplied {
        out.push(query.to_string());
    }
    if variants.len() == 0 {
        proof {
            assert(views(out@) =~= seq![query@]);
        }
        return out;
    }
    let ghost head = views(out@);
    let mut i: usize = 0;
    while i < variants.len()
        invariant
            i <= variants@.len(),
            vs == views(variants@),
            views(out@) == head + vs.take(i as int),
        decreases variants.len() - i,
    {
        let ghost before = out@;
        let v = variants[i].clone();
        out.push(v);
        proof {
            crate::text::unicode::lemma_views_push(before, v);
            assert(vs.take(i + 1) =~= vs.take(i as int).push(variants@[i as int]@));
            assert(views(out@) =~= head + vs.take(i + 1));
        }
        i += 1;
    }
    proof {
        assert(vs.take(vs.len() as int) =~= vs);
        if has_supplied {
            assert(head =~= Seq::<Seq<char>>::empty());
            assert(views(out@) =~= vs);
        } else {
            assert(head =~= seq![query@]);
        }
    }
    out
}

} // verus!
