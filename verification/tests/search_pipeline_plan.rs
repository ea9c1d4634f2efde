use talon_core::search::hybrid_pipeline::{plan_pipeline, variant_source, PipelinePlan, PipelineSignals, VariantSource};

fn signals() -> PipelineSignals {
    PipelineSignals {
        fast: false,
        skip_expansion: false,
        has_intent: false,
        strong_signal: false,
        has_exact_alias: false,
    }
}

#[test]
fn full_pipeline_runs_every_stage() {
    assert_eq!(
        plan_pipeline(signals()),
        PipelinePlan { probe_decisive: false, skip_expensive: false, skip_llm: false }
    );
}

#[test]
fn fast_mode_skips_expansion_and_rerank() {
    let p = plan_pipeline(PipelineSignals { fast: true, ..signals() });
    assert!(p.skip_expensive && p.skip_llm && !p.probe_decisive);
}

#[test]
fn strong_probe_skips_expansion_and_rerank() {
    let p = plan_pipeline(PipelineSignals { strong_signal: true, ..signals() });
    assert_eq!(p, PipelinePlan { probe_decisive: true, skip_expensive: true, skip_llm: true });
}

#[test]
fn intent_disables_strong_signal_short_circuit() {
    let p = plan_pipeline(PipelineSignals { strong_signal: true, has_intent: true, ..signals() });
    assert_eq!(p, PipelinePlan { probe_decisive: false, skip_expensive: false, skip_llm: false });
}

#[test]
fn exact_alias_and_skip_expansion_skip_only_expansion() {
    let p = plan_pipeline(PipelineSignals { has_exact_alias: true, ..signals() });
    assert_eq!(p, PipelinePlan { probe_decisive: false, skip_expensive: false, skip_llm: true });
    let q = plan_pipeline(PipelineSignals { skip_expansion: true, ..signals() });
    assert_eq!(q, PipelinePlan { probe_decisive: false, skip_expensive: false, skip_llm: true });
}

#[test]
fn supplied_variants_bypass_expansion() {
    assert_eq!(variant_source(true, false, false, true), VariantSource::Supplied);
    assert_eq!(variant_source(true, true, true, false), VariantSource::Supplied);
    assert_eq!(variant_source(false, false, false, true), VariantSource::Expansion);
    assert_eq!(variant_source(false, true, false, true), VariantSource::NoVariants);
    assert_eq!(variant_source(false, false, true, true), VariantSource::NoVariants);
    assert_eq!(variant_source(false, false, false, false), VariantSource::NoVariants);
}
