use rsnbs::analysis::TpPlane;
use rsnbs::note::{Instrument, Key, Tone};
use rsnbs::reuse::{
    autocorrelation, expand, family_deep_first, feasible_kernel, manual_flow, nested_penalty,
    reuse_flow, reuse_flow_beam, subtract_exact, Layer,
};
use rsnbs::types::Tick;

fn tone() -> Tone {
    Tone::new(Instrument::Harp, Key::new(33))
}

fn chain(n: usize, d: Tick, start: Tick) -> TpPlane<Tone> {
    TpPlane::from_iter((0..n).map(|i| (start + (i as Tick) * d, tone())).collect())
}

/// Per-chain closed form: `f(T) = 3*floor(T/4) + [0,0,1,2][T mod 4]`.
fn f(ticks: usize) -> usize {
    3 * (ticks / 4) + [0, 0, 1, 2][ticks % 4]
}

/// Composition check: `expand(plan) + residual == source`.
fn verify_composition(source: &TpPlane<Tone>, plan: &[Layer<Tone>], residual: &TpPlane<Tone>) {
    let mut total = residual.duplicate_plane();
    for layer in plan {
        let expanded = expand(&layer.kernel, &layer.scatter);
        for i in 0..expanded.len() {
            let (t, e, c) = expanded.entry_at(i);
            total.add(t, *e, c);
        }
    }
    assert!(total == *source);
}

#[test]
fn family_deep_first_matches_chain_closed_form() {
    for ticks in 2..16 {
        let (total, layers, _) = family_deep_first(&chain(ticks, 128, 1000), 128, 4, 3);
        assert_eq!(total, f(ticks), "T={ticks}");
        let lens: Vec<usize> = layers.iter().map(|layer| layer.scatter.len()).collect();
        let mut sorted = lens.clone();
        sorted.sort_by(|a, b| b.cmp(a));
        assert_eq!(lens, sorted, "T={ticks}");
    }
}

#[test]
fn deep_first_beats_single_only_on_long_chain() {
    let (total, _, _) = family_deep_first(&chain(12, 128, 1000), 128, 4, 3);
    assert_eq!(total, 9);
    assert!(total > 6); // single-offset alone gives ceil(11/2)=6
}

#[test]
fn non_ap_motif_deep_wins() {
    let t = tone();
    let m: TpPlane<Tone> = TpPlane::from_iter(vec![
        (0u32, t),
        (100u32, t),
        (1000u32, t),
        (2000u32, t),
        (2100u32, t),
        (3000u32, t),
    ]);
    let (plan, total, residual) = reuse_flow(&m, 4, 4);
    assert!(total > 3); // best single offset gives 3
    assert!(residual.is_empty());
    verify_composition(&m, &plan, &residual);
}

#[test]
fn flow_consumes_no_more_than_source() {
    let m = chain(10, 128, 1000);
    let (plan, _, residual) = reuse_flow(&m, 4, 4);
    verify_composition(&m, &plan, &residual);
}

#[test]
fn isolated_chains_stay_single_offset() {
    let t = tone();
    let m: TpPlane<Tone> =
        TpPlane::from_iter(vec![(0u32, t), (128u32, t), (4000u32, t), (4128u32, t)]);
    let (_, total, _) = reuse_flow(&m, 4, 4);
    assert_eq!(total, 2); // two isolated pairs, no deep layer possible
}

#[test]
fn arbitration_matches_exhaustive_optimum() {
    let cases: &[(&[Tick], usize)] = &[
        (&[7, 9, 19, 34, 35, 36, 52], 4),
        (&[4, 7, 10, 26, 32, 38], 4),
        (&[3, 4, 19, 42, 44, 46, 59], 4),
        (&[7, 29, 30, 31, 54, 57, 59], 4),
        (&[7, 11, 12, 24, 30, 45, 48, 50, 58], 5),
        (&[22, 26, 29, 32, 33, 37, 42, 52, 57], 6),
        (&[8, 9, 16, 26, 27, 29, 35, 61, 71], 5),
        (&[8, 9, 17, 39, 40, 57, 75], 4),
        (&[10, 56, 58, 59, 66, 69, 74], 4),
    ];
    for (ticks, expected) in cases {
        let t = tone();
        let m: TpPlane<Tone> = TpPlane::from_iter(ticks.iter().map(|&x| (x, t)).collect());
        let (_, total, _) = reuse_flow(&m, 4, 1000);
        assert_eq!(total, *expected, "ticks={ticks:?}");
    }
}

// Further scenarios
//
// ++++++++++++============++++++++++++============++++++++++++============

#[test]
fn expand_translates_and_sums_multiplicities() {
    let t = tone();
    let kernel = TpPlane::from_iter(vec![(10u32, t), (10u32, t), (20u32, t)]);
    let out = expand(&kernel, &[0, 10]);
    assert_eq!(out.get(10, &t), 2);
    assert_eq!(out.get(20, &t), 3);
    assert_eq!(out.get(30, &t), 1);
    assert_eq!(out.values_sum(), 6);
}

#[test]
fn subtract_exact_removes_exhausted_points() {
    let t = tone();
    let source = TpPlane::from_iter(vec![(1u32, t), (1u32, t), (2u32, t)]);
    let consumed = TpPlane::from_iter(vec![(1u32, t), (2u32, t)]);
    let rest = subtract_exact(&source, &consumed);
    assert_eq!(rest.get(1, &t), 1);
    assert_eq!(rest.get(2, &t), 0);
    assert_eq!(rest.len(), 1);
}

#[test]
fn autocorrelation_counts_pair_matches_per_event() {
    let t = tone();
    let u = Tone::new(Instrument::Bell, Key::new(40));
    let m = TpPlane::from_iter(vec![(0u32, t), (5u32, t), (5u32, t), (7u32, u), (12u32, u)]);
    let support = autocorrelation(&m);
    assert_eq!(support.get(&5), Some(&2)); // min(1, 2) for t, min(1, 1) for u
    assert_eq!(support.len(), 1);
}

#[test]
fn feasible_kernel_stays_within_source() {
    let m = chain(5, 3, 0);
    let kernel = feasible_kernel(&m, &[0, 3]);
    assert_eq!(kernel.values_sum(), 2);
    let out = expand(&kernel, &[0, 3]);
    for i in 0..out.len() {
        let (tick, e, c) = out.entry_at(i);
        assert!(c <= m.get(tick, e));
    }
}

#[test]
fn nested_penalty_counts_midpoints_and_thirds() {
    let t = tone();
    let kernel = TpPlane::from_iter(vec![(0u32, t)]);
    let with_mid = TpPlane::from_iter(vec![(0u32, t), (6u32, t), (12u32, t)]);
    assert_eq!(nested_penalty(&kernel, 12, &with_mid), 1);
    let with_thirds = TpPlane::from_iter(vec![(0u32, t), (3u32, t), (6u32, t), (9u32, t)]);
    assert_eq!(nested_penalty(&kernel, 9, &with_thirds), 2);
    assert_eq!(nested_penalty(&kernel, 7, &with_mid), 0);
}

#[test]
fn layer_reuse_is_kernel_sum_times_extra_offsets() {
    let t = tone();
    let layer = Layer {
        scatter: vec![0, 4, 8],
        kernel: TpPlane::from_iter(vec![(1u32, t), (1u32, t), (2u32, t)]),
    };
    assert_eq!(layer.reuse(), 6);
}

#[test]
fn reuse_flow_with_pairs_only_commits_nothing() {
    let m = chain(6, 10, 0);
    let (plan, total, residual) = reuse_flow(&m, 2, 4);
    assert!(plan.is_empty());
    assert_eq!(total, 0);
    assert!(residual == m);
}

#[test]
fn reuse_flow_respects_the_layer_budget() {
    let m = chain(12, 7, 0);
    let (plan, _, residual) = reuse_flow(&m, 4, 1);
    assert_eq!(plan.len(), 1);
    verify_composition(&m, &plan, &residual);
}

#[test]
fn manual_flow_applies_rules_in_order_and_skips_empty_ones() {
    let m = chain(4, 5, 0);
    let rules = vec![vec![0, 100], vec![0, 5], vec![0]];
    let (plan, total, residual) = manual_flow(&m, &rules);
    assert_eq!(plan.len(), 1);
    assert_eq!(plan[0].scatter, vec![0, 5]);
    assert_eq!(total, 2);
    assert!(residual.is_empty());
    verify_composition(&m, &plan, &residual);
}

#[test]
fn beam_flow_composes_back_to_the_source() {
    let m = chain(8, 16, 100);
    let (plan, total, residual) = reuse_flow_beam(&m, 4, 2, 3);
    assert_eq!(plan.len(), 2);
    let sum: usize = plan.iter().map(|layer| layer.reuse()).sum();
    assert_eq!(total, sum);
    verify_composition(&m, &plan, &residual);
}

#[test]
fn beam_flow_without_beam_commits_nothing() {
    let m = chain(8, 16, 100);
    let (plan, total, _) = reuse_flow_beam(&m, 4, 2, 0);
    assert!(plan.is_empty());
    assert_eq!(total, 0);
}

#[test]
fn beam_flow_one_step_takes_the_deepest_layer() {
    let m = chain(4, 128, 1000);
    let (plan, total, residual) = reuse_flow_beam(&m, 4, 1, 1);
    assert_eq!(plan.len(), 1);
    assert_eq!(plan[0].scatter, vec![0, 128, 256, 384]);
    assert!(plan[0].kernel == TpPlane::from_iter(vec![(1000, tone())]));
    assert_eq!(total, 3);
    assert!(residual.is_empty());
}

#[test]
fn beam_flow_commits_the_best_explored_path_short_of_the_budget() {
    let m = chain(2, 7, 50);
    let (plan, total, residual) = reuse_flow_beam(&m, 4, 2, 1);
    assert_eq!(plan.len(), 1);
    assert_eq!(plan[0].scatter, vec![0, 7]);
    assert_eq!(total, 1);
    assert!(residual.is_empty());
    verify_composition(&m, &plan, &residual);
}

#[test]
fn plane_points_repeat_by_multiplicity() {
    let t = tone();
    let m = TpPlane::from_iter(vec![(5, t), (5, t), (9, t)]);
    let mut shifted = m.translated(10);
    shifted.sort_by_key(|p| p.0);
    assert_eq!(shifted, vec![(15, t), (15, t), (19, t)]);
    let mut points = m.into_points();
    points.sort_by_key(|p| p.0);
    assert_eq!(points, vec![(5, t), (5, t), (9, t)]);
}

#[test]
fn beam_flow_commits_the_best_path_at_full_depth() {
    // Level one keeps the spacing-16 block of four, the spacing-32 block of
    // four (gain 6 each, empty work) and the spacing-16 block of three (gain
    // 4); only the last extends to depth two, by a pair of gain 1.
    let m = chain(8, 16, 100);
    let (plan, total, residual) = reuse_flow_beam(&m, 4, 2, 3);
    assert_eq!(plan.len(), 2);
    assert_eq!(plan[0].scatter, vec![0, 16, 32]);
    assert!(plan[0].kernel == TpPlane::from_iter(vec![(100, tone()), (180, tone())]));
    assert_eq!(plan[1].scatter, vec![0, 16]);
    assert!(plan[1].kernel == TpPlane::from_iter(vec![(148, tone())]));
    assert_eq!(total, 5);
    assert!(residual.is_empty());
}
