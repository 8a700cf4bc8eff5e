//! Translation equivalence class tests.

use rsnbs::analysis::TpPlane;
use rsnbs::note::{Instrument, Key, Tone};
use rsnbs::reuse::Layer;
use rsnbs::tec::{plan_to_tecs, BoundedTec, TransEqClass};

fn tone(key: u8) -> Tone {
    Tone::new(Instrument::Harp, Key::new(key))
}

fn plane(points: &[(u32, Tone)]) -> TpPlane<Tone> {
    TpPlane::from_iter(points.to_vec())
}

#[test]
fn classes_expand_and_measure_their_offsets() {
    let x = tone(40);
    let tec = TransEqClass::new(vec![8, 16], plane(&[(0, x), (0, x)]));
    assert_eq!(tec.reuse(), 4);
    assert_eq!(tec.min_gap(), Some(8));
    let expanded = tec.expand();
    assert_eq!((expanded.get(0, &x), expanded.get(8, &x), expanded.get(16, &x), expanded.get(4, &x)), (2, 2, 2, 0));
    assert_eq!(TransEqClass::new(vec![], plane(&[(3, x)])).min_gap(), None);
    assert_eq!(TransEqClass::new(vec![5, 7], plane(&[(3, x)])).min_gap(), Some(2));
}

#[test]
fn bitand_joins_offsets_and_meets_kernels() {
    let x = tone(40);
    let a = TransEqClass::new(vec![8], plane(&[(0, x), (0, x), (4, x)]));
    let b = TransEqClass::new(vec![4, 8], plane(&[(0, x), (5, x), (5, x), (5, x)]));
    let both = a.bitand(b);
    assert_eq!(both.scatter, vec![4, 8]);
    assert_eq!((both.kernel.get(0, &x), both.kernel.get(4, &x), both.kernel.get(5, &x)), (1, 0, 0));
}

#[test]
fn bounded_kernel_drops_points_covered_one_offset_earlier() {
    let x = tone(40);
    let y = tone(41);
    let tec = TransEqClass::new(
        vec![8],
        plane(&[(0, x), (0, x), (8, x), (16, x), (16, x), (16, x), (8, y)]),
    );
    let bounded = BoundedTec::new(tec).into_inner();
    assert_eq!(bounded.scatter, vec![8]);
    let k = &bounded.kernel;
    assert_eq!((k.get(0, &x), k.get(8, &x), k.get(16, &x), k.get(8, &y)), (2, 0, 3, 1));
}

#[test]
fn plan_to_tecs_keeps_wide_layers_and_folds_the_rest() {
    let x = tone(40);
    let y = tone(41);
    let plan = vec![
        Layer { scatter: vec![0, 8], kernel: plane(&[(0, x)]) },
        Layer { scatter: vec![0, 2], kernel: plane(&[(1, y)]) },
    ];
    let (tecs, folded) = plan_to_tecs(plan, plane(&[(5, x)]));
    assert_eq!(folded, 1);
    assert_eq!(tecs.len(), 2);
    assert_eq!(tecs[0].scatter, vec![8]);
    assert_eq!(tecs[0].kernel.get(0, &x), 1);
    assert!(tecs[1].scatter.is_empty());
    let rest = &tecs[1].kernel;
    assert_eq!((rest.get(5, &x), rest.get(1, &y), rest.get(3, &y), rest.get(0, &x)), (1, 1, 1, 0));
}

#[test]
fn plan_to_tecs_without_residual_points_adds_no_class() {
    let x = tone(40);
    let plan = vec![Layer { scatter: vec![0, 9, 18], kernel: plane(&[(0, x)]) }];
    let (tecs, folded) = plan_to_tecs(plan, TpPlane::new());
    assert_eq!(folded, 0);
    assert_eq!(tecs.len(), 1);
    assert_eq!(tecs[0].scatter, vec![9, 18]);
}

#[test]
fn keys_are_named_by_pitch_octave_and_clicks() {
    assert_eq!(Key::new(45).name(), "F#3 (12 clicks)");
    assert_eq!(Key::new(33).name(), "F#2 (00 clicks)");
    assert_eq!(Key::new(60).name(), "A5 (invalid)");
}
