use aionfm::error::AionError;
use aionfm::missing::Fill;
use aionfm::patch::{MissingPolicy, PatchConfig, PatchGenerator, PatchWindow};

#[test]
fn generates_overlapping_patches() {
    let generator = PatchGenerator::new(PatchConfig {
        patch_len: 4,
        stride: 2,
        drop_incomplete: true,
        missing_policy: MissingPolicy::Preserve,
    })
    .unwrap();
    let patches = generator.windows(6);
    assert_eq!(patches.len(), 2);
    assert_eq!(patches[1].start, 2);
}

#[test]
fn incomplete_patches_are_padded_when_kept() {
    let generator = PatchGenerator::new(PatchConfig {
        patch_len: 4,
        stride: 3,
        drop_incomplete: false,
        missing_policy: MissingPolicy::ZeroFill,
    })
    .unwrap();
    assert_eq!(
        generator.windows(7),
        vec![
            PatchWindow { start: 0, end: 4, padding: 0 },
            PatchWindow { start: 3, end: 7, padding: 0 },
            PatchWindow { start: 6, end: 7, padding: 3 },
        ]
    );
    assert!(generator.windows(0).is_empty());
}

#[test]
fn patch_config_validation() {
    let zero_len = PatchConfig { patch_len: 0, ..PatchConfig::default() };
    match PatchGenerator::new(zero_len) {
        Err(AionError::Validation(m)) => assert_eq!(m, "patch_len must be greater than zero"),
        _ => panic!("expected a validation error"),
    }
    let zero_stride = PatchConfig { stride: 0, ..PatchConfig::default() };
    match PatchGenerator::new(zero_stride) {
        Err(AionError::Validation(m)) => assert_eq!(m, "stride must be greater than zero"),
        _ => panic!("expected a validation error"),
    }
    let defaults = PatchConfig::default();
    assert_eq!((defaults.patch_len, defaults.stride, defaults.drop_incomplete), (32, 16, true));
    assert_eq!(MissingPolicy::default(), MissingPolicy::Preserve);
    assert!(PatchGenerator::new(defaults).unwrap().windows(31).is_empty());
}

#[test]
fn patch_plans_fill_each_window_on_its_own_slots() {
    let generator = PatchGenerator::new(PatchConfig {
        patch_len: 3,
        stride: 2,
        drop_incomplete: false,
        missing_policy: MissingPolicy::LinearInterpolate,
    })
    .unwrap();
    let observed = vec![true, false, true, false, false];
    let plans = generator.plans(&observed);
    assert_eq!(plans.len(), 3);
    assert_eq!(plans[0].0, PatchWindow { start: 0, end: 3, padding: 0 });
    assert_eq!(plans[0].1, vec![Fill::Keep, Fill::Blend { left: 0, right: 2, step: 1, span: 2 }, Fill::Keep]);
    assert_eq!(plans[1].0, PatchWindow { start: 2, end: 5, padding: 0 });
    assert_eq!(plans[1].1, vec![Fill::Keep, Fill::Copy(0), Fill::Copy(0)]);
    assert_eq!(plans[2].0, PatchWindow { start: 4, end: 5, padding: 2 });
    assert_eq!(plans[2].1, vec![Fill::Keep]);
}

#[test]
fn stride_larger_than_the_series_cuts_one_window() {
    let generator = PatchGenerator::new(PatchConfig {
        patch_len: 3,
        stride: usize::MAX,
        drop_incomplete: true,
        missing_policy: MissingPolicy::Preserve,
    })
    .unwrap();
    assert_eq!(generator.windows(5), vec![PatchWindow { start: 0, end: 3, padding: 0 }]);
}

#[test]
fn patch_longer_than_the_series_is_dropped_or_padded() {
    let dropping = PatchGenerator::new(PatchConfig {
        patch_len: usize::MAX,
        stride: 1,
        drop_incomplete: true,
        missing_policy: MissingPolicy::Preserve,
    })
    .unwrap();
    assert!(dropping.windows(5).is_empty());
    let padding = PatchGenerator::new(PatchConfig {
        patch_len: usize::MAX,
        stride: usize::MAX,
        drop_incomplete: false,
        missing_policy: MissingPolicy::Preserve,
    })
    .unwrap();
    assert_eq!(
        padding.windows(5),
        vec![PatchWindow { start: 0, end: 5, padding: usize::MAX - 5 }]
    );
}

#[test]
fn window_count_follows_length_patch_and_stride() {
    let config = PatchConfig { patch_len: 4, stride: 3, drop_incomplete: true, missing_policy: MissingPolicy::Preserve };
    let dropping = PatchGenerator::new(config).unwrap();
    assert_eq!(dropping.windows(10).len(), 3);
    assert_eq!(dropping.windows(4).len(), 1);
    assert_eq!(dropping.windows(3).len(), 0);
    let keeping = PatchGenerator::new(PatchConfig { drop_incomplete: false, ..config }).unwrap();
    assert_eq!(keeping.windows(10).len(), 4);
    assert_eq!(keeping.windows(9).len(), 3);
    assert_eq!(keeping.windows(1).len(), 1);
    assert_eq!(keeping.plans(&vec![true; 7]).len(), 3);
}
