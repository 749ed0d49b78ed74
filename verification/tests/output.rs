use trajecta_met::query::convection::{ConvectionColumnOutput, ConvectionColumnOutputError};
use trajecta_met::query::interpolate::{map_grid_error, GridError, InterpolationError};
use trajecta_met::query::output::{ensure_length, BoundsColumn, OutputError, SampleStatus, StatusColumn, ValidityMask};

#[test]
fn validity_mask_packs_canonically_across_word_boundary() {
    let values = (0..70).map(|index| index % 3 == 0).collect::<Vec<_>>();
    let mask = ValidityMask::from_bools(&values);
    assert_eq!(mask.len(), 70);
    assert_eq!(mask.iter(), values);
    assert_eq!(mask.count_valid(), 24);
    assert_eq!(mask.words().len(), 2);
    assert_eq!(mask.words()[1] >> 6, 0);
}

#[test]
fn equal_flags_pack_to_equal_words() {
    let values = (0..130).map(|index| index % 5 == 1).collect::<Vec<_>>();
    let packed = ValidityMask::from_bools(&values);
    let mut built = ValidityMask::all_valid(130);
    for (index, value) in values.iter().enumerate() {
        built.set(index, *value).unwrap();
    }
    assert_eq!(packed.words(), built.words());
    assert_eq!(packed.words().len(), 3);
    assert_eq!(packed.words()[0] & 0b111_1111, 0b100_0010);
}

#[test]
fn uniform_masks_and_single_slots() {
    let valid = ValidityMask::all_valid(65);
    assert_eq!(valid.count_valid(), 65);
    assert_eq!(valid.words(), &[u64::MAX, 1]);
    let invalid = ValidityMask::all_invalid(3);
    assert_eq!(invalid.count_valid(), 0);
    assert_eq!(invalid.get(2), Some(false));
    assert_eq!(invalid.get(3), None);
    assert!(ValidityMask::all_invalid(0).is_empty());
    assert!(ValidityMask::all_valid(0).words().is_empty());
}

#[test]
fn setting_outside_the_mask_is_refused() {
    let mut mask = ValidityMask::all_invalid(4);
    assert_eq!(mask.set(4, true), Err(OutputError::IndexOutOfBounds { index: 4, len: 4 }));
    mask.set(3, true).unwrap();
    assert_eq!(mask.get(3), Some(true));
    assert_eq!(mask.words(), &[8]);
}

#[test]
fn status_and_bounds_columns_index_safely() {
    let status = StatusColumn::new(vec![SampleStatus::Valid, SampleStatus::BelowGround]);
    assert_eq!(status.len(), 2);
    assert_eq!(status.get(1), Some(SampleStatus::BelowGround));
    assert_eq!(status.get(2), None);
    assert_eq!(status.values(), &[SampleStatus::Valid, SampleStatus::BelowGround]);
    let bounds = BoundsColumn::new(vec![Some((1u32, 2u32)), None]);
    assert_eq!(bounds.get(0), Some(&(1, 2)));
    assert_eq!(bounds.get(1), None);
    assert_eq!(bounds.get(5), None);
    assert_eq!(bounds.len(), 2);
    assert!(!bounds.is_empty());
}

#[test]
fn length_checks_name_the_component() {
    assert_eq!(ensure_length("status".into(), 3, 3), Ok(()));
    assert_eq!(
        ensure_length("bounds".into(), 3, 2),
        Err(OutputError::OutputLengthMismatch { component: "bounds".into(), expected: 3, actual: 2 })
    );
}

#[test]
fn convection_rows_must_match_status() {
    let status = StatusColumn::new(vec![SampleStatus::Valid, SampleStatus::OutOfDomain]);
    let output = ConvectionColumnOutput::new(vec![Some(7u8), None], status.clone()).unwrap();
    assert_eq!(output.column(0), Some(&7));
    assert_eq!(output.column(1), None);
    assert_eq!(output.status().len(), 2);
    assert!(matches!(
        ConvectionColumnOutput::new(vec![Some(1u8)], status.clone()),
        Err(ConvectionColumnOutputError::InvalidRows)
    ));
    assert!(matches!(
        ConvectionColumnOutput::new(vec![Some(1u8), Some(2u8)], status),
        Err(ConvectionColumnOutputError::InvalidRows)
    ));
}

#[test]
fn grid_failures_map_to_interpolation_failures() {
    assert_eq!(map_grid_error(GridError::PolarSingularity), InterpolationError::PolarSingularity);
    assert_eq!(map_grid_error(GridError::InvalidWeights), InterpolationError::NumericalFailure);
    assert_eq!(map_grid_error(GridError::InvalidCoordinate), InterpolationError::NumericalFailure);
    assert_eq!(map_grid_error(GridError::NumericalFailure), InterpolationError::NumericalFailure);
    assert_eq!(map_grid_error(GridError::OutOfDomain), InterpolationError::InvalidSupport);
    assert_eq!(map_grid_error(GridError::InvalidGeometry("empty".into())), InterpolationError::InvalidSupport);
    assert_eq!(map_grid_error(GridError::IndexOverflow), InterpolationError::InvalidSupport);
}
