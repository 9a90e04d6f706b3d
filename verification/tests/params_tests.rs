use schisma::params::{
    validate, ParamError, ParamId, ParamInfo, ParamRegistry, ParamUnit, RangeCheck, SmoothingClass,
};

/// Descriptor of the morph parameter; its range 0..=1 with default 0.5 is valid.
fn morph() -> ParamInfo {
    ParamInfo {
        id: ParamId(1),
        key: "voice.morph".into(),
        name: "Morph".into(),
        unit: ParamUnit::Normalized,
        smoothing: SmoothingClass::Musical,
    }
}

fn range_check(minimum: f64, maximum: f64, default: f64) -> RangeCheck {
    if !minimum.is_finite() || !maximum.is_finite() || !default.is_finite() || minimum >= maximum {
        RangeCheck::InvalidRange
    } else if !(minimum..=maximum).contains(&default) {
        RangeCheck::DefaultOutOfRange
    } else {
        RangeCheck::Valid
    }
}

#[test]
fn registry_resolves_stable_ids_and_keys() {
    let mut registry = ParamRegistry::new();
    registry.register(morph(), range_check(0.0, 1.0, 0.5)).unwrap();
    assert_eq!(registry.get(ParamId(1)).unwrap().name, "Morph");
    assert_eq!(registry.by_key("voice.morph").unwrap().id, ParamId(1));
}

#[test]
fn duplicate_ids_are_rejected() {
    let mut registry = ParamRegistry::new();
    registry.register(morph(), range_check(0.0, 1.0, 0.5)).unwrap();
    let mut duplicate = morph();
    duplicate.key = "other".into();
    assert_eq!(
        registry.register(duplicate, range_check(0.0, 1.0, 0.5)),
        Err(ParamError::DuplicateId(ParamId(1)))
    );
}

#[test]
fn descriptor_errors_come_in_order() {
    let mut blank = morph();
    blank.key = " \t".into();
    assert_eq!(validate(&blank, RangeCheck::InvalidRange), Err(ParamError::EmptyKey(ParamId(1))));
    assert_eq!(
        validate(&morph(), range_check(1.0, 1.0, 1.0)),
        Err(ParamError::InvalidRange(ParamId(1)))
    );
    assert_eq!(
        validate(&morph(), range_check(0.0, 1.0, 2.0)),
        Err(ParamError::DefaultOutOfRange(ParamId(1)))
    );
    assert_eq!(validate(&morph(), range_check(f64::NAN, 1.0, 0.5)), Err(ParamError::InvalidRange(ParamId(1))));
    assert_eq!(validate(&morph(), RangeCheck::Valid), Ok(()));
}

#[test]
fn duplicate_keys_are_rejected_and_entries_stay_in_id_order() {
    let mut registry = ParamRegistry::new();
    let entry = |id: u32, key: &str| ParamInfo {
        id: ParamId(id),
        key: key.into(),
        name: key.into(),
        unit: ParamUnit::Hertz,
        smoothing: SmoothingClass::Unsmoothed,
    };
    registry.register(entry(5, "b"), RangeCheck::Valid).unwrap();
    registry.register(entry(2, "a"), RangeCheck::Valid).unwrap();
    registry.register(entry(9, "c"), RangeCheck::Valid).unwrap();
    assert_eq!(
        registry.register(entry(7, "a"), RangeCheck::Valid),
        Err(ParamError::DuplicateKey("a".into()))
    );
    let ids: Vec<u32> = registry.entries().iter().map(|p| p.id.0).collect();
    assert_eq!(ids, vec![2, 5, 9]);
    assert!(registry.get(ParamId(7)).is_none());
    assert!(registry.by_key("d").is_none());
}
