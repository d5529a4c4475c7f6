use gazflow::equipment::{apply_equipment_overrides, EquipmentSpec, EquippedArc};

#[test]
fn empty_settings_are_empty() {
    let e: EquipmentSpec<f64> = EquipmentSpec::empty();
    assert!(e.is_empty());
    assert_eq!(e.effective_setpoint_bar(), None);
}

#[test]
fn pressure_regulator_sets_setpoint_and_margin() {
    let e = EquipmentSpec::pressure_regulator(40.0, 2.5);
    assert_eq!(e.regulator_setpoint_bar, Some(40.0));
    assert_eq!(e.regulator_delta_p_min_bar, Some(2.5));
    assert_eq!(e.control_valve_cv, None);
    assert_eq!(e.delivery_min_pressure_bar, None);
    assert_eq!(e.effective_setpoint_bar(), Some(40.0));
    assert!(!e.is_empty());
}

#[test]
fn delivery_station_keeps_minimum_apart_from_setpoint() {
    let e = EquipmentSpec::delivery_station(16.0, 12.0, 1.0);
    assert_eq!(e.regulator_setpoint_bar, Some(16.0));
    assert_eq!(e.delivery_min_pressure_bar, Some(12.0));
    assert_eq!(e.regulator_delta_p_min_bar, Some(1.0));
    assert_eq!(e.effective_setpoint_bar(), Some(16.0));
}

#[test]
fn control_valve_sets_cv_and_opening() {
    let e = EquipmentSpec::control_valve(120.0, 55.0);
    assert_eq!(e.control_valve_cv, Some(120.0));
    assert_eq!(e.control_valve_opening_pct, Some(55.0));
    assert_eq!(e.regulator_setpoint_bar, None);
    assert_eq!(e.effective_setpoint_bar(), None);
}

#[test]
fn only_bypass_flag_is_not_empty() {
    let mut e: EquipmentSpec<f64> = EquipmentSpec::empty();
    e.internal_bypass_required = Some(false);
    assert!(!e.is_empty());
}

#[test]
fn merge_takes_given_settings_and_keeps_the_rest() {
    let mut base = EquipmentSpec::delivery_station(16.0, 12.0, 1.0);
    let mut patch: EquipmentSpec<f64> = EquipmentSpec::empty();
    patch.regulator_setpoint_bar = Some(18.0);
    patch.compressor_nominal_ratio = Some(1.4);
    base.merge_from(&patch);
    assert_eq!(base.regulator_setpoint_bar, Some(18.0));
    assert_eq!(base.delivery_min_pressure_bar, Some(12.0));
    assert_eq!(base.regulator_delta_p_min_bar, Some(1.0));
    assert_eq!(base.compressor_nominal_ratio, Some(1.4));
    assert_eq!(base.control_valve_cv, None);
}

#[test]
fn merging_twice_is_merging_once_and_empty_patch_changes_nothing() {
    let base = EquipmentSpec::pressure_regulator(40.0, 2.5);
    let patch = EquipmentSpec::control_valve(80.0, 30.0);
    let mut once = base;
    once.merge_from(&patch);
    let mut twice = once;
    twice.merge_from(&patch);
    assert_eq!(once, twice);
    let mut unchanged = base;
    unchanged.merge_from(&EquipmentSpec::empty());
    assert_eq!(unchanged, base);
}

#[test]
fn overrides_patch_arcs_by_identifier() {
    let mut arcs = vec![
        EquippedArc { id: "R1".to_string(), equipment: EquipmentSpec::pressure_regulator(40.0, 2.0) },
        EquippedArc { id: "V1".to_string(), equipment: EquipmentSpec::control_valve(100.0, 50.0) },
        EquippedArc { id: "P1".to_string(), equipment: EquipmentSpec::empty() },
    ];
    let mut first = EquipmentSpec::empty();
    first.regulator_setpoint_bar = Some(38.0);
    let mut last = EquipmentSpec::empty();
    last.regulator_setpoint_bar = Some(35.0);
    let overrides = vec![
        ("R1".to_string(), first),
        ("V1".to_string(), EquipmentSpec::control_valve(120.0, 75.0)),
        ("R1".to_string(), last),
        ("X9".to_string(), EquipmentSpec::pressure_regulator(1.0, 1.0)),
    ];
    apply_equipment_overrides(&mut arcs, &overrides);
    assert_eq!(arcs[0].id, "R1");
    assert_eq!(arcs[0].equipment.regulator_setpoint_bar, Some(35.0));
    assert_eq!(arcs[0].equipment.regulator_delta_p_min_bar, Some(2.0));
    assert_eq!(arcs[1].equipment.control_valve_cv, Some(120.0));
    assert_eq!(arcs[1].equipment.control_valve_opening_pct, Some(75.0));
    assert!(arcs[2].equipment.is_empty());
}
