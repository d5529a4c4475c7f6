//! Settings of the regulating equipment of an arc (pressure regulator, control valve,
//! delivery station, compressor limits); the numbers are of type `P`.

use vstd::prelude::*;

use crate::text::str_eq;

verus! {

/// The optional settings of an arc.
#[derive(Clone, Copy, Debug, PartialEq)]
pub struct EquipmentSpec<P> {
    /// Downstream pressure set point [bar] (regulator, delivery station).
    pub regulator_setpoint_bar: Option<P>,
    /// Least upstream margin over the set point for active regulation [bar].
    pub regulator_delta_p_min_bar: Option<P>,
    /// ISA Cv coefficient of a control valve.
    pub control_valve_cv: Option<P>,
    /// Relative opening [%] (0 closed, 100 fully open).
    pub control_valve_opening_pct: Option<P>,
    /// Contractual minimum downstream pressure [bar] (delivery station).
    pub delivery_min_pressure_bar: Option<P>,
    /// Nominal operating ratio of a compressor.
    pub compressor_nominal_ratio: Option<P>,
    /// Network pressure cap ratio of a compressor (a limit, not a set point).
    pub compressor_pressure_cap_ratio: Option<P>,
    /// Absolute outlet pressure limit of a compressor [bar].
    pub compressor_pressure_out_max_bar: Option<P>,
    /// Whether an internal bypass is required when the compressor is out of service.
    pub internal_bypass_required: Option<bool>,
}

/// No setting given.
pub open spec fn spec_empty<P>() -> EquipmentSpec<P> {
    EquipmentSpec {
        regulator_setpoint_bar: None,
        regulator_delta_p_min_bar: None,
        control_valve_cv: None,
        control_valve_opening_pct: None,
        delivery_min_pressure_bar: None,
        compressor_nominal_ratio: None,
        compressor_pressure_cap_ratio: None,
        compressor_pressure_out_max_bar: None,
        internal_bypass_required: None,
    }
}

pub open spec fn pick<T>(base: Option<T>, patch: Option<T>) -> Option<T> {
    match patch {
        Some(v) => Some(v),
        None => base,
    }
}

/// `base` with every setting that `patch` gives replaced by the patch's.
pub open spec fn merged<P>(base: EquipmentSpec<P>, patch: EquipmentSpec<P>) -> EquipmentSpec<P> {
    EquipmentSpec {
        regulator_setpoint_bar: pick(base.regulator_setpoint_bar, patch.regulator_setpoint_bar),
        regulator_delta_p_min_bar: pick(base.regulator_delta_p_min_bar, patch.regulator_delta_p_min_bar),
        control_valve_cv: pick(base.control_valve_cv, patch.control_valve_cv),
        control_valve_opening_pct: pick(base.control_valve_opening_pct, patch.control_valve_opening_pct),
        delivery_min_pressure_bar: pick(base.delivery_min_pressure_bar, patch.delivery_min_pressure_bar),
        compressor_nominal_ratio: pick(base.compressor_nominal_ratio, patch.compressor_nominal_ratio),
        compressor_pressure_cap_ratio: pick(base.compressor_pressure_cap_ratio, patch.compressor_pressure_cap_ratio),
        compressor_pressure_out_max_bar: pick(base.compressor_pressure_out_max_bar, patch.compressor_pressure_out_max_bar),
        internal_bypass_required: pick(base.internal_bypass_required, patch.internal_bypass_required),
    }
}

impl<P: Copy> EquipmentSpec<P> {
    /// No setting given.
    pub fn empty() -> (r: Self)
        ensures
            r == spec_empty::<P>(),
    {
        EquipmentSpec {
            regulator_setpoint_bar: None,
            regulator_delta_p_min_bar: None,
            control_valve_cv: None,
            control_valve_opening_pct: None,
            delivery_min_pressure_bar: None,
            compressor_nominal_ratio: None,
            compressor_pressure_cap_ratio: None,
            compressor_pressure_out_max_bar: None,
            internal_bypass_required: None,
        }
    }

    /// A downstream pressure regulator.
    pub fn pressure_regulator(setpoint_bar: P, delta_p_min_bar: P) -> (r: Self)
        ensures
            r == (EquipmentSpec {
                regulator_setpoint_bar: Some(setpoint_bar),
                regulator_delta_p_min_bar: Some(delta_p_min_bar),
                ..spec_empty::<P>()
            }),
    {
        EquipmentSpec {
            regulator_setpoint_bar: Some(setpoint_bar),
            regulator_delta_p_min_bar: Some(delta_p_min_bar),
            ..Self::empty()
        }
    }

    /// A delivery station: a regulator with a contractual minimum pressure.
    pub fn delivery_station(setpoint_bar: P, min_pressure_bar: P, delta_p_min_bar: P) -> (r: Self)
        ensures
            r == (EquipmentSpec {
                regulator_setpoint_bar: Some(setpoint_bar),
                regulator_delta_p_min_bar: Some(delta_p_min_bar),
                delivery_min_pressure_bar: Some(min_pressure_bar),
                ..spec_empty::<P>()
            }),
    {
        EquipmentSpec {
            regulator_setpoint_bar: Some(setpoint_bar),
            regulator_delta_p_min_bar: Some(delta_p_min_bar),
            delivery_min_pressure_bar: Some(min_pressure_bar),
            ..Self::empty()
        }
    }

    /// A control valve with its Cv and opening.
    pub fn control_valve(cv: P, opening_pct: P) -> (r: Self)
        ensures
            r == (EquipmentSpec {
                control_valve_cv: Some(cv),
                control_valve_opening_pct: Some(opening_pct),
                ..spec_empty::<P>()
            }),
    {
        EquipmentSpec { control_valve_cv: Some(cv), control_valve_opening_pct: Some(opening_pct), ..Self::empty() }
    }

    /// The regulation set point (distinct from a delivery station's contractual minimum).
    pub fn effective_setpoint_bar(&self) -> (r: Option<P>)
        ensures
            r == self.regulator_setpoint_bar,
    {
        self.regulator_setpoint_bar
    }

    /// Whether no setting is given.
    pub fn is_empty(&self) -> (r: bool)
        ensures
            r == (*self == spec_empty::<P>()),
    {
        self.regulator_setpoint_bar.is_none() && self.regulator_delta_p_min_bar.is_none() && self.control_valve_cv.is_none()
            && self.control_valve_opening_pct.is_none() && self.delivery_min_pressure_bar.is_none()
            && self.compressor_nominal_ratio.is_none() && self.compressor_pressure_cap_ratio.is_none()
            && self.compressor_pressure_out_max_bar.is_none() && self.internal_bypass_required.is_none()
    }

    /// Takes every setting that `patch` gives.
    pub fn merge_from(&mut self, patch: &Self)
        ensures
            *final(self) == merged(*old(self), *patch),
    {
        if let Some(v) = patch.regulator_setpoint_bar {
            self.regulator_setpoint_bar = Some(v);
        }
        if let Some(v) = patch.regulator_delta_p_min_bar {
            self.regulator_delta_p_min_bar = Some(v);
        }
        if let Some(v) = patch.control_valve_cv {
            self.control_valve_cv = Some(v);
        }
        if let Some(v) = patch.control_valve_opening_pct {
            self.control_valve_opening_pct = Some(v);
        }
        if let Some(v) = patch.delivery_min_pressure_bar {
            self.delivery_min_pressure_bar = Some(v);
        }
        if let Some(v) = patch.compressor_nominal_ratio {
            self.compressor_nominal_ratio = Some(v);
        }
        if let Some(v) = patch.compressor_pressure_cap_ratio {
            self.compressor_pressure_cap_ratio = Some(v);
        }
        if let Some(v) = patch.compressor_pressure_out_max_bar {
            self.compressor_pressure_out_max_bar = Some(v);
        }
        if let Some(v) = patch.internal_bypass_required {
            self.internal_bypass_required = Some(v);
        }
    }
}

/// Merging is a patch: an empty patch changes nothing, applying a patch twice is applying
/// it once, two patches in turn are their merge, and only empty settings merge to empty.
pub proof fn lemma_merge_laws<P>(a: EquipmentSpec<P>, b: EquipmentSpec<P>, c: EquipmentSpec<P>)
    ensures
        merged(a, spec_empty::<P>()) == a,
        merged(spec_empty::<P>(), a) == a,
        merged(merged(a, b), b) == merged(a, b),
        merged(merged(a, b), c) == merged(a, merged(b, c)),
        (merged(a, b) == spec_empty::<P>()) <==> (a == spec_empty::<P>() && b == spec_empty::<P>()),
{
}

/// An arc's identifier and its equipment settings.
pub struct EquippedArc<P> {
    pub id: String,
    pub equipment: EquipmentSpec<P>,
}

/// The patch given for `id`: the last entry of `ovs` with that identifier, as in a map
/// filled in order.
pub open spec fn patch_for<P>(ovs: Seq<(Seq<char>, EquipmentSpec<P>)>, id: Seq<char>) -> Option<EquipmentSpec<P>>
    decreases ovs.len(),
{
    if ovs.len() == 0 {
        None
    } else if ovs.last().0 == id {
        Some(ovs.last().1)
    } else {
        patch_for(ovs.drop_last(), id)
    }
}

pub open spec fn overrides_view<P>(v: Seq<(String, EquipmentSpec<P>)>) -> Seq<(Seq<char>, EquipmentSpec<P>)> {
    v.map_values(|e: (String, EquipmentSpec<P>)| (e.0@, e.1))
}

/// An arc after the overrides: its settings merged with the patch given for it, if any.
pub open spec fn overridden<P>(a: (Seq<char>, EquipmentSpec<P>), ovs: Seq<(Seq<char>, EquipmentSpec<P>)>) -> EquipmentSpec<P> {
    match patch_for(ovs, a.0) {
        Some(p) => merged(a.1, p),
        None => a.1,
    }
}

pub open spec fn arcs_view<P>(v: Seq<EquippedArc<P>>) -> Seq<(Seq<char>, EquipmentSpec<P>)> {
    v.map_values(|a: EquippedArc<P>| (a.id@, a.equipment))
}

fn find_patch<P: Copy>(overrides: &Vec<(String, EquipmentSpec<P>)>, id: &str) -> (r: Option<EquipmentSpec<P>>)
    ensures
        r == patch_for(overrides_view(overrides@), id@),
{
    let ghost ov = overrides_view(overrides@);
    let mut k = overrides.len();
    assert(ov.take(k as int) =~= ov);
    while k > 0
        invariant
            ov == overrides_view(overrides@),
            k <= overrides@.len(),
            patch_for(ov, id@) == patch_for(ov.take(k as int), id@),
        decreases k,
    {
        assert(ov.take(k as int).last() == ov[k - 1]);
        assert(ov.take(k as int).drop_last() =~= ov.take(k - 1));
        if str_eq(overrides[k - 1].0.as_str(), id) {
            return Some(overrides[k - 1].1);
        }
        k = k - 1;
    }
    None
}

/// Merges into each arc's settings the patch given for its identifier (see `overridden`);
/// identifiers and order stay.
pub fn apply_equipment_overrides<P: Copy>(arcs: &mut Vec<EquippedArc<P>>, overrides: &Vec<(String, EquipmentSpec<P>)>)
    ensures
        final(arcs)@.len() == old(arcs)@.len(),
        forall|i: int| 0 <= i < old(arcs)@.len() ==> (#[trigger] final(arcs)@[i]).id@ == old(arcs)@[i].id@
            && final(arcs)@[i].equipment == overridden(arcs_view(old(arcs)@)[i], overrides_view(overrides@)),
{
    let ghost start = arcs@;
    let mut i: usize = 0;
    while i < arcs.len()
        invariant
            arcs@.len() == start.len(),
            i <= arcs@.len(),
            forall|j: int| 0 <= j < arcs@.len() ==> (#[trigger] arcs@[j]).id@ == start[j].id@,
            forall|j: int| 0 <= j < i ==> (#[trigger] arcs@[j]).equipment == overridden(arcs_view(start)[j], overrides_view(overrides@)),
            forall|j: int| i <= j < arcs@.len() ==> (#[trigger] arcs@[j]).equipment == start[j].equipment,
        decreases arcs@.len() - i,
    {
        let found = find_patch(overrides, arcs[i].id.as_str());
        match found {
            Some(patch) => {
                let mut e = arcs[i].equipment;
                e.merge_from(&patch);
                let id = arcs[i].id.clone();
                arcs.set(i, EquippedArc { id, equipment: e });
            },
            None => {},
        }
        assert(arcs_view(start)[i as int] == (start[i as int].id@, start[i as int].equipment));
        i = i + 1;
    }
}

} // verus!
