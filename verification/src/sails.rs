use vstd::prelude::*;

verus! {

/// Colour of map route segments for each sail index of the default sail wardrobe.
pub open spec fn sail_color_spec(index: Option<usize>) -> Seq<u8> {
    match index {
        Some(0) => seq![80u8, 160u8, 255u8],
        Some(1) => seq![255u8, 170u8, 60u8],
        Some(2) => seq![255u8, 80u8, 80u8],
        Some(3) => seq![100u8, 220u8, 90u8],
        Some(4) => seq![200u8, 100u8, 255u8],
        _ => seq![200u8, 200u8, 200u8],
    }
}

/// RGB colour used to draw a route segment sailed under sail `index`
/// (genoa, reef, storm jib, gennaker, spinnaker; grey otherwise).
pub fn sail_color_rgb(index: Option<usize>) -> (rgb: [u8; 3])
    ensures
        rgb@ == sail_color_spec(index),
{
    let rgb = match index {
        Some(0) => [80, 160, 255],
        Some(1) => [255, 170, 60],
        Some(2) => [255, 80, 80],
        Some(3) => [100, 220, 90],
        Some(4) => [200, 100, 255],
        _ => [200, 200, 200],
    };
    assert(rgb@ =~= sail_color_spec(index));
    rgb
}

} // verus!

verus! {

/// Display name of sail `index` of a wardrobe whose sails are named `names`
/// ("Unknown" past the last sail).
pub fn sail_name(names: &[&'static str], index: usize) -> (name: &'static str)
    ensures
        index < names@.len() ==> name == names@[index as int],
        index >= names@.len() ==> name@ == "Unknown"@,
{
    if index < names.len() {
        names[index]
    } else {
        "Unknown"
    }
}

} // verus!

verus! {

/// Each sail of the default wardrobe has its own route colour, distinct from the grey
/// used for an unknown sail.
pub proof fn lemma_sail_colors_distinct(i: usize, j: usize)
    requires
        i <= 4,
        j <= 4,
        i != j,
    ensures
        sail_color_spec(Some(i)) != sail_color_spec(Some(j)),
        sail_color_spec(Some(i)) != sail_color_spec(None),
{
    let ci = sail_color_spec(Some(i));
    let cj = sail_color_spec(Some(j));
    let grey = sail_color_spec(None);
    assert(ci[0] != cj[0] || ci[1] != cj[1] || ci[2] != cj[2]);
    assert(ci[0] != grey[0] || ci[1] != grey[1] || ci[2] != grey[2]);
}

} // verus!

verus! {

/// Sail indices of the default wardrobe.
pub const GENOA: usize = 0;
pub const REEF: usize = 1;
pub const STORM_JIB: usize = 2;
pub const GENNAKER: usize = 3;
pub const SPINNAKER: usize = 4;

/// A bound on the true wind angle (whole degrees).
#[derive(Clone, Copy, Debug)]
pub enum TwaBound {
    /// Holds when the angle is at most this many degrees.
    AtMost(u32),
    /// Holds when the angle is at least this many degrees.
    AtLeast(u32),
    /// Never holds.
    Never,
}

/// Band of true wind angles through which a hoisted sail is kept (through tacks and
/// gybes) although it left its own domain.
pub open spec fn retention_spec(sail_index: usize) -> TwaBound {
    if sail_index == GENOA {
        TwaBound::AtMost(118)
    } else if sail_index == REEF {
        TwaBound::AtMost(140)
    } else if sail_index == STORM_JIB {
        TwaBound::AtMost(110)
    } else if sail_index == GENNAKER {
        TwaBound::AtLeast(78)
    } else if sail_index == SPINNAKER {
        TwaBound::AtLeast(115)
    } else {
        TwaBound::Never
    }
}

/// Retention band of sail `sail_index`.
pub fn retention_band(sail_index: usize) -> (b: TwaBound)
    ensures
        b == retention_spec(sail_index),
{
    match sail_index {
        0 => TwaBound::AtMost(118),
        1 => TwaBound::AtMost(140),
        2 => TwaBound::AtMost(110),
        3 => TwaBound::AtLeast(78),
        4 => TwaBound::AtLeast(115),
        _ => TwaBound::Never,
    }
}

/// When a set sail gives way to a faster one.
#[derive(Clone, Copy, Debug)]
pub enum SwitchRule {
    /// Never (same sail).
    Never,
    /// When the new sail is faster by the switching margin.
    Margin,
    /// When it is faster by the margin and the angle satisfies the bound.
    MarginAnd(TwaBound),
    /// Whenever the angle satisfies the bound, whatever the speeds.
    Angle(TwaBound),
}

/// Asymmetric switching thresholds between overlapping sails: genoa to gennaker only
/// once broad (120 degrees) and clearly faster, gennaker doused once close-hauled
/// (82 degrees), gennaker to spinnaker deep downwind (150 degrees), spinnaker back to
/// gennaker when reaching (120 degrees); other pairs switch on the speed margin alone.
pub open spec fn switch_spec(from: usize, to: usize) -> SwitchRule {
    if from == to {
        SwitchRule::Never
    } else if from == GENOA && to == GENNAKER {
        SwitchRule::MarginAnd(TwaBound::AtLeast(120))
    } else if from == GENNAKER && to == GENOA {
        SwitchRule::Angle(TwaBound::AtMost(82))
    } else if from == GENNAKER && to == SPINNAKER {
        SwitchRule::MarginAnd(TwaBound::AtLeast(150))
    } else if from == SPINNAKER && to == GENNAKER {
        SwitchRule::MarginAnd(TwaBound::AtMost(120))
    } else {
        SwitchRule::Margin
    }
}

/// Rule for leaving sail `from` for sail `to`.
pub fn switch_rule(from: usize, to: usize) -> (r: SwitchRule)
    ensures
        r == switch_spec(from, to),
{
    if from == to {
        return SwitchRule::Never;
    }
    if (from == GENOA && to == GENNAKER) || (from == GENNAKER && to == GENOA) {
        if from == GENOA {
            return SwitchRule::MarginAnd(TwaBound::AtLeast(120));
        }
        return SwitchRule::Angle(TwaBound::AtMost(82));
    }
    if (from == GENNAKER && to == SPINNAKER) || (from == SPINNAKER && to == GENNAKER) {
        if from == GENNAKER {
            return SwitchRule::MarginAnd(TwaBound::AtLeast(150));
        }
        return SwitchRule::MarginAnd(TwaBound::AtMost(120));
    }
    SwitchRule::Margin
}

/// The angle `twa` (degrees) satisfies bound `b`.
pub open spec fn bound_holds(b: TwaBound, twa: int) -> bool {
    match b {
        TwaBound::AtMost(d) => twa <= d,
        TwaBound::AtLeast(d) => twa >= d,
        TwaBound::Never => false,
    }
}

/// The angle condition of a switching rule (none for `Margin`, never for `Never`).
pub open spec fn rule_allows_angle(r: SwitchRule, twa: int) -> bool {
    match r {
        SwitchRule::Never => false,
        SwitchRule::Margin => true,
        SwitchRule::MarginAnd(b) => bound_holds(b, twa),
        SwitchRule::Angle(b) => bound_holds(b, twa),
    }
}

/// Switching is hysteretic: between the genoa and the gennaker, and between the gennaker
/// and the spinnaker, no angle allows switching both ways, so at a steady angle the sail
/// never flips back and forth; a sail is never switched for itself.
pub proof fn lemma_switch_hysteresis(twa: int, s: usize)
    ensures
        !(rule_allows_angle(switch_spec(GENOA, GENNAKER), twa) && rule_allows_angle(
            switch_spec(GENNAKER, GENOA),
            twa,
        )),
        !(rule_allows_angle(switch_spec(GENNAKER, SPINNAKER), twa) && rule_allows_angle(
            switch_spec(SPINNAKER, GENNAKER),
            twa,
        )),
        switch_spec(s, s) == SwitchRule::Never,
{
}

/// Only the genoa/gennaker and gennaker/spinnaker pairs carry an angle condition: leaving
/// any sail for another one outside those pairs (the spinnaker for the genoa, say) goes by
/// the speed margin alone, at every angle.
pub proof fn lemma_switch_margin_only(from: usize, to: usize, twa: int)
    requires
        from != to,
        !(from == GENOA && to == GENNAKER),
        !(from == GENNAKER && to == GENOA),
        !(from == GENNAKER && to == SPINNAKER),
        !(from == SPINNAKER && to == GENNAKER),
    ensures
        switch_spec(from, to) == SwitchRule::Margin,
        rule_allows_angle(switch_spec(from, to), twa),
{
}

/// The asymmetric thresholds of the overlapping pairs: the genoa gives way to the gennaker
/// from 120 degrees on and only when clearly faster; the gennaker is doused for the genoa
/// at 82 degrees or less whatever the speeds; the gennaker gives way to the spinnaker from
/// 150 degrees on and the spinnaker to the gennaker at 120 degrees or less, both only when
/// clearly faster.
pub proof fn lemma_switch_thresholds(twa: int)
    ensures
        switch_spec(GENOA, GENNAKER) is MarginAnd,
        rule_allows_angle(switch_spec(GENOA, GENNAKER), twa) <==> twa >= 120,
        switch_spec(GENNAKER, GENOA) is Angle,
        rule_allows_angle(switch_spec(GENNAKER, GENOA), twa) <==> twa <= 82,
        switch_spec(GENNAKER, SPINNAKER) is MarginAnd,
        rule_allows_angle(switch_spec(GENNAKER, SPINNAKER), twa) <==> twa >= 150,
        switch_spec(SPINNAKER, GENNAKER) is MarginAnd,
        rule_allows_angle(switch_spec(SPINNAKER, GENNAKER), twa) <==> twa <= 120,
{
}

/// Retention bands are one-sided: a headsail (genoa, reef, storm jib) is kept through
/// every angle up to its limit and a downwind sail (gennaker, spinnaker) through every
/// angle from its limit on, so a sail kept at some angle is kept at every angle closer to
/// its own point of sail; any other index is never kept.
pub proof fn lemma_retention_one_sided(sail_index: usize, twa: int, other: int)
    ensures
        sail_index <= STORM_JIB ==> retention_spec(sail_index) is AtMost,
        GENNAKER <= sail_index <= SPINNAKER ==> retention_spec(sail_index) is AtLeast,
        sail_index > SPINNAKER ==> !bound_holds(retention_spec(sail_index), twa),
        sail_index <= STORM_JIB && other <= twa && bound_holds(retention_spec(sail_index), twa)
            ==> bound_holds(retention_spec(sail_index), other),
        GENNAKER <= sail_index && other >= twa && bound_holds(retention_spec(sail_index), twa)
            ==> bound_holds(retention_spec(sail_index), other),
{
}

} // verus!
