//! From positions to raw brightness, and the backlights that a system lists.

use super::levels::{brightness_is_the_nearest_step, fractions_are_quotients};
use crate::binary64::accuracy::{
    over_rounds_exact_quotient, reciprocals, rounded_product, rounded_ratio, special_quotients,
    special_sums,
};
use crate::binary64::arithmetic::lemma_whole_is_exact;
use crate::binary64::laws::{
    opposite_flips_value, plus_zero_is_the_same_number, rounded_units, sum_rounds_exact_sum,
};
use crate::binary64::model::{lemma_units_order, one_in_units, units, INFINITE};
use crate::binary64::Binary64;
use crate::config::{
    BacklightConfig, CommonControlConfig, ControlBackendConfig, ControlConfig, MaxBehavior,
    RangeConfig,
};
use crate::range::{held_to_unit, held_units, hold_to_unit};
use vstd::math::abs;
use vstd::prelude::*;

verus! {

/// How positions of a control become raw brightness of one backlight.
#[derive(Copy, Clone, Debug, PartialEq, Eq)]
pub struct BacklightMap {
    /// The readings that the control answers to.
    pub input: RangeConfig,
    /// The levels that it gives for them.
    pub output: RangeConfig,
    /// What it does above the input range.
    pub max_behavior: MaxBehavior,
    /// The power that makes brightness of a level.
    pub exponent: Binary64,
    /// The raw brightness at full level.
    pub max: u32,
}

/// What a position asks of the backlight.
#[derive(Copy, Clone, Debug, PartialEq, Eq)]
pub enum Drive {
    /// To be off.
    Off,
    /// To give a level, before it is raised to the exponent.
    Level(Binary64),
}

/// A range, or the one from zero to one where none is set.
pub open spec fn range_or_unit(range: Option<RangeConfig>) -> RangeConfig {
    match range {
        Some(r) => r,
        None => RangeConfig::unit(),
    }
}

impl BacklightMap {
    /// What a position asks of the backlight: above the input range what the
    /// behaviour there says, and else the level that lies in the output range
    /// where the position lies in the input range.
    pub open spec fn drives(self, position: Binary64) -> Drive {
        if self.input.hi.less(position) {
            match self.max_behavior {
                MaxBehavior::Off => Drive::Off,
                MaxBehavior::Saturate => Drive::Level(self.level(self.input.hi)),
            }
        } else {
            Drive::Level(self.level(position))
        }
    }

    /// The level for a position in the input range.
    pub open spec fn level(self, position: Binary64) -> Binary64 {
        self.output.at_place(self.input.place_of(position))
    }

    /// The raw brightness for a level that has been raised to the exponent.
    pub open spec fn raw(self, powered: Binary64) -> u32 {
        let nearest = powered.times(Binary64::of_whole(self.max as nat)).nearest_u32();
        if nearest < self.max {
            nearest
        } else {
            self.max
        }
    }

    /// What part of full brightness a raw brightness is, from zero to one.
    pub open spec fn fraction(self, raw_start: u32) -> Binary64 {
        held_to_unit(
            Binary64::of_whole(raw_start as nat).over(Binary64::of_whole(self.max as nat)),
        )
    }

    /// The map is the one for a backlight whose driver reports a raw maximum.
    pub open spec fn made_for(
        self,
        common: CommonControlConfig,
        backlight: BacklightConfig,
        reported_max: u32,
    ) -> bool {
        &&& self.input == range_or_unit(common.input)
        &&& self.output == range_or_unit(common.output)
        &&& self.max_behavior == (match common.max_behavior {
            Some(behavior) => behavior,
            None => MaxBehavior::Saturate,
        })
        &&& self.exponent == (match common.exponent {
            Some(exponent) => exponent,
            None => Binary64::of_whole(3),
        })
        &&& self.max == (match backlight.raw_max {
            Some(max) => max,
            None => reported_max,
        })
    }

    /// The map for a backlight whose driver reports a raw maximum.
    pub fn new(
        common: &CommonControlConfig,
        backlight: &BacklightConfig,
        reported_max: u32,
    ) -> (r: BacklightMap)
        ensures
            r.made_for(*common, *backlight, reported_max),
            r.input == range_or_unit(common.input),
            r.output == range_or_unit(common.output),
            r.max_behavior == (match common.max_behavior {
                Some(behavior) => behavior,
                None => MaxBehavior::Saturate,
            }),
            r.exponent == (match common.exponent {
                Some(exponent) => exponent,
                None => Binary64::of_whole(3),
            }),
            r.max == (match backlight.raw_max {
                Some(max) => max,
                None => reported_max,
            }),
            common.input matches Some(range) ==> r.input.lo == range.lo && r.input.hi == range.hi,
            common.input is None ==> r.input.lo.value() == 0 && r.input.hi.value()
                == one_in_units(),
            common.output matches Some(range) ==> r.output.lo == range.lo && r.output.hi
                == range.hi,
            common.output is None ==> r.output.lo.value() == 0 && r.output.hi.value()
                == one_in_units(),
            common.max_behavior matches Some(behavior) ==> r.max_behavior == behavior,
            common.max_behavior is None ==> r.max_behavior is Saturate,
            common.exponent matches Some(exponent) ==> r.exponent == exponent,
            common.exponent is None ==> r.exponent.value() == 3 * one_in_units(),
            backlight.raw_max matches Some(max) ==> r.max == max,
            backlight.raw_max is None ==> r.max == reported_max,
    {
        proof {
            lemma_whole_is_exact(0);
            lemma_whole_is_exact(1);
            lemma_whole_is_exact(3);
        }
        let input: RangeConfig = match common.input {
            Some(range) => range,
            None => RangeConfig::default(),
        };
        let output: RangeConfig = match common.output {
            Some(range) => range,
            None => RangeConfig::default(),
        };
        let max_behavior: MaxBehavior = match common.max_behavior {
            Some(behavior) => behavior,
            None => MaxBehavior::default(),
        };
        let exponent: Binary64 = match common.exponent {
            Some(exponent) => exponent,
            None => CommonControlConfig::default_exponent(),
        };
        let max: u32 = match backlight.raw_max {
            Some(max) => max,
            None => reported_max,
        };
        BacklightMap { input, output, max_behavior, exponent, max }
    }

    /// What part of full brightness a raw brightness is, from zero to one.
    pub fn start_fraction(&self, raw_start: u32) -> (r: Binary64)
        ensures
            r == self.fraction(raw_start),
            self.max > 0 ==> !r.nan() && r.value() == held_units(
                rounded_ratio(raw_start * one_in_units(), self.max * one_in_units()),
            ),
    {
        proof {
            fractions_are_quotients(*self, raw_start);
        }
        hold_to_unit(
            Binary64::from_whole(raw_start as u64).quotient(Binary64::from_whole(self.max as u64)),
        )
    }

    /// The power that makes a level of brightness.
    pub fn root(&self) -> (r: Binary64)
        ensures
            r == Binary64::of_whole(1).over(self.exponent),
            self.exponent.finite() && self.exponent.value() != 0 ==> !r.nan() && r.value()
                == rounded_ratio(one_in_units() as int, self.exponent.value()),
            self.exponent.zero() ==> r.infinite() && r.negative() == self.exponent.negative(),
            self.exponent.infinite() ==> r.zero(),
            self.exponent.nan() ==> r.nan(),
    {
        proof {
            reciprocals(self.exponent);
        }
        Binary64::from_whole(1).quotient(self.exponent)
    }

    /// The position that a control starts from, where its level is `start`.
    pub fn start_position(&self, start: Binary64) -> (r: Binary64)
        ensures
            r == start.minus(self.output.lo.over(self.output.width())),
            ({
                let lo = self.output.lo.value();
                let width = rounded_units(self.output.hi.value() - lo);
                let shift = rounded_ratio(lo, width);
                start.finite() && self.output.lo.finite() && self.output.hi.finite() && 0 < abs(
                    width,
                ) < units(INFINITE as nat) && abs(shift) < units(INFINITE as nat) ==> !r.nan()
                    && r.value() == rounded_units(start.value() - shift)
            }),
            start.nan() || self.output.lo.nan() || self.output.hi.nan() ==> r.nan(),
            start.finite() && self.output.lo.finite() && self.output.width().infinite()
                ==> r.equals(start),
            start.finite() && self.output.lo.finite() && self.output.width().zero() ==> (
            if self.output.lo.zero() {
                r.nan()
            } else {
                r.infinite() && (r.negative() <==> self.output.lo.negative()
                    == self.output.width().negative())
            }),
    {
        proof {
            lemma_start_position(*self, start);
        }
        start.difference(
            self.output.lo.quotient(self.output.hi.difference(self.output.lo)),
        )
    }

    /// What a position asks of the backlight.
    pub fn drive(&self, position: Binary64) -> (r: Drive)
        ensures
            r == self.drives(position),
    {
        let mut sample: Binary64 = position;
        if self.input.hi.less_than(sample) {
            match self.max_behavior {
                MaxBehavior::Off => {
                    return Drive::Off;
                },
                MaxBehavior::Saturate => {
                    sample = self.input.hi;
                },
            }
        }
        Drive::Level(self.output.number_at(self.input.find_place(sample)))
    }

    /// The raw brightness to set: none where the backlight is to be off, and
    /// else that of a level which has been raised to the exponent.
    pub fn brightness(&self, powered: Option<Binary64>) -> (r: u32)
        ensures
            powered is None ==> r == 0,
            powered matches Some(p) ==> r == self.raw(p),
            r <= self.max,
            powered matches Some(p) ==> (p.finite() && p.value() >= 0 ==> {
                let one = one_in_units();
                let product = rounded_product(p.value(), self.max * one);
                &&& 2 * (r * one) <= 2 * product + one
                &&& r < self.max ==> 2 * product + one < 2 * ((r + 1) * one)
            }),
    {
        proof {
            if let Some(p) = powered {
                brightness_is_the_nearest_step(*self, p);
            }
        }
        match powered {
            None => 0,
            Some(p) => {
                let nearest: u32 = p.product(
                    Binary64::from_whole(self.max as u64),
                ).to_nearest_u32();
                if nearest < self.max {
                    nearest
                } else {
                    self.max
                }
            },
        }
    }
}

/// Where a control starts is its level less the low end of the output range as a
/// part of its width, each rounded.
proof fn lemma_start_position(map: BacklightMap, start: Binary64)
    ensures
        ({
            let lo = map.output.lo.value();
            let width = rounded_units(map.output.hi.value() - lo);
            let shift = rounded_ratio(lo, width);
            start.finite() && map.output.lo.finite() && map.output.hi.finite() && 0 < abs(width)
                < units(INFINITE as nat) && abs(shift) < units(INFINITE as nat) ==> !start.minus(
                map.output.lo.over(map.output.width()),
            ).nan() && start.minus(map.output.lo.over(map.output.width())).value()
                == rounded_units(start.value() - shift)
        }),
        ({
            let lo = map.output.lo;
            let width = map.output.width();
            let r = start.minus(lo.over(width));
            &&& start.nan() || lo.nan() || map.output.hi.nan() ==> r.nan()
            &&& start.finite() && lo.finite() && width.infinite() ==> r.equals(start)
            &&& start.finite() && lo.finite() && width.zero() ==> (if lo.zero() {
                r.nan()
            } else {
                r.infinite() && (r.negative() <==> lo.negative() == width.negative())
            })
        }),
{
    let lo = map.output.lo;
    let hi = map.output.hi;
    let w = map.output.width();
    let q = lo.over(w);
    opposite_flips_value(lo);
    opposite_flips_value(q);
    special_sums(hi, lo.opposite());
    special_quotients(lo, w);
    special_sums(start, q.opposite());
    if !start.nan() && q.zero() {
        plus_zero_is_the_same_number(start, q.opposite());
    }
    if start.finite() && lo.finite() && hi.finite() && 0 < abs(
        rounded_units(hi.value() - lo.value()),
    ) < units(INFINITE as nat) {
        sum_rounds_exact_sum(hi, lo.opposite());
        lemma_units_order(w.magnitude(), INFINITE as nat);
        over_rounds_exact_quotient(lo, w);
        lemma_units_order(q.magnitude(), INFINITE as nat);
        if q.finite() {
            sum_rounds_exact_sum(start, q.opposite());
        }
    }
}

/// An entry in the system's list of backlights, as far as it could be read.
#[derive(Clone, Debug, PartialEq, Eq)]
pub enum Listed {
    /// The list could not be read on from here.
    Broken,
    /// The entry has no name.
    Nameless,
    /// The entry's name is not text.
    NotText,
    /// The entry's name.
    Named(String),
}

/// The names up to where the list breaks off.
pub open spec fn names_listed(entries: Seq<Listed>) -> Seq<Seq<char>>
    decreases entries.len(),
{
    if entries.len() == 0 {
        Seq::empty()
    } else {
        match entries[0] {
            Listed::Broken => Seq::empty(),
            Listed::Named(name) => seq![name@] + names_listed(entries.skip(1)),
            _ => names_listed(entries.skip(1)),
        }
    }
}

/// The control for a backlight of a given name, under a name of its own, with
/// nothing set.
pub open spec fn is_control_for(entry: (String, ControlConfig), name: Seq<char>) -> bool {
    &&& entry.0@ == "backlight_"@ + name
    &&& entry.1.driver matches ControlBackendConfig::Backlight(b) && b.device@ == name
        && b.raw_max is None
    &&& entry.1.common == CommonControlConfig::unset()
}

/// A control for each backlight that the system lists, in the order of the
/// list; none where there is no list.
pub fn try_generate(listing: Option<Vec<Listed>>) -> (r: Vec<(String, ControlConfig)>)
    ensures
        listing is None ==> r@.len() == 0,
        listing matches Some(entries) ==> {
            &&& r@.len() == names_listed(entries@).len()
            &&& forall|i: int|
                0 <= i < r@.len() ==> is_control_for(#[trigger] r@[i], names_listed(entries@)[i])
        },
{
    let mut controls: Vec<(String, ControlConfig)> = Vec::new();
    let entries: Vec<Listed> = match listing {
        None => {
            return controls;
        },
        Some(entries) => entries,
    };
    let ghost names = names_listed(entries@);
    let mut i: usize = 0;
    proof {
        assert(entries@.skip(0) =~= entries@);
    }
    while i < entries.len()
        invariant
            i <= entries@.len(),
            listing == Some(entries),
            names == names_listed(entries@),
            names.len() == controls@.len() + names_listed(entries@.skip(i as int)).len(),
            names.skip(controls@.len() as int) == names_listed(entries@.skip(i as int)),
            forall|j: int|
                0 <= j < controls@.len() ==> is_control_for(#[trigger] controls@[j], names[j]),
        decreases entries@.len() - i,
    {
        let ghost rest = entries@.skip(i as int);
        let ghost tail = names_listed(rest.skip(1));
        proof {
            assert(rest.skip(1) =~= entries@.skip(i + 1));
        }
        match &entries[i] {
            Listed::Broken => {
                return controls;
            },
            Listed::Nameless => {},
            Listed::NotText => {},
            Listed::Named(name) => {
                let mut key: String = "backlight_".to_owned();
                key.append(name.as_str());
                let ghost done = controls@.len() as int;
                proof {
                    assert(names_listed(rest) == seq![name@] + tail);
                    assert(names.skip(done)[0] == name@);
                    assert(names.skip(done + 1) =~= names.skip(done).skip(1));
                    assert((seq![name@] + tail).skip(1) =~= tail);
                }
                controls.push(
                    (
                        key,
                        ControlConfig {
                            driver: ControlBackendConfig::Backlight(
                                BacklightConfig { device: name.clone(), raw_max: None },
                            ),
                            common: CommonControlConfig::default(),
                        },
                    ),
                );
            },
        }
        i = i + 1;
    }
    controls
}

} // verus!
