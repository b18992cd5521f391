//! The unit record model: physical dimensions and validated table rows.

use vstd::prelude::*;

verus! {

/// The closed set of physical dimensions the generator knows.
#[derive(Clone, Copy, Debug, PartialEq, Eq, Structural)]
pub enum Dimension {
    Length,
    Time,
    Angle,
    Mass,
    Power,
}

/// The fixed processing order of the dimensions: it governs both the order of
/// the emitted per-dimension headers and the literal-suffix registration walk.
pub open spec fn dimension_order() -> Seq<Dimension> {
    seq![
        Dimension::Length,
        Dimension::Time,
        Dimension::Angle,
        Dimension::Mass,
        Dimension::Power,
    ]
}

/// The dimension encoded by a discriminant's leading digit group
/// (`discriminant / 10000`): 1 is Length, 2 Time, 3 Angle, 4 Mass, 5 Power;
/// every other code is rejected.
pub open spec fn spec_dimension_of_code(code: u32) -> Option<Dimension> {
    if code == 1 {
        Some(Dimension::Length)
    } else if code == 2 {
        Some(Dimension::Time)
    } else if code == 3 {
        Some(Dimension::Angle)
    } else if code == 4 {
        Some(Dimension::Mass)
    } else if code == 5 {
        Some(Dimension::Power)
    } else {
        None
    }
}

/// Map a discriminant's leading digit group to its dimension; `None` exactly
/// on the codes outside 1..=5.
pub fn dimension_of_code(code: u32) -> (r: Option<Dimension>)
    ensures
        r == spec_dimension_of_code(code),
        r is None <==> (code == 0 || code > 5),
{
    match code {
        1 => Some(Dimension::Length),
        2 => Some(Dimension::Time),
        3 => Some(Dimension::Angle),
        4 => Some(Dimension::Mass),
        5 => Some(Dimension::Power),
        _ => None,
    }
}

/// Map a full discriminant to its dimension: the known mapping of
/// `d / 10000`, `None` whenever that quotient falls outside 1..=5.
pub fn dimension_of_discriminant(d: u32) -> (r: Option<Dimension>)
    ensures
        r == spec_dimension_of_code(d / 10000),
        r is None <==> (d < 10000 || d >= 60000),
{
    dimension_of_code(d / 10000)
}

/// The display name of a dimension, as it appears in the table and in the
/// banner comments of the literals header.
pub open spec fn spec_dimension_name(d: Dimension) -> Seq<char> {
    match d {
        Dimension::Length => "Length"@,
        Dimension::Time => "Time"@,
        Dimension::Angle => "Angle"@,
        Dimension::Mass => "Mass"@,
        Dimension::Power => "Power"@,
    }
}

pub fn dimension_name(d: Dimension) -> (r: &'static str)
    ensures
        r@ == spec_dimension_name(d),
{
    match d {
        Dimension::Length => "Length",
        Dimension::Time => "Time",
        Dimension::Angle => "Angle",
        Dimension::Mass => "Mass",
        Dimension::Power => "Power",
    }
}

/// The fixed file name of a dimension's generated header.
pub open spec fn spec_dimension_file_name(d: Dimension) -> Seq<char> {
    match d {
        Dimension::Length => "length.hpp"@,
        Dimension::Time => "time.hpp"@,
        Dimension::Angle => "angular.hpp"@,
        Dimension::Mass => "mass.hpp"@,
        Dimension::Power => "power.hpp"@,
    }
}

pub fn dimension_file_name(d: Dimension) -> (r: &'static str)
    ensures
        r@ == spec_dimension_file_name(d),
{
    match d {
        Dimension::Length => "length.hpp",
        Dimension::Time => "time.hpp",
        Dimension::Angle => "angular.hpp",
        Dimension::Mass => "mass.hpp",
        Dimension::Power => "power.hpp",
    }
}

/// One accepted row of the unit table.
pub struct UnitRecord {
    /// Canonical PascalCase name, used verbatim as a type/tag name.
    pub name: String,
    /// UPPER_SNAKE_CASE form derived from `name`.
    pub constant_suffix: String,
    /// Free-form display symbol (may hold Unicode, `/`, spaces).
    pub symbol: String,
    /// The dimension decoded from the row's discriminant.
    pub dimension: Dimension,
}

/// The mathematical shadow of a `UnitRecord`: its strings as character
/// sequences.
pub ghost struct UnitView {
    pub name: Seq<char>,
    pub constant_suffix: Seq<char>,
    pub symbol: Seq<char>,
    pub dimension: Dimension,
}

impl View for UnitRecord {
    type V = UnitView;

    open spec fn view(&self) -> UnitView {
        UnitView {
            name: self.name@,
            constant_suffix: self.constant_suffix@,
            symbol: self.symbol@,
            dimension: self.dimension,
        }
    }
}

/// The views of a sequence of records.
pub open spec fn views_of(s: Seq<UnitRecord>) -> Seq<UnitView> {
    s.map_values(|r: UnitRecord| r@)
}

} // verus!
