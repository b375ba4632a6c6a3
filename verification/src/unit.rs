//! The measurement unit a vocabulary dimension may carry: one of the
//! well-known names, or an absolute URL naming a unit elsewhere.

use vstd::prelude::*;

use crate::error::DecodeError;
use crate::error::DecodeErrorView;
use crate::iri::parse_url;
use crate::iri::url_normalized;

verus! {

/// A measurement unit: a well-known name, or a URL.
#[derive(Debug, Clone, PartialEq, Eq)]
pub enum Unit {
    Cm,
    Feet,
    Inches,
    Km,
    M,
    Miles,
    Uri(String),
}

/// Model of a unit.
#[verifier::ext_equal]
pub enum UnitView {
    Cm,
    Feet,
    Inches,
    Km,
    M,
    Miles,
    Uri(Seq<char>),
}

/// Model of a unit.
pub open spec fn unit_view(u: Unit) -> UnitView {
    match u {
        Unit::Cm => UnitView::Cm,
        Unit::Feet => UnitView::Feet,
        Unit::Inches => UnitView::Inches,
        Unit::Km => UnitView::Km,
        Unit::M => UnitView::M,
        Unit::Miles => UnitView::Miles,
        Unit::Uri(s) => UnitView::Uri(s@),
    }
}

impl View for Unit {
    type V = UnitView;

    open spec fn view(&self) -> UnitView {
        unit_view(*self)
    }
}

impl Default for Unit {
    /// Meters, as the vocabulary's default.
    fn default() -> (r: Self)
        ensures
            r == Unit::M,
    {
        Unit::M
    }
}

/// What a text names: a well-known unit, a normalized URL, or nothing.
pub open spec fn spec_unit_from(s: Seq<char>) -> Option<UnitView> {
    if s == "cm"@ {
        Some(UnitView::Cm)
    } else if s == "feet"@ {
        Some(UnitView::Feet)
    } else if s == "inches"@ {
        Some(UnitView::Inches)
    } else if s == "km"@ {
        Some(UnitView::Km)
    } else if s == "m"@ {
        Some(UnitView::M)
    } else if s == "miles"@ {
        Some(UnitView::Miles)
    } else {
        match url_normalized(s) {
            Some(u) => Some(UnitView::Uri(u)),
            None => None,
        }
    }
}

/// The text a unit renders to.
pub open spec fn spec_unit_text(u: UnitView) -> Seq<char> {
    match u {
        UnitView::Cm => "cm"@,
        UnitView::Feet => "feet"@,
        UnitView::Inches => "inches"@,
        UnitView::Km => "km"@,
        UnitView::M => "m"@,
        UnitView::Miles => "miles"@,
        UnitView::Uri(s) => s,
    }
}

impl Unit {
    /// Reads a unit: one of the well-known names, else an absolute URL;
    /// any other text is a malformed scalar.
    pub fn from_text(s: &String) -> (r: Result<Unit, DecodeError>)
        ensures
            match r {
                Ok(u) => spec_unit_from(s@) == Some(u@),
                Err(e) => spec_unit_from(s@) is None && e@ == DecodeErrorView::MalformedScalar(
                    s@,
                ),
            },
    {
        if s.eq(&String::from_str("cm")) {
            Ok(Unit::Cm)
        } else if s.eq(&String::from_str("feet")) {
            Ok(Unit::Feet)
        } else if s.eq(&String::from_str("inches")) {
            Ok(Unit::Inches)
        } else if s.eq(&String::from_str("km")) {
            Ok(Unit::Km)
        } else if s.eq(&String::from_str("m")) {
            Ok(Unit::M)
        } else if s.eq(&String::from_str("miles")) {
            Ok(Unit::Miles)
        } else {
            match parse_url(s.as_str()) {
                Some(u) => Ok(Unit::Uri(u)),
                None => Err(DecodeError::MalformedScalar(s.clone())),
            }
        }
    }

    /// Renders the unit back to text.
    pub fn to_text(&self) -> (r: String)
        ensures
            r@ == spec_unit_text(self@),
    {
        match self {
            Unit::Cm => String::from_str("cm"),
            Unit::Feet => String::from_str("feet"),
            Unit::Inches => String::from_str("inches"),
            Unit::Km => String::from_str("km"),
            Unit::M => String::from_str("m"),
            Unit::Miles => String::from_str("miles"),
            Unit::Uri(s) => s.clone(),
        }
    }
}

/// Whether a text is one of the well-known unit names.
pub open spec fn known_unit_name(s: Seq<char>) -> bool {
    s == "cm"@ || s == "feet"@ || s == "inches"@ || s == "km"@ || s == "m"@ || s == "miles"@
}

/// Round trip: a well-known unit reads back from its own text, and so
/// does a URL unit whose identifier is normalized and not itself one of
/// the well-known names.
pub proof fn lemma_unit_round_trip(u: UnitView)
    requires
        u matches UnitView::Uri(s) ==> crate::iri::normalized_iri(s) && !known_unit_name(s),
    ensures
        spec_unit_from(spec_unit_text(u)) == Some(u),
{
    reveal_strlit("cm");
    reveal_strlit("feet");
    reveal_strlit("inches");
    reveal_strlit("km");
    reveal_strlit("m");
    reveal_strlit("miles");
    assert("cm"@.len() == 2);
    assert("feet"@.len() == 4);
    assert("inches"@.len() == 6);
    assert("km"@.len() == 2);
    assert("m"@.len() == 1);
    assert("miles"@.len() == 5);
    assert("cm"@ != "km"@) by {
        assert("cm"@[0] == 'c' && "km"@[0] == 'k');
    }
}

} // verus!
