use vstd::prelude::*;

verus! {

/// Common forecast frequencies.
#[derive(Clone, Debug, PartialEq, Eq)]
pub enum Frequency {
    Minutely,
    Hourly,
    Daily,
    Weekly,
    Monthly,
    Quarterly,
    Yearly,
    Custom(String),
}

/// The compact schema code of a frequency.
pub open spec fn frequency_code(frequency: Frequency) -> Seq<char> {
    match frequency {
        Frequency::Minutely => seq!['T'],
        Frequency::Hourly => seq!['H'],
        Frequency::Daily => seq!['D'],
        Frequency::Weekly => seq!['W'],
        Frequency::Monthly => seq!['M'],
        Frequency::Quarterly => seq!['Q'],
        Frequency::Yearly => seq!['Y'],
        Frequency::Custom(code) => code@,
    }
}

impl Frequency {
    /// Returns a compact schema code suitable for API responses.
    pub fn code(&self) -> (code: &str)
        ensures
            code@ == frequency_code(*self),
    {
        match self {
            Frequency::Minutely => {
                proof { reveal_strlit("T"); }
                "T"
            },
            Frequency::Hourly => {
                proof { reveal_strlit("H"); }
                "H"
            },
            Frequency::Daily => {
                proof { reveal_strlit("D"); }
                "D"
            },
            Frequency::Weekly => {
                proof { reveal_strlit("W"); }
                "W"
            },
            Frequency::Monthly => {
                proof { reveal_strlit("M"); }
                "M"
            },
            Frequency::Quarterly => {
                proof { reveal_strlit("Q"); }
                "Q"
            },
            Frequency::Yearly => {
                proof { reveal_strlit("Y"); }
                "Y"
            },
            Frequency::Custom(code) => code.as_str(),
        }
    }
}

impl Default for Frequency {
    fn default() -> (frequency: Self)
        ensures
            frequency == Frequency::Daily,
    {
        Frequency::Daily
    }
}

/// The seasonal period, in steps, assumed for a frequency.
pub open spec fn seasonal_period_of(frequency: Frequency) -> Option<usize> {
    match frequency {
        Frequency::Hourly => Some(24usize),
        Frequency::Daily => Some(7usize),
        Frequency::Weekly => Some(52usize),
        Frequency::Monthly => Some(12usize),
        _ => None,
    }
}

/// The seasonal period used by the statistical baseline: a day of hours, a week of days, a year of
/// weeks or of months; none for other frequencies.
pub fn seasonal_period(frequency: &Frequency) -> (period: Option<usize>)
    ensures
        period == seasonal_period_of(*frequency),
{
    match frequency {
        Frequency::Hourly => Some(24),
        Frequency::Daily => Some(7),
        Frequency::Weekly => Some(52),
        Frequency::Monthly => Some(12),
        _ => None,
    }
}

/// Boolean observation mask where `true` means the value is observed.
#[derive(Clone, Debug, Default)]
pub struct ObservationMask {
    pub observed: Vec<bool>,
}

} // verus!
