use vstd::prelude::*;

verus! {

/// A scalar carried in fixed-point form: `micros` counts millionths of a
/// unit, so `Fixed { micros: 500_000 }` stands for one half. All engine
/// arithmetic on these values is exact integer arithmetic; divisions round
/// toward zero, so a computed value is within one millionth of the real
/// quotient.
#[derive(Clone, Copy, Debug, PartialEq, Eq, Structural)]
pub struct Fixed {
    pub micros: i32,
}

impl Fixed {
    /// The mathematical value of this scalar, in millionths.
    pub open spec fn as_int(self) -> int {
        self.micros as int
    }

    /// Builds the scalar worth `micros` millionths of a unit.
    pub fn from_micros(micros: i32) -> (r: Fixed)
        ensures
            r.micros == micros,
    {
        Fixed { micros }
    }

    /// The value of this scalar in millionths of a unit.
    pub fn micros(&self) -> (r: i32)
        ensures
            r == self.micros,
    {
        self.micros
    }
}

/// Integer division rounded toward zero, for a positive divisor.
pub open spec fn div_trunc(n: int, d: int) -> int
    recommends
        d > 0,
{
    if n >= 0 {
        n / d
    } else {
        -((-n) / d)
    }
}

} // verus!
