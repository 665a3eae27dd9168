//! Byte counts shown with a binary unit, as in "1.5 KiB" or "12 MiB".
use vstd::prelude::*;

verus! {

/// Number of units: B, KiB, MiB, GiB, TiB, PiB.
pub const UNIT_COUNT: usize = 6;

/// `1024` to the power `n`.
pub open spec fn pow1024(n: nat) -> nat
    decreases n,
{
    if n == 0 {
        1
    } else {
        1024 * pow1024((n - 1) as nat)
    }
}

/// The unit that `x` bytes are shown in, counting from bytes: divide by
/// 1024 while the value is at least 1024 and a larger unit is left.
pub open spec fn unit_order(x: nat, order: nat) -> nat
    decreases 5 - order,
{
    if order < 5 && x / pow1024(order) >= 1024 {
        unit_order(x, order + 1)
    } else {
        order
    }
}

/// A byte count to be shown with a unit.
#[derive(Clone, Copy, Debug, PartialEq, Eq, Structural)]
pub struct FormatSize(pub u64);

/// How a byte count is shown: the whole number of units, the tenths digit
/// when that number is below ten, and the unit's index.
pub struct SizeParts {
    pub value: u64,
    pub tenths: Option<u64>,
    pub unit: usize,
}

impl FormatSize {
    /// The byte count.
    pub fn value(&self) -> (r: u64)
        ensures
            r == self.0,
    {
        self.0
    }

    /// The parts that the count is shown with: `value` units of index
    /// `unit`, and one decimal digit `tenths` when `value` is below ten.
    pub fn parts(&self) -> (r: SizeParts)
        ensures
            r.unit == unit_order(self.0 as nat, 0),
            r.unit < UNIT_COUNT,
            r.value == self.0 as nat / pow1024(r.unit as nat),
            r.value >= 10 ==> r.tenths is None,
            r.value < 10 ==> r.tenths == Some(((self.0 as nat * 10) / pow1024(r.unit as nat) % 10) as u64),
    {
        let x = self.0;
        let mut value: u64 = x;
        let mut order: usize = 0;
        proof {
            lemma_pow1024_pos(0);
            lemma_pow1024_mono(0, 5);
            assert(pow1024(0) == 1) by {
                reveal_with_fuel(pow1024, 1);
            }
        }
        while value >= 1024 && order + 1 < UNIT_COUNT
            invariant
                order <= 5,
                value == x as nat / pow1024(order as nat),
                unit_order(x as nat, 0) == unit_order(x as nat, order as nat),
                pow1024(order as nat) > 0,
                pow1024(order as nat) <= pow1024(5),
            decreases 5 - order,
        {
            proof {
                vstd::arithmetic::div_mod::lemma_div_denominator(x as int, pow1024(order as nat) as int, 1024);
                assert(pow1024((order + 1) as nat) == 1024 * pow1024(order as nat));
                assert(pow1024(order as nat) * 1024 == 1024 * pow1024(order as nat)) by (nonlinear_arith);
                lemma_pow1024_mono(order as nat + 1, 5);
            }
            value = value / 1024;
            order = order + 1;
        }
        if value >= 10 {
            SizeParts { value, tenths: None, unit: order }
        } else {
            proof {
                let p = pow1024(order as nat) as int;
                vstd::arithmetic::div_mod::lemma_fundamental_div_mod(x as int, p);
                vstd::arithmetic::div_mod::lemma_mod_bound(x as int, p);
                lemma_pow1024_5();
                assert(x as int * 10 < 100 * p) by (nonlinear_arith)
                    requires x as int == p * (x as int / p) + x as int % p, x as int / p < 10, 0 <= x as int % p < p, p > 0;
                assert(100 * p <= 100 * 1125899906842624) by (nonlinear_arith)
                    requires p <= 1125899906842624;
            }
            let d = p1024(order);
            let tenths = (x * 10 / d) % 10;
            SizeParts { value, tenths: Some(tenths), unit: order }
        }
    }
}

/// `1024` to the power `n`, for the units that exist.
fn p1024(n: usize) -> (r: u64)
    requires
        n <= 5,
    ensures
        r == pow1024(n as nat),
{
    let mut r: u64 = 1;
    let mut i: usize = 0;
    proof {
        lemma_pow1024_mono(0, 5);
        assert(pow1024(0) == 1) by {
            reveal_with_fuel(pow1024, 1);
        }
    }
    while i < n
        invariant
            i <= n <= 5,
            r == pow1024(i as nat),
            pow1024(i as nat) <= pow1024(5),
        decreases n - i,
    {
        proof {
            lemma_pow1024_mono(i as nat + 1, 5);
            lemma_pow1024_5();
        }
        r = r * 1024;
        i = i + 1;
    }
    r
}

/// The name of unit `unit`.
pub open spec fn unit_str(unit: usize) -> Seq<char> {
    if unit == 0 {
        seq!['B']
    } else if unit == 1 {
        seq!['K', 'i', 'B']
    } else if unit == 2 {
        seq!['M', 'i', 'B']
    } else if unit == 3 {
        seq!['G', 'i', 'B']
    } else if unit == 4 {
        seq!['T', 'i', 'B']
    } else {
        seq!['P', 'i', 'B']
    }
}

/// The name of unit `unit`.
pub fn unit_name(unit: usize) -> (r: &'static str)
    requires
        unit < UNIT_COUNT,
    ensures
        r@ == unit_str(unit),
{
    proof {
        reveal_strlit("B");
        reveal_strlit("KiB");
        reveal_strlit("MiB");
        reveal_strlit("GiB");
        reveal_strlit("TiB");
        reveal_strlit("PiB");
    }
    match unit {
        0 => "B",
        1 => "KiB",
        2 => "MiB",
        3 => "GiB",
        4 => "TiB",
        _ => "PiB",
    }
}

proof fn lemma_pow1024_5()
    ensures
        pow1024(5) == 1125899906842624,
{
    reveal_with_fuel(pow1024, 6);
}

proof fn lemma_pow1024_pos(n: nat)
    ensures
        pow1024(n) > 0,
    decreases n,
{
    if n > 0 {
        lemma_pow1024_pos((n - 1) as nat);
    }
}

proof fn lemma_pow1024_mono(a: nat, b: nat)
    requires
        a <= b,
    ensures
        pow1024(a) <= pow1024(b),
    decreases b - a,
{
    if a < b {
        lemma_pow1024_mono(a, (b - 1) as nat);
        lemma_pow1024_pos((b - 1) as nat);
    }
}

} // verus!
