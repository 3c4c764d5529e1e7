//! Degradations of benchmark queries: which there are, what they are called,
//! and which a run uses. Parameters are whole numbers of millionths.
use vstd::prelude::*;

use crate::ids::{decimal, decimal_digits, digit};
use crate::text::{chars_of, string_of};

verus! {

/// Kind of a filter.
#[derive(Debug, Clone, Copy, PartialEq, Eq, Structural)]
pub enum FilterKind {
    LowPass,
    HighPass,
}

/// Colour of a noise.
#[derive(Debug, Clone, Copy, PartialEq, Eq, Structural)]
pub enum NoiseColor {
    White,
    Pink,
}

/// One degradation of a query excerpt.
#[derive(Debug, Clone, Copy, PartialEq, Eq, Structural)]
pub enum Degradation {
    /// Nothing is done.
    Clean,
    Gain { db: i64 },
    Clip { threshold: i64 },
    WhiteNoise { snr_db: i64 },
    PinkNoise { snr_db: i64 },
    LowPass { cutoff_hz: i64 },
    HighPass { cutoff_hz: i64 },
    Echo { delay_s: i64, gain: i64 },
    Speed { factor: i64 },
    /// Pitch shift in semitones at constant tempo.
    PitchShift { semitones: i64 },
    /// Time stretch at constant pitch.
    TimeStretch { factor: i64 },
}

/// `n / unit` rounded to the nearest whole number, halves to the even one.
pub open spec fn rounded(n: nat, unit: nat) -> nat {
    let q = n / unit;
    let r = n % unit;
    if 2 * r > unit || (2 * r == unit && q % 2 == 1) {
        q + 1
    } else {
        q
    }
}

/// Magnitude of a value.
pub open spec fn magnitude(v: i64) -> nat {
    if v >= 0 {
        v as nat
    } else {
        (-v) as nat
    }
}

/// The sign in front of a number: a minus, and a plus where it is asked for.
pub open spec fn sign(v: i64, plus: bool) -> Seq<char> {
    if v < 0 {
        "-"@
    } else if plus {
        "+"@
    } else {
        ""@
    }
}

/// A value of millionths with no decimal place.
pub open spec fn places0(v: i64, plus: bool) -> Seq<char> {
    sign(v, plus) + decimal(rounded(magnitude(v), 1_000_000))
}

/// With one decimal place.
pub open spec fn places1(v: i64, plus: bool) -> Seq<char> {
    let n = rounded(magnitude(v), 100_000);
    sign(v, plus) + decimal(n / 10) + "."@ + seq![digit(n % 10)]
}

/// With two decimal places.
pub open spec fn places2(v: i64, plus: bool) -> Seq<char> {
    let n = rounded(magnitude(v), 10_000);
    sign(v, plus) + decimal(n / 100) + "."@ + seq![digit(n / 10 % 10), digit(n % 10)]
}

/// The name of a degradation in reports.
pub open spec fn id_of(d: Degradation) -> Seq<char> {
    match d {
        Degradation::Clean => "clean"@,
        Degradation::Gain { db } => "gain"@ + places0(db, true) + "db"@,
        Degradation::Clip { threshold } => "clip"@ + places2(threshold, false),
        Degradation::WhiteNoise { snr_db } => "white"@ + places0(snr_db, true) + "db"@,
        Degradation::PinkNoise { snr_db } => "pink"@ + places0(snr_db, true) + "db"@,
        Degradation::LowPass { cutoff_hz } => "lp"@ + places0(cutoff_hz, false),
        Degradation::HighPass { cutoff_hz } => "hp"@ + places0(cutoff_hz, false),
        Degradation::Echo { delay_s, gain } => "echo"@ + places2(delay_s, false) + "s@"@ + places1(
            gain,
            false,
        ),
        Degradation::Speed { factor } => "speed"@ + places2(factor, false),
        Degradation::PitchShift { semitones } => "pitch"@ + places1(semitones, true) + "st"@,
        Degradation::TimeStretch { factor } => "stretch"@ + places2(factor, false) + "x"@,
    }
}

fn magnitude_of(v: i64) -> (m: u64)
    ensures
        m == magnitude(v),
{
    if v >= 0 {
        v as u64
    } else {
        (-(v as i128)) as u64
    }
}

fn round_to(n: u64, unit: u64) -> (q: u64)
    requires
        1 < unit <= 1_000_000,
    ensures
        q == rounded(n as nat, unit as nat),
{
    let q: u64 = n / unit;
    let r: u64 = n % unit;
    assert(q < u64::MAX) by (nonlinear_arith)
        requires
            q == n / unit,
            unit > 1,
            n <= u64::MAX,
    ;
    if 2 * r > unit || (2 * r == unit && q % 2 == 1) {
        q + 1
    } else {
        q
    }
}

fn push_text(out: &mut Vec<char>, s: &str)
    ensures
        final(out)@ == old(out)@ + s@,
{
    let mut cs: Vec<char> = chars_of(s);
    out.append(&mut cs);
}

fn push_sign(out: &mut Vec<char>, v: i64, plus: bool)
    ensures
        final(out)@ == old(out)@ + sign(v, plus),
{
    if v < 0 {
        push_text(out, "-");
    } else if plus {
        push_text(out, "+");
    } else {
        push_text(out, "");
    }
}

fn push_digit(out: &mut Vec<char>, d: u64)
    requires
        d < 10,
    ensures
        final(out)@ == old(out)@.push(digit(d as nat)),
{
    let code: u8 = 48 + d as u8;
    out.push(code as char);
}

fn push_places0(out: &mut Vec<char>, v: i64, plus: bool)
    ensures
        final(out)@ == old(out)@ + places0(v, plus),
{
    let ghost start = out@;
    push_sign(out, v, plus);
    let mut digits: Vec<char> = decimal_digits(round_to(magnitude_of(v), 1_000_000));
    out.append(&mut digits);
    assert(out@ =~= start + places0(v, plus));
}

fn push_places1(out: &mut Vec<char>, v: i64, plus: bool)
    ensures
        final(out)@ == old(out)@ + places1(v, plus),
{
    let ghost start = out@;
    push_sign(out, v, plus);
    let n: u64 = round_to(magnitude_of(v), 100_000);
    let mut digits: Vec<char> = decimal_digits(n / 10);
    out.append(&mut digits);
    push_text(out, ".");
    push_digit(out, n % 10);
    assert(out@ =~= start + places1(v, plus));
}

fn push_places2(out: &mut Vec<char>, v: i64, plus: bool)
    ensures
        final(out)@ == old(out)@ + places2(v, plus),
{
    let ghost start = out@;
    push_sign(out, v, plus);
    let n: u64 = round_to(magnitude_of(v), 10_000);
    let mut digits: Vec<char> = decimal_digits(n / 100);
    out.append(&mut digits);
    push_text(out, ".");
    push_digit(out, n / 10 % 10);
    push_digit(out, n % 10);
    assert(out@ =~= start + places2(v, plus));
}

impl Degradation {
    /// Short stable name for reports.
    pub fn id(&self) -> (s: String)
        ensures
            s@ == id_of(*self),
    {
        let mut cs: Vec<char> = Vec::new();
        match self {
            Degradation::Clean => {
                push_text(&mut cs, "clean");
            },
            Degradation::Gain { db } => {
                push_text(&mut cs, "gain");
                push_places0(&mut cs, *db, true);
                push_text(&mut cs, "db");
            },
            Degradation::Clip { threshold } => {
                push_text(&mut cs, "clip");
                push_places2(&mut cs, *threshold, false);
            },
            Degradation::WhiteNoise { snr_db } => {
                push_text(&mut cs, "white");
                push_places0(&mut cs, *snr_db, true);
                push_text(&mut cs, "db");
            },
            Degradation::PinkNoise { snr_db } => {
                push_text(&mut cs, "pink");
                push_places0(&mut cs, *snr_db, true);
                push_text(&mut cs, "db");
            },
            Degradation::LowPass { cutoff_hz } => {
                push_text(&mut cs, "lp");
                push_places0(&mut cs, *cutoff_hz, false);
            },
            Degradation::HighPass { cutoff_hz } => {
                push_text(&mut cs, "hp");
                push_places0(&mut cs, *cutoff_hz, false);
            },
            Degradation::Echo { delay_s, gain } => {
                push_text(&mut cs, "echo");
                push_places2(&mut cs, *delay_s, false);
                push_text(&mut cs, "s@");
                push_places1(&mut cs, *gain, false);
            },
            Degradation::Speed { factor } => {
                push_text(&mut cs, "speed");
                push_places2(&mut cs, *factor, false);
            },
            Degradation::PitchShift { semitones } => {
                push_text(&mut cs, "pitch");
                push_places1(&mut cs, *semitones, true);
                push_text(&mut cs, "st");
            },
            Degradation::TimeStretch { factor } => {
                push_text(&mut cs, "stretch");
                push_places2(&mut cs, *factor, false);
                push_text(&mut cs, "x");
            },
        }
        assert(cs@ =~= id_of(*self));
        string_of(&cs)
    }
}

/// What every grid ends with.
pub open spec fn closing_degradations() -> Seq<Degradation> {
    seq![
        Degradation::LowPass { cutoff_hz: 3_000_000_000 },
        Degradation::HighPass { cutoff_hz: 150_000_000 },
        Degradation::Clip { threshold: 300_000 },
        Degradation::Echo { delay_s: 150_000, gain: 400_000 },
    ]
}

fn push_closing(out: &mut Vec<Degradation>)
    ensures
        final(out)@ == old(out)@ + closing_degradations(),
{
    let ghost start = out@;
    out.push(Degradation::LowPass { cutoff_hz: 3_000_000_000 });
    out.push(Degradation::HighPass { cutoff_hz: 150_000_000 });
    out.push(Degradation::Clip { threshold: 300_000 });
    out.push(Degradation::Echo { delay_s: 150_000, gain: 400_000 });
    assert(out@ =~= start + closing_degradations());
}

/// The grid of a run without choices of its own.
pub open spec fn default_degradations() -> Seq<Degradation> {
    seq![
        Degradation::Clean,
        Degradation::WhiteNoise { snr_db: 20_000_000 },
        Degradation::WhiteNoise { snr_db: 10_000_000 },
        Degradation::PinkNoise { snr_db: 10_000_000 },
        Degradation::Speed { factor: 900_000 },
        Degradation::Speed { factor: 1_050_000 },
    ] + closing_degradations()
}

/// The grid of a run without choices of its own.
pub fn default_grid() -> (out: Vec<Degradation>)
    ensures
        out@ == default_degradations(),
{
    let mut out: Vec<Degradation> = Vec::new();
    out.push(Degradation::Clean);
    out.push(Degradation::WhiteNoise { snr_db: 20_000_000 });
    out.push(Degradation::WhiteNoise { snr_db: 10_000_000 });
    out.push(Degradation::PinkNoise { snr_db: 10_000_000 });
    out.push(Degradation::Speed { factor: 900_000 });
    out.push(Degradation::Speed { factor: 1_050_000 });
    push_closing(&mut out);
    assert(out@ =~= default_degradations());
    out
}

/// The degradations of the lever runs: those that triplets are made for,
/// with a clean and a noisy reference.
pub fn lever_grid() -> (out: Vec<Degradation>)
    ensures
        out@ == seq![
            Degradation::Clean,
            Degradation::PinkNoise { snr_db: 10_000_000 },
            Degradation::Speed { factor: 900_000 },
            Degradation::PitchShift { semitones: 2_000_000 },
            Degradation::TimeStretch { factor: 1_100_000 },
        ],
{
    let mut out: Vec<Degradation> = Vec::new();
    out.push(Degradation::Clean);
    out.push(Degradation::PinkNoise { snr_db: 10_000_000 });
    out.push(Degradation::Speed { factor: 900_000 });
    out.push(Degradation::PitchShift { semitones: 2_000_000 });
    out.push(Degradation::TimeStretch { factor: 1_100_000 });
    assert(out@ =~= seq![
        Degradation::Clean,
        Degradation::PinkNoise { snr_db: 10_000_000 },
        Degradation::Speed { factor: 900_000 },
        Degradation::PitchShift { semitones: 2_000_000 },
        Degradation::TimeStretch { factor: 1_100_000 },
    ]);
    out
}

pub open spec fn white_noises(snr: Seq<i64>) -> Seq<Degradation> {
    snr.map_values(|v: i64| Degradation::WhiteNoise { snr_db: v })
}

pub open spec fn pitch_shifts(pitch: Seq<i64>) -> Seq<Degradation> {
    pitch.map_values(|v: i64| Degradation::PitchShift { semitones: v })
}

/// Speeds that are positive.
pub open spec fn speeds_in(speeds: Seq<i64>) -> Seq<Degradation> {
    speeds.filter(|v: i64| v > 0).map_values(|v: i64| Degradation::Speed { factor: v })
}

/// Stretches that are positive.
pub open spec fn stretches_in(stretches: Seq<i64>) -> Seq<Degradation> {
    stretches.filter(|v: i64| v > 0).map_values(|v: i64| Degradation::TimeStretch { factor: v })
}

/// The grid of a run with the given choices: clean always comes first, and
/// factors that are not positive are passed over.
pub fn chosen_grid(snr: &Vec<i64>, speeds: &Vec<i64>, pitch: &Vec<i64>, stretch: &Vec<i64>) -> (out:
    Vec<Degradation>)
    ensures
        out@ == seq![Degradation::Clean] + white_noises(snr@) + seq![
            Degradation::PinkNoise { snr_db: 10_000_000 },
        ] + speeds_in(speeds@) + pitch_shifts(pitch@) + stretches_in(stretch@)
            + closing_degradations(),
{
    let mut out: Vec<Degradation> = Vec::new();
    out.push(Degradation::Clean);
    let ghost a = out@;
    let mut i: usize = 0;
    while i < snr.len()
        invariant
            i <= snr.len(),
            out@ == a + white_noises(snr@).take(i as int),
        decreases snr.len() - i,
    {
        out.push(Degradation::WhiteNoise { snr_db: snr[i] });
        i = i + 1;
        assert(out@ =~= a + white_noises(snr@).take(i as int));
    }
    assert(white_noises(snr@).take(i as int) =~= white_noises(snr@));
    out.push(Degradation::PinkNoise { snr_db: 10_000_000 });
    let ghost b = out@;
    let mut i: usize = 0;
    proof {
        reveal(Seq::filter);
        assert(speeds@.take(0) =~= Seq::<i64>::empty());
        assert(out@ =~= b + speeds_in(speeds@.take(0)));
    }
    while i < speeds.len()
        invariant
            i <= speeds.len(),
            out@ == b + speeds_in(speeds@.take(i as int)),
        decreases speeds.len() - i,
    {
        proof {
            reveal(Seq::filter);
            assert(speeds@.take(i + 1).drop_last() =~= speeds@.take(i as int));
        }
        if speeds[i] > 0 {
            out.push(Degradation::Speed { factor: speeds[i] });
        }
        i = i + 1;
        assert(out@ =~= b + speeds_in(speeds@.take(i as int)));
    }
    assert(speeds@.take(i as int) =~= speeds@);
    let ghost c = out@;
    let mut i: usize = 0;
    while i < pitch.len()
        invariant
            i <= pitch.len(),
            out@ == c + pitch_shifts(pitch@).take(i as int),
        decreases pitch.len() - i,
    {
        out.push(Degradation::PitchShift { semitones: pitch[i] });
        i = i + 1;
        assert(out@ =~= c + pitch_shifts(pitch@).take(i as int));
    }
    assert(pitch_shifts(pitch@).take(i as int) =~= pitch_shifts(pitch@));
    let ghost d = out@;
    let mut i: usize = 0;
    proof {
        reveal(Seq::filter);
        assert(stretch@.take(0) =~= Seq::<i64>::empty());
        assert(out@ =~= d + stretches_in(stretch@.take(0)));
    }
    while i < stretch.len()
        invariant
            i <= stretch.len(),
            out@ == d + stretches_in(stretch@.take(i as int)),
        decreases stretch.len() - i,
    {
        proof {
            reveal(Seq::filter);
            assert(stretch@.take(i + 1).drop_last() =~= stretch@.take(i as int));
        }
        if stretch[i] > 0 {
            out.push(Degradation::TimeStretch { factor: stretch[i] });
        }
        i = i + 1;
        assert(out@ =~= d + stretches_in(stretch@.take(i as int)));
    }
    assert(stretch@.take(i as int) =~= stretch@);
    push_closing(&mut out);
    assert(out@ =~= seq![Degradation::Clean] + white_noises(snr@) + seq![
        Degradation::PinkNoise { snr_db: 10_000_000 },
    ] + speeds_in(speeds@) + pitch_shifts(pitch@) + stretches_in(stretch@)
        + closing_degradations());
    out
}

// ---- laws ----

/// Rounding goes to the nearest whole number of units, and halfway to the
/// even one.
pub proof fn law_rounding_is_to_the_nearest(n: nat, unit: nat)
    requires
        unit > 0,
    ensures
        2 * n <= 2 * (rounded(n, unit) * unit) + unit,
        2 * (rounded(n, unit) * unit) <= 2 * n + unit,
        2 * n == 2 * (rounded(n, unit) * unit) + unit || 2 * (rounded(n, unit) * unit) == 2 * n
            + unit ==> rounded(n, unit) % 2 == 0,
{
    let (q, r) = (n as int / unit as int, n as int % unit as int);
    vstd::arithmetic::div_mod::lemma_fundamental_div_mod(n as int, unit as int);
    vstd::arithmetic::div_mod::lemma_mod_bound(n as int, unit as int);
    assert(unit * q == q * unit) by (nonlinear_arith);
    assert((q + 1) * unit == q * unit + unit) by (nonlinear_arith);
}

/// How a value of millionths is written: a minus where it is negative, a plus
/// where one is wanted and it is not, and its magnitude to the nearest whole,
/// tenth or hundredth.
pub proof fn law_values_are_written_with_their_places(v: i64, plus: bool)
    ensures
        ({
            let mark = if v < 0 {
                seq!['-']
            } else if plus {
                seq!['+']
            } else {
                Seq::empty()
            };
            let size = if v < 0 {
                (-v) as nat
            } else {
                v as nat
            };
            let (ones, tenths, cents) = (
                rounded(size, 1_000_000),
                rounded(size, 100_000),
                rounded(size, 10_000),
            );
            &&& places0(v, plus) == mark + decimal(ones)
            &&& places1(v, plus) == mark + decimal(tenths / 10) + seq![
                '.',
                (48 + tenths % 10) as char,
            ]
            &&& places2(v, plus) == mark + decimal(cents / 100) + seq![
                '.',
                (48 + cents / 10 % 10) as char,
                (48 + cents % 10) as char,
            ]
        }),
{
    reveal_strlit("-");
    reveal_strlit("+");
    reveal_strlit("");
    reveal_strlit(".");
    let mark = if v < 0 {
        seq!['-']
    } else if plus {
        seq!['+']
    } else {
        Seq::empty()
    };
    assert(sign(v, plus) =~= mark);
    let tenths = rounded(magnitude(v), 100_000);
    let cents = rounded(magnitude(v), 10_000);
    assert(places1(v, plus) =~= mark + decimal(tenths / 10) + seq![
        '.',
        (48 + tenths % 10) as char,
    ]);
    assert(places2(v, plus) =~= mark + decimal(cents / 100) + seq![
        '.',
        (48 + cents / 10 % 10) as char,
        (48 + cents % 10) as char,
    ]);
}

/// The names of degradations in reports.
pub proof fn law_degradations_have_stable_names(x: i64, y: i64)
    ensures
        id_of(Degradation::Clean) == "clean"@,
        id_of(Degradation::Gain { db: x }) == "gain"@ + places0(x, true) + "db"@,
        id_of(Degradation::Clip { threshold: x }) == "clip"@ + places2(x, false),
        id_of(Degradation::WhiteNoise { snr_db: x }) == "white"@ + places0(x, true) + "db"@,
        id_of(Degradation::PinkNoise { snr_db: x }) == "pink"@ + places0(x, true) + "db"@,
        id_of(Degradation::LowPass { cutoff_hz: x }) == "lp"@ + places0(x, false),
        id_of(Degradation::HighPass { cutoff_hz: x }) == "hp"@ + places0(x, false),
        id_of(Degradation::Echo { delay_s: x, gain: y }) == "echo"@ + places2(x, false) + "s@"@
            + places1(y, false),
        id_of(Degradation::Speed { factor: x }) == "speed"@ + places2(x, false),
        id_of(Degradation::PitchShift { semitones: x }) == "pitch"@ + places1(x, true) + "st"@,
        id_of(Degradation::TimeStretch { factor: x }) == "stretch"@ + places2(x, false) + "x"@,
{
}

/// The degradations of a run without choices: ten of them, clean first.
pub proof fn law_default_grid()
    ensures
        default_degradations().len() == 10,
        default_degradations()[0] == Degradation::Clean,
        default_degradations()[1] == (Degradation::WhiteNoise { snr_db: 20_000_000 }),
        default_degradations()[2] == (Degradation::WhiteNoise { snr_db: 10_000_000 }),
        default_degradations()[3] == (Degradation::PinkNoise { snr_db: 10_000_000 }),
        default_degradations()[4] == (Degradation::Speed { factor: 900_000 }),
        default_degradations()[5] == (Degradation::Speed { factor: 1_050_000 }),
        default_degradations()[6] == (Degradation::LowPass { cutoff_hz: 3_000_000_000 }),
        default_degradations()[7] == (Degradation::HighPass { cutoff_hz: 150_000_000 }),
        default_degradations()[8] == (Degradation::Clip { threshold: 300_000 }),
        default_degradations()[9] == (Degradation::Echo { delay_s: 150_000, gain: 400_000 }),
        closing_degradations() == default_degradations().skip(6),
{
    assert(closing_degradations() =~= default_degradations().skip(6));
}

/// Choices become degradations one by one, in their order; speeds and
/// stretches that are not positive are passed over.
pub proof fn law_choices_become_degradations(values: Seq<i64>, i: int)
    requires
        0 <= i < values.len(),
    ensures
        white_noises(values).len() == values.len(),
        white_noises(values)[i] == (Degradation::WhiteNoise { snr_db: values[i] }),
        pitch_shifts(values).len() == values.len(),
        pitch_shifts(values)[i] == (Degradation::PitchShift { semitones: values[i] }),
        values[i] > 0 ==> speeds_in(values).contains(Degradation::Speed { factor: values[i] }),
        values[i] > 0 ==> stretches_in(values).contains(
            Degradation::TimeStretch { factor: values[i] },
        ),
        speeds_in(values).len() == values.filter(|v: i64| 0 < v).len(),
        stretches_in(values).len() == values.filter(|v: i64| 0 < v).len(),
        forall|k: int|
            0 <= k < speeds_in(values).len() ==> (#[trigger] speeds_in(values)[k])
                == (Degradation::Speed { factor: values.filter(|v: i64| 0 < v)[k] }),
        forall|k: int|
            0 <= k < stretches_in(values).len() ==> (#[trigger] stretches_in(values)[k])
                == (Degradation::TimeStretch { factor: values.filter(|v: i64| 0 < v)[k] }),
{
    let p = |v: i64| v > 0;
    let q = |v: i64| 0 < v;
    assert(p =~= q);
    let kept = values.filter(p);
    if values[i] > 0 {
        values.lemma_filter_contains(p, i);
        let k = kept.index_of(values[i]);
        assert(speeds_in(values)[k] == (Degradation::Speed { factor: values[i] }));
        assert(stretches_in(values)[k] == (Degradation::TimeStretch { factor: values[i] }));
    }
}

} // verus!
