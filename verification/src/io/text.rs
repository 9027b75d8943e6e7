//! The motion log written out as G-code text.

use crate::geo::SCALE;
use crate::io::gcode_generator::Command;
use vstd::prelude::*;
use vstd::string::*;

verus! {

/// The character of one decimal digit.
pub open spec fn digit_text(d: int) -> Seq<char> {
    if d == 0 {
        "0"@
    } else if d == 1 {
        "1"@
    } else if d == 2 {
        "2"@
    } else if d == 3 {
        "3"@
    } else if d == 4 {
        "4"@
    } else if d == 5 {
        "5"@
    } else if d == 6 {
        "6"@
    } else if d == 7 {
        "7"@
    } else if d == 8 {
        "8"@
    } else {
        "9"@
    }
}

/// The decimal digits of a natural number, without leading zeros.
pub open spec fn digits(n: nat) -> Seq<char>
    decreases n,
{
    if n < 10 {
        digit_text(n as int)
    } else {
        digits(n / 10) + digit_text((n % 10) as int)
    }
}

/// The decimal places of `f` parts of ten times `unit`, without trailing zeros.
pub open spec fn fraction(f: nat, unit: nat) -> Seq<char>
    decreases unit,
{
    if f == 0 || unit == 0 {
        Seq::empty()
    } else {
        digit_text((f / unit) as int) + fraction(f % unit, unit / 10)
    }
}

/// The magnitude of an integer.
pub open spec fn size(v: int) -> nat {
    if v < 0 {
        (-v) as nat
    } else {
        v as nat
    }
}

/// A number of grid steps written in working units: a minus sign if negative, the whole
/// units, and the decimal places there are, if any, behind a point.
pub open spec fn decimal(v: int) -> Seq<char> {
    let whole = size(v) / (SCALE as nat);
    let part = size(v) % (SCALE as nat);
    (if v < 0 {
        "-"@
    } else {
        Seq::empty()
    }) + digits(whole) + (if part == 0 {
        Seq::empty()
    } else {
        "."@ + fraction(part, (SCALE / 10) as nat)
    })
}

/// The line of G-code for one command of the log.
pub open spec fn command_text(c: Command) -> Seq<char> {
    match c {
        Command::Absolute => "G90"@,
        Command::Feed(f) => "F"@ + decimal(f as int),
        Command::Speed(s) => "S"@ + decimal(s as int),
        Command::RapidZ(z) => "G0 Z"@ + decimal(z as int),
        Command::RapidXY { x, y } => "G0 X"@ + decimal(x as int) + " Y"@ + decimal(y as int),
        Command::SpindleCw => "M3"@,
        Command::SpindleCcw => "M4"@,
        Command::SpindleOff => "M5"@,
        Command::LinearZ(z) => "G1 Z"@ + decimal(z as int),
        Command::LinearXY { x, y } => "G1 X"@ + decimal(x as int) + " Y"@ + decimal(y as int),
        Command::PlaneXY => "G17"@,
        Command::HelixCcw { x, y, z, i, j, turns } => "G3 X"@ + decimal(x as int) + " Y"@ + decimal(
            y as int,
        ) + " Z"@ + decimal(z as int) + " I"@ + decimal(i as int) + " J"@ + decimal(j as int) + " P"@
            + digits(turns as nat),
        Command::ArcCcw { x, y, i, j } => "G3 X"@ + decimal(x as int) + " Y"@ + decimal(y as int)
            + " I"@ + decimal(i as int) + " J"@ + decimal(j as int),
        Command::End => "M2"@,
    }
}

/// The lines of the first `upto` commands, one below the other.
pub open spec fn program_text(log: Seq<Command>, upto: int) -> Seq<char>
    decreases upto,
{
    if upto <= 0 {
        Seq::empty()
    } else if upto == 1 {
        command_text(log[0])
    } else {
        program_text(log, upto - 1) + "\n"@ + command_text(log[upto - 1])
    }
}

/// The lines of all the commands, one below the other.
pub open spec fn text_of(log: Seq<Command>) -> Seq<char> {
    program_text(log, log.len() as int)
}

/// Appends one decimal digit.
fn push_digit(s: &mut String, d: u64)
    requires
        d < 10,
    ensures
        final(s)@ == old(s)@ + digit_text(d as int),
{
    if d == 0 {
        s.append("0");
    } else if d == 1 {
        s.append("1");
    } else if d == 2 {
        s.append("2");
    } else if d == 3 {
        s.append("3");
    } else if d == 4 {
        s.append("4");
    } else if d == 5 {
        s.append("5");
    } else if d == 6 {
        s.append("6");
    } else if d == 7 {
        s.append("7");
    } else if d == 8 {
        s.append("8");
    } else {
        s.append("9");
    }
}

/// Appends the decimal digits of a number.
fn push_digits(s: &mut String, n: u64)
    ensures
        final(s)@ == old(s)@ + digits(n as nat),
    decreases n,
{
    if n >= 10 {
        push_digits(s, n / 10);
        let ghost mid = s@;
        push_digit(s, n % 10);
        assert(mid + digit_text((n % 10) as int) =~= old(s)@ + (digits((n / 10) as nat) + digit_text(
            (n % 10) as int,
        )));
    } else {
        push_digit(s, n);
    }
}

/// `unit` is one, ten, a hundred and so on.
pub open spec fn is_power_of_ten(unit: nat) -> bool
    decreases unit,
{
    unit == 1 || (unit >= 10 && unit % 10 == 0 && is_power_of_ten(unit / 10))
}

/// Appends the decimal places of `f` parts of ten times `unit`.
fn push_fraction(s: &mut String, f: u64, unit: u64)
    requires
        f < 10 * unit,
        is_power_of_ten(unit as nat),
    ensures
        final(s)@ == old(s)@ + fraction(f as nat, unit as nat),
    decreases unit,
{
    if f == 0 || unit == 0 {
        assert(old(s)@ + Seq::<char>::empty() =~= old(s)@);
    } else {
        let d: u64 = f / unit;
        let rest: u64 = f % unit;
        proof {
            vstd::arithmetic::div_mod::lemma_fundamental_div_mod(f as int, unit as int);
            vstd::arithmetic::div_mod::lemma_mod_bound(f as int, unit as int);
            assert(d < 10) by (nonlinear_arith)
                requires
                    f == unit * d + rest,
                    0 <= rest,
                    f < 10 * unit,
                    unit > 0,
            ;
        }
        push_digit(s, d);
        let ghost mid = s@;
        if unit >= 10 {
            push_fraction(s, rest, unit / 10);
        } else {
            assert(rest == 0);
            assert(mid + Seq::<char>::empty() =~= mid);
        }
        assert(s@ =~= old(s)@ + (digit_text(d as int) + fraction(
            rest as nat,
            (unit / 10) as nat,
        )));
    }
}

/// Appends a number of grid steps written in working units.
fn push_decimal(s: &mut String, v: i64)
    ensures
        final(s)@ == old(s)@ + decimal(v as int),
{
    let ghost start = s@;
    let m: u64 = if v < 0 {
        s.append("-");
        (-(v as i128)) as u64
    } else {
        v as u64
    };
    let scale: u64 = SCALE as u64;
    let whole: u64 = m / scale;
    let part: u64 = m % scale;
    push_digits(s, whole);
    if part != 0 {
        s.append(".");
        proof {
            reveal_with_fuel(is_power_of_ten, 6);
            assert(is_power_of_ten(10_000));
        }
        push_fraction(s, part, scale / 10);
        assert(s@ =~= start + decimal(v as int));
    } else {
        assert(s@ =~= start + decimal(v as int));
    }
}

/// Appends a word and a number of grid steps written in working units.
fn push_word(s: &mut String, word: &str, v: i64)
    ensures
        final(s)@ == old(s)@ + word@ + decimal(v as int),
{
    s.append(word);
    push_decimal(s, v);
}

/// Appends two words, each with its number.
fn push_pair(s: &mut String, first: &str, a: i64, second: &str, b: i64)
    ensures
        final(s)@ == old(s)@ + (first@ + decimal(a as int) + second@ + decimal(b as int)),
{
    push_word(s, first, a);
    push_word(s, second, b);
    assert(s@ =~= old(s)@ + (first@ + decimal(a as int) + second@ + decimal(b as int)));
}

/// Appends the line of a helix.
fn push_helix(s: &mut String, x: i64, y: i64, z: i64, i: i64, j: i64, turns: usize)
    ensures
        final(s)@ == old(s)@ + command_text(Command::HelixCcw { x, y, z, i, j, turns }),
{
    push_pair(s, "G3 X", x, " Y", y);
    push_word(s, " Z", z);
    push_pair(s, " I", i, " J", j);
    s.append(" P");
    push_digits(s, turns as u64);
    assert(s@ =~= old(s)@ + command_text(Command::HelixCcw { x, y, z, i, j, turns }));
}

/// Appends the line of an arc.
fn push_arc(s: &mut String, x: i64, y: i64, i: i64, j: i64)
    ensures
        final(s)@ == old(s)@ + command_text(Command::ArcCcw { x, y, i, j }),
{
    push_pair(s, "G3 X", x, " Y", y);
    push_pair(s, " I", i, " J", j);
    assert(s@ =~= old(s)@ + command_text(Command::ArcCcw { x, y, i, j }));
}

/// Appends the line of G-code for one command.
fn push_command(s: &mut String, c: &Command)
    ensures
        final(s)@ == old(s)@ + command_text(*c),
{
    match *c {
        Command::Absolute => {
            s.append("G90");
        },
        Command::Feed(f) => {
            push_word(s, "F", f);
        },
        Command::Speed(r) => {
            push_word(s, "S", r);
        },
        Command::RapidZ(z) => {
            push_word(s, "G0 Z", z);
        },
        Command::RapidXY { x, y } => {
            push_pair(s, "G0 X", x, " Y", y);
        },
        Command::SpindleCw => {
            s.append("M3");
        },
        Command::SpindleCcw => {
            s.append("M4");
        },
        Command::SpindleOff => {
            s.append("M5");
        },
        Command::LinearZ(z) => {
            push_word(s, "G1 Z", z);
        },
        Command::LinearXY { x, y } => {
            push_pair(s, "G1 X", x, " Y", y);
        },
        Command::PlaneXY => {
            s.append("G17");
        },
        Command::HelixCcw { x, y, z, i, j, turns } => {
            push_helix(s, x, y, z, i, j, turns);
        },
        Command::ArcCcw { x, y, i, j } => {
            push_arc(s, x, y, i, j);
        },
        Command::End => {
            s.append("M2");
        },
    }
}

/// The log as G-code text, one command a line.
pub fn render(log: &Vec<Command>) -> (text: String)
    ensures
        text@ == text_of(log@),
{
    let mut text = String::new();
    let mut i: usize = 0;
    while i < log.len()
        invariant
            i <= log.len(),
            text@ == program_text(log@, i as int),
        decreases log.len() - i,
    {
        if i > 0 {
            text.append("\n");
        }
        push_command(&mut text, &log[i]);
        assert(text@ =~= program_text(log@, i + 1));
        i += 1;
    }
    text
}

} // verus!
