//! Text shown to the user: decimal numbers, byte counts in binary-prefix
//! units, and the closing summary of a run.

use vstd::arithmetic::logarithm::{lemma_log0, lemma_log_s, log};
use vstd::arithmetic::power::{lemma_pow0, lemma_pow_increases, pow};
use vstd::arithmetic::power2::{lemma2_to64, lemma_pow2_unfold, pow2};
use vstd::prelude::*;
use vstd::string::StringExecFns;

verus! {

/// The character that stands for the decimal digit `d`.
pub open spec fn digit_char(d: nat) -> char {
    if d == 0 {
        '0'
    } else if d == 1 {
        '1'
    } else if d == 2 {
        '2'
    } else if d == 3 {
        '3'
    } else if d == 4 {
        '4'
    } else if d == 5 {
        '5'
    } else if d == 6 {
        '6'
    } else if d == 7 {
        '7'
    } else if d == 8 {
        '8'
    } else {
        '9'
    }
}

/// The decimal representation of `n`, without leading zeros.
pub open spec fn decimal(n: nat) -> Seq<char>
    decreases n,
{
    if n < 10 {
        seq![digit_char(n)]
    } else {
        decimal(n / 10).push(digit_char(n % 10))
    }
}

/// The name of the unit that stands for `1024^exponent` bytes, where one is defined.
pub open spec fn unit_name(exponent: nat) -> Option<Seq<char>> {
    if exponent == 0 {
        Some(seq!['B'])
    } else if exponent == 1 {
        Some(seq!['K', 'i', 'B'])
    } else if exponent == 2 {
        Some(seq!['M', 'i', 'B'])
    } else if exponent == 3 {
        Some(seq!['G', 'i', 'B'])
    } else if exponent == 4 {
        Some(seq!['T', 'i', 'B'])
    } else if exponent == 5 {
        Some(seq!['P', 'i', 'B'])
    } else if exponent == 6 {
        Some(seq!['E', 'i', 'B'])
    } else if exponent == 7 {
        Some(seq!['Z', 'i', 'B'])
    } else if exponent == 8 {
        Some(seq!['Y', 'i', 'B'])
    } else {
        None
    }
}

/// The power of 1024 by which a size is divided for display: `floor(log2(size) / 10)`,
/// and 0 for a size of 0.
pub open spec fn unit_exponent(size: nat) -> nat {
    (log(2, size as int) / 10) as nat
}

/// `size / 1024^exponent` in hundredths, rounded to the nearest hundredth; a value
/// exactly halfway between two hundredths goes to the even one.
pub open spec fn hundredths(size: nat, exponent: nat) -> nat {
    let divisor = pow(1024, exponent);
    let scaled = (size * 100) as int;
    let quotient = scaled / divisor;
    let remainder = scaled % divisor;
    if 2 * remainder > divisor || (2 * remainder == divisor && quotient % 2 == 1) {
        (quotient + 1) as nat
    } else {
        quotient as nat
    }
}

/// A quantity given in hundredths, written with exactly two decimals.
pub open spec fn two_decimals(h: nat) -> Seq<char> {
    decimal(h / 100) + seq!['.', digit_char(h % 100 / 10), digit_char(h % 10)]
}

/// A byte count as shown to the user: the quantity with two decimals, a space and
/// the unit; the plain byte count where no unit is large enough.
pub open spec fn human_readable(size: nat) -> Seq<char> {
    let exponent = unit_exponent(size);
    match unit_name(exponent) {
        Some(unit) => two_decimals(hundredths(size, exponent)) + seq![' '] + unit,
        None => decimal(size),
    }
}

/// The sentence that closes a run.
pub open spec fn summary_text(dry_run: bool, candidates: nat, bytes: nat) -> Seq<char> {
    (if dry_run {
        "[dry run] "@
    } else {
        Seq::<char>::empty()
    }) + decimal(candidates) + " packages removed (disk space saved: "@ + human_readable(bytes)
        + ")"@
}

fn digit_text(d: u64) -> (text: &'static str)
    requires
        d < 10,
    ensures
        text@ == seq![digit_char(d as nat)],
{
    let text = if d == 0 {
        "0"
    } else if d == 1 {
        "1"
    } else if d == 2 {
        "2"
    } else if d == 3 {
        "3"
    } else if d == 4 {
        "4"
    } else if d == 5 {
        "5"
    } else if d == 6 {
        "6"
    } else if d == 7 {
        "7"
    } else if d == 8 {
        "8"
    } else {
        "9"
    };
    proof {
        reveal_strlit("0");
        reveal_strlit("1");
        reveal_strlit("2");
        reveal_strlit("3");
        reveal_strlit("4");
        reveal_strlit("5");
        reveal_strlit("6");
        reveal_strlit("7");
        reveal_strlit("8");
        reveal_strlit("9");
        assert(text@ =~= seq![digit_char(d as nat)]);
    }
    text
}

fn push_decimal(out: &mut String, n: u64)
    ensures
        final(out)@ == old(out)@ + decimal(n as nat),
    decreases n,
{
    if n >= 10 {
        push_decimal(out, n / 10);
    }
    out.append(digit_text(n % 10));
    proof {
        assert(final(out)@ =~= old(out)@ + decimal(n as nat));
    }
}

/// Writes `n` in decimal.
pub fn decimal_string(n: u64) -> (text: String)
    ensures
        text@ == decimal(n as nat),
{
    let mut text = String::new();
    push_decimal(&mut text, n);
    proof {
        assert(text@ =~= decimal(n as nat));
    }
    text
}

fn floor_log2(size: u64) -> (bits: u64)
    ensures
        bits == log(2, size as int),
        bits <= 63,
{
    let mut bits: u64 = 0;
    let mut rest: u64 = size;
    proof {
        lemma2_to64();
    }
    while rest >= 2
        invariant
            bits <= 63,
            log(2, size as int) == bits + log(2, rest as int),
            rest < pow2((64 - bits) as nat),
        decreases rest,
    {
        proof {
            lemma_log_s(2, rest as int);
            lemma2_to64();
            lemma_pow2_unfold((64 - bits) as nat);
        }
        rest = rest / 2;
        bits = bits + 1;
    }
    proof {
        lemma_log0(2, rest as int);
    }
    bits
}

fn unit_divisor(exponent: u64) -> (divisor: u64)
    requires
        exponent <= 6,
    ensures
        divisor == pow(1024, exponent as nat),
        divisor >= 1,
{
    let mut divisor: u64 = 1;
    let mut done: u64 = 0;
    proof {
        lemma_pow0(1024);
    }
    while done < exponent
        invariant
            done <= exponent <= 6,
            divisor == pow(1024, done as nat),
            divisor >= 1,
        decreases exponent - done,
    {
        proof {
            lemma_pow_increases(1024, done as nat, 5);
            assert(pow(1024, 5) == 1125899906842624) by {
                reveal_with_fuel(pow, 6);
            }
            assert(pow(1024, (done + 1) as nat) == 1024 * pow(1024, done as nat)) by {
                reveal(pow);
            }
        }
        divisor = divisor * 1024;
        done = done + 1;
    }
    divisor
}

fn unit_text(exponent: u64) -> (text: Option<&'static str>)
    ensures
        match text {
            Some(unit) => unit_name(exponent as nat) == Some(unit@),
            None => unit_name(exponent as nat) is None,
        },
{
    let text = if exponent == 0 {
        Some("B")
    } else if exponent == 1 {
        Some("KiB")
    } else if exponent == 2 {
        Some("MiB")
    } else if exponent == 3 {
        Some("GiB")
    } else if exponent == 4 {
        Some("TiB")
    } else if exponent == 5 {
        Some("PiB")
    } else if exponent == 6 {
        Some("EiB")
    } else if exponent == 7 {
        Some("ZiB")
    } else if exponent == 8 {
        Some("YiB")
    } else {
        None
    };
    proof {
        reveal_strlit("B");
        reveal_strlit("KiB");
        reveal_strlit("MiB");
        reveal_strlit("GiB");
        reveal_strlit("TiB");
        reveal_strlit("PiB");
        reveal_strlit("EiB");
        reveal_strlit("ZiB");
        reveal_strlit("YiB");
        if let Some(unit) = text {
            assert(unit_name(exponent as nat)->0 =~= unit@);
        }
    }
    text
}

/// Renders a byte count with a binary-prefix unit: `1536` gives `1.50 KiB`.
///
/// The unit is `1024^e` with `e = floor(log2(size) / 10)`, the quantity is rounded
/// to two decimals, and a size beyond the largest unit is written as plain bytes.
pub fn size_to_human_readable(size_in_bytes: u64) -> (text: String)
    ensures
        text@ == human_readable(size_in_bytes as nat),
{
    let exponent = floor_log2(size_in_bytes) / 10;
    match unit_text(exponent) {
        Some(unit) => {
            let divisor = unit_divisor(exponent) as u128;
            let scaled = size_in_bytes as u128 * 100;
            let quotient = scaled / divisor;
            let remainder = scaled % divisor;
            let rounded = if 2 * remainder > divisor || (2 * remainder == divisor && quotient % 2
                == 1) {
                quotient + 1
            } else {
                quotient
            };
            assert(rounded == hundredths(size_in_bytes as nat, exponent as nat));
            assert(rounded / 100 <= u64::MAX);
            let mut text = decimal_string((rounded / 100) as u64);
            text.append(".");
            text.append(digit_text((rounded % 100 / 10) as u64));
            text.append(digit_text((rounded % 10) as u64));
            text.append(" ");
            text.append(unit);
            proof {
                reveal_strlit(".");
                reveal_strlit(" ");
                assert(text@ =~= human_readable(size_in_bytes as nat));
            }
            text
        },
        None => decimal_string(size_in_bytes),
    }
}

/// The running totals of a run: how many deletion candidates were met, and how
/// many bytes they hold on disk.
#[derive(Clone, Copy, Debug, PartialEq, Eq)]
pub struct Statistics {
    pub candidates: u64,
    pub bytes: u64,
}

impl Statistics {
    /// The totals before any candidate was met.
    pub fn new() -> (statistics: Statistics)
        ensures
            statistics.candidates == 0,
            statistics.bytes == 0,
    {
        Statistics { candidates: 0, bytes: 0 }
    }

    /// Counts one more candidate, of `size` bytes. Where a total would no longer
    /// fit, nothing is counted and the answer is `false`.
    pub fn record(&mut self, size: u64) -> (recorded: bool)
        ensures
            recorded == (old(self).candidates < u64::MAX && old(self).bytes + size <= u64::MAX),
            recorded ==> final(self).candidates == old(self).candidates + 1 && final(self).bytes
                == old(self).bytes + size,
            !recorded ==> *final(self) == *old(self),
    {
        if self.candidates == u64::MAX || size > u64::MAX - self.bytes {
            return false;
        }
        self.candidates = self.candidates + 1;
        self.bytes = self.bytes + size;
        true
    }

    /// Renders the sentence that closes the run.
    pub fn summary(&self, dry_run: bool) -> (text: String)
        ensures
            text@ == summary_text(dry_run, self.candidates as nat, self.bytes as nat),
    {
        summary_line(dry_run, self.candidates, self.bytes)
    }
}

/// Renders the sentence that closes a run: how many packages were removed and how
/// much space that saved, marked as a dry run where nothing was deleted.
pub fn summary_line(dry_run: bool, candidates: u64, bytes: u64) -> (text: String)
    ensures
        text@ == summary_text(dry_run, candidates as nat, bytes as nat),
{
    let mut text = String::new();
    if dry_run {
        text.append("[dry run] ");
    }
    push_decimal(&mut text, candidates);
    text.append(" packages removed (disk space saved: ");
    let size = size_to_human_readable(bytes);
    text.append(size.as_str());
    text.append(")");
    proof {
        assert(text@ =~= summary_text(dry_run, candidates as nat, bytes as nat));
    }
    text
}

} // verus!
