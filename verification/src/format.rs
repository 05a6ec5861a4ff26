//! Number formatting for status lines.
use vstd::prelude::*;

use crate::apply::ApplyStats;
use crate::text::string_from_chars;
use vstd::string::StringExecFns;

verus! {

/// The character of a decimal digit.
pub open spec fn digit_char(d: int) -> char {
    seq!['0', '1', '2', '3', '4', '5', '6', '7', '8', '9'][d]
}

/// The decimal numeral of `n`, without leading zeros (`0` for zero).
pub open spec fn decimal(n: nat) -> Seq<char>
    decreases n,
{
    if n < 10 {
        seq![digit_char(n as int)]
    } else {
        decimal(n / 10).push(digit_char((n % 10) as int))
    }
}

/// The first `k` characters of a numeral of `total` digits, with a `,` in front of
/// every digit that has a multiple of three digits after it (except the first digit).
pub open spec fn grouped_prefix(digits: Seq<char>, k: int) -> Seq<char>
    decreases k,
{
    if k <= 0 {
        Seq::empty()
    } else {
        let i = k - 1;
        let sep = if i > 0 && (digits.len() - i) % 3 == 0 {
            seq![',']
        } else {
            Seq::empty()
        };
        grouped_prefix(digits, i) + sep + seq![digits[i]]
    }
}

/// A numeral with thousands separators: `15000` is written `15,000`.
pub open spec fn grouped(digits: Seq<char>) -> Seq<char> {
    grouped_prefix(digits, digits.len() as int)
}

fn decimal_digits(n: usize) -> (d: Vec<char>)
    ensures
        d@ == decimal(n as nat),
    decreases n,
{
    let chars = ['0', '1', '2', '3', '4', '5', '6', '7', '8', '9'];
    proof {
        assert(chars@ =~= seq!['0', '1', '2', '3', '4', '5', '6', '7', '8', '9']);
    }
    if n < 10 {
        let mut d: Vec<char> = Vec::new();
        d.push(chars[n]);
        proof {
            assert(d@ =~= seq![digit_char(n as int)]);
        }
        d
    } else {
        let mut d = decimal_digits(n / 10);
        d.push(chars[n % 10]);
        d
    }
}

/// `n` in decimal with a `,` between each group of three digits, counted from the
/// right.
pub fn group_thousands(n: usize) -> (s: String)
    ensures
        s@ == grouped(decimal(n as nat)),
{
    let digits = decimal_digits(n);
    let mut out: Vec<char> = Vec::new();
    let mut i: usize = 0;
    while i < digits.len()
        invariant
            i <= digits@.len(),
            out@ == grouped_prefix(digits@, i as int),
        decreases digits@.len() - i,
    {
        if i > 0 && (digits.len() - i) % 3 == 0 {
            out.push(',');
        }
        out.push(digits[i]);
        proof {
            let sep = if i > 0 && (digits@.len() - i) % 3 == 0 {
                seq![',']
            } else {
                Seq::<char>::empty()
            };
            assert(out@ =~= grouped_prefix(digits@, i as int) + sep + seq![digits@[i as int]]);
        }
        i = i + 1;
    }
    string_from_chars(out.as_slice())
}

/// The status line of an apply, without its timing: `Applied: restored 3, copied 1,
/// removed 0, unchanged 15,000`, with ` (full rebuild)` after `Applied` when the
/// full rebuild ran. Each count has thousands separators.
pub open spec fn summary_text(stats: ApplyStats) -> Seq<char> {
    "Applied"@ + (if stats.full_rebuild {
        " (full rebuild)"@
    } else {
        Seq::empty()
    }) + ": restored "@ + grouped(decimal(stats.restored as nat)) + ", copied "@ + grouped(
        decimal(stats.copied as nat),
    ) + ", removed "@ + grouped(decimal(stats.removed as nat)) + ", unchanged "@ + grouped(
        decimal(stats.unchanged as nat),
    )
}

/// Describes what an apply did, for the status line; the caller adds the time taken.
pub fn stats_summary(stats: &ApplyStats) -> (s: String)
    ensures
        s@ == summary_text(*stats),
{
    let mut s = String::new();
    s.append("Applied");
    if stats.full_rebuild {
        s.append(" (full rebuild)");
    }
    s.append(": restored ");
    s.append(group_thousands(stats.restored).as_str());
    s.append(", copied ");
    s.append(group_thousands(stats.copied).as_str());
    s.append(", removed ");
    s.append(group_thousands(stats.removed).as_str());
    s.append(", unchanged ");
    s.append(group_thousands(stats.unchanged).as_str());
    s
}

} // verus!
