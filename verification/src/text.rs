//! Counts, resource vectors and records written out as text.

use vstd::prelude::*;
use vstd::string::StringExecFns;
use crate::process::{RanProcess, RanProcessView};
use crate::vector::quantities;

verus! {

/// The character that writes a number below ten.
pub open spec fn digit(d: nat) -> char
    recommends
        d < 10,
{
    ('0' as nat + d) as char
}

/// A number written in base ten, without leading zeros.
pub open spec fn decimal(n: nat) -> Seq<char>
    decreases n,
{
    if n < 10 {
        seq![digit(n)]
    } else {
        decimal(n / 10).push(digit(n % 10))
    }
}

/// Each count written in base ten.
pub open spec fn decimals(counts: Seq<nat>) -> Seq<Seq<char>> {
    Seq::new(counts.len(), |i: int| decimal(counts[i]))
}

/// The parts one after another, with the separator between each two.
pub open spec fn joined(parts: Seq<Seq<char>>, separator: Seq<char>) -> Seq<char>
    decreases parts.len(),
{
    if parts.len() == 0 {
        Seq::empty()
    } else if parts.len() == 1 {
        parts[0]
    } else {
        joined(parts.drop_last(), separator) + separator + parts.last()
    }
}

/// The line that shows a record.
pub open spec fn rendering(record: RanProcessView) -> Seq<char> {
    "| id: "@ + decimal(record.process.id) + " | allocated: "@ + joined(
        decimals(record.process.allocated),
        ","@,
    ) + " | max: "@ + joined(decimals(record.process.max_claim), ","@) + " | needed: "@ + joined(
        decimals(record.process.need()),
        ","@,
    ) + " | available: "@ + joined(decimals(record.available), ","@) + " |"@
}

fn digit_text(d: u32) -> (text: &'static str)
    requires
        d < 10,
    ensures
        text@ == seq![digit(d as nat)],
{
    proof {
        reveal_strlit("0");
        reveal_strlit("1");
        reveal_strlit("2");
        reveal_strlit("3");
        reveal_strlit("4");
        reveal_strlit("5");
        reveal_strlit("6");
        reveal_strlit("7");
        reveal_strlit("8");
        reveal_strlit("9");
    }
    let text = if d == 0 {
        "0"
    } else if d == 1 {
        "1"
    } else if d == 2 {
        "2"
    } else if d == 3 {
        "3"
    } else if d == 4 {
        "4"
    } else if d == 5 {
        "5"
    } else if d == 6 {
        "6"
    } else if d == 7 {
        "7"
    } else if d == 8 {
        "8"
    } else {
        "9"
    };
    assert(text@ =~= seq![digit(d as nat)]);
    text
}

/// Writes a number in base ten.
pub fn decimal_text(n: u32) -> (text: String)
    ensures
        text@ == decimal(n as nat),
    decreases n,
{
    if n < 10 {
        let text = String::from_str(digit_text(n));
        text
    } else {
        let mut text = decimal_text(n / 10);
        text.append(digit_text(n % 10));
        assert(text@ =~= decimal((n / 10) as nat).push(digit((n % 10) as nat)));
        text
    }
}

/// Writes the counts of a resource vector in base ten, with the separator
/// between each two.
pub fn join_vec(separator: &str, vec: &Vec<u32>) -> (text: String)
    ensures
        text@ == joined(decimals(quantities(vec@)), separator@),
{
    let ghost parts = decimals(quantities(vec@));
    let mut text = String::new();
    let mut i: usize = 0;
    assert(parts.take(0) =~= Seq::empty());
    while i < vec.len()
        invariant
            i <= vec.len(),
            parts == decimals(quantities(vec@)),
            text@ == joined(parts.take(i as int), separator@),
        decreases vec.len() - i,
    {
        if i > 0 {
            text.append(separator);
        }
        let count = decimal_text(vec[i]);
        text.append(count.as_str());
        proof {
            let longer = parts.take(i + 1);
            assert(longer.drop_last() =~= parts.take(i as int));
            assert(longer.last() == decimal(vec[i as int] as nat));
            if i == 0 {
                assert(text@ =~= longer[0]);
            }
        }
        i += 1;
    }
    assert(parts.take(i as int) =~= parts);
    text
}

impl RanProcess {
    /// Writes the record as one line: the identifier of the process, what it
    /// held, what it might claim at most, what it still needed, and what
    /// was available once it had run.
    pub fn to_string(&self) -> (line: String)
        ensures
            line@ == rendering(self@),
    {
        let mut line = String::from_str("| id: ");
        line.append(decimal_text(self.process.id()).as_str());
        line.append(" | allocated: ");
        line.append(join_vec(",", self.process.allocated()).as_str());
        line.append(" | max: ");
        line.append(join_vec(",", self.process.max_claim()).as_str());
        line.append(" | needed: ");
        line.append(join_vec(",", &self.process.resources_needed()).as_str());
        line.append(" | available: ");
        line.append(join_vec(",", &self.available).as_str());
        line.append(" |");
        line
    }
}

} // verus!
