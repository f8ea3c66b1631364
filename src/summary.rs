use vstd::prelude::*;
use vstd::string::*;

use crate::import::ImportOutcome;

verus! {

/// The decimal digit for `d`, which is below ten.
pub open spec fn digit(d: nat) -> char {
    if d == 0 {
        '0'
    } else if d == 1 {
        '1'
    } else if d == 2 {
        '2'
    } else if d == 3 {
        '3'
    } else if d == 4 {
        '4'
    } else if d == 5 {
        '5'
    } else if d == 6 {
        '6'
    } else if d == 7 {
        '7'
    } else if d == 8 {
        '8'
    } else {
        '9'
    }
}

/// `n` written in decimal, without leading zeros.
pub open spec fn decimal(n: nat) -> Seq<char>
    decreases n,
{
    if n < 10 {
        seq![digit(n)]
    } else {
        decimal(n / 10).push(digit(n % 10))
    }
}

fn digit_text(d: usize) -> (r: &'static str)
    requires
        d < 10,
    ensures
        r@ == seq![digit(d as nat)],
{
    if d == 0 {
        proof {
            reveal_strlit("0");
        }
        assert("0"@ =~= seq!['0']);
        "0"
    } else if d == 1 {
        proof {
            reveal_strlit("1");
        }
        assert("1"@ =~= seq!['1']);
        "1"
    } else if d == 2 {
        proof {
            reveal_strlit("2");
        }
        assert("2"@ =~= seq!['2']);
        "2"
    } else if d == 3 {
        proof {
            reveal_strlit("3");
        }
        assert("3"@ =~= seq!['3']);
        "3"
    } else if d == 4 {
        proof {
            reveal_strlit("4");
        }
        assert("4"@ =~= seq!['4']);
        "4"
    } else if d == 5 {
        proof {
            reveal_strlit("5");
        }
        assert("5"@ =~= seq!['5']);
        "5"
    } else if d == 6 {
        proof {
            reveal_strlit("6");
        }
        assert("6"@ =~= seq!['6']);
        "6"
    } else if d == 7 {
        proof {
            reveal_strlit("7");
        }
        assert("7"@ =~= seq!['7']);
        "7"
    } else if d == 8 {
        proof {
            reveal_strlit("8");
        }
        assert("8"@ =~= seq!['8']);
        "8"
    } else {
        proof {
            reveal_strlit("9");
        }
        assert("9"@ =~= seq!['9']);
        "9"
    }
}

/// `n` in decimal, as `n.to_string()` writes it.
fn decimal_text(n: usize) -> (r: String)
    ensures
        r@ == decimal(n as nat),
    decreases n,
{
    if n < 10 {
        digit_text(n).to_owned()
    } else {
        let mut r = decimal_text(n / 10);
        r.append(digit_text(n % 10));
        assert(r@ =~= decimal((n / 10) as nat).push(digit((n % 10) as nat)));
        r
    }
}

/// The part of the summary for one count: nothing when the count is zero.
pub open spec fn count_part(n: nat, word: Seq<char>) -> Seq<Seq<char>> {
    if n > 0 {
        seq![decimal(n) + " "@ + word]
    } else {
        Seq::empty()
    }
}

/// The parts of the summary, in the order added, overwritten, skipped,
/// unchanged.
pub open spec fn summary_parts(a: nat, o: nat, s: nat, u: nat) -> Seq<Seq<char>> {
    count_part(a, "added"@) + count_part(o, "overwritten"@) + count_part(s, "skipped"@)
        + count_part(u, "unchanged"@)
}

/// The parts joined with a comma and a space between each two.
pub open spec fn joined(parts: Seq<Seq<char>>) -> Seq<char>
    decreases parts.len(),
{
    if parts.len() == 0 {
        Seq::empty()
    } else if parts.len() == 1 {
        parts[0]
    } else {
        joined(parts.drop_last()) + ", "@ + parts.last()
    }
}

/// The line that reports how an import went.
pub open spec fn summary_text(a: nat, o: nat, s: nat, u: nat) -> Seq<char> {
    let p = summary_parts(a, o, s, u);
    if p.len() == 0 {
        "Nothing to import."@
    } else {
        "Import complete: "@ + joined(p) + "."@
    }
}

fn push_count(parts: &mut Vec<String>, n: usize, word: &str)
    ensures
        final(parts)@.map_values(|s: String| s@) == old(parts)@.map_values(|s: String| s@)
            + count_part(n as nat, word@),
{
    if n > 0 {
        let mut t = decimal_text(n);
        t.append(" ");
        t.append(word);
        let ghost before = parts@;
        parts.push(t);
        assert(parts@.map_values(|s: String| s@) =~= before.map_values(|s: String| s@) + count_part(
            n as nat,
            word@,
        ));
    } else {
        assert(old(parts)@.map_values(|s: String| s@) + count_part(n as nat, word@)
            =~= old(parts)@.map_values(|s: String| s@));
    }
}

impl ImportOutcome {
    /// The line that reports this import: each nonzero count with its word,
    /// or that there was nothing to import.
    pub fn summary(&self) -> (r: String)
        ensures
            r@ == summary_text(
                self.added as nat,
                self.overwritten as nat,
                self.skipped as nat,
                self.unchanged as nat,
            ),
    {
        let mut parts: Vec<String> = Vec::new();
        push_count(&mut parts, self.added, "added");
        push_count(&mut parts, self.overwritten, "overwritten");
        push_count(&mut parts, self.skipped, "skipped");
        push_count(&mut parts, self.unchanged, "unchanged");
        let ghost p = summary_parts(
            self.added as nat,
            self.overwritten as nat,
            self.skipped as nat,
            self.unchanged as nat,
        );
        assert(parts@.map_values(|s: String| s@) =~= p);
        if parts.len() == 0 {
            return "Nothing to import.".to_owned();
        }
        let mut r = "Import complete: ".to_owned();
        let mut body = parts[0].clone();
        assert(p.take(1).drop_last() =~= Seq::<Seq<char>>::empty());
        assert(joined(p.take(1)) == p[0]);
        let mut i: usize = 1;
        while i < parts.len()
            invariant
                1 <= i <= parts@.len(),
                parts@.map_values(|s: String| s@) == p,
                body@ == joined(p.take(i as int)),
            decreases parts@.len() - i,
        {
            assert(p.take(i + 1).drop_last() =~= p.take(i as int));
            assert(p[i as int] == parts@[i as int]@);
            body.append(", ");
            body.append(parts[i].as_str());
            i = i + 1;
        }
        assert(p.take(parts@.len() as int) =~= p);
        r.append(body.as_str());
        r.append(".");
        r
    }
}

} // verus!
