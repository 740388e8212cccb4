use vstd::prelude::*;
use vstd::string::StringExecFns;

use crate::index::BinTable;
use crate::normalize::Bin;

verus! {

/// The character of the decimal digit `d`.
pub open spec fn digit_char(d: nat) -> char {
    if d == 0 {
        '0'
    } else if d == 1 {
        '1'
    } else if d == 2 {
        '2'
    } else if d == 3 {
        '3'
    } else if d == 4 {
        '4'
    } else if d == 5 {
        '5'
    } else if d == 6 {
        '6'
    } else if d == 7 {
        '7'
    } else if d == 8 {
        '8'
    } else {
        '9'
    }
}

/// The decimal text of `n`, without leading zeros.
pub open spec fn decimal(n: nat) -> Seq<char>
    decreases n,
{
    if n < 10 {
        seq![digit_char(n)]
    } else {
        decimal(n / 10).push(digit_char(n % 10))
    }
}

/// A bin written as `from - to`.
pub open spec fn bin_text(b: Bin) -> Seq<char> {
    decimal(b.from as nat) + seq![' ', '-', ' '] + decimal(b.to as nat)
}

/// One indented line per bin, each preceded by a line break.
pub open spec fn bins_text(bins: Seq<Bin>) -> Seq<char>
    decreases bins.len(),
{
    if bins.len() == 0 {
        Seq::empty()
    } else {
        bins_text(bins.drop_last()) + seq!['\n', ' ', ' ', ' ', ' '] + bin_text(bins.last())
    }
}

/// Each breakpoint on a line of its own, followed by the lines of its bins.
pub open spec fn table_text(entries: Seq<(u64, Vec<Bin>)>) -> Seq<char>
    decreases entries.len(),
{
    if entries.len() == 0 {
        Seq::empty()
    } else {
        table_text(entries.drop_last()) + seq!['\n'] + decimal(entries.last().0 as nat) + bins_text(
            entries.last().1@,
        )
    }
}

fn digit_str(d: u64) -> (r: &'static str)
    requires
        d < 10,
    ensures
        r@ == seq![digit_char(d as nat)],
{
    proof {
        reveal_strlit("0");
        reveal_strlit("1");
        reveal_strlit("2");
        reveal_strlit("3");
        reveal_strlit("4");
        reveal_strlit("5");
        reveal_strlit("6");
        reveal_strlit("7");
        reveal_strlit("8");
        reveal_strlit("9");
    }
    match d {
        0 => "0",
        1 => "1",
        2 => "2",
        3 => "3",
        4 => "4",
        5 => "5",
        6 => "6",
        7 => "7",
        8 => "8",
        _ => "9",
    }
}

fn push_decimal(out: &mut String, n: u64)
    ensures
        final(out)@ == old(out)@ + decimal(n as nat),
    decreases n,
{
    if n >= 10 {
        push_decimal(out, n / 10);
    }
    out.append(digit_str(n % 10));
    proof {
        if n >= 10 {
            assert(old(out)@ + decimal(n as nat) =~= old(out)@ + decimal((n / 10) as nat) + seq![
                digit_char((n % 10) as nat),
            ]);
        } else {
            assert(decimal(n as nat) == seq![digit_char(n as nat)]);
        }
    }
}

fn push_bin(out: &mut String, b: Bin)
    ensures
        final(out)@ == old(out)@ + bin_text(b),
{
    push_decimal(out, b.from);
    proof {
        reveal_strlit(" - ");
    }
    out.append(" - ");
    push_decimal(out, b.to);
    assert(final(out)@ =~= old(out)@ + bin_text(b));
}

impl Bin {
    /// The bin as `from - to`.
    pub fn to_string(&self) -> (r: String)
        ensures
            r@ == bin_text(*self),
    {
        let mut s = String::new();
        push_bin(&mut s, *self);
        assert(s@ =~= bin_text(*self));
        s
    }
}

impl BinTable {
    /// A listing of the index: each boundary on a new line, each covering bin
    /// below it on a new line indented by four spaces.
    pub fn to_pretty_string(&self) -> (r: String)
        ensures
            r@ == table_text(self.table@),
    {
        let mut out = String::new();
        let mut i: usize = 0;
        while i < self.table.len()
            invariant
                i <= self.table@.len(),
                out@ == table_text(self.table@.take(i as int)),
            decreases self.table.len() - i,
        {
            let ghost start = out@;
            proof {
                reveal_strlit("\n");
            }
            out.append("\n");
            push_decimal(&mut out, self.table[i].0);
            let cell = &self.table[i].1;
            let ghost head = out@;
            let mut j: usize = 0;
            while j < cell.len()
                invariant
                    j <= cell@.len(),
                    out@ == head + bins_text(cell@.take(j as int)),
                decreases cell.len() - j,
            {
                proof {
                    reveal_strlit("\n    ");
                }
                out.append("\n    ");
                push_bin(&mut out, cell[j]);
                proof {
                    let t = cell@.take(j + 1);
                    assert(t.drop_last() =~= cell@.take(j as int));
                    assert(t.last() == cell@[j as int]);
                    assert(out@ =~= head + bins_text(t));
                }
                j += 1;
            }
            proof {
                assert(cell@.take(cell@.len() as int) =~= cell@);
                let t = self.table@.take(i + 1);
                assert(t.drop_last() =~= self.table@.take(i as int));
                assert(t.last() == self.table@[i as int]);
                assert(out@ =~= table_text(t));
            }
            i += 1;
        }
        assert(self.table@.take(self.table@.len() as int) =~= self.table@);
        out
    }
}

} // verus!
