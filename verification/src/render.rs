use vstd::prelude::*;
use vstd::string::StringExecFns;

use crate::types::{BasicGrid, Grid};

verus! {

/// The decimal digit `d` as text.
pub open spec fn digit_text(d: nat) -> Seq<char> {
    seq![(('0' as int) + d) as char]
}

/// The decimal digits of `n`, most significant first, without leading zeros.
pub open spec fn decimal(n: nat) -> Seq<char>
    decreases n,
{
    if n < 10 {
        digit_text(n)
    } else {
        decimal(n / 10) + digit_text(n % 10)
    }
}

/// The decimal text of `v`, with a minus sign when it is negative.
pub open spec fn number_text(v: int) -> Seq<char> {
    if v < 0 {
        seq!['-'] + decimal((-v) as nat)
    } else {
        decimal(v as nat)
    }
}

/// The text of one grid entry: a dot for 0, the number otherwise, then a space.
pub open spec fn entry_text(v: i16) -> Seq<char> {
    if v == 0 {
        seq!['.', ' ']
    } else {
        number_text(v as int) + seq![' ']
    }
}

/// The text of the first `n` entries of a row, with a bar before each group of three.
pub open spec fn row_text_upto(row: [i16; 9], n: int) -> Seq<char>
    decreases n,
{
    if n <= 0 {
        Seq::empty()
    } else {
        row_text_upto(row, n - 1) + (if (n - 1) % 3 == 0 {
            seq!['|', ' ']
        } else {
            Seq::empty()
        }) + entry_text(row[n - 1])
    }
}

/// The line of text of a row.
pub open spec fn row_text(row: [i16; 9]) -> Seq<char> {
    row_text_upto(row, 9) + seq!['|', '\n']
}

/// The horizontal line between the bands of three rows.
pub open spec fn bar_line() -> Seq<char> {
    " ------- ------- ------- "@ + seq!['\n']
}

/// The text of the first `n` rows, with a horizontal line before each band of three.
pub open spec fn grid_text_upto(g: BasicGrid, n: int) -> Seq<char>
    decreases n,
{
    if n <= 0 {
        Seq::empty()
    } else {
        grid_text_upto(g, n - 1) + (if (n - 1) % 3 == 0 {
            bar_line()
        } else {
            Seq::empty()
        }) + row_text(g[n - 1])
    }
}

/// The text of a grid: its nine rows between horizontal lines.
pub open spec fn grid_text(g: BasicGrid) -> Seq<char> {
    grid_text_upto(g, 9) + bar_line()
}

/// Appends the decimal digit `d`.
fn append_digit(s: &mut String, d: u32)
    requires
        d < 10,
    ensures
        final(s)@ == old(s)@ + digit_text(d as nat),
{
    match d {
        0 => {
            proof {
                reveal_strlit("0");
            }
            s.append("0");
        },
        1 => {
            proof {
                reveal_strlit("1");
            }
            s.append("1");
        },
        2 => {
            proof {
                reveal_strlit("2");
            }
            s.append("2");
        },
        3 => {
            proof {
                reveal_strlit("3");
            }
            s.append("3");
        },
        4 => {
            proof {
                reveal_strlit("4");
            }
            s.append("4");
        },
        5 => {
            proof {
                reveal_strlit("5");
            }
            s.append("5");
        },
        6 => {
            proof {
                reveal_strlit("6");
            }
            s.append("6");
        },
        7 => {
            proof {
                reveal_strlit("7");
            }
            s.append("7");
        },
        8 => {
            proof {
                reveal_strlit("8");
            }
            s.append("8");
        },
        _ => {
            proof {
                reveal_strlit("9");
            }
            s.append("9");
        },
    }
}

/// Appends the decimal digits of `n`.
fn append_decimal(s: &mut String, n: u32)
    ensures
        final(s)@ == old(s)@ + decimal(n as nat),
    decreases n,
{
    let ghost start = *s;
    if n >= 10 {
        append_decimal(s, n / 10);
    }
    append_digit(s, n % 10);
    proof {
        if n >= 10 {
            assert(start@ + decimal((n / 10) as nat) + digit_text((n % 10) as nat) =~= start@ + decimal(n as nat));
        }
    }
}

/// Appends the text of one grid entry.
fn append_entry(s: &mut String, v: i16)
    ensures
        final(s)@ == old(s)@ + entry_text(v),
{
    let ghost start = *s;
    if v == 0 {
        proof {
            reveal_strlit(". ");
        }
        s.append(". ");
    } else {
        if v < 0 {
            proof {
                reveal_strlit("-");
            }
            s.append("-");
            let m: u32 = (0i32 - v as i32) as u32;
            append_decimal(s, m);
        } else {
            append_decimal(s, v as u32);
        }
        proof {
            reveal_strlit(" ");
        }
        s.append(" ");
        proof {
            assert(s@ =~= start@ + entry_text(v));
        }
    }
}

impl Grid {
    /// The grid as text: nine rows of entries, a dot for each 0, with bars between the
    /// groups of three columns and horizontal lines between the bands of three rows.
    pub fn render(&self) -> (text: String)
        ensures
            text@ == grid_text(self.0),
    {
        let mut s = String::new();
        let mut r: usize = 0;
        while r < 9
            invariant
                r <= 9,
                s@ == grid_text_upto(self.0, r as int),
            decreases 9 - r,
        {
            let ghost before = s@;
            if r % 3 == 0 {
                s.append(" ------- ------- ------- ");
                proof {
                    reveal_strlit("\n");
                }
                s.append("\n");
            }
            let ghost after_bar = s@;
            let mut c: usize = 0;
            while c < 9
                invariant
                    r < 9,
                    c <= 9,
                    s@ == after_bar + row_text_upto(self.0[r as int], c as int),
                decreases 9 - c,
            {
                let ghost mid = s@;
                if c % 3 == 0 {
                    proof {
                        reveal_strlit("| ");
                    }
                    s.append("| ");
                }
                append_entry(&mut s, self.0[r][c]);
                proof {
                    assert(s@ =~= after_bar + row_text_upto(self.0[r as int], c + 1));
                }
                c = c + 1;
            }
            proof {
                reveal_strlit("|\n");
            }
            s.append("|\n");
            proof {
                assert(s@ =~= grid_text_upto(self.0, r + 1));
            }
            r = r + 1;
        }
        s.append(" ------- ------- ------- ");
        proof {
            reveal_strlit("\n");
        }
        s.append("\n");
        proof {
            assert(s@ =~= grid_text(self.0));
        }
        s
    }
}

} // verus!
