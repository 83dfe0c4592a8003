//! The text of single digits, from which numbers are written out.
use vstd::prelude::*;

verus! {

/// The character of the digit `d` (below 16): `0`-`9`, then `A`-`F` in
/// upper case or `a`-`f` in lower case.
pub open spec fn digit_char(d: int, upper: bool) -> char {
    if d < 10 {
        (48 + d) as char
    } else if upper {
        (55 + d) as char
    } else {
        (87 + d) as char
    }
}

/// The one-character text of the digit `d`.
pub fn digit_str(d: u8, upper: bool) -> (s: &'static str)
    requires
        d < 16,
    ensures
        s@ == seq![digit_char(d as int, upper)],
{
    if d == 0 {
        proof {
            reveal_strlit("0");
        }
        return "0";
    }
    if d == 1 {
        proof {
            reveal_strlit("1");
        }
        return "1";
    }
    if d == 2 {
        proof {
            reveal_strlit("2");
        }
        return "2";
    }
    if d == 3 {
        proof {
            reveal_strlit("3");
        }
        return "3";
    }
    if d == 4 {
        proof {
            reveal_strlit("4");
        }
        return "4";
    }
    if d == 5 {
        proof {
            reveal_strlit("5");
        }
        return "5";
    }
    if d == 6 {
        proof {
            reveal_strlit("6");
        }
        return "6";
    }
    if d == 7 {
        proof {
            reveal_strlit("7");
        }
        return "7";
    }
    if d == 8 {
        proof {
            reveal_strlit("8");
        }
        return "8";
    }
    if d == 9 {
        proof {
            reveal_strlit("9");
        }
        return "9";
    }
    if d == 10 {
        if upper {
            proof {
                reveal_strlit("A");
            }
            return "A";
        }
        proof {
            reveal_strlit("a");
        }
        return "a";
    }
    if d == 11 {
        if upper {
            proof {
                reveal_strlit("B");
            }
            return "B";
        }
        proof {
            reveal_strlit("b");
        }
        return "b";
    }
    if d == 12 {
        if upper {
            proof {
                reveal_strlit("C");
            }
            return "C";
        }
        proof {
            reveal_strlit("c");
        }
        return "c";
    }
    if d == 13 {
        if upper {
            proof {
                reveal_strlit("D");
            }
            return "D";
        }
        proof {
            reveal_strlit("d");
        }
        return "d";
    }
    if d == 14 {
        if upper {
            proof {
                reveal_strlit("E");
            }
            return "E";
        }
        proof {
            reveal_strlit("e");
        }
        return "e";
    }
    if upper {
        proof {
            reveal_strlit("F");
        }
        return "F";
    }
    proof {
        reveal_strlit("f");
    }
    return "f";
}

} // verus!
