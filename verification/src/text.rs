//! Decimal numbers and padding for the texts that the library composes.

use vstd::prelude::*;
use vstd::string::{StrSliceExecFns, StringExecFns};

verus! {

pub open spec fn digit_s(d: nat) -> char {
    if d == 0 {
        '0'
    } else if d == 1 {
        '1'
    } else if d == 2 {
        '2'
    } else if d == 3 {
        '3'
    } else if d == 4 {
        '4'
    } else if d == 5 {
        '5'
    } else if d == 6 {
        '6'
    } else if d == 7 {
        '7'
    } else if d == 8 {
        '8'
    } else {
        '9'
    }
}

/// `n` in decimal, without leading zeros.
pub open spec fn decimal_s(n: nat) -> Seq<char>
    decreases n,
{
    if n < 10 {
        seq![digit_s(n)]
    } else {
        decimal_s(n / 10).push(digit_s(n % 10))
    }
}

/// `k` spaces.
pub open spec fn spaces_s(k: int) -> Seq<char> {
    Seq::new(
        if k > 0 {
            k as nat
        } else {
            0
        },
        |i: int| ' ',
    )
}

/// `s` filled up with spaces on the right to `w` characters.
pub open spec fn pad_right_s(s: Seq<char>, w: nat) -> Seq<char> {
    s + spaces_s(w - s.len())
}

/// `s` filled up with spaces on the left to `w` characters.
pub open spec fn pad_left_s(s: Seq<char>, w: nat) -> Seq<char> {
    spaces_s(w - s.len()) + s
}

fn digit(d: usize) -> (r: &'static str)
    requires
        d < 10,
    ensures
        r@ == seq![digit_s(d as nat)],
{
    proof {
        reveal_strlit("0");
        reveal_strlit("1");
        reveal_strlit("2");
        reveal_strlit("3");
        reveal_strlit("4");
        reveal_strlit("5");
        reveal_strlit("6");
        reveal_strlit("7");
        reveal_strlit("8");
        reveal_strlit("9");
    }
    let r = match d {
        0 => "0",
        1 => "1",
        2 => "2",
        3 => "3",
        4 => "4",
        5 => "5",
        6 => "6",
        7 => "7",
        8 => "8",
        _ => "9",
    };
    assert(r@ =~= seq![digit_s(d as nat)]);
    r
}

/// `n` in decimal.
pub fn decimal(n: usize) -> (s: String)
    ensures
        s@ == decimal_s(n as nat),
    decreases n,
{
    if n < 10 {
        digit(n).to_owned()
    } else {
        let mut s = decimal(n / 10);
        s.append(digit(n % 10));
        assert(s@ =~= decimal_s(n as nat));
        s
    }
}

fn spaces(k: usize) -> (s: String)
    ensures
        s@ == spaces_s(k as int),
{
    let mut s = "".to_owned();
    proof {
        reveal_strlit("");
        reveal_strlit(" ");
    }
    let mut i: usize = 0;
    while i < k
        invariant
            i <= k,
            s@ =~= spaces_s(i as int),
            " "@ =~= seq![' '],
        decreases k - i,
    {
        s.append(" ");
        i += 1;
    }
    s
}

/// `s` filled up with spaces on the right to `w` characters.
pub fn pad_right(s: &str, w: usize) -> (r: String)
    ensures
        r@ == pad_right_s(s@, w as nat),
{
    let n = s.unicode_len();
    let mut r = s.to_owned();
    if n < w {
        r.append(spaces(w - n).as_str());
    } else {
        assert(r@ =~= pad_right_s(s@, w as nat));
    }
    r
}

/// `s` filled up with spaces on the left to `w` characters.
pub fn pad_left(s: &str, w: usize) -> (r: String)
    ensures
        r@ == pad_left_s(s@, w as nat),
{
    let n = s.unicode_len();
    if n < w {
        let mut r = spaces(w - n);
        r.append(s);
        r
    } else {
        let r = s.to_owned();
        assert(r@ =~= pad_left_s(s@, w as nat));
        r
    }
}

} // verus!
