//! Verified string helpers: comparison, key sanitising, and decimal
//! formatting, all specified over character sequences.

use vstd::prelude::*;
use vstd::string::StrSliceExecFns;
use vstd::string::StringExecFns;

verus! {

/// Character-wise string equality.
pub fn str_eq(a: &str, b: &str) -> (r: bool)
    ensures
        r == (a@ == b@),
{
    let alen = a.unicode_len();
    let blen = b.unicode_len();
    if alen != blen {
        return false;
    }
    let mut i: usize = 0;
    while i < alen
        invariant
            alen == a@.len(),
            alen == b@.len(),
            i <= alen,
            forall|j: int| 0 <= j < i ==> a@[j] == b@[j],
        decreases alen - i,
    {
        let ca = a.get_char(i);
        let cb = b.get_char(i);
        if ca != cb {
            return false;
        }
        i = i + 1;
    }
    proof {
        assert(a@ =~= b@);
    }
    true
}

/// What sanitising does to one character.
pub open spec fn sanitize_char(c: char) -> char {
    if c == ' ' {
        '_'
    } else {
        c
    }
}

/// Replace every space in a key with an underscore.
pub fn sanitize_key(k: &str) -> (r: String)
    ensures
        r@ == k@.map_values(|c: char| sanitize_char(c)),
{
    let n = k.unicode_len();
    let mut out = String::new();
    let mut i: usize = 0;
    while i < n
        invariant
            n == k@.len(),
            i <= n,
            out@ == k@.take(i as int).map_values(|c: char| sanitize_char(c)),
        decreases n - i,
    {
        let c = k.get_char(i);
        if c == ' ' {
            out.append("_");
            proof {
                reveal_strlit("_");
            }
        } else {
            let piece = k.substring_char(i, i + 1);
            out.append(piece);
        }
        proof {
            assert(k@.take(i + 1).map_values(|c: char| sanitize_char(c)) =~= k@.take(
                i as int,
            ).map_values(|c: char| sanitize_char(c)).push(sanitize_char(k@[i as int])));
            assert(k@.subrange(i as int, i + 1) =~= seq![k@[i as int]]);
        }
        i = i + 1;
    }
    proof {
        assert(k@.take(n as int) =~= k@);
    }
    out
}

/// The decimal digits of a natural number, most significant first.
pub open spec fn dec_digits(n: nat) -> Seq<char>
    decreases n,
{
    if n < 10 {
        seq![digit_char(n)]
    } else {
        dec_digits(n / 10).push(digit_char(n % 10))
    }
}

/// The character for one decimal digit.
pub open spec fn digit_char(d: nat) -> char {
    if d == 0 {
        '0'
    } else if d == 1 {
        '1'
    } else if d == 2 {
        '2'
    } else if d == 3 {
        '3'
    } else if d == 4 {
        '4'
    } else if d == 5 {
        '5'
    } else if d == 6 {
        '6'
    } else if d == 7 {
        '7'
    } else if d == 8 {
        '8'
    } else {
        '9'
    }
}

/// One decimal digit as a string.
fn digit_str(d: u64) -> (r: &'static str)
    requires
        d < 10,
    ensures
        r@ =~= seq![digit_char(d as nat)],
{
    proof {
        reveal_strlit("0");
        reveal_strlit("1");
        reveal_strlit("2");
        reveal_strlit("3");
        reveal_strlit("4");
        reveal_strlit("5");
        reveal_strlit("6");
        reveal_strlit("7");
        reveal_strlit("8");
        reveal_strlit("9");
    }
    match d {
        0 => "0",
        1 => "1",
        2 => "2",
        3 => "3",
        4 => "4",
        5 => "5",
        6 => "6",
        7 => "7",
        8 => "8",
        _ => "9",
    }
}

/// Format a number in decimal.
pub fn u64_to_string(x: u64) -> (s: String)
    ensures
        s@ == dec_digits(x as nat),
    decreases x,
{
    if x < 10 {
        let mut s = String::new();
        s.append(digit_str(x));
        proof {
            assert(s@ =~= dec_digits(x as nat));
        }
        s
    } else {
        let mut s = u64_to_string(x / 10);
        s.append(digit_str(x % 10));
        proof {
            assert(s@ =~= dec_digits(x as nat));
        }
        s
    }
}

/// Join strings with a separator between consecutive elements.
pub open spec fn joined(parts: Seq<Seq<char>>, sep: Seq<char>) -> Seq<char>
    decreases parts.len(),
{
    if parts.len() == 0 {
        Seq::empty()
    } else if parts.len() == 1 {
        parts[0]
    } else {
        joined(parts.drop_last(), sep) + sep + parts.last()
    }
}

/// Join the parts with the separator between consecutive elements.
pub fn join_strings(parts: &Vec<String>, sep: &str) -> (r: String)
    ensures
        r@ == joined(parts@.map_values(|p: String| p@), sep@),
{
    let ghost gp = parts@.map_values(|p: String| p@);
    let mut out = String::new();
    let mut i: usize = 0;
    while i < parts.len()
        invariant
            gp == parts@.map_values(|p: String| p@),
            gp.len() == parts@.len(),
            i <= parts@.len(),
            out@ == joined(gp.take(i as int), sep@),
        decreases parts@.len() - i,
    {
        if i > 0 {
            out.append(sep);
        }
        out.append(parts[i].as_str());
        proof {
            assert(gp.take(i + 1).drop_last() =~= gp.take(i as int));
            assert(gp.take(i + 1).last() == gp[i as int]);
            if i == 0 {
                assert(joined(gp.take(1), sep@) == gp[0]);
                assert(out@ =~= gp[0]);
            }
        }
        i = i + 1;
    }
    proof {
        assert(gp.take(parts@.len() as int) =~= gp);
    }
    out
}

} // verus!
