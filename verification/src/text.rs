//! Text: decimal numbers, comparison, and printers of constants.

use vstd::prelude::*;
use vstd::string::*;

verus! {

/// The digit of a number below ten.
pub open spec fn digit_text(d: nat) -> Seq<char> {
    if d == 0 {
        "0"@
    } else if d == 1 {
        "1"@
    } else if d == 2 {
        "2"@
    } else if d == 3 {
        "3"@
    } else if d == 4 {
        "4"@
    } else if d == 5 {
        "5"@
    } else if d == 6 {
        "6"@
    } else if d == 7 {
        "7"@
    } else if d == 8 {
        "8"@
    } else {
        "9"@
    }
}

/// A number in decimal.
pub open spec fn decimal(n: nat) -> Seq<char>
    decreases n,
{
    if n < 10 {
        digit_text(n)
    } else {
        decimal(n / 10) + digit_text(n % 10)
    }
}

fn digit_str(d: usize) -> (r: &'static str)
    requires
        d < 10,
    ensures
        r@ == digit_text(d as nat),
{
    match d {
        0 => "0",
        1 => "1",
        2 => "2",
        3 => "3",
        4 => "4",
        5 => "5",
        6 => "6",
        7 => "7",
        8 => "8",
        _ => "9",
    }
}

/// Adds a number in decimal to a text.
pub fn append_decimal(out: &mut String, n: usize)
    ensures
        final(out)@ == old(out)@ + decimal(n as nat),
    decreases n,
{
    if n >= 10 {
        append_decimal(out, n / 10);
    }
    out.append(digit_str(n % 10));
    proof {
        if n >= 10 {
            assert(old(out)@ + decimal(n as nat / 10) + digit_text(n as nat % 10) =~= old(out)@
                + decimal(n as nat));
        }
    }
}

/// Whether two texts are equal.
pub fn same_text(a: &str, b: &str) -> (r: bool)
    ensures
        r == (a@ == b@),
{
    let n: usize = a.unicode_len();
    if n != b.unicode_len() {
        return false;
    }
    let mut i: usize = 0;
    while i < n
        invariant
            i <= n,
            n == a@.len(),
            n == b@.len(),
            forall|j: int| 0 <= j < i ==> a@[j] == b@[j],
        decreases n - i,
    {
        if a.get_char(i) != b.get_char(i) {
            return false;
        }
        i = i + 1;
    }
    assert(a@ =~= b@);
    true
}

/// That a function prints words: it takes each, and prints equal words alike.
pub open spec fn is_printer<S: Fn(u64) -> String>(show: S) -> bool {
    &&& forall|v: u64| #[trigger] show.requires((v,))
    &&& forall|v: u64, r: String, s: String| #[trigger]
        show.ensures((v,), r) && #[trigger] show.ensures((v,), s) ==> r@ == s@
}

/// That a text is what a printer prints.
pub open spec fn prints<S: Fn(u64) -> String>(show: S, v: u64, r: String) -> bool {
    show.ensures((v,), r)
}

/// What a printer prints of a word.
pub open spec fn printed<S: Fn(u64) -> String>(show: S, v: u64) -> Seq<char> {
    (choose|r: String| #[trigger] prints(show, v, r))@
}

/// Prints a word.
pub fn print_word<S: Fn(u64) -> String>(show: &S, v: u64) -> (r: String)
    requires
        is_printer(*show),
    ensures
        r@ == printed(*show, v),
{
    let r: String = show(v);
    proof {
        assert(prints(*show, v, r));
        let s = choose|s: String| #[trigger] prints(*show, v, s);
        assert(prints(*show, v, s));
        assert(show.ensures((v,), r) && show.ensures((v,), s));
    }
    r
}

} // verus!
