//! What exporting a compiled document decides before it walks the page:
//! only single-page documents are exported.

use vstd::prelude::*;

verus! {

/// The character of a decimal digit.
pub open spec fn digit_char(d: nat) -> char {
    if d == 0 { '0' }
    else if d == 1 { '1' }
    else if d == 2 { '2' }
    else if d == 3 { '3' }
    else if d == 4 { '4' }
    else if d == 5 { '5' }
    else if d == 6 { '6' }
    else if d == 7 { '7' }
    else if d == 8 { '8' }
    else { '9' }
}

/// The decimal representation of `n`, most significant digit first, with no
/// leading zeros.
pub open spec fn decimal(n: nat) -> Seq<char>
    decreases n,
{
    if n < 10 {
        seq![digit_char(n)]
    } else {
        decimal(n / 10).push(digit_char(n % 10))
    }
}

/// The message with which a document of `n` pages is refused.
pub open spec fn multi_page_message(n: nat) -> Seq<char> {
    "Cannot compile multi-page typst document (found "@ + decimal(n) + " pages)"@
}

fn digit_str(d: usize) -> (s: &'static str)
    requires
        d < 10,
    ensures
        s@ == seq![digit_char(d as nat)],
{
    if d == 0 {
        proof { reveal_strlit("0"); }
        "0"
    } else if d == 1 {
        proof { reveal_strlit("1"); }
        "1"
    } else if d == 2 {
        proof { reveal_strlit("2"); }
        "2"
    } else if d == 3 {
        proof { reveal_strlit("3"); }
        "3"
    } else if d == 4 {
        proof { reveal_strlit("4"); }
        "4"
    } else if d == 5 {
        proof { reveal_strlit("5"); }
        "5"
    } else if d == 6 {
        proof { reveal_strlit("6"); }
        "6"
    } else if d == 7 {
        proof { reveal_strlit("7"); }
        "7"
    } else if d == 8 {
        proof { reveal_strlit("8"); }
        "8"
    } else {
        proof { reveal_strlit("9"); }
        "9"
    }
}

/// Appends the decimal representation of `n` to `s`.
fn push_decimal(s: &mut String, n: usize)
    ensures
        final(s)@ == old(s)@ + decimal(n as nat),
    decreases n,
{
    let ghost s0 = s@;
    if n >= 10 {
        push_decimal(s, n / 10);
    }
    s.append(digit_str(n % 10));
    assert(s@ =~= s0 + decimal(n as nat));
}

/// Accepts a document of one page; a document of more pages is refused with
/// a message that gives their number. A document has at least one page.
pub fn check_page_count(n_pages: usize) -> (r: Result<(), String>)
    requires
        n_pages >= 1,
    ensures
        r is Ok <==> n_pages == 1,
        r matches Err(m) ==> m@ == multi_page_message(n_pages as nat),
{
    if n_pages > 1 {
        let mut m = "Cannot compile multi-page typst document (found ".to_string();
        push_decimal(&mut m, n_pages);
        m.append(" pages)");
        Err(m)
    } else {
        Ok(())
    }
}

} // verus!
