//! Output formatting: a matched line as it is printed, with its decimal
//! line number and a colon in front when line numbers are requested.

use vstd::prelude::*;

verus! {

/// The character for one decimal digit.
pub open spec fn digit_char(d: nat) -> char {
    (48 + d) as char
}

/// The decimal digits of `n`, most significant first, with no leading
/// zeros (`0` itself is the single digit `'0'`).
pub open spec fn dec_digits(n: nat) -> Seq<char>
    decreases n,
{
    if n < 10 {
        seq![digit_char(n)]
    } else {
        dec_digits(n / 10).push(digit_char(n % 10))
    }
}

/// One line of output: the line text alone, or prefixed by its line
/// number and a colon when line numbers are requested.
pub open spec fn spec_render(n: nat, line: Seq<char>, show_line_number: bool) -> Seq<char> {
    if show_line_number {
        dec_digits(n) + seq![':'] + line
    } else {
        line
    }
}

/// The digit values of `digs`, read back to front, as characters.
spec fn digits_reversed(digs: Seq<usize>) -> Seq<char> {
    Seq::new(digs.len(), |k: int| digit_char(digs[digs.len() - 1 - k] as nat))
}

fn append_digit(r: &mut String, d: usize)
    requires
        d < 10,
    ensures
        final(r)@ == old(r)@.push(digit_char(d as nat)),
{
    let digits: &str = "0123456789";
    proof {
        reveal_strlit("0123456789");
    }
    let ds = digits.substring_char(d, d + 1);
    proof {
        assert(ds@ =~= seq![digit_char(d as nat)]);
    }
    r.append(ds);
    proof {
        assert(r@ =~= old(r)@.push(digit_char(d as nat)));
    }
}

/// The decimal rendering of `n`.
pub fn usize_to_string(n: usize) -> (r: String)
    ensures
        r@ == dec_digits(n as nat),
{
    let mut r = String::new();
    if n == 0 {
        append_digit(&mut r, 0);
        proof {
            assert(r@ =~= dec_digits(0));
        }
        return r;
    }
    let mut digs: Vec<usize> = Vec::new();
    let mut cur: usize = n;
    proof {
        assert(dec_digits(n as nat) =~= dec_digits(cur as nat) + digits_reversed(digs@));
    }
    while cur > 0
        invariant
            forall|k: int| 0 <= k < digs@.len() ==> #[trigger] digs@[k] < 10,
            cur > 0 ==> dec_digits(n as nat) == dec_digits(cur as nat) + digits_reversed(digs@),
            cur == 0 ==> dec_digits(n as nat) == digits_reversed(digs@),
        decreases cur,
    {
        let d = cur % 10;
        let ghost old_digs = digs@;
        let ghost old_cur = cur;
        digs.push(d);
        cur = cur / 10;
        proof {
            assert(digits_reversed(digs@) =~= seq![digit_char(d as nat)] + digits_reversed(
                old_digs,
            ));
            if old_cur >= 10 {
                assert(dec_digits(old_cur as nat) == dec_digits((old_cur / 10) as nat).push(
                    digit_char((old_cur % 10) as nat),
                ));
                assert(dec_digits(old_cur as nat) + digits_reversed(old_digs) =~= dec_digits(
                    cur as nat,
                ) + digits_reversed(digs@));
            } else {
                assert(dec_digits(old_cur as nat) =~= seq![digit_char(d as nat)]);
                assert(dec_digits(old_cur as nat) + digits_reversed(old_digs) =~= digits_reversed(
                    digs@,
                ));
            }
        }
    }
    let mut i: usize = digs.len();
    while i > 0
        invariant
            forall|k: int| 0 <= k < digs@.len() ==> #[trigger] digs@[k] < 10,
            i <= digs@.len(),
            r@.len() == digs@.len() - i,
            forall|k: int|
                0 <= k < r@.len() ==> r@[k] == digit_char(
                    digs@[digs@.len() - 1 - k] as nat,
                ),
        decreases i,
    {
        i -= 1;
        append_digit(&mut r, digs[i]);
    }
    proof {
        assert(r@ =~= digits_reversed(digs@));
    }
    r
}

/// The printed form of one match, per `spec_render`.
pub fn render_match(line_number: usize, line_text: &str, show_line_number: bool) -> (r: String)
    ensures
        r@ == spec_render(line_number as nat, line_text@, show_line_number),
{
    if show_line_number {
        let mut r = usize_to_string(line_number);
        let colon: &str = ":";
        proof {
            reveal_strlit(":");
        }
        r.append(colon);
        r.append(line_text);
        proof {
            assert(r@ =~= dec_digits(line_number as nat) + seq![':'] + line_text@);
        }
        r
    } else {
        line_text.to_owned()
    }
}

} // verus!
