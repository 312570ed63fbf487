//! Decimal rendering of catalog codes, used to build the
//! course-identifying error messages.
use vstd::prelude::*;

verus! {

/// The character of one decimal digit.
pub open spec fn digit_char(d: int) -> char {
    "0123456789"@[d]
}

/// The decimal digits of a number, most significant first.
pub open spec fn dec_digits(n: nat) -> Seq<char>
    decreases n,
{
    if n < 10 {
        seq![digit_char(n as int)]
    } else {
        dec_digits(n / 10) + seq![digit_char((n % 10) as int)]
    }
}

/// The characters of a digit stack read from the top: the digits were
/// pushed least significant first, so reading from the top yields the
/// most significant first.
pub open spec fn digits_rev_chars(ds: Seq<u8>) -> Seq<char> {
    Seq::new(ds.len(), |i: int| digit_char(ds[ds.len() - 1 - i] as int))
}

/// Renders a number in decimal, without sign or padding.
pub fn u32_to_string(n: u32) -> (s: String)
    ensures
        s@ == dec_digits(n as nat),
{
    proof {
        reveal_strlit("0123456789");
    }
    let mut digits: Vec<u8> = Vec::new();
    let mut m = n;
    proof {
        assert(digits_rev_chars(digits@) =~= Seq::<char>::empty());
        assert(dec_digits(m as nat) + digits_rev_chars(digits@) =~= dec_digits(n as nat));
    }
    loop
        invariant_except_break
            dec_digits(n as nat) == dec_digits(m as nat) + digits_rev_chars(digits@),
        invariant
            forall|k: int| 0 <= k < digits@.len() ==> digits@[k] < 10,
        ensures
            digits@.len() > 0,
            forall|k: int| 0 <= k < digits@.len() ==> digits@[k] < 10,
            dec_digits(n as nat) == digits_rev_chars(digits@),
        decreases m,
    {
        let ghost old_digits = digits@;
        let d = (m % 10) as u8;
        digits.push(d);
        proof {
            assert(digits_rev_chars(digits@) =~= seq![digit_char(d as int)] + digits_rev_chars(
                old_digits,
            ));
        }
        if m < 10 {
            proof {
                assert(dec_digits(m as nat) == seq![digit_char(m as int)]);
                assert(dec_digits(m as nat) + digits_rev_chars(old_digits) =~= digits_rev_chars(
                    digits@,
                ));
            }
            break;
        }
        proof {
            assert(dec_digits(m as nat) == dec_digits((m / 10) as nat) + seq![
                digit_char((m % 10) as int),
            ]);
            assert(dec_digits((m / 10) as nat) + digits_rev_chars(digits@) =~= dec_digits(
                m as nat,
            ) + digits_rev_chars(old_digits));
        }
        m = m / 10;
    }
    let table = "0123456789";
    let count = digits.len();
    let mut s = String::new();
    let mut j: usize = 0;
    while j < count
        invariant
            0 <= j <= count,
            count == digits@.len(),
            forall|k: int| 0 <= k < digits@.len() ==> digits@[k] < 10,
            table@ == "0123456789"@,
            table@.len() == 10,
            s@ == digits_rev_chars(digits@).take(j as int),
        decreases count - j,
    {
        let d = digits[count - 1 - j] as usize;
        let piece = table.substring_char(d, d + 1);
        proof {
            assert(piece@ =~= seq![digit_char(d as int)]);
        }
        s.append(piece);
        proof {
            assert(s@ =~= digits_rev_chars(digits@).take(j + 1));
        }
        j += 1;
    }
    proof {
        assert(digits_rev_chars(digits@).take(count as int) =~= digits_rev_chars(digits@));
    }
    s
}

} // verus!
