//! Deterministic shard file names: a fixed prefix, the shard number as a
//! decimal zero-padded to at least eight digits, and a fixed suffix, so
//! names sort in shard-number order for any run below a hundred million
//! shards.

use vstd::prelude::*;
use vstd::string::StringExecFns;

verus! {

/// The character for one decimal digit.
pub open spec fn digit_char(d: nat) -> char {
    if d == 0 {
        '0'
    } else if d == 1 {
        '1'
    } else if d == 2 {
        '2'
    } else if d == 3 {
        '3'
    } else if d == 4 {
        '4'
    } else if d == 5 {
        '5'
    } else if d == 6 {
        '6'
    } else if d == 7 {
        '7'
    } else if d == 8 {
        '8'
    } else {
        '9'
    }
}

/// The decimal digits of `n`, most significant first.
pub open spec fn dec_digits(n: nat) -> Seq<char>
    decreases n,
{
    if n < 10 {
        seq![digit_char(n)]
    } else {
        dec_digits(n / 10).push(digit_char(n % 10))
    }
}

/// `s` left-padded with zeros to at least `w` characters.
pub open spec fn zero_padded(s: Seq<char>, w: nat) -> Seq<char> {
    if s.len() >= w {
        s
    } else {
        Seq::new((w - s.len()) as nat, |i: int| '0') + s
    }
}

/// The file name of the shard numbered `n`.
pub open spec fn spec_shard_name(n: nat) -> Seq<char> {
    "shuffled_doc_"@ + zero_padded(dec_digits(n), 8) + ".jsonl.gz"@
}

/// Digit values least significant first, as the characters they stand
/// for, most significant first.
spec fn rev_chars(s: Seq<usize>) -> Seq<char> {
    Seq::new(s.len(), |i: int| digit_char(s[s.len() - 1 - i] as nat))
}

/// The one-character string for a decimal digit value.
fn digit_str(d: usize) -> (s: &'static str)
    requires
        d < 10,
    ensures
        s@ == seq![digit_char(d as nat)],
{
    proof {
        reveal_strlit("0");
        reveal_strlit("1");
        reveal_strlit("2");
        reveal_strlit("3");
        reveal_strlit("4");
        reveal_strlit("5");
        reveal_strlit("6");
        reveal_strlit("7");
        reveal_strlit("8");
        reveal_strlit("9");
    }
    if d == 0 {
        "0"
    } else if d == 1 {
        "1"
    } else if d == 2 {
        "2"
    } else if d == 3 {
        "3"
    } else if d == 4 {
        "4"
    } else if d == 5 {
        "5"
    } else if d == 6 {
        "6"
    } else if d == 7 {
        "7"
    } else if d == 8 {
        "8"
    } else {
        "9"
    }
}

/// The file name for the shard numbered `n`: prefix, zero-padded decimal,
/// suffix.
pub fn shard_file_name(n: usize) -> (name: String)
    ensures
        name@ == spec_shard_name(n as nat),
{
    let ghost digits = dec_digits(n as nat);

    // Digit values of `n`, least significant first.
    let mut rev: Vec<usize> = Vec::new();
    let mut m = n;
    rev.push(m % 10);
    proof {
        if m / 10 == 0 {
            assert(digits =~= rev_chars(rev@));
        } else {
            assert(rev_chars(rev@) =~= seq![digit_char(m as nat % 10)]);
            assert(digits =~= dec_digits(m as nat / 10) + rev_chars(rev@));
        }
    }
    m = m / 10;
    while m != 0
        invariant
            forall|j: int| 0 <= j < rev@.len() ==> #[trigger] rev@[j] < 10,
            rev@.len() >= 1,
            digits == dec_digits(n as nat),
            m == 0 ==> digits == rev_chars(rev@),
            m != 0 ==> digits == dec_digits(m as nat) + rev_chars(rev@),
        decreases m,
    {
        let ghost rev0 = rev@;
        let ghost m0 = m as nat;
        let d = m % 10;
        rev.push(d);
        m = m / 10;
        proof {
            assert(rev_chars(rev0.push(d)) =~= seq![digit_char(d as nat)] + rev_chars(rev0));
            if m0 < 10 {
                assert(dec_digits(m0) =~= seq![digit_char(m0)]);
                assert(seq![digit_char(m0)] + rev_chars(rev0) =~= seq![digit_char(d as nat)]
                    + rev_chars(rev0));
                assert(digits =~= rev_chars(rev@));
            } else {
                assert(dec_digits(m0) == dec_digits(m0 / 10).push(digit_char(m0 % 10)));
                assert(dec_digits(m0 / 10).push(digit_char(m0 % 10)) + rev_chars(rev0)
                    =~= dec_digits(m0 / 10) + (seq![digit_char(m0 % 10)] + rev_chars(rev0)));
                assert(digits =~= dec_digits(m as nat) + rev_chars(rev@));
            }
        }
    }

    let mut name = String::new();
    name.append("shuffled_doc_");

    // Left-pad with zeros to eight characters.
    let width: usize = 8;
    let mut pads: usize = if rev.len() >= width {
        0
    } else {
        width - rev.len()
    };
    let ghost total_pads = pads as nat;
    proof {
        reveal_strlit("0");
        assert(Seq::new(0nat, |i: int| '0') =~= Seq::<char>::empty());
        assert(name@ =~= "shuffled_doc_"@ + Seq::new(
            (total_pads - pads) as nat,
            |i: int| '0',
        ));
    }
    while pads > 0
        invariant
            pads <= total_pads,
            name@ == "shuffled_doc_"@ + Seq::new((total_pads - pads) as nat, |i: int| '0'),
        decreases pads,
    {
        name.append("0");
        pads = pads - 1;
        proof {
            reveal_strlit("0");
            assert(Seq::new((total_pads - pads) as nat, |i: int| '0') =~= Seq::new(
                (total_pads - pads - 1) as nat,
                |i: int| '0',
            ) + "0"@);
        }
    }
    let ghost padding = Seq::new(total_pads, |i: int| '0');
    let ghost full = rev@;

    // Digits, most significant first.
    proof {
        assert(full.subrange(0, full.len() as int) =~= full);
        assert(digits.take((digits.len() - rev@.len()) as int) =~= Seq::<char>::empty());
        assert(name@ + Seq::<char>::empty() =~= name@);
    }
    let ghost stem = name@;
    while rev.len() > 0
        invariant
            digits == rev_chars(full),
            digits.len() == full.len(),
            rev@.len() <= full.len(),
            rev@ == full.subrange(0, rev@.len() as int),
            forall|j: int| 0 <= j < full.len() ==> #[trigger] full[j] < 10,
            name@ == stem + digits.take((digits.len() - rev@.len()) as int),
        decreases rev@.len(),
    {
        let ghost rev0 = rev@;
        let d = rev.pop().unwrap();
        let ds = digit_str(d);
        name.append(ds);
        proof {
            let c = (digits.len() - rev0.len()) as int;
            assert(rev@ =~= full.subrange(0, rev@.len() as int));
            assert(d == full[rev0.len() - 1]);
            assert(digits[c] == digit_char(full[full.len() - 1 - c] as nat));
            assert(digits[c] == digit_char(d as nat));
            assert(digits.take(c + 1) =~= digits.take(c).push(digits[c]));
            assert((stem + digits.take(c)) + ds@ =~= stem + digits.take(c + 1));
        }
    }
    proof {
        assert(digits.take(digits.len() as int) =~= digits);
    }

    name.append(".jsonl.gz");
    proof {
        if digits.len() >= 8 {
            assert(total_pads == 0);
            assert(padding =~= Seq::<char>::empty());
            assert(zero_padded(digits, 8) == digits);
            assert(("shuffled_doc_"@ + padding) + digits =~= "shuffled_doc_"@ + digits);
        } else {
            assert(zero_padded(digits, 8) =~= padding + digits);
        }
        assert((("shuffled_doc_"@ + padding) + digits) + ".jsonl.gz"@ =~= "shuffled_doc_"@
            + zero_padded(digits, 8) + ".jsonl.gz"@);
    }
    name
}

} // verus!
