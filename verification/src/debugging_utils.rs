//! Text forms of values for traces.
use vstd::prelude::*;
use vstd::string::StringExecFns;

use crate::diff_points::DiffPointId;

verus! {

/// The decimal digit `d`.
pub open spec fn digit_char(d: nat) -> char {
    (48 + d) as char
}

/// The decimal form of `n`, without leading zeros.
pub open spec fn decimal(n: nat) -> Seq<char>
    decreases n,
{
    if n < 10 {
        seq![digit_char(n)]
    } else {
        decimal(n / 10).push(digit_char(n % 10))
    }
}

/// The decimal forms of the identifiers, separated by a comma and a space.
pub open spec fn joined_ids(ids: Seq<DiffPointId>) -> Seq<char>
    decreases ids.len(),
{
    if ids.len() == 0 {
        Seq::empty()
    } else if ids.len() == 1 {
        decimal(ids[0].0 as nat)
    } else {
        joined_ids(ids.drop_last()) + seq![',', ' '] + decimal(ids.last().0 as nat)
    }
}

/// The list form of the identifiers: their decimal forms between brackets.
pub open spec fn display_ids(ids: Seq<DiffPointId>) -> Seq<char> {
    seq!['['] + joined_ids(ids) + seq![']']
}

fn digit_str(d: u64) -> (s: &'static str)
    requires
        d < 10,
    ensures
        s@ == seq![digit_char(d as nat)],
{
    proof {
        reveal_strlit("0");
        reveal_strlit("1");
        reveal_strlit("2");
        reveal_strlit("3");
        reveal_strlit("4");
        reveal_strlit("5");
        reveal_strlit("6");
        reveal_strlit("7");
        reveal_strlit("8");
        reveal_strlit("9");
    }
    if d == 0 {
        "0"
    } else if d == 1 {
        "1"
    } else if d == 2 {
        "2"
    } else if d == 3 {
        "3"
    } else if d == 4 {
        "4"
    } else if d == 5 {
        "5"
    } else if d == 6 {
        "6"
    } else if d == 7 {
        "7"
    } else if d == 8 {
        "8"
    } else {
        "9"
    }
}

fn push_decimal(out: &mut String, n: u64)
    ensures
        final(out)@ == old(out)@ + decimal(n as nat),
    decreases n,
{
    if n >= 10 {
        push_decimal(out, n / 10);
    }
    out.append(digit_str(n % 10));
    proof {
        if n >= 10 {
            assert(decimal(n as nat) == decimal((n / 10) as nat).push(digit_char((n % 10) as nat)));
        }
    }
}

/// The identifiers in list form, as `[3, 1, 4]`.
pub fn display_diff_point_ids_for_tracing(diff_point_ids: &[DiffPointId]) -> (s: String)
    ensures
        s@ == display_ids(diff_point_ids@),
{
    let mut out = String::new();
    proof {
        reveal_strlit("[");
        reveal_strlit("]");
        reveal_strlit(", ");
    }
    out.append("[");
    let mut i: usize = 0;
    while i < diff_point_ids.len()
        invariant
            0 <= i <= diff_point_ids@.len(),
            out@ == seq!['['] + joined_ids(diff_point_ids@.take(i as int)),
        decreases diff_point_ids@.len() - i,
    {
        let ghost before = out@;
        if i > 0 {
            out.append(", ");
        }
        push_decimal(&mut out, diff_point_ids[i].0);
        proof {
            let t = diff_point_ids@.take(i + 1);
            assert(t.drop_last() =~= diff_point_ids@.take(i as int));
            assert(t.last() == diff_point_ids@[i as int]);
            if i == 0 {
                assert(joined_ids(diff_point_ids@.take(0)) =~= Seq::<char>::empty());
                assert(out@ =~= seq!['['] + joined_ids(t));
            } else {
                reveal_strlit(", ");
                assert(", "@ =~= seq![',', ' ']);
                assert(joined_ids(t) == joined_ids(t.drop_last()) + seq![',', ' '] + decimal(
                    t.last().0 as nat,
                ));
                assert(out@ =~= seq!['['] + joined_ids(t));
            }
        }
        i += 1;
    }
    out.append("]");
    proof {
        assert(diff_point_ids@.take(diff_point_ids@.len() as int) =~= diff_point_ids@);
    }
    out
}

} // verus!
