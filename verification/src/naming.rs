//! The partition naming policy: a pure, total map from a date to the name of
//! its calendar-month partition.

use vstd::prelude::*;
use crate::date::{Date, valid_date};

verus! {

pub open spec fn digit_char(n: int) -> char {
    if n == 0 {
        '0'
    } else if n == 1 {
        '1'
    } else if n == 2 {
        '2'
    } else if n == 3 {
        '3'
    } else if n == 4 {
        '4'
    } else if n == 5 {
        '5'
    } else if n == 6 {
        '6'
    } else if n == 7 {
        '7'
    } else if n == 8 {
        '8'
    } else {
        '9'
    }
}

/// `"y"` + four-digit year + `"m"` + two-digit month, both zero-padded.
pub open spec fn spec_partition_name(d: Date) -> Seq<char> {
    seq![
        'y',
        digit_char(d.year as int / 1000 % 10),
        digit_char(d.year as int / 100 % 10),
        digit_char(d.year as int / 10 % 10),
        digit_char(d.year as int % 10),
        'm',
        digit_char(d.month as int / 10 % 10),
        digit_char(d.month as int % 10),
    ]
}

pub(crate) fn digit_str(d: u32) -> (r: &'static str)
    requires
        d < 10,
    ensures
        r@ == seq![digit_char(d as int)],
{
    proof {
        reveal_strlit("0");
        reveal_strlit("1");
        reveal_strlit("2");
        reveal_strlit("3");
        reveal_strlit("4");
        reveal_strlit("5");
        reveal_strlit("6");
        reveal_strlit("7");
        reveal_strlit("8");
        reveal_strlit("9");
    }
    let r = if d == 0 {
        "0"
    } else if d == 1 {
        "1"
    } else if d == 2 {
        "2"
    } else if d == 3 {
        "3"
    } else if d == 4 {
        "4"
    } else if d == 5 {
        "5"
    } else if d == 6 {
        "6"
    } else if d == 7 {
        "7"
    } else if d == 8 {
        "8"
    } else {
        "9"
    };
    proof {
        assert(r@ =~= seq![digit_char(d as int)]);
    }
    r
}

/// The canonical name of the partition holding dates of `date`'s calendar
/// month.
pub fn generate_partition_name(date: Date) -> (r: String)
    requires
        valid_date(date),
    ensures
        r@ == spec_partition_name(date),
{
    let mut s = String::new();
    s.append("y");
    s.append(digit_str(date.year / 1000));
    s.append(digit_str(date.year / 100 % 10));
    s.append(digit_str(date.year / 10 % 10));
    s.append(digit_str(date.year % 10));
    s.append("m");
    s.append(digit_str(date.month / 10));
    s.append(digit_str(date.month % 10));
    proof {
        reveal_strlit("y");
        reveal_strlit("m");
        assert(date.year as int / 1000 % 10 == date.year as int / 1000);
        assert(date.month as int / 10 % 10 == date.month as int / 10);
        assert(s@ =~= spec_partition_name(date));
    }
    s
}

pub(crate) proof fn lemma_digit_char_injective(a: int, b: int)
    requires
        0 <= a < 10,
        0 <= b < 10,
        digit_char(a) == digit_char(b),
    ensures
        a == b,
{
}

/// Two dates share a partition name exactly when they fall in the same
/// calendar month: the naming policy is total, deterministic, and injective
/// on (year, month).
#[verifier::rlimit(60)]
pub proof fn lemma_partition_name_injective(d1: Date, d2: Date)
    requires
        valid_date(d1),
        valid_date(d2),
    ensures
        spec_partition_name(d1) == spec_partition_name(d2) <==> (d1.year == d2.year && d1.month
            == d2.month),
{
    if d1.year == d2.year && d1.month == d2.month {
        assert(spec_partition_name(d1) =~= spec_partition_name(d2));
    }
    if spec_partition_name(d1) == spec_partition_name(d2) {
        let y1 = d1.year as int;
        let y2 = d2.year as int;
        let m1 = d1.month as int;
        let m2 = d2.month as int;
        assert(spec_partition_name(d1)[1] == spec_partition_name(d2)[1]);
        assert(spec_partition_name(d1)[2] == spec_partition_name(d2)[2]);
        assert(spec_partition_name(d1)[3] == spec_partition_name(d2)[3]);
        assert(spec_partition_name(d1)[4] == spec_partition_name(d2)[4]);
        assert(spec_partition_name(d1)[6] == spec_partition_name(d2)[6]);
        assert(spec_partition_name(d1)[7] == spec_partition_name(d2)[7]);
        lemma_digit_char_injective(y1 / 1000 % 10, y2 / 1000 % 10);
        lemma_digit_char_injective(y1 / 100 % 10, y2 / 100 % 10);
        lemma_digit_char_injective(y1 / 10 % 10, y2 / 10 % 10);
        lemma_digit_char_injective(y1 % 10, y2 % 10);
        lemma_digit_char_injective(m1 / 10 % 10, m2 / 10 % 10);
        lemma_digit_char_injective(m1 % 10, m2 % 10);
        assert(y1 == (y1 / 1000 % 10) * 1000 + (y1 / 100 % 10) * 100 + (y1 / 10 % 10) * 10 + y1
            % 10);
        assert(y2 == (y2 / 1000 % 10) * 1000 + (y2 / 100 % 10) * 100 + (y2 / 10 % 10) * 10 + y2
            % 10);
        assert(m1 == (m1 / 10 % 10) * 10 + m1 % 10);
        assert(m2 == (m2 / 10 % 10) * 10 + m2 % 10);
    }
}

} // verus!
