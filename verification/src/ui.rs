//! Number formatting for the dashboard's display.

use vstd::prelude::*;
use crate::text::{chars_of, digit_char, int_decimal, nat_decimal, push_char, push_int_decimal};

verus! {

/// `d` with a comma before each group of three characters counted from the
/// right, wherever at least one character stands before that group.
pub open spec fn group_thousands(d: Seq<char>) -> Seq<char>
    decreases d.len(),
{
    if d.len() <= 3 {
        d
    } else {
        group_thousands(d.subrange(0, d.len() - 3)) + seq![','] + d.subrange(d.len() - 3, d.len() as int)
    }
}

fn push_grouped(out: &mut String, d: &Vec<char>, hi: usize)
    requires
        hi <= d@.len(),
    ensures
        final(out)@ == old(out)@ + group_thousands(d@.take(hi as int)),
    decreases hi,
{
    let ghost t = d@.take(hi as int);
    if hi <= 3 {
        let mut i: usize = 0;
        while i < hi
            invariant
                i <= hi,
                hi <= d@.len(),
                t == d@.take(hi as int),
                out@ == old(out)@ + t.take(i as int),
            decreases hi - i,
        {
            push_char(out, d[i]);
            assert(t.take(i + 1) =~= t.take(i as int).push(t[i as int]));
            i = i + 1;
        }
        assert(t.take(hi as int) =~= t);
    } else {
        push_grouped(out, d, hi - 3);
        assert(t.subrange(0, t.len() - 3) =~= d@.take(hi - 3));
        let ghost mid = out@;
        push_char(out, ',');
        push_char(out, d[hi - 3]);
        push_char(out, d[hi - 2]);
        push_char(out, d[hi - 1]);
        assert(out@ =~= mid + seq![','] + t.subrange(t.len() - 3, t.len() as int));
    }
}

/// Writes `n` in decimal with commas between groups of three digits, e.g.
/// 1234567 as "1,234,567". A minus sign counts as a character when grouping.
pub fn format_number(n: i64) -> (s: String)
    ensures
        s@ == group_thousands(int_decimal(n as int)),
{
    let mut digits = String::new();
    push_int_decimal(&mut digits, n);
    let d = chars_of(digits.as_str());
    let mut s = String::new();
    push_grouped(&mut s, &d, d.len());
    assert(d@.take(d@.len() as int) =~= d@);
    assert(s@ =~= group_thousands(int_decimal(n as int)));
    s
}

/// `s` without its commas.
pub open spec fn strip_commas(s: Seq<char>) -> Seq<char>
    decreases s.len(),
{
    if s.len() == 0 {
        s
    } else if s.last() == ',' {
        strip_commas(s.drop_last())
    } else {
        strip_commas(s.drop_last()).push(s.last())
    }
}

proof fn lemma_strip_commas_append(a: Seq<char>, b: Seq<char>)
    ensures
        strip_commas(a + b) == strip_commas(a) + strip_commas(b),
    decreases b.len(),
{
    if b.len() == 0 {
        assert(a + b =~= a);
        assert(strip_commas(a) + strip_commas(b) =~= strip_commas(a));
    } else {
        lemma_strip_commas_append(a, b.drop_last());
        assert((a + b).drop_last() =~= a + b.drop_last());
    }
}

proof fn lemma_strip_commas_none(s: Seq<char>)
    requires
        !s.contains(','),
    ensures
        strip_commas(s) == s,
    decreases s.len(),
{
    if s.len() > 0 {
        assert(!s.drop_last().contains(',')) by {
            if s.drop_last().contains(',') {
                let k = choose|k: int| 0 <= k < s.drop_last().len() && s.drop_last()[k] == ',';
                assert(s[k] == ',');
            }
        }
        lemma_strip_commas_none(s.drop_last());
        assert(s.last() != ',') by {
            assert(s[s.len() - 1] == s.last());
        }
        assert(s.drop_last().push(s.last()) =~= s);
    }
}

/// Grouping only inserts commas: taking the commas out of the grouped text
/// gives back the text that was grouped.
pub proof fn lemma_grouping_only_adds_commas(d: Seq<char>)
    requires
        !d.contains(','),
    ensures
        strip_commas(group_thousands(d)) == d,
    decreases d.len(),
{
    if d.len() <= 3 {
        lemma_strip_commas_none(d);
    } else {
        let a = d.subrange(0, d.len() - 3);
        let b = d.subrange(d.len() - 3, d.len() as int);
        assert(!a.contains(',')) by {
            if a.contains(',') {
                let k = choose|k: int| 0 <= k < a.len() && a[k] == ',';
                assert(d[k] == ',');
            }
        }
        assert(!b.contains(',')) by {
            if b.contains(',') {
                let k = choose|k: int| 0 <= k < b.len() && b[k] == ',';
                assert(d[k + d.len() - 3] == ',');
            }
        }
        lemma_grouping_only_adds_commas(a);
        lemma_strip_commas_append(group_thousands(a) + seq![','], b);
        lemma_strip_commas_append(group_thousands(a), seq![',']);
        lemma_strip_commas_none(b);
        assert(strip_commas(seq![',']) =~= Seq::<char>::empty()) by {
            let c = seq![','];
            assert(c.len() == 1 && c.last() == ',');
            assert(c.drop_last() =~= Seq::<char>::empty());
            assert(strip_commas(c) == strip_commas(c.drop_last()));
        }
        assert(a + b =~= d);
    }
}


proof fn lemma_nat_decimal_no_comma(n: nat)
    ensures
        !nat_decimal(n).contains(','),
    decreases n,
{
    if n >= 10 {
        lemma_nat_decimal_no_comma(n / 10);
        let d = nat_decimal(n);
        assert(d == nat_decimal(n / 10).push(digit_char(n % 10)));
        if d.contains(',') {
            let k = choose|k: int| 0 <= k < d.len() && d[k] == ',';
            if k < d.len() - 1 {
                assert(nat_decimal(n / 10)[k] == ',');
            } else {
                assert(d[k] == digit_char(n % 10));
            }
        }
    } else {
        assert(nat_decimal(n) == seq![digit_char(n)]);
        if nat_decimal(n).contains(',') {
            let k = choose|k: int| 0 <= k < nat_decimal(n).len() && nat_decimal(n)[k] == ',';
            assert(nat_decimal(n)[k] == digit_char(n));
        }
    }
}

/// The grouped form of a number reads back as the number: removing the
/// commas from `format_number(n)` leaves `n` as `Display` writes it.
pub proof fn lemma_format_number_reads_back(n: int)
    ensures
        strip_commas(group_thousands(int_decimal(n))) == int_decimal(n),
{
    if n < 0 {
        let m = nat_decimal((-n) as nat);
        lemma_nat_decimal_no_comma((-n) as nat);
        let s = seq!['-'] + m;
        if s.contains(',') {
            let k = choose|k: int| 0 <= k < s.len() && s[k] == ',';
            if k > 0 {
                assert(m[k - 1] == ',');
            }
        }
        lemma_grouping_only_adds_commas(s);
    } else {
        lemma_nat_decimal_no_comma(n as nat);
        lemma_grouping_only_adds_commas(int_decimal(n));
    }
}

/// The shape of grouped text: for comma-free, non-empty `d`, the grouped text
/// has a comma exactly at the positions that stand a multiple of four places
/// from its end, so it never starts with a comma, its first group holds one to
/// three characters and every later group exactly three; and taking the commas
/// out gives `d` back.
pub proof fn lemma_grouping_shape(d: Seq<char>)
    requires
        d.len() > 0,
        !d.contains(','),
    ensures
        group_thousands(d).len() % 4 != 0,
        group_thousands(d)[0] != ',',
        forall|p: int|
            0 <= p < group_thousands(d).len() ==> (#[trigger] group_thousands(d)[p] == ',' <==> (
            group_thousands(d).len() - p) % 4 == 0),
        strip_commas(group_thousands(d)) == d,
    decreases d.len(),
{
    lemma_grouping_only_adds_commas(d);
    let g = group_thousands(d);
    if d.len() <= 3 {
        assert forall|p: int| 0 <= p < g.len() implies (#[trigger] g[p] == ',' <==> (g.len() - p) % 4
            == 0) by {
            assert(g[p] != ',') by {
                if g[p] == ',' {
                    assert(d.contains(','));
                }
            }
        }
    } else {
        let a = d.subrange(0, d.len() - 3);
        let b = d.subrange(d.len() - 3, d.len() as int);
        assert(!a.contains(',')) by {
            if a.contains(',') {
                let k = choose|k: int| 0 <= k < a.len() && a[k] == ',';
                assert(d[k] == ',');
            }
        }
        lemma_grouping_shape(a);
        let ga = group_thousands(a);
        assert(g == ga + seq![','] + b);
        let n = ga.len() as int;
        assert forall|p: int| 0 <= p < g.len() implies (#[trigger] g[p] == ',' <==> (g.len() - p) % 4
            == 0) by {
            if p < n {
                assert(g[p] == ga[p]);
                assert(g.len() - p == (ga.len() - p) + 4);
            } else if p == n {
                assert(g[p] == ',');
            } else {
                assert(g[p] == b[p - n - 1]);
                assert(b[p - n - 1] == d[p - n - 1 + d.len() - 3]);
                if g[p] == ',' {
                    assert(d.contains(','));
                }
            }
        }
        assert(g[0] == ga[0]);
    }
}

/// What `format_number(n)` writes has the grouping shape: no leading comma, a
/// first group of one to three characters, then groups of exactly three, and
/// without its commas it is `n` as `Display` writes it.
pub proof fn lemma_format_number_shape(n: int)
    ensures
        group_thousands(int_decimal(n))[0] != ',',
        group_thousands(int_decimal(n)).len() % 4 != 0,
        forall|p: int|
            0 <= p < group_thousands(int_decimal(n)).len() ==> (#[trigger] group_thousands(
                int_decimal(n),
            )[p] == ',' <==> (group_thousands(int_decimal(n)).len() - p) % 4 == 0),
        strip_commas(group_thousands(int_decimal(n))) == int_decimal(n),
{
    let d = int_decimal(n);
    if n < 0 {
        let m = nat_decimal((-n) as nat);
        lemma_nat_decimal_no_comma((-n) as nat);
        if d.contains(',') {
            let k = choose|k: int| 0 <= k < d.len() && d[k] == ',';
            if k > 0 {
                assert(m[k - 1] == ',');
            }
        }
    } else {
        lemma_nat_decimal_no_comma(n as nat);
    }
    assert(d.len() > 0);
    lemma_grouping_shape(d);
}

} // verus!
