//! Encoding of metric records in InfluxDB line protocol.

use vstd::prelude::*;
use crate::text::{
    chars_of, is_digit, lemma_nat_decimal_reads_back, nat_decimal, push_char, int_decimal,
    push_int_decimal,
};
use crate::usage::{RateLimitRecord, UsageRecord};

verus! {

/// What one character of a tag value becomes: backslash, space, comma and
/// equals sign are escaped with a backslash, every other character stays.
pub open spec fn escape_char(c: char) -> Seq<char> {
    if c == '\\' || c == ' ' || c == ',' || c == '=' {
        seq!['\\', c]
    } else {
        seq![c]
    }
}

/// A tag value with every character escaped as `escape_char` says.
pub open spec fn escape_tag(s: Seq<char>) -> Seq<char>
    decreases s.len(),
{
    if s.len() == 0 {
        Seq::empty()
    } else {
        escape_tag(s.drop_last()) + escape_char(s.last())
    }
}

/// Appends the escaped form of `s` to `out`.
fn push_escaped(out: &mut String, s: &str)
    ensures
        final(out)@ == old(out)@ + escape_tag(s@),
{
    let chars = chars_of(s);
    let ghost start = out@;
    let mut i: usize = 0;
    while i < chars.len()
        invariant
            i <= chars@.len(),
            chars@ == s@,
            out@ == start + escape_tag(chars@.take(i as int)),
        decreases chars@.len() - i,
    {
        let c = chars[i];
        if c == '\\' || c == ' ' || c == ',' || c == '=' {
            push_char(out, '\\');
        }
        push_char(out, c);
        proof {
            assert(chars@.take(i + 1).drop_last() =~= chars@.take(i as int));
            assert(out@ =~= start + escape_tag(chars@.take(i + 1)));
        }
        i = i + 1;
    }
    assert(chars@.take(chars@.len() as int) =~= chars@);
}

/// Escapes the special characters of an InfluxDB tag value: backslash,
/// space, comma and equals sign each get a backslash in front.
pub fn escape_tag_value(s: &str) -> (out: String)
    ensures
        out@ == escape_tag(s@),
{
    let mut out = String::new();
    push_escaped(&mut out, s);
    out
}


/// The nanosecond timestamp written for a record taken at `ts` seconds.
pub open spec fn nanos(ts: i64) -> int {
    ts * 1_000_000_000
}

/// True when the nanosecond timestamp of `ts` fits in an `i64`.
pub open spec fn nanos_fit(ts: i64) -> bool {
    i64::MIN <= nanos(ts) <= i64::MAX
}

/// The text of an optional model tag: the model, or nothing.
pub open spec fn model_text(model: Option<String>) -> Seq<char> {
    match model {
        Some(m) => m@,
        None => Seq::empty(),
    }
}

/// The line-protocol line of one usage record.
pub open spec fn usage_line(r: UsageRecord) -> Seq<char> {
    "usage,provider="@ + escape_tag(r.provider@) + ",model="@ + escape_tag(model_text(r.model))
        + " tokens_used="@ + int_decimal(r.tokens_used as int) + ",cost_usd="@ + r.cost_usd@
        + " "@ + int_decimal(nanos(r.ts))
}

/// The line-protocol line of one rate-limit record; a missing soft limit is written as -1.
pub open spec fn rate_line(r: RateLimitRecord) -> Seq<char> {
    "rate_limit,provider="@ + escape_tag(r.provider@) + ",model="@ + escape_tag(model_text(r.model))
        + " hard_limit="@ + int_decimal(r.hard_limit as int) + ",soft_limit="@
        + int_decimal(match r.soft_limit { Some(l) => l as int, None => -1 })
        + ",remaining="@ + int_decimal(r.remaining as int) + ",reset_ts="@
        + int_decimal(r.reset_ts as int) + " "@ + int_decimal(nanos(r.ts))
}

fn push_model(out: &mut String, model: &Option<String>)
    ensures
        final(out)@ == old(out)@ + escape_tag(model_text(*model)),
{
    match model {
        Some(m) => push_escaped(out, m.as_str()),
        None => {
            assert(old(out)@ + escape_tag(Seq::<char>::empty()) =~= old(out)@);
        },
    }
}

fn usage_line_of(r: &UsageRecord) -> (line: String)
    requires
        nanos_fit(r.ts),
    ensures
        line@ == usage_line(*r),
{
    let mut line = String::new();
    line.append("usage,provider=");
    push_escaped(&mut line, r.provider.as_str());
    line.append(",model=");
    push_model(&mut line, &r.model);
    line.append(" tokens_used=");
    push_int_decimal(&mut line, r.tokens_used);
    line.append(",cost_usd=");
    line.append(r.cost_usd.as_str());
    line.append(" ");
    push_int_decimal(&mut line, r.ts * 1_000_000_000);
    proof {
        assert(line@ =~= usage_line(*r));
    }
    line
}

fn rate_line_of(r: &RateLimitRecord) -> (line: String)
    requires
        nanos_fit(r.ts),
    ensures
        line@ == rate_line(*r),
{
    let mut line = String::new();
    line.append("rate_limit,provider=");
    push_escaped(&mut line, r.provider.as_str());
    line.append(",model=");
    push_model(&mut line, &r.model);
    line.append(" hard_limit=");
    push_int_decimal(&mut line, r.hard_limit);
    line.append(",soft_limit=");
    let soft: i64 = match r.soft_limit {
        Some(l) => l,
        None => -1,
    };
    push_int_decimal(&mut line, soft);
    line.append(",remaining=");
    push_int_decimal(&mut line, r.remaining);
    line.append(",reset_ts=");
    push_int_decimal(&mut line, r.reset_ts);
    line.append(" ");
    push_int_decimal(&mut line, r.ts * 1_000_000_000);
    proof {
        assert(line@ =~= rate_line(*r));
    }
    line
}

/// Formats a batch of usage records into InfluxDB line protocol, one line per
/// record, in order. The timestamp is written in nanoseconds.
pub fn format_usage_lines(records: &[UsageRecord]) -> (lines: Vec<String>)
    requires
        forall|i: int| 0 <= i < records@.len() ==> nanos_fit(#[trigger] records@[i].ts),
    ensures
        lines@.len() == records@.len(),
        forall|i: int| 0 <= i < records@.len() ==> #[trigger] lines@[i]@ == usage_line(records@[i]),
{
    let mut lines: Vec<String> = Vec::new();
    let mut i: usize = 0;
    while i < records.len()
        invariant
            i <= records@.len(),
            lines@.len() == i,
            forall|k: int| 0 <= k < records@.len() ==> nanos_fit(#[trigger] records@[k].ts),
            forall|k: int| 0 <= k < i ==> #[trigger] lines@[k]@ == usage_line(records@[k]),
        decreases records@.len() - i,
    {
        let line = usage_line_of(&records[i]);
        lines.push(line);
        i = i + 1;
    }
    lines
}

/// Formats a batch of rate-limit records into InfluxDB line protocol, one line
/// per record, in order. A missing soft limit is written as -1.
pub fn format_rate_lines(records: &[RateLimitRecord]) -> (lines: Vec<String>)
    requires
        forall|i: int| 0 <= i < records@.len() ==> nanos_fit(#[trigger] records@[i].ts),
    ensures
        lines@.len() == records@.len(),
        forall|i: int| 0 <= i < records@.len() ==> #[trigger] lines@[i]@ == rate_line(records@[i]),
{
    let mut lines: Vec<String> = Vec::new();
    let mut i: usize = 0;
    while i < records.len()
        invariant
            i <= records@.len(),
            lines@.len() == i,
            forall|k: int| 0 <= k < records@.len() ==> nanos_fit(#[trigger] records@[k].ts),
            forall|k: int| 0 <= k < i ==> #[trigger] lines@[k]@ == rate_line(records@[k]),
        decreases records@.len() - i,
    {
        let line = rate_line_of(&records[i]);
        lines.push(line);
        i = i + 1;
    }
    lines
}


/// Lines joined with a line feed between each two.
pub open spec fn joined(lines: Seq<Seq<char>>) -> Seq<char>
    decreases lines.len(),
{
    if lines.len() == 0 {
        Seq::empty()
    } else if lines.len() == 1 {
        lines[0]
    } else {
        joined(lines.drop_last()) + seq!['\n'] + lines.last()
    }
}

/// Joins the lines of a batch into one request body, a line feed between each two.
pub fn join_lines(lines: &Vec<String>) -> (body: String)
    ensures
        body@ == joined(lines@.map_values(|l: String| l@)),
{
    let ghost ls = lines@.map_values(|l: String| l@);
    let mut body = String::new();
    let mut i: usize = 0;
    assert(ls.take(0) =~= Seq::<Seq<char>>::empty());
    while i < lines.len()
        invariant
            i <= lines@.len(),
            ls == lines@.map_values(|l: String| l@),
            body@ == joined(ls.take(i as int)),
        decreases lines@.len() - i,
    {
        let ghost before = body@;
        assert(ls.take(i + 1).drop_last() =~= ls.take(i as int));
        if i > 0 {
            push_char(&mut body, '\n');
        }
        body.append(lines[i].as_str());
        proof {
            if i == 0 {
                assert(ls.take(1) =~= seq![ls[0]]);
                assert(body@ =~= joined(ls.take(1)));
            } else {
                assert(body@ =~= joined(ls.take(i + 1)));
            }
        }
        i = i + 1;
    }
    assert(ls.take(lines@.len() as int) =~= ls);
    body
}


/// `s` with every occurrence of the character `c` replaced by `r`, as
/// `str::replace` does for a one-character pattern.
pub open spec fn replace_char(s: Seq<char>, c: char, r: Seq<char>) -> Seq<char>
    decreases s.len(),
{
    if s.len() == 0 {
        s
    } else if s.last() == c {
        replace_char(s.drop_last(), c, r) + r
    } else {
        replace_char(s.drop_last(), c, r).push(s.last())
    }
}

/// The four replacements, in the order they are written: backslashes first,
/// then spaces, commas and equals signs.
pub open spec fn replace_in_turn(s: Seq<char>) -> Seq<char> {
    replace_char(
        replace_char(
            replace_char(replace_char(s, '\\', seq!['\\', '\\']), ' ', seq!['\\', ' ']),
            ',',
            seq!['\\', ','],
        ),
        '=',
        seq!['\\', '='],
    )
}

proof fn lemma_replace_char_append(a: Seq<char>, b: Seq<char>, c: char, r: Seq<char>)
    ensures
        replace_char(a + b, c, r) == replace_char(a, c, r) + replace_char(b, c, r),
    decreases b.len(),
{
    if b.len() == 0 {
        assert(a + b =~= a);
        assert(replace_char(a, c, r) + replace_char(b, c, r) =~= replace_char(a, c, r));
    } else {
        lemma_replace_char_append(a, b.drop_last(), c, r);
        assert((a + b).drop_last() =~= a + b.drop_last());
        if b.last() == c {
            assert(replace_char(a, c, r) + replace_char(b, c, r) =~= replace_char(a, c, r)
                + replace_char(b.drop_last(), c, r) + r);
        } else {
            assert(replace_char(a, c, r) + replace_char(b, c, r) =~= (replace_char(a, c, r)
                + replace_char(b.drop_last(), c, r)).push(b.last()));
        }
    }
}

proof fn lemma_replace_char_one(x: char, c: char, r: Seq<char>)
    ensures
        replace_char(seq![x], c, r) == (if x == c { r } else { seq![x] }),
{
    let s = seq![x];
    let e = Seq::<char>::empty();
    assert(s.drop_last() =~= e);
    assert(s.len() == 1 && s.last() == x);
    assert(replace_char(e, c, r) == e);
    if x == c {
        assert(replace_char(s, c, r) == replace_char(s.drop_last(), c, r) + r);
        assert(e + r =~= r);
    } else {
        assert(replace_char(s, c, r) == replace_char(s.drop_last(), c, r).push(x));
        assert(e.push(x) =~= s);
    }
}

proof fn lemma_replace_in_turn_append(a: Seq<char>, b: Seq<char>)
    ensures
        replace_in_turn(a + b) == replace_in_turn(a) + replace_in_turn(b),
{
    let r1 = seq!['\\', '\\'];
    let r2 = seq!['\\', ' '];
    let r3 = seq!['\\', ','];
    let r4 = seq!['\\', '='];
    lemma_replace_char_append(a, b, '\\', r1);
    let a1 = replace_char(a, '\\', r1);
    let b1 = replace_char(b, '\\', r1);
    lemma_replace_char_append(a1, b1, ' ', r2);
    let a2 = replace_char(a1, ' ', r2);
    let b2 = replace_char(b1, ' ', r2);
    lemma_replace_char_append(a2, b2, ',', r3);
    let a3 = replace_char(a2, ',', r3);
    let b3 = replace_char(b2, ',', r3);
    lemma_replace_char_append(a3, b3, '=', r4);
}

proof fn lemma_replace_in_turn_one(x: char)
    ensures
        replace_in_turn(seq![x]) == escape_char(x),
{
    let r1 = seq!['\\', '\\'];
    let r2 = seq!['\\', ' '];
    let r3 = seq!['\\', ','];
    let r4 = seq!['\\', '='];
    let bs = seq!['\\'];
    lemma_replace_char_one(x, '\\', r1);
    if x == '\\' {
        assert(r1 =~= bs + bs);
        lemma_replace_char_append(bs, bs, ' ', r2);
        lemma_replace_char_one('\\', ' ', r2);
        lemma_replace_char_append(bs, bs, ',', r3);
        lemma_replace_char_one('\\', ',', r3);
        lemma_replace_char_append(bs, bs, '=', r4);
        lemma_replace_char_one('\\', '=', r4);
        assert(bs + bs =~= seq!['\\', x]);
    } else {
        lemma_replace_char_one(x, ' ', r2);
        if x == ' ' {
            let sp = seq![' '];
            assert(r2 =~= bs + sp);
            lemma_replace_char_append(bs, sp, ',', r3);
            lemma_replace_char_one('\\', ',', r3);
            lemma_replace_char_one(' ', ',', r3);
            lemma_replace_char_append(bs, sp, '=', r4);
            lemma_replace_char_one('\\', '=', r4);
            lemma_replace_char_one(' ', '=', r4);
            assert(bs + sp =~= seq!['\\', x]);
        } else {
            lemma_replace_char_one(x, ',', r3);
            if x == ',' {
                let cm = seq![','];
                assert(r3 =~= bs + cm);
                lemma_replace_char_append(bs, cm, '=', r4);
                lemma_replace_char_one('\\', '=', r4);
                lemma_replace_char_one(',', '=', r4);
                assert(bs + cm =~= seq!['\\', x]);
            } else {
                lemma_replace_char_one(x, '=', r4);
            }
        }
    }
}

/// Escaping a tag value is the same as the four replacements in turn:
/// backslash by two backslashes, then space, comma and equals sign each by a
/// backslash and itself. (Backslashes go first, so the backslashes that later
/// replacements add are not doubled.)
pub proof fn lemma_escape_is_replacements_in_turn(s: Seq<char>)
    ensures
        escape_tag(s) == replace_in_turn(s),
    decreases s.len(),
{
    if s.len() == 0 {
        assert(replace_in_turn(s) =~= s);
    } else {
        lemma_escape_is_replacements_in_turn(s.drop_last());
        lemma_replace_in_turn_append(s.drop_last(), seq![s.last()]);
        lemma_replace_in_turn_one(s.last());
        assert(s.drop_last() + seq![s.last()] =~= s);
    }
}

/// Reads an escaped tag value back, left to right: a backslash and the
/// character after it stand for that character; any other character stands
/// for itself.
pub open spec fn unescape_tag(s: Seq<char>) -> Seq<char>
    decreases s.len(),
{
    if s.len() == 0 {
        s
    } else if s[0] == '\\' && s.len() >= 2 {
        seq![s[1]] + unescape_tag(s.skip(2))
    } else {
        seq![s[0]] + unescape_tag(s.skip(1))
    }
}

proof fn lemma_escape_append(a: Seq<char>, b: Seq<char>)
    ensures
        escape_tag(a + b) == escape_tag(a) + escape_tag(b),
    decreases b.len(),
{
    if b.len() == 0 {
        assert(a + b =~= a);
        assert(escape_tag(a) + escape_tag(b) =~= escape_tag(a));
    } else {
        lemma_escape_append(a, b.drop_last());
        assert((a + b).drop_last() =~= a + b.drop_last());
        assert((a + b).last() == b.last());
        assert(escape_tag(a) + escape_tag(b) =~= escape_tag(a) + escape_tag(b.drop_last())
            + escape_char(b.last()));
    }
}

proof fn lemma_escape_one(x: char)
    ensures
        escape_tag(seq![x]) == escape_char(x),
{
    let s = seq![x];
    let e = Seq::<char>::empty();
    assert(s.drop_last() =~= e);
    assert(s.len() == 1 && s.last() == x);
    assert(escape_tag(e) == e);
    assert(escape_tag(s) == escape_tag(s.drop_last()) + escape_char(x));
    assert(e + escape_char(x) =~= escape_char(x));
}

/// Escaping can be undone: reading the escaped value back gives the value.
pub proof fn lemma_unescape_escape(s: Seq<char>)
    ensures
        unescape_tag(escape_tag(s)) == s,
    decreases s.len(),
{
    if s.len() == 0 {
    } else {
        let x = s[0];
        let rest = s.skip(1);
        assert(seq![x] + rest =~= s);
        lemma_escape_append(seq![x], rest);
        lemma_escape_one(x);
        lemma_unescape_escape(rest);
        let e = escape_char(x) + escape_tag(rest);
        assert(escape_tag(s) == e);
        if x == '\\' || x == ' ' || x == ',' || x == '=' {
            assert(e[0] == '\\' && e[1] == x);
            assert(e.skip(2) =~= escape_tag(rest));
        } else {
            assert(e[0] == x);
            assert(e.skip(1) =~= escape_tag(rest));
        }
        assert(seq![x] + rest =~= s);
    }
}

/// Escaping is injective: different tag values never escape to the same text.
pub proof fn lemma_escape_injective(a: Seq<char>, b: Seq<char>)
    requires
        escape_tag(a) == escape_tag(b),
    ensures
        a == b,
{
    lemma_unescape_escape(a);
    lemma_unescape_escape(b);
}

/// The number of backslashes standing directly before position `p` of `s`.
pub open spec fn backslashes_before(s: Seq<char>, p: int) -> nat
    decreases p,
{
    if 0 < p <= s.len() && s[p - 1] == '\\' {
        1 + backslashes_before(s, p - 1)
    } else {
        0
    }
}

proof fn lemma_backslashes_before_prefix(a: Seq<char>, b: Seq<char>, p: int)
    requires
        0 <= p <= a.len(),
    ensures
        backslashes_before(a + b, p) == backslashes_before(a, p),
    decreases p,
{
    if p > 0 {
        lemma_backslashes_before_prefix(a, b, p - 1);
        assert((a + b)[p - 1] == a[p - 1]);
    }
}

/// A tag value, once escaped, ends in an even run of backslashes, and each
/// space, comma and equals sign in it has an odd run of backslashes directly
/// before it: in line protocol it reads as part of the value, never as a
/// separator.
pub proof fn lemma_escaped_separators_are_quoted(s: Seq<char>)
    ensures
        backslashes_before(escape_tag(s), escape_tag(s).len() as int) % 2 == 0,
        forall|p: int|
            0 <= p < escape_tag(s).len() && (escape_tag(s)[p] == ' ' || escape_tag(s)[p] == ','
                || escape_tag(s)[p] == '=') ==> #[trigger] backslashes_before(escape_tag(s), p) % 2
                == 1,
    decreases s.len(),
{
    if s.len() > 0 {
        let s0 = s.drop_last();
        let x = s.last();
        lemma_escaped_separators_are_quoted(s0);
        let e0 = escape_tag(s0);
        let t = escape_char(x);
        let e = escape_tag(s);
        assert(e == e0 + t);
        let n = e0.len() as int;
        lemma_backslashes_before_prefix(e0, t, n);
        assert forall|p: int| 0 <= p < e.len() && (e[p] == ' ' || e[p] == ',' || e[p] == '=')
            implies #[trigger] backslashes_before(e, p) % 2 == 1 by {
            if p < n {
                lemma_backslashes_before_prefix(e0, t, p);
                assert(e[p] == e0[p]);
            } else {
                assert(e[p] == t[p - n]);
                assert(x == '\\' || x == ' ' || x == ',' || x == '=');
                assert(p == n + 1);
                assert(e[n] == '\\');
                assert(backslashes_before(e, n + 1) == 1 + backslashes_before(e, n));
            }
        }
        if x == '\\' {
            assert(e[n] == '\\' && e[n + 1] == '\\');
            assert(backslashes_before(e, n + 2) == 1 + backslashes_before(e, n + 1));
            assert(backslashes_before(e, n + 1) == 1 + backslashes_before(e, n));
        } else if x == ' ' || x == ',' || x == '=' {
            assert(e[n + 1] == x);
        } else {
            assert(e[n] == x);
        }
    }
}

proof fn lemma_ends_with(a: Seq<char>, t: Seq<char>)
    ensures
        (a + t).skip(a.len() as int) == t,
{
    assert((a + t).skip(a.len() as int) =~= t);
}

proof fn lemma_decimal_has_no_space(i: int)
    ensures
        !int_decimal(i).contains(' '),
{
    let m: nat = if i < 0 { (-i) as nat } else { i as nat };
    lemma_nat_decimal_reads_back(m);
    let d = int_decimal(i);
    if d.contains(' ') {
        let k = choose|k: int| 0 <= k < d.len() && d[k] == ' ';
        if i < 0 {
            assert(k > 0);
            assert(d[k] == nat_decimal(m)[k - 1]);
            assert(is_digit(nat_decimal(m)[k - 1]));
        } else {
            assert(is_digit(nat_decimal(m)[k]));
        }
    }
}

/// Every line-protocol line, for usage and for rate limits alike, ends with a
/// space and the record's timestamp in nanoseconds (seconds times
/// 1_000_000_000) in decimal, and no space follows that last one.
pub proof fn lemma_lines_end_with_nanosecond_timestamp(u: UsageRecord, r: RateLimitRecord)
    ensures
        ({
            let t = seq![' '] + int_decimal(u.ts * 1_000_000_000);
            &&& usage_line(u).len() >= t.len()
            &&& usage_line(u).skip(usage_line(u).len() - t.len()) == t
        }),
        ({
            let t = seq![' '] + int_decimal(r.ts * 1_000_000_000);
            &&& rate_line(r).len() >= t.len()
            &&& rate_line(r).skip(rate_line(r).len() - t.len()) == t
        }),
        !int_decimal(u.ts * 1_000_000_000).contains(' '),
        !int_decimal(r.ts * 1_000_000_000).contains(' '),
{
    reveal_strlit(" ");
    assert(" "@ =~= seq![' ']);
    let du = int_decimal(u.ts * 1_000_000_000);
    let lu = usage_line(u);
    let au = lu.subrange(0, lu.len() - du.len() - 1);
    assert(lu =~= au + (seq![' '] + du));
    lemma_ends_with(au, seq![' '] + du);
    let dr = int_decimal(r.ts * 1_000_000_000);
    let lr = rate_line(r);
    let ar = lr.subrange(0, lr.len() - dr.len() - 1);
    assert(lr =~= ar + (seq![' '] + dr));
    lemma_ends_with(ar, seq![' '] + dr);
    lemma_decimal_has_no_space(u.ts * 1_000_000_000);
    lemma_decimal_has_no_space(r.ts * 1_000_000_000);
}

} // verus!
