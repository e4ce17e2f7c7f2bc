//! InfluxDB: the connection settings, and the reading of the annotated CSV
//! that a Flux query answers with.

use vstd::prelude::*;
use crate::text::{
    all_digits, chars_eq, chars_of, int_decimal, is_digit, is_white_space, lemma_nat_decimal_reads_back,
    lemma_parse_reads_decimal, lemma_split_at_sep, lemma_split_no_sep, lemma_trim_keeps,
    nat_decimal, parse_i64, parse_i64_chars, split, split_chars, string_of, sub_chars, trim,
    trim_chars, views,
};

verus! {

/// Where the dashboard's InfluxDB lives and how to reach it.
pub struct InfluxConfig {
    pub url: String,
    pub org: String,
    pub bucket: String,
    pub token: String,
}

/// One provider's usage as read from a CSV data row.
pub struct CsvRow {
    pub name: Seq<char>,
    pub tokens_used: i64,
    pub cost_usd: Seq<char>,
}

/// The state of a scan over CSV lines: the header once it has been seen,
/// and the usage rows kept so far.
pub struct CsvScan {
    pub header: Option<Seq<Seq<char>>>,
    pub rows: Seq<CsvRow>,
}

/// The comma-separated fields of a line, each trimmed.
pub open spec fn fields_of(line: Seq<char>) -> Seq<Seq<char>> {
    split(line, ',').map_values(|f: Seq<char>| trim(f))
}

/// The position of the last header column called `name`; a name that occurs
/// twice refers to its last column.
pub open spec fn last_index_of(names: Seq<Seq<char>>, name: Seq<char>) -> Option<int>
    decreases names.len(),
{
    if names.len() == 0 {
        None
    } else if names.last() == name {
        Some(names.len() - 1)
    } else {
        last_index_of(names.drop_last(), name)
    }
}

/// The field of a data row under the header column `name`, if the header has
/// that column and the row reaches it.
pub open spec fn column(header: Seq<Seq<char>>, cols: Seq<Seq<char>>, name: Seq<char>) -> Option<
    Seq<char>,
> {
    match last_index_of(header, name) {
        Some(i) => if i < cols.len() {
            Some(cols[i])
        } else {
            None
        },
        None => None,
    }
}

/// What a data row says: the provider (empty when missing), the tokens (zero
/// when missing or not an integer) and the cost text (empty when missing).
pub open spec fn csv_row(header: Seq<Seq<char>>, cols: Seq<Seq<char>>) -> CsvRow {
    CsvRow {
        name: match column(header, cols, "provider"@) {
            Some(v) => v,
            None => Seq::empty(),
        },
        tokens_used: match column(header, cols, "tokens_used"@) {
            Some(v) => match parse_i64(v) {
                Some(t) => t,
                None => 0,
            },
            None => 0,
        },
        cost_usd: match column(header, cols, "cost_usd"@) {
            Some(v) => v,
            None => Seq::empty(),
        },
    }
}

/// A row is kept when it names a provider and reports a positive token count.
pub open spec fn keeps_row(r: CsvRow) -> bool {
    r.name.len() > 0 && r.tokens_used > 0
}

/// One line of the scan: blank lines and `#` annotations are skipped, the
/// first other line is the header, and every later line is a data row.
pub open spec fn csv_step(st: CsvScan, line: Seq<char>) -> CsvScan {
    let t = trim(line);
    if t.len() == 0 || t[0] == '#' {
        st
    } else {
        match st.header {
            None => CsvScan { header: Some(fields_of(t)), rows: st.rows },
            Some(h) => {
                let r = csv_row(h, fields_of(t));
                if keeps_row(r) {
                    CsvScan { header: st.header, rows: st.rows.push(r) }
                } else {
                    st
                }
            },
        }
    }
}

/// The scan over a sequence of lines.
pub open spec fn csv_scan(lines: Seq<Seq<char>>) -> CsvScan
    decreases lines.len(),
{
    if lines.len() == 0 {
        CsvScan { header: None, rows: Seq::empty() }
    } else {
        csv_step(csv_scan(lines.drop_last()), lines.last())
    }
}

/// The usage rows of an InfluxDB CSV answer, in the order they appear.
pub open spec fn influx_rows(text: Seq<char>) -> Seq<CsvRow> {
    csv_scan(split(text, '\n')).rows
}

/// One provider's usage read from InfluxDB; the cost is the text of its field.
pub struct InfluxUsageRow {
    pub name: String,
    pub tokens_used: i64,
    pub cost_usd: String,
}

impl View for InfluxUsageRow {
    type V = CsvRow;

    open spec fn view(&self) -> CsvRow {
        CsvRow { name: self.name@, tokens_used: self.tokens_used, cost_usd: self.cost_usd@ }
    }
}

/// The rows held by a vector, by their views.
pub open spec fn row_views(rows: Seq<InfluxUsageRow>) -> Seq<CsvRow> {
    rows.map_values(|r: InfluxUsageRow| r@)
}

fn fields_chars(t: &Vec<char>) -> (cols: Vec<Vec<char>>)
    ensures
        views(cols@) == fields_of(t@),
{
    let pieces = split_chars(t, ',');
    let mut cols: Vec<Vec<char>> = Vec::new();
    let mut i: usize = 0;
    while i < pieces.len()
        invariant
            i <= pieces@.len(),
            views(pieces@) == split(t@, ','),
            views(cols@) == views(pieces@).take(i as int).map_values(|f: Seq<char>| trim(f)),
        decreases pieces@.len() - i,
    {
        let f = trim_chars(&pieces[i]);
        let ghost before = views(cols@);
        let ghost fv = f@;
        cols.push(f);
        proof {
            let want = views(pieces@).take(i + 1).map_values(|f: Seq<char>| trim(f));
            assert(views(pieces@)[i as int] == pieces@[i as int]@);
            assert(views(cols@) =~= before.push(fv));
            assert(want =~= views(pieces@).take(i as int).map_values(|f: Seq<char>| trim(f)).push(fv));
            assert(views(cols@) =~= want);
        }
        i = i + 1;
    }
    assert(views(pieces@).take(pieces@.len() as int) =~= views(pieces@));
    cols
}

fn column_chars(header: &Vec<Vec<char>>, cols: &Vec<Vec<char>>, name: &Vec<char>) -> (r: Option<
    Vec<char>,
>)
    ensures
        match r {
            Some(v) => column(views(header@), views(cols@), name@) == Some(v@),
            None => column(views(header@), views(cols@), name@) is None,
        },
{
    let ghost hs = views(header@);
    let mut j: usize = header.len();
    assert(hs.take(j as int) =~= hs);
    while j > 0
        invariant
            j <= header@.len(),
            hs == views(header@),
            last_index_of(hs, name@) == last_index_of(hs.take(j as int), name@),
        decreases j,
    {
        j = j - 1;
        assert(hs.take(j + 1).drop_last() =~= hs.take(j as int));
        if chars_eq(&header[j], name) {
            if j < cols.len() {
                let v = &cols[j];
                return Some(sub_chars(v, 0, v.len()));
            } else {
                return None;
            }
        }
    }
    None
}

/// Parses InfluxDB's annotated CSV answer into the usage rows it reports.
///
/// Lines are trimmed; empty lines and `#` annotation lines are skipped; the
/// first remaining line is the header, which names the columns; every later
/// line is a data row. A row is kept when its `provider` field is not empty
/// and its `tokens_used` field is a positive integer. The cost is returned as
/// the text of the `cost_usd` field, for the caller to read as a number.
pub fn parse_influx_csv(text: &str) -> (r: Result<Vec<InfluxUsageRow>, String>)
    ensures
        r is Ok,
        r matches Ok(rows) ==> row_views(rows@) == influx_rows(text@),
{
    let chars = chars_of(text);
    let lines = split_chars(&chars, '\n');
    let provider_key = chars_of("provider");
    let tokens_key = chars_of("tokens_used");
    let cost_key = chars_of("cost_usd");
    let ghost ls = views(lines@);
    let mut header: Option<Vec<Vec<char>>> = None;
    let mut rows: Vec<InfluxUsageRow> = Vec::new();
    let mut i: usize = 0;
    assert(ls.take(0) =~= Seq::<Seq<char>>::empty());
    while i < lines.len()
        invariant
            i <= lines@.len(),
            ls == views(lines@),
            ls == split(text@, '\n'),
            provider_key@ == "provider"@,
            tokens_key@ == "tokens_used"@,
            cost_key@ == "cost_usd"@,
            csv_scan(ls.take(i as int)).rows == row_views(rows@),
            csv_scan(ls.take(i as int)).header == match header {
                Some(h) => Some(views(h@)),
                None => None,
            },
        decreases lines@.len() - i,
    {
        assert(ls.take(i + 1).drop_last() =~= ls.take(i as int));
        let t = trim_chars(&lines[i]);
        if t.len() == 0 || t[0] == '#' {
        } else {
            let cols = fields_chars(&t);
            match &header {
                None => {
                    header = Some(cols);
                },
                Some(h) => {
                    let name = match column_chars(h, &cols, &provider_key) {
                        Some(v) => v,
                        None => Vec::new(),
                    };
                    let tokens: i64 = match column_chars(h, &cols, &tokens_key) {
                        Some(v) => match parse_i64_chars(&v) {
                            Some(n) => n,
                            None => 0,
                        },
                        None => 0,
                    };
                    let cost = match column_chars(h, &cols, &cost_key) {
                        Some(v) => v,
                        None => Vec::new(),
                    };
                    if name.len() > 0 && tokens > 0 {
                        let row = InfluxUsageRow {
                            name: string_of(&name),
                            tokens_used: tokens,
                            cost_usd: string_of(&cost),
                        };
                        let ghost prev = rows@;
                        let ghost rv = row@;
                        rows.push(row);
                        proof {
                            assert(row_views(rows@) =~= row_views(prev).push(rv));
                        }
                    }
                },
            }
        }
        i = i + 1;
    }
    assert(ls.take(lines@.len() as int) =~= ls);
    Ok(rows)
}


/// The end of the Flux query, after the bucket name: the last 24 hours of
/// `usage` points, one column per field, summed per provider.
pub open spec fn flux_tail() -> Seq<char> {
    "\")\n        |> range(start: -24h)\n        |> filter(fn: (r) => r._measurement == \"usage\")\n        |> pivot(rowKey:[\"_time\"], columnKey: [\"_field\"], valueColumn: \"_value\")\n        |> group(columns: [\"provider\"])\n        |> sum()"@
}

/// The request that asks InfluxDB for the last day's usage per provider:
/// where to post it, the `Authorization` header value, and the Flux query.
pub struct InfluxQuery {
    pub url: String,
    pub authorization: String,
    pub flux: String,
}

/// Builds the usage query for the configured InfluxDB.
pub fn influx_query(config: &InfluxConfig) -> (q: InfluxQuery)
    ensures
        q.url@ == config.url@ + "/api/v2/query"@,
        q.authorization@ == "Token "@ + config.token@,
        q.flux@ == "from(bucket: \""@ + config.bucket@ + flux_tail(),
{
    let mut url = config.url.clone();
    url.append("/api/v2/query");
    let mut authorization = String::from_str("Token ");
    authorization.append(config.token.as_str());
    let mut flux = String::from_str("from(bucket: \"");
    flux.append(config.bucket.as_str());
    flux.append(
        "\")\n        |> range(start: -24h)\n        |> filter(fn: (r) => r._measurement == \"usage\")\n        |> pivot(rowKey:[\"_time\"], columnKey: [\"_field\"], valueColumn: \"_value\")\n        |> group(columns: [\"provider\"])\n        |> sum()",
    );
    InfluxQuery { url, authorization, flux }
}

/// The URL of the InfluxDB health endpoint.
pub fn health_url(config: &InfluxConfig) -> (u: String)
    ensures
        u@ == config.url@ + "/health"@,
{
    let mut u = config.url.clone();
    u.append("/health");
    u
}

/// True when the status of the usage query's answer is a success (2xx); any
/// other status is reported as an error.
pub fn query_status_ok(status: u16) -> (ok: bool)
    ensures
        ok == (200 <= status <= 299),
{
    200 <= status && status <= 299
}

/// True when the health endpoint's status shows a reachable InfluxDB: any
/// 2xx status, or 401 (reachable, but the request carried no token).
pub fn health_status_ok(status: u16) -> (ok: bool)
    ensures
        ok == ((200 <= status <= 299) || status == 401),
{
    (200 <= status && status <= 299) || status == 401
}

/// A line that the scan passes over: empty after trimming, or a `#` annotation.
pub open spec fn is_skipped_line(line: Seq<char>) -> bool {
    trim(line).len() == 0 || trim(line)[0] == '#'
}

/// The lines that take part in the scan, in order: the others dropped.
pub open spec fn significant(lines: Seq<Seq<char>>) -> Seq<Seq<char>>
    decreases lines.len(),
{
    if lines.len() == 0 {
        lines
    } else if is_skipped_line(lines.last()) {
        significant(lines.drop_last())
    } else {
        significant(lines.drop_last()).push(lines.last())
    }
}

/// The significant lines of a CSV answer.
pub open spec fn significant_lines(text: Seq<char>) -> Seq<Seq<char>> {
    significant(split(text, '\n'))
}

proof fn lemma_scan_ignores_skipped(lines: Seq<Seq<char>>)
    ensures
        csv_scan(lines) == csv_scan(significant(lines)),
    decreases lines.len(),
{
    if lines.len() > 0 {
        lemma_scan_ignores_skipped(lines.drop_last());
        if !is_skipped_line(lines.last()) {
            let sig = significant(lines);
            assert(sig.drop_last() =~= significant(lines.drop_last()));
            assert(sig.last() == lines.last());
        }
    }
}

/// Blank lines and `#` annotation lines never count: two answers whose other
/// lines are the same, in the same order, give the same rows. In particular,
/// inserting any number of such lines anywhere leaves the rows unchanged, and
/// none of them can become the header.
pub proof fn lemma_skipped_lines_do_not_matter(t1: Seq<char>, t2: Seq<char>)
    requires
        significant_lines(t1) == significant_lines(t2),
    ensures
        influx_rows(t1) == influx_rows(t2),
{
    lemma_scan_ignores_skipped(split(t1, '\n'));
    lemma_scan_ignores_skipped(split(t2, '\n'));
}

/// Inserting one skipped line between two lines of an answer leaves its
/// significant lines, and so its rows, unchanged.
pub proof fn lemma_insert_skipped_line(lines: Seq<Seq<char>>, k: int, extra: Seq<char>)
    requires
        0 <= k <= lines.len(),
        is_skipped_line(extra),
    ensures
        significant(lines.insert(k, extra)) == significant(lines),
        csv_scan(lines.insert(k, extra)).rows == csv_scan(lines).rows,
    decreases lines.len(),
{
    let ins = lines.insert(k, extra);
    if k == lines.len() {
        assert(ins.drop_last() =~= lines);
        assert(ins.last() == extra);
    } else {
        lemma_insert_skipped_line(lines.drop_last(), k, extra);
        assert(ins.drop_last() =~= lines.drop_last().insert(k, extra));
        assert(ins.last() == lines.last());
    }
    lemma_scan_ignores_skipped(ins);
    lemma_scan_ignores_skipped(lines);
}

/// Inserting a blank or `#` line into the text of an answer, at its start or
/// between two of its lines, leaves the rows unchanged; inserting any number of
/// them follows one at a time.
pub proof fn lemma_insert_skipped_line_in_text(x: Seq<char>, extra: Seq<char>, y: Seq<char>)
    requires
        !extra.contains('\n'),
        is_skipped_line(extra),
    ensures
        influx_rows(x + seq!['\n'] + extra + seq!['\n'] + y) == influx_rows(x + seq!['\n'] + y),
        influx_rows(extra + seq!['\n'] + y) == influx_rows(y),
{
    let nl = seq!['\n'];
    lemma_split_no_sep(extra, '\n');
    lemma_split_at_sep(extra, y, '\n');
    lemma_split_at_sep(x, extra + nl + y, '\n');
    lemma_split_at_sep(x, y, '\n');
    assert(x + nl + extra + nl + y =~= x + nl + (extra + nl + y));
    let sx = split(x, '\n');
    let sy = split(y, '\n');
    assert(sx + (seq![extra] + sy) =~= (sx + sy).insert(sx.len() as int, extra));
    lemma_insert_skipped_line(sx + sy, sx.len() as int, extra);
    assert(seq![extra] + sy =~= sy.insert(0, extra));
    lemma_insert_skipped_line(sy, 0, extra);
}

proof fn lemma_concat_lacks(a: Seq<char>, b: Seq<char>, ch: char)
    requires
        !a.contains(ch),
        !b.contains(ch),
    ensures
        !(a + b).contains(ch),
{
    if (a + b).contains(ch) {
        let k = choose|k: int| 0 <= k < (a + b).len() && (a + b)[k] == ch;
        if k < a.len() {
            assert(a[k] == ch);
        } else {
            assert(b[k - a.len()] == ch);
        }
    }
}

proof fn lemma_digits_lack(d: Seq<char>, ch: char)
    requires
        all_digits(d),
        !is_digit(ch),
    ensures
        !d.contains(ch),
{
    if d.contains(ch) {
        let k = choose|k: int| 0 <= k < d.len() && d[k] == ch;
        assert(is_digit(d[k]));
    }
}

/// A data row under a `provider,tokens_used,cost_usd` header reports its
/// fields whole: for any provider name `p` (inner spaces and any other
/// characters included, as long as it holds no comma or line feed, is not
/// empty, does not start with `#` and has no white space at either end), any
/// positive token count `n` written in decimal, and any cost text `c` of the
/// same kind, the answer has exactly one row, named `p`, with `n` tokens and
/// cost `c`.
pub proof fn lemma_row_reports_fields_whole(p: Seq<char>, n: i64, c: Seq<char>)
    requires
        p.len() > 0,
        !p.contains(','),
        !p.contains('\n'),
        !is_white_space(p[0]),
        !is_white_space(p.last()),
        p[0] != '#',
        n > 0,
        c.len() > 0,
        !c.contains(','),
        !c.contains('\n'),
        !is_white_space(c[0]),
        !is_white_space(c.last()),
    ensures
        influx_rows(
            "provider"@ + seq![','] + "tokens_used"@ + seq![','] + "cost_usd"@ + seq!['\n'] + p
                + seq![','] + int_decimal(n as int) + seq![','] + c,
        ) == seq![CsvRow { name: p, tokens_used: n, cost_usd: c }],
{
    reveal_strlit("provider");
    reveal_strlit("tokens_used");
    reveal_strlit("cost_usd");
    let pv = "provider"@;
    let tu = "tokens_used"@;
    let cu = "cost_usd"@;
    let comma = seq![','];
    let nl = seq!['\n'];
    let dec = int_decimal(n as int);
    lemma_nat_decimal_reads_back(n as nat);
    lemma_parse_reads_decimal(n);
    assert(dec == nat_decimal(n as nat));
    let h = pv + comma + tu + comma + cu;
    let d = p + comma + dec + comma + c;
    let text = pv + comma + tu + comma + cu + nl + p + comma + dec + comma + c;
    assert(text =~= h + nl + d);

    // the two lines
    assert(!pv.contains('\n') && !tu.contains('\n') && !cu.contains('\n') && !comma.contains('\n'))
        by {
        assert(comma[0] == ',');
    }
    lemma_concat_lacks(pv, comma, '\n');
    lemma_concat_lacks(pv + comma, tu, '\n');
    lemma_concat_lacks(pv + comma + tu, comma, '\n');
    lemma_concat_lacks(pv + comma + tu + comma, cu, '\n');
    lemma_digits_lack(dec, '\n');
    lemma_digits_lack(dec, ',');
    lemma_concat_lacks(p, comma, '\n');
    lemma_concat_lacks(p + comma, dec, '\n');
    lemma_concat_lacks(p + comma + dec, comma, '\n');
    lemma_concat_lacks(p + comma + dec + comma, c, '\n');
    lemma_split_at_sep(h, d, '\n');
    lemma_split_no_sep(h, '\n');
    lemma_split_no_sep(d, '\n');
    let lines = split(text, '\n');
    assert(lines =~= seq![h, d]);

    // the header
    assert(h[0] == 'p' && h.last() == 'd');
    lemma_trim_keeps(h);
    assert(!pv.contains(',') && !tu.contains(',') && !cu.contains(','));
    lemma_split_at_sep(pv, tu, ',');
    lemma_split_at_sep(pv + comma + tu, cu, ',');
    lemma_split_no_sep(pv, ',');
    lemma_split_no_sep(tu, ',');
    lemma_split_no_sep(cu, ',');
    assert(split(h, ',') =~= seq![pv, tu, cu]);
    lemma_trim_keeps(pv);
    lemma_trim_keeps(tu);
    lemma_trim_keeps(cu);
    let hf = fields_of(h);
    assert(hf =~= seq![pv, tu, cu]);

    // the data line
    assert(d[0] == p[0]);
    assert(d.last() == c.last());
    lemma_trim_keeps(d);
    lemma_split_at_sep(p, dec, ',');
    lemma_split_at_sep(p + comma + dec, c, ',');
    lemma_split_no_sep(p, ',');
    lemma_split_no_sep(dec, ',');
    lemma_split_no_sep(c, ',');
    assert(split(d, ',') =~= seq![p, dec, c]);
    lemma_trim_keeps(p);
    lemma_trim_keeps(c);
    assert(is_digit(dec[0]) && is_digit(dec.last()));
    lemma_trim_keeps(dec);
    let df = fields_of(d);
    assert(df =~= seq![p, dec, c]);

    // the columns
    assert(cu != pv) by {
        assert(cu[0] != pv[0]);
    }
    assert(cu != tu);
    assert(hf.drop_last() =~= seq![pv, tu]);
    assert(seq![pv, tu].drop_last() =~= seq![pv]);
    assert(tu != pv) by {
        assert(tu.len() != pv.len());
    }
    let h2 = seq![pv, tu];
    let h1 = seq![pv];
    assert(h2.last() == tu && h1.last() == pv);
    assert(last_index_of(h1, pv) == Some(0int));
    assert(last_index_of(h2, pv) == last_index_of(h1, pv));
    assert(last_index_of(h2, tu) == Some(1int));
    assert(last_index_of(hf, pv) == last_index_of(h2, pv));
    assert(last_index_of(hf, tu) == last_index_of(h2, tu));
    assert(last_index_of(hf, pv) == Some(0int));
    assert(last_index_of(hf, tu) == Some(1int));
    assert(last_index_of(hf, cu) == Some(2int));

    // the scan
    assert(lines.drop_last() =~= seq![h]);
    assert(seq![h].drop_last() =~= Seq::<Seq<char>>::empty());
    let st0 = csv_scan(Seq::<Seq<char>>::empty());
    assert(st0.header is None && st0.rows == Seq::<CsvRow>::empty());
    assert(seq![h].last() == h);
    assert(trim(h) == h && h.len() > 0 && h[0] != '#');
    assert(csv_scan(seq![h]) == csv_step(st0, h));
    let st1 = csv_scan(seq![h]);
    assert(st1.header == Some(hf));
    assert(st1.rows == Seq::<CsvRow>::empty());
    let r = csv_row(hf, df);
    assert(r == CsvRow { name: p, tokens_used: n, cost_usd: c });
    assert(keeps_row(r));
    assert(trim(d) == d && d.len() > 0 && d[0] != '#');
    assert(csv_scan(lines) == csv_step(st1, d));
    assert(csv_scan(lines).rows =~= seq![r]);
}

/// The column found for a name is its last occurrence in the header: the
/// header holds the name there and at no later position; and no column is
/// found only when the header does not hold the name at all.
pub proof fn lemma_column_is_last_occurrence(names: Seq<Seq<char>>, name: Seq<char>)
    ensures
        match last_index_of(names, name) {
            Some(i) => 0 <= i < names.len() && names[i] == name && forall|j: int|
                i < j < names.len() ==> #[trigger] names[j] != name,
            None => !names.contains(name),
        },
    decreases names.len(),
{
    if names.len() > 0 && names.last() != name {
        let n0 = names.drop_last();
        lemma_column_is_last_occurrence(n0, name);
        match last_index_of(n0, name) {
            Some(i) => {
                assert forall|j: int| i < j < names.len() implies #[trigger] names[j] != name by {
                    if j < names.len() - 1 {
                        assert(names[j] == n0[j]);
                    }
                }
            },
            None => {
                if names.contains(name) {
                    let k = choose|k: int| 0 <= k < names.len() && names[k] == name;
                    assert(k < names.len() - 1);
                    assert(n0[k] == name);
                }
            },
        }
    }
}

} // verus!
