//! The directive-free encoders: JSON, XML, CSV and plain text.
//!
//! Each is a single pass over the optional dataset, with its exact output
//! given by a spec function.  An absent dataset and an empty one produce
//! the same output for XML, CSV and plain text; JSON distinguishes them
//! (`null` against `[]`).
use vstd::prelude::*;

use crate::eval::RowV;
use crate::strmap::StrMap;
use crate::text::{append_str, string_of_chars};

verus! {

/// The dataset as a sequence of row models, an absent dataset giving
/// nothing.
pub open spec fn dataset_view(d: Option<Vec<StrMap>>) -> Option<Seq<RowV>> {
    match d {
        Some(rows) => Some(rows.deep_view()),
        None => None,
    }
}

// ---------------------------------------------------------------- JSON --
/// The lower-case hexadecimal digit for a value below sixteen.
pub open spec fn hex_digit(n: u8) -> char {
    if n < 10 {
        (('0' as u8) + n) as char
    } else {
        (('a' as u8) + (n - 10)) as char
    }
}

/// How one character appears inside a JSON string literal: quote and
/// backslash escaped, the five named control escapes, `\u00xx` for the
/// remaining control characters, everything else verbatim.
pub open spec fn json_esc_char(c: char) -> Seq<char> {
    if c == '"' {
        seq!['\\', '"']
    } else if c == '\\' {
        seq!['\\', '\\']
    } else if c == '\u{0008}' {
        seq!['\\', 'b']
    } else if c == '\t' {
        seq!['\\', 't']
    } else if c == '\n' {
        seq!['\\', 'n']
    } else if c == '\u{000C}' {
        seq!['\\', 'f']
    } else if c == '\r' {
        seq!['\\', 'r']
    } else if (c as u32) < 32 {
        seq!['\\', 'u', '0', '0', hex_digit(((c as u32) / 16) as u8), hex_digit(((c as u32) % 16) as u8)]
    } else {
        seq![c]
    }
}

/// A whole string escaped for JSON.
pub open spec fn json_escape(s: Seq<char>) -> Seq<char>
    decreases s.len(),
{
    if s.len() == 0 {
        Seq::empty()
    } else {
        json_esc_char(s[0]) + json_escape(s.drop_first())
    }
}

/// One field as a JSON object member: `"key":"value"`, both escaped.
pub open spec fn json_field(k: Seq<char>, v: Seq<char>) -> Seq<char> {
    seq!['"'] + json_escape(k) + seq!['"', ':', '"'] + json_escape(v) + seq!['"']
}

pub open spec fn json_fields_tail(fields: RowV) -> Seq<char>
    decreases fields.len(),
{
    if fields.len() == 0 {
        Seq::empty()
    } else {
        seq![','] + json_field(fields[0].0, fields[0].1) + json_fields_tail(fields.drop_first())
    }
}

/// One row as a JSON object, members in entry order, comma-separated.
pub open spec fn json_row(row: RowV) -> Seq<char> {
    if row.len() == 0 {
        seq!['{', '}']
    } else {
        seq!['{'] + json_field(row[0].0, row[0].1) + json_fields_tail(row.drop_first()) + seq!['}']
    }
}

pub open spec fn json_rows_tail(rows: Seq<RowV>) -> Seq<char>
    decreases rows.len(),
{
    if rows.len() == 0 {
        Seq::empty()
    } else {
        seq![','] + json_row(rows[0]) + json_rows_tail(rows.drop_first())
    }
}

/// The dataset as compact structural JSON: `null` when absent, else an
/// array of objects.
pub open spec fn json_of(data: Option<Seq<RowV>>) -> Seq<char> {
    match data {
        None => "null"@,
        Some(rows) => if rows.len() == 0 {
            seq!['[', ']']
        } else {
            seq!['['] + json_row(rows[0]) + json_rows_tail(rows.drop_first()) + seq![']']
        },
    }
}

fn json_esc_char_exec(c: char, out: &mut Vec<char>)
    ensures
        final(out)@ == old(out)@ + json_esc_char(c),
{
    if c == '"' {
        out.push('\\');
        out.push('"');
    } else if c == '\\' {
        out.push('\\');
        out.push('\\');
    } else if c == '\u{0008}' {
        out.push('\\');
        out.push('b');
    } else if c == '\t' {
        out.push('\\');
        out.push('t');
    } else if c == '\n' {
        out.push('\\');
        out.push('n');
    } else if c == '\u{000C}' {
        out.push('\\');
        out.push('f');
    } else if c == '\r' {
        out.push('\\');
        out.push('r');
    } else if (c as u32) < 32 {
        out.push('\\');
        out.push('u');
        out.push('0');
        out.push('0');
        let b = c as u32;
        let hi = (b / 16) as u8;
        let lo = (b % 16) as u8;
        if hi < 10 {
            out.push((('0' as u8) + hi) as char);
        } else {
            out.push((('a' as u8) + (hi - 10)) as char);
        }
        if lo < 10 {
            out.push((('0' as u8) + lo) as char);
        } else {
            out.push((('a' as u8) + (lo - 10)) as char);
        }
    } else {
        out.push(c);
    }
    proof {
        assert(out@ =~= old(out)@ + json_esc_char(c));
    }
}

fn json_escape_exec(s: &String, out: &mut Vec<char>)
    ensures
        final(out)@ == old(out)@ + json_escape(s@),
{
    let cs = crate::text::chars_of_str(s.as_str());
    let mut i: usize = 0;
    let ghost out0 = out@;
    proof {
        assert(s@.skip(0) =~= s@);
    }
    while i < cs.len()
        invariant
            0 <= i <= cs@.len(),
            cs@ == s@,
            out0 + json_escape(s@) == out@ + json_escape(s@.skip(i as int)),
        decreases cs@.len() - i,
    {
        proof {
            assert(s@.skip(i as int)[0] == s@[i as int]);
            assert(s@.skip(i as int).drop_first() =~= s@.skip(i + 1));
        }
        json_esc_char_exec(cs[i], out);
        i = i + 1;
    }
    proof {
        assert(s@.skip(s@.len() as int) =~= Seq::<char>::empty());
        assert(out@ =~= out0 + json_escape(s@));
    }
}

/// Append `"key":"value"` for entry `j` of the row.
fn json_field_exec(row: &StrMap, j: usize, out: &mut Vec<char>)
    requires
        j < row@.len(),
    ensures
        final(out)@ == old(out)@ + json_field(row@[j as int].0, row@[j as int].1),
{
    out.push('"');
    json_escape_exec(row.key_at(j), out);
    out.push('"');
    out.push(':');
    out.push('"');
    json_escape_exec(row.val_at(j), out);
    out.push('"');
    proof {
        assert(out@ =~= old(out)@ + json_field(row@[j as int].0, row@[j as int].1));
    }
}

/// Append one row as a JSON object.
fn json_row_exec(row: &StrMap, out: &mut Vec<char>)
    ensures
        final(out)@ == old(out)@ + json_row(row@),
{
    let ghost rv = row@;
    let ghost out0 = out@;
    out.push('{');
    let m = row.len();
    if m > 0 {
        json_field_exec(row, 0, out);
        let mut j: usize = 1;
        proof {
            assert(rv.skip(1) =~= rv.drop_first());
        }
        while j < m
            invariant
                1 <= j <= m == rv.len(),
                rv == row@,
                out0 + seq!['{'] + json_field(rv[0].0, rv[0].1) + json_fields_tail(rv.drop_first())
                    == out@ + json_fields_tail(rv.skip(j as int)),
            decreases m - j,
        {
            proof {
                assert(rv.skip(j as int)[0] == rv[j as int]);
                assert(rv.skip(j as int).drop_first() =~= rv.skip(j + 1));
            }
            out.push(',');
            json_field_exec(row, j, out);
            j = j + 1;
        }
        proof {
            assert(rv.skip(m as int).len() == 0);
            assert(json_fields_tail(rv.skip(m as int)) =~= Seq::<char>::empty());
        }
    }
    out.push('}');
    proof {
        assert(out@ =~= out0 + json_row(rv));
    }
}

/// Encode the dataset as JSON.
pub fn json_encode(data: &Option<Vec<StrMap>>) -> (r: String)
    ensures
        r@ == json_of(match data {
            Some(rows) => Some(rows.deep_view()),
            None => None,
        }),
{
    let mut out: Vec<char> = Vec::new();
    match data {
        None => {
            append_str(&mut out, "null");
            proof {
                assert(out@ =~= "null"@);
            }
        },
        Some(rows) => {
            let ghost dv = rows.deep_view();
            out.push('[');
            let n = rows.len();
            if n > 0 {
                proof {
                    assert(rows@[0].deep_view() == dv[0]);
                    assert(dv.skip(1) =~= dv.drop_first());
                }
                json_row_exec(&rows[0], &mut out);
                let mut i: usize = 1;
                while i < n
                    invariant
                        1 <= i <= n == dv.len(),
                        dv == rows.deep_view(),
                        seq!['['] + json_row(dv[0]) + json_rows_tail(dv.drop_first()) == out@
                            + json_rows_tail(dv.skip(i as int)),
                    decreases n - i,
                {
                    proof {
                        assert(rows@[i as int].deep_view() == dv[i as int]);
                        assert(dv.skip(i as int)[0] == dv[i as int]);
                        assert(dv.skip(i as int).drop_first() =~= dv.skip(i + 1));
                    }
                    out.push(',');
                    json_row_exec(&rows[i], &mut out);
                    i = i + 1;
                }
                proof {
                    assert(dv.skip(n as int).len() == 0);
                    assert(json_rows_tail(dv.skip(n as int)) =~= Seq::<char>::empty());
                }
            }
            out.push(']');
            proof {
                assert(out@ =~= json_of(Some(dv)));
            }
        },
    }
    string_of_chars(&out)
}

// ----------------------------------------------------------------- XML --
/// One field as an XML element on its own indented line, tag name and
/// text content unescaped.
pub open spec fn xml_field(k: Seq<char>, v: Seq<char>) -> Seq<char> {
    "\n    <"@ + k + ">"@ + v + "</"@ + k + ">"@
}

pub open spec fn xml_fields(fields: RowV) -> Seq<char>
    decreases fields.len(),
{
    if fields.len() == 0 {
        Seq::empty()
    } else {
        xml_field(fields[0].0, fields[0].1) + xml_fields(fields.drop_first())
    }
}

pub open spec fn xml_row(row: RowV) -> Seq<char> {
    "\n  <row>"@ + xml_fields(row) + "\n  </row>"@
}

pub open spec fn xml_rows(rows: Seq<RowV>) -> Seq<char>
    decreases rows.len(),
{
    if rows.len() == 0 {
        Seq::empty()
    } else {
        xml_row(rows[0]) + xml_rows(rows.drop_first())
    }
}

/// The dataset as XML: a declaration line and a `<rows>` element with one
/// `<row>` child per row; an absent or empty dataset yields the bare
/// empty element with no declaration.
pub open spec fn xml_of(data: Option<Seq<RowV>>) -> Seq<char> {
    match data {
        None => "<rows></rows>"@,
        Some(rows) => if rows.len() == 0 {
            "<rows></rows>"@
        } else {
            "<?xml version=\"1.0\" encoding=\"UTF-8\"?>\n<rows>"@ + xml_rows(rows)
                + "\n</rows>"@
        },
    }
}

/// Append one row as an XML element.
fn xml_row_exec(row: &StrMap, out: &mut Vec<char>)
    ensures
        final(out)@ == old(out)@ + xml_row(row@),
{
    let ghost rv = row@;
    let ghost out0 = out@;
    append_str(out, "\n  <row>");
    let m = row.len();
    let mut j: usize = 0;
    proof {
        assert(rv.skip(0) =~= rv);
    }
    while j < m
        invariant
            0 <= j <= m == rv.len(),
            rv == row@,
            out0 + "\n  <row>"@ + xml_fields(rv) == out@ + xml_fields(rv.skip(j as int)),
        decreases m - j,
    {
        proof {
            assert(rv.skip(j as int)[0] == rv[j as int]);
            assert(rv.skip(j as int).drop_first() =~= rv.skip(j + 1));
        }
        append_str(out, "\n    <");
        append_str(out, row.key_at(j).as_str());
        append_str(out, ">");
        append_str(out, row.val_at(j).as_str());
        append_str(out, "</");
        append_str(out, row.key_at(j).as_str());
        append_str(out, ">");
        j = j + 1;
    }
    append_str(out, "\n  </row>");
    proof {
        assert(rv.skip(m as int).len() == 0);
        assert(xml_fields(rv.skip(m as int)) =~= Seq::<char>::empty());
        assert(out@ =~= out0 + xml_row(rv));
    }
}

/// Encode the dataset as XML.
pub fn xml_encode(data: &Option<Vec<StrMap>>) -> (r: String)
    ensures
        r@ == xml_of(match data {
            Some(rows) => Some(rows.deep_view()),
            None => None,
        }),
{
    let mut out: Vec<char> = Vec::new();
    match data {
        None => {
            append_str(&mut out, "<rows></rows>");
            proof {
                assert(out@ =~= "<rows></rows>"@);
            }
        },
        Some(rows) => {
            let n = rows.len();
            let ghost dv = rows.deep_view();
            if n == 0 {
                append_str(&mut out, "<rows></rows>");
                proof {
                    assert(out@ =~= "<rows></rows>"@);
                }
            } else {
                append_str(&mut out, "<?xml version=\"1.0\" encoding=\"UTF-8\"?>\n<rows>");
                let mut i: usize = 0;
                proof {
                    assert(dv.skip(0) =~= dv);
                }
                while i < n
                    invariant
                        0 <= i <= n == dv.len(),
                        dv == rows.deep_view(),
                        "<?xml version=\"1.0\" encoding=\"UTF-8\"?>\n<rows>"@ + xml_rows(dv)
                            == out@ + xml_rows(dv.skip(i as int)),
                    decreases n - i,
                {
                    proof {
                        assert(rows@[i as int].deep_view() == dv[i as int]);
                        assert(dv.skip(i as int)[0] == dv[i as int]);
                        assert(dv.skip(i as int).drop_first() =~= dv.skip(i + 1));
                    }
                    xml_row_exec(&rows[i], &mut out);
                    i = i + 1;
                }
                append_str(&mut out, "\n</rows>");
                proof {
                    assert(dv.skip(n as int).len() == 0);
                    assert(xml_rows(dv.skip(n as int)) =~= Seq::<char>::empty());
                    assert(out@ =~= xml_of(Some(dv)));
                }
            }
        },
    }
    string_of_chars(&out)
}

// ----------------------------------------------------------------- CSV --
/// A CSV value: wrapped in double quotes, every embedded double quote
/// doubled.
pub open spec fn csv_quoted(v: Seq<char>) -> Seq<char> {
    seq!['"'] + crate::text::replace_sub(v, seq!['"'], seq!['"', '"']) + seq!['"']
}

pub open spec fn csv_keys_tail(fields: RowV) -> Seq<char>
    decreases fields.len(),
{
    if fields.len() == 0 {
        Seq::empty()
    } else {
        seq![','] + fields[0].0 + csv_keys_tail(fields.drop_first())
    }
}

/// The header line: the first row's field names joined by commas.
pub open spec fn csv_keys(row: RowV) -> Seq<char> {
    if row.len() == 0 {
        Seq::empty()
    } else {
        row[0].0 + csv_keys_tail(row.drop_first())
    }
}

pub open spec fn csv_vals_tail(fields: RowV) -> Seq<char>
    decreases fields.len(),
{
    if fields.len() == 0 {
        Seq::empty()
    } else {
        seq![','] + csv_quoted(fields[0].1) + csv_vals_tail(fields.drop_first())
    }
}

/// One data line: the row's quoted values joined by commas.
pub open spec fn csv_vals(row: RowV) -> Seq<char> {
    if row.len() == 0 {
        Seq::empty()
    } else {
        csv_quoted(row[0].1) + csv_vals_tail(row.drop_first())
    }
}

pub open spec fn csv_body(rows: Seq<RowV>) -> Seq<char>
    decreases rows.len(),
{
    if rows.len() == 0 {
        Seq::empty()
    } else {
        csv_vals(rows[0]) + seq!['\n'] + csv_body(rows.drop_first())
    }
}

/// The dataset as CSV: empty when absent or empty; else the first row's
/// field names as the header line, then one line of quoted values per
/// row, each line ended by a newline.
pub open spec fn csv_of(data: Option<Seq<RowV>>) -> Seq<char> {
    match data {
        None => Seq::empty(),
        Some(rows) => if rows.len() == 0 {
            Seq::empty()
        } else {
            csv_keys(rows[0]) + seq!['\n'] + csv_body(rows)
        },
    }
}

/// Append one quoted CSV value.
fn csv_quoted_exec(v: &String, out: &mut Vec<char>)
    ensures
        final(out)@ == old(out)@ + csv_quoted(v@),
{
    let vc = crate::text::chars_of_str(v.as_str());
    let mut quote: Vec<char> = Vec::new();
    quote.push('"');
    let mut two: Vec<char> = Vec::new();
    two.push('"');
    two.push('"');
    proof {
        assert(quote@ =~= seq!['"']);
        assert(two@ =~= seq!['"', '"']);
    }
    let mut rep = crate::text::replace_all(&vc, &quote, &two);
    out.push('"');
    out.append(&mut rep);
    out.push('"');
    proof {
        assert(out@ =~= old(out)@ + csv_quoted(v@));
    }
}

/// Append the comma-joined quoted values of one row.
fn csv_vals_exec(row: &StrMap, out: &mut Vec<char>)
    ensures
        final(out)@ == old(out)@ + csv_vals(row@),
{
    let ghost rv = row@;
    let ghost out0 = out@;
    let m = row.len();
    if m > 0 {
        csv_quoted_exec(row.val_at(0), out);
        let mut j: usize = 1;
        proof {
            assert(rv.skip(1) =~= rv.drop_first());
        }
        while j < m
            invariant
                1 <= j <= m == rv.len(),
                rv == row@,
                out0 + csv_quoted(rv[0].1) + csv_vals_tail(rv.drop_first()) == out@
                    + csv_vals_tail(rv.skip(j as int)),
            decreases m - j,
        {
            proof {
                assert(rv.skip(j as int)[0] == rv[j as int]);
                assert(rv.skip(j as int).drop_first() =~= rv.skip(j + 1));
            }
            out.push(',');
            csv_quoted_exec(row.val_at(j), out);
            j = j + 1;
        }
        proof {
            assert(rv.skip(m as int).len() == 0);
            assert(csv_vals_tail(rv.skip(m as int)) =~= Seq::<char>::empty());
        }
    }
    proof {
        assert(out@ =~= out0 + csv_vals(rv));
    }
}

/// Encode the dataset as CSV.
pub fn csv_encode(data: &Option<Vec<StrMap>>) -> (r: String)
    ensures
        r@ == csv_of(match data {
            Some(rows) => Some(rows.deep_view()),
            None => None,
        }),
{
    let mut out: Vec<char> = Vec::new();
    match data {
        None => {
            proof {
                assert(out@ =~= Seq::<char>::empty());
            }
        },
        Some(rows) => {
            let n = rows.len();
            let ghost dv = rows.deep_view();
            if n > 0 {
                proof {
                    assert(rows@[0].deep_view() == dv[0]);
                }
                let first = &rows[0];
                let ghost rv = dv[0];
                let m = first.len();
                if m > 0 {
                    append_str(&mut out, first.key_at(0).as_str());
                    let mut j: usize = 1;
                    proof {
                        assert(rv.skip(1) =~= rv.drop_first());
                    }
                    while j < m
                        invariant
                            1 <= j <= m == rv.len(),
                            rv == rows@[0].deep_view(),
                            0 < rows@.len(),
                            first == &rows@[0],
                            rv[0].0 + csv_keys_tail(rv.drop_first()) == out@ + csv_keys_tail(
                                rv.skip(j as int),
                            ),
                        decreases m - j,
                    {
                        proof {
                            assert(rv.skip(j as int)[0] == rv[j as int]);
                            assert(rv.skip(j as int).drop_first() =~= rv.skip(j + 1));
                        }
                        out.push(',');
                        append_str(&mut out, first.key_at(j).as_str());
                        j = j + 1;
                    }
                    proof {
                        assert(rv.skip(m as int).len() == 0);
                        assert(csv_keys_tail(rv.skip(m as int)) =~= Seq::<char>::empty());
                    }
                }
                proof {
                    assert(out@ =~= csv_keys(dv[0]));
                }
                out.push('\n');
                let ghost header = out@;
                let mut i: usize = 0;
                proof {
                    assert(dv.skip(0) =~= dv);
                }
                while i < n
                    invariant
                        0 <= i <= n == dv.len(),
                        dv == rows.deep_view(),
                        header + csv_body(dv) == out@ + csv_body(dv.skip(i as int)),
                    decreases n - i,
                {
                    proof {
                        assert(rows@[i as int].deep_view() == dv[i as int]);
                        assert(dv.skip(i as int)[0] == dv[i as int]);
                        assert(dv.skip(i as int).drop_first() =~= dv.skip(i + 1));
                    }
                    csv_vals_exec(&rows[i], &mut out);
                    out.push('\n');
                    i = i + 1;
                }
                proof {
                    assert(dv.skip(n as int).len() == 0);
                    assert(csv_body(dv.skip(n as int)) =~= Seq::<char>::empty());
                    assert(out@ =~= csv_of(Some(dv)));
                }
            }
        },
    }
    string_of_chars(&out)
}

// ---------------------------------------------------------- plain text --
/// The fixed text an absent or empty dataset renders to.
pub open spec fn plain_empty_marker() -> Seq<char> {
    "\u{042D}\u{0439}! \u{041A}\u{043E}\u{0441}\u{043C}\u{043E}\u{0441} \u{043F}\u{0443}\u{0441}\u{0442}!"@
}

pub open spec fn plain_fields(fields: RowV) -> Seq<char>
    decreases fields.len(),
{
    if fields.len() == 0 {
        Seq::empty()
    } else {
        fields[0].0 + ": "@ + fields[0].1 + "\n"@ + plain_fields(fields.drop_first())
    }
}

pub open spec fn plain_row(row: RowV) -> Seq<char> {
    plain_fields(row) + "---\n"@
}

pub open spec fn plain_rows(rows: Seq<RowV>) -> Seq<char>
    decreases rows.len(),
{
    if rows.len() == 0 {
        Seq::empty()
    } else {
        plain_row(rows[0]) + plain_rows(rows.drop_first())
    }
}

/// The dataset as plain text: `field: value` lines per row, each row
/// closed by a separator line; absent or empty datasets yield the fixed
/// marker text.
pub open spec fn plain_of(data: Option<Seq<RowV>>) -> Seq<char> {
    match data {
        None => plain_empty_marker(),
        Some(rows) => if rows.len() == 0 {
            plain_empty_marker()
        } else {
            plain_rows(rows)
        },
    }
}

/// Append one row as `field: value` lines and the separator line.
fn plain_row_exec(row: &StrMap, out: &mut Vec<char>)
    ensures
        final(out)@ == old(out)@ + plain_row(row@),
{
    let ghost rv = row@;
    let ghost out0 = out@;
    let m = row.len();
    let mut j: usize = 0;
    proof {
        assert(rv.skip(0) =~= rv);
    }
    while j < m
        invariant
            0 <= j <= m == rv.len(),
            rv == row@,
            out0 + plain_fields(rv) == out@ + plain_fields(rv.skip(j as int)),
        decreases m - j,
    {
        proof {
            assert(rv.skip(j as int)[0] == rv[j as int]);
            assert(rv.skip(j as int).drop_first() =~= rv.skip(j + 1));
        }
        append_str(out, row.key_at(j).as_str());
        append_str(out, ": ");
        append_str(out, row.val_at(j).as_str());
        append_str(out, "\n");
        j = j + 1;
    }
    append_str(out, "---\n");
    proof {
        assert(rv.skip(m as int).len() == 0);
        assert(plain_fields(rv.skip(m as int)) =~= Seq::<char>::empty());
        assert(out@ =~= out0 + plain_row(rv));
    }
}

/// Encode the dataset as plain text.
pub fn plain_encode(data: &Option<Vec<StrMap>>) -> (r: String)
    ensures
        r@ == plain_of(match data {
            Some(rows) => Some(rows.deep_view()),
            None => None,
        }),
{
    let mut out: Vec<char> = Vec::new();
    match data {
        None => {
            append_str(
                &mut out,
                "\u{042D}\u{0439}! \u{041A}\u{043E}\u{0441}\u{043C}\u{043E}\u{0441} \u{043F}\u{0443}\u{0441}\u{0442}!",
            );
            proof {
                assert(out@ =~= plain_empty_marker());
            }
        },
        Some(rows) => {
            let n = rows.len();
            let ghost dv = rows.deep_view();
            if n == 0 {
                append_str(
                    &mut out,
                    "\u{042D}\u{0439}! \u{041A}\u{043E}\u{0441}\u{043C}\u{043E}\u{0441} \u{043F}\u{0443}\u{0441}\u{0442}!",
                );
                proof {
                    assert(out@ =~= plain_empty_marker());
                }
            } else {
                let mut i: usize = 0;
                proof {
                    assert(dv.skip(0) =~= dv);
                }
                while i < n
                    invariant
                        0 <= i <= n == dv.len(),
                        dv == rows.deep_view(),
                        plain_rows(dv) == out@ + plain_rows(dv.skip(i as int)),
                    decreases n - i,
                {
                    proof {
                        assert(rows@[i as int].deep_view() == dv[i as int]);
                        assert(dv.skip(i as int)[0] == dv[i as int]);
                        assert(dv.skip(i as int).drop_first() =~= dv.skip(i + 1));
                    }
                    plain_row_exec(&rows[i], &mut out);
                    i = i + 1;
                }
                proof {
                    assert(dv.skip(n as int).len() == 0);
                    assert(plain_rows(dv.skip(n as int)) =~= Seq::<char>::empty());
                    assert(out@ =~= plain_of(Some(dv)));
                }
            }
        },
    }
    string_of_chars(&out)
}

} // verus!