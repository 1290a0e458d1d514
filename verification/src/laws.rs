//! Properties of the encoders and the evaluator that hold for every
//! dataset, proved once and for all.
use vstd::prelude::*;

use crate::encode::{csv_body, csv_keys, csv_of, csv_quoted, hex_digit, json_esc_char, json_escape, json_field, json_fields_tail, json_of, json_row, json_rows_tail, plain_of, xml_of};
use crate::eval::{RowV, StV, eval_list, eval_plain};
use crate::text::{find_sub_from, lemma_find_sub_from, matches_at, replace_sub};
use crate::token::TokenV;

verus! {

/// `v` with every double-quote character written twice, all other
/// characters kept as they are.
pub open spec fn quote_doubled(v: Seq<char>) -> Seq<char>
    decreases v.len(),
{
    if v.len() == 0 {
        Seq::empty()
    } else {
        (if v[0] == '"' {
            seq!['"', '"']
        } else {
            seq![v[0]]
        }) + quote_doubled(v.drop_first())
    }
}

/// For a one-character pattern, an occurrence is just that character.
proof fn lemma_match_one(v: Seq<char>, c: char, t: int)
    requires
        0 <= t < v.len(),
    ensures
        matches_at(v, seq![c], t) == (v[t] == c),
{
    assert(v.subrange(t, t + 1) =~= seq![v[t]]);
    if v[t] == c {
        assert(v.subrange(t, t + 1) =~= seq![c]);
    } else {
        assert(v.subrange(t, t + 1) != seq![c]) by {
            assert(v.subrange(t, t + 1)[0] != seq![c][0]);
        }
    }
}

/// Doubling distributes over concatenation.
proof fn lemma_qd_concat(a: Seq<char>, b: Seq<char>)
    ensures
        quote_doubled(a + b) == quote_doubled(a) + quote_doubled(b),
    decreases a.len(),
{
    if a.len() == 0 {
        assert(a + b =~= b);
        assert(quote_doubled(a) =~= Seq::<char>::empty());
        assert(quote_doubled(a) + quote_doubled(b) =~= quote_doubled(b));
    } else {
        lemma_qd_concat(a.drop_first(), b);
        assert((a + b).drop_first() =~= a.drop_first() + b);
        assert((a + b)[0] == a[0]);
        assert(quote_doubled(a) + quote_doubled(b) =~= (if a[0] == '"' {
            seq!['"', '"']
        } else {
            seq![a[0]]
        }) + (quote_doubled(a.drop_first()) + quote_doubled(b)));
    }
}

/// A text without double quotes is unchanged by doubling.
proof fn lemma_qd_plain(v: Seq<char>)
    requires
        forall|t: int| 0 <= t < v.len() ==> v[t] != '"',
    ensures
        quote_doubled(v) == v,
    decreases v.len(),
{
    if v.len() == 0 {
        assert(quote_doubled(v) =~= v);
    } else {
        lemma_qd_plain(v.drop_first());
        assert(quote_doubled(v) =~= v);
    }
}

/// Replacing every quote by two quotes is exactly character-wise
/// doubling.
proof fn lemma_replace_is_doubling(v: Seq<char>)
    ensures
        replace_sub(v, seq!['"'], seq!['"', '"']) == quote_doubled(v),
    decreases v.len(),
{
    let pat = seq!['"'];
    let rep = seq!['"', '"'];
    lemma_find_sub_from(v, pat, 0);
    match find_sub_from(v, pat, 0) {
        None => {
            assert forall|t: int| 0 <= t < v.len() implies v[t] != '"' by {
                lemma_match_one(v, '"', t);
            }
            lemma_qd_plain(v);
        },
        Some(j) => {
            lemma_match_one(v, '"', j);
            assert(v[j] == '"');
            let pre = v.subrange(0, j);
            let suf = v.subrange(j + 1, v.len() as int);
            lemma_replace_is_doubling(suf);
            assert forall|t: int| 0 <= t < pre.len() implies pre[t] != '"' by {
                lemma_match_one(v, '"', t);
                assert(pre[t] == v[t]);
            }
            lemma_qd_plain(pre);
            lemma_qd_concat(pre, seq!['"'] + suf);
            assert(pre + (seq!['"'] + suf) =~= v);
            lemma_qd_concat(seq!['"'], suf);
            assert(quote_doubled(seq!['"']) =~= seq!['"', '"']) by {
                let e = seq!['"'].drop_first();
                assert(seq!['"'].len() == 1 && seq!['"'][0] == '"');
                assert(e =~= Seq::<char>::empty());
                assert(quote_doubled(e) =~= Seq::<char>::empty());
                assert(quote_doubled(seq!['"']) =~= seq!['"', '"'] + quote_doubled(e));
            }
            assert(replace_sub(v, pat, rep) =~= pre + rep + replace_sub(suf, pat, rep));
            assert(quote_doubled(v) =~= pre + (seq!['"', '"'] + quote_doubled(suf)));
            assert(pre + rep + quote_doubled(suf) =~= pre + (seq!['"', '"'] + quote_doubled(suf)));
        },
    }
}

/// A CSV value field is the value wrapped in double quotes with every
/// embedded double quote doubled.
pub proof fn lemma_csv_value_quoting(v: Seq<char>)
    ensures
        csv_quoted(v) == seq!['"'] + quote_doubled(v) + seq!['"'],
{
    lemma_replace_is_doubling(v);
}

/// A non-empty dataset's CSV output opens with the header line: the
/// first row's field names, joined by commas in that row's own entry
/// order, before any value line.
pub proof fn lemma_csv_header_first(rows: Seq<RowV>)
    requires
        rows.len() > 0,
    ensures
        csv_of(Some(rows)) == csv_keys(rows[0]) + seq!['\n'] + csv_body(rows),
{
}

/// XML, CSV and plain text render an absent dataset and a zero-row
/// dataset to the same output: the bare empty element, nothing, and the
/// fixed marker text.
pub proof fn lemma_absent_equals_empty()
    ensures
        xml_of(None) == xml_of(Some(Seq::<RowV>::empty())),
        csv_of(None) == csv_of(Some(Seq::<RowV>::empty())),
        plain_of(None) == plain_of(Some(Seq::<RowV>::empty())),
        xml_of(None) == "<rows></rows>"@,
        csv_of(None) == Seq::<char>::empty(),
        plain_of(None) == crate::encode::plain_empty_marker(),
{
}

/// Variable substitution and condition tests read only the first row:
/// two datasets with the same first row drive them identically, whatever
/// the later rows hold.
pub proof fn lemma_substitution_reads_first_row_only(
    st: StV,
    t: TokenV,
    d1: Seq<RowV>,
    d2: Seq<RowV>,
)
    requires
        d1.len() > 0,
        d2.len() > 0,
        d1[0] == d2[0],
        t is Variable || t is IfStart || t is Else || t is IfEnd,
    ensures
        eval_plain(st, t, d1) == eval_plain(st, t, d2),
{
}

/// The loop-breaker: a splice directive whose path is already in the
/// guard set appends nothing and changes nothing — the evaluation simply
/// moves to the next token.  A self-splicing template therefore expands
/// once: its second occurrence is guarded by the path inserted at the
/// first.
pub proof fn lemma_guarded_splice_skipped(
    toks: Seq<TokenV>,
    i: int,
    st: StV,
    data: Seq<RowV>,
    fs: RowV,
    vis: Set<Seq<char>>,
    path: Seq<char>,
)
    requires
        0 <= i < toks.len(),
        toks[i] == TokenV::Embed(path),
        vis.contains(path),
    ensures
        eval_list(toks, i, st, data, fs, vis) == eval_list(toks, i + 1, st, data, fs, vis),
{
}

/// A hexadecimal digit as the JSON escape writer emits them: `0`-`9`
/// and lower-case `a`-`f`.
pub open spec fn is_hex(c: char) -> bool {
    ('0' <= c && c <= '9') || ('a' <= c && c <= 'f')
}

pub open spec fn hex_val(c: char) -> int {
    if '0' <= c && c <= '9' {
        (c as int) - ('0' as int)
    } else {
        (c as int) - ('a' as int) + 10
    }
}

/// The escape writer's hex digits decode to the value they were written
/// from.
proof fn lemma_hex_inverse(n: u8)
    requires
        n < 16,
    ensures
        is_hex(hex_digit(n)),
        hex_val(hex_digit(n)) == n as int,
{
}

pub open spec fn cons_parse(c: char, o: Option<(Seq<char>, int)>) -> Option<(Seq<char>, int)> {
    match o {
        Some((t, e)) => Some((seq![c] + t, e)),
        None => None,
    }
}

/// Read a JSON string body from index `i` up to its closing quote:
/// escape sequences decoded, other characters kept.  Yields the decoded
/// text and the index just past the closing quote.
pub open spec fn parse_str_body(s: Seq<char>, i: int) -> Option<(Seq<char>, int)>
    decreases s.len() - i,
        when 0 <= i
{
    if i >= s.len() {
        None
    } else if s[i] == '"' {
        Some((Seq::empty(), i + 1))
    } else if s[i] == '\\' {
        if i + 1 < s.len() {
            let c = s[i + 1];
            if c == '"' || c == '\\' {
                cons_parse(c, parse_str_body(s, i + 2))
            } else if c == 'b' {
                cons_parse('\u{0008}', parse_str_body(s, i + 2))
            } else if c == 't' {
                cons_parse('\t', parse_str_body(s, i + 2))
            } else if c == 'n' {
                cons_parse('\n', parse_str_body(s, i + 2))
            } else if c == 'f' {
                cons_parse('\u{000C}', parse_str_body(s, i + 2))
            } else if c == 'r' {
                cons_parse('\r', parse_str_body(s, i + 2))
            } else if c == 'u' {
                if i + 5 < s.len() && s[i + 2] == '0' && s[i + 3] == '0' && is_hex(s[i + 4])
                    && is_hex(s[i + 5]) {
                    cons_parse(
                        ((hex_val(s[i + 4]) * 16 + hex_val(s[i + 5])) as u32) as char,
                        parse_str_body(s, i + 6),
                    )
                } else {
                    None
                }
            } else {
                None
            }
        } else {
            None
        }
    } else {
        cons_parse(s[i], parse_str_body(s, i + 1))
    }
}

/// A parsed string body always ends past where it began, within the
/// text.
pub proof fn lemma_parse_str_body_progress(s: Seq<char>, i: int)
    requires
        0 <= i,
    ensures
        match parse_str_body(s, i) {
            Some((_, e)) => i < e <= s.len(),
            None => true,
        },
    decreases s.len() - i,
{
    if i >= s.len() {
    } else if s[i] == '"' {
    } else if s[i] == '\\' {
        if i + 1 < s.len() {
            lemma_parse_str_body_progress(s, i + 2);
            if i + 5 < s.len() {
                lemma_parse_str_body_progress(s, i + 6);
            }
        }
    } else {
        lemma_parse_str_body_progress(s, i + 1);
    }
}

/// Read one `"key":"value"` member starting at its opening quote.
pub open spec fn parse_field(s: Seq<char>, i: int) -> Option<((Seq<char>, Seq<char>), int)> {
    if 0 <= i < s.len() && s[i] == '"' {
        match parse_str_body(s, i + 1) {
            Some((k, e1)) => {
                if e1 + 1 < s.len() && s[e1] == ':' && s[e1 + 1] == '"' {
                    match parse_str_body(s, e1 + 2) {
                        Some((v, e2)) => Some(((k, v), e2)),
                        None => None,
                    }
                } else {
                    None
                }
            },
            None => None,
        }
    } else {
        None
    }
}

pub proof fn lemma_parse_field_progress(s: Seq<char>, i: int)
    ensures
        match parse_field(s, i) {
            Some((_, e)) => i < e <= s.len(),
            None => true,
        },
{
    if 0 <= i < s.len() && s[i] == '"' {
        lemma_parse_str_body_progress(s, i + 1);
        match parse_str_body(s, i + 1) {
            Some((k, e1)) => {
                lemma_parse_str_body_progress(s, e1 + 2);
            },
            None => {},
        }
    }
}

/// Read the members after the first one: a comma before each, a closing
/// brace ending the row.  Yields the members and the index past the
/// brace.
pub open spec fn parse_fields_tail(s: Seq<char>, i: int) -> Option<(RowV, int)>
    decreases s.len() - i,
        when 0 <= i
        via parse_fields_tail_dec
{
    if i >= s.len() {
        None
    } else if s[i] == '}' {
        Some((Seq::empty(), i + 1))
    } else if s[i] == ',' {
        match parse_field(s, i + 1) {
            Some((kv, e)) => {
                if i + 1 < e {
                    match parse_fields_tail(s, e) {
                        Some((rest, e2)) => Some((seq![kv] + rest, e2)),
                        None => None,
                    }
                } else {
                    None
                }
            },
            None => None,
        }
    } else {
        None
    }
}

#[via_fn]
proof fn parse_fields_tail_dec(s: Seq<char>, i: int) {
    if 0 <= i < s.len() && s[i] == ',' {
        lemma_parse_field_progress(s, i + 1);
    }
}

pub proof fn lemma_parse_fields_tail_progress(s: Seq<char>, i: int)
    requires
        0 <= i,
    ensures
        match parse_fields_tail(s, i) {
            Some((_, e)) => i < e <= s.len(),
            None => true,
        },
    decreases s.len() - i,
{
    if 0 <= i < s.len() && s[i] == ',' {
        lemma_parse_field_progress(s, i + 1);
        match parse_field(s, i + 1) {
            Some((kv, e)) => {
                if i + 1 < e {
                    lemma_parse_fields_tail_progress(s, e);
                }
            },
            None => {},
        }
    }
}

/// Read one row object starting at its opening brace.
pub open spec fn parse_row(s: Seq<char>, i: int) -> Option<(RowV, int)> {
    if 0 <= i < s.len() && s[i] == '{' {
        if i + 1 < s.len() && s[i + 1] == '}' {
            Some((Seq::empty(), i + 2))
        } else {
            match parse_field(s, i + 1) {
                Some((kv, e)) => {
                    match parse_fields_tail(s, e) {
                        Some((rest, e2)) => Some((seq![kv] + rest, e2)),
                        None => None,
                    }
                },
                None => None,
            }
        }
    } else {
        None
    }
}

pub proof fn lemma_parse_row_progress(s: Seq<char>, i: int)
    ensures
        match parse_row(s, i) {
            Some((_, e)) => i < e <= s.len(),
            None => true,
        },
{
    if 0 <= i < s.len() && s[i] == '{' {
        lemma_parse_field_progress(s, i + 1);
        match parse_field(s, i + 1) {
            Some((kv, e)) => {
                lemma_parse_fields_tail_progress(s, e);
            },
            None => {},
        }
    }
}

/// Read the rows after the first one: a comma before each, a closing
/// bracket ending the array.
pub open spec fn parse_rows_tail(s: Seq<char>, i: int) -> Option<(Seq<RowV>, int)>
    decreases s.len() - i,
        when 0 <= i
        via parse_rows_tail_dec
{
    if i >= s.len() {
        None
    } else if s[i] == ']' {
        Some((Seq::empty(), i + 1))
    } else if s[i] == ',' {
        match parse_row(s, i + 1) {
            Some((row, e)) => {
                if i + 1 < e {
                    match parse_rows_tail(s, e) {
                        Some((rest, e2)) => Some((seq![row] + rest, e2)),
                        None => None,
                    }
                } else {
                    None
                }
            },
            None => None,
        }
    } else {
        None
    }
}

#[via_fn]
proof fn parse_rows_tail_dec(s: Seq<char>, i: int) {
    if 0 <= i < s.len() && s[i] == ',' {
        lemma_parse_row_progress(s, i + 1);
    }
}

/// Decode a whole JSON rendering: the absent dataset, an empty array, or
/// an array of rows covering the entire text.
pub open spec fn json_decode(s: Seq<char>) -> Option<Option<Seq<RowV>>> {
    if s == "null"@ {
        Some(None)
    } else if s.len() >= 2 && s[0] == '[' {
        if s.len() == 2 && s[1] == ']' {
            Some(Some(Seq::empty()))
        } else {
            match parse_row(s, 1) {
                Some((row, e)) => {
                    match parse_rows_tail(s, e) {
                        Some((rest, e2)) => {
                            if e2 == s.len() {
                                Some(Some(seq![row] + rest))
                            } else {
                                None
                            }
                        },
                        None => None,
                    }
                },
                None => None,
            }
        }
    } else {
        None
    }
}

/// The parser reads back exactly what the escape writer wrote: an
/// escaped text followed by a closing quote decodes to the original
/// text, consuming everything up to and including the quote.
#[verifier::rlimit(60)]
#[verifier::spinoff_prover]
proof fn lemma_parse_escaped(s: Seq<char>, i: int, v: Seq<char>)
    requires
        0 <= i,
        i + json_escape(v).len() + 1 <= s.len(),
        s.subrange(i, i + json_escape(v).len()) == json_escape(v),
        s[i + json_escape(v).len()] == '"',
    ensures
        parse_str_body(s, i) == Some((v, i + json_escape(v).len() + 1)),
    decreases v.len(),
{
    let e = json_escape(v);
    let ll = e.len() as int;
    assert forall|k: int| 0 <= k < ll implies s[i + k] == #[trigger] e[k] by {
        assert(s.subrange(i, i + ll)[k] == s[i + k]);
    }
    if v.len() == 0 {
        assert(s[i] == '"');
    } else {
        let c = v[0];
        let e0 = json_esc_char(c);
        let v1 = v.drop_first();
        let e1 = json_escape(v1);
        assert(e == e0 + e1);
        let l0 = e0.len() as int;
        let i1 = i + l0;
        assert forall|k: int| 0 <= k < e1.len() implies s.subrange(
            i1,
            i1 + e1.len(),
        )[k] == e1[k] by {
            assert(s.subrange(i1, i1 + e1.len())[k] == s[i1 + k]);
            assert(e[l0 + k] == e1[k]);
        }
        assert(s.subrange(i1, i1 + e1.len()) =~= e1);
        assert(s[i1 + e1.len()] == '"');
        lemma_parse_escaped(s, i1, v1);
        assert(seq![c] + v1 =~= v);
        if c == '"' || c == '\\' {
            assert(e0 == seq!['\\', c]);
            assert(s[i] == '\\' && s[i + 1] == c) by {
                assert(s.subrange(i, i + ll)[0] == s[i]);
                assert(e[0] == (e0 + e1)[0]);
                assert(s.subrange(i, i + ll)[1] == s[i + 1]);
                assert(e[1] == (e0 + e1)[1]);
            }
            assert(parse_str_body(s, i) == cons_parse(c, parse_str_body(s, i + 2)));
        } else if c == '\u{0008}' {
            assert(e0 == seq!['\\', 'b']);
            assert(s[i] == '\\' && s[i + 1] == 'b') by {
                assert(s.subrange(i, i + ll)[0] == s[i]);
                assert(e[0] == (e0 + e1)[0]);
                assert(s.subrange(i, i + ll)[1] == s[i + 1]);
                assert(e[1] == (e0 + e1)[1]);
            }
        } else if c == '\t' {
            assert(e0 == seq!['\\', 't']);
            assert(s[i] == '\\' && s[i + 1] == 't') by {
                assert(s.subrange(i, i + ll)[0] == s[i]);
                assert(e[0] == (e0 + e1)[0]);
                assert(s.subrange(i, i + ll)[1] == s[i + 1]);
                assert(e[1] == (e0 + e1)[1]);
            }
        } else if c == '\n' {
            assert(e0 == seq!['\\', 'n']);
            assert(s[i] == '\\' && s[i + 1] == 'n') by {
                assert(s.subrange(i, i + ll)[0] == s[i]);
                assert(e[0] == (e0 + e1)[0]);
                assert(s.subrange(i, i + ll)[1] == s[i + 1]);
                assert(e[1] == (e0 + e1)[1]);
            }
        } else if c == '\u{000C}' {
            assert(e0 == seq!['\\', 'f']);
            assert(s[i] == '\\' && s[i + 1] == 'f') by {
                assert(s.subrange(i, i + ll)[0] == s[i]);
                assert(e[0] == (e0 + e1)[0]);
                assert(s.subrange(i, i + ll)[1] == s[i + 1]);
                assert(e[1] == (e0 + e1)[1]);
            }
        } else if c == '\r' {
            assert(e0 == seq!['\\', 'r']);
            assert(s[i] == '\\' && s[i + 1] == 'r') by {
                assert(s.subrange(i, i + ll)[0] == s[i]);
                assert(e[0] == (e0 + e1)[0]);
                assert(s.subrange(i, i + ll)[1] == s[i + 1]);
                assert(e[1] == (e0 + e1)[1]);
            }
        } else if (c as u32) < 32 {
            let h1 = hex_digit(((c as u32) / 16) as u8);
            let h2 = hex_digit(((c as u32) % 16) as u8);
            assert(e0 == seq!['\\', 'u', '0', '0', h1, h2]);
            assert(s[i] == '\\' && s[i + 1] == 'u') by {
                assert(s.subrange(i, i + ll)[0] == s[i]);
                assert(e[0] == (e0 + e1)[0]);
                assert(s.subrange(i, i + ll)[1] == s[i + 1]);
                assert(e[1] == (e0 + e1)[1]);
            }
            assert(s[i + 2] == '0' && s[i + 3] == '0' && s[i + 4] == h1 && s[i + 5] == h2) by {
                assert(s.subrange(i, i + ll)[2] == s[i + 2]);
                assert(e[2] == (e0 + e1)[2]);
                assert(s.subrange(i, i + ll)[3] == s[i + 3]);
                assert(e[3] == (e0 + e1)[3]);
                assert(s.subrange(i, i + ll)[4] == s[i + 4]);
                assert(e[4] == (e0 + e1)[4]);
                assert(s.subrange(i, i + ll)[5] == s[i + 5]);
                assert(e[5] == (e0 + e1)[5]);
            }
            lemma_hex_inverse(((c as u32) / 16) as u8);
            lemma_hex_inverse(((c as u32) % 16) as u8);
            assert(hex_val(h1) * 16 + hex_val(h2) == c as u32);
            vstd::utf8::char_u32_cast(c, c as u32);
            assert(i + 5 < s.len());
            assert(parse_str_body(s, i) == cons_parse(
                ((hex_val(s[i + 4]) * 16 + hex_val(s[i + 5])) as u32) as char,
                parse_str_body(s, i + 6),
            ));
        } else {
            assert(e0 == seq![c]);
            assert(s[i] == c) by {
                assert(s.subrange(i, i + ll)[0] == s[i]);
                assert(e[0] == (e0 + e1)[0]);
            }
            assert(c != '"' && c != '\\');
            assert(parse_str_body(s, i) == cons_parse(s[i], parse_str_body(s, i + 1)));
        }
    }
}

/// A character inside a matched window of the text.
proof fn lemma_char_in(s: Seq<char>, i: int, w: Seq<char>, k: int)
    requires
        0 <= i,
        i + w.len() <= s.len(),
        s.subrange(i, i + w.len()) == w,
        0 <= k < w.len(),
    ensures
        s[i + k] == w[k],
{
    assert(s.subrange(i, i + w.len())[k] == s[i + k]);
}

/// A matched concatenation splits into two matched windows.
proof fn lemma_split(s: Seq<char>, i: int, x: Seq<char>, y: Seq<char>)
    requires
        0 <= i,
        i + x.len() + y.len() <= s.len(),
        s.subrange(i, i + x.len() + y.len()) == x + y,
    ensures
        s.subrange(i, i + x.len()) == x,
        s.subrange(i + x.len(), i + x.len() + y.len()) == y,
{
    let n = x.len() + y.len();
    assert forall|t: int| 0 <= t < n implies s[i + t] == #[trigger] (x + y)[t] by {
        assert(s.subrange(i, i + n)[t] == s[i + t]);
    }
    assert(s.subrange(i, i + x.len()) =~= x) by {
        assert forall|t: int| 0 <= t < x.len() implies s.subrange(i, i + x.len())[t] == #[trigger] x[t] by {
            assert(s.subrange(i, i + x.len())[t] == s[i + t]);
            assert((x + y)[t] == x[t]);
        }
    }
    assert(s.subrange(i + x.len(), i + n) =~= y) by {
        assert forall|t: int| 0 <= t < y.len() implies s.subrange(i + x.len(), i + n)[t]
            == #[trigger] y[t] by {
            assert(s.subrange(i + x.len(), i + n)[t] == s[i + x.len() + t]);
            assert((x + y)[x.len() + t] == y[t]);
        }
    }
}

/// The parser reads one member back exactly as the writer wrote it.
proof fn lemma_parse_field_of(s: Seq<char>, i: int, k: Seq<char>, v: Seq<char>)
    requires
        0 <= i,
        i + json_field(k, v).len() <= s.len(),
        s.subrange(i, i + json_field(k, v).len()) == json_field(k, v),
    ensures
        parse_field(s, i) == Some(((k, v), i + json_field(k, v).len())),
{
    let w = json_field(k, v);
    let ek = json_escape(k);
    let ev = json_escape(v);
    let q = seq!['"'];
    let m = seq!['"', ':', '"'];
    let tail1 = ek + (m + (ev + q));
    assert(w =~= q + tail1);
    lemma_split(s, i, q, tail1);
    let i1 = i + 1;
    let tail2 = m + (ev + q);
    lemma_split(s, i1, ek, tail2);
    let i2 = i1 + ek.len();
    lemma_split(s, i2, m, ev + q);
    let i3 = i2 + 3;
    lemma_split(s, i3, ev, q);
    let i4 = i3 + ev.len();
    lemma_char_in(s, i, q, 0);
    assert(s[i] == '"');
    lemma_char_in(s, i2, m, 0);
    lemma_char_in(s, i2, m, 1);
    lemma_char_in(s, i2, m, 2);
    assert(s[i2] == '"' && s[i2 + 1] == ':' && s[i2 + 2] == '"');
    lemma_char_in(s, i4, q, 0);
    assert(s[i4] == '"');
    lemma_parse_escaped(s, i1, k);
    assert(parse_str_body(s, i1) == Some((k, i2 + 1)));
    lemma_parse_escaped(s, i3, v);
    assert(parse_str_body(s, i3) == Some((v, i4 + 1)));
    assert(i4 + 1 == i + w.len());
}

/// The parser reads the later members back exactly, up to the closing
/// brace.
proof fn lemma_parse_fields_tail_of(s: Seq<char>, i: int, fields: RowV)
    requires
        0 <= i,
        i + json_fields_tail(fields).len() + 1 <= s.len(),
        s.subrange(i, i + json_fields_tail(fields).len()) == json_fields_tail(fields),
        s[i + json_fields_tail(fields).len()] == '}',
    ensures
        parse_fields_tail(s, i) == Some((fields, i + json_fields_tail(fields).len() + 1)),
    decreases fields.len(),
{
    let w = json_fields_tail(fields);
    if fields.len() == 0 {
        assert(s[i] == '}');
    } else {
        let f0 = fields[0];
        let jf = json_field(f0.0, f0.1);
        let rest = json_fields_tail(fields.drop_first());
        assert(w == seq![','] + jf + rest);
        assert(w =~= seq![','] + (jf + rest));
        lemma_split(s, i, seq![','], jf + rest);
        lemma_char_in(s, i, seq![','], 0);
        assert(s[i] == ',');
        assert(s[i] != '}');
        let i1 = i + 1;
        lemma_split(s, i1, jf, rest);
        lemma_parse_field_of(s, i1, f0.0, f0.1);
        let e = i1 + jf.len();
        assert(parse_field(s, i1) == Some(((f0.0, f0.1), e)));
        assert((f0.0, f0.1) =~= f0);
        lemma_parse_fields_tail_of(s, e, fields.drop_first());
        assert(s[e + rest.len()] == '}');
        assert(jf.len() >= 1) by {
            assert(jf == seq!['"'] + json_escape(f0.0) + seq!['"', ':', '"'] + json_escape(f0.1)
                + seq!['"']);
        }
        assert(seq![f0] + fields.drop_first() =~= fields);
        assert(e + rest.len() + 1 == i + w.len() + 1);
    }
}

/// The parser reads one row back exactly as the writer wrote it.
proof fn lemma_parse_row_of(s: Seq<char>, i: int, row: RowV)
    requires
        0 <= i,
        i + json_row(row).len() <= s.len(),
        s.subrange(i, i + json_row(row).len()) == json_row(row),
    ensures
        parse_row(s, i) == Some((row, i + json_row(row).len())),
{
    let w = json_row(row);
    if row.len() == 0 {
        assert(w == seq!['{', '}']);
        lemma_char_in(s, i, w, 0);
        lemma_char_in(s, i, w, 1);
        assert(s[i] == '{' && s[i + 1] == '}');
    } else {
        let f0 = row[0];
        let jf = json_field(f0.0, f0.1);
        let rest = json_fields_tail(row.drop_first());
        assert(w == seq!['{'] + jf + rest + seq!['}']);
        assert(w =~= seq!['{'] + (jf + (rest + seq!['}'])));
        lemma_split(s, i, seq!['{'], jf + (rest + seq!['}']));
        lemma_char_in(s, i, seq!['{'], 0);
        assert(s[i] == '{');
        let i1 = i + 1;
        lemma_split(s, i1, jf, rest + seq!['}']);
        lemma_parse_field_of(s, i1, f0.0, f0.1);
        let e = i1 + jf.len();
        lemma_split(s, e, rest, seq!['}']);
        lemma_char_in(s, e + rest.len(), seq!['}'], 0);
        assert(s[e + rest.len()] == '}');
        lemma_parse_fields_tail_of(s, e, row.drop_first());
        assert(jf == seq!['"'] + json_escape(f0.0) + seq!['"', ':', '"'] + json_escape(f0.1)
            + seq!['"']);
        lemma_char_in(s, i1, jf, 0);
        assert(s[i1] == jf[0]);
        assert(jf[0] == '"') by {
            assert((seq!['"'] + json_escape(f0.0) + seq!['"', ':', '"'] + json_escape(f0.1)
                + seq!['"'])[0] == '"');
        }
        assert(s[i + 1] != '}');
        assert((f0.0, f0.1) =~= f0);
        assert(seq![f0] + row.drop_first() =~= row);
        assert(e + rest.len() + 1 == i + w.len());
    }
}

/// The parser reads the later rows back exactly, up to the closing
/// bracket.
proof fn lemma_parse_rows_tail_of(s: Seq<char>, i: int, rows: Seq<RowV>)
    requires
        0 <= i,
        i + json_rows_tail(rows).len() + 1 <= s.len(),
        s.subrange(i, i + json_rows_tail(rows).len()) == json_rows_tail(rows),
        s[i + json_rows_tail(rows).len()] == ']',
    ensures
        parse_rows_tail(s, i) == Some((rows, i + json_rows_tail(rows).len() + 1)),
    decreases rows.len(),
{
    let w = json_rows_tail(rows);
    if rows.len() == 0 {
        assert(s[i] == ']');
    } else {
        let r0 = rows[0];
        let jr = json_row(r0);
        let rest = json_rows_tail(rows.drop_first());
        assert(w == seq![','] + jr + rest);
        assert(w =~= seq![','] + (jr + rest));
        lemma_split(s, i, seq![','], jr + rest);
        lemma_char_in(s, i, seq![','], 0);
        assert(s[i] == ',');
        assert(s[i] != ']');
        let i1 = i + 1;
        lemma_split(s, i1, jr, rest);
        lemma_parse_row_of(s, i1, r0);
        let e = i1 + jr.len();
        lemma_parse_rows_tail_of(s, e, rows.drop_first());
        assert(s[e + rest.len()] == ']');
        assert(jr.len() >= 1) by {
            if r0.len() == 0 {
            } else {
                assert(jr == seq!['{'] + json_field(r0[0].0, r0[0].1) + json_fields_tail(
                    r0.drop_first(),
                ) + seq!['}']);
            }
        }
        assert(seq![r0] + rows.drop_first() =~= rows);
    }
}

/// A rendered dataset, decoded back, reproduces every row and field
/// value exactly: the JSON encoder loses nothing.
#[verifier::rlimit(60)]
#[verifier::spinoff_prover]
pub proof fn lemma_json_round_trip(data: Option<Seq<RowV>>)
    ensures
        json_decode(json_of(data)) == Some(data),
{
    reveal_strlit("null");
    let s = json_of(data);
    match data {
        None => {
            assert(s == "null"@);
        },
        Some(rows) => {
            if rows.len() == 0 {
                assert(s == seq!['[', ']']);
                assert(s != "null"@) by {
                    assert("null"@.len() == 4);
                }
                assert(s.len() == 2 && s[0] == '[' && s[1] == ']');
            } else {
                let jr = json_row(rows[0]);
                let rest = json_rows_tail(rows.drop_first());
                assert(s == seq!['['] + jr + rest + seq![']']);
                assert(jr.len() >= 2) by {
                    if rows[0].len() == 0 {
                    } else {
                        assert(jr == seq!['{'] + json_field(rows[0][0].0, rows[0][0].1)
                            + json_fields_tail(rows[0].drop_first()) + seq!['}']);
                    }
                }
                assert(s =~= seq!['['] + (jr + (rest + seq![']'])));
                assert(s.subrange(0, s.len() as int) =~= s);
                lemma_split(s, 0, seq!['['], jr + (rest + seq![']']));
                lemma_char_in(s, 0, seq!['['], 0);
                assert(s[0] == '[');
                lemma_split(s, 1, jr, rest + seq![']']);
                let e: int = 1 + (jr.len() as int);
                lemma_split(s, e, rest, seq![']']);
                lemma_char_in(s, e + rest.len(), seq![']'], 0);
                assert(s[e + rest.len()] == ']');
                assert(s != "null"@) by {
                    assert("null"@[0] == 'n');
                }
                lemma_parse_row_of(s, 1, rows[0]);
                lemma_parse_rows_tail_of(s, e, rows.drop_first());
                assert(s.len() >= 2);
                if s.len() == 2 && s[1] == ']' {
                    assert(false) by {
                        assert(s.len() == 1 + jr.len() + rest.len() + 1);
                    }
                }
                assert(e + rest.len() + 1 == s.len());
                assert(seq![rows[0]] + rows.drop_first() =~= rows);
            }
        },
    }
}

} // verus!