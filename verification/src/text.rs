//! Character-sequence utilities shared by the tokenizer, the evaluator and
//! the encoders: whitespace trimming, substring search, splitting and
//! literal replacement, each with an exact specification.
use vstd::prelude::*;

verus! {

/// The characters with the Unicode `White_Space` property, the set that
/// `str::trim` removes.
pub open spec fn is_space_char(c: char) -> bool {
    c == ' ' || c == '\t' || c == '\n' || c == '\r' || c == '\u{000B}' || c == '\u{000C}'
        || c == '\u{0085}' || c == '\u{00A0}' || c == '\u{1680}'
        || ('\u{2000}' <= c && c <= '\u{200A}')
        || c == '\u{2028}' || c == '\u{2029}' || c == '\u{202F}' || c == '\u{205F}'
        || c == '\u{3000}'
}

pub fn is_space(c: char) -> (r: bool)
    ensures
        r == is_space_char(c),
{
    c == ' ' || c == '\t' || c == '\n' || c == '\r' || c == '\u{000B}' || c == '\u{000C}'
        || c == '\u{0085}' || c == '\u{00A0}' || c == '\u{1680}'
        || ('\u{2000}' <= c && c <= '\u{200A}')
        || c == '\u{2028}' || c == '\u{2029}' || c == '\u{202F}' || c == '\u{205F}'
        || c == '\u{3000}'
}

pub open spec fn trim_start_spec(s: Seq<char>) -> Seq<char>
    decreases s.len(),
{
    if s.len() > 0 && is_space_char(s[0]) {
        trim_start_spec(s.drop_first())
    } else {
        s
    }
}

pub open spec fn trim_end_spec(s: Seq<char>) -> Seq<char>
    decreases s.len(),
{
    if s.len() > 0 && is_space_char(s[s.len() - 1]) {
        trim_end_spec(s.drop_last())
    } else {
        s
    }
}

/// What `str::trim` returns: the sequence with leading and trailing
/// whitespace removed.
pub open spec fn trim_spec(s: Seq<char>) -> Seq<char> {
    trim_end_spec(trim_start_spec(s))
}

proof fn lemma_trim_start_at(s: Seq<char>, k: int)
    requires
        0 <= k <= s.len(),
        forall|i: int| 0 <= i < k ==> is_space_char(s[i]),
        k == s.len() || !is_space_char(s[k]),
    ensures
        trim_start_spec(s) == s.subrange(k, s.len() as int),
    decreases k,
{
    if k == 0 {
        assert(s.subrange(0, s.len() as int) =~= s);
    } else {
        lemma_trim_start_at(s.drop_first(), k - 1);
        assert(s.drop_first().subrange(k - 1, s.drop_first().len() as int) =~= s.subrange(
            k,
            s.len() as int,
        ));
    }
}

proof fn lemma_trim_end_at(s: Seq<char>, h: int)
    requires
        0 <= h <= s.len(),
        forall|i: int| h <= i < s.len() ==> is_space_char(s[i]),
        h == 0 || !is_space_char(s[h - 1]),
    ensures
        trim_end_spec(s) == s.subrange(0, h),
    decreases s.len() - h,
{
    if h == s.len() {
        if s.len() > 0 && is_space_char(s[s.len() - 1]) {
            assert(false);
        }
        assert(s.subrange(0, h) =~= s);
    } else {
        lemma_trim_end_at(s.drop_last(), h);
        assert(s.drop_last().subrange(0, h) =~= s.subrange(0, h));
    }
}

/// `str::trim` over an owned character vector.
pub fn trim_chars(s: &Vec<char>) -> (r: Vec<char>)
    ensures
        r@ == trim_spec(s@),
{
    let n = s.len();
    let mut lo: usize = 0;
    while lo < n && is_space(s[lo])
        invariant
            0 <= lo <= n == s.len(),
            forall|i: int| 0 <= i < lo ==> is_space_char(s@[i]),
        decreases n - lo,
    {
        lo = lo + 1;
    }
    proof {
        lemma_trim_start_at(s@, lo as int);
    }
    let mut hi: usize = n;
    while hi > lo && is_space(s[hi - 1])
        invariant
            lo <= hi <= n == s.len(),
            forall|i: int| hi <= i < n ==> is_space_char(s@[i]),
        decreases hi,
    {
        hi = hi - 1;
    }
    proof {
        let t = s@.subrange(lo as int, s@.len() as int);
        lemma_trim_end_at(t, hi - lo);
        assert(t.subrange(0, hi - lo) =~= s@.subrange(lo as int, hi as int));
    }
    let mut r: Vec<char> = Vec::new();
    let mut i: usize = lo;
    while i < hi
        invariant
            lo <= i <= hi <= s.len(),
            r@ =~= s@.subrange(lo as int, i as int),
        decreases hi - i,
    {
        r.push(s[i]);
        assert(r@ =~= s@.subrange(lo as int, i + 1));
        i = i + 1;
    }
    assert(r@ =~= s@.subrange(lo as int, hi as int));
    r
}

/// The pattern `pat` occurs in `s` starting at index `i`.
pub open spec fn matches_at(s: Seq<char>, pat: Seq<char>, i: int) -> bool {
    0 <= i && i + pat.len() <= s.len() && s.subrange(i, i + pat.len() as int) == pat
}

/// The first index at or after `i` where `pat` occurs in `s`, as
/// `str::find` computes it on the suffix.
pub open spec fn find_sub_from(s: Seq<char>, pat: Seq<char>, i: int) -> Option<int>
    decreases s.len() - i,
        when 0 <= i && pat.len() > 0
{
    if i + pat.len() > s.len() {
        None
    } else if matches_at(s, pat, i) {
        Some(i)
    } else {
        find_sub_from(s, pat, i + 1)
    }
}

pub proof fn lemma_find_sub_from(s: Seq<char>, pat: Seq<char>, i: int)
    requires
        0 <= i,
        pat.len() > 0,
    ensures
        match find_sub_from(s, pat, i) {
            Some(j) => i <= j && matches_at(s, pat, j) && forall|t: int|
                i <= t < j ==> !matches_at(s, pat, t),
            None => forall|t: int| i <= t ==> !matches_at(s, pat, t),
        },
    decreases s.len() - i,
{
    if i + pat.len() > s.len() {
    } else if matches_at(s, pat, i) {
    } else {
        lemma_find_sub_from(s, pat, i + 1);
    }
}

/// Whether `pat` occurs at index `i` of `s`, decided by character
/// comparison.
pub fn check_at(s: &Vec<char>, pat: &Vec<char>, i: usize) -> (r: bool)
    ensures
        r == matches_at(s@, pat@, i as int),
{
    if i > s.len() || pat.len() > s.len() - i {
        proof {
            assert(!matches_at(s@, pat@, i as int));
        }
        return false;
    }
    let mut k: usize = 0;
    while k < pat.len()
        invariant
            0 <= k <= pat.len(),
            i + pat.len() <= s.len(),
            forall|t: int| 0 <= t < k ==> s@[i + t] == pat@[t],
        decreases pat.len() - k,
    {
        if s[i + k] != pat[k] {
            proof {
                assert(s@.subrange(i as int, i + pat@.len()) != pat@) by {
                    assert(s@.subrange(i as int, i + pat@.len())[k as int] != pat@[k as int]);
                }
            }
            return false;
        }
        k = k + 1;
    }
    proof {
        assert(s@.subrange(i as int, i + pat@.len()) =~= pat@);
    }
    true
}

/// `str::find` of `pat` in `s`, searching from index `from`.
pub fn find_sub(s: &Vec<char>, pat: &Vec<char>, from: usize) -> (r: Option<usize>)
    requires
        from <= s.len(),
        pat@.len() > 0,
    ensures
        match r {
            Some(j) => from <= j && j + pat@.len() <= s@.len() && Some(j as int) == find_sub_from(
                s@,
                pat@,
                from as int,
            ),
            None => find_sub_from(s@, pat@, from as int) is None,
        },
{
    let mut j: usize = from;
    loop
        invariant
            from <= j <= s.len(),
            pat@.len() > 0,
            find_sub_from(s@, pat@, from as int) == find_sub_from(s@, pat@, j as int),
        decreases s.len() - j,
    {
        if pat.len() > s.len() - j {
            return None;
        }
        if check_at(s, pat, j) {
            return Some(j);
        }
        j = j + 1;
    }
}

/// `str::split` on a non-empty pattern: the parts of `s` between the
/// leftmost non-overlapping occurrences of `pat`.
pub open spec fn split_sub(s: Seq<char>, pat: Seq<char>) -> Seq<Seq<char>>
    decreases s.len(),
        when pat.len() > 0
        via split_sub_dec
{
    match find_sub_from(s, pat, 0) {
        None => seq![s],
        Some(j) => seq![s.subrange(0, j)] + split_sub(
            s.subrange(j + pat.len() as int, s.len() as int),
            pat,
        ),
    }
}

#[via_fn]
proof fn split_sub_dec(s: Seq<char>, pat: Seq<char>) {
    lemma_find_sub_from(s, pat, 0);
}

/// `str::replace` on a non-empty pattern: every leftmost non-overlapping
/// occurrence of `pat` replaced by `rep`, the replacement not rescanned.
pub open spec fn replace_sub(s: Seq<char>, pat: Seq<char>, rep: Seq<char>) -> Seq<char>
    decreases s.len(),
        when pat.len() > 0
        via replace_sub_dec
{
    match find_sub_from(s, pat, 0) {
        None => s,
        Some(j) => s.subrange(0, j) + rep + replace_sub(
            s.subrange(j + pat.len() as int, s.len() as int),
            pat,
            rep,
        ),
    }
}

#[via_fn]
proof fn replace_sub_dec(s: Seq<char>, pat: Seq<char>, rep: Seq<char>) {
    lemma_find_sub_from(s, pat, 0);
}

/// `str::split` over character vectors.
pub fn split_list(s: &Vec<char>, pat: &Vec<char>) -> (r: Vec<Vec<char>>)
    requires
        pat@.len() > 0,
    ensures
        r.deep_view() == split_sub(s@, pat@),
{
    let mut parts: Vec<Vec<char>> = Vec::new();
    let mut rem: Vec<char> = s.clone();
    proof {
        assert(parts.deep_view() =~~= Seq::<Seq<char>>::empty());
        assert(split_sub(s@, pat@) == parts.deep_view() + split_sub(rem@, pat@));
    }
    loop
        invariant
            pat@.len() > 0,
            split_sub(s@, pat@) == parts.deep_view() + split_sub(rem@, pat@),
        decreases rem@.len() + 1,
    {
        let ghost old_parts = parts.deep_view();
        let ghost old_rem = rem@;
        match find_sub(&rem, pat, 0) {
            None => {
                parts.push(rem);
                proof {
                    assert(parts.deep_view() =~~= old_parts.push(old_rem));
                    assert(parts.deep_view() =~~= split_sub(s@, pat@));
                }
                return parts;
            },
            Some(j) => {
                let pl = pat.len();
                let rl = rem.len();
                let mut head: Vec<char> = Vec::new();
                let mut i: usize = 0;
                while i < j
                    invariant
                        0 <= i <= j,
                        j + pl <= rl,
                        rl == rem@.len(),
                        head@ =~= rem@.subrange(0, i as int),
                    decreases j - i,
                {
                    head.push(rem[i]);
                    assert(head@ =~= rem@.subrange(0, i + 1));
                    i = i + 1;
                }
                let mut tail: Vec<char> = Vec::new();
                let mut k: usize = j + pl;
                let ghost start = k as int;
                while k < rl
                    invariant
                        0 <= start <= k <= rl,
                        rl == rem@.len(),
                        tail@ =~= rem@.subrange(start, k as int),
                    decreases rl - k,
                {
                    tail.push(rem[k]);
                    assert(tail@ =~= rem@.subrange(start, k + 1));
                    k = k + 1;
                }
                parts.push(head);
                proof {
                    assert(head@ =~= old_rem.subrange(0, j as int));
                    assert(tail@ =~= old_rem.subrange(j + pat@.len(), old_rem.len() as int));
                    assert(parts.deep_view() =~~= old_parts.push(old_rem.subrange(0, j as int)));
                    assert(split_sub(old_rem, pat@) == seq![old_rem.subrange(0, j as int)]
                        + split_sub(tail@, pat@));
                    assert(parts.deep_view() + split_sub(tail@, pat@) =~~= old_parts + split_sub(
                        old_rem,
                        pat@,
                    ));
                }
                rem = tail;
            },
        }
    }
}

/// `str::replace` over character vectors.
pub fn replace_all(s: &Vec<char>, pat: &Vec<char>, rep: &Vec<char>) -> (r: Vec<char>)
    requires
        pat@.len() > 0,
    ensures
        r@ == replace_sub(s@, pat@, rep@),
{
    let mut out: Vec<char> = Vec::new();
    let mut pos: usize = 0;
    let ghost orig = s@;
    proof {
        assert(orig.subrange(0, orig.len() as int) =~= orig);
    }
    loop
        invariant
            pat@.len() > 0,
            pos <= s@.len(),
            s@ == orig,
            replace_sub(orig, pat@, rep@) == out@ + replace_sub(
                orig.subrange(pos as int, orig.len() as int),
                pat@,
                rep@,
            ),
        decreases s@.len() - pos + 1,
    {
        let ghost rem = orig.subrange(pos as int, orig.len() as int);
        proof {
            lemma_find_sub_from(rem, pat@, 0);
            lemma_find_sub_from(orig, pat@, pos as int);
        }
        match find_sub(s, pat, pos) {
            None => {
                proof {
                    assert(find_sub_from(rem, pat@, 0) is None) by {
                        if find_sub_from(rem, pat@, 0) is Some {
                            let j = find_sub_from(rem, pat@, 0)->0;
                            assert(matches_at(rem, pat@, j));
                            assert(rem.subrange(j, j + pat@.len()) =~= orig.subrange(
                                pos + j,
                                pos + j + pat@.len(),
                            ));
                            assert(matches_at(orig, pat@, pos + j));
                        }
                    }
                }
                let mut i: usize = pos;
                let ghost out0 = out@;
                while i < s.len()
                    invariant
                        pos <= i <= s.len(),
                        s@ == orig,
                        out@ =~= out0 + orig.subrange(pos as int, i as int),
                    decreases s.len() - i,
                {
                    out.push(s[i]);
                    assert(out@ =~= out0 + orig.subrange(pos as int, i + 1));
                    i = i + 1;
                }
                proof {
                    assert(out@ =~= out0 + rem);
                }
                return out;
            },
            Some(j) => {
                proof {
                    assert(find_sub_from(rem, pat@, 0) == Some(j - pos)) by {
                        assert(matches_at(rem, pat@, j - pos)) by {
                            assert(rem.subrange(j - pos, j - pos + pat@.len()) =~= orig.subrange(
                                j as int,
                                j + pat@.len(),
                            ));
                        }
                        lemma_find_sub_from(rem, pat@, 0);
                        if find_sub_from(rem, pat@, 0) is None {
                            assert(!matches_at(rem, pat@, j - pos));
                        } else {
                            let j2 = find_sub_from(rem, pat@, 0)->0;
                            if j2 < j - pos {
                                assert(matches_at(rem, pat@, j2));
                                assert(rem.subrange(j2, j2 + pat@.len()) =~= orig.subrange(
                                    pos + j2,
                                    pos + j2 + pat@.len(),
                                ));
                                assert(matches_at(orig, pat@, pos + j2));
                            } else if j2 > j - pos {
                                assert(!matches_at(rem, pat@, j - pos));
                            }
                        }
                    }
                }
                let mut i: usize = pos;
                let ghost out0 = out@;
                while i < j
                    invariant
                        pos <= i <= j,
                        j <= s.len(),
                        s@ == orig,
                        out@ =~= out0 + orig.subrange(pos as int, i as int),
                    decreases j - i,
                {
                    out.push(s[i]);
                    assert(out@ =~= out0 + orig.subrange(pos as int, i + 1));
                    i = i + 1;
                }
                let mut k: usize = 0;
                let ghost out1 = out@;
                while k < rep.len()
                    invariant
                        0 <= k <= rep.len(),
                        out@ =~= out1 + rep@.subrange(0, k as int),
                    decreases rep.len() - k,
                {
                    out.push(rep[k]);
                    k = k + 1;
                }
                let pl = pat.len();
                proof {
                    assert(rem.subrange(0, j - pos) =~= orig.subrange(pos as int, j as int));
                    assert(rem.subrange(j - pos + pat@.len(), rem.len() as int) =~= orig.subrange(
                        j + pat@.len(),
                        orig.len() as int,
                    ));
                    assert(out@ =~= out1 + rep@);
                    assert(out@ =~= out0 + orig.subrange(pos as int, j as int) + rep@);
                    assert(replace_sub(rem, pat@, rep@) == rem.subrange(0, j - pos) + rep@
                        + replace_sub(rem.subrange(j - pos + pat@.len(), rem.len() as int), pat@, rep@));
                }
                pos = j + pl;
            },
        }
    }
}

/// A copy of `s[a..b]`.
pub fn sub_chars(s: &Vec<char>, a: usize, b: usize) -> (r: Vec<char>)
    requires
        a <= b <= s@.len(),
    ensures
        r@ == s@.subrange(a as int, b as int),
{
    let mut r: Vec<char> = Vec::new();
    let mut i: usize = a;
    while i < b
        invariant
            a <= i <= b <= s@.len(),
            r@ =~= s@.subrange(a as int, i as int),
        decreases b - i,
    {
        r.push(s[i]);
        assert(r@ =~= s@.subrange(a as int, i + 1));
        i = i + 1;
    }
    assert(r@ =~= s@.subrange(a as int, b as int));
    r
}

/// The characters of a `&str`, in order.
pub fn chars_of_str(s: &str) -> (r: Vec<char>)
    ensures
        r@ == s@,
{
    let n = s.unicode_len();
    let mut r: Vec<char> = Vec::new();
    let mut i: usize = 0;
    while i < n
        invariant
            0 <= i <= n == s@.len(),
            r@ =~= s@.subrange(0, i as int),
        decreases n - i,
    {
        r.push(s.get_char(i));
        assert(r@ =~= s@.subrange(0, i + 1));
        i = i + 1;
    }
    assert(r@ =~= s@);
    r
}

/// Relies on `String`'s `FromIterator<char>` impl: collecting characters
/// yields the string whose characters are exactly those, in order.
#[verifier::external_body]
pub fn string_of_chars(v: &Vec<char>) -> (r: String)
    ensures
        r@ == v@,
{
    v.iter().collect()
}

/// Whether two character vectors hold the same characters.
pub fn vec_chars_eq(a: &Vec<char>, b: &Vec<char>) -> (r: bool)
    ensures
        r == (a@ == b@),
{
    if a.len() != b.len() {
        return false;
    }
    let mut i: usize = 0;
    while i < a.len()
        invariant
            0 <= i <= a@.len() == b@.len(),
            forall|t: int| 0 <= t < i ==> a@[t] == b@[t],
        decreases a@.len() - i,
    {
        if a[i] != b[i] {
            return false;
        }
        i = i + 1;
    }
    proof {
        assert(a@ =~= b@);
    }
    true
}

/// The lower-case form of an ASCII letter; any other character is
/// unchanged.  Every supported format name is ASCII, and no Unicode
/// lowercasing reaches the ASCII letters these names use, so this matching
/// is case-insensitive in the same sense as the full Unicode fold.
pub open spec fn lower_char(c: char) -> char {
    if 'A' <= c && c <= 'Z' {
        ((c as u8) + 32) as char
    } else {
        c
    }
}

/// `s` with every ASCII upper-case letter lowered.
pub open spec fn lower_seq(s: Seq<char>) -> Seq<char> {
    s.map_values(|c: char| lower_char(c))
}

/// ASCII lower-casing of a character vector.
pub fn lower_chars(s: &Vec<char>) -> (r: Vec<char>)
    ensures
        r@ == lower_seq(s@),
{
    let mut r: Vec<char> = Vec::new();
    let mut i: usize = 0;
    while i < s.len()
        invariant
            0 <= i <= s@.len(),
            r@ =~= lower_seq(s@).subrange(0, i as int),
        decreases s@.len() - i,
    {
        let c = s[i];
        if 'A' <= c && c <= 'Z' {
            r.push(((c as u8) + 32) as char);
        } else {
            r.push(c);
        }
        assert(r@ =~= lower_seq(s@).subrange(0, i + 1));
        i = i + 1;
    }
    assert(r@ =~= lower_seq(s@));
    r
}

/// Append the characters of `s` to `out`.
pub fn append_str(out: &mut Vec<char>, s: &str)
    ensures
        final(out)@ == old(out)@ + s@,
{
    let mut cs = chars_of_str(s);
    out.append(&mut cs);
}

/// Whether two string slices hold the same characters.
pub fn str_eq(a: &str, b: &str) -> (r: bool)
    ensures
        r == (a@ == b@),
{
    let na = a.unicode_len();
    let nb = b.unicode_len();
    if na != nb {
        return false;
    }
    let mut i: usize = 0;
    while i < na
        invariant
            0 <= i <= na,
            na == a@.len() == b@.len(),
            forall|t: int| 0 <= t < i ==> a@[t] == b@[t],
        decreases na - i,
    {
        if a.get_char(i) != b.get_char(i) {
            return false;
        }
        i = i + 1;
    }
    proof {
        assert(a@ =~= b@);
    }
    true
}

} // verus!
