//! Literals shared by every lexer, their escape rule, and source positions.

use crate::utils::{replace_slice, replaced, string_from_chars};
use vstd::prelude::*;

verus! {

/// A literal as it stands in the source: its raw (still escaped) text and the
/// quote that delimited it (`0` when it was not quoted).
#[derive(Debug, Clone, PartialEq, Eq)]
pub struct Literal {
    pub raw: String,
    pub quote: u8,
}

/// The logical value of a literal whose raw text is `raw`: `\\` becomes `\`;
/// then, inside double quotes `\"` becomes `"`, inside single quotes `\'`
/// becomes `'`, and otherwise a backslash before a line break is dropped.
pub open spec fn unescaped(raw: Seq<char>, quote: u8) -> Seq<char> {
    let s = replaced(raw, seq!['\\', '\\'], seq!['\\']);
    if quote == 34u8 {
        replaced(s, seq!['\\', '"'], seq!['"'])
    } else if quote == 39u8 {
        replaced(s, seq!['\\', '\''], seq!['\''])
    } else {
        replaced(s, seq!['\\', '\n'], seq!['\n'])
    }
}

/// Computes `unescaped(raw, quote)`.
pub fn unescape_chars(raw: &[char], quote: u8) -> (r: Vec<char>)
    ensures
        r@ == unescaped(raw@, quote),
{
    let bs2 = vec!['\\', '\\'];
    let bs1 = vec!['\\'];
    assert(bs2@ =~= seq!['\\', '\\']);
    assert(bs1@ =~= seq!['\\']);
    let s = replace_slice(raw, bs2.as_slice(), bs1.as_slice());
    let c = if quote == 34u8 {
        '"'
    } else if quote == 39u8 {
        '\''
    } else {
        '\n'
    };
    let from = vec!['\\', c];
    let to = vec![c];
    assert(from@ =~= seq!['\\', c]);
    assert(to@ =~= seq![c]);
    replace_slice(s.as_slice(), from.as_slice(), to.as_slice())
}

impl Literal {
    /// The logical value of the literal.
    pub fn unescape(&self) -> (r: String)
        ensures
            r@ == unescaped(self.raw@, self.quote),
    {
        let raw = crate::utils::chars_of(self.raw.as_str());
        let v = unescape_chars(raw.as_slice(), self.quote);
        string_from_chars(v.as_slice())
    }
}

/// `s` with every backslash and every `q` preceded by a backslash.
pub open spec fn escaped(s: Seq<char>, q: char) -> Seq<char>
    decreases s.len(),
{
    if s.len() == 0 {
        s
    } else {
        let c = s[0];
        (if c == '\\' || c == q {
            seq!['\\', c]
        } else {
            seq![c]
        }) + escaped(s.drop_first(), q)
    }
}

/// `raw` is made only of the escapes `\\` and `\q` and of other characters
/// than a backslash or `q`.
pub open spec fn well_escaped(raw: Seq<char>, q: char) -> bool
    decreases raw.len(),
{
    if raw.len() == 0 {
        true
    } else if raw[0] == '\\' {
        raw.len() >= 2 && (raw[1] == '\\' || raw[1] == q) && well_escaped(
            raw.subrange(2, raw.len() as int),
            q,
        )
    } else {
        raw[0] != q && well_escaped(raw.drop_first(), q)
    }
}

/// Each escape pair read as the character it stands for.
pub open spec fn decoded(raw: Seq<char>) -> Seq<char>
    decreases raw.len(),
{
    if raw.len() == 0 {
        raw
    } else if raw[0] == '\\' && raw.len() >= 2 {
        seq![raw[1]] + decoded(raw.subrange(2, raw.len() as int))
    } else {
        seq![raw[0]] + decoded(raw.drop_first())
    }
}

/// `raw` after only the `\\` pairs have been read.
spec fn half_decoded(raw: Seq<char>) -> Seq<char>
    decreases raw.len(),
{
    if raw.len() == 0 {
        raw
    } else if raw[0] == '\\' && raw.len() >= 2 && raw[1] == '\\' {
        seq!['\\'] + half_decoded(raw.subrange(2, raw.len() as int))
    } else if raw[0] == '\\' && raw.len() >= 2 {
        seq!['\\', raw[1]] + half_decoded(raw.subrange(2, raw.len() as int))
    } else {
        seq![raw[0]] + half_decoded(raw.drop_first())
    }
}

proof fn lemma_replaced_head(c: char, t: Seq<char>, from: Seq<char>, to: Seq<char>)
    requires
        from.len() > 0,
        from[0] != c,
    ensures
        replaced(seq![c] + t, from, to) == seq![c] + replaced(t, from, to),
{
    let s = seq![c] + t;
    assert(s.subrange(1, s.len() as int) =~= t);
    if s.len() >= from.len() {
        assert(s.subrange(0, from.len() as int)[0] == c);
    } else {
        assert(t.len() < from.len());
    }
}

proof fn lemma_first_pass(raw: Seq<char>, q: char)
    requires
        well_escaped(raw, q),
        q != '\\',
    ensures
        replaced(raw, seq!['\\', '\\'], seq!['\\']) == half_decoded(raw),
        half_decoded(raw).len() == 0 || half_decoded(raw)[0] != q,
    decreases raw.len(),
{
    let bs2 = seq!['\\', '\\'];
    let bs1 = seq!['\\'];
    if raw.len() == 0 {
    } else if raw[0] == '\\' {
        let r2 = raw.subrange(2, raw.len() as int);
        lemma_first_pass(r2, q);
        if raw[1] == '\\' {
            assert(raw.subrange(0, 2) =~= bs2);
        } else {
            assert(raw.subrange(0, 2)[1] != bs2[1]);
            let r1 = raw.subrange(1, raw.len() as int);
            assert(r1 =~= seq![raw[1]] + r2);
            lemma_replaced_head(raw[1], r2, bs2, bs1);
            assert(raw =~= seq!['\\'] + r1);
            if raw.len() >= 2 {
                assert(raw.subrange(0, 2) != bs2);
            }
            assert(seq!['\\', raw[1]] + half_decoded(r2) =~= seq!['\\'] + (seq![raw[1]]
                + half_decoded(r2)));
        }
    } else {
        let r1 = raw.drop_first();
        lemma_first_pass(r1, q);
        assert(raw =~= seq![raw[0]] + r1);
        lemma_replaced_head(raw[0], r1, bs2, bs1);
    }
}

proof fn lemma_second_pass(raw: Seq<char>, q: char)
    requires
        well_escaped(raw, q),
        q != '\\',
    ensures
        replaced(half_decoded(raw), seq!['\\', q], seq![q]) == decoded(raw),
    decreases raw.len(),
{
    let from = seq!['\\', q];
    let to = seq![q];
    if raw.len() == 0 {
    } else if raw[0] == '\\' {
        let r2 = raw.subrange(2, raw.len() as int);
        lemma_second_pass(r2, q);
        lemma_first_pass(r2, q);
        let h = half_decoded(r2);
        if raw[1] == '\\' {
            let s = seq!['\\'] + h;
            assert(s.subrange(1, s.len() as int) =~= h);
            if s.len() >= 2 {
                assert(s.subrange(0, 2)[1] != from[1]);
            }
        } else {
            let s = seq!['\\', q] + h;
            assert(s.subrange(0, 2) =~= from);
            assert(s.subrange(2, s.len() as int) =~= h);
        }
    } else {
        let r1 = raw.drop_first();
        lemma_second_pass(r1, q);
        lemma_replaced_head(raw[0], half_decoded(r1), from, to);
    }
}

proof fn lemma_escape_decoded(raw: Seq<char>, q: char)
    requires
        well_escaped(raw, q),
    ensures
        escaped(decoded(raw), q) == raw,
    decreases raw.len(),
{
    if raw.len() == 0 {
    } else if raw[0] == '\\' {
        let r2 = raw.subrange(2, raw.len() as int);
        lemma_escape_decoded(r2, q);
        let d = seq![raw[1]] + decoded(r2);
        assert(d.drop_first() =~= decoded(r2));
        assert(raw =~= seq!['\\', raw[1]] + r2);
    } else {
        let r1 = raw.drop_first();
        lemma_escape_decoded(r1, q);
        let d = seq![raw[0]] + decoded(r1);
        assert(d.drop_first() =~= decoded(r1));
        assert(raw =~= seq![raw[0]] + r1);
    }
}

/// For a quoted literal whose raw text uses only the escapes `\\` and `\q`,
/// unescaping it and escaping the value again under the same quote gives the
/// raw text back.
pub proof fn lemma_unescape_round_trip(raw: Seq<char>, quote: u8)
    requires
        quote == 34u8 || quote == 39u8,
        well_escaped(raw, if quote == 34u8 { '"' } else { '\'' }),
    ensures
        escaped(unescaped(raw, quote), if quote == 34u8 { '"' } else { '\'' }) == raw,
{
    let q = if quote == 34u8 {
        '"'
    } else {
        '\''
    };
    lemma_first_pass(raw, q);
    lemma_second_pass(raw, q);
    lemma_escape_decoded(raw, q);
}

/// How many line breaks `data` holds before index `pos`.
pub open spec fn breaks_before(data: Seq<u8>, pos: int) -> nat
    decreases pos,
{
    if pos <= 0 {
        0
    } else {
        breaks_before(data, pos - 1) + if data[pos - 1] == 10u8 {
            1nat
        } else {
            0nat
        }
    }
}

/// Where the line that holds index `pos` starts.
pub open spec fn line_start(data: Seq<u8>, pos: int) -> int
    decreases pos,
{
    if pos <= 0 {
        0
    } else if data[pos - 1] == 10u8 {
        pos
    } else {
        line_start(data, pos - 1)
    }
}

proof fn lemma_line_start_bound(data: Seq<u8>, pos: int)
    requires
        0 <= pos,
    ensures
        0 <= line_start(data, pos) <= pos,
    decreases pos,
{
    if pos > 0 {
        lemma_line_start_bound(data, pos - 1);
    }
}

proof fn lemma_breaks_bound(data: Seq<u8>, pos: int)
    requires
        0 <= pos,
    ensures
        breaks_before(data, pos) <= pos,
    decreases pos,
{
    if pos > 0 {
        lemma_breaks_bound(data, pos - 1);
    }
}

/// The 1-based line and 0-based column of byte offset `pos` in `data`. A line
/// break belongs to the line it ends. An offset past the end gives the line
/// after the last one, column 0.
pub fn line_column(data: &[u8], pos: usize) -> (r: (usize, usize))
    requires
        data@.len() + 2 <= usize::MAX,
    ensures
        pos <= data@.len() ==> r.0 == 1 + breaks_before(data@, pos as int) && r.1 == pos
            - line_start(data@, pos as int),
        pos > data@.len() ==> r.0 == 2 + breaks_before(data@, data@.len() as int) && r.1 == 0,
{
    let n = data.len();
    let end = if pos <= n {
        pos
    } else {
        n
    };
    let mut ln: usize = 1;
    let mut start: usize = 0;
    let mut i: usize = 0;
    while i < end
        invariant
            end <= n == data@.len(),
            n + 2 <= usize::MAX,
            i <= end,
            ln == 1 + breaks_before(data@, i as int),
            start == line_start(data@, i as int),
        decreases end - i,
    {
        proof {
            lemma_breaks_bound(data@, i as int);
        }
        if data[i] == 10u8 {
            ln = ln + 1;
            start = i + 1;
        }
        i = i + 1;
    }
    proof {
        lemma_line_start_bound(data@, i as int);
        lemma_breaks_bound(data@, i as int);
    }
    if pos <= n {
        (ln, pos - start)
    } else {
        (ln + 1, 0)
    }
}

/// Where the suffix `err` of `data` starts, with its line and column: `None`
/// when `err` is not a suffix of `data`.
pub fn line_column2(data: &[u8], err: &[u8]) -> (r: Option<((usize, usize), usize)>)
    requires
        data@.len() + 2 <= usize::MAX,
    ensures
        r is Some <==> (err@.len() <= data@.len() && data@.subrange(
            data@.len() - err@.len(),
            data@.len() as int,
        ) == err@),
        r matches Some(v) ==> v.1 == data@.len() - err@.len() && v.0.0 == 1 + breaks_before(
            data@,
            v.1 as int,
        ) && v.0.1 == v.1 - line_start(data@, v.1 as int),
{
    if err.len() > data.len() {
        return None;
    }
    let pos = data.len() - err.len();
    let mut k: usize = 0;
    while k < err.len()
        invariant
            pos + err@.len() == data@.len(),
            err@.len() == err.len(),
            data@.len() == data.len(),
            k <= err@.len(),
            forall|j: int| 0 <= j < k ==> data@[pos + j] == err@[j],
        decreases err@.len() - k,
    {
        if data[pos + k] != err[k] {
            assert(data@.subrange(pos as int, data@.len() as int)[k as int] != err@[k as int]);
            return None;
        }
        k = k + 1;
    }
    assert(data@.subrange(pos as int, data@.len() as int) =~= err@);
    Some((line_column(data, pos), pos))
}

/// The characters that end an unquoted literal (besides the end of input) in
/// each syntax: `0` Apache, `1` Nginx, `2` the query language. A backslash
/// escapes the character after it and never ends the literal.
pub open spec fn ends_bare(c: char, syntax: u8) -> bool {
    c == ' ' || c == '\t' || c == '\r' || c == '\n' || c == '\'' || c == '"' || (syntax == 0
        && (c == '<' || c == '>')) || (syntax == 1 && (c == '{' || c == ';')) || (syntax == 2 && (
    c == '[' || c == ']' || c == '/' || c == '=' || c == '~'))
}

fn is_bare_end(c: char, syntax: u8) -> (r: bool)
    ensures
        r == ends_bare(c, syntax),
{
    c == ' ' || c == '\t' || c == '\r' || c == '\n' || c == '\'' || c == '"' || (syntax == 0
        && (c == '<' || c == '>')) || (syntax == 1 && (c == '{' || c == ';')) || (syntax == 2 && (
    c == '[' || c == ']' || c == '/' || c == '=' || c == '~'))
}

/// Where the quoted run that starts at `k` ends: the index of the closing `q`.
/// `None` when the input ends first, or right after a backslash.
pub open spec fn quoted_end(s: Seq<char>, k: int, q: char) -> Option<int>
    decreases s.len() - k,
{
    if k < 0 || k >= s.len() {
        None
    } else if s[k] == '\\' {
        if k + 1 >= s.len() {
            None
        } else {
            quoted_end(s, k + 2, q)
        }
    } else if s[k] == q {
        Some(k)
    } else {
        quoted_end(s, k + 1, q)
    }
}

/// Where the unquoted run that starts at `k` ends. `None` when the input ends
/// right after a backslash.
pub open spec fn bare_end(s: Seq<char>, k: int, syntax: u8) -> Option<int>
    decreases s.len() - k,
{
    if k < 0 || k >= s.len() {
        Some(k)
    } else if s[k] == '\\' {
        if k + 1 >= s.len() {
            None
        } else {
            bare_end(s, k + 2, syntax)
        }
    } else if ends_bare(s[k], syntax) {
        Some(k)
    } else {
        bare_end(s, k + 1, syntax)
    }
}

/// The literal that starts at `j`: where its raw text starts and ends, where
/// the input goes on after it, and its quote. A quoted literal may be empty,
/// an unquoted one may not.
pub open spec fn literal_at(s: Seq<char>, j: int, syntax: u8) -> Option<(int, int, int, u8)> {
    if j < 0 || j >= s.len() {
        None
    } else if s[j] == '"' || s[j] == '\'' {
        match quoted_end(s, j + 1, s[j]) {
            Some(e) => Some((j + 1, e, e + 1, if s[j] == '"' { 34u8 } else { 39u8 })),
            None => None,
        }
    } else {
        match bare_end(s, j, syntax) {
            Some(e) => if e > j {
                Some((j, e, e, 0u8))
            } else {
                None
            },
            None => None,
        }
    }
}

proof fn lemma_quoted_end_bound(s: Seq<char>, k: int, q: char)
    requires
        0 <= k,
    ensures
        quoted_end(s, k, q) matches Some(e) ==> k <= e < s.len(),
    decreases s.len() - k,
{
    if k < s.len() {
        if s[k] == '\\' {
            if k + 1 < s.len() {
                lemma_quoted_end_bound(s, k + 2, q);
            }
        } else if s[k] != q {
            lemma_quoted_end_bound(s, k + 1, q);
        }
    }
}

proof fn lemma_bare_end_bound(s: Seq<char>, k: int, syntax: u8)
    requires
        0 <= k <= s.len(),
    ensures
        bare_end(s, k, syntax) matches Some(e) ==> k <= e <= s.len(),
    decreases s.len() - k,
{
    if k < s.len() {
        if s[k] == '\\' {
            if k + 1 < s.len() {
                lemma_bare_end_bound(s, k + 2, syntax);
            }
        } else if !ends_bare(s[k], syntax) {
            lemma_bare_end_bound(s, k + 1, syntax);
        }
    }
}

/// Scans the literal that starts at `j`, as `literal_at` says.
pub fn scan_literal(s: &[char], j: usize, syntax: u8) -> (r: Option<(usize, usize, usize, u8)>)
    requires
        j < s@.len(),
    ensures
        r matches Some(v) ==> literal_at(s@, j as int, syntax) == Some(
            (v.0 as int, v.1 as int, v.2 as int, v.3),
        ),
        r is None ==> literal_at(s@, j as int, syntax) is None,
        r matches Some(v) ==> j < v.2 <= s@.len() && j <= v.0 <= v.1 <= v.2,
{
    let n = s.len();
    let c = s[j];
    if c == '"' || c == '\'' {
        let mut k: usize = j + 1;
        proof {
            lemma_quoted_end_bound(s@, (j + 1) as int, c);
        }
        while k < n
            invariant
                n == s@.len(),
                j < k <= n,
                c == s@[j as int],
                c == '"' || c == '\'',
                quoted_end(s@, k as int, c) == quoted_end(s@, (j + 1) as int, c),
            decreases n - k,
        {
            if s[k] == '\\' {
                if k + 1 >= n {
                    return None;
                }
                k = k + 2;
            } else if s[k] == c {
                return Some((j + 1, k, k + 1, if c == '"' { 34u8 } else { 39u8 }));
            } else {
                k = k + 1;
            }
        }
        None
    } else {
        let mut k: usize = j;
        proof {
            lemma_bare_end_bound(s@, j as int, syntax);
        }
        while k < n
            invariant
                n == s@.len(),
                j <= k <= n,
                j < n,
                c == s@[j as int],
                c != '"' && c != '\'',
                bare_end(s@, k as int, syntax) == bare_end(s@, j as int, syntax),
            decreases n - k,
        {
            if s[k] == '\\' {
                if k + 1 >= n {
                    return None;
                }
                k = k + 2;
            } else if is_bare_end(s[k], syntax) {
                return if k > j {
                    Some((j, k, k, 0u8))
                } else {
                    None
                };
            } else {
                k = k + 1;
            }
        }
        if k > j {
            Some((j, k, k, 0u8))
        } else {
            None
        }
    }
}

/// Where the line that `k` is on ends: the index of the next line break, or
/// the end of input.
pub open spec fn line_end(s: Seq<char>, k: int) -> int
    decreases s.len() - k,
{
    if k < 0 || k >= s.len() || s[k] == '\n' {
        k
    } else {
        line_end(s, k + 1)
    }
}

pub proof fn lemma_line_end_bound(s: Seq<char>, k: int)
    requires
        0 <= k <= s.len(),
    ensures
        k <= line_end(s, k) <= s.len(),
        line_end(s, k) < s.len() ==> s[line_end(s, k)] == '\n',
    decreases s.len() - k,
{
    if k < s.len() && s[k] != '\n' {
        lemma_line_end_bound(s, k + 1);
    }
}

/// Computes `line_end(s, k)`.
pub fn find_line_end(s: &[char], k: usize) -> (r: usize)
    requires
        k <= s@.len(),
    ensures
        r == line_end(s@, k as int),
{
    let mut i = k;
    while i < s.len() && s[i] != '\n'
        invariant
            k <= i <= s@.len(),
            line_end(s@, i as int) == line_end(s@, k as int),
        decreases s@.len() - i,
    {
        i = i + 1;
    }
    i
}

/// The characters `s[from..to]` as a string.
pub fn text_of(s: &[char], from: usize, to: usize) -> (r: String)
    requires
        from <= to <= s@.len(),
    ensures
        r@ == s@.subrange(from as int, to as int),
{
    let mut v: Vec<char> = Vec::new();
    let mut k = from;
    while k < to
        invariant
            from <= k <= to <= s@.len(),
            v@ == s@.subrange(from as int, k as int),
        decreases to - k,
    {
        v.push(s[k]);
        k = k + 1;
        assert(v@ =~= s@.subrange(from as int, k as int));
    }
    string_from_chars(v.as_slice())
}

/// The logical value of `s[from..to]` read as a literal with quote `quote`.
pub fn value_of(s: &[char], from: usize, to: usize, quote: u8) -> (r: String)
    requires
        from <= to <= s@.len(),
    ensures
        r@ == unescaped(s@.subrange(from as int, to as int), quote),
{
    let mut v: Vec<char> = Vec::new();
    let mut k = from;
    while k < to
        invariant
            from <= k <= to <= s@.len(),
            v@ == s@.subrange(from as int, k as int),
        decreases to - k,
    {
        v.push(s[k]);
        k = k + 1;
        assert(v@ =~= s@.subrange(from as int, k as int));
    }
    let u = unescape_chars(v.as_slice(), quote);
    string_from_chars(u.as_slice())
}

} // verus!
