use vstd::prelude::*;

verus! {

/// The characters `[start, end)` of a text.
#[derive(Clone, Copy, Debug, PartialEq, Eq, Structural)]
pub struct Span {
    pub start: usize,
    pub end: usize,
}

/// One record of an INI-like text. Spans are character indices into the text.
#[derive(Clone, Copy, Debug, PartialEq, Eq, Structural)]
pub enum IniEntry {
    /// `[name]`: the span of `name`.
    Section { start: usize, end: usize },
    /// `key = value`: the span of the key (inside its quotes, when quoted) and
    /// the span of the value (inside its quotes); no value where the line has no `=`.
    KeyValue { key_start: usize, key_end: usize, quoted_key: bool, value: Option<Span> },
}

/// Why a text is not well formed, with the line (from 1) where it happens.
#[derive(Clone, Copy, Debug, PartialEq, Eq, Structural)]
pub enum NpmRcParseError {
    /// A line starts with `[` and does not end with `]`.
    UnclosedSection { line: usize },
    /// A key or a value starts with a quote that does not close it.
    UnclosedQuote { line: usize },
}

pub open spec fn is_blank(c: char) -> bool {
    c == ' ' || c == '\t' || c == '\r'
}

/// The first index in `[a, b)` that holds no blank, or `b`.
pub open spec fn trim_start(s: Seq<char>, a: int, b: int) -> int
    decreases b - a,
{
    if a >= b {
        b
    } else if is_blank(s[a]) {
        trim_start(s, a + 1, b)
    } else {
        a
    }
}

/// One past the last index in `[a, b)` that holds no blank, or `a`.
pub open spec fn trim_end(s: Seq<char>, a: int, b: int) -> int
    decreases b - a,
{
    if b <= a {
        a
    } else if is_blank(s[b - 1]) {
        trim_end(s, a, b - 1)
    } else {
        b
    }
}

/// The first index in `[a, b)` that holds `c`, or `b`.
pub open spec fn char_from(s: Seq<char>, c: char, a: int, b: int) -> int
    decreases b - a,
{
    if a >= b {
        b
    } else if s[a] == c {
        a
    } else {
        char_from(s, c, a + 1, b)
    }
}

/// The value span of `[vs, ve)`, without its quotes where it is quoted.
pub open spec fn value_span(s: Seq<char>, vs: int, ve: int, line: int) -> Result<Span, NpmRcParseError> {
    if ve > vs && (s[vs] == '"' || s[vs] == '\'') {
        if ve - vs >= 2 && s[ve - 1] == s[vs] {
            Ok(Span { start: (vs + 1) as usize, end: (ve - 1) as usize })
        } else {
            Err(NpmRcParseError::UnclosedQuote { line: line as usize })
        }
    } else {
        Ok(Span { start: vs as usize, end: ve as usize })
    }
}

/// The record of the line `[a, b)` of `s`, numbered `line`: none for a blank
/// line or a comment.
pub open spec fn line_entry(s: Seq<char>, a: int, b: int, line: int) -> Result<
    Option<IniEntry>,
    NpmRcParseError,
> {
    let ts = trim_start(s, a, b);
    let te = trim_end(s, ts, b);
    if ts >= te || s[ts] == ';' || s[ts] == '#' {
        Ok(None)
    } else if s[ts] == '[' {
        if te - ts >= 2 && s[te - 1] == ']' {
            Ok(Some(IniEntry::Section { start: (ts + 1) as usize, end: (te - 1) as usize }))
        } else {
            Err(NpmRcParseError::UnclosedSection { line: line as usize })
        }
    } else {
        let eq = char_from(s, '=', ts, te);
        let ke = trim_end(s, ts, eq);
        let key = if s[ts] == '"' {
            if ke - ts >= 2 && s[ke - 1] == '"' {
                Ok(((ts + 1) as usize, (ke - 1) as usize, true))
            } else {
                Err(NpmRcParseError::UnclosedQuote { line: line as usize })
            }
        } else {
            Ok((ts as usize, ke as usize, false))
        };
        match key {
            Err(e) => Err(e),
            Ok((ks, kend, quoted)) => if eq >= te {
                Ok(Some(IniEntry::KeyValue { key_start: ks, key_end: kend, quoted_key: quoted, value: None }))
            } else {
                match value_span(s, trim_start(s, eq + 1, te), te, line) {
                    Err(e) => Err(e),
                    Ok(v) => Ok(
                        Some(IniEntry::KeyValue { key_start: ks, key_end: kend, quoted_key: quoted, value: Some(v) }),
                    ),
                }
            },
        }
    }
}

pub open spec fn opt_seq(o: Option<IniEntry>) -> Seq<IniEntry> {
    match o {
        Some(e) => seq![e],
        None => Seq::empty(),
    }
}

/// The number of the line after line `line`; it stays put at the largest
/// number that a `usize` holds.
pub open spec fn next_line(line: int) -> int {
    if line < usize::MAX {
        line + 1
    } else {
        line
    }
}

/// The records of the lines of `s` from index `a` on, the first of them
/// numbered `line`; the error of the first line that is not well formed.
pub open spec fn tokenize_from(s: Seq<char>, a: int, line: int) -> Result<Seq<IniEntry>, NpmRcParseError>
    decreases s.len() + 1 - a,
{
    if a < 0 || a > s.len() {
        Ok(Seq::empty())
    } else {
        let e = char_from(s, '\n', a, s.len() as int);
        match line_entry(s, a, e, line) {
            Err(err) => Err(err),
            Ok(o) => if e >= s.len() || e < a {
                Ok(opt_seq(o))
            } else {
                match tokenize_from(s, e + 1, next_line(line)) {
                    Err(err) => Err(err),
                    Ok(rest) => Ok(opt_seq(o) + rest),
                }
            },
        }
    }
}

/// The records of the text `s`, line by line.
pub open spec fn tokenize(s: Seq<char>) -> Result<Seq<IniEntry>, NpmRcParseError> {
    tokenize_from(s, 0, 1)
}

proof fn lemma_trim_start(s: Seq<char>, a: int, b: int)
    requires
        a <= b,
    ensures
        a <= trim_start(s, a, b) <= b,
    decreases b - a,
{
    if a < b && is_blank(s[a]) {
        lemma_trim_start(s, a + 1, b);
    }
}

proof fn lemma_trim_end(s: Seq<char>, a: int, b: int)
    requires
        a <= b,
    ensures
        a <= trim_end(s, a, b) <= b,
    decreases b - a,
{
    if a < b && is_blank(s[b - 1]) {
        lemma_trim_end(s, a, b - 1);
    }
}

proof fn lemma_char_from(s: Seq<char>, c: char, a: int, b: int)
    requires
        a <= b,
    ensures
        a <= char_from(s, c, a, b) <= b,
    decreases b - a,
{
    if a < b && s[a] != c {
        lemma_char_from(s, c, a + 1, b);
    }
}

/// A key that a `key=value` line carries as it stands.
pub open spec fn plain_key(k: Seq<char>) -> bool {
    &&& k.len() > 0
    &&& !is_blank(k[0]) && k[0] != '"' && k[0] != ';' && k[0] != '#' && k[0] != '['
    &&& !is_blank(k.last())
    &&& forall|i: int| 0 <= i < k.len() ==> #[trigger] k[i] != '=' && k[i] != '\n'
}

/// A value that a `key=value` line carries as it stands.
pub open spec fn plain_value(v: Seq<char>) -> bool {
    &&& v.len() > 0 ==> !is_blank(v[0]) && v[0] != '"' && v[0] != '\'' && !is_blank(v.last())
    &&& forall|i: int| 0 <= i < v.len() ==> #[trigger] v[i] != '\n'
}

/// Every directive of `ds` has a plain key and a plain value.
pub open spec fn all_plain(ds: Seq<(Seq<char>, Seq<char>)>) -> bool {
    forall|i: int| 0 <= i < ds.len() ==> plain_key(#[trigger] ds[i].0) && plain_value(ds[i].1)
}

/// The directives `ds` written one per line as `key=value`.
pub open spec fn write_lines(ds: Seq<(Seq<char>, Seq<char>)>) -> Seq<char>
    decreases ds.len(),
{
    if ds.len() == 0 {
        Seq::empty()
    } else {
        ds[0].0 + seq!['='] + ds[0].1 + seq!['\n'] + write_lines(ds.drop_first())
    }
}

/// The record that a line `k=v` starting at index `a` reads as.
pub open spec fn line_record(a: int, k: Seq<char>, v: Seq<char>) -> IniEntry {
    IniEntry::KeyValue {
        key_start: a as usize,
        key_end: (a + k.len()) as usize,
        quoted_key: false,
        value: Some(Span { start: (a + k.len() + 1) as usize, end: (a + k.len() + 1 + v.len()) as usize }),
    }
}

proof fn lemma_char_from_at(s: Seq<char>, c: char, a: int, j: int, b: int)
    requires
        0 <= a <= j <= b <= s.len(),
        j == b || s[j] == c,
        forall|i: int| a <= i < j ==> #[trigger] s[i] != c,
    ensures
        char_from(s, c, a, b) == j,
    decreases j - a,
{
    if a < j {
        lemma_char_from_at(s, c, a + 1, j, b);
    }
}

proof fn lemma_read_line(s: Seq<char>, a: int, k: Seq<char>, v: Seq<char>, line: int)
    requires
        0 <= a,
        a + k.len() + 1 + v.len() <= s.len(),
        s.subrange(a, a + k.len() + 1 + v.len()) == k + seq!['='] + v,
        plain_key(k),
        plain_value(v),
    ensures
        line_entry(s, a, a + k.len() + 1 + v.len(), line) == Ok::<Option<IniEntry>, NpmRcParseError>(
            Some(line_record(a, k, v)),
        ),
{
    let b = a + k.len() + 1 + v.len();
    let eq = a + k.len();
    let w = k + seq!['='] + v;
    assert forall|i: int| a <= i < b implies s[i] == #[trigger] w[i - a] by {
        assert(s.subrange(a, b)[i - a] == s[i]);
    }
    assert(s.subrange(a, b)[0] == s[a]);
    assert(w[0] == k[0]);
    assert(s.subrange(a, b)[k.len() as int] == s[eq]);
    assert(w[k.len() as int] == '=');
    assert(trim_start(s, a, b) == a);
    assert(s.subrange(a, b)[b - 1 - a] == s[b - 1]);
    if v.len() > 0 {
        assert(w[b - 1 - a] == v.last());
    }
    assert(s.subrange(a, b)[eq - 1 - a] == s[eq - 1]);
    assert(w[eq - 1 - a] == k.last());
    assert(trim_end(s, a, b) == b);
    assert forall|i: int| a <= i < eq implies #[trigger] s[i] != '=' by {
        assert(s.subrange(a, b)[i - a] == s[i]);
        assert(w[i - a] == k[i - a]);
    }
    lemma_char_from_at(s, '=', a, eq, b);
    assert(s[eq - 1] == k.last());
    assert(trim_end(s, a, eq) == eq);
    if v.len() > 0 {
        assert(s.subrange(a, b)[eq + 1 - a] == s[eq + 1]);
        assert(w[eq + 1 - a] == v[0]);
        assert(trim_start(s, eq + 1, b) == eq + 1);
    } else {
        assert(trim_start(s, eq + 1, b) == b);
    }
}

proof fn lemma_read_lines(s: Seq<char>, a: int, ds: Seq<(Seq<char>, Seq<char>)>, line: int)
    requires
        0 <= a <= s.len(),
        s.subrange(a, s.len() as int) == write_lines(ds),
        all_plain(ds),
        s.len() <= usize::MAX,
    ensures
        tokenize_from(s, a, line) == Ok::<Seq<IniEntry>, NpmRcParseError>(read_records(ds, a)),
    decreases ds.len(),
{
    if ds.len() == 0 {
        assert(a == s.len());
        assert(char_from(s, '\n', a, s.len() as int) == a);
        assert(read_records(ds, a) =~= Seq::<IniEntry>::empty());
    } else {
        let k = ds[0].0;
        let v = ds[0].1;
        let b = a + k.len() + 1 + v.len();
        let rest = write_lines(ds.drop_first());
        let w = k + seq!['='] + v;
        let total = s.subrange(a, s.len() as int);
        assert(total =~= w + seq!['\n'] + rest);
        assert(plain_key(ds[0].0) && plain_value(ds[0].1));
        assert(s.subrange(a, b) =~= w) by {
            assert forall|i: int| 0 <= i < b - a implies s.subrange(a, b)[i] == w[i] by {
                assert(total[i] == s[a + i]);
                assert(total[i] == w[i]);
            }
        }
        assert(s[b] == '\n') by {
            assert(total[b - a] == s[b]);
        }
        assert forall|i: int| a <= i < b implies #[trigger] s[i] != '\n' by {
            assert(s.subrange(a, b)[i - a] == s[i]);
            if i - a < k.len() {
                assert(w[i - a] == k[i - a]);
            } else if i - a > k.len() {
                assert(w[i - a] == v[i - a - k.len() - 1]);
            }
        }
        lemma_char_from_at(s, '\n', a, b, s.len() as int);
        lemma_read_line(s, a, k, v, line);
        assert(s.subrange(b + 1, s.len() as int) =~= rest) by {
            assert forall|i: int| 0 <= i < rest.len() implies s.subrange(b + 1, s.len() as int)[i] == rest[i] by {
                assert(total[b + 1 - a + i] == s[b + 1 + i]);
            }
        }
        assert(all_plain(ds.drop_first())) by {
            assert forall|i: int| 0 <= i < ds.drop_first().len() implies plain_key(#[trigger] ds.drop_first()[i].0)
                && plain_value(ds.drop_first()[i].1) by {
                assert(ds.drop_first()[i] == ds[i + 1]);
            }
        }
        lemma_read_lines(s, b + 1, ds.drop_first(), next_line(line));
        assert(opt_seq(Some(line_record(a, k, v))) + read_records(ds.drop_first(), b + 1) =~= read_records(ds, a));
    }
}

/// The records that the lines `write_lines(ds)`, starting at index `a`, read as.
pub open spec fn read_records(ds: Seq<(Seq<char>, Seq<char>)>, a: int) -> Seq<IniEntry>
    decreases ds.len(),
{
    if ds.len() == 0 {
        Seq::empty()
    } else {
        seq![line_record(a, ds[0].0, ds[0].1)] + read_records(
            ds.drop_first(),
            a + ds[0].0.len() + ds[0].1.len() + 2,
        )
    }
}

/// Directives written one per line as `key=value` read back as one record
/// each, in order, holding the same key and value texts, unquoted.
pub proof fn lemma_written_directives_read_back(ds: Seq<(Seq<char>, Seq<char>)>)
    requires
        all_plain(ds),
        write_lines(ds).len() <= usize::MAX,
    ensures
        tokenize(write_lines(ds)) matches Ok(entries) && entries.len() == ds.len() && forall|i: int|
            0 <= i < ds.len() ==> (#[trigger] entries[i] matches IniEntry::KeyValue {
                key_start,
                key_end,
                quoted_key,
                value: Some(sp),
            } && !quoted_key && write_lines(ds).subrange(key_start as int, key_end as int) == ds[i].0
                && write_lines(ds).subrange(sp.start as int, sp.end as int) == ds[i].1),
{
    let s = write_lines(ds);
    assert(s.subrange(0, s.len() as int) =~= s);
    lemma_records_hold(s, ds, 0);
    lemma_read_lines(s, 0, ds, 1);
    lemma_records_hold(s, ds, 0);
}

proof fn lemma_records_hold(s: Seq<char>, ds: Seq<(Seq<char>, Seq<char>)>, a: int)
    requires
        0 <= a <= s.len(),
        s.len() <= usize::MAX,
        s.subrange(a, s.len() as int) == write_lines(ds),
    ensures
        read_records(ds, a).len() == ds.len(),
        forall|i: int|
            0 <= i < ds.len() ==> (#[trigger] read_records(ds, a)[i] matches IniEntry::KeyValue {
                key_start,
                key_end,
                quoted_key,
                value: Some(sp),
            } && !quoted_key && s.subrange(key_start as int, key_end as int) == ds[i].0
                && s.subrange(sp.start as int, sp.end as int) == ds[i].1),
    decreases ds.len(),
{
    if ds.len() > 0 {
        let k = ds[0].0;
        let v = ds[0].1;
        let b = a + k.len() + 1 + v.len();
        let rest = write_lines(ds.drop_first());
        let total = s.subrange(a, s.len() as int);
        assert(total =~= k + seq!['='] + v + seq!['\n'] + rest);
        assert(s.subrange(a, a + k.len()) =~= k) by {
            assert forall|i: int| 0 <= i < k.len() implies s.subrange(a, a + k.len())[i] == k[i] by {
                assert(total[i] == s[a + i]);
            }
        }
        assert(s.subrange(a + k.len() + 1, b) =~= v) by {
            assert forall|i: int| 0 <= i < v.len() implies s.subrange(a + k.len() + 1, b)[i] == v[i] by {
                assert(total[k.len() + 1 + i] == s[a + k.len() + 1 + i]);
            }
        }
        assert(s.subrange(b + 1, s.len() as int) =~= rest) by {
            assert forall|i: int| 0 <= i < rest.len() implies s.subrange(b + 1, s.len() as int)[i] == rest[i] by {
                assert(total[b + 1 - a + i] == s[b + 1 + i]);
            }
        }
        lemma_records_hold(s, ds.drop_first(), b + 1);
        let r = read_records(ds, a);
        assert forall|i: int| 0 <= i < ds.len() implies (#[trigger] r[i] matches IniEntry::KeyValue {
            key_start,
            key_end,
            quoted_key,
            value: Some(sp),
        } && !quoted_key && s.subrange(key_start as int, key_end as int) == ds[i].0
            && s.subrange(sp.start as int, sp.end as int) == ds[i].1) by {
            if i > 0 {
                assert(r[i] == read_records(ds.drop_first(), b + 1)[i - 1]);
                assert(ds.drop_first()[i - 1] == ds[i]);
            }
        }
    }
}

fn skip_blanks(s: &Vec<char>, a: usize, b: usize) -> (r: usize)
    requires
        a <= b <= s@.len(),
    ensures
        r as int == trim_start(s@, a as int, b as int),
{
    proof {
        lemma_trim_start(s@, a as int, b as int);
    }
    let mut k: usize = a;
    while k < b && (s[k] == ' ' || s[k] == '\t' || s[k] == '\r')
        invariant
            a <= k <= b <= s@.len(),
            trim_start(s@, k as int, b as int) == trim_start(s@, a as int, b as int),
        decreases b - k,
    {
        k = k + 1;
    }
    k
}

fn drop_blanks(s: &Vec<char>, a: usize, b: usize) -> (r: usize)
    requires
        a <= b <= s@.len(),
    ensures
        r as int == trim_end(s@, a as int, b as int),
{
    proof {
        lemma_trim_end(s@, a as int, b as int);
    }
    let mut k: usize = b;
    while k > a && (s[k - 1] == ' ' || s[k - 1] == '\t' || s[k - 1] == '\r')
        invariant
            a <= k <= b <= s@.len(),
            trim_end(s@, a as int, k as int) == trim_end(s@, a as int, b as int),
        decreases k,
    {
        k = k - 1;
    }
    k
}

fn find_char(s: &Vec<char>, c: char, a: usize, b: usize) -> (r: usize)
    requires
        a <= b <= s@.len(),
    ensures
        r as int == char_from(s@, c, a as int, b as int),
{
    proof {
        lemma_char_from(s@, c, a as int, b as int);
    }
    let mut k: usize = a;
    while k < b && s[k] != c
        invariant
            a <= k <= b <= s@.len(),
            char_from(s@, c, k as int, b as int) == char_from(s@, c, a as int, b as int),
        decreases b - k,
    {
        k = k + 1;
    }
    k
}

fn parse_line(s: &Vec<char>, a: usize, b: usize, line: usize) -> (r: Result<
    Option<IniEntry>,
    NpmRcParseError,
>)
    requires
        a <= b <= s@.len(),
    ensures
        r == line_entry(s@, a as int, b as int, line as int),
{
    let ts = skip_blanks(s, a, b);
    proof {
        lemma_trim_start(s@, a as int, b as int);
        lemma_trim_end(s@, ts as int, b as int);
    }
    let te = drop_blanks(s, ts, b);
    if ts >= te || s[ts] == ';' || s[ts] == '#' {
        return Ok(None);
    }
    if s[ts] == '[' {
        if te - ts >= 2 && s[te - 1] == ']' {
            return Ok(Some(IniEntry::Section { start: ts + 1, end: te - 1 }));
        } else {
            return Err(NpmRcParseError::UnclosedSection { line });
        }
    }
    let eq = find_char(s, '=', ts, te);
    proof {
        lemma_char_from(s@, '=', ts as int, te as int);
        lemma_trim_end(s@, ts as int, eq as int);
    }
    let ke = drop_blanks(s, ts, eq);
    let (ks, kend, quoted) = if s[ts] == '"' {
        if ke - ts >= 2 && s[ke - 1] == '"' {
            (ts + 1, ke - 1, true)
        } else {
            return Err(NpmRcParseError::UnclosedQuote { line });
        }
    } else {
        (ts, ke, false)
    };
    if eq >= te {
        return Ok(Some(IniEntry::KeyValue { key_start: ks, key_end: kend, quoted_key: quoted, value: None }));
    }
    proof {
        lemma_trim_start(s@, eq + 1, te as int);
    }
    let vs = skip_blanks(s, eq + 1, te);
    let value = if te > vs && (s[vs] == '"' || s[vs] == '\'') {
        if te - vs >= 2 && s[te - 1] == s[vs] {
            Span { start: vs + 1, end: te - 1 }
        } else {
            return Err(NpmRcParseError::UnclosedQuote { line });
        }
    } else {
        Span { start: vs, end: te }
    };
    Ok(Some(IniEntry::KeyValue { key_start: ks, key_end: kend, quoted_key: quoted, value: Some(value) }))
}

/// Splits the characters `s` into lines and reads one record from each line
/// that is neither blank nor a comment.
pub fn parse_ini(s: &Vec<char>) -> (r: Result<Vec<IniEntry>, NpmRcParseError>)
    ensures
        match r {
            Ok(entries) => tokenize(s@) == Ok::<Seq<IniEntry>, NpmRcParseError>(entries@),
            Err(e) => tokenize(s@) == Err::<Seq<IniEntry>, NpmRcParseError>(e),
        },
{
    let n = s.len();
    let mut out: Vec<IniEntry> = Vec::new();
    let mut a: usize = 0;
    let mut line: usize = 1;
    loop
        invariant
            n == s@.len(),
            a <= n,
            1 <= line,
            tokenize(s@) == match tokenize_from(s@, a as int, line as int) {
                Ok(rest) => Ok(out@ + rest),
                Err(e) => Err::<Seq<IniEntry>, NpmRcParseError>(e),
            },
        decreases n - a,
    {
        proof {
            lemma_char_from(s@, '\n', a as int, n as int);
        }
        let e = find_char(s, '\n', a, n);
        let ghost out0 = out@;
        let ghost mut piece: Seq<IniEntry> = Seq::empty();
        match parse_line(s, a, e, line) {
            Err(err) => {
                return Err(err);
            },
            Ok(o) => {
                match o {
                    Some(entry) => {
                        out.push(entry);
                    },
                    None => {},
                }
                assert(out@ =~= out0 + opt_seq(o));
                proof {
                    piece = opt_seq(o);
                }
            },
        }
        if e >= n {
            assert(out@ =~= out@ + Seq::<IniEntry>::empty());
            return Ok(out);
        }
        proof {
            match tokenize_from(s@, e + 1, next_line(line as int)) {
                Ok(rest) => {
                    assert(out0 + (piece + rest) =~= out@ + rest);
                },
                Err(_) => {},
            }
        }
        a = e + 1;
        if line < usize::MAX {
            line = line + 1;
        }
    }
}

} // verus!
