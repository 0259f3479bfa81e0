use vstd::prelude::*;
use crate::text::contains_char;

verus! {

// ---------------------------------------------------------------------------
// The structured-text row format of the backing files: fields separated by
// commas, rows ended by a line feed; a field holding a comma, a quote or a
// line break is wrapped in quotes with every inner quote doubled, so that a
// row read back yields exactly the fields written.
// ---------------------------------------------------------------------------

/// A field that must be quoted to survive the trip.
pub open spec fn needs_quoting(f: Seq<char>) -> bool {
    f.contains(',') || f.contains('"') || f.contains('\n') || f.contains('\r')
}

/// Every quote doubled.
pub open spec fn dq(f: Seq<char>) -> Seq<char>
    decreases f.len(),
{
    if f.len() == 0 {
        Seq::empty()
    } else if f[0] == '"' {
        seq!['"', '"'] + dq(f.skip(1))
    } else {
        seq![f[0]] + dq(f.skip(1))
    }
}

/// One encoded field: quoted and escaped when needed, verbatim otherwise.
pub open spec fn enc_field(f: Seq<char>) -> Seq<char> {
    if needs_quoting(f) {
        seq!['"'] + dq(f) + seq!['"']
    } else {
        f
    }
}

/// One encoded row: the encoded fields joined by commas, ended by a line
/// feed. Only rows of at least one field are ever written.
pub open spec fn enc_row(fs: Seq<Seq<char>>) -> Seq<char>
    decreases fs.len(),
{
    if fs.len() <= 1 {
        enc_field(if fs.len() == 0 {
            Seq::empty()
        } else {
            fs[0]
        }) + seq!['\n']
    } else {
        enc_field(fs[0]) + seq![','] + enc_row(fs.skip(1))
    }
}

// ---------------------------------------------------------------------------
// Parsing, specified as recursive functions over the remaining input.
// ---------------------------------------------------------------------------

/// Inside a quoted field, after the opening quote: the field's content and
/// the input after the closing quote. Fails on an unterminated quote.
pub open spec fn parse_quoted(s: Seq<char>) -> Option<(Seq<char>, Seq<char>)>
    decreases s.len(),
{
    if s.len() == 0 {
        None
    } else if s[0] == '"' {
        if s.len() >= 2 && s[1] == '"' {
            match parse_quoted(s.skip(2)) {
                None => None,
                Some((f, rest)) => Some((seq!['"'] + f, rest)),
            }
        } else {
            Some((Seq::empty(), s.skip(1)))
        }
    } else {
        match parse_quoted(s.skip(1)) {
            None => None,
            Some((f, rest)) => Some((seq![s[0]] + f, rest)),
        }
    }
}

/// An unquoted field: everything up to the next comma or line feed.
pub open spec fn parse_raw(s: Seq<char>) -> (Seq<char>, Seq<char>)
    decreases s.len(),
{
    if s.len() == 0 {
        (Seq::empty(), Seq::empty())
    } else if s[0] == ',' || s[0] == '\n' {
        (Seq::empty(), s)
    } else {
        let (f, rest) = parse_raw(s.skip(1));
        (seq![s[0]] + f, rest)
    }
}

/// One field, quoted or not. The rest begins with the ending separator.
pub open spec fn parse_field(s: Seq<char>) -> Option<(Seq<char>, Seq<char>)> {
    if s.len() > 0 && s[0] == '"' {
        parse_quoted(s.skip(1))
    } else {
        Some(parse_raw(s))
    }
}

pub proof fn lemma_parse_quoted_len(s: Seq<char>)
    ensures
        parse_quoted(s) matches Some((f, rest)) ==> rest.len() < s.len(),
    decreases s.len(),
{
    if s.len() == 0 {
    } else if s[0] == '"' {
        if s.len() >= 2 && s[1] == '"' {
            lemma_parse_quoted_len(s.skip(2));
        }
    } else {
        lemma_parse_quoted_len(s.skip(1));
    }
}

pub proof fn lemma_parse_raw_len(s: Seq<char>)
    ensures
        parse_raw(s).1.len() <= s.len(),
        parse_raw(s).1.len() > 0 ==> (parse_raw(s).1[0] == ',' || parse_raw(s).1[0] == '\n'),
    decreases s.len(),
{
    if s.len() == 0 {
    } else if s[0] == ',' || s[0] == '\n' {
    } else {
        lemma_parse_raw_len(s.skip(1));
    }
}

pub proof fn lemma_parse_field_len(s: Seq<char>)
    ensures
        parse_field(s) matches Some((f, rest)) ==> rest.len() <= s.len(),
{
    if s.len() > 0 && s[0] == '"' {
        lemma_parse_quoted_len(s.skip(1));
    } else {
        lemma_parse_raw_len(s);
    }
}

/// One row: fields separated by commas, ended by a line feed, which is
/// consumed. Fails when a field is not followed by a separator.
pub open spec fn parse_row(s: Seq<char>) -> Option<(Seq<Seq<char>>, Seq<char>)>
    decreases s.len(),
        via parse_row_decreases
{
    match parse_field(s) {
        None => None,
        Some((f, rest)) => {
            if rest.len() == 0 {
                None
            } else if rest[0] == '\n' {
                Some((seq![f], rest.skip(1)))
            } else if rest[0] == ',' {
                match parse_row(rest.skip(1)) {
                    None => None,
                    Some((fs, rest2)) => Some((seq![f] + fs, rest2)),
                }
            } else {
                None
            }
        },
    }
}

#[via_fn]
proof fn parse_row_decreases(s: Seq<char>) {
    lemma_parse_field_len(s);
}

pub proof fn lemma_parse_row_len(s: Seq<char>)
    ensures
        parse_row(s) matches Some((fs, rest)) ==> rest.len() < s.len(),
    decreases s.len(),
{
    lemma_parse_field_len(s);
    match parse_field(s) {
        None => {},
        Some((f, rest)) => {
            if rest.len() > 0 && rest[0] == ',' {
                lemma_parse_row_len(rest.skip(1));
            }
        },
    }
}

/// A whole file: a sequence of rows covering all of the input.
pub open spec fn parse_rows(s: Seq<char>) -> Option<Seq<Seq<Seq<char>>>>
    decreases s.len(),
        via parse_rows_decreases
{
    if s.len() == 0 {
        Some(Seq::empty())
    } else {
        match parse_row(s) {
            None => None,
            Some((fs, rest)) => match parse_rows(rest) {
                None => None,
                Some(rows) => Some(seq![fs] + rows),
            },
        }
    }
}

#[via_fn]
proof fn parse_rows_decreases(s: Seq<char>) {
    lemma_parse_row_len(s);
}

// ---------------------------------------------------------------------------
// Reading back what was written gives back exactly what was written.
// ---------------------------------------------------------------------------

/// A quoted body followed by the closing quote parses back to the body.
pub proof fn lemma_parse_quoted_roundtrip(f: Seq<char>, rest: Seq<char>)
    requires
        rest.len() == 0 || rest[0] != '"',
    ensures
        parse_quoted(dq(f) + seq!['"'] + rest) == Some((f, rest)),
    decreases f.len(),
{
    let s = dq(f) + seq!['"'] + rest;
    if f.len() == 0 {
        assert(s[0] == '"');
        assert(s.len() >= 2 ==> s[1] == rest[0]);
        assert(s.skip(1) =~= rest);
    } else if f[0] == '"' {
        assert(s[0] == '"' && s[1] == '"');
        lemma_parse_quoted_roundtrip(f.skip(1), rest);
        assert(s.skip(2) =~= dq(f.skip(1)) + seq!['"'] + rest);
        assert(seq!['"'] + f.skip(1) =~= f);
    } else {
        assert(s[0] == f[0]);
        assert(s[0] != '"');
        lemma_parse_quoted_roundtrip(f.skip(1), rest);
        assert(s.skip(1) =~= dq(f.skip(1)) + seq!['"'] + rest);
        assert(seq![f[0]] + f.skip(1) =~= f);
    }
}

/// A separator-free body parses back verbatim up to the separator.
pub proof fn lemma_parse_raw_roundtrip(f: Seq<char>, rest: Seq<char>)
    requires
        !f.contains(',') && !f.contains('\n'),
        rest.len() == 0 || rest[0] == ',' || rest[0] == '\n',
    ensures
        parse_raw(f + rest) == (f, rest),
    decreases f.len(),
{
    let s = f + rest;
    if f.len() == 0 {
        assert(s =~= rest);
        if rest.len() == 0 {
            assert(parse_raw(rest) == (Seq::<char>::empty(), Seq::<char>::empty()));
            assert(f =~= Seq::<char>::empty());
        }
    } else {
        assert(s[0] == f[0]);
        assert(f.contains(f[0]));
        assert(s[0] != ',' && s[0] != '\n');
        assert forall|c: char| f.skip(1).contains(c) implies f.contains(c) by {
            let k = choose|k: int| 0 <= k < f.skip(1).len() && f.skip(1)[k] == c;
            assert(f[k + 1] == c);
        }
        lemma_parse_raw_roundtrip(f.skip(1), rest);
        assert(s.skip(1) =~= f.skip(1) + rest);
        assert(seq![f[0]] + f.skip(1) =~= f);
    }
}

/// An encoded field followed by a separator parses back verbatim.
pub proof fn lemma_parse_field_roundtrip(f: Seq<char>, rest: Seq<char>)
    requires
        rest.len() > 0,
        rest[0] == ',' || rest[0] == '\n',
    ensures
        parse_field(enc_field(f) + rest) == Some((f, rest)),
{
    let s = enc_field(f) + rest;
    if needs_quoting(f) {
        assert(s[0] == '"');
        lemma_parse_quoted_roundtrip(f, rest);
        assert(s.skip(1) =~= dq(f) + seq!['"'] + rest);
    } else {
        assert(s =~= f + rest);
        if f.len() > 0 {
            assert(f.contains(f[0]));
            assert(s[0] == f[0]);
            assert(s[0] != '"');
        } else {
            assert(s[0] == rest[0]);
        }
        lemma_parse_raw_roundtrip(f, rest);
    }
}

/// An encoded row followed by anything parses back to its fields, leaving
/// exactly that remainder.
pub proof fn lemma_parse_row_roundtrip(fs: Seq<Seq<char>>, rest: Seq<char>)
    requires
        fs.len() >= 1,
    ensures
        parse_row(enc_row(fs) + rest) == Some((fs, rest)),
    decreases fs.len(),
{
    let s = enc_row(fs) + rest;
    if fs.len() == 1 {
        assert(s =~= enc_field(fs[0]) + (seq!['\n'] + rest));
        lemma_parse_field_roundtrip(fs[0], seq!['\n'] + rest);
        assert((seq!['\n'] + rest).skip(1) =~= rest);
        assert(seq![fs[0]] =~= fs);
    } else {
        assert(s =~= enc_field(fs[0]) + (seq![','] + (enc_row(fs.skip(1)) + rest)));
        lemma_parse_field_roundtrip(fs[0], seq![','] + (enc_row(fs.skip(1)) + rest));
        lemma_parse_row_roundtrip(fs.skip(1), rest);
        assert((seq![','] + (enc_row(fs.skip(1)) + rest)).skip(1) =~= enc_row(fs.skip(1)) + rest);
        assert(seq![fs[0]] + fs.skip(1) =~= fs);
    }
}

// ---------------------------------------------------------------------------
// Parsing looks no further than the row it consumes, so rows already read are
// unaffected by rows appended later.
// ---------------------------------------------------------------------------

pub proof fn lemma_parse_quoted_extend(s: Seq<char>, t: Seq<char>)
    ensures
        match parse_quoted(s) {
            None => true,
            Some((f, rest)) => rest.len() > 0 ==> parse_quoted(s + t) == Some((f, rest + t)),
        },
    decreases s.len(),
{
    match parse_quoted(s) {
        None => {},
        Some((f, rest)) => if rest.len() > 0 {
            if s[0] == '"' {
                if s.len() >= 2 && s[1] == '"' {
                    lemma_parse_quoted_extend(s.skip(2), t);
                    assert((s + t).skip(2) =~= s.skip(2) + t);
                } else {
                    // closing quote; the rest is non-empty, so the character
                    // after it is unchanged by the extension
                    assert((s + t).len() >= 2 && (s + t)[1] == rest[0]);
                    if rest[0] == '"' {
                        // the original parse would have taken the escaped
                        // branch only if s[1] were a quote inside s
                        assert(s[1] == rest[0]);
                        assert(false);
                    }
                    assert((s + t).skip(1) =~= rest + t);
                }
            } else {
                lemma_parse_quoted_extend(s.skip(1), t);
                assert((s + t).skip(1) =~= s.skip(1) + t);
            }
        },
    }
}

pub proof fn lemma_parse_raw_extend(s: Seq<char>, t: Seq<char>)
    ensures
        parse_raw(s).1.len() > 0 ==> parse_raw(s + t) == (parse_raw(s).0, parse_raw(s).1 + t),
    decreases s.len(),
{
    if parse_raw(s).1.len() > 0 {
        if s[0] == ',' || s[0] == '\n' {
            assert(s + t =~= s + t);
            assert((s + t)[0] == s[0]);
        } else {
            lemma_parse_raw_extend(s.skip(1), t);
            assert((s + t).skip(1) =~= s.skip(1) + t);
        }
    }
}

pub proof fn lemma_parse_field_extend(s: Seq<char>, t: Seq<char>)
    ensures
        match parse_field(s) {
            None => true,
            Some((f, rest)) => rest.len() > 0 ==> parse_field(s + t) == Some((f, rest + t)),
        },
{
    match parse_field(s) {
        None => {},
        Some((f, rest)) => if rest.len() > 0 {
            if s.len() > 0 && s[0] == '"' {
                lemma_parse_quoted_extend(s.skip(1), t);
                assert((s + t).skip(1) =~= s.skip(1) + t);
                assert((s + t)[0] == '"');
            } else {
                lemma_parse_raw_extend(s, t);
                if s.len() == 0 {
                    assert(rest.len() == 0);
                } else {
                    assert((s + t)[0] == s[0]);
                }
            }
        },
    }
}

pub proof fn lemma_parse_row_extend(s: Seq<char>, t: Seq<char>)
    ensures
        parse_row(s) matches Some((fs, rest)) ==> parse_row(s + t) == Some((fs, rest + t)),
    decreases s.len(),
{
    lemma_parse_field_len(s);
    if parse_row(s) is Some {
        match parse_field(s) {
            None => {},
            Some((f, rest)) => {
                lemma_parse_field_extend(s, t);
                if rest.len() > 0 && rest[0] == '\n' {
                    assert((rest + t).skip(1) =~= rest.skip(1) + t);
                } else if rest.len() > 0 && rest[0] == ',' {
                    lemma_parse_row_extend(rest.skip(1), t);
                    assert((rest + t).skip(1) =~= rest.skip(1) + t);
                }
            },
        }
    }
}

/// A well-formed file with one more row appended parses to one more row.
pub proof fn lemma_parse_rows_append(s: Seq<char>, fs: Seq<Seq<char>>)
    requires
        parse_rows(s) is Some,
        fs.len() >= 1,
    ensures
        parse_rows(s + enc_row(fs)) == Some(parse_rows(s)->Some_0.push(fs)),
    decreases s.len(),
{
    lemma_parse_row_len(s);
    let rows = parse_rows(s)->Some_0;
    if s.len() == 0 {
        assert(s + enc_row(fs) =~= enc_row(fs));
        lemma_parse_row_roundtrip(fs, Seq::empty());
        assert(enc_row(fs) =~= enc_row(fs) + Seq::<char>::empty());
        assert(parse_row(enc_row(fs)) == Some((fs, Seq::<char>::empty())));
        assert(parse_rows(Seq::<char>::empty()) == Some(Seq::<Seq<Seq<char>>>::empty()));
        assert(parse_rows(s + enc_row(fs)) == Some(seq![fs] + Seq::<Seq<Seq<char>>>::empty()));
        assert(seq![fs] + Seq::<Seq<Seq<char>>>::empty() =~= rows.push(fs));
    } else {
        let fs0 = parse_row(s)->Some_0.0;
        let rest = parse_row(s)->Some_0.1;
        assert(parse_row(s) == Some((fs0, rest)));
        assert(parse_rows(rest) is Some);
        assert(rows == seq![fs0] + parse_rows(rest)->Some_0);
        lemma_parse_row_extend(s, enc_row(fs));
        assert(parse_row(s + enc_row(fs)) == Some((fs0, rest + enc_row(fs))));
        lemma_parse_rows_append(rest, fs);
        assert((s + enc_row(fs)).len() > 0);
        assert(parse_rows(s + enc_row(fs)) == Some(
            seq![fs0] + parse_rows(rest)->Some_0.push(fs),
        ));
        assert(seq![fs0] + parse_rows(rest)->Some_0.push(fs) =~= rows.push(fs));
    }
}

// ---------------------------------------------------------------------------
// Executable encoding.
// ---------------------------------------------------------------------------

pub proof fn lemma_dq_push(f: Seq<char>, c: char)
    ensures
        dq(f.push(c)) == dq(f) + (if c == '"' {
            seq!['"', '"']
        } else {
            seq![c]
        }),
    decreases f.len(),
{
    let tail: Seq<char> = if c == '"' {
        seq!['"', '"']
    } else {
        seq![c]
    };
    if f.len() == 0 {
        assert(f.push(c)[0] == c);
        assert(f =~= Seq::<char>::empty());
        assert(dq(f) == Seq::<char>::empty());
        assert(f.push(c).skip(1) =~= Seq::<char>::empty());
        assert(dq(f.push(c).skip(1)) == Seq::<char>::empty());
        assert(dq(f.push(c)) =~= dq(f) + tail);
    } else {
        assert(f.push(c)[0] == f[0]);
        assert(f.push(c).skip(1) =~= f.skip(1).push(c));
        lemma_dq_push(f.skip(1), c);
        assert(dq(f.push(c)) =~= dq(f) + tail);
    }
}

/// Encodes one field: quoted and escaped when needed, verbatim otherwise.
pub fn encode_field(f: &str) -> (r: String)
    ensures
        r@ == enc_field(f@),
{
    let quote = contains_char(f, ',') || contains_char(f, '"') || contains_char(f, '\n')
        || contains_char(f, '\r');
    if !quote {
        return String::from_str(f);
    }
    let n = f.unicode_len();
    let mut out = String::new();
    out.push('"');
    let mut i: usize = 0;
    while i < n
        invariant
            i <= n,
            n == f@.len(),
            out@ == seq!['"'] + dq(f@.take(i as int)),
        decreases n - i,
    {
        let c = f.get_char(i);
        if c == '"' {
            out.push('"');
            out.push('"');
        } else {
            out.push(c);
        }
        proof {
            lemma_dq_push(f@.take(i as int), f@[i as int]);
            assert(f@.take(i + 1) =~= f@.take(i as int).push(f@[i as int]));
            assert(out@ =~= seq!['"'] + dq(f@.take(i + 1)));
        }
        i += 1;
    }
    out.push('"');
    proof {
        assert(f@.take(n as int) =~= f@);
        assert(out@ =~= seq!['"'] + dq(f@) + seq!['"']);
    }
    out
}

/// The character images of a list of strings.
pub open spec fn strviews(s: Seq<String>) -> Seq<Seq<char>> {
    s.map_values(|x: String| x@)
}

/// The character images of a list of rows.
pub open spec fn rowviews(rs: Seq<Vec<String>>) -> Seq<Seq<Seq<char>>> {
    rs.map_values(|v: Vec<String>| strviews(v@))
}

fn encode_row_from(fields: &Vec<String>, i: usize) -> (r: String)
    requires
        i < fields@.len(),
    ensures
        r@ == enc_row(strviews(fields@).skip(i as int)),
    decreases fields@.len() - i,
{
    let ghost fs = strviews(fields@).skip(i as int);
    let n = fields.len();
    let mut out = encode_field(fields[i].as_str());
    proof {
        assert(fs[0] == fields@[i as int]@);
    }
    if i + 1 == n {
        out.push('\n');
        proof {
            assert(fs.len() == 1);
            assert(out@ =~= enc_field(fs[0]) + seq!['\n']);
        }
    } else {
        out.push(',');
        let tail = encode_row_from(fields, i + 1);
        out.append(tail.as_str());
        proof {
            assert(strviews(fields@).skip(i + 1) =~= fs.skip(1));
            assert(out@ =~= enc_field(fs[0]) + seq![','] + enc_row(fs.skip(1)));
        }
    }
    out
}

/// Encodes one row of fields, ended by a line feed.
pub fn encode_row(fields: &Vec<String>) -> (r: String)
    requires
        fields@.len() >= 1,
    ensures
        r@ == enc_row(strviews(fields@)),
{
    let r = encode_row_from(fields, 0);
    proof {
        assert(strviews(fields@).skip(0) =~= strviews(fields@));
    }
    r
}

// ---------------------------------------------------------------------------
// Executable parsing, one recursion per grammar rule.
// ---------------------------------------------------------------------------

fn parse_quoted_at(s: &str, pos: usize) -> (r: Option<(String, usize)>)
    requires
        pos <= s@.len(),
    ensures
        match r {
            None => parse_quoted(s@.skip(pos as int)) is None,
            Some((f, np)) => pos < np <= s@.len() && parse_quoted(s@.skip(pos as int)) == Some(
                (f@, s@.skip(np as int)),
            ),
        },
    decreases s@.len() - pos,
{
    let ghost rem = s@.skip(pos as int);
    let n = s.unicode_len();
    if pos == n {
        return None;
    }
    let c = s.get_char(pos);
    proof {
        assert(rem[0] == s@[pos as int]);
    }
    if c == '"' {
        if pos + 1 < n && s.get_char(pos + 1) == '"' {
            proof {
                assert(rem.len() >= 2 && rem[1] == s@[pos + 1]);
                assert(rem.skip(2) =~= s@.skip(pos + 2));
            }
            match parse_quoted_at(s, pos + 2) {
                None => None,
                Some((f, np)) => {
                    let mut g = String::new();
                    g.push('"');
                    g.append(f.as_str());
                    proof {
                        assert(g@ =~= seq!['"'] + f@);
                    }
                    Some((g, np))
                },
            }
        } else {
            proof {
                assert(rem.len() >= 2 ==> rem[1] == s@[pos + 1]);
                assert(rem.skip(1) =~= s@.skip(pos + 1));
            }
            Some((String::new(), pos + 1))
        }
    } else {
        proof {
            assert(rem.skip(1) =~= s@.skip(pos + 1));
        }
        match parse_quoted_at(s, pos + 1) {
            None => None,
            Some((f, np)) => {
                let mut g = String::new();
                g.push(c);
                g.append(f.as_str());
                proof {
                    assert(g@ =~= seq![rem[0]] + f@);
                }
                Some((g, np))
            },
        }
    }
}

fn parse_raw_at(s: &str, pos: usize) -> (r: (String, usize))
    requires
        pos <= s@.len(),
    ensures
        pos <= r.1 <= s@.len(),
        parse_raw(s@.skip(pos as int)) == (r.0@, s@.skip(r.1 as int)),
    decreases s@.len() - pos,
{
    let ghost rem = s@.skip(pos as int);
    let n = s.unicode_len();
    if pos == n {
        proof {
            assert(rem =~= Seq::<char>::empty());
            assert(s@.skip(pos as int) =~= s@.skip(n as int));
        }
        return (String::new(), pos);
    }
    let c = s.get_char(pos);
    proof {
        assert(rem[0] == s@[pos as int]);
    }
    if c == ',' || c == '\n' {
        (String::new(), pos)
    } else {
        proof {
            assert(rem.skip(1) =~= s@.skip(pos + 1));
        }
        let (f, np) = parse_raw_at(s, pos + 1);
        let mut g = String::new();
        g.push(c);
        g.append(f.as_str());
        proof {
            assert(g@ =~= seq![rem[0]] + f@);
        }
        (g, np)
    }
}

fn parse_field_at(s: &str, pos: usize) -> (r: Option<(String, usize)>)
    requires
        pos <= s@.len(),
    ensures
        match r {
            None => parse_field(s@.skip(pos as int)) is None,
            Some((f, np)) => pos <= np <= s@.len() && parse_field(s@.skip(pos as int)) == Some(
                (f@, s@.skip(np as int)),
            ),
        },
{
    let ghost rem = s@.skip(pos as int);
    let n = s.unicode_len();
    if pos < n && s.get_char(pos) == '"' {
        proof {
            assert(rem[0] == s@[pos as int]);
            assert(rem.skip(1) =~= s@.skip(pos + 1));
        }
        parse_quoted_at(s, pos + 1)
    } else {
        proof {
            if pos < n {
                assert(rem[0] == s@[pos as int]);
            }
        }
        Some(parse_raw_at(s, pos))
    }
}

fn parse_row_at(s: &str, pos: usize) -> (r: Option<(Vec<String>, usize)>)
    requires
        pos <= s@.len(),
    ensures
        match r {
            None => parse_row(s@.skip(pos as int)) is None,
            Some((fs, np)) => pos < np <= s@.len() && parse_row(s@.skip(pos as int)) == Some(
                (strviews(fs@), s@.skip(np as int)),
            ),
        },
    decreases s@.len() - pos,
{
    let ghost rem = s@.skip(pos as int);
    match parse_field_at(s, pos) {
        None => None,
        Some((f, np)) => {
            let n = s.unicode_len();
            if np == n {
                proof {
                    assert(s@.skip(np as int) =~= Seq::<char>::empty());
                }
                return None;
            }
            let c = s.get_char(np);
            proof {
                assert(s@.skip(np as int)[0] == s@[np as int]);
            }
            if c == '\n' {
                let mut v: Vec<String> = Vec::new();
                v.push(f);
                proof {
                    assert(strviews(v@) =~= seq![v@[0]@]);
                    assert(s@.skip(np as int).skip(1) =~= s@.skip(np + 1));
                }
                Some((v, np + 1))
            } else if c == ',' {
                proof {
                    assert(s@.skip(np as int).skip(1) =~= s@.skip(np + 1));
                }
                match parse_row_at(s, np + 1) {
                    None => None,
                    Some((mut fs, np2)) => {
                        let ghost tail_views = strviews(fs@);
                        let ghost f0 = f@;
                        fs.insert(0, f);
                        proof {
                            assert(strviews(fs@) =~= seq![f0] + tail_views);
                        }
                        Some((fs, np2))
                    },
                }
            } else {
                None
            }
        },
    }
}

/// Parses a whole file into its rows of fields; fails on a malformed row.
pub fn parse_content(s: &str) -> (r: Option<Vec<Vec<String>>>)
    ensures
        match r {
            None => parse_rows(s@) is None,
            Some(rows) => parse_rows(s@) == Some(rowviews(rows@)),
        },
{
    let r = parse_rows_at(s, 0);
    proof {
        assert(s@.skip(0) =~= s@);
    }
    r
}

fn parse_rows_at(s: &str, pos: usize) -> (r: Option<Vec<Vec<String>>>)
    requires
        pos <= s@.len(),
    ensures
        match r {
            None => parse_rows(s@.skip(pos as int)) is None,
            Some(rows) => parse_rows(s@.skip(pos as int)) == Some(rowviews(rows@)),
        },
    decreases s@.len() - pos,
{
    let ghost rem = s@.skip(pos as int);
    let n = s.unicode_len();
    if pos == n {
        let out: Vec<Vec<String>> = Vec::new();
        proof {
            assert(rem =~= Seq::<char>::empty());
            assert(rowviews(out@) =~= Seq::<Seq<Seq<char>>>::empty());
        }
        return Some(out);
    }
    match parse_row_at(s, pos) {
        None => None,
        Some((fs, np)) => {
            match parse_rows_at(s, np) {
                None => None,
                Some(mut rows) => {
                    rows.insert(0, fs);
                    proof {
                        assert(rowviews(rows@) =~= seq![strviews(rows@[0]@)] + rowviews(
                            rows@.skip(1),
                        ));
                        assert(rows@.skip(1) =~= rows@.subrange(1, rows@.len() as int));
                    }
                    Some(rows)
                },
            }
        },
    }
}

// ---------------------------------------------------------------------------
// Decimal numbers: how a checkpoint's window is written and read back.
// ---------------------------------------------------------------------------

/// A decimal digit.
pub open spec fn is_digit(c: char) -> bool {
    '0' <= c && c <= '9'
}

pub open spec fn digit_char(n: int) -> char {
    ((48 + n) as u8) as char
}

pub open spec fn digit_val(c: char) -> int {
    c as int - 48
}

/// The decimal spelling of a non-negative number, no leading zeros.
pub open spec fn dec_str(n: int) -> Seq<char>
    decreases n,
{
    if n < 10 {
        seq![digit_char(if n < 0 {
            0
        } else {
            n
        })]
    } else {
        dec_str(n / 10).push(digit_char(n % 10))
    }
}

/// The number a digit string denotes.
pub open spec fn dec_val(s: Seq<char>) -> int
    decreases s.len(),
{
    if s.len() == 0 {
        0
    } else {
        dec_val(s.drop_last()) * 10 + digit_val(s.last())
    }
}

pub open spec fn all_digits(s: Seq<char>) -> bool {
    forall|i: int| 0 <= i < s.len() ==> is_digit(#[trigger] s[i])
}

/// A written number reads back to itself.
pub proof fn lemma_dec_roundtrip(n: int)
    requires
        n >= 0,
    ensures
        dec_val(dec_str(n)) == n,
        all_digits(dec_str(n)),
        dec_str(n).len() >= 1,
    decreases n,
{
    if n < 10 {
        let s = dec_str(n);
        assert(s.drop_last() =~= Seq::<char>::empty());
        assert(s.last() == digit_char(n));
        assert(digit_val(digit_char(n)) == n);
        assert(dec_val(s) == dec_val(s.drop_last()) * 10 + digit_val(s.last()));
        assert(dec_val(s.drop_last()) == 0);
        assert(dec_val(s) == n);
        assert(is_digit(digit_char(n)));
    } else {
        lemma_dec_roundtrip(n / 10);
        let s = dec_str(n);
        assert(s.drop_last() =~= dec_str(n / 10));
        assert(s.last() == digit_char(n % 10));
        assert(digit_val(digit_char(n % 10)) == n % 10);
        assert(is_digit(digit_char(n % 10)));
        assert(dec_val(s) == dec_val(s.drop_last()) * 10 + digit_val(s.last()));
        assert(dec_val(s) == (n / 10) * 10 + n % 10);
        vstd::arithmetic::div_mod::lemma_fundamental_div_mod(n, 10);
        assert(n == 10 * (n / 10) + n % 10);
        assert(dec_val(s) == n);
    }
}

pub proof fn lemma_dec_val_nonneg(s: Seq<char>)
    requires
        all_digits(s),
    ensures
        dec_val(s) >= 0,
    decreases s.len(),
{
    if s.len() > 0 {
        assert(all_digits(s.drop_last())) by {
            assert(forall|i: int| 0 <= i < s.len() - 1 ==> s.drop_last()[i] == s[i]);
        }
        lemma_dec_val_nonneg(s.drop_last());
    }
}

/// Once a digit prefix already exceeds a bound, the whole string does.
pub proof fn lemma_dec_val_prefix_grows(s: Seq<char>, k: int)
    requires
        all_digits(s),
        0 <= k <= s.len(),
    ensures
        dec_val(s) >= dec_val(s.take(k)),
    decreases s.len() - k,
{
    if k < s.len() {
        assert(all_digits(s.take(k + 1))) by {
            assert(forall|i: int| 0 <= i < k + 1 ==> s.take(k + 1)[i] == s[i]);
        }
        assert(all_digits(s.take(k))) by {
            assert(forall|i: int| 0 <= i < k ==> s.take(k)[i] == s[i]);
        }
        lemma_dec_val_nonneg(s.take(k));
        assert(s.take(k + 1).drop_last() =~= s.take(k));
        assert(dec_val(s.take(k + 1)) == dec_val(s.take(k)) * 10 + digit_val(s[k]));
        assert(digit_val(s[k]) >= 0);
        assert(dec_val(s.take(k)) * 10 >= dec_val(s.take(k))) by (nonlinear_arith)
            requires
                dec_val(s.take(k)) >= 0,
        ;
        lemma_dec_val_prefix_grows(s, k + 1);
    } else {
        assert(s.take(k) =~= s);
    }
}

/// Writes a number in decimal.
pub fn format_usize(n: usize) -> (r: String)
    ensures
        r@ == dec_str(n as int),
    decreases n,
{
    let d = (n % 10) as u8;
    let c = (48 + d) as char;
    if n < 10 {
        let mut out = String::new();
        out.push(c);
        proof {
            assert(out@ =~= seq![digit_char(n as int)]);
        }
        out
    } else {
        let mut out = format_usize(n / 10);
        out.push(c);
        out
    }
}

/// Reads a decimal number; fails on an empty string, a non-digit, or a value
/// over the machine bound.
pub fn parse_usize(s: &str) -> (r: Option<usize>)
    ensures
        match r {
            Some(v) => all_digits(s@) && s@.len() > 0 && dec_val(s@) == v,
            None => !(all_digits(s@) && 0 < s@.len() && dec_val(s@) <= usize::MAX),
        },
{
    let n = s.unicode_len();
    if n == 0 {
        return None;
    }
    let mut acc: usize = 0;
    let mut i: usize = 0;
    while i < n
        invariant
            i <= n,
            n == s@.len(),
            0 < n,
            all_digits(s@.take(i as int)),
            acc == dec_val(s@.take(i as int)),
        decreases n - i,
    {
        let c = s.get_char(i);
        if !(c >= '0' && c <= '9') {
            return None;
        }
        let d = ((c as u32) - 48) as usize;
        proof {
            assert(d == digit_val(s@[i as int]));
            assert(d <= 9);
        }
        if acc > (usize::MAX - d) / 10 {
            proof {
                assert(acc * 10 + d > usize::MAX) by (nonlinear_arith)
                    requires
                        acc > (usize::MAX - d) / 10,
                        d <= 9,
                ;
                assert(all_digits(s@.take(i + 1))) by {
                    assert(forall|j: int|
                        0 <= j < i + 1 ==> s@.take(i + 1)[j] == s@.take(i as int).push(
                            s@[i as int],
                        )[j]);
                    assert(s@.take(i + 1) =~= s@.take(i as int).push(s@[i as int]));
                }
                assert(s@.take(i + 1).drop_last() =~= s@.take(i as int));
                assert(dec_val(s@.take(i + 1)) == acc * 10 + d);
                if all_digits(s@) {
                    lemma_dec_val_prefix_grows(s@, i + 1);
                    assert(s@.take(n as int) =~= s@);
                    assert(dec_val(s@) > usize::MAX);
                }
            }
            return None;
        }
        proof {
            assert(acc * 10 + d <= usize::MAX) by (nonlinear_arith)
                requires
                    acc <= (usize::MAX - d) / 10,
                    d <= 9,
                    acc >= 0,
            ;
            assert(s@.take(i + 1) =~= s@.take(i as int).push(s@[i as int]));
            assert(s@.take(i + 1).drop_last() =~= s@.take(i as int));
        }
        acc = acc * 10 + d;
        i += 1;
    }
    proof {
        assert(s@.take(n as int) =~= s@);
    }
    Some(acc)
}

} // verus!
