use vstd::prelude::*;
use crate::store::names_of;
use vstd::string::StrSliceExecFns;

verus! {

// ---------------------------------------------------------------------
// Persisted payloads are JSON. The two record shapes the store persists
// are written by the renderers below in one canonical form (no optional
// whitespace, lowercase hex escapes). Every parser is proved to read
// that canonical form back to exactly the record that was rendered;
// text a parser does not recognize is reported as malformed and the
// caller applies its fallback policy.
// ---------------------------------------------------------------------
/// The lowercase hex digit of a value below 16.
pub open spec fn hex_digit(n: int) -> char {
    if n == 0 {
        '0'
    } else if n == 1 {
        '1'
    } else if n == 2 {
        '2'
    } else if n == 3 {
        '3'
    } else if n == 4 {
        '4'
    } else if n == 5 {
        '5'
    } else if n == 6 {
        '6'
    } else if n == 7 {
        '7'
    } else if n == 8 {
        '8'
    } else if n == 9 {
        '9'
    } else if n == 10 {
        'a'
    } else if n == 11 {
        'b'
    } else if n == 12 {
        'c'
    } else if n == 13 {
        'd'
    } else if n == 14 {
        'e'
    } else {
        'f'
    }
}

/// The value of a lowercase hex digit; 16 for any other character.
pub open spec fn hex_val(c: char) -> int {
    if c == '0' {
        0
    } else if c == '1' {
        1
    } else if c == '2' {
        2
    } else if c == '3' {
        3
    } else if c == '4' {
        4
    } else if c == '5' {
        5
    } else if c == '6' {
        6
    } else if c == '7' {
        7
    } else if c == '8' {
        8
    } else if c == '9' {
        9
    } else if c == 'a' {
        10
    } else if c == 'b' {
        11
    } else if c == 'c' {
        12
    } else if c == 'd' {
        13
    } else if c == 'e' {
        14
    } else if c == 'f' {
        15
    } else {
        16
    }
}

pub open spec fn is_hex(c: char) -> bool {
    hex_val(c) < 16
}

/// How one character appears inside a JSON string literal: quotes and
/// backslashes escaped, control characters as `\u00xx`, all else as is.
pub open spec fn esc_char(c: char) -> Seq<char> {
    if c == '"' {
        seq!['\\', '"']
    } else if c == '\\' {
        seq!['\\', '\\']
    } else if (c as u32) < 32 {
        seq![
            '\\',
            'u',
            '0',
            '0',
            hex_digit((c as u32) as int / 16),
            hex_digit((c as u32) as int % 16),
        ]
    } else {
        seq![c]
    }
}

pub open spec fn esc_str(s: Seq<char>) -> Seq<char>
    decreases s.len(),
{
    if s.len() == 0 {
        Seq::empty()
    } else {
        esc_char(s[0]) + esc_str(s.drop_first())
    }
}

/// The JSON form of a string: quoted and escaped.
pub open spec fn ser_str(s: Seq<char>) -> Seq<char> {
    seq!['"'] + esc_str(s) + seq!['"']
}

/// A control character below 32 survives the round trip through its
/// code point.
proof fn lemma_ctrl_char_cast(c: char)
    requires
        (c as u32) < 32,
    ensures
        (((c as u32) as u8) as char) == c,
{
}

proof fn lemma_esc_str_snoc(s: Seq<char>, c: char)
    ensures
        esc_str(s.push(c)) == esc_str(s) + esc_char(c),
    decreases s.len(),
{
    if s.len() == 0 {
        assert(s.push(c).drop_first() =~= Seq::<char>::empty());
        assert(s.push(c)[0] == c);
        assert(esc_str(Seq::<char>::empty()) == Seq::<char>::empty());
        assert(esc_str(s.push(c)) == esc_char(c) + esc_str(s.push(c).drop_first()));
        assert(esc_str(s.push(c)) =~= esc_str(s) + esc_char(c));
    } else {
        assert(s.push(c).drop_first() =~= s.drop_first().push(c));
        lemma_esc_str_snoc(s.drop_first(), c);
        assert(s.push(c)[0] == s[0]);
        assert(esc_str(s.push(c)) == esc_char(s[0]) + esc_str(s.push(c).drop_first()));
        assert(esc_str(s) == esc_char(s[0]) + esc_str(s.drop_first()));
        assert(esc_str(s.push(c)) =~= esc_str(s) + esc_char(c));
    }
}

/// Parse the inside of a JSON string literal from position `i` up to and
/// including the closing quote: the decoded string and the position just
/// past the quote. Accepts the canonical escapes the renderer writes.
pub open spec fn parse_string_body(v: Seq<char>, i: int) -> Option<(Seq<char>, int)>
    decreases v.len() - i,
{
    if i < 0 || i >= v.len() {
        None
    } else if v[i] == '"' {
        Some((Seq::empty(), i + 1))
    } else if v[i] == '\\' {
        if i + 2 <= v.len() && (v[i + 1] == '"' || v[i + 1] == '\\') {
            match parse_string_body(v, i + 2) {
                None => None,
                Some((s, j)) => Some((seq![v[i + 1]] + s, j)),
            }
        } else if i + 6 <= v.len() && v[i + 1] == 'u' && v[i + 2] == '0' && v[i + 3] == '0'
            && is_hex(v[i + 4]) && is_hex(v[i + 5]) && hex_val(v[i + 4]) * 16 + hex_val(v[i + 5])
            < 32 {
            match parse_string_body(v, i + 6) {
                None => None,
                Some(
                    (s, j),
                ) => Some((seq![(((hex_val(v[i + 4]) * 16 + hex_val(v[i + 5])) as u8) as char)] + s, j)),
            }
        } else {
            None
        }
    } else if (v[i] as u32) < 32 {
        None
    } else {
        match parse_string_body(v, i + 1) {
            None => None,
            Some((s, j)) => Some((seq![v[i]] + s, j)),
        }
    }
}

/// A successful string parse consumes at least the closing quote and
/// stays within the input.
pub proof fn lemma_parse_string_body_advances(v: Seq<char>, i: int)
    requires
        parse_string_body(v, i) is Some,
    ensures
        i < (parse_string_body(v, i)->0).1 <= v.len(),
    decreases v.len() - i,
{
    if v[i] == '"' {
    } else if v[i] == '\\' {
        if i + 2 <= v.len() && (v[i + 1] == '"' || v[i + 1] == '\\') {
            lemma_parse_string_body_advances(v, i + 2);
        } else {
            lemma_parse_string_body_advances(v, i + 6);
        }
    } else {
        lemma_parse_string_body_advances(v, i + 1);
    }
}

/// The string parser inverts the escaper: wherever the input holds the
/// escaped form of `s` followed by a closing quote, the parse yields `s`
/// and stops just past that quote.
pub proof fn lemma_parse_esc(v: Seq<char>, i: int, s: Seq<char>)
    requires
        0 <= i,
        i + esc_str(s).len() + 1 <= v.len(),
        v.subrange(i, i + esc_str(s).len() + 1) == esc_str(s) + seq!['"'],
    ensures
        parse_string_body(v, i) == Some((s, i + esc_str(s).len() + 1)),
    decreases s.len(),
{
    let w = v.subrange(i, i + esc_str(s).len() + 1);
    if s.len() == 0 {
        assert(w[0] == '"');
        assert(v[i] == '"');
    } else {
        let c = s[0];
        let rest = s.drop_first();
        assert(esc_str(s) == esc_char(c) + esc_str(rest));
        let k = esc_char(c).len() as int;
        assert forall|m: int| 0 <= m < k implies v[i + m] == esc_char(c)[m] by {
            assert(w[m] == (esc_str(s) + seq!['"'])[m]);
        }
        assert(v.subrange(i + k, i + esc_str(s).len() + 1) =~= esc_str(rest) + seq!['"']) by {
            assert forall|m: int| 0 <= m < esc_str(rest).len() + 1 implies v.subrange(
                i + k,
                i + esc_str(s).len() + 1,
            )[m] == (esc_str(rest) + seq!['"'])[m] by {
                assert(v[i + k + m] == w[k + m]);
                assert(w[k + m] == (esc_str(s) + seq!['"'])[k + m]);
            }
        }
        lemma_parse_esc(v, i + k, rest);
        assert(v[i] == esc_char(c)[0]) by {
            assert(v[i + 0] == esc_char(c)[0]);
        }
        if c == '"' {
            assert(v[i] == '\\' && v[i + 1] == '"');
            assert(parse_string_body(v, i) == Some((seq![c] + rest, i + esc_str(s).len() + 1)));
        } else if c == '\\' {
            assert(v[i] == '\\' && v[i + 1] == '\\');
        } else if (c as u32) < 32 {
            let hi = hex_digit((c as u32) as int / 16);
            let lo = hex_digit((c as u32) as int % 16);
            assert(v[i] == '\\' && v[i + 1] == 'u' && v[i + 2] == '0' && v[i + 3] == '0');
            assert(v[i + 4] == hi && v[i + 5] == lo);
            assert(is_hex(hi) && is_hex(lo));
            assert(hex_val(hi) == (c as u32) as int / 16 && hex_val(lo) == (c as u32) as int % 16);
            assert(hex_val(hi) * 16 + hex_val(lo) == (c as u32) as int);
            assert(((hex_val(v[i + 4]) * 16 + hex_val(v[i + 5])) as u8) == ((c as u32) as u8));
            lemma_ctrl_char_cast(c);
            assert((((hex_val(v[i + 4]) * 16 + hex_val(v[i + 5])) as u8) as char) == c);
        } else {
            assert(v[i] == c);
            assert(v[i] != '"' && v[i] != '\\');
        }
        assert(seq![c] + rest =~= s);
    }
}

/// Append the lowercase hex digit of `n`.
fn push_hex_digit(out: &mut Vec<char>, n: u8)
    requires
        n < 16,
    ensures
        final(out)@ == old(out)@.push(hex_digit(n as int)),
{
    let c: char = match n {
        0 => '0',
        1 => '1',
        2 => '2',
        3 => '3',
        4 => '4',
        5 => '5',
        6 => '6',
        7 => '7',
        8 => '8',
        9 => '9',
        10 => 'a',
        11 => 'b',
        12 => 'c',
        13 => 'd',
        14 => 'e',
        _ => 'f',
    };
    out.push(c);
}

/// Append the escaped form of one character.
fn push_esc_char(out: &mut Vec<char>, c: char)
    ensures
        final(out)@ == old(out)@ + esc_char(c),
{
    let ghost pre = out@;
    if c == '"' {
        out.push('\\');
        out.push('"');
        proof {
            assert(out@ =~= pre + esc_char(c));
        }
    } else if c == '\\' {
        out.push('\\');
        out.push('\\');
        proof {
            assert(out@ =~= pre + esc_char(c));
        }
    } else {
        let code = c as u32;
        if code < 32 {
            out.push('\\');
            out.push('u');
            out.push('0');
            out.push('0');
            push_hex_digit(out, (code / 16) as u8);
            push_hex_digit(out, (code % 16) as u8);
            proof {
                assert(out@ =~= pre + esc_char(c));
            }
        } else {
            out.push(c);
            proof {
                assert(out@ =~= pre + esc_char(c));
            }
        }
    }
}

/// Append the JSON form of a string.
fn push_ser_str(out: &mut Vec<char>, s: &str)
    ensures
        final(out)@ == old(out)@ + ser_str(s@),
{
    let ghost pre = out@;
    out.push('"');
    let n = s.unicode_len();
    let mut i: usize = 0;
    while i < n
        invariant
            i <= n,
            n == s@.len(),
            out@ == pre + seq!['"'] + esc_str(s@.subrange(0, i as int)),
        decreases n - i,
    {
        let c = s.get_char(i);
        push_esc_char(out, c);
        proof {
            assert(s@.subrange(0, i + 1 as int) =~= s@.subrange(0, i as int).push(s@[i as int]));
            lemma_esc_str_snoc(s@.subrange(0, i as int), s@[i as int]);
            assert(out@ =~= pre + seq!['"'] + esc_str(s@.subrange(0, i + 1 as int)));
        }
        i = i + 1;
    }
    out.push('"');
    proof {
        assert(s@.subrange(0, n as int) =~= s@);
        assert(out@ =~= pre + ser_str(s@));
    }
}

/// Parse a JSON string body, mirroring `parse_string_body`.
fn parse_string_exec(v: &Vec<char>, i: usize) -> (r: Option<(Vec<char>, usize)>)
    requires
        i <= v@.len(),
    ensures
        match r {
            Some(p) => parse_string_body(v@, i as int) == Some((p.0@, p.1 as int)) && p.1 <= v@.len(),
            None => parse_string_body(v@, i as int) is None,
        },
    decreases v@.len() - i,
{
    if i >= v.len() {
        return None;
    }
    let c = v[i];
    if c == '"' {
        let empty: Vec<char> = Vec::new();
        proof {
            assert(empty@ =~= Seq::<char>::empty());
        }
        return Some((empty, i + 1));
    }
    if c == '\\' {
        if v.len() - i >= 2 && (v[i + 1] == '"' || v[i + 1] == '\\') {
            match parse_string_exec(v, i + 2) {
                None => return None,
                Some((mut s, j)) => {
                    let ghost srest = s@;
                    s.insert(0, v[i + 1]);
                    proof {
                        assert(s@ =~= seq![v@[i + 1]] + srest);
                    }
                    return Some((s, j));
                },
            }
        }
        if v.len() - i >= 6 && v[i + 1] == 'u' && v[i + 2] == '0' && v[i + 3] == '0' {
            let hi = hex_val_exec(v[i + 4]);
            let lo = hex_val_exec(v[i + 5]);
            if hi < 16 && lo < 16 && hi * 16 + lo < 32 {
                match parse_string_exec(v, i + 6) {
                    None => return None,
                    Some((mut s, j)) => {
                        let ghost srest = s@;
                        let decoded: char = ((hi * 16 + lo) as u8) as char;
                        s.insert(0, decoded);
                        proof {
                            assert(s@ =~= seq![decoded] + srest);
                        }
                        return Some((s, j));
                    },
                }
            }
        }
        return None;
    }
    if (c as u32) < 32 {
        return None;
    }
    match parse_string_exec(v, i + 1) {
        None => None,
        Some((mut s, j)) => {
            let ghost srest = s@;
            s.insert(0, c);
            proof {
                assert(s@ =~= seq![v@[i as int]] + srest);
            }
            Some((s, j))
        },
    }
}

/// The value of a lowercase hex digit; 16 for any other character.
fn hex_val_exec(c: char) -> (r: u8)
    ensures
        r as int == hex_val(c),
{
    match c {
        '0' => 0,
        '1' => 1,
        '2' => 2,
        '3' => 3,
        '4' => 4,
        '5' => 5,
        '6' => 6,
        '7' => 7,
        '8' => 8,
        '9' => 9,
        'a' => 10,
        'b' => 11,
        'c' => 12,
        'd' => 13,
        'e' => 14,
        'f' => 15,
        _ => 16,
    }
}

// ---------------------------------------------------------------------
// Lists of strings and objects of string entries
// ---------------------------------------------------------------------
/// Split a known concatenation inside `v` into its two parts.
proof fn lemma_subrange_split(v: Seq<char>, i: int, a: Seq<char>, b: Seq<char>)
    requires
        0 <= i,
        i + a.len() + b.len() <= v.len(),
        v.subrange(i, i + a.len() + b.len()) == a + b,
    ensures
        v.subrange(i, i + a.len()) =~= a,
        v.subrange(i + a.len(), i + a.len() + b.len()) =~= b,
{
    let w = v.subrange(i, i + a.len() + b.len());
    assert forall|m: int| 0 <= m < a.len() implies v.subrange(i, i + a.len())[m] == a[m] by {
        assert(w[m] == (a + b)[m]);
    }
    assert forall|m: int| 0 <= m < b.len() implies v.subrange(
        i + a.len(),
        i + a.len() + b.len(),
    )[m] == b[m] by {
        assert(w[a.len() + m] == (a + b)[a.len() + m]);
    }
}

/// The members of a JSON array of strings, without the brackets.
pub open spec fn ser_strlist(cols: Seq<Seq<char>>) -> Seq<char>
    decreases cols.len(),
{
    if cols.len() == 0 {
        Seq::empty()
    } else if cols.len() == 1 {
        ser_str(cols[0])
    } else {
        ser_str(cols[0]) + seq![','] + ser_strlist(cols.drop_first())
    }
}

proof fn lemma_ser_strlist_snoc(cols: Seq<Seq<char>>, x: Seq<char>)
    ensures
        ser_strlist(cols.push(x)) == if cols.len() == 0 {
            ser_str(x)
        } else {
            ser_strlist(cols) + seq![','] + ser_str(x)
        },
    decreases cols.len(),
{
    if cols.len() == 0 {
        assert(cols.push(x)[0] == x);
    } else {
        assert(cols.push(x).drop_first() =~= cols.drop_first().push(x));
        lemma_ser_strlist_snoc(cols.drop_first(), x);
        assert(cols.push(x)[0] == cols[0]);
        if cols.len() == 1 {
            assert(ser_strlist(cols.push(x)) =~= ser_strlist(cols) + seq![','] + ser_str(x));
        } else {
            assert(ser_strlist(cols.push(x)) =~= ser_strlist(cols) + seq![','] + ser_str(x));
        }
    }
}

/// Parse the members of a JSON array of strings from `i` up to and
/// including the closing bracket.
pub open spec fn parse_strlist(v: Seq<char>, i: int) -> Option<(Seq<Seq<char>>, int)>
    decreases v.len() - i,
        when i >= 0
        via parse_strlist_dec
{
    if i >= v.len() {
        None
    } else if v[i] == ']' {
        Some((Seq::empty(), i + 1))
    } else if v[i] == '"' {
        match parse_string_body(v, i + 1) {
            None => None,
            Some((s, j)) => if j < v.len() && v[j] == ',' {
                match parse_strlist(v, j + 1) {
                    None => None,
                    Some((l, k)) => Some((seq![s] + l, k)),
                }
            } else if j < v.len() && v[j] == ']' {
                Some((seq![s], j + 1))
            } else {
                None
            },
        }
    } else {
        None
    }
}

#[via_fn]
proof fn parse_strlist_dec(v: Seq<char>, i: int) {
    if 0 <= i < v.len() && v[i] == '"' && parse_string_body(v, i + 1) is Some {
        lemma_parse_string_body_advances(v, i + 1);
    }
}

/// The list parser inverts the list renderer: wherever the input holds
/// the rendered members of `cols` followed by a closing bracket, the
/// parse yields `cols` and stops just past that bracket.
pub proof fn lemma_parse_strlist(v: Seq<char>, i: int, cols: Seq<Seq<char>>)
    requires
        0 <= i,
        i + ser_strlist(cols).len() + 1 <= v.len(),
        v.subrange(i, i + ser_strlist(cols).len() + 1) == ser_strlist(cols) + seq![']'],
    ensures
        parse_strlist(v, i) == Some((cols, i + ser_strlist(cols).len() + 1)),
    decreases cols.len(),
{
    let w = v.subrange(i, i + ser_strlist(cols).len() + 1);
    if cols.len() == 0 {
        assert(w[0] == ']');
        assert(v[i] == ']');
    } else {
        let c0 = cols[0];
        assert(w[0] == (ser_strlist(cols) + seq![']'])[0]);
        assert(v[i] == '"');
        let e = esc_str(c0);
        if cols.len() == 1 {
            assert(ser_strlist(cols) == ser_str(c0));
            assert(v.subrange(i + 1, i + 1 + e.len() + 1) =~= e + seq!['"']) by {
                assert forall|m: int| 0 <= m < e.len() + 1 implies v.subrange(
                    i + 1,
                    i + 1 + e.len() + 1,
                )[m] == (e + seq!['"'])[m] by {
                    assert(w[1 + m] == (ser_strlist(cols) + seq![']'])[1 + m]);
                    assert((ser_str(c0) + seq![']'])[1 + m] == (e + seq!['"'])[m]);
                }
            }
            lemma_parse_esc(v, i + 1, c0);
            let j = i + 1 + e.len() + 1;
            assert(w[ser_strlist(cols).len() as int] == ']');
            assert(v[j] == ']');
            assert(parse_strlist(v, i) == Some((seq![c0], j + 1)));
            assert(seq![c0] =~= cols);
        } else {
            let rest = cols.drop_first();
            assert(ser_strlist(cols) == ser_str(c0) + seq![','] + ser_strlist(rest));
            assert(v.subrange(i + 1, i + 1 + e.len() + 1) =~= e + seq!['"']) by {
                assert forall|m: int| 0 <= m < e.len() + 1 implies v.subrange(
                    i + 1,
                    i + 1 + e.len() + 1,
                )[m] == (e + seq!['"'])[m] by {
                    assert(w[1 + m] == (ser_strlist(cols) + seq![']'])[1 + m]);
                }
            }
            lemma_parse_esc(v, i + 1, c0);
            let j = i + 1 + e.len() + 1;
            assert(j == i + ser_str(c0).len());
            assert(w[ser_str(c0).len() as int] == ',');
            assert(v[j] == ',');
            assert(v.subrange(j + 1, i + ser_strlist(cols).len() + 1) =~= ser_strlist(rest)
                + seq![']']) by {
                assert forall|m: int| 0 <= m < ser_strlist(rest).len() + 1 implies v.subrange(
                    j + 1,
                    i + ser_strlist(cols).len() + 1,
                )[m] == (ser_strlist(rest) + seq![']'])[m] by {
                    assert(w[ser_str(c0).len() + 1 + m] == (ser_strlist(cols) + seq![']'])[ser_str(
                        c0,
                    ).len() + 1 + m]);
                }
            }
            lemma_parse_strlist(v, j + 1, rest);
            assert(parse_strlist(v, i) == Some(
                (seq![c0] + rest, i + ser_strlist(cols).len() + 1),
            ));
            assert(seq![c0] + rest =~= cols);
        }
    }
}

/// One entry of a JSON object: key, colon, value.
pub open spec fn ser_entry(k: Seq<char>, val: Seq<char>) -> Seq<char> {
    ser_str(k) + seq![':'] + ser_str(val)
}

/// The entries of a JSON object, without the braces.
pub open spec fn ser_entries(entries: Seq<(Seq<char>, Seq<char>)>) -> Seq<char>
    decreases entries.len(),
{
    if entries.len() == 0 {
        Seq::empty()
    } else if entries.len() == 1 {
        ser_entry(entries[0].0, entries[0].1)
    } else {
        ser_entry(entries[0].0, entries[0].1) + seq![','] + ser_entries(entries.drop_first())
    }
}

proof fn lemma_ser_entries_snoc(entries: Seq<(Seq<char>, Seq<char>)>, p: (Seq<char>, Seq<char>))
    ensures
        ser_entries(entries.push(p)) == if entries.len() == 0 {
            ser_entry(p.0, p.1)
        } else {
            ser_entries(entries) + seq![','] + ser_entry(p.0, p.1)
        },
    decreases entries.len(),
{
    if entries.len() == 0 {
        assert(entries.push(p)[0] == p);
    } else {
        assert(entries.push(p).drop_first() =~= entries.drop_first().push(p));
        lemma_ser_entries_snoc(entries.drop_first(), p);
        assert(entries.push(p)[0] == entries[0]);
        assert(ser_entries(entries.push(p)) =~= ser_entries(entries) + seq![','] + ser_entry(
            p.0,
            p.1,
        ));
    }
}

/// Parse the entries of a JSON object from `i` up to and including the
/// closing brace.
pub open spec fn parse_entries(v: Seq<char>, i: int) -> Option<
    (Seq<(Seq<char>, Seq<char>)>, int),
>
    decreases v.len() - i,
        when i >= 0
        via parse_entries_dec
{
    if i >= v.len() {
        None
    } else if v[i] == '}' {
        Some((Seq::empty(), i + 1))
    } else if v[i] == '"' {
        match parse_string_body(v, i + 1) {
            None => None,
            Some((k, j)) => if j + 1 < v.len() && v[j] == ':' && v[j + 1] == '"' {
                match parse_string_body(v, j + 2) {
                    None => None,
                    Some((val, j2)) => if j2 < v.len() && v[j2] == ',' {
                        match parse_entries(v, j2 + 1) {
                            None => None,
                            Some((l, k2)) => Some((seq![(k, val)] + l, k2)),
                        }
                    } else if j2 < v.len() && v[j2] == '}' {
                        Some((seq![(k, val)], j2 + 1))
                    } else {
                        None
                    },
                }
            } else {
                None
            },
        }
    } else {
        None
    }
}

#[via_fn]
proof fn parse_entries_dec(v: Seq<char>, i: int) {
    if 0 <= i < v.len() && v[i] == '"' && parse_string_body(v, i + 1) is Some {
        lemma_parse_string_body_advances(v, i + 1);
        let (k, j) = parse_string_body(v, i + 1)->0;
        if j + 1 < v.len() && v[j] == ':' && v[j + 1] == '"' && parse_string_body(v, j + 2)
            is Some {
            lemma_parse_string_body_advances(v, j + 2);
        }
    }
}

/// The entry parser inverts the entry renderer.
pub proof fn lemma_parse_entries(v: Seq<char>, i: int, entries: Seq<(Seq<char>, Seq<char>)>)
    requires
        0 <= i,
        i + ser_entries(entries).len() + 1 <= v.len(),
        v.subrange(i, i + ser_entries(entries).len() + 1) == ser_entries(entries) + seq!['}'],
    ensures
        parse_entries(v, i) == Some((entries, i + ser_entries(entries).len() + 1)),
    decreases entries.len(),
{
    let w = v.subrange(i, i + ser_entries(entries).len() + 1);
    if entries.len() == 0 {
        assert(w[0] == '}');
        assert(v[i] == '}');
    } else {
        let k0 = entries[0].0;
        let v0 = entries[0].1;
        let ent = ser_entry(k0, v0);
        let ek = esc_str(k0);
        let ev = esc_str(v0);
        let tail: Seq<char> = if entries.len() == 1 {
            seq!['}']
        } else {
            seq![','] + ser_entries(entries.drop_first()) + seq!['}']
        };
        assert(w =~= ent + tail) by {
            if entries.len() == 1 {
                assert(ser_entries(entries) == ent);
            } else {
                assert(ser_entries(entries) == ent + seq![','] + ser_entries(
                    entries.drop_first(),
                ));
            }
        }
        assert forall|m: int| 0 <= m < ent.len() implies v[i + m] == ent[m] by {
            assert(w[m] == (ent + tail)[m]);
        }
        assert(v[i] == '"') by {
            assert(v[i + 0] == ent[0]);
        }
        assert(v.subrange(i + 1, i + 1 + ek.len() + 1) =~= ek + seq!['"']) by {
            assert forall|m: int| 0 <= m < ek.len() + 1 implies v.subrange(
                i + 1,
                i + 1 + ek.len() + 1,
            )[m] == (ek + seq!['"'])[m] by {
                assert(v[i + (1 + m)] == ent[1 + m]);
                assert((ser_str(k0) + (seq![':'] + ser_str(v0)))[1 + m] == (ek + seq!['"'])[m]);
            }
        }
        lemma_parse_esc(v, i + 1, k0);
        let j = i + 1 + ek.len() + 1;
        assert(j == i + ser_str(k0).len());
        assert(v[i + ser_str(k0).len()] == ent[ser_str(k0).len() as int]);
        assert(ent[ser_str(k0).len() as int] == ':');
        assert(v[j + 1] == ent[ser_str(k0).len() as int + 1]);
        assert(ent[ser_str(k0).len() as int + 1] == ser_str(v0)[0]);
        assert(v[j + 1] == '"');
        assert(v.subrange(j + 2, j + 2 + ev.len() + 1) =~= ev + seq!['"']) by {
            assert forall|m: int| 0 <= m < ev.len() + 1 implies v.subrange(
                j + 2,
                j + 2 + ev.len() + 1,
            )[m] == (ev + seq!['"'])[m] by {
                assert(v[i + (ser_str(k0).len() + 2 + m)] == ent[ser_str(k0).len() as int + 2 + m]);
                assert(ent[ser_str(k0).len() as int + 2 + m] == ser_str(v0)[1 + m]);
            }
        }
        lemma_parse_esc(v, j + 2, v0);
        let j2 = j + 2 + ev.len() + 1;
        assert(j2 == i + ent.len());
        if entries.len() == 1 {
            assert(w[ent.len() as int] == (ent + tail)[ent.len() as int]);
            assert(v[j2] == '}');
            assert(parse_entries(v, i) == Some((seq![(k0, v0)], j2 + 1)));
            assert(seq![(k0, v0)] =~= entries);
        } else {
            let rest = entries.drop_first();
            assert(w[ent.len() as int] == (ent + tail)[ent.len() as int]);
            assert(v[j2] == ',');
            assert(v.subrange(j2 + 1, i + ser_entries(entries).len() + 1) =~= ser_entries(rest)
                + seq!['}']) by {
                assert forall|m: int| 0 <= m < ser_entries(rest).len() + 1 implies v.subrange(
                    j2 + 1,
                    i + ser_entries(entries).len() + 1,
                )[m] == (ser_entries(rest) + seq!['}'])[m] by {
                    assert(w[ent.len() + 1 + m] == (ent + tail)[ent.len() as int + 1 + m]);
                    assert((ent + tail)[ent.len() as int + 1 + m] == tail[1 + m]);
                    assert(tail[1 + m] == (ser_entries(rest) + seq!['}'])[m]);
                }
            }
            lemma_parse_entries(v, j2 + 1, rest);
            assert(parse_entries(v, i) == Some(
                (seq![(k0, v0)] + rest, i + ser_entries(entries).len() + 1),
            ));
            assert(seq![(k0, v0)] + rest =~= entries);
        }
    }
}

// ---------------------------------------------------------------------
// The two persisted documents
// ---------------------------------------------------------------------
/// The views of a list of entry pairs.
pub open spec fn pair_views(s: Seq<(String, String)>) -> Seq<(Seq<char>, Seq<char>)> {
    s.map_values(|p: (String, String)| (p.0@, p.1@))
}

/// The registry record as a JSON document.
pub open spec fn ser_registry(active: Seq<char>, cols: Seq<Seq<char>>) -> Seq<char> {
    "{\"active\":"@ + ser_str(active) + ",\"collections\":["@ + ser_strlist(cols) + seq![
        ']',
        '}',
    ]
}

/// Parse a canonical registry document whole.
pub open spec fn parse_registry_spec(v: Seq<char>) -> Option<(Seq<char>, Seq<Seq<char>>)> {
    let h = "{\"active\":"@;
    let mid = ",\"collections\":["@;
    if h.len() + 1 <= v.len() && v.subrange(0, h.len() as int) == h && v[h.len() as int] == '"' {
        match parse_string_body(v, h.len() as int + 1) {
            None => None,
            Some((a, j)) => if j + mid.len() <= v.len() && v.subrange(j, j + mid.len()) == mid {
                match parse_strlist(v, j + mid.len()) {
                    None => None,
                    Some((cols, j2)) => if j2 + 1 == v.len() && v[j2] == '}' {
                        Some((a, cols))
                    } else {
                        None
                    },
                }
            } else {
                None
            },
        }
    } else {
        None
    }
}

/// Common frame of the two documents: a head literal, a quoted string,
/// a mid literal, a body, its closing character, and the final brace.
#[verifier::rlimit(100)]
#[verifier::spinoff_prover]
proof fn lemma_doc_frame(
    v: Seq<char>,
    h: Seq<char>,
    x: Seq<char>,
    mid: Seq<char>,
    body: Seq<char>,
    close: char,
)
    requires
        v == h + (ser_str(x) + (mid + (body + seq![close, '}']))),
    ensures
        v.len() == h.len() + ser_str(x).len() + mid.len() + body.len() + 2,
        v.subrange(0, h.len() as int) =~= h,
        v[h.len() as int] == '"',
        parse_string_body(v, h.len() as int + 1) == Some(
            (x, h.len() + ser_str(x).len() as int),
        ),
        v.subrange(
            h.len() + ser_str(x).len() as int,
            h.len() + ser_str(x).len() + mid.len() as int,
        ) =~= mid,
        v.subrange(
            h.len() + ser_str(x).len() + mid.len() as int,
            h.len() + ser_str(x).len() + mid.len() as int + body.len() + 1,
        ) =~= body + seq![close],
        v[h.len() + ser_str(x).len() + mid.len() as int + body.len() + 1] == '}',
{
    let s1 = ser_str(x);
    assert(v.subrange(0, v.len() as int) =~= v);
    assert(v.len() == h.len() + (s1 + (mid + (body + seq![close, '}']))).len());
    lemma_subrange_split(v, 0, h, s1 + (mid + (body + seq![close, '}'])));
    let i1 = h.len() as int;
    lemma_subrange_split(v, i1, s1, mid + (body + seq![close, '}']));
    assert(v.subrange(i1, i1 + s1.len()) =~= seq!['"'] + (esc_str(x) + seq!['"']));
    lemma_subrange_split(v, i1, seq!['"'], esc_str(x) + seq!['"']);
    assert(v[i1] == v.subrange(i1, i1 + s1.len())[0]);
    lemma_parse_esc(v, i1 + 1, x);
    let j = i1 + s1.len() as int;
    lemma_subrange_split(v, j, mid, body + seq![close, '}']);
    let j1 = j + mid.len() as int;
    assert(v.subrange(j1, j1 + body.len() + 2) =~= (body + seq![close]) + seq!['}']);
    lemma_subrange_split(v, j1, body + seq![close], seq!['}']);
    let j2 = j1 + body.len() + 1;
    assert(v[j2] == v.subrange(j2, j2 + 1)[0]);
}

/// Law: parsing a rendered registry document yields exactly the record
/// that was rendered.
pub proof fn lemma_registry_round_trip(active: Seq<char>, cols: Seq<Seq<char>>)
    ensures
        parse_registry_spec(ser_registry(active, cols)) == Some((active, cols)),
{
    let h = "{\"active\":"@;
    let mid = ",\"collections\":["@;
    let v = ser_registry(active, cols);
    assert(v =~= h + (ser_str(active) + (mid + (ser_strlist(cols) + seq![']', '}']))));
    lemma_doc_frame(v, h, active, mid, ser_strlist(cols), ']');
    let j1 = h.len() + ser_str(active).len() + mid.len() as int;
    lemma_parse_strlist(v, j1, cols);
}

/// A collection store as a JSON document.
pub open spec fn ser_store(name: Seq<char>, entries: Seq<(Seq<char>, Seq<char>)>) -> Seq<char> {
    "{\"collection_name\":"@ + ser_str(name) + ",\"store\":{"@ + ser_entries(entries) + seq![
        '}',
        '}',
    ]
}

/// Parse a canonical store document whole.
pub open spec fn parse_store_spec(v: Seq<char>) -> Option<
    (Seq<char>, Seq<(Seq<char>, Seq<char>)>),
> {
    let h = "{\"collection_name\":"@;
    let mid = ",\"store\":{"@;
    if h.len() + 1 <= v.len() && v.subrange(0, h.len() as int) == h && v[h.len() as int] == '"' {
        match parse_string_body(v, h.len() as int + 1) {
            None => None,
            Some((name, j)) => if j + mid.len() <= v.len() && v.subrange(j, j + mid.len()) == mid {
                match parse_entries(v, j + mid.len()) {
                    None => None,
                    Some((entries, j2)) => if j2 + 1 == v.len() && v[j2] == '}' {
                        Some((name, entries))
                    } else {
                        None
                    },
                }
            } else {
                None
            },
        }
    } else {
        None
    }
}

/// Law: parsing a rendered store document yields exactly the record that
/// was rendered.
pub proof fn lemma_store_round_trip(name: Seq<char>, entries: Seq<(Seq<char>, Seq<char>)>)
    ensures
        parse_store_spec(ser_store(name, entries)) == Some((name, entries)),
{
    let h = "{\"collection_name\":"@;
    let mid = ",\"store\":{"@;
    let v = ser_store(name, entries);
    assert(v =~= h + (ser_str(name) + (mid + (ser_entries(entries) + seq!['}', '}']))));
    lemma_doc_frame(v, h, name, mid, ser_entries(entries), '}');
    let j1 = h.len() + ser_str(name).len() + mid.len() as int;
    lemma_parse_entries(v, j1, entries);
}

// ---------------------------------------------------------------------
// Executable renderers and parsers
// ---------------------------------------------------------------------
/// Relies on std's `String::push`, which vstd leaves unspecified: it
/// appends the one character.
#[verifier::external_body]
fn push_char(s: &mut String, c: char)
    ensures
        final(s)@ == old(s)@.push(c),
{
    s.push(c);
}

/// The characters of `v`, as a string.
pub(crate) fn chars_to_string(v: &Vec<char>) -> (r: String)
    ensures
        r@ == v@,
{
    let mut r = String::new();
    let mut i: usize = 0;
    while i < v.len()
        invariant
            i <= v@.len(),
            r@ == v@.subrange(0, i as int),
        decreases v@.len() - i,
    {
        push_char(&mut r, v[i]);
        proof {
            assert(v@.subrange(0, i + 1 as int) =~= v@.subrange(0, i as int).push(v@[i as int]));
        }
        i = i + 1;
    }
    proof {
        assert(v@.subrange(0, v@.len() as int) =~= v@);
    }
    r
}

/// The characters of `s`, as a vector.
pub(crate) fn str_to_chars(s: &str) -> (r: Vec<char>)
    ensures
        r@ == s@,
{
    let n = s.unicode_len();
    let mut r: Vec<char> = Vec::new();
    let mut i: usize = 0;
    while i < n
        invariant
            i <= n,
            n == s@.len(),
            r@ == s@.subrange(0, i as int),
        decreases n - i,
    {
        r.push(s.get_char(i));
        proof {
            assert(s@.subrange(0, i + 1 as int) =~= s@.subrange(0, i as int).push(s@[i as int]));
        }
        i = i + 1;
    }
    proof {
        assert(s@.subrange(0, n as int) =~= s@);
    }
    r
}

/// Append a fixed piece of document text.
fn push_lit(out: &mut Vec<char>, lit: &str)
    ensures
        final(out)@ == old(out)@ + lit@,
{
    let ghost pre = out@;
    let n = lit.unicode_len();
    let mut i: usize = 0;
    while i < n
        invariant
            i <= n,
            n == lit@.len(),
            out@ == pre + lit@.subrange(0, i as int),
        decreases n - i,
    {
        out.push(lit.get_char(i));
        proof {
            assert(lit@.subrange(0, i + 1 as int) =~= lit@.subrange(0, i as int).push(
                lit@[i as int],
            ));
            assert(out@ =~= pre + lit@.subrange(0, i + 1 as int));
        }
        i = i + 1;
    }
    proof {
        assert(lit@.subrange(0, n as int) =~= lit@);
    }
}

/// Check that the document holds exactly `lit` at position `i`.
fn expect_lit(v: &Vec<char>, i: usize, lit: &str) -> (r: Option<usize>)
    requires
        i <= v@.len(),
    ensures
        match r {
            Some(j) => j as int == i + lit@.len() && j <= v@.len() && v@.subrange(
                i as int,
                j as int,
            ) == lit@,
            None => !(i + lit@.len() <= v@.len() && v@.subrange(i as int, i + lit@.len()) == lit@),
        },
{
    let n = lit.unicode_len();
    if v.len() - i < n {
        return None;
    }
    proof {
        assert(v@.len() <= usize::MAX);
    }
    let mut m: usize = 0;
    while m < n
        invariant
            m <= n,
            n == lit@.len(),
            i + n <= v@.len(),
            v@.len() <= usize::MAX,
            forall|t: int| 0 <= t < m ==> v@[i + t] == lit@[t],
        decreases n - m,
    {
        if v[i + m] != lit.get_char(m) {
            proof {
                assert(v@.subrange(i as int, i + lit@.len()) == lit@ ==> false) by {
                    if v@.subrange(i as int, i + lit@.len()) == lit@ {
                        assert(v@.subrange(i as int, i + lit@.len())[m as int] == v@[i + m]);
                    }
                }
            }
            return None;
        }
        m = m + 1;
    }
    proof {
        assert(v@.subrange(i as int, i + lit@.len()) =~= lit@);
    }
    Some(i + n)
}

/// Render the registry record as its canonical JSON document.
pub fn render_registry(active: &str, collections: &Vec<String>) -> (r: String)
    ensures
        r@ == ser_registry(active@, names_of(collections@)),
{
    let mut out: Vec<char> = Vec::new();
    push_lit(&mut out, "{\"active\":");
    push_ser_str(&mut out, active);
    push_lit(&mut out, ",\"collections\":[");
    let ghost base = out@;
    let ghost cols = names_of(collections@);
    let mut i: usize = 0;
    while i < collections.len()
        invariant
            i <= collections@.len(),
            cols == names_of(collections@),
            cols.len() == collections@.len(),
            out@ == base + ser_strlist(cols.subrange(0, i as int)),
        decreases collections@.len() - i,
    {
        if i > 0 {
            out.push(',');
        }
        push_ser_str(&mut out, collections[i].as_str());
        proof {
            lemma_ser_strlist_snoc(cols.subrange(0, i as int), cols[i as int]);
            assert(cols.subrange(0, i + 1 as int) =~= cols.subrange(0, i as int).push(
                cols[i as int],
            ));
            assert(out@ =~= base + ser_strlist(cols.subrange(0, i + 1 as int)));
        }
        i = i + 1;
    }
    out.push(']');
    out.push('}');
    proof {
        assert(cols.subrange(0, cols.len() as int) =~= cols);
        assert(out@ =~= ser_registry(active@, cols));
    }
    chars_to_string(&out)
}

/// Render a collection store as its canonical JSON document.
pub fn render_store(name: &str, entries: &Vec<(String, String)>) -> (r: String)
    ensures
        r@ == ser_store(name@, pair_views(entries@)),
{
    let mut out: Vec<char> = Vec::new();
    push_lit(&mut out, "{\"collection_name\":");
    push_ser_str(&mut out, name);
    push_lit(&mut out, ",\"store\":{");
    let ghost base = out@;
    let ghost pv = pair_views(entries@);
    let mut i: usize = 0;
    while i < entries.len()
        invariant
            i <= entries@.len(),
            pv == pair_views(entries@),
            pv.len() == entries@.len(),
            out@ == base + ser_entries(pv.subrange(0, i as int)),
        decreases entries@.len() - i,
    {
        if i > 0 {
            out.push(',');
        }
        push_ser_str(&mut out, entries[i].0.as_str());
        out.push(':');
        push_ser_str(&mut out, entries[i].1.as_str());
        proof {
            lemma_ser_entries_snoc(pv.subrange(0, i as int), pv[i as int]);
            assert(pv.subrange(0, i + 1 as int) =~= pv.subrange(0, i as int).push(pv[i as int]));
            assert(out@ =~= base + ser_entries(pv.subrange(0, i + 1 as int)));
        }
        i = i + 1;
    }
    out.push('}');
    out.push('}');
    proof {
        assert(pv.subrange(0, pv.len() as int) =~= pv);
        assert(out@ =~= ser_store(name@, pv));
    }
    chars_to_string(&out)
}

/// Parse the members of a string array, mirroring `parse_strlist`.
fn parse_strlist_exec(v: &Vec<char>, i: usize) -> (r: Option<(Vec<String>, usize)>)
    requires
        i <= v@.len(),
    ensures
        match r {
            Some(p) => parse_strlist(v@, i as int) == Some((names_of(p.0@), p.1 as int)) && p.1
                <= v@.len(),
            None => parse_strlist(v@, i as int) is None,
        },
    decreases v@.len() - i,
{
    if i >= v.len() {
        return None;
    }
    if v[i] == ']' {
        let out: Vec<String> = Vec::new();
        proof {
            assert(names_of(out@) =~= Seq::<Seq<char>>::empty());
        }
        return Some((out, i + 1));
    }
    if v[i] != '"' {
        return None;
    }
    match parse_string_exec(v, i + 1) {
        None => None,
        Some((schars, j)) => {
            proof {
                lemma_parse_string_body_advances(v@, i as int + 1);
            }
            let item = chars_to_string(&schars);
            if j < v.len() && v[j] == ',' {
                match parse_strlist_exec(v, j + 1) {
                    None => None,
                    Some((mut l, k)) => {
                        let ghost lrest = l@;
                        l.insert(0, item);
                        proof {
                            assert(names_of(l@) =~= seq![schars@] + names_of(lrest));
                        }
                        Some((l, k))
                    },
                }
            } else if j < v.len() && v[j] == ']' {
                let mut l: Vec<String> = Vec::new();
                l.push(item);
                proof {
                    assert(names_of(l@) =~= seq![schars@]);
                }
                Some((l, j + 1))
            } else {
                None
            }
        },
    }
}

/// Parse the entries of an object, mirroring `parse_entries`.
fn parse_entries_exec(v: &Vec<char>, i: usize) -> (r: Option<(Vec<(String, String)>, usize)>)
    requires
        i <= v@.len(),
    ensures
        match r {
            Some(p) => parse_entries(v@, i as int) == Some((pair_views(p.0@), p.1 as int)) && p.1
                <= v@.len(),
            None => parse_entries(v@, i as int) is None,
        },
    decreases v@.len() - i,
{
    if i >= v.len() {
        return None;
    }
    if v[i] == '}' {
        let out: Vec<(String, String)> = Vec::new();
        proof {
            assert(pair_views(out@) =~= Seq::<(Seq<char>, Seq<char>)>::empty());
        }
        return Some((out, i + 1));
    }
    if v[i] != '"' {
        return None;
    }
    match parse_string_exec(v, i + 1) {
        None => None,
        Some((kchars, j)) => {
            proof {
                lemma_parse_string_body_advances(v@, i as int + 1);
            }
            if v.len() - j >= 2 && v[j] == ':' && v[j + 1] == '"' {
                match parse_string_exec(v, j + 2) {
                    None => None,
                    Some((vchars, j2)) => {
                        proof {
                            lemma_parse_string_body_advances(v@, j as int + 2);
                        }
                        let pair = (chars_to_string(&kchars), chars_to_string(&vchars));
                        if j2 < v.len() && v[j2] == ',' {
                            match parse_entries_exec(v, j2 + 1) {
                                None => None,
                                Some((mut l, k2)) => {
                                    let ghost lrest = l@;
                                    l.insert(0, pair);
                                    proof {
                                        assert(pair_views(l@) =~= seq![(kchars@, vchars@)]
                                            + pair_views(lrest));
                                    }
                                    Some((l, k2))
                                },
                            }
                        } else if j2 < v.len() && v[j2] == '}' {
                            let mut l: Vec<(String, String)> = Vec::new();
                            l.push(pair);
                            proof {
                                assert(pair_views(l@) =~= seq![(kchars@, vchars@)]);
                            }
                            Some((l, j2 + 1))
                        } else {
                            None
                        }
                    },
                }
            } else {
                None
            }
        },
    }
}

/// Parse a registry document in its canonical form.
fn parse_registry_inner(text: &str) -> (r: Option<(String, Vec<String>)>)
    ensures
        match r {
            Some(p) => parse_registry_spec(text@) == Some((p.0@, names_of(p.1@))),
            None => parse_registry_spec(text@) is None,
        },
{
    let v = str_to_chars(text);
    let j0 = match expect_lit(&v, 0, "{\"active\":") {
        Some(j) => j,
        None => {
            return None;
        },
    };
    if !(j0 < v.len() && v[j0] == '"') {
        return None;
    }
    let (achars, j) = match parse_string_exec(&v, j0 + 1) {
        Some(p) => p,
        None => {
            return None;
        },
    };
    let j1 = match expect_lit(&v, j, ",\"collections\":[") {
        Some(x) => x,
        None => {
            return None;
        },
    };
    let (cols, j2) = match parse_strlist_exec(&v, j1) {
        Some(p) => p,
        None => {
            return None;
        },
    };
    if !(j2 < v.len() && j2 + 1 == v.len() && v[j2] == '}') {
        return None;
    }
    Some((chars_to_string(&achars), cols))
}

/// Parse the registry document. Anything `render_registry` produced is
/// parsed back to exactly the record it rendered; a document the parser
/// does not recognize yields nothing.
pub fn parse_registry(text: &str) -> (r: Option<(String, Vec<String>)>)
    ensures
        match r {
            Some(p) => parse_registry_spec(text@) == Some((p.0@, names_of(p.1@))),
            None => parse_registry_spec(text@) is None,
        },
        forall|a: Seq<char>, cols: Seq<Seq<char>>|
            text@ == #[trigger] ser_registry(a, cols) ==> r is Some && (r->0).0@ == a && names_of(
                (r->0).1@,
            ) == cols,
{
    let r = parse_registry_inner(text);
    proof {
        assert forall|a: Seq<char>, cols: Seq<Seq<char>>|
            text@ == #[trigger] ser_registry(a, cols) implies r is Some && (r->0).0@ == a
            && names_of((r->0).1@) == cols by {
            lemma_registry_round_trip(a, cols);
        }
    }
    r
}

/// Parse a store document in its canonical form.
fn parse_store_inner(text: &str) -> (r: Option<(String, Vec<(String, String)>)>)
    ensures
        match r {
            Some(p) => parse_store_spec(text@) == Some((p.0@, pair_views(p.1@))),
            None => parse_store_spec(text@) is None,
        },
{
    let v = str_to_chars(text);
    let j0 = match expect_lit(&v, 0, "{\"collection_name\":") {
        Some(j) => j,
        None => {
            return None;
        },
    };
    if !(j0 < v.len() && v[j0] == '"') {
        return None;
    }
    let (nchars, j) = match parse_string_exec(&v, j0 + 1) {
        Some(p) => p,
        None => {
            return None;
        },
    };
    let j1 = match expect_lit(&v, j, ",\"store\":{") {
        Some(x) => x,
        None => {
            return None;
        },
    };
    let (entries, j2) = match parse_entries_exec(&v, j1) {
        Some(p) => p,
        None => {
            return None;
        },
    };
    if !(j2 < v.len() && j2 + 1 == v.len() && v[j2] == '}') {
        return None;
    }
    Some((chars_to_string(&nchars), entries))
}

/// Parse a store document. Anything `render_store` produced is parsed
/// back to exactly the record it rendered; a document the parser does
/// not recognize yields nothing.
pub fn parse_store(text: &str) -> (r: Option<(String, Vec<(String, String)>)>)
    ensures
        match r {
            Some(p) => parse_store_spec(text@) == Some((p.0@, pair_views(p.1@))),
            None => parse_store_spec(text@) is None,
        },
        forall|name: Seq<char>, entries: Seq<(Seq<char>, Seq<char>)>|
            text@ == #[trigger] ser_store(name, entries) ==> r is Some && (r->0).0@ == name
                && pair_views((r->0).1@) == entries,
{
    let r = parse_store_inner(text);
    proof {
        assert forall|name: Seq<char>, entries: Seq<(Seq<char>, Seq<char>)>|
            text@ == #[trigger] ser_store(name, entries) implies r is Some && (r->0).0@ == name
            && pair_views((r->0).1@) == entries by {
            lemma_store_round_trip(name, entries);
        }
    }
    r
}

} // verus!

