//! The serialized collection format: a JSON array of entry objects, each with
//! its `id`, `text` and `date` fields, the date in the fixed
//! year-month-day-time-offset form. Serializing and parsing are defined at
//! the specification level and implemented as verified code; parsing accepts
//! exactly what serializing emits.

use vstd::prelude::*;

use vstd::arithmetic::div_mod::{
    lemma_div_denominator, lemma_div_pos_is_pos, lemma_fundamental_div_mod, lemma_mod_bound,
    lemma_remainder_lower,
};

use crate::chars::{digit_char, digit_val, is_digit, is_ws, spec_digit};
use crate::date::DateTime;
use crate::entry::{spec_format_id, valid_text, views, Entry, EntryV};

verus! {

/// The characters opening an entry object, through the opening quote of its
/// identifier.
pub open spec fn lit_open() -> Seq<char> {
    seq!['{', '"', 'i', 'd', '"', ':', '"']
}

/// The characters between the identifier and the opening quote of the text.
pub open spec fn lit_text_sep() -> Seq<char> {
    seq![',', '"', 't', 'e', 'x', 't', '"', ':', '"']
}

/// The characters between the text and the opening quote of the date.
pub open spec fn lit_date_sep() -> Seq<char> {
    seq![',', '"', 'd', 'a', 't', 'e', '"', ':', '"']
}

/// The characters closing an entry object after the date.
pub open spec fn lit_close() -> Seq<char> {
    seq!['"', '}']
}

/// How one character of a string field is written: quote, backslash, newline,
/// carriage return and tab are escaped, every other character stands for
/// itself.
pub open spec fn esc_char(c: char) -> Seq<char> {
    if c == '"' {
        seq!['\\', '"']
    } else if c == '\\' {
        seq!['\\', '\\']
    } else if c == '\n' {
        seq!['\\', 'n']
    } else if c == '\r' {
        seq!['\\', 'r']
    } else if c == '\t' {
        seq!['\\', 't']
    } else {
        seq![c]
    }
}

/// How a string field's characters are written.
pub open spec fn spec_escape(s: Seq<char>) -> Seq<char>
    decreases s.len(),
{
    if s.len() == 0 {
        Seq::empty()
    } else {
        esc_char(s[0]) + spec_escape(s.skip(1))
    }
}

/// A number below one hundred as two digits.
pub open spec fn spec_fmt2(n: int) -> Seq<char> {
    seq![spec_digit(n / 10), spec_digit(n % 10)]
}

/// A number below ten thousand as four digits.
pub open spec fn spec_fmt4(n: int) -> Seq<char> {
    seq![spec_digit(n / 1000), spec_digit((n / 100) % 10), spec_digit((n / 10) % 10), spec_digit(
        n % 10,
    )]
}

/// The magnitude of a timestamp's offset, in minutes.
pub open spec fn off_abs(d: DateTime) -> int {
    if d.offset_min >= 0 {
        d.offset_min as int
    } else {
        -(d.offset_min as int)
    }
}

/// How a date is written: year, month, day, time of day and offset, in the
/// standard exchange form.
pub open spec fn spec_fmt_date(d: DateTime) -> Seq<char> {
    spec_fmt4(d.year as int) + seq!['-'] + spec_fmt2(d.month as int) + seq!['-'] + spec_fmt2(
        d.day as int,
    ) + seq!['T'] + spec_fmt2(d.hour as int) + seq![':'] + spec_fmt2(d.minute as int) + seq![':']
        + spec_fmt2(d.second as int) + seq![if d.offset_min >= 0 {
        '+'
    } else {
        '-'
    }] + spec_fmt2(off_abs(d) / 60) + seq![':'] + spec_fmt2(off_abs(d) % 60)
}

/// How one entry is written.
pub open spec fn spec_entry_json(e: EntryV) -> Seq<char> {
    lit_open() + spec_escape(e.id) + seq!['"'] + lit_text_sep() + spec_escape(e.text) + seq!['"']
        + lit_date_sep() + spec_fmt_date(e.date) + lit_close()
}

/// How the entries are written inside the array: comma-separated.
pub open spec fn spec_entries_json(es: Seq<EntryV>) -> Seq<char>
    decreases es.len(),
{
    if es.len() == 0 {
        Seq::empty()
    } else if es.len() == 1 {
        spec_entry_json(es[0])
    } else {
        spec_entry_json(es[0]) + seq![','] + spec_entries_json(es.skip(1))
    }
}

/// How a whole collection is written: the array of its entries.
pub open spec fn spec_json(es: Seq<EntryV>) -> Seq<char> {
    seq!['['] + spec_entries_json(es) + seq![']']
}

/// Reading a fixed run of characters: succeeds exactly on that prefix and
/// hands back what follows.
pub open spec fn spec_parse_lit(s: Seq<char>, lit: Seq<char>) -> Option<Seq<char>> {
    if lit.len() <= s.len() && s.take(lit.len() as int) == lit {
        Some(s.skip(lit.len() as int))
    } else {
        None
    }
}

/// Reading a string field up to and including its closing quote: yields the
/// unescaped characters and what follows the quote.
pub open spec fn spec_parse_str(s: Seq<char>) -> Option<(Seq<char>, Seq<char>)>
    decreases s.len(),
{
    if s.len() == 0 {
        None
    } else if s[0] == '"' {
        Some((Seq::empty(), s.skip(1)))
    } else if s[0] == '\\' {
        if s.len() >= 2 && (s[1] == '"' || s[1] == '\\' || s[1] == 'n' || s[1] == 'r' || s[1]
            == 't') {
            let d = if s[1] == '"' {
                '"'
            } else if s[1] == '\\' {
                '\\'
            } else if s[1] == 'n' {
                '\n'
            } else if s[1] == 'r' {
                '\r'
            } else {
                '\t'
            };
            match spec_parse_str(s.skip(2)) {
                Some((t, r)) => Some((seq![d] + t, r)),
                None => None,
            }
        } else {
            None
        }
    } else {
        match spec_parse_str(s.skip(1)) {
            Some((t, r)) => Some((seq![s[0]] + t, r)),
            None => None,
        }
    }
}

/// Reading a date: twenty-five characters in the fixed form, giving a
/// well-formed timestamp; a zero offset must be written with a plus sign.
pub open spec fn spec_parse_date(s: Seq<char>) -> Option<(DateTime, Seq<char>)> {
    if s.len() >= 25 && is_digit(s[0]) && is_digit(s[1]) && is_digit(s[2]) && is_digit(s[3]) && s[4]
        == '-' && is_digit(s[5]) && is_digit(s[6]) && s[7] == '-' && is_digit(s[8]) && is_digit(
        s[9],
    ) && s[10] == 'T' && is_digit(s[11]) && is_digit(s[12]) && s[13] == ':' && is_digit(s[14])
        && is_digit(s[15]) && s[16] == ':' && is_digit(s[17]) && is_digit(s[18]) && (s[19] == '+'
        || s[19] == '-') && is_digit(s[20]) && is_digit(s[21]) && s[22] == ':' && is_digit(s[23])
        && is_digit(s[24]) {
        let y = digit_val(s[0]) * 1000 + digit_val(s[1]) * 100 + digit_val(s[2]) * 10 + digit_val(
            s[3],
        );
        let mo = digit_val(s[5]) * 10 + digit_val(s[6]);
        let da = digit_val(s[8]) * 10 + digit_val(s[9]);
        let h = digit_val(s[11]) * 10 + digit_val(s[12]);
        let mi = digit_val(s[14]) * 10 + digit_val(s[15]);
        let se = digit_val(s[17]) * 10 + digit_val(s[18]);
        let om = (digit_val(s[20]) * 10 + digit_val(s[21])) * 60 + digit_val(s[23]) * 10
            + digit_val(s[24]);
        let d = DateTime {
            year: y as u32,
            month: mo as u32,
            day: da as u32,
            hour: h as u32,
            minute: mi as u32,
            second: se as u32,
            offset_min: (if s[19] == '-' {
                -om
            } else {
                om
            }) as i32,
        };
        if d.wf() && (s[19] == '-' ==> om > 0) {
            Some((d, s.skip(25)))
        } else {
            None
        }
    } else {
        None
    }
}

/// Reading one entry object: its three fields in order, with an identifier
/// that matches the date and valid text.
pub open spec fn spec_parse_entry(s: Seq<char>) -> Option<(EntryV, Seq<char>)> {
    match spec_parse_lit(s, lit_open()) {
        Some(s1) => match spec_parse_str(s1) {
            Some((id, s2)) => match spec_parse_lit(s2, lit_text_sep()) {
                Some(s3) => match spec_parse_str(s3) {
                    Some((text, s4)) => match spec_parse_lit(s4, lit_date_sep()) {
                        Some(s5) => match spec_parse_date(s5) {
                            Some((d, s6)) => match spec_parse_lit(s6, lit_close()) {
                                Some(s7) => {
                                    let e = EntryV { id, text, date: d };
                                    if e.wf() {
                                        Some((e, s7))
                                    } else {
                                        None
                                    }
                                },
                                None => None,
                            },
                            None => None,
                        },
                        None => None,
                    },
                    None => None,
                },
                None => None,
            },
            None => None,
        },
        None => None,
    }
}

/// Reading the non-empty inside of the array: entries separated by commas,
/// through the closing bracket.
pub open spec fn spec_parse_list(s: Seq<char>) -> Option<(Seq<EntryV>, Seq<char>)>
    decreases s.len(),
{
    match spec_parse_entry(s) {
        Some((e, r)) => {
            if r.len() < s.len() {
                if r.len() > 0 && r[0] == ',' {
                    match spec_parse_list(r.skip(1)) {
                        Some((tail, rr)) => Some((seq![e] + tail, rr)),
                        None => None,
                    }
                } else if r.len() > 0 && r[0] == ']' {
                    Some((seq![e], r.skip(1)))
                } else {
                    None
                }
            } else {
                None
            }
        },
        None => None,
    }
}

/// Reading a whole collection: the array, consuming all input, with unique
/// identifiers.
pub open spec fn spec_parse_json(s: Seq<char>) -> Option<Seq<EntryV>> {
    if s.len() == 2 && s[0] == '[' && s[1] == ']' {
        Some(Seq::empty())
    } else if s.len() >= 1 && s[0] == '[' {
        match spec_parse_list(s.skip(1)) {
            Some((es, r)) => {
                if r.len() == 0 && crate::entry::unique_ids(es) {
                    Some(es)
                } else {
                    None
                }
            },
            None => None,
        }
    } else {
        None
    }
}

/// Escaping distributes over appending one character at the end.
proof fn lemma_escape_snoc(t: Seq<char>, c: char)
    ensures
        spec_escape(t.push(c)) == spec_escape(t) + esc_char(c),
    decreases t.len(),
{
    if t.len() == 0 {
        assert(t.push(c)[0] == c);
        assert(t.push(c).skip(1) =~= Seq::<char>::empty());
        assert(spec_escape(Seq::<char>::empty()) == Seq::<char>::empty());
        assert(spec_escape(t.push(c)) == esc_char(c) + Seq::<char>::empty());
        assert(esc_char(c) + Seq::<char>::empty() =~= Seq::<char>::empty() + esc_char(c));
    } else {
        assert(t.push(c)[0] == t[0]);
        assert(t.push(c).skip(1) =~= t.skip(1).push(c));
        lemma_escape_snoc(t.skip(1), c);
        assert(spec_escape(t.push(c)) == esc_char(t[0]) + (spec_escape(t.skip(1)) + esc_char(c)));
        assert(esc_char(t[0]) + (spec_escape(t.skip(1)) + esc_char(c)) =~= (esc_char(t[0])
            + spec_escape(t.skip(1))) + esc_char(c));
    }
}

/// Appends the escaped characters of `s`.
fn escape_push(out: &mut Vec<char>, s: &Vec<char>)
    ensures
        final(out)@ == old(out)@ + spec_escape(s@),
{
    let ghost base = out@;
    let mut i: usize = 0;
    while i < s.len()
        invariant
            0 <= i <= s.len(),
            out@ == base + spec_escape(s@.take(i as int)),
        decreases s.len() - i,
    {
        let c = s[i];
        if c == '"' {
            out.push('\\');
            out.push('"');
        } else if c == '\\' {
            out.push('\\');
            out.push('\\');
        } else if c == '\n' {
            out.push('\\');
            out.push('n');
        } else if c == '\r' {
            out.push('\\');
            out.push('r');
        } else if c == '\t' {
            out.push('\\');
            out.push('t');
        } else {
            out.push(c);
        }
        proof {
            assert(s@.take(i + 1 as int) =~= s@.take(i as int).push(s@[i as int]));
            lemma_escape_snoc(s@.take(i as int), s@[i as int]);
            assert(out@ =~= base + spec_escape(s@.take(i + 1 as int)));
        }
        i = i + 1;
    }
    proof {
        assert(s@.take(s@.len() as int) =~= s@);
    }
}

/// Appends a number below one hundred as two digits.
fn fmt2_push(out: &mut Vec<char>, n: u32)
    requires
        n < 100,
    ensures
        final(out)@ == old(out)@ + spec_fmt2(n as int),
{
    out.push(digit_char(n / 10));
    out.push(digit_char(n % 10));
    assert(out@ =~= old(out)@ + spec_fmt2(n as int));
}

/// Appends a number below ten thousand as four digits.
fn fmt4_push(out: &mut Vec<char>, n: u32)
    requires
        n < 10000,
    ensures
        final(out)@ == old(out)@ + spec_fmt4(n as int),
{
    out.push(digit_char(n / 1000));
    out.push(digit_char((n / 100) % 10));
    out.push(digit_char((n / 10) % 10));
    out.push(digit_char(n % 10));
    assert(out@ =~= old(out)@ + spec_fmt4(n as int));
}

/// Appends a date in the fixed form.
fn date_push(out: &mut Vec<char>, d: &DateTime)
    requires
        d.wf(),
    ensures
        final(out)@ == old(out)@ + spec_fmt_date(*d),
{
    fmt4_push(out, d.year);
    out.push('-');
    fmt2_push(out, d.month);
    out.push('-');
    fmt2_push(out, d.day);
    out.push('T');
    fmt2_push(out, d.hour);
    out.push(':');
    fmt2_push(out, d.minute);
    out.push(':');
    fmt2_push(out, d.second);
    let m: u32 = if d.offset_min >= 0 {
        out.push('+');
        d.offset_min as u32
    } else {
        out.push('-');
        (-d.offset_min) as u32
    };
    assert(m as int == off_abs(*d));
    fmt2_push(out, m / 60);
    out.push(':');
    fmt2_push(out, m % 60);
    proof {
        lemma_div_pos_is_pos(off_abs(*d), 60);
        assert((m / 60) as int == off_abs(*d) / 60);
        assert((m % 60) as int == off_abs(*d) % 60);
        assert(out@ =~= old(out)@ + spec_fmt_date(*d));
    }
}

/// Concatenation of sequences is associative.
proof fn seq_assoc<T>(a: Seq<T>, b: Seq<T>, c: Seq<T>)
    ensures
        (a + b) + c == a + (b + c),
{
    assert((a + b) + c =~= a + (b + c));
}

/// Appends one entry object.
fn entry_push(out: &mut Vec<char>, e: &Entry)
    requires
        e@.wf(),
    ensures
        final(out)@ == old(out)@ + spec_entry_json(e@),
{
    let ghost o0 = out@;
    out.push('{');
    out.push('"');
    out.push('i');
    out.push('d');
    out.push('"');
    out.push(':');
    out.push('"');
    proof {
        assert(out@ =~= o0 + lit_open());
    }
    let idv = crate::chars::to_chars(e.id.as_str());
    escape_push(out, &idv);
    let ghost g2 = out@;
    out.push('"');
    proof {
        assert(out@ =~= g2 + seq!['"']);
    }
    let ghost g3 = out@;
    out.push(',');
    out.push('"');
    out.push('t');
    out.push('e');
    out.push('x');
    out.push('t');
    out.push('"');
    out.push(':');
    out.push('"');
    proof {
        assert(out@ =~= g3 + lit_text_sep());
    }
    let tv = crate::chars::to_chars(e.text.as_str());
    escape_push(out, &tv);
    let ghost g5 = out@;
    out.push('"');
    proof {
        assert(out@ =~= g5 + seq!['"']);
    }
    let ghost g6 = out@;
    out.push(',');
    out.push('"');
    out.push('d');
    out.push('a');
    out.push('t');
    out.push('e');
    out.push('"');
    out.push(':');
    out.push('"');
    proof {
        assert(out@ =~= g6 + lit_date_sep());
    }
    date_push(out, &e.date);
    let ghost g8 = out@;
    out.push('"');
    out.push('}');
    proof {
        assert(out@ =~= g8 + lit_close());
        let p1 = lit_open();
        let p2 = spec_escape(e.id@);
        let p3 = seq!['"'];
        let p4 = lit_text_sep();
        let p5 = spec_escape(e.text@);
        let p6 = seq!['"'];
        let p7 = lit_date_sep();
        let p8 = spec_fmt_date(e.date);
        let p9 = lit_close();
        seq_assoc(o0, p1, p2);
        seq_assoc(o0, p1 + p2, p3);
        seq_assoc(o0, p1 + p2 + p3, p4);
        seq_assoc(o0, p1 + p2 + p3 + p4, p5);
        seq_assoc(o0, p1 + p2 + p3 + p4 + p5, p6);
        seq_assoc(o0, p1 + p2 + p3 + p4 + p5 + p6, p7);
        seq_assoc(o0, p1 + p2 + p3 + p4 + p5 + p6 + p7, p8);
        seq_assoc(o0, p1 + p2 + p3 + p4 + p5 + p6 + p7 + p8, p9);
        assert(out@ == o0 + spec_entry_json(e@));
    }
}

/// Writing a collection with one more entry at the end appends a comma and
/// that entry, unless the collection was empty.
proof fn lemma_entries_snoc(es: Seq<EntryV>, e: EntryV)
    ensures
        spec_entries_json(es.push(e)) == (if es.len() == 0 {
            spec_entry_json(e)
        } else {
            spec_entries_json(es) + seq![','] + spec_entry_json(e)
        }),
    decreases es.len(),
{
    if es.len() == 0 {
        assert(es.push(e).len() == 1);
        assert(es.push(e)[0] == e);
    } else if es.len() == 1 {
        assert(es.push(e)[0] == es[0]);
        assert(es.push(e).skip(1) =~= es.skip(1).push(e));
        assert(es.skip(1).len() == 0);
        lemma_entries_snoc(es.skip(1), e);
        assert(spec_entries_json(es.push(e)) == spec_entry_json(es[0]) + seq![',']
            + spec_entry_json(e));
    } else {
        assert(es.push(e)[0] == es[0]);
        assert(es.push(e).skip(1) =~= es.skip(1).push(e));
        lemma_entries_snoc(es.skip(1), e);
        assert(spec_entries_json(es.push(e)) == spec_entry_json(es[0]) + seq![','] + (
        spec_entries_json(es.skip(1)) + seq![','] + spec_entry_json(e)));
        assert(spec_entry_json(es[0]) + seq![','] + (spec_entries_json(es.skip(1)) + seq![',']
            + spec_entry_json(e)) =~= (spec_entry_json(es[0]) + seq![','] + spec_entries_json(
            es.skip(1),
        )) + seq![','] + spec_entry_json(e));
    }
}

/// Serializes a collection of entries as characters.
pub(crate) fn to_json_chars(entries: &Vec<Entry>) -> (r: Vec<char>)
    requires
        forall|k: int| 0 <= k < entries@.len() ==> (#[trigger] entries@[k])@.wf(),
    ensures
        r@ == spec_json(views(entries@)),
{
    let mut out: Vec<char> = Vec::new();
    out.push('[');
    let mut i: usize = 0;
    while i < entries.len()
        invariant
            0 <= i <= entries@.len(),
            forall|k: int| 0 <= k < entries@.len() ==> (#[trigger] entries@[k])@.wf(),
            out@ == seq!['['] + spec_entries_json(views(entries@.take(i as int))),
        decreases entries@.len() - i,
    {
        if i > 0 {
            out.push(',');
        }
        entry_push(&mut out, &entries[i]);
        proof {
            let vs = views(entries@.take(i as int));
            assert(views(entries@.take(i + 1 as int)) =~= vs.push(entries@[i as int]@));
            lemma_entries_snoc(vs, entries@[i as int]@);
            if i == 0 {
                assert(vs.len() == 0);
                assert(out@ =~= seq!['['] + spec_entries_json(views(entries@.take(i + 1 as int))));
            } else {
                assert(out@ =~= seq!['['] + spec_entries_json(views(entries@.take(i + 1 as int))));
            }
        }
        i = i + 1;
    }
    out.push(']');
    proof {
        assert(entries@.take(entries@.len() as int) =~= entries@);
        assert(out@ =~= spec_json(views(entries@)));
    }
    out
}

/// The opening run of an entry object, as a vector.
fn lit_vec_open() -> (r: Vec<char>)
    ensures
        r@ == lit_open(),
{
    let mut v: Vec<char> = Vec::new();
    v.push('{');
    v.push('"');
    v.push('i');
    v.push('d');
    v.push('"');
    v.push(':');
    v.push('"');
    assert(v@ =~= lit_open());
    v
}

/// The run between identifier and text, as a vector.
fn lit_vec_text_sep() -> (r: Vec<char>)
    ensures
        r@ == lit_text_sep(),
{
    let mut v: Vec<char> = Vec::new();
    v.push(',');
    v.push('"');
    v.push('t');
    v.push('e');
    v.push('x');
    v.push('t');
    v.push('"');
    v.push(':');
    v.push('"');
    assert(v@ =~= lit_text_sep());
    v
}

/// The run between text and date, as a vector.
fn lit_vec_date_sep() -> (r: Vec<char>)
    ensures
        r@ == lit_date_sep(),
{
    let mut v: Vec<char> = Vec::new();
    v.push(',');
    v.push('"');
    v.push('d');
    v.push('a');
    v.push('t');
    v.push('e');
    v.push('"');
    v.push(':');
    v.push('"');
    assert(v@ =~= lit_date_sep());
    v
}

/// The closing run of an entry object, as a vector.
fn lit_vec_close() -> (r: Vec<char>)
    ensures
        r@ == lit_close(),
{
    let mut v: Vec<char> = Vec::new();
    v.push('"');
    v.push('}');
    assert(v@ =~= lit_close());
    v
}

/// Reads the given fixed run at position `i`.
fn expect_lit(v: &Vec<char>, i: usize, lit: &Vec<char>) -> (r: Option<usize>)
    requires
        i <= v.len(),
    ensures
        match r {
            Some(j) => spec_parse_lit(v@.skip(i as int), lit@) == Some(v@.skip(j as int)) && i <= j
                <= v.len(),
            None => spec_parse_lit(v@.skip(i as int), lit@) is None,
        },
{
    if v.len() - i < lit.len() {
        return None;
    }
    let mut k: usize = 0;
    while k < lit.len()
        invariant
            0 <= k <= lit.len(),
            i + lit.len() <= v.len(),
            forall|t: int| 0 <= t < k ==> v@[i + t] == lit@[t],
        decreases lit.len() - k,
    {
        if v[i + k] != lit[k] {
            proof {
                let s = v@.skip(i as int);
                assert(s.take(lit@.len() as int)[k as int] == v@[i + k]);
            }
            return None;
        }
        k = k + 1;
    }
    proof {
        let s = v@.skip(i as int);
        assert(s.take(lit@.len() as int) =~= lit@);
        assert(s.skip(lit@.len() as int) =~= v@.skip(i + lit@.len()));
    }
    Some(i + lit.len())
}

/// Reads a string field at position `i`, through its closing quote.
fn parse_str(v: &Vec<char>, i: usize) -> (r: Option<(Vec<char>, usize)>)
    requires
        i <= v.len(),
    ensures
        match spec_parse_str(v@.skip(i as int)) {
            Some((c, rest)) => r matches Some(p) && p.0@ == c && i <= p.1 <= v.len() && v@.skip(
                p.1 as int,
            ) == rest,
            None => r is None,
        },
{
    let mut outv: Vec<char> = Vec::new();
    let mut k: usize = i;
    loop
        invariant
            i <= k <= v.len(),
            match spec_parse_str(v@.skip(k as int)) {
                Some((c2, rest)) => spec_parse_str(v@.skip(i as int)) == Some((
                    outv@ + c2,
                    rest,
                )),
                None => spec_parse_str(v@.skip(i as int)) is None,
            },
        decreases v.len() - k,
    {
        if k == v.len() {
            proof {
                assert(v@.skip(k as int).len() == 0);
            }
            return None;
        }
        let c = v[k];
        proof {
            assert(v@.skip(k as int)[0] == v@[k as int]);
        }
        if c == '"' {
            proof {
                assert(v@.skip(k as int).skip(1) =~= v@.skip(k + 1));
                assert(outv@ + Seq::<char>::empty() =~= outv@);
            }
            return Some((outv, k + 1));
        } else if c == '\\' {
            if k + 1 == v.len() {
                proof {
                    assert(v@.skip(k as int).len() < 2);
                }
                return None;
            }
            let x = v[k + 1];
            proof {
                assert(v@.skip(k as int)[1] == v@[k + 1]);
            }
            let d: char;
            if x == '"' {
                d = '"';
            } else if x == '\\' {
                d = '\\';
            } else if x == 'n' {
                d = '\n';
            } else if x == 'r' {
                d = '\r';
            } else if x == 't' {
                d = '\t';
            } else {
                return None;
            }
            proof {
                assert(v@.skip(k as int).skip(2) =~= v@.skip(k + 2));
                if spec_parse_str(v@.skip(k + 2)) is Some {
                    let (t, rest) = spec_parse_str(v@.skip(k + 2))->Some_0;
                    seq_assoc(outv@, seq![d], t);
                    assert(outv@ + seq![d] =~= outv@.push(d));
                }
            }
            outv.push(d);
            k = k + 2;
        } else {
            proof {
                assert(v@.skip(k as int).skip(1) =~= v@.skip(k + 1));
                if spec_parse_str(v@.skip(k + 1)) is Some {
                    let (t, rest) = spec_parse_str(v@.skip(k + 1))->Some_0;
                    seq_assoc(outv@, seq![c], t);
                    assert(outv@ + seq![c] =~= outv@.push(c));
                }
            }
            outv.push(c);
            k = k + 1;
        }
    }
}

/// Reads a date at position `i`.
fn parse_date(v: &Vec<char>, i: usize) -> (r: Option<(DateTime, usize)>)
    requires
        i <= v.len(),
    ensures
        match spec_parse_date(v@.skip(i as int)) {
            Some((d, rest)) => r matches Some(p) && p.0 == d && d.wf() && i <= p.1 <= v.len()
                && v@.skip(p.1 as int) == rest,
            None => r is None,
        },
{
    proof {
        assert forall|t: int| 0 <= t < v@.len() - i implies #[trigger] v@.skip(i as int)[t]
            == v@[i + t] by {}
    }
    if v.len() - i < 25 {
        return None;
    }
    let d0 = crate::chars::digit_of(v[i]);
    let d1 = crate::chars::digit_of(v[i + 1]);
    let d2 = crate::chars::digit_of(v[i + 2]);
    let d3 = crate::chars::digit_of(v[i + 3]);
    let d5 = crate::chars::digit_of(v[i + 5]);
    let d6 = crate::chars::digit_of(v[i + 6]);
    let d8 = crate::chars::digit_of(v[i + 8]);
    let d9 = crate::chars::digit_of(v[i + 9]);
    let d11 = crate::chars::digit_of(v[i + 11]);
    let d12 = crate::chars::digit_of(v[i + 12]);
    let d14 = crate::chars::digit_of(v[i + 14]);
    let d15 = crate::chars::digit_of(v[i + 15]);
    let d17 = crate::chars::digit_of(v[i + 17]);
    let d18 = crate::chars::digit_of(v[i + 18]);
    let d20 = crate::chars::digit_of(v[i + 20]);
    let d21 = crate::chars::digit_of(v[i + 21]);
    let d23 = crate::chars::digit_of(v[i + 23]);
    let d24 = crate::chars::digit_of(v[i + 24]);
    if d0.is_none() || d1.is_none() || d2.is_none() || d3.is_none() || v[i + 4] != '-'
        || d5.is_none() || d6.is_none() || v[i + 7] != '-' || d8.is_none() || d9.is_none() || v[i
        + 10] != 'T' || d11.is_none() || d12.is_none() || v[i + 13] != ':' || d14.is_none()
        || d15.is_none() || v[i + 16] != ':' || d17.is_none() || d18.is_none() || (v[i + 19] != '+'
        && v[i + 19] != '-') || d20.is_none() || d21.is_none() || v[i + 22] != ':'
        || d23.is_none() || d24.is_none() {
        return None;
    }
    let y: u32 = d0.unwrap() * 1000 + d1.unwrap() * 100 + d2.unwrap() * 10 + d3.unwrap();
    let mo: u32 = d5.unwrap() * 10 + d6.unwrap();
    let da: u32 = d8.unwrap() * 10 + d9.unwrap();
    let h: u32 = d11.unwrap() * 10 + d12.unwrap();
    let mi: u32 = d14.unwrap() * 10 + d15.unwrap();
    let se: u32 = d17.unwrap() * 10 + d18.unwrap();
    let om: u32 = (d20.unwrap() * 10 + d21.unwrap()) * 60 + d23.unwrap() * 10 + d24.unwrap();
    let neg = v[i + 19] == '-';
    let off: i32 = if neg {
        -(om as i32)
    } else {
        om as i32
    };
    let d = DateTime {
        year: y,
        month: mo,
        day: da,
        hour: h,
        minute: mi,
        second: se,
        offset_min: off,
    };
    if !d.valid() || (neg && om == 0) {
        return None;
    }
    proof {
        assert(v@.skip(i as int).skip(25) =~= v@.skip(i + 25));
    }
    Some((d, i + 25))
}

/// Reads one entry object at position `i`.
fn parse_entry(v: &Vec<char>, i: usize) -> (r: Option<(Entry, usize)>)
    requires
        i <= v.len(),
    ensures
        match spec_parse_entry(v@.skip(i as int)) {
            Some((ev, rest)) => r matches Some(p) && p.0@ == ev && ev.wf() && i < p.1 <= v.len()
                && v@.skip(p.1 as int) == rest,
            None => r is None,
        },
{
    let lo = lit_vec_open();
    let j1 = match expect_lit(v, i, &lo) {
        Some(j) => j,
        None => {
            return None;
        },
    };
    let (idv, j2) = match parse_str(v, j1) {
        Some(p) => p,
        None => {
            return None;
        },
    };
    let lt = lit_vec_text_sep();
    let j3 = match expect_lit(v, j2, &lt) {
        Some(j) => j,
        None => {
            return None;
        },
    };
    let (tv, j4) = match parse_str(v, j3) {
        Some(p) => p,
        None => {
            return None;
        },
    };
    let ld = lit_vec_date_sep();
    let j5 = match expect_lit(v, j4, &ld) {
        Some(j) => j,
        None => {
            return None;
        },
    };
    let (d, j6) = match parse_date(v, j5) {
        Some(p) => p,
        None => {
            return None;
        },
    };
    let lc = lit_vec_close();
    let j7 = match expect_lit(v, j6, &lc) {
        Some(j) => j,
        None => {
            return None;
        },
    };
    let idf = crate::entry::format_id_chars(&d);
    if !crate::chars::chars_eq(&idv, &idf) {
        return None;
    }
    if tv.len() == 0 {
        return None;
    }
    if crate::chars::is_ws_char(tv[0]) || crate::chars::is_ws_char(tv[tv.len() - 1]) {
        return None;
    }
    let e = Entry {
        id: crate::chars::from_chars(&idv),
        text: crate::chars::from_chars(&tv),
        date: d,
    };
    assert(valid_text(tv@));
    Some((e, j7))
}

/// Reads the entries and the closing bracket, starting at position `i`.
fn parse_list(v: &Vec<char>, i: usize) -> (r: Option<(Vec<Entry>, usize)>)
    requires
        i <= v.len(),
    ensures
        match spec_parse_list(v@.skip(i as int)) {
            Some((es, rest)) => r matches Some(p) && views(p.0@) == es && i <= p.1 <= v.len()
                && v@.skip(p.1 as int) == rest,
            None => r is None,
        },
{
    let mut acc: Vec<Entry> = Vec::new();
    let mut k: usize = i;
    proof {
        if spec_parse_list(v@.skip(i as int)) is Some {
            let (es2, rest) = spec_parse_list(v@.skip(i as int))->Some_0;
            assert(views(acc@) =~= Seq::<EntryV>::empty());
            assert(Seq::<EntryV>::empty() + es2 =~= es2);
        }
    }
    loop
        invariant
            i <= k <= v.len(),
            match spec_parse_list(v@.skip(k as int)) {
                Some((es2, rest)) => spec_parse_list(v@.skip(i as int)) == Some((
                    views(acc@) + es2,
                    rest,
                )),
                None => spec_parse_list(v@.skip(i as int)) is None,
            },
        decreases v.len() - k,
    {
        let (e, j) = match parse_entry(v, k) {
            Some(p) => p,
            None => {
                return None;
            },
        };
        if j == v.len() {
            proof {
                assert(v@.skip(j as int).len() == 0);
            }
            return None;
        }
        let c = v[j];
        proof {
            assert(v@.skip(j as int)[0] == v@[j as int]);
            assert(v@.skip(j as int).skip(1) =~= v@.skip(j + 1));
        }
        if c == ',' {
            proof {
                assert(views(acc@.push(e)) =~= views(acc@) + seq![e@]);
                if spec_parse_list(v@.skip(j + 1)) is Some {
                    let (tail, rr) = spec_parse_list(v@.skip(j + 1))->Some_0;
                    seq_assoc(views(acc@), seq![e@], tail);
                }
            }
            acc.push(e);
            k = j + 1;
        } else if c == ']' {
            proof {
                assert(views(acc@.push(e)) =~= views(acc@) + seq![e@]);
            }
            acc.push(e);
            return Some((acc, j + 1));
        } else {
            return None;
        }
    }
}

/// Whether the entries carry pairwise distinct identifiers.
fn ids_unique(out: &Vec<Entry>) -> (r: bool)
    ensures
        r == crate::entry::unique_ids(views(out@)),
{
    let n = out.len();
    let mut a: usize = 0;
    while a < n
        invariant
            0 <= a <= n,
            n == out.len(),
            forall|x: int, y: int|
                0 <= x < y < n && x < a ==> (#[trigger] views(out@)[x]).id != (#[trigger] views(
                    out@,
                )[y]).id,
        decreases n - a,
    {
        let mut b: usize = a + 1;
        while b < n
            invariant
                0 <= a < n,
                a + 1 <= b <= n,
                n == out.len(),
                forall|x: int, y: int|
                    0 <= x < y < n && x < a ==> (#[trigger] views(out@)[x]).id != (#[trigger] views(
                        out@,
                    )[y]).id,
                forall|y: int|
                    a < y < b ==> views(out@)[a as int].id != (#[trigger] views(out@)[y]).id,
            decreases n - b,
        {
            if crate::chars::str_eq(out[a].id.as_str(), out[b].id.as_str()) {
                proof {
                    assert(views(out@)[a as int].id == views(out@)[b as int].id);
                }
                return false;
            }
            b = b + 1;
        }
        a = a + 1;
    }
    true
}

/// Parses a whole serialized collection; `None` is a parse failure.
pub(crate) fn parse_json(v: &Vec<char>) -> (r: Option<Vec<Entry>>)
    ensures
        match spec_parse_json(v@) {
            Some(es) => r matches Some(out) && views(out@) == es,
            None => r is None,
        },
{
    if v.len() == 2 && v[0] == '[' && v[1] == ']' {
        let out: Vec<Entry> = Vec::new();
        proof {
            assert(views(out@) =~= Seq::<EntryV>::empty());
        }
        return Some(out);
    }
    if v.len() == 0 || v[0] != '[' {
        return None;
    }
    let (out, j) = match parse_list(v, 1) {
        Some(p) => p,
        None => {
            return None;
        },
    };
    if j != v.len() {
        proof {
            assert(v@.skip(j as int).len() != 0);
        }
        return None;
    }
    if !ids_unique(&out) {
        return None;
    }
    Some(out)
}

/// A fixed run followed by anything reads back as that run.
proof fn lemma_parse_lit_prefix(lit: Seq<char>, rest: Seq<char>)
    ensures
        spec_parse_lit(lit + rest, lit) == Some(rest),
{
    assert((lit + rest).take(lit.len() as int) =~= lit);
    assert((lit + rest).skip(lit.len() as int) =~= rest);
}

/// An escaped string followed by its closing quote reads back as the string.
proof fn lemma_parse_str_escape(c: Seq<char>, rest: Seq<char>)
    ensures
        spec_parse_str(spec_escape(c) + seq!['"'] + rest) == Some((c, rest)),
    decreases c.len(),
{
    let s = spec_escape(c) + seq!['"'] + rest;
    if c.len() == 0 {
        assert(spec_escape(c) == Seq::<char>::empty());
        assert(s[0] == '"');
        assert(s.skip(1) =~= rest);
    } else {
        let e0 = esc_char(c[0]);
        let tailseq = spec_escape(c.skip(1));
        assert(spec_escape(c) == e0 + tailseq);
        lemma_parse_str_escape(c.skip(1), rest);
        assert(seq![c[0]] + c.skip(1) =~= c);
        if c[0] == '"' || c[0] == '\\' || c[0] == '\n' || c[0] == '\r' || c[0] == '\t' {
            assert(s[0] == '\\');
            assert(s[1] == e0[1]);
            assert(s.skip(2) =~= tailseq + seq!['"'] + rest);
        } else {
            assert(s[0] == c[0]);
            assert(s.skip(1) =~= tailseq + seq!['"'] + rest);
        }
    }
}

/// Digit facts for a two-digit number.
proof fn lemma_two_digits(n: int)
    requires
        0 <= n < 100,
    ensures
        0 <= n / 10 < 10,
        0 <= n % 10 < 10,
        digit_val(spec_digit(n / 10)) == n / 10,
        digit_val(spec_digit(n % 10)) == n % 10,
        (n / 10) * 10 + n % 10 == n,
{
    lemma_div_pos_is_pos(n, 10);
    lemma_mod_bound(n, 10);
    lemma_fundamental_div_mod(n, 10);
}

/// Digit facts for a four-digit number.
proof fn lemma_four_digits(n: int)
    requires
        0 <= n < 10000,
    ensures
        0 <= n / 1000 < 10,
        0 <= (n / 100) % 10 < 10,
        0 <= (n / 10) % 10 < 10,
        0 <= n % 10 < 10,
        digit_val(spec_digit(n / 1000)) == n / 1000,
        digit_val(spec_digit((n / 100) % 10)) == (n / 100) % 10,
        digit_val(spec_digit((n / 10) % 10)) == (n / 10) % 10,
        digit_val(spec_digit(n % 10)) == n % 10,
        (n / 1000) * 1000 + ((n / 100) % 10) * 100 + ((n / 10) % 10) * 10 + n % 10 == n,
{
    lemma_div_pos_is_pos(n, 10);
    lemma_div_pos_is_pos(n, 100);
    lemma_div_pos_is_pos(n, 1000);
    lemma_mod_bound(n, 10);
    lemma_mod_bound(n / 10, 10);
    lemma_mod_bound(n / 100, 10);
    lemma_mod_bound(n, 1000);
    lemma_fundamental_div_mod(n, 10);
    lemma_fundamental_div_mod(n / 10, 10);
    lemma_fundamental_div_mod(n / 100, 10);
    lemma_fundamental_div_mod(n, 1000);
    lemma_div_denominator(n, 10, 10);
    lemma_div_denominator(n, 100, 10);
}

/// A formatted date followed by anything reads back as the same timestamp.
#[verifier::rlimit(50)]
proof fn lemma_parse_date_fmt(d: DateTime, rest: Seq<char>)
    requires
        d.wf(),
    ensures
        spec_parse_date(spec_fmt_date(d) + rest) == Some((d, rest)),
{
    let y = d.year as int;
    let mo = d.month as int;
    let da = d.day as int;
    let h = d.hour as int;
    let mi = d.minute as int;
    let se = d.second as int;
    let m = off_abs(d);
    let sign = if d.offset_min >= 0 {
        '+'
    } else {
        '-'
    };
    lemma_four_digits(y);
    lemma_two_digits(mo);
    lemma_two_digits(da);
    lemma_two_digits(h);
    lemma_two_digits(mi);
    lemma_two_digits(se);
    lemma_div_pos_is_pos(m, 60);
    lemma_mod_bound(m, 60);
    lemma_fundamental_div_mod(m, 60);
    lemma_two_digits(m / 60);
    lemma_two_digits(m % 60);
    let f = spec_fmt_date(d);
    assert(f =~= seq![
        spec_digit(y / 1000),
        spec_digit((y / 100) % 10),
        spec_digit((y / 10) % 10),
        spec_digit(y % 10),
        '-',
        spec_digit(mo / 10),
        spec_digit(mo % 10),
        '-',
        spec_digit(da / 10),
        spec_digit(da % 10),
        'T',
        spec_digit(h / 10),
        spec_digit(h % 10),
        ':',
        spec_digit(mi / 10),
        spec_digit(mi % 10),
        ':',
        spec_digit(se / 10),
        spec_digit(se % 10),
        sign,
        spec_digit((m / 60) / 10),
        spec_digit((m / 60) % 10),
        ':',
        spec_digit((m % 60) / 10),
        spec_digit((m % 60) % 10),
    ]);
    let s = f + rest;
    assert forall|t: int| 0 <= t < 25 implies #[trigger] s[t] == f[t] by {}
    assert(s.skip(25) =~= rest);
    assert(spec_digit(y / 1000) != '-' && spec_digit(y / 1000) != '+');
    assert(spec_parse_date(s) matches Some(p) && p.0 == d && p.1 == rest);
}

/// A serialized entry followed by anything reads back as the same entry.
#[verifier::rlimit(50)]
proof fn lemma_parse_entry_json(e: EntryV, rest: Seq<char>)
    requires
        e.wf(),
    ensures
        spec_parse_entry(spec_entry_json(e) + rest) == Some((e, rest)),
{
    let s = spec_entry_json(e) + rest;
    let x6 = lit_close() + rest;
    let x5 = spec_fmt_date(e.date) + x6;
    let x4 = lit_date_sep() + x5;
    let x3 = spec_escape(e.text) + seq!['"'] + x4;
    let x2 = lit_text_sep() + x3;
    let x1 = spec_escape(e.id) + seq!['"'] + x2;
    assert(s =~= lit_open() + x1);
    lemma_parse_lit_prefix(lit_open(), x1);
    lemma_parse_str_escape(e.id, x2);
    lemma_parse_lit_prefix(lit_text_sep(), x3);
    lemma_parse_str_escape(e.text, x4);
    lemma_parse_lit_prefix(lit_date_sep(), x5);
    lemma_parse_date_fmt(e.date, x6);
    lemma_parse_lit_prefix(lit_close(), rest);
    assert((EntryV { id: e.id, text: e.text, date: e.date }) == e);
}

/// Serialized entries followed by the closing bracket read back as the same
/// entries.
proof fn lemma_parse_list_entries(es: Seq<EntryV>, rest: Seq<char>)
    requires
        es.len() > 0,
        forall|t: int| 0 <= t < es.len() ==> (#[trigger] es[t]).wf(),
    ensures
        spec_parse_list(spec_entries_json(es) + seq![']'] + rest) == Some((es, rest)),
    decreases es.len(),
{
    let s = spec_entries_json(es) + seq![']'] + rest;
    assert(spec_entry_json(es[0]).len() >= 7);
    if es.len() == 1 {
        let r1 = seq![']'] + rest;
        assert(s =~= spec_entry_json(es[0]) + r1);
        lemma_parse_entry_json(es[0], r1);
        assert(r1[0] == ']');
        assert(r1.skip(1) =~= rest);
        assert(seq![es[0]] =~= es);
    } else {
        let r1 = seq![','] + (spec_entries_json(es.skip(1)) + seq![']'] + rest);
        assert(s =~= spec_entry_json(es[0]) + r1);
        lemma_parse_entry_json(es[0], r1);
        assert(r1[0] == ',');
        assert(r1.skip(1) =~= spec_entries_json(es.skip(1)) + seq![']'] + rest);
        assert forall|t: int| 0 <= t < es.skip(1).len() implies (#[trigger] es.skip(1)[t]).wf() by {
            assert(es.skip(1)[t] == es[t + 1]);
        }
        lemma_parse_list_entries(es.skip(1), rest);
        assert(seq![es[0]] + es.skip(1) =~= es);
    }
}

/// Law: a serialized well-formed collection parses back to exactly the same
/// collection — reopening storage after a save reconstructs what was saved.
pub proof fn lemma_json_roundtrip(es: Seq<EntryV>)
    requires
        crate::entry::entries_wf(es),
    ensures
        spec_parse_json(spec_json(es)) == Some(es),
{
    let s = spec_json(es);
    if es.len() == 0 {
        assert(spec_entries_json(es) == Seq::<char>::empty());
        assert(s =~= seq!['[', ']']);
    } else {
        assert(spec_entry_json(es[0]).len() >= 7);
        if es.len() == 1 {
            assert(spec_entries_json(es).len() >= 7);
        } else {
            assert(spec_entries_json(es).len() >= 7);
        }
        assert(s.len() >= 9);
        assert(s[0] == '[');
        assert(s.skip(1) =~= spec_entries_json(es) + seq![']'] + Seq::<char>::empty());
        assert forall|t: int| 0 <= t < es.len() implies (#[trigger] es[t]).wf() by {}
        lemma_parse_list_entries(es, Seq::<char>::empty());
    }
}

/// Every entry that parsing an entry object yields is well-formed.
proof fn lemma_parse_entry_wf(s: Seq<char>)
    ensures
        spec_parse_entry(s) matches Some(p) ==> p.0.wf(),
{
}

/// Every entry that parsing the array inside yields is well-formed.
proof fn lemma_parse_list_wf(s: Seq<char>)
    ensures
        spec_parse_list(s) matches Some(p) ==> forall|t: int|
            0 <= t < p.0.len() ==> (#[trigger] p.0[t]).wf(),
    decreases s.len(),
{
    if spec_parse_list(s) is Some {
        let p = spec_parse_list(s)->Some_0;
        let (e, r) = spec_parse_entry(s)->Some_0;
        lemma_parse_entry_wf(s);
        if r.len() > 0 && r[0] == ',' {
            lemma_parse_list_wf(r.skip(1));
            let pt = spec_parse_list(r.skip(1))->Some_0;
            assert forall|t: int| 0 <= t < p.0.len() implies (#[trigger] p.0[t]).wf() by {
                if t > 0 {
                    assert(p.0[t] == pt.0[t - 1]);
                }
            }
        }
    }
}

/// Everything a parsed collection holds is well-formed: the entries are
/// well-formed and the identifiers unique.
pub(crate) proof fn lemma_parse_json_wf(s: Seq<char>)
    ensures
        spec_parse_json(s) matches Some(es) ==> crate::entry::entries_wf(es),
{
    if spec_parse_json(s) is Some {
        if !(s.len() == 2 && s[0] == '[' && s[1] == ']') {
            lemma_parse_list_wf(s.skip(1));
        }
    }
}

} // verus!
