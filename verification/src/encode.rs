//! Rendering cells, records, chunks and the header to CSV bytes, and the
//! byte-level statement of what each rendering is.

use vstd::prelude::*;
use crate::dialect::{Dialect, QuoteStyle, SerializeOptions, clone_bytes};
use crate::frame::{Cell, CellV, Chunk, DataType, FieldV, Schema, cell_fits, chunk_fits, row_fits, row_view};

verus! {

/// The decimal digits of `n`, most significant first.
pub open spec fn dec_digits(n: nat) -> Seq<u8>
    decreases n,
{
    if n < 10 {
        seq![(48 + n) as u8]
    } else {
        dec_digits(n / 10).push((48 + (n % 10)) as u8)
    }
}

/// The decimal rendering of an integer, with a leading `-` when negative.
pub open spec fn int_bytes(i: int) -> Seq<u8> {
    if i < 0 {
        seq![45u8] + dec_digits((-i) as nat)
    } else {
        dec_digits(i as nat)
    }
}

/// `true` or `false`.
pub open spec fn bool_bytes(b: bool) -> Seq<u8> {
    if b {
        seq![116u8, 114u8, 117u8, 101u8]
    } else {
        seq![102u8, 97u8, 108u8, 115u8, 101u8]
    }
}

/// The bare text of one cell, before any quoting.
pub open spec fn cell_text(c: CellV, d: Dialect) -> Seq<u8> {
    match c {
        CellV::Null => d.null_literal,
        CellV::Int(i) => int_bytes(i),
        CellV::Bool(b) => bool_bytes(b),
        CellV::Text(t) => t,
    }
}

/// Whether the text holds a byte that would be read as structure.
pub open spec fn text_has_special(t: Seq<u8>, d: Dialect) -> bool {
    exists|i: int| 0 <= i < t.len() && d.is_special(t[i])
}

/// Whether this cell's rendering is wrapped in quotes.
pub open spec fn must_quote(c: CellV, d: Dialect) -> bool {
    match d.quote_style {
        QuoteStyle::Always => true,
        QuoteStyle::Never => false,
        QuoteStyle::NonNumeric => c is Text || c is Bool,
        QuoteStyle::Necessary => text_has_special(cell_text(c, d), d),
    }
}

/// The text with every quote character doubled.
pub open spec fn escaped(t: Seq<u8>, q: u8) -> Seq<u8>
    decreases t.len(),
{
    if t.len() == 0 {
        t
    } else if t[0] == q {
        seq![q, q] + escaped(t.drop_first(), q)
    } else {
        seq![t[0]] + escaped(t.drop_first(), q)
    }
}

/// Reading doubled quote characters back into single ones.
pub open spec fn unescaped(t: Seq<u8>, q: u8) -> Seq<u8>
    decreases t.len(),
{
    if t.len() == 0 {
        t
    } else if t.len() >= 2 && t[0] == q && t[1] == q {
        seq![q] + unescaped(t.subrange(2, t.len() as int), q)
    } else {
        seq![t[0]] + unescaped(t.drop_first(), q)
    }
}

/// A reader that undoes the quote doubling recovers a quoted field's text
/// exactly: escaping loses nothing.
pub proof fn lemma_escape_round_trip(t: Seq<u8>, q: u8)
    ensures
        unescaped(escaped(t, q), q) =~= t,
    decreases t.len(),
{
    if t.len() == 0 {
    } else if t[0] == q {
        lemma_escape_round_trip(t.drop_first(), q);
        let e = escaped(t, q);
        assert(e == seq![q, q] + escaped(t.drop_first(), q));
        assert(e.len() >= 2 && e[0] == q && e[1] == q);
        assert(e.subrange(2, e.len() as int) =~= escaped(t.drop_first(), q));
        assert(seq![q] + t.drop_first() =~= t);
    } else {
        lemma_escape_round_trip(t.drop_first(), q);
        let e = escaped(t, q);
        assert(e == seq![t[0]] + escaped(t.drop_first(), q));
        assert(e.len() >= 1 && e[0] == t[0]);
        assert(e.drop_first() =~= escaped(t.drop_first(), q));
        assert(seq![t[0]] + t.drop_first() =~= t);
    }
}

/// The text escaped and wrapped in quote characters.
pub open spec fn quoted(t: Seq<u8>, q: u8) -> Seq<u8> {
    seq![q] + escaped(t, q) + seq![q]
}

/// Stripping a quoted field's outer quote characters and undoing the
/// doubling recovers its text exactly.
pub proof fn lemma_quoted_round_trip(t: Seq<u8>, q: u8)
    ensures
        quoted(t, q).len() >= 2,
        unescaped(quoted(t, q).subrange(1, quoted(t, q).len() - 1), q) =~= t,
{
    assert(quoted(t, q).subrange(1, quoted(t, q).len() - 1) =~= escaped(t, q));
    lemma_escape_round_trip(t, q);
}

/// The full rendering of one field.
pub open spec fn field_bytes(c: CellV, d: Dialect) -> Seq<u8> {
    if must_quote(c, d) {
        quoted(cell_text(c, d), d.quote_char)
    } else {
        cell_text(c, d)
    }
}

/// How a reader of the same dialect takes a rendered field back to its
/// text: strip and un-double the quotes when the field is quoted, keep the
/// bytes otherwise.
pub open spec fn field_text_back(b: Seq<u8>, d: Dialect) -> Seq<u8> {
    if b.len() >= 2 && b[0] == d.quote_char && b.last() == d.quote_char {
        unescaped(b.subrange(1, b.len() - 1), d.quote_char)
    } else {
        b
    }
}

/// Field-level round trip: under a usable dialect whose policy quotes
/// every field that needs it — `Necessary` or `Always` — reading a
/// rendered field back recovers the cell's text exactly.
pub proof fn lemma_field_round_trip(c: CellV, d: Dialect)
    requires
        d.wf(),
        d.quote_style is Necessary || d.quote_style is Always,
    ensures
        field_text_back(field_bytes(c, d), d) =~= cell_text(c, d),
{
    let t = cell_text(c, d);
    let q = d.quote_char;
    if must_quote(c, d) {
        let b = quoted(t, q);
        assert(b[0] == q && b.last() == q && b.len() >= 2);
        lemma_quoted_round_trip(t, q);
        assert(b.subrange(1, b.len() - 1) =~= escaped(t, q));
    } else {
        // Only `Necessary` leaves a field bare, and then its text holds no
        // structural byte, in particular no quote character: it cannot be
        // mistaken for a quoted field.
        assert(!text_has_special(t, d));
        if t.len() >= 2 && t[0] == q && t.last() == q {
            assert(d.is_special(t[0]));
            assert(text_has_special(t, d)) by {
                assert(0 <= 0 < t.len() && d.is_special(t[0]));
            }
            assert(false);
        }
    }
}

/// The fields of one row joined by the separator, without a terminator.
pub open spec fn row_bytes(row: Seq<CellV>, d: Dialect) -> Seq<u8>
    decreases row.len(),
{
    if row.len() == 0 {
        Seq::empty()
    } else if row.len() == 1 {
        field_bytes(row[0], d)
    } else {
        field_bytes(row[0], d) + seq![d.separator] + row_bytes(row.drop_first(), d)
    }
}

/// One record line: the row followed by the line terminator.
pub open spec fn record_bytes(row: Seq<CellV>, d: Dialect) -> Seq<u8> {
    row_bytes(row, d) + d.line_terminator
}

/// How far an unquoted field reaches: up to the first structural byte.
pub open spec fn bare_span(b: Seq<u8>, d: Dialect) -> int
    decreases b.len(),
{
    if b.len() == 0 {
        0
    } else if b[0] == d.separator || b[0] == 10 || b[0] == 13 {
        0
    } else {
        1 + bare_span(b.drop_first(), d)
    }
}

/// How far a quoted field reaches past its opening quote: up to and
/// including the closing quote, reading a doubled quote as content.
pub open spec fn quoted_span(b: Seq<u8>, q: u8) -> int
    decreases b.len(),
{
    if b.len() == 0 {
        0
    } else if b[0] == q {
        if b.len() >= 2 && b[1] == q {
            2 + quoted_span(b.subrange(2, b.len() as int), q)
        } else {
            1
        }
    } else {
        1 + quoted_span(b.drop_first(), q)
    }
}

/// The length of the leading field's rendering.
pub open spec fn field_span(b: Seq<u8>, d: Dialect) -> int {
    if b.len() > 0 && b[0] == d.quote_char {
        1 + quoted_span(b.drop_first(), d.quote_char)
    } else {
        bare_span(b, d)
    }
}

/// How a reader of the same dialect splits a record's row bytes back into
/// field texts: take the leading field, then recurse past each separator.
pub open spec fn parse_row(b: Seq<u8>, d: Dialect) -> Seq<Seq<u8>>
    decreases b.len(),
{
    let n = field_span(b, d);
    if 0 <= n <= b.len() {
        let f = field_text_back(b.subrange(0, n), d);
        if n < b.len() && b[n] == d.separator {
            seq![f] + parse_row(b.subrange(n + 1, b.len() as int), d)
        } else {
            seq![f]
        }
    } else {
        Seq::empty()
    }
}

/// The bare texts of a row's cells, in order.
pub open spec fn row_texts(row: Seq<CellV>, d: Dialect) -> Seq<Seq<u8>> {
    row.map(|i: int, c: CellV| cell_text(c, d))
}

/// An unquoted scan runs over exactly the special-free text in front of a
/// separator or the end.
proof fn lemma_bare_span(t: Seq<u8>, rest: Seq<u8>, d: Dialect)
    requires
        forall|i: int| 0 <= i < t.len() ==> !d.is_special(t[i]),
        rest.len() == 0 || rest[0] == d.separator,
    ensures
        bare_span(t + rest, d) == t.len(),
    decreases t.len(),
{
    if t.len() == 0 {
        assert(t + rest =~= rest);
    } else {
        assert(!d.is_special(t[0]));
        assert((t + rest)[0] == t[0]);
        assert((t + rest).drop_first() =~= t.drop_first() + rest);
        lemma_bare_span(t.drop_first(), rest, d);
    }
}

/// A quoted scan runs over exactly the escaped text and its closing quote,
/// as long as what follows does not itself begin with a quote character.
proof fn lemma_quoted_span(t: Seq<u8>, rest: Seq<u8>, q: u8)
    requires
        rest.len() == 0 || rest[0] != q,
    ensures
        quoted_span(escaped(t, q) + seq![q] + rest, q) == escaped(t, q).len() + 1,
    decreases t.len(),
{
    let b = escaped(t, q) + seq![q] + rest;
    if t.len() == 0 {
        assert(escaped(t, q) =~= Seq::<u8>::empty());
        assert(b =~= seq![q] + rest);
        assert(b[0] == q);
        if b.len() >= 2 {
            assert(b[1] == rest[0]);
        }
    } else if t[0] == q {
        assert(escaped(t, q) =~= seq![q, q] + escaped(t.drop_first(), q));
        assert(b[0] == q && b[1] == q);
        assert(b.subrange(2, b.len() as int) =~= escaped(t.drop_first(), q) + seq![q] + rest);
        lemma_quoted_span(t.drop_first(), rest, q);
    } else {
        assert(escaped(t, q) =~= seq![t[0]] + escaped(t.drop_first(), q));
        assert(b[0] == t[0]);
        assert(b.drop_first() =~= escaped(t.drop_first(), q) + seq![q] + rest);
        lemma_quoted_span(t.drop_first(), rest, q);
    }
}

/// The reader's scan takes exactly one rendered field off the front, when
/// what follows is a separator or the end of the row.
proof fn lemma_field_span(c: CellV, rest: Seq<u8>, d: Dialect)
    requires
        d.wf(),
        d.quote_style is Necessary || d.quote_style is Always,
        rest.len() == 0 || rest[0] == d.separator,
    ensures
        field_span(field_bytes(c, d) + rest, d) == field_bytes(c, d).len(),
{
    let b = field_bytes(c, d) + rest;
    let t = cell_text(c, d);
    let q = d.quote_char;
    if must_quote(c, d) {
        assert(field_bytes(c, d) =~= seq![q] + escaped(t, q) + seq![q]);
        assert(b[0] == q);
        assert(b.drop_first() =~= escaped(t, q) + seq![q] + rest);
        lemma_quoted_span(t, rest, q);
    } else {
        assert(!text_has_special(t, d));
        assert forall|i: int| 0 <= i < t.len() implies !d.is_special(t[i]) by {
            if d.is_special(t[i]) {
                assert(text_has_special(t, d));
            }
        }
        if b.len() > 0 && b[0] == q {
            if t.len() > 0 {
                assert(b[0] == t[0] && d.is_special(t[0]));
                assert(false);
            } else {
                assert(b =~= rest);
                assert(false);
            }
        }
        lemma_bare_span(t, rest, d);
    }
}

/// Row-level round trip: under a usable dialect whose policy quotes every
/// field that needs it, splitting a rendered row back on unquoted
/// separators recovers every cell's text, in order. A row must have at
/// least one field: an empty line reads as one empty field.
pub proof fn lemma_row_parse_round_trip(row: Seq<CellV>, d: Dialect)
    requires
        d.wf(),
        d.quote_style is Necessary || d.quote_style is Always,
        row.len() >= 1,
    ensures
        parse_row(row_bytes(row, d), d) =~= row_texts(row, d),
    decreases row.len(),
{
    let b = row_bytes(row, d);
    if row.len() == 1 {
        assert(b == field_bytes(row[0], d));
        lemma_field_span(row[0], Seq::empty(), d);
        assert(field_bytes(row[0], d) + Seq::<u8>::empty() =~= b);
        let n = field_span(b, d);
        assert(n == b.len());
        assert(b.subrange(0, n) =~= field_bytes(row[0], d));
        lemma_field_round_trip(row[0], d);
        assert(parse_row(b, d) =~= seq![cell_text(row[0], d)]);
        assert(row_texts(row, d) =~= seq![cell_text(row[0], d)]);
    } else {
        let rest = seq![d.separator] + row_bytes(row.drop_first(), d);
        assert(b =~= field_bytes(row[0], d) + rest);
        lemma_field_span(row[0], rest, d);
        let n = field_span(b, d);
        assert(n == field_bytes(row[0], d).len());
        assert(b.subrange(0, n) =~= field_bytes(row[0], d));
        assert(b[n] == d.separator);
        assert(b.subrange(n + 1, b.len() as int) =~= row_bytes(row.drop_first(), d));
        lemma_row_parse_round_trip(row.drop_first(), d);
        lemma_field_round_trip(row[0], d);
        assert(parse_row(b, d) =~= seq![cell_text(row[0], d)] + parse_row(
            row_bytes(row.drop_first(), d),
            d,
        ));
        assert(row_texts(row, d) =~= seq![cell_text(row[0], d)] + row_texts(
            row.drop_first(),
            d,
        ));
    }
}

/// How a reader takes a whole record line back to its field texts: drop
/// the line terminator, then split the row.
pub open spec fn parse_record(b: Seq<u8>, d: Dialect) -> Seq<Seq<u8>> {
    parse_row(b.subrange(0, b.len() - d.line_terminator.len()), d)
}

/// Record-level round trip: reading a record line back recovers the row's
/// cell texts exactly.
pub proof fn lemma_record_parse_round_trip(row: Seq<CellV>, d: Dialect)
    requires
        d.wf(),
        d.quote_style is Necessary || d.quote_style is Always,
        row.len() >= 1,
    ensures
        parse_record(record_bytes(row, d), d) =~= row_texts(row, d),
{
    let b = record_bytes(row, d);
    assert(b.subrange(0, b.len() - d.line_terminator.len()) =~= row_bytes(row, d));
    lemma_row_parse_round_trip(row, d);
}

/// Every record line ends in the configured line terminator.
pub proof fn lemma_record_terminated(row: Seq<CellV>, d: Dialect)
    ensures
        record_bytes(row, d).len() >= d.line_terminator.len(),
        record_bytes(row, d).subrange(
            record_bytes(row, d).len() - d.line_terminator.len(),
            record_bytes(row, d).len() as int,
        ) =~= d.line_terminator,
{
}

/// The concatenated record lines of a chunk; no header, no byte-order mark.
pub open spec fn chunk_bytes(rows: Seq<Seq<CellV>>, d: Dialect) -> Seq<u8>
    decreases rows.len(),
{
    if rows.len() == 0 {
        Seq::empty()
    } else {
        record_bytes(rows[0], d) + chunk_bytes(rows.drop_first(), d)
    }
}

/// The schema's field names, as the textual cells of the header row.
pub open spec fn header_cells(schema: Seq<FieldV>) -> Seq<CellV> {
    schema.map(|i: int, f: FieldV| CellV::Text(f.name))
}

/// The header line: field names in schema order, rendered like a record.
pub open spec fn header_bytes(schema: Seq<FieldV>, d: Dialect) -> Seq<u8> {
    record_bytes(header_cells(schema), d)
}

/// The UTF-8 byte-order mark.
pub open spec fn bom_bytes() -> Seq<u8> {
    seq![0xefu8, 0xbbu8, 0xbfu8]
}

/// Everything written before the first encoded buffer: the byte-order mark
/// iff requested, then the header line iff requested.
pub open spec fn prelude_bytes(
    schema: Seq<FieldV>,
    include_header: bool,
    include_bom: bool,
    d: Dialect,
) -> Seq<u8> {
    (if include_bom {
        bom_bytes()
    } else {
        Seq::empty()
    }) + (if include_header {
        header_bytes(schema, d)
    } else {
        Seq::empty()
    })
}

/// Reversing a non-empty sequence starts with its last element.
proof fn lemma_reverse_snoc(s: Seq<u8>)
    requires
        s.len() > 0,
    ensures
        s.reverse() =~= seq![s.last()] + s.drop_last().reverse(),
{
}

/// The decimal digits of `n`, as bytes, most significant first.
pub fn format_u64(n: u64) -> (r: Vec<u8>)
    ensures
        r@ == dec_digits(n as nat),
{
    let mut rev: Vec<u8> = Vec::new();
    let mut m: u64 = n;
    loop
        invariant_except_break
            dec_digits(n as nat) =~= dec_digits(m as nat) + rev@.reverse(),
        ensures
            dec_digits(n as nat) =~= rev@.reverse(),
            rev@.len() > 0,
        decreases m,
    {
        let ghost rev0 = rev@;
        let dgt: u8 = (m % 10) as u8;
        rev.push(48 + dgt);
        proof {
            lemma_reverse_snoc(rev@);
            assert(rev@.drop_last() =~= rev0);
        }
        m = m / 10;
        if m == 0 {
            break ;
        }
    }
    let mut r: Vec<u8> = Vec::new();
    loop
        invariant
            r@ + rev@.reverse() =~= dec_digits(n as nat),
        ensures
            r@ =~= dec_digits(n as nat),
        decreases rev@.len(),
    {
        proof {
            if rev@.len() > 0 {
                lemma_reverse_snoc(rev@);
            }
        }
        match rev.pop() {
            Some(b) => {
                r.push(b);
            },
            None => {
                break ;
            },
        }
    }
    r
}

/// Appends every byte of `src` to `out`.
pub fn push_all(out: &mut Vec<u8>, src: &Vec<u8>)
    ensures
        final(out)@ == old(out)@ + src@,
{
    let mut i: usize = 0;
    while i < src.len()
        invariant
            i <= src.len(),
            out@ =~= old(out)@ + src@.subrange(0, i as int),
        decreases src.len() - i,
    {
        out.push(src[i]);
        i = i + 1;
        proof {
            assert(out@ =~= old(out)@ + src@.subrange(0, i as int));
        }
    }
    proof {
        assert(src@.subrange(0, src@.len() as int) =~= src@);
    }
}

/// The decimal rendering of a signed integer, `-` first when negative.
pub fn format_i64(i: i64) -> (r: Vec<u8>)
    ensures
        r@ == int_bytes(i as int),
{
    if i >= 0 {
        format_u64(i as u64)
    } else {
        let wide: i128 = -(i as i128);
        proof {
            assert(0 <= wide <= u64::MAX as i128);
        }
        let m: u64 = wide as u64;
        let digits = format_u64(m);
        let mut r: Vec<u8> = Vec::new();
        r.push(45);
        push_all(&mut r, &digits);
        proof {
            assert(m as nat == (-(i as int)) as nat);
            assert(r@ =~= int_bytes(i as int));
        }
        r
    }
}

/// Escaping distributes over appending one byte at the end.
proof fn lemma_escaped_snoc(t: Seq<u8>, b: u8, q: u8)
    ensures
        escaped(t.push(b), q) =~= escaped(t, q) + (if b == q {
            seq![q, q]
        } else {
            seq![b]
        }),
    decreases t.len(),
{
    if t.len() == 0 {
        assert(t.push(b) =~= seq![b]);
        assert(seq![b].drop_first() =~= Seq::<u8>::empty());
        assert(escaped(Seq::<u8>::empty(), q) =~= Seq::<u8>::empty());
        assert(escaped(seq![b], q) =~= if b == q {
            seq![q, q]
        } else {
            seq![b]
        });
    } else {
        assert(t.push(b).drop_first() =~= t.drop_first().push(b));
        lemma_escaped_snoc(t.drop_first(), b, q);
        assert(t.push(b)[0] == t[0]);
        assert(escaped(t.push(b), q) =~= (if t[0] == q {
            seq![q, q]
        } else {
            seq![t[0]]
        }) + escaped(t.drop_first().push(b), q));
    }
}

/// Appends the text with every quote character doubled.
pub fn push_escaped(out: &mut Vec<u8>, t: &Vec<u8>, q: u8)
    ensures
        final(out)@ == old(out)@ + escaped(t@, q),
{
    let mut i: usize = 0;
    while i < t.len()
        invariant
            i <= t.len(),
            out@ =~= old(out)@ + escaped(t@.subrange(0, i as int), q),
        decreases t.len() - i,
    {
        let ghost pre = t@.subrange(0, i as int);
        let b = t[i];
        if b == q {
            out.push(q);
            out.push(q);
        } else {
            out.push(b);
        }
        i = i + 1;
        proof {
            assert(t@.subrange(0, i as int) =~= pre.push(b));
            lemma_escaped_snoc(pre, b, q);
            assert(out@ =~= old(out)@ + escaped(t@.subrange(0, i as int), q));
        }
    }
    proof {
        assert(t@.subrange(0, t@.len() as int) =~= t@);
    }
}

/// The bare text of one cell.
pub fn cell_text_exec(c: &Cell, opts: &SerializeOptions) -> (r: Vec<u8>)
    ensures
        r@ == cell_text(c@, opts@),
{
    match c {
        Cell::Null => clone_bytes(&opts.null_literal),
        Cell::Int(i) => format_i64(*i),
        Cell::Bool(b) => {
            let mut v: Vec<u8> = Vec::new();
            if *b {
                v.push(116);
                v.push(114);
                v.push(117);
                v.push(101);
            } else {
                v.push(102);
                v.push(97);
                v.push(108);
                v.push(115);
                v.push(101);
            }
            proof {
                assert(v@ =~= bool_bytes(*b));
            }
            v
        },
        Cell::Text(t) => clone_bytes(t),
    }
}

/// Whether one byte would be read as structure under this dialect.
pub fn is_special_byte(b: u8, opts: &SerializeOptions) -> (r: bool)
    ensures
        r == opts@.is_special(b),
{
    b == opts.separator || b == opts.quote_char || b == 10 || b == 13
}

/// Whether the text holds any structural byte.
pub fn has_special(t: &Vec<u8>, opts: &SerializeOptions) -> (r: bool)
    ensures
        r == text_has_special(t@, opts@),
{
    let mut i: usize = 0;
    while i < t.len()
        invariant
            i <= t.len(),
            forall|j: int| 0 <= j < i ==> !opts@.is_special(t@[j]),
        decreases t.len() - i,
    {
        if is_special_byte(t[i], opts) {
            proof {
                assert(0 <= i < t@.len() && opts@.is_special(t@[i as int]));
            }
            return true;
        }
        i = i + 1;
    }
    proof {
        if text_has_special(t@, opts@) {
            let j = choose|j: int| 0 <= j < t@.len() && opts@.is_special(t@[j]);
            assert(false);
        }
    }
    false
}

/// Whether this cell's rendering is quoted, given its bare text.
pub fn must_quote_exec(c: &Cell, text: &Vec<u8>, opts: &SerializeOptions) -> (r: bool)
    requires
        text@ == cell_text(c@, opts@),
    ensures
        r == must_quote(c@, opts@),
{
    match opts.quote_style {
        QuoteStyle::Always => true,
        QuoteStyle::Never => false,
        QuoteStyle::NonNumeric => matches!(c, Cell::Text(_)) || matches!(c, Cell::Bool(_)),
        QuoteStyle::Necessary => has_special(text, opts),
    }
}

/// Appends the full rendering of one field.
pub fn push_field(out: &mut Vec<u8>, c: &Cell, opts: &SerializeOptions)
    ensures
        final(out)@ == old(out)@ + field_bytes(c@, opts@),
{
    let text = cell_text_exec(c, opts);
    if must_quote_exec(c, &text, opts) {
        out.push(opts.quote_char);
        push_escaped(out, &text, opts.quote_char);
        out.push(opts.quote_char);
        proof {
            assert(out@ =~= old(out)@ + quoted(text@, opts@.quote_char));
        }
    } else {
        push_all(out, &text);
    }
}

/// A row grows at its end by a separator and one more field.
proof fn lemma_row_bytes_snoc(row: Seq<CellV>, c: CellV, d: Dialect)
    ensures
        row_bytes(row.push(c), d) =~= if row.len() == 0 {
            field_bytes(c, d)
        } else {
            row_bytes(row, d) + seq![d.separator] + field_bytes(c, d)
        },
    decreases row.len(),
{
    if row.len() == 0 {
        assert(row.push(c) =~= seq![c]);
    } else {
        assert(row.push(c).drop_first() =~= row.drop_first().push(c));
        lemma_row_bytes_snoc(row.drop_first(), c, d);
        assert(row.push(c)[0] == row[0]);
    }
}

/// Appends one record line: the row's fields joined by the separator, then
/// the line terminator.
pub fn push_record(out: &mut Vec<u8>, row: &Vec<Cell>, opts: &SerializeOptions)
    ensures
        final(out)@ == old(out)@ + record_bytes(row_view(row@), opts@),
{
    let mut i: usize = 0;
    while i < row.len()
        invariant
            i <= row.len(),
            out@ =~= old(out)@ + row_bytes(row_view(row@).subrange(0, i as int), opts@),
        decreases row.len() - i,
    {
        let ghost pre = row_view(row@).subrange(0, i as int);
        if i > 0 {
            out.push(opts.separator);
        }
        push_field(out, &row[i], opts);
        i = i + 1;
        proof {
            assert(row_view(row@)[i - 1] == row@[i - 1]@);
            assert(row_view(row@).subrange(0, i as int) =~= pre.push(row@[i - 1]@));
            lemma_row_bytes_snoc(pre, row@[i - 1]@, opts@);
            assert(out@ =~= old(out)@ + row_bytes(row_view(row@).subrange(0, i as int), opts@));
        }
    }
    push_all(out, &opts.line_terminator);
    proof {
        assert(row_view(row@).subrange(0, row@.len() as int) =~= row_view(row@));
        assert(out@ =~= old(out)@ + record_bytes(row_view(row@), opts@));
    }
}

/// A chunk grows at its end by one more record line.
proof fn lemma_chunk_bytes_snoc(rows: Seq<Seq<CellV>>, r: Seq<CellV>, d: Dialect)
    ensures
        chunk_bytes(rows.push(r), d) =~= chunk_bytes(rows, d) + record_bytes(r, d),
    decreases rows.len(),
{
    if rows.len() == 0 {
        assert(rows.push(r) =~= seq![r]);
        assert(seq![r].drop_first() =~= Seq::<Seq<CellV>>::empty());
        assert(chunk_bytes(Seq::<Seq<CellV>>::empty(), d) =~= Seq::<u8>::empty());
        assert(chunk_bytes(seq![r], d) =~= record_bytes(r, d));
    } else {
        assert(rows.push(r).drop_first() =~= rows.drop_first().push(r));
        lemma_chunk_bytes_snoc(rows.drop_first(), r, d);
        assert(rows.push(r)[0] == rows[0]);
        assert(chunk_bytes(rows.push(r), d) =~= record_bytes(rows[0], d) + chunk_bytes(
            rows.drop_first().push(r),
            d,
        ));
    }
}

/// Why a chunk could not be serialized.
#[derive(Clone, Copy, PartialEq, Eq, Structural, Debug)]
pub enum EncodeError {
    /// The row has a different number of cells than the schema has columns.
    ShapeMismatch { row: usize },
    /// A cell's value does not fit its column's type.
    TypeMismatch { row: usize, col: usize },
}

/// The error the encoder reports for a non-conforming row: a shape
/// mismatch when the arity differs, otherwise a type mismatch naming the
/// first cell that does not fit its column.
pub open spec fn row_error_of(
    row: Seq<CellV>,
    schema: Seq<FieldV>,
    row_idx: usize,
    e: EncodeError,
) -> bool {
    if row.len() != schema.len() {
        e == (EncodeError::ShapeMismatch { row: row_idx })
    } else {
        exists|col: int|
            {
                &&& 0 <= col < row.len()
                &&& !(#[trigger] cell_fits(row[col], schema[col].dtype))
                &&& (forall|k: int| 0 <= k < col ==> #[trigger] cell_fits(row[k], schema[k].dtype))
                &&& e == (EncodeError::TypeMismatch { row: row_idx, col: col as usize })
            }
    }
}

/// The error a chunk reports: its first non-conforming row's own error.
pub open spec fn chunk_error_of(rows: Seq<Seq<CellV>>, schema: Seq<FieldV>, e: EncodeError) -> bool {
    exists|i: int|
        {
            &&& 0 <= i < rows.len()
            &&& !row_fits(#[trigger] rows[i], schema)
            &&& (forall|k: int| 0 <= k < i ==> row_fits(#[trigger] rows[k], schema))
            &&& row_error_of(rows[i], schema, i as usize, e)
        }
}

/// Whether one cell may sit in a column of the given type.
pub fn cell_fits_exec(c: &Cell, dtype: DataType) -> (r: bool)
    ensures
        r == cell_fits(c@, dtype),
{
    match c {
        Cell::Null => true,
        Cell::Int(_) => matches!(dtype, DataType::Int64),
        Cell::Bool(_) => matches!(dtype, DataType::Boolean),
        Cell::Text(_) => matches!(dtype, DataType::Str),
    }
}

/// Checks one row against the schema; `None` means it conforms.
pub fn check_row(row: &Vec<Cell>, schema: &Schema, row_idx: usize) -> (r: Option<EncodeError>)
    ensures
        r is None <==> row_fits(row_view(row@), schema@),
        r matches Some(e) ==> row_error_of(row_view(row@), schema@, row_idx, e),
{
    if row.len() != schema.fields.len() {
        proof {
            assert(row_view(row@).len() == row@.len());
        }
        return Some(EncodeError::ShapeMismatch { row: row_idx });
    }
    let mut j: usize = 0;
    while j < row.len()
        invariant
            j <= row.len(),
            row@.len() == schema@.len(),
            schema@.len() == schema.fields@.len(),
            forall|k: int| 0 <= k < j ==> cell_fits(row_view(row@)[k], schema@[k].dtype),
        decreases row.len() - j,
    {
        proof {
            assert(schema@[j as int] == schema.fields@[j as int]@);
        }
        if !cell_fits_exec(&row[j], schema.fields[j].dtype) {
            proof {
                assert(row_view(row@)[j as int] == row@[j as int]@);
                assert(!cell_fits(row_view(row@)[j as int], schema@[j as int].dtype));
                assert(row_error_of(
                    row_view(row@),
                    schema@,
                    row_idx,
                    EncodeError::TypeMismatch { row: row_idx, col: j },
                )) by {
                    assert(row_view(row@).len() == row@.len());
                    assert(0 <= (j as int) < row_view(row@).len() && !cell_fits(
                        row_view(row@)[j as int],
                        schema@[j as int].dtype,
                    ));
                }
            }
            return Some(EncodeError::TypeMismatch { row: row_idx, col: j });
        }
        proof {
            assert(row_view(row@)[j as int] == row@[j as int]@);
        }
        j = j + 1;
    }
    None
}

/// Serializes a whole chunk: one record line per row, in row order, with no
/// header and no byte-order mark. Fails exactly when some row does not
/// conform to the schema.
pub fn encode_chunk(chunk: &Chunk, schema: &Schema, opts: &SerializeOptions) -> (r: Result<
    Vec<u8>,
    EncodeError,
>)
    ensures
        r is Ok <==> chunk_fits(chunk@, schema@),
        r matches Ok(b) ==> b@ == chunk_bytes(chunk@, opts@),
        r matches Err(e) ==> chunk_error_of(chunk@, schema@, e),
{
    let mut out: Vec<u8> = Vec::new();
    let mut i: usize = 0;
    while i < chunk.rows.len()
        invariant
            i <= chunk.rows.len(),
            chunk@.len() == chunk.rows@.len(),
            forall|k: int| 0 <= k < i ==> row_fits(#[trigger] chunk@[k], schema@),
            out@ =~= chunk_bytes(chunk@.subrange(0, i as int), opts@),
        decreases chunk.rows.len() - i,
    {
        let ghost pre = chunk@.subrange(0, i as int);
        proof {
            assert(chunk@[i as int] == row_view(chunk.rows@[i as int]@));
        }
        if let Some(e) = check_row(&chunk.rows[i], schema, i) {
            proof {
                assert(!row_fits(chunk@[i as int], schema@));
                assert(chunk_error_of(chunk@, schema@, e)) by {
                    assert(0 <= (i as int) < chunk@.len() && !row_fits(chunk@[i as int], schema@));
                    assert(row_error_of(chunk@[i as int], schema@, i, e));
                }
            }
            return Err(e);
        }
        push_record(&mut out, &chunk.rows[i], opts);
        i = i + 1;
        proof {
            assert(chunk@.subrange(0, i as int) =~= pre.push(chunk@[i - 1]));
            lemma_chunk_bytes_snoc(pre, chunk@[i - 1], opts@);
            assert(out@ =~= chunk_bytes(chunk@.subrange(0, i as int), opts@));
        }
    }
    proof {
        assert(chunk@.subrange(0, chunk@.len() as int) =~= chunk@);
    }
    Ok(out)
}

/// The header line for this schema.
pub fn encode_header(schema: &Schema, opts: &SerializeOptions) -> (r: Vec<u8>)
    ensures
        r@ == header_bytes(schema@, opts@),
{
    let mut cells: Vec<Cell> = Vec::new();
    let mut i: usize = 0;
    while i < schema.fields.len()
        invariant
            i <= schema.fields.len(),
            cells@.len() == i,
            schema@.len() == schema.fields@.len(),
            row_view(cells@) =~= header_cells(schema@).subrange(0, i as int),
        decreases schema.fields.len() - i,
    {
        cells.push(Cell::Text(clone_bytes(&schema.fields[i].name)));
        i = i + 1;
        proof {
            assert(schema@[i - 1] == schema.fields@[i - 1]@);
            assert(row_view(cells@) =~= header_cells(schema@).subrange(0, i as int));
        }
    }
    let mut out: Vec<u8> = Vec::new();
    proof {
        assert(row_view(cells@) =~= header_cells(schema@));
    }
    push_record(&mut out, &cells, opts);
    proof {
        assert(out@ =~= header_bytes(schema@, opts@));
    }
    out
}

/// Everything the writer puts before the first encoded buffer: the
/// byte-order mark iff requested, then the header line iff requested.
pub fn encode_prelude(
    schema: &Schema,
    include_header: bool,
    include_bom: bool,
    opts: &SerializeOptions,
) -> (r: Vec<u8>)
    ensures
        r@ == prelude_bytes(schema@, include_header, include_bom, opts@),
{
    let mut out: Vec<u8> = Vec::new();
    if include_bom {
        out.push(0xef);
        out.push(0xbb);
        out.push(0xbf);
    }
    if include_header {
        let h = encode_header(schema, opts);
        push_all(&mut out, &h);
    }
    proof {
        assert(out@ =~= prelude_bytes(schema@, include_header, include_bom, opts@));
    }
    out
}

} // verus!
