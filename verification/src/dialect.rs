//! The CSV dialect: the serialization options a sink is configured with,
//! and their mathematical image used throughout the contracts.

use vstd::prelude::*;

verus! {

/// How a rendered field is quoted.
#[derive(Clone, Copy, PartialEq, Eq, Structural, Debug)]
pub enum QuoteStyle {
    /// Quote a field only when its text contains the separator, the quote
    /// character, or a line-break byte.
    Necessary,
    /// Quote every field.
    Always,
    /// Quote textual and boolean fields; leave numeric fields and nulls bare.
    NonNumeric,
    /// Never quote; field text is emitted verbatim.
    Never,
}

/// Durability requested when the sink closes its output.
#[derive(Clone, Copy, PartialEq, Eq, Structural, Debug)]
pub enum SyncOnClose {
    /// No fsync before close.
    Off,
    /// Flush file data before close.
    Data,
    /// Flush file data and metadata before close.
    All,
}

/// Mathematical image of [`SerializeOptions`].
pub ghost struct Dialect {
    pub separator: u8,
    pub quote_char: u8,
    pub line_terminator: Seq<u8>,
    pub null_literal: Seq<u8>,
    pub quote_style: QuoteStyle,
}

impl Dialect {
    /// A byte that must force quoting under the `Necessary` policy: the
    /// separator, the quote character, or a line break.
    pub open spec fn is_special(self, b: u8) -> bool {
        b == self.separator || b == self.quote_char || b == 10 || b == 13
    }

    /// A usable dialect: the line terminator is a non-empty run of
    /// line-break bytes, and neither the separator, the quote character nor
    /// the null literal collides with the structural bytes.
    pub open spec fn wf(self) -> bool {
        &&& self.line_terminator.len() > 0
        &&& forall|i: int|
            0 <= i < self.line_terminator.len() ==> self.line_terminator[i] == 10
                || self.line_terminator[i] == 13
        &&& self.separator != self.quote_char
        &&& self.separator != 10 && self.separator != 13
        &&& self.quote_char != 10 && self.quote_char != 13
        &&& forall|i: int| 0 <= i < self.null_literal.len() ==> !self.is_special(self.null_literal[i])
    }
}

/// How cells, records and the header are rendered to bytes.
pub struct SerializeOptions {
    /// Byte placed between fields of one record.
    pub separator: u8,
    /// Byte that opens and closes a quoted field; doubled when it occurs
    /// inside one.
    pub quote_char: u8,
    /// Bytes placed after every record, the header included.
    pub line_terminator: Vec<u8>,
    /// Text emitted for a null cell.
    pub null_literal: Vec<u8>,
    /// The quoting policy.
    pub quote_style: QuoteStyle,
}

impl View for SerializeOptions {
    type V = Dialect;

    open spec fn view(&self) -> Dialect {
        Dialect {
            separator: self.separator,
            quote_char: self.quote_char,
            line_terminator: self.line_terminator@,
            null_literal: self.null_literal@,
            quote_style: self.quote_style,
        }
    }
}

impl Clone for SerializeOptions {
    fn clone(&self) -> (r: Self)
        ensures
            r@ == self@,
    {
        SerializeOptions {
            separator: self.separator,
            quote_char: self.quote_char,
            line_terminator: clone_bytes(&self.line_terminator),
            null_literal: clone_bytes(&self.null_literal),
            quote_style: self.quote_style,
        }
    }
}

/// The dialect of comma-separated values with `"` quotes, `\n` terminators,
/// an empty null literal and quoting only where necessary.
pub open spec fn default_dialect() -> Dialect {
    Dialect {
        separator: 44,
        quote_char: 34,
        line_terminator: seq![10u8],
        null_literal: Seq::empty(),
        quote_style: QuoteStyle::Necessary,
    }
}

impl SerializeOptions {
    /// Options carrying [`default_dialect`].
    pub fn new_default() -> (r: SerializeOptions)
        ensures
            r@ == default_dialect(),
            r@.wf(),
    {
        let mut terminator: Vec<u8> = Vec::new();
        terminator.push(10);
        let r = SerializeOptions {
            separator: 44,
            quote_char: 34,
            line_terminator: terminator,
            null_literal: Vec::new(),
            quote_style: QuoteStyle::Necessary,
        };
        proof {
            assert(r@.line_terminator =~= default_dialect().line_terminator);
            assert(r@.null_literal =~= default_dialect().null_literal);
        }
        r
    }
}

/// An element-for-element copy of a byte vector.
pub fn clone_bytes(v: &Vec<u8>) -> (r: Vec<u8>)
    ensures
        r@ == v@,
{
    let mut r: Vec<u8> = Vec::new();
    let mut i: usize = 0;
    while i < v.len()
        invariant
            i <= v.len(),
            r@ == v@.subrange(0, i as int),
        decreases v.len() - i,
    {
        r.push(v[i]);
        i = i + 1;
        proof {
            assert(r@ =~= v@.subrange(0, i as int));
        }
    }
    proof {
        assert(r@ =~= v@);
    }
    r
}

/// Behavioural flags of the sink as a whole.
#[derive(Clone, Copy, PartialEq, Eq, Structural, Debug)]
pub struct SinkOptions {
    /// Emit encoded buffers in ascending sequence order.
    pub maintain_order: bool,
    /// Durability on a successful close.
    pub sync_on_close: SyncOnClose,
}

/// Everything the CSV writer side of the sink is configured with.
pub struct CsvWriterOptions {
    /// Write the header line once, before any data.
    pub include_header: bool,
    /// Write the UTF-8 byte-order mark once, before everything.
    pub include_bom: bool,
    /// The dialect.
    pub serialize_options: SerializeOptions,
}

impl Clone for CsvWriterOptions {
    fn clone(&self) -> (r: Self)
        ensures
            r.include_header == self.include_header,
            r.include_bom == self.include_bom,
            r.serialize_options@ == self.serialize_options@,
    {
        CsvWriterOptions {
            include_header: self.include_header,
            include_bom: self.include_bom,
            serialize_options: self.serialize_options.clone(),
        }
    }
}

} // verus!
