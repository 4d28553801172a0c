//! The tabular data the sink consumes: schemas, cells, chunks and morsels,
//! held as plain values so that every rule about them can be stated.

use vstd::prelude::*;

verus! {

/// The column types the sink recognises.
#[derive(Clone, Copy, PartialEq, Eq, Structural, Debug)]
pub enum DataType {
    Int64,
    Boolean,
    Str,
}

/// Mathematical image of a [`Field`].
pub ghost struct FieldV {
    pub name: Seq<u8>,
    pub dtype: DataType,
}

/// One named, typed column.
pub struct Field {
    pub name: Vec<u8>,
    pub dtype: DataType,
}

impl View for Field {
    type V = FieldV;

    open spec fn view(&self) -> FieldV {
        FieldV { name: self.name@, dtype: self.dtype }
    }
}

impl Clone for Field {
    fn clone(&self) -> (r: Self)
        ensures
            r@ == self@,
    {
        Field { name: crate::dialect::clone_bytes(&self.name), dtype: self.dtype }
    }
}

/// The ordered list of columns every chunk must conform to.
pub struct Schema {
    pub fields: Vec<Field>,
}

/// Image of a list of fields.
pub open spec fn fields_view(fields: Seq<Field>) -> Seq<FieldV> {
    fields.map(|i: int, f: Field| f@)
}

impl View for Schema {
    type V = Seq<FieldV>;

    open spec fn view(&self) -> Seq<FieldV> {
        fields_view(self.fields@)
    }
}

impl Clone for Schema {
    fn clone(&self) -> (r: Self)
        ensures
            r@ == self@,
    {
        let mut fields: Vec<Field> = Vec::new();
        let mut i: usize = 0;
        while i < self.fields.len()
            invariant
                i <= self.fields.len(),
                fields@.len() == i,
                fields_view(fields@) =~= self@.subrange(0, i as int),
            decreases self.fields.len() - i,
        {
            let f = self.fields[i].clone();
            proof {
                assert(f@ == self.fields@[i as int]@);
                assert(self@[i as int] == self.fields@[i as int]@);
            }
            fields.push(f);
            i = i + 1;
            proof {
                assert forall|k: int| 0 <= k < i as int implies #[trigger] fields_view(
                    fields@,
                )[k] == self@.subrange(0, i as int)[k] by {
                    assert(fields_view(fields@)[k] == fields@[k]@);
                }
                assert(fields_view(fields@) =~= self@.subrange(0, i as int));
            }
        }
        let r = Schema { fields };
        proof {
            assert(r@ =~= self@);
        }
        r
    }
}

/// Mathematical image of a [`Cell`].
pub ghost enum CellV {
    Null,
    Int(int),
    Bool(bool),
    Text(Seq<u8>),
}

/// One value of a record.
pub enum Cell {
    Null,
    Int(i64),
    Bool(bool),
    Text(Vec<u8>),
}

impl View for Cell {
    type V = CellV;

    open spec fn view(&self) -> CellV {
        match self {
            Cell::Null => CellV::Null,
            Cell::Int(i) => CellV::Int(*i as int),
            Cell::Bool(b) => CellV::Bool(*b),
            Cell::Text(t) => CellV::Text(t@),
        }
    }
}

/// A cell may sit in a column of the given type when it is null or carries
/// a value of exactly that type.
pub open spec fn cell_fits(c: CellV, dtype: DataType) -> bool {
    match c {
        CellV::Null => true,
        CellV::Int(_) => dtype == DataType::Int64,
        CellV::Bool(_) => dtype == DataType::Boolean,
        CellV::Text(_) => dtype == DataType::Str,
    }
}

/// An in-memory tabular chunk: rows of cells.
pub struct Chunk {
    pub rows: Vec<Vec<Cell>>,
}

/// Image of one row of cells.
pub open spec fn row_view(row: Seq<Cell>) -> Seq<CellV> {
    row.map(|j: int, c: Cell| c@)
}

/// Image of a list of rows.
pub open spec fn rows_view(rows: Seq<Vec<Cell>>) -> Seq<Seq<CellV>> {
    rows.map(|i: int, r: Vec<Cell>| row_view(r@))
}

impl View for Chunk {
    type V = Seq<Seq<CellV>>;

    open spec fn view(&self) -> Seq<Seq<CellV>> {
        rows_view(self.rows@)
    }
}

/// A row conforms to the schema when it has one fitting cell per column.
pub open spec fn row_fits(row: Seq<CellV>, schema: Seq<FieldV>) -> bool {
    row.len() == schema.len() && forall|j: int|
        0 <= j < row.len() ==> cell_fits(row[j], schema[j].dtype)
}

/// A chunk conforms to the schema when every row does.
pub open spec fn chunk_fits(rows: Seq<Seq<CellV>>, schema: Seq<FieldV>) -> bool {
    forall|i: int| 0 <= i < rows.len() ==> row_fits(#[trigger] rows[i], schema)
}

/// The capability that tells upstream this morsel is still being worked on;
/// it is released by dropping, after the encoded buffer has been handed to
/// the linearizer's lane.
pub struct ConsumeToken {
    /// The lane the credit returns to.
    pub lane: usize,
}

/// One unit of input: a chunk plus its global position in the stream.
pub struct Morsel {
    /// The data.
    pub chunk: Chunk,
    /// Position of this chunk in the logical input stream; strictly
    /// increasing per emission across all lanes.
    pub seq: u64,
    /// The backpressure credit, when upstream asked for one.
    pub consume_token: Option<ConsumeToken>,
}

} // verus!
