//! Typed columns, and tables made of them. The arrow crate keeps the values;
//! what this module says of it is what the rest of the library relies on.

use std::sync::Arc;

use arrow::array::{
    Array, ArrayRef, BinaryBuilder, BinaryViewArray, Int64Array, Int64Builder, StringArray,
    UInt16Array, UInt16Builder, UInt32Array, UInt32Builder, UInt8Array, UInt8Builder,
};
use arrow::compute::{lexsort_to_indices, take, SortColumn};
use arrow::datatypes::{DataType, Field, Schema};
use arrow::error::ArrowError;
use arrow::record_batch::RecordBatch;

use vstd::prelude::*;

use crate::order::law_distinct_fit;

verus! {

/// The type of a column's values.
#[derive(Debug, Clone, Copy, PartialEq, Eq, Structural)]
pub enum ColumnKind {
    Int64,
    UInt8,
    UInt16,
    UInt32,
    Binary,
    BinaryView,
    Utf8,
}

/// What a column holds: a value or a null for each row. Of a column of any other
/// type only the number of rows is of interest here.
pub enum ColumnData {
    Int64(Seq<Option<i64>>),
    UInt8(Seq<Option<u8>>),
    UInt16(Seq<Option<u16>>),
    UInt32(Seq<Option<u32>>),
    Binary(Seq<Option<Seq<u8>>>),
    BinaryView(Seq<Option<Seq<u8>>>),
    Utf8(Seq<Option<Seq<char>>>),
    Other(nat),
}

/// The items of `s` in the given order.
pub open spec fn reordered<T>(s: Seq<T>, order: Seq<u32>) -> Seq<T> {
    Seq::new(order.len(), |i: int| s[order[i] as int])
}

/// Whether every item of the column is a value.
pub open spec fn no_nulls<T>(s: Seq<Option<T>>) -> bool {
    forall|i: int| 0 <= i < s.len() ==> (#[trigger] s[i]) is Some
}

impl ColumnData {
    /// The type of its values, if it is one that has a name here.
    pub open spec fn kind(self) -> Option<ColumnKind> {
        match self {
            ColumnData::Int64(_) => Some(ColumnKind::Int64),
            ColumnData::UInt8(_) => Some(ColumnKind::UInt8),
            ColumnData::UInt16(_) => Some(ColumnKind::UInt16),
            ColumnData::UInt32(_) => Some(ColumnKind::UInt32),
            ColumnData::Binary(_) => Some(ColumnKind::Binary),
            ColumnData::BinaryView(_) => Some(ColumnKind::BinaryView),
            ColumnData::Utf8(_) => Some(ColumnKind::Utf8),
            ColumnData::Other(_) => None,
        }
    }

    /// How many rows the column has.
    pub open spec fn len(self) -> nat {
        match self {
            ColumnData::Int64(s) => s.len(),
            ColumnData::UInt8(s) => s.len(),
            ColumnData::UInt16(s) => s.len(),
            ColumnData::UInt32(s) => s.len(),
            ColumnData::Binary(s) => s.len(),
            ColumnData::BinaryView(s) => s.len(),
            ColumnData::Utf8(s) => s.len(),
            ColumnData::Other(n) => n,
        }
    }

    /// Whether the column is of a type named here and no row of it is null.
    pub open spec fn is_full(self) -> bool {
        match self {
            ColumnData::Int64(s) => no_nulls(s),
            ColumnData::UInt8(s) => no_nulls(s),
            ColumnData::UInt16(s) => no_nulls(s),
            ColumnData::UInt32(s) => no_nulls(s),
            ColumnData::Binary(s) => no_nulls(s),
            ColumnData::BinaryView(s) => no_nulls(s),
            ColumnData::Utf8(s) => no_nulls(s),
            ColumnData::Other(_) => false,
        }
    }

    /// The rows in the given order.
    pub open spec fn reordered(self, order: Seq<u32>) -> ColumnData {
        match self {
            ColumnData::Int64(s) => ColumnData::Int64(reordered(s, order)),
            ColumnData::UInt8(s) => ColumnData::UInt8(reordered(s, order)),
            ColumnData::UInt16(s) => ColumnData::UInt16(reordered(s, order)),
            ColumnData::UInt32(s) => ColumnData::UInt32(reordered(s, order)),
            ColumnData::Binary(s) => ColumnData::Binary(reordered(s, order)),
            ColumnData::BinaryView(s) => ColumnData::BinaryView(reordered(s, order)),
            ColumnData::Utf8(s) => ColumnData::Utf8(reordered(s, order)),
            ColumnData::Other(_) => ColumnData::Other(order.len()),
        }
    }
}

/// The bytes of a binary column, all values together.
pub open spec fn total_bytes(s: Seq<Option<Seq<u8>>>) -> nat
    decreases s.len(),
{
    if s.len() == 0 {
        0
    } else {
        total_bytes(s.drop_last()) + match s.last() {
            Some(bytes) => bytes.len(),
            None => 0,
        }
    }
}

/// Whether `order` names each of the first `n` rows once.
pub open spec fn is_permutation(order: Seq<u32>, n: nat) -> bool {
    &&& order.len() == n
    &&& forall|i: int| 0 <= i < n ==> (#[trigger] order[i]) < n
    &&& forall|i: int, j: int| 0 <= i < j < n ==> #[trigger] order[i] != #[trigger] order[j]
}

/// Taking rows in an order that names each once gives the same rows: none is
/// lost, none comes twice.
pub proof fn law_reordered_same_rows<T>(s: Seq<T>, order: Seq<u32>)
    requires
        is_permutation(order, s.len()),
    ensures
        reordered(s, order).to_multiset() == s.to_multiset(),
    decreases s.len(),
{
    broadcast use vstd::seq_lib::group_to_multiset_ensures;

    let n = s.len() as int;
    let r = reordered(s, order);
    if n == 0 {
        assert(r =~= s);
    } else {
        if forall|p: int| 0 <= p < n ==> #[trigger] order[p] != n - 1 {
            law_distinct_fit(order.map_values(|x: u32| x as int), (n - 1) as nat);
        }
        let p = choose|p: int| 0 <= p < n && #[trigger] order[p] == n - 1;
        let fewer = order.remove(p);
        law_reordered_same_rows(s.drop_last(), fewer);
        assert(r.remove(p) =~= reordered(s.drop_last(), fewer));
        assert(s.drop_last().push(s.last()) =~= s);
        assert(r.to_multiset().contains(r[p]));
        assert(r.to_multiset() =~= r.remove(p).to_multiset().insert(r[p]));
    }
}

/// A column of a table's layout.
#[derive(Debug)]
pub struct ColumnField {
    pub name: String,
    pub kind: ColumnKind,
    pub nullable: bool,
}

/// A column of a table's layout, as plain values: its kind if that is one that has a
/// name here.
pub struct FieldData {
    pub name: Seq<char>,
    pub kind: Option<ColumnKind>,
    pub nullable: bool,
}

impl View for ColumnField {
    type V = FieldData;

    open spec fn view(&self) -> FieldData {
        FieldData { name: self.name@, kind: Some(self.kind), nullable: self.nullable }
    }
}

/// Whether columns with the given contents make a table of the given layout: as
/// many columns as the layout has, at least one, all of one length, each of its
/// field's kind and without nulls where the field allows none.
pub open spec fn fits_layout(fields: Seq<FieldData>, columns: Seq<ColumnData>) -> bool {
    &&& fields.len() == columns.len()
    &&& columns.len() > 0
    &&& forall|i: int|
        0 <= i < columns.len() ==> {
            &&& (#[trigger] columns[i]).kind() is Some
            &&& columns[i].kind() == fields[i].kind
            &&& columns[i].len() == columns[0].len()
            &&& fields[i].nullable || columns[i].is_full()
        }
}

/// arrow's error type, as the outside calls return it.
#[verifier::external_type_specification]
#[verifier::external_body]
pub struct ExArrowError(ArrowError);

/// arrow's description of a table's columns.
#[verifier::external_type_specification]
#[verifier::external_body]
pub struct ExSchema(Schema);

/// A growing column of 64-bit integers.
#[verifier::external_body]
pub struct Int64Column {
    builder: Int64Builder,
}

/// A growing column of bytes.
#[verifier::external_body]
pub struct UInt8Column {
    builder: UInt8Builder,
}

/// A growing column of 16-bit unsigned integers.
#[verifier::external_body]
pub struct UInt16Column {
    builder: UInt16Builder,
}

/// A growing column of 32-bit unsigned integers.
#[verifier::external_body]
pub struct UInt32Column {
    builder: UInt32Builder,
}

/// A growing column of byte strings.
#[verifier::external_body]
pub struct BinaryColumn {
    builder: BinaryBuilder,
}

/// A finished column.
#[verifier::external_body]
pub struct Column {
    array: ArrayRef,
}

/// Row numbers, in the order in which rows are to be taken.
#[verifier::external_body]
pub struct RowOrder {
    array: UInt32Array,
}

/// Columns of one length under a layout.
#[verifier::external_body]
pub struct Table {
    pub batch: RecordBatch,
}

/// What an `Int64Builder` holds so far.
pub uninterp spec fn int64_contents(c: Int64Column) -> Seq<Option<i64>>;

/// What a `UInt8Builder` holds so far.
pub uninterp spec fn uint8_contents(c: UInt8Column) -> Seq<Option<u8>>;

/// What a `UInt16Builder` holds so far.
pub uninterp spec fn uint16_contents(c: UInt16Column) -> Seq<Option<u16>>;

/// What a `UInt32Builder` holds so far.
pub uninterp spec fn uint32_contents(c: UInt32Column) -> Seq<Option<u32>>;

/// What a `BinaryBuilder` holds so far.
pub uninterp spec fn binary_contents(c: BinaryColumn) -> Seq<Option<Seq<u8>>>;

/// What a finished array holds.
pub uninterp spec fn column_data(c: Column) -> ColumnData;

/// The row numbers of an index array.
pub uninterp spec fn order_rows(o: RowOrder) -> Seq<u32>;

/// The fields of a schema.
pub uninterp spec fn schema_fields(s: Schema) -> Seq<FieldData>;

/// The fields of a record batch's schema.
pub uninterp spec fn table_fields(t: Table) -> Seq<FieldData>;

/// What the columns of a record batch hold.
pub uninterp spec fn table_columns(t: Table) -> Seq<ColumnData>;

/// What each of the columns holds.
pub open spec fn columns_data(columns: Seq<Column>) -> Seq<ColumnData> {
    columns.map_values(|c: Column| column_data(c))
}

/// The layout as plain values.
pub open spec fn fields_view(fields: Seq<ColumnField>) -> Seq<FieldData> {
    fields.map_values(|f: ColumnField| f@)
}

impl Int64Column {
    /// `Int64Builder::new` gives an empty builder.
    #[verifier::external_body]
    pub(crate) fn new() -> (c: Int64Column)
        ensures
            int64_contents(c) == Seq::<Option<i64>>::empty(),
    {
        Int64Column { builder: Int64Builder::new() }
    }

    /// `Int64Builder::append_value` adds the value behind the others.
    #[verifier::external_body]
    pub(crate) fn append_value(&mut self, v: i64)
        ensures
            int64_contents(*final(self)) == int64_contents(*old(self)).push(Some(v)),
    {
        self.builder.append_value(v);
    }

    /// `Int64Builder::finish` makes an array of the builder's items, in order,
    /// and leaves the builder empty.
    #[verifier::external_body]
    pub(crate) fn finish(&mut self) -> (c: Column)
        ensures
            column_data(c) == ColumnData::Int64(int64_contents(*old(self))),
            int64_contents(*final(self)) == Seq::<Option<i64>>::empty(),
    {
        Column { array: Arc::new(self.builder.finish()) }
    }
}

impl UInt8Column {
    /// `UInt8Builder::new` gives an empty builder.
    #[verifier::external_body]
    pub(crate) fn new() -> (c: UInt8Column)
        ensures
            uint8_contents(c) == Seq::<Option<u8>>::empty(),
    {
        UInt8Column { builder: UInt8Builder::new() }
    }

    /// `UInt8Builder::append_value` adds the value behind the others.
    #[verifier::external_body]
    pub(crate) fn append_value(&mut self, v: u8)
        ensures
            uint8_contents(*final(self)) == uint8_contents(*old(self)).push(Some(v)),
    {
        self.builder.append_value(v);
    }

    /// `UInt8Builder::append_option` adds the value, or a null for `None`,
    /// behind the others.
    #[verifier::external_body]
    pub(crate) fn append_option(&mut self, v: Option<u8>)
        ensures
            uint8_contents(*final(self)) == uint8_contents(*old(self)).push(v),
    {
        self.builder.append_option(v);
    }

    /// `UInt8Builder::finish` makes an array of the builder's items, in order,
    /// and leaves the builder empty.
    #[verifier::external_body]
    pub(crate) fn finish(&mut self) -> (c: Column)
        ensures
            column_data(c) == ColumnData::UInt8(uint8_contents(*old(self))),
            uint8_contents(*final(self)) == Seq::<Option<u8>>::empty(),
    {
        Column { array: Arc::new(self.builder.finish()) }
    }
}

impl UInt16Column {
    /// `UInt16Builder::new` gives an empty builder.
    #[verifier::external_body]
    pub(crate) fn new() -> (c: UInt16Column)
        ensures
            uint16_contents(c) == Seq::<Option<u16>>::empty(),
    {
        UInt16Column { builder: UInt16Builder::new() }
    }

    /// `UInt16Builder::append_option` adds the value, or a null for `None`,
    /// behind the others.
    #[verifier::external_body]
    pub(crate) fn append_option(&mut self, v: Option<u16>)
        ensures
            uint16_contents(*final(self)) == uint16_contents(*old(self)).push(v),
    {
        self.builder.append_option(v);
    }

    /// `UInt16Builder::finish` makes an array of the builder's items, in order,
    /// and leaves the builder empty.
    #[verifier::external_body]
    pub(crate) fn finish(&mut self) -> (c: Column)
        ensures
            column_data(c) == ColumnData::UInt16(uint16_contents(*old(self))),
            uint16_contents(*final(self)) == Seq::<Option<u16>>::empty(),
    {
        Column { array: Arc::new(self.builder.finish()) }
    }
}

impl UInt32Column {
    /// `UInt32Builder::new` gives an empty builder.
    #[verifier::external_body]
    pub(crate) fn new() -> (c: UInt32Column)
        ensures
            uint32_contents(c) == Seq::<Option<u32>>::empty(),
    {
        UInt32Column { builder: UInt32Builder::new() }
    }

    /// `UInt32Builder::append_value` adds the value behind the others.
    #[verifier::external_body]
    pub(crate) fn append_value(&mut self, v: u32)
        ensures
            uint32_contents(*final(self)) == uint32_contents(*old(self)).push(Some(v)),
    {
        self.builder.append_value(v);
    }

    /// `UInt32Builder::finish` makes an array of the builder's items, in order,
    /// and leaves the builder empty.
    #[verifier::external_body]
    pub(crate) fn finish(&mut self) -> (c: Column)
        ensures
            column_data(c) == ColumnData::UInt32(uint32_contents(*old(self))),
            uint32_contents(*final(self)) == Seq::<Option<u32>>::empty(),
    {
        Column { array: Arc::new(self.builder.finish()) }
    }
}

impl BinaryColumn {
    /// `BinaryBuilder::new` gives an empty builder.
    #[verifier::external_body]
    pub(crate) fn new() -> (c: BinaryColumn)
        ensures
            binary_contents(c) == Seq::<Option<Seq<u8>>>::empty(),
    {
        BinaryColumn { builder: BinaryBuilder::new() }
    }

    /// `BinaryBuilder::append_value` adds the bytes behind the others. It
    /// addresses the bytes of all its values by a 32-bit signed offset, and
    /// panics where that does not reach.
    #[verifier::external_body]
    pub(crate) fn append_value(&mut self, v: &[u8])
        requires
            total_bytes(binary_contents(*old(self))) + v@.len() <= i32::MAX,
        ensures
            binary_contents(*final(self)) == binary_contents(*old(self)).push(Some(v@)),
    {
        self.builder.append_value(v);
    }

    /// `BinaryBuilder::append_null` adds a null behind the others, under the same
    /// limit.
    #[verifier::external_body]
    pub(crate) fn append_null(&mut self)
        requires
            total_bytes(binary_contents(*old(self))) <= i32::MAX,
        ensures
            binary_contents(*final(self)) == binary_contents(*old(self)).push(None),
    {
        self.builder.append_null();
    }

    /// `BinaryBuilder::finish` makes an array of the builder's items, in order,
    /// and leaves the builder empty.
    #[verifier::external_body]
    pub(crate) fn finish(&mut self) -> (c: Column)
        ensures
            column_data(c) == ColumnData::Binary(binary_contents(*old(self))),
            binary_contents(*final(self)) == Seq::<Option<Seq<u8>>>::empty(),
    {
        Column { array: Arc::new(self.builder.finish()) }
    }
}

/// `Schema::new` of one `Field::new` for each field, in order.
#[verifier::external_body]
pub(crate) fn arrow_schema(fields: &Vec<ColumnField>) -> (schema: Schema)
    ensures
        schema_fields(schema) == fields_view(fields@),
{
    let field = |f: &ColumnField| {
        let data_type = match f.kind {
            ColumnKind::Int64 => DataType::Int64,
            ColumnKind::UInt8 => DataType::UInt8,
            ColumnKind::UInt16 => DataType::UInt16,
            ColumnKind::UInt32 => DataType::UInt32,
            ColumnKind::Binary => DataType::Binary,
            ColumnKind::BinaryView => DataType::BinaryView,
            ColumnKind::Utf8 => DataType::Utf8,
        };
        Field::new(f.name.as_str(), data_type, f.nullable)
    };
    Schema::new(fields.iter().map(field).collect::<Vec<Field>>())
}

/// `RecordBatch::try_new` puts the columns under the schema. It fails where their
/// number, types, lengths or nulls are not as the schema says, or where there is
/// no column. Claimed of schemas whose fields are all of a kind named here.
#[verifier::external_body]
pub(crate) fn record_batch(schema: Schema, columns: Vec<Column>) -> (res: Result<Table, ArrowError>)
    requires
        forall|i: int|
            0 <= i < schema_fields(schema).len() ==> (#[trigger] schema_fields(schema)[i]).kind
                is Some,
    ensures
        res is Ok <==> fits_layout(schema_fields(schema), columns_data(columns@)),
        res matches Ok(t) ==> table_fields(t) == schema_fields(schema) && table_columns(t)
            == columns_data(columns@),
{
    let arrays: Vec<ArrayRef> = columns.into_iter().map(|c| c.array).collect();
    RecordBatch::try_new(Arc::new(schema), arrays).map(|batch| Table { batch })
}

/// What the first column under the given name holds.
pub open spec fn named(fields: Seq<FieldData>, columns: Seq<ColumnData>, name: Seq<char>) -> Option<
    ColumnData,
>
    decreases fields.len(),
{
    if fields.len() == 0 || columns.len() == 0 {
        None
    } else if fields[0].name == name {
        Some(columns[0])
    } else {
        named(fields.skip(1), columns.skip(1), name)
    }
}

impl Table {
    /// `RecordBatch::num_rows` is the length of each of its columns.
    #[verifier::external_body]
    pub(crate) fn num_rows(&self) -> (n: usize)
        ensures
            forall|i: int|
                0 <= i < table_columns(*self).len() ==> (#[trigger] table_columns(*self)[i]).len()
                    == n,
    {
        self.batch.num_rows()
    }

    /// `RecordBatch::column_by_name` is the column of the first field with that
    /// name, if there is one.
    #[verifier::external_body]
    pub(crate) fn column_by_name(&self, name: &str) -> (res: Option<Column>)
        ensures
            match res {
                Some(c) => named(table_fields(*self), table_columns(*self), name@) == Some(
                    column_data(c),
                ),
                None => named(table_fields(*self), table_columns(*self), name@) is None,
            },
    {
        self.batch.column_by_name(name).map(|array| Column { array: array.clone() })
    }

    /// `RecordBatch::columns` are all the columns, in order.
    #[verifier::external_body]
    pub(crate) fn columns(&self) -> (columns: Vec<Column>)
        ensures
            columns_data(columns@) == table_columns(*self),
    {
        self.batch.columns().iter().map(|array| Column { array: array.clone() }).collect()
    }
}

/// Whether `order` names every row of `values` once, the smaller values first.
pub open spec fn sorts(order: Seq<u32>, values: Seq<Option<i64>>) -> bool {
    &&& is_permutation(order, values.len())
    &&& forall|i: int, j: int|
        0 <= i <= j < order.len() ==> (#[trigger] values[order[i] as int])->0 <= (
        #[trigger] values[order[j] as int])->0
}

/// `lexsort_to_indices` by this one column, without a limit and with the default
/// options, names its rows in ascending order. Which of two rows with the same
/// value comes first is left open. Row numbers are 32 bits wide.
#[verifier::external_body]
pub(crate) fn sort_to_indices(column: &Column) -> (res: Result<RowOrder, ArrowError>)
    requires
        column_data(*column) is Int64,
        no_nulls(column_data(*column)->Int64_0),
        column_data(*column).len() <= u32::MAX,
    ensures
        res is Ok,
        res matches Ok(order) ==> sorts(order_rows(order), column_data(*column)->Int64_0),
{
    let by = SortColumn { values: column.array.clone(), options: None };
    lexsort_to_indices(&[by], None).map(|array| RowOrder { array })
}

/// `take` gives the rows that the indices name, in their order. It fails only
/// where the byte strings that it gathers are more than a 32-bit signed offset
/// can address; those of distinct rows of one column never are.
#[verifier::external_body]
pub(crate) fn take_rows(column: &Column, order: &RowOrder) -> (res: Result<Column, ArrowError>)
    requires
        is_permutation(order_rows(*order), column_data(*column).len()),
        !(column_data(*column) is Other),
    ensures
        res is Ok,
        res matches Ok(c) ==> column_data(c) == column_data(*column).reordered(order_rows(*order)),
{
    take(&column.array, &order.array, None).map(|array| Column { array })
}

impl Column {
    /// The values of a `StringArray`; nothing for a column of another type. What
    /// stands in place of a null is left open.
    #[verifier::external_body]
    pub(crate) fn strings(&self) -> (res: Option<Vec<String>>)
        ensures
            match res {
                Some(v) => column_data(*self) matches ColumnData::Utf8(s) && v@.len() == s.len()
                    && forall|i: int|
                    0 <= i < s.len() && s[i] is Some ==> (#[trigger] v@[i])@ == s[i]->0,
                None => !(column_data(*self) is Utf8),
            },
    {
        let array = self.array.as_any().downcast_ref::<StringArray>()?;
        Some((0..array.len()).map(|i| array.value(i).to_string()).collect())
    }

    /// The values and nulls of a `BinaryViewArray`; nothing for a column of another
    /// type.
    #[verifier::external_body]
    pub(crate) fn binary_views(&self) -> (res: Option<Vec<Option<Vec<u8>>>>)
        ensures
            match res {
                Some(v) => column_data(*self) == ColumnData::BinaryView(options_view(v@)),
                None => !(column_data(*self) is BinaryView),
            },
    {
        let array = self.array.as_any().downcast_ref::<BinaryViewArray>()?;
        Some(array.iter().map(|v| v.map(|bytes| bytes.to_vec())).collect())
    }

    /// The values and nulls of a `UInt16Array`; nothing for a column of another
    /// type.
    #[verifier::external_body]
    pub(crate) fn uint16s(&self) -> (res: Option<Vec<Option<u16>>>)
        ensures
            match res {
                Some(v) => column_data(*self) == ColumnData::UInt16(v@),
                None => !(column_data(*self) is UInt16),
            },
    {
        let array = self.array.as_any().downcast_ref::<UInt16Array>()?;
        Some(array.iter().collect())
    }

    /// The values of a `UInt8Array`; nothing for a column of another type. What
    /// stands in place of a null is left open.
    #[verifier::external_body]
    pub(crate) fn uint8_values(&self) -> (res: Option<Vec<u8>>)
        ensures
            match res {
                Some(v) => column_data(*self) matches ColumnData::UInt8(s) && v@.len() == s.len()
                    && forall|i: int|
                    0 <= i < s.len() && s[i] is Some ==> Some(#[trigger] v@[i]) == s[i],
                None => !(column_data(*self) is UInt8),
            },
    {
        let array = self.array.as_any().downcast_ref::<UInt8Array>()?;
        Some(array.values().to_vec())
    }

    /// The values of an `Int64Array`; nothing for a column of another type. What
    /// stands in place of a null is left open.
    #[verifier::external_body]
    pub(crate) fn int64_values(&self) -> (res: Option<Vec<i64>>)
        ensures
            match res {
                Some(v) => column_data(*self) matches ColumnData::Int64(s) && v@.len() == s.len()
                    && forall|i: int|
                    0 <= i < s.len() && s[i] is Some ==> Some(#[trigger] v@[i]) == s[i],
                None => !(column_data(*self) is Int64),
            },
    {
        let array = self.array.as_any().downcast_ref::<Int64Array>()?;
        Some(array.values().to_vec())
    }
}

/// Byte strings and nulls as plain values.
pub open spec fn options_view(s: Seq<Option<Vec<u8>>>) -> Seq<Option<Seq<u8>>> {
    s.map_values(
        |v: Option<Vec<u8>>|
            match v {
                Some(bytes) => Some(bytes@),
                None => None,
            },
    )
}

} // verus!
