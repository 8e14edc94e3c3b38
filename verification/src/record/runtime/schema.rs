//! The schema of a table whose columns are declared at run time.

use parquet::format::SortingColumn;
use parquet::schema::types::ColumnPath;
use vstd::prelude::*;

use crate::record::runtime::value::{DataType, ValueDesc, ValueDescView};

verus! {

/// Parquet's description of one sort column of a row group: the position of
/// the column, whether it sorts in descending order, and whether nulls come
/// first.
#[verifier::external_type_specification]
pub struct ExSortingColumn(SortingColumn);

/// Parquet's path of a column: the names from the root of the schema down.
#[verifier::external_type_specification]
#[verifier::external_body]
pub struct ExColumnPath(ColumnPath);

/// The names that a column path holds, from the first to the last.
pub uninterp spec fn column_path_parts(path: ColumnPath) -> Seq<Seq<char>>;

/// `SortingColumn::new` stores its three arguments in the fields of the same
/// names.
pub assume_specification[ SortingColumn::new ](
    column_idx: i32,
    descending: bool,
    nulls_first: bool,
) -> (r: SortingColumn)
    ensures
        r.column_idx == column_idx,
        r.descending == descending,
        r.nulls_first == nulls_first,
;

/// `ColumnPath::new` makes the path whose parts are the given names, in the
/// given order.
pub assume_specification[ ColumnPath::new ](parts: Vec<String>) -> (r: ColumnPath)
    ensures
        column_path_parts(r) == parts.deep_view(),
;

/// The digit `d`, below ten, as a character.
pub open spec fn digit_char(d: nat) -> char {
    if d == 0 {
        '0'
    } else if d == 1 {
        '1'
    } else if d == 2 {
        '2'
    } else if d == 3 {
        '3'
    } else if d == 4 {
        '4'
    } else if d == 5 {
        '5'
    } else if d == 6 {
        '6'
    } else if d == 7 {
        '7'
    } else if d == 8 {
        '8'
    } else {
        '9'
    }
}

/// `n` written in decimal, without leading zeros.
pub open spec fn decimal(n: nat) -> Seq<char>
    decreases n,
{
    if n < 10 {
        seq![digit_char(n)]
    } else {
        decimal(n / 10).push(digit_char(n % 10))
    }
}

/// The numbers of `indices` in decimal, separated by commas.
pub open spec fn comma_joined(indices: Seq<usize>) -> Seq<char>
    decreases indices.len(),
{
    if indices.len() == 0 {
        Seq::empty()
    } else if indices.len() == 1 {
        decimal(indices[0] as nat)
    } else {
        comma_joined(indices.drop_last()) + seq![','] + decimal(indices.last() as nat)
    }
}

/// The number that the digit `c` stands for.
pub open spec fn digit_value(c: char) -> nat {
    if c == '0' {
        0
    } else if c == '1' {
        1
    } else if c == '2' {
        2
    } else if c == '3' {
        3
    } else if c == '4' {
        4
    } else if c == '5' {
        5
    } else if c == '6' {
        6
    } else if c == '7' {
        7
    } else if c == '8' {
        8
    } else {
        9
    }
}

/// The number that the digits of `text` write in decimal.
pub open spec fn decimal_value(text: Seq<char>) -> nat
    decreases text.len(),
{
    if text.len() == 0 {
        0
    } else {
        10 * decimal_value(text.drop_last()) + digit_value(text.last())
    }
}

/// What comes before the last number in the text of `indices`: the text of
/// the numbers before it and a comma, or nothing where there is one number
/// only.
pub open spec fn joined_front(indices: Seq<usize>) -> Seq<char> {
    if indices.len() <= 1 {
        Seq::empty()
    } else {
        comma_joined(indices.drop_last()) + seq![',']
    }
}

/// A number in decimal has at least one digit and no comma, and is read
/// back as the number.
pub proof fn lemma_decimal(n: nat)
    ensures
        decimal(n).len() >= 1,
        forall|i: int| 0 <= i < decimal(n).len() ==> decimal(n)[i] != ',',
        decimal_value(decimal(n)) == n,
    decreases n,
{
    if n < 10 {
        assert(decimal(n).drop_last() == Seq::<char>::empty());
        assert(decimal_value(Seq::<char>::empty()) == 0);
    } else {
        lemma_decimal(n / 10);
        assert(decimal(n).drop_last() == decimal(n / 10));
    }
}

/// The text of a list of indices ends with its last number, after what
/// [`joined_front`] says, and is empty for the empty list only.
pub proof fn lemma_comma_joined_ends(indices: Seq<usize>)
    ensures
        indices.len() == 0 <==> comma_joined(indices).len() == 0,
        indices.len() >= 1 ==> comma_joined(indices) == joined_front(indices) + decimal(
            indices.last() as nat,
        ),
{
    if indices.len() >= 1 {
        lemma_decimal(indices.last() as nat);
        if indices.len() == 1 {
            assert(indices.last() == indices[0]);
            assert(Seq::<char>::empty() + decimal(indices.last() as nat) == decimal(
                indices.last() as nat,
            ));
        }
    }
}

/// Lists of indices with the same text are the same list: the text in which
/// a table's files record the primary key says which columns make it up.
pub proof fn lemma_comma_joined_injective(a: Seq<usize>, b: Seq<usize>)
    requires
        comma_joined(a) == comma_joined(b),
    ensures
        a == b,
    decreases a.len(),
{
    lemma_comma_joined_ends(a);
    lemma_comma_joined_ends(b);
    if a.len() == 0 {
        assert(a == b);
    } else {
        let text = comma_joined(a);
        let front_a = joined_front(a);
        let front_b = joined_front(b);
        let last_a = decimal(a.last() as nat);
        let last_b = decimal(b.last() as nat);
        lemma_decimal(a.last() as nat);
        lemma_decimal(b.last() as nat);
        assert(text == front_a + last_a);
        assert(text == front_b + last_b);
        if front_a.len() > front_b.len() {
            let at = front_a.len() - 1;
            assert(front_a[at] == ',');
            assert(text[at] == front_a[at]);
            assert(text[at] == last_b[at - front_b.len()]);
            assert(false);
        }
        if front_b.len() > front_a.len() {
            let at = front_b.len() - 1;
            assert(front_b[at] == ',');
            assert(text[at] == front_b[at]);
            assert(text[at] == last_a[at - front_a.len()]);
            assert(false);
        }
        assert(front_a == text.subrange(0, front_a.len() as int));
        assert(front_b == text.subrange(0, front_b.len() as int));
        assert(last_a == text.subrange(front_a.len() as int, text.len() as int));
        assert(last_b == text.subrange(front_b.len() as int, text.len() as int));
        assert(a.last() == b.last());
        if a.len() == 1 {
            assert(b.len() == 1);
            assert(a == b);
        } else {
            assert(b.len() > 1);
            let rest_a = comma_joined(a.drop_last());
            let rest_b = comma_joined(b.drop_last());
            assert(rest_a == front_a.drop_last());
            assert(rest_b == front_b.drop_last());
            lemma_comma_joined_injective(a.drop_last(), b.drop_last());
            assert(a == a.drop_last().push(a.last()));
            assert(b == b.drop_last().push(b.last()));
        }
    }
}

/// `String::push`: the string afterwards is the string before, followed by
/// `c`.
#[verifier::external_body]
fn push_char(text: &mut String, c: char)
    ensures
        final(text)@ == old(text)@.push(c),
{
    text.push(c);
}

fn digit(d: usize) -> (c: char)
    requires
        d < 10,
    ensures
        c == digit_char(d as nat),
{
    if d == 0 {
        '0'
    } else if d == 1 {
        '1'
    } else if d == 2 {
        '2'
    } else if d == 3 {
        '3'
    } else if d == 4 {
        '4'
    } else if d == 5 {
        '5'
    } else if d == 6 {
        '6'
    } else if d == 7 {
        '7'
    } else if d == 8 {
        '8'
    } else {
        '9'
    }
}

fn push_decimal(text: &mut String, n: usize)
    ensures
        final(text)@ == old(text)@ + decimal(n as nat),
    decreases n,
{
    if n >= 10 {
        push_decimal(text, n / 10);
    }
    push_char(text, digit(n % 10));
}

/// The positions in `indices`, in decimal and separated by commas: the form
/// in which a table's files record which columns make up its primary key.
pub fn join_indices(indices: &Vec<usize>) -> (text: String)
    ensures
        text@ == comma_joined(indices@),
{
    let mut text = String::new();
    let mut i: usize = 0;
    while i < indices.len()
        invariant
            i <= indices.len(),
            text@ == comma_joined(indices@.take(i as int)),
        decreases indices.len() - i,
    {
        if i > 0 {
            push_char(&mut text, ',');
        }
        push_decimal(&mut text, indices[i]);
        proof {
            let next = indices@.take(i + 1);
            assert(next.drop_last() == indices@.take(i as int));
            assert(next.last() == indices@[i as int]);
        }
        i += 1;
    }
    proof {
        assert(indices@.take(i as int) == indices@);
    }
    text
}

/// The name of the reserved column that marks a row as deleted.
pub open spec fn null_column_name() -> Seq<char> {
    "_null"@
}

/// The name of the reserved column that holds a row's sequence number.
pub open spec fn ts_column_name() -> Seq<char> {
    "_ts"@
}

/// The key under which a table's files record its primary key columns.
pub open spec fn primary_key_metadata_key() -> Seq<char> {
    "primary_key_index"@
}

/// How many reserved columns lead the physical layout.
pub const RESERVED_COLUMNS: usize = 2;

/// The greatest number of columns that a table may declare: every physical
/// position has to fit the 32-bit column index of a sort column.
pub const MAX_COLUMNS: usize = 0x7fff_fffd;

/// Why a declaration of columns and primary key is no schema.
#[derive(Debug, Clone, Copy, PartialEq, Eq, Structural)]
pub enum SchemaError {
    /// More columns than [`MAX_COLUMNS`].
    TooManyColumns,
    /// A column bears the name of a reserved column.
    ReservedName,
    /// Two columns share a name.
    DuplicateColumn,
    /// A primary key index is not the position of a declared column.
    PrimaryIndexOutOfRange,
}

/// The columns of a table as they are laid out in its files, with the
/// metadata that goes with them.
#[derive(Debug, Clone)]
pub struct PhysicalSchema {
    pub fields: Vec<ValueDesc>,
    pub metadata: Vec<(String, String)>,
}

/// What a [`PhysicalSchema`] holds.
pub struct PhysicalSchemaView {
    pub fields: Seq<ValueDescView>,
    pub metadata: Seq<(Seq<char>, Seq<char>)>,
}

impl View for PhysicalSchema {
    type V = PhysicalSchemaView;

    open spec fn view(&self) -> PhysicalSchemaView {
        PhysicalSchemaView {
            fields: self.fields@.map_values(|d: ValueDesc| d@),
            metadata: self.metadata@.map_values(|e: (String, String)| (e.0@, e.1@)),
        }
    }
}

/// `name` is the name of one of the two reserved columns.
pub open spec fn is_reserved(name: Seq<char>) -> bool {
    name == null_column_name() || name == ts_column_name()
}

/// None of `columns` bears the name of a reserved column.
pub open spec fn names_free(columns: Seq<ValueDescView>) -> bool {
    forall|i: int| 0 <= i < columns.len() ==> !is_reserved((#[trigger] columns[i]).name)
}

/// No two of `columns` share a name.
pub open spec fn names_unique(columns: Seq<ValueDescView>) -> bool {
    forall|i: int, j: int|
        0 <= i < j < columns.len() ==> (#[trigger] columns[i]).name != (#[trigger] columns[j]).name
}

/// Every one of `primary_index` is a position in a list of `count` columns.
pub open spec fn indices_in_range(primary_index: Seq<usize>, count: nat) -> bool {
    forall|i: int| 0 <= i < primary_index.len() ==> (#[trigger] primary_index[i]) < count
}

/// What is wrong with a declaration, if anything: too many columns comes
/// before a reserved name, that before a repeated name, and that before an
/// index out of range.
pub open spec fn declaration_error(
    columns: Seq<ValueDescView>,
    primary_index: Seq<usize>,
) -> Option<SchemaError> {
    if columns.len() > MAX_COLUMNS {
        Some(SchemaError::TooManyColumns)
    } else if !names_free(columns) {
        Some(SchemaError::ReservedName)
    } else if !names_unique(columns) {
        Some(SchemaError::DuplicateColumn)
    } else if !indices_in_range(primary_index, columns.len()) {
        Some(SchemaError::PrimaryIndexOutOfRange)
    } else {
        None
    }
}

/// The physical columns of a table that declares `columns`: the deletion
/// marker and the sequence number, neither nullable, then the declared
/// columns in their order.
pub open spec fn physical_fields(columns: Seq<ValueDescView>) -> Seq<ValueDescView> {
    seq![
        ValueDescView { name: null_column_name(), datatype: DataType::Boolean, is_nullable: false },
        ValueDescView { name: ts_column_name(), datatype: DataType::UInt32, is_nullable: false },
    ] + columns
}

/// The physical layout of a table that declares `columns` with the primary
/// key `primary_index`: its physical columns, and one metadata entry that
/// records the primary key positions as they were declared.
pub open spec fn physical_schema(
    columns: Seq<ValueDescView>,
    primary_index: Seq<usize>,
) -> PhysicalSchemaView {
    PhysicalSchemaView {
        fields: physical_fields(columns),
        metadata: seq![(primary_key_metadata_key(), comma_joined(primary_index))],
    }
}

/// The physical columns of a declaration without fault bear names that
/// differ from one another, the reserved ones included.
pub proof fn lemma_physical_names_unique(columns: Seq<ValueDescView>, primary_index: Seq<usize>)
    requires
        declaration_error(columns, primary_index) is None,
    ensures
        names_unique(physical_fields(columns)),
{
    reveal_strlit("_null");
    reveal_strlit("_ts");
    let fields = physical_fields(columns);
    assert(null_column_name() != ts_column_name()) by {
        assert(null_column_name().len() == 5);
        assert(ts_column_name().len() == 3);
    }
    assert forall|i: int, j: int| 0 <= i < j < fields.len() implies (#[trigger] fields[i]).name != (
    #[trigger] fields[j]).name by {
        if j >= 2 {
            assert(fields[j] == columns[j - 2]);
            if i >= 2 {
                assert(fields[i] == columns[i - 2]);
            }
        }
    }
}

/// The physical positions of the primary key columns: each declared
/// position, moved past the reserved columns.
pub open spec fn shifted(primary_index: Seq<usize>) -> Seq<int> {
    Seq::new(primary_index.len(), |i: int| primary_index[i] + RESERVED_COLUMNS)
}

/// The names of the sort columns: the sequence number, then the primary key
/// columns in the order of `primary_index`.
pub open spec fn sort_path(columns: Seq<ValueDescView>, primary_index: Seq<usize>) -> Seq<
    Seq<char>,
> {
    seq![ts_column_name()] + Seq::new(
        primary_index.len(),
        |i: int| columns[primary_index[i] as int].name,
    )
}

/// Whether `sorting` is the sort order of a table with the primary key
/// `primary_index`: first the sequence number at physical position 1,
/// descending, then each primary key column at its physical position,
/// ascending; nulls last throughout.
pub open spec fn is_sort_order(sorting: Seq<SortingColumn>, primary_index: Seq<usize>) -> bool {
    &&& sorting.len() == primary_index.len() + 1
    &&& sorting[0].column_idx == 1
    &&& sorting[0].descending
    &&& !sorting[0].nulls_first
    &&& forall|i: int|
        0 <= i < primary_index.len() ==> {
            &&& (#[trigger] sorting[i + 1]).column_idx == primary_index[i] + RESERVED_COLUMNS
            &&& !sorting[i + 1].descending
            &&& !sorting[i + 1].nulls_first
        }
}

/// The schema of a table whose columns are declared at run time: the
/// declared columns, the positions among them of the primary key columns,
/// and the physical layout derived from both.
#[derive(Debug)]
pub struct DynSchema {
    schema: Vec<ValueDesc>,
    primary_index: Vec<usize>,
    arrow_schema: PhysicalSchema,
}

fn has_reserved_name(columns: &Vec<ValueDesc>) -> (found: bool)
    ensures
        found == !names_free(columns@.map_values(|d: ValueDesc| d@)),
{
    let ghost views = columns@.map_values(|d: ValueDesc| d@);
    let null = "_null".to_string();
    let ts = "_ts".to_string();
    let mut i: usize = 0;
    while i < columns.len()
        invariant
            i <= columns.len(),
            views == columns@.map_values(|d: ValueDesc| d@),
            null@ == null_column_name(),
            ts@ == ts_column_name(),
            forall|a: int| 0 <= a < i ==> !is_reserved(views[a].name),
        decreases columns.len() - i,
    {
        if columns[i].name == null || columns[i].name == ts {
            assert(is_reserved(views[i as int].name));
            return true;
        }
        i += 1;
    }
    false
}

fn has_duplicate_name(columns: &Vec<ValueDesc>) -> (found: bool)
    ensures
        found == !names_unique(columns@.map_values(|d: ValueDesc| d@)),
{
    let ghost views = columns@.map_values(|d: ValueDesc| d@);
    let mut j: usize = 0;
    while j < columns.len()
        invariant
            j <= columns.len(),
            views == columns@.map_values(|d: ValueDesc| d@),
            forall|a: int, b: int| 0 <= a < b < j ==> views[a].name != views[b].name,
        decreases columns.len() - j,
    {
        let mut i: usize = 0;
        while i < j
            invariant
                i <= j < columns.len(),
                views == columns@.map_values(|d: ValueDesc| d@),
                forall|a: int| 0 <= a < i ==> views[a].name != views[j as int].name,
            decreases j - i,
        {
            if columns[i].name == columns[j].name {
                assert(views[i as int].name == views[j as int].name);
                return true;
            }
            i += 1;
        }
        j += 1;
    }
    false
}

fn all_in_range(primary_index: &Vec<usize>, count: usize) -> (ok: bool)
    ensures
        ok == indices_in_range(primary_index@, count as nat),
{
    let mut i: usize = 0;
    while i < primary_index.len()
        invariant
            i <= primary_index.len(),
            forall|a: int| 0 <= a < i ==> primary_index@[a] < count,
        decreases primary_index.len() - i,
    {
        if primary_index[i] >= count {
            return false;
        }
        i += 1;
    }
    true
}

impl DynSchema {
    /// The declared columns, in the order of their declaration.
    pub closed spec fn columns(&self) -> Seq<ValueDescView> {
        self.schema@.map_values(|d: ValueDesc| d@)
    }

    /// The positions among the declared columns of the primary key columns.
    pub closed spec fn primary_index(&self) -> Seq<usize> {
        self.primary_index@
    }

    /// The physical layout that the schema holds.
    pub closed spec fn layout(&self) -> PhysicalSchemaView {
        self.arrow_schema@
    }

    #[verifier::type_invariant]
    spec fn well_formed(&self) -> bool {
        &&& declaration_error(self.columns(), self.primary_index()) is None
        &&& self.layout() == physical_schema(self.columns(), self.primary_index())
    }

    /// The schema of the table that declares the columns `schema`, of which
    /// those at the positions `primary_index` make up the primary key, in
    /// that order, with the physical layout that follows from both. A
    /// declaration that [`declaration_error`] finds fault with is refused
    /// with that fault.
    pub fn new(schema: Vec<ValueDesc>, primary_index: Vec<usize>) -> (r: Result<Self, SchemaError>)
        ensures
            match r {
                Ok(s) => {
                    &&& declaration_error(
                        schema@.map_values(|d: ValueDesc| d@),
                        primary_index@,
                    ) is None
                    &&& s.columns() == schema@.map_values(|d: ValueDesc| d@)
                    &&& s.primary_index() == primary_index@
                    &&& s.layout() == physical_schema(s.columns(), s.primary_index())
                },
                Err(e) => declaration_error(
                    schema@.map_values(|d: ValueDesc| d@),
                    primary_index@,
                ) == Some(e),
            },
    {
        if schema.len() > MAX_COLUMNS {
            return Err(SchemaError::TooManyColumns);
        }
        if has_reserved_name(&schema) {
            return Err(SchemaError::ReservedName);
        }
        if has_duplicate_name(&schema) {
            return Err(SchemaError::DuplicateColumn);
        }
        if !all_in_range(&primary_index, schema.len()) {
            return Err(SchemaError::PrimaryIndexOutOfRange);
        }
        let primary_key = join_indices(&primary_index);
        let mut metadata: Vec<(String, String)> = Vec::new();
        metadata.push(("primary_key_index".to_string(), primary_key));
        let mut fields: Vec<ValueDesc> = Vec::new();
        fields.push(ValueDesc::new("_null".to_string(), DataType::Boolean, false));
        fields.push(ValueDesc::new("_ts".to_string(), DataType::UInt32, false));
        let ghost columns = schema@.map_values(|d: ValueDesc| d@);
        let mut i: usize = 0;
        while i < schema.len()
            invariant
                i <= schema.len(),
                columns == schema@.map_values(|d: ValueDesc| d@),
                fields@.map_values(|d: ValueDesc| d@) == physical_fields(columns.take(i as int)),
            decreases schema.len() - i,
        {
            let ghost before = fields@.map_values(|d: ValueDesc| d@);
            fields.push(schema[i].duplicate());
            proof {
                assert(fields@.map_values(|d: ValueDesc| d@) =~= before.push(columns[i as int]));
                assert(physical_fields(columns.take(i + 1)) =~= physical_fields(
                    columns.take(i as int),
                ).push(columns[i as int]));
            }
            i += 1;
        }
        proof {
            assert(columns.take(i as int) == columns);
        }
        let arrow_schema = PhysicalSchema { fields, metadata };
        proof {
            assert(arrow_schema@.metadata == seq![
                (primary_key_metadata_key(), comma_joined(primary_index@)),
            ]);
        }
        Ok(Self { schema, primary_index, arrow_schema })
    }

    /// The physical layout of the table. A schema holds a declaration
    /// without fault, whichever way it was come by.
    pub fn arrow_schema(&self) -> (r: &PhysicalSchema)
        ensures
            r@ == self.layout(),
            self.layout() == physical_schema(self.columns(), self.primary_index()),
            declaration_error(self.columns(), self.primary_index()) is None,
    {
        proof {
            use_type_invariant(self);
        }
        &self.arrow_schema
    }

    /// The physical positions of the primary key columns, in the order of
    /// the declaration.
    pub fn primary_key_index(&self) -> (r: Vec<usize>)
        ensures
            r@.map_values(|p: usize| p as int) == shifted(self.primary_index()),
    {
        proof {
            use_type_invariant(self);
        }
        let mut positions: Vec<usize> = Vec::new();
        let mut i: usize = 0;
        while i < self.primary_index.len()
            invariant
                i <= self.primary_index.len(),
                indices_in_range(self.primary_index@, MAX_COLUMNS as nat),
                positions@.len() == i,
                forall|a: int|
                    0 <= a < i ==> positions@[a] == self.primary_index@[a] + RESERVED_COLUMNS,
            decreases self.primary_index.len() - i,
        {
            positions.push(self.primary_index[i] + RESERVED_COLUMNS);
            i += 1;
        }
        proof {
            assert(positions@.map_values(|p: usize| p as int) == shifted(self.primary_index()));
        }
        positions
    }

    /// The sort order of the table's files: the path of the sort columns
    /// and, for each of them, its physical position and direction. Rows are
    /// thereby grouped by primary key, the latest version of a key first.
    pub fn primary_key_path(&self) -> (r: (ColumnPath, Vec<SortingColumn>))
        ensures
            column_path_parts(r.0) == sort_path(self.columns(), self.primary_index()),
            is_sort_order(r.1@, self.primary_index()),
    {
        proof {
            use_type_invariant(self);
        }
        let mut column_path: Vec<String> = Vec::new();
        let mut sorting_column: Vec<SortingColumn> = Vec::new();
        column_path.push("_ts".to_string());
        sorting_column.push(SortingColumn::new(1_i32, true, false));
        let mut i: usize = 0;
        while i < self.primary_index.len()
            invariant
                i <= self.primary_index.len(),
                self.schema@.len() <= MAX_COLUMNS,
                indices_in_range(self.primary_index@, self.schema@.len()),
                column_path.deep_view() == sort_path(
                    self.columns(),
                    self.primary_index().take(i as int),
                ),
                is_sort_order(sorting_column@, self.primary_index().take(i as int)),
            decreases self.primary_index.len() - i,
        {
            let idx = self.primary_index[i];
            let ghost path_before = column_path.deep_view();
            column_path.push(self.schema[idx].name.clone());
            sorting_column.push(SortingColumn::new((idx + RESERVED_COLUMNS) as i32, false, false));
            proof {
                let before = self.primary_index().take(i as int);
                let after = self.primary_index().take(i + 1);
                let name = self.columns()[idx as int].name;
                assert(column_path.deep_view() =~= path_before.push(name));
                assert(sort_path(self.columns(), after) =~= sort_path(self.columns(), before).push(
                    name,
                ));
                assert forall|a: int| 0 <= a < after.len() implies {
                    &&& (#[trigger] sorting_column@[a + 1]).column_idx == after[a]
                        + RESERVED_COLUMNS
                    &&& !sorting_column@[a + 1].descending
                    &&& !sorting_column@[a + 1].nulls_first
                } by {
                    if a < i {
                        assert(after[a] == before[a]);
                    }
                }
            }
            i += 1;
        }
        proof {
            assert(self.primary_index().take(i as int) == self.primary_index());
        }
        (ColumnPath::new(column_path), sorting_column)
    }
}

} // verus!
