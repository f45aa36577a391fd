use vstd::prelude::*;

verus! {

/// A column value as the logic sees it. A float is held as its IEEE-754 bit
/// pattern (`f64::to_bits`).
#[derive(Debug, Clone, PartialEq)]
pub enum Value {
    Null,
    Int(i64),
    Float(u64),
    String(String),
    Bool(bool),
}

/// Mathematical model of a `Value`.
pub enum ValueV {
    Null,
    Int(i64),
    Float(u64),
    Str(Seq<char>),
    Bool(bool),
}

impl View for Value {
    type V = ValueV;

    open spec fn view(&self) -> ValueV {
        match self {
            Value::Null => ValueV::Null,
            Value::Int(n) => ValueV::Int(*n),
            Value::Float(f) => ValueV::Float(*f),
            Value::String(s) => ValueV::Str(s@),
            Value::Bool(b) => ValueV::Bool(*b),
        }
    }
}

impl Value {
    /// The integer as an `i32`, truncated to its low 32 bits; `None` for
    /// other variants.
    pub fn as_i32(&self) -> (r: Option<i32>)
        ensures
            self is Int ==> r == Some(self->Int_0 as i32),
            !(self is Int) ==> r is None,
    {
        match self {
            Value::Int(n) => Some(#[verifier::truncate] (*n as i32)),
            _ => None,
        }
    }
}

pub open spec fn values_view(vs: Seq<Value>) -> Seq<ValueV> {
    vs.map_values(|v: Value| v@)
}

/// A row: an ordered list of values.
#[derive(Debug, Clone)]
pub struct Row {
    pub values: Vec<Value>,
}

impl View for Row {
    type V = Seq<ValueV>;

    open spec fn view(&self) -> Seq<ValueV> {
        values_view(self.values@)
    }
}

impl Row {
    pub fn new(values: Vec<Value>) -> (r: Row)
        ensures
            r.values@ == values@,
    {
        Row { values }
    }

    pub fn get(&self, idx: usize) -> (r: Option<&Value>)
        ensures
            idx < self.values@.len() ==> r == Some(&self.values@[idx as int]),
            idx >= self.values@.len() ==> r is None,
    {
        if idx < self.values.len() {
            Some(&self.values[idx])
        } else {
            None
        }
    }

    pub fn len(&self) -> (r: usize)
        ensures
            r == self.values@.len(),
    {
        self.values.len()
    }

    pub fn is_empty(&self) -> (r: bool)
        ensures
            r == (self.values@.len() == 0),
    {
        self.values.len() == 0
    }
}

/// SQL data types.
#[derive(Debug, Clone, Copy, PartialEq, Eq, Structural)]
pub enum DataType {
    Int,
    Float,
    String,
    Bool,
    Null,
}

/// Column metadata.
#[derive(Debug, Clone)]
pub struct Column {
    pub name: String,
    pub data_type: DataType,
}

impl View for Column {
    type V = (Seq<char>, DataType);

    open spec fn view(&self) -> (Seq<char>, DataType) {
        (self.name@, self.data_type)
    }
}

pub open spec fn columns_view(cs: Seq<Column>) -> Seq<(Seq<char>, DataType)> {
    cs.map_values(|c: Column| c@)
}

/// ASCII lower case of a byte; other bytes are unchanged.
pub open spec fn ascii_lower(b: u8) -> u8 {
    if 65 <= b <= 90 {
        (b + 32) as u8
    } else {
        b
    }
}

/// Equality of two byte strings up to ASCII case.
pub open spec fn eq_ignore_ascii_case(a: Seq<u8>, b: Seq<u8>) -> bool {
    a.len() == b.len() && forall|i: int| 0 <= i < a.len() ==> ascii_lower(#[trigger] a[i]) == ascii_lower(b[i])
}

/// The UTF-8 bytes of a string.
pub open spec fn utf8(s: Seq<char>) -> Seq<u8> {
    vstd::utf8::encode_utf8(s)
}

fn lower_byte(b: u8) -> (r: u8)
    ensures
        r == ascii_lower(b),
{
    if 65 <= b && b <= 90 {
        b + 32
    } else {
        b
    }
}

/// Whether two strings are equal up to ASCII case, compared byte by byte.
pub fn names_match(a: &str, b: &str) -> (r: bool)
    ensures
        r == eq_ignore_ascii_case(utf8(a@), utf8(b@)),
{
    let x = a.as_bytes();
    let y = b.as_bytes();
    if x.len() != y.len() {
        return false;
    }
    let mut i: usize = 0;
    while i < x.len()
        invariant
            x@ == utf8(a@),
            y@ == utf8(b@),
            x@.len() == y@.len(),
            i <= x@.len(),
            forall|k: int| 0 <= k < i ==> ascii_lower(#[trigger] x@[k]) == ascii_lower(y@[k]),
        decreases x@.len() - i,
    {
        if lower_byte(x[i]) != lower_byte(y[i]) {
            return false;
        }
        i = i + 1;
    }
    true
}

/// Table schema: its columns in order.
#[derive(Debug, Clone)]
pub struct Schema {
    pub columns: Vec<Column>,
}

impl View for Schema {
    type V = Seq<(Seq<char>, DataType)>;

    open spec fn view(&self) -> Seq<(Seq<char>, DataType)> {
        columns_view(self.columns@)
    }
}

impl Schema {
    pub fn new(columns: Vec<Column>) -> (r: Schema)
        ensures
            r.columns@ == columns@,
    {
        Schema { columns }
    }

    /// Position of the first column whose name equals `name` up to ASCII case.
    pub fn get_column_index(&self, name: &str) -> (r: Option<usize>)
        ensures
            r matches Some(i) ==> i < self.columns@.len() && eq_ignore_ascii_case(
                utf8(self.columns@[i as int].name@),
                utf8(name@),
            ) && forall|k: int| 0 <= k < i ==> !eq_ignore_ascii_case(
                utf8(#[trigger] self.columns@[k].name@),
                utf8(name@),
            ),
            r is None ==> forall|k: int| 0 <= k < self.columns@.len() ==> !eq_ignore_ascii_case(
                utf8(#[trigger] self.columns@[k].name@),
                utf8(name@),
            ),
    {
        let mut i: usize = 0;
        while i < self.columns.len()
            invariant
                i <= self.columns@.len(),
                forall|k: int| 0 <= k < i ==> !eq_ignore_ascii_case(
                    utf8(#[trigger] self.columns@[k].name@),
                    utf8(name@),
                ),
            decreases self.columns@.len() - i,
        {
            if names_match(self.columns[i].name.as_str(), name) {
                return Some(i);
            }
            i = i + 1;
        }
        None
    }

    pub fn len(&self) -> (r: usize)
        ensures
            r == self.columns@.len(),
    {
        self.columns.len()
    }

    pub fn is_empty(&self) -> (r: bool)
        ensures
            r == (self.columns@.len() == 0),
    {
        self.columns.len() == 0
    }
}

/// Whether two strings are equal, compared byte by byte.
pub fn names_equal(a: &str, b: &str) -> (r: bool)
    ensures
        r == (a@ == b@),
{
    let x = a.as_bytes();
    let y = b.as_bytes();
    proof {
        vstd::utf8::encode_utf8_decode_utf8(a@);
        vstd::utf8::encode_utf8_decode_utf8(b@);
    }
    if x.len() != y.len() {
        return false;
    }
    let mut i: usize = 0;
    while i < x.len()
        invariant
            x@ == utf8(a@),
            y@ == utf8(b@),
            x@.len() == y@.len(),
            i <= x@.len(),
            forall|k: int| 0 <= k < i ==> #[trigger] x@[k] == y@[k],
        decreases x@.len() - i,
    {
        if x[i] != y[i] {
            return false;
        }
        i = i + 1;
    }
    assert(x@ =~= y@);
    true
}

/// A copy of a schema, column by column.
pub fn copy_schema(s: &Schema) -> (r: Schema)
    ensures
        r@ == s@,
{
    let mut columns: Vec<Column> = Vec::new();
    let mut i: usize = 0;
    while i < s.columns.len()
        invariant
            i <= s.columns@.len(),
            columns_view(columns@) == columns_view(s.columns@.subrange(0, i as int)),
        decreases s.columns@.len() - i,
    {
        let c = &s.columns[i];
        let name = c.name.clone();
        let copy = Column { name, data_type: c.data_type };
        assert(copy@ == c@);
        let ghost before = columns@;
        columns.push(copy);
        proof {
            assert(columns_view(columns@) =~= columns_view(before).push(copy@));
            assert(columns_view(s.columns@.subrange(0, i + 1)) =~= columns_view(s.columns@.subrange(0, i as int)).push(c@));
        }
        i = i + 1;
    }
    assert(s.columns@.subrange(0, s.columns@.len() as int) =~= s.columns@);
    Schema { columns }
}

} // verus!
