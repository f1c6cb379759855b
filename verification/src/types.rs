//! The value model: column types, typed cells, queries and errors.
//!
//! A `Float` cell carries the raw bit pattern of a 64-bit IEEE-754 value.
//! The engine never computes with floating point; it stores, compares and
//! converts bit patterns, which keeps every rule about them provable.

use vstd::bytes::*;
use vstd::prelude::*;
use vstd::utf8::*;

verus! {

/// Scalar kinds storable in a table column.
#[derive(Clone, Copy, PartialEq, Eq, Structural, Debug, Hash)]
pub enum DataType {
    Int,
    Float,
    Char,
    String,
}

impl View for DataType {
    type V = DataType;

    open spec fn view(&self) -> DataType {
        *self
    }
}

impl DeepView for DataType {
    type V = DataType;

    open spec fn deep_view(&self) -> DataType {
        *self
    }
}

impl DataType {
    /// Textual form of the type, as written in the catalog file.
    pub open spec fn text(self) -> Seq<char> {
        match self {
            DataType::Int => "int"@,
            DataType::Float => "float"@,
            DataType::Char => "char"@,
            DataType::String => "string"@,
        }
    }

    /// Textual form used in the catalog file.
    pub fn as_str(&self) -> (r: &'static str)
        ensures
            r@ == self.text(),
    {
        match self {
            DataType::Int => "int",
            DataType::Float => "float",
            DataType::Char => "char",
            DataType::String => "string",
        }
    }

    /// The SQL column type a relational backend would use for this kind.
    pub fn to_sql(&self) -> (r: String)
        ensures
            self == DataType::Int ==> r@ == "INTEGER"@,
            self == DataType::Float ==> r@ == "REAL"@,
            self == DataType::Char || self == DataType::String ==> r@ == "TEXT"@,
    {
        match self {
            DataType::Int => String::from_str("INTEGER"),
            DataType::Float => String::from_str("REAL"),
            DataType::Char => String::from_str("TEXT"),
            DataType::String => String::from_str("TEXT"),
        }
    }
}

/// One typed cell value.  `Float` holds the bits of a 64-bit IEEE-754 number.
#[derive(Debug, Clone)]
pub enum TypedValue {
    Int(i64),
    Float(u64),
    Char(char),
    String(String),
}

/// Mathematical model of a cell value: a string cell is its character sequence.
pub enum ValueView {
    Int(i64),
    Float(u64),
    Char(char),
    Str(Seq<char>),
}

impl View for TypedValue {
    type V = ValueView;

    open spec fn view(&self) -> ValueView {
        match self {
            TypedValue::Int(i) => ValueView::Int(*i),
            TypedValue::Float(b) => ValueView::Float(*b),
            TypedValue::Char(c) => ValueView::Char(*c),
            TypedValue::String(s) => ValueView::Str(s@),
        }
    }
}

impl DeepView for TypedValue {
    type V = ValueView;

    open spec fn deep_view(&self) -> ValueView {
        self.view()
    }
}

impl PartialEq for TypedValue {
    fn eq(&self, other: &TypedValue) -> (r: bool) {
        match (self, other) {
            (TypedValue::Int(a), TypedValue::Int(b)) => a == b,
            (TypedValue::Float(a), TypedValue::Float(b)) => a == b,
            (TypedValue::Char(a), TypedValue::Char(b)) => a == b,
            (TypedValue::String(a), TypedValue::String(b)) => a.eq(b),
            _ => false,
        }
    }
}

impl vstd::std_specs::cmp::PartialEqSpecImpl for TypedValue {
    open spec fn obeys_eq_spec() -> bool {
        true
    }

    open spec fn eq_spec(&self, other: &TypedValue) -> bool {
        self@ == other@
    }
}

impl ValueView {
    /// The tag of a model value.
    pub open spec fn data_type(self) -> DataType {
        match self {
            ValueView::Int(_) => DataType::Int,
            ValueView::Float(_) => DataType::Float,
            ValueView::Char(_) => DataType::Char,
            ValueView::Str(_) => DataType::String,
        }
    }
}

impl TypedValue {
    /// The type tag of this value.
    pub fn data_type(&self) -> (t: DataType)
        ensures
            t == self@.data_type(),
    {
        match self {
            TypedValue::Int(_) => DataType::Int,
            TypedValue::Float(_) => DataType::Float,
            TypedValue::Char(_) => DataType::Char,
            TypedValue::String(_) => DataType::String,
        }
    }

    /// Every value representable in the model is acceptable as stored data.
    pub fn validate(&self) -> (r: Result<(), DbError>)
        ensures
            r is Ok,
    {
        Ok(())
    }

    /// An identical copy of this value.
    pub fn dup(&self) -> (r: TypedValue)
        ensures
            r@ == self@,
    {
        match self {
            TypedValue::Int(i) => TypedValue::Int(*i),
            TypedValue::Float(b) => TypedValue::Float(*b),
            TypedValue::Char(c) => TypedValue::Char(*c),
            TypedValue::String(s) => TypedValue::String(s.clone()),
        }
    }
}

/// Everything that can go wrong while executing a query.
#[derive(Debug, Clone)]
pub enum DbError {
    TableAlreadyExists(String),
    TableNotFound(String),
    ColumnAlreadyExists(String, String),
    ColumnNotFound(String, String),
    NoColumns,
    InvalidName(String),
    InvalidValue(TypedValue, DataType),
    IncompleteData(String, String),
    InvalidDataType(String),
    IoError(String),
}

/// Mathematical model of an error value.
pub enum ErrorView {
    TableAlreadyExists(Seq<char>),
    TableNotFound(Seq<char>),
    ColumnAlreadyExists(Seq<char>, Seq<char>),
    ColumnNotFound(Seq<char>, Seq<char>),
    NoColumns,
    InvalidName(Seq<char>),
    InvalidValue(ValueView, DataType),
    IncompleteData(Seq<char>, Seq<char>),
    InvalidDataType(Seq<char>),
    IoError,
}

impl View for DbError {
    type V = ErrorView;

    open spec fn view(&self) -> ErrorView {
        match self {
            DbError::TableAlreadyExists(t) => ErrorView::TableAlreadyExists(t@),
            DbError::TableNotFound(t) => ErrorView::TableNotFound(t@),
            DbError::ColumnAlreadyExists(c, t) => ErrorView::ColumnAlreadyExists(c@, t@),
            DbError::ColumnNotFound(c, t) => ErrorView::ColumnNotFound(c@, t@),
            DbError::NoColumns => ErrorView::NoColumns,
            DbError::InvalidName(n) => ErrorView::InvalidName(n@),
            DbError::InvalidValue(v, t) => ErrorView::InvalidValue(v@, *t),
            DbError::IncompleteData(c, t) => ErrorView::IncompleteData(c@, t@),
            DbError::InvalidDataType(s) => ErrorView::InvalidDataType(s@),
            DbError::IoError(_) => ErrorView::IoError,
        }
    }
}

impl DeepView for DbError {
    type V = ErrorView;

    open spec fn deep_view(&self) -> ErrorView {
        self.view()
    }
}

/// An unordered set of named cell values handed in by a caller, as a list of
/// `(column, value)` pairs.
pub type ColumnSet = Vec<(String, TypedValue)>;

/// Model of a `ColumnSet`.
pub type ColumnSetView = Seq<(Seq<char>, ValueView)>;

/// The seven operations the engine executes.
#[derive(Debug, Clone)]
pub enum Query {
    Select { from: String, columns: Vec<String>, conditions: ColumnSet },
    Insert { into: String, values: ColumnSet },
    Update { table: String, set: ColumnSet, conditions: ColumnSet },
    Delete { from: String, conditions: ColumnSet },
    Create { table: String, columns: Vec<(String, DataType)> },
    Drop { table: String },
    Alter { table: String, rename: Vec<(String, String)> },
}

/// Mathematical model of a query.
pub enum QueryView {
    Select { from: Seq<char>, columns: Seq<Seq<char>>, conditions: ColumnSetView },
    Insert { into: Seq<char>, values: ColumnSetView },
    Update { table: Seq<char>, set: ColumnSetView, conditions: ColumnSetView },
    Delete { from: Seq<char>, conditions: ColumnSetView },
    Create { table: Seq<char>, columns: Seq<(Seq<char>, DataType)> },
    Drop { table: Seq<char> },
    Alter { table: Seq<char>, rename: Seq<(Seq<char>, Seq<char>)> },
}

impl View for Query {
    type V = QueryView;

    open spec fn view(&self) -> QueryView {
        match self {
            Query::Select { from, columns, conditions } => QueryView::Select {
                from: from@,
                columns: columns.deep_view(),
                conditions: conditions.deep_view(),
            },
            Query::Insert { into, values } => QueryView::Insert {
                into: into@,
                values: values.deep_view(),
            },
            Query::Update { table, set, conditions } => QueryView::Update {
                table: table@,
                set: set.deep_view(),
                conditions: conditions.deep_view(),
            },
            Query::Delete { from, conditions } => QueryView::Delete {
                from: from@,
                conditions: conditions.deep_view(),
            },
            Query::Create { table, columns } => QueryView::Create {
                table: table@,
                columns: columns.deep_view(),
            },
            Query::Drop { table } => QueryView::Drop { table: table@ },
            Query::Alter { table, rename } => QueryView::Alter {
                table: table@,
                rename: rename.deep_view(),
            },
        }
    }
}

/// Relies on `String::from_utf8`: it succeeds exactly on valid UTF-8 input
/// and returns the string whose characters the bytes encode.
#[verifier::external_body]
fn string_from_utf8(bytes: Vec<u8>) -> (r: Option<String>)
    ensures
        r is Some <==> valid_utf8(bytes@),
        r matches Some(s) ==> s@ == decode_utf8(bytes@),
{
    String::from_utf8(bytes).ok()
}


/// The two's-complement bit pattern of a signed 64-bit value.
pub open spec fn i64_as_u64(i: i64) -> u64 {
    #[verifier::truncate] (i as u64)
}

/// The signed 64-bit value interpretation of a bit pattern.
pub open spec fn u64_as_i64(u: u64) -> i64 {
    #[verifier::truncate] (u as i64)
}

/// The two casts invert each other.
pub proof fn lemma_i64_u64_cast_round_trip(i: i64)
    ensures
        u64_as_i64(i64_as_u64(i)) == i,
{
    assert(#[verifier::truncate] (((#[verifier::truncate] (i as u64)) as i64)) == i)
        by (bit_vector);
}

/// The on-disk form of one cell value.
pub open spec fn spec_encode(v: ValueView) -> Seq<u8> {
    match v {
        ValueView::Int(i) => spec_u64_to_le_bytes(i64_as_u64(i)),
        ValueView::Float(b) => spec_u64_to_le_bytes(b),
        ValueView::Char(c) => seq![(#[verifier::truncate] (c as u8))],
        ValueView::Str(s) => spec_u64_to_le_bytes(encode_utf8(s).len() as u64) + encode_utf8(s),
    }
}

/// Reading the encoded form back recovers the value exactly when the
/// character of a `Char` cell fits in its single byte and the byte length of
/// a `Str` cell fits in its length prefix.
pub open spec fn encodable(v: ValueView) -> bool {
    match v {
        ValueView::Char(c) => (c as u32) < 0x100,
        ValueView::Str(s) => encode_utf8(s).len() <= u64::MAX,
        _ => true,
    }
}

/// Reading one cell of type `t` from `b` at byte offset `pos`: the decoded
/// value and the offset just past it, or `None` on a short read or invalid
/// UTF-8 payload.
pub open spec fn spec_read(t: DataType, b: Seq<u8>, pos: int) -> Option<(ValueView, int)> {
    match t {
        DataType::Int => if pos + 8 <= b.len() {
            Some((ValueView::Int(u64_as_i64(spec_u64_from_le_bytes(b.subrange(pos, pos + 8)))), pos + 8))
        } else {
            None
        },
        DataType::Float => if pos + 8 <= b.len() {
            Some((ValueView::Float(spec_u64_from_le_bytes(b.subrange(pos, pos + 8))), pos + 8))
        } else {
            None
        },
        DataType::Char => if pos + 1 <= b.len() {
            Some((ValueView::Char(b[pos] as char), pos + 1))
        } else {
            None
        },
        DataType::String => if pos + 8 <= b.len() {
            let l = spec_u64_from_le_bytes(b.subrange(pos, pos + 8)) as int;
            if pos + 8 + l <= b.len() && valid_utf8(b.subrange(pos + 8, pos + 8 + l)) {
                Some((ValueView::Str(decode_utf8(b.subrange(pos + 8, pos + 8 + l))), pos + 8 + l))
            } else {
                None
            }
        } else {
            None
        },
    }
}

impl DataType {
    /// Whether `bytes` is a complete, well-formed cell payload of this type.
    pub fn valid(&self, bytes: &[u8]) -> (r: bool)
        ensures
            *self == DataType::Int ==> r == (bytes@.len() == 8),
            *self == DataType::Float ==> r == (bytes@.len() == 8),
            *self == DataType::Char ==> r == (bytes@.len() == 1),
            *self == DataType::String ==> r == valid_utf8(bytes@),
    {
        match self {
            DataType::Int => bytes.len() == 8,
            DataType::Float => bytes.len() == 8,
            DataType::Char => bytes.len() == 1,
            DataType::String => string_from_utf8(vstd::slice::slice_to_vec(bytes)).is_some(),
        }
    }
}

impl TypedValue {
    /// The on-disk bytes of this value.
    pub fn into_bytes(self) -> (r: Vec<u8>)
        ensures
            r@ == spec_encode(self@),
    {
        match self {
            TypedValue::Int(i) => {
                let bits: u64 = #[verifier::truncate] (i as u64);
                u64_to_le_bytes(bits)
            }
            TypedValue::Float(b) => u64_to_le_bytes(b),
            TypedValue::Char(c) => {
                let byte: u8 = #[verifier::truncate] (c as u8);
                let mut out: Vec<u8> = Vec::new();
                out.push(byte);
                out
            }
            TypedValue::String(s) => {
                let mut payload = s.as_str().as_bytes_vec();
                let mut out = u64_to_le_bytes(payload.len() as u64);
                out.append(&mut payload);
                out
            }
        }
    }

    /// Reads one cell of type `data_type` from `bytes` at offset `pos`.
    pub fn read(data_type: DataType, bytes: &[u8], pos: usize) -> (r: Result<
        (TypedValue, usize),
        DbError,
    >)
        requires
            pos <= bytes@.len(),
        ensures
            match r {
                Ok((v, p)) => spec_read(data_type, bytes@, pos as int) == Some((v@, p as int)),
                Err(e) => spec_read(data_type, bytes@, pos as int) is None && e@
                    == ErrorView::IoError,
            },
    {
        match data_type {
            DataType::Int => {
                if bytes.len() - pos >= 8 {
                    let x = u64_from_le_bytes(vstd::slice::slice_subrange(bytes, pos, pos + 8));
                    let v: i64 = #[verifier::truncate] (x as i64);
                    Ok((TypedValue::Int(v), pos + 8))
                } else {
                    Err(short_read())
                }
            }
            DataType::Float => {
                if bytes.len() - pos >= 8 {
                    let x = u64_from_le_bytes(vstd::slice::slice_subrange(bytes, pos, pos + 8));
                    Ok((TypedValue::Float(x), pos + 8))
                } else {
                    Err(short_read())
                }
            }
            DataType::Char => {
                if bytes.len() - pos >= 1 {
                    let b = *vstd::slice::slice_index_get(bytes, pos);
                    Ok((TypedValue::Char(b as char), pos + 1))
                } else {
                    Err(short_read())
                }
            }
            DataType::String => {
                if bytes.len() - pos >= 8 {
                    let l = u64_from_le_bytes(vstd::slice::slice_subrange(bytes, pos, pos + 8));
                    let start = pos + 8;
                    if l <= (bytes.len() - start) as u64 {
                        let lu = l as usize;
                        let payload = vstd::slice::slice_to_vec(
                            vstd::slice::slice_subrange(bytes, start, start + lu),
                        );
                        match string_from_utf8(payload) {
                            Some(s) => Ok((TypedValue::String(s), start + lu)),
                            None => Err(DbError::IoError(String::from_str("invalid UTF-8 string"))),
                        }
                    } else {
                        Err(short_read())
                    }
                } else {
                    Err(short_read())
                }
            }
        }
    }
}

/// The error used for every truncated cell.
fn short_read() -> (e: DbError)
    ensures
        e@ == ErrorView::IoError,
{
    DbError::IoError(String::from_str("unexpected end of data"))
}

/// Encoding then reading a cell gives the value back: the round trip behind
/// every reopen of a table file.  Holds wherever the value is encodable; a
/// `Char` whose code point needs more than one byte is stored truncated.
pub proof fn lemma_read_round_trip(v: ValueView, prefix: Seq<u8>, suffix: Seq<u8>)
    requires
        encodable(v),
    ensures
        spec_read(
            v.data_type(),
            prefix + spec_encode(v) + suffix,
            prefix.len() as int,
        ) == Some((v, prefix.len() + spec_encode(v).len() as int)),
{
    broadcast use vstd::utf8::encode_utf8_valid_utf8, vstd::utf8::encode_utf8_decode_utf8;

    lemma_auto_spec_u64_to_from_le_bytes();
    let b = prefix + spec_encode(v) + suffix;
    let pos = prefix.len() as int;
    match v {
        ValueView::Int(i) => {
            assert(b.subrange(pos, pos + 8) =~= spec_u64_to_le_bytes(i64_as_u64(i)));
            lemma_i64_u64_cast_round_trip(i);
        }
        ValueView::Float(x) => {
            assert(b.subrange(pos, pos + 8) =~= spec_u64_to_le_bytes(x));
        }
        ValueView::Char(c) => {
            let u = c as u32;
            let byte: u8 = #[verifier::truncate] (c as u8);
            assert(b[pos] == byte);
            assert(byte == #[verifier::truncate] (u as u8));
            assert(u < 0x100 ==> #[verifier::truncate] (u as u8) as u32 == u) by (bit_vector);
            vstd::utf8::char_u32_cast(c, u);
            assert((byte as char) == c);
        }
        ValueView::Str(s) => {
            let enc = encode_utf8(s);
            let l = enc.len() as u64;
            assert(b.subrange(pos, pos + 8) =~= spec_u64_to_le_bytes(l));
            assert(b.subrange(pos + 8, pos + 8 + l as int) =~= enc);
        }
    }
}


/// Every character takes at least one byte, so a UTF-8 encoding is at least
/// as long as its character sequence.
pub proof fn lemma_encode_utf8_len(s: Seq<char>)
    ensures
        s.len() <= encode_utf8(s).len(),
    decreases s.len(),
{
    broadcast use vstd::utf8::char_is_scalar;

    if s.len() > 0 {
        lemma_encode_utf8_len(s.drop_first());
    }
}

/// The one-character string of `c`.
pub fn char_to_string(c: char) -> (s: String)
    ensures
        s@ == seq![c],
{
    broadcast use vstd::utf8::char_is_scalar, vstd::utf8::encode_utf8_valid_utf8,
        vstd::utf8::encode_utf8_decode_utf8;

    let u = c as u32;
    proof {
        assert(u & 0x7F < 0x80) by (bit_vector);
        assert((u >> 6) & 0x1F < 0x20) by (bit_vector);
        assert((u >> 12) & 0x0F < 0x10) by (bit_vector);
        assert((u >> 18) & 0x7 < 0x8) by (bit_vector);
        assert((u >> 6) & 0x3F < 0x40) by (bit_vector);
        assert((u >> 12) & 0x3F < 0x40) by (bit_vector);
        assert(u & 0x3F < 0x40) by (bit_vector);
        assert(u < 0x80 ==> u & 0x7F == u) by (bit_vector);
    }
    let mut bytes: Vec<u8> = Vec::new();
    if u < 0x80 {
        bytes.push((u & 0x7F) as u8);
    } else if u < 0x800 {
        bytes.push(0xC0 | ((u >> 6) & 0x1F) as u8);
        bytes.push(0x80 | (u & 0x3F) as u8);
    } else if u < 0x10000 {
        bytes.push(0xE0 | ((u >> 12) & 0x0F) as u8);
        bytes.push(0x80 | ((u >> 6) & 0x3F) as u8);
        bytes.push(0x80 | (u & 0x3F) as u8);
    } else {
        bytes.push(0xF0 | ((u >> 18) & 0x7) as u8);
        bytes.push(0x80 | ((u >> 12) & 0x3F) as u8);
        bytes.push(0x80 | ((u >> 6) & 0x3F) as u8);
        bytes.push(0x80 | (u & 0x3F) as u8);
    }
    proof {
        assert(seq![c].drop_first() =~= Seq::<char>::empty());
        assert(encode_utf8(Seq::<char>::empty()) =~= Seq::<u8>::empty());
        assert(bytes@ =~= encode_scalar(u));
        assert(bytes@ =~= encode_utf8(seq![c]));
    }
    match string_from_utf8(bytes) {
        Some(s) => s,
        None => {
            proof {
                assert(false);
            }
            String::new()
        }
    }
}

/// The conversion matrix between cell types.  A value already of the target
/// type passes unchanged; an `Int` widens to the nearest `Float`; a `Char`
/// or `String` is read as decimal text for the numeric targets; a one-byte
/// `String` becomes a `Char` and a `Char` becomes its one-character
/// `String`.  Everything else is invalid, as is unreadable text.
pub open spec fn spec_coerce(v: ValueView, to: DataType) -> Result<ValueView, ErrorView> {
    if v.data_type() == to {
        Ok(v)
    } else {
        match (v, to) {
            (ValueView::Str(s), DataType::Char) => if encode_utf8(s).len() == 1 {
                Ok(ValueView::Char(s[0]))
            } else {
                Err(ErrorView::InvalidValue(v, to))
            },
            (ValueView::Str(s), DataType::Int) => match crate::text::spec_parse_i64(s) {
                Some(i) => Ok(ValueView::Int(i)),
                None => Err(ErrorView::InvalidValue(v, to)),
            },
            (ValueView::Str(s), DataType::Float) => match crate::text::spec_parse_float_bits(s) {
                Some(b) => Ok(ValueView::Float(b)),
                None => Err(ErrorView::InvalidValue(v, to)),
            },
            (ValueView::Char(c), DataType::String) => Ok(ValueView::Str(seq![c])),
            (ValueView::Char(c), DataType::Int) => match crate::text::spec_parse_i64(seq![c]) {
                Some(i) => Ok(ValueView::Int(i)),
                None => Err(ErrorView::InvalidValue(v, to)),
            },
            (ValueView::Char(c), DataType::Float) => match crate::text::spec_parse_float_bits(
                seq![c],
            ) {
                Some(b) => Ok(ValueView::Float(b)),
                None => Err(ErrorView::InvalidValue(v, to)),
            },
            (ValueView::Int(i), DataType::Float) => Ok(
                ValueView::Float(crate::float_bits::spec_int_float_bits(i)),
            ),
            _ => Err(ErrorView::InvalidValue(v, to)),
        }
    }
}

/// Coercing a value to its own type returns it unchanged.
pub proof fn lemma_coerce_identity(v: ValueView)
    ensures
        spec_coerce(v, v.data_type()) == Ok::<ValueView, ErrorView>(v),
{
}

impl TypedValue {
    /// Converts this value to the target type, by the conversion matrix.
    pub fn coerce(self, to: DataType) -> (r: Result<TypedValue, DbError>)
        ensures
            match r {
                Ok(w) => spec_coerce(self@, to) == Ok::<ValueView, ErrorView>(w@),
                Err(e) => spec_coerce(self@, to) == Err::<ValueView, ErrorView>(e@),
            },
    {
        let t = self.data_type();
        if t == to {
            return Ok(self);
        }
        match (self, to) {
            (TypedValue::String(s), DataType::Char) => {
                proof {
                    broadcast use vstd::utf8::char_is_scalar;

                    lemma_encode_utf8_len(s@);
                    if s@.len() == 0 {
                        assert(encode_utf8(s@) =~= Seq::<u8>::empty());
                    }
                    if s@.len() == 1 {
                        assert(seq![s@[0]] =~= s@);
                        assert(s@.drop_first() =~= Seq::<char>::empty());
                        assert(encode_utf8(Seq::<char>::empty()) =~= Seq::<u8>::empty());
                        assert(encode_utf8(s@) =~= encode_scalar(s@[0] as u32));
                    }
                }
                if s.as_str().unicode_len() == 1 {
                    let c = s.as_str().get_char(0);
                    if (c as u32) < 0x80 {
                        proof {
                            assert(encode_utf8(s@).len() == 1);
                        }
                        Ok(TypedValue::Char(c))
                    } else {
                        proof {
                            assert(encode_utf8(s@).len() != 1);
                        }
                        Err(DbError::InvalidValue(TypedValue::String(s), to))
                    }
                } else {
                    Err(DbError::InvalidValue(TypedValue::String(s), to))
                }
            }
            (TypedValue::String(s), DataType::Int) => match crate::text::parse_i64(s.as_str()) {
                Some(i) => Ok(TypedValue::Int(i)),
                None => Err(DbError::InvalidValue(TypedValue::String(s), to)),
            },
            (TypedValue::String(s), DataType::Float) => match crate::text::parse_float_bits(
                s.as_str(),
            ) {
                Some(b) => Ok(TypedValue::Float(b)),
                None => Err(DbError::InvalidValue(TypedValue::String(s), to)),
            },
            (TypedValue::Char(c), DataType::String) => Ok(TypedValue::String(char_to_string(c))),
            (TypedValue::Char(c), DataType::Int) => {
                proof {
                    crate::text::lemma_parse_i64_single(c);
                }
                let u = c as u32;
                if 48 <= u && u <= 57 {
                    Ok(TypedValue::Int((u - 48) as i64))
                } else {
                    Err(DbError::InvalidValue(TypedValue::Char(c), to))
                }
            }
            (TypedValue::Char(c), DataType::Float) => {
                proof {
                    crate::text::lemma_parse_float_single(c);
                    vstd::utf8::char_u32_cast(c, c as u32);
                    vstd::utf8::char_u32_cast('0', 48);
                }
                let u = c as u32;
                if u == 48 {
                    Ok(TypedValue::Float(0))
                } else if 48 < u && u <= 57 {
                    Ok(TypedValue::Float(crate::float_bits::ratio_bits(false, (u - 48) as u64, 1)))
                } else {
                    Err(DbError::InvalidValue(TypedValue::Char(c), to))
                }
            }
            (TypedValue::Int(i), DataType::Float) => Ok(
                TypedValue::Float(crate::float_bits::int_to_float_bits(i)),
            ),
            (v, _) => Err(DbError::InvalidValue(v, to)),
        }
    }
}


/// A successful coercion yields a value of the target type.
pub proof fn lemma_coerce_type(v: ValueView, to: DataType)
    ensures
        spec_coerce(v, to) matches Ok(w) ==> w.data_type() == to,
{
}


/// Whether reading a cell of type `t` at `pos` fails for want of bytes: the
/// data ends before the cell does.  A read that fails with enough bytes in
/// hand failed on invalid UTF-8 instead.
pub open spec fn spec_read_is_short(t: DataType, b: Seq<u8>, pos: int) -> bool {
    match t {
        DataType::Int => pos + 8 > b.len(),
        DataType::Float => pos + 8 > b.len(),
        DataType::Char => pos + 1 > b.len(),
        DataType::String => pos + 8 > b.len() || pos + 8 + spec_u64_from_le_bytes(
            b.subrange(pos, pos + 8),
        ) > b.len(),
    }
}

/// Decides `spec_read_is_short` on real bytes.
pub fn read_is_short(t: DataType, bytes: &[u8], pos: usize) -> (r: bool)
    requires
        pos <= bytes@.len(),
    ensures
        r == spec_read_is_short(t, bytes@, pos as int),
{
    match t {
        DataType::Int => bytes.len() - pos < 8,
        DataType::Float => bytes.len() - pos < 8,
        DataType::Char => bytes.len() - pos < 1,
        DataType::String => {
            if bytes.len() - pos < 8 {
                true
            } else {
                let l = u64_from_le_bytes(vstd::slice::slice_subrange(bytes, pos, pos + 8));
                l > (bytes.len() - (pos + 8)) as u64
            }
        }
    }
}

} // verus!
