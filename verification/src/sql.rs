//! Rows returned by the database, and typed access to their cells.
use vstd::prelude::*;
use vstd::string::StringSliceAdditionalSpecFns;
use crate::api::decimal_chars;

verus! {

#[verifier::external_type_specification]
#[verifier::external_body]
pub struct ExMysqlValue(mysql::Value);

/// A cell of a row: SQL NULL, bytes (text and blobs), a signed or an
/// unsigned integer, or a value of another kind (float, double, date,
/// time) as the `mysql` crate carries it. No conversion here accepts a
/// value of another kind, as in `mysql_common`, which turns such values
/// into none of the integer, `bool`, `String` or byte types.
pub enum CellValue {
    Null,
    Bytes(Vec<u8>),
    Int(i64),
    UInt(u64),
    Other(mysql::Value),
}

/// Why a cell could not be read.
#[derive(Debug, Clone, PartialEq)]
pub enum RowError {
    /// The value could not be converted to the requested type.
    Conversion { column: Vec<u8>, index: usize, message: String },
    /// The value is NULL where a value was required.
    UnexpectedNull { column: Vec<u8>, index: usize },
    /// No column has the requested name.
    ColumnNotFound { name: String },
}

/// A cell of a kind whose conversion `mysql_common` decides by its value:
/// every kind but `Other`.
pub open spec fn plain_cell(v: CellValue) -> bool {
    !(v is Other)
}

/// The number spelled by ASCII decimal digits.
pub open spec fn ascii_digits_value(s: Seq<u8>) -> int
    decreases s.len(),
{
    if s.len() == 0 {
        0
    } else {
        ascii_digits_value(s.drop_last()) * 10 + (s.last() - 48)
    }
}

/// One or more ASCII decimal digits.
pub open spec fn all_ascii_digits(s: Seq<u8>) -> bool {
    s.len() > 0 && forall|i: int| 0 <= i < s.len() ==> 48 <= #[trigger] s[i] <= 57
}

/// The integer that a decimal numeral spells: an optional `+` or `-`
/// followed by one or more ASCII digits; `None` for anything else.
pub open spec fn decimal_numeral(b: Seq<u8>) -> Option<int> {
    if b.len() > 0 && b[0] == 43 {
        if all_ascii_digits(b.drop_first()) {
            Some(ascii_digits_value(b.drop_first()))
        } else {
            None
        }
    } else if b.len() > 0 && b[0] == 45 {
        if all_ascii_digits(b.drop_first()) {
            Some(-ascii_digits_value(b.drop_first()))
        } else {
            None
        }
    } else if all_ascii_digits(b) {
        Some(ascii_digits_value(b))
    } else {
        None
    }
}

/// The integer that a cell holds, or spells in decimal.
pub open spec fn cell_integer(v: CellValue) -> Option<int> {
    match v {
        CellValue::Int(x) => Some(x as int),
        CellValue::UInt(x) => Some(x as int),
        CellValue::Bytes(b) => decimal_numeral(b@),
        _ => None,
    }
}

/// The cell holds or spells an integer in `lo..=hi`.
pub open spec fn cell_integer_within(v: CellValue, lo: int, hi: int) -> bool {
    cell_integer(v) matches Some(x) && lo <= x <= hi
}

/// The truth value of a cell: a zero or nonzero integer, or the single
/// byte `0` or `1`.
pub open spec fn cell_bool(v: CellValue) -> Option<bool> {
    match v {
        CellValue::Int(x) => Some(x != 0),
        CellValue::UInt(x) => Some(x != 0),
        CellValue::Bytes(b) => if b@ == seq![48u8] {
            Some(false)
        } else if b@ == seq![49u8] {
            Some(true)
        } else {
            None
        },
        _ => None,
    }
}

/// Conversion of a cell value to a Rust type, as `mysql::from_value_opt`
/// does it; the error becomes its message. The conversion succeeds exactly
/// when `convertible` holds, and then with a value related to the cell by
/// `converts_to`.
pub trait FromCell: Sized {
    spec fn convertible(v: CellValue) -> bool;

    spec fn converts_to(v: CellValue, x: Self) -> bool;

    fn from_cell(v: &CellValue) -> (r: Result<Self, String>)
        ensures
            r is Ok <==> Self::convertible(*v),
            r matches Ok(x) ==> Self::converts_to(*v, x),
    ;
}

/// The message of `mysql`'s conversion error for a value: the text of
/// `FromValueError`'s `Display`. The text is left unstated.
#[verifier::external_body]
fn unconvertible_message(v: &mysql::Value) -> String {
    mysql::FromValueError(v.clone()).to_string()
}

/// `mysql::from_value_opt::<i64>` on the cell's value; the error becomes
/// its message. In `mysql_common`, integers convert when they fit and
/// bytes when they are a decimal numeral that fits (`btoi`); every other
/// kind fails. The message text is left unstated.
#[verifier::external_body]
fn mysql_to_i64(v: &CellValue) -> (r: Result<i64, String>)
    requires
        plain_cell(*v),
    ensures
        match r {
            Ok(x) => cell_integer(*v) == Some(x as int),
            Err(_) => !cell_integer_within(*v, i64::MIN as int, i64::MAX as int),
        },
{
    let v = match v {
        CellValue::Null => mysql::Value::NULL,
        CellValue::Bytes(b) => mysql::Value::Bytes(b.clone()),
        CellValue::Int(x) => mysql::Value::Int(*x),
        CellValue::UInt(x) => mysql::Value::UInt(*x),
        CellValue::Other(o) => o.clone(),
    };
    mysql::from_value_opt::<i64>(v).map_err(|e| e.to_string())
}

impl FromCell for i64 {
    open spec fn convertible(v: CellValue) -> bool {
        cell_integer_within(v, i64::MIN as int, i64::MAX as int)
    }

    open spec fn converts_to(v: CellValue, x: i64) -> bool {
        cell_integer(v) == Some(x as int)
    }

    fn from_cell(v: &CellValue) -> (r: Result<i64, String>) {
        match v {
            CellValue::Other(o) => Err(unconvertible_message(o)),
            _ => mysql_to_i64(v),
        }
    }
}

/// `mysql::from_value_opt::<u64>` on the cell's value; the error becomes
/// its message. Integers and decimal numerals convert when they fit; the
/// message text is left unstated.
#[verifier::external_body]
fn mysql_to_u64(v: &CellValue) -> (r: Result<u64, String>)
    requires
        plain_cell(*v),
    ensures
        match r {
            Ok(x) => cell_integer(*v) == Some(x as int),
            Err(_) => !cell_integer_within(*v, 0, u64::MAX as int),
        },
{
    let v = match v {
        CellValue::Null => mysql::Value::NULL,
        CellValue::Bytes(b) => mysql::Value::Bytes(b.clone()),
        CellValue::Int(x) => mysql::Value::Int(*x),
        CellValue::UInt(x) => mysql::Value::UInt(*x),
        CellValue::Other(o) => o.clone(),
    };
    mysql::from_value_opt::<u64>(v).map_err(|e| e.to_string())
}

impl FromCell for u64 {
    open spec fn convertible(v: CellValue) -> bool {
        cell_integer_within(v, 0, u64::MAX as int)
    }

    open spec fn converts_to(v: CellValue, x: u64) -> bool {
        cell_integer(v) == Some(x as int)
    }

    fn from_cell(v: &CellValue) -> (r: Result<u64, String>) {
        match v {
            CellValue::Other(o) => Err(unconvertible_message(o)),
            _ => mysql_to_u64(v),
        }
    }
}

/// `mysql::from_value_opt::<i32>` on the cell's value; the error becomes
/// its message. Integers and decimal numerals convert when they fit; the
/// message text is left unstated.
#[verifier::external_body]
fn mysql_to_i32(v: &CellValue) -> (r: Result<i32, String>)
    requires
        plain_cell(*v),
    ensures
        match r {
            Ok(x) => cell_integer(*v) == Some(x as int),
            Err(_) => !cell_integer_within(*v, i32::MIN as int, i32::MAX as int),
        },
{
    let v = match v {
        CellValue::Null => mysql::Value::NULL,
        CellValue::Bytes(b) => mysql::Value::Bytes(b.clone()),
        CellValue::Int(x) => mysql::Value::Int(*x),
        CellValue::UInt(x) => mysql::Value::UInt(*x),
        CellValue::Other(o) => o.clone(),
    };
    mysql::from_value_opt::<i32>(v).map_err(|e| e.to_string())
}

impl FromCell for i32 {
    open spec fn convertible(v: CellValue) -> bool {
        cell_integer_within(v, i32::MIN as int, i32::MAX as int)
    }

    open spec fn converts_to(v: CellValue, x: i32) -> bool {
        cell_integer(v) == Some(x as int)
    }

    fn from_cell(v: &CellValue) -> (r: Result<i32, String>) {
        match v {
            CellValue::Other(o) => Err(unconvertible_message(o)),
            _ => mysql_to_i32(v),
        }
    }
}

/// `mysql::from_value_opt::<u32>` on the cell's value; the error becomes
/// its message. Integers and decimal numerals convert when they fit; the
/// message text is left unstated.
#[verifier::external_body]
fn mysql_to_u32(v: &CellValue) -> (r: Result<u32, String>)
    requires
        plain_cell(*v),
    ensures
        match r {
            Ok(x) => cell_integer(*v) == Some(x as int),
            Err(_) => !cell_integer_within(*v, 0, u32::MAX as int),
        },
{
    let v = match v {
        CellValue::Null => mysql::Value::NULL,
        CellValue::Bytes(b) => mysql::Value::Bytes(b.clone()),
        CellValue::Int(x) => mysql::Value::Int(*x),
        CellValue::UInt(x) => mysql::Value::UInt(*x),
        CellValue::Other(o) => o.clone(),
    };
    mysql::from_value_opt::<u32>(v).map_err(|e| e.to_string())
}

impl FromCell for u32 {
    open spec fn convertible(v: CellValue) -> bool {
        cell_integer_within(v, 0, u32::MAX as int)
    }

    open spec fn converts_to(v: CellValue, x: u32) -> bool {
        cell_integer(v) == Some(x as int)
    }

    fn from_cell(v: &CellValue) -> (r: Result<u32, String>) {
        match v {
            CellValue::Other(o) => Err(unconvertible_message(o)),
            _ => mysql_to_u32(v),
        }
    }
}

/// `mysql::from_value_opt::<usize>` on the cell's value; the error becomes
/// its message. Integers and decimal numerals convert when they fit; the
/// message text is left unstated.
#[verifier::external_body]
fn mysql_to_usize(v: &CellValue) -> (r: Result<usize, String>)
    requires
        plain_cell(*v),
    ensures
        match r {
            Ok(x) => cell_integer(*v) == Some(x as int),
            Err(_) => !cell_integer_within(*v, 0, usize::MAX as int),
        },
{
    let v = match v {
        CellValue::Null => mysql::Value::NULL,
        CellValue::Bytes(b) => mysql::Value::Bytes(b.clone()),
        CellValue::Int(x) => mysql::Value::Int(*x),
        CellValue::UInt(x) => mysql::Value::UInt(*x),
        CellValue::Other(o) => o.clone(),
    };
    mysql::from_value_opt::<usize>(v).map_err(|e| e.to_string())
}

impl FromCell for usize {
    open spec fn convertible(v: CellValue) -> bool {
        cell_integer_within(v, 0, usize::MAX as int)
    }

    open spec fn converts_to(v: CellValue, x: usize) -> bool {
        cell_integer(v) == Some(x as int)
    }

    fn from_cell(v: &CellValue) -> (r: Result<usize, String>) {
        match v {
            CellValue::Other(o) => Err(unconvertible_message(o)),
            _ => mysql_to_usize(v),
        }
    }
}

/// `mysql::from_value_opt::<bool>` on the cell's value; the error becomes
/// its message. In `mysql_common` an integer is `false` exactly when it is
/// zero, the bytes `0` and `1` are `false` and `true`, and all else fails.
/// The message text is left unstated.
#[verifier::external_body]
fn mysql_to_bool(v: &CellValue) -> (r: Result<bool, String>)
    requires
        plain_cell(*v),
    ensures
        match r {
            Ok(x) => cell_bool(*v) == Some(x),
            Err(_) => cell_bool(*v) is None,
        },
{
    let v = match v {
        CellValue::Null => mysql::Value::NULL,
        CellValue::Bytes(b) => mysql::Value::Bytes(b.clone()),
        CellValue::Int(x) => mysql::Value::Int(*x),
        CellValue::UInt(x) => mysql::Value::UInt(*x),
        CellValue::Other(o) => o.clone(),
    };
    mysql::from_value_opt::<bool>(v).map_err(|e| e.to_string())
}

impl FromCell for bool {
    open spec fn convertible(v: CellValue) -> bool {
        cell_bool(v) is Some
    }

    open spec fn converts_to(v: CellValue, x: bool) -> bool {
        cell_bool(v) == Some(x)
    }

    fn from_cell(v: &CellValue) -> (r: Result<bool, String>) {
        match v {
            CellValue::Other(o) => Err(unconvertible_message(o)),
            _ => mysql_to_bool(v),
        }
    }
}

/// `mysql::from_value_opt::<String>` on the cell's value; the error becomes
/// its message. In `mysql_common` only bytes convert, and exactly when
/// they are valid UTF-8 (`String::from_utf8`), to the text they encode.
/// The message text is left unstated.
#[verifier::external_body]
fn mysql_to_string(v: &CellValue) -> (r: Result<String, String>)
    requires
        plain_cell(*v),
    ensures
        match r {
            Ok(s) => v matches CellValue::Bytes(b) && vstd::utf8::valid_utf8(b@)
                && vstd::utf8::encode_utf8(s@) == b@,
            Err(_) => !(v matches CellValue::Bytes(b) && vstd::utf8::valid_utf8(b@)),
        },
{
    let v = match v {
        CellValue::Null => mysql::Value::NULL,
        CellValue::Bytes(b) => mysql::Value::Bytes(b.clone()),
        CellValue::Int(x) => mysql::Value::Int(*x),
        CellValue::UInt(x) => mysql::Value::UInt(*x),
        CellValue::Other(o) => o.clone(),
    };
    mysql::from_value_opt::<String>(v).map_err(|e| e.to_string())
}

impl FromCell for String {
    open spec fn convertible(v: CellValue) -> bool {
        v matches CellValue::Bytes(b) && vstd::utf8::valid_utf8(b@)
    }

    open spec fn converts_to(v: CellValue, x: String) -> bool {
        v matches CellValue::Bytes(b) && vstd::utf8::encode_utf8(x@) == b@
    }

    fn from_cell(v: &CellValue) -> (r: Result<String, String>) {
        match v {
            CellValue::Other(o) => Err(unconvertible_message(o)),
            _ => mysql_to_string(v),
        }
    }
}

/// `mysql::from_value_opt::<Vec<u8>>` on the cell's value; the error
/// becomes its message. In `mysql_common` only bytes convert, to
/// themselves. The message text is left unstated.
#[verifier::external_body]
fn mysql_to_bytes(v: &CellValue) -> (r: Result<Vec<u8>, String>)
    requires
        plain_cell(*v),
    ensures
        match r {
            Ok(x) => v matches CellValue::Bytes(b) && x@ == b@,
            Err(_) => !(v is Bytes),
        },
{
    let v = match v {
        CellValue::Null => mysql::Value::NULL,
        CellValue::Bytes(b) => mysql::Value::Bytes(b.clone()),
        CellValue::Int(x) => mysql::Value::Int(*x),
        CellValue::UInt(x) => mysql::Value::UInt(*x),
        CellValue::Other(o) => o.clone(),
    };
    mysql::from_value_opt::<Vec<u8>>(v).map_err(|e| e.to_string())
}

impl FromCell for Vec<u8> {
    open spec fn convertible(v: CellValue) -> bool {
        v is Bytes
    }

    open spec fn converts_to(v: CellValue, x: Vec<u8>) -> bool {
        v matches CellValue::Bytes(b) && x@ == b@
    }

    fn from_cell(v: &CellValue) -> (r: Result<Vec<u8>, String>) {
        match v {
            CellValue::Other(o) => Err(unconvertible_message(o)),
            _ => mysql_to_bytes(v),
        }
    }
}

/// One row of a result set: the names of its columns (as bytes) and, for
/// each column, its value unless it was taken out.
pub struct Row {
    column_names: Vec<Vec<u8>>,
    values: Vec<Option<CellValue>>,
}

/// The value at a column index: none when the index is past the columns or
/// the values, or the value was taken out.
pub open spec fn cell_at(names: Seq<Vec<u8>>, values: Seq<Option<CellValue>>, idx: int) -> Option<CellValue> {
    if 0 <= idx < names.len() && idx < values.len() {
        values[idx]
    } else {
        None
    }
}

/// Index of the first column whose name has exactly the given bytes.
pub open spec fn column_index(names: Seq<Vec<u8>>, name: Seq<u8>) -> Option<int> {
    if exists|i: int| 0 <= i < names.len() && names[i]@ == name {
        Some(
            choose|i: int|
                0 <= i < names.len() && names[i]@ == name && forall|j: int|
                    0 <= j < i ==> names[j]@ != name,
        )
    } else {
        None
    }
}

/// The cell holds a value other than NULL.
pub open spec fn holds_value(c: Option<CellValue>) -> bool {
    c matches Some(v) && !(v is Null)
}

/// A conversion failure reported for column `idx` of a row with these
/// column names.
pub open spec fn conversion_failure_at(e: RowError, names: Seq<Vec<u8>>, idx: int) -> bool {
    match e {
        RowError::Conversion { column, index, .. } => column@ == names[idx]@ && index == idx,
        _ => false,
    }
}

/// A NULL or missing value reported for column `idx`.
pub open spec fn null_failure_at(e: RowError, names: Seq<Vec<u8>>, idx: int) -> bool {
    match e {
        RowError::UnexpectedNull { column, index } => column@ == names[idx]@ && index == idx,
        _ => false,
    }
}

/// A missing column reported for `name`.
pub open spec fn not_found_failure(e: RowError, name: Seq<char>) -> bool {
    match e {
        RowError::ColumnNotFound { name: n } => n@ == name,
        _ => false,
    }
}

/// The text of a row error, as the database helpers print it; a column
/// name is read as UTF-8.
pub open spec fn row_error_text(e: RowError) -> Seq<char> {
    match e {
        RowError::Conversion { column, index, message } => "Error in column "@
            + vstd::utf8::decode_utf8(column@) + " (#"@ + decimal_chars(index as nat) + "): "@
            + message@,
        RowError::UnexpectedNull { column, index } => "Column "@ + vstd::utf8::decode_utf8(
            column@,
        ) + " (#"@ + decimal_chars(index as nat) + ") is unexpectedly null"@,
        RowError::ColumnNotFound { name } => "Column "@ + name@ + " is not found"@,
    }
}

/// The column name of a row error, when it has one.
pub open spec fn row_error_column(e: RowError) -> Option<Seq<u8>> {
    match e {
        RowError::Conversion { column, .. } => Some(column@),
        RowError::UnexpectedNull { column, .. } => Some(column@),
        RowError::ColumnNotFound { .. } => None,
    }
}

/// `String::from_utf8_lossy`: documented to keep valid UTF-8 as the text
/// it encodes (other bytes become replacement characters, left unstated).
#[verifier::external_body]
fn utf8_lossy(bytes: &Vec<u8>) -> (s: String)
    ensures
        vstd::utf8::valid_utf8(bytes@) ==> s@ == vstd::utf8::decode_utf8(bytes@),
{
    String::from_utf8_lossy(bytes).into_owned()
}

/// `format!` of a conversion error: column name, index in decimal, message.
#[verifier::external_body]
fn conversion_text(column: &String, index: usize, message: &String) -> (s: String)
    ensures
        s@ == "Error in column "@ + column@ + " (#"@ + decimal_chars(index as nat) + "): "@
            + message@,
{
    format!("Error in column {} (#{}): {}", column, index, message)
}

/// `format!` of a NULL error: column name and index in decimal.
#[verifier::external_body]
fn null_text(column: &String, index: usize) -> (s: String)
    ensures
        s@ == "Column "@ + column@ + " (#"@ + decimal_chars(index as nat) + ") is unexpectedly null"@,
{
    format!("Column {} (#{}) is unexpectedly null", column, index)
}

/// `format!` of a missing-column error.
#[verifier::external_body]
fn not_found_text(name: &String) -> (s: String)
    ensures
        s@ == "Column "@ + name@ + " is not found"@,
{
    format!("Column {} is not found", name)
}

impl RowError {
    /// The error as text; exact whenever the column name is valid UTF-8.
    pub fn text(&self) -> (s: String)
        ensures
            (row_error_column(*self) matches Some(c) ==> vstd::utf8::valid_utf8(c)) ==> s@
                == row_error_text(*self),
    {
        match self {
            RowError::Conversion { column, index, message } => {
                let name = utf8_lossy(column);
                conversion_text(&name, *index, message)
            },
            RowError::UnexpectedNull { column, index } => {
                let name = utf8_lossy(column);
                null_text(&name, *index)
            },
            RowError::ColumnNotFound { name } => not_found_text(name),
        }
    }
}

/// What reading cell `c` of column `idx` as an optional `T` gives: `Ok(None)`
/// for a missing or NULL value; otherwise the conversion of the value, whose
/// failure names the column.
pub open spec fn optional_read<T: FromCell>(
    c: Option<CellValue>,
    names: Seq<Vec<u8>>,
    idx: int,
    r: Result<Option<T>, RowError>,
) -> bool {
    if holds_value(c) {
        let v = c.unwrap();
        match r {
            Ok(Some(x)) => T::converts_to(v, x),
            Ok(None) => false,
            Err(e) => conversion_failure_at(e, names, idx) && !T::convertible(v),
        }
    } else {
        r matches Ok(None)
    }
}

/// What reading cell `c` of column `idx` as a `T` gives: the conversion of
/// the value, whose failure names the column; a missing or NULL value is
/// an error that names the column.
pub open spec fn required_read<T: FromCell>(
    c: Option<CellValue>,
    names: Seq<Vec<u8>>,
    idx: int,
    r: Result<T, RowError>,
) -> bool {
    if holds_value(c) {
        let v = c.unwrap();
        match r {
            Ok(x) => T::converts_to(v, x),
            Err(e) => conversion_failure_at(e, names, idx) && !T::convertible(v),
        }
    } else {
        match r {
            Ok(_) => false,
            Err(e) => null_failure_at(e, names, idx),
        }
    }
}

impl Row {
    pub closed spec fn names(&self) -> Seq<Vec<u8>> {
        self.column_names@
    }

    pub closed spec fn cells(&self) -> Seq<Option<CellValue>> {
        self.values@
    }

    pub open spec fn cell(&self, idx: int) -> Option<CellValue> {
        cell_at(self.names(), self.cells(), idx)
    }

    pub fn new(column_names: Vec<Vec<u8>>, values: Vec<Option<CellValue>>) -> (r: Row)
        ensures
            r.names() == column_names@,
            r.cells() == values@,
    {
        Row { column_names, values }
    }

    /// The number of columns.
    pub fn n_columns(&self) -> (n: usize)
        ensures
            n == self.names().len(),
    {
        self.column_names.len()
    }

    /// The value of column `idx` converted to `T`: `Ok(None)` when there is
    /// no such value or it is NULL; otherwise the conversion, whose failure
    /// names the column.
    pub fn at_option<T: FromCell>(&self, idx: usize) -> (r: Result<Option<T>, RowError>)
        ensures
            optional_read(self.cell(idx as int), self.names(), idx as int, r),
    {
        if idx >= self.column_names.len() || idx >= self.values.len() {
            return Ok(None);
        }
        match &self.values[idx] {
            None => Ok(None),
            Some(CellValue::Null) => Ok(None),
            Some(v) => match T::from_cell(v) {
                Ok(x) => Ok(Some(x)),
                Err(message) => Err(
                    RowError::Conversion {
                        column: copy_bytes(&self.column_names[idx]),
                        index: idx,
                        message,
                    },
                ),
            },
        }
    }

    /// The value of column `idx` converted to `T`; a missing or NULL value
    /// is an error.
    pub fn at<T: FromCell>(&self, idx: usize) -> (r: Result<T, RowError>)
        requires
            idx < self.names().len(),
        ensures
            required_read(self.cell(idx as int), self.names(), idx as int, r),
    {
        match self.at_option(idx) {
            Ok(Some(x)) => Ok(x),
            Ok(None) => Err(
                RowError::UnexpectedNull { column: copy_bytes(&self.column_names[idx]), index: idx },
            ),
            Err(e) => Err(e),
        }
    }

    /// Index of the first column with the given name.
    fn idx(&self, name: &str) -> (r: Result<usize, RowError>)
        ensures
            r matches Ok(i) ==> i < self.names().len() && column_index(self.names(), name.spec_bytes())
                == Some(i as int),
            r matches Err(e) ==> column_index(self.names(), name.spec_bytes()) is None
                && not_found_failure(e, name@),
    {
        let key = name.as_bytes();
        let n = self.column_names.len();
        let mut i: usize = 0;
        while i < n
            invariant
                n == self.names().len(),
                key@ == name.spec_bytes(),
                i <= n,
                forall|j: int| 0 <= j < i ==> self.names()[j]@ != key@,
            decreases n - i,
        {
            if bytes_equal(&self.column_names[i], key) {
                proof {
                    let k = choose|k: int|
                        0 <= k < self.names().len() && self.names()[k]@ == key@ && forall|j: int|
                            0 <= j < k ==> self.names()[j]@ != key@;
                    assert(k == i) by {
                        if k > i {
                            assert(self.names()[i as int]@ == key@);
                        }
                    }
                }
                return Ok(i);
            }
            i = i + 1;
        }
        Err(RowError::ColumnNotFound { name: String::from_str(name) })
    }

    /// The value of the column with the given name converted to `T`.
    pub fn get<T: FromCell>(&self, name: &str) -> (r: Result<T, RowError>)
        ensures
            column_index(self.names(), name.spec_bytes()) is None ==> match r {
                Ok(_) => false,
                Err(e) => not_found_failure(e, name@),
            },
            forall|i: int|
                column_index(self.names(), name.spec_bytes()) == Some(i) ==> required_read(
                    self.cell(i),
                    self.names(),
                    i,
                    r,
                ),
    {
        let i = self.idx(name)?;
        self.at(i)
    }

    /// The value of the column with the given name converted to `T`, or
    /// `None` when it is NULL or missing.
    pub fn get_option<T: FromCell>(&self, name: &str) -> (r: Result<Option<T>, RowError>)
        ensures
            column_index(self.names(), name.spec_bytes()) is None ==> match r {
                Ok(_) => false,
                Err(e) => not_found_failure(e, name@),
            },
            forall|i: int|
                column_index(self.names(), name.spec_bytes()) == Some(i) ==> optional_read(
                    self.cell(i),
                    self.names(),
                    i,
                    r,
                ),
    {
        let i = self.idx(name)?;
        self.at_option(i)
    }
}

/// Copy of a byte vector.
fn copy_bytes(b: &Vec<u8>) -> (r: Vec<u8>)
    ensures
        r@ == b@,
{
    let mut r: Vec<u8> = Vec::new();
    let mut i: usize = 0;
    while i < b.len()
        invariant
            i <= b@.len(),
            r@ == b@.take(i as int),
        decreases b@.len() - i,
    {
        r.push(b[i]);
        proof {
            assert(b@.take(i + 1) =~= b@.take(i as int).push(b@[i as int]));
        }
        i = i + 1;
    }
    proof {
        assert(b@.take(b@.len() as int) =~= b@);
    }
    r
}

/// Whether two byte sequences are equal.
fn bytes_equal(a: &Vec<u8>, b: &[u8]) -> (eq: bool)
    ensures
        eq == (a@ == b@),
{
    if a.len() != b.len() {
        return false;
    }
    let mut i: usize = 0;
    while i < a.len()
        invariant
            a@.len() == b@.len(),
            i <= a@.len(),
            forall|j: int| 0 <= j < i ==> a@[j] == b@[j],
        decreases a@.len() - i,
    {
        if a[i] != b[i] {
            return false;
        }
        i = i + 1;
    }
    proof {
        assert(a@ =~= b@);
    }
    true
}

} // verus!
