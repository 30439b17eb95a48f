use vstd::prelude::*;

use crate::bytes::{
    be_signed,
    be_value,
    cell_view,
    cells_at,
    cells_or_null_at,
    cells_bytes,
    cells_fit,
    cells_view,
    lemma_be_value_bound,
    lemma_frame_round_trip,
    list_bytes,
    list_cells,
    map_cells,
    pow256,
    read_be,
    read_be_signed,
    read_tuple,
    read_cells_or_null,
    read_list,
    read_map,
    wrap_signed,
    Cell,
};
use crate::error::{AppError, AppResult, ErrorKind};
use crate::text::{hex_lower, hex_upper, int_text, int_to_text, nat_text, to_hex_upper};

verus! {

/// The wire type of a column, without its parameters.
#[derive(Clone, Copy, Debug, PartialEq, Eq, Structural)]
pub enum TypeId {
    Custom,
    Ascii,
    Bigint,
    Blob,
    Boolean,
    Counter,
    Decimal,
    Double,
    Float,
    Int,
    Timestamp,
    Uuid,
    Varchar,
    Varint,
    Timeuuid,
    Inet,
    Date,
    Time,
    Smallint,
    Tinyint,
    List,
    MapOf,
    SetOf,
    Udt,
    Tuple,
    Null,
}

/// The parameters of a parameterised wire type.
#[derive(Debug)]
pub enum TypeMeta {
    ListOf(Box<ColumnType>),
    SetOf(Box<ColumnType>),
    MapOf(Box<ColumnType>, Box<ColumnType>),
    TupleOf(Vec<ColumnType>),
    UdtOf(Vec<(String, ColumnType)>),
    Other,
}

/// The declared type of a column: its wire type and, for collections,
/// tuples and user-defined types, the types of what they hold.
#[derive(Debug)]
pub struct ColumnType {
    pub id: TypeId,
    pub meta: Option<TypeMeta>,
}

/// A decimal number `unscaled * 10^(-scale)`.
#[derive(Clone, Copy, Debug, PartialEq, Eq, Structural)]
pub struct Decimal {
    pub unscaled: i64,
    pub scale: u32,
}

/// Raw bytes of a blob column.
#[derive(Clone, Debug, PartialEq, Eq)]
pub struct Blob {
    pub bytes: Vec<u8>,
}

/// The sixteen bytes of a UUID.
#[derive(Clone, Debug, PartialEq, Eq)]
pub struct Uuid {
    pub bytes: Vec<u8>,
}

/// The key of a decoded map entry: its canonical text, or a value whose text
/// the caller writes (floating-point numbers and network addresses).
#[derive(Clone, Debug, PartialEq, Eq)]
pub enum MapKey {
    Text(String),
    Float(u32),
    Double(u64),
    Inet(Vec<u8>),
}

/// A decoded column value. Floating-point values are kept as their IEEE-754
/// bits, dates as days since 1970-01-01, times of day as nanoseconds since
/// midnight, timestamps as milliseconds since 1970-01-01T00:00:00Z and
/// network addresses as their four or sixteen bytes.
#[derive(Debug, PartialEq, Eq)]
pub enum ColValue {
    Null,
    Int(i64),
    Float(u32),
    Double(u64),
    Decimal(Decimal),
    String(String),
    Blob(Blob),
    Date(i64),
    Time(i64),
    Timestamp(i64),
    Inet(Vec<u8>),
    Uuid(Uuid),
    Boolean(bool),
    Sequence(Vec<ColValue>),
    Keyed(Vec<(MapKey, ColValue)>),
}

pub enum KeyView {
    Text(Seq<char>),
    Float(u32),
    Double(u64),
    Inet(Seq<u8>),
}

pub enum ColView {
    Null,
    Int(int),
    Float(u32),
    Double(u64),
    Decimal(int, int),
    String(Seq<char>),
    Blob(Seq<u8>),
    Date(int),
    Time(int),
    Timestamp(int),
    Inet(Seq<u8>),
    Uuid(Seq<u8>),
    Boolean(bool),
    Sequence(Seq<ColView>),
    Keyed(Seq<(KeyView, ColView)>),
}

pub open spec fn key_view(k: MapKey) -> KeyView {
    match k {
        MapKey::Text(s) => KeyView::Text(s@),
        MapKey::Float(b) => KeyView::Float(b),
        MapKey::Double(b) => KeyView::Double(b),
        MapKey::Inet(b) => KeyView::Inet(b@),
    }
}

pub open spec fn col_view(v: ColValue) -> ColView
    decreases v,
{
    match v {
        ColValue::Null => ColView::Null,
        ColValue::Int(n) => ColView::Int(n as int),
        ColValue::Float(b) => ColView::Float(b),
        ColValue::Double(b) => ColView::Double(b),
        ColValue::Decimal(d) => ColView::Decimal(d.unscaled as int, d.scale as int),
        ColValue::String(s) => ColView::String(s@),
        ColValue::Blob(b) => ColView::Blob(b.bytes@),
        ColValue::Date(d) => ColView::Date(d as int),
        ColValue::Time(t) => ColView::Time(t as int),
        ColValue::Timestamp(t) => ColView::Timestamp(t as int),
        ColValue::Inet(b) => ColView::Inet(b@),
        ColValue::Uuid(u) => ColView::Uuid(u.bytes@),
        ColValue::Boolean(b) => ColView::Boolean(b),
        ColValue::Sequence(items) => ColView::Sequence(col_views(items@)),
        ColValue::Keyed(entries) => ColView::Keyed(entry_views(entries@)),
    }
}

pub open spec fn col_views(s: Seq<ColValue>) -> Seq<ColView>
    decreases s,
{
    if s.len() == 0 {
        Seq::empty()
    } else {
        col_views(s.drop_last()).push(col_view(s.last()))
    }
}

pub open spec fn entry_views(s: Seq<(MapKey, ColValue)>) -> Seq<(KeyView, ColView)>
    decreases s,
{
    if s.len() == 0 {
        Seq::empty()
    } else {
        entry_views(s.drop_last()).push((key_view(s.last().0), col_view(s.last().1)))
    }
}

impl View for ColValue {
    type V = ColView;

    open spec fn view(&self) -> ColView {
        col_view(*self)
    }
}

/// The text that the UTF-8 bytes `b` hold, each invalid sequence replaced by
/// U+FFFD.
pub uninterp spec fn utf8_lossy(b: Seq<u8>) -> Seq<char>;

/// Relies on cdrs's `decode_varchar`, which decodes text with
/// `String::from_utf8_lossy` and never fails.
#[verifier::external_body]
fn cdrs_decode_text(b: &[u8]) -> (r: String)
    ensures
        r@ == utf8_lossy(b@),
{
    match cdrs::types::data_serialization_types::decode_varchar(b) {
        Ok(text) => text,
        Err(_) => String::new(),
    }
}

/// Nanoseconds in a day.
pub const NANOS_PER_DAY: i64 = 86400000000000;

/// Offset of the Unix epoch in the unsigned day count of `date` columns.
pub const DATE_EPOCH: i64 = 2147483648;

/// What a column of scalar type `id` holds when its bytes are `b`.
pub open spec fn scalar_decoded(id: TypeId, b: Seq<u8>) -> Result<ColView, ErrorKind> {
    let n = b.len();
    match id {
        TypeId::Null => Ok(ColView::Null),
        TypeId::Varchar | TypeId::Ascii | TypeId::Custom => Ok(ColView::String(utf8_lossy(b))),
        TypeId::Tinyint => if n >= 1 {
            Ok(ColView::Int(wrap_signed(b[0] as int, 8)))
        } else {
            Err(ErrorKind::InvalidData)
        },
        TypeId::Smallint => if 1 <= n <= 8 {
            Ok(ColView::Int(wrap_signed(be_value(b), 16)))
        } else {
            Err(ErrorKind::InvalidData)
        },
        TypeId::Int => if 1 <= n <= 8 {
            Ok(ColView::Int(wrap_signed(be_value(b), 32)))
        } else {
            Err(ErrorKind::InvalidData)
        },
        TypeId::Bigint | TypeId::Counter => if 1 <= n <= 8 {
            Ok(ColView::Int(wrap_signed(be_value(b), 64)))
        } else {
            Err(ErrorKind::InvalidData)
        },
        TypeId::Varint => if 1 <= n <= 8 {
            Ok(ColView::Int(be_signed(b)))
        } else {
            Err(ErrorKind::InvalidData)
        },
        TypeId::Float => if n >= 4 {
            Ok(ColView::Float(be_value(b.subrange(0, 4)) as u32))
        } else {
            Err(ErrorKind::InvalidData)
        },
        TypeId::Double => if n >= 8 {
            Ok(ColView::Double(be_value(b.subrange(0, 8)) as u64))
        } else {
            Err(ErrorKind::InvalidData)
        },
        TypeId::Decimal => if 5 <= n <= 12 {
            Ok(ColView::Decimal(be_signed(b.subrange(4, n as int)), be_value(b.subrange(0, 4))))
        } else {
            Err(ErrorKind::InvalidData)
        },
        TypeId::Boolean => if n >= 1 {
            Ok(ColView::Boolean(b[0] != 0))
        } else {
            Err(ErrorKind::InvalidData)
        },
        TypeId::Date => if n == 4 {
            Ok(ColView::Date(be_value(b) - DATE_EPOCH))
        } else {
            Err(ErrorKind::InvalidData)
        },
        TypeId::Time => if 1 <= n <= 8 && 0 <= be_signed(b) < NANOS_PER_DAY {
            Ok(ColView::Time(be_signed(b)))
        } else {
            Err(ErrorKind::InvalidData)
        },
        TypeId::Timestamp => if 1 <= n <= 8 {
            Ok(ColView::Timestamp(wrap_signed(be_value(b), 64)))
        } else {
            Err(ErrorKind::InvalidData)
        },
        TypeId::Inet => if n == 4 || n == 16 {
            Ok(ColView::Inet(b))
        } else {
            Err(ErrorKind::InvalidData)
        },
        TypeId::Uuid | TypeId::Timeuuid => if n == 16 {
            Ok(ColView::Uuid(b))
        } else {
            Err(ErrorKind::InvalidData)
        },
        TypeId::Blob => Ok(ColView::Blob(b)),
        _ => Err(ErrorKind::UnsupportedType),
    }
}

/// `v` reduced to `bytes` bytes and read as a two's-complement number.
fn wrap_to(v: u64, bytes: u64) -> (r: i64)
    requires
        bytes == 1 || bytes == 2 || bytes == 4 || bytes == 8,
    ensures
        r as int == wrap_signed(v as int, (8 * bytes) as nat),
{
    proof {
        reveal_with_fuel(pow256, 9);
    }
    if bytes == 8 {
        assert(pow256(((8 * bytes) as nat / 8) as nat) == 18446744073709551616);
        assert(v as int % 18446744073709551616 == v as int);
        if v >= 9223372036854775808 {
            -((u64::MAX - v) as i64) - 1
        } else {
            v as i64
        }
    } else {
        let p: u64 = if bytes == 1 {
            256
        } else if bytes == 2 {
            65536
        } else {
            4294967296
        };
        assert(pow256(((8 * bytes) as nat / 8) as nat) == p);
        let m = v % p;
        if m >= p / 2 {
            m as i64 - p as i64
        } else {
            m as i64
        }
    }
}

fn decode_error() -> (r: AppError)
    ensures
        r.kind == ErrorKind::InvalidData,
{
    AppError::of_kind(ErrorKind::InvalidData, "Error decoding column bytes")
}

fn copy_bytes(b: &[u8]) -> (r: Vec<u8>)
    ensures
        r@ == b@,
{
    crate::bytes::copy_range(b, 0, b.len())
}

/// Decodes the bytes of a column of scalar type `id`.
pub fn decode_scalar(id: TypeId, b: &[u8]) -> (r: AppResult<ColValue>)
    ensures
        match r {
            Ok(v) => scalar_decoded(id, b@) == Ok::<ColView, ErrorKind>(v@) && value_in_range(v@),
            Err(e) => scalar_decoded(id, b@) == Err::<ColView, ErrorKind>(e.kind),
        },
{
    let n = b.len();
    proof {
        reveal_with_fuel(pow256, 9);
        assert(b@.subrange(0, n as int) =~= b@);
    }
    match id {
        TypeId::Null => Ok(ColValue::Null),
        TypeId::Varchar | TypeId::Ascii | TypeId::Custom => Ok(ColValue::String(cdrs_decode_text(b))),
        TypeId::Tinyint => if n >= 1 {
            Ok(ColValue::Int(wrap_to(b[0] as u64, 1)))
        } else {
            Err(decode_error())
        },
        TypeId::Smallint | TypeId::Int | TypeId::Bigint | TypeId::Counter | TypeId::Timestamp => {
            if 1 <= n && n <= 8 {
                let u = read_be(b, 0, n);
                let width: u64 = match id {
                    TypeId::Smallint => 2,
                    TypeId::Int => 4,
                    _ => 8,
                };
                let v = wrap_to(u, width);
                match id {
                    TypeId::Timestamp => Ok(ColValue::Timestamp(v)),
                    _ => Ok(ColValue::Int(v)),
                }
            } else {
                Err(decode_error())
            }
        },
        TypeId::Varint => if 1 <= n && n <= 8 {
            Ok(ColValue::Int(read_be_signed(b, 0, n)))
        } else {
            Err(decode_error())
        },
        TypeId::Float => if n >= 4 {
            proof {
                lemma_be_value_bound(b@.subrange(0, 4));
            }
            Ok(ColValue::Float(read_be(b, 0, 4) as u32))
        } else {
            Err(decode_error())
        },
        TypeId::Double => if n >= 8 {
            Ok(ColValue::Double(read_be(b, 0, 8)))
        } else {
            Err(decode_error())
        },
        TypeId::Decimal => if 5 <= n && n <= 12 {
            proof {
                lemma_be_value_bound(b@.subrange(0, 4));
            }
            let scale = read_be(b, 0, 4) as u32;
            let unscaled = read_be_signed(b, 4, n);
            Ok(ColValue::Decimal(Decimal { unscaled, scale }))
        } else {
            Err(decode_error())
        },
        TypeId::Boolean => if n >= 1 {
            Ok(ColValue::Boolean(b[0] != 0))
        } else {
            Err(decode_error())
        },
        TypeId::Date => if n == 4 {
            proof {
                lemma_be_value_bound(b@);
            }
            Ok(ColValue::Date(read_be(b, 0, 4) as i64 - DATE_EPOCH))
        } else {
            Err(decode_error())
        },
        TypeId::Time => if 1 <= n && n <= 8 {
            let t = read_be_signed(b, 0, n);
            if 0 <= t && t < NANOS_PER_DAY {
                Ok(ColValue::Time(t))
            } else {
                Err(decode_error())
            }
        } else {
            Err(decode_error())
        },
        TypeId::Inet => if n == 4 || n == 16 {
            Ok(ColValue::Inet(copy_bytes(b)))
        } else {
            Err(decode_error())
        },
        TypeId::Uuid | TypeId::Timeuuid => if n == 16 {
            Ok(ColValue::Uuid(Uuid { bytes: copy_bytes(b) }))
        } else {
            Err(decode_error())
        },
        TypeId::Blob => Ok(ColValue::Blob(Blob { bytes: copy_bytes(b) })),
        _ => Err(AppError::of_kind(ErrorKind::UnsupportedType, "Unsupported column type")),
    }
}

/// The text chrono writes for the UTC date of the instant `secs` seconds
/// after 1970-01-01T00:00:00Z, or `None` outside its range.
pub uninterp spec fn utc_date_text(secs: int) -> Option<Seq<char>>;

/// The text chrono writes for the time of day `secs` seconds and `nano`
/// nanoseconds after midnight.
pub uninterp spec fn time_of_day_text(secs: int, nano: int) -> Seq<char>;

/// The text chrono writes for the UTC instant `millis` milliseconds after
/// 1970-01-01T00:00:00Z, or `None` outside its range.
pub uninterp spec fn utc_timestamp_text(millis: int) -> Option<Seq<char>>;

/// The decimal text of `unscaled * 10^(-scale)` for `scale >= 0`: the digits
/// of `unscaled` with a point put `scale` digits from the right, a `0` and
/// leading zeros where there are fewer digits than that, no point at all for
/// a scale of zero, and a `-` in front of a negative number.
pub open spec fn decimal_text(unscaled: int, scale: int) -> Seq<char> {
    let d = nat_text(if unscaled < 0 { -unscaled } else { unscaled } as nat);
    let body = if scale >= d.len() {
        seq!['0', '.'] + Seq::new((scale - d.len()) as nat, |i: int| '0') + d
    } else if scale == 0 {
        d
    } else {
        d.subrange(0, d.len() - scale) + seq!['.'] + d.subrange(d.len() - scale, d.len() as int)
    };
    if unscaled < 0 {
        seq!['-'] + body
    } else {
        body
    }
}

/// Relies on chrono's `DateTime::from_timestamp` and the `Display` impl of
/// `NaiveDate`.
#[verifier::external_body]
fn chrono_date_text(secs: i64) -> (r: Option<String>)
    ensures
        r matches Some(t) ==> utc_date_text(secs as int) == Some(t@),
        r is None ==> utc_date_text(secs as int) is None,
{
    let instant = chrono::DateTime::from_timestamp(secs, 0)?;
    Some(instant.date_naive().to_string())
}

/// Relies on chrono's `NaiveTime::from_num_seconds_from_midnight_opt`, which
/// accepts any second of the day with fewer than 10^9 nanoseconds, and the
/// `Display` impl of `NaiveTime`.
#[verifier::external_body]
fn chrono_time_text(secs: u32, nano: u32) -> (r: String)
    requires
        secs < 86400,
        nano < 1000000000,
    ensures
        r@ == time_of_day_text(secs as int, nano as int),
{
    match chrono::NaiveTime::from_num_seconds_from_midnight_opt(secs, nano) {
        Some(t) => t.to_string(),
        None => String::new(),
    }
}

/// Relies on chrono's `DateTime::from_timestamp_millis` and the `Display` impl
/// of `DateTime<Utc>`.
#[verifier::external_body]
fn chrono_timestamp_text(millis: i64) -> (r: Option<String>)
    ensures
        r matches Some(t) ==> utc_timestamp_text(millis as int) == Some(t@),
        r is None ==> utc_timestamp_text(millis as int) is None,
{
    let instant = chrono::DateTime::from_timestamp_millis(millis)?;
    Some(instant.to_string())
}

/// Relies on bigdecimal's `BigDecimal::new` and its `Display` impl, which
/// splits the digits of the absolute value at the scale, pads with zeros
/// after `0.` when the scale exceeds the digits, leaves out an empty
/// fraction and writes `-` before a negative number.
#[verifier::external_body]
fn bigdecimal_text(unscaled: i64, scale: u32) -> (r: String)
    ensures
        r@ == decimal_text(unscaled as int, scale as int),
{
    bigdecimal::BigDecimal::new(unscaled.into(), scale.into()).to_string()
}

/// The hyphenated form of a UUID: lower-case hexadecimal digits in groups of
/// 8, 4, 4, 4 and 12.
pub open spec fn hyphenated(b: Seq<u8>) -> Seq<char> {
    let h = hex_lower(b);
    h.subrange(0, 8) + seq!['-'] + h.subrange(8, 12) + seq!['-'] + h.subrange(12, 16) + seq!['-']
        + h.subrange(16, 20) + seq!['-'] + h.subrange(20, 32)
}

/// Relies on uuid's `Uuid::from_slice`, which takes exactly sixteen bytes, and
/// `Uuid::to_hyphenated`, which writes them as lower-case hexadecimal digits
/// in groups of 8, 4, 4, 4 and 12.
#[verifier::external_body]
fn uuid_hyphenated(b: &[u8]) -> (r: String)
    requires
        b@.len() == 16,
    ensures
        r@ == hyphenated(b@),
{
    match uuid::Uuid::from_slice(b) {
        Ok(id) => id.to_hyphenated().to_string(),
        Err(_) => String::new(),
    }
}

/// The date `days` after 1970-01-01, written as chrono writes dates, or
/// `None` outside the range of chrono or of date columns.
pub fn date_to_text(days: i64) -> (r: Option<String>)
    ensures
        r matches Some(t) ==> -DATE_EPOCH <= days < DATE_EPOCH && utc_date_text(days * 86400) == Some(t@),
        r is None ==> !(-DATE_EPOCH <= days < DATE_EPOCH) || utc_date_text(days * 86400) is None,
{
    if -DATE_EPOCH <= days && days < DATE_EPOCH {
        chrono_date_text(days * 86400)
    } else {
        None
    }
}

/// The time of day `nanos` nanoseconds after midnight, written as chrono
/// writes times of day, or `None` outside the day.
pub fn time_to_text(nanos: i64) -> (r: Option<String>)
    ensures
        r matches Some(t) ==> 0 <= nanos < NANOS_PER_DAY && t@ == time_of_day_text(
            nanos as int / 1000000000,
            nanos as int % 1000000000,
        ),
        r is None ==> !(0 <= nanos < NANOS_PER_DAY),
{
    if 0 <= nanos && nanos < NANOS_PER_DAY {
        Some(chrono_time_text((nanos / 1000000000) as u32, (nanos % 1000000000) as u32))
    } else {
        None
    }
}

impl Uuid {
    pub open spec fn wf(&self) -> bool {
        self.bytes@.len() == 16
    }

    /// The hyphenated lower-case form, as in `67e55044-10b1-426f-9247-bb680e5fe0c8`.
    pub fn to_hyphenated_string(&self) -> (r: String)
        requires
            self.wf(),
        ensures
            r@ == hyphenated(self.bytes@),
    {
        uuid_hyphenated(self.bytes.as_slice())
    }
}

impl Blob {
    /// Two upper-case hexadecimal digits for each byte.
    pub fn to_hex_string(&self) -> (r: String)
        ensures
            r@ == hex_upper(self.bytes@),
    {
        to_hex_upper(self.bytes.as_slice())
    }
}

impl Decimal {
    /// The decimal text of the number.
    pub fn to_text(&self) -> (r: String)
        ensures
            r@ == decimal_text(self.unscaled as int, self.scale as int),
    {
        bigdecimal_text(self.unscaled, self.scale)
    }
}

/// The key that a decoded value gives a map entry: its canonical text, or
/// the value itself where the caller writes it; `None` for values that
/// cannot be keys, and for dates, times of day and UUIDs that name none.
pub open spec fn key_of(v: ColView) -> Option<KeyView> {
    match v {
        ColView::String(s) => Some(KeyView::Text(s)),
        ColView::Int(n) => Some(KeyView::Text(int_text(n))),
        ColView::Boolean(b) => Some(
            KeyView::Text(if b { seq!['t', 'r', 'u', 'e'] } else { seq!['f', 'a', 'l', 's', 'e'] }),
        ),
        ColView::Float(b) => Some(KeyView::Float(b)),
        ColView::Double(b) => Some(KeyView::Double(b)),
        ColView::Date(d) => if -DATE_EPOCH <= d < DATE_EPOCH {
            match utc_date_text(d * 86400) {
                Some(t) => Some(KeyView::Text(t)),
                None => None,
            }
        } else {
            None
        },
        ColView::Time(t) => if 0 <= t < NANOS_PER_DAY {
            Some(KeyView::Text(time_of_day_text(t / 1000000000, t % 1000000000)))
        } else {
            None
        },
        ColView::Timestamp(ms) => match utc_timestamp_text(ms) {
            Some(t) => Some(KeyView::Text(t)),
            None => None,
        },
        ColView::Inet(b) => Some(KeyView::Inet(b)),
        ColView::Uuid(b) => if b.len() == 16 {
            Some(KeyView::Text(hyphenated(b)))
        } else {
            None
        },
        ColView::Blob(b) => Some(KeyView::Text(hex_upper(b))),
        _ => None,
    }
}

/// Every date and time value that decoding yields lies in its range.
pub open spec fn value_in_range(v: ColView) -> bool {
    match v {
        ColView::Date(d) => -DATE_EPOCH <= d < DATE_EPOCH,
        ColView::Time(t) => 0 <= t < NANOS_PER_DAY,
        ColView::Uuid(b) => b.len() == 16,
        _ => true,
    }
}

fn map_key_error() -> (r: AppError)
    ensures
        r.kind == ErrorKind::InvalidMapKey,
{
    AppError::of_kind(ErrorKind::InvalidMapKey, "Unexpected map key type")
}

impl ColValue {
    /// The key this value gives a map entry.
    pub fn into_map_key(self) -> (r: AppResult<MapKey>)
        ensures
            match r {
                Ok(k) => key_of(self@) == Some(key_view(k)),
                Err(e) => key_of(self@) is None && e.kind == ErrorKind::InvalidMapKey,
            },
    {
        proof {
            reveal_strlit("true");
            reveal_strlit("false");
        }
        match self {
            ColValue::String(x) => Ok(MapKey::Text(x)),
            ColValue::Int(x) => Ok(MapKey::Text(int_to_text(x))),
            ColValue::Boolean(x) => {
                let t = if x { "true" } else { "false" };
                assert(t@ =~= (if x { seq!['t', 'r', 'u', 'e'] } else { seq!['f', 'a', 'l', 's', 'e'] }));
                Ok(MapKey::Text(t.to_owned()))
            },
            ColValue::Float(x) => Ok(MapKey::Float(x)),
            ColValue::Double(x) => Ok(MapKey::Double(x)),
            ColValue::Date(d) => match date_to_text(d) {
                Some(t) => Ok(MapKey::Text(t)),
                None => Err(map_key_error()),
            },
            ColValue::Time(t) => match time_to_text(t) {
                Some(text) => Ok(MapKey::Text(text)),
                None => Err(map_key_error()),
            },
            ColValue::Timestamp(ms) => match chrono_timestamp_text(ms) {
                Some(t) => Ok(MapKey::Text(t)),
                None => Err(map_key_error()),
            },
            ColValue::Inet(b) => Ok(MapKey::Inet(b)),
            ColValue::Uuid(u) => if u.bytes.len() == 16 {
                Ok(MapKey::Text(u.to_hyphenated_string()))
            } else {
                Err(map_key_error())
            },
            ColValue::Blob(b) => Ok(MapKey::Text(b.to_hex_string())),
            _ => Err(map_key_error()),
        }
    }
}

/// Position of the first entry with key `k`, or the number of entries.
pub open spec fn key_index(entries: Seq<(KeyView, ColView)>, k: KeyView) -> int
    decreases entries.len(),
{
    if entries.len() == 0 {
        0
    } else if entries[0].0 == k {
        0
    } else {
        1 + key_index(entries.drop_first(), k)
    }
}

/// `entries` with `k` bound to `v`: the entry with that key takes the new
/// value where there is one, else the entry is added at the end.
pub open spec fn put(entries: Seq<(KeyView, ColView)>, k: KeyView, v: ColView) -> Seq<(KeyView, ColView)> {
    let i = key_index(entries, k);
    if i < entries.len() {
        entries.update(i, (k, v))
    } else {
        entries.push((k, v))
    }
}

/// The value a column of type `ty` holds when its cell is `cell`.
pub open spec fn decoded(ty: ColumnType, cell: Option<Seq<u8>>) -> Result<ColView, ErrorKind>
    decreases ty, 1nat, 0int,
{
    match cell {
        None => Ok(ColView::Null),
        Some(b) => match ty.id {
            TypeId::List | TypeId::SetOf => match list_cells(b) {
                Some(cells) => decoded_elements(ty, cells, Seq::empty()),
                None => Err(ErrorKind::InvalidData),
            },
            TypeId::MapOf => match map_cells(b) {
                Some(cells) => decoded_entries(ty, cells, Seq::empty()),
                None => Err(ErrorKind::InvalidData),
            },
            TypeId::Tuple => match ty.meta {
                Some(TypeMeta::TupleOf(types)) => match cells_at(b, 0, types@.len()) {
                    Some(cells) => decoded_components(ty, cells, 0, Seq::empty()),
                    None => Err(ErrorKind::InvalidData),
                },
                _ => Err(ErrorKind::MissingTypeMetadata),
            },
            TypeId::Udt => match ty.meta {
                Some(TypeMeta::UdtOf(fields)) => decoded_fields(
                    ty,
                    cells_or_null_at(b, 0, fields@.len()),
                    0,
                    Seq::empty(),
                ),
                _ => Err(ErrorKind::MissingTypeMetadata),
            },
            _ => scalar_decoded(ty.id, b),
        },
    }
}

/// The elements of a list or set after `acc`, one cell each.
pub open spec fn decoded_elements(ty: ColumnType, cells: Seq<Option<Seq<u8>>>, acc: Seq<ColView>) -> Result<
    ColView,
    ErrorKind,
>
    decreases ty, 0nat, cells.len(),
{
    match ty.meta {
        Some(TypeMeta::ListOf(e)) => if cells.len() == 0 {
            Ok(ColView::Sequence(acc))
        } else {
            match decoded(*e, cells[0]) {
                Ok(v) => decoded_elements(ty, cells.drop_first(), acc.push(v)),
                Err(k) => Err(k),
            }
        },
        Some(TypeMeta::SetOf(e)) => if cells.len() == 0 {
            Ok(ColView::Sequence(acc))
        } else {
            match decoded(*e, cells[0]) {
                Ok(v) => decoded_elements(ty, cells.drop_first(), acc.push(v)),
                Err(k) => Err(k),
            }
        },
        _ => Err(ErrorKind::MissingTypeMetadata),
    }
}

/// The entries of a map after `acc`, a key cell and a value cell each.
pub open spec fn decoded_entries(
    ty: ColumnType,
    cells: Seq<Option<Seq<u8>>>,
    acc: Seq<(KeyView, ColView)>,
) -> Result<ColView, ErrorKind>
    decreases ty, 0nat, cells.len(),
{
    match ty.meta {
        Some(TypeMeta::MapOf(kt, vt)) => if cells.len() < 2 {
            Ok(ColView::Keyed(acc))
        } else {
            match decoded(*kt, cells[0]) {
                Err(e) => Err(e),
                Ok(kv) => match key_of(kv) {
                    None => Err(ErrorKind::InvalidMapKey),
                    Some(key) => match decoded(*vt, cells[1]) {
                        Err(e) => Err(e),
                        Ok(vv) => decoded_entries(
                            ty,
                            cells.subrange(2, cells.len() as int),
                            put(acc, key, vv),
                        ),
                    },
                },
            }
        },
        _ => Err(ErrorKind::MissingTypeMetadata),
    }
}

/// The components of a tuple from the `i`-th on, after `acc`.
pub open spec fn decoded_components(
    ty: ColumnType,
    cells: Seq<Option<Seq<u8>>>,
    i: int,
    acc: Seq<ColView>,
) -> Result<ColView, ErrorKind>
    decreases ty, 0nat, cells.len() - i,
{
    match ty.meta {
        Some(TypeMeta::TupleOf(types)) => if i < 0 || i >= cells.len() || i >= types.len() {
            Ok(ColView::Sequence(acc))
        } else {
            match decoded(types[i], cells[i]) {
                Ok(v) => decoded_components(ty, cells, i + 1, acc.push(v)),
                Err(k) => Err(k),
            }
        },
        _ => Err(ErrorKind::MissingTypeMetadata),
    }
}

/// The fields of a user-defined value from the `i`-th on, after `acc`.
pub open spec fn decoded_fields(
    ty: ColumnType,
    cells: Seq<Option<Seq<u8>>>,
    i: int,
    acc: Seq<(KeyView, ColView)>,
) -> Result<ColView, ErrorKind>
    decreases ty, 0nat, cells.len() - i,
{
    match ty.meta {
        Some(TypeMeta::UdtOf(fields)) => if i < 0 || i >= cells.len() || i >= fields.len() {
            Ok(ColView::Keyed(acc))
        } else {
            match decoded(fields[i].1, cells[i]) {
                Ok(v) => decoded_fields(ty, cells, i + 1, put(acc, KeyView::Text(fields[i].0@), v)),
                Err(k) => Err(k),
            }
        },
        _ => Err(ErrorKind::MissingTypeMetadata),
    }
}

fn same_bytes(a: &Vec<u8>, b: &Vec<u8>) -> (r: bool)
    ensures
        r == (a@ == b@),
{
    if a.len() != b.len() {
        return false;
    }
    let mut i: usize = 0;
    while i < a.len()
        invariant
            a@.len() == b@.len(),
            0 <= i <= a@.len(),
            forall|j: int| 0 <= j < i ==> a@[j] == b@[j],
        decreases a@.len() - i,
    {
        if a[i] != b[i] {
            return false;
        }
        i = i + 1;
    }
    assert(a@ =~= b@);
    true
}

fn same_key(a: &MapKey, b: &MapKey) -> (r: bool)
    ensures
        r == (key_view(*a) == key_view(*b)),
{
    match (a, b) {
        (MapKey::Text(x), MapKey::Text(y)) => x.eq(y),
        (MapKey::Float(x), MapKey::Float(y)) => *x == *y,
        (MapKey::Double(x), MapKey::Double(y)) => *x == *y,
        (MapKey::Inet(x), MapKey::Inet(y)) => same_bytes(x, y),
        _ => false,
    }
}

proof fn lemma_entry_views_push(s: Seq<(MapKey, ColValue)>, e: (MapKey, ColValue))
    ensures
        entry_views(s.push(e)) == entry_views(s).push((key_view(e.0), col_view(e.1))),
{
    assert(s.push(e).drop_last() =~= s);
}

proof fn lemma_entry_views_len(s: Seq<(MapKey, ColValue)>)
    ensures
        entry_views(s).len() == s.len(),
    decreases s.len(),
{
    if s.len() > 0 {
        lemma_entry_views_len(s.drop_last());
    }
}

proof fn lemma_entry_views_index(s: Seq<(MapKey, ColValue)>, i: int)
    requires
        0 <= i < s.len(),
    ensures
        entry_views(s)[i] == (key_view(s[i].0), col_view(s[i].1)),
    decreases s.len(),
{
    lemma_entry_views_len(s.drop_last());
    if i < s.len() - 1 {
        lemma_entry_views_index(s.drop_last(), i);
    }
}

proof fn lemma_entry_views_update(s: Seq<(MapKey, ColValue)>, i: int, e: (MapKey, ColValue))
    requires
        0 <= i < s.len(),
    ensures
        entry_views(s.update(i, e)) == entry_views(s).update(i, (key_view(e.0), col_view(e.1))),
    decreases s.len(),
{
    let t = s.update(i, e);
    lemma_entry_views_len(s);
    lemma_entry_views_len(t);
    assert forall|j: int| 0 <= j < s.len() implies entry_views(t)[j] == entry_views(s).update(
        i,
        (key_view(e.0), col_view(e.1)),
    )[j] by {
        lemma_entry_views_index(t, j);
        lemma_entry_views_index(s, j);
    }
    assert(entry_views(t) =~= entry_views(s).update(i, (key_view(e.0), col_view(e.1))));
}

proof fn lemma_key_index(entries: Seq<(KeyView, ColView)>, k: KeyView, i: int)
    requires
        0 <= i <= entries.len(),
        forall|j: int| 0 <= j < i ==> entries[j].0 != k,
        i == entries.len() || entries[i].0 == k,
    ensures
        key_index(entries, k) == i,
    decreases entries.len(),
{
    if entries.len() > 0 && i > 0 {
        lemma_key_index(entries.drop_first(), k, i - 1);
    }
}

/// Binds `k` to `v` in `entries`, as `put` says.
fn put_entry(entries: &mut Vec<(MapKey, ColValue)>, k: MapKey, v: ColValue)
    ensures
        entry_views(final(entries)@) == put(entry_views(old(entries)@), key_view(k), v@),
{
    let ghost ev = entry_views(entries@);
    proof {
        lemma_entry_views_len(entries@);
    }
    let mut i: usize = 0;
    while i < entries.len()
        invariant
            entries@ == old(entries)@,
            ev == entry_views(entries@),
            ev.len() == entries@.len(),
            0 <= i <= entries@.len(),
            forall|j: int| 0 <= j < i ==> ev[j].0 != key_view(k),
        decreases entries@.len() - i,
    {
        proof {
            lemma_entry_views_index(entries@, i as int);
        }
        if same_key(&entries[i].0, &k) {
            proof {
                lemma_key_index(ev, key_view(k), i as int);
                lemma_entry_views_update(entries@, i as int, (k, v));
            }
            entries.set(i, (k, v));
            return;
        }
        i = i + 1;
    }
    proof {
        lemma_key_index(ev, key_view(k), i as int);
        lemma_entry_views_push(entries@, (k, v));
    }
    entries.push((k, v));
}

proof fn lemma_col_views_push(s: Seq<ColValue>, v: ColValue)
    ensures
        col_views(s.push(v)) == col_views(s).push(col_view(v)),
{
    assert(s.push(v).drop_last() =~= s);
}

pub open spec fn decode_outcome(r: AppResult<ColValue>, expected: Result<ColView, ErrorKind>) -> bool {
    match r {
        Ok(v) => expected == Ok::<ColView, ErrorKind>(v@) && value_in_range(v@),
        Err(e) => expected == Err::<ColView, ErrorKind>(e.kind),
    }
}

fn metadata_error() -> (r: AppError)
    ensures
        r.kind == ErrorKind::MissingTypeMetadata,
{
    AppError::of_kind(ErrorKind::MissingTypeMetadata, "Missing or mismatched type metadata")
}

impl ColValue {
    /// Decodes the cell of a column of type `col_type`; an absent cell is
    /// `Null`.
    pub fn decode(col_type: &ColumnType, data: &Cell) -> (r: AppResult<ColValue>)
        ensures
            decode_outcome(r, decoded(*col_type, cell_view(*data))),
        decreases *col_type, 1nat, 0int,
    {
        let b = match data {
            None => {
                return Ok(ColValue::Null);
            },
            Some(b) => b,
        };
        match col_type.id {
            TypeId::List | TypeId::SetOf => match read_list(b.as_slice()) {
                Some(cells) => decode_elements(col_type, &cells),
                None => Err(decode_error()),
            },
            TypeId::MapOf => match read_map(b.as_slice()) {
                Some(cells) => decode_entries(col_type, &cells),
                None => Err(decode_error()),
            },
            TypeId::Tuple => match &col_type.meta {
                Some(TypeMeta::TupleOf(types)) => match read_tuple(b.as_slice(), types.len()) {
                    Some(cells) => decode_components(col_type, &cells),
                    None => Err(decode_error()),
                },
                _ => Err(metadata_error()),
            },
            TypeId::Udt => match &col_type.meta {
                Some(TypeMeta::UdtOf(fields)) => {
                    let cells = read_cells_or_null(b.as_slice(), 0, fields.len());
                    decode_fields(col_type, &cells)
                },
                _ => Err(metadata_error()),
            },
            _ => decode_scalar(col_type.id, b.as_slice()),
        }
    }
}

fn decode_elements(ty: &ColumnType, cells: &Vec<Cell>) -> (r: AppResult<ColValue>)
    ensures
        decode_outcome(r, decoded_elements(*ty, cells_view(cells@), Seq::empty())),
    decreases *ty, 0nat, cells@.len(),
{
    let elem: &ColumnType = match &ty.meta {
        Some(TypeMeta::ListOf(e)) => e,
        Some(TypeMeta::SetOf(e)) => e,
        _ => {
            return Err(metadata_error());
        },
    };
    let ghost cv = cells_view(cells@);
    let mut out: Vec<ColValue> = Vec::new();
    let mut i: usize = 0;
    assert(cv.subrange(0, cv.len() as int) =~= cv);
    assert(col_views(out@) =~= Seq::<ColView>::empty());
    while i < cells.len()
        invariant
            cv == cells_view(cells@),
            cv.len() == cells@.len(),
            0 <= i <= cells@.len(),
            match ty.meta {
                Some(TypeMeta::ListOf(e)) => *e == *elem,
                Some(TypeMeta::SetOf(e)) => *e == *elem,
                _ => false,
            },
            decoded_elements(*ty, cv, Seq::empty()) == decoded_elements(
                *ty,
                cv.subrange(i as int, cv.len() as int),
                col_views(out@),
            ),
        decreases cells@.len() - i,
    {
        let ghost rest = cv.subrange(i as int, cv.len() as int);
        assert(rest[0] == cell_view(cells@[i as int]));
        assert(rest.drop_first() =~= cv.subrange(i + 1, cv.len() as int));
        match ColValue::decode(elem, &cells[i]) {
            Ok(v) => {
                proof {
                    lemma_col_views_push(out@, v);
                }
                out.push(v);
            },
            Err(e) => {
                return Err(e);
            },
        }
        i = i + 1;
    }
    Ok(ColValue::Sequence(out))
}

fn decode_entries(ty: &ColumnType, cells: &Vec<Cell>) -> (r: AppResult<ColValue>)
    ensures
        decode_outcome(r, decoded_entries(*ty, cells_view(cells@), Seq::empty())),
    decreases *ty, 0nat, cells@.len(),
{
    let (kt, vt): (&ColumnType, &ColumnType) = match &ty.meta {
        Some(TypeMeta::MapOf(k, v)) => (k, v),
        _ => {
            return Err(metadata_error());
        },
    };
    let ghost cv = cells_view(cells@);
    let mut out: Vec<(MapKey, ColValue)> = Vec::new();
    let mut i: usize = 0;
    assert(cv.subrange(0, cv.len() as int) =~= cv);
    assert(entry_views(out@) =~= Seq::<(KeyView, ColView)>::empty());
    while cells.len() - i >= 2
        invariant
            cv == cells_view(cells@),
            cv.len() == cells@.len(),
            0 <= i <= cells@.len(),
            match ty.meta {
                Some(TypeMeta::MapOf(k, v)) => *k == *kt && *v == *vt,
                _ => false,
            },
            decoded_entries(*ty, cv, Seq::empty()) == decoded_entries(
                *ty,
                cv.subrange(i as int, cv.len() as int),
                entry_views(out@),
            ),
        decreases cells@.len() - i,
    {
        let ghost rest = cv.subrange(i as int, cv.len() as int);
        assert(rest[0] == cell_view(cells@[i as int]));
        assert(rest[1] == cell_view(cells@[i + 1]));
        assert(rest.subrange(2, rest.len() as int) =~= cv.subrange(i + 2, cv.len() as int));
        let key_value = match ColValue::decode(kt, &cells[i]) {
            Ok(v) => v,
            Err(e) => {
                return Err(e);
            },
        };
        let key = match key_value.into_map_key() {
            Ok(k) => k,
            Err(e) => {
                return Err(e);
            },
        };
        let value = match ColValue::decode(vt, &cells[i + 1]) {
            Ok(v) => v,
            Err(e) => {
                return Err(e);
            },
        };
        put_entry(&mut out, key, value);
        i = i + 2;
    }
    Ok(ColValue::Keyed(out))
}

fn decode_components(ty: &ColumnType, cells: &Vec<Cell>) -> (r: AppResult<ColValue>)
    ensures
        decode_outcome(r, decoded_components(*ty, cells_view(cells@), 0, Seq::empty())),
    decreases *ty, 0nat, cells@.len(),
{
    let types: &Vec<ColumnType> = match &ty.meta {
        Some(TypeMeta::TupleOf(t)) => t,
        _ => {
            return Err(metadata_error());
        },
    };
    let ghost cv = cells_view(cells@);
    let mut out: Vec<ColValue> = Vec::new();
    let mut i: usize = 0;
    assert(col_views(out@) =~= Seq::<ColView>::empty());
    while i < cells.len() && i < types.len()
        invariant
            cv == cells_view(cells@),
            cv.len() == cells@.len(),
            0 <= i <= cells@.len(),
            ty.meta == Some(TypeMeta::TupleOf(*types)),
            decoded_components(*ty, cv, 0, Seq::empty()) == decoded_components(
                *ty,
                cv,
                i as int,
                col_views(out@),
            ),
        decreases cells@.len() - i,
    {
        assert(cv[i as int] == cell_view(cells@[i as int]));
        match ColValue::decode(&types[i], &cells[i]) {
            Ok(v) => {
                proof {
                    lemma_col_views_push(out@, v);
                }
                out.push(v);
            },
            Err(e) => {
                return Err(e);
            },
        }
        i = i + 1;
    }
    Ok(ColValue::Sequence(out))
}

fn decode_fields(ty: &ColumnType, cells: &Vec<Cell>) -> (r: AppResult<ColValue>)
    ensures
        decode_outcome(r, decoded_fields(*ty, cells_view(cells@), 0, Seq::empty())),
    decreases *ty, 0nat, cells@.len(),
{
    let fields: &Vec<(String, ColumnType)> = match &ty.meta {
        Some(TypeMeta::UdtOf(f)) => f,
        _ => {
            return Err(metadata_error());
        },
    };
    let ghost cv = cells_view(cells@);
    let mut out: Vec<(MapKey, ColValue)> = Vec::new();
    let mut i: usize = 0;
    assert(entry_views(out@) =~= Seq::<(KeyView, ColView)>::empty());
    while i < cells.len() && i < fields.len()
        invariant
            cv == cells_view(cells@),
            cv.len() == cells@.len(),
            0 <= i <= cells@.len(),
            ty.meta == Some(TypeMeta::UdtOf(*fields)),
            decoded_fields(*ty, cv, 0, Seq::empty()) == decoded_fields(
                *ty,
                cv,
                i as int,
                entry_views(out@),
            ),
        decreases cells@.len() - i,
    {
        assert(cv[i as int] == cell_view(cells@[i as int]));
        match ColValue::decode(&fields[i].1, &cells[i]) {
            Ok(v) => {
                let name = fields[i].0.clone();
                put_entry(&mut out, MapKey::Text(name), v);
            },
            Err(e) => {
                return Err(e);
            },
        }
        i = i + 1;
    }
    Ok(ColValue::Keyed(out))
}

pub open spec fn ok_or_null(r: Result<ColView, ErrorKind>) -> ColView {
    match r {
        Ok(v) => v,
        Err(_) => ColView::Null,
    }
}

/// The entries of a user-defined value with the fields `fields` whose cells
/// are `row`: each field's name and decoded value, in declared order.
pub open spec fn udt_entries(fields: Seq<(String, ColumnType)>, row: Seq<Option<Seq<u8>>>) -> Seq<(KeyView, ColView)> {
    Seq::new(fields.len(), |j: int| (KeyView::Text(fields[j].0@), ok_or_null(decoded(fields[j].1, row[j]))))
}

/// The field names are pairwise different.
pub open spec fn distinct_names(fields: Seq<(String, ColumnType)>) -> bool {
    forall|a: int, b: int| 0 <= a < b < fields.len() ==> #[trigger] fields[a].0@ != #[trigger] fields[b].0@
}

/// Each row holds one cell per field, short enough to be framed, and each
/// cell decodes as its field's type.
pub open spec fn rows_fit(fields: Seq<(String, ColumnType)>, rows: Seq<Seq<Option<Seq<u8>>>>) -> bool {
    &&& rows.len() < 0x8000_0000
    &&& fields.len() < 0x8000_0000
    &&& forall|i: int| 0 <= i < rows.len() ==> {
        &&& (#[trigger] rows[i]).len() == fields.len()
        &&& cells_fit(rows[i])
        &&& cells_bytes(rows[i]).len() < 0x8000_0000
        &&& forall|j: int| 0 <= j < fields.len() ==> (#[trigger] decoded(fields[j].1, rows[i][j])) is Ok
    }
}

pub open spec fn framed_rows(rows: Seq<Seq<Option<Seq<u8>>>>) -> Seq<Option<Seq<u8>>> {
    rows.map_values(|r: Seq<Option<Seq<u8>>>| Some(cells_bytes(r)))
}

proof fn lemma_fields_decode(elem: ColumnType, fields: Vec<(String, ColumnType)>, row: Seq<Option<Seq<u8>>>, i: int)
    requires
        elem.meta == Some(TypeMeta::UdtOf(fields)),
        distinct_names(fields@),
        row.len() == fields@.len(),
        forall|j: int| 0 <= j < fields@.len() ==> (#[trigger] decoded(fields@[j].1, row[j])) is Ok,
        0 <= i <= row.len(),
    ensures
        decoded_fields(elem, row, i, udt_entries(fields@, row).subrange(0, i)) == Ok::<ColView, ErrorKind>(
            ColView::Keyed(udt_entries(fields@, row)),
        ),
    decreases row.len() - i,
{
    let all = udt_entries(fields@, row);
    let acc = all.subrange(0, i);
    if i < row.len() {
        let key = KeyView::Text(fields@[i].0@);
        assert(fields[i] == fields@[i]);
        assert(decoded(fields@[i].1, row[i]) is Ok);
        assert forall|j: int| 0 <= j < acc.len() implies acc[j].0 != key by {
            assert(acc[j].0 == KeyView::Text(fields@[j].0@));
            assert(fields@[j].0@ != fields@[i].0@);
        }
        lemma_key_index(acc, key, acc.len() as int);
        assert(put(acc, key, ok_or_null(decoded(fields@[i].1, row[i]))) =~= all.subrange(0, i + 1));
        lemma_fields_decode(elem, fields, row, i + 1);
    } else {
        assert(acc =~= all);
    }
}

proof fn lemma_elements_decode(
    ty: ColumnType,
    elem: ColumnType,
    fields: Vec<(String, ColumnType)>,
    rows: Seq<Seq<Option<Seq<u8>>>>,
    k: int,
)
    requires
        ty.meta == Some(TypeMeta::ListOf(Box::new(elem))),
        elem.id == TypeId::Udt,
        elem.meta == Some(TypeMeta::UdtOf(fields)),
        distinct_names(fields@),
        rows_fit(fields@, rows),
        0 <= k <= rows.len(),
    ensures
        ({
            let cells = framed_rows(rows);
            let expected = rows.map_values(|r: Seq<Option<Seq<u8>>>| ColView::Keyed(udt_entries(fields@, r)));
            decoded_elements(ty, cells.subrange(k, cells.len() as int), expected.subrange(0, k))
                == Ok::<ColView, ErrorKind>(ColView::Sequence(expected))
        }),
    decreases rows.len() - k,
{
    let cells = framed_rows(rows);
    let expected = rows.map_values(|r: Seq<Option<Seq<u8>>>| ColView::Keyed(udt_entries(fields@, r)));
    let rest = cells.subrange(k, cells.len() as int);
    if k < rows.len() {
        let row = rows[k];
        assert(rest[0] == Some(cells_bytes(row)));
        lemma_frame_round_trip(row);
        lemma_fields_decode(elem, fields, row, 0);
        assert(udt_entries(fields@, row).subrange(0, 0) =~= Seq::<(KeyView, ColView)>::empty());
        assert(decoded(elem, Some(cells_bytes(row))) == Ok::<ColView, ErrorKind>(expected[k]));
        assert(rest.drop_first() =~= cells.subrange(k + 1, cells.len() as int));
        assert(expected.subrange(0, k).push(expected[k]) =~= expected.subrange(0, k + 1));
        lemma_elements_decode(ty, elem, fields, rows, k + 1);
    } else {
        assert(rest.len() == 0);
        assert(expected.subrange(0, k) =~= expected);
    }
}

/// Writing rows of field cells as user-defined values, those as the elements
/// of a list, and decoding the list as a list of that user-defined type gives
/// a sequence with one keyed value per row, which holds every field under its
/// name with its decoded value, in declared order.
pub proof fn lemma_list_of_udt_round_trip(
    ty: ColumnType,
    elem: ColumnType,
    fields: Vec<(String, ColumnType)>,
    rows: Seq<Seq<Option<Seq<u8>>>>,
)
    requires
        ty.id == TypeId::List,
        ty.meta == Some(TypeMeta::ListOf(Box::new(elem))),
        elem.id == TypeId::Udt,
        elem.meta == Some(TypeMeta::UdtOf(fields)),
        distinct_names(fields@),
        rows_fit(fields@, rows),
    ensures
        decoded(ty, Some(list_bytes(framed_rows(rows)))) == Ok::<ColView, ErrorKind>(
            ColView::Sequence(
                rows.map_values(|r: Seq<Option<Seq<u8>>>| ColView::Keyed(udt_entries(fields@, r))),
            ),
        ),
{
    let cells = framed_rows(rows);
    assert(cells_fit(cells)) by {
        assert forall|i: int| 0 <= i < cells.len() implies (#[trigger] cells[i] matches Some(b) ==> b.len()
            < 0x8000_0000) by {
            assert(cells[i] == Some(cells_bytes(rows[i])));
        }
    }
    lemma_frame_round_trip(cells);
    lemma_elements_decode(ty, elem, fields, rows, 0);
    assert(cells.subrange(0, cells.len() as int) =~= cells);
    let expected = rows.map_values(|r: Seq<Option<Seq<u8>>>| ColView::Keyed(udt_entries(fields@, r)));
    assert(expected.subrange(0, 0) =~= Seq::<ColView>::empty());
}

} // verus!
