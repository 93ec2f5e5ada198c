//! The values that statistics are computed over: element types, numbers,
//! and arrays of optional elements.

use vstd::prelude::*;

verus! {

/// The declared element type of a column.
#[derive(Clone, Copy, Debug, PartialEq, Eq, Structural)]
pub enum DataType {
    Boolean,
    Int8,
    Int16,
    Int32,
    Int64,
    UInt8,
    UInt16,
    UInt32,
    UInt64,
    Float32,
    Float64,
    Date32,
    Date64,
    Time32,
    Time64,
    Timestamp,
    Duration,
    Decimal128,
    Utf8,
    Binary,
    Null,
    Float16,
    Decimal256,
    Interval,
    List,
    Struct,
}

/// How the elements of a type are held and compared.
#[derive(Clone, Copy, Debug, PartialEq, Eq, Structural)]
pub enum Kind {
    Boolean,
    Integer,
    Float32,
    Float64,
    Text,
    Binary,
    /// No statistics are computed for the type.
    Unsupported,
}

impl DataType {
    /// How the elements of this type are held and compared.
    pub open spec fn kind_of(self) -> Kind {
        match self {
            DataType::Boolean => Kind::Boolean,
            DataType::Int8 | DataType::Int16 | DataType::Int32 | DataType::Int64 => Kind::Integer,
            DataType::UInt8 | DataType::UInt16 | DataType::UInt32 | DataType::UInt64 => {
                Kind::Integer
            },
            DataType::Date32 | DataType::Date64 | DataType::Time32 | DataType::Time64 => {
                Kind::Integer
            },
            DataType::Timestamp | DataType::Duration | DataType::Decimal128 => Kind::Integer,
            DataType::Float32 => Kind::Float32,
            DataType::Float64 => Kind::Float64,
            DataType::Utf8 => Kind::Text,
            DataType::Binary => Kind::Binary,
            _ => Kind::Unsupported,
        }
    }

    /// The least integer that an element of this type can be.
    pub open spec fn least(self) -> int {
        match self {
            DataType::Int8 => i8::MIN as int,
            DataType::Int16 => i16::MIN as int,
            DataType::Int32 | DataType::Date32 | DataType::Time32 => i32::MIN as int,
            DataType::Int64 | DataType::Date64 | DataType::Time64 => i64::MIN as int,
            DataType::Timestamp | DataType::Duration => i64::MIN as int,
            DataType::Decimal128 => i128::MIN as int,
            _ => 0,
        }
    }

    /// The greatest integer that an element of this type can be.
    pub open spec fn greatest(self) -> int {
        match self {
            DataType::Int8 => i8::MAX as int,
            DataType::Int16 => i16::MAX as int,
            DataType::Int32 | DataType::Date32 | DataType::Time32 => i32::MAX as int,
            DataType::Int64 | DataType::Date64 | DataType::Time64 => i64::MAX as int,
            DataType::Timestamp | DataType::Duration => i64::MAX as int,
            DataType::Decimal128 => i128::MAX as int,
            DataType::UInt8 => u8::MAX as int,
            DataType::UInt16 => u16::MAX as int,
            DataType::UInt32 => u32::MAX as int,
            DataType::UInt64 => u64::MAX as int,
            _ => 0,
        }
    }

    /// The number `n` is an element of this type.
    pub open spec fn holds(self, n: Number) -> bool {
        match n {
            Number::Boolean(_) => self.kind_of() == Kind::Boolean,
            Number::Integer(v) => self.kind_of() == Kind::Integer && self.least() <= v
                <= self.greatest(),
            Number::Float32(_) => self.kind_of() == Kind::Float32,
            Number::Float64(_) => self.kind_of() == Kind::Float64,
        }
    }

    /// A bound of a column of this type may be `bound`: nothing, or a value
    /// of the type.
    pub open spec fn admits(self, bound: Option<ScalarView>) -> bool {
        match bound {
            None => true,
            Some(ScalarView::Number(n)) => self.holds(n),
            Some(ScalarView::Bytes(_)) => self.kind_of() == Kind::Text || self.kind_of()
                == Kind::Binary,
        }
    }

    /// Whether the number `n` is an element of this type.
    pub fn has_element(&self, n: &Number) -> (yes: bool)
        ensures
            yes == self.holds(*n),
    {
        match n {
            Number::Boolean(_) => self.kind() == Kind::Boolean,
            Number::Float32(_) => self.kind() == Kind::Float32,
            Number::Float64(_) => self.kind() == Kind::Float64,
            Number::Integer(v) => {
                let (least, greatest): (i128, i128) = match self {
                    DataType::Int8 => (-0x80, 0x7F),
                    DataType::Int16 => (-0x8000, 0x7FFF),
                    DataType::Int32 | DataType::Date32 | DataType::Time32 => (
                        -0x8000_0000,
                        0x7FFF_FFFF,
                    ),
                    DataType::Decimal128 => (i128::MIN, i128::MAX),
                    DataType::UInt8 => (0, 0xFF),
                    DataType::UInt16 => (0, 0xFFFF),
                    DataType::UInt32 => (0, 0xFFFF_FFFF),
                    DataType::UInt64 => (0, 0xFFFF_FFFF_FFFF_FFFF),
                    _ => (-0x8000_0000_0000_0000, 0x7FFF_FFFF_FFFF_FFFF),
                };
                self.kind() == Kind::Integer && least <= *v && *v <= greatest
            },
        }
    }

    /// Whether a bound of a column of this type may be `bound`.
    pub fn admits_bound(&self, bound: &Option<Scalar>) -> (yes: bool)
        ensures
            yes == self.admits(opt_scalar(*bound)),
    {
        match bound {
            None => true,
            Some(Scalar::Number(n)) => self.has_element(n),
            Some(Scalar::Bytes(_)) => self.kind() == Kind::Text || self.kind() == Kind::Binary,
        }
    }

    /// How the elements of this type are held and compared.
    pub fn kind(&self) -> (k: Kind)
        ensures
            k == self.kind_of(),
    {
        match self {
            DataType::Boolean => Kind::Boolean,
            DataType::Int8 | DataType::Int16 | DataType::Int32 | DataType::Int64 => Kind::Integer,
            DataType::UInt8 | DataType::UInt16 | DataType::UInt32 | DataType::UInt64 => {
                Kind::Integer
            },
            DataType::Date32 | DataType::Date64 | DataType::Time32 | DataType::Time64 => {
                Kind::Integer
            },
            DataType::Timestamp | DataType::Duration | DataType::Decimal128 => Kind::Integer,
            DataType::Float32 => Kind::Float32,
            DataType::Float64 => Kind::Float64,
            DataType::Utf8 => Kind::Text,
            DataType::Binary => Kind::Binary,
            _ => Kind::Unsupported,
        }
    }
}

/// The bit that holds the sign of a single-precision number.
pub const F32_SIGN: u32 = 0x8000_0000;

/// The bits of single-precision positive infinity; a greater magnitude is
/// not a number.
pub const F32_INFINITY: u32 = 0x7F80_0000;

/// The bit that holds the sign of a double-precision number.
pub const F64_SIGN: u64 = 0x8000_0000_0000_0000;

/// The bits of double-precision positive infinity; a greater magnitude is
/// not a number.
pub const F64_INFINITY: u64 = 0x7FF0_0000_0000_0000;

/// One element of a boolean, integer, temporal, decimal or floating-point
/// column. A floating-point number is held by the bits of its IEEE 754
/// encoding, so that negative zero and the not-a-number values stay apart.
#[derive(Clone, Copy, Debug, PartialEq, Eq, Structural)]
pub enum Number {
    Boolean(bool),
    Integer(i128),
    Float32(u32),
    Float64(u64),
}

impl Number {
    /// The number takes part in comparisons: all but the floating-point
    /// not-a-number values do.
    pub open spec fn comparable(self) -> bool {
        match self {
            Number::Float32(bits) => if bits >= F32_SIGN {
                bits - F32_SIGN <= F32_INFINITY
            } else {
                bits <= F32_INFINITY
            },
            Number::Float64(bits) => if bits >= F64_SIGN {
                bits - F64_SIGN <= F64_INFINITY
            } else {
                bits <= F64_INFINITY
            },
            _ => true,
        }
    }

    /// The place of the number in the order of its type: `a` is less than `b`
    /// exactly if `a.rank() < b.rank()`. Both zeros of a floating-point type
    /// have rank 0, the infinities have the ranks of greatest magnitude.
    pub open spec fn rank(self) -> int {
        match self {
            Number::Boolean(b) => if b {
                1
            } else {
                0
            },
            Number::Integer(v) => v as int,
            Number::Float32(bits) => if bits >= F32_SIGN {
                -(bits - F32_SIGN)
            } else {
                bits as int
            },
            Number::Float64(bits) => if bits >= F64_SIGN {
                -(bits - F64_SIGN)
            } else {
                bits as int
            },
        }
    }

    /// The number as it is reported in a bound: itself, but for negative
    /// zero, which is reported as positive zero.
    pub open spec fn normal_form(self) -> Number {
        match self {
            Number::Float32(bits) => if bits == F32_SIGN {
                Number::Float32(0)
            } else {
                self
            },
            Number::Float64(bits) => if bits == F64_SIGN {
                Number::Float64(0)
            } else {
                self
            },
            _ => self,
        }
    }

    /// Two numbers are of the same variant.
    pub open spec fn same_variant(self, other: Number) -> bool {
        match (self, other) {
            (Number::Boolean(_), Number::Boolean(_)) => true,
            (Number::Integer(_), Number::Integer(_)) => true,
            (Number::Float32(_), Number::Float32(_)) => true,
            (Number::Float64(_), Number::Float64(_)) => true,
            _ => false,
        }
    }

    /// Whether the number takes part in comparisons.
    pub fn is_comparable(&self) -> (c: bool)
        ensures
            c == self.comparable(),
    {
        match self {
            Number::Float32(bits) => if *bits >= F32_SIGN {
                *bits - F32_SIGN <= F32_INFINITY
            } else {
                *bits <= F32_INFINITY
            },
            Number::Float64(bits) => if *bits >= F64_SIGN {
                *bits - F64_SIGN <= F64_INFINITY
            } else {
                *bits <= F64_INFINITY
            },
            _ => true,
        }
    }

    /// The rank of the number, by which it is compared.
    pub fn key(&self) -> (k: i128)
        ensures
            k == self.rank(),
    {
        match self {
            Number::Boolean(b) => if *b {
                1
            } else {
                0
            },
            Number::Integer(v) => *v,
            Number::Float32(bits) => if *bits >= F32_SIGN {
                let magnitude: u32 = *bits - F32_SIGN;
                0 - (magnitude as i128)
            } else {
                *bits as i128
            },
            Number::Float64(bits) => if *bits >= F64_SIGN {
                let magnitude: u64 = *bits - F64_SIGN;
                0 - (magnitude as i128)
            } else {
                *bits as i128
            },
        }
    }

    /// The number as it is reported in a bound.
    pub fn normalized(&self) -> (n: Number)
        ensures
            n == self.normal_form(),
    {
        match self {
            Number::Float32(bits) => if *bits == F32_SIGN {
                Number::Float32(0)
            } else {
                *self
            },
            Number::Float64(bits) => if *bits == F64_SIGN {
                Number::Float64(0)
            } else {
                *self
            },
            _ => *self,
        }
    }
}

/// The normal form of a number has its rank, its variant and its standing in
/// comparisons, and two comparable numbers of one variant and one rank have
/// the same normal form.
pub proof fn lemma_normal_form(a: Number, b: Number)
    ensures
        a.normal_form().rank() == a.rank(),
        a.normal_form().comparable() == a.comparable(),
        a.normal_form().same_variant(a),
        a.normal_form().normal_form() == a.normal_form(),
        a.same_variant(b) && a.rank() == b.rank() ==> a.normal_form() == b.normal_form(),
{
}

/// A bound of a chunk: a number, or the bytes of a text or binary value.
/// Text is held as its UTF-8 encoding.
#[derive(Clone, Debug, PartialEq, Eq)]
pub enum Scalar {
    Number(Number),
    Bytes(Vec<u8>),
}

/// What a [`Scalar`] stands for.
pub enum ScalarView {
    Number(Number),
    Bytes(Seq<u8>),
}

impl View for Scalar {
    type V = ScalarView;

    open spec fn view(&self) -> ScalarView {
        match self {
            Scalar::Number(n) => ScalarView::Number(*n),
            Scalar::Bytes(b) => ScalarView::Bytes(b@),
        }
    }
}

/// The view of an optional bound.
pub open spec fn opt_scalar(s: Option<Scalar>) -> Option<ScalarView> {
    match s {
        Some(v) => Some(v@),
        None => None,
    }
}

/// The elements of an array, each present or null.
#[derive(Clone, Debug, PartialEq, Eq)]
pub enum Values {
    /// Elements of a boolean, integer, temporal, decimal or floating-point
    /// type.
    Numbers(Vec<Option<Number>>),
    /// Elements of a text or binary type.
    Bytes(Vec<Option<Vec<u8>>>),
    /// Elements of a type for which no statistics are computed.
    Other,
}

impl Values {
    /// The elements, each as what it stands for.
    pub open spec fn elements(self) -> Seq<Option<ScalarView>> {
        match self {
            Values::Numbers(v) => Seq::new(
                v@.len(),
                |j: int|
                    match v@[j] {
                        Some(n) => Some(ScalarView::Number(n)),
                        None => None,
                    },
            ),
            Values::Bytes(v) => Seq::new(
                v@.len(),
                |j: int|
                    match v@[j] {
                        Some(b) => Some(ScalarView::Bytes(b@)),
                        None => None,
                    },
            ),
            Values::Other => Seq::empty(),
        }
    }
}

/// An array of elements of one type. A dictionary-encoded array holds its
/// distinct values in `values` and, in `keys`, for each row the place of its
/// value among them.
#[derive(Clone, Debug, PartialEq, Eq)]
pub struct Array {
    /// The declared type of the elements.
    pub data_type: DataType,
    /// The elements; of a dictionary-encoded array, the dictionary's values.
    pub values: Values,
    /// The rows of a dictionary-encoded array, as places in `values`.
    pub keys: Option<Vec<Option<u32>>>,
}

impl Array {
    /// The elements that statistics are computed over.
    pub open spec fn elements(self) -> Seq<Option<ScalarView>> {
        self.values.elements()
    }

    /// The array holds elements of its declared type and of nothing else.
    pub open spec fn wf(self) -> bool {
        match self.values {
            Values::Numbers(v) => {
                &&& self.data_type.kind_of() != Kind::Text
                &&& self.data_type.kind_of() != Kind::Binary
                &&& self.data_type.kind_of() != Kind::Unsupported
                &&& forall|j: int|
                    0 <= j < v@.len() ==> match #[trigger] v@[j] {
                        Some(n) => self.data_type.holds(n),
                        None => true,
                    }
            },
            Values::Bytes(_) => self.data_type.kind_of() == Kind::Text || self.data_type.kind_of()
                == Kind::Binary,
            Values::Other => self.data_type.kind_of() == Kind::Unsupported,
        }
    }

    /// Whether the array holds elements of its declared type and of nothing
    /// else.
    pub fn is_wf(&self) -> (ok: bool)
        ensures
            ok == self.wf(),
    {
        let kind = self.data_type.kind();
        match &self.values {
            Values::Numbers(values) => {
                if kind == Kind::Text || kind == Kind::Binary || kind == Kind::Unsupported {
                    return false;
                }
                let mut j: usize = 0;
                while j < values.len()
                    invariant
                        j <= values@.len(),
                        self.values == Values::Numbers(*values),
                        kind == self.data_type.kind_of(),
                        kind != Kind::Text && kind != Kind::Binary && kind != Kind::Unsupported,
                        forall|k: int|
                            0 <= k < j ==> match #[trigger] values@[k] {
                                Some(n) => self.data_type.holds(n),
                                None => true,
                            },
                    decreases values@.len() - j,
                {
                    match &values[j] {
                        Some(n) => {
                            if !self.data_type.has_element(n) {
                                assert(values@[j as int] == Some(*n));
                                return false;
                            }
                        },
                        None => {},
                    }
                    j += 1;
                }
                true
            },
            Values::Bytes(_) => kind == Kind::Text || kind == Kind::Binary,
            Values::Other => kind == Kind::Unsupported,
        }
    }

    /// An array of `data_type` that holds `values` as they are.
    pub fn new(data_type: DataType, values: Values) -> (array: Array)
        ensures
            array.data_type == data_type,
            array.values == values,
            array.keys is None,
    {
        Array { data_type, values, keys: None }
    }

    /// A dictionary-encoded array of `data_type` with the distinct values
    /// `values`, whose rows are the places `keys`.
    pub fn dictionary(data_type: DataType, keys: Vec<Option<u32>>, values: Values) -> (array: Array)
        ensures
            array.data_type == data_type,
            array.values == values,
            array.keys == Some(keys),
    {
        Array { data_type, values, keys: Some(keys) }
    }
}

} // verus!
