//! A dynamic representation of CBOR items.

use vstd::prelude::*;

verus! {

/// An integer in the range of CBOR major types 0 and 1, that is
/// `-2^64 ..= 2^64 - 1`.
#[derive(Copy, Clone, Debug, PartialEq, Eq, Structural)]
pub struct Integer(i128);

/// The least value of [`Integer`].
pub open spec fn integer_min() -> int {
    -0x1_0000_0000_0000_0000
}

/// The greatest value of [`Integer`].
pub open spec fn integer_max() -> int {
    0xffff_ffff_ffff_ffff
}

impl View for Integer {
    type V = int;

    closed spec fn view(&self) -> int {
        self.0 as int
    }
}

impl Integer {
    /// Whether the value lies in the CBOR integer range.
    pub closed spec fn wf(self) -> bool {
        integer_min() <= self.0 <= integer_max()
    }

    /// The integer of an unsigned 64-bit value.
    pub fn from_u64(value: u64) -> (i: Integer)
        ensures
            i@ == value,
            i.wf(),
    {
        Integer(value as i128)
    }

    /// The integer of a signed 64-bit value.
    pub fn from_i64(value: i64) -> (i: Integer)
        ensures
            i@ == value,
            i.wf(),
    {
        Integer(value as i128)
    }

    /// The integer of a 128-bit value, if it lies in the CBOR range.
    pub fn try_from_i128(value: i128) -> (r: Option<Integer>)
        ensures
            r is Some <==> integer_min() <= value <= integer_max(),
            r matches Some(i) ==> i@ == value && i.wf(),
    {
        if -0x1_0000_0000_0000_0000i128 <= value && value <= 0xffff_ffff_ffff_ffffi128 {
            Some(Integer(value))
        } else {
            None
        }
    }

    /// The negative integer `-1 - n` of a major type 1 argument `n`.
    pub fn from_negative_arg(n: u64) -> (i: Integer)
        ensures
            i@ == -1 - n,
            i.wf(),
    {
        Integer(-1i128 - n as i128)
    }

    /// The numeric value.
    pub fn value(&self) -> (v: i128)
        ensures
            v == self@,
            self.wf() ==> integer_min() <= v <= integer_max(),
    {
        self.0
    }
}

/// A simple value (major type 7) other than the reserved values 24 to 31.
#[derive(Copy, Clone, Debug, PartialEq, Eq, Structural)]
pub struct Simple(u8);

impl View for Simple {
    type V = u8;

    closed spec fn view(&self) -> u8 {
        self.0
    }
}

/// Whether a simple value number is reserved (RFC 8949 §3.3).
pub open spec fn simple_reserved(value: u8) -> bool {
    24 <= value <= 31
}

impl Simple {
    /// Whether the value is not a reserved one.
    pub closed spec fn wf(self) -> bool {
        !simple_reserved(self.0)
    }

    /// The simple value with the given number; reserved numbers have none.
    pub fn new(value: u8) -> (r: Option<Simple>)
        ensures
            r is Some <==> !simple_reserved(value),
            r matches Some(s) ==> s@ == value && s.wf(),
    {
        if 24 <= value && value <= 31 {
            None
        } else {
            Some(Simple(value))
        }
    }

    /// The number of the simple value.
    pub fn value(&self) -> (v: u8)
        ensures
            v == self@,
            self.wf() ==> !simple_reserved(v),
    {
        self.0
    }
}

/// A CBOR item in memory.
///
/// Floating-point values are held as their binary64 bit patterns.
#[derive(Debug, PartialEq)]
pub enum Value {
    /// An integer (major types 0 and 1).
    Integer(Integer),
    /// A byte string.
    Bytes(Vec<u8>),
    /// A floating-point value, as its binary64 bit pattern.
    Float(u64),
    /// A text string.
    Text(String),
    /// A boolean.
    Bool(bool),
    /// Null.
    Null,
    /// A tagged item.
    Tag(u64, Box<Value>),
    /// An array.
    Array(Vec<Value>),
    /// A map, as its key/value pairs in order.
    Mapping(Vec<(Value, Value)>),
    /// Any other simple value.
    Simple(Simple),
}

/// The mathematical content of a [`Value`].
pub enum ValueView {
    Integer(int),
    Bytes(Seq<u8>),
    Float(u64),
    Text(Seq<char>),
    Bool(bool),
    Null,
    Tag(u64, Box<ValueView>),
    Array(Seq<ValueView>),
    Mapping(Seq<(ValueView, ValueView)>),
    Simple(u8),
}

/// The views of a sequence of values.
pub open spec fn view_items(items: Seq<Value>) -> Seq<ValueView>
    decreases items,
{
    if items.len() == 0 {
        Seq::empty()
    } else {
        view_items(items.drop_last()).push(items.last().view())
    }
}

/// The views of a sequence of key/value pairs.
pub open spec fn view_pairs(pairs: Seq<(Value, Value)>) -> Seq<(ValueView, ValueView)>
    decreases pairs,
{
    if pairs.len() == 0 {
        Seq::empty()
    } else {
        view_pairs(pairs.drop_last()).push((pairs.last().0.view(), pairs.last().1.view()))
    }
}

impl View for Value {
    type V = ValueView;

    open spec fn view(&self) -> ValueView
        decreases self,
    {
        match self {
            Value::Integer(i) => ValueView::Integer(i@),
            Value::Bytes(b) => ValueView::Bytes(b@),
            Value::Float(x) => ValueView::Float(*x),
            Value::Text(t) => ValueView::Text(t@),
            Value::Bool(b) => ValueView::Bool(*b),
            Value::Null => ValueView::Null,
            Value::Tag(t, inner) => ValueView::Tag(*t, Box::new((**inner).view())),
            Value::Array(items) => ValueView::Array(view_items(items@)),
            Value::Mapping(pairs) => ValueView::Mapping(view_pairs(pairs@)),
            Value::Simple(s) => ValueView::Simple(s@),
        }
    }
}

impl Value {
    /// Whether every integer and simple value inside lies in its range.
    pub open spec fn wf(&self) -> bool
        decreases self,
    {
        match self {
            Value::Integer(i) => i.wf(),
            Value::Simple(s) => s.wf(),
            Value::Tag(_, inner) => (**inner).wf(),
            Value::Array(items) => forall|i: int| 0 <= i < items@.len() ==> (#[trigger] items@[i]).wf(),
            Value::Mapping(pairs) => forall|i: int|
                0 <= i < pairs@.len() ==> (#[trigger] pairs@[i]).0.wf() && pairs@[i].1.wf(),
            _ => true,
        }
    }
}


/// The views of a sequence of values, element by element.
pub proof fn lemma_view_items(items: Seq<Value>)
    ensures
        view_items(items).len() == items.len(),
        forall|i: int| 0 <= i < items.len() ==> #[trigger] view_items(items)[i] == items[i]@,
    decreases items.len(),
{
    if items.len() > 0 {
        lemma_view_items(items.drop_last());
        assert(view_items(items) == view_items(items.drop_last()).push(items.last().view()));
    } else {
        assert(view_items(items) == Seq::<ValueView>::empty());
    }
}

/// The views of a sequence of pairs, element by element.
pub proof fn lemma_view_pairs(pairs: Seq<(Value, Value)>)
    ensures
        view_pairs(pairs).len() == pairs.len(),
        forall|i: int|
            0 <= i < pairs.len() ==> #[trigger] view_pairs(pairs)[i] == (pairs[i].0@, pairs[i].1@),
    decreases pairs.len(),
{
    if pairs.len() > 0 {
        lemma_view_pairs(pairs.drop_last());
        assert(view_pairs(pairs) == view_pairs(pairs.drop_last()).push(
            (pairs.last().0.view(), pairs.last().1.view()),
        ));
    } else {
        assert(view_pairs(pairs) == Seq::<(ValueView, ValueView)>::empty());
    }
}

} // verus!
