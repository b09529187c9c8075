//! The value tree that the decoders build and the encoders read.
//!
//! Byte payloads are borrowed slices: a decoded tree points into the input it
//! was decoded from. Each type has a view, a mathematical value over `Seq`,
//! in which the contracts of the crate are stated.

use vstd::prelude::*;

use crate::de::raw::{float, is_float_literal, lemma_float_is_literal, lemma_float_read};

pub mod conversion;

verus! {

/// A session: named values in the order in which they were stored.
pub type Session<'a> = Vec<SessionEntry<'a>>;

/// Who may see a property of an object. On the wire it is folded into the
/// property's name.
#[derive(Debug, Clone, Copy, PartialEq, Eq, Structural)]
pub enum ObjectPropertyVisibility {
    Public,
    Protected,
    Private,
}

/// A floating-point value as the wire spells it: one of the three special
/// tokens, or a literal of digits kept as it was written.
#[derive(Debug, Clone, Copy, PartialEq, Eq)]
pub enum Decimal<'a> {
    /// `NAN`
    Nan,
    /// `INF`
    Infinity,
    /// `-INF`
    NegInfinity,
    /// An optional minus sign, digits, and optionally a dot and digits.
    Literal(&'a [u8]),
}

/// The key of an array entry.
#[derive(Debug, Clone, Copy, PartialEq, Eq, PartialOrd, Ord, Hash)]
pub enum ArrayKey<'a> {
    Integer(i64),
    String(&'a [u8]),
}

/// One entry of an array. Entries keep their order, and equal keys may occur
/// more than once.
#[derive(Debug, PartialEq)]
pub struct ArrayEntry<'a> {
    pub key: ArrayKey<'a>,
    pub value: Value<'a>,
}

/// One property of an object.
#[derive(Debug, PartialEq)]
pub struct ObjectProperty<'a> {
    pub visibility: ObjectPropertyVisibility,
    pub name: &'a [u8],
    pub value: Value<'a>,
}

/// A value of the wire format.
#[derive(Debug, PartialEq)]
pub enum Value<'a> {
    Null,
    Boolean(bool),
    Integer(i64),
    Decimal(Decimal<'a>),
    /// A byte string; its length counts bytes, not characters.
    String(&'a [u8]),
    Array(Vec<ArrayEntry<'a>>),
    Object { class_name: &'a [u8], properties: Vec<ObjectProperty<'a>> },
    /// An object that serializes itself: its data is carried through unread.
    CustomObject { class_name: &'a [u8], data: &'a [u8] },
    /// A one-based index of an earlier value; it is not resolved here.
    ValueReference(usize),
    /// A one-based index of an earlier object; it is not resolved here.
    ObjectReference(usize),
}

/// One named value of a session.
#[derive(Debug, PartialEq)]
pub struct SessionEntry<'a> {
    pub key: &'a [u8],
    pub value: Value<'a>,
}

/// What a `Decimal` is: its token, with the bytes of a literal as a sequence.
pub ghost enum DecimalView {
    Nan,
    Infinity,
    NegInfinity,
    Literal(Seq<u8>),
}

/// What an `ArrayKey` is.
pub ghost enum ArrayKeyView {
    Integer(i64),
    String(Seq<u8>),
}

/// What an `ArrayEntry` is.
pub ghost struct ArrayEntryView {
    pub key: ArrayKeyView,
    pub value: ValueView,
}

/// What an `ObjectProperty` is.
pub ghost struct ObjectPropertyView {
    pub visibility: ObjectPropertyVisibility,
    pub name: Seq<u8>,
    pub value: ValueView,
}

/// What a `Value` is: the same tree, with sequences for slices and vectors.
pub ghost enum ValueView {
    Null,
    Boolean(bool),
    Integer(i64),
    Decimal(DecimalView),
    String(Seq<u8>),
    Array(Seq<ArrayEntryView>),
    Object { class_name: Seq<u8>, properties: Seq<ObjectPropertyView> },
    CustomObject { class_name: Seq<u8>, data: Seq<u8> },
    ValueReference(usize),
    ObjectReference(usize),
}

/// What a `SessionEntry` is.
pub ghost struct SessionEntryView {
    pub key: Seq<u8>,
    pub value: ValueView,
}

impl View for ObjectPropertyVisibility {
    type V = ObjectPropertyVisibility;

    open spec fn view(&self) -> ObjectPropertyVisibility {
        *self
    }
}

impl<'a> View for Decimal<'a> {
    type V = DecimalView;

    open spec fn view(&self) -> DecimalView {
        match self {
            Decimal::Nan => DecimalView::Nan,
            Decimal::Infinity => DecimalView::Infinity,
            Decimal::NegInfinity => DecimalView::NegInfinity,
            Decimal::Literal(text) => DecimalView::Literal(text@),
        }
    }
}

impl<'a> View for ArrayKey<'a> {
    type V = ArrayKeyView;

    open spec fn view(&self) -> ArrayKeyView {
        match self {
            ArrayKey::Integer(n) => ArrayKeyView::Integer(*n),
            ArrayKey::String(bytes) => ArrayKeyView::String(bytes@),
        }
    }
}

impl<'a> View for ArrayEntry<'a> {
    type V = ArrayEntryView;

    open spec fn view(&self) -> ArrayEntryView
        decreases self,
    {
        ArrayEntryView { key: self.key@, value: self.value@ }
    }
}

impl<'a> View for ObjectProperty<'a> {
    type V = ObjectPropertyView;

    open spec fn view(&self) -> ObjectPropertyView
        decreases self,
    {
        ObjectPropertyView { visibility: self.visibility, name: self.name@, value: self.value@ }
    }
}

/// The views of the entries of an array, in order.
pub open spec fn array_entries_view<'a>(entries: Seq<ArrayEntry<'a>>) -> Seq<ArrayEntryView>
    decreases entries,
{
    Seq::new(
        entries.len(),
        |i: int|
            if 0 <= i < entries.len() {
                entries[i]@
            } else {
                arbitrary()
            },
    )
}

/// The views of the properties of an object, in order.
pub open spec fn properties_view<'a>(properties: Seq<ObjectProperty<'a>>) -> Seq<ObjectPropertyView>
    decreases properties,
{
    Seq::new(
        properties.len(),
        |i: int|
            if 0 <= i < properties.len() {
                properties[i]@
            } else {
                arbitrary()
            },
    )
}

impl<'a> View for Value<'a> {
    type V = ValueView;

    open spec fn view(&self) -> ValueView
        decreases self,
    {
        match self {
            Value::Null => ValueView::Null,
            Value::Boolean(b) => ValueView::Boolean(*b),
            Value::Integer(n) => ValueView::Integer(*n),
            Value::Decimal(d) => ValueView::Decimal(d@),
            Value::String(bytes) => ValueView::String(bytes@),
            Value::Array(entries) => ValueView::Array(array_entries_view(entries@)),
            Value::Object { class_name, properties } => ValueView::Object {
                class_name: class_name@,
                properties: properties_view(properties@),
            },
            Value::CustomObject { class_name, data } => ValueView::CustomObject {
                class_name: class_name@,
                data: data@,
            },
            Value::ValueReference(index) => ValueView::ValueReference(*index),
            Value::ObjectReference(index) => ValueView::ObjectReference(*index),
        }
    }
}

impl<'a> View for SessionEntry<'a> {
    type V = SessionEntryView;

    open spec fn view(&self) -> SessionEntryView {
        SessionEntryView { key: self.key@, value: self.value@ }
    }
}

/// The views of the entries of a session, in order.
pub open spec fn session_view<'a>(entries: Seq<SessionEntry<'a>>) -> Seq<SessionEntryView> {
    Seq::new(entries.len(), |i: int| entries[i]@)
}

impl DecimalView {
    /// A literal is spelled as the grammar of float literals asks.
    pub open spec fn well_formed(self) -> bool {
        self matches DecimalView::Literal(text) ==> is_float_literal(text)
    }
}

impl ValueView {
    /// What every decoded value satisfies: decimal literals are spelled as
    /// the grammar asks, and references are one-based.
    pub open spec fn well_formed(self) -> bool
        decreases self,
    {
        match self {
            ValueView::Decimal(d) => d.well_formed(),
            ValueView::Array(entries) => forall|i: int|
                0 <= i < entries.len() ==> (#[trigger] entries[i]).value.well_formed(),
            ValueView::Object { class_name, properties } => forall|i: int|
                0 <= i < properties.len() ==> (#[trigger] properties[i]).value.well_formed(),
            ValueView::ValueReference(index) => index >= 1,
            ValueView::ObjectReference(index) => index >= 1,
            _ => true,
        }
    }

    /// Arrays and objects are nested at most `depth` deep. A value that is
    /// neither nests within any depth, zero included.
    pub open spec fn nests_within(self, depth: nat) -> bool
        decreases self,
    {
        match self {
            ValueView::Array(entries) => depth >= 1 && forall|i: int|
                0 <= i < entries.len() ==> (#[trigger] entries[i]).value.nests_within((depth - 1) as nat),
            ValueView::Object { class_name, properties } => depth >= 1 && forall|i: int|
                0 <= i < properties.len() ==> (#[trigger] properties[i]).value.nests_within(
                    (depth - 1) as nat,
                ),
            _ => true,
        }
    }
}

impl<'a> Decimal<'a> {
    /// The literal that `text` spells: an optional minus sign, digits, and
    /// optionally a dot with digits behind it. Any other text spells none.
    pub fn literal(text: &'a [u8]) -> (made: Option<Decimal<'a>>)
        ensures
            made == if is_float_literal(text@) {
                Some(Decimal::Literal(text))
            } else {
                None::<Decimal<'a>>
            },
            made matches Some(d) ==> d@.well_formed(),
    {
        proof {
            assert(text@.subrange(0, text@.len() as int) =~= text@);
            lemma_float_is_literal(text@, 0);
            if is_float_literal(text@) {
                lemma_float_read(text@, 0, text@);
            }
        }
        match float(text, 0) {
            Ok((_, end)) => {
                if end == text.len() {
                    Some(Decimal::Literal(text))
                } else {
                    None
                }
            },
            Err(_) => None,
        }
    }
}

impl<'a> Clone for ArrayEntry<'a> {
    fn clone(&self) -> (copy: Self)
        ensures
            copy@ == self@,
        decreases self,
    {
        ArrayEntry { key: self.key, value: self.value.clone() }
    }
}

impl<'a> Clone for ObjectProperty<'a> {
    fn clone(&self) -> (copy: Self)
        ensures
            copy@ == self@,
        decreases self,
    {
        ObjectProperty { visibility: self.visibility, name: self.name, value: self.value.clone() }
    }
}

impl<'a> Clone for Value<'a> {
    fn clone(&self) -> (copy: Self)
        ensures
            copy@ == self@,
        decreases self,
    {
        match self {
            Value::Null => Value::Null,
            Value::Boolean(b) => Value::Boolean(*b),
            Value::Integer(n) => Value::Integer(*n),
            Value::Decimal(d) => Value::Decimal(*d),
            Value::String(bytes) => Value::String(*bytes),
            Value::Array(entries) => {
                let mut copies: Vec<ArrayEntry<'a>> = Vec::new();
                let mut i: usize = 0;
                while i < entries.len()
                    invariant
                        *self == Value::Array(*entries),
                        i <= entries.len(),
                        copies@.len() == i,
                        forall|j: int| 0 <= j < i ==> copies@[j]@ == entries@[j]@,
                    decreases entries.len() - i,
                {
                    proof {
                        assert(decreases_to!(self => self->Array_0@[i as int]));
                    }
                    copies.push(entries[i].clone());
                    i += 1;
                }
                let copy = Value::Array(copies);
                assert(copy@->Array_0 =~= self@->Array_0);
                copy
            },
            Value::Object { class_name, properties } => {
                let mut copies: Vec<ObjectProperty<'a>> = Vec::new();
                let mut i: usize = 0;
                while i < properties.len()
                    invariant
                        *self == (Value::Object { class_name: *class_name, properties: *properties }),
                        i <= properties.len(),
                        copies@.len() == i,
                        forall|j: int| 0 <= j < i ==> copies@[j]@ == properties@[j]@,
                    decreases properties.len() - i,
                {
                    proof {
                        assert(decreases_to!(self => self->properties@[i as int]));
                    }
                    copies.push(properties[i].clone());
                    i += 1;
                }
                let copy = Value::Object { class_name: *class_name, properties: copies };
                assert(copy@->properties =~= self@->properties);
                copy
            },
            Value::CustomObject { class_name, data } => Value::CustomObject {
                class_name: *class_name,
                data: *data,
            },
            Value::ValueReference(index) => Value::ValueReference(*index),
            Value::ObjectReference(index) => Value::ObjectReference(*index),
        }
    }
}

impl<'a> Clone for SessionEntry<'a> {
    fn clone(&self) -> (copy: Self)
        ensures
            copy@ == self@,
    {
        SessionEntry { key: self.key, value: self.value.clone() }
    }
}

} // verus!
