//! The values that describe themselves to the encoder: numbers, booleans,
//! characters, text, optional values and sequences of any of these.

use vstd::prelude::*;
use crate::arr::{
    carried, failure, lead, lemma_frame_closed, lemma_frame_item, lemma_frame_opened,
    lemma_moved_then, lemma_moved_within, moved, Encode, Ser, SerError,
};
use crate::shape::{
    close_brace, comma, joined, line_end, open_brace, text, whole, whole_upto, Shape,
};
use crate::sink::{state, Sink};

verus! {

impl Encode for bool {
    open spec fn shape(&self) -> Shape {
        Shape::Bool(*self)
    }

    fn encode<W: Sink>(&self, ser: &Ser, wtr: &mut W) -> (r: Result<(), SerError>) {
        ser.serialize_bool(wtr, *self)
    }
}

impl Encode for i8 {
    open spec fn shape(&self) -> Shape {
        Shape::Number(*self as int)
    }

    fn encode<W: Sink>(&self, ser: &Ser, wtr: &mut W) -> (r: Result<(), SerError>) {
        ser.serialize_i8(wtr, *self)
    }
}

impl Encode for i16 {
    open spec fn shape(&self) -> Shape {
        Shape::Number(*self as int)
    }

    fn encode<W: Sink>(&self, ser: &Ser, wtr: &mut W) -> (r: Result<(), SerError>) {
        ser.serialize_i16(wtr, *self)
    }
}

impl Encode for i32 {
    open spec fn shape(&self) -> Shape {
        Shape::Number(*self as int)
    }

    fn encode<W: Sink>(&self, ser: &Ser, wtr: &mut W) -> (r: Result<(), SerError>) {
        ser.serialize_i32(wtr, *self)
    }
}

impl Encode for i64 {
    open spec fn shape(&self) -> Shape {
        Shape::Number(*self as int)
    }

    fn encode<W: Sink>(&self, ser: &Ser, wtr: &mut W) -> (r: Result<(), SerError>) {
        ser.serialize_i64(wtr, *self)
    }
}

impl Encode for u8 {
    open spec fn shape(&self) -> Shape {
        Shape::Number(*self as int)
    }

    fn encode<W: Sink>(&self, ser: &Ser, wtr: &mut W) -> (r: Result<(), SerError>) {
        ser.serialize_u8(wtr, *self)
    }
}

impl Encode for u16 {
    open spec fn shape(&self) -> Shape {
        Shape::Number(*self as int)
    }

    fn encode<W: Sink>(&self, ser: &Ser, wtr: &mut W) -> (r: Result<(), SerError>) {
        ser.serialize_u16(wtr, *self)
    }
}

impl Encode for u32 {
    open spec fn shape(&self) -> Shape {
        Shape::Number(*self as int)
    }

    fn encode<W: Sink>(&self, ser: &Ser, wtr: &mut W) -> (r: Result<(), SerError>) {
        ser.serialize_u32(wtr, *self)
    }
}

impl Encode for u64 {
    open spec fn shape(&self) -> Shape {
        Shape::Number(*self as int)
    }

    fn encode<W: Sink>(&self, ser: &Ser, wtr: &mut W) -> (r: Result<(), SerError>) {
        ser.serialize_u64(wtr, *self)
    }
}

impl Encode for char {
    open spec fn shape(&self) -> Shape {
        Shape::Char(*self)
    }

    fn encode<W: Sink>(&self, ser: &Ser, wtr: &mut W) -> (r: Result<(), SerError>) {
        ser.serialize_char(wtr, *self)
    }
}

impl Encode for String {
    open spec fn shape(&self) -> Shape {
        Shape::Text(self@)
    }

    fn encode<W: Sink>(&self, ser: &Ser, wtr: &mut W) -> (r: Result<(), SerError>) {
        ser.serialize_str(wtr, self.as_str())
    }
}

/// A value that may be missing: a missing one has no text at all.
impl<T: Encode> Encode for Option<T> {
    open spec fn shape(&self) -> Shape {
        match self {
            Some(v) => v.shape(),
            None => Shape::Absent,
        }
    }

    fn encode<W: Sink>(&self, ser: &Ser, wtr: &mut W) -> (r: Result<(), SerError>) {
        match self {
            Some(v) => ser.serialize_some(wtr, v),
            None => {
                assert(wtr.taken() + Seq::<u8>::empty() =~= wtr.taken());
                ser.serialize_none(wtr)
            },
        }
    }
}

/// A sequence: its elements between braces, with commas between them.
impl<T: Encode> Encode for Vec<T> {
    open spec fn shape(&self) -> Shape {
        Shape::List(Seq::new(self@.len(), |i: int| self@[i].shape()))
    }

    fn encode<W: Sink>(&self, ser: &Ser, wtr: &mut W) -> (r: Result<(), SerError>) {
        let ghost items = Seq::new(self@.len(), |i: int| self@[i].shape());
        let ghost b = state(*wtr);
        let opened = ser.serialize_seq(wtr, Some(self.len()));
        proof {
            lemma_frame_opened(
                b,
                state(*wtr),
                open_brace(),
                items,
                comma(),
                close_brace(),
                failure(opened),
            );
        }
        let mut seq = match opened {
            Ok(seq) => seq,
            Err(e) => {
                return Err(e);
            },
        };
        let mut i: usize = 0;
        while i < self.len()
            invariant
                i <= self@.len(),
                b == state(*old(wtr)),
                items == Seq::new(self@.len(), |i: int| self@[i].shape()),
                whole_upto(items, i as int),
                i == 0 ==> seq.prev is Open,
                i > 0 ==> seq.prev is Item,
                moved(
                    b,
                    state(*wtr),
                    open_brace() + joined(items, i as nat, comma()),
                    true,
                    None,
                ),
            decreases self@.len() - i,
        {
            let ghost m = state(*wtr);
            let step = seq.serialize_element(wtr, &self[i]);
            proof {
                    lemma_frame_item(
                    b,
                    m,
                    state(*wtr),
                    open_brace(),
                    items,
                    i as nat,
                    comma(),
                    close_brace(),
                    failure(step),
                );
            }
            match step {
                Ok(()) => {},
                Err(e) => {
                    return Err(e);
                },
            }
            i += 1;
        }
        let ghost m = state(*wtr);
        let closed = seq.end(wtr);
        proof {
            lemma_frame_closed(
                b,
                m,
                state(*wtr),
                open_brace(),
                items,
                comma(),
                close_brace(),
                failure(closed),
            );
        }
        closed
    }
}

/// A value whose shape is only known when the program runs.
pub enum Value {
    /// A signed integer.
    Signed(i64),
    /// An unsigned integer.
    Unsigned(u64),
    /// A boolean.
    Bool(bool),
    /// A single character.
    Char(char),
    /// A short text.
    Text(String),
    /// A value that is missing.
    Absent,
    /// An ordered sequence of values.
    List(Vec<Value>),
    /// A row of named fields.
    Row(Vec<(String, Value)>),
    /// A byte blob. The format has no text for it.
    Bytes(Vec<u8>),
    /// A tuple. The format has no text for it.
    Tuple(Vec<Value>),
    /// A keyed map. The format has no text for it.
    Keyed(Vec<(Value, Value)>),
}

/// The shape that `v` shows to the encoder.
pub open spec fn value_shape(v: Value) -> Shape
    decreases v,
{
    match v {
        Value::Signed(n) => Shape::Number(n as int),
        Value::Unsigned(n) => Shape::Number(n as int),
        Value::Bool(b) => Shape::Bool(b),
        Value::Char(c) => Shape::Char(c),
        Value::Text(t) => Shape::Text(t@),
        Value::Absent => Shape::Absent,
        Value::List(items) => Shape::List(
            Seq::new(
                items@.len(),
                |i: int|
                    if 0 <= i < items@.len() {
                        value_shape(items@[i])
                    } else {
                        Shape::Absent
                    },
            ),
        ),
        Value::Row(fields) => Shape::Row(
            Seq::new(
                fields@.len(),
                |i: int|
                    if 0 <= i < fields@.len() {
                        value_shape(fields@[i].1)
                    } else {
                        Shape::Absent
                    },
            ),
        ),
        Value::Bytes(_) => Shape::Opaque,
        Value::Tuple(_) => Shape::Opaque,
        Value::Keyed(_) => Shape::Opaque,
    }
}

/// Writes `val` as the next element of the sequence that `seq` encodes.
fn encode_element<W: Sink>(seq: &mut Ser, wtr: &mut W, val: &Value) -> (r: Result<(), SerError>)
    ensures
        carried(
            *old(wtr),
            *final(wtr),
            lead(old(seq).prev) + text(value_shape(*val), false),
            whole(value_shape(*val), false),
            r,
        ),
        final(seq).prev is Item,
    decreases *val, 1nat,
{
    let ghost b = state(*wtr);
    let ghost item = text(value_shape(*val), false);
    match seq.separate(wtr) {
        Ok(()) => {},
        Err(e) => {
            proof {
                lemma_moved_within(
                    b,
                    state(*wtr),
                    lead(old(seq).prev),
                    lead(old(seq).prev) + item,
                    true,
                    whole(value_shape(*val), false),
                    Some(e),
                );
            }
            return Err(e);
        },
    }
    let ghost m = state(*wtr);
    let r = encode_value(val, seq, wtr);
    proof {
        lemma_moved_then(
            b,
            m,
            state(*wtr),
            lead(old(seq).prev),
            item,
            whole(value_shape(*val), false),
            failure(r),
        );
    }
    r
}

/// Writes `val` where `ser` stands: a single value as it reads, a sequence
/// between braces, a row (at the top only) as its fields and a line feed.
fn encode_value<W: Sink>(val: &Value, ser: &Ser, wtr: &mut W) -> (r: Result<(), SerError>)
    ensures
        carried(
            *old(wtr),
            *final(wtr),
            text(value_shape(*val), ser.top()),
            whole(value_shape(*val), ser.top()),
            r,
        ),
    decreases *val, 0nat,
{
    let ghost b = state(*wtr);
    match val {
        Value::Signed(n) => ser.serialize_i64(wtr, *n),
        Value::Unsigned(n) => ser.serialize_u64(wtr, *n),
        Value::Bool(v) => ser.serialize_bool(wtr, *v),
        Value::Char(c) => ser.serialize_char(wtr, *c),
        Value::Text(t) => ser.serialize_str(wtr, t.as_str()),
        Value::Absent => {
            assert(b.taken + Seq::<u8>::empty() =~= b.taken);
            ser.serialize_none(wtr)
        },
        Value::List(list) => {
            let ghost items = value_shape(*val)->List_0;
            let opened = ser.serialize_seq(wtr, Some(list.len()));
            proof {
                lemma_frame_opened(
                    b,
                    state(*wtr),
                    open_brace(),
                    items,
                    comma(),
                    close_brace(),
                    failure(opened),
                );
            }
            let mut seq = match opened {
                Ok(seq) => seq,
                Err(e) => {
                    return Err(e);
                },
            };
            let mut i: usize = 0;
            while i < list.len()
                invariant
                    i <= list@.len(),
                    b == state(*old(wtr)),
                    *val == Value::List(*list),
                    items == value_shape(*val)->List_0,
                    whole_upto(items, i as int),
                    i == 0 ==> seq.prev is Open,
                    i > 0 ==> seq.prev is Item,
                    moved(
                        b,
                        state(*wtr),
                        open_brace() + joined(items, i as nat, comma()),
                        true,
                        None,
                    ),
                decreases list@.len() - i,
            {
                let ghost m = state(*wtr);
                let step = encode_element(&mut seq, wtr, &list[i]);
                proof {
                    lemma_frame_item(
                        b,
                        m,
                        state(*wtr),
                        open_brace(),
                        items,
                        i as nat,
                        comma(),
                        close_brace(),
                        failure(step),
                    );
                }
                match step {
                    Ok(()) => {},
                    Err(e) => {
                        return Err(e);
                    },
                }
                i += 1;
            }
            let ghost m = state(*wtr);
            let closed = seq.end(wtr);
            proof {
                lemma_frame_closed(
                    b,
                    m,
                    state(*wtr),
                    open_brace(),
                    items,
                    comma(),
                    close_brace(),
                    failure(closed),
                );
            }
            closed
        },
        Value::Row(fields) => {
            let ghost items = value_shape(*val)->Row_0;
            let ghost none = Seq::<u8>::empty();
            let row = match ser.serialize_struct("", fields.len()) {
                Ok(row) => row,
                Err(e) => {
                    assert(b.taken + none =~= b.taken);
                    return Err(e);
                },
            };
            proof {
                assert(b.taken + none =~= b.taken);
                lemma_frame_opened(b, b, none, items, none, line_end(), None);
            }
            let mut i: usize = 0;
            while i < fields.len()
                invariant
                    i <= fields@.len(),
                    b == state(*old(wtr)),
                    none == Seq::<u8>::empty(),
                    ser.top(),
                    !row.top(),
                    *val == Value::Row(*fields),
                    items == value_shape(*val)->Row_0,
                    whole_upto(items, i as int),
                    moved(
                        b,
                        state(*wtr),
                        none + joined(items, i as nat, none),
                        true,
                        None,
                    ),
                decreases fields@.len() - i,
            {
                let ghost m = state(*wtr);
                let step = encode_value(&fields[i].1, &row, wtr);
                proof {
                    assert(none + text(items[i as int], false) =~= text(items[i as int], false));
                    lemma_frame_item(
                        b,
                        m,
                        state(*wtr),
                        none,
                        items,
                        i as nat,
                        none,
                        line_end(),
                        failure(step),
                    );
                }
                match step {
                    Ok(()) => {},
                    Err(e) => {
                        return Err(e);
                    },
                }
                i += 1;
            }
            let ghost m = state(*wtr);
            let closed = row.end_struct(wtr);
            proof {
                lemma_frame_closed(
                    b,
                    m,
                    state(*wtr),
                    none,
                    items,
                    none,
                    line_end(),
                    failure(closed),
                );
            }
            closed
        },
        Value::Bytes(bytes) => {
            assert(b.taken + Seq::<u8>::empty() =~= b.taken);
            ser.serialize_bytes(bytes.as_slice())
        },
        Value::Tuple(parts) => {
            assert(b.taken + Seq::<u8>::empty() =~= b.taken);
            match ser.serialize_tuple(parts.len()) {
                Ok(_) => Ok(()),
                Err(e) => Err(e),
            }
        },
        Value::Keyed(pairs) => {
            assert(b.taken + Seq::<u8>::empty() =~= b.taken);
            match ser.serialize_map(Some(pairs.len())) {
                Ok(_) => Ok(()),
                Err(e) => Err(e),
            }
        },
    }
}

impl Encode for Value {
    open spec fn shape(&self) -> Shape {
        value_shape(*self)
    }

    fn encode<W: Sink>(&self, ser: &Ser, wtr: &mut W) -> (r: Result<(), SerError>) {
        encode_value(self, ser, wtr)
    }
}

} // verus!
