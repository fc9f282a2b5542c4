//! The encoder: it turns the calls that a value makes while it describes
//! itself into the bytes of an array literal, and hands them to a sink as it
//! goes.

use vstd::prelude::*;
use vstd::string::StringExecFns;
use crate::scalar::{bool_text, boolean, char_text, character, int_text, signed, str_text, unsigned};
use crate::shape::{
    close_brace, comma, framed, joined, lemma_framed_stops, lemma_joined_step, line_end, open_brace,
    text, whole, whole_upto, Shape,
};
use crate::sink::{cut_short, fits, less, state, Sink, Tape};

verus! {

/// Why an encoding stopped.
#[derive(Debug)]
pub enum SerError {
    /// The value has a shape that the format has no text for.
    Msg(String),
    /// The sink refused a write; the text is the sink's own.
    WriteErr(String),
}

/// The message of every refused shape.
pub open spec fn refusal() -> Seq<char> {
    "unsupported shape"@
}

/// What stands in front of a sink's message when a write error is shown.
pub open spec fn write_error_lead() -> Seq<char> {
    "write error: "@
}

impl SerError {
    /// The error as a reader sees it.
    pub open spec fn shown(&self) -> Seq<char> {
        match self {
            SerError::Msg(m) => m@,
            SerError::WriteErr(e) => write_error_lead() + e@,
        }
    }

    /// The error as text: a shape error is its message, a write error is the
    /// sink's message behind `write error: `.
    pub fn message(&self) -> (s: String)
        ensures
            s@ == self.shown(),
    {
        match self {
            SerError::Msg(m) => m.clone(),
            SerError::WriteErr(e) => String::from_str("write error: ").concat(e.as_str()),
        }
    }
}

/// The error of a result, if it is one.
pub open spec fn failure<T>(r: Result<T, SerError>) -> Option<SerError> {
    match r {
        Ok(_) => None,
        Err(e) => Some(e),
    }
}

/// How a step that should write `text` left a sink that was as `b` says and
/// is as `a` says.
///
/// Without an error all of `text` was added. A shape error comes when the
/// format has no text for the value, after everything in front of the
/// offending part was added. A write error leaves a part of `text` that stops
/// short of its end, and only a sink that did not vouch for all of `text`
/// gives one. A sink that keeps to its room gives one whenever `text` does
/// not fit, and then holds of `text` what did fit.
pub open spec fn moved(b: Tape, a: Tape, text: Seq<u8>, whole: bool, err: Option<SerError>) -> bool {
    &&& a.strict == b.strict
    &&& match err {
        None => whole && a.taken == b.taken + text && a.room == less(b.room, text.len()),
        Some(SerError::Msg(m)) => !whole && a.taken == b.taken + text && m@ == refusal(),
        Some(SerError::WriteErr(_)) => cut_short(b.taken, a.taken, text) && !fits(
            b.room,
            text.len(),
        ) && (b.strict ==> a.taken == b.taken + text.take(b.room->0 as int)),
    }
    &&& b.strict && !fits(b.room, text.len()) ==> err matches Some(SerError::WriteErr(_))
}

/// [`moved`] between two states of one sink, for the result of a step.
pub open spec fn carried<W: Sink, T>(
    before: W,
    after: W,
    text: Seq<u8>,
    whole: bool,
    r: Result<T, SerError>,
) -> bool {
    moved(state(before), state(after), text, whole, failure(r))
}

/// A step that wrote all of `x`, then a step for `y`, are one step for `x`
/// followed by `y`.
pub proof fn lemma_moved_then(
    b: Tape,
    m: Tape,
    a: Tape,
    x: Seq<u8>,
    y: Seq<u8>,
    whole: bool,
    err: Option<SerError>,
)
    requires
        moved(b, m, x, true, None),
        moved(m, a, y, whole, err),
    ensures
        moved(b, a, x + y, whole, err),
{
    assert(b.taken + x + y =~= b.taken + (x + y));
    match err {
        Some(SerError::WriteErr(_)) => {
            assert((m.taken + y).take(a.taken.len() as int) =~= (b.taken + (x + y)).take(
                a.taken.len() as int,
            ));
            if b.strict {
                let k = b.room->0;
                assert(x + y.take(k - x.len()) =~= (x + y).take(k as int));
                assert(b.taken + x + y.take(k - x.len()) =~= b.taken + (x + y.take(k - x.len())));
            }
        },
        _ => {},
    }
}

/// A write that was cut short within `x` was cut short within any text that
/// begins with `x`.
pub proof fn lemma_moved_within(
    b: Tape,
    a: Tape,
    x: Seq<u8>,
    t: Seq<u8>,
    whole_x: bool,
    whole_t: bool,
    err: Option<SerError>,
)
    requires
        moved(b, a, x, whole_x, err),
        err matches Some(SerError::WriteErr(_)),
        x.is_prefix_of(t),
    ensures
        moved(b, a, t, whole_t, err),
{
    assert((b.taken + x).take(a.taken.len() as int) =~= (b.taken + t).take(a.taken.len() as int));
    if b.strict {
        assert(x.take(b.room->0 as int) =~= t.take(b.room->0 as int));
    }
}

/// The step that wrote `head` has begun the framed text of `items`.
pub proof fn lemma_frame_opened(
    b: Tape,
    a: Tape,
    head: Seq<u8>,
    items: Seq<Shape>,
    sep: Seq<u8>,
    tail: Seq<u8>,
    err: Option<SerError>,
)
    requires
        moved(b, a, head, true, err),
    ensures
        err is None ==> moved(b, a, head + joined(items, 0, sep), true, None),
        err is Some ==> moved(
            b,
            a,
            framed(head, items, sep, tail),
            whole_upto(items, items.len() as int),
            err,
        ),
{
    assert(head + joined(items, 0, sep) =~= head);
    if err is Some {
        assert(head.is_prefix_of(framed(head, items, sep, tail)));
        lemma_moved_within(
            b,
            a,
            head,
            framed(head, items, sep, tail),
            true,
            whole_upto(items, items.len() as int),
            err,
        );
    }
}

/// The step for item `i`, behind the steps for the items before it: without
/// an error the text has grown by that item, and with one the whole encoding
/// has ended as that step did.
pub proof fn lemma_frame_item(
    b: Tape,
    m: Tape,
    a: Tape,
    head: Seq<u8>,
    items: Seq<Shape>,
    i: nat,
    sep: Seq<u8>,
    tail: Seq<u8>,
    err: Option<SerError>,
)
    requires
        i < items.len(),
        whole_upto(items, i as int),
        moved(b, m, head + joined(items, i, sep), true, None),
        moved(
            m,
            a,
            (if i == 0 {
                Seq::empty()
            } else {
                sep
            }) + text(items[i as int], false),
            whole(items[i as int], false),
            err,
        ),
    ensures
        err is None ==> whole_upto(items, (i + 1) as int) && moved(
            b,
            a,
            head + joined(items, i + 1, sep),
            true,
            None,
        ),
        err is Some ==> moved(
            b,
            a,
            framed(head, items, sep, tail),
            whole_upto(items, items.len() as int),
            err,
        ),
{
    let lead = if i == 0 {
        Seq::<u8>::empty()
    } else {
        sep
    };
    let item = text(items[i as int], false);
    lemma_joined_step(items, i, sep);
    lemma_moved_then(
        b,
        m,
        a,
        head + joined(items, i, sep),
        lead + item,
        whole(items[i as int], false),
        err,
    );
    assert(head + joined(items, i, sep) + (lead + item) =~= head + joined(items, i + 1, sep));
    lemma_framed_stops(head, items, i, sep, tail);
    match err {
        None => {},
        Some(SerError::Msg(_)) => {},
        Some(SerError::WriteErr(_)) => {
            lemma_moved_within(
                b,
                a,
                head + joined(items, i + 1, sep),
                framed(head, items, sep, tail),
                whole(items[i as int], false),
                whole_upto(items, items.len() as int),
                err,
            );
        },
    }
}

/// The step that wrote `tail`, behind the steps for all items, has ended the
/// framed text.
pub proof fn lemma_frame_closed(
    b: Tape,
    m: Tape,
    a: Tape,
    head: Seq<u8>,
    items: Seq<Shape>,
    sep: Seq<u8>,
    tail: Seq<u8>,
    err: Option<SerError>,
)
    requires
        whole_upto(items, items.len() as int),
        moved(b, m, head + joined(items, items.len(), sep), true, None),
        moved(m, a, tail, true, err),
    ensures
        moved(b, a, framed(head, items, sep, tail), true, err),
{
    lemma_moved_then(b, m, a, head + joined(items, items.len(), sep), tail, true, err);
}

/// What the encoder last wrote at its level of nesting.
#[derive(Clone, Copy, Debug)]
pub enum Prev {
    /// Nothing: the encoder stands at the top.
    Nothing,
    /// The brace that opened a sequence.
    Open,
    /// An element.
    Item,
}

/// What stands in front of the next element: nothing where the sequence was
/// just opened, a comma otherwise.
pub open spec fn lead(prev: Prev) -> Seq<u8> {
    match prev {
        Prev::Open => Seq::empty(),
        _ => comma(),
    }
}

/// The encoder at one level of nesting. All it remembers is what it wrote
/// last there.
pub struct Ser {
    pub prev: Prev,
}

/// A value that can describe itself to the encoder.
pub trait Encode {
    /// The shape that the value shows.
    spec fn shape(&self) -> Shape;

    /// Describes the value to `ser`, which writes its text to `wtr`.
    fn encode<W: Sink>(&self, ser: &Ser, wtr: &mut W) -> (r: Result<(), SerError>)
        ensures
            carried(
                *old(wtr),
                *final(wtr),
                text(self.shape(), ser.top()),
                whole(self.shape(), ser.top()),
                r,
            ),
    ;
}

/// Hands `bytes` to the sink and turns a refusal into a write error.
fn emit<W: Sink>(wtr: &mut W, bytes: &[u8]) -> (r: Result<(), SerError>)
    ensures
        carried(*old(wtr), *final(wtr), bytes@, true, r),
{
    match wtr.write_all(bytes) {
        Ok(()) => Ok(()),
        Err(e) => Err(SerError::WriteErr(e)),
    }
}

/// Hands one byte to the sink.
fn emit_byte<W: Sink>(wtr: &mut W, byte: u8) -> (r: Result<(), SerError>)
    ensures
        carried(*old(wtr), *final(wtr), seq![byte], true, r),
{
    let one: [u8; 1] = [byte];
    assert(one@ =~= seq![byte]);
    emit(wtr, one.as_slice())
}

/// The error for a shape that the format has no text for.
fn refuse() -> (e: SerError)
    ensures
        e matches SerError::Msg(m) && m@ == refusal(),
{
    SerError::Msg(String::from_str("unsupported shape"))
}

impl Ser {
    /// Whether the encoder stands at the top, with nothing written.
    pub open spec fn top(&self) -> bool {
        self.prev is Nothing
    }

    /// An encoder at the top.
    pub fn new() -> (s: Ser)
        ensures
            s.top(),
    {
        Ser { prev: Prev::Nothing }
    }

    /// Writes `true` or `false`.
    pub fn serialize_bool<W: Sink>(&self, wtr: &mut W, v: bool) -> (r: Result<(), SerError>)
        ensures
            carried(*old(wtr), *final(wtr), bool_text(v), true, r),
    {
        let word = boolean(v);
        emit(wtr, word.as_slice())
    }

    /// Writes `v` in decimal.
    pub fn serialize_i8<W: Sink>(&self, wtr: &mut W, v: i8) -> (r: Result<(), SerError>)
        ensures
            carried(*old(wtr), *final(wtr), int_text(v as int), true, r),
    {
        self.serialize_i64(wtr, v as i64)
    }

    /// Writes `v` in decimal.
    pub fn serialize_i16<W: Sink>(&self, wtr: &mut W, v: i16) -> (r: Result<(), SerError>)
        ensures
            carried(*old(wtr), *final(wtr), int_text(v as int), true, r),
    {
        self.serialize_i64(wtr, v as i64)
    }

    /// Writes `v` in decimal.
    pub fn serialize_i32<W: Sink>(&self, wtr: &mut W, v: i32) -> (r: Result<(), SerError>)
        ensures
            carried(*old(wtr), *final(wtr), int_text(v as int), true, r),
    {
        self.serialize_i64(wtr, v as i64)
    }

    /// Writes `v` in decimal, with a minus sign if it is negative.
    pub fn serialize_i64<W: Sink>(&self, wtr: &mut W, v: i64) -> (r: Result<(), SerError>)
        ensures
            carried(*old(wtr), *final(wtr), int_text(v as int), true, r),
    {
        let figures = signed(v);
        emit(wtr, figures.as_slice())
    }

    /// Writes `v` in decimal.
    pub fn serialize_u8<W: Sink>(&self, wtr: &mut W, v: u8) -> (r: Result<(), SerError>)
        ensures
            carried(*old(wtr), *final(wtr), int_text(v as int), true, r),
    {
        self.serialize_u64(wtr, v as u64)
    }

    /// Writes `v` in decimal.
    pub fn serialize_u16<W: Sink>(&self, wtr: &mut W, v: u16) -> (r: Result<(), SerError>)
        ensures
            carried(*old(wtr), *final(wtr), int_text(v as int), true, r),
    {
        self.serialize_u64(wtr, v as u64)
    }

    /// Writes `v` in decimal.
    pub fn serialize_u32<W: Sink>(&self, wtr: &mut W, v: u32) -> (r: Result<(), SerError>)
        ensures
            carried(*old(wtr), *final(wtr), int_text(v as int), true, r),
    {
        self.serialize_u64(wtr, v as u64)
    }

    /// Writes `v` in decimal.
    pub fn serialize_u64<W: Sink>(&self, wtr: &mut W, v: u64) -> (r: Result<(), SerError>)
        ensures
            carried(*old(wtr), *final(wtr), int_text(v as int), true, r),
    {
        let figures = unsigned(v);
        emit(wtr, figures.as_slice())
    }

    /// Writes the character itself, as UTF-8.
    pub fn serialize_char<W: Sink>(&self, wtr: &mut W, v: char) -> (r: Result<(), SerError>)
        ensures
            carried(*old(wtr), *final(wtr), char_text(v), true, r),
    {
        let bytes = character(v);
        emit(wtr, bytes.as_slice())
    }

    /// Writes the text itself, as UTF-8 and with nothing escaped.
    pub fn serialize_str<W: Sink>(&self, wtr: &mut W, v: &str) -> (r: Result<(), SerError>)
        ensures
            carried(*old(wtr), *final(wtr), str_text(v@), true, r),
    {
        emit(wtr, v.as_bytes())
    }

    /// A missing value: nothing is written.
    pub fn serialize_none<W: Sink>(&self, wtr: &mut W) -> (r: Result<(), SerError>)
        ensures
            r is Ok,
            *final(wtr) == *old(wtr),
    {
        Ok(())
    }

    /// The empty value: nothing is written.
    pub fn serialize_unit<W: Sink>(&self, wtr: &mut W) -> (r: Result<(), SerError>)
        ensures
            r is Ok,
            *final(wtr) == *old(wtr),
    {
        self.serialize_none(wtr)
    }

    /// A value that is there: it describes itself.
    pub fn serialize_some<W: Sink, T: Encode>(&self, wtr: &mut W, t: &T) -> (r: Result<
        (),
        SerError,
    >)
        ensures
            carried(
                *old(wtr),
                *final(wtr),
                text(t.shape(), self.top()),
                whole(t.shape(), self.top()),
                r,
            ),
    {
        t.encode(self, wtr)
    }

    /// A byte blob: refused.
    pub fn serialize_bytes(&self, v: &[u8]) -> (r: Result<(), SerError>)
        ensures
            r matches Err(SerError::Msg(m)) && m@ == refusal(),
    {
        Err(refuse())
    }

    /// A tuple: refused.
    pub fn serialize_tuple(&self, len: usize) -> (r: Result<Ser, SerError>)
        ensures
            r matches Err(SerError::Msg(m)) && m@ == refusal(),
    {
        Err(refuse())
    }

    /// A keyed map: refused.
    pub fn serialize_map(&self, len: Option<usize>) -> (r: Result<Ser, SerError>)
        ensures
            r matches Err(SerError::Msg(m)) && m@ == refusal(),
    {
        Err(refuse())
    }

    /// An enum variant that carries data: refused.
    pub fn serialize_variant(&self, name: &str) -> (r: Result<Ser, SerError>)
        ensures
            r matches Err(SerError::Msg(m)) && m@ == refusal(),
    {
        Err(refuse())
    }

    /// Opens a sequence: writes `{` and gives the encoder for its elements.
    /// The length is not needed and not looked at.
    pub fn serialize_seq<W: Sink>(&self, wtr: &mut W, len: Option<usize>) -> (r: Result<
        Ser,
        SerError,
    >)
        ensures
            carried(*old(wtr), *final(wtr), open_brace(), true, r),
            r matches Ok(s) ==> s.prev is Open,
    {
        match emit_byte(wtr, 123u8) {
            Ok(()) => Ok(Ser { prev: Prev::Open }),
            Err(e) => Err(e),
        }
    }

    /// Makes room for the next element: writes a comma unless the sequence
    /// was just opened, and remembers that an element is coming now.
    pub fn separate<W: Sink>(&mut self, wtr: &mut W) -> (r: Result<(), SerError>)
        ensures
            carried(*old(wtr), *final(wtr), lead(old(self).prev), true, r),
            final(self).prev is Item,
    {
        let before = self.prev;
        self.prev = Prev::Item;
        match before {
            Prev::Open => {
                assert(wtr.taken() + Seq::<u8>::empty() =~= wtr.taken());
                Ok(())
            },
            _ => emit_byte(wtr, 44u8),
        }
    }

    /// Writes the next element of the sequence, behind a comma unless it is
    /// the first.
    pub fn serialize_element<W: Sink, T: Encode>(&mut self, wtr: &mut W, val: &T) -> (r: Result<
        (),
        SerError,
    >)
        ensures
            carried(
                *old(wtr),
                *final(wtr),
                lead(old(self).prev) + text(val.shape(), false),
                whole(val.shape(), false),
                r,
            ),
            final(self).prev is Item,
    {
        let ghost b = state(*wtr);
        let ghost item = text(val.shape(), false);
        match self.separate(wtr) {
            Ok(()) => {},
            Err(e) => {
                proof {
                    lemma_moved_within(
                        b,
                        state(*wtr),
                        lead(old(self).prev),
                        lead(old(self).prev) + item,
                        true,
                        whole(val.shape(), false),
                        Some(e),
                    );
                }
                return Err(e);
            },
        }
        let ghost m = state(*wtr);
        let r = val.encode(self, wtr);
        proof {
            lemma_moved_then(
                b,
                m,
                state(*wtr),
                lead(old(self).prev),
                item,
                whole(val.shape(), false),
                failure(r),
            );
        }
        r
    }

    /// Closes the sequence: writes `}`.
    pub fn end<W: Sink>(self, wtr: &mut W) -> (r: Result<(), SerError>)
        ensures
            carried(*old(wtr), *final(wtr), close_brace(), true, r),
    {
        emit_byte(wtr, 125u8)
    }

    /// Opens a row and gives the encoder for its fields. A row is only
    /// accepted at the top; anywhere else it is refused. Neither the name nor
    /// the number of fields is written.
    pub fn serialize_struct(&self, name: &str, len: usize) -> (r: Result<Ser, SerError>)
        ensures
            self.top() ==> (r matches Ok(s) && s.prev is Open),
            !self.top() ==> (r matches Err(SerError::Msg(m)) && m@ == refusal()),
    {
        match self.prev {
            Prev::Nothing => Ok(Ser { prev: Prev::Open }),
            _ => Err(refuse()),
        }
    }

    /// Writes a field of the row: its value and nothing else. The key is not
    /// written.
    pub fn serialize_field<W: Sink, T: Encode>(&self, wtr: &mut W, key: &str, val: &T) -> (r:
        Result<(), SerError>)
        ensures
            carried(
                *old(wtr),
                *final(wtr),
                text(val.shape(), self.top()),
                whole(val.shape(), self.top()),
                r,
            ),
    {
        val.encode(self, wtr)
    }

    /// Closes the row: writes a line feed.
    pub fn end_struct<W: Sink>(self, wtr: &mut W) -> (r: Result<(), SerError>)
        ensures
            carried(*old(wtr), *final(wtr), line_end(), true, r),
    {
        emit_byte(wtr, 10u8)
    }
}

/// Writes the array literal of `val` to `wtr`.
///
/// On success `wtr` has taken exactly the text of `val`. A value with a part
/// that the format has no text for gives a shape error, once everything in
/// front of that part is written; a refused write gives a write error and
/// leaves what the sink took before it. A sink that vouches for the length of
/// the text gives no write error, and one that keeps to its room gives one
/// whenever the text is longer than that.
pub fn to_writer<W: Sink, T: Encode>(wtr: &mut W, val: &T) -> (r: Result<(), SerError>)
    ensures
        carried(*old(wtr), *final(wtr), text(val.shape(), true), whole(val.shape(), true), r),
{
    let ser = Ser::new();
    val.encode(&ser, wtr)
}

} // verus!
