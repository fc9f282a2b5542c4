//! What holds of the text of every value of a kind: of every sequence of
//! integers, of empty sequences nested to any depth, and of the braces of
//! every nest of sequences.

use vstd::prelude::*;
use crate::arr::{moved, refusal, Encode, SerError};
use crate::scalar::{bool_text, char_text, digits, int_text, str_text};
use crate::sink::{fits, Tape};
use crate::value::{value_shape, Value};
use crate::shape::{
    close_brace, comma, joined, lemma_joined_step, open_brace, text, whole, whole_upto, Shape,
};

verus! {

/// How often `b` occurs in `bytes`.
pub open spec fn count(bytes: Seq<u8>, b: u8) -> nat
    decreases bytes.len(),
{
    if bytes.len() == 0 {
        0
    } else {
        count(bytes.drop_last(), b) + if bytes.last() == b {
            1nat
        } else {
            0nat
        }
    }
}

/// A decimal digit or the minus sign.
pub open spec fn is_figure(b: u8) -> bool {
    48 <= b <= 57 || b == 45
}

/// A byte of the literal of a sequence of integers: a figure, a comma or a
/// brace. No blank is among them.
pub open spec fn is_literal_byte(b: u8) -> bool {
    is_figure(b) || b == 44 || b == 123 || b == 125
}

/// The shapes of the integers `values`, in order.
pub open spec fn numbers(values: Seq<int>) -> Seq<Shape> {
    Seq::new(values.len(), |i: int| Shape::Number(values[i]))
}

/// The integers in decimal, each but the first behind a comma.
pub open spec fn comma_separated(values: Seq<int>) -> Seq<u8>
    decreases values.len(),
{
    if values.len() == 0 {
        Seq::empty()
    } else if values.len() == 1 {
        int_text(values[0])
    } else {
        comma_separated(values.drop_last()) + comma() + int_text(values.last())
    }
}

/// `{`, `d` times, then `}`, `d` times.
pub open spec fn brace_pairs(d: nat) -> Seq<u8> {
    Seq::new(d, |i: int| 123u8) + Seq::new(d, |i: int| 125u8)
}

/// Empty sequences nested `d` deep: at depth one the empty sequence, at each
/// further depth a sequence that holds the one before and nothing else. At
/// depth zero there is no sequence, only a missing value.
pub open spec fn nested(d: nat) -> Shape
    decreases d,
{
    if d == 0 {
        Shape::Absent
    } else if d == 1 {
        Shape::List(Seq::empty())
    } else {
        Shape::List(seq![nested((d - 1) as nat)])
    }
}

/// Counting goes over the two halves of a text.
pub proof fn lemma_count_add(a: Seq<u8>, b: Seq<u8>, x: u8)
    ensures
        count(a + b, x) == count(a, x) + count(b, x),
    decreases b.len(),
{
    if b.len() == 0 {
        assert(a + b =~= a);
    } else {
        assert((a + b).drop_last() =~= a + b.drop_last());
        lemma_count_add(a, b.drop_last(), x);
    }
}

/// A byte that is nowhere in a text is counted zero times.
pub proof fn lemma_count_none(a: Seq<u8>, x: u8)
    requires
        forall|k: int| 0 <= k < a.len() ==> a[k] != x,
    ensures
        count(a, x) == 0,
    decreases a.len(),
{
    if a.len() > 0 {
        lemma_count_none(a.drop_last(), x);
    }
}

/// Decimal digits are digits, and there is at least one.
pub proof fn lemma_digits_bytes(n: nat)
    ensures
        digits(n).len() >= 1,
        forall|k: int| 0 <= k < digits(n).len() ==> 48 <= #[trigger] digits(n)[k] <= 57,
    decreases n,
{
    if n >= 10 {
        lemma_digits_bytes(n / 10);
    }
}

/// An integer reads as figures and ends in a digit.
pub proof fn lemma_int_text_bytes(v: int)
    ensures
        int_text(v).len() >= 1,
        48 <= int_text(v).last() <= 57,
        forall|k: int| 0 <= k < int_text(v).len() ==> is_figure(#[trigger] int_text(v)[k]),
{
    if v < 0 {
        lemma_digits_bytes((-v) as nat);
    } else {
        lemma_digits_bytes(v as nat);
    }
}

/// The first `n` of the integers `values`, joined as items of a sequence.
proof fn lemma_numbers_joined(values: Seq<int>, n: nat)
    requires
        n <= values.len(),
    ensures
        whole_upto(numbers(values), n as int),
        joined(numbers(values), n, comma()) == comma_separated(values.take(n as int)),
        forall|k: int|
            0 <= k < joined(numbers(values), n, comma()).len() ==> {
                let b = #[trigger] joined(numbers(values), n, comma())[k];
                is_figure(b) || b == 44
            },
        n >= 1 ==> joined(numbers(values), n, comma()).len() >= 1 && 48 <= joined(
            numbers(values),
            n,
            comma(),
        ).last() <= 57,
    decreases n,
{
    let items = numbers(values);
    assert forall|i: int| 0 <= i < n && i < items.len() implies whole(#[trigger] items[i], false) by {}
    if n == 0 {
        assert(values.take(0).len() == 0);
    } else {
        let m = (n - 1) as nat;
        lemma_numbers_joined(values, m);
        lemma_joined_step(items, m, comma());
        lemma_int_text_bytes(values[m as int]);
        assert(values.take(n as int).drop_last() =~= values.take(m as int));
        assert(values.take(n as int).last() == values[m as int]);
        assert(text(items[m as int], false) == int_text(values[m as int]));
        if m == 0 {
            assert(joined(items, 0, comma()) + Seq::<u8>::empty() + int_text(values[0]) =~= int_text(
                values[0],
            ));
        }
    }
}

/// A sequence of integers reads as `{`, the integers in decimal with a comma
/// between neighbours, and `}`: the empty one as `{}`. Every byte is a figure,
/// a comma or a brace, so there is no blank in it, and what stands before the
/// closing brace of a sequence that is not empty is a digit, so there is no
/// comma at the end.
pub proof fn law_integer_sequence(values: Seq<int>, top: bool)
    ensures
        whole(Shape::List(numbers(values)), top),
        text(Shape::List(numbers(values)), top) == open_brace() + comma_separated(values)
            + close_brace(),
        forall|k: int|
            0 <= k < text(Shape::List(numbers(values)), top).len() ==> is_literal_byte(
                #[trigger] text(Shape::List(numbers(values)), top)[k],
            ),
        values.len() > 0 ==> text(Shape::List(numbers(values)), top).len() >= 3 && 48 <= text(
            Shape::List(numbers(values)),
            top,
        )[text(Shape::List(numbers(values)), top).len() - 2] <= 57,
{
    let items = numbers(values);
    lemma_numbers_joined(values, values.len());
    assert(values.take(values.len() as int) =~= values);
    let body = joined(items, items.len(), comma());
    let t = text(Shape::List(items), top);
    assert(t == open_brace() + body + close_brace());
    assert forall|k: int| 0 <= k < t.len() implies is_literal_byte(#[trigger] t[k]) by {
        if 1 <= k < 1 + body.len() {
            assert(t[k] == body[k - 1]);
        }
    }
    if values.len() > 0 {
        assert(t[t.len() - 2] == body.last());
    }
}

/// Empty sequences nested `d` deep read as `d` opening braces and then `d`
/// closing ones, with nothing else: `{{{}}}` at depth three.
pub proof fn law_nested_empty(d: nat, top: bool)
    ensures
        whole(nested(d), top),
        text(nested(d), top) == brace_pairs(d),
    decreases d,
{
    if d == 0 {
        assert(text(nested(0), top) =~= brace_pairs(0));
    } else if d == 1 {
        let items = Seq::<Shape>::empty();
        assert(text(Shape::List(items), top) =~= brace_pairs(1));
    } else {
        let inner = nested((d - 1) as nat);
        let items = seq![inner];
        law_nested_empty((d - 1) as nat, false);
        assert(whole_upto(items, 0));
        lemma_joined_step(items, 0, comma());
        assert(whole_upto(items, 1));
        assert(text(Shape::List(items), top) =~= brace_pairs(d));
    }
}

/// Neither brace occurs in `bytes`.
pub open spec fn brace_free(bytes: Seq<u8>) -> bool {
    count(bytes, 123) == 0 && count(bytes, 125) == 0
}

/// A nest of sequences whose single values bring no brace of their own:
/// numbers, booleans and missing values never do, a character or a text only
/// if it holds one.
pub open spec fn plain(s: Shape) -> bool
    decreases s,
{
    match s {
        Shape::List(items) => plain_upto(items, items.len() as int),
        Shape::Row(_) => false,
        Shape::Opaque => false,
        Shape::Char(c) => brace_free(char_text(c)),
        Shape::Text(t) => brace_free(str_text(t)),
        _ => true,
    }
}

/// Whether each of the first `n` items is [`plain`].
pub open spec fn plain_upto(items: Seq<Shape>, n: int) -> bool
    decreases items,
{
    forall|i: int| 0 <= i < n && i < items.len() ==> plain(#[trigger] items[i])
}

/// The number of sequences in `s`, `s` itself included.
pub open spec fn lists(s: Shape) -> nat
    decreases s, 0nat,
{
    match s {
        Shape::List(items) => 1 + lists_upto(items, items.len()),
        _ => 0,
    }
}

/// The number of sequences in the first `n` items.
pub open spec fn lists_upto(items: Seq<Shape>, n: nat) -> nat
    decreases items, n,
{
    if n == 0 || n > items.len() {
        0
    } else {
        lists_upto(items, (n - 1) as nat) + lists(items[n - 1])
    }
}

/// The braces in the first `n` items of a plain sequence.
proof fn lemma_joined_braces(items: Seq<Shape>, n: nat)
    requires
        n <= items.len(),
        plain_upto(items, n as int),
    ensures
        whole_upto(items, n as int),
        count(joined(items, n, comma()), 123) == lists_upto(items, n),
        count(joined(items, n, comma()), 125) == lists_upto(items, n),
    decreases items, n,
{
    if n > 0 {
        let m = (n - 1) as nat;
        lemma_joined_braces(items, m);
        law_balanced_braces(items[m as int], false);
        assert forall|i: int| 0 <= i < n && i < items.len() implies whole(#[trigger] items[i], false) by {
            if i < m {
            }
        }
        lemma_joined_step(items, m, comma());
        let lead = if m == 0 {
            Seq::<u8>::empty()
        } else {
            comma()
        };
        let item = text(items[m as int], false);
        lemma_count_add(joined(items, m, comma()), lead, 123);
        lemma_count_add(joined(items, m, comma()) + lead, item, 123);
        lemma_count_add(joined(items, m, comma()), lead, 125);
        lemma_count_add(joined(items, m, comma()) + lead, item, 125);
        lemma_count_none(lead, 123);
        lemma_count_none(lead, 125);
    }
}

/// In the text of a plain nest of sequences there are as many opening braces
/// as closing ones, and as many of each as there are sequences in the nest.
pub proof fn law_balanced_braces(s: Shape, top: bool)
    requires
        plain(s),
    ensures
        whole(s, top),
        count(text(s, top), 123) == lists(s),
        count(text(s, top), 125) == lists(s),
    decreases s, 0nat,
{
    match s {
        Shape::Number(v) => {
            lemma_int_text_bytes(v);
            lemma_count_none(int_text(v), 123);
            lemma_count_none(int_text(v), 125);
        },
        Shape::Bool(v) => {
            lemma_count_none(bool_text(v), 123);
            lemma_count_none(bool_text(v), 125);
        },
        Shape::List(items) => {
            lemma_joined_braces(items, items.len());
            let body = joined(items, items.len(), comma());
            lemma_count_add(open_brace(), body, 123);
            lemma_count_add(open_brace() + body, close_brace(), 123);
            lemma_count_add(open_brace(), body, 125);
            lemma_count_add(open_brace() + body, close_brace(), 125);
            reveal_with_fuel(count, 2);
            assert(count(open_brace(), 123) == 1 && count(open_brace(), 125) == 0);
            assert(count(close_brace(), 123) == 0 && count(close_brace(), 125) == 1);
        },
        _ => {},
    }
}

/// A vector of integers shows the sequence of its numbers, so all that holds
/// of such sequences holds of its text.
pub proof fn law_integer_vec(v: Vec<i64>)
    ensures
        v.shape() == Shape::List(numbers(Seq::new(v@.len(), |i: int| v@[i] as int))),
{
    assert(v.shape()->List_0 =~= numbers(Seq::new(v@.len(), |i: int| v@[i] as int)));
}

/// A byte blob, a tuple and a keyed map have no text, at the top or below it.
pub proof fn law_opaque_values(v: Value, top: bool)
    requires
        v is Bytes || v is Tuple || v is Keyed,
    ensures
        !whole(value_shape(v), top),
        text(value_shape(v), top) == Seq::<u8>::empty(),
{
}

/// No step fails in silence. A value without a text never gives success, and
/// neither does a sink that did not take all of the text. A write error
/// leaves what the sink held, and behind it what it took of the text. With a
/// sink that vouches for the length of the text, success comes exactly for
/// the values that have a text, and the only error is the shape error.
pub proof fn law_no_silent_failure(
    b: Tape,
    a: Tape,
    text: Seq<u8>,
    whole: bool,
    err: Option<SerError>,
)
    requires
        moved(b, a, text, whole, err),
    ensures
        !whole ==> err is Some,
        a.taken != b.taken + text ==> err is Some,
        err matches Some(SerError::WriteErr(_)) ==> b.taken.is_prefix_of(a.taken) && a.taken.len()
            < b.taken.len() + text.len(),
        fits(b.room, text.len()) ==> (whole <==> err is None),
        fits(b.room, text.len()) && !whole ==> (err matches Some(SerError::Msg(m)) && m@
            == refusal()),
{
}

/// A sink that keeps to its room and has less of it than the text is long
/// gives a write error, whatever the value, and then holds what it held
/// before and, of the text, as much as the room was.
pub proof fn law_full_sink(
    b: Tape,
    a: Tape,
    text: Seq<u8>,
    whole: bool,
    err: Option<SerError>,
)
    requires
        moved(b, a, text, whole, err),
        b.strict,
        !fits(b.room, text.len()),
    ensures
        err matches Some(SerError::WriteErr(_)),
        a.taken == b.taken + text.take(b.room->0 as int),
{
}

} // verus!
