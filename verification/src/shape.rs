//! What a value looks like to the encoder, and the text that stands for it.

use vstd::prelude::*;
use crate::scalar::{bool_text, char_text, int_text, str_text};

verus! {

/// The shape a value shows to the encoder: a single value, an ordered
/// sequence, a row of fields, or something the format has no text for.
pub enum Shape {
    /// A signed or unsigned integer.
    Number(int),
    /// A boolean.
    Bool(bool),
    /// A single character.
    Char(char),
    /// A short text.
    Text(Seq<char>),
    /// A value that is missing.
    Absent,
    /// An ordered sequence of values.
    List(Seq<Shape>),
    /// A row: the values of its fields, in order.
    Row(Seq<Shape>),
    /// A byte blob, a tuple, a keyed map or an enum variant that carries data.
    Opaque,
}

/// `{`
pub open spec fn open_brace() -> Seq<u8> {
    seq![123u8]
}

/// `}`
pub open spec fn close_brace() -> Seq<u8> {
    seq![125u8]
}

/// `,`
pub open spec fn comma() -> Seq<u8> {
    seq![44u8]
}

/// The line feed that ends a row.
pub open spec fn line_end() -> Seq<u8> {
    seq![10u8]
}

/// Whether the format has a text for all of `s`. A row is only accepted at the
/// top, where nothing was written before it; sequences may nest to any depth.
pub open spec fn whole(s: Shape, top: bool) -> bool
    decreases s,
{
    match s {
        Shape::List(items) => whole_upto(items, items.len() as int),
        Shape::Row(fields) => top && whole_upto(fields, fields.len() as int),
        Shape::Opaque => false,
        _ => true,
    }
}

/// Whether the format has a text for each of the first `n` items.
pub open spec fn whole_upto(items: Seq<Shape>, n: int) -> bool
    decreases items,
{
    forall|i: int| 0 <= i < n && i < items.len() ==> whole(#[trigger] items[i], false)
}

/// The text of the first `n` items with `sep` between neighbours. It stops
/// behind the first item that the format has no text for.
pub open spec fn joined(items: Seq<Shape>, n: nat, sep: Seq<u8>) -> Seq<u8>
    decreases items, n,
{
    if n == 0 || n > items.len() {
        Seq::empty()
    } else {
        let head = joined(items, (n - 1) as nat, sep);
        if !whole_upto(items, n - 1) {
            head
        } else if n == 1 {
            head + text(items[0], false)
        } else {
            head + sep + text(items[n - 1], false)
        }
    }
}

/// The items between `head` and `tail`, with `sep` between neighbours. Where
/// the format has no text for an item, this stops behind it and `tail` is
/// left out.
pub open spec fn framed(head: Seq<u8>, items: Seq<Shape>, sep: Seq<u8>, tail: Seq<u8>) -> Seq<u8>
    decreases items, items.len() + 1,
{
    head + joined(items, items.len(), sep) + (if whole_upto(items, items.len() as int) {
        tail
    } else {
        Seq::empty()
    })
}

/// The text that stands for `s`. A sequence is its items between braces, with
/// commas between them and no blank anywhere; a row is its fields one after
/// the other and then a line feed. Where the format has no text for a part of
/// `s`, this is the text up to that part.
pub open spec fn text(s: Shape, top: bool) -> Seq<u8>
    decreases s, 0nat,
{
    match s {
        Shape::Number(v) => int_text(v),
        Shape::Bool(v) => bool_text(v),
        Shape::Char(c) => char_text(c),
        Shape::Text(t) => str_text(t),
        Shape::Absent => Seq::empty(),
        Shape::List(items) => framed(open_brace(), items, comma(), close_brace()),
        Shape::Row(fields) => if top {
            framed(Seq::empty(), fields, Seq::empty(), line_end())
        } else {
            Seq::empty()
        },
        Shape::Opaque => Seq::empty(),
    }
}

/// One more item adds its text, behind `sep` unless it is the first.
pub proof fn lemma_joined_step(items: Seq<Shape>, i: nat, sep: Seq<u8>)
    requires
        i < items.len(),
        whole_upto(items, i as int),
    ensures
        joined(items, i + 1, sep) == joined(items, i, sep) + (if i == 0 {
            Seq::empty()
        } else {
            sep
        }) + text(items[i as int], false),
{
    assert(joined(items, i, sep) + Seq::<u8>::empty() =~= joined(items, i, sep));
}

/// Behind an item without a text nothing more is added.
pub proof fn lemma_joined_stops(items: Seq<Shape>, i: nat, n: nat, sep: Seq<u8>)
    requires
        i < n <= items.len(),
        !whole(items[i as int], false),
    ensures
        joined(items, n, sep) == joined(items, i + 1, sep),
    decreases n,
{
    if n > i + 1 {
        lemma_joined_stops(items, i, (n - 1) as nat, sep);
        assert(!whole_upto(items, n - 1));
    }
}

/// The text of fewer items begins the text of more.
pub proof fn lemma_joined_grows(items: Seq<Shape>, m: nat, n: nat, sep: Seq<u8>)
    requires
        m <= n <= items.len(),
    ensures
        joined(items, m, sep).is_prefix_of(joined(items, n, sep)),
    decreases n,
{
    if m < n {
        lemma_joined_grows(items, m, (n - 1) as nat, sep);
        let head = joined(items, (n - 1) as nat, sep);
        assert(head.is_prefix_of(joined(items, n, sep))) by {
            if whole_upto(items, n - 1) {
                if n == 1 {
                    assert(head.is_prefix_of(head + text(items[0], false)));
                } else {
                    assert(head.is_prefix_of(head + sep + text(items[n - 1], false)));
                }
            }
        }
        assert(joined(items, m, sep).is_prefix_of(joined(items, n, sep)));
    }
}

/// Where an item stopped the encoding, what was written by then is the text
/// of the whole up to that item: all of it if the item has no text, the
/// beginning of it in any case.
pub proof fn lemma_framed_stops(
    head: Seq<u8>,
    items: Seq<Shape>,
    i: nat,
    sep: Seq<u8>,
    tail: Seq<u8>,
)
    requires
        i < items.len(),
    ensures
        (head + joined(items, i + 1, sep)).is_prefix_of(framed(head, items, sep, tail)),
        !whole(items[i as int], false) ==> framed(head, items, sep, tail) == head + joined(
            items,
            i + 1,
            sep,
        ),
{
    let n = items.len();
    lemma_joined_grows(items, i + 1, n, sep);
    let part = joined(items, i + 1, sep);
    let all = joined(items, n, sep);
    assert((head + part).is_prefix_of(head + all)) by {
        assert((head + all).take((head + part).len() as int) =~= head + all.take(part.len() as int));
    }
    assert((head + all).is_prefix_of(framed(head, items, sep, tail)));
    if !whole(items[i as int], false) {
        lemma_joined_stops(items, i, n, sep);
        assert(head + all + Seq::<u8>::empty() =~= head + all);
    }
}

} // verus!
