use crate::state::WriterState;
use crate::stream::{lemma_streamed_tag, streamed};
use crate::tags::{TagEvent, TagPayload};
use crate::tools::{
    be_value, lemma_be_bytes_first, lemma_be_bytes_len, lemma_be_value_of_be_bytes,
    lemma_pow2_octet_more, lemma_vint_width_bounds, vint_bytes, vint_width, MAX_VINT,
};
use crate::wire::{
    children_bytes, encodable, id_bytes, id_width, int_bytes, int_width,
    lemma_children_bytes_covers, lemma_children_bytes_first, lemma_id_width_holds, payload_bytes,
    tag_bytes, twos_complement, uint_bytes, uint_width,
};
use vstd::arithmetic::div_mod::{
    lemma_div_by_multiple, lemma_div_is_ordered, lemma_fundamental_div_mod,
    lemma_fundamental_div_mod_converse, lemma_mod_pos_bound, lemma_multiply_divide_lt,
    lemma_small_mod,
};
use vstd::arithmetic::mul::lemma_mul_is_commutative;
use vstd::arithmetic::power2::{lemma2_to64, lemma2_to64_rest, lemma_pow2_adds, pow2};
use vstd::prelude::*;
use vstd::utf8::{decode_utf8, encode_utf8_decode_utf8, encode_utf8_valid_utf8, valid_utf8};

verus! {

/// The kinds of payload.  The octets of a tag do not say of which kind its
/// payload is: a reader has to know that from the id.
pub enum TagKind {
    Container,
    UnsignedInt,
    SignedInt,
    Text,
    Bytes,
    Float,
}

/// The kind of a payload.
pub open spec fn kind_of(payload: TagPayload) -> TagKind {
    match payload {
        TagPayload::Container(_) => TagKind::Container,
        TagPayload::UnsignedInt(_) => TagKind::UnsignedInt,
        TagPayload::SignedInt(_) => TagKind::SignedInt,
        TagPayload::Text(_) => TagKind::Text,
        TagPayload::Bytes(_) => TagKind::Bytes,
        TagPayload::Float(_) => TagKind::Float,
    }
}

/// The width that the first octet of a vint announces: one more than the
/// number of zero bits above its first set bit.  A zero octet announces
/// nothing.
pub open spec fn announced_width(first: u8) -> nat {
    if first >= 0x80 {
        1
    } else if first >= 0x40 {
        2
    } else if first >= 0x20 {
        3
    } else if first >= 0x10 {
        4
    } else if first >= 0x08 {
        5
    } else if first >= 0x04 {
        6
    } else if first >= 0x02 {
        7
    } else if first >= 0x01 {
        8
    } else {
        0
    }
}

/// Reads the vint at the start of `octets`: the number that its octets spell,
/// marker bit included, and its width.
pub open spec fn read_vint(octets: Seq<u8>) -> Option<(nat, nat)> {
    if octets.len() == 0 {
        None
    } else {
        let width = announced_width(octets[0]);
        if width == 0 || octets.len() < width {
            None
        } else {
            Some((be_value(octets.take(width as int)), width))
        }
    }
}

/// An id that a reader can tell from what follows it: its first octet
/// announces the number of its octets.
pub open spec fn self_describing(id: u64) -> bool {
    id != 0 && announced_width(id_bytes(id)[0]) == id_width(id as nat)
}

/// The signed number that `octets` spell in two's complement.
pub open spec fn be_signed(octets: Seq<u8>) -> int {
    if octets.len() > 0 && octets[0] >= 0x80 {
        be_value(octets) - pow2(8 * octets.len())
    } else {
        be_value(octets) as int
    }
}

/// Reads a payload that is no container.
pub open spec fn read_scalar(kind: TagKind, octets: Seq<u8>) -> Option<TagPayload> {
    match kind {
        TagKind::Container => None,
        TagKind::UnsignedInt => if octets.len() <= 8 {
            Some(TagPayload::UnsignedInt(be_value(octets) as u64))
        } else {
            None
        },
        TagKind::SignedInt => if octets.len() <= 8 {
            Some(TagPayload::SignedInt(be_signed(octets) as i64))
        } else {
            None
        },
        TagKind::Text => if valid_utf8(octets) {
            Some(TagPayload::Text(decode_utf8(octets)))
        } else {
            None
        },
        TagKind::Bytes => Some(TagPayload::Bytes(octets)),
        TagKind::Float => if octets.len() == 8 {
            Some(TagPayload::Float(be_value(octets) as u64))
        } else {
            None
        },
    }
}

/// Reads the tag at the start of `octets`: its id, its payload, and the
/// number of octets that it takes.  `kinds` says of which kind the payload of
/// each id is.
pub open spec fn read_tag(kinds: spec_fn(u64) -> TagKind, octets: Seq<u8>) -> Option<
    (u64, TagPayload, nat),
>
    decreases octets.len(), 0nat,
{
    match read_vint(octets) {
        None => None,
        Some((id, id_len)) => match read_vint(octets.skip(id_len as int)) {
            None => None,
            Some((marked_size, size_len)) => {
                let size = marked_size - pow2(7 * size_len);
                let start = id_len + size_len;
                if id > u64::MAX || size < 0 || octets.len() < start + size {
                    None
                } else {
                    let body = octets.subrange(start as int, start + size);
                    let payload = match kinds(id as u64) {
                        TagKind::Container => match read_tags(kinds, body) {
                            None => None,
                            Some(children) => Some(TagPayload::Container(children)),
                        },
                        kind => read_scalar(kind, body),
                    };
                    match payload {
                        None => None,
                        Some(payload) => Some((id as u64, payload, (start + size) as nat)),
                    }
                }
            },
        },
    }
}

/// Reads `octets` as tags, one after the other, to the end.
pub open spec fn read_tags(kinds: spec_fn(u64) -> TagKind, octets: Seq<u8>) -> Option<
    Seq<(u64, TagPayload)>,
>
    decreases octets.len(), 1nat,
{
    if octets.len() == 0 {
        Some(Seq::empty())
    } else {
        match read_tag(kinds, octets) {
            None => None,
            Some((id, payload, used)) => if used == 0 || used > octets.len() {
                None
            } else {
                match read_tags(kinds, octets.skip(used as int)) {
                    None => None,
                    Some(rest) => Some(seq![(id, payload)] + rest),
                }
            },
        }
    }
}

/// Whether a tag is one that a reader with `kinds` can read back: its id is
/// self-describing and `kinds` knows the kind of its payload, and so for the
/// tags inside it.
pub open spec fn readable(kinds: spec_fn(u64) -> TagKind, id: u64, payload: TagPayload) -> bool
    decreases payload,
{
    &&& self_describing(id)
    &&& kinds(id) == kind_of(payload)
    &&& payload matches TagPayload::Container(children) ==> forall|i: int|
        0 <= i < children.len() ==> readable(kinds, (#[trigger] children[i]).0, children[i].1)
}

/// A self-describing id is read back from its octets, whatever follows them.
pub proof fn lemma_read_id(id: u64, rest: Seq<u8>)
    requires
        self_describing(id),
    ensures
        read_vint(id_bytes(id) + rest) == Some((id as nat, id_width(id as nat))),
{
    let width = id_width(id as nat);
    let octets = id_bytes(id) + rest;
    lemma_be_bytes_len(id as nat, width);
    lemma_id_width_holds(id as nat);
    lemma_be_value_of_be_bytes(id as nat, width);
    assert(octets.take(width as int) =~= id_bytes(id));
    assert(octets[0] == id_bytes(id)[0]);
    lemma_small_mod(id as nat, pow2(8 * width));
}

/// The digit of weight `top` of a number from `low * top` up to, but not
/// including, `bound * top` is from `low` up to, but not including, `bound`.
proof fn lemma_digit_bounds(number: int, top: int, low: int, bound: int)
    requires
        top > 0,
        0 <= low,
        low * top <= number < bound * top,
    ensures
        low <= number / top < bound,
{
    lemma_div_is_ordered(low * top, number, top);
    lemma_div_by_multiple(low, top);
    lemma_mul_is_commutative(bound, top);
    lemma_multiply_divide_lt(number, top, bound);
}

/// The first octet of the vint of a size announces the width of the vint, and
/// the octets of the vint spell the size with the marker bit.
pub proof fn lemma_vint_announces_width(size: nat)
    requires
        size <= MAX_VINT,
    ensures
        vint_bytes(size).len() == vint_width(size),
        announced_width(vint_bytes(size)[0]) == vint_width(size),
        be_value(vint_bytes(size)) == size + pow2(7 * vint_width(size)),
{
    let width = vint_width(size);
    let marker = pow2(7 * width);
    let marked = size + marker;
    // The marker bit is bit `8 - width` of the first octet, whose weight is
    // `256^(width - 1)`.
    let top = pow2(8 * (width - 1) as nat);
    let low = pow2((8 - width) as nat);
    lemma_vint_width_bounds(size);
    lemma2_to64();
    lemma_pow2_adds((8 - width) as nat, 8 * (width - 1) as nat);
    assert((8 - width) + 8 * (width - 1) == 7 * width);
    lemma_pow2_octet_more((width - 1) as nat);
    assert(8 * ((width - 1) + 1) == 8 * width);
    assert((2 * low) * top == 2 * (low * top)) by (nonlinear_arith);
    lemma_digit_bounds(marked as int, top as int, low as int, 2 * low as int);
    lemma_be_bytes_first(marked, width);
    assert(announced_width(vint_bytes(size)[0]) == width) by {
        if width == 1 {
            assert(low == 0x80);
        } else if width == 2 {
            assert(low == 0x40);
        } else if width == 3 {
            assert(low == 0x20);
        } else if width == 4 {
            assert(low == 0x10);
        } else if width == 5 {
            assert(low == 0x08);
        } else if width == 6 {
            assert(low == 0x04);
        } else if width == 7 {
            assert(low == 0x02);
        } else {
            assert(low == 0x01);
        }
    }
    lemma_be_value_of_be_bytes(marked, width);
    lemma_small_mod(marked, pow2(8 * width));
}

/// An unsigned number is read back from its octets.
pub proof fn lemma_read_uint(value: u64)
    ensures
        uint_bytes(value).len() == uint_width(value),
        be_value(uint_bytes(value)) == value,
{
    let width = uint_width(value);
    lemma_be_bytes_len(value as nat, width);
    lemma_be_value_of_be_bytes(value as nat, width);
    lemma2_to64();
    assert(value < pow2(8 * width)) by {
        if width == 1 {
            assert(pow2(8 * width) == 0x100);
        } else if width == 2 {
            assert(pow2(8 * width) == 0x1_0000);
        } else if width == 4 {
            assert(pow2(8 * width) == 0x1_0000_0000);
        } else {
            assert(pow2(8 * width) == 0x1_0000_0000_0000_0000);
        }
    }
    lemma_small_mod(value as nat, pow2(8 * width));
}

/// The low-order octets of a number: if `image` is `small` up to a multiple of
/// `range`, and `range` is `256 * top`, then `small` is what `image` leaves
/// modulo `range`, and the digit of weight `top` is the same in both.
proof fn lemma_low_octets(image: int, high: int, range: int, top: int, small: int)
    requires
        top > 0,
        range == 256 * top,
        0 <= small < range,
        image == high * range + small,
    ensures
        image % range == small,
        (image / top) % 256 == small / top,
{
    let digit = small / top;
    lemma_digit_bounds(small, top, 0, 256);
    lemma_fundamental_div_mod_converse(image, range, high, small);
    lemma_fundamental_div_mod(small, top);
    lemma_mod_pos_bound(small, top);
    assert(image == (high * 256 + digit) * top + small % top) by (nonlinear_arith)
        requires
            image == high * range + small,
            range == 256 * top,
            small == top * digit + small % top,
    ;
    lemma_fundamental_div_mod_converse(image, top, high * 256 + digit, small % top);
    lemma_fundamental_div_mod_converse(high * 256 + digit, 256, high, digit);
}

/// A signed number is read back from its octets.
pub proof fn lemma_read_int(value: i64)
    ensures
        int_bytes(value).len() == int_width(value),
        be_signed(int_bytes(value)) == value,
{
    let width = int_width(value);
    let image = twos_complement(value);
    let range = pow2(8 * width) as int;
    let top = pow2(8 * (width - 1) as nat) as int;
    lemma2_to64();
    lemma2_to64_rest();
    lemma_pow2_octet_more((width - 1) as nat);
    assert(8 * ((width - 1) + 1) == 8 * width);
    // The width is the narrowest whose two's-complement range holds the number.
    assert(-128 * top <= value < 128 * top) by {
        if width == 1 {
            assert(top == 0x1);
        } else if width == 2 {
            assert(top == 0x100);
        } else if width == 4 {
            assert(top == 0x100_0000);
        } else {
            assert(top == 0x100_0000_0000_0000);
        }
    }
    lemma_be_bytes_first(image, width);
    lemma_be_value_of_be_bytes(image, width);
    if value >= 0 {
        lemma_low_octets(image as int, 0, range, top, value as int);
        lemma_digit_bounds(value as int, top, 0, 128);
    } else {
        // The 64-bit image lies a multiple of `range` above `value + range`.
        let above = pow2((64 - 8 * width) as nat) as int;
        lemma_pow2_adds((64 - 8 * width) as nat, 8 * width);
        assert((64 - 8 * width) + 8 * width == 64);
        assert(image == (above - 1) * range + (value + range)) by (nonlinear_arith)
            requires
                image == value + above * range,
        ;
        lemma_low_octets(image as int, above - 1, range, top, value + range);
        lemma_digit_bounds(value + range, top, 128, 256);
    }
}

/// A payload that is no container is read back from its octets by a reader
/// that knows its kind.
pub proof fn lemma_read_scalar(payload: TagPayload)
    requires
        !(payload is Container),
    ensures
        read_scalar(kind_of(payload), payload_bytes(payload)) == Some(payload),
{
    match payload {
        TagPayload::Container(_) => {},
        TagPayload::UnsignedInt(value) => {
            lemma_read_uint(value);
        },
        TagPayload::SignedInt(value) => {
            lemma_read_int(value);
        },
        TagPayload::Text(text) => {
            encode_utf8_valid_utf8(text);
            encode_utf8_decode_utf8(text);
        },
        TagPayload::Bytes(_) => {},
        TagPayload::Float(bits) => {
            lemma2_to64();
            lemma_be_bytes_len(bits as nat, 8);
            lemma_be_value_of_be_bytes(bits as nat, 8);
            lemma_small_mod(bits as nat, pow2(64));
        },
    }
}

/// A written tag is read back from its octets, whatever follows them.
pub proof fn lemma_read_tag(
    kinds: spec_fn(u64) -> TagKind,
    id: u64,
    payload: TagPayload,
    rest: Seq<u8>,
)
    requires
        readable(kinds, id, payload),
        encodable(payload),
    ensures
        read_tag(kinds, tag_bytes(id, payload) + rest) == Some(
            (id, payload, tag_bytes(id, payload).len()),
        ),
    decreases payload, 1nat,
{
    let body = payload_bytes(payload);
    let size = body.len();
    let octets = tag_bytes(id, payload) + rest;
    let id_len = id_width(id as nat);
    let size_len = vint_width(size);
    let start = id_len + size_len;
    lemma_be_bytes_len(id as nat, id_len);
    lemma_vint_announces_width(size);
    assert(octets =~= id_bytes(id) + (vint_bytes(size) + body + rest));
    lemma_read_id(id, vint_bytes(size) + body + rest);
    let after_id = octets.skip(id_len as int);
    assert(after_id =~= vint_bytes(size) + (body + rest));
    assert(after_id.take(size_len as int) =~= vint_bytes(size));
    assert(after_id[0] == vint_bytes(size)[0]);
    assert(read_vint(after_id) == Some((size + pow2(7 * size_len), size_len)));
    assert(octets.subrange(start as int, (start + size) as int) =~= body);
    match payload {
        TagPayload::Container(children) => {
            assert forall|i: int| 0 <= i < children.len() implies encodable(
                (#[trigger] children[i]).1,
            ) by {
                lemma_children_bytes_covers(children, i);
            }
            lemma_read_tags(kinds, children);
        },
        _ => {
            lemma_read_scalar(payload);
        },
    }
}

/// Written tags are read back from their octets.
pub proof fn lemma_read_tags(kinds: spec_fn(u64) -> TagKind, children: Seq<(u64, TagPayload)>)
    requires
        forall|i: int|
            0 <= i < children.len() ==> readable(kinds, (#[trigger] children[i]).0, children[i].1)
                && encodable(children[i].1),
    ensures
        read_tags(kinds, children_bytes(children)) == Some(children),
    decreases children, 0nat,
{
    if children.len() > 0 {
        let (id, payload) = children.first();
        let others = children.drop_first();
        let octets = children_bytes(children);
        let used = tag_bytes(id, payload).len();
        lemma_children_bytes_first(children);
        assert(children[0] == (id, payload));
        lemma_read_tag(kinds, id, payload, children_bytes(others));
        assert(octets.skip(used as int) =~= children_bytes(others));
        assert forall|i: int| 0 <= i < others.len() implies readable(
            kinds,
            (#[trigger] others[i]).0,
            others[i].1,
        ) && encodable(others[i].1) by {
            assert(others[i] == children[i + 1]);
        }
        lemma_read_tags(kinds, others);
        assert(seq![(id, payload)] + others =~= children);
        lemma_be_bytes_len(id as nat, id_width(id as nat));
    }
}

/// Round trip: when a whole tag is written with no tag open, the writer hands
/// out octets from which a reader that knows the kinds reads back exactly that
/// tag, and nothing else.
///
/// This holds of the tags that are `readable` and `encodable`.  A tag whose id
/// does not announce its own width cannot be told from what follows it, and a
/// tag that is not `encodable` is not written at all.
pub proof fn lemma_round_trip(kinds: spec_fn(u64) -> TagKind, id: u64, payload: TagPayload)
    requires
        readable(kinds, id, payload),
        encodable(payload),
    ensures
        WriterState::initial().step(TagEvent::FullTag(id, payload)).1 matches Ok(Some(octets))
            && read_tags(kinds, octets) == Some(seq![(id, payload)]),
{
    let only = seq![(id, payload)];
    assert(only.drop_last() =~= Seq::<(u64, TagPayload)>::empty());
    assert(children_bytes(only) =~= tag_bytes(id, payload)) by {
        assert(children_bytes(only) == children_bytes(only.drop_last()) + tag_bytes(
            only.last().0,
            only.last().1,
        ));
    }
    assert(Seq::<u8>::empty() + tag_bytes(id, payload) =~= tag_bytes(id, payload));
    lemma_read_tags(kinds, only);
}

/// Round trip of a tag that is written piece by piece, with no tag open
/// before: the last step hands out octets from which a reader that knows the
/// kinds reads back exactly that tag.
pub proof fn lemma_round_trip_streamed(
    kinds: spec_fn(u64) -> TagKind,
    by_pieces: spec_fn(u64, TagPayload) -> bool,
    id: u64,
    payload: TagPayload,
)
    requires
        readable(kinds, id, payload),
        encodable(payload),
    ensures
        WriterState::initial().run(streamed(by_pieces, id, payload)).1.last() matches Ok(
            Some(octets),
        ) && read_tags(kinds, octets) == Some(seq![(id, payload)]),
{
    lemma_streamed_tag(by_pieces, WriterState::initial(), id, payload);
    lemma_round_trip(kinds, id, payload);
}

} // verus!
