use crate::tags::TagPayload;
use crate::tools::{be_bytes, push_be_bytes, vint_bytes, MAX_VINT};
use vstd::arithmetic::power2::{lemma2_to64, lemma_pow2_adds, pow2};
use vstd::prelude::*;
use vstd::utf8::encode_utf8;

verus! {

/// The number of significant base-256 digits of `id`: none for zero.
pub open spec fn id_width(id: nat) -> nat
    decreases id,
{
    if id == 0 {
        0
    } else {
        1 + id_width(id / 256)
    }
}

/// The octets of a tag id: the id written big-endian without leading zero
/// octets.  No length goes with them: a well-formed id announces its own width
/// by its leading bits.
pub open spec fn id_bytes(id: u64) -> Seq<u8> {
    be_bytes(id as nat, id_width(id as nat))
}

/// The width in which an unsigned number is written: the narrowest of one,
/// two, four and eight octets that holds it.
pub open spec fn uint_width(value: u64) -> nat {
    if value <= 0xff {
        1
    } else if value <= 0xffff {
        2
    } else if value <= 0xffff_ffff {
        4
    } else {
        8
    }
}

/// The octets of an unsigned number: big-endian, in `uint_width` octets.
pub open spec fn uint_bytes(value: u64) -> Seq<u8> {
    be_bytes(value as nat, uint_width(value))
}

/// The width in which a signed number is written: the narrowest of one, two,
/// four and eight octets whose two's-complement range holds it.
pub open spec fn int_width(value: i64) -> nat {
    if -0x80 <= value <= 0x7f {
        1
    } else if -0x8000 <= value <= 0x7fff {
        2
    } else if -0x8000_0000 <= value <= 0x7fff_ffff {
        4
    } else {
        8
    }
}

/// The number that stands for `value` in 64-bit two's complement.
pub open spec fn twos_complement(value: i64) -> nat {
    if value >= 0 {
        value as nat
    } else {
        (value + 0x1_0000_0000_0000_0000) as nat
    }
}

/// The octets of a signed number: the `int_width` low-order octets of its
/// two's complement, big-endian.
pub open spec fn int_bytes(value: i64) -> Seq<u8> {
    be_bytes(twos_complement(value), int_width(value))
}

/// The header that precedes a payload of `size` octets: the id, then the size
/// as a vint.
pub open spec fn tag_header(id: u64, size: nat) -> Seq<u8> {
    id_bytes(id) + vint_bytes(size)
}

/// The octets of a payload.  A container's payload is its children's tags, one
/// after the other.
pub open spec fn payload_bytes(payload: TagPayload) -> Seq<u8>
    decreases payload, 0nat,
{
    match payload {
        TagPayload::Container(children) => children_bytes(children),
        TagPayload::UnsignedInt(value) => uint_bytes(value),
        TagPayload::SignedInt(value) => int_bytes(value),
        TagPayload::Text(text) => encode_utf8(text),
        TagPayload::Bytes(octets) => octets,
        TagPayload::Float(bits) => be_bytes(bits as nat, 8),
    }
}

/// The tags of `children`, in order.
pub open spec fn children_bytes(children: Seq<(u64, TagPayload)>) -> Seq<u8>
    decreases children, 0nat,
{
    if children.len() == 0 {
        Seq::empty()
    } else {
        children_bytes(children.drop_last()) + tag_bytes(children.last().0, children.last().1)
    }
}

/// The octets of a whole tag: header, then payload.
pub open spec fn tag_bytes(id: u64, payload: TagPayload) -> Seq<u8>
    decreases payload, 1nat,
{
    tag_header(id, payload_bytes(payload).len()) + payload_bytes(payload)
}

/// Whether a tag with this payload can be written: the size of its payload
/// has to fit a vint.
pub open spec fn encodable(payload: TagPayload) -> bool {
    payload_bytes(payload).len() <= MAX_VINT
}

/// A number below `256^width` has at most `width` significant digits.
pub proof fn lemma_id_width_fits(id: nat, width: nat)
    requires
        id < pow2(8 * width),
    ensures
        id_width(id) <= width,
    decreases width,
{
    lemma2_to64();
    if id > 0 {
        if width == 0 {
        } else {
            lemma_pow2_adds(8 * (width - 1) as nat, 8);
            assert(8 * (width - 1) + 8 == 8 * width);
            lemma_id_width_fits(id / 256, (width - 1) as nat);
        }
    }
}

/// A number is below `256` to the number of its significant digits.
pub proof fn lemma_id_width_holds(id: nat)
    ensures
        id < pow2(8 * id_width(id)),
    decreases id,
{
    lemma2_to64();
    if id > 0 {
        lemma_id_width_holds(id / 256);
        lemma_pow2_adds(8 * id_width(id / 256), 8);
        assert(8 * id_width(id / 256) + 8 == 8 * id_width(id));
    }
}

/// The tags of the first `n + 1` children are those of the first `n`, then
/// the tag of child `n`.
pub proof fn lemma_children_bytes_step(children: Seq<(u64, TagPayload)>, n: int)
    requires
        0 <= n < children.len(),
    ensures
        children_bytes(children.take(n + 1)) == children_bytes(children.take(n)) + tag_bytes(
            children[n].0,
            children[n].1,
        ),
{
    assert(children.take(n + 1).drop_last() =~= children.take(n));
}

/// The tags of some children are the tag of the first, then those of the
/// others.
pub proof fn lemma_children_bytes_first(children: Seq<(u64, TagPayload)>)
    requires
        children.len() > 0,
    ensures
        children_bytes(children) == tag_bytes(children.first().0, children.first().1)
            + children_bytes(children.drop_first()),
    decreases children.len(),
{
    if children.len() == 1 {
        assert(children_bytes(children.drop_last()) =~= Seq::<u8>::empty());
        assert(children_bytes(children.drop_first()) =~= Seq::<u8>::empty());
    } else {
        lemma_children_bytes_first(children.drop_last());
        assert(children.drop_first().drop_last() =~= children.drop_last().drop_first());
    }
}

/// A container's payload is at least as long as the tag of any of its children.
pub proof fn lemma_children_bytes_covers(children: Seq<(u64, TagPayload)>, n: int)
    requires
        0 <= n < children.len(),
    ensures
        children_bytes(children).len() >= tag_bytes(children[n].0, children[n].1).len(),
    decreases children.len(),
{
    if n < children.len() - 1 {
        lemma_children_bytes_covers(children.drop_last(), n);
    }
}

/// Appends the octets of a tag id to `buf`.
pub fn push_id_bytes(buf: &mut Vec<u8>, id: u64)
    ensures
        final(buf)@ == old(buf)@ + id_bytes(id),
{
    let mut width: usize = 0;
    let mut rest = id;
    proof {
        lemma2_to64();
        lemma_id_width_fits(id as nat, 8);
    }
    while rest > 0
        invariant
            width + id_width(rest as nat) == id_width(id as nat) <= 8,
        decreases rest,
    {
        rest = rest / 256;
        width += 1;
    }
    push_be_bytes(buf, id, width);
}

/// The two's complement of `value`, as an unsigned number.
pub fn to_twos_complement(value: i64) -> (image: u64)
    ensures
        image == twos_complement(value),
{
    if value >= 0 {
        value as u64
    } else {
        (value - i64::MIN) as u64 + 0x8000_0000_0000_0000
    }
}

} // verus!
