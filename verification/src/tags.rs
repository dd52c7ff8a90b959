use vstd::prelude::*;

verus! {

/// The payload of a tag.
#[derive(Debug, PartialEq)]
pub enum TagData {
    /// A container: its payload is the sequence of its child tags, each an id
    /// with its own payload.
    Master(Vec<(u64, TagData)>),
    /// An unsigned number.
    UnsignedInt(u64),
    /// A signed number.
    Integer(i64),
    /// A text, written as UTF-8.
    Utf8(String),
    /// Raw octets.
    Binary(Vec<u8>),
    /// A binary64 floating-point number, held as the 64 bits of its IEEE-754
    /// representation.
    Float(u64),
}

/// One step in a stream of tags.
#[derive(Debug, PartialEq)]
pub enum TagPosition {
    /// Opens a container tag whose children follow as further steps.
    StartTag(u64),
    /// Closes the innermost open tag; the id has to be that tag's id.
    EndTag(u64),
    /// A whole tag with its payload.
    FullTag(u64, TagData),
}

/// The mathematical value of a [`TagData`].
pub enum TagPayload {
    Container(Seq<(u64, TagPayload)>),
    UnsignedInt(u64),
    SignedInt(i64),
    Text(Seq<char>),
    Bytes(Seq<u8>),
    Float(u64),
}

/// The mathematical value of a [`TagPosition`].
pub enum TagEvent {
    StartTag(u64),
    EndTag(u64),
    FullTag(u64, TagPayload),
}

/// The values of the children of a container, in order.
pub open spec fn children_view(children: Seq<(u64, TagData)>) -> Seq<(u64, TagPayload)>
    decreases children,
{
    if children.len() == 0 {
        Seq::empty()
    } else {
        children_view(children.drop_last()).push((children.last().0, children.last().1.view()))
    }
}

impl View for TagData {
    type V = TagPayload;

    open spec fn view(&self) -> TagPayload
        decreases self,
    {
        match self {
            TagData::Master(children) => TagPayload::Container(children_view(children@)),
            TagData::UnsignedInt(value) => TagPayload::UnsignedInt(*value),
            TagData::Integer(value) => TagPayload::SignedInt(*value),
            TagData::Utf8(text) => TagPayload::Text(text@),
            TagData::Binary(octets) => TagPayload::Bytes(octets@),
            TagData::Float(bits) => TagPayload::Float(*bits),
        }
    }
}

impl View for TagPosition {
    type V = TagEvent;

    open spec fn view(&self) -> TagEvent {
        match self {
            TagPosition::StartTag(id) => TagEvent::StartTag(*id),
            TagPosition::EndTag(id) => TagEvent::EndTag(*id),
            TagPosition::FullTag(id, data) => TagEvent::FullTag(*id, data@),
        }
    }
}

/// The values of the children are as many as the children, and each is the
/// value of the child in its place.
pub proof fn lemma_children_view(children: Seq<(u64, TagData)>)
    ensures
        children_view(children).len() == children.len(),
        forall|i: int|
            0 <= i < children.len() ==> #[trigger] children_view(children)[i] == (
                children[i].0,
                children[i].1@,
            ),
    decreases children.len(),
{
    if children.len() > 0 {
        lemma_children_view(children.drop_last());
        assert(children_view(children) == children_view(children.drop_last()).push(
            (children.last().0, children.last().1.view()),
        ));
    }
}

} // verus!
