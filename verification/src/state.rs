use crate::errors::{TagWriterError, ToolError};
use crate::tags::{TagEvent, TagPayload};
use crate::tools::MAX_VINT;
use crate::wire::{
    children_bytes, encodable, lemma_children_bytes_covers, payload_bytes, tag_bytes, tag_header,
};
use vstd::prelude::*;

verus! {

/// What a call of the writer hands back, as contracts see it: the octets of a
/// completed outermost tag, nothing while a tag is still open, or an error.
pub type Outcome = Result<Option<Seq<u8>>, TagWriterError>;

/// The state of a writer, as contracts see it.
#[verifier::ext_equal]
pub struct WriterState {
    /// The open tags, outermost first: the id of each, and the length that the
    /// buffer had when the tag was opened.
    pub open_tags: Seq<(u64, nat)>,
    /// The octets that wait for the outermost tag to be completed.
    pub buffer: Seq<u8>,
}

impl WriterState {
    /// The state of a new writer: nothing open, nothing buffered.
    pub open spec fn initial() -> WriterState {
        WriterState { open_tags: Seq::empty(), buffer: Seq::empty() }
    }

    /// Every open tag starts inside the buffer.
    pub open spec fn wf(self) -> bool {
        forall|i: int|
            0 <= i < self.open_tags.len() ==> (#[trigger] self.open_tags[i]).1 <= self.buffer.len()
    }

    /// Opening a tag records it, with the place where its payload will start.
    pub open spec fn start_tag(self, id: u64) -> WriterState {
        WriterState {
            open_tags: self.open_tags.push((id, self.buffer.len())),
            buffer: self.buffer,
        }
    }

    /// Completing a tag whose payload is the last `size` octets of the buffer.
    ///
    /// A size above `MAX_VINT` is an error and changes nothing.  Else the
    /// header goes in front of the payload; what lay before the payload stays
    /// in front of the header.  If no tag is open any more, the whole buffer is
    /// handed out and the buffer is empty afterwards.
    pub open spec fn finalize_tag(self, id: u64, size: nat) -> (WriterState, Outcome)
        recommends
            size <= self.buffer.len(),
    {
        if size > MAX_VINT {
            (self, Err(TagWriterError::TagSizeError(ToolError::WriteVintOverflow(size as u64))))
        } else {
            let at = self.buffer.len() - size;
            let framed = self.buffer.subrange(0, at) + tag_header(id, size) + self.buffer.subrange(
                at,
                self.buffer.len() as int,
            );
            if self.open_tags.len() == 0 {
                (WriterState { open_tags: self.open_tags, buffer: Seq::empty() }, Ok(Some(framed)))
            } else {
                (WriterState { open_tags: self.open_tags, buffer: framed }, Ok(None))
            }
        }
    }

    /// Closing a tag.
    ///
    /// With no tag open, an error that changes nothing.  Else the innermost
    /// open tag is removed, whatever its id.  If its id is not `id`, that is an
    /// error, and the tag stays removed.  If it is, the tag is completed: its
    /// payload is what was buffered since it was opened.
    pub open spec fn end_tag(self, id: u64) -> (WriterState, Outcome) {
        if self.open_tags.len() == 0 {
            (self, Err(TagWriterError::UnexpectedClosingTag { tag_id: id, expected_id: None }))
        } else {
            let (open_id, at) = self.open_tags.last();
            let popped = WriterState {
                open_tags: self.open_tags.drop_last(),
                buffer: self.buffer,
            };
            if open_id != id {
                (
                    popped,
                    Err(
                        TagWriterError::UnexpectedClosingTag {
                            tag_id: id,
                            expected_id: Some(open_id),
                        },
                    ),
                )
            } else {
                popped.finalize_tag(id, (self.buffer.len() - at) as nat)
            }
        }
    }

    /// Writing a whole tag.
    ///
    /// If the tag is `encodable`, its octets are added to the buffer, and if
    /// no tag is open, the whole buffer is handed out and is empty afterwards.
    /// If it is not, the call fails with the first size that did not fit, and
    /// leaves behind what `stranded` describes.
    pub open spec fn full_tag(self, id: u64, payload: TagPayload) -> (WriterState, Outcome) {
        if encodable(payload) {
            let written = self.buffer + tag_bytes(id, payload);
            if self.open_tags.len() == 0 {
                (WriterState { open_tags: self.open_tags, buffer: Seq::empty() }, Ok(Some(written)))
            } else {
                (WriterState { open_tags: self.open_tags, buffer: written }, Ok(None))
            }
        } else {
            let left = stranded(id, payload, self.buffer.len());
            (
                WriterState {
                    open_tags: self.open_tags + left.open_tags,
                    buffer: self.buffer + left.bytes,
                },
                Err(TagWriterError::TagSizeError(ToolError::WriteVintOverflow(left.size as u64))),
            )
        }
    }

    /// One step of the writer: the state after `event`, and what the call
    /// hands back.
    pub open spec fn step(self, event: TagEvent) -> (WriterState, Outcome) {
        match event {
            TagEvent::StartTag(id) => (self.start_tag(id), Ok(None)),
            TagEvent::EndTag(id) => self.end_tag(id),
            TagEvent::FullTag(id, payload) => self.full_tag(id, payload),
        }
    }

    /// The steps `events`, one after the other: the state at the end, and what
    /// each call handed back.
    pub open spec fn run(self, events: Seq<TagEvent>) -> (WriterState, Seq<Outcome>)
        decreases events.len(),
    {
        if events.len() == 0 {
            (self, Seq::empty())
        } else {
            let (before, outcomes) = self.run(events.drop_last());
            let (after, last) = before.step(events.last());
            (after, outcomes.push(last))
        }
    }
}

/// The index of the first child that cannot be written, or the number of
/// children if every child can.
pub open spec fn first_oversize(children: Seq<(u64, TagPayload)>) -> int
    decreases children.len(),
{
    if children.len() == 0 || !encodable(children.first().1) {
        0
    } else {
        1 + first_oversize(children.drop_first())
    }
}

/// If the first `n` children can be written and child `n`, if there is one,
/// cannot, then `n` is the `first_oversize` of the children.
pub proof fn lemma_first_oversize(children: Seq<(u64, TagPayload)>, n: int)
    requires
        0 <= n <= children.len(),
        forall|j: int| 0 <= j < n ==> encodable(#[trigger] children[j].1),
        n < children.len() ==> !encodable(children[n].1),
    ensures
        first_oversize(children) == n,
    decreases n,
{
    if n > 0 {
        let rest = children.drop_first();
        assert forall|j: int| 0 <= j < n - 1 implies encodable(#[trigger] rest[j].1) by {
            assert(rest[j] == children[j + 1]);
        }
        lemma_first_oversize(rest, n - 1);
    }
}

/// What a failed attempt to write a whole tag leaves in the writer.
pub struct Stranded {
    /// The containers that were opened on the way to the failure and never
    /// closed, outermost first.
    pub open_tags: Seq<(u64, nat)>,
    /// The octets that were added to the buffer.
    pub bytes: Seq<u8>,
    /// The payload size that could not be written.
    pub size: nat,
}

/// What is left behind when a tag that is not `encodable` is written to a
/// buffer of `at` octets.  The writer works through a tag in document order
/// and stops at the first payload whose size does not fit a vint: a scalar
/// has by then been appended without its header, and a container has had its
/// children written, up to the first that fails; the containers around a
/// failing child stay open.
pub open spec fn stranded(id: u64, payload: TagPayload, at: nat) -> Stranded
    decreases payload,
{
    match payload {
        TagPayload::Container(children) => {
            let k = first_oversize(children);
            let written = children_bytes(children.take(k));
            if 0 <= k < children.len() {
                let inner = stranded(children[k].0, children[k].1, at + written.len());
                Stranded {
                    open_tags: seq![(id, at)] + inner.open_tags,
                    bytes: written + inner.bytes,
                    size: inner.size,
                }
            } else {
                Stranded { open_tags: Seq::empty(), bytes: written, size: written.len() }
            }
        },
        _ => Stranded {
            open_tags: Seq::empty(),
            bytes: payload_bytes(payload),
            size: payload_bytes(payload).len(),
        },
    }
}

/// If the first `n` children of a container can be written and child `n`
/// cannot, the container cannot either, and what its failure leaves behind is
/// the container left open, the tags of the first `n` children, and what the
/// failure of child `n` leaves behind.
pub proof fn lemma_stranded_at_child(
    id: u64,
    children: Seq<(u64, TagPayload)>,
    n: int,
    at: nat,
)
    requires
        0 <= n < children.len(),
        forall|j: int| 0 <= j < n ==> encodable(#[trigger] children[j].1),
        !encodable(children[n].1),
    ensures
        !encodable(TagPayload::Container(children)),
        stranded(id, TagPayload::Container(children), at) == ({
            let written = children_bytes(children.take(n));
            let inner = stranded(children[n].0, children[n].1, at + written.len());
            Stranded {
                open_tags: seq![(id, at)] + inner.open_tags,
                bytes: written + inner.bytes,
                size: inner.size,
            }
        }),
{
    lemma_children_bytes_covers(children, n);
    lemma_first_oversize(children, n);
}

/// If every child of a container can be written, a failure of the container
/// leaves behind the tags of all its children and no open tag: the container
/// was closed before its size was found not to fit.
pub proof fn lemma_stranded_at_close(id: u64, children: Seq<(u64, TagPayload)>, at: nat)
    requires
        forall|j: int| 0 <= j < children.len() ==> encodable(#[trigger] children[j].1),
    ensures
        stranded(id, TagPayload::Container(children), at) == (Stranded {
            open_tags: Seq::empty(),
            bytes: children_bytes(children),
            size: children_bytes(children).len(),
        }),
{
    lemma_first_oversize(children, children.len() as int);
    assert(children.take(children.len() as int) =~= children);
}

} // verus!
