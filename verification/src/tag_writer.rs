use crate::errors::TagWriterError;
use crate::state::{
    lemma_stranded_at_child, lemma_stranded_at_close, stranded, Outcome, WriterState,
};
use crate::tags::{children_view, lemma_children_view, TagData, TagPayload, TagPosition};
use crate::tools::{lemma_be_bytes_len, push_be_bytes, Vint};
use crate::wire::{
    children_bytes, encodable, lemma_children_bytes_step, payload_bytes, push_id_bytes, tag_bytes,
    tag_header, to_twos_complement,
};
use vstd::prelude::*;

verus! {

/// Writes a stream of tags as octets: each tag as its id, the size of its
/// payload as a vint, and the payload.
///
/// The size of a container is known only when it is closed, so the writer
/// buffers what belongs to the outermost open tag and puts each header in
/// front of its payload when the tag is completed.  It hands the octets out
/// when the outermost tag is completed; sending them on is the caller's part.
pub struct TagWriter {
    open_tags: Vec<(u64, usize)>,
    working_buffer: Vec<u8>,
}

/// The mathematical value of what a call of the writer hands back.
pub open spec fn outcome(result: Result<Option<Vec<u8>>, TagWriterError>) -> Outcome {
    match result {
        Ok(Some(octets)) => Ok(Some(octets@)),
        Ok(None) => Ok(None),
        Err(e) => Err(e),
    }
}

impl View for TagWriter {
    type V = WriterState;

    closed spec fn view(&self) -> WriterState {
        WriterState {
            open_tags: self.open_tags@.map_values(|tag: (u64, usize)| (tag.0, tag.1 as nat)),
            buffer: self.working_buffer@,
        }
    }
}

impl TagWriter {
    /// A writer with no tag open and nothing buffered.
    pub fn new() -> (writer: Self)
        ensures
            writer@ == WriterState::initial(),
    {
        TagWriter { open_tags: Vec::new(), working_buffer: Vec::new() }
    }

    /// Opens a tag: records its id and where its payload will start.
    fn start_tag(&mut self, id: u64)
        requires
            old(self)@.wf(),
        ensures
            final(self)@.wf(),
            final(self)@ == old(self)@.start_tag(id),
    {
        let at = self.working_buffer.len();
        self.open_tags.push((id, at));
        assert(self@.open_tags =~= old(self)@.start_tag(id).open_tags);
    }

    /// Closes the innermost open tag, if `id` is its id, and completes it with
    /// what was buffered since it was opened.
    fn end_tag(&mut self, id: u64) -> (result: Result<Option<Vec<u8>>, TagWriterError>)
        requires
            old(self)@.wf(),
        ensures
            final(self)@.wf(),
            final(self)@ == old(self)@.end_tag(id).0,
            outcome(result) == old(self)@.end_tag(id).1,
    {
        match self.open_tags.pop() {
            Some(open_tag) => {
                assert(self@.open_tags =~= old(self)@.open_tags.drop_last());
                assert(old(self)@.open_tags.last() == (open_tag.0, open_tag.1 as nat));
                if open_tag.0 == id {
                    let size = (self.working_buffer.len() - open_tag.1) as u64;
                    self.finalize_tag(open_tag.0, size)
                } else {
                    Err(
                        TagWriterError::UnexpectedClosingTag {
                            tag_id: id,
                            expected_id: Some(open_tag.0),
                        },
                    )
                }
            },
            None => Err(TagWriterError::UnexpectedClosingTag { tag_id: id, expected_id: None }),
        }
    }

    /// Writes a whole tag: a container through its children, any other tag by
    /// appending its payload and completing it.
    fn write_full_tag(&mut self, id: u64, data: &TagData) -> (result: Result<
        Option<Vec<u8>>,
        TagWriterError,
    >)
        requires
            old(self)@.wf(),
        ensures
            final(self)@.wf(),
            final(self)@ == old(self)@.full_tag(id, data@).0,
            outcome(result) == old(self)@.full_tag(id, data@).1,
        decreases data,
    {
        let size: u64 = match data {
            TagData::Master(children) => {
                proof {
                    assert(decreases_to!(data => data->Master_0));
                }
                return self.write_master(id, children);
            },
            TagData::UnsignedInt(value) => {
                let width: usize = if *value <= 0xff {
                    1
                } else if *value <= 0xffff {
                    2
                } else if *value <= 0xffff_ffff {
                    4
                } else {
                    8
                };
                push_be_bytes(&mut self.working_buffer, *value, width);
                proof {
                    lemma_be_bytes_len(*value as nat, width as nat);
                }
                width as u64
            },
            TagData::Integer(value) => {
                let width: usize = if -0x80 <= *value && *value <= 0x7f {
                    1
                } else if -0x8000 <= *value && *value <= 0x7fff {
                    2
                } else if -0x8000_0000 <= *value && *value <= 0x7fff_ffff {
                    4
                } else {
                    8
                };
                let image = to_twos_complement(*value);
                push_be_bytes(&mut self.working_buffer, image, width);
                proof {
                    lemma_be_bytes_len(image as nat, width as nat);
                }
                width as u64
            },
            TagData::Utf8(text) => {
                let octets = text.as_str().as_bytes();
                self.working_buffer.extend_from_slice(octets);
                octets.len() as u64
            },
            TagData::Binary(octets) => {
                self.working_buffer.extend_from_slice(octets.as_slice());
                octets.len() as u64
            },
            TagData::Float(bits) => {
                push_be_bytes(&mut self.working_buffer, *bits, 8);
                proof {
                    lemma_be_bytes_len(*bits as nat, 8);
                }
                8
            },
        };
        assert(self@.buffer =~= old(self)@.buffer + payload_bytes(data@));
        let ghost filled = self@;
        let result = self.finalize_tag(id, size);
        proof {
            let at = old(self)@.buffer.len() as int;
            assert(filled.buffer.subrange(0, at) =~= old(self)@.buffer);
            assert(filled.buffer.subrange(at, filled.buffer.len() as int) =~= payload_bytes(data@));
            assert(old(self)@.open_tags + Seq::<(u64, nat)>::empty() =~= old(self)@.open_tags);
            assert(stranded(id, data@, old(self)@.buffer.len()).size == size);
            assert(old(self)@.buffer + tag_bytes(id, data@) =~= old(self)@.buffer + tag_header(
                id,
                size as nat,
            ) + payload_bytes(data@));
        }
        result
    }

    /// Writes a container: opens it, writes its children in order, closes it.
    fn write_master(&mut self, id: u64, children: &Vec<(u64, TagData)>) -> (result: Result<
        Option<Vec<u8>>,
        TagWriterError,
    >)
        requires
            old(self)@.wf(),
        ensures
            final(self)@.wf(),
            final(self)@ == old(self)@.full_tag(
                id,
                TagPayload::Container(children_view(children@)),
            ).0,
            outcome(result) == old(self)@.full_tag(
                id,
                TagPayload::Container(children_view(children@)),
            ).1,
        decreases children,
    {
        let ghost kids = children_view(children@);
        let ghost whole = TagPayload::Container(kids);
        proof {
            lemma_children_view(children@);
        }
        self.start_tag(id);
        let mut i: usize = 0;
        while i < children.len()
            invariant
                i <= children.len(),
                kids == children_view(children@),
                whole == TagPayload::Container(kids),
                kids.len() == children.len(),
                forall|j: int|
                    0 <= j < kids.len() ==> #[trigger] kids[j] == (children@[j].0, children@[j].1@),
                self@.wf(),
                self@.open_tags == old(self)@.start_tag(id).open_tags,
                self@.buffer == old(self)@.buffer + children_bytes(kids.take(i as int)),
                forall|j: int| 0 <= j < i ==> encodable(#[trigger] kids[j].1),
            decreases children.len() - i,
        {
            proof {
                assert(decreases_to!(children => children[i as int]));
                assert(decreases_to!(children[i as int] => children[i as int].1));
                lemma_children_bytes_step(kids, i as int);
            }
            let ghost before = self@;
            match self.write_full_tag(children[i].0, &children[i].1) {
                Ok(_) => {},
                Err(e) => {
                    proof {
                        assert(kids[i as int] == (children@[i as int].0, children@[i as int].1@));
                        lemma_stranded_at_child(id, kids, i as int, old(self)@.buffer.len());
                        assert(self@.open_tags =~= old(self)@.full_tag(id, whole).0.open_tags);
                        assert(self@.buffer =~= old(self)@.full_tag(id, whole).0.buffer);
                    }
                    return Err(e);
                },
            }
            i += 1;
        }
        let ghost filled = self@;
        let result = self.end_tag(id);
        proof {
            assert(kids.take(i as int) =~= kids);
            lemma_stranded_at_close(id, kids, old(self)@.buffer.len());
            let at = old(self)@.buffer.len() as int;
            let size = children_bytes(kids).len();
            assert(filled.buffer.subrange(0, at) =~= old(self)@.buffer);
            assert(filled.buffer.subrange(at, filled.buffer.len() as int) =~= children_bytes(kids));
            assert(old(self)@.start_tag(id).open_tags.drop_last() =~= old(self)@.open_tags);
            assert(old(self)@.open_tags + Seq::<(u64, nat)>::empty() =~= old(self)@.open_tags);
            assert(old(self)@.buffer + tag_bytes(id, whole) =~= old(self)@.buffer + tag_header(
                id,
                size,
            ) + children_bytes(kids));
        }
        result
    }

    /// Completes a tag whose payload is the last `size` octets of the buffer:
    /// puts the header in front of the payload and, if no tag is open any more,
    /// hands out the whole buffer.
    fn finalize_tag(&mut self, id: u64, size: u64) -> (result: Result<
        Option<Vec<u8>>,
        TagWriterError,
    >)
        requires
            old(self)@.wf(),
            size <= old(self)@.buffer.len(),
        ensures
            final(self)@.wf(),
            final(self)@ == old(self)@.finalize_tag(id, size as nat).0,
            outcome(result) == old(self)@.finalize_tag(id, size as nat).1,
    {
        let mut size_vint = match size.as_vint() {
            Ok(octets) => octets,
            Err(e) => {
                return Err(TagWriterError::TagSizeError(e));
            },
        };
        let index = self.working_buffer.len() - size as usize;
        let mut header = Vec::new();
        push_id_bytes(&mut header, id);
        header.append(&mut size_vint);
        let mut payload = self.working_buffer.split_off(index);
        self.working_buffer.append(&mut header);
        self.working_buffer.append(&mut payload);
        if self.open_tags.is_empty() {
            let mut complete = Vec::new();
            std::mem::swap(&mut complete, &mut self.working_buffer);
            Ok(Some(complete))
        } else {
            Ok(None)
        }
    }

    /// Takes one step of a stream of tags.
    ///
    /// The new state and what is handed back are those of
    /// [`WriterState::step`].  In particular:
    ///
    /// - A closing tag with no tag open fails with `expected_id: None` and
    ///   changes nothing.  A closing tag whose id is not that of the innermost
    ///   open tag fails with that tag's id as `expected_id`, and that tag is no
    ///   longer open afterwards.
    /// - Octets are handed out exactly when the step completes an outermost
    ///   tag: when a closing tag or a whole tag succeeds and leaves no tag
    ///   open.  The caller is to write them to its destination in one piece,
    ///   and to flush the destination.
    /// - When that happens nothing stays buffered.
    pub fn write(&mut self, tag: TagPosition) -> (result: Result<Option<Vec<u8>>, TagWriterError>)
        requires
            old(self)@.wf(),
        ensures
            final(self)@.wf(),
            final(self)@ == old(self)@.step(tag@).0,
            outcome(result) == old(self)@.step(tag@).1,
            tag matches TagPosition::EndTag(id) ==> (old(self)@.open_tags.len() == 0 ==> {
                &&& result == Err::<Option<Vec<u8>>, TagWriterError>(
                    TagWriterError::UnexpectedClosingTag { tag_id: id, expected_id: None },
                )
                &&& final(self)@ == old(self)@
            }),
            tag matches TagPosition::EndTag(id) ==> (old(self)@.open_tags.len() > 0
                && old(self)@.open_tags.last().0 != id ==> {
                &&& result == Err::<Option<Vec<u8>>, TagWriterError>(
                    TagWriterError::UnexpectedClosingTag {
                        tag_id: id,
                        expected_id: Some(old(self)@.open_tags.last().0),
                    },
                )
                &&& final(self)@.open_tags == old(self)@.open_tags.drop_last()
                &&& final(self)@.buffer == old(self)@.buffer
            }),
            (result matches Ok(Some(_))) <==> result is Ok && !(tag is StartTag)
                && final(self)@.open_tags.len() == 0,
            result is Ok && final(self)@.open_tags.len() == 0 ==> final(self)@.buffer.len() == 0,
    {
        match tag {
            TagPosition::StartTag(id) => {
                self.start_tag(id);
                Ok(None)
            },
            TagPosition::EndTag(id) => self.end_tag(id),
            TagPosition::FullTag(id, data) => self.write_full_tag(id, &data),
        }
    }
}

} // verus!
