use crate::errors::TagWriterError;
use crate::state::{Outcome, WriterState};
use crate::tags::{TagEvent, TagPayload};
use crate::wire::{
    children_bytes, encodable, lemma_children_bytes_covers, tag_bytes, tag_header,
};
use vstd::prelude::*;

verus! {

/// The steps that write a tag.  A container of which `by_pieces` holds is
/// written piece by piece: its opening tag, the steps of its children, its
/// closing tag.  Any other tag is written whole, in one step.
pub open spec fn streamed(
    by_pieces: spec_fn(u64, TagPayload) -> bool,
    id: u64,
    payload: TagPayload,
) -> Seq<TagEvent>
    decreases payload, 1nat,
{
    if payload is Container && by_pieces(id, payload) {
        seq![TagEvent::StartTag(id)] + streamed_children(by_pieces, payload->Container_0)
            + seq![TagEvent::EndTag(id)]
    } else {
        seq![TagEvent::FullTag(id, payload)]
    }
}

/// The steps that write `children`, one after the other.
pub open spec fn streamed_children(
    by_pieces: spec_fn(u64, TagPayload) -> bool,
    children: Seq<(u64, TagPayload)>,
) -> Seq<TagEvent>
    decreases children, 0nat,
{
    if children.len() == 0 {
        Seq::empty()
    } else {
        streamed_children(by_pieces, children.drop_last()) + streamed(
            by_pieces,
            children.last().0,
            children.last().1,
        )
    }
}

/// `n` calls that hand nothing out.
pub open spec fn silent(n: nat) -> Seq<Outcome> {
    Seq::new(n, |i: int| Ok::<Option<Seq<u8>>, TagWriterError>(None))
}

/// A run of one step is that step.
pub proof fn lemma_run_one(state: WriterState, event: TagEvent)
    ensures
        state.run(seq![event]) == (state.step(event).0, seq![state.step(event).1]),
{
    reveal_with_fuel(WriterState::run, 2);
    let events = seq![event];
    assert(events.drop_last().len() == 0);
    assert(state.run(events).1 =~= seq![state.step(event).1]);
}

/// Running two runs of steps, one after the other, is running all the steps.
pub proof fn lemma_run_append(state: WriterState, first: Seq<TagEvent>, then: Seq<TagEvent>)
    ensures
        state.run(first + then).0 == state.run(first).0.run(then).0,
        state.run(first + then).1 == state.run(first).1 + state.run(first).0.run(then).1,
    decreases then.len(),
{
    if then.len() == 0 {
        assert(first + then =~= first);
        assert(state.run(first).1 + Seq::<Outcome>::empty() =~= state.run(first).1);
    } else {
        lemma_run_append(state, first, then.drop_last());
        assert((first + then).drop_last() =~= first + then.drop_last());
        let middle = state.run(first).0;
        assert(state.run(first + then).1 =~= state.run(first).1 + middle.run(then).1);
    }
}

/// Nesting: the steps that write a tag piece by piece end in the state in
/// which writing the tag whole ends.  No step before the last hands anything
/// out, and the last hands back what writing the tag whole hands back: with no
/// tag open before, the octets of the whole tag after what was buffered, once.
pub proof fn lemma_streamed_tag(
    by_pieces: spec_fn(u64, TagPayload) -> bool,
    state: WriterState,
    id: u64,
    payload: TagPayload,
)
    requires
        encodable(payload),
    ensures
        streamed(by_pieces, id, payload).len() > 0,
        state.run(streamed(by_pieces, id, payload)).0 == state.full_tag(id, payload).0,
        state.run(streamed(by_pieces, id, payload)).1 == silent(
            (streamed(by_pieces, id, payload).len() - 1) as nat,
        ).push(state.full_tag(id, payload).1),
    decreases payload, 1nat,
{
    let events = streamed(by_pieces, id, payload);
    if payload is Container && by_pieces(id, payload) {
        let children = payload->Container_0;
        let open = seq![TagEvent::StartTag(id)];
        let inner = streamed_children(by_pieces, children);
        let opened = state.start_tag(id);
        assert forall|i: int| 0 <= i < children.len() implies encodable(
            (#[trigger] children[i]).1,
        ) by {
            lemma_children_bytes_covers(children, i);
        }
        lemma_streamed_children(by_pieces, opened, children);
        lemma_run_one(state, TagEvent::StartTag(id));
        assert(state.run(open).1 =~= silent(1));
        lemma_run_append(state, open, inner);
        assert(events.drop_last() =~= open + inner);
        let filled = state.run(open + inner).0;
        let at = state.buffer.len() as int;
        assert(filled.open_tags.drop_last() =~= state.open_tags);
        assert(filled.buffer.subrange(0, at) =~= state.buffer);
        assert(filled.buffer.subrange(at, filled.buffer.len() as int) =~= children_bytes(children));
        assert(state.buffer + tag_bytes(id, payload) =~= state.buffer + tag_header(
            id,
            children_bytes(children).len(),
        ) + children_bytes(children));
        assert(filled.end_tag(id).1 == state.full_tag(id, payload).1);
        assert(state.run(events).0 =~= state.full_tag(id, payload).0);
        assert(state.run(events).1 =~= silent((events.len() - 1) as nat).push(
            state.full_tag(id, payload).1,
        ));
    } else {
        lemma_run_one(state, TagEvent::FullTag(id, payload));
        assert(state.run(events).1 =~= silent(0).push(state.full_tag(id, payload).1));
    }
}

/// Inside an open tag, the steps that write some children add the tags of
/// the children to the buffer, and hand nothing out.
pub proof fn lemma_streamed_children(
    by_pieces: spec_fn(u64, TagPayload) -> bool,
    state: WriterState,
    children: Seq<(u64, TagPayload)>,
)
    requires
        state.open_tags.len() > 0,
        forall|i: int| 0 <= i < children.len() ==> encodable((#[trigger] children[i]).1),
    ensures
        state.run(streamed_children(by_pieces, children)).0 == (WriterState {
            open_tags: state.open_tags,
            buffer: state.buffer + children_bytes(children),
        }),
        state.run(streamed_children(by_pieces, children)).1 == silent(
            streamed_children(by_pieces, children).len(),
        ),
    decreases children, 0nat,
{
    let events = streamed_children(by_pieces, children);
    if children.len() == 0 {
        assert(state.buffer + children_bytes(children) =~= state.buffer);
        assert(state.run(events).1 =~= silent(0));
    } else {
        let front = children.drop_last();
        let (id, payload) = children.last();
        let before = streamed_children(by_pieces, front);
        let last = streamed(by_pieces, id, payload);
        assert forall|i: int| 0 <= i < front.len() implies encodable((#[trigger] front[i]).1) by {
            assert(front[i] == children[i]);
        }
        lemma_streamed_children(by_pieces, state, front);
        let middle = state.run(before).0;
        lemma_streamed_tag(by_pieces, middle, id, payload);
        lemma_run_append(state, before, last);
        assert(state.run(events).0 =~= (WriterState {
            open_tags: state.open_tags,
            buffer: state.buffer + children_bytes(children),
        }));
        assert(state.run(events).1 =~= silent(events.len()));
    }
}

} // verus!
