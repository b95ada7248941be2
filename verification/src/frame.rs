//! The wire unit of the protocol and its mathematical model.

use vstd::prelude::*;
use vstd::slice::slice_to_vec;

verus! {

/// The mathematical value of a frame: what a [`Frame`] stands for in contracts.
pub enum FrameView {
    Simple(Seq<char>),
    Error(Seq<char>),
    Integer(i64),
    Bulk(Seq<u8>),
    Null,
    Array(Seq<FrameView>),
}

/// One self-delimiting protocol message.
#[derive(Debug, PartialEq, Eq)]
pub enum Frame {
    /// A short text, such as `OK`.
    Simple(String),
    /// The text of a failure.
    Error(String),
    /// A whole number.
    Integer(i64),
    /// Bytes of any kind; none at all is a value too, and is not `Null`.
    Bulk(Vec<u8>),
    /// The absence of a value.
    Null,
    /// Frames in their order; none at all is an array too, and is not `Null`.
    Array(Vec<Frame>),
}

/// The models of a sequence of frames, element by element.
pub open spec fn frame_views(frames: Seq<Frame>) -> Seq<FrameView>
    decreases frames,
{
    if frames.len() == 0 {
        Seq::empty()
    } else {
        frame_views(frames.drop_last()).push(frames.last().view())
    }
}

impl View for Frame {
    type V = FrameView;

    open spec fn view(&self) -> FrameView
        decreases self,
    {
        match self {
            Frame::Simple(text) => FrameView::Simple(text@),
            Frame::Error(text) => FrameView::Error(text@),
            Frame::Integer(value) => FrameView::Integer(*value),
            Frame::Bulk(bytes) => FrameView::Bulk(bytes@),
            Frame::Null => FrameView::Null,
            Frame::Array(items) => FrameView::Array(frame_views(items@)),
        }
    }
}

/// The model of a sequence of frames has the model of each, at its place.
pub proof fn lemma_frame_views(frames: Seq<Frame>)
    ensures
        frame_views(frames).len() == frames.len(),
        forall|i: int| 0 <= i < frames.len() ==> (#[trigger] frame_views(frames)[i]) == frames[i]@,
    decreases frames.len(),
{
    if frames.len() > 0 {
        lemma_frame_views(frames.drop_last());
        assert(frame_views(frames) == frame_views(frames.drop_last()).push(frames.last()@));
    } else {
        assert(frame_views(frames) == Seq::<FrameView>::empty());
    }
}

impl Clone for Frame {
    /// A copy that stands for the same value.
    fn clone(&self) -> (copy: Frame)
        ensures
            copy@ == self@,
        decreases self,
    {
        match self {
            Frame::Simple(text) => Frame::Simple(text.clone()),
            Frame::Error(text) => Frame::Error(text.clone()),
            Frame::Integer(value) => Frame::Integer(*value),
            Frame::Bulk(bytes) => Frame::Bulk(slice_to_vec(bytes.as_slice())),
            Frame::Null => Frame::Null,
            Frame::Array(items) => {
                let mut copies: Vec<Frame> = Vec::new();
                let mut i: usize = 0;
                while i < items.len()
                    invariant
                        i <= items.len(),
                        decreases_to!(self => items),
                        frame_views(copies@) == frame_views(items@.take(i as int)),
                    decreases items.len() - i,
                {
                    let copy = items[i].clone();
                    proof {
                        assert(copies@.push(copy).drop_last() =~= copies@);
                        assert(items@.take(i + 1).drop_last() =~= items@.take(i as int));
                    }
                    copies.push(copy);
                    i = i + 1;
                }
                assert(items@.take(i as int) =~= items@);
                Frame::Array(copies)
            },
        }
    }
}

} // verus!
