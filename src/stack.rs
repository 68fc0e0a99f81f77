use vstd::prelude::*;
use crate::tiles::Tile;

verus! {

/// What a frame of the explicit search does with its tile.
#[derive(Clone, Copy, PartialEq, Eq, Structural)]
pub enum Action {
    /// Cover the tile's nodes and search on from there.
    Apply,
    /// Uncover the tile's nodes again.
    Undo,
}

/// One pending step of the explicit search.
#[derive(Clone, Copy)]
pub struct Frame {
    pub action: Action,
    pub tile: Tile,
}

/// A last-in, first-out stack of frames.
pub struct Stack {
    data: Vec<Frame>,
}

impl View for Stack {
    type V = Seq<Frame>;

    /// The frames from the bottom of the stack to its top.
    closed spec fn view(&self) -> Seq<Frame> {
        self.data@
    }
}

impl Stack {
    /// An empty stack.
    pub fn new() -> (r: Stack)
        ensures
            r@ == Seq::<Frame>::empty(),
    {
        Stack { data: Vec::new() }
    }

    /// Takes the top frame off, if there is one.
    pub fn pop(&mut self) -> (r: Option<Frame>)
        ensures
            old(self)@.len() == 0 ==> r is None && final(self)@ == old(self)@,
            old(self)@.len() > 0 ==> r == Some(old(self)@.last()) && final(self)@ == old(
                self,
            )@.drop_last(),
    {
        self.data.pop()
    }

    /// Puts a frame on top.
    pub fn push(&mut self, frame: Frame)
        ensures
            final(self)@ == old(self)@.push(frame),
    {
        self.data.push(frame);
    }

    /// Whether the stack holds no frame.
    pub fn is_empty(&self) -> (r: bool)
        ensures
            r == (self@.len() == 0),
    {
        self.data.len() == 0
    }
}

} // verus!
