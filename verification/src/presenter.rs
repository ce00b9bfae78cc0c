//! Per-host output blocking.
//!
//! Executions run concurrently and their output lines arrive interleaved.
//! The presenter is the single logical writer: it keeps one piece of state,
//! the display name of the host whose block is currently open, and turns each
//! `(host, line)` event into display events such that lines of different
//! hosts never share a block. A line for the open host is appended; a line
//! for any other host first closes the open block and opens one for the new
//! host — at the cost of re-opening a host's block when another host's
//! output came in between.

use vstd::prelude::*;

use crate::util::{bytes_eq, copy_bytes};

verus! {

/// One display action handed to the writer, in order.
pub enum DisplayEvent {
    /// Start a delimited block for the named host.
    OpenBlock(Vec<u8>),
    /// End the named host's delimited block.
    CloseBlock(Vec<u8>),
    /// Write one output line inside the named host's block.
    BlockLine(Vec<u8>, Vec<u8>),
}

/// Ghost image of a [`DisplayEvent`].
pub enum DisplayEventV {
    OpenBlock(Seq<u8>),
    CloseBlock(Seq<u8>),
    BlockLine(Seq<u8>, Seq<u8>),
}

impl View for DisplayEvent {
    type V = DisplayEventV;

    open spec fn view(&self) -> DisplayEventV {
        match self {
            DisplayEvent::OpenBlock(h) => DisplayEventV::OpenBlock(h@),
            DisplayEvent::CloseBlock(h) => DisplayEventV::CloseBlock(h@),
            DisplayEvent::BlockLine(h, l) => DisplayEventV::BlockLine(h@, l@),
        }
    }
}

/// The ghost images of a list of display events.
pub open spec fn eviews(s: Seq<DisplayEvent>) -> Seq<DisplayEventV> {
    s.map_values(|e: DisplayEvent| e@)
}

/// What one line event does: from the currently open block and the line's
/// host, the events written and the block left open afterwards.
pub open spec fn spec_on_line(cur: Option<Seq<u8>>, host: Seq<u8>, line: Seq<u8>) -> (
    Option<Seq<u8>>,
    Seq<DisplayEventV>,
) {
    let evs = match cur {
        None => seq![
            DisplayEventV::OpenBlock(host),
            DisplayEventV::BlockLine(host, line),
        ],
        Some(open_host) => if open_host == host {
            seq![DisplayEventV::BlockLine(host, line)]
        } else {
            seq![
                DisplayEventV::CloseBlock(open_host),
                DisplayEventV::OpenBlock(host),
                DisplayEventV::BlockLine(host, line),
            ]
        },
    };
    (Some(host), evs)
}

/// What the end of a host's execution does: close the host's block when it
/// is the open one, otherwise write nothing and leave the state alone.
pub open spec fn spec_on_done(cur: Option<Seq<u8>>, host: Seq<u8>) -> (
    Option<Seq<u8>>,
    Seq<DisplayEventV>,
) {
    match cur {
        Some(open_host) => if open_host == host {
            (None::<Seq<u8>>, seq![DisplayEventV::CloseBlock(host)])
        } else {
            (cur, seq![])
        },
        None => (cur, seq![]),
    }
}

/// The single logical writer's state: the host whose block is open, if any.
pub struct Presenter {
    pub current: Option<Vec<u8>>,
}

impl Presenter {
    /// The open block's host name, as a ghost value.
    pub open spec fn current_view(&self) -> Option<Seq<u8>> {
        match self.current {
            Some(h) => Some(h@),
            None => None,
        }
    }

    /// A presenter with no block open.
    pub fn new() -> (p: Presenter)
        ensures
            p.current_view() is None,
    {
        Presenter { current: None }
    }

    /// Handles one `(host, line)` event, returning the display events to
    /// write, in order.
    pub fn on_line(&mut self, host: &Vec<u8>, line: &Vec<u8>) -> (evs: Vec<DisplayEvent>)
        ensures
            final(self).current_view() == spec_on_line(
                old(self).current_view(),
                host@,
                line@,
            ).0,
            eviews(evs@) == spec_on_line(old(self).current_view(), host@, line@).1,
    {
        let mut evs: Vec<DisplayEvent> = Vec::new();
        match &self.current {
            None => {
                evs.push(DisplayEvent::OpenBlock(copy_bytes(host)));
            },
            Some(open_host) => {
                if !bytes_eq(open_host, host) {
                    evs.push(DisplayEvent::CloseBlock(copy_bytes(open_host)));
                    evs.push(DisplayEvent::OpenBlock(copy_bytes(host)));
                }
            },
        }
        evs.push(DisplayEvent::BlockLine(copy_bytes(host), copy_bytes(line)));
        self.current = Some(copy_bytes(host));
        proof {
            assert(eviews(evs@) =~= spec_on_line(old(self).current_view(), host@, line@).1);
        }
        evs
    }

    /// Handles the end of a host's execution: closes its block if it is the
    /// open one, so a host that wrote last is visibly finished.
    pub fn on_host_done(&mut self, host: &Vec<u8>) -> (evs: Vec<DisplayEvent>)
        ensures
            final(self).current_view() == spec_on_done(old(self).current_view(), host@).0,
            eviews(evs@) == spec_on_done(old(self).current_view(), host@).1,
    {
        let close = match &self.current {
            Some(open_host) => bytes_eq(open_host, host),
            None => false,
        };
        let mut evs: Vec<DisplayEvent> = Vec::new();
        if close {
            evs.push(DisplayEvent::CloseBlock(copy_bytes(host)));
            self.current = None;
        }
        proof {
            assert(eviews(evs@) =~= spec_on_done(old(self).current_view(), host@).1);
        }
        evs
    }
}

/// Lines of two hosts never share a block: when lines of different hosts
/// follow one another, the second line's events close the first host's block
/// and open one for the second host before the line itself is written.
pub proof fn lemma_no_interleaving(
    cur: Option<Seq<u8>>,
    h1: Seq<u8>,
    l1: Seq<u8>,
    h2: Seq<u8>,
    l2: Seq<u8>,
)
    requires
        h1 != h2,
    ensures
        ({
            let (c1, e1) = spec_on_line(cur, h1, l1);
            let (c2, e2) = spec_on_line(c1, h2, l2);
            &&& e1.last() == DisplayEventV::BlockLine(h1, l1)
            &&& e2 == seq![
                DisplayEventV::CloseBlock(h1),
                DisplayEventV::OpenBlock(h2),
                DisplayEventV::BlockLine(h2, l2),
            ]
        }),
{
}

} // verus!
