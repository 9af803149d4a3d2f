//! What the user of a connection asks it to send.

use bytes::Bytes;
use vstd::prelude::*;

use crate::frame::MAX_RELIABLE_CHUNK;
use crate::payload::contents;

verus! {

/// What the user of a connection asks it to send.
#[derive(Debug)]
pub enum SendCmd {
    /// A reliable message: cut into chunks, acknowledged, and sent again where it is lost.
    Reliable(Bytes),
    /// A best-effort datagram.
    Datagram(Bytes),
}

/// The model of a command.
pub enum CmdView {
    Reliable(Seq<u8>),
    Datagram(Seq<u8>),
}

impl View for SendCmd {
    type V = CmdView;

    open spec fn view(&self) -> CmdView {
        match *self {
            SendCmd::Reliable(d) => CmdView::Reliable(contents(d)),
            SendCmd::Datagram(d) => CmdView::Datagram(contents(d)),
        }
    }
}

impl CmdView {
    /// A datagram may not be longer than a chunk.
    pub open spec fn allowed(self) -> bool {
        match self {
            CmdView::Reliable(_) => true,
            CmdView::Datagram(data) => data.len() <= MAX_RELIABLE_CHUNK,
        }
    }
}

/// The models of commands.
pub open spec fn cmd_views(cmds: Seq<SendCmd>) -> Seq<CmdView> {
    cmds.map_values(|c: SendCmd| c@)
}

/// All these commands are allowed.
pub open spec fn all_allowed(cmds: Seq<CmdView>) -> bool {
    forall|i: int| 0 <= i < cmds.len() ==> (#[trigger] cmds[i]).allowed()
}

} // verus!
