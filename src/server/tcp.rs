//! Counters of the TCP acceptor.

use vstd::prelude::*;

verus! {

/// Connections accepted so far and connections still open.
#[derive(Debug, Clone, Copy, PartialEq, Eq, Default)]
pub struct ServerStats {
    pub total_connections: usize,
    pub active_connections: usize,
}

impl ServerStats {
    /// A connection was accepted.
    pub fn accepted(&mut self)
        ensures
            final(self).total_connections == (if old(self).total_connections < usize::MAX {
                old(self).total_connections + 1
            } else {
                old(self).total_connections as int
            }),
            final(self).active_connections == (if old(self).active_connections < usize::MAX {
                old(self).active_connections + 1
            } else {
                old(self).active_connections as int
            }),
    {
        self.total_connections = self.total_connections.saturating_add(1);
        self.active_connections = self.active_connections.saturating_add(1);
    }

    /// A connection was closed.
    pub fn closed(&mut self)
        ensures
            final(self).total_connections == old(self).total_connections,
            final(self).active_connections == (if old(self).active_connections > 0 {
                old(self).active_connections - 1
            } else {
                0
            }),
    {
        self.active_connections = self.active_connections.saturating_sub(1);
    }
}

} // verus!
