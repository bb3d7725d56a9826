//! The idle connections of a pool of database connections.
//!
//! The pool hands out at most as many connections at a time as it has
//! permits; a connection handed back is kept for the next taker, and the most
//! recently returned one is taken first.
use vstd::prelude::*;

verus! {

/// The connections that are open but not in use.
pub struct IdleConnections<C> {
    connections: Vec<C>,
}

impl<C> View for IdleConnections<C> {
    type V = Seq<C>;

    closed spec fn view(&self) -> Seq<C> {
        self.connections@
    }
}

impl<C> IdleConnections<C> {
    /// No idle connection, with room kept for `max_conns` of them.
    pub fn with_capacity(max_conns: usize) -> (idle: IdleConnections<C>)
        ensures
            idle@ == Seq::<C>::empty(),
    {
        IdleConnections { connections: Vec::with_capacity(max_conns) }
    }

    /// Takes the most recently returned idle connection, if there is one.
    pub fn take(&mut self) -> (conn: Option<C>)
        ensures
            old(self)@.len() == 0 ==> conn is None && final(self)@ == old(self)@,
            old(self)@.len() > 0 ==> conn == Some(old(self)@.last()) && final(self)@
                == old(self)@.drop_last(),
    {
        self.connections.pop()
    }

    /// Keeps a connection that is no longer in use.
    pub fn put_back(&mut self, conn: C)
        ensures
            final(self)@ == old(self)@.push(conn),
    {
        self.connections.push(conn);
    }
}

/// Taking right after handing a connection back gives that connection again
/// and leaves the idle connections as they were before.
/// (`put_back` leaves `idle@.push(conn)`; `take` on a non-empty state gives
/// its last connection and leaves the rest.)
pub proof fn lemma_take_undoes_put_back<C>(idle: IdleConnections<C>, conn: C)
    ensures
        idle@.push(conn).len() > 0,
        idle@.push(conn).last() == conn,
        idle@.push(conn).drop_last() == idle@,
{
    assert(idle@.push(conn).drop_last() =~= idle@);
}

} // verus!
