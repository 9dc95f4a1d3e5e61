//! The sequencer's ordering decision: a precommit request whose reported
//! ledger head matches the head the sequencer last recorded receives the next
//! order id; one that disagrees is refused as a divergence.
use vstd::prelude::*;
use vstd::string::StringExecFns;

verus! {

/// A node's request to have its next change ordered.
pub struct PrecommitMsg {
    pub node_id: u64,
    /// The node's head hash after the change it asks to order.
    pub local_hash: String,
    /// The node's head hash before that change.
    pub ledger_head: String,
}

/// The sequencer's answer to an agreed precommit.
pub struct OrderMsg {
    pub order_id: u64,
    pub target_hash: String,
}

/// Whether a node's reported head disagrees with the recorded one. Before the
/// first agreement nothing is recorded and every node agrees.
pub open spec fn diverges(recorded: Seq<char>, reported: Seq<char>) -> bool {
    recorded.len() > 0 && recorded != reported
}

/// The text of a divergence error.
pub open spec fn divergence_text(recorded: Seq<char>, reported: Seq<char>) -> Seq<char> {
    "CLUSTER DIVERGENCE DETECTED. Sequencer head: "@ + recorded + " | Node head: "@ + reported
}

/// The divergence error for a recorded and a reported head.
fn divergence_message(recorded: &str, reported: &str) -> (r: String)
    ensures
        r@ == divergence_text(recorded@, reported@),
{
    let mut m = "CLUSTER DIVERGENCE DETECTED. Sequencer head: ".to_owned();
    m.append(recorded);
    m.append(" | Node head: ");
    m.append(reported);
    m
}

/// The sequencer's state: the next order id and the last agreed head.
pub struct Sequencer {
    next_order_id: u64,
    last_known_head: String,
}

impl Sequencer {
    pub closed spec fn next_id(&self) -> u64 {
        self.next_order_id
    }

    pub closed spec fn head(&self) -> Seq<char> {
        self.last_known_head@
    }

    /// A sequencer that has ordered nothing: ids start at 1.
    pub fn new() -> (r: Self)
        ensures
            r.next_id() == 1,
            r.head() == Seq::<char>::empty(),
    {
        Sequencer { next_order_id: 1, last_known_head: String::new() }
    }

    /// Orders one precommit. On agreement the request gets the next id (ids
    /// wrap as an atomic counter does) and its new head becomes the recorded
    /// one; on divergence nothing changes.
    pub fn handle_precommit(&mut self, req: PrecommitMsg) -> (r: Result<OrderMsg, String>)
        ensures
            r is Err <==> diverges(old(self).head(), req.ledger_head@),
            r matches Err(m) ==> m@ == divergence_text(old(self).head(), req.ledger_head@)
                && final(self).head() == old(self).head() && final(self).next_id() == old(
                self,
            ).next_id(),
            r matches Ok(o) ==> o.order_id == old(self).next_id() && o.target_hash@
                == req.local_hash@ && final(self).head() == req.local_hash@
                && final(self).next_id() == if old(self).next_id() == u64::MAX {
                0
            } else {
                old(self).next_id() + 1
            },
    {
        if !self.last_known_head.as_str().is_empty() && self.last_known_head != req.ledger_head {
            return Err(
                divergence_message(self.last_known_head.as_str(), req.ledger_head.as_str()),
            );
        }
        let assigned = self.next_order_id;
        self.next_order_id = self.next_order_id.wrapping_add(1);
        self.last_known_head = req.local_hash.clone();
        Ok(OrderMsg { order_id: assigned, target_hash: req.local_hash })
    }
}

} // verus!
