//! The messages exchanged with the out-of-process evaluator, and the
//! decisions of the bridge that carries them.

use vstd::prelude::*;
use crate::locals::Locals;
use crate::statement::Statement;
use std::collections::HashMap;

verus! {

/// How the evaluator treats a statement.
#[derive(Debug, Clone, Copy, PartialEq, Eq, Structural)]
pub enum ExecutionType {
    /// Run for its effect.
    Exec,
    /// Evaluated; its value is the cell's result.
    Eval,
    /// Introduces a name: a function, class or import.
    Definition,
}

/// One cell as the evaluator receives it.
#[derive(Debug)]
pub struct ExecutionCell {
    pub uuid: String,
    pub statements: Vec<Statement>,
    pub requirements: Vec<String>,
    pub bindings: Vec<String>,
}

/// A request to run cells, in order, each with the values of its inputs.
#[derive(Debug)]
pub struct MsgToKernel {
    pub notebook_uuid: String,
    pub cell_uuid: String,
    pub execution_cells: Vec<ExecutionCell>,
    /// Parallel to `execution_cells`: the input values of each.
    pub locals_of_deps: Vec<Locals>,
}

/// One reply of the evaluator; the last one of a request has `ended` set.
#[derive(Debug)]
pub struct MsgFromKernel {
    pub notebook_uuid: String,
    pub cell_uuid: String,
    pub locals: Locals,
    pub error: Option<String>,
    pub ended: bool,
}

/// A source snippet with the values it may read, for the evaluator.
#[derive(Debug)]
pub struct KernelMessage {
    pub content: String,
    pub locals: HashMap<String, String>,
}

#[derive(Debug, Clone, Copy, PartialEq, Eq, Structural)]
pub enum KernelClientErrors {
    CouldNotParse,
}

impl KernelClientErrors {
    /// A short description of the error.
    pub fn message(&self) -> (r: &'static str)
        ensures
            r@ == "Could not parse message"@,
    {
        match self {
            KernelClientErrors::CouldNotParse => "Could not parse message",
        }
    }
}

/// The commands of a client session.
#[derive(Debug, Clone, Copy, PartialEq, Eq, Structural)]
pub enum WsCmds {
    Run,
    Res,
    Error,
    Ping,
    Pong,
}

/// A frame sent to a client: a result with the new values, or an error.
#[derive(Debug)]
pub struct WsMessage {
    pub cmd: WsCmds,
    pub data: Option<String>,
    pub locals: Option<Locals>,
    pub cell_uuid: Option<String>,
}

impl WsMessage {
    /// The client frame for an evaluator reply.
    pub fn from_reply(msg: MsgFromKernel) -> (r: WsMessage)
        ensures
            msg.error is Some ==> r.cmd == WsCmds::Error && r.data == msg.error && r.locals is None,
            msg.error is None ==> r.cmd == WsCmds::Res && r.data is None && r.locals == Some(msg.locals),
            r.cell_uuid == Some(msg.cell_uuid),
    {
        let MsgFromKernel { notebook_uuid: _, cell_uuid, locals, error, ended: _ } = msg;
        match error {
            Some(err) => WsMessage { cmd: WsCmds::Error, data: Some(err), locals: None, cell_uuid: Some(cell_uuid) },
            None => WsMessage { cmd: WsCmds::Res, data: None, locals: Some(locals), cell_uuid: Some(cell_uuid) },
        }
    }
}

/// What the bridge does with a reply it received.
#[derive(Debug, Clone, Copy, PartialEq, Eq, Structural)]
pub struct ReplyAction {
    /// Hand the reply to the session sink of its notebook.
    pub deliver: bool,
    /// Wait for more replies to the same request.
    pub keep_receiving: bool,
}

/// Replies go to the notebook's sink when one is registered and are
/// dropped otherwise; the reply with `ended` set is the last of a request.
pub fn on_reply(reply: &MsgFromKernel, sink_registered: bool) -> (r: ReplyAction)
    ensures
        r.deliver == sink_registered,
        r.keep_receiving == !reply.ended,
{
    ReplyAction { deliver: sink_registered, keep_receiving: !reply.ended }
}

/// The reply that stands for a failure of the channel to the evaluator: an
/// error that ends the request.
pub fn transport_error_reply(notebook_uuid: String, cell_uuid: String, message: String) -> (r: MsgFromKernel)
    ensures
        r.notebook_uuid == notebook_uuid,
        r.cell_uuid == cell_uuid,
        r.error == Some(message),
        r.ended,
        r.locals@ == Map::<Seq<char>, crate::locals::LocalValue>::empty(),
{
    MsgFromKernel { notebook_uuid, cell_uuid, locals: Locals::new(), error: Some(message), ended: true }
}

/// The session sinks, by notebook id.
#[derive(Debug)]
pub struct SinkRegistry<S> {
    entries: Vec<(String, S)>,
}

impl<S> SinkRegistry<S> {
    /// The notebooks that have a sink, with their sinks.
    pub closed spec fn sinks(&self) -> Map<Seq<char>, S> {
        sinks_map(self.entries@)
    }

    pub fn new() -> (r: SinkRegistry<S>)
        ensures
            r.sinks() == Map::<Seq<char>, S>::empty(),
    {
        SinkRegistry { entries: Vec::new() }
    }

    /// The sink of `notebook_uuid`, if one is registered.
    pub fn get(&self, notebook_uuid: &String) -> (r: Option<&S>)
        ensures
            r.is_some() == self.sinks().contains_key(notebook_uuid@),
            r matches Some(s) ==> *s == self.sinks()[notebook_uuid@],
    {
        let mut i: usize = self.entries.len();
        while i > 0
            invariant
                i <= self.entries@.len(),
                forall|l: int| i <= l < self.entries@.len() ==> #[trigger] self.entries@[l].0@ != notebook_uuid@,
            decreases i,
        {
            i = i - 1;
            if self.entries[i].0 == *notebook_uuid {
                proof {
                    lemma_sinks_last(self.entries@, notebook_uuid@, i as int);
                }
                return Some(&self.entries[i].1);
            }
        }
        proof {
            lemma_sinks_absent(self.entries@, notebook_uuid@);
        }
        None
    }

    /// Registers `sink` for `notebook_uuid`, replacing an earlier one.
    pub fn register_sink(&mut self, notebook_uuid: String, sink: S)
        ensures
            final(self).sinks() == old(self).sinks().insert(notebook_uuid@, sink),
    {
        self.entries.push((notebook_uuid, sink));
        assert(self.entries@.drop_last() =~= old(self).entries@);
    }

    /// Forgets the sink of `notebook_uuid`.
    pub fn unregister_sink(&mut self, notebook_uuid: &String)
        ensures
            final(self).sinks() == old(self).sinks().remove(notebook_uuid@),
    {
        let mut kept: Vec<(String, S)> = Vec::new();
        let mut rest: Vec<(String, S)> = Vec::new();
        std::mem::swap(&mut rest, &mut self.entries);
        let ghost all = rest@;
        let mut back: Vec<(String, S)> = Vec::new();
        // Reverse `rest` into `back`, then replay it in the order it came in.
        while rest.len() > 0
            invariant
                back@.len() + rest@.len() == all.len(),
                rest@ == all.subrange(0, rest@.len() as int),
                forall|k: int| 0 <= k < back@.len() ==> #[trigger] back@[k] == all[all.len() - 1 - k],
            decreases rest.len(),
        {
            let e = rest.pop().unwrap();
            back.push(e);
        }
        let ghost mut seen: Seq<(String, S)> = Seq::empty();
        while back.len() > 0
            invariant
                seen.len() + back@.len() == all.len(),
                seen == all.subrange(0, seen.len() as int),
                forall|k: int| 0 <= k < back@.len() ==> #[trigger] back@[k] == all[all.len() - 1 - k],
                sinks_map(kept@) == sinks_map(seen).remove(notebook_uuid@),
            decreases back.len(),
        {
            let e = back.pop().unwrap();
            proof {
                assert(e == all[seen.len() as int]);
                let next = seen.push(e);
                assert(next =~= all.subrange(0, next.len() as int));
                assert(next.drop_last() =~= seen);
                seen = next;
            }
            if !(e.0 == *notebook_uuid) {
                let ghost before = kept@;
                kept.push(e);
                assert(kept@.drop_last() =~= before);
                assert(sinks_map(kept@) =~= sinks_map(seen).remove(notebook_uuid@));
            } else {
                assert(sinks_map(kept@) =~= sinks_map(seen).remove(notebook_uuid@));
            }
        }
        assert(seen =~= all);
        self.entries = kept;
    }
}

/// The map that a list of entries stands for: a later entry for a notebook
/// overrides an earlier one.
pub closed spec fn sinks_map<S>(s: Seq<(String, S)>) -> Map<Seq<char>, S>
    decreases s.len(),
{
    if s.len() == 0 {
        Map::empty()
    } else {
        sinks_map(s.drop_last()).insert(s.last().0@, s.last().1)
    }
}

proof fn lemma_sinks_last<S>(s: Seq<(String, S)>, k: Seq<char>, j: int)
    requires
        0 <= j < s.len(),
        s[j].0@ == k,
        forall|l: int| j < l < s.len() ==> #[trigger] s[l].0@ != k,
    ensures
        sinks_map(s).contains_key(k),
        sinks_map(s)[k] == s[j].1,
    decreases s.len(),
{
    reveal_with_fuel(sinks_map, 1);
    if j < s.len() - 1 {
        assert(s.drop_last()[j] == s[j]);
        assert forall|l: int| j < l < s.drop_last().len() implies #[trigger] s.drop_last()[l].0@ != k by {
            assert(s.drop_last()[l] == s[l]);
        }
        lemma_sinks_last(s.drop_last(), k, j);
        assert(s[s.len() - 1].0@ != k);
    }
}

proof fn lemma_sinks_absent<S>(s: Seq<(String, S)>, k: Seq<char>)
    requires
        forall|l: int| 0 <= l < s.len() ==> #[trigger] s[l].0@ != k,
    ensures
        !sinks_map(s).contains_key(k),
    decreases s.len(),
{
    reveal_with_fuel(sinks_map, 1);
    if s.len() > 0 {
        assert forall|l: int| 0 <= l < s.drop_last().len() implies #[trigger] s.drop_last()[l].0@ != k by {
            assert(s.drop_last()[l] == s[l]);
        }
        lemma_sinks_absent(s.drop_last(), k);
        assert(s[s.len() - 1].0@ != k);
    }
}

} // verus!
