//! Routing of decoded blocks to the transfers that are under way.

use crate::protocol::{
    frame, frame_block_type, frame_client_id, frame_payload, frame_wf, lemma_frame_round_trip,
    Block, BlockType, ClientId, Error, Parameter, RaptorQ,
};
use vstd::prelude::*;

verus! {

/// The clients of `ids` other than `id`, in their order.
pub open spec fn without(ids: Seq<ClientId>, id: ClientId) -> Seq<ClientId> {
    ids.filter(|other: ClientId| other != id)
}

/// The clients of `ids` that are not among `gone`, in their order.
pub open spec fn without_all(ids: Seq<ClientId>, gone: Seq<ClientId>) -> Seq<ClientId> {
    ids.filter(|other: ClientId| !gone.contains(other))
}

/// What becomes of a block.
#[derive(Clone, Copy, Debug, PartialEq, Eq, Structural)]
pub enum Route {
    /// It is dropped.
    Drop,
    /// It is a heartbeat.
    Heartbeat,
    /// It opens a transfer.
    Start,
    /// It goes to the transfer of its client.
    Forward,
    /// It goes to the transfer of its client, and ends it.
    Finish,
}

/// Where a block goes, given the clients whose transfers are under way.
/// A block that is malformed or of no known kind is dropped, as is a `Data`,
/// `Abort` or `End` block of a client without a transfer.
pub open spec fn route(active: Seq<ClientId>, block: Seq<u8>) -> Route {
    if !frame_wf(block) {
        Route::Drop
    } else {
        match frame_block_type(block) {
            Err(_) => Route::Drop,
            Ok(BlockType::Heartbeat) => Route::Heartbeat,
            Ok(BlockType::Start) => Route::Start,
            Ok(BlockType::Data) => if active.contains(frame_client_id(block) as ClientId) {
                Route::Forward
            } else {
                Route::Drop
            },
            Ok(_) => if active.contains(frame_client_id(block) as ClientId) {
                Route::Finish
            } else {
                Route::Drop
            },
        }
    }
}

/// The transfers that the stage knows of.
pub struct DispatchState {
    /// Clients whose transfer is under way, oldest first.
    pub active: Seq<ClientId>,
    /// Clients whose transfer has ended and whose queue is kept until it
    /// is found drained.
    pub ended: Seq<ClientId>,
}

impl DispatchState {
    /// No client occurs twice in either list.
    pub open spec fn wf(self) -> bool {
        self.active.no_duplicates() && self.ended.no_duplicates()
    }
}

/// What the program has to do with a block.
pub enum Action {
    /// Nothing: the block is dropped.
    Drop,
    /// Note that a heartbeat came.
    Heartbeat,
    /// Make a new queue for the client, announce it to the writers, then
    /// send the block on it.
    Start { client_id: ClientId, block: Block },
    /// Send the block on the queue of the client.
    Forward { client_id: ClientId, block: Block },
    /// Send the block on the queue of the client, then retire that queue.
    Finish { client_id: ClientId, block: Block },
}

impl Action {
    /// The route that the action stands for.
    pub open spec fn spec_route(&self) -> Route {
        match self {
            Action::Drop => Route::Drop,
            Action::Heartbeat => Route::Heartbeat,
            Action::Start { .. } => Route::Start,
            Action::Forward { .. } => Route::Forward,
            Action::Finish { .. } => Route::Finish,
        }
    }
}

/// The dispatch stage: the one owner of the list of transfers.
pub struct Dispatch {
    active: Vec<ClientId>,
    ended: Vec<ClientId>,
}

impl View for Dispatch {
    type V = DispatchState;

    closed spec fn view(&self) -> DispatchState {
        DispatchState { active: self.active@, ended: self.ended@ }
    }
}

/// Tells whether `id` is among `ids`.
fn contains_id(ids: &Vec<ClientId>, id: ClientId) -> (found: bool)
    ensures
        found == ids@.contains(id),
{
    let mut i: usize = 0;
    while i < ids.len()
        invariant
            i <= ids@.len(),
            forall|j: int| 0 <= j < i ==> ids@[j] != id,
        decreases ids@.len() - i,
    {
        if ids[i] == id {
            return true;
        }
        i += 1;
    }
    false
}

/// Takes `id` out of `ids`.
fn remove_id(ids: &mut Vec<ClientId>, id: ClientId)
    requires
        old(ids)@.no_duplicates(),
    ensures
        final(ids)@ == without(old(ids)@, id),
        final(ids)@.no_duplicates(),
        !final(ids)@.contains(id),
        forall|other: ClientId|
            other != id ==> final(ids)@.contains(other) == old(ids)@.contains(other),
{
    let single: Vec<ClientId> = vec![id];
    assert(single@ =~= seq![id]);
    remove_ids(ids, &single);
    proof {
        lemma_without_single(old(ids)@, id);
        assert(seq![id][0] == id);
        assert forall|other: ClientId| other != id implies !seq![id].contains(other) by {
            if seq![id].contains(other) {
                let k = choose|k: int| 0 <= k < seq![id].len() && seq![id][k] == other;
            }
        }
    }
}

/// Taking out the one client of a list of one is taking out that client.
proof fn lemma_without_single(ids: Seq<ClientId>, id: ClientId)
    ensures
        without_all(ids, seq![id]) == without(ids, id),
    decreases ids.len(),
{
    reveal(Seq::filter);
    if ids.len() > 0 {
        lemma_without_single(ids.drop_last(), id);
        let last = ids.last();
        assert(seq![id][0] == id);
        if seq![id].contains(last) {
            let k = choose|k: int| 0 <= k < seq![id].len() && seq![id][k] == last;
        }
        assert(seq![id].contains(last) == (last == id));
    }
}

/// Takes the clients of `gone` out of `ids`, and hands back those that
/// were there.
fn remove_ids(ids: &mut Vec<ClientId>, gone: &Vec<ClientId>) -> (removed: Vec<ClientId>)
    requires
        old(ids)@.no_duplicates(),
    ensures
        final(ids)@ == without_all(old(ids)@, gone@),
        final(ids)@.no_duplicates(),
        removed@ == old(ids)@.filter(|other: ClientId| gone@.contains(other)),
        forall|other: ClientId|
            final(ids)@.contains(other) == (old(ids)@.contains(other) && !gone@.contains(other)),
{
    let mut kept: Vec<ClientId> = Vec::new();
    let mut removed: Vec<ClientId> = Vec::new();
    let ghost all = ids@;
    let ghost keep = |other: ClientId| !gone@.contains(other);
    let ghost drop = |other: ClientId| gone@.contains(other);
    let mut i: usize = 0;
    proof {
        reveal(Seq::filter);
        assert(all.subrange(0, 0) =~= Seq::<ClientId>::empty());
    }
    while i < ids.len()
        invariant
            i <= all.len(),
            ids@ == all,
            all.no_duplicates(),
            keep == (|other: ClientId| !gone@.contains(other)),
            drop == (|other: ClientId| gone@.contains(other)),
            kept@ == all.subrange(0, i as int).filter(keep),
            removed@ == all.subrange(0, i as int).filter(drop),
            kept@.no_duplicates(),
            forall|other: ClientId|
                kept@.contains(other) == (all.subrange(0, i as int).contains(other)
                    && !gone@.contains(other)),
        decreases all.len() - i,
    {
        let id: ClientId = ids[i];
        let is_gone = contains_id(gone, id);
        proof {
            let before = all.subrange(0, i as int);
            assert(all.subrange(0, i + 1) =~= before.push(id));
            before.lemma_filter_push(id, keep);
            before.lemma_filter_push(id, drop);
            assert(!before.contains(id)) by {
                if before.contains(id) {
                    let k = choose|k: int| 0 <= k < before.len() && before[k] == id;
                    assert(all[k] == all[i as int]);
                }
            }
            assert forall|other: ClientId| before.push(id).contains(other) == (before.contains(
                other,
            ) || other == id) by {
                if before.push(id).contains(other) {
                    let k = choose|k: int|
                        0 <= k < before.push(id).len() && before.push(id)[k] == other;
                    if k < before.len() {
                        assert(before[k] == other);
                    }
                } else {
                    assert(before.push(id)[before.len() as int] == id);
                    if before.contains(other) {
                        let k = choose|k: int| 0 <= k < before.len() && before[k] == other;
                        assert(before.push(id)[k] == other);
                    }
                }
            }
        }
        if is_gone {
            removed.push(id);
        } else {
            proof {
                lemma_push_fresh(kept@, id);
            }
            kept.push(id);
        }
        i += 1;
    }
    assert(all.subrange(0, all.len() as int) =~= all);
    *ids = kept;
    removed
}

/// Appending a value that a list does not hold keeps it free of repeats,
/// and the list then holds that value besides what it held.
proof fn lemma_push_fresh(s: Seq<ClientId>, id: ClientId)
    requires
        s.no_duplicates(),
        !s.contains(id),
    ensures
        s.push(id).no_duplicates(),
        forall|other: ClientId| s.push(id).contains(other) == (s.contains(other) || other == id),
{
    assert forall|i: int, j: int|
        0 <= i < s.push(id).len() && 0 <= j < s.push(id).len() && i != j implies s.push(id)[i]
        != s.push(id)[j] by {
        if i < s.len() && j < s.len() {
        } else if i < s.len() {
            assert(s[i] != id);
        } else {
            assert(s[j] != id);
        }
    }
    assert forall|other: ClientId| s.push(id).contains(other) == (s.contains(other) || other
        == id) by {
        if s.push(id).contains(other) {
            let k = choose|k: int| 0 <= k < s.push(id).len() && s.push(id)[k] == other;
            if k < s.len() {
                assert(s[k] == other);
            }
        } else {
            assert(s.push(id)[s.len() as int] == id);
            if s.contains(other) {
                let k = choose|k: int| 0 <= k < s.len() && s[k] == other;
                assert(s.push(id)[k] == other);
            }
        }
    }
}

/// What the stage is given: a decoded block, or the mark of lost
/// synchronization.
pub enum Input {
    /// Synchronization was lost.
    Lost,
    /// The bytes of a decoded block.
    Block(Seq<u8>),
}

/// A block sent on the queue of a client.
pub struct Sent {
    /// The client whose queue it is sent on.
    pub client_id: ClientId,
    /// The kind of the block.
    pub kind: BlockType,
    /// The payload of the block.
    pub payload: Seq<u8>,
}

/// The transfers under way after an input.
pub open spec fn next_active(active: Seq<ClientId>, input: Input) -> Seq<ClientId> {
    match input {
        Input::Lost => Seq::<ClientId>::empty(),
        Input::Block(block) => {
            let client_id = frame_client_id(block) as ClientId;
            match route(active, block) {
                Route::Start => without(active, client_id).push(client_id),
                Route::Finish => without(active, client_id),
                _ => active,
            }
        },
    }
}

/// The blocks that an input puts on the queues of the clients: an `Abort`
/// block for every transfer under way where synchronization was lost, the
/// block itself where it is routed to a transfer, and nothing else.
pub open spec fn sent(active: Seq<ClientId>, input: Input) -> Seq<Sent> {
    match input {
        Input::Lost => Seq::new(
            active.len(),
            |i: int|
                Sent { client_id: active[i], kind: BlockType::Abort, payload: Seq::<u8>::empty() },
        ),
        Input::Block(block) => match route(active, block) {
            Route::Drop => Seq::<Sent>::empty(),
            Route::Heartbeat => Seq::<Sent>::empty(),
            _ => seq![
                Sent {
                    client_id: frame_client_id(block) as ClientId,
                    kind: frame_block_type(block)->Ok_0,
                    payload: frame_payload(block),
                },
            ],
        },
    }
}

/// The transfers under way after a run of inputs, from a stage without
/// transfers.
pub open spec fn run_active(inputs: Seq<Input>) -> Seq<ClientId>
    decreases inputs.len(),
{
    if inputs.len() == 0 {
        Seq::<ClientId>::empty()
    } else {
        next_active(run_active(inputs.drop_last()), inputs.last())
    }
}

/// The blocks put on the queues of the clients by a run of inputs, in their
/// order.
pub open spec fn run_sent(inputs: Seq<Input>) -> Seq<Sent>
    decreases inputs.len(),
{
    if inputs.len() == 0 {
        Seq::<Sent>::empty()
    } else {
        run_sent(inputs.drop_last()) + sent(run_active(inputs.drop_last()), inputs.last())
    }
}

/// The queue of the client is open at the end of the log: the last block
/// sent to the client is a `Start` or a `Data` block.
pub open spec fn is_open(log: Seq<Sent>, client_id: ClientId) -> bool
    decreases log.len(),
{
    if log.len() == 0 {
        false
    } else if log.last().client_id != client_id {
        is_open(log.drop_last(), client_id)
    } else {
        log.last().kind == BlockType::Start || log.last().kind == BlockType::Data
    }
}

/// The blocks sent to the client come in the order of a transfer: a `Start`
/// block opens a queue, and a `Data`, `End` or `Abort` block is sent on an
/// open queue only. No heartbeat is sent to a client.
pub open spec fn in_order(log: Seq<Sent>, client_id: ClientId) -> bool
    decreases log.len(),
{
    if log.len() == 0 {
        true
    } else {
        &&& in_order(log.drop_last(), client_id)
        &&& log.last().client_id == client_id ==> match log.last().kind {
            BlockType::Start => true,
            BlockType::Heartbeat => false,
            _ => is_open(log.drop_last(), client_id),
        }
    }
}

impl Dispatch {
    /// A stage without transfers.
    pub fn new() -> (d: Dispatch)
        ensures
            d@.active.len() == 0,
            d@.ended.len() == 0,
            d@.wf(),
    {
        Dispatch { active: Vec::new(), ended: Vec::new() }
    }

    /// Tells whether a transfer of the client is under way.
    pub fn is_active(&self, client_id: ClientId) -> (b: bool)
        ensures
            b == self@.active.contains(client_id),
    {
        contains_id(&self.active, client_id)
    }

    /// Number of transfers under way.
    pub fn nb_active(&self) -> (n: usize)
        ensures
            n == self@.active.len(),
    {
        self.active.len()
    }

    /// Number of ended transfers whose queue is still kept.
    pub fn nb_ended(&self) -> (n: usize)
        ensures
            n == self@.ended.len(),
    {
        self.ended.len()
    }

    /// Decides what to do with a decoded block. A `Start` block makes its
    /// client active, in place of an earlier transfer of that client if
    /// there is one. An `Abort` or `End` block of an active client ends its
    /// transfer. Every other block leaves the transfers as they are.
    pub fn on_block(&mut self, block: Block) -> (action: Action)
        requires
            old(self)@.wf(),
        ensures
            final(self)@.wf(),
            final(self)@.ended == old(self)@.ended,
            action.spec_route() == route(old(self)@.active, block@),
            final(self)@.active == next_active(old(self)@.active, Input::Block(block@)),
            match action {
                Action::Drop => final(self)@ == old(self)@,
                Action::Heartbeat => final(self)@ == old(self)@,
                Action::Start { client_id, block: first } => {
                    &&& client_id == block.spec_client_id()
                    &&& first == block
                    &&& final(self)@.active == without(old(self)@.active, client_id).push(
                        client_id,
                    )
                },
                Action::Forward { client_id, block: next } => {
                    &&& client_id == block.spec_client_id()
                    &&& next == block
                    &&& final(self)@ == old(self)@
                },
                Action::Finish { client_id, block: last } => {
                    &&& client_id == block.spec_client_id()
                    &&& last == block
                    &&& final(self)@.active == without(old(self)@.active, client_id)
                },
            },
    {
        if !block.is_well_formed() {
            return Action::Drop;
        }
        let kind = match block.block_type() {
            Err(_) => {
                return Action::Drop;
            },
            Ok(kind) => kind,
        };
        let client_id: ClientId = block.client_id();
        match kind {
            BlockType::Heartbeat => Action::Heartbeat,
            BlockType::Start => {
                remove_id(&mut self.active, client_id);
                proof {
                    lemma_push_fresh(self.active@, client_id);
                }
                self.active.push(client_id);
                Action::Start { client_id, block }
            },
            BlockType::Data => {
                if contains_id(&self.active, client_id) {
                    Action::Forward { client_id, block }
                } else {
                    Action::Drop
                }
            },
            BlockType::Abort | BlockType::End => {
                if contains_id(&self.active, client_id) {
                    remove_id(&mut self.active, client_id);
                    Action::Finish { client_id, block }
                } else {
                    Action::Drop
                }
            },
        }
    }

    /// Synchronization was lost: every transfer under way is given an
    /// `Abort` block, oldest transfer first, and none is under way after
    /// that. Fails, and changes nothing, where transfers are under way and a
    /// block has no room for its header.
    pub fn on_sync_lost(&mut self, raptorq: &RaptorQ) -> (r: Result<Vec<(ClientId, Block)>, Error>)
        requires
            old(self)@.wf(),
        ensures
            final(self)@.wf(),
            final(self)@.ended == old(self)@.ended,
            r is Err <==> old(self)@.active.len() > 0 && raptorq.spec_block_size() < 9,
            match r {
                Ok(aborts) => {
                    &&& final(self)@.active == next_active(old(self)@.active, Input::Lost)
                    &&& aborts@.len() == old(self)@.active.len()
                    &&& forall|i: int|
                        0 <= i < aborts@.len() ==> (#[trigger] aborts@[i]).0 == old(
                            self,
                        )@.active[i] && aborts@[i].1@ == frame(
                            BlockType::Abort,
                            old(self)@.active[i],
                            Seq::<u8>::empty(),
                            raptorq.spec_block_size() as nat,
                        ) && aborts@[i].1.wf()
                },
                Err(e) => {
                    &&& final(self)@ == old(self)@
                    &&& e == Error::InvalidParameter(Parameter::BlockLength)
                },
            },
    {
        let mut aborts: Vec<(ClientId, Block)> = Vec::new();
        let mut i: usize = 0;
        while i < self.active.len()
            invariant
                i <= self.active@.len(),
                self@ == old(self)@,
                self@.wf(),
                aborts@.len() == i,
                i > 0 ==> raptorq.spec_block_size() >= 9,
                forall|j: int|
                    0 <= j < i ==> (#[trigger] aborts@[j]).0 == self@.active[j] && aborts@[j].1@
                        == frame(
                        BlockType::Abort,
                        self@.active[j],
                        Seq::<u8>::empty(),
                        raptorq.spec_block_size() as nat,
                    ) && aborts@[j].1.wf(),
            decreases self.active@.len() - i,
        {
            let client_id: ClientId = self.active[i];
            match Block::new(BlockType::Abort, raptorq, client_id, None) {
                Ok(block) => {
                    aborts.push((client_id, block));
                },
                Err(e) => {
                    return Err(e);
                },
            }
            i += 1;
        }
        self.active.clear();
        Ok(aborts)
    }

    /// A block could not be sent on the queue of a client: its transfer is
    /// not under way any more.
    pub fn forget(&mut self, client_id: ClientId)
        requires
            old(self)@.wf(),
        ensures
            final(self)@.wf(),
            final(self)@.ended == old(self)@.ended,
            final(self)@.active == without(old(self)@.active, client_id),
    {
        remove_id(&mut self.active, client_id);
    }

    /// The last block of a transfer went out on its queue: the ended
    /// transfers whose queue is drained are let go, and this one joins the
    /// ended ones. `drained` names the clients whose queue is empty now. The
    /// queues to drop are handed back.
    pub fn retire(&mut self, client_id: ClientId, drained: &Vec<ClientId>) -> (purged: Vec<
        ClientId,
    >)
        requires
            old(self)@.wf(),
        ensures
            final(self)@.wf(),
            final(self)@.active == old(self)@.active,
            purged@ == old(self)@.ended.filter(|id: ClientId| drained@.contains(id)),
            final(self)@.ended == without(without_all(old(self)@.ended, drained@), client_id).push(
                client_id,
            ),
    {
        let purged = remove_ids(&mut self.ended, drained);
        remove_id(&mut self.ended, client_id);
        proof {
            lemma_push_fresh(self.ended@, client_id);
        }
        self.ended.push(client_id);
        purged
    }
}

/// Removing a client from a list without repeats keeps the others, and
/// keeps the list without repeats.
proof fn lemma_without(ids: Seq<ClientId>, id: ClientId)
    requires
        ids.no_duplicates(),
    ensures
        without(ids, id).no_duplicates(),
        !without(ids, id).contains(id),
        forall|other: ClientId|
            other != id ==> without(ids, id).contains(other) == ids.contains(other),
    decreases ids.len(),
{
    reveal(Seq::filter);
    if ids.len() > 0 {
        let rest = ids.drop_last();
        let last = ids.last();
        lemma_without(rest, id);
        assert(!rest.contains(last)) by {
            if rest.contains(last) {
                let k = choose|k: int| 0 <= k < rest.len() && rest[k] == last;
                assert(ids[k] == ids[ids.len() - 1]);
            }
        }
        assert forall|other: ClientId| ids.contains(other) == (rest.contains(other) || other
            == last) by {
            if ids.contains(other) {
                let k = choose|k: int| 0 <= k < ids.len() && ids[k] == other;
                if k < rest.len() {
                    assert(rest[k] == other);
                }
            } else {
                assert(ids[ids.len() - 1] == last);
                if rest.contains(other) {
                    let k = choose|k: int| 0 <= k < rest.len() && rest[k] == other;
                    assert(ids[k] == other);
                }
            }
        }
        if last != id {
            lemma_push_fresh(without(rest, id), last);
        }
    }
}

/// Blocks sent to other clients change nothing for a client.
proof fn lemma_other_clients(log: Seq<Sent>, more: Seq<Sent>, client_id: ClientId)
    requires
        forall|i: int| 0 <= i < more.len() ==> (#[trigger] more[i]).client_id != client_id,
    ensures
        is_open(log + more, client_id) == is_open(log, client_id),
        in_order(log + more, client_id) == in_order(log, client_id),
    decreases more.len(),
{
    if more.len() == 0 {
        assert(log + more =~= log);
    } else {
        lemma_other_clients(log, more.drop_last(), client_id);
        assert((log + more).drop_last() =~= log + more.drop_last());
        assert((log + more).last() == more.last());
    }
}

/// One `Abort` block for each client of a list without repeats closes the
/// queue of each of them, and comes in order where those queues are open.
proof fn lemma_aborts(log: Seq<Sent>, active: Seq<ClientId>, client_id: ClientId)
    requires
        active.no_duplicates(),
        in_order(log, client_id),
        is_open(log, client_id) == active.contains(client_id),
    ensures
        in_order(log + sent(active, Input::Lost), client_id),
        !is_open(log + sent(active, Input::Lost), client_id),
{
    let aborts = sent(active, Input::Lost);
    if active.contains(client_id) {
        let k = choose|k: int| 0 <= k < active.len() && active[k] == client_id;
        let before = aborts.subrange(0, k);
        let after = aborts.subrange(k + 1, aborts.len() as int);
        let abort = aborts[k];
        assert(aborts =~= before.push(abort) + after);
        assert(log + aborts =~= (log + before).push(abort) + after);
        lemma_other_clients(log, before, client_id);
        assert((log + before).push(abort).drop_last() =~= log + before);
        lemma_other_clients((log + before).push(abort), after, client_id);
    } else {
        lemma_other_clients(log, aborts, client_id);
    }
}

/// The transfers of every client go in order, whatever the stage is given:
/// a queue is opened by a `Start` block, `Data` blocks follow on the open
/// queue only, an `End` or an `Abort` block closes it, and nothing is sent
/// on it after that. The transfers under way are those whose queue is open.
pub proof fn lemma_transfers_in_order(inputs: Seq<Input>, client_id: ClientId)
    ensures
        run_active(inputs).no_duplicates(),
        in_order(run_sent(inputs), client_id),
        is_open(run_sent(inputs), client_id) == run_active(inputs).contains(client_id),
    decreases inputs.len(),
{
    if inputs.len() > 0 {
        let before = inputs.drop_last();
        let active = run_active(before);
        let log = run_sent(before);
        lemma_transfers_in_order(before, client_id);
        match inputs.last() {
            Input::Lost => {
                lemma_aborts(log, active, client_id);
            },
            Input::Block(block) => {
                let sender = frame_client_id(block) as ClientId;
                lemma_without(active, sender);
                let more = sent(active, inputs.last());
                match route(active, block) {
                    Route::Drop => {
                        assert(log + more =~= log);
                    },
                    Route::Heartbeat => {
                        assert(log + more =~= log);
                    },
                    Route::Start => {
                        lemma_push_fresh(without(active, sender), sender);
                        assert((log + more).drop_last() =~= log);
                    },
                    Route::Forward => {
                        assert((log + more).drop_last() =~= log);
                    },
                    Route::Finish => {
                        assert((log + more).drop_last() =~= log);
                    },
                }
            },
        }
    }
}

/// The blocks of one transfer as the stage is given them where none is
/// lost: a `Start` block, a `Data` block for each payload, and an `End` block.
pub open spec fn transfer_inputs(client_id: ClientId, length: nat, payloads: Seq<Seq<u8>>) -> Seq<
    Input,
> {
    seq![Input::Block(frame(BlockType::Start, client_id, Seq::<u8>::empty(), length))]
        + payloads.map_values(
        |payload: Seq<u8>| Input::Block(frame(BlockType::Data, client_id, payload, length)),
    ) + seq![Input::Block(frame(BlockType::End, client_id, Seq::<u8>::empty(), length))]
}

/// The blocks of one transfer as its writer is to see them.
pub open spec fn transfer_sent(client_id: ClientId, payloads: Seq<Seq<u8>>) -> Seq<Sent> {
    seq![Sent { client_id, kind: BlockType::Start, payload: Seq::<u8>::empty() }]
        + payloads.map_values(
        |payload: Seq<u8>| Sent { client_id, kind: BlockType::Data, payload },
    ) + seq![Sent { client_id, kind: BlockType::End, payload: Seq::<u8>::empty() }]
}

/// Every payload fits a block of `length` bytes.
pub open spec fn payloads_fit(length: nat, payloads: Seq<Seq<u8>>) -> bool {
    forall|i: int|
        0 <= i < payloads.len() ==> 9 + (#[trigger] payloads[i]).len() <= length
            && payloads[i].len() <= u32::MAX
}

/// The first blocks of a transfer reach its queue one for one, and the
/// transfer is under way after them.
proof fn lemma_transfer_under_way(
    before: Seq<Input>,
    client_id: ClientId,
    length: nat,
    payloads: Seq<Seq<u8>>,
    k: int,
)
    requires
        9 <= length,
        payloads_fit(length, payloads),
        0 <= k <= payloads.len(),
    ensures
        run_active(before + transfer_inputs(client_id, length, payloads).take(k + 1)).contains(
            client_id,
        ),
        run_sent(before + transfer_inputs(client_id, length, payloads).take(k + 1)) == run_sent(
            before,
        ) + transfer_sent(client_id, payloads).take(k + 1),
    decreases k,
{
    let inputs = transfer_inputs(client_id, length, payloads);
    let sents = transfer_sent(client_id, payloads);
    let now = before + inputs.take(k + 1);
    let earlier = before + inputs.take(k);
    assert(now.drop_last() =~= earlier);
    assert(now.last() == inputs[k]);
    assert(sents.take(k + 1) =~= sents.take(k).push(sents[k]));
    lemma_transfers_in_order(earlier, client_id);
    lemma_without(run_active(earlier), client_id);
    if k == 0 {
        assert(earlier =~= before);
        let first = frame(BlockType::Start, client_id, Seq::<u8>::empty(), length);
        lemma_frame_round_trip(BlockType::Start, client_id, Seq::<u8>::empty(), length);
        assert(inputs[0] == Input::Block(first));
        lemma_push_fresh(without(run_active(before), client_id), client_id);
        assert(sents.take(0) =~= Seq::<Sent>::empty());
        assert(run_sent(now) =~= run_sent(before) + sents.take(1));
    } else {
        lemma_transfer_under_way(before, client_id, length, payloads, k - 1);
        let payload = payloads[k - 1];
        let next = frame(BlockType::Data, client_id, payload, length);
        lemma_frame_round_trip(BlockType::Data, client_id, payload, length);
        assert(inputs[k] == Input::Block(next));
        assert(sents[k] == Sent { client_id, kind: BlockType::Data, payload });
        assert(run_sent(now) =~= run_sent(before) + sents.take(k + 1));
    }
}

/// A transfer whose blocks all arrive is handed to its writer whole and in
/// order, whatever the stage was given before: the `Start` block, every
/// `Data` block with its payload, and the `End` block. The transfer is not
/// under way after that.
pub proof fn lemma_transfer_delivered(
    before: Seq<Input>,
    client_id: ClientId,
    length: nat,
    payloads: Seq<Seq<u8>>,
)
    requires
        9 <= length,
        payloads_fit(length, payloads),
    ensures
        run_sent(before + transfer_inputs(client_id, length, payloads)) == run_sent(before)
            + transfer_sent(client_id, payloads),
        !run_active(before + transfer_inputs(client_id, length, payloads)).contains(client_id),
{
    let inputs = transfer_inputs(client_id, length, payloads);
    let sents = transfer_sent(client_id, payloads);
    let n = payloads.len() as int;
    let now = before + inputs;
    let earlier = before + inputs.take(n + 1);
    lemma_transfer_under_way(before, client_id, length, payloads, n);
    lemma_transfers_in_order(earlier, client_id);
    lemma_without(run_active(earlier), client_id);
    let last = frame(BlockType::End, client_id, Seq::<u8>::empty(), length);
    lemma_frame_round_trip(BlockType::End, client_id, Seq::<u8>::empty(), length);
    assert(inputs.len() == n + 2);
    assert(inputs[n + 1] == Input::Block(last));
    assert(now.drop_last() =~= earlier);
    assert(now.last() == inputs[n + 1]);
    assert(sents =~= sents.take(n + 1).push(sents[n + 1]));
    assert(run_sent(now) =~= run_sent(before) + sents);
}

} // verus!
