//! The sequencer: it stamps client submissions with a strictly increasing,
//! contiguous sequence id, writes each promoted order to the write-ahead log
//! before forwarding it to the engine, and passes engine executions through
//! to the order manager unchanged.

use vstd::prelude::*;

use crate::codec;
use crate::codec::spec_encode_raw_order;
use crate::codec::spec_parse_execute_message;
use crate::codec::spec_parse_order_value;
use crate::order::ExecuteMessage;
use crate::order::RawOrder;
use crate::order::spec_promote;
use crate::queue::MmapQueue;
use crate::queue::QueueError;

verus! {

/// A message as the sequencer logs it: a promoted client order on the way
/// in, or an engine execution on the way out.
#[derive(Debug, Clone)]
pub enum Event {
    In(RawOrder),
    Out(ExecuteMessage),
}

/// What can stop the sequencer's work on one message.
#[derive(Debug, Clone, Copy, PartialEq, Eq, Structural)]
pub enum SeqError {
    /// A slot with a broken length prefix sits at the head of a queue.
    Corrupt,
    /// The message's bytes do not decode; the message is dropped.
    Decode,
    /// The write-ahead log would not take the record; the submission is
    /// rejected and the sequence counter stands still.
    LogFull,
    /// A downstream queue would not take a message that was already logged
    /// or received; this is fatal for the pipeline.
    Forward,
}

/// The parts of a sequencer that a pass over the inbound queue does not
/// touch when it takes no submission.
pub open spec fn unchanged_inbound(a: Sequencer, b: Sequencer) -> bool {
    &&& b.spec_seq() == a.spec_seq()
    &&& b.spec_assigned() == a.spec_assigned()
    &&& b.spec_failed() == a.spec_failed()
    &&& b.log_msgs() == a.log_msgs()
    &&& b.engine_msgs() == a.engine_msgs()
}

/// The sequencer and its five queue endpoints.
pub struct Sequencer {
    /// The symbol this sequencer serves.
    pub quote: String,
    inbound_engine: MmapQueue,
    outbound_engine: MmapQueue,
    inbound_manager: MmapQueue,
    write_head_log: MmapQueue,
    outbound_manager: MmapQueue,
    seq: u128,
    failed: bool,
    assigned: Ghost<Seq<u128>>,
    log_pos: Ghost<int>,
}

impl Sequencer {
    /// The symbol this sequencer serves.
    pub closed spec fn spec_quote(&self) -> Seq<char> {
        self.quote@
    }

    /// The next sequence id to assign.
    pub closed spec fn spec_seq(&self) -> u128 {
        self.seq
    }

    /// Every sequence id assigned so far, in assignment order.
    pub closed spec fn spec_assigned(&self) -> Seq<u128> {
        self.assigned@
    }

    pub closed spec fn engine_msgs(&self) -> Seq<Option<Seq<u8>>> {
        self.inbound_engine.msgs()
    }

    pub closed spec fn log_msgs(&self) -> Seq<Option<Seq<u8>>> {
        self.write_head_log.msgs()
    }

    pub closed spec fn manager_in_msgs(&self) -> Seq<Option<Seq<u8>>> {
        self.inbound_manager.msgs()
    }

    pub closed spec fn outbound_engine_msgs(&self) -> Seq<Option<Seq<u8>>> {
        self.outbound_engine.msgs()
    }

    pub closed spec fn manager_out_msgs(&self) -> Seq<Option<Seq<u8>>> {
        self.outbound_manager.msgs()
    }

    /// Where in the write-ahead log the engine queue's window starts.
    pub closed spec fn spec_log_pos(&self) -> int {
        self.log_pos@
    }

    /// Whether a fatal forward failure has stopped this sequencer.
    pub closed spec fn spec_failed(&self) -> bool {
        self.failed
    }

    /// The next sequence id to assign.
    pub fn current_seq(&self) -> (r: u128)
        ensures
            r == self.spec_seq(),
    {
        self.seq
    }

    /// Whether a fatal forward failure has stopped this sequencer.
    pub fn has_failed(&self) -> (r: bool)
        ensures
            r == self.spec_failed(),
    {
        self.failed
    }

    /// The representation invariant: the queues are well-formed, each
    /// assigned id was assigned in order from zero, and the engine queue is
    /// a contiguous window of the write-ahead log — everything forwarded was
    /// logged first.
    pub closed spec fn wf(&self) -> bool {
        &&& self.inbound_engine.wf()
        &&& self.outbound_engine.wf()
        &&& self.inbound_manager.wf()
        &&& self.write_head_log.wf()
        &&& self.outbound_manager.wf()
        &&& self.assigned@ == Seq::new(self.seq as nat, |i: int| i as u128)
        &&& !self.failed ==> {
            &&& 0 <= self.log_pos@
            &&& self.log_pos@ + self.inbound_engine.msgs().len()
                == self.write_head_log.msgs().len()
            &&& self.inbound_engine.msgs() == self.write_head_log.msgs().subrange(
                self.log_pos@,
                self.log_pos@ + self.inbound_engine.msgs().len(),
            )
        }
    }

    /// Assemble a sequencer over five freshly created queues.
    pub fn new(
        quote: String,
        inbound_engine: MmapQueue,
        outbound_engine: MmapQueue,
        inbound_manager: MmapQueue,
        write_head_log: MmapQueue,
        outbound_manager: MmapQueue,
    ) -> (r: Sequencer)
        requires
            inbound_engine.wf(),
            outbound_engine.wf(),
            inbound_manager.wf(),
            write_head_log.wf(),
            outbound_manager.wf(),
            inbound_engine.msgs().len() == 0,
        ensures
            r.wf(),
            r.spec_seq() == 0,
            r.spec_quote() == quote@,
            r.engine_msgs().len() == 0,
            r.manager_in_msgs() == inbound_manager.msgs(),
            r.outbound_engine_msgs() == outbound_engine.msgs(),
            r.manager_out_msgs() == outbound_manager.msgs(),
            r.log_msgs() == write_head_log.msgs(),
    {
        let r = Sequencer {
            quote,
            inbound_engine,
            outbound_engine,
            inbound_manager,
            write_head_log,
            outbound_manager,
            seq: 0,
            failed: false,
            assigned: Ghost(Seq::empty()),
            log_pos: Ghost(write_head_log.msgs().len() as int),
        };
        proof {
            assert(r.assigned@ =~= Seq::new(0, |i: int| i as u128));
            assert(r.inbound_engine.msgs() =~= r.write_head_log.msgs().subrange(
                r.log_pos@,
                r.log_pos@,
            ));
        }
        r
    }

    /// Law: sequence ids are assigned strictly increasing and contiguous
    /// from zero — the id at position `i` of the assignment history is `i`.
    pub proof fn lemma_seq_ids_contiguous(&self)
        requires
            self.wf(),
        ensures
            self.spec_assigned().len() == self.spec_seq(),
            forall|i: int|
                0 <= i < self.spec_assigned().len() ==> #[trigger] self.spec_assigned()[i] == i,
            forall|i: int, j: int|
                0 <= i < j < self.spec_assigned().len() ==> self.spec_assigned()[i]
                    < self.spec_assigned()[j],
    {
    }

    /// Law: whatever stands on the engine queue stands, byte for byte, in
    /// the write-ahead log already: the queue is a window of the log.
    pub proof fn lemma_forwarded_is_logged(&self)
        requires
            self.wf(),
            !self.spec_failed(),
        ensures
            0 <= self.spec_log_pos(),
            self.spec_log_pos() + self.engine_msgs().len() <= self.log_msgs().len(),
            forall|i: int|
                0 <= i < self.engine_msgs().len() ==> #[trigger] self.engine_msgs()[i]
                    == self.log_msgs()[self.spec_log_pos() + i],
    {
        assert forall|i: int| 0 <= i < self.engine_msgs().len() implies #[trigger]
            self.engine_msgs()[i] == self.log_msgs()[self.spec_log_pos() + i] by {
            assert(self.inbound_engine.msgs()[i] == self.write_head_log.msgs().subrange(
                self.log_pos@,
                self.log_pos@ + self.inbound_engine.msgs().len(),
            )[i]);
        }
    }

    /// The producer side of the manager-to-sequencer queue: the payload is
    /// taken exactly when it fits a slot and the queue has room.
    pub fn enqueue_inbound(&mut self, payload: &[u8]) -> (r: Result<(), QueueError>)
        requires
            old(self).wf(),
        ensures
            final(self).wf(),
            final(self).spec_seq() == old(self).spec_seq(),
            final(self).engine_msgs() == old(self).engine_msgs(),
            final(self).log_msgs() == old(self).log_msgs(),
            final(self).outbound_engine_msgs() == old(self).outbound_engine_msgs(),
            final(self).manager_out_msgs() == old(self).manager_out_msgs(),
            r is Ok <==> (payload@.len() <= old(self).manager_in_max_payload() && old(self).manager_in_msgs().len() < old(self).manager_in_capacity()),
            payload@.len() > old(self).manager_in_max_payload() ==> r == Err::<(), QueueError>(
                QueueError::PayloadTooLarge,
            ),
            payload@.len() <= old(self).manager_in_max_payload() && old(self).manager_in_msgs().len() == old(self).manager_in_capacity() ==> r == Err::<
                (),
                QueueError,
            >(QueueError::Overflow),
            r is Ok ==> final(self).manager_in_msgs() == old(self).manager_in_msgs().push(
                Some(payload@),
            ),
            r is Err ==> final(self).manager_in_msgs() == old(self).manager_in_msgs(),
    {
        let ghost s0 = *self;
        let r = self.inbound_manager.enqueue(payload);
        proof {
            if !self.failed {
                assert(self.inbound_engine.msgs() =~= self.write_head_log.msgs().subrange(
                    self.log_pos@,
                    self.log_pos@ + self.inbound_engine.msgs().len(),
                ));
            }
        }
        r
    }

    /// The consumer side of the sequencer-to-manager queue.
    pub fn dequeue_outbound(&mut self) -> (r: Result<Option<Vec<u8>>, QueueError>)
        requires
            old(self).wf(),
        ensures
            final(self).wf(),
            final(self).spec_seq() == old(self).spec_seq(),
            final(self).engine_msgs() == old(self).engine_msgs(),
            final(self).log_msgs() == old(self).log_msgs(),
            final(self).manager_in_msgs() == old(self).manager_in_msgs(),
            final(self).outbound_engine_msgs() == old(self).outbound_engine_msgs(),
            old(self).manager_out_msgs().len() == 0 ==> r == Ok::<Option<Vec<u8>>, QueueError>(
                None,
            ) && final(self).manager_out_msgs() == old(self).manager_out_msgs(),
            old(self).manager_out_msgs().len() > 0 && old(self).manager_out_msgs()[0] is Some ==> r
                is Ok && r->Ok_0 is Some && r->Ok_0->Some_0@ == old(self).manager_out_msgs()[0]->Some_0 && final(self).manager_out_msgs() == old(self).manager_out_msgs().drop_first(),
            old(self).manager_out_msgs().len() > 0 && old(self).manager_out_msgs()[0] is None ==> r
                == Err::<Option<Vec<u8>>, QueueError>(QueueError::CorruptSlot) && final(self).manager_out_msgs() == old(self).manager_out_msgs(),
    {
        let ghost s0 = *self;
        let r = self.outbound_manager.dequeue();
        proof {
            if !self.failed {
                assert(self.inbound_engine.msgs() =~= self.write_head_log.msgs().subrange(
                    self.log_pos@,
                    self.log_pos@ + self.inbound_engine.msgs().len(),
                ));
            }
        }
        r
    }

    /// The consumer side of the sequencer-to-engine queue.
    pub fn dequeue_engine_inbound(&mut self) -> (r: Result<Option<Vec<u8>>, QueueError>)
        requires
            old(self).wf(),
        ensures
            final(self).wf(),
            final(self).spec_seq() == old(self).spec_seq(),
            final(self).log_msgs() == old(self).log_msgs(),
            final(self).manager_in_msgs() == old(self).manager_in_msgs(),
            final(self).outbound_engine_msgs() == old(self).outbound_engine_msgs(),
            final(self).manager_out_msgs() == old(self).manager_out_msgs(),
            old(self).engine_msgs().len() == 0 ==> r == Ok::<Option<Vec<u8>>, QueueError>(None)
                && final(self).engine_msgs() == old(self).engine_msgs(),
            old(self).engine_msgs().len() > 0 && old(self).engine_msgs()[0] is Some ==> r is Ok
                && r->Ok_0 is Some && r->Ok_0->Some_0@ == old(self).engine_msgs()[0]->Some_0
                && final(self).engine_msgs() == old(self).engine_msgs().drop_first(),
            old(self).engine_msgs().len() > 0 && old(self).engine_msgs()[0] is None ==> r == Err::<
                Option<Vec<u8>>,
                QueueError,
            >(QueueError::CorruptSlot) && final(self).engine_msgs() == old(self).engine_msgs(),
    {
        let ghost s0 = *self;
        let r = self.inbound_engine.dequeue();
        proof {
            if !self.failed {
                if r is Ok && r->Ok_0 is Some {
                    self.log_pos = Ghost(s0.log_pos@ + 1);
                }
                assert(self.inbound_engine.msgs() =~= self.write_head_log.msgs().subrange(
                    self.log_pos@,
                    self.log_pos@ + self.inbound_engine.msgs().len(),
                ));
            }
        }
        r
    }

    /// The producer side of the engine-to-sequencer queue: the payload is
    /// taken exactly when it fits a slot and the queue has room.
    pub fn enqueue_engine_outbound(&mut self, payload: &[u8]) -> (r: Result<(), QueueError>)
        requires
            old(self).wf(),
        ensures
            final(self).wf(),
            final(self).spec_seq() == old(self).spec_seq(),
            final(self).engine_msgs() == old(self).engine_msgs(),
            final(self).log_msgs() == old(self).log_msgs(),
            final(self).manager_in_msgs() == old(self).manager_in_msgs(),
            final(self).manager_out_msgs() == old(self).manager_out_msgs(),
            r is Ok <==> (payload@.len() <= old(self).engine_out_max_payload() && old(self).outbound_engine_msgs().len() < old(self).engine_out_capacity()),
            payload@.len() > old(self).engine_out_max_payload() ==> r == Err::<(), QueueError>(
                QueueError::PayloadTooLarge,
            ),
            payload@.len() <= old(self).engine_out_max_payload() && old(self).outbound_engine_msgs().len() == old(self).engine_out_capacity() ==> r == Err::<
                (),
                QueueError,
            >(QueueError::Overflow),
            r is Ok ==> final(self).outbound_engine_msgs() == old(self).outbound_engine_msgs().push(Some(payload@)),
            r is Err ==> final(self).outbound_engine_msgs() == old(self).outbound_engine_msgs(),
    {
        let ghost s0 = *self;
        let r = self.outbound_engine.enqueue(payload);
        proof {
            if !self.failed {
                assert(self.inbound_engine.msgs() =~= self.write_head_log.msgs().subrange(
                    self.log_pos@,
                    self.log_pos@ + self.inbound_engine.msgs().len(),
                ));
            }
        }
        r
    }
}

} // verus!

// ---------- the two drains of the main loop ----------

verus! {

impl Sequencer {
    /// Drain one client submission: decode it, promote it with the current
    /// sequence id, write the promoted order to the log, and only then
    /// forward the same bytes to the engine. The sequence id advances
    /// exactly when the record reached the log; a failed forward is fatal.
    pub fn poll_inbound(&mut self) -> (r: Result<bool, SeqError>)
        requires
            old(self).wf(),
            !old(self).spec_failed(),
            old(self).spec_seq() < u128::MAX,
        ensures
            final(self).wf(),
            final(self).spec_quote() == old(self).spec_quote(),
            final(self).outbound_engine_msgs() == old(self).outbound_engine_msgs(),
            final(self).manager_out_msgs() == old(self).manager_out_msgs(),
            old(self).manager_in_msgs().len() == 0 ==> r == Ok::<bool, SeqError>(false)
                && unchanged_inbound(*old(self), *final(self)) && final(self).manager_in_msgs()
                == old(self).manager_in_msgs(),
            old(self).manager_in_msgs().len() > 0 && old(self).manager_in_msgs()[0] is None ==> r
                == Err::<bool, SeqError>(SeqError::Corrupt) && unchanged_inbound(
                *old(self),
                *final(self),
            ) && final(self).manager_in_msgs() == old(self).manager_in_msgs(),
            old(self).manager_in_msgs().len() > 0 && old(self).manager_in_msgs()[0] is Some ==> {
                let bytes = old(self).manager_in_msgs()[0]->Some_0;
                &&& final(self).manager_in_msgs() == old(self).manager_in_msgs().drop_first()
                &&& match spec_parse_order_value(bytes) {
                    None => r == Err::<bool, SeqError>(SeqError::Decode) && final(self).spec_seq()
                        == old(self).spec_seq() && final(self).log_msgs() == old(self).log_msgs()
                        && final(self).engine_msgs() == old(self).engine_msgs() && !final(self).spec_failed(),
                    Some(ov) => {
                        let enc = spec_encode_raw_order(
                            spec_promote(ov, old(self).spec_seq()),
                        );
                        if enc.len() <= old(self).log_max_payload() && old(self).log_msgs().len()
                            < old(self).log_capacity() {
                            &&& final(self).log_msgs() == old(self).log_msgs().push(Some(enc))
                            &&& final(self).spec_seq() == old(self).spec_seq() + 1
                            &&& final(self).spec_assigned() == old(self).spec_assigned().push(
                                old(self).spec_seq(),
                            )
                            &&& if enc.len() <= old(self).engine_max_payload() && old(self).engine_msgs().len() < old(self).engine_capacity() {
                                &&& r == Ok::<bool, SeqError>(true)
                                &&& final(self).engine_msgs() == old(self).engine_msgs().push(
                                    Some(enc),
                                )
                                &&& !final(self).spec_failed()
                            } else {
                                &&& r == Err::<bool, SeqError>(SeqError::Forward)
                                &&& final(self).engine_msgs() == old(self).engine_msgs()
                                &&& final(self).spec_failed()
                            }
                        } else {
                            &&& r == Err::<bool, SeqError>(SeqError::LogFull)
                            &&& final(self).spec_seq() == old(self).spec_seq()
                            &&& final(self).log_msgs() == old(self).log_msgs()
                            &&& final(self).engine_msgs() == old(self).engine_msgs()
                            &&& !final(self).spec_failed()
                        }
                    },
                }
            },
    {
        let ghost s0 = *self;
        let msg = match self.inbound_manager.dequeue() {
            Ok(Some(v)) => v,
            Ok(None) => {
                return Ok(false);
            },
            Err(_) => {
                return Err(SeqError::Corrupt);
            },
        };
        proof {
            if !self.failed {
                assert(self.inbound_engine.msgs() =~= self.write_head_log.msgs().subrange(
                    self.log_pos@,
                    self.log_pos@ + self.inbound_engine.msgs().len(),
                ));
            }
        }
        let ov = match codec::decode_order_value(msg.as_slice()) {
            Ok(ov) => ov,
            Err(_) => {
                return Err(SeqError::Decode);
            },
        };
        let raw = ov.into_raw(self.seq);
        let payload = codec::encode_raw_order(&raw);
        match self.write_head_log.enqueue(payload.as_slice()) {
            Ok(_) => {},
            Err(_) => {
                proof {
                    assert(self.inbound_engine.msgs() =~= self.write_head_log.msgs().subrange(
                        self.log_pos@,
                        self.log_pos@ + self.inbound_engine.msgs().len(),
                    ));
                }
                return Err(SeqError::LogFull);
            },
        }
        self.seq = self.seq + 1;
        proof {
            self.assigned = Ghost(s0.assigned@.push(s0.seq));
            assert(self.assigned@ =~= Seq::new(self.seq as nat, |i: int| i as u128));
        }
        match self.inbound_engine.enqueue(payload.as_slice()) {
            Ok(_) => {},
            Err(_) => {
                self.failed = true;
                return Err(SeqError::Forward);
            },
        }
        proof {
            assert(self.inbound_engine.msgs() =~= self.write_head_log.msgs().subrange(
                self.log_pos@,
                self.log_pos@ + self.inbound_engine.msgs().len(),
            ));
        }
        Ok(true)
    }

    /// Drain one engine execution: check that it decodes, then forward its
    /// bytes unchanged to the order manager.
    pub fn poll_outbound(&mut self) -> (r: Result<bool, SeqError>)
        requires
            old(self).wf(),
        ensures
            final(self).wf(),
            final(self).spec_quote() == old(self).spec_quote(),
            final(self).spec_seq() == old(self).spec_seq(),
            final(self).spec_failed() == old(self).spec_failed(),
            final(self).log_msgs() == old(self).log_msgs(),
            final(self).engine_msgs() == old(self).engine_msgs(),
            final(self).manager_in_msgs() == old(self).manager_in_msgs(),
            old(self).outbound_engine_msgs().len() == 0 ==> r == Ok::<bool, SeqError>(false)
                && final(self).outbound_engine_msgs() == old(self).outbound_engine_msgs()
                && final(self).manager_out_msgs() == old(self).manager_out_msgs(),
            old(self).outbound_engine_msgs().len() > 0 && old(self).outbound_engine_msgs()[0] is None ==> r == Err::<bool, SeqError>(SeqError::Corrupt)
                && final(self).outbound_engine_msgs() == old(self).outbound_engine_msgs()
                && final(self).manager_out_msgs() == old(self).manager_out_msgs(),
            old(self).outbound_engine_msgs().len() > 0 && old(self).outbound_engine_msgs()[0] is Some ==> {
                let bytes = old(self).outbound_engine_msgs()[0]->Some_0;
                &&& final(self).outbound_engine_msgs() == old(
                    self,
                ).outbound_engine_msgs().drop_first()
                &&& if spec_parse_execute_message(bytes) is None {
                    r == Err::<bool, SeqError>(SeqError::Decode) && final(self).manager_out_msgs()
                        == old(self).manager_out_msgs()
                } else {
                    if bytes.len() <= old(self).manager_out_max_payload() && old(self).manager_out_msgs().len() < old(self).manager_out_capacity() {
                        r == Ok::<bool, SeqError>(true) && final(self).manager_out_msgs() == old(
                            self,
                        ).manager_out_msgs().push(Some(bytes))
                    } else {
                        r == Err::<bool, SeqError>(SeqError::Forward) && final(self).manager_out_msgs() == old(self).manager_out_msgs()
                    }
                }
            },
    {
        let msg = match self.outbound_engine.dequeue() {
            Ok(Some(v)) => v,
            Ok(None) => {
                return Ok(false);
            },
            Err(_) => {
                return Err(SeqError::Corrupt);
            },
        };
        proof {
            if !self.failed {
                assert(self.inbound_engine.msgs() =~= self.write_head_log.msgs().subrange(
                    self.log_pos@,
                    self.log_pos@ + self.inbound_engine.msgs().len(),
                ));
            }
        }
        match codec::decode_execute_message(msg.as_slice()) {
            Ok(_) => {},
            Err(_) => {
                return Err(SeqError::Decode);
            },
        }
        match self.outbound_manager.enqueue(msg.as_slice()) {
            Ok(_) => Ok(true),
            Err(_) => Err(SeqError::Forward),
        }
    }

    /// The slot budget of the write-ahead log.
    pub closed spec fn log_max_payload(&self) -> int {
        self.write_head_log.spec_max_payload()
    }

    pub closed spec fn log_capacity(&self) -> u64 {
        self.write_head_log.spec_capacity()
    }

    /// The slot budget of the engine queue.
    pub closed spec fn engine_max_payload(&self) -> int {
        self.inbound_engine.spec_max_payload()
    }

    pub closed spec fn engine_capacity(&self) -> u64 {
        self.inbound_engine.spec_capacity()
    }

    /// The slot budget of the manager-bound queue.
    pub closed spec fn manager_out_max_payload(&self) -> int {
        self.outbound_manager.spec_max_payload()
    }

    pub closed spec fn manager_out_capacity(&self) -> u64 {
        self.outbound_manager.spec_capacity()
    }

    /// The slot budget of the manager-to-sequencer queue.
    pub closed spec fn manager_in_max_payload(&self) -> int {
        self.inbound_manager.spec_max_payload()
    }

    pub closed spec fn manager_in_capacity(&self) -> u64 {
        self.inbound_manager.spec_capacity()
    }

    /// The slot budget of the engine-to-sequencer queue.
    pub closed spec fn engine_out_max_payload(&self) -> int {
        self.outbound_engine.spec_max_payload()
    }

    pub closed spec fn engine_out_capacity(&self) -> u64 {
        self.outbound_engine.spec_capacity()
    }
}

} // verus!
