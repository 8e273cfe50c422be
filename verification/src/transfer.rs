//! Variable transfers between the bridge and the calculator, as scripts of
//! packet exchanges driven one event at a time.
//!
//! The driver asks for the next action (send a packet, wait for one, pause,
//! or stop), performs it on the link, and reports what happened. A reply
//! with an unexpected command, a variable packet whose data is not a
//! variable header, or a failed link operation ends the transfer with an
//! error; the transfer succeeds once every step of its script is done.

use vstd::prelude::*;
use crate::buffers::bytes256;
use crate::commands::{CMD_ACK, CMD_CTS, CMD_DATA, CMD_EOT, CMD_REQ, CMD_VAR, MACHINE_ID_COMPUTER};
use crate::number::{encode_integer, integer_real_bytes, law_integer_value, pow10, real_parts};
use crate::packet::{DBusError, Packet};
use crate::variables::{header_fields, VariableHeader, TYPE_REAL};

verus! {

/// One step of a transfer script.
pub enum Step {
    /// Send a packet from the computer with this command and data.
    Send { command_id: u8, payload: Vec<u8> },
    /// Wait up to `timeout_ms` for a packet with this command; when `header`
    /// is set its data must be a variable header.
    Expect { command_id: u8, timeout_ms: u32, header: bool },
    /// Wait `ms` milliseconds.
    Pause { ms: u16 },
}

/// What the driver is asked to do next.
pub enum Action {
    /// Send this packet.
    Send(Packet),
    /// Receive the next packet, which should have command `command_id`,
    /// waiting at most `timeout_ms` for each byte.
    Receive { command_id: u8, timeout_ms: u32 },
    /// Wait this many milliseconds.
    Pause { ms: u16 },
    /// The transfer is over, with this outcome.
    Finished(Result<(), DBusError>),
}

/// What happened when the driver performed an action.
pub enum Event {
    /// The packet was sent.
    Sent,
    /// The pause is over.
    Paused,
    /// This packet arrived.
    Received(Packet),
    /// The link operation failed.
    Failed(DBusError),
}

/// A transfer in progress.
pub struct Transfer {
    script: Vec<Step>,
    position: usize,
    outcome: Option<Result<(), DBusError>>,
    header: Option<VariableHeader>,
    last_data: Vec<u8>,
    accepted: Ghost<Seq<u8>>,
}

/// The commands of the replies a script waits for, in order.
pub open spec fn expected_replies(script: Seq<Step>) -> Seq<u8>
    decreases script.len(),
{
    if script.len() == 0 {
        Seq::empty()
    } else {
        let rest = expected_replies(script.drop_last());
        match script.last() {
            Step::Expect { command_id, .. } => rest.push(command_id),
            _ => rest,
        }
    }
}

/// A `Send` step of the given command and data.
pub open spec fn is_send(step: Step, command_id: u8, payload: Seq<u8>) -> bool {
    step matches Step::Send { command_id: c, payload: p } && c == command_id && p@ == payload
}

/// The script that fetches the real variable `name` from the calculator:
/// request it, take the acknowledgement and the variable header, acknowledge
/// and clear to send, take the acknowledgement and the data, acknowledge.
pub open spec fn request_variable_script_ok(script: Seq<Step>, name: u8) -> bool {
    &&& script.len() == 8
    &&& is_send(
        script[0],
        CMD_REQ,
        crate::variables::header_bytes(0, TYPE_REAL, seq![name, 0u8, 0u8, 0u8, 0u8, 0u8, 0u8, 0u8]),
    )
    &&& script[1] == Step::Expect { command_id: CMD_ACK, timeout_ms: 5000, header: false }
    &&& script[2] == Step::Expect { command_id: CMD_VAR, timeout_ms: 5000, header: true }
    &&& is_send(script[3], CMD_ACK, Seq::empty())
    &&& is_send(script[4], CMD_CTS, Seq::empty())
    &&& script[5] == Step::Expect { command_id: CMD_ACK, timeout_ms: 5000, header: false }
    &&& script[6] == Step::Expect { command_id: CMD_DATA, timeout_ms: 5000, header: false }
    &&& is_send(script[7], CMD_ACK, Seq::empty())
}

/// The script that stores `value` in the real variable `name` on the
/// calculator: announce the variable, take the acknowledgement and the
/// clear-to-send (waiting long, for the overwrite prompt), acknowledge, send
/// the number, take the acknowledgement, end the transmission and take its
/// acknowledgement, with short pauses between.
pub open spec fn send_real_script_ok(script: Seq<Step>, name: u8, value: i32) -> bool {
    &&& script.len() == 11
    &&& is_send(
        script[0],
        CMD_VAR,
        crate::variables::header_bytes(9, TYPE_REAL, seq![name, 0u8, 0u8, 0u8, 0u8, 0u8, 0u8, 0u8]),
    )
    &&& script[1] == Step::Expect { command_id: CMD_ACK, timeout_ms: 10000, header: false }
    &&& script[2] == Step::Expect { command_id: CMD_CTS, timeout_ms: 65535, header: false }
    &&& script[3] == Step::Pause { ms: 50 }
    &&& is_send(script[4], CMD_ACK, Seq::empty())
    &&& script[5] == Step::Pause { ms: 50 }
    &&& is_send(script[6], CMD_DATA, integer_real_bytes(value as int))
    &&& script[7] == Step::Expect { command_id: CMD_ACK, timeout_ms: 5000, header: false }
    &&& script[8] == Step::Pause { ms: 50 }
    &&& is_send(script[9], CMD_EOT, Seq::empty())
    &&& script[10] == Step::Expect { command_id: CMD_ACK, timeout_ms: 5000, header: false }
}

/// Whether `event` completes `step` as planned: the packet was sent, for a
/// send step; the pause is over, for a pause step; a packet with the expected
/// command arrived, whose data reads as a variable header when the step asks
/// for one, for a waiting step.
pub open spec fn completes(step: Step, event: Event) -> bool {
    match step {
        Step::Send { .. } => event is Sent,
        Step::Pause { .. } => event is Paused,
        Step::Expect { command_id, header, .. } => match event {
            Event::Received(p) => p.command_id == command_id && (header ==> header_fields(
                bytes256(p.data),
            ) is Some),
            _ => false,
        },
    }
}

/// How many steps of `script` are done, and the outcome, after `event`
/// reaches a transfer that had done `position` steps with `outcome`: a
/// finished transfer stays as it is; a failure ends it with that error; an
/// event that completes the current step moves on, and the transfer succeeds
/// once the last step is done; a packet that does not complete a waiting step
/// ends it with a link error; any other event changes nothing.
pub open spec fn after_event(
    script: Seq<Step>,
    position: nat,
    outcome: Option<Result<(), DBusError>>,
    event: Event,
) -> (nat, Option<Result<(), DBusError>>) {
    if outcome is Some || position >= script.len() {
        (position, outcome)
    } else {
        match event {
            Event::Failed(e) => (position, Some(Err(e))),
            _ => if completes(script[position as int], event) {
                (
                    position + 1,
                    if position + 1 == script.len() {
                        Some(Ok(()))
                    } else {
                        None
                    },
                )
            } else if script[position as int] is Expect && event is Received {
                (position, Some(Err(DBusError::LinkError)))
            } else {
                (position, outcome)
            },
        }
    }
}

/// How many steps are done, and the outcome, after the events in turn.
pub open spec fn after_events(
    script: Seq<Step>,
    position: nat,
    outcome: Option<Result<(), DBusError>>,
    events: Seq<Event>,
) -> (nat, Option<Result<(), DBusError>>)
    decreases events.len(),
{
    if events.len() == 0 {
        (position, outcome)
    } else {
        let next = after_event(script, position, outcome, events[0]);
        after_events(script, next.0, next.1, events.drop_first())
    }
}

impl Transfer {
    /// The steps of the transfer.
    pub closed spec fn script(&self) -> Seq<Step> {
        self.script@
    }

    /// How many steps are done.
    pub closed spec fn position(&self) -> nat {
        self.position as nat
    }

    /// `None` while the transfer runs, then its outcome.
    pub closed spec fn outcome(&self) -> Option<Result<(), DBusError>> {
        self.outcome
    }

    /// The variable header taken from the last header step, if any.
    pub closed spec fn header_spec(&self) -> Option<VariableHeader> {
        self.header
    }

    /// The data of the last packet accepted by a waiting step.
    pub closed spec fn last_data_spec(&self) -> Seq<u8> {
        self.last_data@
    }

    /// The commands of the replies accepted so far.
    pub closed spec fn accepted(&self) -> Seq<u8> {
        self.accepted@
    }

    /// The transfer's bookkeeping is consistent: it stops at or before the
    /// end of its script, has succeeded exactly when every step is done, and
    /// has accepted exactly the replies of the steps done.
    pub closed spec fn wf(&self) -> bool {
        &&& self.position <= self.script@.len()
        &&& self.outcome is None ==> self.position < self.script@.len()
        &&& (self.outcome == Some(Ok::<(), DBusError>(()))) <==> self.position == self.script@.len()
        &&& self.accepted@ == expected_replies(self.script@.subrange(0, self.position as int))
        &&& forall|i: int|
            0 <= i < self.script@.len() ==> (#[trigger] self.script@[i] matches Step::Send {
                payload,
                ..
            } ==> payload@.len() <= 256)
    }

    fn start(script: Vec<Step>) -> (r: Self)
        requires
            script@.len() > 0,
            forall|i: int|
                0 <= i < script@.len() ==> (#[trigger] script@[i] matches Step::Send {
                    payload,
                    ..
                } ==> payload@.len() <= 256),
        ensures
            r.wf(),
            r.script() == script@,
            r.position() == 0,
            r.outcome() is None,
            r.header_spec() is None,
            r.last_data_spec() == Seq::<u8>::empty(),
    {
        let r = Transfer {
            script,
            position: 0,
            outcome: None,
            header: None,
            last_data: Vec::new(),
            accepted: Ghost(Seq::empty()),
        };
        assert(r.script@.subrange(0, 0) =~= Seq::<Step>::empty());
        r
    }

    /// Fetching the real variable `name` from the calculator.
    pub fn request_variable(name: u8) -> (r: Self)
        ensures
            r.wf(),
            request_variable_script_ok(r.script(), name),
            r.position() == 0,
            r.outcome() is None,
            r.header_spec() is None,
            r.last_data_spec() == Seq::<u8>::empty(),
    {
        let header = VariableHeader::new_real(name, 0);
        let hb = header.to_bytes();
        let payload = slice_to_vec(crate::buffers::bytes11_as_slice(&hb));
        let mut script: Vec<Step> = Vec::new();
        script.push(Step::Send { command_id: CMD_REQ, payload });
        script.push(Step::Expect { command_id: CMD_ACK, timeout_ms: 5000, header: false });
        script.push(Step::Expect { command_id: CMD_VAR, timeout_ms: 5000, header: true });
        script.push(Step::Send { command_id: CMD_ACK, payload: Vec::new() });
        script.push(Step::Send { command_id: CMD_CTS, payload: Vec::new() });
        script.push(Step::Expect { command_id: CMD_ACK, timeout_ms: 5000, header: false });
        script.push(Step::Expect { command_id: CMD_DATA, timeout_ms: 5000, header: false });
        script.push(Step::Send { command_id: CMD_ACK, payload: Vec::new() });
        assert(request_variable_script_ok(script@, name));
        Self::start(script)
    }

    /// Storing `value` in the real variable `name` on the calculator.
    pub fn send_real(name: u8, value: i32) -> (r: Self)
        ensures
            r.wf(),
            send_real_script_ok(r.script(), name, value),
            r.position() == 0,
            r.outcome() is None,
            r.header_spec() is None,
            r.last_data_spec() == Seq::<u8>::empty(),
    {
        let real_data = encode_integer(value);
        let header = VariableHeader::new_real(name, 9);
        let hb = header.to_bytes();
        let payload = slice_to_vec(crate::buffers::bytes11_as_slice(&hb));
        let number = slice_to_vec(real_data.as_slice());
        let mut script: Vec<Step> = Vec::new();
        script.push(Step::Send { command_id: CMD_VAR, payload });
        script.push(Step::Expect { command_id: CMD_ACK, timeout_ms: 10000, header: false });
        script.push(Step::Expect { command_id: CMD_CTS, timeout_ms: 65535, header: false });
        script.push(Step::Pause { ms: 50 });
        script.push(Step::Send { command_id: CMD_ACK, payload: Vec::new() });
        script.push(Step::Pause { ms: 50 });
        script.push(Step::Send { command_id: CMD_DATA, payload: number });
        script.push(Step::Expect { command_id: CMD_ACK, timeout_ms: 5000, header: false });
        script.push(Step::Pause { ms: 50 });
        script.push(Step::Send { command_id: CMD_EOT, payload: Vec::new() });
        script.push(Step::Expect { command_id: CMD_ACK, timeout_ms: 5000, header: false });
        assert(send_real_script_ok(script@, name, value));
        Self::start(script)
    }

    /// What the driver should do next: the current step, or the outcome once
    /// the transfer is over. Packets are sent from the computer's machine id.
    pub fn next_action(&self) -> (r: Action)
        requires
            self.wf(),
        ensures
            self.outcome() matches Some(o) ==> r == Action::Finished(o),
            self.outcome() is None ==> match self.script()[self.position() as int] {
                Step::Send { command_id, payload } => r matches Action::Send(p) && p.machine_id
                    == MACHINE_ID_COMPUTER && p.command_id == command_id && bytes256(p.data)
                    == payload@,
                Step::Expect { command_id, timeout_ms, .. } => r == Action::Receive {
                    command_id,
                    timeout_ms,
                },
                Step::Pause { ms } => r == Action::Pause { ms },
            },
    {
        if let Some(o) = self.outcome {
            return Action::Finished(o);
        }
        match &self.script[self.position] {
            Step::Send { command_id, payload } => {
                assert(self.script@[self.position as int] matches Step::Send { payload, .. });
                Action::Send(Packet::with_data(MACHINE_ID_COMPUTER, *command_id, payload.as_slice()))
            },
            Step::Expect { command_id, timeout_ms, .. } => Action::Receive {
                command_id: *command_id,
                timeout_ms: *timeout_ms,
            },
            Step::Pause { ms } => Action::Pause { ms: *ms },
        }
    }

    /// The variable header taken from the last header step, if any.
    pub fn header(&self) -> (r: Option<&VariableHeader>)
        ensures
            match self.header_spec() {
                Some(h) => r == Some(&h),
                None => r is None,
            },
    {
        self.header.as_ref()
    }

    /// The data of the last packet accepted by a waiting step.
    pub fn last_data(&self) -> (r: &[u8])
        ensures
            r@ == self.last_data_spec(),
    {
        self.last_data.as_slice()
    }

    /// Whether the transfer is over, and how it ended.
    pub fn outcome_now(&self) -> (r: Option<Result<(), DBusError>>)
        ensures
            r == self.outcome(),
    {
        self.outcome
    }

    fn advance(&mut self)
        requires
            old(self).wf(),
            old(self).outcome is None,
            !(old(self).script@[old(self).position as int] is Expect),
        ensures
            final(self).wf(),
            final(self).script@ == old(self).script@,
            final(self).position == old(self).position + 1,
            final(self).outcome == if final(self).position == final(self).script@.len() {
                Some(Ok::<(), DBusError>(()))
            } else {
                None
            },
            final(self).header == old(self).header,
            final(self).last_data@ == old(self).last_data@,
    {
        let ghost before = self.script@.subrange(0, self.position as int);
        proof {
            let after = self.script@.subrange(0, self.position + 1);
            assert(after.drop_last() =~= before);
        }
        let n = self.script.len();
        self.position = self.position + 1;
        if self.position == n {
            self.outcome = Some(Ok(()));
        }
    }

    /// Takes what happened when the driver performed the current action.
    ///
    /// A failure ends the transfer with that error. A sent packet or a
    /// finished pause completes a send or pause step. A received packet
    /// completes a waiting step when its command is the expected one (and, for
    /// a header step, its data reads as a variable header), and otherwise ends
    /// the transfer with a link error. Any other event, or any event after
    /// the end, changes nothing.
    pub fn on_event(&mut self, event: Event)
        requires
            old(self).wf(),
        ensures
            final(self).wf(),
            final(self).script() == old(self).script(),
            (final(self).position(), final(self).outcome()) == after_event(
                old(self).script(),
                old(self).position(),
                old(self).outcome(),
                event,
            ),
            old(self).outcome() is Some ==> *final(self) == *old(self),
            old(self).outcome() is None ==> {
                let step = old(self).script()[old(self).position() as int];
                let advanced = final(self).position() == old(self).position() + 1;
                match event {
                    Event::Failed(e) => final(self).outcome() == Some(Err::<(), DBusError>(e))
                        && final(self).position() == old(self).position()
                        && final(self).header_spec() == old(self).header_spec()
                        && final(self).last_data_spec() == old(self).last_data_spec(),
                    Event::Sent => if step is Send {
                        advanced && final(self).header_spec() == old(self).header_spec()
                            && final(self).last_data_spec() == old(self).last_data_spec()
                    } else {
                        *final(self) == *old(self)
                    },
                    Event::Paused => if step is Pause {
                        advanced && final(self).header_spec() == old(self).header_spec()
                            && final(self).last_data_spec() == old(self).last_data_spec()
                    } else {
                        *final(self) == *old(self)
                    },
                    Event::Received(p) => match step {
                        Step::Expect { command_id, header, .. } => if p.command_id != command_id
                            || (header && header_fields(bytes256(p.data)) is None) {
                            final(self).outcome() == Some(Err::<(), DBusError>(DBusError::LinkError))
                                && final(self).position() == old(self).position()
                                && final(self).header_spec() == old(self).header_spec()
                                && final(self).last_data_spec() == old(self).last_data_spec()
                        } else {
                            &&& advanced
                            &&& final(self).last_data_spec() == bytes256(p.data)
                            &&& header ==> (final(self).header_spec() matches Some(h)
                                && header_fields(bytes256(p.data)) == Some(
                                (h.data_size as nat, h.type_id, h.name@),
                            ))
                            &&& !header ==> final(self).header_spec() == old(self).header_spec()
                        },
                        _ => *final(self) == *old(self),
                    },
                }
            },
    {
        if self.outcome.is_some() {
            return;
        }
        let pos = self.position;
        match event {
            Event::Failed(e) => {
                self.outcome = Some(Err(e));
            },
            Event::Sent => {
                if let Step::Send { .. } = &self.script[pos] {
                    self.advance();
                }
            },
            Event::Paused => {
                if let Step::Pause { .. } = &self.script[pos] {
                    self.advance();
                }
            },
            Event::Received(p) => {
                let (expected, wants_header) = match &self.script[pos] {
                    Step::Expect { command_id, header, .. } => (*command_id, *header),
                    _ => {
                        return;
                    },
                };
                if p.command_id != expected {
                    self.outcome = Some(Err(DBusError::LinkError));
                    return;
                }
                let data = crate::buffers::bytes256_as_slice(&p.data);
                if wants_header {
                    match VariableHeader::from_bytes(data) {
                        Some(h) => {
                            self.header = Some(h);
                        },
                        None => {
                            self.outcome = Some(Err(DBusError::LinkError));
                            return;
                        },
                    }
                }
                self.last_data = slice_to_vec(data);
                let ghost before = self.script@.subrange(0, pos as int);
                proof {
                    let after = self.script@.subrange(0, pos + 1);
                    assert(after.drop_last() =~= before);
                    self.accepted@ = self.accepted@.push(expected);
                }
                let n = self.script.len();
                self.position = pos + 1;
                if self.position == n {
                    self.outcome = Some(Ok(()));
                }
            },
        }
    }
}

/// A transfer that has succeeded has done every step of its script and
/// accepted, in order, a reply with the expected command for every waiting
/// step; a transfer still running or failed has not done every step.
pub proof fn law_success_means_every_reply(t: &Transfer)
    requires
        t.wf(),
    ensures
        t.outcome() == Some(Ok::<(), DBusError>(())) ==> t.position() == t.script().len()
            && t.accepted() == expected_replies(t.script()),
        t.outcome() != Some(Ok::<(), DBusError>(())) ==> t.position() < t.script().len(),
{
    if t.outcome() == Some(Ok::<(), DBusError>(())) {
        assert(t.script@.subrange(0, t.position as int) =~= t.script@);
    }
}

/// A fetch of a real variable that succeeded was answered by the calculator
/// with, in this order, an acknowledgement, the variable header, an
/// acknowledgement and the data.
pub proof fn law_fetch_success_replies(t: &Transfer, name: u8)
    requires
        t.wf(),
        request_variable_script_ok(t.script(), name),
        t.outcome() == Some(Ok::<(), DBusError>(())),
    ensures
        t.accepted() == seq![CMD_ACK, CMD_VAR, CMD_ACK, CMD_DATA],
{
    law_success_means_every_reply(t);
    let s = t.script();
    reveal_with_fuel(expected_replies, 9);
    assert(expected_replies(s) =~= seq![CMD_ACK, CMD_VAR, CMD_ACK, CMD_DATA]);
}

/// A store of a real variable that succeeded was answered by the calculator
/// with, in this order, an acknowledgement, a clear-to-send, and an
/// acknowledgement of the data and of the end of transmission.
pub proof fn law_store_success_replies(t: &Transfer, name: u8, value: i32)
    requires
        t.wf(),
        send_real_script_ok(t.script(), name, value),
        t.outcome() == Some(Ok::<(), DBusError>(())),
    ensures
        t.accepted() == seq![CMD_ACK, CMD_CTS, CMD_ACK, CMD_ACK],
{
    law_success_means_every_reply(t);
    let s = t.script();
    reveal_with_fuel(expected_replies, 12);
    assert(expected_replies(s) =~= seq![CMD_ACK, CMD_CTS, CMD_ACK, CMD_ACK]);
}

proof fn lemma_after_events_append(
    script: Seq<Step>,
    position: nat,
    outcome: Option<Result<(), DBusError>>,
    a: Seq<Event>,
    b: Seq<Event>,
)
    ensures
        after_events(script, position, outcome, a + b) == after_events(
            script,
            after_events(script, position, outcome, a).0,
            after_events(script, position, outcome, a).1,
            b,
        ),
    decreases a.len(),
{
    if a.len() == 0 {
        assert(a + b =~= b);
    } else {
        let next = after_event(script, position, outcome, a[0]);
        assert((a + b)[0] == a[0]);
        assert((a + b).drop_first() =~= a.drop_first() + b);
        lemma_after_events_append(script, next.0, next.1, a.drop_first(), b);
    }
}

proof fn lemma_finished_stays(
    script: Seq<Step>,
    position: nat,
    outcome: Option<Result<(), DBusError>>,
    events: Seq<Event>,
)
    requires
        outcome is Some,
    ensures
        after_events(script, position, outcome, events) == (position, outcome),
    decreases events.len(),
{
    if events.len() > 0 {
        lemma_finished_stays(script, position, outcome, events.drop_first());
    }
}

proof fn lemma_completing_events(script: Seq<Step>, position: nat, events: Seq<Event>)
    requires
        position + events.len() <= script.len(),
        forall|i: int| 0 <= i < events.len() ==> completes(script[position + i], #[trigger] events[i]),
    ensures
        after_events(script, position, None, events) == (
            position + events.len(),
            if events.len() > 0 && position + events.len() == script.len() {
                Some(Ok::<(), DBusError>(()))
            } else {
                None
            },
        ),
    decreases events.len(),
{
    if events.len() > 0 {
        assert(completes(script[position + 0int], events[0]));
        let rest = events.drop_first();
        assert forall|i: int| 0 <= i < rest.len() implies completes(
            script[(position + 1) + i],
            #[trigger] rest[i],
        ) by {
            assert(rest[i] == events[i + 1]);
            assert(completes(script[position + (i + 1)], events[i + 1]));
        }
        let next = after_event(script, position, None, events[0]);
        assert(next == (
            (position + 1) as nat,
            if position + 1 == script.len() {
                Some(Ok::<(), DBusError>(()))
            } else {
                None
            },
        ));
        assert(after_events(script, position, None, events) == after_events(script, next.0, next.1, rest));
        if rest.len() > 0 {
            lemma_completing_events(script, (position + 1) as nat, rest);
            assert(next.1 is None);
        } else {
            assert(events.len() == 1);
        }
    }
}

/// A transfer fed, for each step of its script in turn, the event that
/// completes it (packet sent, pause over, the expected reply) ends in success
/// with every step done.
pub proof fn law_completing_events_succeed(script: Seq<Step>, events: Seq<Event>)
    requires
        script.len() > 0,
        events.len() == script.len(),
        forall|i: int| 0 <= i < script.len() ==> completes(script[i], #[trigger] events[i]),
    ensures
        after_events(script, 0, None, events) == (script.len(), Some(Ok::<(), DBusError>(()))),
{
    assert forall|i: int| 0 <= i < events.len() implies completes(script[0 + i], #[trigger] events[i]) by {
        assert(completes(script[i], events[i]));
    }
    lemma_completing_events(script, 0, events);
}

/// A transfer whose steps were completed up to a waiting step, and which then
/// receives a packet that does not complete that step, ends right there with
/// a link error, and no later event changes that.
pub proof fn law_wrong_reply_fails(script: Seq<Step>, done: Seq<Event>, reply: Packet, later: Seq<Event>)
    requires
        done.len() < script.len(),
        forall|i: int| 0 <= i < done.len() ==> completes(script[i], #[trigger] done[i]),
        script[done.len() as int] is Expect,
        !completes(script[done.len() as int], Event::Received(reply)),
    ensures
        after_events(script, 0, None, done + seq![Event::Received(reply)] + later) == (
            done.len(),
            Some(Err::<(), DBusError>(DBusError::LinkError)),
        ),
{
    assert forall|i: int| 0 <= i < done.len() implies completes(script[0 + i], #[trigger] done[i]) by {
        assert(completes(script[i], done[i]));
    }
    lemma_completing_events(script, 0, done);
    let wrong = seq![Event::Received(reply)];
    lemma_after_events_append(script, 0, None, done + wrong, later);
    lemma_after_events_append(script, 0, None, done, wrong);
    assert(wrong.drop_first() =~= Seq::<Event>::empty());
    assert(after_events(script, 0, None, done) == (done.len(), None::<Result<(), DBusError>>));
    assert(after_event(script, done.len(), None, wrong[0]) == (
        done.len(),
        Some(Err::<(), DBusError>(DBusError::LinkError)),
    ));
    assert(after_events(
        script,
        done.len(),
        Some(Err::<(), DBusError>(DBusError::LinkError)),
        wrong.drop_first(),
    ) == (done.len(), Some(Err::<(), DBusError>(DBusError::LinkError))));
    assert(after_events(script, done.len(), None, wrong) == (
        done.len(),
        Some(Err::<(), DBusError>(DBusError::LinkError)),
    ));
    lemma_finished_stays(script, done.len(), Some(Err::<(), DBusError>(DBusError::LinkError)), later);
}

/// A transfer whose steps were completed up to some step, and whose link then
/// fails, ends right there with that error, and no later event changes that.
pub proof fn law_link_failure_ends(script: Seq<Step>, done: Seq<Event>, e: DBusError, later: Seq<Event>)
    requires
        done.len() < script.len(),
        forall|i: int| 0 <= i < done.len() ==> completes(script[i], #[trigger] done[i]),
    ensures
        after_events(script, 0, None, done + seq![Event::Failed(e)] + later) == (
            done.len(),
            Some(Err::<(), DBusError>(e)),
        ),
{
    assert forall|i: int| 0 <= i < done.len() implies completes(script[0 + i], #[trigger] done[i]) by {
        assert(completes(script[i], done[i]));
    }
    lemma_completing_events(script, 0, done);
    let failed = seq![Event::Failed(e)];
    lemma_after_events_append(script, 0, None, done + failed, later);
    lemma_after_events_append(script, 0, None, done, failed);
    assert(failed.drop_first() =~= Seq::<Event>::empty());
    assert(after_events(script, 0, None, done) == (done.len(), None::<Result<(), DBusError>>));
    assert(after_events(script, done.len(), Some(Err::<(), DBusError>(e)), failed.drop_first()) == (
        done.len(),
        Some(Err::<(), DBusError>(e)),
    ));
    assert(after_events(script, done.len(), None, failed) == (done.len(), Some(Err::<(), DBusError>(e))));
    lemma_finished_stays(script, done.len(), Some(Err::<(), DBusError>(e)), later);
}

/// A fetch of a real variable whose packets are sent and whose replies are,
/// in turn, an acknowledgement, a variable packet holding a header, an
/// acknowledgement and a data packet, succeeds.
pub proof fn law_fetch_succeeds(
    script: Seq<Step>,
    name: u8,
    ack: Packet,
    var: Packet,
    ack2: Packet,
    data: Packet,
)
    requires
        request_variable_script_ok(script, name),
        ack.command_id == CMD_ACK,
        var.command_id == CMD_VAR,
        header_fields(bytes256(var.data)) is Some,
        ack2.command_id == CMD_ACK,
        data.command_id == CMD_DATA,
    ensures
        after_events(
            script,
            0,
            None,
            seq![
                Event::Sent,
                Event::Received(ack),
                Event::Received(var),
                Event::Sent,
                Event::Sent,
                Event::Received(ack2),
                Event::Received(data),
                Event::Sent,
            ],
        ) == (8nat, Some(Ok::<(), DBusError>(()))),
{
    let events = seq![
        Event::Sent,
        Event::Received(ack),
        Event::Received(var),
        Event::Sent,
        Event::Sent,
        Event::Received(ack2),
        Event::Received(data),
        Event::Sent,
    ];
    assert forall|i: int| 0 <= i < script.len() implies completes(script[i], #[trigger] events[i]) by {
        if i == 0 || i == 3 || i == 4 || i == 7 {
            assert(script[i] is Send);
        }
    }
    law_completing_events_succeed(script, events);
}

/// A store of a real variable whose packets are sent, whose pauses end and
/// whose replies are, in turn, an acknowledgement, a clear-to-send and two
/// acknowledgements, succeeds.
pub proof fn law_store_succeeds(
    script: Seq<Step>,
    name: u8,
    value: i32,
    ack: Packet,
    cts: Packet,
    ack2: Packet,
    ack3: Packet,
)
    requires
        send_real_script_ok(script, name, value),
        ack.command_id == CMD_ACK,
        cts.command_id == CMD_CTS,
        ack2.command_id == CMD_ACK,
        ack3.command_id == CMD_ACK,
    ensures
        after_events(
            script,
            0,
            None,
            seq![
                Event::Sent,
                Event::Received(ack),
                Event::Received(cts),
                Event::Paused,
                Event::Sent,
                Event::Paused,
                Event::Sent,
                Event::Received(ack2),
                Event::Paused,
                Event::Sent,
                Event::Received(ack3),
            ],
        ) == (11nat, Some(Ok::<(), DBusError>(()))),
{
    let events = seq![
        Event::Sent,
        Event::Received(ack),
        Event::Received(cts),
        Event::Paused,
        Event::Sent,
        Event::Paused,
        Event::Sent,
        Event::Received(ack2),
        Event::Paused,
        Event::Sent,
        Event::Received(ack3),
    ];
    assert forall|i: int| 0 <= i < script.len() implies completes(script[i], #[trigger] events[i]) by {
        if i == 0 || i == 4 || i == 6 || i == 9 {
            assert(script[i] is Send);
        }
    }
    law_completing_events_succeed(script, events);
}

/// A fetch asks the calculator for the variable it was asked for: its first
/// step sends a request (command 0xA2) whose eleven header bytes announce a
/// real number (type 0x00) of size 0 named `name` followed by seven zeros.
pub proof fn law_fetch_requests_the_name(script: Seq<Step>, name: u8)
    requires
        request_variable_script_ok(script, name),
    ensures
        script[0] matches Step::Send { command_id, payload } && command_id == 0xA2u8
            && payload@.len() == 11 && payload@[3] == name && header_fields(payload@) == Some(
            (0nat, 0x00u8, seq![name, 0u8, 0u8, 0u8, 0u8, 0u8, 0u8, 0u8]),
        ),
{
    crate::variables::law_header_fields_after_bytes(
        0,
        TYPE_REAL,
        seq![name, 0u8, 0u8, 0u8, 0u8, 0u8, 0u8, 0u8],
    );
}

/// A store sends the number it was asked to store: its variable packet
/// announces a real number (type 0x00) of nine bytes named `name`, and the
/// data it sends (command 0x15) reads back with the value's sign and with a
/// mantissa that, scaled by its exponent, is the value's magnitude (times
/// 10^13, for the decimal point after the first mantissa digit).
pub proof fn law_store_sends_the_value(script: Seq<Step>, name: u8, value: i32)
    requires
        send_real_script_ok(script, name, value),
    ensures
        script[0] matches Step::Send { command_id, payload } && command_id == 0x06u8
            && header_fields(payload@) == Some(
            (9nat, 0x00u8, seq![name, 0u8, 0u8, 0u8, 0u8, 0u8, 0u8, 0u8]),
        ),
        match script[6] {
            Step::Send { command_id, payload } => command_id == 0x15u8 && match real_parts(
                payload@,
            ) {
                Some((mantissa, exponent, negative)) => negative == (value < 0) && 0 <= exponent
                    && mantissa * pow10(exponent as nat) == (if value < 0 {
                    -(value as int)
                } else {
                    value as int
                }) * pow10(13),
                None => false,
            },
            _ => false,
        },
{
    crate::variables::law_header_fields_after_bytes(
        9,
        TYPE_REAL,
        seq![name, 0u8, 0u8, 0u8, 0u8, 0u8, 0u8, 0u8],
    );
    law_integer_value(value as int);
}

/// A copy of the bytes.
fn slice_to_vec(s: &[u8]) -> (r: Vec<u8>)
    ensures
        r@ == s@,
{
    let mut v: Vec<u8> = Vec::new();
    for i in 0..s.len()
        invariant
            v@ == s@.subrange(0, i as int),
    {
        v.push(s[i]);
        assert(v@ =~= s@.subrange(0, i + 1));
    }
    assert(s@.subrange(0, s@.len() as int) =~= s@);
    v
}

} // verus!
