//! The exchange as a whole: its life from setting up to shutting down, and how its
//! commands are numbered and journaled.
use vstd::prelude::*;
use vstd::string::StringExecFns;

use crate::exchange::api;
use crate::exchange::api::{
    CommandResultCode, CoreSymbolSpecification, Currency, L2MarketData, OrderCommand,
    OrderCommandType, SymbolId, UserId,
};
use crate::exchange::book;
use crate::exchange::config::ExchangeConfig;
use crate::exchange::pipeline;
use crate::exchange::pipeline::{Duty, Pipeline, PipelineModel};
use crate::exchange::state;
use crate::exchange::state::ExchangeState;

verus! {

/// What came of replaying a journal.
#[derive(Debug, Clone, Copy, PartialEq, Eq, Structural)]
pub struct ReplaySummary {
    /// How many commands were applied.
    pub replayed: usize,
    /// The last sequence number that the state covers.
    pub last_seq: u64,
    /// From where on the journal cannot be read.
    pub truncated_at: Option<u64>,
}

/// Why something cannot be done with the exchange.
#[derive(Debug, Clone, Copy, PartialEq, Eq, Structural)]
pub enum LifecycleError {
    /// The exchange was started: its state is with another thread.
    AlreadyStarted,
    /// Nothing keeps snapshots, so no part of the journal can be spared.
    NoSnapshots,
    /// What was saved cannot be the state of an exchange.
    BadSnapshot,
}

impl LifecycleError {
    pub open spec fn text(self) -> Seq<char> {
        match self {
            LifecycleError::AlreadyStarted =>
                "必须在 startup() 之前调用：启动后 pipeline 已移交 Disruptor 消费者线程"@,
            LifecycleError::NoSnapshots =>
                "未启用快照，压缩 WAL 会导致这段命令再也无法恢复"@,
            LifecycleError::BadSnapshot => "反序列化快照失败"@,
        }
    }

    /// The error in words.
    pub fn message(&self) -> (r: String)
        ensures
            r@ == self.text(),
    {
        match self {
            LifecycleError::AlreadyStarted => String::from_str(
                "必须在 startup() 之前调用：启动后 pipeline 已移交 Disruptor 消费者线程",
            ),
            LifecycleError::NoSnapshots => String::from_str(
                "未启用快照，压缩 WAL 会导致这段命令再也无法恢复",
            ),
            LifecycleError::BadSnapshot => String::from_str("反序列化快照失败"),
        }
    }
}

/// What became of a command that was handed in.
#[derive(Debug, Clone, Copy, PartialEq, Eq, Structural)]
pub enum Delivery {
    /// It was turned down. It must not be journaled.
    Refused,
    /// It went through, and this is left to do.
    Executed(Duty),
    /// It is to be handed to the consumer thread.
    Publish,
}

/// What a shutdown asks for.
#[derive(Debug, Clone, Copy, PartialEq, Eq, Structural)]
pub enum Closing {
    /// Nothing: the exchange was shut down before, or has nothing to save.
    Nothing,
    /// Nothing may be saved: the state may be half of an update.
    Abandon,
    /// The state is to be saved under a sequence number.
    Persist { seq: u64 },
    /// The consumer thread is to be told, with a sequence number.
    Signal { seq: u64 },
}

#[verifier::ext_equal]
pub struct CoreModel {
    pub config: ExchangeConfig,
    /// The state, unless the consumer thread owns it.
    pub pipeline: Option<PipelineModel>,
    pub started: bool,
    pub snapshots: bool,
    /// The last sequence number that the state covers.
    pub last_seq: u64,
    pub poisoned: bool,
    pub stopped: bool,
}

/// A command to save the state is not journaled: with each replay the state would be saved
/// once more.
pub open spec fn is_control(command: OrderCommandType) -> bool {
    pipeline::is_persist(command)
}

/// The last sequence number, once a command was handed in.
pub open spec fn numbered(m: CoreModel, c: OrderCommand, written: Option<u64>) -> u64 {
    match written {
        Some(seq) => if is_control(c.command) {
            m.last_seq
        } else {
            seq
        },
        None => m.last_seq,
    }
}

/// A command with its sequence number.
pub open spec fn stamped(m: CoreModel, c: OrderCommand, written: Option<u64>) -> OrderCommand {
    OrderCommand { seq: numbered(m, c, written), ..c }
}

/// Whether an exchange turns commands down, and how.
pub open spec fn refusal(m: CoreModel) -> Option<CommandResultCode> {
    if m.stopped {
        Some(CommandResultCode::EngineStopped)
    } else if m.poisoned {
        Some(CommandResultCode::EnginePoisoned)
    } else {
        None
    }
}

/// Whether a saved state is that of an exchange, in a form that can be taken over.
pub open spec fn saves(m: CoreModel, s: ExchangeState) -> bool {
    &&& s.config == m.config
    &&& state::pipeline_of(s.pipeline_state) == state::unattached(m.pipeline.unwrap())
    &&& state::state_ok(s.pipeline_state)
}

pub struct ExchangeCore {
    config: ExchangeConfig,
    pipeline: Option<Pipeline>,
    started: bool,
    snapshots: bool,
    last_seq: u64,
    poisoned: bool,
    stopped: bool,
}

impl View for ExchangeCore {
    type V = CoreModel;

    closed spec fn view(&self) -> CoreModel {
        CoreModel {
            config: self.config,
            pipeline: match self.pipeline {
                Some(p) => Some(p@),
                None => None,
            },
            started: self.started,
            snapshots: self.snapshots,
            last_seq: self.last_seq,
            poisoned: self.poisoned,
            stopped: self.stopped,
        }
    }
}

impl ExchangeCore {
    /// The state is there until the exchange is started.
    pub closed spec fn wf(&self) -> bool {
        &&& self.pipeline.is_none() == self.started
        &&& self.pipeline matches Some(p) ==> p.wf()
    }

    pub fn new(config: ExchangeConfig) -> (r: ExchangeCore)
        requires
            pipeline::shards_ok(config.risk_engines_num),
            pipeline::shards_ok(config.matching_engines_num),
        ensures
            r.wf(),
            r@ == (CoreModel {
                config,
                pipeline: Some(pipeline::fresh(config)),
                started: false,
                snapshots: false,
                last_seq: 0,
                poisoned: false,
                stopped: false,
            }),
    {
        ExchangeCore {
            config,
            pipeline: Some(Pipeline::new(&config)),
            started: false,
            snapshots: false,
            last_seq: 0,
            poisoned: false,
            stopped: false,
        }
    }

    pub fn config(&self) -> (r: ExchangeConfig)
        ensures
            r == self@.config,
    {
        self.config
    }

    /// Whether the consumer thread failed on a command.
    pub fn is_poisoned(&self) -> (r: bool)
        ensures
            r == self@.poisoned,
    {
        self.poisoned
    }

    /// The consumer thread failed on a command: the state may be half of an update, and
    /// nothing is taken any more.
    pub fn poison(&mut self)
        requires
            old(self).wf(),
        ensures
            final(self).wf(),
            final(self)@ == (CoreModel { poisoned: true, ..old(self)@ }),
    {
        self.poisoned = true;
    }

    /// The last sequence number that the state covers.
    pub fn last_seq(&self) -> (r: u64)
        ensures
            r == self@.last_seq,
    {
        self.last_seq
    }

    pub fn is_started(&self) -> (r: bool)
        ensures
            r == self@.started,
    {
        self.started
    }

    pub fn is_stopped(&self) -> (r: bool)
        ensures
            r == self@.stopped,
    {
        self.stopped
    }

    /// Starts the exchange: the state goes to the consumer thread. Nothing happens the
    /// second time.
    pub fn startup(&mut self) -> (r: Option<Pipeline>)
        requires
            old(self).wf(),
        ensures
            final(self).wf(),
            final(self)@ == (CoreModel { pipeline: None, started: true, ..old(self)@ }),
            r.is_some() == !old(self)@.started,
            r matches Some(p) ==> p.wf() && Some(p@) == old(self)@.pipeline,
    {
        self.started = true;
        self.pipeline.take()
    }

    /// From now on, snapshots have somewhere to go.
    pub fn enable_snapshotting(&mut self) -> (r: Result<(), LifecycleError>)
        requires
            old(self).wf(),
        ensures
            final(self).wf(),
            old(self)@.started ==> r == Err::<(), LifecycleError>(LifecycleError::AlreadyStarted)
                && final(self)@ == old(self)@,
            !old(self)@.started ==> r is Ok && final(self)@ == (CoreModel {
                snapshots: true,
                pipeline: Some(
                    PipelineModel { keeps_snapshots: true, ..old(self)@.pipeline.unwrap() },
                ),
                ..old(self)@
            }),
    {
        if self.started {
            return Err(LifecycleError::AlreadyStarted);
        }
        match &mut self.pipeline {
            Some(p) => {
                p.set_snapshot_sink();
            },
            None => {},
        }
        self.snapshots = true;
        Ok(())
    }

    /// Registers a symbol.
    pub fn add_symbol(&mut self, spec: CoreSymbolSpecification) -> (r: Result<(), LifecycleError>)
        requires
            old(self).wf(),
        ensures
            final(self).wf(),
            old(self)@.started ==> r == Err::<(), LifecycleError>(LifecycleError::AlreadyStarted)
                && final(self)@ == old(self)@,
            !old(self)@.started ==> r is Ok && final(self)@ == (CoreModel {
                pipeline: Some(pipeline::with_symbol(old(self)@.pipeline.unwrap(), spec)),
                ..old(self)@
            }),
    {
        if self.started {
            return Err(LifecycleError::AlreadyStarted);
        }
        match &mut self.pipeline {
            Some(p) => {
                p.add_symbol(spec);
            },
            None => {},
        }
        Ok(())
    }

    /// Free money of a user, as long as the state is here.
    pub fn balance_of(&self, uid: UserId, currency: Currency) -> (r: Option<i64>)
        requires
            self.wf(),
            self@.pipeline matches Some(p) ==> pipeline::balance_fits(p.risks, uid, currency),
        ensures
            r.is_some() == !self@.started,
            r matches Some(n) ==> n == pipeline::balance_over(
                self@.pipeline.unwrap().risks,
                uid,
                currency,
            ),
    {
        match &self.pipeline {
            Some(p) => Some(p.balance_of(uid, currency)),
            None => None,
        }
    }

    /// Fees taken so far, as long as the state is here.
    pub fn fees_collected(&self, currency: Currency) -> (r: Option<i64>)
        requires
            self.wf(),
            self@.pipeline matches Some(p) ==> pipeline::fees_fit(p.risks, currency),
        ensures
            r.is_some() == !self@.started,
            r matches Some(n) ==> n == pipeline::fees_over(
                self@.pipeline.unwrap().risks,
                currency,
            ),
    {
        match &self.pipeline {
            Some(p) => Some(p.fees_collected(currency)),
            None => None,
        }
    }

    /// The best levels of a symbol, as long as the state is here and the symbol has a
    /// book.
    pub fn l2_depth(&self, symbol: SymbolId, depth: usize) -> (r: Option<L2MarketData>)
        requires
            self.wf(),
        ensures
            r.is_some() == (self@.pipeline matches Some(p) && pipeline::book_of(
                p.routers,
                symbol,
            ).is_some()),
            r matches Some(l2) ==> {
                let b = pipeline::book_of(self@.pipeline.unwrap().routers, symbol).unwrap();
                &&& book::shows(b.asks, depth, l2.ask_prices@, l2.ask_volumes@, l2.ask_order_counts@)
                &&& book::shows(b.bids, depth, l2.bid_prices@, l2.bid_volumes@, l2.bid_order_counts@)
            },
    {
        match &self.pipeline {
            Some(p) => p.l2_depth(symbol, depth),
            None => None,
        }
    }

    /// Whether a command is to be journaled before it is handed in.
    pub fn needs_journal(&self, cmd: &OrderCommand) -> (r: bool)
        ensures
            r == (refusal(self@).is_none() && !is_control(cmd.command)),
    {
        let control: bool = match cmd.command {
            OrderCommandType::PersistStateMatching => true,
            OrderCommandType::PersistStateRisk => true,
            _ => false,
        };
        !self.stopped && !self.poisoned && !control
    }

    /// Hands a command in. `written` is the sequence number under which it was
    /// journaled, if it was. A command to save the state has the number of the last one
    /// that was journaled. Before the exchange is started the command goes through at
    /// once, afterwards it is only accepted.
    pub fn submit_command(&mut self, cmd: &mut OrderCommand, written: Option<u64>) -> (r: Delivery)
        requires
            old(self).wf(),
            refusal(old(self)@).is_none() && !old(self)@.started ==> pipeline::handled(
                old(self)@.pipeline.unwrap(),
                stamped(old(self)@, *old(cmd), written),
            ).fits,
        ensures
            final(self).wf(),
            match refusal(old(self)@) {
                Some(code) => {
                    &&& r == Delivery::Refused
                    &&& final(self)@ == old(self)@
                    &&& *final(cmd) == (OrderCommand { result_code: code, ..*old(cmd) })
                },
                None => {
                    let c = stamped(old(self)@, *old(cmd), written);
                    let seq = numbered(old(self)@, *old(cmd), written);
                    if old(self)@.started {
                        &&& r == Delivery::Publish
                        &&& final(self)@ == (CoreModel { last_seq: seq, ..old(self)@ })
                        &&& *final(cmd) == (OrderCommand {
                            result_code: CommandResultCode::Accepted,
                            ..c
                        })
                    } else {
                        let step = pipeline::handled(old(self)@.pipeline.unwrap(), c);
                        &&& r == Delivery::Executed(step.duty)
                        &&& final(self)@ == (CoreModel {
                            last_seq: seq,
                            pipeline: Some(step.pipeline),
                            ..old(self)@
                        })
                        &&& pipeline::told(c, *final(cmd), step)
                    }
                },
            },
    {
        if self.stopped {
            cmd.result_code = CommandResultCode::EngineStopped;
            return Delivery::Refused;
        }
        if self.poisoned {
            cmd.result_code = CommandResultCode::EnginePoisoned;
            return Delivery::Refused;
        }
        if self.needs_journal(cmd) {
            match written {
                Some(seq) => {
                    self.last_seq = seq;
                },
                None => {},
            }
        }
        cmd.seq = self.last_seq;
        match &mut self.pipeline {
            Some(p) => {
                let duty = p.handle_event(cmd);
                Delivery::Executed(duty)
            },
            None => {
                cmd.result_code = CommandResultCode::Accepted;
                Delivery::Publish
            },
        }
    }

    /// Applies the commands of a journal that come after what the state covers. They
    /// are not journaled again.
    pub fn replay_journal(
        &mut self,
        commands: Vec<OrderCommand>,
        last_seq: Option<u64>,
        truncated_at: Option<u64>,
    ) -> (r: Result<ReplaySummary, LifecycleError>)
        requires
            old(self).wf(),
            !old(self)@.started ==> pipeline::run_fits(old(self)@.pipeline.unwrap(), commands@),
        ensures
            final(self).wf(),
            old(self)@.started ==> r == Err::<ReplaySummary, LifecycleError>(
                LifecycleError::AlreadyStarted,
            ) && final(self)@ == old(self)@,
            !old(self)@.started ==> {
                let seq = match last_seq {
                    Some(s) => if s > old(self)@.last_seq {
                        s
                    } else {
                        old(self)@.last_seq
                    },
                    None => old(self)@.last_seq,
                };
                &&& r == Ok::<ReplaySummary, LifecycleError>(
                    ReplaySummary { replayed: commands@.len() as usize, last_seq: seq, truncated_at },
                )
                &&& final(self)@ == (CoreModel {
                    last_seq: seq,
                    pipeline: Some(pipeline::run(old(self)@.pipeline.unwrap(), commands@)),
                    ..old(self)@
                })
            },
    {
        let n: usize = commands.len();
        match &mut self.pipeline {
            Some(p) => {
                apply_all(p, commands);
            },
            None => {
                return Err(LifecycleError::AlreadyStarted);
            },
        }
        match last_seq {
            Some(s) => {
                if s > self.last_seq {
                    self.last_seq = s;
                }
            },
            None => {},
        }
        Ok(ReplaySummary { replayed: n, last_seq: self.last_seq, truncated_at })
    }

    /// The whole state, as long as it is here.
    pub fn serialize_state(&self) -> (r: Result<ExchangeState, LifecycleError>)
        requires
            self.wf(),
        ensures
            self@.started ==> r == Err::<ExchangeState, LifecycleError>(
                LifecycleError::AlreadyStarted,
            ),
            !self@.started ==> (r matches Ok(s) && saves(self@, s)),
    {
        match &self.pipeline {
            Some(p) => Ok(
                ExchangeState { config: self.config, pipeline_state: p.serialize_state() },
            ),
            None => Err(LifecycleError::AlreadyStarted),
        }
    }

    /// An exchange with a saved state, or `None` where there cannot be one.
    pub fn from_state(s: &ExchangeState) -> (r: Option<ExchangeCore>)
        ensures
            r.is_some() == state::state_ok(s.pipeline_state),
            r matches Some(core) ==> core.wf() && core@ == (CoreModel {
                config: s.config,
                pipeline: Some(state::pipeline_of(s.pipeline_state)),
                started: false,
                snapshots: false,
                last_seq: 0,
                poisoned: false,
                stopped: false,
            }),
    {
        match Pipeline::from_state(&s.pipeline_state) {
            Some(p) => Some(
                ExchangeCore {
                    config: s.config,
                    pipeline: Some(p),
                    started: false,
                    snapshots: false,
                    last_seq: 0,
                    poisoned: false,
                    stopped: false,
                },
            ),
            None => None,
        }
    }

    /// What is to be saved, with the sequence number to save it under. Nothing is
    /// where snapshots have nowhere to go.
    pub fn take_snapshot(&self) -> (r: Result<Option<(ExchangeState, u64)>, LifecycleError>)
        requires
            self.wf(),
        ensures
            self@.started ==> r == Err::<Option<(ExchangeState, u64)>, LifecycleError>(
                LifecycleError::AlreadyStarted,
            ),
            !self@.started && !self@.snapshots ==> r == Ok::<
                Option<(ExchangeState, u64)>,
                LifecycleError,
            >(None),
            !self@.started && self@.snapshots ==> (r matches Ok(Some((s, seq))) && seq
                == self@.last_seq && saves(self@, s)),
    {
        match self.serialize_state() {
            Err(e) => Err(e),
            Ok(s) => {
                if self.snapshots {
                    Ok(Some((s, self.last_seq)))
                } else {
                    Ok(None)
                }
            },
        }
    }

    /// Asks for the state to be saved, whoever has it.
    pub fn request_snapshot(&mut self) -> (r: (Delivery, OrderCommand))
        requires
            old(self).wf(),
        ensures
            final(self).wf(),
            final(self)@ == old(self)@,
            r.1.command == OrderCommandType::PersistStateMatching,
            api::is_blank(r.1),
            match refusal(old(self)@) {
                Some(code) => {
                    &&& r.0 == Delivery::Refused
                    &&& r.1.seq == 0
                    &&& r.1.result_code == code
                },
                None => {
                    &&& r.1.seq == old(self)@.last_seq
                    &&& if old(self)@.started {
                        &&& r.0 == Delivery::Publish
                        &&& r.1.result_code == CommandResultCode::Accepted
                    } else if old(self)@.pipeline.unwrap().keeps_snapshots {
                        &&& r.0 == Delivery::Executed(Duty::Persist)
                        &&& r.1.result_code == CommandResultCode::New
                    } else {
                        &&& r.0 == Delivery::Executed(Duty::Report)
                        &&& r.1.result_code == CommandResultCode::StatePersistMatchingEngineFailed
                    }
                },
            },
    {
        let mut cmd: OrderCommand = OrderCommand::default();
        cmd.command = OrderCommandType::PersistStateMatching;
        let delivery = self.submit_command(&mut cmd, None);
        assert(self@ =~= old(self)@);
        (delivery, cmd)
    }

    /// Takes over a saved state, which covers the commands up to a sequence number.
    /// Snapshots go where they went before.
    pub fn load_snapshot(&mut self, s: &ExchangeState, seq: u64) -> (r: Result<(), LifecycleError>)
        requires
            old(self).wf(),
        ensures
            final(self).wf(),
            r is Err ==> final(self)@ == old(self)@,
            r == (if old(self)@.started {
                Err::<(), LifecycleError>(LifecycleError::AlreadyStarted)
            } else if !state::state_ok(s.pipeline_state) {
                Err(LifecycleError::BadSnapshot)
            } else {
                Ok(())
            }),
            r is Ok ==> final(self)@ == (CoreModel {
                config: s.config,
                pipeline: Some(
                    PipelineModel {
                        keeps_snapshots: old(self)@.snapshots,
                        ..state::pipeline_of(s.pipeline_state)
                    },
                ),
                last_seq: seq,
                ..old(self)@
            }),
    {
        if self.started {
            return Err(LifecycleError::AlreadyStarted);
        }
        match Pipeline::from_state(&s.pipeline_state) {
            Some(restored) => {
                let mut p = restored;
                if self.snapshots {
                    p.set_snapshot_sink();
                }
                self.config = s.config;
                self.pipeline = Some(p);
                self.last_seq = seq;
                Ok(())
            },
            None => Err(LifecycleError::BadSnapshot),
        }
    }

    /// Up to which sequence number the journal can be dropped: what the latest snapshot
    /// covers, and never more.
    pub fn compact_journal(&self, latest_snapshot: Option<u64>) -> (r: Result<
        Option<u64>,
        LifecycleError,
    >)
        ensures
            r == (if self@.snapshots {
                Ok::<Option<u64>, LifecycleError>(latest_snapshot)
            } else {
                Err(LifecycleError::NoSnapshots)
            }),
    {
        if self.snapshots {
            Ok(latest_snapshot)
        } else {
            Err(LifecycleError::NoSnapshots)
        }
    }

    /// Shuts the exchange down. From then on it takes no commands.
    pub fn shutdown(&mut self) -> (r: Closing)
        requires
            old(self).wf(),
        ensures
            final(self).wf(),
            final(self)@ == (CoreModel { stopped: true, ..old(self)@ }),
            r == (if old(self)@.stopped {
                Closing::Nothing
            } else if old(self)@.poisoned {
                Closing::Abandon
            } else if old(self)@.started {
                Closing::Signal { seq: old(self)@.last_seq }
            } else if old(self)@.snapshots {
                Closing::Persist { seq: old(self)@.last_seq }
            } else {
                Closing::Nothing
            }),
    {
        if self.stopped {
            return Closing::Nothing;
        }
        self.stopped = true;
        if self.poisoned {
            return Closing::Abandon;
        }
        if self.started {
            Closing::Signal { seq: self.last_seq }
        } else if self.snapshots {
            Closing::Persist { seq: self.last_seq }
        } else {
            Closing::Nothing
        }
    }
}

/// Takes commands through the exchange, one after the other.
fn apply_all(p: &mut Pipeline, commands: Vec<OrderCommand>)
    requires
        old(p).wf(),
        pipeline::run_fits(old(p)@, commands@),
    ensures
        final(p).wf(),
        final(p)@ == pipeline::run(old(p)@, commands@),
{
    let ghost m = p@;
    let ghost cs = commands@;
    let mut queue: Vec<OrderCommand> = commands;
    let n: usize = queue.len();
    let mut i: usize = 0;
    proof {
        assert(cs.take(0) =~= Seq::<OrderCommand>::empty());
        assert(cs.take(n as int) =~= cs);
    }
    while i < n
        invariant
            p.wf(),
            n == cs.len(),
            queue@.len() == n,
            i <= n,
            forall|k: int| i <= k < n ==> (#[trigger] queue@[k]) == cs[k],
            p@ == pipeline::run(m, cs.take(i as int)),
            pipeline::run_fits(m, cs),
        decreases n - i,
    {
        proof {
            assert(cs.take(i + 1).drop_last() =~= cs.take(i as int));
            assert(queue@[i as int] == cs[i as int]);
            assert(pipeline::handled(pipeline::run(m, cs.take(i as int)), cs[i as int]).fits);
        }
        let duty = p.handle_event(&mut queue[i]);
        i = i + 1;
    }
}

/// Every command but one that only has the state saved takes the number that the journal gave it.
/// Without a journal no number is taken. What the command asks for stays.
pub proof fn law_commands_take_their_number(m: CoreModel, c: OrderCommand, seq: u64)
    ensures
        c.command == OrderCommandType::PersistStateMatching || c.command
            == OrderCommandType::PersistStateRisk ==> numbered(m, c, Some(seq)) == m.last_seq,
        c.command != OrderCommandType::PersistStateMatching && c.command
            != OrderCommandType::PersistStateRisk ==> numbered(m, c, Some(seq)) == seq,
        numbered(m, c, None) == m.last_seq,
        stamped(m, c, Some(seq)).seq == numbered(m, c, Some(seq)),
        stamped(m, c, Some(seq)).command == c.command,
        stamped(m, c, Some(seq)).uid == c.uid,
        stamped(m, c, Some(seq)).order_id == c.order_id,
        stamped(m, c, Some(seq)).symbol == c.symbol,
        stamped(m, c, Some(seq)).price == c.price,
        stamped(m, c, Some(seq)).reserve_price == c.reserve_price,
        stamped(m, c, Some(seq)).size == c.size,
        stamped(m, c, Some(seq)).action == c.action,
        stamped(m, c, Some(seq)).order_type == c.order_type,
{
}

/// An exchange takes commands as long as it was not stopped and nothing failed.
pub proof fn law_sound_exchanges_take_commands(m: CoreModel)
    ensures
        refusal(m).is_none() <==> !m.stopped && !m.poisoned,
        m.stopped ==> refusal(m) == Some(CommandResultCode::EngineStopped),
        m.poisoned && !m.stopped ==> refusal(m) == Some(CommandResultCode::EnginePoisoned),
{
}

} // verus!
