//! One region upload over HTTP, from the request to the reply.
//!
//! [`IngestRequest`] does nothing of its own: [`IngestRequest::action`] says
//! what to do next, and [`IngestRequest::step`] takes what came of it.

use vstd::prelude::*;
use crate::ingest::{encoded, layer_names, layer_rel, let_in, merged_dir, merged_root};
use crate::ingest::{player_dir, player_root, turned_away, RegionQuery, Refusal};
use crate::paths::{joined, FilePath};
use crate::regions::{region_file_name, region_name};

verus! {

/// How long the live-preview chunks of an uploaded region stay, in
/// milliseconds. The authoritative region replaces them, but only after the
/// fresh tiles have had time to reach viewers: the preview layer draws on top,
/// so clearing it at once would flash the old map before the new imagery lands
/// underneath.
pub const PREVIEW_DELAY_MS: u64 = 2500;

/// How far a request has come.
#[derive(Debug, Clone, Copy, PartialEq, Eq, Structural)]
pub enum RequestPhase {
    /// The player's allowance is charged.
    Rate,
    /// The layer is looked up among the known worlds.
    LookUp,
    /// The upload is stored.
    Store,
    /// Watchers are told of the new files.
    Notify,
    /// The preview chunks are to be cleared.
    Preview,
    /// The layer is looked up again, one request at a time.
    LookUpAgain,
    /// The roots are scanned anew.
    Rescan,
    /// The client is answered.
    Reply,
}

/// What to do next.
#[derive(Debug)]
pub enum RequestAction {
    /// Charge the player's allowance.
    Charge,
    /// Tell whether both ingest roots carry the layer.
    LookUp,
    /// Store the upload.
    Store,
    /// Tell watchers of a changed file, in the player's tree and in the merged
    /// one. They look at the file again, so its extension does not matter.
    Notify { player_file: FilePath, merged_file: FilePath },
    /// Clear the preview chunks of the region after a while.
    ClearPreview { delay_ms: u64, rx: i32, rz: i32 },
    /// Tell whether both ingest roots carry the layer, when no other request
    /// does; hold the others up until the reply.
    LookUpAlone,
    /// Scan the roots anew.
    Rescan,
    /// Answer the client. Success has no message.
    Reply { status: u16, message: Option<String> },
}

/// What came of an action.
#[derive(Debug)]
pub enum RequestEvent {
    /// Whether the allowance was enough.
    Charged(bool),
    /// Whether both ingest roots carry the layer.
    Known(bool),
    Stored,
    NotStored(Refusal),
    /// The task that stores the upload was lost.
    StoreLost,
    Done,
}

/// Where a request stands.
pub struct RequestState {
    pub ingest_dir: Seq<Seq<u8>>,
    pub player: Seq<char>,
    pub query: RegionQuery,
    pub phase: RequestPhase,
    /// The layer was known before the upload was stored.
    pub known_before: bool,
    /// The status and the message of the reply; success has none.
    pub reply: (int, Option<Seq<char>>),
}

impl RequestState {
    /// A request as it comes in; `refusal` is what it is turned away for.
    pub open spec fn start(
        ingest_dir: Seq<Seq<u8>>,
        player: Seq<char>,
        query: RegionQuery,
        refusal: Option<(int, Seq<char>)>,
    ) -> RequestState {
        let s = RequestState {
            ingest_dir,
            player,
            query,
            phase: RequestPhase::Rate,
            known_before: false,
            reply: (204, None),
        };
        match refusal {
            Some((status, message)) => s.answered(status, message),
            None => s,
        }
    }

    /// The same, in another phase.
    pub open spec fn at(self, phase: RequestPhase) -> RequestState {
        RequestState { phase, ..self }
    }

    /// The request is turned away.
    pub open spec fn answered(self, status: int, message: Seq<char>) -> RequestState {
        RequestState { phase: RequestPhase::Reply, reply: (status, Some(message)), ..self }
    }

    /// The uploaded region below a root, as a zip.
    pub open spec fn file_below(self, root: Seq<Seq<u8>>) -> Seq<Seq<u8>> {
        joined(
            root + encoded(layer_names(self.query)),
            region_name(self.query.rx as int, self.query.rz as int, "zip"@),
        )
    }

    /// `a` is what to do next.
    pub open spec fn asks(self, a: RequestAction) -> bool {
        match self.phase {
            RequestPhase::Rate => a is Charge,
            RequestPhase::LookUp => a is LookUp,
            RequestPhase::Store => a is Store,
            RequestPhase::Notify => a matches RequestAction::Notify { player_file, merged_file }
                && player_file@ == self.file_below(player_root(self.ingest_dir, self.player))
                && merged_file@ == self.file_below(merged_root(self.ingest_dir)),
            RequestPhase::Preview => a matches RequestAction::ClearPreview { delay_ms, rx, rz }
                && delay_ms == PREVIEW_DELAY_MS && rx == self.query.rx && rz == self.query.rz,
            RequestPhase::LookUpAgain => a is LookUpAlone,
            RequestPhase::Rescan => a is Rescan,
            RequestPhase::Reply => a matches RequestAction::Reply { status, message } && status
                == self.reply.0 && match (message, self.reply.1) {
                (Some(m), Some(t)) => m@ == t,
                (None, None) => true,
                _ => false,
            },
        }
    }

    /// `event` answers what the phase asks for.
    pub open spec fn accepts(self, event: RequestEvent) -> bool {
        match self.phase {
            RequestPhase::Rate => event is Charged,
            RequestPhase::LookUp | RequestPhase::LookUpAgain => event is Known,
            RequestPhase::Store => event is Stored || event is NotStored || event is StoreLost,
            RequestPhase::Notify | RequestPhase::Preview | RequestPhase::Rescan => event is Done,
            RequestPhase::Reply => false,
        }
    }

    /// Where `event` leads.
    pub open spec fn after(self, event: RequestEvent) -> RequestState {
        match event {
            RequestEvent::Charged(enough) => if enough {
                self.at(RequestPhase::LookUp)
            } else {
                self.answered(429, "rate limited"@)
            },
            RequestEvent::Known(known) => if self.phase is LookUp {
                RequestState { known_before: known, phase: RequestPhase::Store, ..self }
            } else if known {
                self.at(RequestPhase::Reply)
            } else {
                self.at(RequestPhase::Rescan)
            },
            RequestEvent::Stored => self.at(RequestPhase::Notify),
            RequestEvent::NotStored(e) => self.answered(e.status as int, e.message@),
            RequestEvent::StoreLost => self.answered(500, "store task failed"@),
            RequestEvent::Done => match self.phase {
                RequestPhase::Notify => self.at(RequestPhase::Preview),
                // First region of a new world/dim/mw (or a brand-new player
                // root): the world list has to grow and the watcher re-arm.
                RequestPhase::Preview => if self.known_before {
                    self.at(RequestPhase::Reply)
                } else {
                    self.at(RequestPhase::LookUpAgain)
                },
                _ => self.at(RequestPhase::Reply),
            },
        }
    }
}

/// A region upload being dealt with.
#[derive(Debug)]
pub struct IngestRequest {
    ingest_dir: FilePath,
    player: String,
    query: RegionQuery,
    phase: RequestPhase,
    known_before: bool,
    status: u16,
    message: Option<String>,
}

impl View for IngestRequest {
    type V = RequestState;

    closed spec fn view(&self) -> RequestState {
        RequestState {
            ingest_dir: self.ingest_dir@,
            player: self.player@,
            query: self.query,
            phase: self.phase,
            known_before: self.known_before,
            reply: (
                self.status as int,
                match self.message {
                    Some(m) => Some(m@),
                    None => None,
                },
            ),
        }
    }
}

/// Begins to deal with a region upload. `player` is who it is from; `known_dim`
/// is whether the dim is a dimension folder, `known_mw` whether the mw is a
/// multiworld folder; `no_caves` is whether the server takes no cave layers.
pub fn ingest_region(
    ingest_dir: FilePath,
    player: String,
    query: RegionQuery,
    known_dim: bool,
    known_mw: bool,
    no_caves: bool,
    body_len: usize,
) -> (r: IngestRequest)
    ensures
        r@ == RequestState::start(
            ingest_dir@,
            player@,
            query,
            turned_away(player@, query, known_dim, known_mw, no_caves, body_len as int),
        ),
{
    let verdict = let_in(player.as_str(), &query, known_dim, known_mw, no_caves, body_len);
    let mut r = IngestRequest {
        ingest_dir,
        player,
        query,
        phase: RequestPhase::Rate,
        known_before: false,
        status: 204,
        message: None,
    };
    if let Err(e) = verdict {
        r.answer(e.status, e.message);
    }
    r
}

impl IngestRequest {
    fn answer(&mut self, status: u16, message: String)
        ensures
            final(self)@ == old(self)@.answered(status as int, message@),
    {
        self.status = status;
        self.message = Some(message);
        self.phase = RequestPhase::Reply;
    }

    /// What the upload says it is.
    pub fn query(&self) -> (r: &RegionQuery)
        ensures
            *r == self@.query,
    {
        &self.query
    }

    fn file_below(&self, root: FilePath) -> (r: FilePath)
        ensures
            r@ == self@.file_below(root@),
    {
        let file = region_file_name(self.query.rx, self.query.rz, "zip");
        root.join_path(&layer_rel(&self.query)).join(file.as_str())
    }

    /// What to do next.
    pub fn action(&self) -> (r: RequestAction)
        ensures
            self@.asks(r),
    {
        match self.phase {
            RequestPhase::Rate => RequestAction::Charge,
            RequestPhase::LookUp => RequestAction::LookUp,
            RequestPhase::Store => RequestAction::Store,
            RequestPhase::Notify => {
                let mine = player_dir(&self.ingest_dir, self.player.as_str());
                let merged = merged_dir(&self.ingest_dir);
                RequestAction::Notify {
                    player_file: self.file_below(mine),
                    merged_file: self.file_below(merged),
                }
            },
            RequestPhase::Preview => RequestAction::ClearPreview {
                delay_ms: PREVIEW_DELAY_MS,
                rx: self.query.rx,
                rz: self.query.rz,
            },
            RequestPhase::LookUpAgain => RequestAction::LookUpAlone,
            RequestPhase::Rescan => RequestAction::Rescan,
            RequestPhase::Reply => {
                let message = match &self.message {
                    Some(m) => Some(m.clone()),
                    None => None,
                };
                RequestAction::Reply { status: self.status, message }
            },
        }
    }

    /// Whether `event` answers what [`IngestRequest::action`] asks for.
    pub fn accepts(&self, event: &RequestEvent) -> (r: bool)
        ensures
            r == self@.accepts(*event),
    {
        match self.phase {
            RequestPhase::Rate => matches!(event, RequestEvent::Charged(_)),
            RequestPhase::LookUp | RequestPhase::LookUpAgain => matches!(
                event,
                RequestEvent::Known(_)
            ),
            RequestPhase::Store => matches!(
                event,
                RequestEvent::Stored | RequestEvent::NotStored(_) | RequestEvent::StoreLost
            ),
            RequestPhase::Notify | RequestPhase::Preview | RequestPhase::Rescan => matches!(
                event,
                RequestEvent::Done
            ),
            RequestPhase::Reply => false,
        }
    }

    /// Takes what came of the action.
    pub fn step(&mut self, event: RequestEvent)
        requires
            old(self)@.accepts(event),
        ensures
            final(self)@ == old(self)@.after(event),
    {
        match event {
            RequestEvent::Charged(enough) => {
                if enough {
                    self.phase = RequestPhase::LookUp;
                } else {
                    self.answer(429, "rate limited".to_owned());
                }
            },
            RequestEvent::Known(known) => {
                if let RequestPhase::LookUp = self.phase {
                    self.known_before = known;
                    self.phase = RequestPhase::Store;
                } else if known {
                    self.phase = RequestPhase::Reply;
                } else {
                    self.phase = RequestPhase::Rescan;
                }
            },
            RequestEvent::Stored => {
                self.phase = RequestPhase::Notify;
            },
            RequestEvent::NotStored(e) => {
                self.answer(e.status, e.message);
            },
            RequestEvent::StoreLost => {
                self.answer(500, "store task failed".to_owned());
            },
            RequestEvent::Done => {
                self.phase = match self.phase {
                    RequestPhase::Notify => RequestPhase::Preview,
                    RequestPhase::Preview => if self.known_before {
                        RequestPhase::Reply
                    } else {
                        RequestPhase::LookUpAgain
                    },
                    _ => RequestPhase::Reply,
                };
            },
        }
    }
}

/// A request after all of `events`.
pub open spec fn run(from: RequestState, events: Seq<RequestEvent>) -> RequestState
    decreases events.len(),
{
    if events.len() == 0 {
        from
    } else {
        run(from, events.drop_last()).after(events.last())
    }
}

/// Every event answers what was asked for.
pub open spec fn answers(from: RequestState, events: Seq<RequestEvent>) -> bool
    decreases events.len(),
{
    events.len() == 0 || {
        &&& answers(from, events.drop_last())
        &&& run(from, events.drop_last()).accepts(events.last())
    }
}

/// A request that is turned away at the door is answered at once: nothing is
/// charged, looked up or stored for it.
pub proof fn law_refused_request_does_nothing(
    ingest_dir: Seq<Seq<u8>>,
    player: Seq<char>,
    query: RegionQuery,
    refusal: (int, Seq<char>),
    events: Seq<RequestEvent>,
)
    requires
        answers(RequestState::start(ingest_dir, player, query, Some(refusal)), events),
    ensures
        events.len() == 0,
        ({
            let s = RequestState::start(ingest_dir, player, query, Some(refusal));
            s.phase is Reply && s.reply == (refusal.0, Some(refusal.1))
        }),
    decreases events.len(),
{
    if events.len() > 0 {
        law_refused_request_does_nothing(
            ingest_dir,
            player,
            query,
            refusal,
            events.drop_last(),
        );
    }
}

/// The upload was stored.
pub open spec fn was_stored(events: Seq<RequestEvent>) -> bool {
    exists|i: int| 0 <= i < events.len() && (#[trigger] events[i]) is Stored
}

proof fn lemma_stored_push(events: Seq<RequestEvent>)
    requires
        events.len() > 0,
    ensures
        was_stored(events) <==> was_stored(events.drop_last()) || events.last() is Stored,
{
    let front = events.drop_last();
    if was_stored(front) {
        let i = choose|i: int| 0 <= i < front.len() && (#[trigger] front[i]) is Stored;
        assert(events[i] is Stored);
    }
    if events.last() is Stored {
        assert(events[events.len() - 1] is Stored);
    }
    if was_stored(events) && events.last() !is Stored {
        let i = choose|i: int| 0 <= i < events.len() && (#[trigger] events[i]) is Stored;
        assert(front[i] is Stored);
    }
}

/// The client is told of success exactly when the upload was stored; otherwise
/// it is told why not.
pub proof fn law_success_means_stored(
    ingest_dir: Seq<Seq<u8>>,
    player: Seq<char>,
    query: RegionQuery,
    events: Seq<RequestEvent>,
)
    requires
        answers(RequestState::start(ingest_dir, player, query, None), events),
    ensures
        ({
            let s = run(RequestState::start(ingest_dir, player, query, None), events);
            &&& s.phase is Reply && s.reply.1 is None ==> was_stored(events) && s.reply.0 == 204
            &&& was_stored(events) ==> s.reply == (204int, None::<Seq<char>>)
            &&& s.phase is Reply && !was_stored(events) ==> s.reply.1 is Some
            &&& s.phase !is Reply ==> s.reply == (204int, None::<Seq<char>>)
            &&& s.phase is Rate || s.phase is LookUp || s.phase is Store ==> !was_stored(events)
            &&& s.phase is Notify || s.phase is Preview || s.phase is LookUpAgain || s.phase
                is Rescan ==> was_stored(events)
        }),
    decreases events.len(),
{
    if events.len() > 0 {
        law_success_means_stored(ingest_dir, player, query, events.drop_last());
        lemma_stored_push(events);
    }
}

/// The roots are scanned anew only for a layer that was known neither before
/// the upload nor when its turn had come, so that a burst of uploads to a new
/// layer costs one scan.
pub proof fn law_rescan_only_for_unknown_layers(s: RequestState, event: RequestEvent)
    requires
        s.accepts(event),
        s.phase !is Rescan,
        s.after(event).phase is Rescan,
    ensures
        s.phase is LookUpAgain,
        event == RequestEvent::Known(false),
{
}

} // verus!
