//! Storing one upload: validate by a full decode, back up verbatim, merge into
//! the shared tree.
//!
//! [`StoreUpload`] reads and writes nothing of its own:
//! [`StoreUpload::action`] says what to do next, and [`StoreUpload::step`]
//! takes what came of it. From the moment the merged tree is probed until the
//! upload is finished, no other upload may touch that tree: two uploads of the
//! same region must not interleave.

use vstd::prelude::*;
use crate::ingest::{encoded, is_zip, layer_names, layer_rel, merged_root, places_region};
use crate::ingest::{has_zip_magic, merged_dir, place_region, player_dir, player_root};
use crate::ingest::{write_region_file, RegionQuery, RegionWrite};
use crate::ingest::{is_safe, is_safe_name, staging_name, turned_away};
use crate::ingest::{law_admitted_upload_has_safe_names, law_region_files_have_safe_names};
use crate::ingest::{refusal_text, Refusal};
use crate::paths::{joined, FilePath};
use crate::regions::{extension, region_file_name, region_name};

verus! {

/// How far an upload has come.
#[derive(Debug, Clone, Copy, PartialEq, Eq, Structural)]
pub enum UploadPhase {
    /// The bytes are decoded.
    Decode,
    /// The player's backup is written.
    Backup,
    /// A merged file is looked for.
    Probe,
    /// The merged file is read; `zip` tells which one.
    Load { zip: bool },
    /// The upload is written as the merged file.
    Verbatim,
    /// The upload is merged over what was already merged.
    Merge,
    /// The merged region is written.
    Merged,
    Finished,
}

impl UploadPhase {
    /// The action of this phase writes a region file.
    pub open spec fn writes(self) -> bool {
        self is Backup || self is Verbatim || self is Merged
    }

    /// The merged tree is looked at or changed in this phase.
    pub open spec fn touches_merged(self) -> bool {
        self is Probe || self is Load || self is Verbatim || self is Merge || self is Merged
    }
}

/// What is written.
#[derive(Debug, Clone, Copy, PartialEq, Eq, Structural)]
pub enum Content {
    /// The uploaded bytes, verbatim.
    Upload,
    /// The merged container.
    Merged,
}

/// What to do next.
#[derive(Debug)]
pub enum UploadAction {
    /// Decode the uploaded bytes.
    Decode,
    /// Put a region file in place.
    Write { place: RegionWrite, content: Content },
    /// Tell which of the two files is there.
    Probe { zip: FilePath, xaero: FilePath },
    /// Read and decode the file.
    Load { path: FilePath },
    /// Merge the upload over the file that was read, encode the outcome, decode
    /// that once more as a self-check, and pack it.
    Merge,
    /// Nothing is left to do.
    Finish,
}

/// What came of an action.
#[derive(Debug)]
pub enum UploadEvent {
    Decoded { truncated: bool },
    /// The container cannot be read.
    Unreadable(String),
    /// The region does not decode.
    Undecodable(String),
    Wrote,
    WriteFailed(String),
    Probed { zip: bool, xaero: bool },
    /// Whether the file was read and decoded.
    Loaded(bool),
    /// The merged region, packed.
    Merged(Vec<u8>),
    SelfCheckFailed(String),
    PackFailed(String),
}

/// Where an upload stands.
pub struct UploadState {
    pub ingest_dir: Seq<Seq<u8>>,
    pub player: Seq<char>,
    pub query: RegionQuery,
    /// The uploaded container is a zip.
    pub zip: bool,
    pub phase: UploadPhase,
    /// The merged container.
    pub container: Seq<u8>,
    /// Why the upload was turned away.
    pub refusal: Option<(int, Seq<char>)>,
}

impl UploadState {
    /// An upload of which nothing is known.
    pub open spec fn start(
        ingest_dir: Seq<Seq<u8>>,
        player: Seq<char>,
        query: RegionQuery,
        zip: bool,
    ) -> UploadState {
        UploadState {
            ingest_dir,
            player,
            query,
            zip,
            phase: UploadPhase::Decode,
            container: Seq::empty(),
            refusal: None,
        }
    }

    /// Where the player's backup goes.
    pub open spec fn backup_dir(self) -> Seq<Seq<u8>> {
        player_root(self.ingest_dir, self.player) + encoded(layer_names(self.query))
    }

    /// Where the merged region goes.
    pub open spec fn merged_dir(self) -> Seq<Seq<u8>> {
        merged_root(self.ingest_dir) + encoded(layer_names(self.query))
    }

    /// A file of the merged region.
    pub open spec fn merged_file(self, zip: bool) -> Seq<Seq<u8>> {
        joined(
            self.merged_dir(),
            region_name(self.query.rx as int, self.query.rz as int, extension(zip)),
        )
    }

    /// `a` is what to do next.
    pub open spec fn asks(self, a: UploadAction) -> bool {
        let rx = self.query.rx as int;
        let rz = self.query.rz as int;
        match self.phase {
            UploadPhase::Decode => a is Decode,
            UploadPhase::Backup => a matches UploadAction::Write { place, content } && content
                is Upload && places_region(place, self.backup_dir(), rx, rz, self.zip),
            UploadPhase::Probe => a matches UploadAction::Probe { zip, xaero } && zip@
                == self.merged_file(true) && xaero@ == self.merged_file(false),
            UploadPhase::Load { zip } => a matches UploadAction::Load { path } && path@
                == self.merged_file(zip),
            UploadPhase::Verbatim => a matches UploadAction::Write { place, content } && content
                is Upload && places_region(place, self.merged_dir(), rx, rz, self.zip),
            UploadPhase::Merge => a is Merge,
            UploadPhase::Merged => a matches UploadAction::Write { place, content } && content
                is Merged && places_region(place, self.merged_dir(), rx, rz, is_zip(
                self.container,
            )),
            UploadPhase::Finished => a is Finish,
        }
    }

    /// `event` answers what the phase asks for.
    pub open spec fn accepts(self, event: UploadEvent) -> bool {
        match self.phase {
            UploadPhase::Decode => event is Decoded || event is Unreadable || event is Undecodable,
            UploadPhase::Backup | UploadPhase::Verbatim | UploadPhase::Merged => event is Wrote
                || event is WriteFailed,
            UploadPhase::Probe => event is Probed,
            UploadPhase::Load { .. } => event is Loaded,
            UploadPhase::Merge => event is Merged || event is SelfCheckFailed || event
                is PackFailed,
            UploadPhase::Finished => false,
        }
    }

    /// The same, in another phase.
    pub open spec fn at(self, phase: UploadPhase) -> UploadState {
        UploadState { phase, ..self }
    }

    /// The upload is turned away.
    pub open spec fn refused(self, status: int, message: Seq<char>) -> UploadState {
        UploadState { refusal: Some((status, message)), phase: UploadPhase::Finished, ..self }
    }

    /// Where `event` leads.
    pub open spec fn after(self, event: UploadEvent) -> UploadState {
        match event {
            UploadEvent::Unreadable(e) => self.refused(400, "unreadable region container: "@ + e@),
            UploadEvent::Undecodable(e) => self.refused(400, "region does not decode: "@ + e@),
            // The client has the complete file; a short read means it caught
            // the game mid-write. Rejecting makes it retry after the file
            // settles.
            UploadEvent::Decoded { truncated } => if truncated {
                self.refused(400, "region is truncated — retry after the file settles"@)
            } else {
                self.at(UploadPhase::Backup)
            },
            UploadEvent::Wrote => if self.phase is Backup {
                self.at(UploadPhase::Probe)
            } else {
                self.at(UploadPhase::Finished)
            },
            UploadEvent::WriteFailed(e) => self.refused(500, e@),
            UploadEvent::Probed { zip, xaero } => if zip {
                self.at(UploadPhase::Load { zip: true })
            } else if xaero {
                self.at(UploadPhase::Load { zip: false })
            } else {
                self.at(UploadPhase::Verbatim)
            },
            // An unreadable merged file (torn write from a crash) must not
            // wedge the coordinate forever: fall through to a fresh verbatim
            // copy.
            UploadEvent::Loaded(readable) => if readable {
                self.at(UploadPhase::Merge)
            } else {
                self.at(UploadPhase::Verbatim)
            },
            UploadEvent::Merged(container) => UploadState {
                container: container@,
                phase: UploadPhase::Merged,
                ..self
            },
            UploadEvent::SelfCheckFailed(e) => self.refused(500, "merge self-check: "@ + e@),
            UploadEvent::PackFailed(e) => self.refused(500, "zip: "@ + e@),
        }
    }
}

/// An upload being stored.
#[derive(Debug)]
pub struct StoreUpload {
    ingest_dir: FilePath,
    player: String,
    query: RegionQuery,
    zip: bool,
    phase: UploadPhase,
    container: Vec<u8>,
    refusal: Option<Refusal>,
}

impl View for StoreUpload {
    type V = UploadState;

    closed spec fn view(&self) -> UploadState {
        UploadState {
            ingest_dir: self.ingest_dir@,
            player: self.player@,
            query: self.query,
            zip: self.zip,
            phase: self.phase,
            container: self.container@,
            refusal: match self.refusal {
                Some(r) => Some(refusal_text(r)),
                None => None,
            },
        }
    }
}

/// Begins to store the region `bytes` that `player` uploaded.
pub fn store_upload(ingest_dir: FilePath, player: String, query: RegionQuery, bytes: &[u8]) -> (r:
    StoreUpload)
    ensures
        r@ == UploadState::start(ingest_dir@, player@, query, is_zip(bytes@)),
{
    let zip = has_zip_magic(bytes);
    let r = StoreUpload {
        ingest_dir,
        player,
        query,
        zip,
        phase: UploadPhase::Decode,
        container: Vec::new(),
        refusal: None,
    };
    assert(r@.container =~= Seq::<u8>::empty());
    r
}

fn prefixed(prefix: &str, e: &String) -> (r: String)
    ensures
        r@ == prefix@ + e@,
{
    let mut message = prefix.to_owned();
    message.append(e.as_str());
    message
}

impl StoreUpload {
    fn merged_path(&self) -> (r: FilePath)
        ensures
            r@ == self@.merged_dir(),
    {
        merged_dir(&self.ingest_dir).join_path(&layer_rel(&self.query))
    }

    /// What to do next.
    pub fn action(&self) -> (r: UploadAction)
        ensures
            self@.asks(r),
    {
        let q = &self.query;
        match self.phase {
            UploadPhase::Decode => UploadAction::Decode,
            UploadPhase::Backup => {
                let dir = player_dir(&self.ingest_dir, self.player.as_str()).join_path(
                    &layer_rel(q),
                );
                let place = place_region(&dir, q.rx, q.rz, self.zip);
                UploadAction::Write { place, content: Content::Upload }
            },
            UploadPhase::Probe => {
                let dir = self.merged_path();
                UploadAction::Probe {
                    zip: dir.join(region_file_name(q.rx, q.rz, "zip").as_str()),
                    xaero: dir.join(region_file_name(q.rx, q.rz, "xaero").as_str()),
                }
            },
            UploadPhase::Load { zip } => {
                let ext = if zip {
                    "zip"
                } else {
                    "xaero"
                };
                let path = self.merged_path().join(region_file_name(q.rx, q.rz, ext).as_str());
                UploadAction::Load { path }
            },
            UploadPhase::Verbatim => {
                let place = place_region(&self.merged_path(), q.rx, q.rz, self.zip);
                UploadAction::Write { place, content: Content::Upload }
            },
            UploadPhase::Merge => UploadAction::Merge,
            UploadPhase::Merged => {
                let place = write_region_file(
                    &self.merged_path(),
                    q.rx,
                    q.rz,
                    self.container.as_slice(),
                );
                UploadAction::Write { place, content: Content::Merged }
            },
            UploadPhase::Finished => UploadAction::Finish,
        }
    }

    /// Whether `event` answers what [`StoreUpload::action`] asks for.
    pub fn accepts(&self, event: &UploadEvent) -> (r: bool)
        ensures
            r == self@.accepts(*event),
    {
        match self.phase {
            UploadPhase::Decode => matches!(
                event,
                UploadEvent::Decoded { .. } | UploadEvent::Unreadable(_) | UploadEvent::Undecodable(
                    _,
                )
            ),
            UploadPhase::Backup | UploadPhase::Verbatim | UploadPhase::Merged => matches!(
                event,
                UploadEvent::Wrote | UploadEvent::WriteFailed(_)
            ),
            UploadPhase::Probe => matches!(event, UploadEvent::Probed { .. }),
            UploadPhase::Load { .. } => matches!(event, UploadEvent::Loaded(_)),
            UploadPhase::Merge => matches!(
                event,
                UploadEvent::Merged(_) | UploadEvent::SelfCheckFailed(_) | UploadEvent::PackFailed(_)
            ),
            UploadPhase::Finished => false,
        }
    }

    fn refuse(&mut self, status: u16, message: String)
        ensures
            final(self)@ == old(self)@.refused(status as int, message@),
    {
        self.refusal = Some(Refusal { status, message });
        self.phase = UploadPhase::Finished;
    }

    /// Takes what came of the action.
    pub fn step(&mut self, event: UploadEvent)
        requires
            old(self)@.accepts(event),
        ensures
            final(self)@ == old(self)@.after(event),
    {
        match event {
            UploadEvent::Unreadable(e) => self.refuse(
                400,
                prefixed("unreadable region container: ", &e),
            ),
            UploadEvent::Undecodable(e) => self.refuse(
                400,
                prefixed("region does not decode: ", &e),
            ),
            UploadEvent::Decoded { truncated } => {
                if truncated {
                    self.refuse(
                        400,
                        "region is truncated — retry after the file settles".to_owned(),
                    );
                } else {
                    self.phase = UploadPhase::Backup;
                }
            },
            UploadEvent::Wrote => {
                self.phase = match self.phase {
                    UploadPhase::Backup => UploadPhase::Probe,
                    _ => UploadPhase::Finished,
                };
            },
            UploadEvent::WriteFailed(e) => self.refuse(500, e),
            UploadEvent::Probed { zip, xaero } => {
                self.phase = if zip {
                    UploadPhase::Load { zip: true }
                } else if xaero {
                    UploadPhase::Load { zip: false }
                } else {
                    UploadPhase::Verbatim
                };
            },
            UploadEvent::Loaded(readable) => {
                self.phase = if readable {
                    UploadPhase::Merge
                } else {
                    UploadPhase::Verbatim
                };
            },
            UploadEvent::Merged(container) => {
                self.container = container;
                self.phase = UploadPhase::Merged;
            },
            UploadEvent::SelfCheckFailed(e) => self.refuse(
                500,
                prefixed("merge self-check: ", &e),
            ),
            UploadEvent::PackFailed(e) => self.refuse(500, prefixed("zip: ", &e)),
        }
    }

    /// The merged container, once there is one.
    pub fn container(&self) -> (r: &Vec<u8>)
        ensures
            r@ == self@.container,
    {
        &self.container
    }

    /// Whether nothing is left to do.
    pub fn is_finished(&self) -> (r: bool)
        ensures
            r == (self@.phase is Finished),
    {
        matches!(self.phase, UploadPhase::Finished)
    }

    /// What storing the upload came to.
    pub fn finish(self) -> (r: Result<(), Refusal>)
        requires
            self@.phase is Finished,
        ensures
            match r {
                Ok(_) => self@.refusal is None,
                Err(e) => self@.refusal == Some(refusal_text(e)),
            },
    {
        match self.refusal {
            Some(e) => Err(e),
            None => Ok(()),
        }
    }
}

/// An upload after all of `events`.
pub open spec fn run(from: UploadState, events: Seq<UploadEvent>) -> UploadState
    decreases events.len(),
{
    if events.len() == 0 {
        from
    } else {
        run(from, events.drop_last()).after(events.last())
    }
}

/// Every event answers what was asked for.
pub open spec fn answers(from: UploadState, events: Seq<UploadEvent>) -> bool
    decreases events.len(),
{
    events.len() == 0 || {
        &&& answers(from, events.drop_last())
        &&& run(from, events.drop_last()).accepts(events.last())
    }
}

/// What has been written so far: how many region files in the player's tree,
/// and how many in the merged one.
pub open spec fn written(from: UploadState, events: Seq<UploadEvent>) -> (int, int)
    decreases events.len(),
{
    if events.len() == 0 {
        (0, 0)
    } else {
        let before = written(from, events.drop_last());
        let phase = run(from, events.drop_last()).phase;
        if events.last() !is Wrote {
            before
        } else if phase is Backup {
            (before.0 + 1, before.1)
        } else {
            (before.0, before.1 + 1)
        }
    }
}

proof fn lemma_progress(from: UploadState, events: Seq<UploadEvent>)
    requires
        from.phase is Decode,
        from.refusal is None,
        answers(from, events),
    ensures
        ({
            let s = run(from, events);
            let w = written(from, events);
            &&& 0 <= w.1 <= w.0 <= 1
            &&& s.phase !is Finished ==> s.refusal is None
            &&& s.phase is Decode || s.phase is Backup ==> w == (0int, 0int)
            &&& s.phase.touches_merged() ==> w == (1int, 0int)
            &&& s.phase is Finished ==> match s.refusal {
                None => w == (1int, 1int),
                Some((status, _)) => {
                    &&& status == 400 || status == 500
                    &&& status == 400 ==> w == (0int, 0int)
                    &&& w.1 == 0
                },
            }
        }),
    decreases events.len(),
{
    if events.len() > 0 {
        lemma_progress(from, events.drop_last());
    }
}

/// An upload that is turned away as unreadable, undecodable or truncated has
/// written nothing.
pub proof fn law_rejected_upload_writes_nothing(from: UploadState, events: Seq<UploadEvent>)
    requires
        from.phase is Decode,
        from.refusal is None,
        answers(from, events),
        run(from, events).refusal matches Some((status, _)) && status == 400,
    ensures
        written(from, events) == (0int, 0int),
{
    lemma_progress(from, events);
}

/// An upload that is stored has been written twice: once as the player's
/// backup, once to the merged tree. Whatever fails, the merged tree is not
/// written before the backup is.
pub proof fn law_stored_upload_is_written_twice(from: UploadState, events: Seq<UploadEvent>)
    requires
        from.phase is Decode,
        from.refusal is None,
        answers(from, events),
    ensures
        run(from, events).phase is Finished && run(from, events).refusal is None ==> written(
            from,
            events,
        ) == (1int, 1int),
        run(from, events).refusal is Some ==> written(from, events).1 == 0,
        written(from, events).1 <= written(from, events).0 <= 1,
{
    lemma_progress(from, events);
}

/// Whatever is written has a path that begins with the names of the ingest
/// dir. That the names behind them lead no way out again is
/// [`law_admitted_upload_is_written_under_safe_names`].
pub proof fn law_writes_stay_in_the_ingest_dir(s: UploadState, a: UploadAction)
    requires
        s.asks(a),
        a is Write,
    ensures
        ({
            let place = a->place;
            &&& s.ingest_dir.is_prefix_of(place.write.dir@)
            &&& s.ingest_dir.is_prefix_of(place.write.tmp@)
            &&& s.ingest_dir.is_prefix_of(place.write.dst@)
            &&& s.ingest_dir.is_prefix_of(place.stale@)
        }),
{
    assert(s.ingest_dir.is_prefix_of(s.backup_dir()));
    assert(s.ingest_dir.is_prefix_of(s.merged_dir()));
}

/// The names of `path` behind those of `base` encode safe segments.
pub open spec fn goes_safely_below(base: Seq<Seq<u8>>, path: Seq<Seq<u8>>) -> bool {
    &&& base.is_prefix_of(path)
    &&& forall|i: int| base.len() <= i < path.len() ==> is_safe_name(#[trigger] path[i])
}

proof fn lemma_layer_goes_safely_below(
    base: Seq<Seq<u8>>,
    root: Seq<Seq<u8>>,
    q: RegionQuery,
    name: Seq<char>,
)
    requires
        goes_safely_below(base, root),
        forall|i: int| 0 <= i < layer_names(q).len() ==> is_safe(#[trigger] layer_names(q)[i]),
        is_safe(name),
    ensures
        goes_safely_below(base, joined(root + encoded(layer_names(q)), name)),
{
    let path = joined(root + encoded(layer_names(q)), name);
    assert forall|i: int| base.len() <= i < path.len() implies is_safe_name(
        #[trigger] path[i],
    ) by {
        if i < root.len() {
            assert(path[i] == root[i]);
        } else if i < path.len() - 1 {
            assert(is_safe(layer_names(q)[i - root.len()]));
        }
    }
}

/// What an upload that is let in writes, makes on the way and drops goes below
/// the ingest dir and stays there: every name behind the ingest dir is a safe
/// segment.
pub proof fn law_admitted_upload_is_written_under_safe_names(
    s: UploadState,
    a: UploadAction,
    known_dim: bool,
    known_mw: bool,
    no_caves: bool,
    body_len: usize,
)
    requires
        s.asks(a),
        a is Write,
        turned_away(s.player, s.query, known_dim, known_mw, no_caves, body_len as int) is None,
    ensures
        goes_safely_below(s.ingest_dir, a->place.write.tmp@),
        goes_safely_below(s.ingest_dir, a->place.write.dst@),
        goes_safely_below(s.ingest_dir, a->place.stale@),
{
    let q = s.query;
    law_admitted_upload_has_safe_names(s.player, q, known_dim, known_mw, no_caves, body_len);
    reveal_strlit("players");
    reveal_strlit("merged");
    assert(is_safe("players"@) && is_safe("merged"@));
    let root = if s.phase is Backup {
        player_root(s.ingest_dir, s.player)
    } else {
        merged_root(s.ingest_dir)
    };
    assert(goes_safely_below(s.ingest_dir, root));
    let zip = if s.phase is Merged {
        is_zip(s.container)
    } else {
        s.zip
    };
    let name = region_name(q.rx as int, q.rz as int, extension(zip));
    law_region_files_have_safe_names(q.rx, q.rz, zip);
    law_region_files_have_safe_names(q.rx, q.rz, !zip);
    lemma_layer_goes_safely_below(s.ingest_dir, root, q, name);
    lemma_layer_goes_safely_below(s.ingest_dir, root, q, staging_name(name));
    lemma_layer_goes_safely_below(
        s.ingest_dir,
        root,
        q,
        region_name(q.rx as int, q.rz as int, extension(!zip)),
    );
}

/// A merged file that cannot be read does not block its coordinate: the upload
/// takes its place.
pub proof fn law_unreadable_merged_file_is_replaced(s: UploadState)
    requires
        s.phase is Load,
    ensures
        s.after(UploadEvent::Loaded(false)).phase is Verbatim,
        s.after(UploadEvent::Loaded(false)).refusal == s.refusal,
{
}

} // verus!
