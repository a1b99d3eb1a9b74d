//! Telemetry: an append-only record of the messages a synchronization
//! session exchanged, with the configured link bandwidths. A sink starts
//! ready, records events while running, and is latched by `finish` with the
//! final convergence check; later registrations are silently dropped.

use vstd::prelude::*;

verus! {

/// A link bandwidth in bits per second.
#[derive(Clone, Copy, Debug, PartialEq, Eq, Structural)]
pub struct Bandwidth {
    pub bits_per_sec: u64,
}

impl Bandwidth {
    /// A bandwidth from a raw bits-per-second figure.
    pub fn new(bits_per_sec: u64) -> (r: Self)
        ensures
            r.bits_per_sec == bits_per_sec,
    {
        Bandwidth { bits_per_sec }
    }

    /// The configured rate in bits per second.
    pub fn bits_per_sec(&self) -> (r: u64)
        ensures
            r == self.bits_per_sec,
    {
        self.bits_per_sec
    }
}

/// One recorded message: the payload and bookkeeping bytes it moved, and the
/// bandwidth of the link it crossed.
#[derive(Clone, Copy, Debug, PartialEq, Eq, Structural)]
pub enum DefaultEvent {
    LocalToRemote { state: usize, metadata: usize, upload: Bandwidth },
    RemoteToLocal { state: usize, metadata: usize, download: Bandwidth },
}

impl DefaultEvent {
    /// The useful payload bytes.
    pub open spec fn spec_state(&self) -> usize {
        match *self {
            DefaultEvent::LocalToRemote { state, .. } => state,
            DefaultEvent::RemoteToLocal { state, .. } => state,
        }
    }

    /// The sketch and bookkeeping bytes.
    pub open spec fn spec_metadata(&self) -> usize {
        match *self {
            DefaultEvent::LocalToRemote { metadata, .. } => metadata,
            DefaultEvent::RemoteToLocal { metadata, .. } => metadata,
        }
    }

    /// Whether the message travelled from the local to the remote replica.
    pub open spec fn is_upload(&self) -> bool {
        self is LocalToRemote
    }

    pub fn state(&self) -> (r: usize)
        ensures
            r == self.spec_state(),
    {
        match *self {
            DefaultEvent::LocalToRemote { state, .. } => state,
            DefaultEvent::RemoteToLocal { state, .. } => state,
        }
    }

    pub fn metadata(&self) -> (r: usize)
        ensures
            r == self.spec_metadata(),
    {
        match *self {
            DefaultEvent::LocalToRemote { metadata, .. } => metadata,
            DefaultEvent::RemoteToLocal { metadata, .. } => metadata,
        }
    }

    /// All bytes the message moved, saturating at the machine word.
    pub fn bytes(&self) -> (r: usize)
        ensures
            r == crate::decompose::clip_nat((self.spec_state() + self.spec_metadata()) as nat),
    {
        self.state().saturating_add(self.metadata())
    }

    /// The upload bandwidth of an outgoing message.
    pub fn upload(&self) -> (r: Bandwidth)
        requires
            self.is_upload(),
        ensures
            self matches DefaultEvent::LocalToRemote { upload, .. } ==> r == upload,
    {
        match *self {
            DefaultEvent::LocalToRemote { upload, .. } => upload,
            DefaultEvent::RemoteToLocal { download, .. } => download,
        }
    }

    /// The download bandwidth of an incoming message.
    pub fn download(&self) -> (r: Bandwidth)
        requires
            !self.is_upload(),
        ensures
            self matches DefaultEvent::RemoteToLocal { download, .. } ==> r == download,
    {
        match *self {
            DefaultEvent::LocalToRemote { upload, .. } => upload,
            DefaultEvent::RemoteToLocal { download, .. } => download,
        }
    }
}

/// What a synchronization session expects of its telemetry sink.
pub trait Telemetry: Sized {
    type Event;

    /// The events recorded so far.
    spec fn recorded(&self) -> Seq<Self::Event>;

    /// The latched convergence figure, once `finish` has run.
    spec fn outcome(&self) -> Option<usize>;

    /// The configured link bandwidths (download, upload).
    spec fn rates(&self) -> (Bandwidth, Bandwidth);

    /// Fresh: nothing recorded, not finished.
    open spec fn ready(&self) -> bool {
        self.recorded().len() == 0 && self.outcome() is None
    }

    fn is_ready(&self) -> (r: bool)
        ensures
            r == self.ready(),
    ;

    /// Appends an event; a no-op once finished.
    fn register(&mut self, event: Self::Event)
        ensures
            old(self).outcome() is None ==> final(self).recorded() == old(self).recorded().push(
                event,
            ),
            old(self).outcome() is Some ==> *final(self) == *old(self),
            final(self).outcome() == old(self).outcome(),
            final(self).rates() == old(self).rates(),
    ;

    fn events(&self) -> (r: &Vec<Self::Event>)
        ensures
            r@ == self.recorded(),
    ;

    /// Latches the final convergence figure; a no-op once finished.
    fn finish(&mut self, false_matches: usize)
        ensures
            old(self).outcome() is None ==> final(self).outcome() == Some(false_matches),
            old(self).outcome() is Some ==> *final(self) == *old(self),
            final(self).recorded() == old(self).recorded(),
            final(self).rates() == old(self).rates(),
    ;

    fn false_matches(&self) -> (r: usize)
        requires
            self.outcome() is Some,
        ensures
            Some(r) == self.outcome(),
    ;
}

/// The default sink: an event list, the latched figure, and the two link
/// bandwidths of the session.
#[derive(Debug)]
pub struct DefaultTracker {
    events: Vec<DefaultEvent>,
    diffs: Option<usize>,
    download: Bandwidth,
    upload: Bandwidth,
}

impl DefaultTracker {
    pub fn new(download: Bandwidth, upload: Bandwidth) -> (r: Self)
        ensures
            r.ready(),
            r.download_spec() == download,
            r.upload_spec() == upload,
    {
        DefaultTracker { events: Vec::new(), diffs: None, download, upload }
    }

    /// The configured download bandwidth.
    pub open spec fn download_spec(&self) -> Bandwidth {
        self.rates().0
    }

    /// The configured upload bandwidth.
    pub open spec fn upload_spec(&self) -> Bandwidth {
        self.rates().1
    }

    pub fn download(&self) -> (r: Bandwidth)
        ensures
            r == self.download_spec(),
    {
        self.download
    }

    pub fn upload(&self) -> (r: Bandwidth)
        ensures
            r == self.upload_spec(),
    {
        self.upload
    }
}

impl Telemetry for DefaultTracker {
    type Event = DefaultEvent;

    closed spec fn recorded(&self) -> Seq<DefaultEvent> {
        self.events@
    }

    closed spec fn outcome(&self) -> Option<usize> {
        self.diffs
    }

    closed spec fn rates(&self) -> (Bandwidth, Bandwidth) {
        (self.download, self.upload)
    }

    fn is_ready(&self) -> (r: bool) {
        self.events.len() == 0 && self.diffs.is_none()
    }

    fn register(&mut self, event: DefaultEvent) {
        if self.diffs.is_none() {
            self.events.push(event);
        }
    }

    fn events(&self) -> (r: &Vec<DefaultEvent>) {
        &self.events
    }

    fn finish(&mut self, false_matches: usize) {
        if self.diffs.is_none() {
            self.diffs = Some(false_matches);
        }
    }

    fn false_matches(&self) -> (r: usize) {
        match self.diffs {
            Some(d) => d,
            None => 0,
        }
    }
}

} // verus!
