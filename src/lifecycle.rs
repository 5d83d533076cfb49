use vstd::prelude::*;

use crate::stations::StopPointDetails;

verus! {

/// Where the store stands in the service's life.
#[derive(Clone, Copy, Debug, PartialEq, Eq, Structural)]
pub enum StoreState {
    Unopened,
    Open,
    Failed,
    Closed,
}

/// Opens the store when the service starts and releases it when the service
/// stops.
#[derive(Debug)]
pub struct StoreFairing {
    state: StoreState,
}

impl View for StoreFairing {
    type V = StoreState;

    closed spec fn view(&self) -> StoreState {
        self.state
    }
}

impl StoreFairing {
    /// A fairing whose store is not opened yet.
    pub fn new() -> (r: Self)
        ensures
            r@ == StoreState::Unopened,
    {
        StoreFairing { state: StoreState::Unopened }
    }

    /// Where the store stands.
    pub fn state(&self) -> (r: StoreState)
        ensures
            r == self@,
    {
        self.state
    }

    /// At start-up, with `opened` telling whether the store could be opened:
    /// whether the service goes on. Only the first start-up counts.
    pub fn on_ignite(&mut self, opened: bool) -> (go_on: bool)
        ensures
            old(self)@ == StoreState::Unopened ==> go_on == opened && final(self)@ == if opened {
                StoreState::Open
            } else {
                StoreState::Failed
            },
            old(self)@ != StoreState::Unopened ==> !go_on && final(self)@ == old(self)@,
    {
        match self.state {
            StoreState::Unopened => {
                self.state = if opened {
                    StoreState::Open
                } else {
                    StoreState::Failed
                };
                opened
            },
            _ => false,
        }
    }

    /// At shutdown: whether the store's connections are to be released now,
    /// which happens once, for an open store.
    pub fn on_shutdown(&mut self) -> (release: bool)
        ensures
            release == (old(self)@ == StoreState::Open),
            final(self)@ == if release {
                StoreState::Closed
            } else {
                old(self)@
            },
    {
        match self.state {
            StoreState::Open => {
                self.state = StoreState::Closed;
                true
            },
            _ => false,
        }
    }
}

/// Starts the background work, the poller and the loading of station details,
/// once the service is up.
#[derive(Debug)]
pub struct TflFairing {
    started: bool,
}

impl View for TflFairing {
    type V = bool;

    /// Whether the background work has been started.
    closed spec fn view(&self) -> bool {
        self.started
    }
}

impl TflFairing {
    /// A fairing that has started nothing yet.
    pub fn new() -> (r: Self)
        ensures
            !r@,
    {
        TflFairing { started: false }
    }

    /// Once the service is up: whether the background work is to be started now.
    /// It starts once.
    pub fn on_liftoff(&mut self) -> (start: bool)
        ensures
            start == !old(self)@,
            final(self)@,
    {
        let start = !self.started;
        self.started = true;
        start
    }
}

/// How far the station details have come.
#[derive(Debug)]
pub enum LoadState {
    NotLoaded,
    Loading,
    Loaded(Vec<StopPointDetails>),
    Failed(String),
}

/// What a request for the station details gets.
#[derive(Debug)]
pub enum DetailsRequest {
    /// The details, loaded earlier.
    Ready(Vec<StopPointDetails>),
    /// A load is under way; the caller is to try again later.
    Busy,
    /// No details are at hand: the caller is to load them, then report with
    /// `finish_load`.
    Load,
}

/// The station details, loaded once on demand and kept.
#[derive(Debug)]
pub struct LoadedStationDetails {
    state: LoadState,
}

/// A copy of a stop point.
fn copy_details(p: &StopPointDetails) -> (r: StopPointDetails)
    ensures
        r == *p,
{
    let naptan = match &p.station_naptan {
        Some(n) => Some(n.clone()),
        None => None,
    };
    StopPointDetails { id: p.id.clone(), common_name: p.common_name.clone(), station_naptan: naptan }
}

impl LoadedStationDetails {
    /// How far the details have come.
    pub closed spec fn load_state(&self) -> LoadState {
        self.state
    }

    /// Nothing loaded yet.
    pub fn new() -> (r: Self)
        ensures
            r.load_state() is NotLoaded,
    {
        LoadedStationDetails { state: LoadState::NotLoaded }
    }

    /// A request for the details: loaded ones are handed out, a load under way
    /// makes the caller wait, and otherwise (nothing loaded, or the last load
    /// failed) a load begins.
    pub fn get_details(&mut self) -> (r: DetailsRequest)
        ensures
            match old(self).load_state() {
                LoadState::Loaded(d) => r matches DetailsRequest::Ready(v) && v@ == d@
                    && final(self).load_state() == old(self).load_state(),
                LoadState::Loading => r is Busy && final(self).load_state() is Loading,
                _ => r is Load && final(self).load_state() is Loading,
            },
    {
        match &self.state {
            LoadState::Loaded(d) => {
                let mut out: Vec<StopPointDetails> = Vec::new();
                let mut i: usize = 0;
                while i < d.len()
                    invariant
                        i <= d@.len(),
                        out@ == d@.take(i as int),
                    decreases d@.len() - i,
                {
                    out.push(copy_details(&d[i]));
                    assert(out@ =~= d@.take(i as int + 1));
                    i += 1;
                }
                assert(d@.take(d@.len() as int) =~= d@);
                DetailsRequest::Ready(out)
            },
            LoadState::Loading => DetailsRequest::Busy,
            _ => {
                self.state = LoadState::Loading;
                DetailsRequest::Load
            },
        }
    }

    /// Records how a load ended: the details, or why it failed.
    pub fn finish_load(&mut self, result: Result<Vec<StopPointDetails>, String>)
        ensures
            match result {
                Ok(d) => final(self).load_state() == LoadState::Loaded(d),
                Err(e) => final(self).load_state() == LoadState::Failed(e),
            },
    {
        self.state = match result {
            Ok(d) => LoadState::Loaded(d),
            Err(e) => LoadState::Failed(e),
        };
    }
}

} // verus!
