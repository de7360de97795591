use vstd::prelude::*;

verus! {

/// Whether the transport is stopped, playing, or paused.
#[derive(Clone, Copy, PartialEq, Eq, Debug, Structural)]
pub enum PlayState {
    Stopped,
    Playing,
    Paused,
}

/// Playback transport state: a play/pause/stop state and the playhead
/// position in samples (frames). Because clips are pre-rendered sample
/// buffers, mixing at any position is a pure lookup, so every transport
/// operation is a plain state update.
pub struct Transport {
    state: PlayState,
    position_samples: u64,
}

impl Transport {
    pub closed spec fn spec_state(&self) -> PlayState {
        self.state
    }

    pub closed spec fn spec_position(&self) -> u64 {
        self.position_samples
    }

    /// A stopped transport with the playhead at the start.
    pub fn new() -> (t: Self)
        ensures
            t.spec_state() == PlayState::Stopped,
            t.spec_position() == 0,
    {
        Transport { state: PlayState::Stopped, position_samples: 0 }
    }

    pub fn play(&mut self)
        ensures
            final(self).spec_state() == PlayState::Playing,
            final(self).spec_position() == old(self).spec_position(),
    {
        self.state = PlayState::Playing;
    }

    pub fn pause(&mut self)
        ensures
            final(self).spec_state() == PlayState::Paused,
            final(self).spec_position() == old(self).spec_position(),
    {
        self.state = PlayState::Paused;
    }

    /// Stops playback and rewinds the playhead to the start.
    pub fn stop(&mut self)
        ensures
            final(self).spec_state() == PlayState::Stopped,
            final(self).spec_position() == 0,
    {
        self.state = PlayState::Stopped;
        self.position_samples = 0;
    }

    /// Moves the playhead, leaving the play state as it is.
    pub fn seek(&mut self, sample_pos: u64)
        ensures
            final(self).spec_state() == old(self).spec_state(),
            final(self).spec_position() == sample_pos,
    {
        self.position_samples = sample_pos;
    }

    pub fn is_playing(&self) -> (b: bool)
        ensures
            b == (self.spec_state() == PlayState::Playing),
    {
        match self.state {
            PlayState::Playing => true,
            _ => false,
        }
    }

    pub fn position(&self) -> (p: u64)
        ensures
            p == self.spec_position(),
    {
        self.position_samples
    }

    /// Advances the playhead by `frames` (wrapping around at the end of
    /// the `u64` range, as the position counter always has).
    pub fn advance(&mut self, frames: u64)
        ensures
            final(self).spec_state() == old(self).spec_state(),
            final(self).spec_position() == (old(self).spec_position() + frames) % 0x1_0000_0000_0000_0000,
    {
        self.position_samples = self.position_samples.wrapping_add(frames);
    }
}

impl Default for Transport {
    fn default() -> (t: Self)
        ensures
            t.spec_state() == PlayState::Stopped,
            t.spec_position() == 0,
    {
        Transport::new()
    }
}

/// One call that changes a transport: the operations a playback session
/// makes on it.
#[derive(Clone, Copy, PartialEq, Eq, Debug, Structural)]
pub enum TransportCall {
    Play,
    Pause,
    Stop,
    Seek(u64),
    Advance(u64),
}

/// The (play state, position) after `call`, from `state` and `pos`: what
/// the transport's methods each do.
pub open spec fn after_call(state: PlayState, pos: u64, call: TransportCall) -> (PlayState, u64) {
    match call {
        TransportCall::Play => (PlayState::Playing, pos),
        TransportCall::Pause => (PlayState::Paused, pos),
        TransportCall::Stop => (PlayState::Stopped, 0u64),
        TransportCall::Seek(p) => (state, p),
        TransportCall::Advance(f) => (state, ((pos + f) % 0x1_0000_0000_0000_0000) as u64),
    }
}

/// The (play state, position) after `calls` in order, from a new
/// transport.
pub open spec fn after_calls(calls: Seq<TransportCall>) -> (PlayState, u64)
    decreases calls.len(),
{
    if calls.len() == 0 {
        (PlayState::Stopped, 0u64)
    } else {
        let (state, pos) = after_calls(calls.drop_last());
        after_call(state, pos, calls.last())
    }
}

/// The state the last play, pause or stop among `calls` left (stopped when
/// there is none).
pub open spec fn last_mode(calls: Seq<TransportCall>) -> PlayState
    decreases calls.len(),
{
    if calls.len() == 0 {
        PlayState::Stopped
    } else {
        match calls.last() {
            TransportCall::Play => PlayState::Playing,
            TransportCall::Pause => PlayState::Paused,
            TransportCall::Stop => PlayState::Stopped,
            _ => last_mode(calls.drop_last()),
        }
    }
}

/// Where the last seek or stop among `calls` put the playhead (0 when
/// there is none), and how many frames were advanced after it.
pub open spec fn anchor_and_advance(calls: Seq<TransportCall>) -> (int, int)
    decreases calls.len(),
{
    if calls.len() == 0 {
        (0, 0)
    } else {
        let (anchor, advanced) = anchor_and_advance(calls.drop_last());
        match calls.last() {
            TransportCall::Stop => (0, 0),
            TransportCall::Seek(p) => (p as int, 0),
            TransportCall::Advance(f) => (anchor, advanced + f),
            _ => (anchor, advanced),
        }
    }
}

impl Transport {
    /// Makes `call` on this transport.
    pub fn apply(&mut self, call: TransportCall)
        ensures
            (final(self).spec_state(), final(self).spec_position()) == after_call(
                old(self).spec_state(),
                old(self).spec_position(),
                call,
            ),
    {
        match call {
            TransportCall::Play => self.play(),
            TransportCall::Pause => self.pause(),
            TransportCall::Stop => self.stop(),
            TransportCall::Seek(p) => self.seek(p),
            TransportCall::Advance(f) => self.advance(f),
        }
    }
}

/// Over any run of calls on a new transport: it is playing exactly when
/// the last play, pause or stop was a play (seeking and advancing never
/// change that), and the playhead sits where the last seek or stop put it
/// (the start when there was none) plus every frame advanced since,
/// wrapping at the end of the `u64` range.
pub proof fn lemma_transport_after_calls(calls: Seq<TransportCall>)
    ensures
        after_calls(calls).0 == last_mode(calls),
        after_calls(calls).1 == (anchor_and_advance(calls).0 + anchor_and_advance(calls).1) % 0x1_0000_0000_0000_0000,
        0 <= anchor_and_advance(calls).0 <= u64::MAX,
        0 <= anchor_and_advance(calls).1,
    decreases calls.len(),
{
    let m: int = 0x1_0000_0000_0000_0000;
    if calls.len() == 0 {
        vstd::arithmetic::div_mod::lemma_small_mod(0, m as nat);
    } else {
        let rest = calls.drop_last();
        lemma_transport_after_calls(rest);
        let (anchor, advanced) = anchor_and_advance(rest);
        let pos = after_calls(rest).1;
        match calls.last() {
            TransportCall::Stop => {
                vstd::arithmetic::div_mod::lemma_small_mod(0, m as nat);
            },
            TransportCall::Seek(p) => {
                vstd::arithmetic::div_mod::lemma_small_mod(p as nat, m as nat);
            },
            TransportCall::Advance(f) => {
                vstd::arithmetic::div_mod::lemma_small_mod(f as nat, m as nat);
                vstd::arithmetic::div_mod::lemma_add_mod_noop(anchor + advanced, f as int, m);
                vstd::arithmetic::div_mod::lemma_mod_twice(anchor + advanced, m);
                assert(((pos + f) % m) == (anchor + advanced + f) % m) by {
                    vstd::arithmetic::div_mod::lemma_add_mod_noop(pos as int, f as int, m);
                    vstd::arithmetic::div_mod::lemma_small_mod(pos as nat, m as nat);
                }
            },
            _ => {},
        }
    }
}

} // verus!
