use vstd::prelude::*;

verus! {

/// The state of the Wi-Fi link of the tracker.
#[derive(Debug, Clone, Copy, PartialEq, Eq, Structural)]
pub enum ConnectionState {
    Disconnected,
    Connecting,
    Connected,
}

impl ConnectionState {
    /// The number under which a state is stored: 1, 2 and 3 in the order of
    /// the variants.
    pub open spec fn spec_code(self) -> usize {
        match self {
            ConnectionState::Disconnected => 1,
            ConnectionState::Connecting => 2,
            ConnectionState::Connected => 3,
        }
    }

    pub fn code(self) -> (r: usize)
        ensures
            r == self.spec_code(),
    {
        match self {
            ConnectionState::Disconnected => 1,
            ConnectionState::Connecting => 2,
            ConnectionState::Connected => 3,
        }
    }

    /// The state stored under a number; `None` for a number that no state has.
    pub fn from_code(val: usize) -> (r: Option<ConnectionState>)
        ensures
            r is Some <==> 1 <= val <= 3,
            r matches Some(s) ==> s.spec_code() == val,
    {
        if val == 2 {
            Some(ConnectionState::Connecting)
        } else if val == 3 {
            Some(ConnectionState::Connected)
        } else if val == 1 {
            Some(ConnectionState::Disconnected)
        } else {
            None
        }
    }
}

/// The state of the Wi-Fi station as the radio driver reports it.
#[derive(Debug, Clone, Copy, PartialEq, Eq, Structural)]
pub enum WifiStaState {
    Started,
    Connected,
    Disconnected,
    Stopped,
    Invalid,
}

/// The link state that a station state shows: connected when connected,
/// connecting once started, disconnected otherwise.
pub open spec fn link_state(s: WifiStaState) -> ConnectionState {
    match s {
        WifiStaState::Connected => ConnectionState::Connected,
        WifiStaState::Started => ConnectionState::Connecting,
        _ => ConnectionState::Disconnected,
    }
}

impl From<WifiStaState> for ConnectionState {
    fn from(value: WifiStaState) -> (r: Self) {
        match value {
            WifiStaState::Connected => ConnectionState::Connected,
            WifiStaState::Started => ConnectionState::Connecting,
            _ => ConnectionState::Disconnected,
        }
    }
}

impl vstd::std_specs::convert::FromSpecImpl<WifiStaState> for ConnectionState {
    open spec fn obeys_from_spec() -> bool {
        true
    }

    open spec fn from_spec(v: WifiStaState) -> ConnectionState {
        link_state(v)
    }
}

/// Decoding gives back the state that was stored.
pub proof fn lemma_code_round_trip(s: ConnectionState)
    ensures
        1 <= s.spec_code() <= 3,
        forall|t: ConnectionState| t.spec_code() == s.spec_code() ==> t == s,
{
}

/// A colour of the status LED.
#[derive(Debug, Clone, Copy, PartialEq, Eq, Structural)]
pub struct Rgb {
    pub r: u8,
    pub g: u8,
    pub b: u8,
}

/// One round of the status LED: whether it is lit now, the colour to show and
/// how long to wait before the next round.
#[derive(Debug, Clone, Copy, PartialEq, Eq, Structural)]
pub struct BlinkStep {
    pub should_blink: bool,
    pub color: Rgb,
    pub timeout_ms: u64,
}

/// The colour that signals a state: red while disconnected, blue while
/// connecting, green when connected.
pub open spec fn state_color(s: ConnectionState) -> Rgb {
    match s {
        ConnectionState::Disconnected => Rgb { r: 255, g: 0, b: 0 },
        ConnectionState::Connecting => Rgb { r: 0, g: 0, b: 255 },
        ConnectionState::Connected => Rgb { r: 0, g: 255, b: 0 },
    }
}

/// The blink period of a state in milliseconds.
pub open spec fn state_timeout(s: ConnectionState) -> u64 {
    match s {
        ConnectionState::Disconnected => 300,
        ConnectionState::Connecting => 100,
        ConnectionState::Connected => 700,
    }
}

/// The next round of the LED: the lit flag flips, a lit LED shows the colour
/// of the state, an unlit one is black, and the wait is the state's period.
pub open spec fn next_blink(state: ConnectionState, should_blink: bool) -> BlinkStep {
    BlinkStep {
        should_blink: !should_blink,
        color: if !should_blink {
            state_color(state)
        } else {
            Rgb { r: 0, g: 0, b: 0 }
        },
        timeout_ms: state_timeout(state),
    }
}

pub fn blink_step(state: ConnectionState, should_blink: bool) -> (r: BlinkStep)
    ensures
        r == next_blink(state, should_blink),
{
    let (active, timeout) = match state {
        ConnectionState::Disconnected => (Rgb { r: 255, g: 0, b: 0 }, 300u64),
        ConnectionState::Connected => (Rgb { r: 0, g: 255, b: 0 }, 700u64),
        ConnectionState::Connecting => (Rgb { r: 0, g: 0, b: 255 }, 100u64),
    };
    let lit = !should_blink;
    let color = if lit {
        active
    } else {
        Rgb { r: 0, g: 0, b: 0 }
    };
    BlinkStep { should_blink: lit, color, timeout_ms: timeout }
}

/// Two rounds in the same state light the LED once and leave it dark once,
/// and bring the flag back to where it was.
pub proof fn lemma_blink_alternates(state: ConnectionState, should_blink: bool)
    ensures
        next_blink(state, next_blink(state, should_blink).should_blink).should_blink == should_blink,
        (next_blink(state, should_blink).color == state_color(state)) != (next_blink(
            state,
            next_blink(state, should_blink).should_blink,
        ).color == state_color(state)),
{
}

/// The rounds of a status LED loop whose lit flag starts unset and whose
/// state reads `states[k]` in round `k`.
pub open spec fn blink_rounds(states: Seq<ConnectionState>) -> Seq<BlinkStep>
    decreases states.len(),
{
    if states.len() == 0 {
        Seq::empty()
    } else {
        let before = blink_rounds(states.drop_last());
        let flag = if before.len() == 0 {
            false
        } else {
            before.last().should_blink
        };
        before.push(next_blink(states.last(), flag))
    }
}

/// Over any run of the LED loop, round `k` (from 0) is lit exactly when `k`
/// is even: a lit round shows the colour of the state read in that round, a
/// dark round shows black, and every round waits the period of its state.
pub proof fn lemma_blink_rounds(states: Seq<ConnectionState>)
    ensures
        blink_rounds(states).len() == states.len(),
        forall|k: int|
            0 <= k < states.len() ==> #[trigger] blink_rounds(states)[k] == (BlinkStep {
                should_blink: k % 2 == 0,
                color: if k % 2 == 0 {
                    state_color(states[k])
                } else {
                    Rgb { r: 0, g: 0, b: 0 }
                },
                timeout_ms: state_timeout(states[k]),
            }),
    decreases states.len(),
{
    if states.len() > 0 {
        let prefix = states.drop_last();
        lemma_blink_rounds(prefix);
        let before = blink_rounds(prefix);
        let n = prefix.len() as int;
        assert forall|k: int| 0 <= k < states.len() implies #[trigger] blink_rounds(states)[k]
            == (BlinkStep {
            should_blink: k % 2 == 0,
            color: if k % 2 == 0 {
                state_color(states[k])
            } else {
                Rgb { r: 0, g: 0, b: 0 }
            },
            timeout_ms: state_timeout(states[k]),
        }) by {
            if k < n {
                assert(blink_rounds(states)[k] == before[k]);
                assert(prefix[k] == states[k]);
            } else if n > 0 {
                assert(before.last() == before[n - 1]);
                assert(prefix[n - 1] == states[n - 1]);
            }
        }
    }
}

/// The link state as the tracker's tasks share it, kept under its code.
pub struct SharedState {
    wifi_state: usize,
}

impl SharedState {
    /// The link state that a read gives.
    pub closed spec fn link(self) -> ConnectionState {
        if self.wifi_state == 1 {
            ConnectionState::Disconnected
        } else if self.wifi_state == 3 {
            ConnectionState::Connected
        } else {
            ConnectionState::Connecting
        }
    }

    #[verifier::type_invariant]
    spec fn inv(self) -> bool {
        1 <= self.wifi_state <= 3
    }

    /// A new tracker counts as connecting.
    pub fn new() -> (r: Self)
        ensures
            r.link() == ConnectionState::Connecting,
    {
        SharedState { wifi_state: ConnectionState::Connecting.code() }
    }

    /// Stores a link state under its code.
    pub fn set_connection_state(&mut self, s: ConnectionState)
        ensures
            final(self).link() == s,
    {
        self.wifi_state = s.code();
    }

    /// The link state last stored: a read gives back what the last write
    /// stored.
    pub fn connection_state(&self) -> (r: ConnectionState)
        ensures
            r == self.link(),
    {
        proof {
            use_type_invariant(self);
        }
        if self.wifi_state == 2 {
            ConnectionState::Connecting
        } else if self.wifi_state == 3 {
            ConnectionState::Connected
        } else {
            ConnectionState::Disconnected
        }
    }
}

/// How long the Wi-Fi connection loop pauses after the link went down, and
/// after a failed attempt to connect, in milliseconds.
pub const RECONNECT_PAUSE_MS: u64 = 5000;

/// The first decision of a round of the Wi-Fi connection loop, from the
/// station state that the radio reports: the link state to publish, and
/// whether to wait for the link to drop (then pause) before reconnecting.
pub fn round_start(sta: WifiStaState) -> (r: (ConnectionState, bool))
    ensures
        r.0 == link_state(sta),
        r.1 == (sta == WifiStaState::Connected),
{
    let waits = match sta {
        WifiStaState::Connected => true,
        _ => false,
    };
    (ConnectionState::from(sta), waits)
}

/// Whether the loop starts the radio, given what asking whether it was
/// started gave: `Some(started)`, or `None` where the question failed. Only
/// a radio known to be started is left alone.
pub fn should_start(started: Option<bool>) -> (r: bool)
    ensures
        r == (started != Some(true)),
{
    match started {
        Some(true) => false,
        _ => true,
    }
}

/// The pause after an attempt to connect: none after success,
/// [`RECONNECT_PAUSE_MS`] after a failure.
pub fn pause_after_connect(connected: bool) -> (r: u64)
    ensures
        r == if connected {
            0
        } else {
            RECONNECT_PAUSE_MS
        },
{
    if connected {
        0
    } else {
        RECONNECT_PAUSE_MS
    }
}

} // verus!
