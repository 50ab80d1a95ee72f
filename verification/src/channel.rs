//! The data of a mixer channel: its identity, its name, its mixer state
//! (gain, mute, solo, record-arm) and the plugin bound to it, and the rules
//! that turn the mixer states of all channels into what the audio graph
//! plays.
//!
//! Gains are linear amplitudes stored as the bit patterns of IEEE-754 single
//! precision numbers; nothing here computes with them, it only keeps and
//! passes them on.

use vstd::prelude::*;

verus! {

/// The bit pattern of the gain 1.0.
pub const UNITY_GAIN_BITS: u32 = 0x3f80_0000u32;

/// The bit pattern of the gain 0.0.
pub const SILENT_GAIN_BITS: u32 = 0u32;

/// The bits that mark a 128-bit identifier as a random (version 4,
/// RFC 4122 variant) UUID: the version nibble and the two variant bits.
pub const UUID_V4_MASK: u128 = 0x0000_0000_0000_f000_c000_0000_0000_0000u128;

/// What those bits hold in a random UUID: version 4, variant `10`.
pub const UUID_V4_MARK: u128 = 0x0000_0000_0000_4000_8000_0000_0000_0000u128;

/// Whether `bits`, read as a UUID, is a random one (version 4, RFC 4122
/// variant).
pub open spec fn is_random_uuid(bits: u128) -> bool {
    bits & UUID_V4_MASK == UUID_V4_MARK
}

/// Calls `uuid::Uuid::new_v4()` and returns the identifier as a number.  The
/// other 122 bits are random, so nothing is stated of them; the version and
/// variant bits are the ones `new_v4` sets.
#[verifier::external_body]
fn random_uuid_bits() -> (bits: u128)
    ensures
        is_random_uuid(bits),
{
    uuid::Uuid::new_v4().as_u128()
}

/// An identifier that stays with a channel across saving, loading and
/// undoing.
#[derive(Clone, Copy, Debug, PartialEq, Eq, Structural, Hash)]
pub struct StableId(pub u128);

/// What `uuid::Uuid::parse_str` makes of a text, taken as the identifier's
/// 128 bits (`as_u128`); `None` where the text is not a UUID.
pub uninterp spec fn uuid_text_bits(text: Seq<char>) -> Option<u128>;

/// The text that `uuid::Uuid::from_u128(bits).to_string()` gives.
pub uninterp spec fn uuid_bits_text(bits: u128) -> Seq<char>;

/// Calls `uuid::Uuid::parse_str` and takes the result's bits with
/// `as_u128`.  Which texts parse (simple, hyphenated, braced or URN forms,
/// either case) is named, not stated.
#[verifier::external_body]
fn parse_uuid_bits(text: &str) -> (bits: Option<u128>)
    ensures
        bits == uuid_text_bits(text@),
{
    match uuid::Uuid::parse_str(text) {
        Ok(uuid) => Some(uuid.as_u128()),
        Err(_) => None,
    }
}

/// Calls `uuid::Uuid::from_u128(bits).to_string()`: the lower-case
/// hyphenated form, 36 characters, which `parse_str` reads back to the same
/// bits.
#[verifier::external_body]
fn uuid_bits_to_text(bits: u128) -> (text: String)
    ensures
        text@ == uuid_bits_text(bits),
        text@.len() == 36,
        uuid_text_bits(text@) == Some(bits),
{
    uuid::Uuid::from_u128(bits).to_string()
}

impl StableId {
    /// The identifier written as a UUID, as project files hold it; reading
    /// the text back gives the identifier.
    pub fn to_text(&self) -> (text: String)
        ensures
            text@ == uuid_bits_text(self.0),
            text@.len() == 36,
            uuid_text_bits(text@) == Some(self.0),
    {
        uuid_bits_to_text(self.0)
    }

    /// The identifier a project file's text names, if it is a UUID.
    pub fn from_text(text: &str) -> (id: Option<StableId>)
        ensures
            id == match uuid_text_bits(text@) {
                Some(bits) => Some(StableId(bits)),
                None => None,
            },
    {
        match parse_uuid_bits(text) {
            Some(bits) => Some(StableId(bits)),
            None => None,
        }
    }

    /// A fresh random identifier: a version 4 UUID.
    pub fn new() -> (id: StableId)
        ensures
            is_random_uuid(id.0),
    {
        StableId(random_uuid_bits())
    }
}

/// The buttons of a channel strip.
#[derive(Clone, Copy, Debug, PartialEq, Eq, Structural)]
pub enum ChannelButton {
    Mute,
    Solo,
    Arm,
}

/// The mixer settings of a channel.
#[derive(Clone, Copy, Debug, PartialEq, Eq, Structural)]
pub struct ChannelState {
    /// The gain, as the bits of an `f32`.
    pub gain_value: u32,
    pub muted: bool,
    pub soloed: bool,
    pub armed: bool,
}

impl ChannelState {
    /// Unity gain, nothing pressed.
    pub fn new() -> (s: Self)
        ensures
            s == (ChannelState { gain_value: UNITY_GAIN_BITS, muted: false, soloed: false, armed: false }),
    {
        ChannelState { gain_value: UNITY_GAIN_BITS, muted: false, soloed: false, armed: false }
    }

    pub open spec fn button(&self, button: ChannelButton) -> bool {
        match button {
            ChannelButton::Mute => self.muted,
            ChannelButton::Solo => self.soloed,
            ChannelButton::Arm => self.armed,
        }
    }

    pub open spec fn with_button(&self, button: ChannelButton, value: bool) -> ChannelState {
        match button {
            ChannelButton::Mute => ChannelState { muted: value, ..*self },
            ChannelButton::Solo => ChannelState { soloed: value, ..*self },
            ChannelButton::Arm => ChannelState { armed: value, ..*self },
        }
    }

    /// Whether `button` is pressed.
    pub fn get_button(&self, button: ChannelButton) -> (pressed: bool)
        ensures
            pressed == self.button(button),
    {
        match button {
            ChannelButton::Mute => self.muted,
            ChannelButton::Solo => self.soloed,
            ChannelButton::Arm => self.armed,
        }
    }

    /// Presses or releases `button`.
    pub fn set_button(&mut self, button: ChannelButton, value: bool)
        ensures
            *final(self) == old(self).with_button(button, value),
    {
        match button {
            ChannelButton::Mute => self.muted = value,
            ChannelButton::Solo => self.soloed = value,
            ChannelButton::Arm => self.armed = value,
        }
    }
}

/// Setting a button and reading it back gives the value set; the other
/// buttons and the gain are untouched.
pub proof fn lemma_button_read_after_write(s: ChannelState, b: ChannelButton, c: ChannelButton, value: bool)
    ensures
        s.with_button(b, value).button(b) == value,
        b != c ==> s.with_button(b, value).button(c) == s.button(c),
        s.with_button(b, value).gain_value == s.gain_value,
        s.with_button(b, s.button(b)) == s,
{
}

impl Default for ChannelState {
    /// Unity gain, nothing pressed.
    fn default() -> (s: Self)
        ensures
            s == (ChannelState { gain_value: UNITY_GAIN_BITS, muted: false, soloed: false, armed: false }),
    {
        ChannelState::new()
    }
}

/// The plugin bound to a channel, and its saved state (base64 text).
#[derive(Debug)]
pub struct ChannelData {
    pub plugin_id: String,
    pub plugin_state: Option<String>,
}

/// What a `ChannelData` holds, as text.
pub open spec fn data_view(d: ChannelData) -> (Seq<char>, Option<Seq<char>>) {
    (d.plugin_id@, match d.plugin_state {
        Some(s) => Some(s@),
        None => None,
    })
}

/// What an optional `ChannelData` holds.
pub open spec fn opt_data_view(d: Option<ChannelData>) -> Option<(Seq<char>, Option<Seq<char>>)> {
    match d {
        Some(x) => Some(data_view(x)),
        None => None,
    }
}

impl ChannelData {
    /// A copy of this binding.
    pub fn duplicate(&self) -> (d: ChannelData)
        ensures
            data_view(d) == data_view(*self),
    {
        ChannelData {
            plugin_id: self.plugin_id.clone(),
            plugin_state: match &self.plugin_state {
                Some(s) => Some(s.clone()),
                None => None,
            },
        }
    }
}

/// A copy of an optional binding.
pub fn duplicate_data(d: &Option<ChannelData>) -> (c: Option<ChannelData>)
    ensures
        opt_data_view(c) == opt_data_view(*d),
{
    match d {
        Some(x) => Some(x.duplicate()),
        None => None,
    }
}

/// Everything about a channel needed to recreate it.
#[derive(Debug)]
pub struct ChannelSnapshot {
    pub name: String,
    pub state: ChannelState,
    pub data: Option<ChannelData>,
    pub id: StableId,
}

/// The content of a channel, as plain values.
pub struct ChannelContent {
    pub id: StableId,
    pub name: Seq<char>,
    pub state: ChannelState,
    pub data: Option<(Seq<char>, Option<Seq<char>>)>,
}

impl ChannelSnapshot {
    pub open spec fn content(&self) -> ChannelContent {
        ChannelContent { id: self.id, name: self.name@, state: self.state, data: opt_data_view(self.data) }
    }

    /// A channel called "unnamed channel" with default settings, no plugin and
    /// a fresh identifier.
    pub fn new() -> (s: ChannelSnapshot)
        ensures
            s.name@ == "unnamed channel"@,
            s.state == (ChannelState { gain_value: UNITY_GAIN_BITS, muted: false, soloed: false, armed: false }),
            s.data is None,
    {
        ChannelSnapshot {
            name: String::from_str("unnamed channel"),
            state: ChannelState::new(),
            data: None,
            id: StableId::new(),
        }
    }

    /// A copy of this snapshot.
    pub fn duplicate(&self) -> (s: ChannelSnapshot)
        ensures
            s.content() == self.content(),
    {
        ChannelSnapshot {
            name: self.name.clone(),
            state: self.state,
            data: duplicate_data(&self.data),
            id: self.id,
        }
    }
}

impl Default for ChannelSnapshot {
    /// A channel called "unnamed channel" with default settings, no plugin and
    /// a fresh identifier.
    fn default() -> (s: Self)
        ensures
            s.name@ == "unnamed channel"@,
            s.state == (ChannelState { gain_value: UNITY_GAIN_BITS, muted: false, soloed: false, armed: false }),
            s.data is None,
    {
        ChannelSnapshot::new()
    }
}

impl Default for StableId {
    /// A fresh random identifier: a version 4 UUID.
    fn default() -> (id: Self)
        ensures
            is_random_uuid(id.0),
    {
        StableId::new()
    }
}

/// What feeding the record-arm state of a channel to its plugin's event
/// input asks of the graph.
#[derive(Clone, Copy, Debug, PartialEq, Eq, Structural)]
pub enum MidiRouting {
    /// Connect the MIDI input node to the plugin.
    Connect,
    /// Remove the MIDI input node's connection to the plugin.
    Disconnect,
    /// Leave the plugin's event input as it is.
    Keep,
}

/// An armed channel's plugin listens to the MIDI input, any other plugin does
/// not.
pub fn midi_routing(armed: bool, midi_connected: bool) -> (r: MidiRouting)
    ensures
        r == if armed && !midi_connected {
            MidiRouting::Connect
        } else if !armed && midi_connected {
            MidiRouting::Disconnect
        } else {
            MidiRouting::Keep
        },
{
    if armed {
        if !midi_connected {
            MidiRouting::Connect
        } else {
            MidiRouting::Keep
        }
    } else if midi_connected {
        MidiRouting::Disconnect
    } else {
        MidiRouting::Keep
    }
}

/// Some channel is soloed.
pub open spec fn any_soloed(states: Seq<ChannelState>) -> bool {
    exists|k: int| 0 <= k < states.len() && (#[trigger] states[k]).soloed
}

/// A channel is silent when muted, or when another channel is soloed and it
/// is not.
pub open spec fn is_silenced(states: Seq<ChannelState>, s: ChannelState) -> bool {
    s.muted || (any_soloed(states) && !s.soloed)
}

/// The gain each channel's gain node plays: zero for a silenced channel, its
/// own gain otherwise.
pub fn mixer_gains(states: &Vec<ChannelState>) -> (gains: Vec<u32>)
    ensures
        gains@.len() == states@.len(),
        forall|k: int| 0 <= k < states@.len() ==> #[trigger] gains@[k] == if is_silenced(states@, states@[k]) {
            SILENT_GAIN_BITS
        } else {
            states@[k].gain_value
        },
        // A muted channel is silent.
        forall|j: int| 0 <= j < states@.len() && states@[j].muted ==> #[trigger] gains@[j] == SILENT_GAIN_BITS,
        // While any channel, at any position, is soloed, every channel that
        // is not soloed is silent.
        forall|j: int, k: int|
            0 <= j < states@.len() && 0 <= k < states@.len() && (#[trigger] states@[k]).soloed
                && !states@[j].soloed ==> #[trigger] gains@[j] == SILENT_GAIN_BITS,
        // A soloed channel that is not muted plays its own gain.
        forall|j: int|
            0 <= j < states@.len() && states@[j].soloed && !states@[j].muted ==> #[trigger] gains@[j]
                == states@[j].gain_value,
        // With no channel soloed, every channel that is not muted plays its
        // own gain.
        (forall|k: int| 0 <= k < states@.len() ==> !(#[trigger] states@[k]).soloed) ==> forall|j: int|
            0 <= j < states@.len() && !states@[j].muted ==> #[trigger] gains@[j] == states@[j].gain_value,
{
    let mut has_soloed = false;
    let mut k: usize = 0;
    while k < states.len()
        invariant
            0 <= k <= states@.len(),
            has_soloed == exists|i: int| 0 <= i < k && (#[trigger] states@[i]).soloed,
        decreases states@.len() - k,
    {
        if states[k].soloed {
            has_soloed = true;
        }
        k += 1;
    }
    let mut gains: Vec<u32> = Vec::with_capacity(states.len());
    let mut k: usize = 0;
    while k < states.len()
        invariant
            0 <= k <= states@.len(),
            has_soloed == any_soloed(states@),
            gains@.len() == k,
            forall|i: int| 0 <= i < k ==> #[trigger] gains@[i] == if is_silenced(states@, states@[i]) {
                SILENT_GAIN_BITS
            } else {
                states@[i].gain_value
            },
        decreases states@.len() - k,
    {
        let s = states[k];
        let silenced = s.muted || (has_soloed && !s.soloed);
        gains.push(if silenced { SILENT_GAIN_BITS } else { s.gain_value });
        k += 1;
    }
    proof {
        assert forall|j: int, k: int|
            0 <= j < states@.len() && 0 <= k < states@.len() && (#[trigger] states@[k]).soloed
                && !states@[j].soloed implies #[trigger] gains@[j] == SILENT_GAIN_BITS by {
            assert(any_soloed(states@));
        }
    }
    gains
}

/// Solo: while any channel, at any position, is soloed, each channel that is
/// not soloed is silenced; a muted channel is always silenced; a channel
/// that is neither muted nor left out by a solo plays.
pub proof fn lemma_solo_and_mute_silence(states: Seq<ChannelState>, j: int, k: int)
    requires
        0 <= j < states.len(),
        0 <= k < states.len(),
    ensures
        states[k].soloed && !states[j].soloed ==> is_silenced(states, states[j]),
        states[j].muted ==> is_silenced(states, states[j]),
        !states[j].muted && states[j].soloed ==> !is_silenced(states, states[j]),
        !states[j].muted && (forall|i: int| 0 <= i < states.len() ==> !(#[trigger] states[i]).soloed)
            ==> !is_silenced(states, states[j]),
{
    if states[k].soloed {
        assert(any_soloed(states));
    }
}

/// The title of a plugin's editor window: the plugin's name, a colon, and
/// the name of its channel.
pub fn window_title(plugin_name: &str, channel_name: &str) -> (title: String)
    ensures
        title@ == plugin_name@ + ": "@ + channel_name@,
{
    let mut title = String::from_str(plugin_name);
    title.append(": ");
    title.append(channel_name);
    title
}

} // verus!
