//! Top-level input mode — CJK vs EN. Orthogonal to the engine mode
//! (which picks wubi / pinyin / mixed *within* CJK mode).

use vstd::prelude::*;

verus! {

/// Composite CJK engine flow, or an English preedit where the engine is
/// dormant. The default is `Cjk`.
#[derive(Copy, Clone, Debug, PartialEq, Eq, Structural)]
pub enum InputMode {
    /// Composite CJK engine flow (wubi + pinyin per the engine mode).
    Cjk,
    /// English preedit mode: letters, digits and punctuation accumulate
    /// in the session's preedit; the engine is dormant.
    En,
}

impl InputMode {
    /// Stable wire number of a mode: `Cjk` = 0, `En` = 1.
    pub open spec fn code(self) -> u8 {
        match self {
            InputMode::Cjk => 0,
            InputMode::En => 1,
        }
    }

    /// The other mode.
    pub open spec fn toggled(self) -> InputMode {
        match self {
            InputMode::Cjk => InputMode::En,
            InputMode::En => InputMode::Cjk,
        }
    }

    /// The mode whose wire number is `v`; `None` for any other byte.
    pub fn from_u8(v: u8) -> (r: Option<Self>)
        ensures
            r == mode_from_code(v),
    {
        match v {
            0 => Some(InputMode::Cjk),
            1 => Some(InputMode::En),
            _ => None,
        }
    }

    /// The wire number of this mode.
    pub fn as_u8(self) -> (r: u8)
        ensures
            r == self.code(),
    {
        match self {
            InputMode::Cjk => 0,
            InputMode::En => 1,
        }
    }

    /// The other mode.
    pub fn toggle(self) -> (r: Self)
        ensures
            r == self.toggled(),
    {
        match self {
            InputMode::Cjk => InputMode::En,
            InputMode::En => InputMode::Cjk,
        }
    }
}

impl Default for InputMode {
    fn default() -> (r: Self)
        ensures
            r == InputMode::Cjk,
    {
        InputMode::Cjk
    }
}

/// The mode whose wire number is `v`.
pub open spec fn mode_from_code(v: u8) -> Option<InputMode> {
    if v == 0 {
        Some(InputMode::Cjk)
    } else if v == 1 {
        Some(InputMode::En)
    } else {
        None
    }
}

/// Decoding the wire number of a mode gives the mode back, and only
/// the two wire numbers decode.
pub proof fn lemma_input_mode_round_trip(m: InputMode, v: u8)
    ensures
        mode_from_code(m.code()) == Some(m),
        mode_from_code(v) matches Some(m2) ==> m2.code() == v,
{
}

/// Toggling changes the mode, and toggling twice gives it back.
pub proof fn lemma_toggle_involutive(m: InputMode)
    ensures
        m.toggled() != m,
        m.toggled().toggled() == m,
{
}

} // verus!
