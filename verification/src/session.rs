//! Keystroke routing for the host-facing session: what a key does, given
//! the input mode, the modifiers held and the engine's state. The
//! session performs the routed action on its engine and reports whether
//! the key was consumed.

use vstd::prelude::*;

use crate::input_mode::InputMode;

verus! {

/// Control modifier bit.
pub const MOD_CTRL: u32 = 2;
/// Command modifier bit.
pub const MOD_CMD: u32 = 8;

pub const CP_BACKSPACE: u32 = 0x08;
pub const CP_DEL_FORWARD: u32 = 0x7F;
pub const CP_ESCAPE: u32 = 0x1B;
pub const CP_SPACE: u32 = 0x20;
pub const CP_RETURN_CR: u32 = 0x0D;
pub const CP_RETURN_LF: u32 = 0x0A;
pub const CP_TAB: u32 = 0x09;
pub const CP_HYPHEN: u32 = 0x2D;

/// Why a hot reload of the pinyin data failed; each variant carries its
/// cause as text.
#[derive(Debug, Clone, PartialEq, Eq)]
pub enum PinyinReloadError {
    /// Reading `pinyin.dict` from the target directory failed.
    ReadDict(String),
    /// Reading `words.idf` from the target directory failed.
    ReadIdf(String),
    /// Parsing the new `pinyin.dict` bytes failed.
    Dict(String),
    /// Parsing the new `words.idf` bytes failed.
    Idf(String),
    /// Parsing the new `bigrams.ngm` bytes failed.
    NgmIntra(String),
    /// Parsing the new `bigrams_inter.ngm` bytes failed.
    NgmInter(String),
}

/// What the engine is doing when a key arrives.
#[derive(Copy, Clone, Debug, PartialEq, Eq, Structural)]
pub struct KeyContext {
    /// Some engine has a non-empty buffer.
    pub composing: bool,
    /// Next-word predictions from the last commit are showing.
    pub has_predictions: bool,
    /// The Japanese engine has a non-empty buffer.
    pub japanese_composing: bool,
}

/// What the session does with a key.
#[derive(Copy, Clone, Debug, PartialEq, Eq, Structural)]
pub enum KeyAction {
    /// Not consumed; the host gets the key.
    PassThrough,
    /// Feed the byte to the engine, queue what it commits; consumed.
    Feed(u8),
    /// Commit candidate `i` (if there is one); consumed.
    CommitIndex(usize),
    /// Engine backspace; consumed when the engine took it.
    Backspace,
    /// Engine escape; consumed when the engine took it.
    Escape,
    /// Queue the raw letters typed, drop the composition; consumed.
    CommitRaw,
    /// Consumed with nothing changed.
    Swallow,
    /// Queue the top candidate (if any), drop the composition, and let
    /// the host have the key.
    CommitTopAndPass,
}

/// A routed key: whether showing predictions are dropped first, then
/// the action.
#[derive(Copy, Clone, Debug, PartialEq, Eq, Structural)]
pub struct KeyRoute {
    pub cancel_predictions: bool,
    pub action: KeyAction,
}

/// An ASCII letter.
pub open spec fn is_ascii_letter(cp: u32) -> bool {
    (0x41 <= cp <= 0x5A) || (0x61 <= cp <= 0x7A)
}

/// Candidate index a digit key picks: `1`–`9` the first nine, `0` the
/// tenth.
pub open spec fn digit_pick(cp: u32) -> usize {
    if cp == 0x30 {
        9
    } else {
        (cp - 0x31) as usize
    }
}

/// The action for a non-letter key in CJK mode.
pub open spec fn cjk_action(cp: u32, ctx: KeyContext) -> KeyAction {
    if cp == CP_HYPHEN && ctx.japanese_composing {
        KeyAction::Feed(0x2D)
    } else if cp == CP_SPACE {
        if ctx.composing {
            KeyAction::CommitIndex(0)
        } else {
            KeyAction::PassThrough
        }
    } else if cp == CP_BACKSPACE || cp == CP_DEL_FORWARD {
        KeyAction::Backspace
    } else if cp == CP_ESCAPE {
        KeyAction::Escape
    } else if cp == CP_RETURN_CR || cp == CP_RETURN_LF {
        if ctx.composing {
            KeyAction::CommitRaw
        } else {
            KeyAction::PassThrough
        }
    } else if cp == CP_TAB {
        if ctx.composing {
            KeyAction::Swallow
        } else {
            KeyAction::PassThrough
        }
    } else if 0x30 <= cp <= 0x39 {
        if ctx.composing {
            KeyAction::CommitIndex(digit_pick(cp))
        } else {
            KeyAction::PassThrough
        }
    } else if ctx.composing {
        KeyAction::CommitTopAndPass
    } else {
        KeyAction::PassThrough
    }
}

/// How a key is routed: in English mode never taken; with Ctrl or Cmd
/// held passed to the host; a letter fed to the engine; any other key
/// first drops showing predictions when nothing is composing, then
/// acts per `cjk_action`.
pub open spec fn key_route(mode: InputMode, cp: u32, modifiers: u32, ctx: KeyContext) -> KeyRoute {
    match mode {
        InputMode::En => KeyRoute { cancel_predictions: false, action: KeyAction::PassThrough },
        InputMode::Cjk => if modifiers & (MOD_CTRL | MOD_CMD) != 0 {
            KeyRoute { cancel_predictions: false, action: KeyAction::PassThrough }
        } else if is_ascii_letter(cp) {
            KeyRoute { cancel_predictions: false, action: KeyAction::Feed(cp as u8) }
        } else {
            KeyRoute {
                cancel_predictions: !ctx.composing && ctx.has_predictions,
                action: cjk_action(cp, ctx),
            }
        },
    }
}

/// Route a key.
pub fn route_key(mode: InputMode, codepoint: u32, modifiers: u32, ctx: KeyContext) -> (r: KeyRoute)
    ensures
        r == key_route(mode, codepoint, modifiers, ctx),
        mode == InputMode::En ==> r.action == KeyAction::PassThrough && !r.cancel_predictions,
        modifiers & (MOD_CTRL | MOD_CMD) != 0 ==> r.action == KeyAction::PassThrough,
        mode == InputMode::Cjk && modifiers & (MOD_CTRL | MOD_CMD) == 0 && is_ascii_letter(codepoint) ==> r.action
            == KeyAction::Feed(codepoint as u8),
        !ctx.composing && !(codepoint == CP_HYPHEN && ctx.japanese_composing) && !is_ascii_letter(codepoint)
            && codepoint != CP_BACKSPACE && codepoint != CP_DEL_FORWARD && codepoint != CP_ESCAPE ==> r.action
            == KeyAction::PassThrough,
{
    match mode {
        InputMode::En => {
            return KeyRoute { cancel_predictions: false, action: KeyAction::PassThrough };
        },
        InputMode::Cjk => {},
    }
    if modifiers & (MOD_CTRL | MOD_CMD) != 0 {
        return KeyRoute { cancel_predictions: false, action: KeyAction::PassThrough };
    }
    if (0x41 <= codepoint && codepoint <= 0x5A) || (0x61 <= codepoint && codepoint <= 0x7A) {
        return KeyRoute { cancel_predictions: false, action: KeyAction::Feed(codepoint as u8) };
    }
    let cancel = !ctx.composing && ctx.has_predictions;
    let action = if codepoint == CP_HYPHEN && ctx.japanese_composing {
        KeyAction::Feed(0x2D)
    } else if codepoint == CP_SPACE {
        if ctx.composing {
            KeyAction::CommitIndex(0)
        } else {
            KeyAction::PassThrough
        }
    } else if codepoint == CP_BACKSPACE || codepoint == CP_DEL_FORWARD {
        KeyAction::Backspace
    } else if codepoint == CP_ESCAPE {
        KeyAction::Escape
    } else if codepoint == CP_RETURN_CR || codepoint == CP_RETURN_LF {
        if ctx.composing {
            KeyAction::CommitRaw
        } else {
            KeyAction::PassThrough
        }
    } else if codepoint == CP_TAB {
        if ctx.composing {
            KeyAction::Swallow
        } else {
            KeyAction::PassThrough
        }
    } else if 0x30 <= codepoint && codepoint <= 0x39 {
        if ctx.composing {
            let raw: u32 = codepoint - 0x30;
            let idx: usize = if raw == 0 {
                9
            } else {
                (raw - 1) as usize
            };
            KeyAction::CommitIndex(idx)
        } else {
            KeyAction::PassThrough
        }
    } else if ctx.composing {
        KeyAction::CommitTopAndPass
    } else {
        KeyAction::PassThrough
    };
    KeyRoute { cancel_predictions: cancel, action }
}

/// Whether the key was consumed, once the action was performed; for
/// `Backspace` and `Escape` that is whether the engine took it.
pub open spec fn consumed_by(a: KeyAction, engine_took: bool) -> bool {
    match a {
        KeyAction::PassThrough => false,
        KeyAction::CommitTopAndPass => false,
        KeyAction::Backspace => engine_took,
        KeyAction::Escape => engine_took,
        _ => true,
    }
}

impl KeyAction {
    /// Whether the key was consumed; `engine_took` is what the engine's
    /// backspace or escape answered (ignored for other actions).
    pub fn consumed(self, engine_took: bool) -> (r: bool)
        ensures
            r == consumed_by(self, engine_took),
    {
        match self {
            KeyAction::PassThrough => false,
            KeyAction::CommitTopAndPass => false,
            KeyAction::Backspace => engine_took,
            KeyAction::Escape => engine_took,
            _ => true,
        }
    }
}

/// What switching the input mode does.
#[derive(Copy, Clone, Debug, PartialEq, Eq, Structural)]
pub enum ModeSwitch {
    /// Already in the target mode: nothing.
    Stay,
    /// Flip the mode.
    Switch,
    /// Queue the raw letters being composed, drop the composition, then
    /// flip the mode.
    CommitRawThenSwitch,
}

/// Switching from CJK to English while composing ships the typed
/// letters as they are; any other change just flips the mode.
pub open spec fn mode_switch_spec(current: InputMode, target: InputMode, composing: bool) -> ModeSwitch {
    if current == target {
        ModeSwitch::Stay
    } else if current == InputMode::Cjk && composing {
        ModeSwitch::CommitRawThenSwitch
    } else {
        ModeSwitch::Switch
    }
}

/// What switching from `current` to `target` does.
pub fn mode_switch(current: InputMode, target: InputMode, composing: bool) -> (r: ModeSwitch)
    ensures
        r == mode_switch_spec(current, target, composing),
{
    if current == target {
        ModeSwitch::Stay
    } else if current == InputMode::Cjk && composing {
        ModeSwitch::CommitRawThenSwitch
    } else {
        ModeSwitch::Switch
    }
}

/// Queue `text` after what is pending.
pub fn append_pending(pending: &mut Option<String>, text: String)
    ensures
        match *old(pending) {
            Some(p) => *final(pending) matches Some(q) && q@ == p@ + text@,
            None => *final(pending) == Some(text),
        },
{
    match pending {
        Some(p) => {
            p.append(text.as_str());
        },
        None => {
            *pending = Some(text);
        },
    }
}

} // verus!
