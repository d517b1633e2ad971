//! ASCII → CJK punctuation mapping.
//!
//! ```text
//!   , → ，    . → 。    ! → ！    ? → ？
//!   ; → ；    : → ：    ( → （    ) → ）
//!   < → 《    > → 》    [ → 【    ] → 】
//!   \ → 、
//! ```
//!
//! Smart quotes (`"` `'`) need state or context to alternate open and
//! close: [`SmartQuoteState`] keeps a toggle per quote kind, and
//! [`quote_direction`] decides from the text before the caret.

use vstd::prelude::*;
use vstd::std_specs::iter::IteratorSpec;

verus! {

broadcast use {vstd::string::axiom_spec_iter, vstd::slice::group_slice_axioms};

/// The CJK form of an ASCII punctuation character, per the table above.
pub open spec fn cjk_punct(c: char) -> Option<char> {
    if c == ',' {
        Some('，')
    } else if c == '.' {
        Some('。')
    } else if c == '!' {
        Some('！')
    } else if c == '?' {
        Some('？')
    } else if c == ';' {
        Some('；')
    } else if c == ':' {
        Some('：')
    } else if c == '(' {
        Some('（')
    } else if c == ')' {
        Some('）')
    } else if c == '<' {
        Some('《')
    } else if c == '>' {
        Some('》')
    } else if c == '[' {
        Some('【')
    } else if c == ']' {
        Some('】')
    } else if c == '\\' {
        Some('、')
    } else {
        None
    }
}

/// Map a single ASCII punctuation char to its CJK equivalent. Returns
/// `None` for chars without a CJK mapping (quotes included: they go
/// through [`SmartQuoteState`] or [`quote_direction`]).
pub fn ascii_to_cjk_punct(c: char) -> (r: Option<char>)
    ensures
        r == cjk_punct(c),
{
    match c {
        ',' => Some('，'),
        '.' => Some('。'),
        '!' => Some('！'),
        '?' => Some('？'),
        ';' => Some('；'),
        ':' => Some('：'),
        '(' => Some('（'),
        ')' => Some('）'),
        '<' => Some('《'),
        '>' => Some('》'),
        '[' => Some('【'),
        ']' => Some('】'),
        '\\' => Some('、'),
        _ => None,
    }
}

/// Opening curly form of an ASCII quote: `"` → “, `'` → ‘.
pub open spec fn open_quote(c: char) -> Option<char> {
    if c == '"' {
        Some('\u{201C}')
    } else if c == '\'' {
        Some('\u{2018}')
    } else {
        None
    }
}

/// Closing curly form of an ASCII quote: `"` → ”, `'` → ’.
pub open spec fn close_quote(c: char) -> Option<char> {
    if c == '"' {
        Some('\u{201D}')
    } else if c == '\'' {
        Some('\u{2019}')
    } else {
        None
    }
}

pub fn ascii_to_cjk_open_quote(c: char) -> (r: Option<char>)
    ensures
        r == open_quote(c),
{
    match c {
        '"' => Some('\u{201C}'),
        '\'' => Some('\u{2018}'),
        _ => None,
    }
}

pub fn ascii_to_cjk_close_quote(c: char) -> (r: Option<char>)
    ensures
        r == close_quote(c),
{
    match c {
        '"' => Some('\u{201D}'),
        '\'' => Some('\u{2019}'),
        _ => None,
    }
}

/// Quote depth of the current line of `s`: openers minus closers after
/// the last newline.
pub open spec fn line_depth(s: Seq<char>, open: char, close: char) -> int
    decreases s.len(),
{
    if s.len() == 0 {
        0
    } else {
        let c = s.last();
        if c == '\n' {
            0
        } else {
            line_depth(s.drop_last(), open, close) + if c == open {
                1int
            } else if c == close {
                -1int
            } else {
                0int
            }
        }
    }
}

/// A UTF-8 encoding has at least one byte per char.
pub proof fn lemma_chars_len_le_bytes(s: Seq<char>)
    ensures
        s.len() <= vstd::utf8::encode_utf8(s).len(),
    decreases s.len(),
{
    if s.len() > 0 {
        lemma_chars_len_le_bytes(s.drop_first());
    }
}

/// Direction of a quote typed after the text `s`: closing when an
/// opener of its kind is still unclosed on the current line, opening
/// otherwise.
pub open spec fn quote_for_context(s: Seq<char>, q: char) -> Option<char> {
    match (open_quote(q), close_quote(q)) {
        (Some(o), Some(c)) => Some(if line_depth(s, o, c) > 0 { c } else { o }),
        _ => None,
    }
}

/// Decide the CJK curly form of an ASCII quote (`"` / `'`) from the
/// document text preceding the caret. Only the current line (text after
/// the last `\n`) is counted: inside an unclosed quotation of this kind
/// the quote closes, otherwise it opens. `None` if `ascii_quote` is not
/// `"` / `'`.
pub fn quote_direction(ctx_before: &str, ascii_quote: char) -> (r: Option<char>)
    ensures
        r == quote_for_context(ctx_before@, ascii_quote),
{
    let (open, close) = match ascii_quote {
        '"' => ('\u{201C}', '\u{201D}'),
        '\'' => ('\u{2018}', '\u{2019}'),
        _ => return None,
    };
    let mut depth: i128 = 0;
    let ghost s = ctx_before@;
    let bytes = ctx_before.as_bytes();
    let _n = bytes.len();
    proof {
        lemma_chars_len_le_bytes(s);
        assert(bytes@.len() <= usize::MAX);
    }
    let mut it = ctx_before.chars();
    let ghost mut seen: Seq<char> = Seq::empty();
    loop
        invariant
            s == ctx_before@,
            s.len() <= usize::MAX,
            seen + it.remaining() == s,
            depth == line_depth(seen, open, close),
            -(seen.len() as int) <= depth <= seen.len(),
            seen.len() <= s.len(),
            it.obeys_prophetic_iter_laws(),
            it.decrease() is Some,
        ensures
            depth == line_depth(s, open, close),
        decreases it.decrease()->0,
    {
        let ghost before = it.remaining();
        match it.next() {
            None => {
                proof {
                    assert(before.len() == 0);
                    assert(seen =~= s);
                }
                break;
            },
            Some(ch) => {
                proof {
                    assert(ch == before[0]);
                    assert(seen.push(ch) + before.drop_first() =~= seen + before);
                    assert(seen.push(ch).drop_last() =~= seen);
                    seen = seen.push(ch);
                }
                if ch == '\n' {
                    depth = 0;
                } else if ch == open {
                    depth = depth + 1;
                } else if ch == close {
                    depth = depth - 1;
                }
            },
        }
    }
    Some(if depth > 0 { close } else { open })
}

/// Per-session smart-quote state: alternates between open and close
/// glyphs each time `"` or `'` is typed, the two kinds independently.
/// The fallback for hosts that cannot read the caret's context.
#[derive(Debug, Clone, Copy)]
pub struct SmartQuoteState {
    next_double_is_open: bool,
    next_single_is_open: bool,
}

impl SmartQuoteState {
    /// Whether the next `"` opens.
    pub closed spec fn double_open(&self) -> bool {
        self.next_double_is_open
    }

    /// Whether the next `'` opens.
    pub closed spec fn single_open(&self) -> bool {
        self.next_single_is_open
    }

    /// Both kinds open next.
    pub fn new() -> (r: Self)
        ensures
            r.double_open(),
            r.single_open(),
    {
        SmartQuoteState { next_double_is_open: true, next_single_is_open: true }
    }

    /// Map an ASCII quote to its smart-CJK form and flip the toggle of
    /// its kind. Non-quote chars pass through untouched (`None`) and
    /// leave the state as it was.
    pub fn map(&mut self, c: char) -> (r: Option<char>)
        ensures
            c == '"' ==> r == (if old(self).double_open() {
                open_quote(c)
            } else {
                close_quote(c)
            }) && final(self).double_open() == !old(self).double_open()
                && final(self).single_open() == old(self).single_open(),
            c == '\'' ==> r == (if old(self).single_open() {
                open_quote(c)
            } else {
                close_quote(c)
            }) && final(self).single_open() == !old(self).single_open()
                && final(self).double_open() == old(self).double_open(),
            c != '"' && c != '\'' ==> r is None && *final(self) == *old(self),
    {
        if c == '"' {
            let mapped = if self.next_double_is_open {
                ascii_to_cjk_open_quote(c)
            } else {
                ascii_to_cjk_close_quote(c)
            };
            self.next_double_is_open = !self.next_double_is_open;
            mapped
        } else if c == '\'' {
            let mapped = if self.next_single_is_open {
                ascii_to_cjk_open_quote(c)
            } else {
                ascii_to_cjk_close_quote(c)
            };
            self.next_single_is_open = !self.next_single_is_open;
            mapped
        } else {
            None
        }
    }

    /// Back to the initial state: both kinds open next.
    pub fn reset(&mut self)
        ensures
            final(self).double_open(),
            final(self).single_open(),
    {
        *self = SmartQuoteState::new();
    }

    /// Sync the toggle to a direction just decided by the stateless
    /// context path: after an opener (“ or ‘) was emitted for quote `c`,
    /// the next quote of that kind closes, and vice versa. Other chars
    /// leave the state unchanged.
    pub fn sync_after(&mut self, c: char, mapped: char)
        ensures
            c == '"' ==> final(self).double_open() == !(mapped == '\u{201C}' || mapped
                == '\u{2018}') && final(self).single_open() == old(self).single_open(),
            c == '\'' ==> final(self).single_open() == !(mapped == '\u{201C}' || mapped
                == '\u{2018}') && final(self).double_open() == old(self).double_open(),
            c != '"' && c != '\'' ==> *final(self) == *old(self),
    {
        let emitted_open = mapped == '\u{201C}' || mapped == '\u{2018}';
        if c == '"' {
            self.next_double_is_open = !emitted_open;
        } else if c == '\'' {
            self.next_single_is_open = !emitted_open;
        }
    }
}

impl Default for SmartQuoteState {
    /// Like `new`: the next quote of either kind opens.
    fn default() -> (r: Self)
        ensures
            r.double_open(),
            r.single_open(),
    {
        SmartQuoteState { next_double_is_open: true, next_single_is_open: true }
    }
}

/// The same quote typed twice in a row through the toggle gives an
/// opener and then a closer (or a closer then an opener).
pub proof fn lemma_smart_quote_alternates(open_first: bool, c: char)
    requires
        c == '"' || c == '\'',
    ensures
        (if open_first { open_quote(c) } else { close_quote(c) }) != (if !open_first {
            open_quote(c)
        } else {
            close_quote(c)
        }),
{
}

} // verus!
