//! The wubi composing state machine: up to four code letters, the
//! candidates the table gives for them, and the auto-commit policy.
//! The table lookup and the pick recorder are handed in as functions.

use vstd::prelude::*;
use vstd::string::StringExecFns;

use crate::text::{lemma_ascii_valid_utf8, utf8_str};

verus! {

/// When the engine commits without an explicit pick.
#[derive(Copy, Clone, Debug, PartialEq, Eq, Structural)]
pub enum AutoCommitPolicy {
    Never,
    OnFourCodes,
    OnUniqueMatch,
    OnFourCodesIfUnique,
}

/// The policy whose wire number is `v`.
pub open spec fn policy_of_u32(v: u32) -> Option<AutoCommitPolicy> {
    if v == 0 {
        Some(AutoCommitPolicy::Never)
    } else if v == 1 {
        Some(AutoCommitPolicy::OnFourCodes)
    } else if v == 2 {
        Some(AutoCommitPolicy::OnUniqueMatch)
    } else if v == 3 {
        Some(AutoCommitPolicy::OnFourCodesIfUnique)
    } else {
        None
    }
}

impl AutoCommitPolicy {
    pub fn from_u32(v: u32) -> (r: Option<Self>)
        ensures
            r == policy_of_u32(v),
    {
        match v {
            0 => Some(AutoCommitPolicy::Never),
            1 => Some(AutoCommitPolicy::OnFourCodes),
            2 => Some(AutoCommitPolicy::OnUniqueMatch),
            3 => Some(AutoCommitPolicy::OnFourCodesIfUnique),
            _ => None,
        }
    }

    /// The wire number of this policy.
    pub fn to_u32(self) -> (r: u32)
        ensures
            policy_of_u32(r) == Some(self),
    {
        match self {
            AutoCommitPolicy::Never => 0,
            AutoCommitPolicy::OnFourCodes => 1,
            AutoCommitPolicy::OnUniqueMatch => 2,
            AutoCommitPolicy::OnFourCodesIfUnique => 3,
        }
    }
}

impl Default for AutoCommitPolicy {
    fn default() -> (r: Self)
        ensures
            r == AutoCommitPolicy::OnFourCodesIfUnique,
    {
        AutoCommitPolicy::OnFourCodesIfUnique
    }
}

/// Longest wubi code.
pub const MAX_CODE_LEN: usize = 4;

/// Whether the policy commits a buffer of `len` letters with `n`
/// candidates.
pub open spec fn triggers(p: AutoCommitPolicy, len: nat, n: nat) -> bool {
    match p {
        AutoCommitPolicy::Never => false,
        AutoCommitPolicy::OnFourCodes => len == 4 && n > 0,
        AutoCommitPolicy::OnUniqueMatch => n == 1,
        AutoCommitPolicy::OnFourCodesIfUnique => len == 4 && n == 1,
    }
}

/// An ASCII letter.
pub open spec fn is_letter(b: u8) -> bool {
    (0x41 <= b <= 0x5A) || (0x61 <= b <= 0x7A)
}

/// Its lowercase form.
pub open spec fn lower(b: u8) -> u8 {
    if 0x41 <= b <= 0x5A {
        (b + 32) as u8
    } else {
        b
    }
}

/// A lowercase ASCII letter.
pub open spec fn is_lower_letter(b: u8) -> bool {
    0x61 <= b <= 0x7A
}

/// What a code can be: at most four lowercase ASCII letters.
pub open spec fn code_shape(c: Seq<u8>) -> bool {
    c.len() <= 4 && forall|i: int| 0 <= i < c.len() ==> is_lower_letter(#[trigger] c[i])
}

/// Bytes as text, one char per byte.
pub open spec fn ascii_text(b: Seq<u8>) -> Seq<char> {
    b.map_values(|x: u8| x as char)
}

/// The table lookup `lookup` may have answered `out` for `code`.
pub open spec fn gave<L: Fn(String) -> Vec<String>>(lookup: L, code: Seq<char>, out: Seq<String>) -> bool {
    exists|s: String, v: Vec<String>| s@ == code && #[trigger] call_ensures(lookup, (s,), v) && v@ == out
}

/// The wubi composing state.
pub struct WubiEngine {
    buffer: Vec<u8>,
    candidates: Vec<String>,
    policy: AutoCommitPolicy,
}

impl WubiEngine {
    #[verifier::type_invariant]
    spec fn inv(&self) -> bool {
        &&& self.buffer@.len() <= MAX_CODE_LEN
        &&& forall|i: int| 0 <= i < self.buffer@.len() ==> is_lower_letter(#[trigger] self.buffer@[i])
    }

    /// The code letters typed so far.
    pub closed spec fn code(&self) -> Seq<u8> {
        self.buffer@
    }

    /// The candidates for the code.
    pub closed spec fn cands(&self) -> Seq<String> {
        self.candidates@
    }

    pub closed spec fn policy_spec(&self) -> AutoCommitPolicy {
        self.policy
    }

    pub fn new() -> (r: Self)
        ensures
            r.code() == Seq::<u8>::empty(),
            r.cands() == Seq::<String>::empty(),
            r.policy_spec() == AutoCommitPolicy::OnFourCodesIfUnique,
    {
        WubiEngine { buffer: Vec::new(), candidates: Vec::new(), policy: AutoCommitPolicy::OnFourCodesIfUnique }
    }

    pub fn policy(&self) -> (r: AutoCommitPolicy)
        ensures
            r == self.policy_spec(),
    {
        self.policy
    }

    pub fn set_policy(&mut self, p: AutoCommitPolicy)
        ensures
            final(self).policy_spec() == p,
            final(self).code() == old(self).code(),
            final(self).cands() == old(self).cands(),
    {
        proof {
            use_type_invariant(&*self);
        }
        self.policy = p;
    }

    pub fn is_composing(&self) -> (r: bool)
        ensures
            r == (self.code().len() > 0),
    {
        self.buffer.len() > 0
    }

    /// The code as text.
    pub fn buffer_str(&self) -> (r: &str)
        ensures
            r@ == ascii_text(self.code()),
            code_shape(self.code()),
    {
        proof {
            use_type_invariant(self);
            lemma_ascii_valid_utf8(self.buffer@);
        }
        match utf8_str(self.buffer.as_slice()) {
            Some(s) => {
                proof {
                    lemma_ascii_decode(self.buffer@);
                }
                s
            },
            None => "",
        }
    }

    pub fn candidates(&self) -> (r: &[String])
        ensures
            r@ == self.cands(),
    {
        self.candidates.as_slice()
    }

    /// The code as an owned string.
    fn code_string(&self) -> (r: String)
        ensures
            r@ == ascii_text(self.code()),
    {
        let s = self.buffer_str();
        crate::text::owned(s)
    }

    /// Drop the last code letter and look the shorter code up again.
    /// `false` (and nothing changed) when nothing was being composed.
    pub fn backspace<L: Fn(String) -> Vec<String>>(&mut self, lookup: &L) -> (r: bool)
        requires
            forall|s: String| #[trigger] lookup.requires((s,)),
        ensures
            r == (old(self).code().len() > 0),
            !r ==> final(self).code() == old(self).code() && final(self).cands() == old(self).cands(),
            r ==> final(self).code() == old(self).code().drop_last(),
            r && final(self).code().len() == 0 ==> final(self).cands() == Seq::<String>::empty(),
            r && final(self).code().len() > 0 ==> gave(*lookup, ascii_text(final(self).code()), final(self).cands()),
            final(self).policy_spec() == old(self).policy_spec(),
            code_shape(final(self).code()),
    {
        proof {
            use_type_invariant(&*self);
        }
        if self.buffer.len() == 0 {
            return false;
        }
        let mut b: Vec<u8> = Vec::new();
        std::mem::swap(&mut b, &mut self.buffer);
        b.pop();
        self.buffer = b;
        self.refresh(lookup);
        proof {
            use_type_invariant(&*self);
        }
        true
    }

    /// Look the code up again.
    fn refresh<L: Fn(String) -> Vec<String>>(&mut self, lookup: &L)
        requires
            forall|s: String| #[trigger] lookup.requires((s,)),
        ensures
            final(self).code() == old(self).code(),
            final(self).policy_spec() == old(self).policy_spec(),
            old(self).code().len() == 0 ==> final(self).cands() == Seq::<String>::empty(),
            old(self).code().len() > 0 ==> gave(*lookup, ascii_text(final(self).code()), final(self).cands()),
    {
        proof {
            use_type_invariant(&*self);
        }
        if self.buffer.len() == 0 {
            self.candidates = Vec::new();
            return;
        }
        let code = self.code_string();
        let ghost c = code;
        let v = lookup(code);
        proof {
            assert(call_ensures(*lookup, (c,), v));
        }
        self.candidates = v;
    }

    /// Discard the composing state; `false` when nothing was composed.
    pub fn escape(&mut self) -> (r: bool)
        ensures
            r == (old(self).code().len() > 0),
            r ==> final(self).code() == Seq::<u8>::empty() && final(self).cands() == Seq::<String>::empty(),
            !r ==> final(self).code() == old(self).code() && final(self).cands() == old(self).cands(),
            final(self).policy_spec() == old(self).policy_spec(),
    {
        if self.buffer.len() == 0 {
            return false;
        }
        self.clear_all();
        true
    }

    /// Discard the composing state.
    pub fn clear_all(&mut self)
        ensures
            final(self).code() == Seq::<u8>::empty(),
            final(self).cands() == Seq::<String>::empty(),
            final(self).policy_spec() == old(self).policy_spec(),
    {
        self.buffer = Vec::new();
        self.candidates = Vec::new();
    }
}

/// Under the default policy a code is committed by itself only when it
/// has all four letters and exactly one candidate; the other policies
/// commit at four letters with any candidate, on a single candidate at
/// any length, or never.
pub proof fn lemma_policy_commit_rule(len: nat, n: nat)
    ensures
        triggers(AutoCommitPolicy::OnFourCodesIfUnique, len, n) <==> (len == 4 && n == 1),
        len < 4 ==> !triggers(AutoCommitPolicy::OnFourCodesIfUnique, len, n),
        n != 1 ==> !triggers(AutoCommitPolicy::OnFourCodesIfUnique, len, n),
        triggers(AutoCommitPolicy::OnFourCodes, len, n) <==> (len == 4 && n >= 1),
        triggers(AutoCommitPolicy::OnUniqueMatch, len, n) <==> n == 1,
        !triggers(AutoCommitPolicy::Never, len, n),
{
}

/// A capital letter types the same code as its small form; a letter
/// after fewer than four adds itself at the end, after four it starts a
/// new code of its own.
pub proof fn lemma_next_code_shape(code: Seq<u8>, byte: u8)
    requires
        is_letter(byte),
    ensures
        0x41 <= byte <= 0x5A ==> next_code(code, byte) == next_code(code, (byte + 32) as u8),
        is_lower_letter(next_code(code, byte).last()),
        code.len() < 4 ==> next_code(code, byte) == code.push(next_code(code, byte).last()),
        code.len() >= 4 ==> next_code(code, byte).len() == 1,
        0x61 <= byte <= 0x7A ==> next_code(code, byte).last() == byte,
        0x41 <= byte <= 0x5A ==> next_code(code, byte).last() == byte + 32,
{
}

/// The code after letter `byte`: a full code starts over.
pub open spec fn next_code(code: Seq<u8>, byte: u8) -> Seq<u8> {
    if code.len() >= MAX_CODE_LEN {
        seq![lower(byte)]
    } else {
        code.push(lower(byte))
    }
}

/// What a letter after a full code commits first: its top candidate.
pub open spec fn forced_text(code: Seq<u8>, cands: Seq<String>) -> Option<Seq<char>> {
    if code.len() >= MAX_CODE_LEN {
        first_text(cands)
    } else {
        None
    }
}

/// Texts joined, absent ones skipped.
pub open spec fn join_text(a: Option<Seq<char>>, c: Option<Seq<char>>) -> Option<Seq<char>> {
    match (a, c) {
        (None, None) => None,
        (Some(x), None) => Some(x),
        (None, Some(y)) => Some(y),
        (Some(x), Some(y)) => Some(x + y),
    }
}

/// An optional string's text.
pub open spec fn opt_text(r: Option<String>) -> Option<Seq<char>> {
    match r {
        Some(s) => Some(s@),
        None => None,
    }
}

/// The first candidate's text, if any.
pub open spec fn first_text(c: Seq<String>) -> Option<Seq<char>> {
    if c.len() > 0 {
        Some(c[0]@)
    } else {
        None
    }
}

/// Append `t` to the text in `slot` (or start it).
fn push_text(slot: &mut Option<String>, t: Option<String>)
    ensures
        opt_text(*final(slot)) == join_text(opt_text(*old(slot)), opt_text(t)),
{
    match t {
        None => {},
        Some(t) => {
            match slot {
                Some(existing) => {
                    existing.append(t.as_str());
                },
                None => {
                    *slot = Some(t);
                },
            }
        },
    }
}

impl WubiEngine {
    /// Feed one key. A non-letter is refused (`None`, nothing changes).
    /// A letter after a full four-letter code first commits that code's
    /// top candidate and starts over; the letter (lowercased) is added,
    /// the code looked up, and the policy may then commit the top
    /// candidate and clear the state. Returns the committed text, both
    /// commits joined when there were two.
    pub fn handle_letter<L: Fn(String) -> Vec<String>, P: Fn(String, String)>(
        &mut self,
        byte: u8,
        lookup: &L,
        record_pick: &P,
    ) -> (r: Option<String>)
        requires
            forall|s: String| #[trigger] lookup.requires((s,)),
            forall|a: String, b: String| #[trigger] record_pick.requires((a, b)),
        ensures
            code_shape(final(self).code()),
            !is_letter(byte) ==> r is None && final(self).code() == old(self).code() && final(self).cands()
                == old(self).cands(),
            final(self).policy_spec() == old(self).policy_spec(),
            is_letter(byte) ==> exists|c2: Seq<String>|
                #[trigger] gave(*lookup, ascii_text(next_code(old(self).code(), byte)), c2) && if triggers(
                    old(self).policy_spec(),
                    next_code(old(self).code(), byte).len(),
                    c2.len(),
                ) {
                    &&& final(self).code() == Seq::<u8>::empty()
                    &&& final(self).cands() == Seq::<String>::empty()
                    &&& opt_text(r) == join_text(forced_text(old(self).code(), old(self).cands()), first_text(c2))
                } else {
                    &&& final(self).code() == next_code(old(self).code(), byte)
                    &&& final(self).cands() == c2
                    &&& opt_text(r) == forced_text(old(self).code(), old(self).cands())
                },
            is_letter(byte) && old(self).policy_spec() == AutoCommitPolicy::OnFourCodesIfUnique
                && next_code(old(self).code(), byte).len() < 4 ==> {
                &&& final(self).code() == next_code(old(self).code(), byte)
                &&& opt_text(r) == forced_text(old(self).code(), old(self).cands())
            },
            is_letter(byte) && old(self).policy_spec() == AutoCommitPolicy::OnFourCodesIfUnique
                && final(self).code().len() == 0 ==> {
                &&& next_code(old(self).code(), byte).len() == 4
                &&& exists|c2: Seq<String>|
                    #[trigger] gave(*lookup, ascii_text(next_code(old(self).code(), byte)), c2) && c2.len() == 1
            },
            is_letter(byte) && old(self).policy_spec() == AutoCommitPolicy::OnFourCodes
                && next_code(old(self).code(), byte).len() < 4 ==> {
                &&& final(self).code() == next_code(old(self).code(), byte)
                &&& opt_text(r) == forced_text(old(self).code(), old(self).cands())
            },
            is_letter(byte) && old(self).policy_spec() == AutoCommitPolicy::OnFourCodes
                && final(self).code().len() == 0 ==> {
                &&& next_code(old(self).code(), byte).len() == 4
                &&& exists|c2: Seq<String>|
                    #[trigger] gave(*lookup, ascii_text(next_code(old(self).code(), byte)), c2) && c2.len() >= 1
            },
            is_letter(byte) && old(self).policy_spec() == AutoCommitPolicy::OnUniqueMatch
                && final(self).code().len() == 0 ==> exists|c2: Seq<String>|
                #[trigger] gave(*lookup, ascii_text(next_code(old(self).code(), byte)), c2) && c2.len() == 1,
            is_letter(byte) && old(self).policy_spec() == AutoCommitPolicy::Never ==> {
                &&& final(self).code() == next_code(old(self).code(), byte)
                &&& opt_text(r) == forced_text(old(self).code(), old(self).cands())
            },
    {
        proof {
            use_type_invariant(&*self);
        }
        if !((0x41 <= byte && byte <= 0x5A) || (0x61 <= byte && byte <= 0x7A)) {
            return None;
        }
        let ghost old_code = self.code();
        let ghost old_cands = self.cands();
        let mut out: Option<String> = None;
        if self.buffer.len() >= MAX_CODE_LEN {
            if self.candidates.len() > 0 {
                let top = self.candidates[0].clone();
                let code = self.code_string();
                record_pick(code, top.clone());
                out = Some(top);
            }
            self.clear_all();
        }
        let low: u8 = if byte <= 0x5A {
            byte + 32
        } else {
            byte
        };
        proof {
            use_type_invariant(&*self);
        }
        let mut b: Vec<u8> = Vec::new();
        std::mem::swap(&mut b, &mut self.buffer);
        b.push(low);
        self.buffer = b;
        self.refresh(lookup);
        let ghost b1 = self.code();
        let ghost c2 = self.cands();
        let len = self.buffer.len();
        let n = self.candidates.len();
        let trig = match self.policy {
            AutoCommitPolicy::Never => false,
            AutoCommitPolicy::OnFourCodes => len == MAX_CODE_LEN && n > 0,
            AutoCommitPolicy::OnUniqueMatch => n == 1,
            AutoCommitPolicy::OnFourCodesIfUnique => len == MAX_CODE_LEN && n == 1,
        };
        if trig {
            let text = if n > 0 {
                Some(self.candidates[0].clone())
            } else {
                None
            };
            match &text {
                Some(t) => {
                    let code = self.code_string();
                    record_pick(code, t.clone());
                },
                None => {},
            }
            self.clear_all();
            push_text(&mut out, text);
        }
        proof {
            assert(b1 =~= next_code(old_code, byte));
            assert(opt_text(out) == join_text(forced_text(old_code, old_cands), first_text(c2)) || !trig);
            assert(gave(*lookup, ascii_text(next_code(old_code, byte)), c2));
        }
        proof {
            use_type_invariant(&*self);
        }
        out
    }

    /// Commit candidate `index`: its text, the state cleared. `None`
    /// (nothing changes) when there is no such candidate.
    pub fn commit_index<P: Fn(String, String)>(&mut self, index: usize, record_pick: &P) -> (r: Option<String>)
        requires
            forall|a: String, b: String| #[trigger] record_pick.requires((a, b)),
        ensures
            index >= old(self).cands().len() ==> r is None && final(self).code() == old(self).code()
                && final(self).cands() == old(self).cands(),
            index < old(self).cands().len() ==> {
                &&& opt_text(r) == Some(old(self).cands()[index as int]@)
                &&& final(self).code() == Seq::<u8>::empty()
                &&& final(self).cands() == Seq::<String>::empty()
            },
            final(self).policy_spec() == old(self).policy_spec(),
    {
        if index >= self.candidates.len() {
            return None;
        }
        let text = self.candidates[index].clone();
        let code = self.code_string();
        record_pick(code, text.clone());
        self.clear_all();
        Some(text)
    }
}

/// Codepoints from here up (CJK Extension B on) lack glyphs in most
/// fonts.
pub const RARE_CODEPOINT_THRESHOLD: u32 = 0x20000;

/// Every char of `w` is below the rare threshold.
pub open spec fn displayable(w: Seq<char>) -> bool {
    forall|i: int| 0 <= i < w.len() ==> below_rare(#[trigger] w[i])
}

/// A char below U+20000.
pub open spec fn below_rare(c: char) -> bool {
    (c as u32) < 0x20000
}

/// Whether every char of `word` lies below U+20000.
pub fn is_displayable(word: &str) -> (r: bool)
    ensures
        r == displayable(word@),
{
    let n = word.unicode_len();
    let mut i: usize = 0;
    while i < n
        invariant
            n == word@.len(),
            i <= n,
            forall|j: int| 0 <= j < i ==> below_rare(#[trigger] word@[j]),
        decreases n - i,
    {
        let c = word.get_char(i);
        if c as u32 >= RARE_CODEPOINT_THRESHOLD {
            assert(word@[i as int] == c);
            return false;
        }
        i = i + 1;
    }
    true
}

/// The words of `s` that are displayable, in order.
pub open spec fn keep_displayable(s: Seq<String>) -> Seq<String>
    decreases s.len(),
{
    if s.len() == 0 {
        Seq::empty()
    } else if displayable(s.last()@) {
        keep_displayable(s.drop_last()).push(s.last())
    } else {
        keep_displayable(s.drop_last())
    }
}

/// What a table lookup shows: all of `all` when rare characters are
/// shown, else only the displayable words, in order.
pub fn displayable_only(all: Vec<String>, show_rare: bool) -> (r: Vec<String>)
    ensures
        r@ == if show_rare { all@ } else { keep_displayable(all@) },
{
    if show_rare {
        return all;
    }
    let mut out: Vec<String> = Vec::new();
    let mut i: usize = 0;
    while i < all.len()
        invariant
            i <= all@.len(),
            out@ == keep_displayable(all@.take(i as int)),
        decreases all@.len() - i,
    {
        assert(all@.take(i + 1).drop_last() =~= all@.take(i as int));
        assert(all@.take(i + 1).last() == all@[i as int]);
        if is_displayable(all[i].as_str()) {
            out.push(all[i].clone());
        }
        i = i + 1;
    }
    assert(all@.take(i as int) =~= all@);
    out
}

/// ASCII bytes decode to one char per byte.
pub proof fn lemma_ascii_decode(b: Seq<u8>)
    requires
        forall|i: int| 0 <= i < b.len() ==> #[trigger] b[i] < 0x80,
    ensures
        vstd::utf8::decode_utf8(b) == ascii_text(b),
    decreases b.len(),
{
    if b.len() > 0 {
        let rest = b.subrange(1, b.len() as int);
        assert forall|i: int| 0 <= i < rest.len() implies #[trigger] rest[i] < 0x80 by {
            assert(rest[i] == b[i + 1]);
        }
        lemma_ascii_decode(rest);
        crate::text::lemma_ascii_valid_utf8(b);
        let b0 = b[0];
        assert(vstd::utf8::codepoint_width_1(b0) == b0 as u32) by (bit_vector)
            requires
                b0 < 0x80;
        assert(vstd::utf8::is_leading_byte_width_1(b0)) by (bit_vector)
            requires
                b0 < 0x80;
        assert(vstd::utf8::pop_first_scalar(b) == rest);
        assert(ascii_text(b) =~= seq![b[0] as char] + ascii_text(rest));
    } else {
        assert(ascii_text(b) =~= Seq::<char>::empty());
    }
}

} // verus!
