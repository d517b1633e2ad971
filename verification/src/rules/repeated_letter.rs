//! Three or more copies of one ASCII letter stand for the matching
//! Chinese interjection repeated: `hhh` → 哈哈哈, `aaa` → 啊啊啊.

use vstd::prelude::*;
use vstd::string::{StringExecFns, StringSliceAdditionalSpecFns};

use super::{Context, Rule};
use crate::text::sbytes;

verus! {

/// The rule expanding repeated letters.
pub struct RepeatedLetterExpansion;

/// The interjection a repeated letter stands for.
pub open spec fn interjection(b: u8) -> Option<char> {
    if b == 0x68 {
        Some('哈')
    } else if b == 0x61 {
        Some('啊')
    } else if b == 0x6F {
        Some('哦')
    } else if b == 0x65 {
        Some('诶')
    } else if b == 0x6D || b == 0x6E {
        Some('嗯')
    } else if b == 0x77 {
        Some('呜')
    } else {
        None
    }
}

/// `b` is three or more copies of one ASCII letter.
pub open spec fn repeated_letter(b: Seq<u8>) -> bool {
    &&& b.len() >= 3
    &&& forall|i: int| 0 <= i < b.len() ==> #[trigger] b[i] == b[0]
    &&& ((0x41 <= b[0] <= 0x5A) || (0x61 <= b[0] <= 0x7A))
}

impl Rule for RepeatedLetterExpansion {
    open spec fn priority_spec(&self) -> i32 {
        100
    }

    fn name(&self) -> (r: &'static str)
        ensures
            r@ == "RepeatedLetterExpansion"@,
    {
        "RepeatedLetterExpansion"
    }

    fn priority(&self) -> (r: i32)
        ensures
            r == 100,
    {
        100
    }
}

impl RepeatedLetterExpansion {
    /// Whether the buffer is three or more copies of one ASCII letter.
    pub fn applies(&self, ctx: &Context) -> (r: bool)
        ensures
            r == repeated_letter(sbytes(ctx.buffer)),
    {
        let b = ctx.buffer.as_str().as_bytes();
        assert(b@ == sbytes(ctx.buffer));
        if b.len() < 3 {
            return false;
        }
        let mut i: usize = 0;
        while i < b.len()
            invariant
                i <= b@.len(),
                b@.len() >= 3,
                b@ == sbytes(ctx.buffer),
                forall|j: int| 0 <= j < i ==> #[trigger] b@[j] == b@[0],
            decreases b@.len() - i,
        {
            if b[i] != b[0] {
                assert(b@[i as int] != b@[0]);
                return false;
            }
            i = i + 1;
        }
        (0x41 <= b[0] && b[0] <= 0x5A) || (0x61 <= b[0] && b[0] <= 0x7A)
    }

    /// The expansion of a buffer: the interjection of its first letter
    /// as many times as the buffer is long, `None` for a letter with
    /// none. The buffer is not empty.
    pub fn expansion(&self, ctx: &Context) -> (r: Option<String>)
        requires
            sbytes(ctx.buffer).len() > 0,
        ensures
            match interjection(sbytes(ctx.buffer)[0]) {
                Some(c) => r matches Some(w) && w@ == Seq::new(sbytes(ctx.buffer).len(), |i: int| c),
                None => r is None,
            },
    {
        let b = ctx.buffer.as_str().as_bytes();
        let n = b.len();
        let first = b[0];
        let unit: &'static str = if first == 0x68 {
            "哈"
        } else if first == 0x61 {
            "啊"
        } else if first == 0x6F {
            "哦"
        } else if first == 0x65 {
            "诶"
        } else if first == 0x6D || first == 0x6E {
            "嗯"
        } else if first == 0x77 {
            "呜"
        } else {
            return None;
        };
        let ghost c = interjection(first)->Some_0;
        proof {
            reveal_strlit("哈");
            reveal_strlit("啊");
            reveal_strlit("哦");
            reveal_strlit("诶");
            reveal_strlit("嗯");
            reveal_strlit("呜");
            assert(unit@ =~= seq![c]);
        }
        let mut w = String::new();
        let mut i: usize = 0;
        proof {
            assert(w@ =~= Seq::new(0, |j: int| c));
        }
        while i < n
            invariant
                i <= n,
                unit@ == seq![c],
                w@ == Seq::new(i as nat, |j: int| c),
            decreases n - i,
        {
            w.append(unit);
            assert(w@ =~= Seq::new((i + 1) as nat, |j: int| c));
            i = i + 1;
        }
        Some(w)
    }
}

} // verus!
