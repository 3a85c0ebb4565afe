//! What the kernel's console writers send, byte by byte: the debug writer
//! indents each new line, and source locations are shown by file name.
use vstd::prelude::*;

verus! {

/// The newline byte.
pub const NEWLINE: u8 = 0x0a;
/// The space byte.
pub const SPACE: u8 = 0x20;
/// The path separator `/`.
pub const SLASH: u8 = 0x2f;

/// The bytes the debug writer sends for `s`: each byte of `s`, with two
/// spaces after each newline.
pub open spec fn debug_bytes(s: Seq<u8>) -> Seq<u8>
    decreases s.len(),
{
    if s.len() == 0 {
        Seq::empty()
    } else {
        let rest = debug_bytes(s.drop_last());
        if s.last() == NEWLINE {
            rest + seq![NEWLINE, SPACE, SPACE]
        } else {
            rest.push(s.last())
        }
    }
}

/// Console writer that indents the line after each newline by two spaces.
#[derive(Debug, Clone, Copy)]
pub struct DebugOutput;

impl DebugOutput {
    /// The bytes sent for the text `s`.
    pub fn encode(&self, s: &[u8]) -> (r: Vec<u8>)
        ensures
            r@ == debug_bytes(s@),
    {
        let mut out: Vec<u8> = Vec::new();
        let mut i: usize = 0;
        while i < s.len()
            invariant
                i <= s@.len(),
                out@ == debug_bytes(s@.subrange(0, i as int)),
            decreases s.len() - i,
        {
            let b = s[i];
            proof {
                assert(s@.subrange(0, i + 1).drop_last() =~= s@.subrange(0, i as int));
            }
            out.push(b);
            if b == NEWLINE {
                out.push(SPACE);
                out.push(SPACE);
            }
            proof {
                if b == NEWLINE {
                    assert(out@ =~= debug_bytes(s@.subrange(0, i as int)) + seq![NEWLINE, SPACE, SPACE]);
                }
            }
            i += 1;
        }
        proof {
            assert(s@.subrange(0, s@.len() as int) =~= s@);
        }
        out
    }
}

/// The file name in a source path: the bytes after the last `/`, or the
/// whole path if there is none.
pub fn file_name(path: &[u8]) -> (r: Vec<u8>)
    ensures
        (forall|i: int| 0 <= i < path@.len() ==> path@[i] != SLASH) ==> r@ == path@,
        forall|i: int|
            0 <= i < path@.len() && path@[i] == SLASH && (forall|j: int| i < j < path@.len() ==> path@[j] != SLASH)
                ==> r@ == path@.subrange(i + 1, path@.len() as int),
{
    let n = path.len();
    let mut i: usize = n;
    while i > 0
        invariant
            n == path@.len(),
            i <= n,
            forall|j: int| i <= j < n ==> path@[j] != SLASH,
        decreases i,
    {
        if path[i - 1] == SLASH {
            let mut out: Vec<u8> = Vec::new();
            let mut k: usize = i;
            while k < n
                invariant
                    n == path@.len(),
                    0 < i <= n,
                    i <= k <= n,
                    out@ == path@.subrange(i as int, k as int),
                decreases n - k,
            {
                out.push(path[k]);
                proof {
                    assert(out@ =~= path@.subrange(i as int, k + 1));
                }
                k += 1;
            }
            return out;
        }
        i -= 1;
    }
    let mut out: Vec<u8> = Vec::new();
    let mut k: usize = 0;
    while k < n
        invariant
            n == path@.len(),
            k <= n,
            out@ == path@.subrange(0, k as int),
        decreases n - k,
    {
        out.push(path[k]);
        proof {
            assert(out@ =~= path@.subrange(0, k + 1));
        }
        k += 1;
    }
    proof {
        assert(out@ =~= path@);
    }
    out
}

} // verus!
