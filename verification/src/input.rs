//! The input cursor: a cheap-to-clone view over the remaining unconsumed text.
//!
//! The cursor works on the UTF-8 bytes of the command line. Cloning produces
//! an independent cursor over the same underlying text, which is how callers
//! back-track: a candidate is tried against a clone, and the clone is
//! committed only if that candidate is the branch taken.

use vstd::prelude::*;
use vstd::slice::{slice_index_get, slice_subrange};
use vstd::string::StringSliceAdditionalSpecFns;

verus! {

/// Position of the first occurrence of `sep` in `s`, or `s.len()` if `sep`
/// does not occur.
pub open spec fn sep_index(s: Seq<u8>, sep: u8) -> int
    decreases s.len(),
{
    if s.len() == 0 {
        0
    } else if s[0] == sep {
        0
    } else {
        1 + sep_index(s.subrange(1, s.len() as int), sep)
    }
}

/// The next token of `s`: everything up to (not including) the first
/// occurrence of `sep`, or all of `s` if `sep` does not occur.
pub open spec fn spec_token(s: Seq<u8>, sep: u8) -> Seq<u8> {
    s.subrange(0, sep_index(s, sep))
}

/// What remains of `s` after consuming the next token and the separator
/// that ends it (nothing remains when `sep` does not occur).
pub open spec fn spec_rest(s: Seq<u8>, sep: u8) -> Seq<u8> {
    if sep_index(s, sep) < s.len() {
        s.subrange(sep_index(s, sep) + 1, s.len() as int)
    } else {
        Seq::empty()
    }
}

/// `sep_index` is in bounds, everything before it differs from `sep`, and it
/// points at `sep` whenever `sep` occurs at all.
pub proof fn lemma_sep_index(s: Seq<u8>, sep: u8)
    ensures
        0 <= sep_index(s, sep) <= s.len(),
        forall|i: int| 0 <= i < sep_index(s, sep) ==> s[i] != sep,
        sep_index(s, sep) < s.len() ==> s[sep_index(s, sep)] == sep,
    decreases s.len(),
{
    if s.len() == 0 {
    } else if s[0] == sep {
    } else {
        let t = s.subrange(1, s.len() as int);
        lemma_sep_index(t, sep);
        assert forall|i: int| 0 <= i < sep_index(s, sep) implies s[i] != sep by {
            if i > 0 {
                assert(s[i] == t[i - 1]);
            }
        }
        if sep_index(s, sep) < s.len() {
            assert(s[sep_index(s, sep)] == t[sep_index(t, sep)]);
        }
    }
}

/// Splitting a concatenation at its separator: when `a` holds no separator,
/// the next token of `a + [sep] + b` is exactly `a` and the rest is `b`.
pub proof fn lemma_token_concat(a: Seq<u8>, b: Seq<u8>, sep: u8)
    requires
        forall|i: int| 0 <= i < a.len() ==> a[i] != sep,
    ensures
        sep_index(a + seq![sep] + b, sep) == a.len(),
        spec_token(a + seq![sep] + b, sep) == a,
        spec_rest(a + seq![sep] + b, sep) == b,
    decreases a.len(),
{
    let s = a + seq![sep] + b;
    if a.len() == 0 {
        assert(s[0] == sep);
        assert(spec_token(s, sep) =~= a);
        assert(spec_rest(s, sep) =~= b);
    } else {
        assert(s[0] == a[0]);
        let a1 = a.subrange(1, a.len() as int);
        lemma_token_concat(a1, b, sep);
        assert(s.subrange(1, s.len() as int) =~= a1 + seq![sep] + b);
        assert(sep_index(s, sep) == 1 + sep_index(a1 + seq![sep] + b, sep));
        assert(spec_token(s, sep) =~= a);
        assert(spec_rest(s, sep) =~= b);
    }
}

/// A cursor over the remaining unconsumed bytes of a command line.
#[derive(Clone, Copy)]
pub struct Input<'a> {
    bytes: &'a [u8],
}

impl<'a> View for Input<'a> {
    type V = Seq<u8>;

    closed spec fn view(&self) -> Seq<u8> {
        self.bytes@
    }
}

impl<'a> Input<'a> {
    /// A fresh cursor over the whole of `text`.
    pub fn new(text: &'a str) -> (r: Self)
        ensures
            r@ == text.spec_bytes(),
    {
        Input { bytes: text.as_bytes() }
    }

    /// Whether no unconsumed content remains.
    pub fn empty(&self) -> (r: bool)
        ensures
            r == (self@.len() == 0),
    {
        self.bytes.len() == 0
    }

    /// Whether no unconsumed content remains.
    pub fn is_empty(&self) -> (r: bool)
        ensures
            r == (self@.len() == 0),
    {
        self.bytes.len() == 0
    }

    /// Consumes and returns the next token: everything up to (not including)
    /// the next occurrence of `separator`. The separator itself is consumed
    /// but not returned; when no separator occurs the rest of the input is
    /// the token and the cursor is left empty.
    pub fn head(&mut self, separator: u8) -> (tok: &'a [u8])
        ensures
            tok@ == spec_token(old(self)@, separator),
            final(self)@ == spec_rest(old(self)@, separator),
    {
        let n: usize = self.bytes.len();
        let mut i: usize = 0;
        while i < n && *slice_index_get(self.bytes, i) != separator
            invariant
                i <= n,
                n == self.bytes@.len(),
                self.bytes@ == old(self)@,
                forall|j: int| 0 <= j < i ==> old(self)@[j] != separator,
            decreases n - i,
        {
            i = i + 1;
        }
        proof {
            lemma_sep_index(self.bytes@, separator);
            if i < n {
                assert(self.bytes@[i as int] == separator);
            }
            assert(i == sep_index(self.bytes@, separator)) by {
                let si = sep_index(self.bytes@, separator);
                if si < i {
                    assert(self.bytes@[si] != separator);
                } else if i < si {
                    assert(self.bytes@[i as int] != separator);
                }
            }
        }
        let tok: &'a [u8] = slice_subrange(self.bytes, 0, i);
        if i < n {
            self.bytes = slice_subrange(self.bytes, i + 1, n);
        } else {
            self.bytes = slice_subrange(self.bytes, n, n);
            proof {
                assert(self.bytes@ =~= Seq::<u8>::empty());
            }
        }
        tok
    }
}

/// Whether two byte slices hold the same bytes.
pub fn bytes_eq(a: &[u8], b: &[u8]) -> (r: bool)
    ensures
        r == (a@ == b@),
{
    if a.len() != b.len() {
        proof {
            assert(a@.len() != b@.len());
        }
        return false;
    }
    let n: usize = a.len();
    let mut i: usize = 0;
    while i < n
        invariant
            i <= n,
            n == a@.len(),
            n == b@.len(),
            forall|j: int| 0 <= j < i ==> a@[j] == b@[j],
        decreases n - i,
    {
        if *slice_index_get(a, i) != *slice_index_get(b, i) {
            proof {
                assert(a@[i as int] != b@[i as int]);
            }
            return false;
        }
        i = i + 1;
    }
    proof {
        assert(a@ =~= b@);
    }
    true
}

} // verus!
