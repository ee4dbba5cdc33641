//! The primitives from which the grammars are composed: a run of bytes of one
//! class, a fixed pattern, and a line ending.
//!
//! All of them give a final verdict as soon as the bytes at hand allow one,
//! and `Incomplete` otherwise.  In particular a run that reaches the end of
//! the buffer is `Incomplete`, since further bytes may extend it.

pub mod laws;

use crate::bytes::{ByteClass, CR, LF};
use crate::concat::lemma_suffix;
use crate::outcome::{Outcome, Parse};
use crate::primitive::laws::{lemma_line_ending_sound, lemma_tag_sound, lemma_take_while1_sound};
use vstd::prelude::*;
use vstd::slice::slice_subrange;

verus! {

impl ByteClass {
    /// The length of the longest prefix of `s` made of bytes of the class.
    pub open spec fn run_len(self, s: Seq<u8>) -> nat
        decreases s.len(),
    {
        if s.len() > 0 && self.contains(s[0]) {
            1 + self.run_len(s.skip(1))
        } else {
            0
        }
    }

    /// Whether the first `n` bytes of `s` belong to the class and the byte
    /// after them, if there is one, does not.
    pub open spec fn is_run(self, s: Seq<u8>, n: int) -> bool {
        &&& 0 <= n <= s.len()
        &&& forall|i: int| 0 <= i < n ==> self.contains(#[trigger] s[i])
        &&& n < s.len() ==> !self.contains(s[n])
    }

    /// Whether every byte of `s` belongs to the class.
    pub open spec fn all(self, s: Seq<u8>) -> bool {
        forall|i: int| 0 <= i < s.len() ==> self.contains(#[trigger] s[i])
    }

    /// Whether `s` is a non-empty sequence of bytes of the class.
    pub open spec fn word(self, s: Seq<u8>) -> bool {
        s.len() > 0 && self.all(s)
    }

    /// `run_len` is the one length that `is_run` holds of.
    pub proof fn lemma_run_len(self, s: Seq<u8>, n: int)
        ensures
            self.is_run(s, n) <==> n == self.run_len(s),
        decreases s.len(),
    {
        if s.len() > 0 && self.contains(s[0]) {
            let t = s.skip(1);
            self.lemma_run_len(t, n - 1);
            if self.is_run(s, n) {
                assert(n > 0);
                assert forall|i: int| 0 <= i < n - 1 implies self.contains(#[trigger] t[i]) by {
                    assert(t[i] == s[i + 1]);
                }
                assert(n - 1 < t.len() ==> t[n - 1] == s[n]);
                assert(self.is_run(t, n - 1));
            }
            if n == self.run_len(s) {
                assert(self.is_run(t, n - 1));
                assert forall|i: int| 0 <= i < n implies self.contains(#[trigger] s[i]) by {
                    if i > 0 {
                        assert(s[i] == t[i - 1]);
                    }
                }
                assert(n < s.len() ==> s[n] == t[n - 1]);
            }
        }
    }
}

/// One or more bytes of `class`, followed by a byte outside it.
///
/// The value is the run, which is as long as it can be; the byte that ends
/// it stays in `rest`.  A buffer whose first byte lies outside the class is
/// an `Error`.  A buffer that is empty, or made of bytes of the class alone,
/// is `Incomplete`.
pub open spec fn spec_take_while1(s: Seq<u8>, class: ByteClass) -> Parse<Seq<u8>> {
    let n = class.run_len(s) as int;
    if n == s.len() {
        Parse::Incomplete
    } else if n == 0 {
        Parse::Error
    } else {
        Parse::Done { rest: s.skip(n), value: s.take(n) }
    }
}

/// The bytes of `pattern`, in order.
///
/// A buffer that differs from the pattern at some byte is an `Error`, even
/// when it is shorter than the pattern; one that is a proper prefix of the
/// pattern is `Incomplete`.
pub open spec fn spec_tag(s: Seq<u8>, pattern: Seq<u8>) -> Parse<Seq<u8>> {
    if pattern.is_prefix_of(s) {
        Parse::Done { rest: s.skip(pattern.len() as int), value: s.take(pattern.len() as int) }
    } else if s.is_prefix_of(pattern) {
        Parse::Incomplete
    } else {
        Parse::Error
    }
}

/// A line feed, or a carriage return and a line feed.
///
/// The bare line feed is accepted although the protocol asks for both bytes.
/// A buffer that is empty or holds a lone carriage return is `Incomplete`:
/// the line feed may still come.
pub open spec fn spec_line_ending(s: Seq<u8>) -> Parse<Seq<u8>> {
    match spec_tag(s, seq![LF]) {
        Parse::Error => spec_tag(s, seq![CR, LF]),
        verdict => verdict,
    }
}

/// Zero or more `item`s, one after the other.
///
/// The repetition ends where the buffer ends, where `item` rejects what
/// follows, or where `item` accepts without consuming a byte; what was
/// accepted up to there is the value.  Where `item` is `Incomplete`, so is
/// the repetition, whatever was accepted before.
pub open spec fn spec_many0<V>(item: spec_fn(Seq<u8>) -> Parse<V>, s: Seq<u8>) -> Parse<Seq<V>>
    decreases s.len(),
{
    if s.len() == 0 {
        Parse::Done { rest: s, value: Seq::empty() }
    } else {
        match item(s) {
            Parse::Done { rest, value } => if rest.len() < s.len() {
                spec_many0(item, rest).prepend(seq![value])
            } else {
                Parse::Done { rest: s, value: Seq::empty() }
            },
            Parse::Error => Parse::Done { rest: s, value: Seq::empty() },
            Parse::Incomplete => Parse::Incomplete,
        }
    }
}

/// One `item`, then zero or more of them as in [`spec_many0`].
pub open spec fn spec_many1<V>(item: spec_fn(Seq<u8>) -> Parse<V>, s: Seq<u8>) -> Parse<Seq<V>> {
    item(s).and_then(|rest: Seq<u8>, first: V| spec_many0(item, rest).prepend(seq![first]))
}

/// Takes the longest run of bytes of `class` from the front of `input`.
///
/// The run is accepted where a byte outside the class follows it; that byte
/// is the first of what is left.  A buffer that begins outside the class is
/// rejected, and one that holds no byte outside the class needs more bytes.
pub fn take_while1<'a>(input: &'a [u8], class: ByteClass) -> (out: Outcome<'a, &'a [u8]>)
    ensures
        out@ == spec_take_while1(input@, class),
        (match out {
            Outcome::Done(rest, run) => {
                &&& input@ == run@ + rest@
                &&& class.word(run@)
                &&& rest@.len() > 0
                &&& !class.contains(rest@[0])
            },
            Outcome::Error => input@.len() > 0 && !class.contains(input@[0]),
            Outcome::Incomplete => class.all(input@),
        }),
        out@.advances(input@),
{
    proof {
        lemma_take_while1_sound(input@, class);
        if let Parse::Done { rest, value } = spec_take_while1(input@, class) {
            lemma_suffix(value, rest);
        }
    }
    let mut n: usize = 0;
    while n < input.len() && class.matches(input[n])
        invariant
            n <= input.len(),
            forall|i: int| 0 <= i < n ==> class.contains(#[trigger] input@[i]),
        decreases input.len() - n,
    {
        n += 1;
    }
    proof {
        class.lemma_run_len(input@, n as int);
    }
    if n == input.len() {
        Outcome::Incomplete
    } else if n == 0 {
        Outcome::Error
    } else {
        Outcome::Done(slice_subrange(input, n, input.len()), slice_subrange(input, 0, n))
    }
}

/// Matches `pattern` at the front of `input`.
///
/// The pattern is accepted where the buffer begins with it.  A buffer that
/// differs from the pattern in some byte is rejected, and one that is the
/// beginning of the pattern and no more needs more bytes.
pub fn tag<'a>(input: &'a [u8], pattern: &[u8]) -> (out: Outcome<'a, &'a [u8]>)
    ensures
        out@ == spec_tag(input@, pattern@),
        (match out {
            Outcome::Done(rest, found) => found@ == pattern@ && input@ == pattern@ + rest@,
            Outcome::Error => exists|i: int|
                0 <= i < input@.len() && i < pattern@.len() && input@[i] != pattern@[i],
            Outcome::Incomplete => input@.len() < pattern@.len() && input@.is_prefix_of(
                pattern@,
            ),
        }),
{
    proof {
        lemma_tag_sound(input@, pattern@);
    }
    let m: usize = if input.len() < pattern.len() {
        input.len()
    } else {
        pattern.len()
    };
    let mut i: usize = 0;
    while i < m
        invariant
            i <= m,
            m <= input.len(),
            m <= pattern.len(),
            forall|j: int| 0 <= j < i ==> input@[j] == pattern@[j],
        decreases m - i,
    {
        if input[i] != pattern[i] {
            proof {
                let k = i as int;
                if pattern@.is_prefix_of(input@) {
                    assert(input@.subrange(0, pattern@.len() as int)[k] == input@[k]);
                }
                if input@.is_prefix_of(pattern@) {
                    assert(pattern@.subrange(0, input@.len() as int)[k] == pattern@[k]);
                }
            }
            return Outcome::Error;
        }
        i += 1;
    }
    if m < pattern.len() {
        assert(input@.is_prefix_of(pattern@));
        Outcome::Incomplete
    } else {
        assert(pattern@.is_prefix_of(input@));
        Outcome::Done(slice_subrange(input, m, input.len()), slice_subrange(input, 0, m))
    }
}

/// Matches a line ending at the front of `input`: a line feed, or a
/// carriage return and a line feed.
///
/// A buffer that is empty, or holds a carriage return and nothing after it,
/// needs more bytes: the line feed may still come.  Every other buffer that
/// does not begin with a line ending is rejected.
pub fn line_ending<'a>(input: &'a [u8]) -> (out: Outcome<'a, &'a [u8]>)
    ensures
        out@ == spec_line_ending(input@),
        (match out {
            Outcome::Done(rest, end) => {
                &&& input@ == end@ + rest@
                &&& end@ == seq![LF] || end@ == seq![CR, LF]
            },
            Outcome::Error => input@.len() > 0 && input@[0] != LF && (input@[0] != CR || (
            input@.len() > 1 && input@[1] != LF)),
            Outcome::Incomplete => input@ == Seq::<u8>::empty() || input@ == seq![CR],
        }),
        out@.advances(input@),
{
    proof {
        lemma_line_ending_sound(input@);
        if let Parse::Done { rest, value } = spec_line_ending(input@) {
            lemma_suffix(value, rest);
        }
    }
    let lf: [u8; 1] = [LF];
    let crlf: [u8; 2] = [CR, LF];
    match tag(input, lf.as_slice()) {
        Outcome::Error => tag(input, crlf.as_slice()),
        verdict => verdict,
    }
}

} // verus!
