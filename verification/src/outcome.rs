//! The three-way result of every grammar.
//!
//! A grammar reads a buffer that may hold only the first part of a message.
//! It either accepts a prefix of the buffer, rejects the buffer, or asks for
//! more bytes.  [`Parse`] is that verdict over sequences of bytes, as
//! contracts speak of it; [`Outcome`] is what the executable grammars return,
//! with every accepted part borrowed from the caller's buffer.

use vstd::prelude::*;

verus! {

/// The verdict of a grammar on a sequence of bytes.
pub enum Parse<V> {
    /// A prefix of the bytes was accepted as `value`; `rest` are the bytes
    /// that follow it.
    Done { rest: Seq<u8>, value: V },
    /// The bytes do not begin like anything the grammar accepts.
    Error,
    /// The bytes seen so far may begin something the grammar accepts, but
    /// they end before that can be decided.
    Incomplete,
}

impl<V> Parse<V> {
    /// Sequencing: where `self` accepted a prefix, the verdict of `next` on
    /// what follows it; otherwise the verdict of `self`.
    pub open spec fn and_then<W>(self, next: spec_fn(Seq<u8>, V) -> Parse<W>) -> Parse<W> {
        match self {
            Parse::Done { rest, value } => next(rest, value),
            Parse::Error => Parse::Error,
            Parse::Incomplete => Parse::Incomplete,
        }
    }

    /// Whether a prefix was accepted and `f` is what is left.
    pub open spec fn leaves(self, f: Seq<u8>) -> bool {
        self matches Parse::Done { rest, .. } && rest == f
    }

    /// Whether the whole buffer was accepted, up to its last byte.
    pub open spec fn leaves_nothing(self) -> bool {
        self matches Parse::Done { rest, .. } && rest.len() == 0
    }

    /// Whether, where a prefix of `s` was accepted, that prefix is not empty
    /// and what is left is the end of `s`.
    pub open spec fn advances(self, s: Seq<u8>) -> bool {
        self matches Parse::Done { rest, .. } ==> rest.len() < s.len() && rest.is_suffix_of(s)
    }

    /// Whether the verdict `self` on a buffer is still the verdict once `t`
    /// has been appended to the buffer, where `later` is the verdict on the
    /// longer buffer: what was accepted is accepted again with `t` added to
    /// what is left, and what was rejected is rejected again.  Of an
    /// `Incomplete` verdict this asks nothing.
    pub open spec fn persists(self, t: Seq<u8>, later: Parse<V>) -> bool {
        match self {
            Parse::Done { rest, value } => later == (Parse::Done { rest: rest + t, value }),
            Parse::Error => later is Error,
            Parse::Incomplete => true,
        }
    }

    /// As [`Parse::persists`], but asking nothing either of a verdict that
    /// accepted the buffer up to its last byte.
    pub open spec fn persists_unless_exhausted(self, t: Seq<u8>, later: Parse<V>) -> bool {
        match self {
            Parse::Done { rest, value } => rest.len() > 0 ==> later == (Parse::Done {
                rest: rest + t,
                value,
            }),
            Parse::Error => later is Error,
            Parse::Incomplete => true,
        }
    }
}

impl<V> Parse<Seq<V>> {
    /// The same verdict, with `head` put before the values that were
    /// accepted.
    pub open spec fn prepend(self, head: Seq<V>) -> Parse<Seq<V>> {
        match self {
            Parse::Done { rest, value } => Parse::Done { rest, value: head + value },
            Parse::Error => Parse::Error,
            Parse::Incomplete => Parse::Incomplete,
        }
    }
}

/// What a grammar returns for a buffer.
#[derive(Debug, Clone, PartialEq, Eq)]
pub enum Outcome<'a, T> {
    /// The part of the buffer that was not consumed, and what the consumed
    /// part was parsed into.
    Done(&'a [u8], T),
    /// The buffer is malformed.
    Error,
    /// The buffer ends too early to tell; the caller should append more bytes
    /// and parse again from the start.
    Incomplete,
}

impl<'a, T: View> View for Outcome<'a, T> {
    type V = Parse<T::V>;

    open spec fn view(&self) -> Parse<T::V> {
        match *self {
            Outcome::Done(rest, value) => Parse::Done { rest: rest@, value: value@ },
            Outcome::Error => Parse::Error,
            Outcome::Incomplete => Parse::Incomplete,
        }
    }
}

} // verus!
