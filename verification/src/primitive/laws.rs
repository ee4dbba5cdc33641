//! What holds of the primitives, whatever the buffer: what each verdict says
//! of the bytes, what is accepted as it stands, and that a verdict other
//! than `Incomplete` stays when bytes are appended.

use crate::bytes::{ByteClass, CR, LF, SP};
use crate::concat::lemma_suffix_of_suffix;
use crate::outcome::Parse;
use crate::primitive::{spec_line_ending, spec_many0, spec_many1, spec_tag, spec_take_while1};
use vstd::prelude::*;

verus! {

/// What each verdict of [`spec_take_while1`] says of the bytes: an accepted
/// run is a word of the class that is followed by a byte outside the class, a
/// rejected buffer begins with a byte outside the class, and a buffer that
/// needs more bytes has none outside the class.
pub proof fn lemma_take_while1_sound(s: Seq<u8>, class: ByteClass)
    ensures
        (match spec_take_while1(s, class) {
            Parse::Done { rest, value } => {
                &&& s == value + rest
                &&& class.word(value)
                &&& rest.len() > 0
                &&& !class.contains(rest[0])
            },
            Parse::Error => s.len() > 0 && !class.contains(s[0]),
            Parse::Incomplete => class.all(s),
        }),
{
    let n = class.run_len(s) as int;
    class.lemma_run_len(s, n);
    if 0 < n < s.len() {
        assert(s =~= s.take(n) + s.skip(n));
        assert(s.skip(n)[0] == s[n]);
        assert forall|i: int| 0 <= i < n implies class.contains(#[trigger] s.take(n)[i]) by {
            assert(s.take(n)[i] == s[i]);
        }
    }
}

/// A word of the class, followed by a byte outside the class, is accepted as
/// it stands.
pub proof fn lemma_take_while1_accepts(run: Seq<u8>, rest: Seq<u8>, class: ByteClass)
    requires
        class.word(run),
        rest.len() > 0,
        !class.contains(rest[0]),
    ensures
        spec_take_while1(run + rest, class) == (Parse::Done { rest, value: run }),
{
    let s = run + rest;
    let n = run.len() as int;
    assert forall|i: int| 0 <= i < n implies class.contains(#[trigger] s[i]) by {
        assert(s[i] == run[i]);
    }
    assert(s[n] == rest[0]);
    class.lemma_run_len(s, n);
    assert(s.skip(n) =~= rest);
    assert(s.take(n) =~= run);
}

/// What [`spec_take_while1`] accepts or rejects stays so when bytes are
/// appended.
pub proof fn lemma_take_while1_persists(s: Seq<u8>, t: Seq<u8>, class: ByteClass)
    ensures
        spec_take_while1(s, class).persists(t, spec_take_while1(s + t, class)),
{
    lemma_take_while1_sound(s, class);
    match spec_take_while1(s, class) {
        Parse::Done { rest, value } => {
            assert((value + rest) + t =~= value + (rest + t));
            lemma_take_while1_accepts(value, rest + t, class);
        },
        Parse::Error => {
            assert((s + t)[0] == s[0]);
            class.lemma_run_len(s + t, 0);
        },
        Parse::Incomplete => {},
    }
}

/// What each verdict of [`spec_tag`] says of the bytes.
pub proof fn lemma_tag_sound(s: Seq<u8>, pattern: Seq<u8>)
    ensures
        (match spec_tag(s, pattern) {
            Parse::Done { rest, value } => s == pattern + rest && value == pattern,
            Parse::Error => exists|i: int|
                0 <= i < s.len() && i < pattern.len() && s[i] != pattern[i],
            Parse::Incomplete => s.len() < pattern.len() && s.is_prefix_of(pattern),
        }),
{
    let n = pattern.len() as int;
    if pattern.is_prefix_of(s) {
        assert(s =~= pattern + s.skip(n));
    } else if s.is_prefix_of(pattern) {
        if s.len() == pattern.len() {
            assert(pattern =~= s.subrange(0, n));
        }
    } else {
        let m = if s.len() < n { s.len() as int } else { n };
        if forall|i: int| 0 <= i < m ==> s[i] == pattern[i] {
            if s.len() < n {
                assert(s =~= pattern.subrange(0, s.len() as int));
            } else {
                assert(pattern =~= s.subrange(0, n));
            }
        }
    }
}

/// The pattern, followed by anything, is accepted.
pub proof fn lemma_tag_accepts(rest: Seq<u8>, pattern: Seq<u8>)
    ensures
        spec_tag(pattern + rest, pattern) == (Parse::Done { rest, value: pattern }),
{
    let s = pattern + rest;
    let n = pattern.len() as int;
    assert(s.subrange(0, n) =~= pattern);
    assert(s.skip(n) =~= rest);
}

/// What [`spec_tag`] accepts or rejects stays so when bytes are appended.
pub proof fn lemma_tag_persists(s: Seq<u8>, t: Seq<u8>, pattern: Seq<u8>)
    ensures
        spec_tag(s, pattern).persists(t, spec_tag(s + t, pattern)),
{
    lemma_tag_sound(s, pattern);
    match spec_tag(s, pattern) {
        Parse::Done { rest, value } => {
            assert((pattern + rest) + t =~= pattern + (rest + t));
            lemma_tag_accepts(rest + t, pattern);
        },
        Parse::Error => {
            let i = choose|i: int| 0 <= i < s.len() && i < pattern.len() && s[i] != pattern[i];
            assert((s + t)[i] == s[i]);
            if pattern.is_prefix_of(s + t) {
                assert((s + t).subrange(0, pattern.len() as int)[i] == pattern[i]);
            }
            if (s + t).is_prefix_of(pattern) {
                assert(pattern.subrange(0, (s + t).len() as int)[i] == (s + t)[i]);
            }
        },
        Parse::Incomplete => {},
    }
}

/// What each verdict of [`spec_line_ending`] says of the bytes: the two
/// accepted forms, and the two buffers that may still become one of them.
pub proof fn lemma_line_ending_sound(s: Seq<u8>)
    ensures
        (match spec_line_ending(s) {
            Parse::Done { rest, value } => {
                &&& s == value + rest
                &&& value == seq![LF] || value == seq![CR, LF]
            },
            Parse::Error => s.len() > 0 && s[0] != LF && (s[0] != CR || (s.len() > 1 && s[1]
                != LF)),
            Parse::Incomplete => s == Seq::<u8>::empty() || s == seq![CR],
        }),
{
    let lf = seq![LF];
    let crlf = seq![CR, LF];
    lemma_tag_sound(s, lf);
    lemma_tag_sound(s, crlf);
    match spec_tag(s, lf) {
        Parse::Error => {
            match spec_tag(s, crlf) {
                Parse::Done { rest, value } => {},
                Parse::Error => {
                    if s[0] == CR && s.len() == 1 {
                        assert(s =~= crlf.subrange(0, 1));
                    }
                    if s[0] == CR && s.len() > 1 && s[1] == LF {
                        assert(crlf =~= s.subrange(0, 2));
                    }
                },
                Parse::Incomplete => {
                    assert(s.len() == 1);
                    assert(crlf.subrange(0, 1)[0] == CR);
                    assert(s =~= seq![CR]);
                },
            }
        },
        Parse::Done { rest, value } => {},
        Parse::Incomplete => {
            assert(s =~= Seq::<u8>::empty());
        },
    }
}

/// Either form of line ending, followed by anything, is accepted.
pub proof fn lemma_line_ending_accepts(end: Seq<u8>, rest: Seq<u8>)
    requires
        end == seq![LF] || end == seq![CR, LF],
    ensures
        spec_line_ending(end + rest) == (Parse::Done { rest, value: end }),
{
    let lf = seq![LF];
    let crlf = seq![CR, LF];
    lemma_tag_accepts(rest, end);
    if end == crlf {
        lemma_tag_sound(end + rest, lf);
        assert((end + rest)[0] == CR);
    }
}

/// What [`spec_line_ending`] accepts or rejects stays so when bytes are
/// appended.
pub proof fn lemma_line_ending_persists(s: Seq<u8>, t: Seq<u8>)
    ensures
        spec_line_ending(s).persists(t, spec_line_ending(s + t)),
{
    lemma_line_ending_sound(s);
    match spec_line_ending(s) {
        Parse::Done { rest, value } => {
            assert((value + rest) + t =~= value + (rest + t));
            lemma_line_ending_accepts(value, rest + t);
        },
        Parse::Error => {
            lemma_line_ending_sound(s + t);
            assert((s + t)[0] == s[0]);
            if s.len() > 1 {
                assert((s + t)[1] == s[1]);
            }
            match spec_line_ending(s + t) {
                Parse::Done { rest, value } => {
                    assert((value + rest)[0] == value[0]);
                    if value == seq![CR, LF] {
                        assert((value + rest)[1] == value[1]);
                    }
                },
                Parse::Error => {},
                Parse::Incomplete => {},
            }
        },
        Parse::Incomplete => {},
    }
}

impl ByteClass {
    /// Some byte of the class: none of the classes is empty.
    spec fn sample(self) -> u8 {
        match self {
            ByteClass::Token => 0x41,
            ByteClass::Space => SP,
            ByteClass::NotSpace => 0x2f,
            ByteClass::HorizontalSpace => SP,
            ByteClass::Version => 0x31,
            ByteClass::NotLineEnding => 0x78,
        }
    }
}

/// A run is `Incomplete` exactly where the buffer holds nothing but bytes of
/// the class.
pub proof fn lemma_take_while1_incomplete(s: Seq<u8>, class: ByteClass)
    ensures
        spec_take_while1(s, class) is Incomplete <==> class.all(s),
{
    lemma_take_while1_sound(s, class);
    if let Parse::Done { rest, value } = spec_take_while1(s, class) {
        assert(rest[0] == s[value.len() as int]);
    }
}

/// A run that is `Incomplete` can be completed: after some bytes `t`, and
/// then any bytes `f` that begin outside the class, the run is accepted and
/// `f` is what is left.
pub proof fn lemma_take_while1_completes(s: Seq<u8>, class: ByteClass, f: Seq<u8>) -> (t: Seq<u8>)
    requires
        spec_take_while1(s, class) is Incomplete,
        f.len() > 0,
        !class.contains(f[0]),
    ensures
        class.word(s + t),
        spec_take_while1(s + t + f, class) == (Parse::Done { rest: f, value: s + t }),
{
    lemma_take_while1_sound(s, class);
    let t = if s.len() == 0 {
        seq![class.sample()]
    } else {
        Seq::empty()
    };
    assert forall|i: int| 0 <= i < (s + t).len() implies class.contains(#[trigger] (s + t)[i]) by {
        if i < s.len() {
            assert((s + t)[i] == s[i]);
        }
    }
    lemma_take_while1_accepts(s + t, f, class);
    t
}

/// A pattern that is `Incomplete` can be completed: after the bytes of the
/// pattern that are missing, and then any bytes `f`, the pattern is accepted
/// and `f` is what is left.
pub proof fn lemma_tag_completes(s: Seq<u8>, pattern: Seq<u8>, f: Seq<u8>) -> (t: Seq<u8>)
    requires
        spec_tag(s, pattern) is Incomplete,
    ensures
        s + t == pattern,
        spec_tag(s + t + f, pattern) == (Parse::Done { rest: f, value: pattern }),
{
    lemma_tag_sound(s, pattern);
    let t = pattern.skip(s.len() as int);
    assert(s + t =~= pattern);
    lemma_tag_accepts(f, pattern);
    t
}

/// A line ending that is `Incomplete` can be completed: after a line feed,
/// and then any bytes `f`, it is accepted and `f` is what is left.
pub proof fn lemma_line_ending_completes(s: Seq<u8>, f: Seq<u8>)
    requires
        spec_line_ending(s) is Incomplete,
    ensures
        s + seq![LF] == seq![LF] || s + seq![LF] == seq![CR, LF],
        spec_line_ending(s + seq![LF] + f) == (Parse::Done { rest: f, value: s + seq![LF] }),
{
    lemma_line_ending_sound(s);
    let end = s + seq![LF];
    assert(end =~= seq![LF] || end =~= seq![CR, LF]);
    lemma_line_ending_accepts(end, f);
}

/// Putting one value and then `seen` before what a repetition accepted is
/// putting `seen` with that value at its end before it.
pub proof fn lemma_prepend_push<V>(more: Parse<Seq<V>>, seen: Seq<V>, value: V)
    ensures
        more.prepend(seq![value]).prepend(seen) == more.prepend(seen.push(value)),
{
    if let Parse::Done { rest, value: others } = more {
        assert(seen + (seq![value] + others) =~= seen.push(value) + others);
    }
}

/// Putting `seen` before a repetition that accepted nothing gives `seen`.
pub proof fn lemma_prepend_to_none<V>(rest: Seq<u8>, seen: Seq<V>)
    ensures
        (Parse::Done { rest, value: Seq::<V>::empty() }).prepend(seen) == (Parse::Done {
            rest,
            value: seen,
        }),
{
    assert(seen + Seq::<V>::empty() =~= seen);
}

/// Whether `item` always consumes at least one byte of what it accepts from,
/// and leaves the end of its buffer.
pub open spec fn item_advances<V>(item: spec_fn(Seq<u8>) -> Parse<V>) -> bool {
    forall|x: Seq<u8>| #[trigger] item(x).advances(x)
}

/// Whether every value that `item` accepts is `good`.
pub open spec fn item_yields<V>(
    item: spec_fn(Seq<u8>) -> Parse<V>,
    good: spec_fn(V) -> bool,
) -> bool {
    forall|x: Seq<u8>| (#[trigger] item(x)) matches Parse::Done { value, .. } ==> good(value)
}

/// Whether the verdicts of `item` persist when bytes are appended, but for
/// those that accept a buffer up to its last byte.
pub open spec fn item_persists<V>(item: spec_fn(Seq<u8>) -> Parse<V>) -> bool {
    forall|x: Seq<u8>, t: Seq<u8>| #[trigger]
        item(x).persists_unless_exhausted(t, item(x + t))
}

/// A repetition is never rejected, and what it leaves is the end of its
/// buffer.
pub proof fn lemma_many0_sound<V>(item: spec_fn(Seq<u8>) -> Parse<V>, s: Seq<u8>)
    requires
        item_advances(item),
    ensures
        (match spec_many0(item, s) {
            Parse::Done { rest, value } => rest.is_suffix_of(s),
            Parse::Error => false,
            Parse::Incomplete => true,
        }),
    decreases s.len(),
{
    if s.len() > 0 {
        if let Parse::Done { rest, value } = item(s) {
            assert(item(s).advances(s));
            lemma_many0_sound(item, rest);
            if let Parse::Done { rest: end, value: more } = spec_many0(item, rest) {
                lemma_suffix_of_suffix(end, rest, s);
            }
        }
    }
}

/// Every value of a repetition is one that the item accepts.
pub proof fn lemma_many0_yields<V>(
    item: spec_fn(Seq<u8>) -> Parse<V>,
    good: spec_fn(V) -> bool,
    s: Seq<u8>,
)
    requires
        item_yields(item, good),
    ensures
        spec_many0(item, s) is Done ==> forall|i: int|
            0 <= i < spec_many0(item, s)->value.len() ==> good(
                #[trigger] spec_many0(item, s)->value[i],
            ),
    decreases s.len(),
{
    if s.len() > 0 {
        if let Parse::Done { rest, value } = item(s) {
            if rest.len() < s.len() {
                lemma_many0_yields(item, good, rest);
            }
        }
    }
}

/// What a repetition accepts stays so when bytes are appended, unless it
/// accepted the buffer up to its last byte.
pub proof fn lemma_many0_persists<V>(item: spec_fn(Seq<u8>) -> Parse<V>, s: Seq<u8>, t: Seq<u8>)
    requires
        item_persists(item),
    ensures
        spec_many0(item, s).persists_unless_exhausted(t, spec_many0(item, s + t)),
    decreases s.len(),
{
    if s.len() > 0 {
        assert(item(s).persists_unless_exhausted(t, item(s + t)));
        if let Parse::Done { rest, value } = item(s) {
            if rest.len() < s.len() {
                lemma_many0_persists(item, rest, t);
            }
        }
    }
}

/// One or more items: what is left is the end of the buffer and shorter than
/// it, and there is at least one value.
pub proof fn lemma_many1_sound<V>(item: spec_fn(Seq<u8>) -> Parse<V>, s: Seq<u8>)
    requires
        item_advances(item),
    ensures
        spec_many1(item, s).advances(s),
        spec_many1(item, s) is Done ==> spec_many1(item, s)->value.len() > 0,
{
    assert(item(s).advances(s));
    if let Parse::Done { rest, value } = item(s) {
        lemma_many0_sound(item, rest);
        if let Parse::Done { rest: end, value: more } = spec_many0(item, rest) {
            lemma_suffix_of_suffix(end, rest, s);
        }
    }
}

/// Every value of one or more items is one that the item accepts.
pub proof fn lemma_many1_yields<V>(
    item: spec_fn(Seq<u8>) -> Parse<V>,
    good: spec_fn(V) -> bool,
    s: Seq<u8>,
)
    requires
        item_yields(item, good),
    ensures
        spec_many1(item, s) is Done ==> forall|i: int|
            0 <= i < spec_many1(item, s)->value.len() ==> good(
                #[trigger] spec_many1(item, s)->value[i],
            ),
{
    if let Parse::Done { rest, value } = item(s) {
        lemma_many0_yields(item, good, rest);
    }
}

/// What one or more items accept or reject stays so when bytes are appended,
/// unless they accepted the buffer up to its last byte.
pub proof fn lemma_many1_persists<V>(item: spec_fn(Seq<u8>) -> Parse<V>, s: Seq<u8>, t: Seq<u8>)
    requires
        item_persists(item),
    ensures
        spec_many1(item, s).persists_unless_exhausted(t, spec_many1(item, s + t)),
{
    assert(item(s).persists_unless_exhausted(t, item(s + t)));
    if let Parse::Done { rest, value } = item(s) {
        lemma_many0_persists(item, rest, t);
    }
}

} // verus!
