//! The indented text renderer: a stateful encoder that walks a value tree
//! through the value protocol and appends an indented, human-readable
//! textual tree to its output buffer.
//!
//! The renderer is a three-state machine over what the next protocol call
//! must supply (a key, a value, or a sequence element), with an explicit
//! context stack so that unbalanced `begin`/`end` calls are reported as
//! errors instead of corrupting output. Rendering is deterministic: every
//! method's contract pins the appended text to a function of the input and
//! the renderer's state, so identical input and context yield byte-identical
//! output.

use vstd::prelude::*;
use vstd::string::StringExecFns;

use crate::strutil::{lemma_spaces_len, push_char, spaces};
use crate::value::{scalar_text, append_scalar_text, EncodableValue, EncodeError, VariantPayload};

verus! {

/// What the next protocol call must supply.
#[derive(Clone, Copy, Debug, PartialEq)]
pub enum Expecting {
    /// A mapping key, or the start of a new top-level entry.
    Key,
    /// The value belonging to the key just written.
    Value,
    /// The next element of a sequence.
    Element,
}

/// The number of `Key` entries on a context stack. Each one was pushed by a
/// container opened in value position, which also grew the indentation by
/// one two-column unit.
pub open spec fn count_key(s: Seq<Expecting>) -> nat
    decreases s.len(),
{
    if s.len() == 0 {
        0
    } else {
        count_key(s.drop_last()) + (if s.last() is Key {
            1nat
        } else {
            0nat
        })
    }
}

/// The escape that turns bold styling on.
pub open spec fn bold_on() -> Seq<char> {
    seq!['\u{1b}', '[', '1', 'm']
}

/// The escape that returns to unstyled text.
pub open spec fn bold_off() -> Seq<char> {
    seq!['\u{1b}', '[', '0', 'm']
}

/// Key text with the fixed emphasis style applied, when styling is on.
pub open spec fn styled_text(s: Seq<char>, on: bool) -> Seq<char> {
    if on {
        bold_on() + s + bold_off()
    } else {
        s
    }
}

/// The text appended for a value standing in value position (directly after
/// its key), at indentation width `n`.
pub open spec fn value_text(v: EncodableValue, n: nat, st: bool) -> Seq<char>
    decreases v, 1nat,
{
    match v {
        EncodableValue::Sequence(vs) => seq![':', '\n'] + elems_text(vs@, n + 2, st),
        EncodableValue::Mapping(ps) => seq![':', '\n'] + fields_text(ps@, n + 2, st),
        EncodableValue::Bytes(bs) => seq![':', '\n'] + bytes_text(bs@, n + 2),
        EncodableValue::Variant { name, payload } => seq![':', '\n'] + spaces(n + 2)
            + styled_text(name@, st) + payload_text(payload, n + 2, st),
        _ => seq![':', ' '] + scalar_text(v) + seq!['\n'],
    }
}

/// The text appended for a value standing in element position (its own line
/// of a sequence), at indentation width `n`.
pub open spec fn element_text(v: EncodableValue, n: nat, st: bool) -> Seq<char>
    decreases v, 1nat,
{
    match v {
        EncodableValue::Sequence(vs) => elems_text(vs@, n, st),
        EncodableValue::Mapping(ps) => fields_text(ps@, n, st),
        EncodableValue::Bytes(bs) => bytes_text(bs@, n),
        EncodableValue::Variant { name, payload } => spaces(n) + styled_text(name@, st)
            + payload_text(payload, n, st),
        _ => spaces(n) + scalar_text(v) + seq!['\n'],
    }
}

/// The text appended for a variant payload, written as the value belonging
/// to the key that carries the variant name. An empty payload is written as
/// the null leaf.
pub open spec fn payload_text(p: VariantPayload, n: nat, st: bool) -> Seq<char>
    decreases p, 2nat,
{
    match p {
        VariantPayload::Unit => seq![':', ' ', 'n', 'u', 'l', 'l', '\n'],
        VariantPayload::Newtype(b) => value_text(*b, n, st),
        VariantPayload::Tuple(vs) => seq![':', '\n'] + elems_text(vs@, n + 2, st),
        VariantPayload::Struct(ps) => seq![':', '\n'] + fields_text(ps@, n + 2, st),
    }
}

/// The lines of a run of sequence elements at indentation width `n`.
pub open spec fn elems_text(vs: Seq<EncodableValue>, n: nat, st: bool) -> Seq<char>
    decreases vs, 0nat,
{
    if vs.len() == 0 {
        Seq::<char>::empty()
    } else {
        element_text(vs[0], n, st) + elems_text(vs.drop_first(), n, st)
    }
}

/// The lines of a run of mapping entries at indentation width `n`: each key
/// on its own indented line with the emphasis style, followed by its value.
pub open spec fn fields_text(ps: Seq<(String, EncodableValue)>, n: nat, st: bool) -> Seq<char>
    decreases ps, 0nat,
{
    if ps.len() == 0 {
        Seq::<char>::empty()
    } else {
        spaces(n) + styled_text(ps[0].0@, st) + value_text(ps[0].1, n, st)
            + fields_text(ps.drop_first(), n, st)
    }
}

/// The lines of a byte run: one decimal number per line, since a renderer
/// with no native byte-sequence form presents bytes as a sequence of
/// unsigned numbers.
pub open spec fn bytes_text(bs: Seq<u8>, n: nat) -> Seq<char>
    decreases bs.len(),
{
    if bs.len() == 0 {
        Seq::<char>::empty()
    } else {
        spaces(n) + crate::strutil::dec_of(bs[0] as nat) + seq!['\n'] + bytes_text(
            bs.drop_first(),
            n,
        )
    }
}

/// Two renderer states that render identically: same output so far, same
/// context, same styling.
pub open spec fn same_state(a: Formatter, b: Formatter) -> bool {
    &&& a.out@ == b.out@
    &&& a.indent@ == b.indent@
    &&& a.expecting == b.expecting
    &&& a.stack@ == b.stack@
    &&& a.styled == b.styled
}

/// The indented text renderer. One instance is created per formatted record
/// and owns its render context (indentation text, the next expected token,
/// and the context stack) together with the output buffer the record is
/// appended to.
pub struct Formatter {
    /// The text rendered so far.
    pub out: String,
    /// The current indentation text; grows and shrinks by one two-column
    /// unit per value-bearing nesting level.
    pub indent: Vec<char>,
    /// What the next protocol call must supply.
    pub expecting: Expecting,
    /// The `expecting` states of the enclosing levels, one per open
    /// container, popped by the matching `end` call.
    pub stack: Vec<Expecting>,
    /// Whether keys are wrapped in the fixed emphasis style.
    pub styled: bool,
}

impl Formatter {
    /// The renderer's invariant: the indentation text is exactly one
    /// two-column unit of spaces per `Key` entry on the context stack,
    /// because such entries are pushed only by containers opened in value
    /// position, which is the one transition that grows the indentation.
    pub open spec fn wf(self) -> bool {
        self.indent@ == spaces(2 * count_key(self.stack@))
    }

    /// A fresh renderer: empty output, no open containers, expecting a key.
    pub fn new(styled: bool) -> (r: Formatter)
        ensures
            r.wf(),
            r.out@ == Seq::<char>::empty(),
            r.indent@ == Seq::<char>::empty(),
            r.expecting is Key,
            r.stack@ == Seq::<Expecting>::empty(),
            r.styled == styled,
    {
        let r = Formatter {
            out: String::new(),
            indent: Vec::new(),
            expecting: Expecting::Key,
            stack: Vec::new(),
            styled,
        };
        proof {
            assert(count_key(r.stack@) == 0);
            assert(r.indent@ =~= spaces(0));
        }
        r
    }

    /// Appends the current indentation text to the output.
    fn write_indent(&mut self)
        ensures
            final(self).out@ == old(self).out@ + old(self).indent@,
            final(self).indent == old(self).indent,
            final(self).expecting == old(self).expecting,
            final(self).stack == old(self).stack,
            final(self).styled == old(self).styled,
    {
        let mut i: usize = 0;
        while i < self.indent.len()
            invariant
                i <= self.indent@.len(),
                self.out@ == old(self).out@ + self.indent@.subrange(0, i as int),
                self.indent == old(self).indent,
                self.expecting == old(self).expecting,
                self.stack == old(self).stack,
                self.styled == old(self).styled,
            decreases self.indent@.len() - i,
        {
            let c: char = self.indent[i];
            push_char(&mut self.out, c);
            i = i + 1;
            proof {
                assert(self.out@ =~= old(self).out@ + self.indent@.subrange(0, i as int));
            }
        }
        proof {
            assert(self.indent@.subrange(0, self.indent@.len() as int) =~= self.indent@);
        }
    }

    /// Appends key text to the output, wrapped in the emphasis style when
    /// styling is on.
    fn write_styled(&mut self, s: &str)
        ensures
            final(self).out@ == old(self).out@ + styled_text(s@, old(self).styled),
            final(self).indent == old(self).indent,
            final(self).expecting == old(self).expecting,
            final(self).stack == old(self).stack,
            final(self).styled == old(self).styled,
    {
        if self.styled {
            self.out.append("\u{1b}[1m");
            self.out.append(s);
            self.out.append("\u{1b}[0m");
            proof {
                reveal_strlit("\u{1b}[1m");
                reveal_strlit("\u{1b}[0m");
                assert("\u{1b}[1m"@ =~= bold_on());
                assert("\u{1b}[0m"@ =~= bold_off());
                assert(self.out@ =~= old(self).out@ + styled_text(s@, old(self).styled));
            }
        } else {
            self.out.append(s);
        }
    }

    /// The protocol call that supplies a leaf value. In key position the
    /// leaf's text is written, indented and styled, and a value is expected
    /// next; in value position it completes the `key: value` line; in
    /// element position it stands on a line of its own. A leaf never changes
    /// the nesting, so this call cannot fail.
    pub fn scalar(&mut self, v: &EncodableValue)
        requires
            old(self).wf(),
            v.is_leaf(),
        ensures
            final(self).wf(),
            final(self).indent@ == old(self).indent@,
            final(self).stack@ == old(self).stack@,
            final(self).styled == old(self).styled,
            old(self).expecting is Key ==> {
                &&& final(self).out@ == old(self).out@ + old(self).indent@ + styled_text(
                    scalar_text(*v),
                    old(self).styled,
                )
                &&& final(self).expecting is Value
            },
            old(self).expecting is Value ==> {
                &&& final(self).out@ == old(self).out@ + seq![':', ' '] + scalar_text(*v)
                    + seq!['\n']
                &&& final(self).expecting is Key
            },
            old(self).expecting is Element ==> {
                &&& final(self).out@ == old(self).out@ + old(self).indent@ + scalar_text(*v)
                    + seq!['\n']
                &&& final(self).expecting is Element
            },
    {
        match self.expecting {
            Expecting::Key => {
                self.write_indent();
                if self.styled {
                    self.out.append("\u{1b}[1m");
                    append_scalar_text(&mut self.out, v);
                    self.out.append("\u{1b}[0m");
                    proof {
                        reveal_strlit("\u{1b}[1m");
                        reveal_strlit("\u{1b}[0m");
                        assert("\u{1b}[1m"@ =~= bold_on());
                        assert("\u{1b}[0m"@ =~= bold_off());
                        assert(self.out@ =~= old(self).out@ + old(self).indent@ + styled_text(
                            scalar_text(*v),
                            old(self).styled,
                        ));
                    }
                } else {
                    append_scalar_text(&mut self.out, v);
                }
                self.expecting = Expecting::Value;
            },
            Expecting::Value => {
                push_char(&mut self.out, ':');
                push_char(&mut self.out, ' ');
                append_scalar_text(&mut self.out, v);
                push_char(&mut self.out, '\n');
                self.expecting = Expecting::Key;
                proof {
                    assert(self.out@ =~= old(self).out@ + seq![':', ' '] + scalar_text(*v)
                        + seq!['\n']);
                }
            },
            Expecting::Element => {
                self.write_indent();
                append_scalar_text(&mut self.out, v);
                push_char(&mut self.out, '\n');
                proof {
                    assert(self.out@ =~= old(self).out@ + old(self).indent@ + scalar_text(*v)
                        + seq!['\n']);
                }
            },
        }
    }

    /// Opens a container. In value position this completes the key's line
    /// with a bare colon, grows the indentation by one unit and remembers
    /// that a key context follows the container; in element position the
    /// current context is remembered unchanged. A container where a key is
    /// expected is a protocol violation: only a leaf can stand in key
    /// position, and the call fails without touching the renderer.
    fn begin_container(&mut self, next: Expecting) -> (r: Result<(), EncodeError>)
        requires
            old(self).wf(),
        ensures
            final(self).wf(),
            final(self).styled == old(self).styled,
            r is Err <==> old(self).expecting is Key,
            r is Err ==> same_state(*final(self), *old(self)) && (r matches Err(e) && e is ContainerAsKey),
            old(self).expecting is Value ==> {
                &&& final(self).out@ == old(self).out@ + seq![':', '\n']
                &&& final(self).indent@ == old(self).indent@ + seq![' ', ' ']
                &&& final(self).stack@ == old(self).stack@.push(Expecting::Key)
                &&& final(self).expecting == next
            },
            old(self).expecting is Element ==> {
                &&& final(self).out@ == old(self).out@
                &&& final(self).indent@ == old(self).indent@
                &&& final(self).stack@ == old(self).stack@.push(Expecting::Element)
                &&& final(self).expecting == next
            },
    {
        match self.expecting {
            Expecting::Key => Err(EncodeError::ContainerAsKey),
            Expecting::Value => {
                push_char(&mut self.out, ':');
                push_char(&mut self.out, '\n');
                self.indent.push(' ');
                self.indent.push(' ');
                self.stack.push(Expecting::Key);
                self.expecting = next;
                proof {
                    assert(self.stack@.drop_last() =~= old(self).stack@);
                    assert(count_key(self.stack@) == count_key(old(self).stack@) + 1);
                    assert(self.indent@ =~= spaces(2 * count_key(self.stack@))) by {
                        assert(spaces(2 * count_key(self.stack@)) =~= spaces(
                            (2 * count_key(self.stack@) - 1) as nat,
                        ).push(' '));
                        assert(spaces((2 * count_key(self.stack@) - 1) as nat) =~= spaces(
                            2 * count_key(old(self).stack@),
                        ).push(' '));
                    }
                    assert(self.out@ =~= old(self).out@ + seq![':', '\n']);
                }
                Ok(())
            },
            Expecting::Element => {
                self.stack.push(Expecting::Element);
                self.expecting = next;
                proof {
                    assert(self.stack@.drop_last() =~= old(self).stack@);
                    assert(count_key(self.stack@) == count_key(old(self).stack@));
                }
                Ok(())
            },
        }
    }

    /// Closes a container: restores the enclosing context from the stack,
    /// and shrinks the indentation by one unit exactly when the popped
    /// context is a key context, undoing the growth made when the container
    /// was opened. An `end` with no open container is a protocol violation
    /// and fails without touching the renderer.
    fn end_container(&mut self) -> (r: Result<(), EncodeError>)
        requires
            old(self).wf(),
        ensures
            final(self).wf(),
            final(self).styled == old(self).styled,
            final(self).out@ == old(self).out@,
            r is Err <==> old(self).stack@.len() == 0,
            r is Err ==> same_state(*final(self), *old(self)) && (r matches Err(e) && e is UnbalancedEnd),
            old(self).stack@.len() > 0 ==> {
                &&& final(self).stack@ == old(self).stack@.drop_last()
                &&& final(self).expecting == old(self).stack@.last()
                &&& final(self).indent@ == spaces(2 * count_key(old(self).stack@.drop_last()))
            },
    {
        match self.stack.pop() {
            None => Err(EncodeError::UnbalancedEnd),
            Some(e) => {
                proof {
                    lemma_spaces_len(2 * count_key(old(self).stack@));
                    lemma_spaces_len(2 * count_key(self.stack@));
                }
                match e {
                    Expecting::Key => {
                        proof {
                            assert(count_key(old(self).stack@) == count_key(self.stack@) + 1);
                        }
                        let _ = self.indent.pop();
                        let _ = self.indent.pop();
                        proof {
                            assert(self.indent@ =~= spaces(2 * count_key(self.stack@))) by {
                                assert(spaces(2 * count_key(old(self).stack@)) =~= spaces(
                                    (2 * count_key(old(self).stack@) - 1) as nat,
                                ).push(' '));
                                assert(spaces((2 * count_key(old(self).stack@) - 1) as nat)
                                    =~= spaces(2 * count_key(self.stack@)).push(' '));
                            }
                        }
                    },
                    _ => {
                        proof {
                            assert(count_key(old(self).stack@) == count_key(self.stack@));
                        }
                    },
                }
                self.expecting = e;
                Ok(())
            },
        }
    }

    /// Opens a mapping: the next protocol call must supply the first key,
    /// or close the mapping again.
    pub fn begin_mapping(&mut self) -> (r: Result<(), EncodeError>)
        requires
            old(self).wf(),
        ensures
            final(self).wf(),
            final(self).styled == old(self).styled,
            r is Err <==> old(self).expecting is Key,
            r is Err ==> same_state(*final(self), *old(self)) && (r matches Err(e) && e is ContainerAsKey),
            old(self).expecting is Value ==> {
                &&& final(self).out@ == old(self).out@ + seq![':', '\n']
                &&& final(self).indent@ == old(self).indent@ + seq![' ', ' ']
                &&& final(self).stack@ == old(self).stack@.push(Expecting::Key)
                &&& final(self).expecting is Key
            },
            old(self).expecting is Element ==> {
                &&& final(self).out@ == old(self).out@
                &&& final(self).indent@ == old(self).indent@
                &&& final(self).stack@ == old(self).stack@.push(Expecting::Element)
                &&& final(self).expecting is Key
            },
    {
        self.begin_container(Expecting::Key)
    }

    /// Opens a sequence: the next protocol calls supply its elements.
    pub fn begin_sequence(&mut self) -> (r: Result<(), EncodeError>)
        requires
            old(self).wf(),
        ensures
            final(self).wf(),
            final(self).styled == old(self).styled,
            r is Err <==> old(self).expecting is Key,
            r is Err ==> same_state(*final(self), *old(self)) && (r matches Err(e) && e is ContainerAsKey),
            old(self).expecting is Value ==> {
                &&& final(self).out@ == old(self).out@ + seq![':', '\n']
                &&& final(self).indent@ == old(self).indent@ + seq![' ', ' ']
                &&& final(self).stack@ == old(self).stack@.push(Expecting::Key)
                &&& final(self).expecting is Element
            },
            old(self).expecting is Element ==> {
                &&& final(self).out@ == old(self).out@
                &&& final(self).indent@ == old(self).indent@
                &&& final(self).stack@ == old(self).stack@.push(Expecting::Element)
                &&& final(self).expecting is Element
            },
    {
        self.begin_container(Expecting::Element)
    }

    /// Closes the innermost open mapping.
    pub fn end_mapping(&mut self) -> (r: Result<(), EncodeError>)
        requires
            old(self).wf(),
        ensures
            final(self).wf(),
            final(self).styled == old(self).styled,
            final(self).out@ == old(self).out@,
            r is Err <==> old(self).stack@.len() == 0,
            r is Err ==> same_state(*final(self), *old(self)) && (r matches Err(e) && e is UnbalancedEnd),
            old(self).stack@.len() > 0 ==> {
                &&& final(self).stack@ == old(self).stack@.drop_last()
                &&& final(self).expecting == old(self).stack@.last()
                &&& final(self).indent@ == spaces(2 * count_key(old(self).stack@.drop_last()))
            },
    {
        self.end_container()
    }

    /// Closes the innermost open sequence.
    pub fn end_sequence(&mut self) -> (r: Result<(), EncodeError>)
        requires
            old(self).wf(),
        ensures
            final(self).wf(),
            final(self).styled == old(self).styled,
            final(self).out@ == old(self).out@,
            r is Err <==> old(self).stack@.len() == 0,
            r is Err ==> same_state(*final(self), *old(self)) && (r matches Err(e) && e is UnbalancedEnd),
            old(self).stack@.len() > 0 ==> {
                &&& final(self).stack@ == old(self).stack@.drop_last()
                &&& final(self).expecting == old(self).stack@.last()
                &&& final(self).indent@ == spaces(2 * count_key(old(self).stack@.drop_last()))
            },
    {
        self.end_container()
    }
}

/// Element text concatenates one element at a time.
proof fn lemma_elems_snoc(vs: Seq<EncodableValue>, x: EncodableValue, n: nat, st: bool)
    ensures
        elems_text(vs.push(x), n, st) == elems_text(vs, n, st) + element_text(x, n, st),
    decreases vs.len(),
{
    if vs.len() == 0 {
        assert(vs.push(x).drop_first() =~= vs);
        assert(elems_text(vs.push(x), n, st) =~= elems_text(vs, n, st) + element_text(x, n, st));
    } else {
        lemma_elems_snoc(vs.drop_first(), x, n, st);
        assert(vs.push(x).drop_first() =~= vs.drop_first().push(x));
        assert(elems_text(vs.push(x), n, st) =~= elems_text(vs, n, st) + element_text(x, n, st));
    }
}

/// Entry text concatenates one mapping entry at a time.
proof fn lemma_fields_snoc(ps: Seq<(String, EncodableValue)>, p: (String, EncodableValue), n: nat, st: bool)
    ensures
        fields_text(ps.push(p), n, st) == fields_text(ps, n, st) + spaces(n) + styled_text(
            p.0@,
            st,
        ) + value_text(p.1, n, st),
    decreases ps.len(),
{
    if ps.len() == 0 {
        assert(ps.push(p).drop_first() =~= ps);
        assert(fields_text(ps.push(p), n, st) =~= fields_text(ps, n, st) + spaces(n)
            + styled_text(p.0@, st) + value_text(p.1, n, st));
    } else {
        lemma_fields_snoc(ps.drop_first(), p, n, st);
        assert(ps.push(p).drop_first() =~= ps.drop_first().push(p));
        assert(fields_text(ps.push(p), n, st) =~= fields_text(ps, n, st) + spaces(n)
            + styled_text(p.0@, st) + value_text(p.1, n, st));
    }
}

/// Byte text concatenates one byte line at a time.
proof fn lemma_bytes_snoc(bs: Seq<u8>, b: u8, n: nat)
    ensures
        bytes_text(bs.push(b), n) == bytes_text(bs, n) + spaces(n) + crate::strutil::dec_of(
            b as nat,
        ) + seq!['\n'],
    decreases bs.len(),
{
    if bs.len() == 0 {
        assert(bs.push(b).drop_first() =~= bs);
        assert(bytes_text(bs.push(b), n) =~= bytes_text(bs, n) + spaces(n)
            + crate::strutil::dec_of(b as nat) + seq!['\n']);
    } else {
        lemma_bytes_snoc(bs.drop_first(), b, n);
        assert(bs.push(b).drop_first() =~= bs.drop_first().push(b));
        assert(bytes_text(bs.push(b), n) =~= bytes_text(bs, n) + spaces(n)
            + crate::strutil::dec_of(b as nat) + seq!['\n']);
    }
}

impl Formatter {
    /// Writes one mapping key: the current indentation, then the key text
    /// in the emphasis style; the matching value must follow.
    fn write_key(&mut self, k: &str)
        requires
            old(self).wf(),
            old(self).expecting is Key,
        ensures
            final(self).wf(),
            final(self).out@ == old(self).out@ + old(self).indent@ + styled_text(
                k@,
                old(self).styled,
            ),
            final(self).indent@ == old(self).indent@,
            final(self).stack@ == old(self).stack@,
            final(self).styled == old(self).styled,
            final(self).expecting is Value,
    {
        self.write_indent();
        self.write_styled(k);
        self.expecting = Expecting::Value;
    }

    /// Walks one value against the protocol, in value or element position.
    /// The appended text is exactly `value_text` or `element_text` of the
    /// value at the current indentation width, so rendering is a function
    /// of the value and the renderer's context alone.
    #[verifier::loop_isolation(false)]
    #[verifier::rlimit(80)]
    pub fn encode_value(&mut self, v: &EncodableValue)
        requires
            old(self).wf(),
            !(old(self).expecting is Key),
        ensures
            final(self).wf(),
            final(self).indent@ == old(self).indent@,
            final(self).stack@ == old(self).stack@,
            final(self).styled == old(self).styled,
            old(self).expecting is Value ==> {
                &&& final(self).out@ == old(self).out@ + value_text(
                    *v,
                    old(self).indent@.len(),
                    old(self).styled,
                )
                &&& final(self).expecting is Key
            },
            old(self).expecting is Element ==> {
                &&& final(self).out@ == old(self).out@ + element_text(
                    *v,
                    old(self).indent@.len(),
                    old(self).styled,
                )
                &&& final(self).expecting is Element
            },
        decreases *v,
    {
        proof {
            lemma_spaces_len(2 * count_key(old(self).stack@));
        }
        match v {
            EncodableValue::Sequence(vs) => {
                let _ = self.begin_sequence();
                self.encode_elements(vs);
                let _ = self.end_sequence();
                proof {
                    assert(old(self).stack@.push(Expecting::Key).drop_last() =~= old(self).stack@);
                    assert(old(self).stack@.push(Expecting::Element).drop_last() =~= old(
                        self,
                    ).stack@);
                    if old(self).expecting is Value {
                        assert(self.out@ =~= old(self).out@ + value_text(
                            *v,
                            old(self).indent@.len(),
                            old(self).styled,
                        ));
                    } else {
                        assert(self.out@ =~= old(self).out@ + element_text(
                            *v,
                            old(self).indent@.len(),
                            old(self).styled,
                        ));
                    }
                }
            },
            EncodableValue::Mapping(ps) => {
                let _ = self.begin_mapping();
                self.encode_entries(ps);
                let _ = self.end_mapping();
                proof {
                    assert(old(self).stack@.push(Expecting::Key).drop_last() =~= old(self).stack@);
                    assert(old(self).stack@.push(Expecting::Element).drop_last() =~= old(
                        self,
                    ).stack@);
                    if old(self).expecting is Value {
                        assert(self.out@ =~= old(self).out@ + value_text(
                            *v,
                            old(self).indent@.len(),
                            old(self).styled,
                        ));
                    } else {
                        assert(self.out@ =~= old(self).out@ + element_text(
                            *v,
                            old(self).indent@.len(),
                            old(self).styled,
                        ));
                    }
                }
            },
            EncodableValue::Bytes(bs) => {
                let _ = self.begin_sequence();
                self.encode_byte_lines(bs);
                let _ = self.end_sequence();
                proof {
                    assert(old(self).stack@.push(Expecting::Key).drop_last() =~= old(self).stack@);
                    assert(old(self).stack@.push(Expecting::Element).drop_last() =~= old(
                        self,
                    ).stack@);
                    if old(self).expecting is Value {
                        assert(self.out@ =~= old(self).out@ + value_text(
                            *v,
                            old(self).indent@.len(),
                            old(self).styled,
                        ));
                    } else {
                        assert(self.out@ =~= old(self).out@ + element_text(
                            *v,
                            old(self).indent@.len(),
                            old(self).styled,
                        ));
                    }
                }
            },
            EncodableValue::Variant { name, payload } => {
                self.variant(name.as_str(), payload);
            },
            _ => {
                self.scalar(v);
            },
        }
    }

    /// Writes the lines of a byte run: one decimal number per line, as a
    /// sequence of unsigned numbers.
    #[verifier::loop_isolation(false)]
    fn encode_byte_lines(&mut self, bs: &Vec<u8>)
        requires
            old(self).wf(),
            old(self).expecting is Element,
        ensures
            final(self).wf(),
            final(self).out@ == old(self).out@ + bytes_text(bs@, old(self).indent@.len()),
            final(self).indent@ == old(self).indent@,
            final(self).stack@ == old(self).stack@,
            final(self).styled == old(self).styled,
            final(self).expecting is Element,
    {
        let ghost n = self.indent@.len();
        let mut i: usize = 0;
        while i < bs.len()
            invariant
                i <= bs@.len(),
                self.wf(),
                self.expecting is Element,
                self.styled == old(self).styled,
                self.indent@ == old(self).indent@,
                self.stack@ == old(self).stack@,
                self.out@ == old(self).out@ + bytes_text(bs@.subrange(0, i as int), n),
            decreases bs@.len() - i,
        {
            proof {
                lemma_spaces_len(2 * count_key(self.stack@));
            }
            let b: u8 = bs[i];
            let leaf = EncodableValue::UInt64(b as u64);
            self.scalar(&leaf);
            proof {
                lemma_bytes_snoc(bs@.subrange(0, i as int), b, n);
                assert(bs@.subrange(0, i as int).push(b) =~= bs@.subrange(0, i as int + 1));
                assert(self.out@ =~= old(self).out@ + bytes_text(
                    bs@.subrange(0, i as int + 1),
                    n,
                ));
            }
            i = i + 1;
        }
        proof {
            assert(bs@.subrange(0, bs@.len() as int) =~= bs@);
        }
    }

    /// The protocol call that supplies a named variant: rendered as a
    /// one-entry mapping whose single key is the variant name and whose
    /// value is the payload, so that value sources can log tagged values
    /// without the encoder knowing their originating type.
    #[verifier::rlimit(60)]
    pub fn variant(&mut self, name: &str, payload: &VariantPayload)
        requires
            old(self).wf(),
            !(old(self).expecting is Key),
        ensures
            final(self).wf(),
            final(self).indent@ == old(self).indent@,
            final(self).stack@ == old(self).stack@,
            final(self).styled == old(self).styled,
            old(self).expecting is Value ==> {
                &&& final(self).out@ == old(self).out@ + seq![':', '\n'] + spaces(
                    old(self).indent@.len() + 2,
                ) + styled_text(name@, old(self).styled) + payload_text(
                    *payload,
                    old(self).indent@.len() + 2,
                    old(self).styled,
                )
                &&& final(self).expecting is Key
            },
            old(self).expecting is Element ==> {
                &&& final(self).out@ == old(self).out@ + spaces(old(self).indent@.len())
                    + styled_text(name@, old(self).styled) + payload_text(
                    *payload,
                    old(self).indent@.len(),
                    old(self).styled,
                )
                &&& final(self).expecting is Element
            },
        decreases *payload, 3nat,
    {
        proof {
            lemma_spaces_len(2 * count_key(old(self).stack@));
        }
        let _ = self.begin_mapping();
        self.write_key(name);
        let ghost mid = *self;
        match payload {
            VariantPayload::Unit => {
                let leaf = EncodableValue::Null;
                self.scalar(&leaf);
                proof {
                    assert(seq![':', ' '] + scalar_text(EncodableValue::Null) + seq!['\n']
                        =~= seq![':', ' ', 'n', 'u', 'l', 'l', '\n']);
                }
            },
            VariantPayload::Newtype(b) => {
                self.encode_value(&*b);
            },
            VariantPayload::Tuple(vs) => {
                let _ = self.begin_sequence();
                self.encode_elements(vs);
                let _ = self.end_sequence();
                proof {
                    assert(mid.stack@.push(Expecting::Key).drop_last() =~= mid.stack@);
                    assert(self.out@ =~= mid.out@ + payload_text(
                        *payload,
                        mid.indent@.len(),
                        mid.styled,
                    ));
                }
            },
            VariantPayload::Struct(ps) => {
                let _ = self.begin_mapping();
                self.encode_entries(ps);
                let _ = self.end_mapping();
                proof {
                    assert(mid.stack@.push(Expecting::Key).drop_last() =~= mid.stack@);
                    assert(self.out@ =~= mid.out@ + payload_text(
                        *payload,
                        mid.indent@.len(),
                        mid.styled,
                    ));
                }
            },
        }
        let _ = self.end_mapping();
        proof {
            assert(old(self).stack@.push(Expecting::Key).drop_last() =~= old(self).stack@);
            assert(old(self).stack@.push(Expecting::Element).drop_last() =~= old(self).stack@);
            if old(self).expecting is Value {
                assert(self.out@ =~= old(self).out@ + seq![':', '\n'] + spaces(
                    old(self).indent@.len() + 2,
                ) + styled_text(name@, old(self).styled) + payload_text(
                    *payload,
                    old(self).indent@.len() + 2,
                    old(self).styled,
                ));
            } else {
                assert(self.out@ =~= old(self).out@ + spaces(old(self).indent@.len())
                    + styled_text(name@, old(self).styled) + payload_text(
                    *payload,
                    old(self).indent@.len(),
                    old(self).styled,
                ));
            }
        }
    }

    /// Walks a run of sequence elements, one per line at the current
    /// indentation width.
    #[verifier::loop_isolation(false)]
    pub fn encode_elements(&mut self, vs: &Vec<EncodableValue>)
        requires
            old(self).wf(),
            old(self).expecting is Element,
        ensures
            final(self).wf(),
            final(self).out@ == old(self).out@ + elems_text(
                vs@,
                old(self).indent@.len(),
                old(self).styled,
            ),
            final(self).indent@ == old(self).indent@,
            final(self).stack@ == old(self).stack@,
            final(self).styled == old(self).styled,
            final(self).expecting is Element,
        decreases vs@,
    {
        let ghost n = self.indent@.len();
        let mut i: usize = 0;
        while i < vs.len()
            invariant
                i <= vs@.len(),
                self.wf(),
                self.expecting is Element,
                self.styled == old(self).styled,
                self.indent@ == old(self).indent@,
                self.stack@ == old(self).stack@,
                self.out@ == old(self).out@ + elems_text(vs@.subrange(0, i as int), n, old(
                    self,
                ).styled),
            decreases vs@.len() - i,
        {
            proof {
                assert(decreases_to!(vs@ => vs@[i as int]));
            }
            self.encode_value(&vs[i]);
            proof {
                lemma_elems_snoc(vs@.subrange(0, i as int), vs@[i as int], n, old(self).styled);
                assert(vs@.subrange(0, i as int).push(vs@[i as int]) =~= vs@.subrange(
                    0,
                    i as int + 1,
                ));
                assert(self.out@ =~= old(self).out@ + elems_text(
                    vs@.subrange(0, i as int + 1),
                    n,
                    old(self).styled,
                ));
            }
            i = i + 1;
        }
        proof {
            assert(vs@.subrange(0, vs@.len() as int) =~= vs@);
        }
    }

    /// Walks a run of mapping entries: each key on its own indented line in
    /// the emphasis style, followed by its value.
    #[verifier::loop_isolation(false)]
    pub fn encode_entries(&mut self, ps: &Vec<(String, EncodableValue)>)
        requires
            old(self).wf(),
            old(self).expecting is Key,
        ensures
            final(self).wf(),
            final(self).out@ == old(self).out@ + fields_text(
                ps@,
                old(self).indent@.len(),
                old(self).styled,
            ),
            final(self).indent@ == old(self).indent@,
            final(self).stack@ == old(self).stack@,
            final(self).styled == old(self).styled,
            final(self).expecting is Key,
        decreases ps@,
    {
        let ghost n = self.indent@.len();
        let mut i: usize = 0;
        while i < ps.len()
            invariant
                i <= ps@.len(),
                self.wf(),
                self.expecting is Key,
                self.styled == old(self).styled,
                self.indent@ == old(self).indent@,
                self.stack@ == old(self).stack@,
                self.out@ == old(self).out@ + fields_text(ps@.subrange(0, i as int), n, old(
                    self,
                ).styled),
            decreases ps@.len() - i,
        {
            proof {
                lemma_spaces_len(2 * count_key(self.stack@));
            }
            self.write_key(ps[i].0.as_str());
            proof {
                assert(decreases_to!(ps@ => ps@[i as int]));
                assert(decreases_to!(ps@[i as int] => ps@[i as int].1));
            }
            self.encode_value(&ps[i].1);
            proof {
                lemma_fields_snoc(ps@.subrange(0, i as int), ps@[i as int], n, old(self).styled);
                assert(ps@.subrange(0, i as int).push(ps@[i as int]) =~= ps@.subrange(
                    0,
                    i as int + 1,
                ));
                assert(self.out@ =~= old(self).out@ + fields_text(
                    ps@.subrange(0, i as int + 1),
                    n,
                    old(self).styled,
                ));
            }
            i = i + 1;
        }
        proof {
            assert(ps@.subrange(0, ps@.len() as int) =~= ps@);
        }
    }

    /// Writes the key-value pairs attached to one record: a blank separator
    /// line, then one `key: value` entry per pair at the current
    /// indentation, nested values indented beneath their keys.
    pub fn write_key_values(&mut self, kvs: &Vec<(String, EncodableValue)>)
        requires
            old(self).wf(),
            old(self).expecting is Key,
        ensures
            final(self).wf(),
            final(self).out@ == old(self).out@ + seq!['\n'] + fields_text(
                kvs@,
                old(self).indent@.len(),
                old(self).styled,
            ),
            final(self).indent@ == old(self).indent@,
            final(self).stack@ == old(self).stack@,
            final(self).styled == old(self).styled,
            final(self).expecting is Key,
    {
        push_char(&mut self.out, '\n');
        self.encode_entries(kvs);
        proof {
            assert(final(self).out@ =~= old(self).out@ + seq!['\n'] + fields_text(
                kvs@,
                old(self).indent@.len(),
                old(self).styled,
            ));
        }
    }
}

/// The emphasis style applied to keys before the colon.
pub struct Style {
    /// Whether the styled text is wrapped in the bold escape.
    pub bold: bool,
}

impl Formatter {
    /// The style this renderer gives to property keys: bold whenever the
    /// renderer writes styles at all.
    pub fn property_style(&self) -> (r: Style)
        ensures
            r.bold == self.styled,
    {
        Style { bold: self.styled }
    }
}

/// The indentation text is always exactly two columns per `Key` entry on
/// the context stack: the indentation invariant of the renderer, kept by
/// every protocol call.
pub proof fn lemma_indent_tracks_nesting(f: Formatter)
    requires
        f.wf(),
    ensures
        f.indent@.len() == 2 * count_key(f.stack@),
{
    lemma_spaces_len(2 * count_key(f.stack@));
}

} // verus!
