//! Serializing AT command strings: the byte-level writers that build
//! `AT<CMD>=<args><termination>` lines.

use vstd::prelude::*;

verus! {

/// A byte span serialized verbatim, rather than as a quoted string or a
/// sequence.
#[derive(Debug, Clone, PartialEq, Eq)]
pub struct Bytes(pub Vec<u8>);

/// Options that steer how a command line is written.
#[derive(Debug, Clone, PartialEq, Eq)]
pub struct SerializeOptions {
    /// Whether `=` separates the command from its first parameter.
    pub value_sep: bool,
    /// The bytes put before the command; `AT` by default.
    pub cmd_prefix: Vec<u8>,
    /// The bytes put after the last parameter; `\r\n` by default.
    pub termination: Vec<u8>,
}

impl Default for SerializeOptions {
    /// The default options: `=` separator, `AT` prefix, `\r\n`
    /// termination.
    fn default() -> (r: SerializeOptions)
        ensures
            r.value_sep,
            r.cmd_prefix@ == seq![65u8, 84u8],
            r.termination@ == seq![13u8, 10u8],
    {
        let r = SerializeOptions {
            value_sep: true,
            cmd_prefix: vec![65u8, 84u8],
            termination: vec![13u8, 10u8],
        };
        proof {
            assert(r.cmd_prefix@ =~= seq![65u8, 84u8]);
            assert(r.termination@ =~= seq![13u8, 10u8]);
        }
        r
    }
}

/// The decimal spelling of `v`.
pub open spec fn dec_repr(v: int) -> Seq<u8>
    decreases v,
{
    if v < 10 {
        seq![(48 + if v >= 0 { v } else { 0 }) as u8]
    } else {
        dec_repr(v / 10).push((48 + v % 10) as u8)
    }
}

/// Append the decimal spelling of `v`.
pub fn write_u64(out: &mut Vec<u8>, v: u64)
    ensures
        final(out)@ == old(out)@ + dec_repr(v as int),
    decreases v,
{
    if v >= 10 {
        write_u64(out, v / 10);
    }
    out.push(48 + (v % 10) as u8);
    proof {
        if v < 10 {
            assert(out@ =~= old(out)@ + dec_repr(v as int));
        } else {
            assert(out@ =~= old(out)@ + dec_repr(v as int));
        }
    }
}

/// Append the decimal spelling of `v`, with a minus sign when it is
/// negative.
pub fn write_i64(out: &mut Vec<u8>, v: i64)
    ensures
        v >= 0 ==> final(out)@ == old(out)@ + dec_repr(v as int),
        v < 0 ==> final(out)@ == old(out)@ + seq![45u8] + dec_repr(-(v as int)),
{
    if v < 0 {
        out.push(45);
        let mag: u64 = if v == i64::MIN {
            9223372036854775808u64
        } else {
            (-v) as u64
        };
        write_u64(out, mag);
        proof {
            assert(out@ =~= old(out)@ + seq![45u8] + dec_repr(-(v as int)));
        }
    } else {
        write_u64(out, v as u64);
    }
}

/// Append `true` or `false`.
pub fn write_bool(out: &mut Vec<u8>, v: bool)
    ensures
        v ==> final(out)@ == old(out)@ + seq![116u8, 114u8, 117u8, 101u8],
        !v ==> final(out)@ == old(out)@ + seq![102u8, 97u8, 108u8, 115u8, 101u8],
{
    if v {
        out.push(116);
        out.push(114);
        out.push(117);
        out.push(101);
        proof {
            assert(out@ =~= old(out)@ + seq![116u8, 114u8, 117u8, 101u8]);
        }
    } else {
        out.push(102);
        out.push(97);
        out.push(108);
        out.push(115);
        out.push(101);
        proof {
            assert(out@ =~= old(out)@ + seq![102u8, 97u8, 108u8, 115u8, 101u8]);
        }
    }
}

/// Append the given bytes.
pub fn write_bytes(out: &mut Vec<u8>, v: &[u8])
    ensures
        final(out)@ == old(out)@ + v@,
{
    let mut j: usize = 0;
    while j < v.len()
        invariant
            0 <= j <= v@.len(),
            out@ == old(out)@ + v@.subrange(0, j as int),
        decreases v@.len() - j,
    {
        out.push(v[j]);
        j = j + 1;
        proof {
            assert(out@ =~= old(out)@ + v@.subrange(0, j as int));
        }
    }
    proof {
        assert(out@ =~= old(out)@ + v@);
    }
}

/// Append the given bytes between double quotes.
pub fn write_quoted(out: &mut Vec<u8>, v: &[u8])
    ensures
        final(out)@ == old(out)@ + seq![34u8] + v@ + seq![34u8],
{
    out.push(34);
    write_bytes(out, v);
    out.push(34);
    proof {
        assert(out@ =~= old(out)@ + seq![34u8] + v@ + seq![34u8]);
    }
}

/// A command line under construction: the prefix and command have been
/// written; fields are appended with their separators; finishing appends
/// the termination.
pub struct Serializer {
    buf: Vec<u8>,
    options: SerializeOptions,
    fields: usize,
}

impl Serializer {
    /// The bytes written so far.
    pub closed spec fn written(&self) -> Seq<u8> {
        self.buf@
    }

    /// How many fields have been appended.
    pub closed spec fn field_count(&self) -> int {
        self.fields as int
    }

    /// The options the line is written under.
    pub closed spec fn opts(&self) -> SerializeOptions {
        self.options
    }

    /// The separator owed before the next field: `=` before the first
    /// when the options ask for it, `,` between the rest.
    pub open spec fn next_sep(&self) -> Seq<u8> {
        if self.field_count() == 0 {
            if self.opts().value_sep {
                seq![61u8]
            } else {
                Seq::empty()
            }
        } else {
            seq![44u8]
        }
    }

    /// Start a line: the prefix, then the command.
    pub fn new(cmd: &[u8], options: SerializeOptions) -> (r: Serializer)
        ensures
            r.written() == options.cmd_prefix@ + cmd@,
            r.field_count() == 0,
            r.opts() == options,
    {
        let mut buf: Vec<u8> = Vec::new();
        write_bytes(&mut buf, options.cmd_prefix.as_slice());
        write_bytes(&mut buf, cmd);
        proof {
            assert(buf@ =~= options.cmd_prefix@ + cmd@);
        }
        Serializer { buf, options, fields: 0 }
    }

    /// Append a verbatim byte-span field.
    pub fn field_bytes(&mut self, v: &[u8])
        ensures
            final(self).written() == old(self).written() + old(self).next_sep() + v@,
            final(self).field_count() > 0,
            final(self).opts() == old(self).opts(),
    {
        self.push_sep();
        write_bytes(&mut self.buf, v);
        self.bump();
    }

    /// Append a quoted string field.
    pub fn field_str(&mut self, v: &[u8])
        ensures
            final(self).written() == old(self).written() + old(self).next_sep() + seq![34u8] + v@
                + seq![34u8],
            final(self).field_count() > 0,
            final(self).opts() == old(self).opts(),
    {
        self.push_sep();
        write_quoted(&mut self.buf, v);
        self.bump();
        proof {
            assert(self.written() =~= old(self).written() + old(self).next_sep() + seq![34u8]
                + v@ + seq![34u8]);
        }
    }

    /// Append an unsigned decimal field.
    pub fn field_u64(&mut self, v: u64)
        ensures
            final(self).written() == old(self).written() + old(self).next_sep() + dec_repr(
                v as int,
            ),
            final(self).field_count() > 0,
            final(self).opts() == old(self).opts(),
    {
        self.push_sep();
        write_u64(&mut self.buf, v);
        self.bump();
    }

    /// Append a boolean field.
    pub fn field_bool(&mut self, v: bool)
        ensures
            v ==> final(self).written() == old(self).written() + old(self).next_sep() + seq![
                116u8,
                114u8,
                117u8,
                101u8,
            ],
            !v ==> final(self).written() == old(self).written() + old(self).next_sep() + seq![
                102u8,
                97u8,
                108u8,
                115u8,
                101u8,
            ],
            final(self).field_count() > 0,
            final(self).opts() == old(self).opts(),
    {
        self.push_sep();
        write_bool(&mut self.buf, v);
        self.bump();
    }

    /// Count one more field, saturating at the counter's width; only
    /// zero versus non-zero steers the separators.
    fn bump(&mut self)
        ensures
            final(self).written() == old(self).written(),
            final(self).field_count() > 0,
            final(self).opts() == old(self).opts(),
    {
        if self.fields < usize::MAX {
            self.fields = self.fields + 1;
        }
    }

    /// Write the separator owed before the next field.
    fn push_sep(&mut self)
        ensures
            final(self).written() == old(self).written() + old(self).next_sep(),
            final(self).field_count() == old(self).field_count(),
            final(self).opts() == old(self).opts(),
    {
        if self.fields == 0 {
            if self.options.value_sep {
                self.buf.push(61);
                proof {
                    assert(self.written() =~= old(self).written() + old(self).next_sep());
                }
            } else {
                proof {
                    assert(self.written() =~= old(self).written() + old(self).next_sep());
                }
            }
        } else {
            self.buf.push(44);
            proof {
                assert(self.written() =~= old(self).written() + old(self).next_sep());
            }
        }
    }

    /// Finish the line with the termination bytes and hand it out.
    pub fn finish(self) -> (r: Vec<u8>)
        ensures
            r@ == self.written() + self.opts().termination@,
    {
        let Serializer { mut buf, options, fields: _ } = self;
        write_bytes(&mut buf, options.termination.as_slice());
        buf
    }
}

/// The whole line of a command without parameters: prefix, command,
/// termination.
pub fn serialize_unit_command(cmd: &[u8], options: &SerializeOptions) -> (r: Vec<u8>)
    ensures
        r@ == options.cmd_prefix@ + cmd@ + options.termination@,
{
    let mut buf: Vec<u8> = Vec::new();
    write_bytes(&mut buf, options.cmd_prefix.as_slice());
    write_bytes(&mut buf, cmd);
    write_bytes(&mut buf, options.termination.as_slice());
    proof {
        assert(buf@ =~= options.cmd_prefix@ + cmd@ + options.termination@);
    }
    buf
}

} // verus!
