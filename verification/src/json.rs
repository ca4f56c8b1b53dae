//! JSON-style emission of a flattened record: one object per record, with
//! the fixed metadata fields first (`timestamp`, `level`, `msg`, in that
//! order) and the deduplicated dynamic fields after them in ascending name
//! order. The object is produced as text, ready to be written to a sink by
//! the caller, one line per record.

use vstd::prelude::*;
use vstd::string::StringExecFns;

use crate::flatten::{flatten_spec, Field, FlattenedRecord};
use crate::strutil::{dec_of, digit_char, push_char};
use crate::value::{level_name, scalar_text, EncodableValue, Level, VariantPayload};

verus! {

/// The character standing for one hex digit, lower case.
pub open spec fn hex_char(d: nat) -> char {
    if d < 10 {
        digit_char(d)
    } else {
        ((d + 87) as u8) as char
    }
}

/// The JSON escape of one character: quote and backslash are escaped, the
/// common control characters get their short escapes, any other control
/// character a four-digit escape, and everything else stands as itself.
pub open spec fn esc_char(c: char) -> Seq<char> {
    if c == '"' {
        seq!['\\', '"']
    } else if c == '\\' {
        seq!['\\', '\\']
    } else if c == '\n' {
        seq!['\\', 'n']
    } else if c == '\r' {
        seq!['\\', 'r']
    } else if c == '\t' {
        seq!['\\', 't']
    } else if (c as u32) < 32 {
        seq!['\\', 'u', '0', '0', hex_char((c as u32 / 16) as nat), hex_char(
            (c as u32 % 16) as nat,
        )]
    } else {
        seq![c]
    }
}

/// The JSON escape of a whole text.
pub open spec fn json_escaped(s: Seq<char>) -> Seq<char>
    decreases s.len(),
{
    if s.len() == 0 {
        Seq::<char>::empty()
    } else {
        esc_char(s[0]) + json_escaped(s.drop_first())
    }
}

/// A JSON string literal: the escaped text between double quotes.
pub open spec fn json_string(s: Seq<char>) -> Seq<char> {
    seq!['"'] + json_escaped(s) + seq!['"']
}

/// The JSON text of one value. A float leaf's caller-supplied numeric text
/// is emitted verbatim; a char leaf becomes a one-character string; bytes
/// become an array of numbers; a variant becomes a one-entry object keyed
/// by the variant name.
pub open spec fn json_value(v: EncodableValue) -> Seq<char>
    decreases v, 1nat,
{
    match v {
        EncodableValue::Char(c) => json_string(seq![c]),
        EncodableValue::Str(s) => json_string(s@),
        EncodableValue::Bytes(bs) => seq!['['] + json_byte_items(bs@) + seq![']'],
        EncodableValue::Sequence(vs) => seq!['['] + json_items(vs@) + seq![']'],
        EncodableValue::Mapping(ps) => seq!['{'] + json_entries(ps@) + seq!['}'],
        EncodableValue::Variant { name, payload } => seq!['{'] + json_string(name@) + seq![':']
            + json_payload(payload) + seq!['}'],
        _ => scalar_text(v),
    }
}

/// The JSON text of a variant payload: an empty payload is null, a single
/// value stands as itself, a list as an array, a nested mapping as an
/// object.
pub open spec fn json_payload(p: VariantPayload) -> Seq<char>
    decreases p, 2nat,
{
    match p {
        VariantPayload::Unit => seq!['n', 'u', 'l', 'l'],
        VariantPayload::Newtype(b) => json_value(*b),
        VariantPayload::Tuple(vs) => seq!['['] + json_items(vs@) + seq![']'],
        VariantPayload::Struct(ps) => seq!['{'] + json_entries(ps@) + seq!['}'],
    }
}

/// Comma-separated JSON texts of a run of values.
pub open spec fn json_items(vs: Seq<EncodableValue>) -> Seq<char>
    decreases vs, 0nat,
{
    if vs.len() == 0 {
        Seq::<char>::empty()
    } else if vs.len() == 1 {
        json_value(vs[0])
    } else {
        json_value(vs[0]) + seq![','] + json_items(vs.drop_first())
    }
}

/// Comma-separated `"name":value` texts of a run of mapping entries.
pub open spec fn json_entries(ps: Seq<(String, EncodableValue)>) -> Seq<char>
    decreases ps, 0nat,
{
    if ps.len() == 0 {
        Seq::<char>::empty()
    } else if ps.len() == 1 {
        json_string(ps[0].0@) + seq![':'] + json_value(ps[0].1)
    } else {
        json_string(ps[0].0@) + seq![':'] + json_value(ps[0].1) + seq![','] + json_entries(
            ps.drop_first(),
        )
    }
}

/// Comma-separated decimal texts of a byte run.
pub open spec fn json_byte_items(bs: Seq<u8>) -> Seq<char>
    decreases bs.len(),
{
    if bs.len() == 0 {
        Seq::<char>::empty()
    } else if bs.len() == 1 {
        dec_of(bs[0] as nat)
    } else {
        dec_of(bs[0] as nat) + seq![','] + json_byte_items(bs.drop_first())
    }
}

/// Appends the JSON escape of one character.
fn append_esc_char(out: &mut String, c: char)
    ensures
        final(out)@ == old(out)@ + esc_char(c),
{
    if c == '"' {
        push_char(out, '\\');
        push_char(out, '"');
        proof {
            assert(out@ =~= old(out)@ + esc_char(c));
        }
    } else if c == '\\' {
        push_char(out, '\\');
        push_char(out, '\\');
        proof {
            assert(out@ =~= old(out)@ + esc_char(c));
        }
    } else if c == '\n' {
        push_char(out, '\\');
        push_char(out, 'n');
        proof {
            assert(out@ =~= old(out)@ + esc_char(c));
        }
    } else if c == '\r' {
        push_char(out, '\\');
        push_char(out, 'r');
        proof {
            assert(out@ =~= old(out)@ + esc_char(c));
        }
    } else if c == '\t' {
        push_char(out, '\\');
        push_char(out, 't');
        proof {
            assert(out@ =~= old(out)@ + esc_char(c));
        }
    } else if (c as u32) < 32 {
        push_char(out, '\\');
        push_char(out, 'u');
        push_char(out, '0');
        push_char(out, '0');
        let hi: u32 = (c as u32) / 16;
        let lo: u32 = (c as u32) % 16;
        let hc: char = if hi < 10 {
            ((hi as u8) + 48) as char
        } else {
            ((hi as u8) + 87) as char
        };
        let lc: char = if lo < 10 {
            ((lo as u8) + 48) as char
        } else {
            ((lo as u8) + 87) as char
        };
        push_char(out, hc);
        push_char(out, lc);
        proof {
            assert(out@ =~= old(out)@ + esc_char(c));
        }
    } else {
        push_char(out, c);
        proof {
            assert(out@ =~= old(out)@ + esc_char(c));
        }
    }
}

/// Escaping one more character extends the escaped text.
proof fn lemma_json_escaped_snoc(s: Seq<char>, c: char)
    ensures
        json_escaped(s.push(c)) == json_escaped(s) + esc_char(c),
    decreases s.len(),
{
    if s.len() == 0 {
        assert(s.push(c).drop_first() =~= s);
        assert(json_escaped(s.push(c)) =~= json_escaped(s) + esc_char(c));
    } else {
        lemma_json_escaped_snoc(s.drop_first(), c);
        assert(s.push(c).drop_first() =~= s.drop_first().push(c));
        assert(json_escaped(s.push(c)) =~= json_escaped(s) + esc_char(c));
    }
}

/// Appends a JSON string literal: quote, escaped text, quote.
#[verifier::loop_isolation(false)]
fn append_json_string(out: &mut String, s: &str)
    ensures
        final(out)@ == old(out)@ + json_string(s@),
{
    push_char(out, '"');
    let len: usize = s.unicode_len();
    let mut i: usize = 0;
    while i < len
        invariant
            i <= s@.len(),
            len == s@.len(),
            out@ == old(out)@ + seq!['"'] + json_escaped(s@.subrange(0, i as int)),
        decreases s@.len() - i,
    {
        let c: char = s.get_char(i);
        append_esc_char(out, c);
        proof {
            lemma_json_escaped_snoc(s@.subrange(0, i as int), c);
            assert(s@.subrange(0, i as int).push(c) =~= s@.subrange(0, i as int + 1));
            assert(out@ =~= old(out)@ + seq!['"'] + json_escaped(s@.subrange(0, i as int + 1)));
        }
        i = i + 1;
    }
    push_char(out, '"');
    proof {
        assert(s@.subrange(0, s@.len() as int) =~= s@);
        assert(out@ =~= old(out)@ + json_string(s@));
    }
}

/// One more item extends a comma-separated run.
proof fn lemma_json_items_snoc(vs: Seq<EncodableValue>, x: EncodableValue)
    ensures
        json_items(vs.push(x)) == if vs.len() == 0 {
            json_value(x)
        } else {
            json_items(vs) + seq![','] + json_value(x)
        },
    decreases vs.len(),
{
    if vs.len() == 0 {
        assert(json_items(vs.push(x)) =~= json_value(x));
    } else {
        lemma_json_items_snoc(vs.drop_first(), x);
        assert(vs.push(x).drop_first() =~= vs.drop_first().push(x));
        if vs.len() == 1 {
            assert(json_items(vs.push(x)) =~= json_items(vs) + seq![','] + json_value(x));
        } else {
            assert(json_items(vs.push(x)) =~= json_items(vs) + seq![','] + json_value(x));
        }
    }
}

/// One more entry extends a comma-separated run.
proof fn lemma_json_entries_snoc(ps: Seq<(String, EncodableValue)>, p: (String, EncodableValue))
    ensures
        json_entries(ps.push(p)) == if ps.len() == 0 {
            json_string(p.0@) + seq![':'] + json_value(p.1)
        } else {
            json_entries(ps) + seq![','] + json_string(p.0@) + seq![':'] + json_value(p.1)
        },
    decreases ps.len(),
{
    if ps.len() == 0 {
        assert(json_entries(ps.push(p)) =~= json_string(p.0@) + seq![':'] + json_value(p.1));
    } else {
        lemma_json_entries_snoc(ps.drop_first(), p);
        assert(ps.push(p).drop_first() =~= ps.drop_first().push(p));
        assert(json_entries(ps.push(p)) =~= json_entries(ps) + seq![','] + json_string(p.0@)
            + seq![':'] + json_value(p.1));
    }
}

/// One more byte extends a comma-separated run.
proof fn lemma_json_byte_items_snoc(bs: Seq<u8>, b: u8)
    ensures
        json_byte_items(bs.push(b)) == if bs.len() == 0 {
            dec_of(b as nat)
        } else {
            json_byte_items(bs) + seq![','] + dec_of(b as nat)
        },
    decreases bs.len(),
{
    if bs.len() == 0 {
        assert(json_byte_items(bs.push(b)) =~= dec_of(b as nat));
    } else {
        lemma_json_byte_items_snoc(bs.drop_first(), b);
        assert(bs.push(b).drop_first() =~= bs.drop_first().push(b));
        assert(json_byte_items(bs.push(b)) =~= json_byte_items(bs) + seq![','] + dec_of(
            b as nat,
        ));
    }
}

/// Appends the JSON text of one value.
pub fn append_json_value(out: &mut String, v: &EncodableValue)
    ensures
        final(out)@ == old(out)@ + json_value(*v),
    decreases *v, 1nat,
{
    match v {
        EncodableValue::Char(c) => {
            push_char(out, '"');
            append_esc_char(out, *c);
            push_char(out, '"');
            proof {
                assert(json_escaped(Seq::<char>::empty()) =~= Seq::<char>::empty());
                assert(seq![*c].drop_first() =~= Seq::<char>::empty());
                assert(json_escaped(seq![*c]) =~= esc_char(*c) + json_escaped(
                    seq![*c].drop_first(),
                ));
                assert(json_escaped(seq![*c]) =~= esc_char(*c));
                assert(out@ =~= old(out)@ + json_value(*v));
            }
        },
        EncodableValue::Str(s) => {
            append_json_string(out, s.as_str());
        },
        EncodableValue::Bytes(bs) => {
            push_char(out, '[');
            append_json_bytes(out, bs);
            push_char(out, ']');
            proof {
                assert(out@ =~= old(out)@ + json_value(*v));
            }
        },
        EncodableValue::Sequence(vs) => {
            push_char(out, '[');
            append_json_items(out, vs);
            push_char(out, ']');
            proof {
                assert(out@ =~= old(out)@ + json_value(*v));
            }
        },
        EncodableValue::Mapping(ps) => {
            push_char(out, '{');
            append_json_entries(out, ps);
            push_char(out, '}');
            proof {
                assert(out@ =~= old(out)@ + json_value(*v));
            }
        },
        EncodableValue::Variant { name, payload } => {
            push_char(out, '{');
            append_json_string(out, name.as_str());
            push_char(out, ':');
            append_json_payload(out, payload);
            push_char(out, '}');
            proof {
                assert(out@ =~= old(out)@ + json_value(*v));
            }
        },
        _ => {
            crate::value::append_scalar_text(out, v);
        },
    }
}

/// Appends the JSON text of a variant payload.
fn append_json_payload(out: &mut String, p: &VariantPayload)
    ensures
        final(out)@ == old(out)@ + json_payload(*p),
    decreases *p, 2nat,
{
    match p {
        VariantPayload::Unit => {
            out.append("null");
            proof {
                reveal_strlit("null");
                assert("null"@ =~= json_payload(*p));
            }
        },
        VariantPayload::Newtype(b) => {
            append_json_value(out, &*b);
        },
        VariantPayload::Tuple(vs) => {
            push_char(out, '[');
            append_json_items(out, vs);
            push_char(out, ']');
            proof {
                assert(out@ =~= old(out)@ + json_payload(*p));
            }
        },
        VariantPayload::Struct(ps) => {
            push_char(out, '{');
            append_json_entries(out, ps);
            push_char(out, '}');
            proof {
                assert(out@ =~= old(out)@ + json_payload(*p));
            }
        },
    }
}

/// Appends the comma-separated JSON texts of a run of values.
#[verifier::loop_isolation(false)]
fn append_json_items(out: &mut String, vs: &Vec<EncodableValue>)
    ensures
        final(out)@ == old(out)@ + json_items(vs@),
    decreases vs@, 0nat,
{
    let mut i: usize = 0;
    while i < vs.len()
        invariant
            i <= vs@.len(),
            out@ == old(out)@ + json_items(vs@.subrange(0, i as int)),
        decreases vs@.len() - i,
    {
        if i > 0 {
            push_char(out, ',');
        }
        proof {
            assert(decreases_to!(vs@ => vs@[i as int]));
        }
        append_json_value(out, &vs[i]);
        proof {
            lemma_json_items_snoc(vs@.subrange(0, i as int), vs@[i as int]);
            assert(vs@.subrange(0, i as int).push(vs@[i as int]) =~= vs@.subrange(
                0,
                i as int + 1,
            ));
            assert(out@ =~= old(out)@ + json_items(vs@.subrange(0, i as int + 1)));
        }
        i = i + 1;
    }
    proof {
        assert(vs@.subrange(0, vs@.len() as int) =~= vs@);
    }
}

/// Appends the comma-separated `"name":value` texts of a run of entries.
#[verifier::loop_isolation(false)]
fn append_json_entries(out: &mut String, ps: &Vec<(String, EncodableValue)>)
    ensures
        final(out)@ == old(out)@ + json_entries(ps@),
    decreases ps@, 0nat,
{
    let mut i: usize = 0;
    while i < ps.len()
        invariant
            i <= ps@.len(),
            out@ == old(out)@ + json_entries(ps@.subrange(0, i as int)),
        decreases ps@.len() - i,
    {
        if i > 0 {
            push_char(out, ',');
        }
        append_json_string(out, ps[i].0.as_str());
        push_char(out, ':');
        proof {
            assert(decreases_to!(ps@ => ps@[i as int]));
            assert(decreases_to!(ps@[i as int] => ps@[i as int].1));
        }
        append_json_value(out, &ps[i].1);
        proof {
            lemma_json_entries_snoc(ps@.subrange(0, i as int), ps@[i as int]);
            assert(ps@.subrange(0, i as int).push(ps@[i as int]) =~= ps@.subrange(
                0,
                i as int + 1,
            ));
            assert(out@ =~= old(out)@ + json_entries(ps@.subrange(0, i as int + 1)));
        }
        i = i + 1;
    }
    proof {
        assert(ps@.subrange(0, ps@.len() as int) =~= ps@);
    }
}

/// Appends the comma-separated decimal texts of a byte run.
#[verifier::loop_isolation(false)]
fn append_json_bytes(out: &mut String, bs: &Vec<u8>)
    ensures
        final(out)@ == old(out)@ + json_byte_items(bs@),
{
    let mut i: usize = 0;
    while i < bs.len()
        invariant
            i <= bs@.len(),
            out@ == old(out)@ + json_byte_items(bs@.subrange(0, i as int)),
        decreases bs@.len() - i,
    {
        if i > 0 {
            push_char(out, ',');
        }
        let b: u8 = bs[i];
        crate::strutil::append_dec_u64(out, b as u64);
        proof {
            lemma_json_byte_items_snoc(bs@.subrange(0, i as int), b);
            assert(bs@.subrange(0, i as int).push(b) =~= bs@.subrange(0, i as int + 1));
            assert(out@ =~= old(out)@ + json_byte_items(bs@.subrange(0, i as int + 1)));
        }
        i = i + 1;
    }
    proof {
        assert(bs@.subrange(0, bs@.len() as int) =~= bs@);
    }
}

/// The trailing part of the record object: one `,"name":value` per dynamic
/// field, after the fixed fields.
pub open spec fn json_fields_rest(ps: Seq<Field>) -> Seq<char>
    decreases ps.len(),
{
    if ps.len() == 0 {
        Seq::<char>::empty()
    } else {
        seq![','] + json_string(ps[0].0@) + seq![':'] + json_value(ps[0].1) + json_fields_rest(
            ps.drop_first(),
        )
    }
}

/// The JSON object of one record: `timestamp`, `level` and `msg` first, in
/// that fixed order, then every dynamic field in the order it stands in
/// the flattened record.
pub open spec fn record_json(
    ts: Seq<char>,
    level: Level,
    msg: Seq<char>,
    fields: Seq<Field>,
) -> Seq<char> {
    seq!['{', '"', 't', 'i', 'm', 'e', 's', 't', 'a', 'm', 'p', '"', ':'] + json_string(ts)
        + seq![',', '"', 'l', 'e', 'v', 'e', 'l', '"', ':'] + json_string(level_name(level))
        + seq![',', '"', 'm', 's', 'g', '"', ':'] + json_string(msg) + json_fields_rest(fields)
        + seq!['}']
}

/// One more field extends the trailing part.
proof fn lemma_json_fields_rest_snoc(ps: Seq<Field>, p: Field)
    ensures
        json_fields_rest(ps.push(p)) == json_fields_rest(ps) + seq![','] + json_string(p.0@)
            + seq![':'] + json_value(p.1),
    decreases ps.len(),
{
    if ps.len() == 0 {
        assert(ps.push(p).drop_first() =~= ps);
        assert(json_fields_rest(ps.push(p)) =~= json_fields_rest(ps) + seq![','] + json_string(
            p.0@,
        ) + seq![':'] + json_value(p.1));
    } else {
        lemma_json_fields_rest_snoc(ps.drop_first(), p);
        assert(ps.push(p).drop_first() =~= ps.drop_first().push(p));
        assert(json_fields_rest(ps.push(p)) =~= json_fields_rest(ps) + seq![','] + json_string(
            p.0@,
        ) + seq![':'] + json_value(p.1));
    }
}

/// Renders one flattened record as a JSON object.
#[verifier::loop_isolation(false)]
pub fn render_json(rec: &FlattenedRecord) -> (r: String)
    ensures
        r@ == record_json(rec.timestamp@, rec.level, rec.msg@, rec.fields@),
{
    let mut out = String::new();
    out.append("{\"timestamp\":");
    append_json_string(&mut out, rec.timestamp.as_str());
    out.append(",\"level\":");
    append_json_string(&mut out, rec.level.as_text());
    out.append(",\"msg\":");
    append_json_string(&mut out, rec.msg.as_str());
    proof {
        reveal_strlit("{\"timestamp\":");
        reveal_strlit(",\"level\":");
        reveal_strlit(",\"msg\":");
        assert("{\"timestamp\":"@ =~= seq![
            '{', '"', 't', 'i', 'm', 'e', 's', 't', 'a', 'm', 'p', '"', ':',
        ]);
        assert(",\"level\":"@ =~= seq![',', '"', 'l', 'e', 'v', 'e', 'l', '"', ':']);
        assert(",\"msg\":"@ =~= seq![',', '"', 'm', 's', 'g', '"', ':']);
    }
    let ghost head = out@;
    let mut i: usize = 0;
    while i < rec.fields.len()
        invariant
            i <= rec.fields@.len(),
            out@ == head + json_fields_rest(rec.fields@.subrange(0, i as int)),
        decreases rec.fields@.len() - i,
    {
        push_char(&mut out, ',');
        append_json_string(&mut out, rec.fields[i].0.as_str());
        push_char(&mut out, ':');
        append_json_value(&mut out, &rec.fields[i].1);
        proof {
            lemma_json_fields_rest_snoc(rec.fields@.subrange(0, i as int), rec.fields@[i as int]);
            assert(rec.fields@.subrange(0, i as int).push(rec.fields@[i as int])
                =~= rec.fields@.subrange(0, i as int + 1));
            assert(out@ =~= head + json_fields_rest(rec.fields@.subrange(0, i as int + 1)));
        }
        i = i + 1;
    }
    push_char(&mut out, '}');
    proof {
        assert(rec.fields@.subrange(0, rec.fields@.len() as int) =~= rec.fields@);
        assert(out@ =~= record_json(rec.timestamp@, rec.level, rec.msg@, rec.fields@));
    }
    out
}

/// The JSON line of one record: metadata and pairs flattened, rendered as
/// one object, with a terminating newline.
pub open spec fn record_json_line(
    ts: Seq<char>,
    level: Level,
    msg: Seq<char>,
    pairs: Seq<Field>,
) -> Seq<char> {
    record_json(ts, level, msg, flatten_spec(pairs)) + seq!['\n']
}

/// Formats one record as a JSON line: the pairs are flattened (last write
/// per name wins, names sorted ascending) and the object is emitted with
/// `timestamp`, `level` and `msg` first, then the dynamic fields, then a
/// newline. Rendering is deterministic: the result is a function of the
/// arguments alone.
pub fn json_format_record(
    timestamp: String,
    level: Level,
    msg: String,
    pairs: Vec<Field>,
) -> (r: String)
    ensures
        r@ == record_json_line(timestamp@, level, msg@, pairs@),
{
    let rec = crate::flatten::FlattenedRecord::new(timestamp, level, msg, pairs);
    let mut out = render_json(&rec);
    push_char(&mut out, '\n');
    out
}

} // verus!
