//! The schema language and the code generator: messages and services read
//! from the words of a schema, and the Rust code written for them.
use crate::text::{push_char, push_str, split_words, str_eq, strings_view, words_of};
use vstd::prelude::*;

verus! {

/// The type of a message field.
#[derive(Debug, Clone, Copy, PartialEq, Eq, Structural)]
pub enum Type {
    String,
    Uint32,
    Uint64,
}

impl Type {
    /// The type a schema word names.
    pub open spec fn named(w: Seq<char>) -> Option<Type> {
        if w == "string"@ {
            Some(Type::String)
        } else if w == "uint32"@ {
            Some(Type::Uint32)
        } else if w == "uint64"@ {
            Some(Type::Uint64)
        } else {
            None
        }
    }

    /// Reads a schema type word.
    pub fn from_name(w: &str) -> (r: Option<Type>)
        ensures
            r == Type::named(w@),
    {
        if str_eq(w, "string") {
            Some(Type::String)
        } else if str_eq(w, "uint32") {
            Some(Type::Uint32)
        } else if str_eq(w, "uint64") {
            Some(Type::Uint64)
        } else {
            None
        }
    }

    /// The schema word of the type.
    pub open spec fn schema_text(self) -> Seq<char> {
        match self {
            Type::String => "string"@,
            Type::Uint32 => "uint32"@,
            Type::Uint64 => "uint64"@,
        }
    }

    pub fn schema_name(&self) -> (r: &'static str)
        ensures
            r@ == self.schema_text(),
    {
        match self {
            Type::String => "string",
            Type::Uint32 => "uint32",
            Type::Uint64 => "uint64",
        }
    }

    /// The Rust type the generated code gives a field of the type.
    pub open spec fn rust_text(self) -> Seq<char> {
        match self {
            Type::String => "String"@,
            Type::Uint32 => "u32"@,
            Type::Uint64 => "u64"@,
        }
    }

    pub fn rust_name(&self) -> (r: &'static str)
        ensures
            r@ == self.rust_text(),
    {
        match self {
            Type::String => "String",
            Type::Uint32 => "u32",
            Type::Uint64 => "u64",
        }
    }

    /// The one-byte code of the type.
    pub open spec fn spec_code(self) -> u8 {
        match self {
            Type::String => 0x00,
            Type::Uint32 => 0x10,
            Type::Uint64 => 0x20,
        }
    }

    pub fn code(&self) -> (r: u8)
        ensures
            r == self.spec_code(),
    {
        match self {
            Type::String => 0x00,
            Type::Uint32 => 0x10,
            Type::Uint64 => 0x20,
        }
    }

    /// The type with a given one-byte code.
    pub fn from_code(u: u8) -> (r: Option<Type>)
        ensures
            r matches Some(t) ==> t.spec_code() == u,
            r is None ==> u != 0x00 && u != 0x10 && u != 0x20,
    {
        if u == 0x00 {
            Some(Type::String)
        } else if u == 0x10 {
            Some(Type::Uint32)
        } else if u == 0x20 {
            Some(Type::Uint64)
        } else {
            None
        }
    }

    /// The wire type of the type: 0 for varints, 2 for length-delimited bytes.
    pub open spec fn wire_type(self) -> u8 {
        match self {
            Type::String => 2,
            Type::Uint32 => 0,
            Type::Uint64 => 0,
        }
    }
}

/// The decimal digits of a number.
pub open spec fn decimal(n: nat) -> Seq<char>
    decreases n,
{
    if n < 10 {
        seq![(n + 48) as char]
    } else {
        decimal(n / 10).push(((n % 10) + 48) as char)
    }
}

/// Appends the decimal digits of `n`.
pub fn push_decimal(s: &mut String, n: u8)
    ensures
        final(s)@ == old(s)@ + decimal(n as nat),
{
    if n >= 100 {
        push_char(s, ((n / 100) + 48) as char);
    }
    if n >= 10 {
        push_char(s, (((n / 10) % 10) + 48) as char);
    }
    push_char(s, ((n % 10) + 48) as char);
    let ghost m = n as nat;
    assert(m / 10 / 10 == m / 100);
    assert(decimal(m) =~= if m < 10 {
        seq![(m + 48) as char]
    } else if m < 100 {
        seq![((m / 10) + 48) as char, ((m % 10) + 48) as char]
    } else {
        seq![((m / 100) + 48) as char, (((m / 10) % 10) + 48) as char, ((m % 10) + 48) as char]
    }) by {
        reveal_with_fuel(decimal, 3);
    }
    assert(s@ =~= old(s)@ + decimal(n as nat));
}

/// A field of a message: its type, name, and field number.
pub struct Field {
    pub typ: Type,
    pub name: String,
    pub alias: u8,
}

/// What a field is, by value.
pub struct FieldView {
    pub typ: Type,
    pub name: Seq<char>,
    pub alias: u8,
}

impl View for Field {
    type V = FieldView;

    open spec fn view(&self) -> FieldView {
        FieldView { typ: self.typ, name: self.name@, alias: self.alias }
    }
}

/// The wire tag of a field: its number shifted past three bits of wire type.
pub open spec fn field_tag(f: FieldView) -> u8 {
    (f.alias << 3u8) | f.typ.wire_type()
}

/// The struct member that the generated code declares for a field.
pub open spec fn field_decl(f: FieldView) -> Seq<char> {
    "pub "@ + f.name + ": "@ + f.typ.rust_text() + ",\n"@
}

/// The lines of the generated `encode` that write a field.
pub open spec fn field_encode_code(f: FieldView) -> Seq<char> {
    "        writer.write_all(&["@ + decimal(field_tag(f) as nat) + "])?;\n"@ + match f.typ {
        Type::String => "        write_varint(self."@ + f.name + ".len() as u64, writer)?;\n"@
            + "        writer.write_all(self."@ + f.name + ".as_bytes())?;\n"@,
        _ => "        write_varint(self."@ + f.name + " as u64, writer)?;\n"@,
    }
}

/// The match arm of the generated `decode` that reads a field.
pub open spec fn field_decode_code(f: FieldView) -> Seq<char> {
    "            "@ + decimal(field_tag(f) as nat) + " => {\n"@ + match f.typ {
        Type::Uint64 => "                msg."@ + f.name + " = read_varint(reader)? as u64;\n"@,
        Type::Uint32 => "                msg."@ + f.name + " = read_varint(reader)? as u32;\n"@,
        Type::String => "                let len = read_varint(reader)? as usize;\n"@
            + "                let mut buf = vec![0u8; len];\n"@
            + "                reader.read_exact(&mut buf)?;\n"@ + "                msg."@ + f.name
            + " = String::from_utf8(buf)\n"@
            + "                    .map_err(|_| io::Error::new(io::ErrorKind::InvalidData, \"invalid utf-8 in "@
            + f.name + "\"))?;\n"@,
    } + "            }\n"@
}

impl Field {
    /// The wire tag of the field.
    pub fn tag(&self) -> (r: u8)
        ensures
            r == field_tag(self@),
    {
        let wire_type: u8 = match self.typ {
            Type::Uint32 | Type::Uint64 => 0,
            Type::String => 2,
        };
        (self.alias << 3) | wire_type
    }

    /// Appends the struct member declared for the field.
    pub fn write_decl(&self, out: &mut String)
        ensures
            final(out)@ == old(out)@ + field_decl(self@),
    {
        push_str(out, "pub ");
        push_str(out, self.name.as_str());
        push_str(out, ": ");
        push_str(out, self.typ.rust_name());
        push_str(out, ",\n");
        assert(out@ =~= old(out)@ + field_decl(self@));
    }

    /// Appends the lines of `encode` that write the field.
    pub fn encode_code(&self, out: &mut String)
        ensures
            final(out)@ == old(out)@ + field_encode_code(self@),
    {
        let tag = self.tag();
        push_str(out, "        writer.write_all(&[");
        push_decimal(out, tag);
        push_str(out, "])?;\n");
        let ghost head = out@;
        match self.typ {
            Type::String => {
                push_str(out, "        write_varint(self.");
                push_str(out, self.name.as_str());
                push_str(out, ".len() as u64, writer)?;\n");
                push_str(out, "        writer.write_all(self.");
                push_str(out, self.name.as_str());
                push_str(out, ".as_bytes())?;\n");
            },
            _ => {
                push_str(out, "        write_varint(self.");
                push_str(out, self.name.as_str());
                push_str(out, " as u64, writer)?;\n");
            },
        }
        assert(out@ =~= old(out)@ + field_encode_code(self@));
    }

    /// Appends the match arm of `decode` that reads the field.
    pub fn decode_code(&self, out: &mut String)
        ensures
            final(out)@ == old(out)@ + field_decode_code(self@),
    {
        let tag = self.tag();
        push_str(out, "            ");
        push_decimal(out, tag);
        push_str(out, " => {\n");
        match self.typ {
            Type::Uint64 => {
                push_str(out, "                msg.");
                push_str(out, self.name.as_str());
                push_str(out, " = read_varint(reader)? as u64;\n");
            },
            Type::Uint32 => {
                push_str(out, "                msg.");
                push_str(out, self.name.as_str());
                push_str(out, " = read_varint(reader)? as u32;\n");
            },
            Type::String => {
                push_str(out, "                let len = read_varint(reader)? as usize;\n");
                push_str(out, "                let mut buf = vec![0u8; len];\n");
                push_str(out, "                reader.read_exact(&mut buf)?;\n");
                push_str(out, "                msg.");
                push_str(out, self.name.as_str());
                push_str(out, " = String::from_utf8(buf)\n");
                push_str(
                    out,
                    "                    .map_err(|_| io::Error::new(io::ErrorKind::InvalidData, \"invalid utf-8 in ",
                );
                push_str(out, self.name.as_str());
                push_str(out, "\"))?;\n");
            },
        }
        push_str(out, "            }\n");
        assert(out@ =~= old(out)@ + field_decode_code(self@));
    }
}

/// The shared part of the generated code: the serialization trait and the
/// varint helpers every message uses.
pub const TRAIT_PRELUDE: &'static str = "use std::io::{self, Read, Write};

pub trait BinarySerializable: Sized {
    fn encode<W: Write>(&self, writer: &mut W) -> io::Result<()>;
    fn decode<R: Read>(reader: &mut R) -> io::Result<Self>;
}
fn write_varint(mut value: u64, writer: &mut dyn Write) -> io::Result<()> {
    loop {
        let mut byte = (value & 0x7f) as u8;
        value >>= 7;
        if value != 0 {
            byte |= 0x80;
        }
        writer.write_all(&[byte])?;
        if value == 0 {
            break;
        }
    }
    Ok(())
}

fn read_varint(reader: &mut dyn Read) -> io::Result<u64> {
    let mut result: u64 = 0x00;

    loop {
        let mut buf = [0u8; 1];
        reader.read_exact(&mut buf)?;
        let byte = buf[0];
        
        result |= ( byte & 0x7f ) as u64;
        if byte >> 7 == 0 {
            break;
        }
        result <<= 7;
    }

    Ok(result)
}
";

/// Appends the shared part of the generated code, and a line break.
pub fn write_trait(out: &mut String)
    ensures
        final(out)@ == old(out)@ + TRAIT_PRELUDE@ + "\n"@,
{
    push_str(out, TRAIT_PRELUDE);
    push_str(out, "\n");
}

/// The member declarations of the fields, in order.
pub open spec fn fields_decls(fs: Seq<FieldView>) -> Seq<char>
    decreases fs.len(),
{
    if fs.len() == 0 {
        Seq::empty()
    } else {
        fields_decls(fs.drop_last()) + "    "@ + field_decl(fs.last())
    }
}

/// The encoding lines of the fields, in order.
pub open spec fn fields_encode(fs: Seq<FieldView>) -> Seq<char>
    decreases fs.len(),
{
    if fs.len() == 0 {
        Seq::empty()
    } else {
        fields_encode(fs.drop_last()) + field_encode_code(fs.last())
    }
}

/// The decoding match arms of the fields, in order.
pub open spec fn fields_decode(fs: Seq<FieldView>) -> Seq<char>
    decreases fs.len(),
{
    if fs.len() == 0 {
        Seq::empty()
    } else {
        fields_decode(fs.drop_last()) + field_decode_code(fs.last())
    }
}

/// A message of the schema: its name and fields.
pub struct Message {
    pub name: String,
    pub fields: Vec<Field>,
}

/// What a message is, by value.
pub struct MessageView {
    pub name: Seq<char>,
    pub fields: Seq<FieldView>,
}

/// The views of a run of fields.
pub open spec fn fields_view(fs: Seq<Field>) -> Seq<FieldView> {
    Seq::new(fs.len(), |i: int| fs[i]@)
}

impl View for Message {
    type V = MessageView;

    open spec fn view(&self) -> MessageView {
        MessageView { name: self.name@, fields: fields_view(self.fields@) }
    }
}

/// The generated lines between the encoding lines of the fields and their
/// decoding match arms.
pub const DECODE_HEAD: &'static str = "        Ok(())\n   }\n   fn decode<R: Read>(reader: &mut R) -> io::Result<Self> {\n        let mut msg = Self::default();\n\n        loop {\n            let tag = match read_varint(reader) {\n                Ok(tag) => tag as u8,\n                Err(e) if e.kind() == io::ErrorKind::UnexpectedEof => break,\n                Err(e) => return Err(e),\n            };\n\n            match tag {\n";

/// The generated lines after the decoding match arms of the fields.
pub const DECODE_TAIL: &'static str = "                _ => {\n                    return Err(io::Error::new(io::ErrorKind::InvalidData, format!(\"unknown tag: {}\", tag)));\n                }\n            }\n        }\n\n        Ok(msg)\n   }\n}\n";

/// The generated struct header of a message.
pub open spec fn message_head(name: Seq<char>) -> Seq<char> {
    "#[derive(Debug, Clone, Default)]\n"@ + "pub struct "@ + name + " {\n"@
}

/// The generated lines from the end of the struct to the encoding lines.
pub open spec fn impl_head(name: Seq<char>) -> Seq<char> {
    "}\n"@ + "\nimpl BinarySerializable for "@ + name + " {\n"@
        + "\n   fn encode<W: Write>(&self, writer: &mut W) -> io::Result<()> {\n"@
}

/// The code generated for a message: a struct with a member per field, and
/// its `BinarySerializable` implementation.
pub open spec fn message_code(m: MessageView) -> Seq<char> {
    message_head(m.name) + fields_decls(m.fields) + impl_head(m.name) + fields_encode(m.fields) + DECODE_HEAD@
        + fields_decode(m.fields) + DECODE_TAIL@
}

/// A call of a service: its name, argument type and result type.
pub struct Rpc {
    pub name: String,
    pub arg: String,
    pub ret: String,
}

impl Rpc {
    /// The call that a schema line gives, from its two words cut at their
    /// parentheses: the name and argument are the first two pieces of the
    /// call word, the result the second piece of the word after `returns`.
    pub fn from_pieces(call: &Vec<String>, ret: &Vec<String>) -> (r: Rpc)
        requires
            call@.len() >= 2,
            ret@.len() >= 2,
        ensures
            r.name@ == call@[0]@,
            r.arg@ == call@[1]@,
            r.ret@ == ret@[1]@,
    {
        Rpc { name: call[0].clone(), arg: call[1].clone(), ret: ret[1].clone() }
    }
}

/// A service of the schema: its name and calls.
pub struct Service {
    pub name: String,
    pub rpcs: Vec<Rpc>,
}

/// The trait method generated for a call.
pub open spec fn rpc_code(name: Seq<char>, arg: Seq<char>, ret: Seq<char>) -> Seq<char> {
    "   fn "@ + name + "(r: "@ + arg + ") -> "@ + ret + ";\n"@
}

/// The trait methods of the calls, in order.
pub open spec fn rpcs_code(rs: Seq<(Seq<char>, Seq<char>, Seq<char>)>) -> Seq<char>
    decreases rs.len(),
{
    if rs.len() == 0 {
        Seq::empty()
    } else {
        rpcs_code(rs.drop_last()) + rpc_code(rs.last().0, rs.last().1, rs.last().2)
    }
}

/// The views of a run of calls.
pub open spec fn rpcs_view(rs: Seq<Rpc>) -> Seq<(Seq<char>, Seq<char>, Seq<char>)> {
    Seq::new(rs.len(), |i: int| (rs[i].name@, rs[i].arg@, rs[i].ret@))
}

/// The code generated for a service: a trait with a method per call.
pub open spec fn service_code(name: Seq<char>, rs: Seq<(Seq<char>, Seq<char>, Seq<char>)>) -> Seq<char> {
    "pub trait "@ + name + " {\n"@ + rpcs_code(rs) + "}\n"@
}

/// A part of a schema that code is generated for.
pub trait Declaration {
    /// The code generated for it.
    spec fn code_text(&self) -> Seq<char>;

    /// Appends the code generated for it.
    fn write_code(&self, out: &mut String)
        ensures
            final(out)@ == old(out)@ + self.code_text(),
    ;
}

impl Message {
    fn write_decls(&self, out: &mut String)
        ensures
            final(out)@ == old(out)@ + fields_decls(self@.fields),
    {
        let ghost fs = self@.fields;
        let n = self.fields.len();
        let mut i: usize = 0;
        while i < n
            invariant
                n == self.fields@.len(),
                fs == self@.fields,
                i <= n,
                out@ == old(out)@ + fields_decls(fs.take(i as int)),
            decreases n - i,
        {
            assert(fs.take(i + 1).drop_last() =~= fs.take(i as int));
            push_str(out, "    ");
            self.fields[i].write_decl(out);
            assert(out@ =~= old(out)@ + fields_decls(fs.take(i + 1)));
            i = i + 1;
        }
        assert(fs.take(n as int) =~= fs);
    }

    fn write_encode(&self, out: &mut String)
        ensures
            final(out)@ == old(out)@ + fields_encode(self@.fields),
    {
        let ghost fs = self@.fields;
        let n = self.fields.len();
        let mut i: usize = 0;
        while i < n
            invariant
                n == self.fields@.len(),
                fs == self@.fields,
                i <= n,
                out@ == old(out)@ + fields_encode(fs.take(i as int)),
            decreases n - i,
        {
            assert(fs.take(i + 1).drop_last() =~= fs.take(i as int));
            self.fields[i].encode_code(out);
            assert(out@ =~= old(out)@ + fields_encode(fs.take(i + 1)));
            i = i + 1;
        }
        assert(fs.take(n as int) =~= fs);
    }

    fn write_decode(&self, out: &mut String)
        ensures
            final(out)@ == old(out)@ + fields_decode(self@.fields),
    {
        let ghost fs = self@.fields;
        let n = self.fields.len();
        let mut i: usize = 0;
        while i < n
            invariant
                n == self.fields@.len(),
                fs == self@.fields,
                i <= n,
                out@ == old(out)@ + fields_decode(fs.take(i as int)),
            decreases n - i,
        {
            assert(fs.take(i + 1).drop_last() =~= fs.take(i as int));
            self.fields[i].decode_code(out);
            assert(out@ =~= old(out)@ + fields_decode(fs.take(i + 1)));
            i = i + 1;
        }
        assert(fs.take(n as int) =~= fs);
    }
}

impl Declaration for Message {
    open spec fn code_text(&self) -> Seq<char> {
        message_code(self@)
    }

    fn write_code(&self, out: &mut String) {
        push_str(out, "#[derive(Debug, Clone, Default)]\n");
        push_str(out, "pub struct ");
        push_str(out, self.name.as_str());
        push_str(out, " {\n");
        let ghost a = out@;
        assert(a =~= old(out)@ + message_head(self.name@));
        self.write_decls(out);
        push_str(out, "}\n");
        push_str(out, "\nimpl BinarySerializable for ");
        push_str(out, self.name.as_str());
        push_str(out, " {\n");
        push_str(out, "\n   fn encode<W: Write>(&self, writer: &mut W) -> io::Result<()> {\n");
        let ghost b = out@;
        assert(b =~= a + fields_decls(self@.fields) + impl_head(self.name@));
        self.write_encode(out);
        push_str(out, DECODE_HEAD);
        self.write_decode(out);
        push_str(out, DECODE_TAIL);
        assert(out@ =~= old(out)@ + message_code(self@));
    }
}

impl Declaration for Service {
    open spec fn code_text(&self) -> Seq<char> {
        service_code(self.name@, rpcs_view(self.rpcs@))
    }

    fn write_code(&self, out: &mut String) {
        let ghost rs = rpcs_view(self.rpcs@);
        push_str(out, "pub trait ");
        push_str(out, self.name.as_str());
        push_str(out, " {\n");
        let ghost h = out@;
        let n = self.rpcs.len();
        let mut i: usize = 0;
        while i < n
            invariant
                n == self.rpcs@.len(),
                rs == rpcs_view(self.rpcs@),
                i <= n,
                out@ == h + rpcs_code(rs.take(i as int)),
            decreases n - i,
        {
            assert(rs.take(i + 1).drop_last() =~= rs.take(i as int));
            let rpc = &self.rpcs[i];
            push_str(out, "   fn ");
            push_str(out, rpc.name.as_str());
            push_str(out, "(r: ");
            push_str(out, rpc.arg.as_str());
            push_str(out, ") -> ");
            push_str(out, rpc.ret.as_str());
            push_str(out, ";\n");
            assert(out@ =~= h + rpcs_code(rs.take(i + 1)));
            i = i + 1;
        }
        assert(rs.take(n as int) =~= rs);
        push_str(out, "}\n");
        assert(out@ =~= old(out)@ + service_code(self.name@, rs));
    }
}

/// The code of a run of declarations, each followed by a line break.
pub open spec fn declarations_code<T: Declaration>(decs: Seq<T>) -> Seq<char>
    decreases decs.len(),
{
    if decs.len() == 0 {
        Seq::empty()
    } else {
        declarations_code(decs.drop_last()) + decs.last().code_text() + "\n"@
    }
}

/// Appends the code of each declaration, each followed by a line break.
pub fn write_declarations<T: Declaration>(out: &mut String, decs: &[T])
    ensures
        final(out)@ == old(out)@ + declarations_code(decs@),
{
    let n = decs.len();
    let mut i: usize = 0;
    while i < n
        invariant
            n == decs@.len(),
            i <= n,
            out@ == old(out)@ + declarations_code(decs@.take(i as int)),
        decreases n - i,
    {
        assert(decs@.take(i + 1).drop_last() =~= decs@.take(i as int));
        decs[i].write_code(out);
        push_str(out, "\n");
        assert(out@ =~= old(out)@ + declarations_code(decs@.take(i + 1)));
        i = i + 1;
    }
    assert(decs@.take(n as int) =~= decs@);
}

/// The pieces of a text between its parenthesis characters, in order: the
/// text is cut at every `(` and every `)`, and a piece may be empty (before
/// a parenthesis at the start, after one at the end, between two in a row).
pub open spec fn paren_pieces(s: Seq<char>) -> Seq<Seq<char>>
    decreases s.len(),
{
    if s.len() == 0 {
        seq![Seq::<char>::empty()]
    } else {
        let rest = paren_pieces(s.drop_first());
        if s[0] == '(' || s[0] == ')' {
            seq![Seq::<char>::empty()] + rest
        } else {
            rest.update(0, seq![s[0]] + rest[0])
        }
    }
}

/// The pattern that cuts a call word at its parentheses.
pub const PARENS: &'static str = "[()]";

/// `regex::Regex::new` on the pattern `[()]`, then `Regex::split`. The
/// pattern is a class of the two parenthesis characters, which the crate
/// compiles; `split` gives the parts of the text between the matches, in
/// order, each match being one of the two characters, with an empty part
/// beside a match at either end or between two adjacent matches.
#[verifier::external_body]
fn split_at_parens(pattern: &str, haystack: &str) -> (r: Option<Vec<String>>)
    requires
        pattern@ == "[()]"@,
    ensures
        r is Some,
        r matches Some(v) ==> strings_view(v@) == paren_pieces(haystack@),
{
    match regex::Regex::new(pattern) {
        Ok(re) => Some(re.split(haystack).map(|p| p.to_string()).collect()),
        Err(_) => None,
    }
}

/// Where reading a part of a schema ends.
pub enum SchemaRead<T> {
    /// The part, and the position after it.
    Read(T, nat),
    /// The words ran out, or a call word lacked its parts; reading goes on
    /// from the position given.
    Skipped(nat),
    /// A field type that is not a type of the schema language.
    InvalidType,
    /// A field number word that does not start with a digit.
    InvalidAlias,
}

/// What can stop a schema from being read.
#[derive(Debug, PartialEq, Eq, Structural)]
pub enum SchemaError {
    /// A field type that is not a type of the schema language.
    InvalidType,
    /// A field number word that does not start with a digit.
    InvalidAlias,
    /// The schema has no message and no service.
    NoKeywords,
}

/// The field number of a word: the value of its first character, when that
/// is a decimal digit.
pub open spec fn alias_value(w: Seq<char>) -> Option<u8> {
    if w.len() > 0 && '0' <= w[0] <= '9' {
        Some(((w[0] as u32) - 48) as u8)
    } else {
        None
    }
}

/// Reads the fields of a message body from `pos` on, after `fields`.
pub open spec fn read_fields(words: Seq<Seq<char>>, pos: nat, fields: Seq<FieldView>) -> SchemaRead<Seq<FieldView>>
    decreases words.len() - pos,
{
    if pos >= words.len() {
        SchemaRead::Skipped(words.len())
    } else if words[pos as int] == "}"@ {
        SchemaRead::Read(fields, pos + 1)
    } else if words[pos as int] == "{"@ {
        read_fields(words, pos + 1, fields)
    } else if pos + 3 >= words.len() {
        SchemaRead::Skipped(words.len())
    } else {
        match alias_value(words[pos + 3int]) {
            None => SchemaRead::InvalidAlias,
            Some(a) => match Type::named(words[pos as int]) {
                None => SchemaRead::InvalidType,
                Some(t) => read_fields(
                    words,
                    pos + 4,
                    fields.push(FieldView { typ: t, name: words[pos + 1int], alias: a }),
                ),
            },
        }
    }
}

/// Reads a message from `pos` on: its name, then its body.
pub open spec fn read_message_at(words: Seq<Seq<char>>, pos: nat) -> SchemaRead<MessageView> {
    if pos >= words.len() {
        SchemaRead::Skipped(words.len())
    } else {
        match read_fields(words, pos + 1, Seq::empty()) {
            SchemaRead::Read(fs, p) => SchemaRead::Read(MessageView { name: words[pos as int], fields: fs }, p),
            SchemaRead::Skipped(p) => SchemaRead::Skipped(p),
            SchemaRead::InvalidType => SchemaRead::InvalidType,
            SchemaRead::InvalidAlias => SchemaRead::InvalidAlias,
        }
    }
}

/// The first character of a string.
fn first_char(s: &str) -> (r: Option<char>)
    ensures
        r == (if s@.len() > 0 {
            Some(s@[0])
        } else {
            None::<char>
        }),
{
    for c in it: s.chars()
        invariant
            it.seq() == s@,
            it.index() == 0,
    {
        return Some(c);
    }
    None
}

/// Reads the field number of a word.
fn alias_of(w: &str) -> (r: Option<u8>)
    ensures
        r == alias_value(w@),
{
    match first_char(w) {
        Some(c) => if '0' <= c && c <= '9' {
            Some(((c as u32) - 48) as u8)
        } else {
            None
        },
        None => None,
    }
}

/// Reads a message from the words of a schema, starting at its name.
pub fn read_message(words: &Vec<String>, pos: usize) -> (r: Result<(Option<Message>, usize), SchemaError>)
    requires
        pos <= words@.len(),
    ensures
        match read_message_at(strings_view(words@), pos as nat) {
            SchemaRead::Read(m, p) => r matches Ok((Some(msg), q)) && msg@ == m && q == p,
            SchemaRead::Skipped(p) => r matches Ok((None, q)) && q == p,
            SchemaRead::InvalidType => r == Err::<(Option<Message>, usize), SchemaError>(SchemaError::InvalidType),
            SchemaRead::InvalidAlias => r == Err::<(Option<Message>, usize), SchemaError>(SchemaError::InvalidAlias),
        },
{
    let ghost ws = strings_view(words@);
    let n = words.len();
    if pos >= n {
        return Ok((None, n));
    }
    let name = words[pos].clone();
    let mut fields: Vec<Field> = Vec::new();
    let mut i = pos + 1;
    assert(fields_view(fields@) =~= Seq::<FieldView>::empty());
    loop
        invariant
            n == words@.len(),
            ws == strings_view(words@),
            pos < i <= n,
            name@ == ws[pos as int],
            read_fields(ws, (pos + 1) as nat, Seq::empty()) == read_fields(ws, i as nat, fields_view(fields@)),
        decreases n - i,
    {
        if i >= n {
            return Ok((None, n));
        }
        let w = words[i].as_str();
        assert(w@ == ws[i as int]);
        if str_eq(w, "}") {
            let m = Message { name, fields };
            assert(m@.fields == fields_view(fields@));
            return Ok((Some(m), i + 1));
        }
        if str_eq(w, "{") {
            i = i + 1;
        } else {
            if n - i <= 3 {
                return Ok((None, n));
            }
            assert(words[i + 3]@ == ws[i + 3]);
            let alias = match alias_of(words[i + 3].as_str()) {
                Some(a) => a,
                None => return Err(SchemaError::InvalidAlias),
            };
            let typ = match Type::from_name(w) {
                Some(t) => t,
                None => return Err(SchemaError::InvalidType),
            };
            let field = Field { typ, name: words[i + 1].clone(), alias };
            let ghost before = fields_view(fields@);
            fields.push(field);
            assert(fields_view(fields@) =~= before.push(FieldView { typ, name: ws[i + 1], alias }));
            i = i + 4;
        }
    }
}

impl View for Service {
    type V = (Seq<char>, Seq<(Seq<char>, Seq<char>, Seq<char>)>);

    open spec fn view(&self) -> (Seq<char>, Seq<(Seq<char>, Seq<char>, Seq<char>)>) {
        (self.name@, rpcs_view(self.rpcs@))
    }
}

/// Reads the calls of a service body from `pos` on, after `rpcs`. A call is
/// `rpc Name(Arg) returns (Ret);`: the word after `rpc` gives the name and
/// argument, the word after `returns` the result.
pub open spec fn read_rpcs(words: Seq<Seq<char>>, pos: nat, rpcs: Seq<(Seq<char>, Seq<char>, Seq<char>)>) -> SchemaRead<
    Seq<(Seq<char>, Seq<char>, Seq<char>)>,
>
    decreases words.len() - pos,
{
    if pos >= words.len() {
        SchemaRead::Skipped(words.len())
    } else if words[pos as int] == "}"@ {
        SchemaRead::Read(rpcs, pos + 1)
    } else if words[pos as int] == "{"@ {
        read_rpcs(words, pos + 1, rpcs)
    } else if pos + 1 >= words.len() {
        SchemaRead::Skipped(words.len())
    } else {
        let p1 = paren_pieces(words[pos + 1int]);
        if p1.len() < 2 {
            SchemaRead::Skipped(pos + 2)
        } else if pos + 3 >= words.len() {
            SchemaRead::Skipped(words.len())
        } else {
            let p2 = paren_pieces(words[pos + 3int]);
            if p2.len() < 2 {
                SchemaRead::Skipped(pos + 4)
            } else {
                read_rpcs(words, pos + 4, rpcs.push((p1[0], p1[1], p2[1])))
            }
        }
    }
}

/// Reads a service from `pos` on: its name, then its body.
pub open spec fn read_service_at(words: Seq<Seq<char>>, pos: nat) -> SchemaRead<
    (Seq<char>, Seq<(Seq<char>, Seq<char>, Seq<char>)>),
> {
    if pos >= words.len() {
        SchemaRead::Skipped(words.len())
    } else {
        match read_rpcs(words, pos + 1, Seq::empty()) {
            SchemaRead::Read(rs, p) => SchemaRead::Read((words[pos as int], rs), p),
            SchemaRead::Skipped(p) => SchemaRead::Skipped(p),
            SchemaRead::InvalidType => SchemaRead::InvalidType,
            SchemaRead::InvalidAlias => SchemaRead::InvalidAlias,
        }
    }
}

/// Reads a service from the words of a schema, starting at its name.
pub fn read_service(words: &Vec<String>, pos: usize) -> (r: Result<(Option<Service>, usize), SchemaError>)
    requires
        pos <= words@.len(),
    ensures
        match read_service_at(strings_view(words@), pos as nat) {
            SchemaRead::Read(sv, p) => r matches Ok((Some(svc), q)) && svc@ == sv && q == p,
            SchemaRead::Skipped(p) => r matches Ok((None, q)) && q == p,
            _ => false,
        },
{
    let ghost ws = strings_view(words@);
    let n = words.len();
    if pos >= n {
        return Ok((None, n));
    }
    let name = words[pos].clone();
    let mut rpcs: Vec<Rpc> = Vec::new();
    let mut i = pos + 1;
    assert(rpcs_view(rpcs@) =~= Seq::<(Seq<char>, Seq<char>, Seq<char>)>::empty());
    loop
        invariant
            n == words@.len(),
            ws == strings_view(words@),
            pos < i <= n,
            name@ == ws[pos as int],
            read_rpcs(ws, (pos + 1) as nat, Seq::empty()) == read_rpcs(ws, i as nat, rpcs_view(rpcs@)),
        decreases n - i,
    {
        if i >= n {
            return Ok((None, n));
        }
        let w = words[i].as_str();
        assert(w@ == ws[i as int]);
        if str_eq(w, "}") {
            let svc = Service { name, rpcs };
            return Ok((Some(svc), i + 1));
        }
        if str_eq(w, "{") {
            i = i + 1;
        } else {
            if n - i <= 1 {
                return Ok((None, n));
            }
            assert(words[i + 1]@ == ws[i + 1]);
            let p1 = split_at_parens(PARENS, words[i + 1].as_str()).unwrap();
            if p1.len() < 2 {
                return Ok((None, i + 2));
            }
            if n - i <= 3 {
                return Ok((None, n));
            }
            assert(words[i + 3]@ == ws[i + 3]);
            let p2 = split_at_parens(PARENS, words[i + 3].as_str()).unwrap();
            if p2.len() < 2 {
                return Ok((None, i + 4));
            }
            assert(p1[0]@ == strings_view(p1@)[0] && p1[1]@ == strings_view(p1@)[1]);
            assert(p2[1]@ == strings_view(p2@)[1]);
            let rpc = Rpc::from_pieces(&p1, &p2);
            let ghost before = rpcs_view(rpcs@);
            rpcs.push(rpc);
            assert(rpcs_view(rpcs@) =~= before.push((p1@[0]@, p1@[1]@, p2@[1]@)));
            i = i + 4;
        }
    }
}

/// A schema: its messages and services, in the order they appear.
pub struct Schema {
    pub messages: Vec<Message>,
    pub services: Vec<Service>,
}

/// The views of a run of messages.
pub open spec fn messages_view(ms: Seq<Message>) -> Seq<MessageView> {
    Seq::new(ms.len(), |i: int| ms[i]@)
}

/// The views of a run of services.
pub open spec fn services_view(ss: Seq<Service>) -> Seq<(Seq<char>, Seq<(Seq<char>, Seq<char>, Seq<char>)>)> {
    Seq::new(ss.len(), |i: int| ss[i]@)
}

/// Reads the messages and services of a schema from `pos` on: a word
/// `message` starts a message, a word `service` a service; other words are
/// passed over.
pub open spec fn parse_from(
    words: Seq<Seq<char>>,
    pos: nat,
    ms: Seq<MessageView>,
    ss: Seq<(Seq<char>, Seq<(Seq<char>, Seq<char>, Seq<char>)>)>,
) -> Result<(Seq<MessageView>, Seq<(Seq<char>, Seq<(Seq<char>, Seq<char>, Seq<char>)>)>), SchemaError>
    decreases words.len() - pos,
{
    if pos >= words.len() {
        Ok((ms, ss))
    } else if words[pos as int] == "message"@ {
        match read_message_at(words, pos + 1) {
            SchemaRead::Read(m, p) => if pos < p <= words.len() {
                parse_from(words, p, ms.push(m), ss)
            } else {
                Ok((ms, ss))
            },
            SchemaRead::Skipped(p) => if pos < p <= words.len() {
                parse_from(words, p, ms, ss)
            } else {
                Ok((ms, ss))
            },
            SchemaRead::InvalidType => Err(SchemaError::InvalidType),
            SchemaRead::InvalidAlias => Err(SchemaError::InvalidAlias),
        }
    } else if words[pos as int] == "service"@ {
        match read_service_at(words, pos + 1) {
            SchemaRead::Read(sv, p) => if pos < p <= words.len() {
                parse_from(words, p, ms, ss.push(sv))
            } else {
                Ok((ms, ss))
            },
            SchemaRead::Skipped(p) => if pos < p <= words.len() {
                parse_from(words, p, ms, ss)
            } else {
                Ok((ms, ss))
            },
            SchemaRead::InvalidType => Err(SchemaError::InvalidType),
            SchemaRead::InvalidAlias => Err(SchemaError::InvalidAlias),
        }
    } else {
        parse_from(words, pos + 1, ms, ss)
    }
}

/// What reading the words of a schema gives: its messages and services, or
/// `NoKeywords` where it has neither.
pub open spec fn parse_words(words: Seq<Seq<char>>) -> Result<
    (Seq<MessageView>, Seq<(Seq<char>, Seq<(Seq<char>, Seq<char>, Seq<char>)>)>),
    SchemaError,
> {
    match parse_from(words, 0, Seq::empty(), Seq::empty()) {
        Ok((ms, ss)) => if ms.len() == 0 && ss.len() == 0 {
            Err(SchemaError::NoKeywords)
        } else {
            Ok((ms, ss))
        },
        Err(e) => Err(e),
    }
}

proof fn lemma_read_fields_advances(words: Seq<Seq<char>>, pos: nat, fields: Seq<FieldView>)
    ensures
        read_fields(words, pos, fields) matches SchemaRead::Read(_, p) ==> pos < p <= words.len(),
        read_fields(words, pos, fields) matches SchemaRead::Skipped(p) ==> p == words.len() || pos <= p
            <= words.len(),
    decreases words.len() - pos,
{
    if pos < words.len() && words[pos as int] != "}"@ {
        if words[pos as int] == "{"@ {
            lemma_read_fields_advances(words, pos + 1, fields);
        } else if pos + 3 < words.len() {
            match alias_value(words[pos + 3int]) {
                Some(a) => match Type::named(words[pos as int]) {
                    Some(t) => lemma_read_fields_advances(
                        words,
                        pos + 4,
                        fields.push(FieldView { typ: t, name: words[pos + 1int], alias: a }),
                    ),
                    None => {},
                },
                None => {},
            }
        }
    }
}

proof fn lemma_read_rpcs_advances(
    words: Seq<Seq<char>>,
    pos: nat,
    rpcs: Seq<(Seq<char>, Seq<char>, Seq<char>)>,
)
    ensures
        read_rpcs(words, pos, rpcs) matches SchemaRead::Read(_, p) ==> pos < p <= words.len(),
        read_rpcs(words, pos, rpcs) matches SchemaRead::Skipped(p) ==> p == words.len() || pos <= p
            <= words.len(),
    decreases words.len() - pos,
{
    if pos < words.len() && words[pos as int] != "}"@ {
        if words[pos as int] == "{"@ {
            lemma_read_rpcs_advances(words, pos + 1, rpcs);
        } else if pos + 3 < words.len() {
            let p1 = paren_pieces(words[pos + 1int]);
            let p2 = paren_pieces(words[pos + 3int]);
            if p1.len() >= 2 && p2.len() >= 2 {
                lemma_read_rpcs_advances(words, pos + 4, rpcs.push((p1[0], p1[1], p2[1])));
            }
        }
    }
}

/// Reads a schema from its text.
pub fn parse_schema(text: &str) -> (r: Result<Schema, SchemaError>)
    ensures
        match r {
            Ok(schema) => parse_words(words_of(text@)) == Ok::<_, SchemaError>(
                (messages_view(schema.messages@), services_view(schema.services@)),
            ),
            Err(e) => parse_words(words_of(text@)) == Err::<(Seq<MessageView>, Seq<(Seq<char>, Seq<(Seq<char>, Seq<char>, Seq<char>)>)>), SchemaError>(e),
        },
{
    let words = split_words(text);
    let ghost ws = strings_view(words@);
    let n = words.len();
    let mut messages: Vec<Message> = Vec::new();
    let mut services: Vec<Service> = Vec::new();
    let mut pos: usize = 0;
    assert(messages_view(messages@) =~= Seq::<MessageView>::empty());
    assert(services_view(services@) =~= Seq::<(Seq<char>, Seq<(Seq<char>, Seq<char>, Seq<char>)>)>::empty());
    while pos < n
        invariant
            n == words@.len(),
            ws == strings_view(words@),
            ws == words_of(text@),
            pos <= n,
            parse_from(ws, 0, Seq::empty(), Seq::empty()) == parse_from(
                ws,
                pos as nat,
                messages_view(messages@),
                services_view(services@),
            ),
        decreases n - pos,
    {
        let w = words[pos].as_str();
        assert(w@ == ws[pos as int]);
        if str_eq(w, "message") {
            proof {
                lemma_read_fields_advances(ws, (pos + 2) as nat, Seq::empty());
            }
            match read_message(&words, pos + 1) {
                Ok((Some(m), p)) => {
                    let ghost before = messages_view(messages@);
                    messages.push(m);
                    assert(messages_view(messages@) =~= before.push(messages@.last()@));
                    pos = p;
                },
                Ok((None, p)) => {
                    pos = p;
                },
                Err(e) => return Err(e),
            }
        } else if str_eq(w, "service") {
            proof {
                lemma_read_rpcs_advances(ws, (pos + 2) as nat, Seq::empty());
            }
            match read_service(&words, pos + 1) {
                Ok((Some(svc), p)) => {
                    let ghost before = services_view(services@);
                    services.push(svc);
                    assert(services_view(services@) =~= before.push(services@.last()@));
                    pos = p;
                },
                Ok((None, p)) => {
                    pos = p;
                },
                Err(e) => return Err(e),
            }
        } else {
            pos = pos + 1;
        }
    }
    if messages.len() == 0 && services.len() == 0 {
        return Err(SchemaError::NoKeywords);
    }
    Ok(Schema { messages, services })
}

/// The code generated for a schema.
pub open spec fn schema_code(ms: Seq<Message>, ss: Seq<Service>) -> Seq<char> {
    TRAIT_PRELUDE@ + "\n"@ + declarations_code(ms) + declarations_code(ss)
}

/// Generates the code of a schema: the shared part, then each message, then
/// each service.
pub fn generate_code(schema: &Schema) -> (r: String)
    ensures
        r@ == schema_code(schema.messages@, schema.services@),
{
    let mut out = String::new();
    write_trait(&mut out);
    write_declarations(&mut out, schema.messages.as_slice());
    write_declarations(&mut out, schema.services.as_slice());
    out
}

} // verus!
