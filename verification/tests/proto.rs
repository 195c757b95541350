use lsm::proto::code::{
    AddUserRequest, AddUserResponse, BinarySerializable, DecodeError, read_string_field, read_varint,
    write_string_field, write_varint, write_varint_field,
};
use lsm::proto::schema::{
    Field, Message, Rpc, SchemaError, Service, TRAIT_PRELUDE, Type, generate_code, parse_schema, push_decimal,
    read_message, read_service,
};

const SCHEMA: &str = "syntax = \"proto3\";

message AddUserRequest {
  string name = 1;
  string surname = 2;
  uint32 age = 3;
}

message AddUserResponse {
  string id = 1;
}

service UserService {
  rpc AddUser(AddUserRequest) returns (AddUserResponse);
}
";

const DECLARATIONS: &str = r##"#[derive(Debug, Clone, Default)]
pub struct AddUserRequest {
    pub name: String,
    pub surname: String,
    pub age: u32,
}

impl BinarySerializable for AddUserRequest {

   fn encode<W: Write>(&self, writer: &mut W) -> io::Result<()> {
        writer.write_all(&[10])?;
        write_varint(self.name.len() as u64, writer)?;
        writer.write_all(self.name.as_bytes())?;
        writer.write_all(&[18])?;
        write_varint(self.surname.len() as u64, writer)?;
        writer.write_all(self.surname.as_bytes())?;
        writer.write_all(&[24])?;
        write_varint(self.age as u64, writer)?;
        Ok(())
   }
   fn decode<R: Read>(reader: &mut R) -> io::Result<Self> {
        let mut msg = Self::default();

        loop {
            let tag = match read_varint(reader) {
                Ok(tag) => tag as u8,
                Err(e) if e.kind() == io::ErrorKind::UnexpectedEof => break,
                Err(e) => return Err(e),
            };

            match tag {
            10 => {
                let len = read_varint(reader)? as usize;
                let mut buf = vec![0u8; len];
                reader.read_exact(&mut buf)?;
                msg.name = String::from_utf8(buf)
                    .map_err(|_| io::Error::new(io::ErrorKind::InvalidData, "invalid utf-8 in name"))?;
            }
            18 => {
                let len = read_varint(reader)? as usize;
                let mut buf = vec![0u8; len];
                reader.read_exact(&mut buf)?;
                msg.surname = String::from_utf8(buf)
                    .map_err(|_| io::Error::new(io::ErrorKind::InvalidData, "invalid utf-8 in surname"))?;
            }
            24 => {
                msg.age = read_varint(reader)? as u32;
            }
                _ => {
                    return Err(io::Error::new(io::ErrorKind::InvalidData, format!("unknown tag: {}", tag)));
                }
            }
        }

        Ok(msg)
   }
}

#[derive(Debug, Clone, Default)]
pub struct AddUserResponse {
    pub id: String,
}

impl BinarySerializable for AddUserResponse {

   fn encode<W: Write>(&self, writer: &mut W) -> io::Result<()> {
        writer.write_all(&[10])?;
        write_varint(self.id.len() as u64, writer)?;
        writer.write_all(self.id.as_bytes())?;
        Ok(())
   }
   fn decode<R: Read>(reader: &mut R) -> io::Result<Self> {
        let mut msg = Self::default();

        loop {
            let tag = match read_varint(reader) {
                Ok(tag) => tag as u8,
                Err(e) if e.kind() == io::ErrorKind::UnexpectedEof => break,
                Err(e) => return Err(e),
            };

            match tag {
            10 => {
                let len = read_varint(reader)? as usize;
                let mut buf = vec![0u8; len];
                reader.read_exact(&mut buf)?;
                msg.id = String::from_utf8(buf)
                    .map_err(|_| io::Error::new(io::ErrorKind::InvalidData, "invalid utf-8 in id"))?;
            }
                _ => {
                    return Err(io::Error::new(io::ErrorKind::InvalidData, format!("unknown tag: {}", tag)));
                }
            }
        }

        Ok(msg)
   }
}

pub trait UserService {
   fn AddUser(r: AddUserRequest) -> AddUserResponse;
}

"##;

#[test]
fn generated_code_matches_the_checked_in_declarations() {
    let schema = parse_schema(SCHEMA).unwrap();
    assert_eq!(schema.messages.len(), 2);
    assert_eq!(schema.services.len(), 1);
    let code = generate_code(&schema);
    let mut expected = String::from(TRAIT_PRELUDE);
    expected.push('\n');
    expected.push_str(DECLARATIONS);
    assert_eq!(code, expected);
}

#[test]
fn prelude_declares_the_trait_and_varint_helpers() {
    assert!(TRAIT_PRELUDE.starts_with("use std::io::{self, Read, Write};\n\npub trait BinarySerializable: Sized {\n"));
    assert!(TRAIT_PRELUDE.contains("fn write_varint(mut value: u64, writer: &mut dyn Write) -> io::Result<()> {"));
    assert!(TRAIT_PRELUDE.contains("        result <<= 7;\n"));
}

#[test]
fn schema_without_keywords() {
    assert_eq!(parse_schema("nothing to see here").err(), Some(SchemaError::NoKeywords));
}

#[test]
fn schema_with_bad_type() {
    assert_eq!(parse_schema("message M { float x = 1; }").err(), Some(SchemaError::InvalidType));
}

#[test]
fn schema_with_bad_alias() {
    assert_eq!(parse_schema("message M { string x = a; }").err(), Some(SchemaError::InvalidAlias));
}

#[test]
fn alias_is_the_first_digit() {
    let schema = parse_schema("message M { uint64 big = 12; }").unwrap();
    let m = &schema.messages[0];
    assert_eq!(m.name, "M");
    assert_eq!(m.fields.len(), 1);
    assert_eq!(m.fields[0].alias, 1);
    assert_eq!(m.fields[0].typ, Type::Uint64);
    assert_eq!(m.fields[0].tag(), 8);
}

#[test]
fn unfinished_message_is_skipped() {
    let schema = parse_schema("service S { } message M { string a").unwrap();
    assert_eq!(schema.messages.len(), 0);
    assert_eq!(schema.services.len(), 1);
    assert_eq!(schema.services[0].name, "S");
}

#[test]
fn read_message_and_service_from_words() {
    let words: Vec<String> = "Req { string a = 1; } Svc { rpc Go(Req) returns (Res); }"
        .split_whitespace()
        .map(String::from)
        .collect();
    let (m, p) = read_message(&words, 0).unwrap();
    let m = m.unwrap();
    assert_eq!(m.name, "Req");
    assert_eq!(m.fields[0].name, "a");
    assert_eq!(p, 7);
    let (s, q) = read_service(&words, p).unwrap();
    let s = s.unwrap();
    assert_eq!(s.name, "Svc");
    assert_eq!(s.rpcs.len(), 1);
    assert_eq!(s.rpcs[0].name, "Go");
    assert_eq!(s.rpcs[0].arg, "Req");
    assert_eq!(s.rpcs[0].ret, "Res");
    assert_eq!(q, words.len());
}

#[test]
fn field_code_lines() {
    let f = Field { typ: Type::Uint32, name: "age".to_string(), alias: 3 };
    let mut decl = String::new();
    f.write_decl(&mut decl);
    assert_eq!(decl, "pub age: u32,\n");
    let mut enc = String::new();
    f.encode_code(&mut enc);
    assert_eq!(enc, "        writer.write_all(&[24])?;\n        write_varint(self.age as u64, writer)?;\n");
    let mut dec = String::new();
    f.decode_code(&mut dec);
    assert_eq!(dec, "            24 => {\n                msg.age = read_varint(reader)? as u32;\n            }\n");
}

#[test]
fn service_declaration() {
    let schema = lsm::proto::schema::Schema {
        messages: Vec::<Message>::new(),
        services: vec![Service {
            name: "S".to_string(),
            rpcs: vec![Rpc { name: "F".to_string(), arg: "A".to_string(), ret: "B".to_string() }],
        }],
    };
    let code = generate_code(&schema);
    assert!(code.ends_with("pub trait S {\n   fn F(r: A) -> B;\n}\n\n"));
}

#[test]
fn type_names_and_codes() {
    assert_eq!(Type::from_name("string"), Some(Type::String));
    assert_eq!(Type::from_name("uint32"), Some(Type::Uint32));
    assert_eq!(Type::from_name("uint64"), Some(Type::Uint64));
    assert_eq!(Type::from_name("int32"), None);
    assert_eq!(Type::Uint32.rust_name(), "u32");
    assert_eq!(Type::String.rust_name(), "String");
    assert_eq!(Type::Uint64.schema_name(), "uint64");
    assert_eq!(Type::String.code(), 0x00);
    assert_eq!(Type::Uint32.code(), 0x10);
    assert_eq!(Type::Uint64.code(), 0x20);
    assert_eq!(Type::from_code(0x20), Some(Type::Uint64));
    assert_eq!(Type::from_code(0x30), None);
}

#[test]
fn decimal_digits() {
    let mut s = String::from("x");
    push_decimal(&mut s, 0);
    push_decimal(&mut s, 7);
    push_decimal(&mut s, 42);
    push_decimal(&mut s, 255);
    assert_eq!(s, "x0742255");
}

#[test]
fn varint_bytes() {
    let mut buf = Vec::new();
    write_varint(0, &mut buf);
    write_varint(1, &mut buf);
    write_varint(300, &mut buf);
    assert_eq!(buf, vec![0, 1, 0xac, 0x02]);
    let mut big = Vec::new();
    write_varint(u64::MAX, &mut big);
    assert_eq!(big.len(), 10);
    assert_eq!(read_varint(&big, 0), Ok((u64::MAX, 10)));
    assert_eq!(read_varint(&buf, 2), Ok((300, 4)));
    assert_eq!(read_varint(&buf, 4), Err(DecodeError::UnexpectedEof));
    assert_eq!(read_varint(&[0xff; 11], 0), Err(DecodeError::VarintTooLong));
}

#[test]
fn string_and_varint_fields() {
    let mut buf = Vec::new();
    write_string_field(10, &"hi".to_string(), &mut buf);
    write_varint_field(24, 5, &mut buf);
    assert_eq!(buf, vec![10, 2, b'h', b'i', 24, 5]);
    assert_eq!(read_string_field(&buf, 1), Ok(("hi".to_string(), 4)));
    assert_eq!(read_string_field(&[2, 0xff, 0xfe], 0), Err(DecodeError::InvalidUtf8));
}

#[test]
fn add_user_request_round_trip() {
    let req = AddUserRequest { name: "Alice".to_string(), surname: "Smith".to_string(), age: 25 };
    let mut buf = Vec::new();
    req.encode(&mut buf);
    assert_eq!(
        buf,
        vec![10, 5, b'A', b'l', b'i', b'c', b'e', 18, 5, b'S', b'm', b'i', b't', b'h', 24, 25]
    );
    let decoded = AddUserRequest::decode(&buf).unwrap();
    assert_eq!(decoded.name, "Alice");
    assert_eq!(decoded.surname, "Smith");
    assert_eq!(decoded.age, 25);
}

#[test]
fn add_user_request_decode_errors() {
    assert_eq!(AddUserRequest::decode(&[32]).err(), Some(DecodeError::UnknownTag(32)));
    assert_eq!(AddUserRequest::decode(&[10, 1, 0xff]).err(), Some(DecodeError::InvalidUtf8));
    assert_eq!(AddUserRequest::decode(&[10, 5, b'A']).err(), Some(DecodeError::UnexpectedEof));
    assert_eq!(AddUserRequest::decode(&[24]).err(), Some(DecodeError::UnexpectedEof));
}

#[test]
fn add_user_request_defaults_and_last_field_wins() {
    let empty = AddUserRequest::decode(&[]).unwrap();
    assert_eq!(empty.name, "");
    assert_eq!(empty.age, 0);
    let twice = AddUserRequest::decode(&[24, 1, 24, 2]).unwrap();
    assert_eq!(twice.age, 2);
    let truncated = AddUserRequest::decode(&[24, 0x80, 0x02]).unwrap();
    assert_eq!(truncated.age, 256);
}

#[test]
fn add_user_response_round_trip() {
    let resp = AddUserResponse { id: "u-1".to_string() };
    let mut buf = vec![99];
    resp.encode(&mut buf);
    assert_eq!(buf, vec![99, 10, 3, b'u', b'-', b'1']);
    assert_eq!(AddUserResponse::decode(&buf[1..]).unwrap().id, "u-1");
    assert_eq!(AddUserResponse::decode(&[18, 0]).err(), Some(DecodeError::UnknownTag(18)));
}

#[test]
fn rpc_from_split_words() {
    let call = vec!["AddUser".to_string(), "AddUserRequest".to_string(), "".to_string()];
    let ret = vec!["".to_string(), "AddUserResponse".to_string(), ";".to_string()];
    let rpc = Rpc::from_pieces(&call, &ret);
    assert_eq!(rpc.name, "AddUser");
    assert_eq!(rpc.arg, "AddUserRequest");
    assert_eq!(rpc.ret, "AddUserResponse");
}

#[test]
fn varint_lengths() {
    for (v, n) in [(0u64, 1usize), (127, 1), (128, 2), (16383, 2), (16384, 3), (1u64 << 63, 10)] {
        let mut buf = Vec::new();
        write_varint(v, &mut buf);
        assert_eq!(buf.len(), n);
    }
}

#[test]
fn call_word_is_cut_at_each_parenthesis() {
    let words: Vec<String> = "Svc { rpc Go((Req)x returns ((Res)); }".split_whitespace().map(String::from).collect();
    let (s, _) = read_service(&words, 0).unwrap();
    let s = s.unwrap();
    assert_eq!(s.rpcs.len(), 1);
    assert_eq!(s.rpcs[0].name, "Go");
    assert_eq!(s.rpcs[0].arg, "");
    assert_eq!(s.rpcs[0].ret, "");
}

#[test]
fn call_word_without_parentheses_is_passed_over() {
    let words: Vec<String> = "Svc { rpc Go returns (Res); }".split_whitespace().map(String::from).collect();
    assert_eq!(read_service(&words, 0).unwrap().0.is_none(), true);
    assert_eq!(read_service(&words, 0).unwrap().1, 4);
}

#[test]
fn words_are_cut_at_unicode_white_space() {
    let words = lsm::text::split_words("a\u{3000}b\u{200b}c\td\u{85}");
    assert_eq!(words, vec!["a".to_string(), "b\u{200b}c".to_string(), "d".to_string()]);
    assert_eq!(lsm::text::is_whitespace('\u{2009}'), true);
    assert_eq!(lsm::text::is_whitespace('x'), false);
}
