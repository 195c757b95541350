//! Laws of the schema reader and the code generator: reading only appends,
//! one call or declaration per line of the schema, and the generated code
//! gives each field the Rust type of its width in every place it appears.
use crate::proto::schema::{
    FieldView, MessageView, SchemaError, SchemaRead, Type, decimal, field_decl, field_decode_code,
    field_encode_code, field_tag, paren_pieces, parse_from, read_fields, read_message_at, read_rpcs,
    read_service_at,
};
use vstd::prelude::*;

verus! {

/// A read part with `prefix` in front of what was read.
pub open spec fn read_after<A>(prefix: Seq<A>, r: SchemaRead<Seq<A>>) -> SchemaRead<Seq<A>> {
    match r {
        SchemaRead::Read(x, p) => SchemaRead::Read(prefix + x, p),
        SchemaRead::Skipped(p) => SchemaRead::Skipped(p),
        SchemaRead::InvalidType => SchemaRead::InvalidType,
        SchemaRead::InvalidAlias => SchemaRead::InvalidAlias,
    }
}

/// The messages and services read, with `ms` and `ss` in front of them.
pub open spec fn parsed_after(
    ms: Seq<MessageView>,
    ss: Seq<(Seq<char>, Seq<(Seq<char>, Seq<char>, Seq<char>)>)>,
    r: Result<(Seq<MessageView>, Seq<(Seq<char>, Seq<(Seq<char>, Seq<char>, Seq<char>)>)>), SchemaError>,
) -> Result<(Seq<MessageView>, Seq<(Seq<char>, Seq<(Seq<char>, Seq<char>, Seq<char>)>)>), SchemaError> {
    match r {
        Ok((m, s)) => Ok((ms + m, ss + s)),
        Err(e) => Err(e),
    }
}

/// Reading the calls of a service body only appends: what is read with some
/// calls already read is those calls followed by what is read from scratch,
/// and it ends at the same place.
pub proof fn lemma_read_rpcs_appends(
    words: Seq<Seq<char>>,
    pos: nat,
    rpcs: Seq<(Seq<char>, Seq<char>, Seq<char>)>,
)
    ensures
        read_rpcs(words, pos, rpcs) == read_after(rpcs, read_rpcs(words, pos, Seq::empty())),
    decreases words.len() - pos,
{
    let e = Seq::<(Seq<char>, Seq<char>, Seq<char>)>::empty();
    if pos >= words.len() || words[pos as int] == "}"@ {
        if pos < words.len() {
            assert(rpcs + e =~= rpcs);
        }
    } else if words[pos as int] == "{"@ {
        lemma_read_rpcs_appends(words, pos + 1, rpcs);
        lemma_read_rpcs_appends(words, pos + 1, e);
    } else if pos + 1 < words.len() {
        let p1 = paren_pieces(words[pos + 1int]);
        if p1.len() >= 2 && pos + 3 < words.len() {
            let p2 = paren_pieces(words[pos + 3int]);
            if p2.len() >= 2 {
                let c = (p1[0], p1[1], p2[1]);
                lemma_read_rpcs_appends(words, pos + 4, rpcs.push(c));
                lemma_read_rpcs_appends(words, pos + 4, e.push(c));
                match read_rpcs(words, pos + 4, e) {
                    SchemaRead::Read(x, p) => {
                        assert(rpcs.push(c) + x =~= rpcs + (e.push(c) + x));
                    },
                    _ => {},
                }
            }
        }
    }
}

/// One call per call line: where the words at `pos` are a call line (a word,
/// a call word, a word, a result word, the call and result words each holding
/// a parenthesis), the calls read from `pos` are the line's call followed by
/// the calls read after the line.
pub proof fn lemma_read_rpcs_line(words: Seq<Seq<char>>, pos: nat)
    requires
        pos + 3 < words.len(),
        words[pos as int] != "}"@,
        words[pos as int] != "{"@,
        paren_pieces(words[pos + 1int]).len() >= 2,
        paren_pieces(words[pos + 3int]).len() >= 2,
    ensures
        read_rpcs(words, pos, Seq::empty()) == read_after(
            seq![
                (
                    paren_pieces(words[pos + 1int])[0],
                    paren_pieces(words[pos + 1int])[1],
                    paren_pieces(words[pos + 3int])[1],
                ),
            ],
            read_rpcs(words, pos + 4, Seq::empty()),
        ),
{
    let p1 = paren_pieces(words[pos + 1int]);
    let p2 = paren_pieces(words[pos + 3int]);
    let c = (p1[0], p1[1], p2[1]);
    let e = Seq::<(Seq<char>, Seq<char>, Seq<char>)>::empty();
    assert(e.push(c) =~= seq![c]);
    lemma_read_rpcs_appends(words, pos + 4, e.push(c));
}

/// Reading the fields of a message body only appends: what is read with some
/// fields already read is those fields followed by what is read from scratch,
/// and it ends at the same place.
pub proof fn lemma_read_fields_appends(words: Seq<Seq<char>>, pos: nat, fields: Seq<FieldView>)
    ensures
        read_fields(words, pos, fields) == read_after(fields, read_fields(words, pos, Seq::empty())),
    decreases words.len() - pos,
{
    let e = Seq::<FieldView>::empty();
    if pos >= words.len() || words[pos as int] == "}"@ {
        if pos < words.len() {
            assert(fields + e =~= fields);
        }
    } else if words[pos as int] == "{"@ {
        lemma_read_fields_appends(words, pos + 1, fields);
        lemma_read_fields_appends(words, pos + 1, e);
    } else if pos + 3 < words.len() {
        match crate::proto::schema::alias_value(words[pos + 3int]) {
            Some(a) => match Type::named(words[pos as int]) {
                Some(t) => {
                    let f = FieldView { typ: t, name: words[pos + 1int], alias: a };
                    lemma_read_fields_appends(words, pos + 4, fields.push(f));
                    lemma_read_fields_appends(words, pos + 4, e.push(f));
                    match read_fields(words, pos + 4, e) {
                        SchemaRead::Read(x, p) => {
                            assert(fields.push(f) + x =~= fields + (e.push(f) + x));
                        },
                        _ => {},
                    }
                },
                None => {},
            },
            None => {},
        }
    }
}

/// Reading a schema only appends: what is read with some messages and
/// services already read is those followed by what is read from scratch; an
/// error is the same error.
pub proof fn lemma_parse_appends(
    words: Seq<Seq<char>>,
    pos: nat,
    ms: Seq<MessageView>,
    ss: Seq<(Seq<char>, Seq<(Seq<char>, Seq<char>, Seq<char>)>)>,
)
    ensures
        parse_from(words, pos, ms, ss) == parsed_after(ms, ss, parse_from(words, pos, Seq::empty(), Seq::empty())),
    decreases words.len() - pos,
{
    let em = Seq::<MessageView>::empty();
    let es = Seq::<(Seq<char>, Seq<(Seq<char>, Seq<char>, Seq<char>)>)>::empty();
    if pos >= words.len() {
        assert(ms + em =~= ms);
        assert(ss + es =~= ss);
    } else if words[pos as int] == "message"@ {
        match read_message_at(words, pos + 1) {
            SchemaRead::Read(m, p) => if pos < p <= words.len() {
                lemma_parse_appends(words, p, ms.push(m), ss);
                lemma_parse_appends(words, p, em.push(m), es);
                match parse_from(words, p, em, es) {
                    Ok((x, y)) => {
                        assert(ms.push(m) + x =~= ms + (em.push(m) + x));
                        assert(ss + y =~= ss + (es + y));
                    },
                    Err(_) => {},
                }
            } else {
                assert(ms + em =~= ms);
                assert(ss + es =~= ss);
            },
            SchemaRead::Skipped(p) => if pos < p <= words.len() {
                lemma_parse_appends(words, p, ms, ss);
            } else {
                assert(ms + em =~= ms);
                assert(ss + es =~= ss);
            },
            _ => {},
        }
    } else if words[pos as int] == "service"@ {
        match read_service_at(words, pos + 1) {
            SchemaRead::Read(sv, p) => if pos < p <= words.len() {
                lemma_parse_appends(words, p, ms, ss.push(sv));
                lemma_parse_appends(words, p, em, es.push(sv));
                match parse_from(words, p, em, es) {
                    Ok((x, y)) => {
                        assert(ms + x =~= ms + (em + x));
                        assert(ss.push(sv) + y =~= ss + (es.push(sv) + y));
                    },
                    Err(_) => {},
                }
            } else {
                assert(ms + em =~= ms);
                assert(ss + es =~= ss);
            },
            SchemaRead::Skipped(p) => if pos < p <= words.len() {
                lemma_parse_appends(words, p, ms, ss);
            } else {
                assert(ms + em =~= ms);
                assert(ss + es =~= ss);
            },
            _ => {},
        }
    } else {
        lemma_parse_appends(words, pos + 1, ms, ss);
    }
}

/// One service per `service` keyword: where a service is read after the
/// keyword at `pos`, the schema read from `pos` has that service in front of
/// the services read after it, and the same messages.
pub proof fn lemma_parse_service(words: Seq<Seq<char>>, pos: nat)
    requires
        pos < words.len(),
        words[pos as int] == "service"@,
        read_service_at(words, pos + 1) matches SchemaRead::Read(_, p) && pos < p <= words.len(),
    ensures
        read_service_at(words, pos + 1) matches SchemaRead::Read(sv, p) && parse_from(
            words,
            pos,
            Seq::empty(),
            Seq::empty(),
        ) == parsed_after(Seq::empty(), seq![sv], parse_from(words, p, Seq::empty(), Seq::empty())),
{
    let sv = read_service_at(words, pos + 1)->Read_0;
    let p = read_service_at(words, pos + 1)->Read_1;
    let es = Seq::<(Seq<char>, Seq<(Seq<char>, Seq<char>, Seq<char>)>)>::empty();
    assert(es.push(sv) =~= seq![sv]);
    assert(words[pos as int] != "message"@) by {
        reveal_strlit("message");
        reveal_strlit("service");
        assert(words[pos as int][0] != "message"@[0]);
    }
    lemma_parse_appends(words, p, Seq::empty(), es.push(sv));
}

/// One message per `message` keyword: where a message is read after the
/// keyword at `pos`, the schema read from `pos` has that message in front of
/// the messages read after it, and the same services.
pub proof fn lemma_parse_message(words: Seq<Seq<char>>, pos: nat)
    requires
        pos < words.len(),
        words[pos as int] == "message"@,
        read_message_at(words, pos + 1) matches SchemaRead::Read(_, p) && pos < p <= words.len(),
    ensures
        read_message_at(words, pos + 1) matches SchemaRead::Read(m, p) && parse_from(
            words,
            pos,
            Seq::empty(),
            Seq::empty(),
        ) == parsed_after(seq![m], Seq::empty(), parse_from(words, p, Seq::empty(), Seq::empty())),
{
    let m = read_message_at(words, pos + 1)->Read_0;
    let p = read_message_at(words, pos + 1)->Read_1;
    let em = Seq::<MessageView>::empty();
    assert(em.push(m) =~= seq![m]);
    lemma_parse_appends(words, p, em.push(m), Seq::empty());
}

/// Each schema type word names the type that is written back as that word,
/// and the Rust type of its width: `string` is `String`, and an unsigned
/// integer type `uintN` is `uN`.
pub proof fn lemma_rust_type_of_schema_type(w: Seq<char>)
    ensures
        Type::named(w) matches Some(t) ==> {
            &&& t.schema_text() == w
            &&& if w == "string"@ {
                t.rust_text() == "String"@
            } else {
                &&& w.len() == 6
                &&& w.take(4) == "uint"@
                &&& t.rust_text() == seq!['u'] + w.skip(4)
            }
        },
{
    reveal_strlit("string");
    reveal_strlit("uint32");
    reveal_strlit("uint64");
    reveal_strlit("uint");
    reveal_strlit("u32");
    reveal_strlit("u64");
    if w == "uint32"@ {
        assert(w.take(4) =~= "uint"@);
        assert(seq!['u'] + w.skip(4) =~= "u32"@);
    } else if w == "uint64"@ {
        assert(w.take(4) =~= "uint"@);
        assert(seq!['u'] + w.skip(4) =~= "u64"@);
    }
}

/// The generated decode arm of a varint field assigns what `read_varint`
/// gives, cast to the Rust type that the struct declares for the field.
pub proof fn lemma_decode_casts_to_member_type(f: FieldView)
    requires
        f.typ.wire_type() == 0,
    ensures
        field_decl(f) == "pub "@ + f.name + ": "@ + f.typ.rust_text() + ",\n"@,
        field_decode_code(f) == "            "@ + decimal(field_tag(f) as nat) + " => {\n"@ + "                msg."@
            + f.name + " = read_varint(reader)? as "@ + f.typ.rust_text() + ";\n"@ + "            }\n"@,
{
    reveal_strlit(" = read_varint(reader)? as u64;\n");
    reveal_strlit(" = read_varint(reader)? as u32;\n");
    reveal_strlit(" = read_varint(reader)? as ");
    reveal_strlit(";\n");
    reveal_strlit("u64");
    reveal_strlit("u32");
    let head = "            "@ + decimal(field_tag(f) as nat) + " => {\n"@ + "                msg."@ + f.name;
    assert(" = read_varint(reader)? as u64;\n"@ =~= " = read_varint(reader)? as "@ + "u64"@ + ";\n"@);
    assert(" = read_varint(reader)? as u32;\n"@ =~= " = read_varint(reader)? as "@ + "u32"@ + ";\n"@);
    assert(field_decode_code(f) =~= head + " = read_varint(reader)? as "@ + f.typ.rust_text() + ";\n"@
        + "            }\n"@);
}

/// The generated encode lines of a varint field write its tag, then pass the
/// field to `write_varint` as a `u64`, the type `write_varint` takes.
pub proof fn lemma_encode_passes_u64(f: FieldView)
    requires
        f.typ.wire_type() == 0,
    ensures
        field_encode_code(f) == "        writer.write_all(&["@ + decimal(field_tag(f) as nat) + "])?;\n"@
            + "        write_varint(self."@ + f.name + " as u64, writer)?;\n"@,
{
}

} // verus!
