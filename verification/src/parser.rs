//! The entity assembler and schema renderer.
//!
//! Raw declaration bodies (one line per field or variant) are turned
//! into entities: messages with numbered fields, enumerations with
//! numbered variants. Field numbers start at 1 and skip the reserved
//! band 19000..19999; the field-number space ends at 536870911.
//! Entities accumulate into a name-keyed registry (later insertion of a
//! duplicate name overwrites), which renders in ascending name order as
//! a proto3 schema document.

use vstd::prelude::*;
use vstd::string::StrSliceExecFns;
use vstd::string::StringExecFns;

use crate::text::{
    find_char, lemma_find_char, lex_lt, lemma_lex_trans, lemma_lex_trichotomy, spec_find_char,
    spec_nat_string, str_eq, str_lt, u32_string,
};
use crate::types::{spec_clear_name, spec_drop_stuff, spec_resolve, TypesParser};
use crate::utils::{ErrorKind, R2Proto3Error};

verus! {

/// The abstract value of one resolved message field.
pub struct FieldModel {
    pub name: Seq<char>,
    pub rust_type: Seq<char>,
    pub proto3_type: Seq<char>,
    pub num: int,
}

/// The abstract value of one enumeration variant.
pub struct VariantModel {
    pub name: Seq<char>,
    pub value: int,
}

/// The abstract payload of an entity.
pub enum EntityKindModel {
    Message(Seq<FieldModel>),
    Enum(Seq<VariantModel>),
    Rpc,
}

/// The abstract value of one named entity of the registry.
pub struct EntityModel {
    pub name: Seq<char>,
    pub kind: EntityKindModel,
}

/// A resolved message field.
#[derive(Debug)]
pub struct ProtobufField {
    pub name: String,
    pub rust_type: String,
    pub proto3_type: String,
    pub field_num: i32,
}

impl View for ProtobufField {
    type V = FieldModel;

    open spec fn view(&self) -> FieldModel {
        FieldModel {
            name: self.name@,
            rust_type: self.rust_type@,
            proto3_type: self.proto3_type@,
            num: self.field_num as int,
        }
    }
}

/// A resolved enumeration variant.
#[derive(Debug)]
pub struct ProtobufEnumVariant {
    pub name: String,
    pub value: i32,
}

impl View for ProtobufEnumVariant {
    type V = VariantModel;

    open spec fn view(&self) -> VariantModel {
        VariantModel { name: self.name@, value: self.value as int }
    }
}

/// The payload of an entity. `Rpc` stands for callable operations, which
/// the assembler never produces.
pub enum ProtobufEntityType {
    Message(Vec<ProtobufField>),
    Enum(Vec<ProtobufEnumVariant>),
    Rpc,
}

/// One named entity of the registry.
pub struct ProtobufEntity {
    pub entity_type: ProtobufEntityType,
    pub name: String,
}

impl View for ProtobufEntity {
    type V = EntityModel;

    open spec fn view(&self) -> EntityModel {
        EntityModel {
            name: self.name@,
            kind: match self.entity_type {
                ProtobufEntityType::Message(fs) => EntityKindModel::Message(
                    fs@.map_values(|f: ProtobufField| f@),
                ),
                ProtobufEntityType::Enum(vs) => EntityKindModel::Enum(
                    vs@.map_values(|v: ProtobufEnumVariant| v@),
                ),
                ProtobufEntityType::Rpc => EntityKindModel::Rpc,
            },
        }
    }
}

/// One raw declaration handed in by the extraction front-end: the
/// entity's name and the raw lines of its body.
pub struct RawDecl {
    pub name: String,
    pub lines: Vec<String>,
}

/// The abstract value of a raw declaration.
pub open spec fn decl_model(d: RawDecl) -> (Seq<char>, Seq<Seq<char>>) {
    (d.name@, d.lines.deep_view())
}

/// The abstract value of a declaration list.
pub open spec fn decls_model(ds: Seq<RawDecl>) -> Seq<(Seq<char>, Seq<Seq<char>>)> {
    ds.map_values(|d: RawDecl| decl_model(d))
}

/// The line index after which the running field counter would enter the
/// forbidden ceiling 536870912.
pub open spec fn max_field_line() -> int {
    536_869_910
}

/// The field number assigned to the 0-based line `p`: a running counter
/// from 1 that skips the reserved band 19000..19999.
pub open spec fn spec_field_num(p: int) -> int {
    if p < 18_999 {
        p + 1
    } else {
        p + 1001
    }
}

/// The name of the field declared by `line`, where `n` is its 1-based
/// line position: the text before the first colon with visibility
/// qualifiers removed, or the synthesized name `anonymous_value_<n>`
/// for a separator-free line. The position counts straight through the
/// reserved field-number band.
pub open spec fn spec_line_name(line: Seq<char>, n: int) -> Seq<char> {
    match spec_find_char(line, ':') {
        Some(i) => spec_clear_name(line.take(i)),
        None => "anonymous_value_"@ + spec_nat_string(n),
    }
}

/// The normalized type expression of the field declared by `line`: the
/// text after the first colon, or the whole line when it has none.
pub open spec fn spec_line_rtype(line: Seq<char>) -> Seq<char> {
    match spec_find_char(line, ':') {
        Some(i) => spec_drop_stuff(line.skip(i + 1)),
        None => spec_drop_stuff(line),
    }
}

/// The field produced by `line` at 0-based position `p`, or the error
/// that rejects its type expression.
pub open spec fn spec_field(line: Seq<char>, p: int, known: Seq<Seq<char>>) -> Result<
    FieldModel,
    ErrorKind,
> {
    match spec_resolve(spec_line_rtype(line), known, false) {
        Err(k) => Err(k),
        Ok(pt) => Ok(
            FieldModel {
                name: spec_line_name(line, p + 1),
                rust_type: spec_line_rtype(line),
                proto3_type: pt,
                num: spec_field_num(p),
            },
        ),
    }
}

/// The fields of a struct body starting at line position `p`: each line
/// yields one field; the struct is rejected when a line fails to resolve
/// or the field counter would reach 536870912.
pub open spec fn spec_struct_fields_from(
    lines: Seq<Seq<char>>,
    known: Seq<Seq<char>>,
    p: int,
) -> Result<Seq<FieldModel>, ErrorKind>
    decreases lines.len(),
{
    if lines.len() == 0 {
        Ok(Seq::empty())
    } else {
        match spec_field(lines[0], p, known) {
            Err(k) => Err(k),
            Ok(f) => if p == max_field_line() {
                Err(ErrorKind::FieldNumberOverflow)
            } else {
                match spec_struct_fields_from(lines.drop_first(), known, p + 1) {
                    Err(k) => Err(k),
                    Ok(rest) => Ok(seq![f] + rest),
                }
            },
        }
    }
}

/// The fields of a whole struct body.
pub open spec fn spec_struct_fields(lines: Seq<Seq<char>>, known: Seq<Seq<char>>) -> Result<
    Seq<FieldModel>,
    ErrorKind,
> {
    spec_struct_fields_from(lines, known, 0)
}

/// The variant produced by `line` at 0-based position `p`: the
/// normalized line is the name and `p` the value, rejected when it
/// carries a parenthesized payload.
pub open spec fn spec_variant(line: Seq<char>, p: int) -> Result<VariantModel, ErrorKind> {
    let v = spec_drop_stuff(line);
    if v.contains('(') {
        Err(ErrorKind::ValueCarryingVariant)
    } else {
        Ok(VariantModel { name: v, value: p })
    }
}

/// The variants of an enum body starting at position `p`.
pub open spec fn spec_enum_variants_from(lines: Seq<Seq<char>>, p: int) -> Result<
    Seq<VariantModel>,
    ErrorKind,
>
    decreases lines.len(),
{
    if lines.len() == 0 {
        Ok(Seq::empty())
    } else {
        match spec_variant(lines[0], p) {
            Err(k) => Err(k),
            Ok(v) => match spec_enum_variants_from(lines.drop_first(), p + 1) {
                Err(k) => Err(k),
                Ok(rest) => Ok(seq![v] + rest),
            },
        }
    }
}

/// The variants of a whole enum body, valued 0 upward.
pub open spec fn spec_enum_variants(lines: Seq<Seq<char>>) -> Result<Seq<VariantModel>, ErrorKind> {
    spec_enum_variants_from(lines, 0)
}

/// The driver of the translation: holds the run policy and the registry
/// of assembled entities.
pub struct Parser {
    pub ignore_rpc: bool,
    pub panic_to_unsupported: bool,
    pub verbose: bool,
    pub types_parser: TypesParser,
    pub types: Vec<ProtobufEntity>,
}

impl Parser {
    /// The abstract registry: the assembled entities in their render
    /// order.
    pub closed spec fn registry(&self) -> Seq<EntityModel> {
        self.types@.map_values(|e: ProtobufEntity| e@)
    }

    /// Builds a driver with an empty registry. `panic_to_unsupported`
    /// selects strict mode: the first failing entity aborts the run.
    pub fn new(ignore_rpc: bool, panic_to_unsupported: bool, verbose: bool) -> (r: Parser)
        ensures
            r.registry() == Seq::<EntityModel>::empty(),
            r.ignore_rpc == ignore_rpc,
            r.panic_to_unsupported == panic_to_unsupported,
            r.verbose == verbose,
    {
        let r = Parser {
            ignore_rpc,
            panic_to_unsupported,
            verbose,
            types_parser: TypesParser::new(),
            types: Vec::new(),
        };
        proof {
            assert(r.registry() =~= Seq::<EntityModel>::empty());
        }
        r
    }

    /// Turns the raw lines of a struct body into its numbered fields, or
    /// the error that rejects the struct.
    pub fn parse_struct_fields(
        &self,
        fields_str: &Vec<String>,
        known_types: &Vec<String>,
    ) -> (r: Result<Vec<ProtobufField>, R2Proto3Error>)
        ensures
            match r {
                Ok(fields) => spec_struct_fields(fields_str.deep_view(), known_types.deep_view())
                    == Ok::<Seq<FieldModel>, ErrorKind>(fields@.map_values(|f: ProtobufField| f@)),
                Err(e) => spec_struct_fields(fields_str.deep_view(), known_types.deep_view())
                    == Err::<Seq<FieldModel>, ErrorKind>(e.spec_kind()),
            },
    {
        let ghost lines = fields_str.deep_view();
        let ghost known = known_types.deep_view();
        let mut fields: Vec<ProtobufField> = Vec::new();
        let mut value_cntr: i32 = 1;
        let mut i: usize = 0;
        proof {
            assert(lines.skip(0) =~= lines);
            assert(fields@.map_values(|f: ProtobufField| f@) =~= Seq::<FieldModel>::empty());
        }
        while i < fields_str.len()
            invariant
                lines == fields_str.deep_view(),
                known == known_types.deep_view(),
                i <= lines.len(),
                value_cntr as int == spec_field_num(i as int),
                value_cntr as int <= 536_870_911,
                ({
                    let fm = fields@.map_values(|f: ProtobufField| f@);
                    match spec_struct_fields_from(lines.skip(i as int), known, i as int) {
                        Ok(rest) => spec_struct_fields(lines, known) == Ok::<Seq<FieldModel>, ErrorKind>(
                            fm + rest,
                        ),
                        Err(k) => spec_struct_fields(lines, known) == Err::<Seq<FieldModel>, ErrorKind>(
                            k,
                        ),
                    }
                }),
            decreases lines.len() - i,
        {
            let ghost i0 = i as int;
            let ghost fm0 = fields@.map_values(|f: ProtobufField| f@);
            proof {
                assert(lines.skip(i0)[0] == lines[i0]);
                assert(lines.skip(i0).drop_first() =~= lines.skip(i0 + 1));
                assert(lines[i0] == fields_str@[i0]@);
            }
            let line: &String = &fields_str[i];
            let n = line.as_str().unicode_len();
            let colon = find_char(line.as_str(), ':');
            let (name, rust_type): (String, String) = match colon {
                None => {
                    proof {
                        assert(i0 <= 536_869_910);
                    }
                    let nm = "anonymous_value_".to_owned().concat(
                        u32_string((i + 1) as u32).as_str(),
                    );
                    (nm, TypesParser::drop_type_unnecessary_stuff(line.as_str()))
                },
                Some(ci) => {
                    proof {
                        lemma_find_char(line@, ':');
                    }
                    let nm = TypesParser::clear_type_name(line.as_str().substring_char(0, ci));
                    let rt = TypesParser::drop_type_unnecessary_stuff(
                        line.as_str().substring_char(ci + 1, n),
                    );
                    proof {
                        assert(line@.subrange(0, ci as int) =~= line@.take(ci as int));
                        assert(line@.subrange(ci + 1, n as int) =~= line@.skip(ci + 1));
                    }
                    (nm, rt)
                },
            };
            proof {
                assert(name@ == spec_line_name(lines[i0], i0 + 1));
                assert(rust_type@ == spec_line_rtype(lines[i0]));
            }
            match self.types_parser.rust_type_to_protobuf(rust_type.as_str(), known_types, false) {
                Err(e) => {
                    return Err(e);
                },
                Ok(pt) => {
                    let field = ProtobufField {
                        name,
                        proto3_type: pt,
                        rust_type,
                        field_num: value_cntr,
                    };
                    proof {
                        assert(spec_field(lines[i0], i0, known) == Ok::<FieldModel, ErrorKind>(
                            field@,
                        ));
                    }
                    fields.push(field);
                },
            }
            let ghost f = spec_field(lines[i0], i0, known)->Ok_0;
            value_cntr = value_cntr + 1;
            if value_cntr == 19_000 {
                value_cntr = 20_000;
            } else if value_cntr == 536_870_912 {
                return Err(
                    R2Proto3Error::new(
                        ErrorKind::FieldNumberOverflow,
                        "very big message! Max field number = 536_870_911".to_owned(),
                    ),
                );
            }
            i += 1;
            proof {
                assert(i0 != max_field_line());
                let fm = fields@.map_values(|g: ProtobufField| g@);
                assert(fm =~= fm0.push(f));
                match spec_struct_fields_from(lines.skip(i0 + 1), known, i0 + 1) {
                    Ok(rest) => {
                        assert(spec_struct_fields_from(lines.skip(i0), known, i0) == Ok::<
                            Seq<FieldModel>,
                            ErrorKind,
                        >(seq![f] + rest));
                        assert(fm0 + (seq![f] + rest) =~= fm + rest);
                    },
                    Err(k) => {
                        assert(spec_struct_fields_from(lines.skip(i0), known, i0) == Err::<
                            Seq<FieldModel>,
                            ErrorKind,
                        >(k));
                    },
                }
            }
        }
        proof {
            assert(lines.skip(i as int).len() == 0);
            assert(spec_struct_fields_from(lines.skip(i as int), known, i as int) == Ok::<
                Seq<FieldModel>,
                ErrorKind,
            >(Seq::empty()));
            assert(fields@.map_values(|f: ProtobufField| f@) + Seq::<FieldModel>::empty()
                =~= fields@.map_values(|f: ProtobufField| f@));
        }
        Ok(fields)
    }

    /// Turns the raw lines of an enum body into its variants, valued 0
    /// upward in source order; a parenthesized payload rejects the enum.
    pub fn parse_enum_fields(&self, variants_str: &Vec<String>) -> (r: Result<
        Vec<ProtobufEnumVariant>,
        R2Proto3Error,
    >)
        requires
            variants_str@.len() <= 0x7fff_ffff,
        ensures
            match r {
                Ok(variants) => spec_enum_variants(variants_str.deep_view()) == Ok::<
                    Seq<VariantModel>,
                    ErrorKind,
                >(variants@.map_values(|v: ProtobufEnumVariant| v@)),
                Err(e) => spec_enum_variants(variants_str.deep_view()) == Err::<
                    Seq<VariantModel>,
                    ErrorKind,
                >(e.spec_kind()),
            },
    {
        let ghost lines = variants_str.deep_view();
        let mut variants: Vec<ProtobufEnumVariant> = Vec::new();
        let mut variant_id_cntr: i32 = 0;
        let mut i: usize = 0;
        proof {
            assert(lines.skip(0) =~= lines);
            assert(variants@.map_values(|v: ProtobufEnumVariant| v@) =~= Seq::<VariantModel>::empty());
        }
        while i < variants_str.len()
            invariant
                lines == variants_str.deep_view(),
                lines.len() <= 0x7fff_ffff,
                i <= lines.len(),
                variant_id_cntr as int == i as int,
                ({
                    let vm = variants@.map_values(|v: ProtobufEnumVariant| v@);
                    match spec_enum_variants_from(lines.skip(i as int), i as int) {
                        Ok(rest) => spec_enum_variants(lines) == Ok::<Seq<VariantModel>, ErrorKind>(
                            vm + rest,
                        ),
                        Err(k) => spec_enum_variants(lines) == Err::<Seq<VariantModel>, ErrorKind>(k),
                    }
                }),
            decreases lines.len() - i,
        {
            let ghost i0 = i as int;
            let ghost vm0 = variants@.map_values(|v: ProtobufEnumVariant| v@);
            proof {
                assert(lines.skip(i0)[0] == lines[i0]);
                assert(lines.skip(i0).drop_first() =~= lines.skip(i0 + 1));
                assert(lines[i0] == variants_str@[i0]@);
            }
            let line: &String = &variants_str[i];
            let variant = TypesParser::drop_type_unnecessary_stuff(line.as_str());
            match find_char(variant.as_str(), '(') {
                Some(p) => {
                    proof {
                        lemma_find_char(variant@, '(');
                        assert(variant@.contains('('));
                    }
                    return Err(
                        R2Proto3Error::new(
                            ErrorKind::ValueCarryingVariant,
                            "current version of `r2proto3` isn't supporting enums with values in them - in variant `".to_owned().concat(
                                variant.as_str(),
                            ).concat("`"),
                        ),
                    );
                },
                None => {
                    proof {
                        lemma_find_char(variant@, '(');
                        if variant@.contains('(') {
                            let w = choose|j: int| 0 <= j < variant@.len() && variant@[j] == '(';
                            assert(variant@[w] == '(');
                        }
                    }
                },
            }
            let v = ProtobufEnumVariant { name: variant, value: variant_id_cntr };
            proof {
                assert(spec_variant(lines[i0], i0) == Ok::<VariantModel, ErrorKind>(v@));
            }
            variants.push(v);
            let ghost f = spec_variant(lines[i0], i0)->Ok_0;
            variant_id_cntr = variant_id_cntr + 1;
            i += 1;
            proof {
                let vm = variants@.map_values(|w: ProtobufEnumVariant| w@);
                assert(vm =~= vm0.push(f));
                match spec_enum_variants_from(lines.skip(i0 + 1), i0 + 1) {
                    Ok(rest) => {
                        assert(spec_enum_variants_from(lines.skip(i0), i0) == Ok::<
                            Seq<VariantModel>,
                            ErrorKind,
                        >(seq![f] + rest));
                        assert(vm0 + (seq![f] + rest) =~= vm + rest);
                    },
                    Err(k) => {
                        assert(spec_enum_variants_from(lines.skip(i0), i0) == Err::<
                            Seq<VariantModel>,
                            ErrorKind,
                        >(k));
                    },
                }
            }
        }
        proof {
            assert(lines.skip(i as int).len() == 0);
            assert(variants@.map_values(|v: ProtobufEnumVariant| v@) + Seq::<VariantModel>::empty()
                =~= variants@.map_values(|v: ProtobufEnumVariant| v@));
        }
        Ok(variants)
    }
}

/// Name-keyed insertion into the registry held in ascending name order:
/// the entity goes before the first name not below its own; an entity of
/// equal name is overwritten.
pub open spec fn spec_insert(reg: Seq<EntityModel>, e: EntityModel) -> Seq<EntityModel>
    decreases reg.len(),
{
    if reg.len() == 0 {
        seq![e]
    } else if lex_lt(e.name, reg[0].name) {
        seq![e] + reg
    } else if e.name == reg[0].name {
        seq![e] + reg.drop_first()
    } else {
        seq![reg[0]] + spec_insert(reg.drop_first(), e)
    }
}

fn registry_insert(types: &mut Vec<ProtobufEntity>, e: ProtobufEntity)
    ensures
        final(types)@.map_values(|x: ProtobufEntity| x@) == spec_insert(
            old(types)@.map_values(|x: ProtobufEntity| x@),
            e@,
        ),
{
    let ghost rv = types@.map_values(|x: ProtobufEntity| x@);
    let ghost ev = e@;
    let mut k: usize = 0;
    proof {
        assert(rv.skip(0) =~= rv);
        assert(rv.take(0) + spec_insert(rv.skip(0), ev) =~= spec_insert(rv, ev));
    }
    while k < types.len() && str_lt(types[k].name.as_str(), e.name.as_str())
        invariant
            types@.map_values(|x: ProtobufEntity| x@) == rv,
            e@ == ev,
            k <= rv.len(),
            spec_insert(rv, ev) == rv.take(k as int) + spec_insert(rv.skip(k as int), ev),
        decreases rv.len() - k,
    {
        proof {
            let t = rv.skip(k as int);
            assert(t[0] == rv[k as int]);
            assert(rv[k as int] == types@[k as int]@);
            lemma_lex_trichotomy(ev.name, t[0].name);
            assert(spec_insert(t, ev) == seq![t[0]] + spec_insert(t.drop_first(), ev));
            assert(t.drop_first() =~= rv.skip(k + 1));
            assert(rv.take(k as int) + (seq![t[0]] + spec_insert(rv.skip(k + 1), ev)) =~= (rv.take(
                k as int,
            ) + seq![t[0]]) + spec_insert(rv.skip(k + 1), ev));
            assert(rv.take(k as int) + seq![t[0]] =~= rv.take(k + 1));
        }
        k += 1;
    }
    if k == types.len() {
        proof {
            assert(rv.skip(k as int).len() == 0);
            assert(spec_insert(rv.skip(k as int), ev) == seq![ev]);
        }
        types.push(e);
        proof {
            assert(types@.map_values(|x: ProtobufEntity| x@) =~= rv.take(k as int) + seq![ev]);
        }
    } else if str_eq(types[k].name.as_str(), e.name.as_str()) {
        proof {
            let t = rv.skip(k as int);
            assert(t[0] == rv[k as int]);
            assert(rv[k as int] == types@[k as int]@);
            lemma_lex_trichotomy(ev.name, t[0].name);
            assert(spec_insert(t, ev) == seq![ev] + t.drop_first());
            assert(t.drop_first() =~= rv.skip(k + 1));
        }
        types.remove(k);
        types.insert(k, e);
        proof {
            assert(types@.map_values(|x: ProtobufEntity| x@) =~= rv.take(k as int) + (seq![ev]
                + rv.skip(k + 1)));
        }
    } else {
        proof {
            let t = rv.skip(k as int);
            assert(t[0] == rv[k as int]);
            assert(rv[k as int] == types@[k as int]@);
            lemma_lex_trichotomy(ev.name, t[0].name);
            assert(lex_lt(ev.name, t[0].name));
            assert(spec_insert(t, ev) == seq![ev] + t);
        }
        types.insert(k, e);
        proof {
            assert(types@.map_values(|x: ProtobufEntity| x@) =~= rv.take(k as int) + (seq![ev]
                + rv.skip(k as int)));
        }
    }
}

/// The entity assembled from one raw declaration, or the error that
/// rejects it.
pub open spec fn spec_entity_result(
    name: Seq<char>,
    lines: Seq<Seq<char>>,
    known: Seq<Seq<char>>,
    is_enum: bool,
) -> Result<EntityModel, ErrorKind> {
    if is_enum {
        match spec_enum_variants(lines) {
            Err(k) => Err(k),
            Ok(vs) => Ok(EntityModel { name, kind: EntityKindModel::Enum(vs) }),
        }
    } else {
        match spec_struct_fields(lines, known) {
            Err(k) => Err(k),
            Ok(fs) => Ok(EntityModel { name, kind: EntityKindModel::Message(fs) }),
        }
    }
}

/// One pass over a declaration list: each entity that assembles is
/// inserted into the registry; a failing one aborts the pass in strict
/// mode, and is recorded as skipped in lenient mode. Yields the outcome,
/// the registry after the pass, and the skipped names with their errors.
pub open spec fn spec_phase(
    reg: Seq<EntityModel>,
    decls: Seq<(Seq<char>, Seq<Seq<char>>)>,
    known: Seq<Seq<char>>,
    strict: bool,
    is_enum: bool,
) -> (Result<(), ErrorKind>, Seq<EntityModel>, Seq<(Seq<char>, ErrorKind)>)
    decreases decls.len(),
{
    if decls.len() == 0 {
        (Ok(()), reg, Seq::empty())
    } else {
        match spec_entity_result(decls[0].0, decls[0].1, known, is_enum) {
            Ok(e) => spec_phase(spec_insert(reg, e), decls.drop_first(), known, strict, is_enum),
            Err(k) => if strict {
                (Err(k), reg, Seq::empty())
            } else {
                let r = spec_phase(reg, decls.drop_first(), known, strict, is_enum);
                (r.0, r.1, seq![(decls[0].0, k)] + r.2)
            },
        }
    }
}

/// A whole run: all struct declarations, then all enum declarations.
pub open spec fn spec_run(
    reg: Seq<EntityModel>,
    msgs: Seq<(Seq<char>, Seq<Seq<char>>)>,
    enums: Seq<(Seq<char>, Seq<Seq<char>>)>,
    known: Seq<Seq<char>>,
    strict: bool,
) -> (Result<(), ErrorKind>, Seq<EntityModel>, Seq<(Seq<char>, ErrorKind)>) {
    let m = spec_phase(reg, msgs, known, strict, false);
    match m.0 {
        Err(_) => m,
        Ok(_) => {
            let e2 = spec_phase(m.1, enums, known, strict, true);
            (e2.0, e2.1, m.2 + e2.2)
        },
    }
}

/// The abstract value of the skipped-entity list.
pub open spec fn skips_model(s: Seq<(String, R2Proto3Error)>) -> Seq<(Seq<char>, ErrorKind)> {
    s.map_values(|p: (String, R2Proto3Error)| (p.0@, p.1.spec_kind()))
}

proof fn lemma_struct_numbering_from(lines: Seq<Seq<char>>, known: Seq<Seq<char>>, p: int)
    requires
        0 <= p,
        spec_struct_fields_from(lines, known, p) is Ok,
    ensures
        ({
            let fs = spec_struct_fields_from(lines, known, p)->Ok_0;
            &&& fs.len() == lines.len()
            &&& forall|j: int| 0 <= j < fs.len() ==> (#[trigger] fs[j]).num == spec_field_num(p + j)
        }),
    decreases lines.len(),
{
    if lines.len() > 0 {
        lemma_struct_numbering_from(lines.drop_first(), known, p + 1);
        let f = spec_field(lines[0], p, known)->Ok_0;
        let rest = spec_struct_fields_from(lines.drop_first(), known, p + 1)->Ok_0;
        let fs = spec_struct_fields_from(lines, known, p)->Ok_0;
        assert(fs == seq![f] + rest);
        assert forall|j: int| 0 <= j < fs.len() implies (#[trigger] fs[j]).num == spec_field_num(
            p + j,
        ) by {
            if j > 0 {
                assert(fs[j] == rest[j - 1]);
            }
        }
    }
}

/// The field numbering law: a struct that assembles gets one field per
/// line, numbered by position — 1 upward, jumping from 18999 straight
/// to 20000 — so that no number of the reserved band 19000..19999 is
/// ever emitted.
pub proof fn lemma_field_numbering(lines: Seq<Seq<char>>, known: Seq<Seq<char>>)
    requires
        spec_struct_fields(lines, known) is Ok,
    ensures
        ({
            let fs = spec_struct_fields(lines, known)->Ok_0;
            &&& fs.len() == lines.len()
            &&& forall|j: int| 0 <= j < fs.len() ==> (#[trigger] fs[j]).num == spec_field_num(j)
            &&& forall|j: int|
                0 <= j < fs.len() ==> !(19_000 <= (#[trigger] fs[j]).num < 20_000)
        }),
{
    lemma_struct_numbering_from(lines, known, 0);
}

proof fn lemma_struct_ok_from(lines: Seq<Seq<char>>, known: Seq<Seq<char>>, p: int)
    requires
        0 <= p <= max_field_line(),
    ensures
        (spec_struct_fields_from(lines, known, p) is Ok) <==> (p + lines.len() <= max_field_line()
            && forall|j: int|
            0 <= j < lines.len() ==> spec_resolve(
                spec_line_rtype(#[trigger] lines[j]),
                known,
                false,
            ) is Ok),
    decreases lines.len(),
{
    if lines.len() > 0 {
        if spec_resolve(spec_line_rtype(lines[0]), known, false) is Ok && p < max_field_line() {
            lemma_struct_ok_from(lines.drop_first(), known, p + 1);
            if p + 1 + lines.drop_first().len() <= max_field_line() && forall|j: int|
                0 <= j < lines.drop_first().len() ==> spec_resolve(
                    spec_line_rtype(#[trigger] lines.drop_first()[j]),
                    known,
                    false,
                ) is Ok {
                assert forall|j: int|
                    0 <= j < lines.len() implies spec_resolve(
                    spec_line_rtype(#[trigger] lines[j]),
                    known,
                    false,
                ) is Ok by {
                    if j > 0 {
                        assert(lines.drop_first()[j - 1] == lines[j]);
                    }
                }
            }
            if forall|j: int|
                0 <= j < lines.len() ==> spec_resolve(
                    spec_line_rtype(#[trigger] lines[j]),
                    known,
                    false,
                ) is Ok {
                assert forall|j: int|
                    0 <= j < lines.drop_first().len() implies spec_resolve(
                    spec_line_rtype(#[trigger] lines.drop_first()[j]),
                    known,
                    false,
                ) is Ok by {
                    assert(lines.drop_first()[j] == lines[j + 1]);
                }
            }
        }
    }
}

/// A struct assembles exactly when every line's type expression
/// resolves and the body stays inside the field-number space.
pub proof fn lemma_struct_fields_ok(lines: Seq<Seq<char>>, known: Seq<Seq<char>>)
    ensures
        (spec_struct_fields(lines, known) is Ok) <==> (lines.len() <= max_field_line() && forall|
            j: int,
        |
            0 <= j < lines.len() ==> spec_resolve(
                spec_line_rtype(#[trigger] lines[j]),
                known,
                false,
            ) is Ok),
{
    lemma_struct_ok_from(lines, known, 0);
}

proof fn lemma_enum_from(lines: Seq<Seq<char>>, p: int)
    ensures
        (spec_enum_variants_from(lines, p) is Ok) <==> (forall|j: int|
            0 <= j < lines.len() ==> !spec_drop_stuff(#[trigger] lines[j]).contains('(')),
        spec_enum_variants_from(lines, p) is Ok ==> ({
            let vs = spec_enum_variants_from(lines, p)->Ok_0;
            &&& vs.len() == lines.len()
            &&& forall|j: int|
                0 <= j < vs.len() ==> (#[trigger] vs[j]).value == p + j && vs[j].name
                    == spec_drop_stuff(lines[j])
        }),
    decreases lines.len(),
{
    if lines.len() > 0 {
        lemma_enum_from(lines.drop_first(), p + 1);
        assert forall|j: int| 0 <= j < lines.drop_first().len() implies lines.drop_first()[j]
            == lines[j + 1] by {}
        if !spec_drop_stuff(lines[0]).contains('(') && spec_enum_variants_from(
            lines.drop_first(),
            p + 1,
        ) is Ok {
            let v = spec_variant(lines[0], p)->Ok_0;
            let rest = spec_enum_variants_from(lines.drop_first(), p + 1)->Ok_0;
            let vs = spec_enum_variants_from(lines, p)->Ok_0;
            assert(vs == seq![v] + rest);
            assert forall|j: int|
                0 <= j < vs.len() implies (#[trigger] vs[j]).value == p + j && vs[j].name
                == spec_drop_stuff(lines[j]) by {
                if j > 0 {
                    assert(vs[j] == rest[j - 1]);
                }
            }
        }
        if (spec_enum_variants_from(lines, p) is Ok) && !(forall|j: int|
            0 <= j < lines.len() ==> !spec_drop_stuff(#[trigger] lines[j]).contains('(')) {
            let w = choose|j: int|
                0 <= j < lines.len() && spec_drop_stuff(lines[j]).contains('(');
            if w > 0 {
                assert(spec_drop_stuff(lines.drop_first()[w - 1]).contains('('));
            }
        }
        if (forall|j: int|
            0 <= j < lines.len() ==> !spec_drop_stuff(#[trigger] lines[j]).contains('(')) {
            assert(!spec_drop_stuff(lines[0]).contains('('));
        }
    }
}

/// The variant numbering law: an enum of N parenthesis-free lines
/// assembles with values exactly 0..N-1 in source order, and assembles
/// exactly when no normalized line holds an opening parenthesis.
pub proof fn lemma_enum_numbering(lines: Seq<Seq<char>>)
    ensures
        (spec_enum_variants(lines) is Ok) <==> (forall|j: int|
            0 <= j < lines.len() ==> !spec_drop_stuff(#[trigger] lines[j]).contains('(')),
        spec_enum_variants(lines) is Ok ==> ({
            let vs = spec_enum_variants(lines)->Ok_0;
            &&& vs.len() == lines.len()
            &&& forall|j: int|
                0 <= j < vs.len() ==> (#[trigger] vs[j]).value == j && vs[j].name
                    == spec_drop_stuff(lines[j])
        }),
{
    lemma_enum_from(lines, 0);
}

proof fn lemma_phase_strict_aborts(
    reg: Seq<EntityModel>,
    decls: Seq<(Seq<char>, Seq<Seq<char>>)>,
    known: Seq<Seq<char>>,
    is_enum: bool,
    i: int,
)
    requires
        0 <= i < decls.len(),
        spec_entity_result(decls[i].0, decls[i].1, known, is_enum) is Err,
    ensures
        spec_phase(reg, decls, known, true, is_enum).0 is Err,
    decreases decls.len(),
{
    match spec_entity_result(decls[0].0, decls[0].1, known, is_enum) {
        Ok(e) => {
            assert(i > 0);
            assert(decls.drop_first()[i - 1] == decls[i]);
            lemma_phase_strict_aborts(spec_insert(reg, e), decls.drop_first(), known, is_enum, i - 1);
        },
        Err(_) => {},
    }
}

/// In strict mode, a declaration whose entity fails to assemble aborts
/// the whole run.
pub proof fn lemma_strict_aborts(
    reg: Seq<EntityModel>,
    msgs: Seq<(Seq<char>, Seq<Seq<char>>)>,
    enums: Seq<(Seq<char>, Seq<Seq<char>>)>,
    known: Seq<Seq<char>>,
    i: int,
    in_enums: bool,
)
    requires
        in_enums ==> 0 <= i < enums.len() && spec_entity_result(
            enums[i].0,
            enums[i].1,
            known,
            true,
        ) is Err,
        !in_enums ==> 0 <= i < msgs.len() && spec_entity_result(
            msgs[i].0,
            msgs[i].1,
            known,
            false,
        ) is Err,
    ensures
        spec_run(reg, msgs, enums, known, true).0 is Err,
{
    let m = spec_phase(reg, msgs, known, true, false);
    if !in_enums {
        lemma_phase_strict_aborts(reg, msgs, known, false, i);
    } else {
        match m.0 {
            Err(_) => {},
            Ok(_) => {
                lemma_phase_strict_aborts(m.1, enums, known, true, i);
            },
        }
    }
}

proof fn lemma_insert_no_name(reg: Seq<EntityModel>, e: EntityModel, n: Seq<char>)
    requires
        e.name != n,
        forall|k: int| 0 <= k < reg.len() ==> (#[trigger] reg[k]).name != n,
    ensures
        forall|k: int|
            0 <= k < spec_insert(reg, e).len() ==> (#[trigger] spec_insert(reg, e)[k]).name != n,
    decreases reg.len(),
{
    let r = spec_insert(reg, e);
    if reg.len() == 0 {
    } else if lex_lt(e.name, reg[0].name) {
        assert forall|k: int| 0 <= k < r.len() implies (#[trigger] r[k]).name != n by {
            if k > 0 {
                assert(r[k] == reg[k - 1]);
            }
        }
    } else if e.name == reg[0].name {
        assert forall|k: int| 0 <= k < r.len() implies (#[trigger] r[k]).name != n by {
            if k > 0 {
                assert(r[k] == reg[k]);
            }
        }
    } else {
        assert forall|k: int|
            0 <= k < reg.drop_first().len() implies (#[trigger] reg.drop_first()[k]).name != n by {
            assert(reg.drop_first()[k] == reg[k + 1]);
        }
        lemma_insert_no_name(reg.drop_first(), e, n);
        assert forall|k: int| 0 <= k < r.len() implies (#[trigger] r[k]).name != n by {
            if k > 0 {
                assert(r[k] == spec_insert(reg.drop_first(), e)[k - 1]);
            }
        }
    }
}

proof fn lemma_phase_lenient_ok(
    reg: Seq<EntityModel>,
    decls: Seq<(Seq<char>, Seq<Seq<char>>)>,
    known: Seq<Seq<char>>,
    is_enum: bool,
)
    ensures
        spec_phase(reg, decls, known, false, is_enum).0 is Ok,
    decreases decls.len(),
{
    if decls.len() > 0 {
        match spec_entity_result(decls[0].0, decls[0].1, known, is_enum) {
            Ok(e) => {
                lemma_phase_lenient_ok(spec_insert(reg, e), decls.drop_first(), known, is_enum);
            },
            Err(_) => {
                lemma_phase_lenient_ok(reg, decls.drop_first(), known, is_enum);
            },
        }
    }
}

proof fn lemma_phase_no_name(
    reg: Seq<EntityModel>,
    decls: Seq<(Seq<char>, Seq<Seq<char>>)>,
    known: Seq<Seq<char>>,
    is_enum: bool,
    n: Seq<char>,
)
    requires
        forall|k: int| 0 <= k < reg.len() ==> (#[trigger] reg[k]).name != n,
        forall|i: int|
            0 <= i < decls.len() ==> ((#[trigger] decls[i]).0 == n ==> spec_entity_result(
                decls[i].0,
                decls[i].1,
                known,
                is_enum,
            ) is Err),
    ensures
        forall|k: int|
            0 <= k < spec_phase(reg, decls, known, false, is_enum).1.len() ==> (
            #[trigger] spec_phase(reg, decls, known, false, is_enum).1[k]).name != n,
    decreases decls.len(),
{
    if decls.len() > 0 {
        assert forall|i: int|
            0 <= i < decls.drop_first().len() implies ((#[trigger] decls.drop_first()[i]).0 == n
            ==> spec_entity_result(
            decls.drop_first()[i].0,
            decls.drop_first()[i].1,
            known,
            is_enum,
        ) is Err) by {
            assert(decls.drop_first()[i] == decls[i + 1]);
        }
        match spec_entity_result(decls[0].0, decls[0].1, known, is_enum) {
            Ok(e) => {
                assert(decls[0].0 != n);
                assert(e.name == decls[0].0);
                lemma_insert_no_name(reg, e, n);
                lemma_phase_no_name(spec_insert(reg, e), decls.drop_first(), known, is_enum, n);
            },
            Err(_) => {
                lemma_phase_no_name(reg, decls.drop_first(), known, is_enum, n);
            },
        }
    }
}

/// In lenient mode, an entity whose every declaration fails to assemble
/// is entirely absent from the final registry.
pub proof fn lemma_unresolvable_absent(
    reg: Seq<EntityModel>,
    msgs: Seq<(Seq<char>, Seq<Seq<char>>)>,
    enums: Seq<(Seq<char>, Seq<Seq<char>>)>,
    known: Seq<Seq<char>>,
    n: Seq<char>,
)
    requires
        forall|k: int| 0 <= k < reg.len() ==> (#[trigger] reg[k]).name != n,
        forall|i: int|
            0 <= i < msgs.len() ==> ((#[trigger] msgs[i]).0 == n ==> spec_entity_result(
                msgs[i].0,
                msgs[i].1,
                known,
                false,
            ) is Err),
        forall|i: int|
            0 <= i < enums.len() ==> ((#[trigger] enums[i]).0 == n ==> spec_entity_result(
                enums[i].0,
                enums[i].1,
                known,
                true,
            ) is Err),
    ensures
        forall|k: int|
            0 <= k < spec_run(reg, msgs, enums, known, false).1.len() ==> (#[trigger] spec_run(
                reg,
                msgs,
                enums,
                known,
                false,
            ).1[k]).name != n,
{
    let m = spec_phase(reg, msgs, known, false, false);
    lemma_phase_lenient_ok(reg, msgs, known, false);
    lemma_phase_no_name(reg, msgs, known, false, n);
    lemma_phase_no_name(m.1, enums, known, true, n);
}

/// The registry is kept in strictly ascending name order.
pub open spec fn registry_sorted(reg: Seq<EntityModel>) -> bool {
    forall|i: int, j: int|
        0 <= i < j < reg.len() ==> lex_lt((#[trigger] reg[i]).name, (#[trigger] reg[j]).name)
}

proof fn lemma_insert_elems(reg: Seq<EntityModel>, e: EntityModel)
    ensures
        forall|k: int|
            0 <= k < spec_insert(reg, e).len() ==> ((#[trigger] spec_insert(reg, e)[k]) == e
                || exists|m: int| 0 <= m < reg.len() && reg[m] == spec_insert(reg, e)[k]),
    decreases reg.len(),
{
    let r = spec_insert(reg, e);
    if reg.len() == 0 {
    } else if lex_lt(e.name, reg[0].name) {
        assert forall|k: int|
            0 <= k < r.len() implies ((#[trigger] r[k]) == e || exists|m: int|
            0 <= m < reg.len() && reg[m] == r[k]) by {
            if k > 0 {
                assert(reg[k - 1] == r[k]);
            }
        }
    } else if e.name == reg[0].name {
        assert forall|k: int|
            0 <= k < r.len() implies ((#[trigger] r[k]) == e || exists|m: int|
            0 <= m < reg.len() && reg[m] == r[k]) by {
            if k > 0 {
                assert(reg[k] == r[k]);
            }
        }
    } else {
        lemma_insert_elems(reg.drop_first(), e);
        assert forall|k: int|
            0 <= k < r.len() implies ((#[trigger] r[k]) == e || exists|m: int|
            0 <= m < reg.len() && reg[m] == r[k]) by {
            if k > 0 {
                let rk = spec_insert(reg.drop_first(), e)[k - 1];
                assert(r[k] == rk);
                if rk != e {
                    let m = choose|m: int|
                        0 <= m < reg.drop_first().len() && reg.drop_first()[m] == rk;
                    assert(reg[m + 1] == rk);
                }
            }
        }
    }
}

/// Insertion preserves the ascending name order of the registry, so a
/// registry built by insertions renders in ascending name order.
pub proof fn lemma_insert_sorted(reg: Seq<EntityModel>, e: EntityModel)
    requires
        registry_sorted(reg),
    ensures
        registry_sorted(spec_insert(reg, e)),
    decreases reg.len(),
{
    let r = spec_insert(reg, e);
    if reg.len() == 0 {
    } else {
        lemma_lex_trichotomy(e.name, reg[0].name);
        if lex_lt(e.name, reg[0].name) {
            assert forall|i: int, j: int|
                0 <= i < j < r.len() implies lex_lt((#[trigger] r[i]).name, (#[trigger] r[j]).name) by {
                if i == 0 {
                    assert(r[j] == reg[j - 1]);
                    if j > 1 {
                        lemma_lex_trans(e.name, reg[0].name, reg[j - 1].name);
                    }
                } else {
                    assert(r[i] == reg[i - 1]);
                    assert(r[j] == reg[j - 1]);
                }
            }
        } else if e.name == reg[0].name {
            assert forall|i: int, j: int|
                0 <= i < j < r.len() implies lex_lt((#[trigger] r[i]).name, (#[trigger] r[j]).name) by {
                if i == 0 {
                    assert(r[j] == reg[j]);
                    assert(lex_lt(reg[0].name, reg[j].name));
                } else {
                    assert(r[i] == reg[i]);
                    assert(r[j] == reg[j]);
                }
            }
        } else {
            assert forall|i: int, j: int|
                0 <= i < j < reg.drop_first().len() implies lex_lt(
                (#[trigger] reg.drop_first()[i]).name,
                (#[trigger] reg.drop_first()[j]).name,
            ) by {
                assert(reg.drop_first()[i] == reg[i + 1]);
                assert(reg.drop_first()[j] == reg[j + 1]);
            }
            lemma_insert_sorted(reg.drop_first(), e);
            lemma_insert_elems(reg.drop_first(), e);
            assert forall|i: int, j: int|
                0 <= i < j < r.len() implies lex_lt((#[trigger] r[i]).name, (#[trigger] r[j]).name) by {
                if i == 0 {
                    let rj = spec_insert(reg.drop_first(), e)[j - 1];
                    assert(r[j] == rj);
                    if rj == e {
                        assert(lex_lt(reg[0].name, e.name));
                    } else {
                        let m = choose|m: int|
                            0 <= m < reg.drop_first().len() && reg.drop_first()[m] == rj;
                        assert(reg[m + 1] == rj);
                        assert(lex_lt(reg[0].name, reg[m + 1].name));
                    }
                } else {
                    assert(r[i] == spec_insert(reg.drop_first(), e)[i - 1]);
                    assert(r[j] == spec_insert(reg.drop_first(), e)[j - 1]);
                }
            }
        }
    }
}

proof fn lemma_phase_sorted(
    reg: Seq<EntityModel>,
    decls: Seq<(Seq<char>, Seq<Seq<char>>)>,
    known: Seq<Seq<char>>,
    strict: bool,
    is_enum: bool,
)
    requires
        registry_sorted(reg),
    ensures
        registry_sorted(spec_phase(reg, decls, known, strict, is_enum).1),
    decreases decls.len(),
{
    if decls.len() > 0 {
        match spec_entity_result(decls[0].0, decls[0].1, known, is_enum) {
            Ok(e) => {
                lemma_insert_sorted(reg, e);
                lemma_phase_sorted(spec_insert(reg, e), decls.drop_first(), known, strict, is_enum);
            },
            Err(_) => {
                if !strict {
                    lemma_phase_sorted(reg, decls.drop_first(), known, strict, is_enum);
                }
            },
        }
    }
}

/// The registry a run produces is in strictly ascending name order, so
/// entities render in ascending name order and no name occurs twice:
/// a duplicated declaration leaves exactly one entity.
pub proof fn lemma_run_sorted(
    reg: Seq<EntityModel>,
    msgs: Seq<(Seq<char>, Seq<Seq<char>>)>,
    enums: Seq<(Seq<char>, Seq<Seq<char>>)>,
    known: Seq<Seq<char>>,
    strict: bool,
)
    requires
        registry_sorted(reg),
    ensures
        registry_sorted(spec_run(reg, msgs, enums, known, strict).1),
        forall|i: int, j: int|
            0 <= i < j < spec_run(reg, msgs, enums, known, strict).1.len() ==> (#[trigger] spec_run(
                reg,
                msgs,
                enums,
                known,
                strict,
            ).1[i]).name != (#[trigger] spec_run(reg, msgs, enums, known, strict).1[j]).name,
{
    let m = spec_phase(reg, msgs, known, strict, false);
    lemma_phase_sorted(reg, msgs, known, strict, false);
    let out = spec_run(reg, msgs, enums, known, strict);
    match m.0 {
        Err(_) => {},
        Ok(_) => {
            lemma_phase_sorted(m.1, enums, known, strict, true);
        },
    }
    assert forall|i: int, j: int|
        0 <= i < j < out.1.len() implies (#[trigger] out.1[i]).name != (#[trigger] out.1[j]).name by {
        lemma_lex_trichotomy(out.1[i].name, out.1[j].name);
    }
}

/// Numbers an entity can render: field numbers and variant values are
/// never negative.
pub open spec fn entity_wf(e: EntityModel) -> bool {
    match e.kind {
        EntityKindModel::Message(fs) => forall|j: int|
            0 <= j < fs.len() ==> 0 <= (#[trigger] fs[j]).num,
        EntityKindModel::Enum(vs) => forall|j: int|
            0 <= j < vs.len() ==> 0 <= (#[trigger] vs[j]).value,
        EntityKindModel::Rpc => true,
    }
}

/// What the renderer asks of a registry: every entity has renderable
/// numbers and none stands for a callable operation. Every registry the
/// assembler builds satisfies this; `lemma_run_renderable` discharges
/// it for a run over the empty registry of a fresh driver.
pub open spec fn registry_renderable(reg: Seq<EntityModel>) -> bool {
    forall|k: int|
        0 <= k < reg.len() ==> entity_wf(#[trigger] reg[k]) && !(reg[k].kind is Rpc)
}

proof fn lemma_entity_result_renderable(
    name: Seq<char>,
    lines: Seq<Seq<char>>,
    known: Seq<Seq<char>>,
    is_enum: bool,
)
    requires
        spec_entity_result(name, lines, known, is_enum) is Ok,
    ensures
        entity_wf(spec_entity_result(name, lines, known, is_enum)->Ok_0),
        !(spec_entity_result(name, lines, known, is_enum)->Ok_0.kind is Rpc),
{
    if is_enum {
        lemma_enum_from(lines, 0);
    } else {
        lemma_struct_numbering_from(lines, known, 0);
    }
}

proof fn lemma_insert_renderable(reg: Seq<EntityModel>, e: EntityModel)
    requires
        registry_renderable(reg),
        entity_wf(e),
        !(e.kind is Rpc),
    ensures
        registry_renderable(spec_insert(reg, e)),
{
    lemma_insert_elems(reg, e);
    let r = spec_insert(reg, e);
    assert forall|k: int|
        0 <= k < r.len() implies entity_wf(#[trigger] r[k]) && !(r[k].kind is Rpc) by {
        if r[k] != e {
            let m = choose|m: int| 0 <= m < reg.len() && reg[m] == r[k];
            assert(entity_wf(reg[m]));
        }
    }
}

proof fn lemma_phase_renderable(
    reg: Seq<EntityModel>,
    decls: Seq<(Seq<char>, Seq<Seq<char>>)>,
    known: Seq<Seq<char>>,
    strict: bool,
    is_enum: bool,
)
    requires
        registry_renderable(reg),
    ensures
        registry_renderable(spec_phase(reg, decls, known, strict, is_enum).1),
    decreases decls.len(),
{
    if decls.len() > 0 {
        match spec_entity_result(decls[0].0, decls[0].1, known, is_enum) {
            Ok(e) => {
                lemma_entity_result_renderable(decls[0].0, decls[0].1, known, is_enum);
                lemma_insert_renderable(reg, e);
                lemma_phase_renderable(
                    spec_insert(reg, e),
                    decls.drop_first(),
                    known,
                    strict,
                    is_enum,
                );
            },
            Err(_) => {
                if !strict {
                    lemma_phase_renderable(reg, decls.drop_first(), known, strict, is_enum);
                }
            },
        }
    }
}

/// The registry a run produces is renderable: the assembler only ever
/// inserts messages and enumerations whose numbers come from the
/// numbering rules, so `generate`'s precondition holds of it.
pub proof fn lemma_run_renderable(
    reg: Seq<EntityModel>,
    msgs: Seq<(Seq<char>, Seq<Seq<char>>)>,
    enums: Seq<(Seq<char>, Seq<Seq<char>>)>,
    known: Seq<Seq<char>>,
    strict: bool,
)
    requires
        registry_renderable(reg),
    ensures
        registry_renderable(spec_run(reg, msgs, enums, known, strict).1),
{
    let m = spec_phase(reg, msgs, known, strict, false);
    lemma_phase_renderable(reg, msgs, known, strict, false);
    match m.0 {
        Err(_) => {},
        Ok(_) => {
            lemma_phase_renderable(m.1, enums, known, strict, true);
        },
    }
}

/// One rendered field line, without its leading line break.
pub open spec fn spec_render_field(f: FieldModel) -> Seq<char> {
    "  "@ + f.proto3_type + " "@ + f.name + " = "@ + spec_nat_string(f.num) + ";"@
}

/// The rendered field lines of a message body.
pub open spec fn spec_render_fields(fs: Seq<FieldModel>) -> Seq<char>
    decreases fs.len(),
{
    if fs.len() == 0 {
        Seq::empty()
    } else {
        "\n"@ + spec_render_field(fs[0]) + spec_render_fields(fs.drop_first())
    }
}

/// One rendered variant line, without its leading line break.
pub open spec fn spec_render_variant(v: VariantModel) -> Seq<char> {
    "  "@ + v.name + " = "@ + spec_nat_string(v.value) + ";"@
}

/// The rendered variant lines of an enum body.
pub open spec fn spec_render_variants(vs: Seq<VariantModel>) -> Seq<char>
    decreases vs.len(),
{
    if vs.len() == 0 {
        Seq::empty()
    } else {
        "\n"@ + spec_render_variant(vs[0]) + spec_render_variants(vs.drop_first())
    }
}

/// One rendered entity block.
pub open spec fn spec_render_entity(e: EntityModel) -> Seq<char> {
    match e.kind {
        EntityKindModel::Message(fs) => "\nmessage "@ + e.name + " {"@ + spec_render_fields(fs)
            + "\n}\n"@,
        EntityKindModel::Enum(vs) => "\nenum "@ + e.name + " {"@ + spec_render_variants(vs)
            + "\n}\n"@,
        EntityKindModel::Rpc => Seq::empty(),
    }
}

/// The rendered entity blocks, in registry order.
pub open spec fn spec_render_entities(es: Seq<EntityModel>) -> Seq<char>
    decreases es.len(),
{
    if es.len() == 0 {
        Seq::empty()
    } else {
        spec_render_entity(es[0]) + spec_render_entities(es.drop_first())
    }
}

/// The whole schema document: the syntax line, then every entity.
pub open spec fn spec_generate(es: Seq<EntityModel>) -> Seq<char> {
    "syntax = \"proto3\";\n"@ + spec_render_entities(es)
}

fn render_fields_into(contents: &mut String, fields: &Vec<ProtobufField>)
    requires
        forall|j: int| 0 <= j < fields@.len() ==> 0 <= (#[trigger] fields@[j]).field_num,
    ensures
        final(contents)@ == old(contents)@ + spec_render_fields(
            fields@.map_values(|f: ProtobufField| f@),
        ),
{
    let ghost fm = fields@.map_values(|f: ProtobufField| f@);
    let ghost base = old(contents)@;
    let mut j: usize = 0;
    proof {
        assert(fm.skip(0) =~= fm);
    }
    while j < fields.len()
        invariant
            fm == fields@.map_values(|f: ProtobufField| f@),
            forall|jj: int| 0 <= jj < fields@.len() ==> 0 <= (#[trigger] fields@[jj]).field_num,
            j <= fm.len(),
            contents@ + spec_render_fields(fm.skip(j as int)) == base + spec_render_fields(fm),
        decreases fm.len() - j,
    {
        let ghost j0 = j as int;
        let ghost c0 = contents@;
        proof {
            assert(fm.skip(j0)[0] == fm[j0]);
            assert(fm[j0] == fields@[j0]@);
            assert(fm.skip(j0).drop_first() =~= fm.skip(j0 + 1));
        }
        let f: &ProtobufField = &fields[j];
        contents.append("\n");
        contents.append("  ");
        contents.append(f.proto3_type.as_str());
        contents.append(" ");
        contents.append(f.name.as_str());
        contents.append(" = ");
        let numstr = u32_string(f.field_num as u32);
        contents.append(numstr.as_str());
        contents.append(";");
        j += 1;
        proof {
            assert(numstr@ == spec_nat_string(fm[j0].num));
            assert(contents@ =~= c0 + ("\n"@ + spec_render_field(fm[j0])));
            assert(c0 + ("\n"@ + spec_render_field(fm[j0])) + spec_render_fields(fm.skip(j0 + 1))
                =~= c0 + ("\n"@ + spec_render_field(fm[j0]) + spec_render_fields(fm.skip(j0 + 1))));
        }
    }
    proof {
        assert(fm.skip(j as int).len() == 0);
        assert(contents@ + Seq::<char>::empty() =~= contents@);
    }
}

fn render_variants_into(contents: &mut String, variants: &Vec<ProtobufEnumVariant>)
    requires
        forall|j: int| 0 <= j < variants@.len() ==> 0 <= (#[trigger] variants@[j]).value,
    ensures
        final(contents)@ == old(contents)@ + spec_render_variants(
            variants@.map_values(|v: ProtobufEnumVariant| v@),
        ),
{
    let ghost vm = variants@.map_values(|v: ProtobufEnumVariant| v@);
    let ghost base = old(contents)@;
    let mut j: usize = 0;
    proof {
        assert(vm.skip(0) =~= vm);
    }
    while j < variants.len()
        invariant
            vm == variants@.map_values(|v: ProtobufEnumVariant| v@),
            forall|jj: int| 0 <= jj < variants@.len() ==> 0 <= (#[trigger] variants@[jj]).value,
            j <= vm.len(),
            contents@ + spec_render_variants(vm.skip(j as int)) == base + spec_render_variants(vm),
        decreases vm.len() - j,
    {
        let ghost j0 = j as int;
        let ghost c0 = contents@;
        proof {
            assert(vm.skip(j0)[0] == vm[j0]);
            assert(vm[j0] == variants@[j0]@);
            assert(vm.skip(j0).drop_first() =~= vm.skip(j0 + 1));
        }
        let v: &ProtobufEnumVariant = &variants[j];
        contents.append("\n");
        contents.append("  ");
        contents.append(v.name.as_str());
        contents.append(" = ");
        let numstr = u32_string(v.value as u32);
        contents.append(numstr.as_str());
        contents.append(";");
        j += 1;
        proof {
            assert(numstr@ == spec_nat_string(vm[j0].value));
            assert(contents@ =~= c0 + ("\n"@ + spec_render_variant(vm[j0])));
            assert(c0 + ("\n"@ + spec_render_variant(vm[j0])) + spec_render_variants(
                vm.skip(j0 + 1),
            ) =~= c0 + ("\n"@ + spec_render_variant(vm[j0]) + spec_render_variants(vm.skip(j0 + 1))));
        }
    }
    proof {
        assert(vm.skip(j as int).len() == 0);
        assert(contents@ + Seq::<char>::empty() =~= contents@);
    }
}

impl Parser {
    /// Assembles every declaration into the registry: all structs, then
    /// all enums, a later duplicate name overwriting an earlier entity.
    /// In lenient mode a failing entity is skipped and reported in the
    /// result; in strict mode (`panic_to_unsupported`) the first failure
    /// ends the run with its error, leaving the entities assembled
    /// before it in the registry.
    pub fn process(
        &mut self,
        messages: &Vec<RawDecl>,
        enums: &Vec<RawDecl>,
        known_types: &Vec<String>,
    ) -> (r: Result<Vec<(String, R2Proto3Error)>, R2Proto3Error>)
        requires
            forall|j: int|
                0 <= j < enums@.len() ==> (#[trigger] enums@[j]).lines@.len() <= 0x7fff_ffff,
        ensures
            ({
                let out = spec_run(
                    old(self).registry(),
                    decls_model(messages@),
                    decls_model(enums@),
                    known_types.deep_view(),
                    old(self).panic_to_unsupported,
                );
                &&& final(self).registry() == out.1
                &&& match r {
                    Ok(skips) => out.0 is Ok && skips_model(skips@) == out.2,
                    Err(e) => out.0 is Err && out.0->Err_0 == e.spec_kind(),
                }
            }),
            final(self).ignore_rpc == old(self).ignore_rpc,
            final(self).panic_to_unsupported == old(self).panic_to_unsupported,
            final(self).verbose == old(self).verbose,
    {
        let ghost reg0 = self.registry();
        let ghost known = known_types.deep_view();
        let ghost strict = self.panic_to_unsupported;
        let ghost msgs = decls_model(messages@);
        let mut skipped: Vec<(String, R2Proto3Error)> = Vec::new();
        let mut i: usize = 0;
        proof {
            assert(msgs.skip(0) =~= msgs);
            assert(skips_model(skipped@) =~= Seq::<(Seq<char>, ErrorKind)>::empty());
            assert(skips_model(skipped@) + spec_phase(reg0, msgs, known, strict, false).2
                =~= spec_phase(reg0, msgs, known, strict, false).2);
        }
        while i < messages.len()
            invariant
                reg0 == old(self).registry(),
                msgs == decls_model(messages@),
                known == known_types.deep_view(),
                strict == self.panic_to_unsupported,
                self.ignore_rpc == old(self).ignore_rpc,
                self.panic_to_unsupported == old(self).panic_to_unsupported,
                self.verbose == old(self).verbose,
                forall|j: int|
                    0 <= j < enums@.len() ==> (#[trigger] enums@[j]).lines@.len() <= 0x7fff_ffff,
                i <= msgs.len(),
                ({
                    let total = spec_phase(reg0, msgs, known, strict, false);
                    let ph = spec_phase(self.registry(), msgs.skip(i as int), known, strict, false);
                    &&& total.0 == ph.0
                    &&& total.1 == ph.1
                    &&& total.2 == skips_model(skipped@) + ph.2
                }),
            decreases msgs.len() - i,
        {
            let ghost i0 = i as int;
            let ghost regb = self.registry();
            let ghost skb = skips_model(skipped@);
            proof {
                assert(msgs.skip(i0)[0] == msgs[i0]);
                assert(msgs[i0] == decl_model(messages@[i0]));
                assert(msgs.skip(i0).drop_first() =~= msgs.skip(i0 + 1));
            }
            let decl: &RawDecl = &messages[i];
            match self.parse_struct_fields(&decl.lines, known_types) {
                Ok(fields) => {
                    let ghost fm = fields@.map_values(|f: ProtobufField| f@);
                    let entity = ProtobufEntity {
                        entity_type: ProtobufEntityType::Message(fields),
                        name: decl.name.clone(),
                    };
                    proof {
                        assert(spec_entity_result(msgs[i0].0, msgs[i0].1, known, false) == Ok::<
                            EntityModel,
                            ErrorKind,
                        >(entity@));
                    }
                    registry_insert(&mut self.types, entity);
                    proof {
                        assert(self.registry() == spec_insert(
                            regb,
                            spec_entity_result(msgs[i0].0, msgs[i0].1, known, false)->Ok_0,
                        ));
                    }
                },
                Err(err) => {
                    proof {
                        assert(spec_entity_result(msgs[i0].0, msgs[i0].1, known, false) == Err::<
                            EntityModel,
                            ErrorKind,
                        >(err.spec_kind()));
                    }
                    if self.panic_to_unsupported {
                        let e2 = R2Proto3Error::new(
                            err.kind(),
                            "Warning: the struct `".to_owned().concat(decl.name.as_str()).concat(
                                "` won't be attached to `.proto` file",
                            ).concat(" :: cause of = ").concat(err.description()),
                        );
                        proof {
                            let ph = spec_phase(self.registry(), msgs.skip(i0), known, strict, false);
                            assert(ph.0 == Err::<(), ErrorKind>(err.spec_kind()));
                            assert(ph.1 == self.registry());
                        }
                        return Err(e2);
                    } else {
                        skipped.push((decl.name.clone(), err));
                        proof {
                            assert(skips_model(skipped@) =~= skb.push(
                                (msgs[i0].0, spec_entity_result(msgs[i0].0, msgs[i0].1, known, false)->Err_0),
                            ));
                            let ph1 = spec_phase(regb, msgs.skip(i0 + 1), known, strict, false);
                            assert(skb + (seq![
                                (msgs[i0].0, spec_entity_result(msgs[i0].0, msgs[i0].1, known, false)->Err_0),
                            ] + ph1.2) =~= skips_model(skipped@) + ph1.2);
                        }
                    }
                },
            }
            i += 1;
        }
        proof {
            assert(msgs.skip(msgs.len() as int).len() == 0);
            let total = spec_phase(reg0, msgs, known, strict, false);
            assert(total.0 == Ok::<(), ErrorKind>(()));
            assert(total.1 == self.registry());
            assert(skips_model(skipped@) + Seq::<(Seq<char>, ErrorKind)>::empty() =~= skips_model(
                skipped@,
            ));
            assert(total.2 == skips_model(skipped@));
        }
        let ghost reg1 = self.registry();
        let ghost base_skips = skips_model(skipped@);
        let ghost ens = decls_model(enums@);
        let ghost mut done: Seq<(Seq<char>, ErrorKind)> = Seq::empty();
        let mut j: usize = 0;
        proof {
            assert(ens.skip(0) =~= ens);
            assert(done + spec_phase(reg1, ens, known, strict, true).2 =~= spec_phase(
                reg1,
                ens,
                known,
                strict,
                true,
            ).2);
        }
        while j < enums.len()
            invariant
                reg0 == old(self).registry(),
                msgs == decls_model(messages@),
                ens == decls_model(enums@),
                known == known_types.deep_view(),
                strict == self.panic_to_unsupported,
                ({
                    let m = spec_phase(reg0, msgs, known, strict, false);
                    &&& m.0 is Ok
                    &&& m.1 == reg1
                    &&& m.2 == base_skips
                }),
                self.ignore_rpc == old(self).ignore_rpc,
                self.panic_to_unsupported == old(self).panic_to_unsupported,
                self.verbose == old(self).verbose,
                forall|jj: int|
                    0 <= jj < enums@.len() ==> (#[trigger] enums@[jj]).lines@.len() <= 0x7fff_ffff,
                j <= ens.len(),
                skips_model(skipped@) == base_skips + done,
                ({
                    let total2 = spec_phase(reg1, ens, known, strict, true);
                    let ph = spec_phase(self.registry(), ens.skip(j as int), known, strict, true);
                    &&& total2.0 == ph.0
                    &&& total2.1 == ph.1
                    &&& total2.2 == done + ph.2
                }),
            decreases ens.len() - j,
        {
            let ghost j0 = j as int;
            let ghost regb = self.registry();
            proof {
                assert(ens.skip(j0)[0] == ens[j0]);
                assert(ens[j0] == decl_model(enums@[j0]));
                assert(ens.skip(j0).drop_first() =~= ens.skip(j0 + 1));
            }
            let decl: &RawDecl = &enums[j];
            match self.parse_enum_fields(&decl.lines) {
                Ok(variants) => {
                    let entity = ProtobufEntity {
                        entity_type: ProtobufEntityType::Enum(variants),
                        name: decl.name.clone(),
                    };
                    proof {
                        assert(spec_entity_result(ens[j0].0, ens[j0].1, known, true) == Ok::<
                            EntityModel,
                            ErrorKind,
                        >(entity@));
                    }
                    registry_insert(&mut self.types, entity);
                    proof {
                        assert(self.registry() == spec_insert(
                            regb,
                            spec_entity_result(ens[j0].0, ens[j0].1, known, true)->Ok_0,
                        ));
                    }
                },
                Err(err) => {
                    proof {
                        assert(spec_entity_result(ens[j0].0, ens[j0].1, known, true) == Err::<
                            EntityModel,
                            ErrorKind,
                        >(err.spec_kind()));
                    }
                    if self.panic_to_unsupported {
                        let e2 = R2Proto3Error::new(
                            err.kind(),
                            "Warning: the enum `".to_owned().concat(decl.name.as_str()).concat(
                                "` won't be attached to `.proto` file",
                            ).concat(" :: cause of = ").concat(err.description()),
                        );
                        proof {
                            let ph = spec_phase(self.registry(), ens.skip(j0), known, strict, true);
                            assert(ph.0 == Err::<(), ErrorKind>(err.spec_kind()));
                            assert(ph.1 == self.registry());
                            let total2 = spec_phase(reg1, ens, known, strict, true);
                            assert(total2.0 == ph.0);
                        }
                        return Err(e2);
                    } else {
                        let ghost skb = skips_model(skipped@);
                        skipped.push((decl.name.clone(), err));
                        proof {
                            let item = (
                                ens[j0].0,
                                spec_entity_result(ens[j0].0, ens[j0].1, known, true)->Err_0,
                            );
                            assert(skips_model(skipped@) =~= skb.push(item));
                            let ph1 = spec_phase(regb, ens.skip(j0 + 1), known, strict, true);
                            assert(done + (seq![item] + ph1.2) =~= (done + seq![item]) + ph1.2);
                            assert(base_skips + done + seq![item] =~= base_skips + (done + seq![
                                item,
                            ]));
                            done = done + seq![item];
                        }
                    }
                },
            }
            j += 1;
        }
        proof {
            assert(ens.skip(ens.len() as int).len() == 0);
            let total2 = spec_phase(reg1, ens, known, strict, true);
            assert(total2.0 == Ok::<(), ErrorKind>(()));
            assert(total2.1 == self.registry());
            assert(done + Seq::<(Seq<char>, ErrorKind)>::empty() =~= done);
            assert(total2.2 == done);
        }
        Ok(skipped)
    }

    /// Renders the registry as a proto3 schema document: the syntax line
    /// first, then every entity in ascending name order, messages as
    /// `message N { ... }` with one `type name = number;` line per
    /// field, enumerations as `enum N { ... }` with one
    /// `name = value;` line per variant.
    pub fn generate(&self) -> (r: String)
        requires
            registry_renderable(self.registry()),
        ensures
            r@ == spec_generate(self.registry()),
    {
        let ghost reg = self.registry();
        let mut contents = "syntax = \"proto3\";\n".to_owned();
        let ghost base = contents@;
        let mut k: usize = 0;
        proof {
            assert(reg.skip(0) =~= reg);
        }
        while k < self.types.len()
            invariant
                reg == self.registry(),
                base == "syntax = \"proto3\";\n"@,
                registry_renderable(reg),
                k <= reg.len(),
                contents@ + spec_render_entities(reg.skip(k as int)) == base + spec_render_entities(
                    reg,
                ),
            decreases reg.len() - k,
        {
            let ghost k0 = k as int;
            let ghost c0 = contents@;
            proof {
                assert(reg.skip(k0)[0] == reg[k0]);
                assert(reg[k0] == self.types@[k0]@);
                assert(reg.skip(k0).drop_first() =~= reg.skip(k0 + 1));
            }
            let e: &ProtobufEntity = &self.types[k];
            match &e.entity_type {
                ProtobufEntityType::Message(fields) => {
                    contents.append("\nmessage ");
                    contents.append(e.name.as_str());
                    contents.append(" {");
                    proof {
                        let fm = fields@.map_values(|f: ProtobufField| f@);
                        assert(reg[k0].kind == EntityKindModel::Message(fm));
                        assert forall|jj: int| 0 <= jj < fields@.len() implies 0 <= (
                        #[trigger] fields@[jj]).field_num by {
                            assert(fm[jj] == fields@[jj]@);
                            assert(0 <= fm[jj].num);
                        }
                    }
                    render_fields_into(&mut contents, fields);
                    contents.append("\n}\n");
                    proof {
                        assert(contents@ =~= c0 + spec_render_entity(reg[k0]));
                    }
                },
                ProtobufEntityType::Enum(variants) => {
                    contents.append("\nenum ");
                    contents.append(e.name.as_str());
                    contents.append(" {");
                    proof {
                        let vm = variants@.map_values(|v: ProtobufEnumVariant| v@);
                        assert(reg[k0].kind == EntityKindModel::Enum(vm));
                        assert forall|jj: int| 0 <= jj < variants@.len() implies 0 <= (
                        #[trigger] variants@[jj]).value by {
                            assert(vm[jj] == variants@[jj]@);
                            assert(0 <= vm[jj].value);
                        }
                    }
                    render_variants_into(&mut contents, variants);
                    contents.append("\n}\n");
                    proof {
                        assert(contents@ =~= c0 + spec_render_entity(reg[k0]));
                    }
                },
                ProtobufEntityType::Rpc => {
                    proof {
                        assert(reg[k0].kind is Rpc);
                        assert(false);
                    }
                },
            }
            k += 1;
            proof {
                assert(c0 + spec_render_entity(reg[k0]) + spec_render_entities(reg.skip(k0 + 1))
                    =~= c0 + (spec_render_entity(reg[k0]) + spec_render_entities(reg.skip(k0 + 1))));
            }
        }
        proof {
            assert(reg.skip(k as int).len() == 0);
            assert(contents@ + Seq::<char>::empty() =~= contents@);
        }
        contents
    }
}

} // verus!
