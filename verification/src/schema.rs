//! Schema parsing, the schema registry, and struct decoding.
//!
//! A schema definition is a string of `;`-separated statements, each
//! `"<type> <name>"`; statements with fewer than two whitespace-separated
//! tokens are skipped.  Primitive type tokens have fixed byte widths;
//! an unknown token is a reference to another schema by name, whose size
//! is 0 at parse time and is resolved against the registry later.

use crate::alist::{alist_distinct, alist_find, alist_get, lemma_get_absent, lemma_get_at_index,
    lemma_get_push, lemma_get_update};
use crate::log_store::strings_view;
use crate::strutil::{is_space, is_space_char, push_char, str_eq};
use vstd::prelude::*;
use vstd::string::{StrSliceExecFns, StringExecFns};

verus! {

/// One parsed field: its name, its declared type token, and a fixed
/// array size when the declaration carried one (the plain `type name`
/// grammar never sets it).
pub struct SchemaField {
    pub name: String,
    pub type_str: String,
    pub array_size: Option<usize>,
}

/// A named schema: its fields in declaration order and its total byte
/// size as far as primitive widths determine it (nested references
/// count 0 until resolved against a registry).
pub struct Schema {
    pub name: String,
    pub fields: Vec<SchemaField>,
    pub size: usize,
}

/// The byte width of a primitive type token, 0 for anything else.
pub open spec fn spec_type_size(t: Seq<char>) -> usize {
    if t == "double"@ || t == "float64"@ {
        8
    } else if t == "float"@ || t == "float32"@ {
        4
    } else if t == "bool"@ || t == "boolean"@ {
        1
    } else if t == "int8"@ || t == "uint8"@ {
        1
    } else if t == "int16"@ || t == "uint16"@ {
        2
    } else if t == "int32"@ || t == "uint32"@ || t == "int"@ {
        4
    } else if t == "int64"@ || t == "uint64"@ || t == "long"@ {
        8
    } else {
        0
    }
}

/// The `;`-separated segments of a definition string, `cur` being the
/// segment accumulated so far.
pub open spec fn split_statements(s: Seq<char>, cur: Seq<char>) -> Seq<Seq<char>>
    decreases s.len(),
{
    if s.len() == 0 {
        seq![cur]
    } else if s[0] == ';' {
        seq![cur] + split_statements(s.drop_first(), Seq::empty())
    } else {
        split_statements(s.drop_first(), cur.push(s[0]))
    }
}

/// The whitespace-separated tokens of a statement, `cur` being the token
/// accumulated so far.
pub open spec fn tokens_acc(s: Seq<char>, cur: Seq<char>) -> Seq<Seq<char>>
    decreases s.len(),
{
    if s.len() == 0 {
        if cur.len() > 0 {
            seq![cur]
        } else {
            Seq::empty()
        }
    } else if is_space_char(s[0]) {
        if cur.len() > 0 {
            seq![cur] + tokens_acc(s.drop_first(), Seq::empty())
        } else {
            tokens_acc(s.drop_first(), Seq::empty())
        }
    } else {
        tokens_acc(s.drop_first(), cur.push(s[0]))
    }
}

/// The tokens of a statement.
pub open spec fn tokens_of(stmt: Seq<char>) -> Seq<Seq<char>> {
    tokens_acc(stmt, Seq::empty())
}

/// The `(type, name)` pair a statement declares: its first two tokens,
/// or nothing when it has fewer than two.
pub open spec fn field_of(stmt: Seq<char>) -> Option<(Seq<char>, Seq<char>)> {
    let toks = tokens_of(stmt);
    if toks.len() >= 2 {
        Some((toks[0], toks[1]))
    } else {
        None
    }
}

/// The fields declared by a list of statements, in order.
pub open spec fn fields_of_statements(sts: Seq<Seq<char>>) -> Seq<(Seq<char>, Seq<char>)>
    decreases sts.len(),
{
    if sts.len() == 0 {
        Seq::empty()
    } else {
        match field_of(sts[0]) {
            Some(f) => seq![f] + fields_of_statements(sts.drop_first()),
            None => fields_of_statements(sts.drop_first()),
        }
    }
}

/// The `(type, name)` fields of a whole definition string.
pub open spec fn spec_parse_fields(s: Seq<char>) -> Seq<(Seq<char>, Seq<char>)> {
    fields_of_statements(split_statements(s, Seq::empty()))
}

/// The sum of the parsed fields' primitive widths, unclamped.
pub open spec fn fields_size_exact(fields: Seq<(Seq<char>, Seq<char>)>) -> int
    decreases fields.len(),
{
    if fields.len() == 0 {
        0
    } else {
        spec_type_size(fields[0].0) + fields_size_exact(fields.drop_first())
    }
}

/// Clamps a non-negative size to what a `usize` can carry.
pub open spec fn clamp_usize(x: int) -> int {
    if x > usize::MAX as int {
        usize::MAX as int
    } else {
        x
    }
}

/// The `(type, name)` views of a field vector.
pub open spec fn fields_view(fields: Seq<SchemaField>) -> Seq<(Seq<char>, Seq<char>)> {
    fields.map_values(|f: SchemaField| (f.type_str@, f.name@))
}

/// Appending one field adds its width to the exact size.
proof fn lemma_fields_size_push(fields: Seq<(Seq<char>, Seq<char>)>, f: (Seq<char>, Seq<char>))
    ensures
        fields_size_exact(fields.push(f)) == fields_size_exact(fields) + spec_type_size(f.0),
    decreases fields.len(),
{
    reveal_with_fuel(fields_size_exact, 3);
    let s2 = fields.push(f);
    assert(s2[fields.len() as int] == f);
    if fields.len() == 0 {
        assert(s2.drop_first() =~= Seq::<(Seq<char>, Seq<char>)>::empty());
    } else {
        assert(s2[0] == fields[0]);
        assert(s2.drop_first() =~= fields.drop_first().push(f));
        lemma_fields_size_push(fields.drop_first(), f);
    }
}

/// The first two tokens of a statement, as owned strings, when it has at
/// least two.
fn statement_field(cur: &Vec<char>) -> (r: Option<(String, String)>)
    ensures
        match r {
            Some(p) => field_of(cur@) == Some((p.0@, p.1@)),
            None => field_of(cur@) is None,
        },
{
    let ghost stmt = cur@;
    let mut toks: Vec<String> = Vec::new();
    let mut curtok = String::new();
    proof {
        assert(stmt.skip(0) =~= stmt);
        assert(curtok@ =~= Seq::<char>::empty());
        assert(strings_view(toks@) + tokens_acc(stmt, curtok@) =~= tokens_acc(
            stmt,
            Seq::empty(),
        ));
    }
    let mut k: usize = 0;
    while k < cur.len()
        invariant
            k <= stmt.len(),
            stmt == cur@,
            strings_view(toks@) + tokens_acc(stmt.skip(k as int), curtok@) == tokens_of(stmt),
        decreases stmt.len() - k,
    {
        proof {
            assert(stmt.skip(k as int)[0] == stmt[k as int]);
            assert(stmt.skip(k as int).drop_first() =~= stmt.skip(k + 1 as int));
        }
        let c = cur[k];
        if is_space(c) {
            if !curtok.as_str().is_empty() {
                let ghost t = curtok@;
                toks.push(curtok);
                curtok = String::new();
                proof {
                    assert(curtok@ =~= Seq::<char>::empty());
                    assert(strings_view(toks@) =~= strings_view(toks@.drop_last()) + seq![t]);
                    assert(strings_view(toks@) + tokens_acc(stmt.skip(k + 1 as int), curtok@)
                        =~= strings_view(toks@.drop_last()) + (seq![t] + tokens_acc(
                        stmt.skip(k + 1 as int),
                        Seq::empty(),
                    )));
                }
            } else {
                proof {
                    assert(curtok@ =~= Seq::<char>::empty());
                }
            }
        } else {
            push_char(&mut curtok, c);
        }
        k += 1;
    }
    proof {
        assert(stmt.skip(stmt.len() as int) =~= Seq::<char>::empty());
    }
    if !curtok.as_str().is_empty() {
        let ghost t = curtok@;
        toks.push(curtok);
        proof {
            assert(strings_view(toks@) =~= strings_view(toks@.drop_last()) + seq![t]);
            assert(strings_view(toks@) =~= tokens_of(stmt));
        }
    } else {
        proof {
            assert(strings_view(toks@) + Seq::<Seq<char>>::empty() =~= strings_view(toks@));
        }
    }
    proof {
        assert(strings_view(toks@) == tokens_of(stmt));
    }
    if toks.len() >= 2 {
        let t0 = toks[0].clone();
        let t1 = toks[1].clone();
        proof {
            assert(strings_view(toks@)[0] == toks@[0]@);
            assert(strings_view(toks@)[1] == toks@[1]@);
        }
        Some((t0, t1))
    } else {
        None
    }
}

impl Schema {
    /// The byte width of a primitive type token; 0 for a token that is
    /// no primitive, such as a nested schema reference.
    pub fn get_type_size(type_str: &str) -> (r: usize)
        ensures
            r == spec_type_size(type_str@),
    {
        if str_eq(type_str, "double") || str_eq(type_str, "float64") {
            8
        } else if str_eq(type_str, "float") || str_eq(type_str, "float32") {
            4
        } else if str_eq(type_str, "bool") || str_eq(type_str, "boolean") {
            1
        } else if str_eq(type_str, "int8") || str_eq(type_str, "uint8") {
            1
        } else if str_eq(type_str, "int16") || str_eq(type_str, "uint16") {
            2
        } else if str_eq(type_str, "int32") || str_eq(type_str, "uint32") || str_eq(
            type_str,
            "int",
        ) {
            4
        } else if str_eq(type_str, "int64") || str_eq(type_str, "uint64") || str_eq(
            type_str,
            "long",
        ) {
            8
        } else {
            0
        }
    }

    /// Parses a definition string into a schema: one field per statement
    /// with at least two tokens, sized by the primitive widths (nested
    /// references count 0 here).
    pub fn new(name: String, schema_str: &str) -> (r: Schema)
        ensures
            r.name == name,
            fields_view(r.fields@) == spec_parse_fields(schema_str@),
            forall|i: int|
                0 <= i < r.fields@.len() ==> (#[trigger] r.fields@[i]).array_size is None,
            r.size == clamp_usize(fields_size_exact(spec_parse_fields(schema_str@))),
    {
        let ghost s = schema_str@;
        let n = schema_str.unicode_len();
        let mut fields: Vec<SchemaField> = Vec::new();
        let mut size: usize = 0;
        let mut cur: Vec<char> = Vec::new();
        proof {
            assert(s.skip(0) =~= s);
            assert(cur@ =~= Seq::<char>::empty());
            assert(fields_view(fields@) + fields_of_statements(split_statements(s, cur@))
                =~= fields_of_statements(split_statements(s, Seq::empty())));
        }
        let mut i: usize = 0;
        while i < n
            invariant
                n == s.len(),
                i <= n,
                s == schema_str@,
                fields_view(fields@) + fields_of_statements(
                    split_statements(s.skip(i as int), cur@),
                ) == spec_parse_fields(s),
                size == clamp_usize(fields_size_exact(fields_view(fields@))),
                fields_size_exact(fields_view(fields@)) >= 0,
                forall|j: int|
                    0 <= j < fields@.len() ==> (#[trigger] fields@[j]).array_size is None,
            decreases n - i,
        {
            proof {
                assert(s.skip(i as int)[0] == s[i as int]);
                assert(s.skip(i as int).drop_first() =~= s.skip(i + 1 as int));
            }
            let c = schema_str.get_char(i);
            if c == ';' {
                let ghost stmt = cur@;
                let ghost rest = split_statements(s.skip(i + 1 as int), Seq::<char>::empty());
                proof {
                    assert((seq![stmt] + rest)[0] == stmt);
                    assert((seq![stmt] + rest).drop_first() =~= rest);
                }
                match statement_field(&cur) {
                    Some(p) => {
                        let (type_str, fname) = p;
                        let w = Self::get_type_size(type_str.as_str());
                        let ghost old_fields = fields_view(fields@);
                        fields.push(SchemaField {
                            name: fname,
                            type_str,
                            array_size: None,
                        });
                        proof {
                            assert(fields_view(fields@) =~= old_fields.push(
                                (fields@.last().type_str@, fields@.last().name@),
                            ));
                            lemma_fields_size_push(old_fields, fields_view(fields@).last());
                        }
                        if size > usize::MAX - w {
                            size = usize::MAX;
                        } else {
                            size = size + w;
                        }
                        proof {
                            assert(fields_view(fields@) + fields_of_statements(rest)
                                =~= old_fields + (seq![fields_view(fields@).last()]
                                + fields_of_statements(rest)));
                        }
                    },
                    None => {},
                }
                cur = Vec::new();
                proof {
                    assert(cur@ =~= Seq::<char>::empty());
                }
            } else {
                cur.push(c);
            }
            i += 1;
        }
        let ghost stmt = cur@;
        proof {
            assert(s.skip(n as int) =~= Seq::<char>::empty());
            assert(split_statements(s.skip(n as int), stmt) =~= seq![stmt]);
            assert((seq![stmt])[0] == stmt);
            assert((seq![stmt]).drop_first() =~= Seq::<Seq<char>>::empty());
        }
        match statement_field(&cur) {
            Some(p) => {
                let (type_str, fname) = p;
                let w = Self::get_type_size(type_str.as_str());
                let ghost old_fields = fields_view(fields@);
                proof {
                    reveal_with_fuel(fields_of_statements, 3);
                    assert(fields_of_statements(seq![stmt]) =~= seq![(p.0@, p.1@)]);
                }
                fields.push(SchemaField { name: fname, type_str, array_size: None });
                proof {
                    assert(fields_view(fields@) =~= old_fields.push(
                        (fields@.last().type_str@, fields@.last().name@),
                    ));
                    lemma_fields_size_push(old_fields, fields_view(fields@).last());
                    assert(fields_view(fields@) =~= old_fields + seq![(p.0@, p.1@)]);
                    assert(fields_view(fields@) == spec_parse_fields(s));
                }
                if size > usize::MAX - w {
                    size = usize::MAX;
                } else {
                    size = size + w;
                }
            },
            None => {
                proof {
                    reveal_with_fuel(fields_of_statements, 3);
                    assert(fields_of_statements(seq![stmt]) =~= Seq::<
                        (Seq<char>, Seq<char>),
                    >::empty());
                    assert(fields_view(fields@) + Seq::<(Seq<char>, Seq<char>)>::empty()
                        =~= fields_view(fields@));
                    assert(fields_view(fields@) == spec_parse_fields(s));
                }
            },
        }
        Schema { name, fields, size }
    }
}

/// The schema registry of one ingest session: named schemas, arriving
/// incrementally; a redefinition silently replaces the earlier one.
pub struct SchemaRegistry {
    pub entries: Vec<(String, Schema)>,
}

impl SchemaRegistry {
    /// The schema registered under `name`, if any.
    pub open spec fn lookup(self, name: Seq<char>) -> Option<Schema> {
        alist_get(self.entries@, name)
    }

    /// Registered names are distinct.
    pub open spec fn wf(self) -> bool {
        alist_distinct(self.entries@)
    }

    /// An empty registry.
    pub fn new() -> (r: Self)
        ensures
            r.wf(),
            r.entries@ == Seq::<(String, Schema)>::empty(),
    {
        SchemaRegistry { entries: Vec::new() }
    }

    /// Registers `schema` under `name`, replacing any earlier schema of
    /// that name.
    pub fn insert(&mut self, name: String, schema: Schema)
        requires
            old(self).wf(),
        ensures
            final(self).wf(),
            final(self).lookup(name@) == Some(schema),
            forall|n: Seq<char>| n != name@ ==> final(self).lookup(n) == old(self).lookup(n),
    {
        let ghost old_entries = self.entries@;
        match alist_find(&self.entries, name.as_str()) {
            Some(i) => {
                let entry = &mut self.entries[i];
                entry.1 = schema;
                proof {
                    assert(self.entries@ =~= old_entries.update(
                        i as int,
                        (old_entries[i as int].0, self.entries@[i as int].1),
                    ));
                    lemma_get_update(old_entries, i as int, self.entries@[i as int]);
                }
            },
            None => {
                proof {
                    lemma_get_absent(old_entries, name@);
                }
                self.entries.push((name, schema));
                proof {
                    lemma_get_push(old_entries, self.entries@.last());
                }
            },
        }
    }

    /// The registered schema named `name`, if any.
    pub fn get(&self, name: &str) -> (r: Option<&Schema>)
        ensures
            match r {
                Some(s) => self.lookup(name@) == Some(*s),
                None => self.lookup(name@) is None,
            },
    {
        match alist_find(&self.entries, name) {
            Some(i) => {
                proof {
                    lemma_get_at_index(self.entries@, i as int);
                }
                Some(&self.entries[i].1)
            },
            None => {
                proof {
                    lemma_get_absent(self.entries@, name@);
                }
                None
            },
        }
    }

    /// Forgets every registered schema.
    pub fn clear(&mut self)
        ensures
            final(self).wf(),
            final(self).entries@ == Seq::<(String, Schema)>::empty(),
    {
        self.entries.clear();
    }
}


/// One decoded primitive value.  Doubles and floats are carried as
/// their IEEE-754 bit patterns.
#[derive(Clone, Copy, Debug, PartialEq, Eq, Structural)]
pub enum StructValue {
    Double(u64),
    Float(u32),
    Boolean(bool),
    Int(i32),
}

/// The `(path, value)` views of a decoded field vector.
pub open spec fn pairs_view(s: Seq<(String, StructValue)>) -> Seq<(Seq<char>, StructValue)> {
    s.map_values(|p: (String, StructValue)| (p.0@, p.1))
}

/// The decode fuel a registry affords: nesting deeper than the number
/// of registered schemas means a reference cycle, which is cut off.
pub open spec fn reg_fuel(reg: Seq<(String, Schema)>) -> nat {
    (reg.len() + 1) as nat
}

/// The total byte size of a field list, resolving width-0 fields as
/// schema references against `reg`, each resolution spending one unit
/// of `fuel`; an unresolvable or fuel-starved reference counts 0.
pub open spec fn size_of_fields(fields: Seq<SchemaField>, reg: Seq<(String, Schema)>, fuel: nat) -> int
    decreases fuel, fields.len(),
{
    if fields.len() == 0 {
        0
    } else {
        let w = spec_type_size(fields[0].type_str@) as int;
        let rest = size_of_fields(fields.drop_first(), reg, fuel);
        if w > 0 {
            w + rest
        } else {
            match alist_get(reg, fields[0].type_str@) {
                Some(nested) => if fuel > 0 {
                    size_of_fields(nested.fields@, reg, (fuel - 1) as nat) + rest
                } else {
                    rest
                },
                None => rest,
            }
        }
    }
}

/// The byte size of every field list is non-negative.
pub proof fn lemma_size_of_fields_nonneg(fields: Seq<SchemaField>, reg: Seq<(String, Schema)>, fuel: nat)
    ensures
        size_of_fields(fields, reg, fuel) >= 0,
    decreases fuel, fields.len(),
{
    if fields.len() > 0 {
        lemma_size_of_fields_nonneg(fields.drop_first(), reg, fuel);
        let w = spec_type_size(fields[0].type_str@) as int;
        if w == 0 {
            match alist_get(reg, fields[0].type_str@) {
                Some(nested) => {
                    if fuel > 0 {
                        lemma_size_of_fields_nonneg(nested.fields@, reg, (fuel - 1) as nat);
                    }
                },
                None => {},
            }
        }
    }
}

/// What decoding a field list against `data`, starting at `cursor`,
/// yields: one `(path, value)` pair per field read in declaration order,
/// stopping early when the data runs out or a type token resolves to
/// neither a primitive nor a registered schema.  A nested schema's
/// fields are flattened under `<field>/`.
pub open spec fn spec_decode(
    fields: Seq<SchemaField>,
    data: Seq<u8>,
    cursor: int,
    reg: Seq<(String, Schema)>,
    fuel: nat,
) -> Seq<(Seq<char>, StructValue)>
    decreases fuel, fields.len(),
{
    if fields.len() == 0 {
        Seq::empty()
    } else if cursor >= data.len() {
        Seq::empty()
    } else {
        let t = fields[0].type_str@;
        let name = fields[0].name@;
        let rest = fields.drop_first();
        if t == "double"@ || t == "float64"@ {
            if cursor + 8 <= data.len() {
                seq![(name, StructValue::Double(vstd::bytes::spec_u64_from_le_bytes(data.subrange(cursor, cursor + 8))))]
                    + spec_decode(rest, data, cursor + 8, reg, fuel)
            } else {
                spec_decode(rest, data, cursor, reg, fuel)
            }
        } else if t == "float"@ || t == "float32"@ {
            if cursor + 4 <= data.len() {
                seq![(name, StructValue::Float(vstd::bytes::spec_u32_from_le_bytes(data.subrange(cursor, cursor + 4))))]
                    + spec_decode(rest, data, cursor + 4, reg, fuel)
            } else {
                spec_decode(rest, data, cursor, reg, fuel)
            }
        } else if t == "bool"@ || t == "boolean"@ {
            seq![(name, StructValue::Boolean(data[cursor] != 0))] + spec_decode(
                rest,
                data,
                cursor + 1,
                reg,
                fuel,
            )
        } else if t == "int32"@ || t == "int"@ {
            if cursor + 4 <= data.len() {
                seq![(name, StructValue::Int(vstd::bytes::spec_u32_from_le_bytes(data.subrange(cursor, cursor + 4)) as i32))]
                    + spec_decode(rest, data, cursor + 4, reg, fuel)
            } else {
                spec_decode(rest, data, cursor, reg, fuel)
            }
        } else {
            match alist_get(reg, t) {
                Some(nested) => if fuel > 0 {
                    let sub = spec_decode(nested.fields@, data, cursor, reg, (fuel - 1) as nat);
                    let consumed = clamp_usize(size_of_fields(nested.fields@, reg, reg_fuel(reg)));
                    sub.map_values(|p: (Seq<char>, StructValue)| (name + "/"@ + p.0, p.1))
                        + spec_decode(rest, data, clamp_usize(cursor + consumed), reg, fuel)
                } else {
                    Seq::empty()
                },
                None => Seq::empty(),
            }
        }
    }
}

/// Sums the field widths of `schema`, recursively resolving nested
/// schema references by name against the registry; an unregistered
/// reference counts 0 (a legitimate state while schemas still arrive),
/// and the sum saturates at `usize::MAX`.
pub fn calculate_size(schema: &Schema, schemas: &SchemaRegistry) -> (r: usize)
    requires
        schemas.entries@.len() < usize::MAX,
    ensures
        r as int == clamp_usize(
            size_of_fields(schema.fields@, schemas.entries@, reg_fuel(schemas.entries@)),
        ),
{
    calc_size_fueled(&schema.fields, schemas, schemas.entries.len() + 1)
}

/// [`calculate_size`] with an explicit resolution-depth budget.
fn calc_size_fueled(fields: &Vec<SchemaField>, schemas: &SchemaRegistry, fuel: usize) -> (r: usize)
    ensures
        r as int == clamp_usize(size_of_fields(fields@, schemas.entries@, fuel as nat)),
    decreases fuel,
{
    let ghost reg = schemas.entries@;
    let ghost total = size_of_fields(fields@, reg, fuel as nat);
    let mut size: usize = 0;
    let ghost mut prefix: int = 0;
    proof {
        assert(fields@.skip(0) =~= fields@);
    }
    let mut i: usize = 0;
    while i < fields.len()
        invariant
            i <= fields@.len(),
            reg == schemas.entries@,
            reg.len() < usize::MAX || fuel as nat <= reg_fuel(reg),
            total == size_of_fields(fields@, reg, fuel as nat),
            prefix >= 0,
            size as int == clamp_usize(prefix),
            prefix + size_of_fields(fields@.skip(i as int), reg, fuel as nat) == total,
        decreases fields@.len() - i,
    {
        proof {
            assert(fields@.skip(i as int)[0] == fields@[i as int]);
            assert(fields@.skip(i as int).drop_first() =~= fields@.skip(i + 1 as int));
            lemma_size_of_fields_nonneg(fields@.skip(i + 1 as int), reg, fuel as nat);
        }
        let f = &fields[i];
        let w = Schema::get_type_size(f.type_str.as_str());
        let mut c: usize = 0;
        let ghost mut c_exact: int = 0;
        if w > 0 {
            c = w;
            proof {
                c_exact = w as int;
            }
        } else {
            match schemas.get(f.type_str.as_str()) {
                Some(nested) => {
                    if fuel > 0 {
                        c = calc_size_fueled(&nested.fields, schemas, fuel - 1);
                        proof {
                            c_exact = size_of_fields(nested.fields@, reg, (fuel - 1) as nat);
                            lemma_size_of_fields_nonneg(nested.fields@, reg, (fuel - 1) as nat);
                        }
                    }
                },
                None => {},
            }
        }
        if size > usize::MAX - c {
            size = usize::MAX;
        } else {
            size = size + c;
        }
        proof {
            prefix = prefix + c_exact;
        }
        i += 1;
    }
    proof {
        assert(fields@.skip(fields@.len() as int) =~= Seq::<SchemaField>::empty());
    }
    size
}

/// Decodes one binary record against `schema`, walking its fields in
/// declaration order with a cursor into `data`, flattening nested
/// schemas' fields under `<field>/` and returning whatever was decoded
/// when the data runs out or a type token cannot be resolved.
pub fn decode_struct(schema: &Schema, data: &[u8], schemas: &SchemaRegistry) -> (r: Vec<
    (String, StructValue),
>)
    requires
        schemas.entries@.len() < usize::MAX,
    ensures
        pairs_view(r@) == spec_decode(
            schema.fields@,
            data@,
            0,
            schemas.entries@,
            reg_fuel(schemas.entries@),
        ),
{
    decode_fields(&schema.fields, data, 0, schemas, schemas.entries.len() + 1)
}

/// [`decode_struct`] with an explicit cursor and resolution budget.
fn decode_fields(
    fields: &Vec<SchemaField>,
    data: &[u8],
    start: usize,
    schemas: &SchemaRegistry,
    fuel: usize,
) -> (r: Vec<(String, StructValue)>)
    requires
        schemas.entries@.len() < usize::MAX,
    ensures
        pairs_view(r@) == spec_decode(fields@, data@, start as int, schemas.entries@, fuel as nat),
    decreases fuel,
{
    let ghost reg = schemas.entries@;
    let ghost total = spec_decode(fields@, data@, start as int, reg, fuel as nat);
    let mut r: Vec<(String, StructValue)> = Vec::new();
    let mut cursor: usize = start;
    proof {
        assert(fields@.skip(0) =~= fields@);
        assert(pairs_view(r@) =~= Seq::<(Seq<char>, StructValue)>::empty());
    }
    let mut i: usize = 0;
    while i < fields.len()
        invariant
            i <= fields@.len(),
            reg == schemas.entries@,
            reg.len() < usize::MAX,
            total == spec_decode(fields@, data@, start as int, reg, fuel as nat),
            pairs_view(r@) + spec_decode(fields@.skip(i as int), data@, cursor as int, reg, fuel as nat) == total,
        decreases fields@.len() - i,
    {
        let ghost before = spec_decode(fields@.skip(i as int), data@, cursor as int, reg, fuel as nat);
        proof {
            assert(fields@.skip(i as int)[0] == fields@[i as int]);
            assert(fields@.skip(i as int).drop_first() =~= fields@.skip(i + 1 as int));
        }
        if cursor >= data.len() {
            proof {
                assert(before =~= Seq::<(Seq<char>, StructValue)>::empty());
                assert(pairs_view(r@) + before =~= pairs_view(r@));
            }
            return r;
        }
        let f = &fields[i];
        if str_eq(f.type_str.as_str(), "double") || str_eq(f.type_str.as_str(), "float64") {
            if 8 <= data.len() - cursor {
                let bytes = vstd::slice::slice_subrange(data, cursor, cursor + 8);
                let v = vstd::bytes::u64_from_le_bytes(bytes);
                let ghost old_pairs = pairs_view(r@);
                r.push((f.name.clone(), StructValue::Double(v)));
                proof {
                    assert(pairs_view(r@) =~= old_pairs.push((f.name@, StructValue::Double(v))));
                    assert(pairs_view(r@) + spec_decode(fields@.skip(i + 1 as int), data@, cursor + 8, reg, fuel as nat) =~= (old_pairs + before));
                }
                cursor = cursor + 8;
            }
        } else if str_eq(f.type_str.as_str(), "float") || str_eq(f.type_str.as_str(), "float32") {
            if 4 <= data.len() - cursor {
                let bytes = vstd::slice::slice_subrange(data, cursor, cursor + 4);
                let v = vstd::bytes::u32_from_le_bytes(bytes);
                let ghost old_pairs = pairs_view(r@);
                r.push((f.name.clone(), StructValue::Float(v)));
                proof {
                    assert(pairs_view(r@) =~= old_pairs.push((f.name@, StructValue::Float(v))));
                    assert(pairs_view(r@) + spec_decode(fields@.skip(i + 1 as int), data@, cursor + 4, reg, fuel as nat) =~= (old_pairs + before));
                }
                cursor = cursor + 4;
            }
        } else if str_eq(f.type_str.as_str(), "bool") || str_eq(f.type_str.as_str(), "boolean") {
            let b = *vstd::slice::slice_index_get(data, cursor);
            let v = b != 0;
            let ghost old_pairs = pairs_view(r@);
            r.push((f.name.clone(), StructValue::Boolean(v)));
            proof {
                assert(pairs_view(r@) =~= old_pairs.push((f.name@, StructValue::Boolean(v))));
                assert(pairs_view(r@) + spec_decode(fields@.skip(i + 1 as int), data@, cursor + 1, reg, fuel as nat) =~= (old_pairs + before));
            }
            cursor = cursor + 1;
        } else if str_eq(f.type_str.as_str(), "int32") || str_eq(f.type_str.as_str(), "int") {
            if 4 <= data.len() - cursor {
                let bytes = vstd::slice::slice_subrange(data, cursor, cursor + 4);
                let u = vstd::bytes::u32_from_le_bytes(bytes);
                let v = u as i32;
                let ghost old_pairs = pairs_view(r@);
                r.push((f.name.clone(), StructValue::Int(v)));
                proof {
                    assert(pairs_view(r@) =~= old_pairs.push((f.name@, StructValue::Int(v))));
                    assert(pairs_view(r@) + spec_decode(fields@.skip(i + 1 as int), data@, cursor + 4, reg, fuel as nat) =~= (old_pairs + before));
                }
                cursor = cursor + 4;
            }
        } else {
            match schemas.get(f.type_str.as_str()) {
                Some(nested) => {
                    if fuel == 0 {
                        proof {
                            assert(before =~= Seq::<(Seq<char>, StructValue)>::empty());
                            assert(pairs_view(r@) + before =~= pairs_view(r@));
                        }
                        return r;
                    }
                    let sub = decode_fields(&nested.fields, data, cursor, schemas, fuel - 1);
                    let ghost sub_spec = spec_decode(nested.fields@, data@, cursor as int, reg, (fuel - 1) as nat);
                    let ghost mapped = sub_spec.map_values(
                        |p: (Seq<char>, StructValue)| (f.name@ + "/"@ + p.0, p.1),
                    );
                    let ghost old_pairs = pairs_view(r@);
                    let mut k: usize = 0;
                    proof {
                        assert(mapped.take(0) =~= Seq::<(Seq<char>, StructValue)>::empty());
                        assert(old_pairs + mapped.take(0) =~= old_pairs);
                    }
                    while k < sub.len()
                        invariant
                            k <= sub@.len(),
                            pairs_view(sub@) == sub_spec,
                            mapped == sub_spec.map_values(
                                |p: (Seq<char>, StructValue)| (f.name@ + "/"@ + p.0, p.1),
                            ),
                            pairs_view(r@) == old_pairs + mapped.take(k as int),
                        decreases sub@.len() - k,
                    {
                        let mut path = f.name.clone();
                        path.append("/");
                        path.append(sub[k].0.as_str());
                        let ghost r_before = pairs_view(r@);
                        r.push((path, sub[k].1));
                        proof {
                            assert(pairs_view(sub@)[k as int] == (sub@[k as int].0@, sub@[k as int].1));
                            assert(pairs_view(r@) =~= r_before.push(mapped[k as int]));
                            assert(mapped.take(k + 1 as int) =~= mapped.take(k as int).push(mapped[k as int]));
                        }
                        k += 1;
                    }
                    proof {
                        assert(mapped.take(sub@.len() as int) =~= mapped);
                    }
                    let consumed = calculate_size(nested, schemas);
                    let ghost new_cursor: int = clamp_usize(cursor as int + consumed as int);
                    if cursor > usize::MAX - consumed {
                        cursor = usize::MAX;
                    } else {
                        cursor = cursor + consumed;
                    }
                    proof {
                        lemma_size_of_fields_nonneg(nested.fields@, reg, reg_fuel(reg));
                        assert(cursor as int == new_cursor);
                        assert(pairs_view(r@) + spec_decode(fields@.skip(i + 1 as int), data@, new_cursor, reg, fuel as nat) =~= old_pairs + (mapped + spec_decode(fields@.skip(i + 1 as int), data@, new_cursor, reg, fuel as nat)));
                    }
                },
                None => {
                    proof {
                        assert(before =~= Seq::<(Seq<char>, StructValue)>::empty());
                        assert(pairs_view(r@) + before =~= pairs_view(r@));
                    }
                    return r;
                },
            }
        }
        i += 1;
    }
    proof {
        assert(fields@.skip(fields@.len() as int) =~= Seq::<SchemaField>::empty());
        assert(pairs_view(r@) + Seq::<(Seq<char>, StructValue)>::empty() =~= pairs_view(r@));
    }
    r
}


/// The little-endian byte layout of one primitive value.
pub open spec fn spec_encode_value(v: StructValue) -> Seq<u8> {
    match v {
        StructValue::Double(b) => vstd::bytes::spec_u64_to_le_bytes(b),
        StructValue::Float(b) => vstd::bytes::spec_u32_to_le_bytes(b),
        StructValue::Boolean(b) => seq![
            if b {
                1u8
            } else {
                0u8
            },
        ],
        StructValue::Int(i) => vstd::bytes::spec_u32_to_le_bytes(i as u32),
    }
}

/// Whether a value's kind is the one a primitive type token declares.
pub open spec fn value_matches_type(t: Seq<char>, v: StructValue) -> bool {
    if t == "double"@ || t == "float64"@ {
        v is Double
    } else if t == "float"@ || t == "float32"@ {
        v is Float
    } else if t == "bool"@ || t == "boolean"@ {
        v is Boolean
    } else if t == "int32"@ || t == "int"@ {
        v is Int
    } else {
        false
    }
}

/// A record of values, one per field, each of its field's primitive
/// kind.
pub open spec fn primitive_record(fields: Seq<SchemaField>, vals: Seq<StructValue>) -> bool {
    fields.len() == vals.len() && forall|i: int|
        0 <= i < fields.len() ==> value_matches_type((#[trigger] fields[i]).type_str@, vals[i])
}

/// The byte layout that encodes `vals` against `fields`, field by
/// field in declaration order.
pub open spec fn spec_encode_record(fields: Seq<SchemaField>, vals: Seq<StructValue>) -> Seq<u8>
    decreases fields.len(),
{
    if fields.len() == 0 {
        Seq::empty()
    } else {
        spec_encode_value(vals[0]) + spec_encode_record(fields.drop_first(), vals.drop_first())
    }
}

/// The names-to-values pairing a faithful decode recovers.
pub open spec fn record_pairs(fields: Seq<SchemaField>, vals: Seq<StructValue>) -> Seq<
    (Seq<char>, StructValue),
> {
    Seq::new(fields.len(), |i: int| (fields[i].name@, vals[i]))
}

/// The primitive type tokens the decoder distinguishes are pairwise
/// distinct character sequences.
proof fn lemma_type_tokens_distinct()
    ensures
        "float"@ != "double"@,
        "float"@ != "float64"@,
        "float32"@ != "double"@,
        "float32"@ != "float64"@,
        "bool"@ != "double"@,
        "bool"@ != "float64"@,
        "bool"@ != "float"@,
        "bool"@ != "float32"@,
        "boolean"@ != "double"@,
        "boolean"@ != "float64"@,
        "boolean"@ != "float"@,
        "boolean"@ != "float32"@,
        "int"@ != "double"@,
        "int"@ != "float64"@,
        "int"@ != "float"@,
        "int"@ != "float32"@,
        "int"@ != "bool"@,
        "int"@ != "boolean"@,
        "int"@ != "int8"@,
        "int"@ != "uint8"@,
        "int"@ != "int16"@,
        "int"@ != "uint16"@,
        "int32"@ != "double"@,
        "int32"@ != "float64"@,
        "int32"@ != "float"@,
        "int32"@ != "float32"@,
        "int32"@ != "bool"@,
        "int32"@ != "boolean"@,
        "int32"@ != "int8"@,
        "int32"@ != "uint8"@,
        "int32"@ != "int16"@,
        "int32"@ != "uint16"@,
{
    reveal_strlit("double");
    reveal_strlit("float64");
    reveal_strlit("float");
    reveal_strlit("float32");
    reveal_strlit("bool");
    reveal_strlit("boolean");
    reveal_strlit("int8");
    reveal_strlit("uint8");
    reveal_strlit("int16");
    reveal_strlit("uint16");
    reveal_strlit("int32");
    reveal_strlit("int");
    assert("double"@.len() == 6);
    assert("float64"@.len() == 7);
    assert("float"@.len() == 5);
    assert("float32"@.len() == 7);
    assert("bool"@.len() == 4);
    assert("boolean"@.len() == 7);
    assert("int8"@.len() == 4);
    assert("uint8"@.len() == 5);
    assert("int16"@.len() == 5);
    assert("uint16"@.len() == 6);
    assert("int32"@.len() == 5);
    assert("int"@.len() == 3);
    assert("float32"@[5] == '3');
    assert("float64"@[5] == '6');
    assert("boolean"@[0] == 'b');
    assert("float64"@[0] == 'f');
    assert("float32"@[0] == 'f');
    assert("float"@[0] == 'f');
    assert("int32"@[0] == 'i');
    assert("uint8"@[0] == 'u');
    assert("int32"@[3] == '3');
    assert("int16"@[3] == '1');
}

/// A primitive record's encoded width equals the schema's field-width
/// sum, whatever the registry and fuel.
pub proof fn lemma_primitive_record_size(
    fields: Seq<SchemaField>,
    vals: Seq<StructValue>,
    reg: Seq<(String, Schema)>,
    fuel: nat,
)
    requires
        primitive_record(fields, vals),
    ensures
        size_of_fields(fields, reg, fuel) == spec_encode_record(fields, vals).len(),
    decreases fields.len(),
{
    lemma_type_tokens_distinct();
    vstd::bytes::lemma_auto_spec_u64_to_from_le_bytes();
    vstd::bytes::lemma_auto_spec_u32_to_from_le_bytes();
    if fields.len() > 0 {
        assert(value_matches_type(fields[0].type_str@, vals[0]));
        match vals[0] {
            StructValue::Double(b) => {
                assert(spec_encode_value(vals[0]).len() == 8);
                assert(spec_type_size(fields[0].type_str@) == 8);
            },
            StructValue::Float(b) => {
                assert(spec_encode_value(vals[0]).len() == 4);
                assert(spec_type_size(fields[0].type_str@) == 4);
            },
            StructValue::Boolean(b) => {
                assert(spec_encode_value(vals[0]).len() == 1);
                assert(spec_type_size(fields[0].type_str@) == 1);
            },
            StructValue::Int(i) => {
                assert(spec_encode_value(vals[0]).len() == 4);
                assert(spec_type_size(fields[0].type_str@) == 4);
            },
        }
        assert(forall|i: int|
            0 <= i < fields.drop_first().len() ==> value_matches_type(
                (#[trigger] fields.drop_first()[i]).type_str@,
                vals.drop_first()[i],
            ));
        lemma_primitive_record_size(fields.drop_first(), vals.drop_first(), reg, fuel);
        assert(spec_encode_record(fields, vals).len() == spec_encode_value(vals[0]).len()
            + spec_encode_record(fields.drop_first(), vals.drop_first()).len());
    }
}

/// Round-trip law, generalized over the record's position: decoding
/// primitive-typed fields from where their encoding lies in `data`
/// recovers exactly the field names paired with the original values,
/// bit-exactly for floating-point values.
pub proof fn lemma_decode_encoded_record(
    fields: Seq<SchemaField>,
    vals: Seq<StructValue>,
    data: Seq<u8>,
    cursor: int,
    reg: Seq<(String, Schema)>,
    fuel: nat,
)
    requires
        primitive_record(fields, vals),
        0 <= cursor,
        cursor + spec_encode_record(fields, vals).len() <= data.len(),
        data.subrange(cursor, cursor + spec_encode_record(fields, vals).len() as int)
            == spec_encode_record(fields, vals),
    ensures
        spec_decode(fields, data, cursor, reg, fuel) == record_pairs(fields, vals),
    decreases fields.len(),
{
    lemma_type_tokens_distinct();
    vstd::bytes::lemma_auto_spec_u64_to_from_le_bytes();
    vstd::bytes::lemma_auto_spec_u32_to_from_le_bytes();
    if fields.len() == 0 {
        assert(spec_decode(fields, data, cursor, reg, fuel) =~= record_pairs(fields, vals));
    } else {
        let enc = spec_encode_record(fields, vals);
        let head = spec_encode_value(vals[0]);
        let w = head.len() as int;
        let rest_fields = fields.drop_first();
        let rest_vals = vals.drop_first();
        let enc_rest = spec_encode_record(rest_fields, rest_vals);
        assert(value_matches_type(fields[0].type_str@, vals[0]));
        match vals[0] {
            StructValue::Double(b) => {
                assert(head.len() == 8);
            },
            StructValue::Float(b) => {
                assert(head.len() == 4);
            },
            StructValue::Boolean(b) => {
                assert(head.len() == 1);
            },
            StructValue::Int(i) => {
                assert(head.len() == 4);
            },
        }
        assert(w >= 1);
        assert(enc.len() == w + enc_rest.len());
        assert(cursor < data.len());
        assert(enc =~= head + enc_rest);
        assert forall|i: int| 0 <= i < w implies data[cursor + i] == head[i] by {
            assert(data.subrange(cursor, cursor + enc.len() as int)[i] == enc[i]);
            assert(enc[i] == head[i]);
        }
        assert(data.subrange(cursor, cursor + w) =~= head);
        assert forall|i: int| 0 <= i < enc_rest.len() implies data[cursor + w + i]
            == enc_rest[i] by {
            assert(data.subrange(cursor, cursor + enc.len() as int)[w + i] == enc[w + i]);
            assert(enc[w + i] == enc_rest[i]);
        }
        assert(data.subrange(cursor + w, cursor + w + enc_rest.len() as int) =~= enc_rest);
        assert(forall|i: int|
            0 <= i < rest_fields.len() ==> value_matches_type(
                (#[trigger] rest_fields[i]).type_str@,
                rest_vals[i],
            ));
        lemma_decode_encoded_record(rest_fields, rest_vals, data, cursor + w, reg, fuel);
        match vals[0] {
            StructValue::Double(b) => {
                assert(vstd::bytes::spec_u64_from_le_bytes(data.subrange(cursor, cursor + 8))
                    == b);
            },
            StructValue::Float(b) => {
                assert(vstd::bytes::spec_u32_from_le_bytes(data.subrange(cursor, cursor + 4))
                    == b);
            },
            StructValue::Boolean(b) => {
                assert(data[cursor] == head[0]);
            },
            StructValue::Int(i) => {
                assert(vstd::bytes::spec_u32_from_le_bytes(data.subrange(cursor, cursor + 4))
                    == i as u32);
                assert(((i as u32) as i32) == i) by (bit_vector);
            },
        }
        assert(spec_decode(fields, data, cursor, reg, fuel) =~= record_pairs(fields, vals));
    }
}

/// Round-trip law: decoding a primitive-only schema's encoded record
/// recovers the original field values exactly.
pub proof fn lemma_primitive_round_trip(
    fields: Seq<SchemaField>,
    vals: Seq<StructValue>,
    reg: Seq<(String, Schema)>,
    fuel: nat,
)
    requires
        primitive_record(fields, vals),
    ensures
        spec_decode(fields, spec_encode_record(fields, vals), 0, reg, fuel) == record_pairs(
            fields,
            vals,
        ),
{
    let enc = spec_encode_record(fields, vals);
    assert(enc.subrange(0, enc.len() as int) =~= enc);
    lemma_decode_encoded_record(fields, vals, enc, 0, reg, fuel);
}

/// Whether a type token is one the decoder reads directly (the other
/// tokens are treated as schema references).
pub open spec fn is_decode_primitive(t: Seq<char>) -> bool {
    t == "double"@ || t == "float64"@ || t == "float"@ || t == "float32"@ || t == "bool"@ || t
        == "boolean"@ || t == "int32"@ || t == "int"@
}

/// Nested round-trip law: a schema with one nested-struct field decodes
/// the nested record to its flattened `outer/inner` paths with the
/// original values, consuming exactly the nested schema's size.
pub proof fn lemma_nested_round_trip(
    outer: Seq<SchemaField>,
    nested: Schema,
    nvals: Seq<StructValue>,
    reg: Seq<(String, Schema)>,
    fuel: nat,
)
    requires
        outer.len() == 1,
        !is_decode_primitive(outer[0].type_str@),
        spec_type_size(outer[0].type_str@) == 0,
        alist_get(reg, outer[0].type_str@) == Some(nested),
        primitive_record(nested.fields@, nvals),
        nvals.len() > 0,
        spec_encode_record(nested.fields@, nvals).len() <= usize::MAX,
        fuel >= 1,
    ensures
        spec_decode(outer, spec_encode_record(nested.fields@, nvals), 0, reg, fuel) == Seq::new(
            nvals.len(),
            |i: int| (outer[0].name@ + "/"@ + nested.fields@[i].name@, nvals[i]),
        ),
{
    let data = spec_encode_record(nested.fields@, nvals);
    assert(data.len() >= 1) by {
        vstd::bytes::lemma_auto_spec_u64_to_from_le_bytes();
        vstd::bytes::lemma_auto_spec_u32_to_from_le_bytes();
        assert(value_matches_type(nested.fields@[0].type_str@, nvals[0]));
        assert(spec_encode_value(nvals[0]).len() >= 1);
    }
    lemma_primitive_round_trip(nested.fields@, nvals, reg, (fuel - 1) as nat);
    lemma_primitive_record_size(nested.fields@, nvals, reg, reg_fuel(reg));
    let sub = spec_decode(nested.fields@, data, 0, reg, (fuel - 1) as nat);
    let name = outer[0].name@;
    let mapped = sub.map_values(|p: (Seq<char>, StructValue)| (name + "/"@ + p.0, p.1));
    assert(spec_decode(outer.drop_first(), data, clamp_usize(0 + clamp_usize(size_of_fields(
        nested.fields@,
        reg,
        reg_fuel(reg),
    ))), reg, fuel) =~= Seq::<(Seq<char>, StructValue)>::empty());
    assert(mapped + Seq::<(Seq<char>, StructValue)>::empty() =~= mapped);
    assert(spec_decode(outer, data, 0, reg, fuel) =~= Seq::new(
        nvals.len(),
        |i: int| (outer[0].name@ + "/"@ + nested.fields@[i].name@, nvals[i]),
    ));
}

} // verus!
