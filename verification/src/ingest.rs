//! The ingest path's decisions: recognizing schema-definition topics,
//! and fanning a struct-typed payload out into the store as one
//! flattened topic update per decoded field.

use crate::float_bits::{f32_bits_to_f64_bits, i32_to_f64_bits, spec_f32_to_f64_bits,
    spec_f64_bits_of_i32};
use crate::log_store::{spec_update_map, lemma_topics_map_update, LogStore, TopicValue, ValueView};
use crate::schema::{clamp_usize, fields_view, pairs_view, reg_fuel, spec_decode,
    spec_parse_fields, fields_size_exact, Schema, SchemaRegistry, StructValue};
use crate::strutil::str_eq;
use vstd::prelude::*;
use vstd::string::{StrSliceExecFns, StringExecFns};

verus! {

/// Whether a topic name carries a schema definition: it starts with the
/// reserved prefix `/.schema/`.
pub open spec fn is_schema_topic(t: Seq<char>) -> bool {
    t.len() >= 9 && t.subrange(0, 9) == "/.schema/"@
}

/// The schema name a schema-definition topic carries: what follows the
/// reserved prefix.
pub open spec fn schema_key_of(t: Seq<char>) -> Seq<char> {
    t.skip(9)
}

/// Strips the reserved `/.schema/` prefix from a topic name, when it is
/// there.
pub fn schema_topic_suffix(topic: &str) -> (r: Option<&str>)
    ensures
        match r {
            Some(s) => is_schema_topic(topic@) && s@ == schema_key_of(topic@),
            None => !is_schema_topic(topic@),
        },
{
    let n = topic.unicode_len();
    if n < 9 {
        return None;
    }
    let head = topic.substring_char(0, 9);
    if str_eq(head, "/.schema/") {
        Some(topic.substring_char(9, n))
    } else {
        None
    }
}

/// If `topic` is a schema-definition topic, parses `definition` and
/// registers the schema under the name the topic carries, replacing any
/// earlier schema of that name; otherwise leaves the registry alone.
pub fn process_schema_topic(registry: &mut SchemaRegistry, topic: &str, definition: &str) -> (r:
    bool)
    requires
        old(registry).wf(),
    ensures
        final(registry).wf(),
        r == is_schema_topic(topic@),
        !is_schema_topic(topic@) ==> *final(registry) == *old(registry),
        is_schema_topic(topic@) ==> {
            let key = schema_key_of(topic@);
            &&& match final(registry).lookup(key) {
                Some(s) => s.name@ == key && fields_view(s.fields@) == spec_parse_fields(
                    definition@,
                ) && s.size == clamp_usize(fields_size_exact(spec_parse_fields(definition@))),
                None => false,
            }
            &&& forall|n: Seq<char>|
                n != key ==> final(registry).lookup(n) == old(registry).lookup(n)
        },
{
    match schema_topic_suffix(topic) {
        Some(suffix) => {
            let key = String::from_str(suffix);
            let schema = Schema::new(key.clone(), definition);
            registry.insert(key, schema);
            true
        },
        None => false,
    }
}

/// The store update a decoded value stands for: doubles keep their bit
/// pattern, floats are widened exactly, booleans pass through, and
/// integers become the double of their value.
pub open spec fn value_as_update(v: StructValue) -> ValueView {
    match v {
        StructValue::Double(b) => ValueView::Double(b),
        StructValue::Float(b) => ValueView::Double(spec_f32_to_f64_bits(b)),
        StructValue::Boolean(b) => ValueView::Boolean(b),
        StructValue::Int(i) => ValueView::Double(spec_f64_bits_of_i32(i as int)),
    }
}

/// Executable form of [`value_as_update`].
fn struct_value_to_update(v: StructValue) -> (r: TopicValue)
    ensures
        r@ == value_as_update(v),
{
    match v {
        StructValue::Double(b) => TopicValue::Double(b),
        StructValue::Float(b) => TopicValue::Double(f32_bits_to_f64_bits(b)),
        StructValue::Boolean(b) => TopicValue::Boolean(b),
        StructValue::Int(i) => TopicValue::Double(i32_to_f64_bits(i)),
    }
}

/// What writing the decoded fields does to the topic map: each pair in
/// order updates the topic `<prefix>/<path>` with its value's update.
pub open spec fn apply_struct_updates(
    m: Map<Seq<char>, crate::log_store::TopicDataView>,
    prefix: Seq<char>,
    t: u64,
    pairs: Seq<(Seq<char>, StructValue)>,
) -> Map<Seq<char>, crate::log_store::TopicDataView>
    decreases pairs.len(),
{
    if pairs.len() == 0 {
        m
    } else {
        let path = prefix + "/"@ + pairs[0].0;
        apply_struct_updates(
            spec_update_map(m, path, t, value_as_update(pairs[0].1)),
            prefix,
            t,
            pairs.drop_first(),
        )
    }
}

/// The decoded pairs a struct payload yields against the registry: the
/// record decoded against the schema registered under
/// `struct:<struct_name>`, or nothing while that schema has not arrived.
pub open spec fn struct_pairs_of(
    reg: SchemaRegistry,
    struct_name: Seq<char>,
    data: Seq<u8>,
) -> Seq<(Seq<char>, StructValue)> {
    match reg.lookup("struct:"@ + struct_name) {
        Some(schema) => spec_decode(schema.fields@, data, 0, reg.entries@, reg_fuel(reg.entries@)),
        None => Seq::empty(),
    }
}

/// Ingests one struct-typed payload: stores the raw bytes under the
/// topic itself, labels the topic `struct:<name>`, and, when the
/// schema named `struct:<name>` is registered, decodes the record and
/// writes each flattened field as its own topic update.
pub fn ingest_struct(
    store: &mut LogStore,
    registry: &SchemaRegistry,
    topic: &str,
    struct_name: &str,
    timestamp: u64,
    data: &[u8],
) -> (wrote: usize)
    requires
        old(store).wf(),
        registry.entries@.len() < usize::MAX,
    ensures
        final(store).wf(),
        final(store).generation == old(store).generation,
        final(store).topics_map() == apply_struct_updates(
            spec_update_map(old(store).topics_map(), topic@, timestamp, ValueView::Raw(data@)),
            topic@,
            timestamp,
            struct_pairs_of(*registry, struct_name@, data@),
        ),
        final(store).type_label(topic@) == Some("struct:"@ + struct_name@),
        forall|n: Seq<char>|
            n != topic@ ==> final(store).type_label(n) == old(store).type_label(n),
        wrote == struct_pairs_of(*registry, struct_name@, data@).len(),
{
    let ghost pairs = struct_pairs_of(*registry, struct_name@, data@);
    let mut raw: Vec<u8> = Vec::new();
    let mut bi: usize = 0;
    while bi < data.len()
        invariant
            bi <= data@.len(),
            raw@ == data@.take(bi as int),
        decreases data@.len() - bi,
    {
        raw.push(*vstd::slice::slice_index_get(data, bi));
        proof {
            assert(data@.take(bi + 1 as int) =~= data@.take(bi as int).push(data@[bi as int]));
        }
        bi += 1;
    }
    proof {
        assert(data@.take(data@.len() as int) =~= data@);
    }
    store.update_raw(String::from_str(topic), timestamp, raw);
    proof {
        lemma_topics_map_update(
            *old(store),
            *store,
            topic@,
            timestamp,
            ValueView::Raw(data@),
        );
    }
    let mut label = String::from_str("struct:");
    label.append(struct_name);
    let key = label.clone();
    store.set_type(String::from_str(topic), label);
    let ghost base = spec_update_map(
        old(store).topics_map(),
        topic@,
        timestamp,
        ValueView::Raw(data@),
    );
    proof {
        assert(store.topics_map() =~= base);
    }
    match registry.get(key.as_str()) {
        Some(schema) => {
            let decoded = crate::schema::decode_struct(schema, data, registry);
            proof {
                assert(pairs_view(decoded@) == pairs);
            }
            let mut k: usize = 0;
            proof {
                assert(pairs.skip(0) =~= pairs);
            }
            while k < decoded.len()
                invariant
                    k <= decoded@.len(),
                    store.wf(),
                    pairs_view(decoded@) == pairs,
                    store.generation == old(store).generation,
                    store.type_label(topic@) == Some("struct:"@ + struct_name@),
                    forall|n: Seq<char>|
                        n != topic@ ==> store.type_label(n) == old(store).type_label(n),
                    apply_struct_updates(store.topics_map(), topic@, timestamp, pairs.skip(
                        k as int,
                    )) == apply_struct_updates(base, topic@, timestamp, pairs),
                decreases decoded@.len() - k,
            {
                proof {
                    assert(pairs.skip(k as int)[0] == pairs[k as int]);
                    assert(pairs.skip(k as int).drop_first() =~= pairs.skip(k + 1 as int));
                }
                let mut path = String::from_str(topic);
                path.append("/");
                path.append(decoded[k].0.as_str());
                let ghost path_view = path@;
                let ghost pre = *store;
                let upd = struct_value_to_update(decoded[k].1);
                store.apply_update(path, timestamp, upd);
                proof {
                    assert(path_view == topic@ + "/"@ + pairs[k as int].0);
                    lemma_topics_map_update(pre, *store, path_view, timestamp, upd@);
                }
                k += 1;
            }
            proof {
                assert(pairs.skip(decoded@.len() as int) =~= Seq::<
                    (Seq<char>, StructValue),
                >::empty());
            }
            decoded.len()
        },
        None => {
            proof {
                assert(pairs =~= Seq::<(Seq<char>, StructValue)>::empty());
            }
            0
        },
    }
}


/// The float coercion applied when a column's elements become a double
/// array: doubles keep their bits, floats widen, integers convert,
/// booleans yield nothing.
pub open spec fn as_f64_bits(v: StructValue) -> Option<u64> {
    match v {
        StructValue::Double(b) => Some(b),
        StructValue::Float(b) => Some(spec_f32_to_f64_bits(b)),
        StructValue::Int(i) => Some(spec_f64_bits_of_i32(i as int)),
        StructValue::Boolean(_) => None,
    }
}

/// The boolean coercion: only a boolean yields a value.
pub open spec fn as_bool_val(v: StructValue) -> Option<bool> {
    match v {
        StructValue::Boolean(b) => Some(b),
        _ => None,
    }
}

/// The double bits of a column, keeping the values the coercion admits.
pub open spec fn collect_f64_bits(vs: Seq<StructValue>) -> Seq<u64>
    decreases vs.len(),
{
    if vs.len() == 0 {
        Seq::empty()
    } else {
        match as_f64_bits(vs[0]) {
            Some(b) => seq![b] + collect_f64_bits(vs.drop_first()),
            None => collect_f64_bits(vs.drop_first()),
        }
    }
}

/// The booleans of a column, keeping the values the coercion admits.
pub open spec fn collect_bools(vs: Seq<StructValue>) -> Seq<bool>
    decreases vs.len(),
{
    if vs.len() == 0 {
        Seq::empty()
    } else {
        match as_bool_val(vs[0]) {
            Some(b) => seq![b] + collect_bools(vs.drop_first()),
            None => collect_bools(vs.drop_first()),
        }
    }
}

/// Appends one decoded value to its field's column, creating the column
/// at the end on first sight.
pub open spec fn soa_insert(
    cols: Seq<(Seq<char>, Seq<StructValue>)>,
    name: Seq<char>,
    v: StructValue,
) -> Seq<(Seq<char>, Seq<StructValue>)>
    decreases cols.len(),
{
    if cols.len() == 0 {
        seq![(name, seq![v])]
    } else if cols[0].0 == name {
        seq![(cols[0].0, cols[0].1.push(v))] + cols.drop_first()
    } else {
        seq![cols[0]] + soa_insert(cols.drop_first(), name, v)
    }
}

/// One record's pairs, folded into the columns in order.
pub open spec fn soa_add_pairs(
    cols: Seq<(Seq<char>, Seq<StructValue>)>,
    pairs: Seq<(Seq<char>, StructValue)>,
) -> Seq<(Seq<char>, Seq<StructValue>)>
    decreases pairs.len(),
{
    if pairs.len() == 0 {
        cols
    } else {
        soa_add_pairs(soa_insert(cols, pairs[0].0, pairs[0].1), pairs.drop_first())
    }
}

/// The structure-of-arrays decode of the first `n` fixed-size records
/// of `data`: record `i` occupies bytes `[i*size, (i+1)*size)`.
pub open spec fn soa_of_records(
    schema: Schema,
    data: Seq<u8>,
    size: int,
    n: int,
    reg: Seq<(String, Schema)>,
) -> Seq<(Seq<char>, Seq<StructValue>)>
    decreases n,
{
    if n <= 0 {
        Seq::empty()
    } else {
        soa_add_pairs(
            soa_of_records(schema, data, size, n - 1, reg),
            spec_decode(
                schema.fields@,
                data.subrange((n - 1) * size, n * size),
                0,
                reg,
                reg_fuel(reg),
            ),
        )
    }
}

/// How many whole records a buffer holds.
pub open spec fn record_count(data_len: int, size: int) -> int {
    if size <= 0 {
        0
    } else {
        data_len / size
    }
}

/// The array update a column yields: the element kind is inferred from
/// the first decoded value; float-like columns become one double-array
/// update, boolean columns one boolean-array update, other kinds are
/// dropped.
pub open spec fn column_update(vs: Seq<StructValue>) -> Option<ValueView> {
    if vs.len() == 0 {
        None
    } else {
        match vs[0] {
            StructValue::Double(_) => Some(ValueView::DoubleArray(collect_f64_bits(vs))),
            StructValue::Float(_) => Some(ValueView::DoubleArray(collect_f64_bits(vs))),
            StructValue::Boolean(_) => Some(ValueView::BooleanArray(collect_bools(vs))),
            StructValue::Int(_) => None,
        }
    }
}

/// What writing the columns does to the topic map: each column in order
/// updates the topic `<prefix>/<field>` with its array, when its kind
/// admits one.
pub open spec fn apply_column_updates(
    m: Map<Seq<char>, crate::log_store::TopicDataView>,
    prefix: Seq<char>,
    t: u64,
    cols: Seq<(Seq<char>, Seq<StructValue>)>,
) -> Map<Seq<char>, crate::log_store::TopicDataView>
    decreases cols.len(),
{
    if cols.len() == 0 {
        m
    } else {
        let m2 = match column_update(cols[0].1) {
            Some(v) => spec_update_map(m, prefix + "/"@ + cols[0].0, t, v),
            None => m,
        };
        apply_column_updates(m2, prefix, t, cols.drop_first())
    }
}

/// The columns a struct-array payload yields against the registry, or
/// nothing while the schema has not arrived or its size is unresolved.
pub open spec fn struct_array_columns(
    reg: SchemaRegistry,
    struct_name: Seq<char>,
    data: Seq<u8>,
) -> Seq<(Seq<char>, Seq<StructValue>)> {
    match reg.lookup("struct:"@ + struct_name) {
        Some(schema) => {
            let size = clamp_usize(
                crate::schema::size_of_fields(schema.fields@, reg.entries@, reg_fuel(reg.entries@)),
            );
            soa_of_records(schema, data, size, record_count(data.len() as int, size), reg.entries@)
        },
        None => Seq::empty(),
    }
}

/// The `(path, values)` views of a column vector.
pub open spec fn cols_view(s: Seq<(String, Vec<StructValue>)>) -> Seq<(Seq<char>, Seq<StructValue>)> {
    s.map_values(|p: (String, Vec<StructValue>)| (p.0@, p.1@))
}

/// Replacing the column at a name's first occurrence is what
/// [`soa_insert`] does there.
proof fn lemma_soa_insert_at(
    cols: Seq<(Seq<char>, Seq<StructValue>)>,
    j: int,
    name: Seq<char>,
    v: StructValue,
)
    requires
        0 <= j < cols.len(),
        cols[j].0 == name,
        forall|k: int| 0 <= k < j ==> cols[k].0 != name,
    ensures
        soa_insert(cols, name, v) =~= cols.update(j, (cols[j].0, cols[j].1.push(v))),
    decreases j,
{
    if j == 0 {
        assert(soa_insert(cols, name, v) =~= seq![(cols[0].0, cols[0].1.push(v))]
            + cols.drop_first());
    } else {
        lemma_soa_insert_at(cols.drop_first(), j - 1, name, v);
        assert(cols.drop_first().update(j - 1, (cols[j].0, cols[j].1.push(v))) =~= cols.update(
            j,
            (cols[j].0, cols[j].1.push(v)),
        ).drop_first());
    }
}

/// Appending a fresh column is what [`soa_insert`] does for an unseen
/// name.
proof fn lemma_soa_insert_absent(
    cols: Seq<(Seq<char>, Seq<StructValue>)>,
    name: Seq<char>,
    v: StructValue,
)
    requires
        forall|k: int| 0 <= k < cols.len() ==> cols[k].0 != name,
    ensures
        soa_insert(cols, name, v) =~= cols.push((name, seq![v])),
    decreases cols.len(),
{
    if cols.len() > 0 {
        lemma_soa_insert_absent(cols.drop_first(), name, v);
        assert(cols.push((name, seq![v])).drop_first() =~= cols.drop_first().push(
            (name, seq![v]),
        ));
    }
}

/// Finds a column by name, scanning front to back.
fn find_column(cols: &Vec<(String, Vec<StructValue>)>, name: &str) -> (r: Option<usize>)
    ensures
        match r {
            Some(j) => j < cols@.len() && cols@[j as int].0@ == name@ && (forall|k: int|
                0 <= k < j ==> cols@[k].0@ != name@),
            None => forall|k: int| 0 <= k < cols@.len() ==> cols@[k].0@ != name@,
        },
{
    let mut j: usize = 0;
    while j < cols.len()
        invariant
            j <= cols@.len(),
            forall|k: int| 0 <= k < j ==> cols@[k].0@ != name@,
        decreases cols@.len() - j,
    {
        if str_eq(cols[j].0.as_str(), name) {
            return Some(j);
        }
        j += 1;
    }
    None
}

/// Executable form of [`as_f64_bits`].
fn value_f64_bits(v: StructValue) -> (r: Option<u64>)
    ensures
        r == as_f64_bits(v),
{
    match v {
        StructValue::Double(b) => Some(b),
        StructValue::Float(b) => Some(f32_bits_to_f64_bits(b)),
        StructValue::Int(i) => Some(i32_to_f64_bits(i)),
        StructValue::Boolean(_) => None,
    }
}

/// Ingests one struct-array payload: stores the raw bytes under the
/// topic itself, labels the topic `struct:<name>[]`, and, when the
/// schema named `struct:<name>` is registered with a resolvable size,
/// decodes the whole records into one column per flattened field and
/// writes each column as a single array-typed update.
pub fn ingest_struct_array(
    store: &mut LogStore,
    registry: &SchemaRegistry,
    topic: &str,
    struct_name: &str,
    timestamp: u64,
    data: &[u8],
)
    requires
        old(store).wf(),
        registry.entries@.len() < usize::MAX,
    ensures
        final(store).wf(),
        final(store).generation == old(store).generation,
        final(store).topics_map() == apply_column_updates(
            spec_update_map(old(store).topics_map(), topic@, timestamp, ValueView::Raw(data@)),
            topic@,
            timestamp,
            struct_array_columns(*registry, struct_name@, data@),
        ),
        final(store).type_label(topic@) == Some("struct:"@ + struct_name@ + "[]"@),
        forall|n: Seq<char>|
            n != topic@ ==> final(store).type_label(n) == old(store).type_label(n),
{
    let ghost columns = struct_array_columns(*registry, struct_name@, data@);
    let mut raw: Vec<u8> = Vec::new();
    let mut bi: usize = 0;
    while bi < data.len()
        invariant
            bi <= data@.len(),
            raw@ == data@.take(bi as int),
        decreases data@.len() - bi,
    {
        raw.push(*vstd::slice::slice_index_get(data, bi));
        proof {
            assert(data@.take(bi + 1 as int) =~= data@.take(bi as int).push(data@[bi as int]));
        }
        bi += 1;
    }
    proof {
        assert(data@.take(data@.len() as int) =~= data@);
    }
    store.update_raw(String::from_str(topic), timestamp, raw);
    proof {
        lemma_topics_map_update(*old(store), *store, topic@, timestamp, ValueView::Raw(data@));
    }
    let mut key = String::from_str("struct:");
    key.append(struct_name);
    let mut label = key.clone();
    label.append("[]");
    store.set_type(String::from_str(topic), label);
    let ghost base = spec_update_map(
        old(store).topics_map(),
        topic@,
        timestamp,
        ValueView::Raw(data@),
    );
    proof {
        assert(store.topics_map() =~= base);
    }
    match registry.get(key.as_str()) {
        Some(schema) => {
            let ghost reg = registry.entries@;
            let size = crate::schema::calculate_size(schema, registry);
            let ghost n_total: int = record_count(data@.len() as int, size as int);
            let mut cols: Vec<(String, Vec<StructValue>)> = Vec::new();
            let mut cursor: usize = 0;
            let ghost mut rec: int = 0;
            proof {
                assert(cols_view(cols@) =~= soa_of_records(
                    *schema,
                    data@,
                    size as int,
                    0,
                    reg,
                ));
            }
            if size > 0 {
                while cursor < data.len() && size <= data.len() - cursor
                    invariant
                        0 < size,
                        cursor <= data@.len(),
                        cursor == rec * size,
                        rec >= 0,
                        reg == registry.entries@,
                        reg.len() < usize::MAX,
                        cols_view(cols@) == soa_of_records(*schema, data@, size as int, rec, reg),
                        size as int == clamp_usize(crate::schema::size_of_fields(
                            schema.fields@,
                            reg,
                            reg_fuel(reg),
                        )),
                    decreases data@.len() - cursor,
                {
                    let record = vstd::slice::slice_subrange(data, cursor, cursor + size);
                    let decoded = crate::schema::decode_struct(schema, record, registry);
                    let ghost pairs = pairs_view(decoded@);
                    let ghost cols0 = cols_view(cols@);
                    let mut k: usize = 0;
                    proof {
                        assert(pairs.skip(0) =~= pairs);
                    }
                    while k < decoded.len()
                        invariant
                            k <= decoded@.len(),
                            pairs == pairs_view(decoded@),
                            soa_add_pairs(cols_view(cols@), pairs.skip(k as int))
                                == soa_add_pairs(cols0, pairs),
                        decreases decoded@.len() - k,
                    {
                        proof {
                            assert(pairs.skip(k as int)[0] == pairs[k as int]);
                            assert(pairs.skip(k as int).drop_first() =~= pairs.skip(k + 1 as int));
                        }
                        let ghost pre_cols = cols_view(cols@);
                        let name_ref = decoded[k].0.as_str();
                        match find_column(&cols, name_ref) {
                            Some(j) => {
                                proof {
                                    lemma_soa_insert_at(
                                        pre_cols,
                                        j as int,
                                        pairs[k as int].0,
                                        pairs[k as int].1,
                                    );
                                }
                                let entry = &mut cols[j];
                                entry.1.push(decoded[k].1);
                                proof {
                                    assert(cols_view(cols@) =~= pre_cols.update(
                                        j as int,
                                        (pre_cols[j as int].0, pre_cols[j as int].1.push(
                                            pairs[k as int].1,
                                        )),
                                    ));
                                }
                            },
                            None => {
                                proof {
                                    lemma_soa_insert_absent(
                                        pre_cols,
                                        pairs[k as int].0,
                                        pairs[k as int].1,
                                    );
                                }
                                let name = decoded[k].0.clone();
                                let mut col: Vec<StructValue> = Vec::new();
                                col.push(decoded[k].1);
                                cols.push((name, col));
                                proof {
                                    assert(col@ =~= seq![pairs[k as int].1]);
                                    assert(cols_view(cols@) =~= pre_cols.push(
                                        (pairs[k as int].0, seq![pairs[k as int].1]),
                                    ));
                                }
                            },
                        }
                        k += 1;
                    }
                    proof {
                        assert(pairs.skip(decoded@.len() as int) =~= Seq::<
                            (Seq<char>, StructValue),
                        >::empty());
                        assert((rec + 1) * size == rec * size + size) by (nonlinear_arith);
                        assert(record@ == data@.subrange(rec * size, (rec + 1) * size));
                        assert(soa_add_pairs(cols_view(cols@), Seq::<
                            (Seq<char>, StructValue),
                        >::empty()) == cols_view(cols@));
                        assert(cols_view(cols@) == soa_add_pairs(
                            soa_of_records(*schema, data@, size as int, rec, reg),
                            spec_decode(
                                schema.fields@,
                                data@.subrange(rec * size, (rec + 1) * size),
                                0,
                                reg,
                                reg_fuel(reg),
                            ),
                        ));
                    }
                    cursor = cursor + size;
                    proof {
                        rec = rec + 1;
                        assert(cols_view(cols@) == soa_of_records(
                            *schema,
                            data@,
                            size as int,
                            rec,
                            reg,
                        ));
                    }
                }
                proof {
                    if cursor >= data@.len() {
                        assert(cursor == data@.len());
                        vstd::arithmetic::div_mod::lemma_fundamental_div_mod_converse(
                            data@.len() as int,
                            size as int,
                            rec,
                            0,
                        );
                    } else {
                        vstd::arithmetic::div_mod::lemma_fundamental_div_mod_converse(
                            data@.len() as int,
                            size as int,
                            rec,
                            data@.len() - cursor,
                        );
                    }
                    assert(rec == n_total);
                }
            } else {
                proof {
                    assert(rec == n_total);
                }
            }
            proof {
                assert(cols_view(cols@) == columns);
                assert(columns.skip(0) =~= columns);
            }
            let ghost colsv = cols_view(cols@);
            let mut j: usize = 0;
            while j < cols.len()
                invariant
                    j <= cols@.len(),
                    store.wf(),
                    colsv == cols_view(cols@),
                    store.generation == old(store).generation,
                    store.type_label(topic@) == Some("struct:"@ + struct_name@ + "[]"@),
                    forall|n: Seq<char>|
                        n != topic@ ==> store.type_label(n) == old(store).type_label(n),
                    apply_column_updates(store.topics_map(), topic@, timestamp, colsv.skip(
                        j as int,
                    )) == apply_column_updates(base, topic@, timestamp, colsv),
                decreases cols@.len() - j,
            {
                proof {
                    assert(colsv.skip(j as int)[0] == colsv[j as int]);
                    assert(colsv.skip(j as int).drop_first() =~= colsv.skip(j + 1 as int));
                }
                let col_len = cols[j].1.len();
                if col_len > 0 {
                    let first = cols[j].1[0];
                    match first {
                        StructValue::Double(_) | StructValue::Float(_) => {
                            let ghost vs = colsv[j as int].1;
                            let mut arr: Vec<u64> = Vec::new();
                            let mut k: usize = 0;
                            proof {
                                assert(vs.skip(0) =~= vs);
                                assert(arr@ + collect_f64_bits(vs) =~= collect_f64_bits(vs));
                            }
                            while k < cols[j].1.len()
                                invariant
                                    j < cols@.len(),
                                    k <= vs.len(),
                                    vs == cols_view(cols@)[j as int].1,
                                    colsv == cols_view(cols@),
                                    arr@ + collect_f64_bits(vs.skip(k as int))
                                        == collect_f64_bits(vs),
                                decreases vs.len() - k,
                            {
                                proof {
                                    assert(vs.skip(k as int)[0] == vs[k as int]);
                                    assert(vs.skip(k as int).drop_first() =~= vs.skip(
                                        k + 1 as int,
                                    ));
                                }
                                let ghost arr0 = arr@;
                                match value_f64_bits(cols[j].1[k]) {
                                    Some(b) => {
                                        arr.push(b);
                                        proof {
                                            assert(arr@ + collect_f64_bits(vs.skip(k + 1 as int))
                                                =~= arr0 + (seq![b] + collect_f64_bits(
                                                vs.skip(k + 1 as int),
                                            )));
                                        }
                                    },
                                    None => {},
                                }
                                k += 1;
                            }
                            proof {
                                assert(vs.skip(vs.len() as int) =~= Seq::<StructValue>::empty());
                                assert(arr@ + Seq::<u64>::empty() =~= arr@);
                            }
                            let mut path = String::from_str(topic);
                            path.append("/");
                            path.append(cols[j].0.as_str());
                            let ghost pre = *store;
                            let ghost pv = path@;
                            store.update_double_array(path, timestamp, arr);
                            proof {
                                assert(pv == topic@ + "/"@ + colsv[j as int].0);
                                lemma_topics_map_update(
                                    pre,
                                    *store,
                                    pv,
                                    timestamp,
                                    ValueView::DoubleArray(collect_f64_bits(vs)),
                                );
                            }
                        },
                        StructValue::Boolean(_) => {
                            let ghost vs = colsv[j as int].1;
                            let mut arr: Vec<bool> = Vec::new();
                            let mut k: usize = 0;
                            proof {
                                assert(vs.skip(0) =~= vs);
                                assert(arr@ + collect_bools(vs) =~= collect_bools(vs));
                            }
                            while k < cols[j].1.len()
                                invariant
                                    j < cols@.len(),
                                    k <= vs.len(),
                                    vs == cols_view(cols@)[j as int].1,
                                    colsv == cols_view(cols@),
                                    arr@ + collect_bools(vs.skip(k as int)) == collect_bools(vs),
                                decreases vs.len() - k,
                            {
                                proof {
                                    assert(vs.skip(k as int)[0] == vs[k as int]);
                                    assert(vs.skip(k as int).drop_first() =~= vs.skip(
                                        k + 1 as int,
                                    ));
                                }
                                let ghost arr0 = arr@;
                                match cols[j].1[k] {
                                    StructValue::Boolean(b) => {
                                        arr.push(b);
                                        proof {
                                            assert(arr@ + collect_bools(vs.skip(k + 1 as int))
                                                =~= arr0 + (seq![b] + collect_bools(
                                                vs.skip(k + 1 as int),
                                            )));
                                        }
                                    },
                                    _ => {},
                                }
                                k += 1;
                            }
                            proof {
                                assert(vs.skip(vs.len() as int) =~= Seq::<StructValue>::empty());
                                assert(arr@ + Seq::<bool>::empty() =~= arr@);
                            }
                            let mut path = String::from_str(topic);
                            path.append("/");
                            path.append(cols[j].0.as_str());
                            let ghost pre = *store;
                            let ghost pv = path@;
                            store.update_boolean_array(path, timestamp, arr);
                            proof {
                                assert(pv == topic@ + "/"@ + colsv[j as int].0);
                                lemma_topics_map_update(
                                    pre,
                                    *store,
                                    pv,
                                    timestamp,
                                    ValueView::BooleanArray(collect_bools(vs)),
                                );
                            }
                        },
                        StructValue::Int(_) => {},
                    }
                }
                j += 1;
            }
            proof {
                assert(colsv.skip(cols@.len() as int) =~= Seq::<
                    (Seq<char>, Seq<StructValue>),
                >::empty());
            }
        },
        None => {
            proof {
                assert(columns =~= Seq::<(Seq<char>, Seq<StructValue>)>::empty());
            }
        },
    }
}

} // verus!
