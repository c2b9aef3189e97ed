//! Crate-level laws: the full-database serialization round trip, and
//! the agreement of the eager and lazy facades over one file image.

use crate::database::{
    spec_assoc_contains, spec_assoc_insert, spec_assoc_insert_all, spec_assoc_map,
    spec_bodies_len, spec_database_encode, spec_db_bodies, spec_db_encodable, spec_db_mappings,
    spec_find_mapping, spec_lazy_parse_object, spec_object_encodable, spec_object_of_raw,
    spec_object_padded_len, spec_objects_of_raw_pairs, spec_raw_of_object, spec_unique_ids,
    spec_v1_extra, lemma_assoc_map_dom, lemma_assoc_map_index, lemma_find_mapping,
    LazyParsingError, ObjectModel,
};
use crate::header::{
    lemma_header_decode_prefix, lemma_header_round_trip, spec_header_decode, spec_partial_version,
    HeaderModel,
};
use crate::object::{
    lemma_concat_len, lemma_raw_object_decode_local, lemma_raw_object_round_trip,
    spec_raw_object_decode, spec_raw_object_encode, RawObjectModel,
};
use crate::object_map::{
    lemma_map_decode_prefix, lemma_map_encode_len, lemma_map_round_trip, spec_map_decode,
    spec_map_encode, spec_mapping_decode, ObjectMapping,
};
use crate::raw_database_file::{
    spec_database_decode, spec_parse_v1, spec_parse_v1_headers, spec_parse_v1_objects,
    DatabaseParseError, RawDatabaseModel,
};
use crate::wire::{lemma_align16, lemma_u64_be_bytes_value, spec_align16, spec_u64_from_be_bytes};
use vstd::prelude::*;

verus! {

/// Body lengths are unchanged by dropping objects past the measured
/// prefix.
proof fn lemma_bodies_len_drop_last(objs: Seq<(u64, ObjectModel)>, k: int)
    requires
        0 <= k < objs.len(),
    ensures
        spec_bodies_len(objs.drop_last(), k) == spec_bodies_len(objs, k),
    decreases k,
{
    if k > 0 {
        lemma_bodies_len_drop_last(objs, k - 1);
    }
}

/// The concatenated bodies of encodable objects occupy exactly the
/// summed footprints.
proof fn lemma_db_bodies_len(objs: Seq<(u64, ObjectModel)>)
    requires
        forall|i: int| 0 <= i < objs.len() ==> spec_object_encodable((#[trigger] objs[i]).1),
    ensures
        spec_db_bodies(objs).len() == spec_bodies_len(objs, objs.len() as int),
    decreases objs.len(),
{
    if objs.len() > 0 {
        let n = objs.len() as int;
        lemma_db_bodies_len(objs.drop_last());
        lemma_bodies_len_drop_last(objs, n - 1);
        let m = objs[n - 1].1;
        assert(spec_object_encodable(m));
        lemma_concat_len(m.data, m.entry_size as int);
        lemma_align16(16 + m.data.len() * (m.entry_size as int));
    }
}

/// Object `i`'s encoded body occupies bytes `spec_bodies_len(objs, i)`
/// up to `spec_bodies_len(objs, i + 1)` of the concatenated bodies.
proof fn lemma_db_bodies_slice(objs: Seq<(u64, ObjectModel)>, i: int)
    requires
        forall|k: int| 0 <= k < objs.len() ==> spec_object_encodable((#[trigger] objs[k]).1),
        0 <= i < objs.len(),
    ensures
        spec_bodies_len(objs, i + 1) <= spec_db_bodies(objs).len(),
        spec_db_bodies(objs).subrange(spec_bodies_len(objs, i), spec_bodies_len(objs, i + 1))
            == spec_raw_object_encode(spec_raw_of_object(objs[i].1)),
    decreases objs.len(),
{
    let n = objs.len() as int;
    lemma_db_bodies_len(objs);
    crate::database::lemma_bodies_len_bounds(objs, i);
    crate::database::lemma_bodies_len_bounds(objs, i + 1);
    let m = objs[i].1;
    assert(spec_object_encodable(m));
    lemma_concat_len(m.data, m.entry_size as int);
    lemma_align16(16 + m.data.len() * (m.entry_size as int));
    if i == n - 1 {
        lemma_db_bodies_len(objs.drop_last());
        lemma_bodies_len_drop_last(objs, n - 1);
        assert(spec_db_bodies(objs).subrange(
            spec_bodies_len(objs, i),
            spec_bodies_len(objs, i + 1),
        ) =~= spec_raw_object_encode(spec_raw_of_object(objs[i].1)));
    } else {
        lemma_db_bodies_slice(objs.drop_last(), i);
        lemma_bodies_len_drop_last(objs, i);
        lemma_bodies_len_drop_last(objs, i + 1);
        lemma_db_bodies_len(objs.drop_last());
        assert(objs.drop_last()[i] == objs[i]);
        assert(spec_db_bodies(objs).subrange(
            spec_bodies_len(objs, i),
            spec_bodies_len(objs, i + 1),
        ) =~= spec_db_bodies(objs.drop_last()).subrange(
            spec_bodies_len(objs.drop_last(), i),
            spec_bodies_len(objs.drop_last(), i + 1),
        ));
    }
}

/// When every mapped offset is in range and decodes, parsing the
/// objects of the first `k` mappings succeeds and yields the decoded
/// pairs in order.
proof fn lemma_parse_objects_all_ok(b: Seq<u8>, ms: Seq<ObjectMapping>, k: int)
    requires
        0 <= k <= ms.len(),
        forall|i: int|
            0 <= i < ms.len() ==> (#[trigger] ms[i]).offset < b.len() && spec_raw_object_decode(
                b.skip(ms[i].offset as int),
            ) is Ok,
    ensures
        spec_parse_v1_objects(b, ms.take(k)) == Ok::<Seq<(u64, RawObjectModel)>,
        DatabaseParseError>(
            Seq::new(
                k as nat,
                |i: int|
                    (ms[i].id, spec_raw_object_decode(b.skip(ms[i].offset as int)).unwrap()),
            ),
        ),
    decreases k,
{
    if k == 0 {
        assert(ms.take(0).len() == 0);
        assert(Seq::new(0, |i: int| (ms[i].id, spec_raw_object_decode(
            b.skip(ms[i].offset as int),
        ).unwrap())) =~= Seq::<(u64, RawObjectModel)>::empty());
    } else {
        lemma_parse_objects_all_ok(b, ms, k - 1);
        let pre = ms.take(k - 1);
        let post = ms.take(k);
        assert(post.drop_last() =~= pre);
        assert(post.last() == ms[k - 1]);
        assert(spec_parse_v1_objects(b, post) matches Ok(s) && s =~= Seq::new(
            k as nat,
            |i: int| (ms[i].id, spec_raw_object_decode(b.skip(ms[i].offset as int)).unwrap()),
        ));
    }
}

/// The serialized image is laid out as header, map, bodies; its header
/// and map regions parse back to the written values.
proof fn lemma_encoded_layout(objs: Seq<(u64, ObjectModel)>, db_version: u64, timestamp: u64)
    requires
        spec_db_encodable(objs),
    ensures
        ({
            let n = objs.len() as int;
            let b = spec_database_encode(objs, db_version, timestamp);
            let maps = spec_db_mappings(objs, 48 + 16 * n);
            &&& b.len() == 48 + 16 * n + spec_bodies_len(objs, n)
            &&& b.len() % 16 == 0
            &&& spec_partial_version(b) == Ok::<u32, crate::header::HeaderDecodeError>(1u32)
            &&& spec_parse_v1_headers(b) == Ok::<(HeaderModel, Seq<ObjectMapping>),
            DatabaseParseError>(
                (
                    HeaderModel {
                        version: 1,
                        number_of_objects: objs.len() as u64,
                        header_len: 48,
                        extra_data: spec_v1_extra(timestamp, db_version) + Seq::new(
                            12,
                            |i: int| 0u8,
                        ),
                    },
                    maps,
                ),
            )
            &&& forall|i: int|
                0 <= i < n ==> (#[trigger] maps[i]).offset == 48 + 16 * n + spec_bodies_len(
                    objs,
                    i,
                ) && maps[i].offset % 16 == 0 && maps[i].id == objs[i].0
        }),
{
    let n = objs.len() as int;
    let extra = spec_v1_extra(timestamp, db_version);
    lemma_u64_be_bytes_value(timestamp);
    lemma_u64_be_bytes_value(db_version);
    assert(extra.len() == 16);
    lemma_align16(36);
    let count = objs.len() as u64;
    let hb = crate::header::spec_header_encode(1, count, extra);
    lemma_header_round_trip(count, extra);
    assert(hb.len() == 48);
    let base = 48 + 16 * n;
    let maps = spec_db_mappings(objs, base);
    let mb = spec_map_encode(maps);
    let bodies = spec_db_bodies(objs);
    let b = spec_database_encode(objs, db_version, timestamp);
    assert(b == hb + mb + bodies);
    lemma_map_encode_len(maps);
    lemma_db_bodies_len(objs);
    crate::database::lemma_bodies_len_bounds(objs, n);
    assert(16 * n % 16 == 0) by (nonlinear_arith);
    assert forall|i: int| 0 <= i < n implies (#[trigger] maps[i]).offset == base
        + spec_bodies_len(objs, i) && maps[i].offset % 16 == 0 && maps[i].id == objs[i].0 by {
        crate::database::lemma_bodies_len_bounds(objs, i);
        assert(0 <= base + spec_bodies_len(objs, i) <= u64::MAX);
        assert((base + spec_bodies_len(objs, i)) % 16 == 0) by (nonlinear_arith)
            requires
                base % 16 == 0,
                spec_bodies_len(objs, i) % 16 == 0,
        ;
    }
    lemma_map_round_trip(maps);
    lemma_header_decode_prefix(hb, mb + bodies);
    assert(hb + (mb + bodies) =~= b);
    lemma_map_decode_prefix(mb, bodies, n as nat);
    assert(b.skip(48) =~= mb + bodies);
    assert(b.len() % 16 == 0) by (nonlinear_arith)
        requires
            b.len() == 48 + 16 * n + spec_bodies_len(objs, n),
            spec_bodies_len(objs, n) % 16 == 0,
    ;
}

/// Each object of the serialized image decodes at its mapped offset to
/// the raw object that was encoded there.
#[verifier::rlimit(100)]
#[verifier::spinoff_prover]
proof fn lemma_encoded_object_decodes(
    objs: Seq<(u64, ObjectModel)>,
    db_version: u64,
    timestamp: u64,
    i: int,
)
    requires
        spec_db_encodable(objs),
        0 <= i < objs.len(),
    ensures
        ({
            let n = objs.len() as int;
            let b = spec_database_encode(objs, db_version, timestamp);
            let off = 48 + 16 * n + spec_bodies_len(objs, i);
            &&& off < b.len()
            &&& spec_raw_object_decode(b.skip(off)) == Ok::<RawObjectModel,
            crate::object::ObjectDecodeError>(
                RawObjectModel {
                    length: (16 + objs[i].1.data.len() * (objs[i].1.entry_size as int)) as u64,
                    ..spec_raw_of_object(objs[i].1)
                },
            )
        }),
{
    let n = objs.len() as int;
    lemma_encoded_layout(objs, db_version, timestamp);
    let b = spec_database_encode(objs, db_version, timestamp);
    let bodies = spec_db_bodies(objs);
    let hb = crate::header::spec_header_encode(
        1,
        objs.len() as u64,
        spec_v1_extra(timestamp, db_version),
    );
    let mb = spec_map_encode(spec_db_mappings(objs, 48 + 16 * n));
    assert(b == hb + mb + bodies);
    lemma_u64_be_bytes_value(timestamp);
    lemma_u64_be_bytes_value(db_version);
    lemma_align16(36);
    assert(hb.len() == 48);
    lemma_map_encode_len(spec_db_mappings(objs, 48 + 16 * n));
    lemma_db_bodies_len(objs);
    let m = objs[i].1;
    assert(spec_object_encodable(m));
    let raw = spec_raw_of_object(m);
    let unpadded = 16 + m.data.len() * (m.entry_size as int);
    let padded = spec_object_padded_len(m);
    assert(m.data.len() * (m.entry_size as int) >= 1) by (nonlinear_arith)
        requires
            m.data.len() >= 1,
            m.entry_size >= 1,
    ;
    lemma_concat_len(m.data, m.entry_size as int);
    lemma_align16(unpadded);
    crate::database::lemma_bodies_len_bounds(objs, i);
    crate::database::lemma_bodies_len_bounds(objs, i + 1);
    crate::database::lemma_bodies_len_bounds(objs, objs.len() as int);
    lemma_db_bodies_slice(objs, i);
    let off = 48 + 16 * n + spec_bodies_len(objs, i);
    assert(off + padded <= b.len());
    let body = spec_raw_object_encode(raw);
    assert(body.len() == padded);
    lemma_raw_object_round_trip(raw);
    let tail_view = b.skip(off);
    assert(tail_view =~= bodies.skip(spec_bodies_len(objs, i)));
    assert(tail_view.len() == b.len() - off);
    assert(tail_view.len() % 16 == 0) by (nonlinear_arith)
        requires
            tail_view.len() == 48 + 16 * n + spec_bodies_len(objs, n) - (48 + 16 * n
                + spec_bodies_len(objs, i)),
            spec_bodies_len(objs, n) % 16 == 0,
            spec_bodies_len(objs, i) % 16 == 0,
    ;
    assert(tail_view.subrange(0, 16) =~= body.subrange(0, 16));
    let len_field = spec_u64_from_be_bytes(body.subrange(8, 16));
    assert(len_field == unpadded as u64) by {
        assert(spec_raw_object_decode(body) is Ok);
    }
    assert(tail_view.subrange(16, len_field as int) =~= body.subrange(16, len_field as int));
    lemma_raw_object_decode_local(body, tail_view);
}

/// Serializing a database image and parsing it back yields the same
/// header fields, extra data padded to the header boundary, and every
/// object under its id, in layout order.
#[verifier::spinoff_prover]
pub proof fn lemma_database_round_trip(objs: Seq<(u64, ObjectModel)>, db_version: u64, timestamp: u64)
    requires
        spec_unique_ids(objs),
        spec_db_encodable(objs),
    ensures
        ({
            let parsed = spec_database_decode(spec_database_encode(objs, db_version, timestamp));
            &&& parsed is Ok
            &&& parsed.unwrap().header.version == 1
            &&& parsed.unwrap().header.number_of_objects == objs.len()
            &&& parsed.unwrap().header.header_len == 48
            &&& parsed.unwrap().header.extra_data == spec_v1_extra(timestamp, db_version)
                + Seq::new(12, |i: int| 0u8)
            &&& parsed.unwrap().objects.len() == objs.len()
            &&& parsed.unwrap().object_map.len() == objs.len()
            &&& forall|i: int|
                0 <= i < objs.len() ==> (#[trigger] parsed.unwrap().object_map[i]).id == objs[i].0
            &&& forall|i: int|
                0 <= i < objs.len() ==> (#[trigger] parsed.unwrap().objects[i]).0 == objs[i].0
                    && spec_object_of_raw(parsed.unwrap().objects[i].1) == objs[i].1
        }),
{
    let n = objs.len() as int;
    lemma_encoded_layout(objs, db_version, timestamp);
    let b = spec_database_encode(objs, db_version, timestamp);
    let maps = spec_db_mappings(objs, 48 + 16 * n);
    let h = spec_parse_v1_headers(b).unwrap().0;
    assert forall|i: int| 0 <= i < n implies (#[trigger] maps[i]).offset < b.len()
        && spec_raw_object_decode(b.skip(maps[i].offset as int)) is Ok by {
        lemma_encoded_object_decodes(objs, db_version, timestamp, i);
    }
    lemma_parse_objects_all_ok(b, maps, n);
    assert(maps.take(n) =~= maps);
    let pairs = spec_parse_v1_objects(b, maps).unwrap();
    assert(pairs.len() == n);
    assert(spec_parse_v1(b) == Ok::<RawDatabaseModel, DatabaseParseError>(
        RawDatabaseModel { header: h, object_map: maps, objects: pairs },
    ));
    assert forall|i: int| 0 <= i < objs.len() implies (#[trigger] spec_database_decode(
        b,
    ).unwrap().objects[i]).0 == objs[i].0 && spec_object_of_raw(
        spec_database_decode(b).unwrap().objects[i].1,
    ) == objs[i].1 by {
        lemma_encoded_object_decodes(objs, db_version, timestamp, i);
        assert(pairs[i].0 == maps[i].id);
        assert(pairs[i].1 == spec_raw_object_decode(b.skip(maps[i].offset as int)).unwrap());
    }
}

/// Inserting pairs with pairwise distinct keys into an empty table
/// reproduces the pairs in order.
pub proof fn lemma_insert_all_unique<V>(pairs: Seq<(u64, V)>)
    requires
        spec_unique_ids(pairs),
    ensures
        spec_assoc_insert_all(Seq::<(u64, V)>::empty(), pairs) == pairs,
    decreases pairs.len(),
{
    if pairs.len() > 0 {
        lemma_insert_all_unique(pairs.drop_last());
        let pre = pairs.drop_last();
        assert(forall|i: int| 0 <= i < pre.len() ==> (#[trigger] pre[i]).0 != pairs.last().0);
        assert(!spec_assoc_contains(pre, pairs.last().0));
        assert(spec_assoc_insert(pre, pairs.last().0, pairs.last().1) =~= pairs);
    }
}

/// Eager round trip: the image serialized from objects with distinct
/// ids parses back to a database holding exactly those objects, with
/// the stamped timestamp and the same database version.
pub proof fn lemma_eager_round_trip(objs: Seq<(u64, ObjectModel)>, db_version: u64, timestamp: u64)
    requires
        spec_unique_ids(objs),
        spec_db_encodable(objs),
    ensures
        ({
            let parsed = spec_database_decode(spec_database_encode(objs, db_version, timestamp));
            &&& parsed is Ok
            &&& parsed.unwrap().header.extra_data.len() >= 16
            &&& spec_u64_from_be_bytes(parsed.unwrap().header.extra_data.subrange(0, 8))
                == timestamp
            &&& spec_u64_from_be_bytes(parsed.unwrap().header.extra_data.subrange(8, 16))
                == db_version
            &&& spec_assoc_insert_all(
                Seq::<(u64, ObjectModel)>::empty(),
                spec_objects_of_raw_pairs(parsed.unwrap().objects),
            ) == objs
        }),
{
    lemma_database_round_trip(objs, db_version, timestamp);
    lemma_u64_be_bytes_value(timestamp);
    lemma_u64_be_bytes_value(db_version);
    let parsed = spec_database_decode(spec_database_encode(objs, db_version, timestamp));
    let extra = parsed.unwrap().header.extra_data;
    assert(extra.subrange(0, 8) =~= crate::wire::spec_u64_to_be_bytes(timestamp));
    assert(extra.subrange(8, 16) =~= crate::wire::spec_u64_to_be_bytes(db_version));
    let pairs = spec_objects_of_raw_pairs(parsed.unwrap().objects);
    assert forall|i: int| 0 <= i < objs.len() implies #[trigger] pairs[i] == objs[i] by {
        assert(pairs[i].0 == objs[i].0 && pairs[i].1 == objs[i].1);
    }
    assert(pairs =~= objs);
    lemma_insert_all_unique(objs);
}

/// Every successful parse pairs its objects with the map's ids, in map
/// order, each decoded at its mapped offset.
proof fn lemma_parse_pairs_match(b: Seq<u8>, ms: Seq<ObjectMapping>)
    requires
        spec_parse_v1_objects(b, ms) is Ok,
    ensures
        ({
            let ps = spec_parse_v1_objects(b, ms).unwrap();
            &&& ps.len() == ms.len()
            &&& forall|i: int|
                0 <= i < ms.len() ==> (#[trigger] ps[i]).0 == ms[i].id && ms[i].offset < b.len()
                    && spec_raw_object_decode(b.skip(ms[i].offset as int)) == Ok::<RawObjectModel,
                crate::object::ObjectDecodeError>(ps[i].1)
        }),
    decreases ms.len(),
{
    if ms.len() > 0 {
        lemma_parse_pairs_match(b, ms.drop_last());
        let ps = spec_parse_v1_objects(b, ms).unwrap();
        let pre = spec_parse_v1_objects(b, ms.drop_last()).unwrap();
        assert(forall|i: int| 0 <= i < pre.len() ==> #[trigger] ps[i] == pre[i]);
        assert(forall|i: int| 0 <= i < ms.len() - 1 ==> #[trigger] ms.drop_last()[i] == ms[i]);
    }
}

/// The facades agree on presence: for any id, the lazy facade's linear
/// scan finds a mapping exactly when the eager facade's materialized
/// table carries the id.
pub proof fn lemma_facades_agree_on_presence(b: Seq<u8>)
    requires
        spec_database_decode(b) is Ok,
    ensures
        ({
            let m = spec_database_decode(b).unwrap();
            forall|id: u64| #[trigger]
                spec_find_mapping(m.object_map, id) is Some <==> spec_assoc_map(
                    spec_objects_of_raw_pairs(m.objects),
                ).contains_key(id)
        }),
{
    let m = spec_database_decode(b).unwrap();
    let ms = m.object_map;
    lemma_parse_pairs_match(b, ms);
    let conv = spec_objects_of_raw_pairs(m.objects);
    assert forall|id: u64| #[trigger]
        spec_find_mapping(ms, id) is Some <==> spec_assoc_map(conv).contains_key(id) by {
        lemma_find_mapping(ms, id);
        lemma_assoc_map_dom(conv, id);
        if spec_find_mapping(ms, id) is Some {
            let i = choose|i: int| 0 <= i < ms.len() && (#[trigger] ms[i]).id == id;
            assert(conv[i].0 == id);
            assert(spec_assoc_contains(conv, id));
        }
        if spec_assoc_contains(conv, id) {
            let i = choose|i: int| 0 <= i < conv.len() && (#[trigger] conv[i]).0 == id;
            assert(ms[i].id == id);
        }
    }
}

/// With pairwise distinct map ids, reading an object the lazy way — the
/// 16-aligned window that starts at the found mapping's offset and
/// spans the declared length's padded footprint — yields exactly the
/// object the eager facade holds under that id.
pub proof fn lemma_lazy_matches_eager(b: Seq<u8>, id: u64)
    requires
        spec_database_decode(b) is Ok,
        ({
            let ms = spec_database_decode(b).unwrap().object_map;
            forall|i: int, j: int|
                0 <= i < j < ms.len() ==> (#[trigger] ms[i]).id != (#[trigger] ms[j]).id
        }),
        spec_find_mapping(spec_database_decode(b).unwrap().object_map, id) is Some,
    ensures
        ({
            let m = spec_database_decode(b).unwrap();
            let mp = spec_find_mapping(m.object_map, id).unwrap();
            let len_field = spec_u64_from_be_bytes(
                b.subrange(mp.offset + 8, mp.offset + 16),
            );
            let window = b.subrange(
                mp.offset as int,
                mp.offset + spec_align16(len_field as int),
            );
            &&& mp.offset + 16 <= b.len()
            &&& mp.offset + spec_align16(len_field as int) <= b.len()
            &&& spec_lazy_parse_object(window) == Ok::<ObjectModel, LazyParsingError>(
                spec_assoc_map(spec_objects_of_raw_pairs(m.objects))[id],
            )
        }),
{
    let m = spec_database_decode(b).unwrap();
    let ms = m.object_map;
    lemma_parse_pairs_match(b, ms);
    let conv = spec_objects_of_raw_pairs(m.objects);
    lemma_find_mapping(ms, id);
    let mp = spec_find_mapping(ms, id).unwrap();
    let k = choose|i: int| 0 <= i < ms.len() && #[trigger] ms[i] == mp;
    assert(ms[k].id == id);
    // The map decoded, so every offset is 16-aligned.
    assert(mp.offset % 16 == 0) by {
        let h = spec_header_decode(b).unwrap();
        assert(spec_map_decode(b.skip(h.header_len as int), h.number_of_objects as nat)
            matches Ok(s) && s == ms);
        assert(spec_mapping_decode(
            b.skip(h.header_len as int).subrange(16 * k, 16 * k + 16),
        ) matches Ok(mk) && mk == ms[k]);
    }
    let tail_view = b.skip(mp.offset as int);
    let decoded = spec_raw_object_decode(tail_view);
    assert(decoded == Ok::<RawObjectModel, crate::object::ObjectDecodeError>(m.objects[k].1));
    let len_field_tail = spec_u64_from_be_bytes(tail_view.subrange(8, 16));
    assert(b.subrange(mp.offset + 8, mp.offset + 16) =~= tail_view.subrange(8, 16));
    let len_field = spec_u64_from_be_bytes(b.subrange(mp.offset + 8, mp.offset + 16));
    assert(len_field == len_field_tail);
    // The declared length fits the remainder of the image, which is a
    // multiple of 16, so the padded footprint fits as well.
    assert(16 < len_field <= tail_view.len() && tail_view.len() % 16 == 0);
    lemma_align16(len_field as int);
    let w = spec_align16(len_field as int);
    assert(w <= tail_view.len()) by (nonlinear_arith)
        requires
            w % 16 == 0,
            tail_view.len() % 16 == 0,
            w < len_field + 16,
            len_field <= tail_view.len(),
    ;
    let window = b.subrange(mp.offset as int, mp.offset + w);
    assert(window =~= tail_view.take(w));
    assert(window.len() == w && window.len() % 16 == 0);
    assert(window.subrange(0, 16) =~= tail_view.subrange(0, 16));
    assert(window.subrange(16, len_field as int) =~= tail_view.subrange(16, len_field as int));
    lemma_raw_object_decode_local(tail_view, window);
    // With distinct ids, the found mapping's index carries the eager
    // facade's object for this id.
    assert(spec_unique_ids(conv)) by {
        assert(forall|i: int| 0 <= i < conv.len() ==> (#[trigger] conv[i]).0 == ms[i].id);
    }
    lemma_assoc_map_index(conv, k);
    assert(spec_assoc_map(conv)[id] == conv[k].1);
    assert(conv[k].1 == spec_object_of_raw(m.objects[k].1));
}

} // verus!
