use std::collections::HashSet;
use std::io::{Cursor, Read};

use s3_archiver::engine::plan::{
    plan, FileId, PartSpec, Plan, Routing, Segment, SourceFile, PART_FLOOR, VIABILITY_MIN_TOTAL,
};
use s3_archiver::engine::zip_format::{
    central_dir_entry, end_records, entry_total_len, local_header, EntryMeta,
};
use sha2::Digest;

fn sf(id: u32, name: &str, size: u64) -> SourceFile {
    SourceFile {
        id: FileId(id),
        key: format!("files/{name}"),
        name: name.to_string(),
        size,
    }
}

fn viable_plan(files: Vec<SourceFile>) -> Plan {
    match plan(files) {
        Routing::CopyPart(p) => p,
        Routing::Fallback => panic!("expected fast path"),
    }
}

#[test]
fn tiny_input_routes_to_fallback() {
    let files = vec![sf(0, "a", 10), sf(1, "b", 20)];
    assert!(matches!(plan(files), Routing::Fallback));
}

#[test]
fn no_copyable_routes_to_fallback() {
    // all below floor
    let files = (0..10).map(|i| sf(i, &format!("f{i}"), 1000)).collect();
    assert!(matches!(plan(files), Routing::Fallback));
}

#[test]
fn viable_input_produces_plan_with_first_chain_slot_1() {
    let big = PART_FLOOR + 100;
    // 5 copyable => ~25 MiB total, clears viability.
    let files = vec![
        sf(0, "big0", big),
        sf(1, "small1", 1000),
        sf(2, "big2", big),
        sf(3, "small3", 1000),
        sf(4, "big4", big),
        sf(5, "small5", 2000),
        sf(6, "big6", big),
        sf(7, "small7", 3000),
        sf(8, "big8", big),
        sf(9, "small9", 4000),
    ];
    match plan(files) {
        Routing::CopyPart(p) => {
            assert_eq!(
                p.chains[0].final_merge_part_number, 1,
                "first chain is slot 1"
            );
            // every entry has an offset and appears once in order
            assert_eq!(p.order.len(), p.entries.len());
            // chain final-merge numbers are 1..=chains.len(), unique & contiguous
            let mut nums: Vec<u32> = p.chains.iter().map(|c| c.final_merge_part_number).collect();
            nums.sort();
            assert_eq!(nums, (1..=p.chains.len() as u32).collect::<Vec<_>>());
        }
        Routing::Fallback => panic!("expected fast path"),
    }
}

fn sha256_hex(b: &[u8]) -> String {
    let mut h = sha2::Sha256::new();
    h.update(b);
    let d = h.finalize();
    let mut s = String::with_capacity(64);
    for x in d {
        s.push_str(&format!("{:02x}", x));
    }
    s
}

fn crc32(b: &[u8]) -> u32 {
    let mut h = crc32fast::Hasher::new();
    h.update(b);
    h.finalize()
}

// Plans a set, assembles what the plan describes in memory, opens the result with a
// standard ZIP reader, extracts every entry and compares the content with the name.
#[test]
fn planned_archive_passes_validator() {
    // Content per file; NAME = sha256(content).
    // 5 copyable (~5MiB each => ~25MiB total, clears viability) + streamables.
    // With 5 pairs and zero leftover, the first chain is empty and borrows the smallest pair.
    let mut contents: Vec<Vec<u8>> = Vec::new();
    let big = PART_FLOOR as usize + 123;
    contents.push(vec![1u8; big]); // copyable
    contents.push(vec![2u8; 1000]); // streamable
    contents.push(vec![3u8; big]); // copyable
    contents.push(vec![4u8; 2000]); // streamable
    contents.push(vec![5u8; big]); // copyable
    contents.push(vec![6u8; 3000]); // streamable
    contents.push(vec![7u8; big]); // copyable
    contents.push(vec![8u8; 4000]); // streamable
    contents.push(vec![9u8; big]); // copyable
    contents.push(vec![10u8; 5000]); // streamable

    let names: Vec<String> = contents.iter().map(|c| sha256_hex(c)).collect();
    let files: Vec<SourceFile> = (0..contents.len())
        .map(|i| SourceFile {
            id: FileId(i as u32),
            key: format!("files/{}", names[i]),
            name: names[i].clone(),
            size: contents[i].len() as u64,
        })
        .collect();

    let plan = match plan(files) {
        Routing::CopyPart(p) => p,
        Routing::Fallback => panic!("expected fast path for this input"),
    };

    // Fill CRCs from the synthetic content.
    // Build the EntryMeta list in canonical order with offsets from the plan.
    let by_id = |id: FileId| -> usize { id.0 as usize };
    let metas: Vec<EntryMeta> = plan
        .order
        .iter()
        .map(|id| {
            let e = &plan.entries[&id.0];
            EntryMeta {
                name: e.name.clone(),
                size: e.size,
                crc: crc32(&contents[by_id(*id)]),
                local_header_offset: e.local_header_offset,
            }
        })
        .collect();

    // Assemble archive bytes in canonical order: [local header][body] per entry.
    let mut archive: Vec<u8> = Vec::new();
    for (e, id) in metas.iter().zip(plan.order.iter()) {
        archive.extend_from_slice(&local_header(e));
        archive.extend_from_slice(&contents[by_id(*id)]);
    }
    let cd_offset = archive.len() as u64;
    let mut cd_size = 0u64;
    for e in &metas {
        let rec = central_dir_entry(e);
        cd_size += rec.len() as u64;
        archive.extend_from_slice(&rec);
    }
    archive.extend_from_slice(&end_records(metas.len() as u64, cd_offset, cd_size));

    let mut expected: HashSet<String> = metas.iter().map(|m| m.name.clone()).collect();
    let mut za = zip::ZipArchive::new(Cursor::new(&archive))
        .expect("planned archive must parse with the standard zip reader");
    assert_eq!(za.len(), metas.len());
    let arch_names: Vec<String> = za.file_names().map(ToOwned::to_owned).collect();
    for n in &arch_names {
        assert!(!n.contains('/'), "flat layout required");
        assert!(expected.remove(n), "unknown/duplicate {n}");
    }
    assert!(expected.is_empty(), "missing entries: {expected:?}");
    for n in &arch_names {
        let mut entry = za.by_name(n).unwrap();
        let mut buf = Vec::new();
        entry.read_to_end(&mut buf).expect("extract (CRC verified)");
        assert_eq!(&sha256_hex(&buf), n, "content hash == name");
    }
}

#[test]
fn total_below_the_minimum_routes_to_fallback() {
    let files = vec![
        sf(0, "a", PART_FLOOR),
        sf(1, "b", VIABILITY_MIN_TOTAL - PART_FLOOR - 1),
    ];
    assert!(matches!(plan(files), Routing::Fallback));
    let files = vec![
        sf(0, "a", PART_FLOOR),
        sf(1, "b", VIABILITY_MIN_TOTAL - PART_FLOOR),
    ];
    assert!(matches!(plan(files), Routing::CopyPart(_)));
}

#[test]
fn one_large_file_routes_to_fallback() {
    let files = vec![sf(0, "a", 10 * PART_FLOOR)];
    assert!(matches!(plan(files), Routing::Fallback));
}

// Two pairs of (12 MiB, small) and nothing left over: the first pair is lent to the first
// chain, the second one is the only normal chain.
#[test]
fn smallest_pair_is_lent_to_the_first_chain() {
    let p = viable_plan(vec![
        sf(0, "big0", 3 * PART_FLOOR),
        sf(1, "s1", 10),
        sf(2, "big2", 2 * PART_FLOOR),
        sf(3, "s3", 20),
    ]);
    assert_eq!(
        p.order,
        vec![FileId(2), FileId(3), FileId(0), FileId(1)]
    );
    assert_eq!(p.copyable, vec![FileId(0)]);
    assert_eq!(p.chains.len(), 2);
    assert!(p.entries[&2].streamed && p.entries[&3].streamed && p.entries[&1].streamed);
    assert!(!p.entries[&0].streamed);
    let len2 = entry_total_len("big2", 2 * PART_FLOOR);
    let len3 = entry_total_len("s3", 20);
    assert_eq!(len2, 30 + 4 + 2 * PART_FLOOR);
    assert_eq!(p.entries[&2].local_header_offset, 0);
    assert_eq!(p.entries[&3].local_header_offset, len2);
    assert_eq!(p.entries[&0].local_header_offset, len2 + len3);
    assert_eq!(
        p.entries[&1].local_header_offset,
        len2 + len3 + entry_total_len("big0", 3 * PART_FLOOR)
    );
    match &p.chains[0].parts[0] {
        PartSpec::Stream {
            part_number,
            segments,
        } => {
            assert_eq!(*part_number, 1);
            assert_eq!(segments, &vec![Segment::StreamedFile { id: FileId(2) }]);
        }
        PartSpec::Copy { .. } => panic!("the first chain is all stream parts"),
    }
    match &p.chains[0].parts[1] {
        PartSpec::Stream {
            part_number,
            segments,
        } => {
            assert_eq!(*part_number, 2);
            assert_eq!(
                segments,
                &vec![
                    Segment::StreamedFile { id: FileId(3) },
                    Segment::CopiedFileHeader { id: FileId(0) }
                ]
            );
        }
        PartSpec::Copy { .. } => panic!("the first chain is all stream parts"),
    }
    match &p.chains[1].parts[0] {
        PartSpec::Copy { part_number, id } => {
            assert_eq!(*part_number, 1);
            assert_eq!(*id, FileId(0));
        }
        PartSpec::Stream { .. } => panic!("a normal chain starts with a copy"),
    }
    match &p.chains[1].parts[1] {
        PartSpec::Stream {
            part_number,
            segments,
        } => {
            assert_eq!(*part_number, 2);
            assert_eq!(segments, &vec![Segment::StreamedFile { id: FileId(1) }]);
        }
        PartSpec::Copy { .. } => panic!("a normal chain ends with a stream part"),
    }
}

// Merging the chains gives each file's header directly before its body, in archive order,
// and only the last part of a chain may be short.
#[test]
fn merged_chains_are_the_archive() {
    let mut files = vec![
        sf(0, "big0", PART_FLOOR),
        sf(1, "big1", 2 * PART_FLOOR),
        sf(2, "big2", PART_FLOOR + 7),
    ];
    for i in 3..40 {
        files.push(sf(i, &format!("s{i}"), 400_000));
    }
    let p = viable_plan(files.clone());
    let mut merged: Vec<(bool, u32)> = Vec::new();
    for (c, chain) in p.chains.iter().enumerate() {
        assert_eq!(chain.final_merge_part_number, c as u32 + 1);
        for (n, part) in chain.parts.iter().enumerate() {
            let mut bytes = 0u64;
            match part {
                PartSpec::Copy { part_number, id } => {
                    assert_eq!(*part_number, n as u32 + 1);
                    merged.push((false, id.0));
                    bytes += p.entries[&id.0].size;
                }
                PartSpec::Stream {
                    part_number,
                    segments,
                } => {
                    assert_eq!(*part_number, n as u32 + 1);
                    for segment in segments {
                        match segment {
                            Segment::StreamedFile { id } => {
                                merged.push((true, id.0));
                                merged.push((false, id.0));
                                let e = &p.entries[&id.0];
                                bytes += entry_total_len(&e.name, e.size);
                            }
                            Segment::CopiedFileHeader { id } => merged.push((true, id.0)),
                        }
                    }
                }
            }
            assert!(n + 1 == chain.parts.len() || bytes >= PART_FLOOR);
        }
    }
    let mut archive: Vec<(bool, u32)> = Vec::new();
    let mut offset = 0;
    for id in &p.order {
        archive.push((true, id.0));
        archive.push((false, id.0));
        let e = &p.entries[&id.0];
        assert_eq!(e.local_header_offset, offset);
        offset += entry_total_len(&e.name, e.size);
    }
    assert_eq!(merged, archive);
    let mut placed: Vec<u32> = p.order.iter().map(|id| id.0).collect();
    placed.sort();
    assert_eq!(placed, (0..40).collect::<Vec<u32>>());
}

#[test]
fn zip64_entry_lengths() {
    assert_eq!(entry_total_len("ab", 0xFFFF_FFFF), 30 + 2 + 0xFFFF_FFFF);
    assert_eq!(entry_total_len("ab", 0x1_0000_0000), 50 + 2 + 0x1_0000_0000);
    assert_eq!(entry_total_len("é", 1), 30 + 2 + 1);
}

#[test]
fn the_plan_does_not_depend_on_keys() {
    let mut files = vec![
        sf(0, "big0", 2 * PART_FLOOR),
        sf(1, "big1", 3 * PART_FLOOR),
        sf(2, "big2", PART_FLOOR),
        sf(3, "s3", 17),
    ];
    let p = viable_plan(files.clone());
    for (i, f) in files.iter_mut().enumerate() {
        f.key = format!("elsewhere/{i}");
    }
    let q = viable_plan(files);
    assert_eq!(p.order, q.order);
    assert_eq!(p.copyable, q.copyable);
    assert_eq!(format!("{:?}", p.chains), format!("{:?}", q.chains));
    assert_eq!(p.entries.len(), q.entries.len());
    for (id, entry) in &p.entries {
        assert_eq!(format!("{entry:?}"), format!("{:?}", q.entries[id]));
    }
}
