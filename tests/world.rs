use grimstone::single::{empty_file, FileWrite, SingleWorldFile, SngError};
use grimstone::world::{Block, Chunk, ChunkLoadState, World};
use grimstone::registry::{Registry, RegistryEntry};
use grimstone::Vector3I;

fn apply(file: &mut Vec<u8>, writes: &[FileWrite]) {
    for w in writes {
        let off = w.offset as usize;
        if file.len() < off + w.bytes.len() {
            file.resize(off + w.bytes.len(), 0);
        }
        file[off..off + w.bytes.len()].copy_from_slice(&w.bytes);
    }
}

#[test]
fn fresh_world_file() {
    let f = empty_file();
    assert_eq!(f, b"SNG\0\0\0\0\0\0\0\0\0".to_vec());
    let mut s = SingleWorldFile::open(f.clone()).unwrap();
    assert_eq!(s.chunk_count(), 0);
    let mut disk = f;
    let w = s.save(&Chunk::new_empty(0, 0, 0));
    apply(&mut disk, &w);
    assert_eq!(disk.len(), 8216);
    assert_eq!(&disk[4..12], &[0, 0, 0, 0, 0, 0, 0, 1]);
    assert_eq!(&disk, s.bytes());
}

#[test]
fn malformed_files_are_refused() {
    assert!(matches!(SingleWorldFile::open(vec![0x53, 0x4e]), Err(SngError::Truncated)));
    assert!(matches!(SingleWorldFile::open(b"SNX\0\0\0\0\0\0\0\0\0".to_vec()), Err(SngError::BadMagic)));
    assert!(matches!(SingleWorldFile::open(b"SNG\0\0\0\0\0\0\0\0\x01".to_vec()), Err(SngError::BadLength)));
}

#[test]
fn saved_chunks_survive_reopen() {
    let mut s = SingleWorldFile::open(empty_file()).unwrap();
    let mut disk = empty_file();
    let positions = [(0, 0, 0), (1, -2, 3), (-5, 7, i32::MIN)];
    for (x, y, z) in positions {
        let w = s.save(&Chunk::new_empty(x, y, z));
        apply(&mut disk, &w);
    }
    assert_eq!(&disk, s.bytes());
    let r = SingleWorldFile::open(disk).unwrap();
    assert_eq!(r.chunk_count(), 3);
    let mut found = r.find_all();
    found.sort_by_key(|v| (v.0, v.1, v.2));
    let mut want: Vec<Vector3I> = positions.iter().map(|&(x, y, z)| Vector3I(x as i64, y as i64, z as i64)).collect();
    want.sort_by_key(|v| (v.0, v.1, v.2));
    assert_eq!(found, want);
    let c = r.load(1, -2, 3);
    assert_eq!((c.x, c.y, c.z), (1, -2, 3));
    assert!(c.blocks.iter().all(|b| *b == Block::Air));
    assert_eq!(c.blocks.len(), 4096);
    let g = r.load(9, 9, 9);
    assert_eq!(g.blocks.len(), 4096);
}

#[test]
fn save_overwrites_in_place() {
    let mut s = SingleWorldFile::open(empty_file()).unwrap();
    let w1 = s.save(&Chunk::new_empty(4, 5, 6));
    let w2 = s.save(&Chunk::new_empty(7, 8, 9));
    let w3 = s.save(&Chunk::new_empty(4, 5, 6));
    assert_eq!(w1[0].offset, 12);
    assert_eq!(w2[0].offset, 12 + 8204);
    assert_eq!(w3[0].offset, 12);
    assert_eq!(s.chunk_count(), 2);
    assert_eq!(s.bytes().len(), 12 + 2 * 8204);
    assert_eq!(w3[1].offset, 4);
    assert_eq!(w3[1].bytes, vec![0, 0, 0, 0, 0, 0, 0, 2]);
    assert_eq!(&w3[0].bytes[0..12], &[0, 0, 0, 4, 0, 0, 0, 5, 0, 0, 0, 6]);
}

#[test]
fn chunk_index_order() {
    let mut c = Chunk::new_from_block(0, 0, 0, Block::Air);
    assert_eq!(c.blocks.len(), 4096);
    c.put(1, 2, 3, Block::Air);
    assert_eq!(c.get(1, 2, 3), Block::Air);
    assert_eq!(c.get(15, 15, 15), Block::Air);
    assert_eq!(Block::Air.code(), 0);
    assert_eq!(Block::from_code(0), Block::Air);
}

#[test]
fn world_cache_states() {
    let mut s = SingleWorldFile::open(empty_file()).unwrap();
    s.save(&Chunk::new_empty(1, 1, 1));
    let mut w = World::new(s);
    assert!(w.chunk(1, 1, 1).is_none());
    assert!(!w.get_chunk(1, 1, 1));
    w.load_chunk(1, 1, 1);
    let c = w.chunk(1, 1, 1).unwrap();
    assert_eq!((c.x, c.y, c.z), (1, 1, 1));
    w.unload_chunk(1, 1, 1);
    assert!(w.chunk(1, 1, 1).is_none());
    w.unload_chunk(2, 2, 2);
    assert!(w.chunk(2, 2, 2).is_none());
    assert!(w.get_chunk(2, 2, 2));
    assert_eq!(w.chunk(2, 2, 2).unwrap().blocks.len(), 4096);
    w.put_chunk(3, 3, 3, Chunk::new_empty(3, 3, 3));
    assert!(w.chunk(3, 3, 3).is_some());
    assert!(matches!(w.chunks.iter().find(|e| e.0 == Vector3I(1, 1, 1)).unwrap().1, ChunkLoadState::Unloaded));
}

#[test]
fn world_scale_block_access() {
    let s = SingleWorldFile::open(empty_file()).unwrap();
    let mut w = World::new(s);
    assert_eq!(w.get(-1, 0, 17), None);
    assert!(!w.put(-1, 0, 17, Block::Air));
    w.put_chunk(-1, 0, 1, Chunk::new_empty(-1, 0, 1));
    assert!(w.put(-1, 0, 17, Block::Air));
    assert_eq!(w.get(-1, 0, 17), Some(Block::Air));
    assert_eq!(w.get(-16, 15, 31), Some(Block::Air));
    assert_eq!(w.get(-17, 0, 17), None);
    assert_eq!(w.get(0, 0, 17), None);
}

#[test]
fn unknown_block_code_is_refused() {
    let mut s = SingleWorldFile::open(empty_file()).unwrap();
    s.save(&Chunk::new_empty(0, 0, 0));
    let mut bytes = s.bytes().clone();
    bytes[12 + 12 + 2 * 100 + 1] = 7;
    assert!(matches!(SingleWorldFile::open(bytes), Err(SngError::BadBlock)));
}

#[test]
fn registry_takes_smallest_free_id() {
    let mut r = Registry { name: "minecraft:worldgen/biome".to_string(), entries: Vec::new() };
    assert_eq!(r.register("a", 10u8), 0);
    assert_eq!(r.register("b", 11u8), 1);
    r.entries.push(RegistryEntry { name: "x".to_string(), id: 3, element: 0 });
    assert_eq!(r.register("c", 12u8), 2);
    assert_eq!(r.register("d", 13u8), 4);
    assert_eq!(r.entries[2].name, "x");
    assert_eq!(r.entries[3].name, "c");
    assert_eq!(r.entries[3].element, 12);
}
