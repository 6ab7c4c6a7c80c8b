use svo_engine::svo::vox::read_u32;
use svo_engine::svo::{VoxError, VoxFile, VoxVoxel};

fn le(v: u32) -> [u8; 4] {
    v.to_le_bytes()
}

fn chunk(tag: &[u8; 4], content: &[u8], children: u32) -> Vec<u8> {
    let mut out = Vec::new();
    out.extend_from_slice(tag);
    out.extend_from_slice(&le(content.len() as u32));
    out.extend_from_slice(&le(children));
    out.extend_from_slice(content);
    out
}

fn header() -> Vec<u8> {
    let mut out = b"VOX ".to_vec();
    out.extend_from_slice(&le(150));
    out
}

fn size_chunk(x: u32, y: u32, z: u32) -> Vec<u8> {
    let mut c = Vec::new();
    c.extend_from_slice(&le(x));
    c.extend_from_slice(&le(y));
    c.extend_from_slice(&le(z));
    chunk(b"SIZE", &c, 0)
}

fn xyzi_chunk(voxels: &[[u8; 4]]) -> Vec<u8> {
    let mut c = Vec::new();
    c.extend_from_slice(&le(voxels.len() as u32));
    for v in voxels {
        c.extend_from_slice(v);
    }
    chunk(b"XYZI", &c, 0)
}

fn gray(i: u32) -> u32 {
    0xFF00_0000 | (i << 16) | (i << 8) | i
}

#[test]
fn too_short_or_wrong_magic_is_invalid_header() {
    assert!(matches!(VoxFile::from_bytes(b"VOX "), Err(VoxError::InvalidHeader)));
    assert!(matches!(VoxFile::from_bytes(b""), Err(VoxError::InvalidHeader)));
    assert!(matches!(VoxFile::from_bytes(b"VOXX\x96\0\0\0"), Err(VoxError::InvalidHeader)));
}

#[test]
fn header_only_gives_no_model_and_gray_palette() {
    let file = VoxFile::from_bytes(&header()).unwrap();
    assert!(file.models.is_empty());
    assert_eq!(file.palette[0], 0);
    assert_eq!(file.palette[1], gray(1));
    assert_eq!(file.palette[128], gray(128));
    assert_eq!(file.palette[255], gray(255));
}

#[test]
fn size_and_voxels_make_a_model() {
    let mut data = header();
    data.extend(chunk(b"MAIN", &[], 0));
    data.extend(size_chunk(4, 5, 6));
    data.extend(xyzi_chunk(&[[1, 2, 3, 7], [0, 0, 0, 255]]));
    let file = VoxFile::from_bytes(&data).unwrap();
    assert_eq!(file.models.len(), 1);
    assert_eq!(file.models[0].size, [4, 5, 6]);
    assert_eq!(
        file.models[0].voxels,
        vec![
            VoxVoxel { x: 1, y: 2, z: 3, color_index: 7 },
            VoxVoxel { x: 0, y: 0, z: 0, color_index: 255 },
        ]
    );
}

#[test]
fn voxels_without_size_get_zero_size() {
    let mut data = header();
    data.extend(xyzi_chunk(&[[1, 1, 1, 1]]));
    let file = VoxFile::from_bytes(&data).unwrap();
    assert_eq!(file.models[0].size, [0, 0, 0]);
}

#[test]
fn size_applies_to_every_later_model() {
    let mut data = header();
    data.extend(size_chunk(1, 2, 3));
    data.extend(xyzi_chunk(&[]));
    data.extend(xyzi_chunk(&[[0, 0, 0, 1]]));
    let file = VoxFile::from_bytes(&data).unwrap();
    assert_eq!(file.models.len(), 2);
    assert_eq!(file.models[1].size, [1, 2, 3]);
    assert_eq!(file.models[1].voxels.len(), 1);
}

#[test]
fn rgba_shifts_palette_by_one() {
    let mut content = Vec::new();
    for i in 0..256u32 {
        content.extend_from_slice(&le(0x1000 + i));
    }
    let mut data = header();
    data.extend(chunk(b"RGBA", &content, 0));
    let file = VoxFile::from_bytes(&data).unwrap();
    assert_eq!(file.palette[0], 0);
    assert_eq!(file.palette[1], 0x1000);
    assert_eq!(file.palette[255], 0x1000 + 254);
}

#[test]
fn all_zero_rgba_falls_back_to_gray() {
    let content = vec![0u8; 1024];
    let mut data = header();
    data.extend(chunk(b"RGBA", &content, 0));
    let file = VoxFile::from_bytes(&data).unwrap();
    assert_eq!(file.palette[7], gray(7));
}

#[test]
fn content_past_the_end_is_unexpected_eof() {
    let mut data = header();
    data.extend_from_slice(b"SIZE");
    data.extend_from_slice(&le(12));
    data.extend_from_slice(&le(0));
    data.extend_from_slice(&le(1));
    assert!(matches!(VoxFile::from_bytes(&data), Err(VoxError::UnexpectedEof)));
}

#[test]
fn voxel_count_past_the_end_is_unexpected_eof() {
    let mut data = header();
    let mut content = Vec::new();
    content.extend_from_slice(&le(3));
    content.extend_from_slice(&[1, 2, 3, 4]);
    data.extend(chunk(b"XYZI", &content, 0));
    assert!(matches!(VoxFile::from_bytes(&data), Err(VoxError::UnexpectedEof)));
}

#[test]
fn unknown_chunks_are_skipped_and_trailing_bytes_ignored() {
    let mut data = header();
    data.extend(chunk(b"nTRN", &[9, 9, 9, 9, 9], 0));
    data.extend(size_chunk(2, 2, 2));
    data.extend(xyzi_chunk(&[[1, 0, 1, 3]]));
    data.extend_from_slice(&[1, 2, 3]);
    let file = VoxFile::from_bytes(&data).unwrap();
    assert_eq!(file.models.len(), 1);
    assert_eq!(file.models[0].voxels[0], VoxVoxel { x: 1, y: 0, z: 1, color_index: 3 });
}

#[test]
fn read_u32_reads_little_endian_and_advances() {
    let data = [0x78, 0x56, 0x34, 0x12, 0xff];
    let mut cursor = 0usize;
    assert_eq!(read_u32(&data, &mut cursor).unwrap(), 0x1234_5678);
    assert_eq!(cursor, 4);
    assert!(matches!(read_u32(&data, &mut cursor), Err(VoxError::UnexpectedEof)));
    assert_eq!(cursor, 4);
}

#[test]
fn io_errors_convert_to_io_variant() {
    let err = std::io::Error::new(std::io::ErrorKind::NotFound, "missing");
    assert!(matches!(VoxError::from(err), VoxError::Io(_)));
}

#[test]
fn read_u32_with_cursor_past_the_end_is_unexpected_eof() {
    let data = [1u8, 2, 3, 4];
    let mut cursor = 9usize;
    assert!(matches!(read_u32(&data, &mut cursor), Err(VoxError::UnexpectedEof)));
    assert_eq!(cursor, 9);
    let mut cursor = usize::MAX - 1;
    assert!(matches!(read_u32(&data, &mut cursor), Err(VoxError::UnexpectedEof)));
    assert_eq!(cursor, usize::MAX - 1);
}
