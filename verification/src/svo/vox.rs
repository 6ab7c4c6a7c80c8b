use vstd::prelude::*;

verus! {

#[verifier::external_type_specification]
#[verifier::external_body]
pub struct ExIoError(std::io::Error);

/// One voxel of a `.vox` model: its position inside the model and the
/// palette index of its color.
#[derive(Debug, Clone, Copy, PartialEq, Eq, Structural)]
pub struct VoxVoxel {
    pub x: u8,
    pub y: u8,
    pub z: u8,
    pub color_index: u8,
}

/// A model of a `.vox` file: the size its SIZE chunk gave and its voxels.
#[derive(Debug, Clone)]
pub struct VoxModel {
    pub size: [u32; 3],
    pub voxels: Vec<VoxVoxel>,
}

/// The models of a `.vox` file and its 256-entry RGBA palette.
#[derive(Debug, Clone)]
pub struct VoxFile {
    pub models: Vec<VoxModel>,
    pub palette: [u32; 256],
}

/// Why a `.vox` file could not be read.
#[derive(Debug)]
pub enum VoxError {
    Io(std::io::Error),
    InvalidHeader,
    UnexpectedEof,
}

// ---------------------------------------------------------------------------
// The file format, as a specification over the bytes.
// ---------------------------------------------------------------------------

/// The little-endian `u32` stored at `pos`.
pub open spec fn le_u32(data: Seq<u8>, pos: int) -> int {
    data[pos] + 256 * data[pos + 1] + 65536 * data[pos + 2] + 16777216 * data[pos + 3]
}

/// Whether the four bytes at `pos` are the chunk tag `t`.
pub open spec fn tag_at(data: Seq<u8>, pos: int, t: (u8, u8, u8, u8)) -> bool {
    &&& data[pos] == t.0
    &&& data[pos + 1] == t.1
    &&& data[pos + 2] == t.2
    &&& data[pos + 3] == t.3
}

/// "VOX ", the file's magic bytes.
pub open spec fn tag_vox() -> (u8, u8, u8, u8) {
    (86u8, 79u8, 88u8, 32u8)
}

/// "SIZE": a model size chunk.
pub open spec fn tag_size() -> (u8, u8, u8, u8) {
    (83u8, 73u8, 90u8, 69u8)
}

/// "XYZI": a model's voxel list.
pub open spec fn tag_xyzi() -> (u8, u8, u8, u8) {
    (88u8, 89u8, 90u8, 73u8)
}

/// "RGBA": the palette.
pub open spec fn tag_rgba() -> (u8, u8, u8, u8) {
    (82u8, 71u8, 66u8, 65u8)
}

/// A model as the format describes it.
pub struct SpecModel {
    pub size: (u32, u32, u32),
    pub voxels: Seq<VoxVoxel>,
}

/// What the reader has gathered so far: the models, the size of the last
/// SIZE chunk, and the palette.
pub struct ParseState {
    pub models: Seq<SpecModel>,
    pub size: Option<(u32, u32, u32)>,
    pub palette: Seq<u32>,
}

/// The `count` voxels stored four bytes each from `start`.
pub open spec fn voxels_at(data: Seq<u8>, start: int, count: int) -> Seq<VoxVoxel> {
    Seq::new(
        count as nat,
        |k: int|
            VoxVoxel {
                x: data[start + 4 * k],
                y: data[start + 4 * k + 1],
                z: data[start + 4 * k + 2],
                color_index: data[start + 4 * k + 3],
            },
    )
}

/// The palette after an RGBA chunk whose colors start at `start`: color `i`
/// of the chunk goes to entry `i + 1`; entry 0 keeps its value and the last
/// color of the chunk is not used.
pub open spec fn rgba_palette(data: Seq<u8>, start: int, old: Seq<u32>) -> Seq<u32> {
    Seq::new(256, |i: int| if i == 0 { old[0] } else { le_u32(data, start + 4 * (i - 1)) as u32 })
}

/// What the chunk whose header starts at `cursor` does: `None` when the file
/// ends inside it, else the position where its content was read up to and
/// the new state. A header is the tag, the content size and the children size.
pub open spec fn chunk_effect(data: Seq<u8>, cursor: int, st: ParseState) -> Option<(int, ParseState)> {
    let len = data.len() as int;
    let body = cursor + 12;
    if body + le_u32(data, cursor + 4) > len {
        None
    } else if tag_at(data, cursor, tag_size()) {
        if body + 12 > len {
            None
        } else {
            Some(
                (
                    body + 12,
                    ParseState {
                        models: st.models,
                        size: Some(
                            (
                                le_u32(data, body) as u32,
                                le_u32(data, body + 4) as u32,
                                le_u32(data, body + 8) as u32,
                            ),
                        ),
                        palette: st.palette,
                    },
                ),
            )
        }
    } else if tag_at(data, cursor, tag_xyzi()) {
        if body + 4 > len {
            None
        } else if body + 4 + 4 * le_u32(data, body) > len {
            None
        } else {
            let count = le_u32(data, body);
            let model = SpecModel {
                size: match st.size {
                    Some(s) => s,
                    None => (0u32, 0u32, 0u32),
                },
                voxels: voxels_at(data, body + 4, count),
            };
            Some(
                (
                    body + 4 + 4 * count,
                    ParseState { models: st.models.push(model), size: st.size, palette: st.palette },
                ),
            )
        }
    } else if tag_at(data, cursor, tag_rgba()) {
        if body + 1024 > len {
            None
        } else {
            Some(
                (
                    body + 1024,
                    ParseState {
                        models: st.models,
                        size: st.size,
                        palette: rgba_palette(data, body, st.palette),
                    },
                ),
            )
        }
    } else {
        Some((body, st))
    }
}

/// Reads the chunks from `cursor` on, each one starting where the previous
/// one's content ends (or further, where more than its content was read),
/// while a whole chunk header still fits.
pub open spec fn parse_chunks(data: Seq<u8>, cursor: int, st: ParseState) -> Option<ParseState>
    decreases data.len() - cursor,
{
    if cursor < 0 || cursor + 12 > data.len() {
        Some(st)
    } else {
        match chunk_effect(data, cursor, st) {
            None => None,
            Some(r) => {
                let content_end = cursor + 12 + le_u32(data, cursor + 4);
                let next = if r.0 < content_end { content_end } else { r.0 };
                if next <= cursor {
                    None
                } else {
                    parse_chunks(data, next, r.1)
                }
            },
        }
    }
}

/// The state before the first chunk: no model, no size, a zero palette.
pub open spec fn initial_state() -> ParseState {
    ParseState { models: Seq::empty(), size: None, palette: Seq::new(256, |i: int| 0u32) }
}

/// The grayscale color that stands for palette entry `i` when a file gives
/// no palette: opaque, with red, green and blue all `i`.
pub open spec fn gray(i: int) -> u32 {
    (0xFF00_0000 + i * 65536 + i * 256 + i) as u32
}

/// The palette a file ends with: a palette of zeros becomes the grayscale
/// palette (entry 0 stays 0).
pub open spec fn finished_palette(p: Seq<u32>) -> Seq<u32> {
    if forall|i: int| 0 <= i < 256 ==> p[i] == 0 {
        Seq::new(256, |i: int| if i == 0 { 0u32 } else { gray(i) })
    } else {
        p
    }
}

/// The result of reading a file, as the format defines it.
pub enum ParseOutcome {
    Parsed(ParseState),
    InvalidHeader,
    UnexpectedEof,
}

/// What reading `data` gives: the header must be "VOX " and a version, then
/// the chunks are read from offset 8 on.
pub open spec fn spec_parse(data: Seq<u8>) -> ParseOutcome {
    if data.len() < 8 || !tag_at(data, 0, tag_vox()) {
        ParseOutcome::InvalidHeader
    } else {
        match parse_chunks(data, 8, initial_state()) {
            None => ParseOutcome::UnexpectedEof,
            Some(st) => ParseOutcome::Parsed(st),
        }
    }
}

pub open spec fn model_view(m: VoxModel) -> SpecModel {
    SpecModel { size: (m.size@[0], m.size@[1], m.size@[2]), voxels: m.voxels@ }
}

/// Whether `f` holds the models of `st` and its palette, finished.
pub open spec fn file_matches(f: VoxFile, st: ParseState) -> bool {
    &&& f.models@.len() == st.models.len()
    &&& forall|i: int| 0 <= i < st.models.len() ==> #[trigger] model_view(f.models@[i]) == st.models[i]
    &&& f.palette@ == finished_palette(st.palette)
}

// ---------------------------------------------------------------------------
// The reader.
// ---------------------------------------------------------------------------

fn le_u32_at(data: &[u8], pos: usize) -> (v: u32)
    requires
        pos + 4 <= data@.len(),
    ensures
        v == le_u32(data@, pos as int),
{
    (data[pos] as u32) + (data[pos + 1] as u32) * 256 + (data[pos + 2] as u32) * 65536 + (
    data[pos + 3] as u32) * 16777216
}

fn tag_is(data: &[u8], pos: usize, a: u8, b: u8, c: u8, d: u8) -> (r: bool)
    requires
        pos + 4 <= data@.len(),
    ensures
        r == tag_at(data@, pos as int, (a, b, c, d)),
{
    data[pos] == a && data[pos + 1] == b && data[pos + 2] == c && data[pos + 3] == d
}

/// Reads the little-endian `u32` at `*cursor` and moves the cursor past it.
pub fn read_u32(data: &[u8], cursor: &mut usize) -> (r: Result<u32, VoxError>)
    ensures
        *old(cursor) + 4 > data@.len() ==> (r matches Err(VoxError::UnexpectedEof) && *final(cursor)
            == *old(cursor)),
        *old(cursor) + 4 <= data@.len() ==> (r matches Ok(v) && v == le_u32(data@, *old(cursor) as int)
            && *final(cursor) == *old(cursor) + 4),
{
    if *cursor > data.len() || data.len() - *cursor < 4 {
        return Err(VoxError::UnexpectedEof);
    }
    let value = le_u32_at(data, *cursor);
    *cursor += 4;
    Ok(value)
}


/// The state of the reader, as the format describes it.
pub open spec fn reader_state(models: Seq<VoxModel>, size: Option<[u32; 3]>, palette: Seq<u32>) -> ParseState {
    ParseState {
        models: models.map_values(|m: VoxModel| model_view(m)),
        size: match size {
            Some(a) => Some((a@[0], a@[1], a@[2])),
            None => None,
        },
        palette,
    }
}

proof fn lemma_gray(v: u32)
    requires
        v < 256,
    ensures
        0xFF00_0000u32 | (v << 16u32) | (v << 8u32) | v == gray(v as int),
{
    assert(0xFF00_0000u32 | (v << 16u32) | (v << 8u32) | v == 0xFF00_0000u32 + v * 65536 + v * 256 + v)
        by (bit_vector)
        requires
            v < 256,
    ;
}

impl From<std::io::Error> for VoxError {
    /// A read error, as an `Io` error.
    fn from(err: std::io::Error) -> (r: Self) {
        VoxError::Io(err)
    }
}

impl vstd::std_specs::convert::FromSpecImpl<std::io::Error> for VoxError {
    open spec fn obeys_from_spec() -> bool {
        true
    }

    open spec fn from_spec(v: std::io::Error) -> Self {
        VoxError::Io(v)
    }
}

impl VoxFile {
    /// Reads a MagicaVoxel `.vox` file from its bytes.
    ///
    /// The bytes must start with "VOX " and a version; then each chunk whose
    /// header fits is read: SIZE sets the size of the models that follow,
    /// XYZI adds a model with that size (zeros before any SIZE), RGBA fills
    /// palette entries 1 to 255; other chunks are skipped. A file without a
    /// palette (all zeros) gets a grayscale one.
    #[verifier::loop_isolation(false)]
    pub fn from_bytes(data: &[u8]) -> (r: Result<Self, VoxError>)
        ensures
            match spec_parse(data@) {
                ParseOutcome::InvalidHeader => r matches Err(VoxError::InvalidHeader),
                ParseOutcome::UnexpectedEof => r matches Err(VoxError::UnexpectedEof),
                ParseOutcome::Parsed(st) => r matches Ok(f) && file_matches(f, st),
            },
    {
        if data.len() < 8 || !tag_is(data, 0, 86, 79, 88, 32) {
            return Err(VoxError::InvalidHeader);
        }
        let mut cursor: usize = 8;
        let mut models: Vec<VoxModel> = Vec::new();
        let mut current_size: Option<[u32; 3]> = None;
        let mut palette = [0u32; 256];
        proof {
            assert(reader_state(models@, current_size, palette@) == initial_state()) by {
                assert(models@.map_values(|m: VoxModel| model_view(m)) =~= Seq::<SpecModel>::empty());
                assert(palette@ =~= Seq::new(256, |i: int| 0u32));
            }
        }
        while data.len() >= 12 && cursor <= data.len() - 12
            invariant
                8 <= cursor <= data@.len(),
                parse_chunks(data@, cursor as int, reader_state(models@, current_size, palette@))
                    == parse_chunks(data@, 8, initial_state()),
            decreases data@.len() - cursor,
        {
            let chunk_start = cursor;
            let ghost st = reader_state(models@, current_size, palette@);
            let ghost total = parse_chunks(data@, 8, initial_state());
            assert(parse_chunks(data@, chunk_start as int, st) == total);
            let is_size = tag_is(data, cursor, 83, 73, 90, 69);
            let is_xyzi = tag_is(data, cursor, 88, 89, 90, 73);
            let is_rgba = tag_is(data, cursor, 82, 71, 66, 65);
            cursor += 4;
            let content_size = read_u32(data, &mut cursor)? as usize;
            let children_size = read_u32(data, &mut cursor)?;
            if content_size > data.len() - cursor {
                return Err(VoxError::UnexpectedEof);
            }
            let content_start = cursor;
            if is_size {
                let x = read_u32(data, &mut cursor)?;
                let y = read_u32(data, &mut cursor)?;
                let z = read_u32(data, &mut cursor)?;
                current_size = Some([x, y, z]);
                proof {
                    assert(reader_state(models@, current_size, palette@) == chunk_effect(data@, chunk_start as int, st).unwrap().1);
                }
            } else if is_xyzi {
                let count = read_u32(data, &mut cursor)? as usize;
                let voxels_start = cursor;
                let mut voxels: Vec<VoxVoxel> = Vec::new();
                let mut k: usize = 0;
                while k < count
                    invariant
                        voxels_start == content_start + 4,
                        content_start + 4 <= data@.len(),
                        count == le_u32(data@, content_start as int),
                        k <= count,
                        cursor == voxels_start + 4 * k,
                        cursor <= data@.len(),
                        voxels@ == voxels_at(data@, voxels_start as int, k as int),
                    decreases count - k,
                {
                    if data.len() - cursor < 4 {
                        return Err(VoxError::UnexpectedEof);
                    }
                    let x = data[cursor];
                    let y = data[cursor + 1];
                    let z = data[cursor + 2];
                    let color_index = data[cursor + 3];
                    cursor += 4;
                    voxels.push(VoxVoxel { x, y, z, color_index });
                    k += 1;
                    proof {
                        assert(voxels@ =~= voxels_at(data@, voxels_start as int, k as int));
                    }
                }
                let size = match current_size {
                    Some(s) => s,
                    None => [0, 0, 0],
                };
                let ghost model = VoxModel { size, voxels };
                models.push(VoxModel { size, voxels });
                proof {
                    assert(models@.map_values(|m: VoxModel| model_view(m)) =~= st.models.push(model_view(model)));
                    assert(reader_state(models@, current_size, palette@) == chunk_effect(data@, chunk_start as int, st).unwrap().1);
                }
            } else if is_rgba {
                let ghost old_palette = palette@;
                let mut i: usize = 0;
                while i < 256
                    invariant
                        cursor == content_start + 4 * i,
                        cursor <= data@.len(),
                        i <= 256,
                        palette@.len() == 256,
                        palette@[0] == old_palette[0],
                        forall|j: int| 1 <= j < 256 && j <= i ==> palette@[j] == le_u32(data@, content_start + 4 * (j - 1)),
                        forall|j: int| 1 <= j < 256 && j > i ==> palette@[j] == old_palette[j],
                    decreases 256 - i,
                {
                    if data.len() - cursor < 4 {
                        return Err(VoxError::UnexpectedEof);
                    }
                    let color = le_u32_at(data, cursor);
                    cursor += 4;
                    if i < 255 {
                        palette[i + 1] = color;
                    }
                    i += 1;
                }
                proof {
                    assert(palette@ =~= rgba_palette(data@, content_start as int, old_palette));
                    assert(reader_state(models@, current_size, palette@) == chunk_effect(data@, chunk_start as int, st).unwrap().1);
                }
            }
            let content_end = content_start + content_size;
            if cursor < content_end {
                cursor = content_end;
            }
            let _ = children_size;
        }
        let mut all_zero = true;
        let mut i: usize = 0;
        while i < 256
            invariant
                i <= 256,
                all_zero == (forall|j: int| 0 <= j < i ==> palette@[j] == 0),
            decreases 256 - i,
        {
            if palette[i] != 0 {
                all_zero = false;
            }
            i += 1;
        }
        if all_zero {
            let ghost zero_palette = palette@;
            let mut i: usize = 1;
            while i < 256
                invariant
                    1 <= i <= 256,
                    palette@[0] == 0,
                    forall|j: int| 1 <= j < i ==> palette@[j] == gray(j),
                decreases 256 - i,
            {
                let value = i as u32;
                proof {
                    lemma_gray(value);
                }
                palette[i] = 0xFF00_0000 | (value << 16) | (value << 8) | value;
                i += 1;
            }
            proof {
                assert(palette@ =~= finished_palette(zero_palette));
            }
        }
        Ok(Self { models, palette })
    }
}

} // verus!
