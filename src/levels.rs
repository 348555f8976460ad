use vstd::prelude::*;

verus! {

/// A castle as its settings file describes it: the name of its music file and
/// its dungeons.
pub struct CastleSetting {
    pub music: String,
    pub dungeons: Vec<DungeonSetting>,
}

/// A dungeon as its castle's settings describe it: its name, the music file it
/// plays and the files of its rooms, in order.
pub struct DungeonSetting {
    pub name: String,
    pub music: String,
    pub rooms: Vec<String>,
}

/// What went wrong while reading the castles; the payloads carry the
/// underlying error's message.
#[derive(Debug)]
pub enum LoadCastlesError {
    IoError(String),
    FileNameInvalidUTF8,
    FileContentInvalidUTF8,
    TomlError(Vec<String>),
    InvalidTomlValue(String),
    UnexpectedFile,
    OpenConfigError(String),
    ReadDirError(String),
}

/// A place that can be loaded: a room of a dungeon, the corridor of a castle,
/// or the entry hall.
#[derive(Clone, Copy, Debug, PartialEq, Eq, Structural)]
pub enum Level {
    Room { castle: usize, dungeon: usize, room: usize },
    Corridor { castle: usize },
    Entry,
}

/// A castle: its name, the index of its music and its dungeons.
#[derive(Debug)]
pub struct Castle {
    pub name: String,
    pub music: usize,
    pub dungeons: Vec<Dungeon>,
}

/// A dungeon: its name, the index of its music and the files of its rooms.
#[derive(Debug, Clone)]
pub struct Dungeon {
    pub name: String,
    pub music: usize,
    pub rooms: Vec<String>,
}

/// What went wrong while loading a level; the payloads carry the underlying
/// error's message.
#[derive(Debug)]
pub enum LoadLevelError {
    GetCastleError,
    GetDungeonError,
    GetRoomError,
    AmbiguousLevelDefinition,
    NoLevelDefinition,
    InvalidUTF8,
    PngDecodingError(String),
    UnexpectedColor,
    IoError(String),
}

/// `level` names a room that exists among `castles`.
pub open spec fn is_room_of(level: Level, castles: Seq<Castle>) -> bool {
    match level {
        Level::Room { castle, dungeon, room } => {
            &&& castle < castles.len()
            &&& dungeon < castles[castle as int].dungeons@.len()
            &&& room < castles[castle as int].dungeons@[dungeon as int].rooms@.len()
        },
        _ => false,
    }
}

impl Level {
    /// The level after a room: the next room of its dungeon, or the castle's
    /// corridor after the last one.
    pub fn next(&self, castles: &Vec<Castle>) -> (r: Level)
        requires
            is_room_of(*self, castles@),
        ensures
            match *self {
                Level::Room { castle, dungeon, room } => r == if room + 1 == castles@[castle as int].dungeons@[dungeon as int].rooms@.len() {
                    Level::Corridor { castle: castle }
                } else {
                    Level::Room { castle: castle, dungeon: dungeon, room: (room + 1) as usize }
                },
                _ => false,
            },
    {
        match *self {
            Level::Room { castle, dungeon, room } => {
                let d = &castles[castle].dungeons[dungeon];
                let len = d.rooms.len();
                if room + 1 == len {
                    Level::Corridor { castle: castle }
                } else {
                    Level::Room { castle: castle, dungeon: dungeon, room: room + 1 }
                }
            },
            _ => Level::Entry,
        }
    }
}

/// Index of the first entry of `musics` equal to `path`, if any.
pub open spec fn first_index(musics: Seq<String>, path: Seq<char>, i: int) -> bool {
    &&& 0 <= i < musics.len()
    &&& musics[i]@ == path
    &&& forall|j: int| 0 <= j < i ==> musics[j]@ != path
}

/// The index of music `path` in `musics`: where it is already listed, the
/// first place it stands at; otherwise it is added at the end.
pub fn register_music(musics: &mut Vec<String>, path: String) -> (r: usize)
    ensures
        (exists|i: int| 0 <= i < old(musics)@.len() && old(musics)@[i]@ == path@) ==> {
            &&& first_index(old(musics)@, path@, r as int)
            &&& final(musics)@ == old(musics)@
        },
        (forall|i: int| 0 <= i < old(musics)@.len() ==> old(musics)@[i]@ != path@) ==> {
            &&& r == old(musics)@.len()
            &&& final(musics)@ == old(musics)@.push(path)
        },
{
    let n = musics.len();
    let mut i: usize = 0;
    while i < n
        invariant
            n == musics@.len(),
            musics@ == old(musics)@,
            0 <= i <= n,
            forall|j: int| 0 <= j < i ==> musics@[j]@ != path@,
        decreases n - i,
    {
        if musics[i] == path {
            return i;
        }
        i = i + 1;
    }
    musics.push(path);
    n
}

/// Builds a castle named `name` from its settings, where every music is
/// already a full path: the castle's own music is always added to `musics`,
/// and each dungeon's music is registered once.
pub fn build_castle(musics: &mut Vec<String>, name: String, setting: CastleSetting) -> (r: Castle)
    ensures
        r.name@ == name@,
        r.music == old(musics)@.len(),
        final(musics)@.len() >= old(musics)@.len() + 1,
        final(musics)@.subrange(0, old(musics)@.len() as int + 1) == old(musics)@.push(setting.music),
        r.dungeons@.len() == setting.dungeons@.len(),
        forall|k: int|
            0 <= k < r.dungeons@.len() ==> {
                &&& (#[trigger] r.dungeons@[k]).name@ == setting.dungeons@[k].name@
                &&& r.dungeons@[k].rooms@ == setting.dungeons@[k].rooms@
                &&& r.dungeons@[k].music < final(musics)@.len()
                &&& first_index(final(musics)@, setting.dungeons@[k].music@, r.dungeons@[k].music as int)
            },
{
    let start = musics.len();
    musics.push(setting.music);
    let ghost pre = musics@;
    let mut castle = Castle { name: name, music: start, dungeons: Vec::new() };
    let mut dungeons = setting.dungeons;
    let ghost settings = dungeons@;
    let n = dungeons.len();
    let mut k: usize = 0;
    while k < n
        invariant
            n == settings.len(),
            0 <= k <= n,
            dungeons@ == settings.subrange(k as int, n as int),
            musics@.len() >= pre.len(),
            musics@.subrange(0, pre.len() as int) == pre,
            castle.name@ == name@,
            castle.music == start,
            castle.dungeons@.len() == k,
            forall|j: int|
                0 <= j < k ==> {
                    &&& (#[trigger] castle.dungeons@[j]).name@ == settings[j].name@
                    &&& castle.dungeons@[j].rooms@ == settings[j].rooms@
                    &&& castle.dungeons@[j].music < musics@.len()
                    &&& first_index(musics@, settings[j].music@, castle.dungeons@[j].music as int)
                },
        decreases n - k,
    {
        let d = dungeons.remove(0);
        assert(d == settings[k as int]);
        let ghost before = musics@;
        let index = register_music(musics, d.music);
        proof {
            assert(musics@ == before || musics@ == before.push(settings[k as int].music));
            assert forall|j: int|
                0 <= j < k implies first_index(musics@, settings[j].music@, castle.dungeons@[j].music as int) by {
                let i = castle.dungeons@[j].music as int;
                assert(musics@[i] == before[i]);
                assert forall|m: int| 0 <= m < i implies musics@[m]@ != settings[j].music@ by {
                    assert(musics@[m] == before[m]);
                }
            }
            assert(musics@.subrange(0, pre.len() as int) =~= pre) by {
                assert forall|m: int| 0 <= m < pre.len() implies musics@[m] == before[m] by {}
                assert(before.subrange(0, pre.len() as int) == pre);
            }
            if forall|i: int| 0 <= i < before.len() ==> before[i]@ != settings[k as int].music@ {
                assert(musics@[index as int] == settings[k as int].music);
                assert forall|m: int| 0 <= m < index implies musics@[m]@ != settings[k as int].music@ by {
                    assert(musics@[m] == before[m]);
                }
            }
        }
        castle.dungeons.push(Dungeon { name: d.name, music: index, rooms: d.rooms });
        k = k + 1;
    }
    castle
}

/// Where a room's layout is written.
#[derive(Clone, Copy, Debug, PartialEq, Eq, Structural)]
pub enum LevelSource {
    Text,
    Image,
}

/// Picks the file that defines a room: exactly one of the text file and the
/// map image must exist.
pub fn level_source(txt_exists: bool, png_exists: bool) -> (r: Result<LevelSource, LoadLevelError>)
    ensures
        txt_exists && png_exists ==> r matches Err(LoadLevelError::AmbiguousLevelDefinition),
        !txt_exists && !png_exists ==> r matches Err(LoadLevelError::NoLevelDefinition),
        txt_exists && !png_exists ==> r matches Ok(LevelSource::Text),
        !txt_exists && png_exists ==> r matches Ok(LevelSource::Image),
{
    match (txt_exists, png_exists) {
        (true, true) => Err(LoadLevelError::AmbiguousLevelDefinition),
        (false, false) => Err(LoadLevelError::NoLevelDefinition),
        (true, false) => Ok(LevelSource::Text),
        (false, true) => Ok(LevelSource::Image),
    }
}

/// The music of the dungeon that holds a room, once the castle, the dungeon
/// and the room are known to exist; otherwise the first of them that does not.
pub fn room_music(castles: &Vec<Castle>, castle: usize, dungeon: usize, room: usize) -> (r: Result<
    usize,
    LoadLevelError,
>)
    ensures
        castle >= castles@.len() ==> r matches Err(LoadLevelError::GetCastleError),
        castle < castles@.len() && dungeon >= castles@[castle as int].dungeons@.len() ==> r matches Err(
            LoadLevelError::GetDungeonError,
        ),
        castle < castles@.len() && dungeon < castles@[castle as int].dungeons@.len() && room
            >= castles@[castle as int].dungeons@[dungeon as int].rooms@.len() ==> r matches Err(
            LoadLevelError::GetRoomError,
        ),
        is_room_of(Level::Room { castle: castle, dungeon: dungeon, room: room }, castles@) ==> r == Ok::<
            usize,
            LoadLevelError,
        >(castles@[castle as int].dungeons@[dungeon as int].music),
{
    if castle >= castles.len() {
        return Err(LoadLevelError::GetCastleError);
    }
    let c = &castles[castle];
    if dungeon >= c.dungeons.len() {
        return Err(LoadLevelError::GetDungeonError);
    }
    let d = &c.dungeons[dungeon];
    if room >= d.rooms.len() {
        return Err(LoadLevelError::GetRoomError);
    }
    Ok(d.music)
}

/// A pixel colour of a map image.
#[derive(Clone, Copy, Debug, PartialEq, Eq, Structural)]
pub struct Color {
    pub r: u8,
    pub g: u8,
    pub b: u8,
}

/// The colour that stands for each kind of map cell.
#[derive(Clone, Copy, Debug, PartialEq, Eq, Structural)]
pub struct Palette {
    pub empty: Color,
    pub character: Color,
    pub portal: Color,
    pub laser: Color,
    pub monster: Color,
    pub column: Color,
    pub wall: Color,
}

/// What a map cell holds.
#[derive(Clone, Copy, Debug, PartialEq, Eq, Structural)]
pub enum EntityKind {
    Character,
    Portal,
    Laser,
    Monster,
    Column,
    Wall,
}

/// What a pixel of colour `col` places, the first palette entry that matches
/// winning: nothing for the empty colour, and an error for a colour that the
/// palette does not hold.
pub open spec fn classified(col: Color, p: Palette) -> Result<Option<EntityKind>, LoadLevelError> {
    if col == p.empty {
        Ok(None)
    } else if col == p.character {
        Ok(Some(EntityKind::Character))
    } else if col == p.portal {
        Ok(Some(EntityKind::Portal))
    } else if col == p.laser {
        Ok(Some(EntityKind::Laser))
    } else if col == p.monster {
        Ok(Some(EntityKind::Monster))
    } else if col == p.column {
        Ok(Some(EntityKind::Column))
    } else if col == p.wall {
        Ok(Some(EntityKind::Wall))
    } else {
        Err(LoadLevelError::UnexpectedColor)
    }
}

/// What a pixel of colour `col` places.
pub fn classify(col: Color, p: &Palette) -> (r: Result<Option<EntityKind>, LoadLevelError>)
    ensures
        match classified(col, *p) {
            Ok(k) => r == Ok::<Option<EntityKind>, LoadLevelError>(k),
            Err(_) => r matches Err(LoadLevelError::UnexpectedColor),
        },
{
    if col == p.empty {
        Ok(None)
    } else if col == p.character {
        Ok(Some(EntityKind::Character))
    } else if col == p.portal {
        Ok(Some(EntityKind::Portal))
    } else if col == p.laser {
        Ok(Some(EntityKind::Laser))
    } else if col == p.monster {
        Ok(Some(EntityKind::Monster))
    } else if col == p.column {
        Ok(Some(EntityKind::Column))
    } else if col == p.wall {
        Ok(Some(EntityKind::Wall))
    } else {
        Err(LoadLevelError::UnexpectedColor)
    }
}

/// Colour of pixel (`x`, `y`) of an image `w` pixels wide, stored row by row
/// with three bytes per pixel.
pub open spec fn pixel(data: Seq<u8>, w: int, x: int, y: int) -> Color {
    let o = (x + y * w) * 3;
    Color { r: data[o], g: data[o + 1], b: data[o + 2] }
}

/// The placements read from the pixels of columns `0..x` and from the first `y`
/// pixels of column `x`, column by column and top to bottom: each cell of kind
/// `k` at pixel (`x`, `y`) is placed at (`x`, `-y`); `None` once a pixel has an
/// unexpected colour.
pub open spec fn scanned(data: Seq<u8>, w: int, h: int, p: Palette, x: int, y: int) -> Option<
    Seq<(EntityKind, (i64, i64))>,
>
    decreases x, y,
{
    if x <= 0 && y <= 0 {
        Some(Seq::empty())
    } else if y <= 0 {
        scanned(data, w, h, p, x - 1, h)
    } else {
        match scanned(data, w, h, p, x, y - 1) {
            None => None,
            Some(prev) => match classified(pixel(data, w, x, y - 1), p) {
                Err(_) => None,
                Ok(None) => Some(prev),
                Ok(Some(k)) => Some(prev.push((k, (x as i64, -(y - 1) as i64)))),
            },
        }
    }
}

/// Reads the cells of a map image `width` by `height` pixels, three bytes per
/// pixel, row by row.
pub fn read_map(data: &Vec<u8>, width: u32, height: u32, p: &Palette) -> (r: Result<
    Vec<(EntityKind, (i64, i64))>,
    LoadLevelError,
>)
    requires
        data@.len() >= 3 * width * height,
    ensures
        match scanned(data@, width as int, height as int, *p, width as int, 0) {
            Some(s) => r matches Ok(v) && v@ == s,
            None => r matches Err(LoadLevelError::UnexpectedColor),
        },
{
    let w = width as usize;
    let h = height as usize;
    let len = data.len();
    let ghost d = data@;
    let ghost wi = width as int;
    let ghost hi = height as int;
    let mut out: Vec<(EntityKind, (i64, i64))> = Vec::new();
    let mut ok = true;
    let mut x: usize = 0;
    while x < w
        invariant
            w == wi,
            h == hi,
            d == data@,
            d.len() >= 3 * wi * hi,
            len == d.len(),
            w <= 0xffff_ffff,
            h <= 0xffff_ffff,
            0 <= x <= w,
            ok ==> scanned(d, wi, hi, *p, x as int, 0) == Some(out@),
            !ok ==> scanned(d, wi, hi, *p, x as int, 0) is None,
        decreases w - x,
    {
        let mut y: usize = 0;
        while y < h
            invariant
                w == wi,
                h == hi,
                d == data@,
                d.len() >= 3 * wi * hi,
                len == d.len(),
                w <= 0xffff_ffff,
                h <= 0xffff_ffff,
                0 <= x < w,
                0 <= y <= h,
                ok ==> scanned(d, wi, hi, *p, x as int, y as int) == Some(out@),
                !ok ==> scanned(d, wi, hi, *p, x as int, y as int) is None,
            decreases h - y,
        {
            proof {
                assert(y * w <= x + y * w && (x + y * w) * 3 + 2 < 3 * wi * hi) by (nonlinear_arith)
                    requires
                        x < wi,
                        y < hi,
                        w == wi,
                ;
            }
            let o = (x + y * w) * 3;
            let col = Color { r: data[o], g: data[o + 1], b: data[o + 2] };
            assert(col == pixel(d, wi, x as int, y as int));
            assert(scanned(d, wi, hi, *p, x as int, y + 1) == match scanned(d, wi, hi, *p, x as int, y as int) {
                None => None,
                Some(prev) => match classified(pixel(d, wi, x as int, y as int), *p) {
                    Err(_) => None,
                    Ok(None) => Some(prev),
                    Ok(Some(k)) => Some(prev.push((k, (x as i64, -(y as int) as i64)))),
                },
            });
            if ok {
                match classify(col, p) {
                    Ok(Some(k)) => {
                        out.push((k, (x as i64, -(y as i64))));
                    },
                    Ok(None) => {},
                    Err(_) => {
                        ok = false;
                    },
                }
            }
            y = y + 1;
        }
        x = x + 1;
    }
    if ok {
        Ok(out)
    } else {
        Err(LoadLevelError::UnexpectedColor)
    }
}

} // verus!
