use vstd::prelude::*;
use vstd::string::StrSliceExecFns;

verus! {

/// One custom level found on the device.
///
/// The tempo is kept as the IEEE-754 bit pattern of the `f32` that the level's
/// descriptor holds, so that it can be compared exactly.
pub struct CustomLevel {
    pub version: String,
    pub song_name: String,
    pub song_sub_name: String,
    pub song_author: String,
    pub level_author: String,
    pub cover_image_filename: String,
    pub beats_per_minute_bits: u32,
    /// Content hash of the level; it is also the name of the level's folder.
    pub hash: Option<String>,
    /// Milliseconds since the level's folder was last modified, as seen at scan time.
    pub modified: Option<u128>,
}

/// A reference from a playlist to a level, by hash.
pub struct Song {
    pub hash: String,
    pub name: String,
}

/// A named, ordered list of songs, stored on the device as one file.
pub struct Playlist {
    pub title: String,
    pub description: Option<String>,
    pub songs: Vec<Song>,
    /// Set when the playlist has changes that are not written to the device.
    pub changed: bool,
    /// Set when the playlist was created in this session rather than loaded.
    pub just_created: bool,
    pub file_name: String,
}

/// The identity of a level, if it has one.
pub open spec fn level_id(l: CustomLevel) -> Option<Seq<char>> {
    match l.hash {
        Some(h) => Some(h@),
        None => None,
    }
}

/// Whether some song of `songs` references `hash`.
pub open spec fn songs_reference(songs: Seq<Song>, hash: Seq<char>) -> bool {
    exists|k: int| 0 <= k < songs.len() && (#[trigger] songs[k]).hash@ == hash
}

/// The identities of the levels that have one.
pub open spec fn lib_ids(levels: Seq<CustomLevel>) -> Set<Seq<char>> {
    Set::new(
        |h: Seq<char>|
            exists|i: int| 0 <= i < levels.len() && #[trigger] level_id(levels[i]) == Some(h),
    )
}

/// No two levels share an identity.
pub open spec fn ids_unique(levels: Seq<CustomLevel>) -> bool {
    forall|i: int, j: int|
        0 <= i < levels.len() && 0 <= j < levels.len() && i != j && (#[trigger] level_id(
            levels[i],
        )) is Some ==> level_id(levels[i]) != #[trigger] level_id(levels[j])
}

fn copy_string_option(s: &Option<String>) -> (r: Option<String>)
    ensures
        r == *s,
{
    match s {
        Some(x) => Some(x.clone()),
        None => None,
    }
}

impl CustomLevel {
    /// A copy of this level, equal to it field by field.
    pub fn copy(&self) -> (r: CustomLevel)
        ensures
            r == *self,
    {
        CustomLevel {
            version: self.version.clone(),
            song_name: self.song_name.clone(),
            song_sub_name: self.song_sub_name.clone(),
            song_author: self.song_author.clone(),
            level_author: self.level_author.clone(),
            cover_image_filename: self.cover_image_filename.clone(),
            beats_per_minute_bits: self.beats_per_minute_bits,
            hash: copy_string_option(&self.hash),
            modified: self.modified,
        }
    }
}

/// Whether some song of `songs` has the hash `hash`.
pub fn songs_contain(songs: &Vec<Song>, hash: &String) -> (r: bool)
    ensures
        r == songs_reference(songs@, hash@),
{
    let mut k: usize = 0;
    while k < songs.len()
        invariant
            k <= songs@.len(),
            forall|j: int| 0 <= j < k ==> (#[trigger] songs@[j]).hash@ != hash@,
        decreases songs@.len() - k,
    {
        if songs[k].hash == *hash {
            return true;
        }
        k = k + 1;
    }
    false
}

/// Whether `playlist` holds a song with the same hash as `song`.
pub fn is_playlist_contains_song(playlist: &Playlist, song: Song) -> (r: bool)
    ensures
        r == songs_reference(playlist.songs@, song.hash@),
{
    songs_contain(&playlist.songs, &song.hash)
}

/// The lowercase form of a string, as `str::to_lowercase` gives it.
pub uninterp spec fn lower_of(s: Seq<char>) -> Seq<char>;

/// Relies on `str::to_lowercase`: the lowercase form depends on the
/// characters alone.
#[verifier::external_body]
fn lowercase(s: &str) -> (r: String)
    ensures
        r@ == lower_of(s@),
{
    s.to_lowercase()
}

/// Whether `t` occurs in `s` as a run of consecutive characters.
pub open spec fn has_infix(s: Seq<char>, t: Seq<char>) -> bool {
    exists|i: int| 0 <= i && i + t.len() <= s.len() && #[trigger] s.subrange(i, i + t.len()) == t
}

/// The word that marks a headset's mount among the mounted volumes.
pub open spec fn device_marker() -> Seq<char> {
    seq!['q', 'u', 'e', 's', 't']
}

/// Whether `t` occurs in `s` at position `i`.
fn occurs_at(s: &str, t: &str, i: usize) -> (r: bool)
    requires
        i + t@.len() <= s@.len(),
    ensures
        r == (s@.subrange(i as int, i + t@.len()) == t@),
{
    let n = t.unicode_len();
    let len = s.unicode_len();
    let mut j: usize = 0;
    while j < n
        invariant
            n == t@.len(),
            len == s@.len(),
            i + n <= s@.len(),
            j <= n,
            forall|a: int| 0 <= a < j ==> s@[i + a] == t@[a],
        decreases n - j,
    {
        if s.get_char(i + j) != t.get_char(j) {
            assert(s@.subrange(i as int, i + n)[j as int] != t@[j as int]);
            return false;
        }
        j = j + 1;
    }
    assert(s@.subrange(i as int, i + n) =~= t@);
    true
}

/// Whether an already lowercased volume name marks a headset, that is, holds
/// "quest".
pub fn is_device_name(lowered: &str) -> (r: bool)
    ensures
        r == has_infix(lowered@, device_marker()),
{
    let marker = "quest";
    proof {
        reveal_strlit("quest");
        assert(marker@ =~= device_marker());
    }
    let n = lowered.unicode_len();
    let m = marker.unicode_len();
    if m > n {
        return false;
    }
    let mut i: usize = 0;
    while i <= n - m
        invariant
            n == lowered@.len(),
            m == marker@.len(),
            marker@ == device_marker(),
            m <= n,
            i <= n - m + 1,
            forall|a: int| 0 <= a < i ==> #[trigger] lowered@.subrange(a, a + m) != device_marker(),
        decreases n - i,
    {
        if occurs_at(lowered, marker, i) {
            return true;
        }
        i = i + 1;
    }
    false
}

/// The position of the first volume name that marks a headset.
pub open spec fn device_index(names: Seq<String>) -> Option<int>
    decreases names.len(),
{
    if names.len() == 0 {
        None
    } else {
        match device_index(names.drop_last()) {
            Some(i) => Some(i),
            None => if has_infix(lower_of(names.last()@), device_marker()) {
                Some(names.len() - 1)
            } else {
                None
            },
        }
    }
}

/// The first of the mounted volumes' names that holds "quest" in any case;
/// none when no name does.
pub fn get_device_folder(names: &Vec<String>) -> (r: Option<String>)
    ensures
        match device_index(names@) {
            Some(i) => r is Some && r->0@ == names@[i]@,
            None => r is None,
        },
{
    let mut k: usize = 0;
    while k < names.len()
        invariant
            k <= names@.len(),
            device_index(names@.take(k as int)) is None,
        decreases names@.len() - k,
    {
        let ghost pre1 = names@.take(k + 1);
        assert(pre1.drop_last() =~= names@.take(k as int));
        assert(pre1.last() == names@[k as int]);
        let lowered = lowercase(names[k].as_str());
        if is_device_name(lowered.as_str()) {
            proof {
                lemma_device_index_prefix(names@, k + 1);
            }
            return Some(names[k].clone());
        }
        k = k + 1;
    }
    assert(names@.take(k as int) =~= names@);
    None
}

proof fn lemma_device_index_prefix(names: Seq<String>, n: int)
    requires
        0 <= n <= names.len(),
        device_index(names.take(n)) is Some,
    ensures
        device_index(names) == device_index(names.take(n)),
    decreases names.len(),
{
    if n < names.len() {
        assert(names.drop_last().take(n) =~= names.take(n));
        lemma_device_index_prefix(names.drop_last(), n);
    } else {
        assert(names.take(n) =~= names);
    }
}

/// What a scan found in one level folder: the folder's name, the time since
/// it was modified, and the level its descriptor holds, if it could be read.
pub struct LevelEntry {
    pub hash: String,
    pub modified: u128,
    pub level: Option<CustomLevel>,
}

/// The level of an entry, with the entry's identity and elapsed time attached.
pub open spec fn with_identity(l: CustomLevel, e: LevelEntry) -> CustomLevel {
    CustomLevel { hash: Some(e.hash), modified: Some(e.modified), ..l }
}

/// The levels that a scan yields: one per entry with a level, in entry
/// order, an entry whose identity came earlier being dropped.
pub open spec fn scanned(entries: Seq<LevelEntry>) -> Seq<CustomLevel>
    decreases entries.len(),
{
    if entries.len() == 0 {
        Seq::empty()
    } else {
        let prev = scanned(entries.drop_last());
        let e = entries.last();
        match e.level {
            Some(l) => if lib_ids(prev).contains(e.hash@) {
                prev
            } else {
                prev.push(with_identity(l, e))
            },
            None => prev,
        }
    }
}

/// Whether one of the levels has identity `hash`.
pub(crate) fn ids_contain(levels: &Vec<CustomLevel>, hash: &String) -> (r: bool)
    ensures
        r == lib_ids(levels@).contains(hash@),
{
    let mut k: usize = 0;
    while k < levels.len()
        invariant
            k <= levels@.len(),
            forall|j: int| 0 <= j < k ==> #[trigger] level_id(levels@[j]) != Some(hash@),
        decreases levels@.len() - k,
    {
        if let Some(h) = &levels[k].hash {
            if *h == *hash {
                assert(level_id(levels@[k as int]) == Some(hash@));
                return true;
            }
        }
        k = k + 1;
    }
    false
}

/// Builds the library from what a scan found: entries without a readable
/// level are skipped, each level gets its folder's name as identity and its
/// elapsed time, and a later entry with an identity seen before is dropped.
pub fn collect_custom_levels(entries: Vec<LevelEntry>) -> (r: Vec<CustomLevel>)
    ensures
        r@ == scanned(entries@),
        ids_unique(r@),
        forall|i: int|
            0 <= i < r@.len() ==> (#[trigger] r@[i]).hash is Some && r@[i].modified is Some,
{
    let ghost all = entries@;
    let total = entries.len();
    let mut rest = entries;
    let mut r: Vec<CustomLevel> = Vec::new();
    let mut k: usize = 0;
    while rest.len() > 0
        invariant
            k <= all.len(),
            all.len() == total,
            rest@ == all.skip(k as int),
            r@ == scanned(all.take(k as int)),
            ids_unique(r@),
            forall|i: int|
                0 <= i < r@.len() ==> (#[trigger] r@[i]).hash is Some && r@[i].modified is Some,
        decreases rest@.len(),
    {
        let e = rest.remove(0);
        assert(e == all[k as int]);
        assert(all.take(k + 1).drop_last() =~= all.take(k as int));
        assert(all.take(k + 1).last() == all[k as int]);
        let ghost before = r@;
        let LevelEntry { hash, modified, level } = e;
        if let Some(l) = level {
            if !ids_contain(&r, &hash) {
                let ghost h = hash@;
                r.push(CustomLevel { hash: Some(hash), modified: Some(modified), ..l });
                proof {
                    assert forall|a: int, b: int|
                        0 <= a < r@.len() && 0 <= b < r@.len() && a != b && (#[trigger] level_id(
                            r@[a],
                        )) is Some implies level_id(r@[a]) != #[trigger] level_id(r@[b]) by {
                        if a < before.len() && b < before.len() {
                            assert(r@[a] == before[a] && r@[b] == before[b]);
                        } else if a < before.len() {
                            assert(r@[a] == before[a]);
                            assert(lib_ids(before).contains(level_id(before[a])->0));
                        } else {
                            assert(r@[b] == before[b]);
                            if level_id(before[b]) is Some {
                                assert(lib_ids(before).contains(level_id(before[b])->0));
                            }
                        }
                    }
                }
            }
        }
        assert(rest@ =~= all.skip(k + 1));
        k = k + 1;
    }
    assert(all.take(k as int) =~= all);
    r
}

/// What to do with the cached levels.
pub enum CacheCheck {
    /// The cache stands: these are the levels.
    Use(Vec<CustomLevel>),
    /// The cache is missing or out of date: scan the device and cache the result.
    Rescan,
}

/// Decides whether the cached levels stand. A missing cache, or a cache whose
/// size differs from the number of level folders on the device, calls for a
/// rescan; when the folders cannot be counted the cache stands as it is.
pub fn check_cache(cached: Option<Vec<CustomLevel>>, device_count: Option<usize>) -> (r: CacheCheck)
    ensures
        match cached {
            None => r is Rescan,
            Some(c) => match device_count {
                Some(m) if m != c@.len() => r is Rescan,
                _ => r == CacheCheck::Use(c),
            },
        },
{
    match cached {
        None => CacheCheck::Rescan,
        Some(c) => match device_count {
            Some(m) => if m != c.len() {
                CacheCheck::Rescan
            } else {
                CacheCheck::Use(c)
            },
            None => CacheCheck::Use(c),
        },
    }
}

/// One playlist file found on the device: its name, and the playlist it holds
/// if it could be read.
pub struct PlaylistEntry {
    pub file_name: String,
    pub playlist: Option<Playlist>,
}

/// The playlist of an entry as loaded: unchanged, not created here, and
/// stored under the entry's file name.
pub open spec fn as_loaded(p: Playlist, file_name: String) -> Playlist {
    Playlist { changed: false, just_created: false, file_name, ..p }
}

/// The playlists loaded from the entries that could be read, in order.
pub open spec fn loaded(entries: Seq<PlaylistEntry>) -> Seq<Playlist>
    decreases entries.len(),
{
    if entries.len() == 0 {
        Seq::empty()
    } else {
        let prev = loaded(entries.drop_last());
        match entries.last().playlist {
            Some(p) => prev.push(as_loaded(p, entries.last().file_name)),
            None => prev,
        }
    }
}

/// The playlists read from the device's playlist files: unreadable files are
/// skipped, and each playlist is marked as unchanged and not created here,
/// and keeps its file's name.
pub fn get_playlists(entries: Vec<PlaylistEntry>) -> (r: Vec<Playlist>)
    ensures
        r@ == loaded(entries@),
        forall|q: int| 0 <= q < r@.len() ==> !(#[trigger] r@[q]).changed && !r@[q].just_created,
{
    let ghost all = entries@;
    let total = entries.len();
    let mut rest = entries;
    let mut r: Vec<Playlist> = Vec::new();
    let mut k: usize = 0;
    while rest.len() > 0
        invariant
            k <= all.len(),
            all.len() == total,
            rest@ == all.skip(k as int),
            r@ == loaded(all.take(k as int)),
            forall|q: int| 0 <= q < r@.len() ==> !(#[trigger] r@[q]).changed && !r@[q].just_created,
        decreases rest@.len(),
    {
        let e = rest.remove(0);
        assert(e == all[k as int]);
        assert(all.take(k + 1).drop_last() =~= all.take(k as int));
        assert(all.take(k + 1).last() == all[k as int]);
        let PlaylistEntry { file_name, playlist } = e;
        if let Some(p) = playlist {
            r.push(Playlist { changed: false, just_created: false, file_name, ..p });
        }
        assert(rest@ =~= all.skip(k + 1));
        k = k + 1;
    }
    assert(all.take(k as int) =~= all);
    r
}

/// `plan` lists, in ascending order, exactly the positions of the playlists
/// that have unsaved changes.
pub open spec fn is_save_plan(ps: Seq<Playlist>, plan: Seq<usize>) -> bool {
    &&& forall|a: int, b: int| 0 <= a < b < plan.len() ==> plan[a] < plan[b]
    &&& forall|a: int| 0 <= a < plan.len() ==> (#[trigger] plan[a]) < ps.len() && ps[plan[a] as int].changed
    &&& forall|q: int| 0 <= q < ps.len() && (#[trigger] ps[q]).changed ==> plan.contains(q as usize)
}

/// The positions of the playlists that must be written to the device: those
/// with unsaved changes, in order.
pub fn playlists_to_save(playlists: &Vec<Playlist>) -> (r: Vec<usize>)
    ensures
        is_save_plan(playlists@, r@),
{
    let mut r: Vec<usize> = Vec::new();
    let mut q: usize = 0;
    while q < playlists.len()
        invariant
            q <= playlists@.len(),
            forall|a: int, b: int| 0 <= a < b < r@.len() ==> r@[a] < r@[b],
            forall|a: int| 0 <= a < r@.len() ==> (#[trigger] r@[a]) < q && playlists@[r@[a] as int].changed,
            forall|j: int| 0 <= j < q && (#[trigger] playlists@[j]).changed ==> r@.contains(j as usize),
        decreases playlists@.len() - q,
    {
        if playlists[q].changed {
            let ghost before = r@;
            r.push(q);
            proof {
                assert forall|j: int| 0 <= j < q + 1 && (#[trigger] playlists@[j]).changed implies r@.contains(j as usize) by {
                    if j < q {
                        let w = choose|w: int| 0 <= w < before.len() && before[w] == j as usize;
                        assert(r@[w] == j as usize);
                    } else {
                        assert(r@[before.len() as int] == q);
                    }
                }
            }
        }
        q = q + 1;
    }
    r
}

/// Playlists just loaded from the device have nothing to write back.
pub proof fn lemma_loaded_playlists_write_nothing(entries: Seq<PlaylistEntry>, plan: Seq<usize>)
    requires
        is_save_plan(loaded(entries), plan),
    ensures
        plan.len() == 0,
{
    lemma_loaded_unchanged(entries);
    if plan.len() > 0 {
        assert(loaded(entries)[plan[0] as int].changed);
    }
}

proof fn lemma_loaded_unchanged(entries: Seq<PlaylistEntry>)
    ensures
        forall|q: int| 0 <= q < loaded(entries).len() ==> !(#[trigger] loaded(entries)[q]).changed,
    decreases entries.len(),
{
    if entries.len() > 0 {
        lemma_loaded_unchanged(entries.drop_last());
        let prev = loaded(entries.drop_last());
        assert forall|q: int| 0 <= q < loaded(entries).len() implies !(#[trigger] loaded(entries)[q]).changed by {
            if q < prev.len() {
                assert(loaded(entries)[q] == prev[q]);
            }
        }
    }
}

} // verus!
