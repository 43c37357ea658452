use vstd::prelude::*;

use crate::bmbf_utils::{
    CustomLevel, Playlist, Song, ids_contain, ids_unique, level_id, lib_ids, songs_contain,
    songs_reference,
};
use vstd::string::StrSliceExecFns;
use crate::ranking::{
    Sorting, by_distance_to, by_sorting, lemma_reordered_levels, levenshtein_rank, sort_levels,
    stably_ordered,
};

verus! {

/// Whether some playlist of `ps` references `h`.
pub open spec fn referenced(ps: Seq<Playlist>, h: Seq<char>) -> bool {
    exists|q: int| 0 <= q < ps.len() && songs_reference(#[trigger] ps[q].songs@, h)
}

/// The identities that the playlists reference.
pub open spec fn ref_ids(ps: Seq<Playlist>) -> Set<Seq<char>> {
    Set::new(|h: Seq<char>| referenced(ps, h))
}

/// Whether a playlist references the level.
pub open spec fn level_referenced(l: CustomLevel, ps: Seq<Playlist>) -> bool {
    match level_id(l) {
        Some(h) => referenced(ps, h),
        None => false,
    }
}

/// The levels, in order, that no playlist references.
pub open spec fn unreferenced(levels: Seq<CustomLevel>, ps: Seq<Playlist>) -> Seq<CustomLevel>
    decreases levels.len(),
{
    if levels.len() == 0 {
        Seq::empty()
    } else {
        let prev = unreferenced(levels.drop_last(), ps);
        if level_referenced(levels.last(), ps) {
            prev
        } else {
            prev.push(levels.last())
        }
    }
}

/// The position of the first level with identity `h`.
pub open spec fn level_index(levels: Seq<CustomLevel>, h: Seq<char>) -> Option<int>
    decreases levels.len(),
{
    if levels.len() == 0 {
        None
    } else {
        match level_index(levels.drop_last(), h) {
            Some(i) => Some(i),
            None => if level_id(levels.last()) == Some(h) {
                Some(levels.len() - 1)
            } else {
                None
            },
        }
    }
}

/// The library's levels that `songs` reference and no playlist of `rest`
/// references, one per identity, in the order of their first song.
pub open spec fn released(levels: Seq<CustomLevel>, songs: Seq<Song>, rest: Seq<Playlist>) -> Seq<
    CustomLevel,
>
    decreases songs.len(),
{
    if songs.len() == 0 {
        Seq::empty()
    } else {
        let prev = released(levels, songs.drop_last(), rest);
        let h = songs.last().hash@;
        match level_index(levels, h) {
            Some(i) => if referenced(rest, h) || lib_ids(prev).contains(h) {
                prev
            } else {
                prev.push(levels[i])
            },
            None => prev,
        }
    }
}

/// How many playlists carry the title `t`.
pub open spec fn count_titled(ps: Seq<Playlist>, t: Seq<char>) -> nat
    decreases ps.len(),
{
    if ps.len() == 0 {
        0
    } else {
        count_titled(ps.drop_last(), t) + if ps.last().title@ == t {
            1nat
        } else {
            0nat
        }
    }
}

/// Whether some playlist carries the title `t`.
pub open spec fn has_title(ps: Seq<Playlist>, t: Seq<char>) -> bool {
    exists|q: int| 0 <= q < ps.len() && (#[trigger] ps[q]).title@ == t
}

/// The hash that a song made from `l` carries: the level's own, or "Unknown".
pub open spec fn song_hash_for(l: CustomLevel) -> Seq<char> {
    match l.hash {
        Some(h) => h@,
        None => seq!['U', 'n', 'k', 'n', 'o', 'w', 'n'],
    }
}

/// A playlist just created with title `t`: empty, unsaved, stored as "<t>.json".
pub open spec fn is_new_playlist(p: Playlist, t: Seq<char>) -> bool {
    &&& p.title@ == t
    &&& p.description is None
    &&& p.songs@.len() == 0
    &&& p.changed
    &&& p.just_created
    &&& p.file_name@ == t + seq!['.', 'j', 's', 'o', 'n']
}

/// `next` is `pl` with its songs replaced by `songs` and marked as changed.
pub open spec fn same_playlist_with_songs(pl: Playlist, next: Playlist, songs: Seq<Song>) -> bool {
    &&& next.title == pl.title
    &&& next.description == pl.description
    &&& next.file_name == pl.file_name
    &&& next.just_created == pl.just_created
    &&& next.changed
    &&& next.songs@ == songs
}

/// The library, its playlists, the levels that no playlist uses, and what the
/// user has selected.
pub struct App {
    pub custom_levels: Vec<CustomLevel>,
    /// The levels that no playlist references, in display order.
    pub available_levels: Vec<CustomLevel>,
    pub selected_level: Option<usize>,
    pub playlists: Vec<Playlist>,
    pub selected_playlist: Option<usize>,
    pub selected_song: Option<usize>,
    /// Title for the next playlist to create.
    pub text_input: String,
    /// Query for the fuzzy ranking of available levels.
    pub level_search: String,
    pub create_new_playlist: bool,
    pub sort: Sorting,
}

/// Whether some playlist references `hash`.
fn playlists_reference(playlists: &Vec<Playlist>, hash: &String) -> (r: bool)
    ensures
        r == referenced(playlists@, hash@),
{
    let mut q: usize = 0;
    while q < playlists.len()
        invariant
            q <= playlists@.len(),
            forall|j: int| 0 <= j < q ==> !songs_reference(#[trigger] playlists@[j].songs@, hash@),
        decreases playlists@.len() - q,
    {
        if songs_contain(&playlists[q].songs, hash) {
            return true;
        }
        q = q + 1;
    }
    false
}

/// Whether some playlist references the level.
fn is_level_referenced(playlists: &Vec<Playlist>, level: &CustomLevel) -> (r: bool)
    ensures
        r == level_referenced(*level, playlists@),
{
    match &level.hash {
        Some(h) => playlists_reference(playlists, h),
        None => false,
    }
}

impl App {
    /// The fields that the user interface owns are the same in both states.
    pub open spec fn same_selection(self, other: App) -> bool {
        &&& self.selected_level == other.selected_level
        &&& self.selected_playlist == other.selected_playlist
        &&& self.selected_song == other.selected_song
        &&& self.text_input == other.text_input
        &&& self.level_search == other.level_search
        &&& self.create_new_playlist == other.create_new_playlist
        &&& self.sort == other.sort
    }

    /// The available levels are exactly the library's levels whose identity no
    /// playlist references, each once.
    pub open spec fn consistent(self) -> bool {
        &&& ids_unique(self.custom_levels@)
        &&& ids_unique(self.available_levels@)
        &&& forall|i: int|
            0 <= i < self.available_levels@.len() ==> self.custom_levels@.contains(
                #[trigger] self.available_levels@[i],
            )
        &&& lib_ids(self.available_levels@) == lib_ids(self.custom_levels@).difference(
            ref_ids(self.playlists@),
        )
    }

    /// No identity of the library is referenced from two places.
    pub open spec fn single_refs(self) -> bool {
        forall|q1: int, k1: int, q2: int, k2: int|
            0 <= q1 < self.playlists@.len() && 0 <= q2 < self.playlists@.len() && 0 <= k1
                < self.playlists@[q1].songs@.len() && 0 <= k2 < self.playlists@[q2].songs@.len() && (
            q1 != q2 || k1 != k2) && (#[trigger] self.playlists@[q1].songs@[k1]).hash@ == (
            #[trigger] self.playlists@[q2].songs@[k2]).hash@ ==> !lib_ids(
                self.custom_levels@,
            ).contains(self.playlists@[q1].songs@[k1].hash@)
    }

    /// Whether the selection names a playlist and an available level.
    pub open spec fn add_applies(self) -> bool {
        &&& self.selected_playlist is Some
        &&& self.selected_level is Some
        &&& self.selected_playlist->0 < self.playlists@.len()
        &&& self.selected_level->0 < self.available_levels@.len()
    }

    /// `next` is this state after the selected available level was added to
    /// the selected playlist, or this state itself when the selection names
    /// no such pair.
    pub open spec fn adds_song(self, next: App) -> bool {
        if self.add_applies() {
            let p = self.selected_playlist->0 as int;
            let i = self.selected_level->0 as int;
            let l = self.available_levels@[i];
            let pl = next.playlists@[p];
            &&& next.available_levels@ == self.available_levels@.remove(i)
            &&& next.playlists@ == self.playlists@.update(p, pl)
            &&& pl.songs@.len() == self.playlists@[p].songs@.len() + 1
            &&& same_playlist_with_songs(
                self.playlists@[p],
                pl,
                self.playlists@[p].songs@.push(pl.songs@.last()),
            )
            &&& pl.songs@.last().hash@ == song_hash_for(l)
            &&& pl.songs@.last().name@ == l.song_name@
            &&& next.custom_levels == self.custom_levels
            &&& next.same_selection(self)
        } else {
            next == self
        }
    }

    /// Whether the selection names a playlist and one of its songs.
    pub open spec fn removal_applies(self) -> bool {
        &&& self.selected_playlist is Some
        &&& self.selected_song is Some
        &&& self.selected_playlist->0 < self.playlists@.len()
        &&& self.selected_song->0 < self.playlists@[self.selected_playlist->0 as int].songs@.len()
    }

    /// The song that the selection names.
    pub open spec fn selected_song_ref(self) -> Song {
        self.playlists@[self.selected_playlist->0 as int].songs@[self.selected_song->0 as int]
    }

    /// `next` is this state after the selected song was taken out of the
    /// selected playlist, its level going back to the end of the available
    /// levels when the library has it and no song references it any more; or
    /// this state itself when the selection names no song.
    pub open spec fn removes_song(self, next: App) -> bool {
        if self.removal_applies() {
            let p = self.selected_playlist->0 as int;
            let k = self.selected_song->0 as int;
            let pl = next.playlists@[p];
            &&& next.playlists@ == self.playlists@.update(p, pl)
            &&& same_playlist_with_songs(self.playlists@[p], pl, self.playlists@[p].songs@.remove(k))
            &&& next.available_levels@ == match level_index(
                self.custom_levels@,
                self.selected_song_ref().hash@,
            ) {
                Some(j) => if referenced(next.playlists@, self.selected_song_ref().hash@) {
                    self.available_levels@
                } else {
                    self.available_levels@.push(self.custom_levels@[j])
                },
                None => self.available_levels@,
            }
            &&& next.custom_levels == self.custom_levels
            &&& next.same_selection(self)
        } else {
            next == self
        }
    }

    /// Whether the selection names a playlist.
    pub open spec fn playlist_removal_applies(self) -> bool {
        &&& self.selected_playlist is Some
        &&& self.selected_playlist->0 < self.playlists@.len()
    }

    /// The available levels once the selected playlist is gone: the levels
    /// it alone referenced are back.
    pub open spec fn available_with_selected_playlist(self) -> Seq<CustomLevel> {
        let p = self.selected_playlist->0 as int;
        self.available_levels@ + released(
            self.custom_levels@,
            self.playlists@[p].songs@,
            self.playlists@.remove(p),
        )
    }

    /// `next` is this state after the selected playlist was removed: the
    /// library's levels that its songs referenced and no remaining playlist
    /// references join the available levels, once each, which are then sorted
    /// again, and nothing is selected as playlist. When the
    /// selection names no playlist, nothing changes.
    pub open spec fn removes_playlist(self, next: App) -> bool {
        if self.playlist_removal_applies() {
            &&& next.playlists@ == self.playlists@.remove(self.selected_playlist->0 as int)
            &&& stably_ordered(
                self.available_with_selected_playlist(),
                next.available_levels@,
                by_sorting(self.sort, self.available_with_selected_playlist()),
            )
            &&& next.custom_levels == self.custom_levels
            &&& next.selected_playlist is None
            &&& next.selected_level == self.selected_level
            &&& next.selected_song == self.selected_song
            &&& next.text_input == self.text_input
            &&& next.level_search == self.level_search
            &&& next.create_new_playlist == self.create_new_playlist
            &&& next.sort == self.sort
        } else {
            next == self
        }
    }

    /// `next` is this state after asking to create a playlist titled by the
    /// text input: a new empty playlist at the end, unless one with that
    /// title exists, in which case nothing changes.
    pub open spec fn creates_playlist(self, next: App) -> bool {
        let t = self.text_input@;
        if has_title(self.playlists@, t) {
            next == self
        } else {
            &&& next.playlists@.len() == self.playlists@.len() + 1
            &&& forall|q: int|
                0 <= q < self.playlists@.len() ==> next.playlists@[q] == #[trigger] self.playlists@[q]
            &&& is_new_playlist(next.playlists@.last(), t)
            &&& next.custom_levels == self.custom_levels
            &&& next.available_levels == self.available_levels
            &&& !next.create_new_playlist
            &&& next.selected_level == self.selected_level
            &&& next.selected_playlist == self.selected_playlist
            &&& next.selected_song == self.selected_song
            &&& next.text_input == self.text_input
            &&& next.level_search == self.level_search
            &&& next.sort == self.sort
        }
    }

    /// Sets up the state for a library and its playlists: the available levels
    /// are those no playlist references, the longest since modification first.
    pub fn new(custom_levels: Vec<CustomLevel>, playlists: Vec<Playlist>) -> (r: App)
        ensures
            r.custom_levels == custom_levels,
            r.playlists == playlists,
            stably_ordered(
                unreferenced(custom_levels@, playlists@),
                r.available_levels@,
                by_sorting(Sorting::ModifiedDsc, unreferenced(custom_levels@, playlists@)),
            ),
            r.selected_level is None,
            r.selected_playlist is None,
            r.selected_song is None,
            r.text_input@ == seq!['n', 'a', 'm', 'e'],
            r.level_search@.len() == 0,
            !r.create_new_playlist,
            r.sort == Sorting::ModifiedDsc,
            ids_unique(custom_levels@) ==> r.consistent(),
    {
        let avail = unreferenced_levels(&custom_levels, &playlists);
        proof {
            assert(avail@.len() == avail.len());
            lemma_unreferenced(custom_levels@, playlists@);
        }
        let sorted = sort_levels(&avail, Sorting::ModifiedDsc);
        proof {
            lemma_reordered_levels(
                avail@,
                sorted@,
                by_sorting(Sorting::ModifiedDsc, avail@),
            );
        }
        let r = App {
            custom_levels,
            available_levels: sorted,
            selected_level: None,
            playlists,
            selected_playlist: None,
            selected_song: None,
            text_input: String::from_str("name"),
            level_search: String::new(),
            create_new_playlist: false,
            sort: Sorting::ModifiedDsc,
        };
        proof {
            reveal_strlit("name");
            if ids_unique(r.custom_levels@) {
                assert forall|i: int| 0 <= i < r.available_levels@.len() implies r.custom_levels@.contains(
                    #[trigger] r.available_levels@[i],
                ) by {
                    assert(avail@.contains(r.available_levels@[i]));
                    let w = choose|w: int| 0 <= w < avail@.len() && avail@[w] == r.available_levels@[i];
                    assert(r.custom_levels@.contains(avail@[w]));
                }
                assert(lib_ids(r.available_levels@) =~= lib_ids(r.custom_levels@).difference(
                    ref_ids(r.playlists@),
                ));
            }
        }
        r
    }

    /// The level with identity `hash`, if the library has one.
    pub fn find_level_by_hash(&self, hash: &String) -> (r: Option<CustomLevel>)
        ensures
            match level_index(self.custom_levels@, hash@) {
                Some(i) => r == Some(self.custom_levels@[i]),
                None => r is None,
            },
    {
        let mut k: usize = 0;
        while k < self.custom_levels.len()
            invariant
                k <= self.custom_levels@.len(),
                level_index(self.custom_levels@.take(k as int), hash@) is None,
            decreases self.custom_levels@.len() - k,
        {
            let ghost pre1 = self.custom_levels@.take(k + 1);
            assert(pre1.drop_last() =~= self.custom_levels@.take(k as int));
            if let Some(h) = &self.custom_levels[k].hash {
                if *h == *hash {
                    proof {
                        lemma_level_index_prefix(self.custom_levels@, k + 1, hash@);
                    }
                    return Some(self.custom_levels[k].copy());
                }
            }
            k = k + 1;
        }
        assert(self.custom_levels@.take(k as int) =~= self.custom_levels@);
        None
    }

    fn sort_available(&mut self, sorting: Sorting)
        ensures
            stably_ordered(
                old(self).available_levels@,
                final(self).available_levels@,
                by_sorting(sorting, old(self).available_levels@),
            ),
            final(self).custom_levels == old(self).custom_levels,
            final(self).playlists == old(self).playlists,
            final(self).same_selection(*old(self)),
            old(self).consistent() ==> final(self).consistent(),
            old(self).single_refs() ==> final(self).single_refs(),
    {
        let sorted = sort_levels(&self.available_levels, sorting);
        proof {
            assert(self.available_levels@.len() == self.available_levels.len());
            lemma_reordered_levels(
                self.available_levels@,
                sorted@,
                by_sorting(sorting, self.available_levels@),
            );
        }
        self.available_levels = sorted;
        proof {
            if old(self).consistent() {
                assert forall|i: int| 0 <= i < self.available_levels@.len() implies self.custom_levels@.contains(
                    #[trigger] self.available_levels@[i],
                ) by {
                    let w = choose|w: int|
                        0 <= w < old(self).available_levels@.len()
                            && old(self).available_levels@[w] == self.available_levels@[i];
                    assert(self.custom_levels@.contains(old(self).available_levels@[w]));
                }
            }
        }
    }

    /// Lists the available levels in the order the current sorting names;
    /// levels that tie keep their order.
    pub fn sort(&mut self)
        ensures
            stably_ordered(
                old(self).available_levels@,
                final(self).available_levels@,
                by_sorting(old(self).sort, old(self).available_levels@),
            ),
            final(self).custom_levels == old(self).custom_levels,
            final(self).playlists == old(self).playlists,
            final(self).same_selection(*old(self)),
            old(self).consistent() ==> final(self).consistent(),
            old(self).single_refs() ==> final(self).single_refs(),
    {
        let sorting = self.sort;
        self.sort_available(sorting);
    }

    /// Lists the available levels by ascending tempo, ties keeping their order.
    pub fn sort_bpm(&mut self)
        ensures
            stably_ordered(
                old(self).available_levels@,
                final(self).available_levels@,
                by_sorting(Sorting::BPMAsc, old(self).available_levels@),
            ),
            final(self).custom_levels == old(self).custom_levels,
            final(self).playlists == old(self).playlists,
            final(self).same_selection(*old(self)),
            old(self).consistent() ==> final(self).consistent(),
    {
        self.sort_available(Sorting::BPMAsc);
    }

    /// Lists the available levels by ascending name, ties keeping their order.
    pub fn sort_name(&mut self)
        ensures
            stably_ordered(
                old(self).available_levels@,
                final(self).available_levels@,
                by_sorting(Sorting::NameAsc, old(self).available_levels@),
            ),
            final(self).custom_levels == old(self).custom_levels,
            final(self).playlists == old(self).playlists,
            final(self).same_selection(*old(self)),
            old(self).consistent() ==> final(self).consistent(),
    {
        self.sort_available(Sorting::NameAsc);
    }

    /// Lists the available levels by ascending time since modification, ties
    /// keeping their order.
    pub fn sort_modified(&mut self)
        ensures
            stably_ordered(
                old(self).available_levels@,
                final(self).available_levels@,
                by_sorting(Sorting::ModifiedAsc, old(self).available_levels@),
            ),
            final(self).custom_levels == old(self).custom_levels,
            final(self).playlists == old(self).playlists,
            final(self).same_selection(*old(self)),
            old(self).consistent() ==> final(self).consistent(),
    {
        self.sort_available(Sorting::ModifiedAsc);
    }

    /// Lists the available levels by ascending edit distance between their
    /// names and the search text, ties keeping their order; an empty search
    /// text leaves the order alone.
    pub fn levenshtein_sort(&mut self)
        ensures
            old(self).level_search@.len() == 0 ==> final(self).available_levels
                == old(self).available_levels,
            old(self).level_search@.len() > 0 ==> stably_ordered(
                old(self).available_levels@,
                final(self).available_levels@,
                by_distance_to(old(self).available_levels@, old(self).level_search@),
            ),
            final(self).custom_levels == old(self).custom_levels,
            final(self).playlists == old(self).playlists,
            final(self).same_selection(*old(self)),
            old(self).consistent() ==> final(self).consistent(),
            old(self).single_refs() ==> final(self).single_refs(),
    {
        if self.level_search.as_str().unicode_len() == 0 {
            return ;
        }
        let ranked = levenshtein_rank(&self.available_levels, self.level_search.as_str());
        proof {
            assert(self.available_levels@.len() == self.available_levels.len());
            lemma_reordered_levels(
                self.available_levels@,
                ranked@,
                by_distance_to(self.available_levels@, self.level_search@),
            );
        }
        self.available_levels = ranked;
        proof {
            if old(self).consistent() {
                assert forall|i: int| 0 <= i < self.available_levels@.len() implies self.custom_levels@.contains(
                    #[trigger] self.available_levels@[i],
                ) by {
                    let w = choose|w: int|
                        0 <= w < old(self).available_levels@.len()
                            && old(self).available_levels@[w] == self.available_levels@[i];
                    assert(self.custom_levels@.contains(old(self).available_levels@[w]));
                }
            }
        }
    }

    /// Creates an empty playlist titled by the text input, unless a playlist
    /// with exactly that title exists. Returns whether it was created.
    pub fn create_new_playlist(&mut self) -> (r: bool)
        ensures
            r == !has_title(old(self).playlists@, old(self).text_input@),
            old(self).creates_playlist(*final(self)),
            old(self).consistent() ==> final(self).consistent(),
            old(self).single_refs() ==> final(self).single_refs(),
    {
        let mut q: usize = 0;
        while q < self.playlists.len()
            invariant
                q <= self.playlists@.len(),
                forall|j: int| 0 <= j < q ==> (#[trigger] self.playlists@[j]).title@ != self.text_input@,
            decreases self.playlists@.len() - q,
        {
            if self.playlists[q].title == self.text_input {
                return false;
            }
            q = q + 1;
        }
        let title = self.text_input.clone();
        let file_name = self.text_input.clone().concat(".json");
        proof {
            reveal_strlit(".json");
            assert(".json"@ =~= seq!['.', 'j', 's', 'o', 'n']);
        }
        let playlist = Playlist {
            title,
            description: None,
            songs: Vec::new(),
            changed: true,
            just_created: true,
            file_name,
        };
        self.playlists.push(playlist);
        self.create_new_playlist = false;
        proof {
            assert(!has_title(old(self).playlists@, old(self).text_input@));
            assert(is_new_playlist(self.playlists@.last(), old(self).text_input@));
            lemma_refs_after_new_playlist(old(self).playlists@, self.playlists@);
            assert(ref_ids(self.playlists@) =~= ref_ids(old(self).playlists@));
        }
        true
    }

    /// Adds the selected available level to the selected playlist as a song,
    /// marks the playlist as changed and takes the level out of the available
    /// ones. Does nothing unless both are selected and exist.
    pub fn add_selected_song_to_selected_playlist(&mut self)
        ensures
            old(self).adds_song(*final(self)),
            old(self).consistent() && (old(self).add_applies() ==> (level_id(
                old(self).available_levels@[old(self).selected_level->0 as int],
            ) is Some || !lib_ids(old(self).available_levels@).contains(
                song_hash_for(old(self).available_levels@[old(self).selected_level->0 as int]),
            ))) ==> final(self).consistent(),
            old(self).consistent() && old(self).single_refs() && (old(self).add_applies() ==> (
            level_id(old(self).available_levels@[old(self).selected_level->0 as int]) is Some
                || !lib_ids(old(self).custom_levels@).contains(
                song_hash_for(old(self).available_levels@[old(self).selected_level->0 as int]),
            ))) ==> final(self).single_refs(),
    {
        let (p, i) = match (self.selected_playlist, self.selected_level) {
            (Some(p), Some(i)) => (p, i),
            _ => {
                return ;
            },
        };
        if p >= self.playlists.len() || i >= self.available_levels.len() {
            return ;
        }
        let level = self.available_levels.remove(i);
        let hash = match &level.hash {
            Some(h) => h.clone(),
            None => String::from_str("Unknown"),
        };
        proof {
            reveal_strlit("Unknown");
            assert("Unknown"@ =~= seq!['U', 'n', 'k', 'n', 'o', 'w', 'n']);
            assert(hash@ == song_hash_for(old(self).available_levels@[i as int]));
        }
        let song = Song { hash, name: level.song_name.clone() };
        let mut playlist = self.playlists.remove(p);
        playlist.songs.push(song);
        playlist.changed = true;
        self.playlists.insert(p, playlist);
        proof {
            assert(self.playlists@ =~= old(self).playlists@.update(p as int, self.playlists@[p as int]));
            assert(self.playlists@[p as int].songs@ =~= old(self).playlists@[p as int].songs@.push(self.playlists@[p as int].songs@.last()));
            assert(old(self).add_applies());
            assert(self.available_levels@ == old(self).available_levels@.remove(i as int));
            assert(same_playlist_with_songs(
                old(self).playlists@[p as int],
                self.playlists@[p as int],
                old(self).playlists@[p as int].songs@.push(self.playlists@[p as int].songs@.last()),
            ));
            assert(self.same_selection(*old(self)));
            assert(old(self).adds_song(*self));
            lemma_add_keeps_invariants(*old(self), *self);
        }
    }

    /// Takes the selected song out of the selected playlist and marks the
    /// playlist as changed; if the library has the song's level and no song
    /// references it any more, the level goes back to the end of the
    /// available ones. Does nothing unless both are selected and exist.
    pub fn remove_selected_song_from_selected_playlist(&mut self)
        ensures
            old(self).removes_song(*final(self)),
            old(self).consistent() ==> final(self).consistent(),
            old(self).single_refs() ==> final(self).single_refs(),
    {
        let (p, k) = match (self.selected_playlist, self.selected_song) {
            (Some(p), Some(k)) => (p, k),
            _ => {
                return ;
            },
        };
        if p >= self.playlists.len() || k >= self.playlists[p].songs.len() {
            return ;
        }
        let mut playlist = self.playlists.remove(p);
        let song = playlist.songs.remove(k);
        playlist.changed = true;
        self.playlists.insert(p, playlist);
        assert(self.playlists@ =~= old(self).playlists@.update(p as int, self.playlists@[p as int]));
        let found = self.find_level_by_hash(&song.hash);
        if let Some(level) = found {
            if !playlists_reference(&self.playlists, &song.hash) {
                self.available_levels.push(level);
            }
        }
        proof {
            lemma_remove_keeps_invariants(*old(self), *self);
        }
    }

    /// The selected playlist, if the selection names one.
    pub fn get_selected_playlist(&self) -> (r: Option<&Playlist>)
        ensures
            self.playlist_removal_applies() ==> r == Some(
                &self.playlists@[self.selected_playlist->0 as int],
            ),
            !self.playlist_removal_applies() ==> r is None,
    {
        match self.selected_playlist {
            Some(p) => if p < self.playlists.len() {
                Some(&self.playlists[p])
            } else {
                None
            },
            None => None,
        }
    }

    /// The levels of the library that the songs reference and no playlist
    /// does, once each, in the order of their first song.
    fn release_songs(&self, songs: &Vec<Song>) -> (r: Vec<CustomLevel>)
        ensures
            r@ == released(self.custom_levels@, songs@, self.playlists@),
    {
        let mut r: Vec<CustomLevel> = Vec::new();
        let mut k: usize = 0;
        while k < songs.len()
            invariant
                k <= songs@.len(),
                r@ == released(self.custom_levels@, songs@.take(k as int), self.playlists@),
            decreases songs@.len() - k,
        {
            assert(songs@.take(k + 1).drop_last() =~= songs@.take(k as int));
            assert(songs@.take(k + 1).last() == songs@[k as int]);
            let found = self.find_level_by_hash(&songs[k].hash);
            if let Some(level) = found {
                if !playlists_reference(&self.playlists, &songs[k].hash) && !ids_contain(
                    &r,
                    &songs[k].hash,
                ) {
                    r.push(level);
                }
            }
            k = k + 1;
        }
        assert(songs@.take(songs@.len() as int) =~= songs@);
        r
    }

    /// Removes the selected playlist. The levels of the library that its songs
    /// referenced and no other playlist references go back to the available
    /// ones, once each, which are sorted again, and no playlist is selected
    /// afterwards. Does nothing unless a playlist is selected and exists.
    pub fn remove_selected_playlist(&mut self)
        ensures
            old(self).removes_playlist(*final(self)),
            old(self).consistent() ==> final(self).consistent(),
            old(self).single_refs() ==> final(self).single_refs(),
    {
        let p = match self.selected_playlist {
            Some(p) => p,
            None => {
                return ;
            },
        };
        if p >= self.playlists.len() {
            return ;
        }
        let removed = self.playlists.remove(p);
        self.selected_playlist = None;
        let mut levels = self.release_songs(&removed.songs);
        self.available_levels.append(&mut levels);
        proof {
            lemma_remove_playlist_keeps_invariants(*old(self), *self);
        }
        self.sort();
    }
}

/// The levels that `released` gives are levels of the library, one per
/// identity, and carry exactly the library's identities that the songs
/// reference and `rest` does not.
proof fn lemma_released(levels: Seq<CustomLevel>, songs: Seq<Song>, rest: Seq<Playlist>)
    ensures
        forall|i: int|
            0 <= i < released(levels, songs, rest).len() ==> levels.contains(
                #[trigger] released(levels, songs, rest)[i],
            ),
        forall|h: Seq<char>|
            #[trigger] lib_ids(released(levels, songs, rest)).contains(h) <==> (lib_ids(
                levels,
            ).contains(h) && songs_reference(songs, h) && !referenced(rest, h)),
        ids_unique(released(levels, songs, rest)),
    decreases songs.len(),
{
    let r = released(levels, songs, rest);
    if songs.len() == 0 {
        return ;
    }
    let d = songs.drop_last();
    let v = released(levels, d, rest);
    let h = songs.last().hash@;
    lemma_released(levels, d, rest);
    lemma_level_index(levels, h);
    let pushed = r.len() > v.len();
    if pushed {
        assert(r == v.push(levels[level_index(levels, h)->0]));
        assert(!lib_ids(v).contains(h));
    } else {
        assert(r == v);
    }
    assert forall|i: int| 0 <= i < r.len() implies levels.contains(#[trigger] r[i]) by {
        if i < v.len() {
            assert(r[i] == v[i]);
        } else {
            let j = level_index(levels, h)->0;
            assert(r[i] == levels[j]);
        }
    }
    assert forall|x: Seq<char>|
        #[trigger] lib_ids(r).contains(x) <==> (lib_ids(levels).contains(x) && songs_reference(
            songs,
            x,
        ) && !referenced(rest, x)) by {
        if songs_reference(songs, x) {
            let k = choose|k: int| 0 <= k < songs.len() && (#[trigger] songs[k]).hash@ == x;
            if k < d.len() {
                assert(d[k] == songs[k]);
                assert(songs_reference(d, x));
            }
        }
        if songs_reference(d, x) {
            let k = choose|k: int| 0 <= k < d.len() && (#[trigger] d[k]).hash@ == x;
            assert(songs[k] == d[k]);
        }
        if lib_ids(v).contains(x) {
            let i = choose|i: int| 0 <= i < v.len() && #[trigger] level_id(v[i]) == Some(x);
            assert(r[i] == v[i]);
        }
        if lib_ids(r).contains(x) {
            let i = choose|i: int| 0 <= i < r.len() && #[trigger] level_id(r[i]) == Some(x);
            if i < v.len() {
                assert(r[i] == v[i]);
            }
        }
        if x == h && lib_ids(levels).contains(x) && !referenced(rest, x) && !lib_ids(v).contains(x) {
            assert(level_id(r[r.len() - 1]) == Some(x));
        }
    }
    if pushed {
        assert forall|a: int, b: int|
            0 <= a < r.len() && 0 <= b < r.len() && a != b && (#[trigger] level_id(r[a])) is Some
                implies level_id(r[a]) != #[trigger] level_id(r[b]) by {
            if a < v.len() && b < v.len() {
                assert(r[a] == v[a] && r[b] == v[b]);
            } else if a < v.len() {
                assert(r[a] == v[a]);
                assert(lib_ids(v).contains(level_id(v[a])->0));
            } else {
                assert(r[b] == v[b]);
                if level_id(v[b]) is Some {
                    assert(lib_ids(v).contains(level_id(v[b])->0));
                }
            }
        }
    }
}

/// Removing a playlist, with the levels that only it referenced back among
/// the available ones, keeps the available levels exact; and references stay
/// single.
proof fn lemma_remove_playlist_keeps_invariants(s: App, t: App)
    requires
        s.playlist_removal_applies(),
        t.playlists@ == s.playlists@.remove(s.selected_playlist->0 as int),
        t.available_levels@ == s.available_with_selected_playlist(),
        t.custom_levels == s.custom_levels,
    ensures
        s.consistent() ==> t.consistent(),
        s.single_refs() ==> t.single_refs(),
{
    let p = s.selected_playlist->0 as int;
    let songs = s.playlists@[p].songs@;
    let lib = s.custom_levels@;
    let sa = s.available_levels@;
    let rest = t.playlists@;
    let rs = released(lib, songs, rest);
    let ta = t.available_levels@;
    lemma_released(lib, songs, rest);
    // a playlist of `t` at q is the one of `s` at q, or at q + 1 from `p` on
    assert forall|q: int| 0 <= q < t.playlists@.len() implies #[trigger] t.playlists@[q]
        == s.playlists@[index_past(q, p)] by {}
    if s.consistent() {
        assert forall|x: Seq<char>| #[trigger] referenced(rest, x) implies referenced(s.playlists@, x) by {
            let q = choose|q: int|
                0 <= q < rest.len() && songs_reference(#[trigger] rest[q].songs@, x);
            assert(rest[q] == s.playlists@[index_past(q, p)]);
        }
        assert forall|x: Seq<char>|
            referenced(s.playlists@, x) && !songs_reference(songs, x) implies #[trigger] referenced(
                rest,
                x,
            ) by {
            let q = choose|q: int|
                0 <= q < s.playlists@.len() && songs_reference(#[trigger] s.playlists@[q].songs@, x);
            assert(q != p);
            let q1 = if q < p { q } else { q - 1 };
            assert(rest[q1] == s.playlists@[q]);
        }
        assert forall|a: int| 0 <= a < ta.len() implies t.custom_levels@.contains(#[trigger] ta[a]) by {
            if a < sa.len() {
                assert(ta[a] == sa[a]);
            } else {
                assert(ta[a] == rs[a - sa.len()]);
            }
        }
        assert forall|x: Seq<char>| lib_ids(rs).contains(x) implies !lib_ids(sa).contains(x) by {
            assert(songs_reference(songs, x));
            assert(songs_reference(s.playlists@[p].songs@, x));
            assert(referenced(s.playlists@, x));
        }
        assert forall|a: int, b: int|
            0 <= a < ta.len() && 0 <= b < ta.len() && a != b && (#[trigger] level_id(ta[a])) is Some
                implies level_id(ta[a]) != #[trigger] level_id(ta[b]) by {
            if a < sa.len() && b < sa.len() {
                assert(ta[a] == sa[a] && ta[b] == sa[b]);
            } else if a >= sa.len() && b >= sa.len() {
                assert(ta[a] == rs[a - sa.len()] && ta[b] == rs[b - sa.len()]);
            } else if a < sa.len() {
                assert(ta[a] == sa[a] && ta[b] == rs[b - sa.len()]);
                assert(lib_ids(sa).contains(level_id(sa[a])->0));
                if level_id(rs[b - sa.len()]) == level_id(sa[a]) {
                    assert(lib_ids(rs).contains(level_id(sa[a])->0));
                }
            } else {
                assert(ta[a] == rs[a - sa.len()] && ta[b] == sa[b]);
                assert(lib_ids(rs).contains(level_id(rs[a - sa.len()])->0));
                if level_id(rs[a - sa.len()]) == level_id(sa[b]) {
                    assert(lib_ids(sa).contains(level_id(sa[b])->0));
                }
            }
        }
        assert forall|x: Seq<char>|
            lib_ids(ta).contains(x) <==> lib_ids(t.custom_levels@).difference(ref_ids(rest)).contains(
                x,
            ) by {
            if lib_ids(ta).contains(x) {
                let a = choose|a: int| 0 <= a < ta.len() && #[trigger] level_id(ta[a]) == Some(x);
                if a < sa.len() {
                    assert(ta[a] == sa[a]);
                    assert(lib_ids(sa).contains(x));
                } else {
                    assert(ta[a] == rs[a - sa.len()]);
                    assert(lib_ids(rs).contains(x));
                }
            }
            if lib_ids(sa).contains(x) {
                let a = choose|a: int| 0 <= a < sa.len() && #[trigger] level_id(sa[a]) == Some(x);
                assert(ta[a] == sa[a]);
            }
            if lib_ids(rs).contains(x) {
                let a = choose|a: int| 0 <= a < rs.len() && #[trigger] level_id(rs[a]) == Some(x);
                assert(ta[a + sa.len()] == rs[a]);
                assert(lib_ids(ta).contains(x));
            }
            if lib_ids(lib).contains(x) && !referenced(rest, x) && referenced(s.playlists@, x) {
                assert(songs_reference(songs, x));
                assert(lib_ids(rs).contains(x));
            }
        }
        assert(lib_ids(ta) =~= lib_ids(t.custom_levels@).difference(ref_ids(rest)));
    }
    if s.single_refs() {
        assert forall|q1: int, k1: int, q2: int, k2: int|
            0 <= q1 < t.playlists@.len() && 0 <= q2 < t.playlists@.len() && 0 <= k1
                < t.playlists@[q1].songs@.len() && 0 <= k2 < t.playlists@[q2].songs@.len() && (q1
                != q2 || k1 != k2) && (#[trigger] t.playlists@[q1].songs@[k1]).hash@ == (
            #[trigger] t.playlists@[q2].songs@[k2]).hash@ implies !lib_ids(
                t.custom_levels@,
            ).contains(t.playlists@[q1].songs@[k1].hash@) by {
            let a1 = if q1 < p { q1 } else { q1 + 1 };
            let a2 = if q2 < p { q2 } else { q2 + 1 };
            assert(t.playlists@[q1] == s.playlists@[a1]);
            assert(t.playlists@[q2] == s.playlists@[a2]);
            assert(s.playlists@[a1].songs@[k1] == t.playlists@[q1].songs@[k1]);
            assert(s.playlists@[a2].songs@[k2] == t.playlists@[q2].songs@[k2]);
        }
    }
}

/// Adding an available level that has an identity to a playlist and then
/// taking that same song out again gives back the same available levels
/// (the same multiset), and the playlist's songs as they were.
pub proof fn lemma_add_then_remove_restores(s0: App, s1: App, s2: App)
    requires
        s0.consistent(),
        s0.add_applies(),
        level_id(s0.available_levels@[s0.selected_level->0 as int]) is Some,
        s0.selected_song is Some,
        s0.selected_song->0 == s0.playlists@[s0.selected_playlist->0 as int].songs@.len(),
        s0.adds_song(s1),
        s1.removes_song(s2),
    ensures
        s2.available_levels@.to_multiset() == s0.available_levels@.to_multiset(),
        s2.playlists@[s0.selected_playlist->0 as int].songs@ == s0.playlists@[s0.selected_playlist->0 as int].songs@,
        s2.playlists@.len() == s0.playlists@.len(),
{
    let p = s0.selected_playlist->0 as int;
    let i = s0.selected_level->0 as int;
    let l = s0.available_levels@[i];
    let h = level_id(l)->0;
    let n = s0.playlists@[p].songs@.len();
    let lib = s0.custom_levels@;
    assert(s1.removal_applies());
    assert(s1.selected_song_ref() == s1.playlists@[p].songs@[n as int]);
    assert(s1.selected_song_ref().hash@ == h);
    lemma_level_index(lib, h);
    let j = level_index(lib, h)->0;
    assert(lib.contains(l));
    let w = choose|w: int| 0 <= w < lib.len() && lib[w] == l;
    assert(level_id(lib[w]) == Some(h));
    assert(w == j);
    assert(s2.playlists@[p].songs@ =~= s0.playlists@[p].songs@);
    assert(lib_ids(s0.available_levels@).contains(h)) by {
        assert(level_id(s0.available_levels@[i]) == Some(h));
    }
    assert(!referenced(s2.playlists@, h)) by {
        if referenced(s2.playlists@, h) {
            let q = choose|q: int|
                0 <= q < s2.playlists@.len() && songs_reference(#[trigger] s2.playlists@[q].songs@, h);
            if q != p {
                assert(s2.playlists@[q] == s1.playlists@[q]);
                assert(s1.playlists@[q] == s0.playlists@[q]);
            }
            assert(songs_reference(s0.playlists@[q].songs@, h));
        }
    }
    assert(s2.available_levels@ == s0.available_levels@.remove(i).push(l));
    broadcast use vstd::seq_lib::group_to_multiset_ensures;
    assert(s0.available_levels@.remove(i).to_multiset() =~= s0.available_levels@.to_multiset().remove(l));
    assert(s0.available_levels@.to_multiset().count(l) > 0);
    assert(s2.available_levels@.to_multiset() =~= s0.available_levels@.to_multiset());
}

/// Taking out a song whose level the library does not have leaves the
/// available levels as they were; in a consistent state none of them carries
/// the song's hash.
pub proof fn lemma_dangling_song_not_restored(s1: App, s2: App)
    requires
        s1.removal_applies(),
        !lib_ids(s1.custom_levels@).contains(s1.selected_song_ref().hash@),
        s1.removes_song(s2),
    ensures
        s2.available_levels@ == s1.available_levels@,
        s1.consistent() ==> !lib_ids(s2.available_levels@).contains(
            s1.selected_song_ref().hash@,
        ),
{
    lemma_level_index(s1.custom_levels@, s1.selected_song_ref().hash@);
}

/// Some playlist carries a title exactly when the count of such playlists is
/// not zero.
proof fn lemma_count_titled(ps: Seq<Playlist>, t: Seq<char>)
    ensures
        (count_titled(ps, t) > 0) == has_title(ps, t),
    decreases ps.len(),
{
    if ps.len() > 0 {
        let d = ps.drop_last();
        lemma_count_titled(d, t);
        if has_title(d, t) {
            let q = choose|q: int| 0 <= q < d.len() && (#[trigger] d[q]).title@ == t;
            assert(ps[q] == d[q]);
        }
        if has_title(ps, t) {
            let q = choose|q: int| 0 <= q < ps.len() && (#[trigger] ps[q]).title@ == t;
            if q < d.len() {
                assert(ps[q] == d[q]);
            }
        }
    }
}

/// Asking twice to create a playlist with a title that at most one playlist
/// carries leaves exactly one playlist with that title; the second request
/// changes nothing.
pub proof fn lemma_create_twice_keeps_one(s0: App, s1: App, s2: App)
    requires
        count_titled(s0.playlists@, s0.text_input@) <= 1,
        s0.creates_playlist(s1),
        s1.creates_playlist(s2),
    ensures
        count_titled(s2.playlists@, s0.text_input@) == 1,
        s2 == s1,
{
    let t = s0.text_input@;
    lemma_count_titled(s0.playlists@, t);
    if !has_title(s0.playlists@, t) {
        assert(s1.playlists@.drop_last() =~= s0.playlists@);
        assert(s1.playlists@[s1.playlists@.len() - 1].title@ == t);
    }
    lemma_count_titled(s1.playlists@, t);
}

/// The position that `q` had before the item at `p` was taken out.
spec fn index_past(q: int, p: int) -> int {
    if q < p {
        q
    } else {
        q + 1
    }
}

/// A new playlist with no songs references nothing.
proof fn lemma_refs_after_new_playlist(ps: Seq<Playlist>, next: Seq<Playlist>)
    requires
        next.len() == ps.len() + 1,
        forall|q: int| 0 <= q < ps.len() ==> next[q] == #[trigger] ps[q],
        next.last().songs@.len() == 0,
    ensures
        forall|h: Seq<char>| referenced(next, h) == referenced(ps, h),
{
    assert forall|h: Seq<char>| referenced(next, h) == referenced(ps, h) by {
        if referenced(next, h) {
            let q = choose|q: int| 0 <= q < next.len() && songs_reference(#[trigger] next[q].songs@, h);
            if q < ps.len() {
                assert(next[q] == ps[q]);
            }
        }
        if referenced(ps, h) {
            let q = choose|q: int| 0 <= q < ps.len() && songs_reference(#[trigger] ps[q].songs@, h);
            assert(next[q] == ps[q]);
        }
    }
}

/// Where `level_index` finds a level, and that it finds one exactly for the
/// identities of the library.
proof fn lemma_level_index(levels: Seq<CustomLevel>, h: Seq<char>)
    ensures
        match level_index(levels, h) {
            Some(j) => 0 <= j < levels.len() && level_id(levels[j]) == Some(h) && lib_ids(
                levels,
            ).contains(h),
            None => !lib_ids(levels).contains(h),
        },
    decreases levels.len(),
{
    if levels.len() > 0 {
        let d = levels.drop_last();
        lemma_level_index(d, h);
        match level_index(d, h) {
            Some(j) => {
                assert(levels[j] == d[j]);
            },
            None => {
                if lib_ids(levels).contains(h) {
                    let i = choose|i: int|
                        0 <= i < levels.len() && #[trigger] level_id(levels[i]) == Some(h);
                    if i < d.len() {
                        assert(d[i] == levels[i]);
                    }
                }
            },
        }
    }
}

/// Adding an available level to a playlist keeps the available levels exact,
/// given that the song's hash names no other available level; and keeps
/// references single, given that it names no other level of the library.
proof fn lemma_add_keeps_invariants(s: App, t: App)
    requires
        s.adds_song(t),
        s.add_applies(),
    ensures
        s.consistent() && (level_id(s.available_levels@[s.selected_level->0 as int]) is Some
            || !lib_ids(s.available_levels@).contains(
            song_hash_for(s.available_levels@[s.selected_level->0 as int]),
        )) ==> t.consistent(),
        s.consistent() && s.single_refs() && (level_id(
            s.available_levels@[s.selected_level->0 as int],
        ) is Some || !lib_ids(s.custom_levels@).contains(
            song_hash_for(s.available_levels@[s.selected_level->0 as int]),
        )) ==> t.single_refs(),
{
    let p = s.selected_playlist->0 as int;
    let i = s.selected_level->0 as int;
    let l = s.available_levels@[i];
    let h = song_hash_for(l);
    let n = s.playlists@[p].songs@.len();
    let sa = s.available_levels@;
    let ta = t.available_levels@;
    // the references gain exactly `h`
    assert forall|x: Seq<char>| referenced(t.playlists@, x) == (referenced(s.playlists@, x) || x
        == h) by {
        if referenced(t.playlists@, x) {
            let q = choose|q: int|
                0 <= q < t.playlists@.len() && songs_reference(#[trigger] t.playlists@[q].songs@, x);
            let j = choose|j: int|
                0 <= j < t.playlists@[q].songs@.len() && (#[trigger] t.playlists@[q].songs@[j]).hash@
                    == x;
            if q != p {
                assert(t.playlists@[q] == s.playlists@[q]);
            } else if j < n {
                assert(t.playlists@[q].songs@[j] == s.playlists@[q].songs@[j]);
            }
        }
        if referenced(s.playlists@, x) {
            let q = choose|q: int|
                0 <= q < s.playlists@.len() && songs_reference(#[trigger] s.playlists@[q].songs@, x);
            let j = choose|j: int|
                0 <= j < s.playlists@[q].songs@.len() && (#[trigger] s.playlists@[q].songs@[j]).hash@
                    == x;
            if q != p {
                assert(t.playlists@[q] == s.playlists@[q]);
            } else {
                assert(t.playlists@[q].songs@[j] == s.playlists@[q].songs@[j]);
            }
        }
        if x == h {
            assert(t.playlists@[p].songs@[n as int].hash@ == h);
        }
    }
    if s.consistent() && (level_id(l) is Some || !lib_ids(sa).contains(h)) {
        assert forall|a: int| 0 <= a < ta.len() implies t.custom_levels@.contains(#[trigger] ta[a]) by {
            if a < i {
                assert(ta[a] == sa[a]);
            } else {
                assert(ta[a] == sa[a + 1]);
            }
        }
        assert forall|a: int, b: int|
            0 <= a < ta.len() && 0 <= b < ta.len() && a != b && (#[trigger] level_id(ta[a])) is Some
                implies level_id(ta[a]) != #[trigger] level_id(ta[b]) by {
            let a1 = if a < i { a } else { a + 1 };
            let b1 = if b < i { b } else { b + 1 };
            assert(ta[a] == sa[a1] && ta[b] == sa[b1]);
        }
        assert forall|x: Seq<char>|
            lib_ids(ta).contains(x) <==> lib_ids(t.custom_levels@).difference(
                ref_ids(t.playlists@),
            ).contains(x) by {
            if lib_ids(ta).contains(x) {
                let a = choose|a: int| 0 <= a < ta.len() && #[trigger] level_id(ta[a]) == Some(x);
                let a1 = if a < i { a } else { a + 1 };
                assert(ta[a] == sa[a1]);
                assert(lib_ids(sa).contains(x));
                assert(a1 != i);
            }
            if lib_ids(sa).contains(x) && x != h {
                let a = choose|a: int| 0 <= a < sa.len() && #[trigger] level_id(sa[a]) == Some(x);
                if a < i {
                    assert(ta[a] == sa[a]);
                } else {
                    assert(a != i);
                    assert(ta[a - 1] == sa[a]);
                }
            }
            if lib_ids(sa).contains(x) && x == h {
                assert(level_id(l) == Some(h) || !lib_ids(sa).contains(h));
                assert(lib_ids(s.custom_levels@).difference(ref_ids(s.playlists@)).contains(x));
            }
        }
        assert(lib_ids(ta) =~= lib_ids(t.custom_levels@).difference(ref_ids(t.playlists@)));
    }
    if s.consistent() && s.single_refs() && (level_id(l) is Some || !lib_ids(s.custom_levels@).contains(h)) {
        assert(!referenced(s.playlists@, h) || !lib_ids(s.custom_levels@).contains(h)) by {
            if level_id(l) is Some {
                assert(level_id(sa[i]) == Some(h));
                assert(lib_ids(sa).contains(h));
            }
        }
        assert forall|q1: int, k1: int, q2: int, k2: int|
            0 <= q1 < t.playlists@.len() && 0 <= q2 < t.playlists@.len() && 0 <= k1
                < t.playlists@[q1].songs@.len() && 0 <= k2 < t.playlists@[q2].songs@.len() && (q1
                != q2 || k1 != k2) && (#[trigger] t.playlists@[q1].songs@[k1]).hash@ == (
            #[trigger] t.playlists@[q2].songs@[k2]).hash@ implies !lib_ids(
                t.custom_levels@,
            ).contains(t.playlists@[q1].songs@[k1].hash@) by {
            let is_new1 = q1 == p && k1 == n;
            let is_new2 = q2 == p && k2 == n;
            if !is_new1 {
                if q1 != p {
                    assert(t.playlists@[q1] == s.playlists@[q1]);
                } else {
                    assert(t.playlists@[q1].songs@[k1] == s.playlists@[q1].songs@[k1]);
                }
            }
            if !is_new2 {
                if q2 != p {
                    assert(t.playlists@[q2] == s.playlists@[q2]);
                } else {
                    assert(t.playlists@[q2].songs@[k2] == s.playlists@[q2].songs@[k2]);
                }
            }
            if is_new1 && !is_new2 {
                assert(songs_reference(s.playlists@[q2].songs@, h));
                assert(referenced(s.playlists@, h));
            }
            if is_new2 && !is_new1 {
                assert(songs_reference(s.playlists@[q1].songs@, h));
                assert(referenced(s.playlists@, h));
            }
        }
    }
}

/// Taking a song out keeps the available levels exact, and keeps references
/// single.
proof fn lemma_remove_keeps_invariants(s: App, t: App)
    requires
        s.removes_song(t),
        s.removal_applies(),
    ensures
        s.consistent() ==> t.consistent(),
        s.single_refs() ==> t.single_refs(),
{
    let p = s.selected_playlist->0 as int;
    let k = s.selected_song->0 as int;
    let h = s.selected_song_ref().hash@;
    let sa = s.available_levels@;
    let ta = t.available_levels@;
    let olds = s.playlists@[p].songs@;
    let news = t.playlists@[p].songs@;
    assert(news == olds.remove(k));
    lemma_level_index(s.custom_levels@, h);
    // a song of `t` at (q, j) sits in `s` at (q, j) or, past `k` in `p`, at (q, j + 1)
    assert forall|x: Seq<char>| #[trigger] referenced(t.playlists@, x) implies referenced(s.playlists@, x) by {
        if referenced(t.playlists@, x) {
            let q = choose|q: int|
                0 <= q < t.playlists@.len() && songs_reference(#[trigger] t.playlists@[q].songs@, x);
            let j = choose|j: int|
                0 <= j < t.playlists@[q].songs@.len() && (#[trigger] t.playlists@[q].songs@[j]).hash@
                    == x;
            if q != p {
                assert(t.playlists@[q] == s.playlists@[q]);
            } else if j < k {
                assert(news[j] == olds[j]);
            } else {
                assert(news[j] == olds[j + 1]);
            }
        }
    }
    assert forall|x: Seq<char>|
        referenced(s.playlists@, x) && x != h implies #[trigger] referenced(t.playlists@, x) by {
        if referenced(s.playlists@, x) && x != h {
            let q = choose|q: int|
                0 <= q < s.playlists@.len() && songs_reference(#[trigger] s.playlists@[q].songs@, x);
            let j = choose|j: int|
                0 <= j < s.playlists@[q].songs@.len() && (#[trigger] s.playlists@[q].songs@[j]).hash@
                    == x;
            if q != p {
                assert(t.playlists@[q] == s.playlists@[q]);
            } else if j < k {
                assert(news[j] == olds[j]);
            } else {
                assert(j != k);
                assert(news[j - 1] == olds[j]);
            }
        }
    }
    assert(songs_reference(s.playlists@[p].songs@, h));
    assert(referenced(s.playlists@, h));
    if s.consistent() {
        assert(!lib_ids(sa).contains(h));
        if level_index(s.custom_levels@, h) is Some && !referenced(t.playlists@, h) {
            let j = level_index(s.custom_levels@, h)->0;
            let lv = s.custom_levels@[j];
            assert(ta == sa.push(lv));
            assert forall|a: int| 0 <= a < ta.len() implies t.custom_levels@.contains(
                #[trigger] ta[a],
            ) by {
                if a < sa.len() {
                    assert(ta[a] == sa[a]);
                } else {
                    assert(ta[a] == t.custom_levels@[j]);
                }
            }
            assert forall|a: int, b: int|
                0 <= a < ta.len() && 0 <= b < ta.len() && a != b && (#[trigger] level_id(
                    ta[a],
                )) is Some implies level_id(ta[a]) != #[trigger] level_id(ta[b]) by {
                if a < sa.len() && b < sa.len() {
                    assert(ta[a] == sa[a] && ta[b] == sa[b]);
                } else if a < sa.len() {
                    assert(ta[a] == sa[a]);
                    assert(lib_ids(sa).contains(level_id(sa[a])->0));
                } else {
                    assert(ta[b] == sa[b]);
                    if level_id(sa[b]) is Some {
                        assert(lib_ids(sa).contains(level_id(sa[b])->0));
                    }
                }
            }
            assert forall|x: Seq<char>|
                lib_ids(ta).contains(x) <==> lib_ids(t.custom_levels@).difference(
                    ref_ids(t.playlists@),
                ).contains(x) by {
                if lib_ids(ta).contains(x) {
                    let a = choose|a: int| 0 <= a < ta.len() && #[trigger] level_id(ta[a]) == Some(x);
                    if a < sa.len() {
                        assert(ta[a] == sa[a]);
                        assert(lib_ids(sa).contains(x));
                    }
                }
                if lib_ids(sa).contains(x) {
                    let a = choose|a: int| 0 <= a < sa.len() && #[trigger] level_id(sa[a]) == Some(x);
                    assert(ta[a] == sa[a]);
                }
                if x == h {
                    assert(level_id(ta[sa.len() as int]) == Some(h));
                }
            }
            assert(lib_ids(ta) =~= lib_ids(t.custom_levels@).difference(ref_ids(t.playlists@)));
        } else {
            assert(ta == sa);
            assert forall|x: Seq<char>|
                lib_ids(ta).contains(x) <==> lib_ids(t.custom_levels@).difference(
                    ref_ids(t.playlists@),
                ).contains(x) by {
                if x != h {
                    assert(referenced(t.playlists@, x) == referenced(s.playlists@, x));
                }
            }
            assert(lib_ids(ta) =~= lib_ids(t.custom_levels@).difference(ref_ids(t.playlists@)));
        }
    }
    if s.single_refs() {
        assert forall|q1: int, k1: int, q2: int, k2: int|
            0 <= q1 < t.playlists@.len() && 0 <= q2 < t.playlists@.len() && 0 <= k1
                < t.playlists@[q1].songs@.len() && 0 <= k2 < t.playlists@[q2].songs@.len() && (q1
                != q2 || k1 != k2) && (#[trigger] t.playlists@[q1].songs@[k1]).hash@ == (
            #[trigger] t.playlists@[q2].songs@[k2]).hash@ implies !lib_ids(
                t.custom_levels@,
            ).contains(t.playlists@[q1].songs@[k1].hash@) by {
            let j1 = if q1 == p && k1 >= k { k1 + 1 } else { k1 };
            let j2 = if q2 == p && k2 >= k { k2 + 1 } else { k2 };
            if q1 != p {
                assert(t.playlists@[q1] == s.playlists@[q1]);
            } else if k1 < k {
                assert(news[k1] == olds[k1]);
            } else {
                assert(news[k1] == olds[k1 + 1]);
            }
            if q2 != p {
                assert(t.playlists@[q2] == s.playlists@[q2]);
            } else if k2 < k {
                assert(news[k2] == olds[k2]);
            } else {
                assert(news[k2] == olds[k2 + 1]);
            }
            assert(s.playlists@[q1].songs@[j1] == t.playlists@[q1].songs@[k1]);
            assert(s.playlists@[q2].songs@[j2] == t.playlists@[q2].songs@[k2]);
        }
    }
}

/// The levels that no playlist references.
fn unreferenced_levels(levels: &Vec<CustomLevel>, playlists: &Vec<Playlist>) -> (r: Vec<
    CustomLevel,
>)
    ensures
        r@ == unreferenced(levels@, playlists@),
{
    let mut r: Vec<CustomLevel> = Vec::new();
    let mut k: usize = 0;
    while k < levels.len()
        invariant
            k <= levels@.len(),
            r@ == unreferenced(levels@.take(k as int), playlists@),
        decreases levels@.len() - k,
    {
        assert(levels@.take(k + 1).drop_last() =~= levels@.take(k as int));
        assert(levels@.take(k + 1).last() == levels@[k as int]);
        if !is_level_referenced(playlists, &levels[k]) {
            r.push(levels[k].copy());
        }
        k = k + 1;
    }
    assert(levels@.take(levels@.len() as int) =~= levels@);
    r
}

/// The unreferenced levels are levels of the library, keep their identities
/// apart, and carry exactly the identities that no playlist references.
proof fn lemma_unreferenced(levels: Seq<CustomLevel>, ps: Seq<Playlist>)
    ensures
        forall|i: int|
            0 <= i < unreferenced(levels, ps).len() ==> levels.contains(
                #[trigger] unreferenced(levels, ps)[i],
            ),
        ids_unique(levels) ==> ids_unique(unreferenced(levels, ps)),
        lib_ids(unreferenced(levels, ps)) == lib_ids(levels).difference(ref_ids(ps)),
    decreases levels.len(),
{
    let u = unreferenced(levels, ps);
    if levels.len() == 0 {
        assert(lib_ids(u) =~= lib_ids(levels).difference(ref_ids(ps)));
    } else {
        let d = levels.drop_last();
        let v = unreferenced(d, ps);
        let last = levels.last();
        lemma_unreferenced(d, ps);
        assert forall|i: int| 0 <= i < u.len() implies levels.contains(#[trigger] u[i]) by {
            if i < v.len() {
                assert(u[i] == v[i]);
                assert(d.contains(v[i]));
                let w = choose|w: int| 0 <= w < d.len() && d[w] == v[i];
                assert(levels[w] == d[w]);
            } else {
                assert(u[i] == levels[levels.len() - 1]);
            }
        }
        if ids_unique(levels) {
            assert forall|i: int, j: int|
                0 <= i < d.len() && 0 <= j < d.len() && i != j && (#[trigger] level_id(
                    d[i],
                )) is Some implies level_id(d[i]) != #[trigger] level_id(d[j]) by {
                assert(d[i] == levels[i] && d[j] == levels[j]);
            }
            assert forall|i: int|
                0 <= i < v.len() && level_id(last) is Some implies #[trigger] level_id(v[i])
                != level_id(last) by {
                assert(d.contains(v[i]));
                let w = choose|w: int| 0 <= w < d.len() && d[w] == v[i];
                assert(levels[w] == d[w]);
            }
            assert forall|i: int, j: int|
                0 <= i < u.len() && 0 <= j < u.len() && i != j && (#[trigger] level_id(
                    u[i],
                )) is Some implies level_id(u[i]) != #[trigger] level_id(u[j]) by {
                if i < v.len() && j < v.len() {
                    assert(u[i] == v[i] && u[j] == v[j]);
                } else if i < v.len() {
                    assert(u[i] == v[i]);
                    assert(u[j] == last);
                } else {
                    assert(u[j] == v[j]);
                    assert(u[i] == last);
                }
            }
        }
        assert forall|h: Seq<char>|
            lib_ids(u).contains(h) <==> lib_ids(levels).difference(ref_ids(ps)).contains(h) by {
            if lib_ids(d).contains(h) {
                let i = choose|i: int| 0 <= i < d.len() && #[trigger] level_id(d[i]) == Some(h);
                assert(levels[i] == d[i]);
            }
            if lib_ids(levels).contains(h) {
                let i = choose|i: int| 0 <= i < levels.len() && #[trigger] level_id(levels[i]) == Some(h);
                if i < d.len() {
                    assert(d[i] == levels[i]);
                }
            }
            if lib_ids(v).contains(h) {
                let i = choose|i: int| 0 <= i < v.len() && #[trigger] level_id(v[i]) == Some(h);
                assert(u[i] == v[i]);
            }
            if lib_ids(u).contains(h) {
                let i = choose|i: int| 0 <= i < u.len() && #[trigger] level_id(u[i]) == Some(h);
                if i < v.len() {
                    assert(u[i] == v[i]);
                }
            }
            if level_id(last) == Some(h) && !referenced(ps, h) {
                assert(level_id(u[u.len() - 1]) == Some(h));
            }
        }
        assert(lib_ids(u) =~= lib_ids(levels).difference(ref_ids(ps)));
    }
}

/// A match in a prefix is the match in the whole sequence.
proof fn lemma_level_index_prefix(levels: Seq<CustomLevel>, n: int, h: Seq<char>)
    requires
        0 <= n <= levels.len(),
        level_index(levels.take(n), h) is Some,
    ensures
        level_index(levels, h) == level_index(levels.take(n), h),
    decreases levels.len(),
{
    if n < levels.len() {
        assert(levels.drop_last().take(n) =~= levels.take(n));
        lemma_level_index_prefix(levels.drop_last(), n, h);
    } else {
        assert(levels.take(n) =~= levels);
    }
}

} // verus!
