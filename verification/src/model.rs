//! Core shared types: the key-to-file map of a preset, presets themselves,
//! persisted settings with per-device routing memory, and live cue state.
//!
//! A file path is held as its components (`FilePath`): the logic compares,
//! orders and copies paths, and filesystem paths compare component by
//! component.

use vstd::multiset::Multiset;
use vstd::prelude::*;

use crate::key::{key_at, key_index, lemma_key_index_inverse, Key};

verus! {

/// One component of a file path.
#[derive(Clone, Debug, PartialEq, Eq)]
pub enum PathPart {
    /// A drive or share prefix, by its text.
    Prefix(String),
    /// The root separator.
    RootDir,
    /// A `.` kept at the start of a relative path.
    CurDir,
    /// A `..`.
    ParentDir,
    /// A file or folder name.
    Normal(String),
}

/// A component as characters: its kind's rank (`0` prefix, `1` root,
/// `2` current, `3` parent, `4` name), then its text. Components compare as
/// these sequences do.
pub open spec fn part_view(p: PathPart) -> Seq<char> {
    match p {
        PathPart::Prefix(s) => seq!['0'] + s@,
        PathPart::RootDir => seq!['1'],
        PathPart::CurDir => seq!['2'],
        PathPart::ParentDir => seq!['3'],
        PathPart::Normal(s) => seq!['4'] + s@,
    }
}

/// A file path, as its sequence of components.
#[derive(Clone, Debug, PartialEq, Eq)]
pub struct FilePath {
    pub parts: Vec<PathPart>,
}

impl View for FilePath {
    type V = Seq<Seq<char>>;

    open spec fn view(&self) -> Seq<Seq<char>> {
        self.parts@.map_values(|p: PathPart| part_view(p))
    }
}

impl PathPart {
    /// A copy of this component.
    pub fn copy(&self) -> (r: PathPart)
        ensures
            part_view(r) == part_view(*self),
    {
        match self {
            PathPart::Prefix(s) => PathPart::Prefix(s.clone()),
            PathPart::RootDir => PathPart::RootDir,
            PathPart::CurDir => PathPart::CurDir,
            PathPart::ParentDir => PathPart::ParentDir,
            PathPart::Normal(s) => PathPart::Normal(s.clone()),
        }
    }
}

impl FilePath {
    /// The empty path.
    pub fn empty() -> (r: FilePath)
        ensures
            r@ == Seq::<Seq<char>>::empty(),
    {
        let r = FilePath { parts: Vec::new() };
        assert(r@ =~= Seq::<Seq<char>>::empty());
        r
    }

    /// A copy of this path.
    pub fn copy(&self) -> (r: FilePath)
        ensures
            r@ == self@,
    {
        let n = self.parts.len();
        let mut parts: Vec<PathPart> = Vec::new();
        let mut i: usize = 0;
        while i < n
            invariant
                n == self.parts@.len(),
                i <= n,
                parts@.len() == i,
                forall|j: int| 0 <= j < i ==> part_view(#[trigger] parts@[j]) == part_view(self.parts@[j]),
            decreases n - i,
        {
            parts.push(self.parts[i].copy());
            i += 1;
        }
        let r = FilePath { parts };
        assert(r@ =~= self@);
        r
    }
}

/// Which audio file, if any, plays each key of a preset.
#[derive(Clone, Debug, PartialEq, Eq)]
pub struct KeyFiles {
    slots: [Option<FilePath>; 12],
}

impl KeyFiles {
    /// The path assigned to `k`, if any.
    spec fn slot_path(&self, k: Key) -> Option<Seq<Seq<char>>> {
        match self.slots@[key_index(k)] {
            Some(p) => Some(p@),
            None => None,
        }
    }

    /// A map with no key assigned.
    pub fn new() -> (r: KeyFiles)
        ensures
            r@ == Map::<Key, Seq<Seq<char>>>::empty(),
    {
        let r = KeyFiles {
            slots: [None, None, None, None, None, None, None, None, None, None, None, None],
        };
        assert(r@ =~= Map::<Key, Seq<Seq<char>>>::empty());
        r
    }

    /// The file assigned to `k`, if any.
    pub fn get(&self, k: Key) -> (r: Option<&FilePath>)
        ensures
            r is Some <==> self@.contains_key(k),
            r matches Some(p) ==> p@ == self@[k],
    {
        match &self.slots[k.index()] {
            Some(p) => Some(p),
            None => None,
        }
    }

    /// Whether some key is assigned `path`.
    pub fn has_file(&self, path: &FilePath) -> (r: bool)
        ensures
            r == self@.contains_value(path@),
    {
        let mut i: usize = 0;
        while i < 12
            invariant
                i <= 12,
                forall|j: int| 0 <= j < i ==> !(self@.contains_key(key_at(j)) && self@[key_at(j)] == path@),
            decreases 12 - i,
        {
            let k = Key::from_index(i);
            match self.get(k) {
                Some(p) => {
                    if crate::order::file_path_eq(p, path) {
                        return true;
                    }
                },
                None => {},
            }
            i += 1;
        }
        proof {
            assert forall|k: Key| !(#[trigger] self@.dom().contains(k) && self@[k] == path@) by {
                lemma_key_index_inverse(k);
            }
        }
        false
    }

    /// Assign `path` to `k`, replacing any earlier assignment of `k`.
    pub fn insert(&mut self, k: Key, path: FilePath)
        ensures
            final(self)@ == old(self)@.insert(k, path@),
    {
        let ghost before = self@;
        let i = k.index();
        self.slots[i] = Some(path);
        proof {
            assert forall|k2: Key| #[trigger] key_index(k2) == i implies k2 == k by {}
            assert(self@ =~= before.insert(k, path@));
        }
    }
}

impl View for KeyFiles {
    type V = Map<Key, Seq<Seq<char>>>;

    closed spec fn view(&self) -> Map<Key, Seq<Seq<char>>> {
        Map::new(|k: Key| self.slot_path(k) is Some, |k: Key| self.slot_path(k)->0)
    }
}

/// Reserved id of the built-in "Generated Pads" bank. It maps no files, so
/// every key falls through to the generated pad. Always present; can't be
/// removed.
pub const BUILTIN_SYNTH_ID: &'static str = "__builtin_synth__";

/// A set of pad files (one per key) in one folder.
#[derive(Clone, Debug, PartialEq, Eq)]
pub struct Preset {
    pub id: String,
    pub name: String,
    pub folder: FilePath,
    /// Key → audio file path. May be missing some keys.
    pub files: KeyFiles,
    /// Files whose key couldn't be determined (or lost a conflict), for
    /// manual assignment.
    pub unmapped: Vec<FilePath>,
}

/// The views of a sequence of paths.
pub open spec fn views(v: Seq<FilePath>) -> Seq<Seq<Seq<char>>> {
    v.map_values(|p: FilePath| p@)
}

/// `p` is the built-in generated-pads bank with nothing mapped.
pub open spec fn is_builtin_preset_value(p: Preset) -> bool {
    &&& p.id@ == BUILTIN_SYNTH_ID@
    &&& p.name@ == "Generated Pads"@
    &&& p.folder@ == Seq::<Seq<char>>::empty()
    &&& p.files@ == Map::<Key, Seq<Seq<char>>>::empty()
    &&& p.unmapped@.len() == 0
}

impl Preset {
    /// The built-in synth bank: no folder, no files — pure generated pads.
    pub fn builtin_synth() -> (r: Preset)
        ensures
            is_builtin_preset_value(r),
    {
        Preset {
            id: String::from_str(BUILTIN_SYNTH_ID),
            name: String::from_str("Generated Pads"),
            folder: FilePath::empty(),
            files: KeyFiles::new(),
            unmapped: Vec::new(),
        }
    }

    /// Whether this is the built-in generated-pads bank (by id).
    pub fn is_builtin_synth(&self) -> (r: bool)
        ensures
            r == (self.id@ == BUILTIN_SYNTH_ID@),
    {
        crate::text::str_eq(self.id.as_str(), BUILTIN_SYNTH_ID)
    }
}

/// Saved pad/click/cue routing for one device, so reselecting it restores the
/// channels last picked instead of snapping back to 1/2.
#[derive(Clone, Copy, PartialEq, Eq, Structural, Debug)]
pub struct DeviceRoute {
    pub pad_left: usize,
    pub pad_right: usize,
    pub click_left: usize,
    pub click_right: usize,
    pub cue_left: usize,
    pub cue_right: usize,
}

/// Routing memory: one `DeviceRoute` per device key, at most one entry per key.
#[derive(Debug, PartialEq, Eq)]
pub struct DeviceRoutes {
    entries: Vec<(String, DeviceRoute)>,
}

impl DeviceRoutes {
    #[verifier::type_invariant]
    spec fn keys_distinct(self) -> bool {
        forall|i: int, j: int|
            0 <= i < j < self.entries@.len() ==> (#[trigger] self.entries@[i]).0@
                != (#[trigger] self.entries@[j]).0@
    }

    /// Position of the entry for `key`, if there is one.
    closed spec fn position(self, key: Seq<char>) -> Option<int> {
        if exists|i: int| 0 <= i < self.entries@.len() && (#[trigger] self.entries@[i]).0@ == key {
            Some(choose|i: int| 0 <= i < self.entries@.len() && (#[trigger] self.entries@[i]).0@ == key)
        } else {
            None
        }
    }

    /// No device remembered.
    pub fn new() -> (r: DeviceRoutes)
        ensures
            r@ == Map::<Seq<char>, DeviceRoute>::empty(),
    {
        let r = DeviceRoutes { entries: Vec::new() };
        assert(r@ =~= Map::<Seq<char>, DeviceRoute>::empty());
        r
    }

    fn find(&self, key: &str) -> (r: Option<usize>)
        ensures
            r matches Some(i) ==> i < self.entries@.len() && self.entries@[i as int].0@ == key@,
            r is None ==> forall|i: int|
                0 <= i < self.entries@.len() ==> (#[trigger] self.entries@[i]).0@ != key@,
    {
        let n = self.entries.len();
        let mut i: usize = 0;
        while i < n
            invariant
                n == self.entries@.len(),
                i <= n,
                forall|j: int| 0 <= j < i ==> (#[trigger] self.entries@[j]).0@ != key@,
            decreases n - i,
        {
            if crate::text::str_eq(self.entries[i].0.as_str(), key) {
                return Some(i);
            }
            i += 1;
        }
        None
    }

    /// The route remembered for `key`, if any.
    pub fn get(&self, key: &str) -> (r: Option<DeviceRoute>)
        ensures
            r is Some <==> self@.contains_key(key@),
            r matches Some(route) ==> route == self@[key@],
    {
        proof {
            use_type_invariant(self);
        }
        match self.find(key) {
            Some(i) => {
                proof {
                    let j = choose|j: int| 0 <= j < self.entries@.len() && (#[trigger] self.entries@[j]).0@ == key@;
                    assert(j == i as int);
                }
                Some(self.entries[i].1)
            },
            None => None,
        }
    }

    /// Remember `route` for `key`, replacing any earlier route of `key`.
    pub fn insert(&mut self, key: String, route: DeviceRoute)
        ensures
            final(self)@ == old(self)@.insert(key@, route),
    {
        proof {
            use_type_invariant(&*self);
        }
        let ghost before = self@;
        let ghost old_entries = self.entries@;
        let found = self.find(key.as_str());
        let n = self.entries.len();
        let mut v: Vec<(String, DeviceRoute)> = Vec::new();
        let mut j: usize = 0;
        while j < n
            invariant
                n == old_entries.len(),
                self.entries@ == old_entries,
                j <= n,
                v@.len() == j,
                forall|m: int| 0 <= m < j ==> (#[trigger] v@[m]).0@ == (if found == Some(m as usize) { key@ } else { old_entries[m].0@ }),
                forall|m: int| 0 <= m < j ==> (#[trigger] v@[m]).1 == (if found == Some(m as usize) { route } else { old_entries[m].1 }),
            decreases n - j,
        {
            if found == Some(j) {
                v.push((key.clone(), route));
            } else {
                let name = self.entries[j].0.clone();
                v.push((name, self.entries[j].1));
            }
            j += 1;
        }
        if found.is_none() {
            v.push((key, route));
        }
        proof {
            assert forall|a: int, b: int| 0 <= a < b < v@.len() implies (#[trigger] v@[a]).0@ != (#[trigger] v@[b]).0@ by {
                if b < n {
                    assert(old_entries[a].0@ != old_entries[b].0@);
                }
            }
        }
        *self = DeviceRoutes { entries: v };
        proof {
            let after = self@;
            assert forall|k: Seq<char>| #[trigger] after.contains_key(k) == before.insert(key@, route).contains_key(k) by {
                if before.contains_key(k) && k != key@ {
                    let i = choose|i: int| 0 <= i < old_entries.len() && (#[trigger] old_entries[i]).0@ == k;
                    assert(self.entries@[i].0@ == k);
                }
                if k == key@ {
                    match found {
                        Some(i) => { assert(self.entries@[i as int].0@ == k); },
                        None => { assert(self.entries@[n as int].0@ == k); },
                    }
                }
                if after.contains_key(k) && k != key@ {
                    let i = choose|i: int| 0 <= i < self.entries@.len() && (#[trigger] self.entries@[i]).0@ == k;
                    assert(old_entries[i].0@ == k);
                }
            }
            assert forall|k: Seq<char>| #[trigger] after.contains_key(k) implies after[k] == before.insert(key@, route)[k] by {
                let i = choose|i: int| 0 <= i < self.entries@.len() && (#[trigger] self.entries@[i]).0@ == k;
                if k != key@ {
                    let i0 = choose|i: int| 0 <= i < old_entries.len() && (#[trigger] old_entries[i]).0@ == k;
                    assert(self.entries@[i0].0@ == k);
                }
            }
            assert(after =~= before.insert(key@, route));
        }
    }

    /// Every remembered (device key, route) pair, one per device key.
    pub fn to_vec(&self) -> (r: Vec<(String, DeviceRoute)>)
        ensures
            forall|i: int| 0 <= i < r@.len() ==> self@.contains_key((#[trigger] r@[i]).0@)
                && self@[r@[i].0@] == r@[i].1,
            forall|k: Seq<char>| #[trigger] self@.contains_key(k) ==> exists|i: int|
                0 <= i < r@.len() && (#[trigger] r@[i]).0@ == k,
            forall|i: int, j: int| 0 <= i < j < r@.len() ==> (#[trigger] r@[i]).0@ != (#[trigger] r@[j]).0@,
    {
        proof {
            use_type_invariant(self);
        }
        let n = self.entries.len();
        let mut v: Vec<(String, DeviceRoute)> = Vec::new();
        let mut j: usize = 0;
        while j < n
            invariant
                n == self.entries@.len(),
                j <= n,
                v@.len() == j,
                forall|m: int| 0 <= m < j ==> (#[trigger] v@[m]).0@ == self.entries@[m].0@ && v@[m].1 == self.entries@[m].1,
            decreases n - j,
        {
            let name = self.entries[j].0.clone();
            v.push((name, self.entries[j].1));
            j += 1;
        }
        proof {
            assert forall|i: int| 0 <= i < v@.len() implies self@.contains_key((#[trigger] v@[i]).0@)
                && self@[v@[i].0@] == v@[i].1 by {
                assert(self.entries@[i].0@ == v@[i].0@);
                let c = choose|c: int| 0 <= c < self.entries@.len() && (#[trigger] self.entries@[c]).0@ == v@[i].0@;
                assert(c == i);
            }
            assert forall|k: Seq<char>| #[trigger] self@.contains_key(k) implies exists|i: int|
                0 <= i < v@.len() && (#[trigger] v@[i]).0@ == k by {
                let c = choose|c: int| 0 <= c < self.entries@.len() && (#[trigger] self.entries@[c]).0@ == k;
                assert(v@[c].0@ == k);
            }
            assert forall|a: int, b: int| 0 <= a < b < v@.len() implies (#[trigger] v@[a]).0@ != (#[trigger] v@[b]).0@ by {
                assert(self.entries@[a].0@ != self.entries@[b].0@);
            }
        }
        v
    }
}

impl View for DeviceRoutes {
    type V = Map<Seq<char>, DeviceRoute>;

    closed spec fn view(&self) -> Map<Seq<char>, DeviceRoute> {
        Map::new(
            |k: Seq<char>| self.position(k) is Some,
            |k: Seq<char>| self.entries@[self.position(k)->0].1,
        )
    }
}

/// The persisted click-track settings that are plain values: signature,
/// accent and output channels. The tempo and level live with the audio side.
#[derive(Clone, Debug, PartialEq, Eq)]
pub struct ClickSettings {
    pub beats_per_bar: u32,
    pub accent: bool,
    pub channel_left: usize,
    pub channel_right: usize,
}

impl Default for ClickSettings {
    fn default() -> (r: ClickSettings)
        ensures
            r.beats_per_bar == 4,
            r.accent,
            r.channel_left == 2,
            r.channel_right == 3,
    {
        ClickSettings { beats_per_bar: 4, accent: true, channel_left: 2, channel_right: 3 }
    }
}

/// A labeled bit of text spoken with a tap. `id` is opaque and independent of
/// label so renames don't break phone-remote references.
#[derive(Clone, Debug, PartialEq, Eq)]
pub struct QuickCue {
    pub id: String,
    pub label: String,
    pub text: String,
}

/// The persisted speech-cue settings that are plain values. `voice` None is
/// the system default voice; `rate` is the speech engine's scale, -10..10.
/// The level lives with the audio side.
#[derive(Clone, Debug, PartialEq, Eq)]
pub struct CueSettings {
    pub voice: Option<String>,
    pub rate: i32,
    pub channel_left: usize,
    pub channel_right: usize,
    /// Drop the click bus while a cue speaks. Off by default.
    pub duck_click: bool,
    /// Announce the new key on pad change (e.g. "Key of G"). Off by default.
    pub speak_key_on_change: bool,
    pub quick: Vec<QuickCue>,
}

impl Default for CueSettings {
    fn default() -> (r: CueSettings)
        ensures
            r.voice is None,
            r.rate == -1,
            r.channel_left == 4,
            r.channel_right == 5,
            !r.duck_click,
            !r.speak_key_on_change,
            r.quick@.len() == 0,
    {
        CueSettings {
            voice: None,
            // The default rate sounds rushed for short phrases; -1 is relaxed.
            rate: -1,
            // Cue bus defaults to channels 5/6 — usually free of the pad (1/2)
            // and click (3/4) pairs.
            channel_left: 4,
            channel_right: 5,
            duck_click: false,
            speak_key_on_change: false,
            quick: Vec::new(),
        }
    }
}

/// Live speech-cue state. `label` carries the quick cue's label so phones can
/// highlight the speaking button; None for free-form text.
#[derive(Clone, Debug, PartialEq, Eq)]
pub struct CueNow {
    pub speaking: bool,
    pub label: Option<String>,
}

impl Default for CueNow {
    fn default() -> (r: CueNow)
        ensures
            !r.speaking,
            r.label is None,
    {
        CueNow { speaking: false, label: None }
    }
}

/// Output host used when none was saved.
pub fn default_host() -> (r: String)
    ensures
        r@ == "WASAPI"@,
{
    String::from_str("WASAPI")
}

/// Persisted application settings: the plain-valued part that the preset and
/// routing logic reads and writes. Levels and tempo live with the audio side.
#[derive(Debug, PartialEq, Eq)]
pub struct Settings {
    /// Audio host label ("WASAPI" or "ASIO").
    pub output_host: String,
    pub output_device: Option<String>,
    pub channel_left: usize,
    pub channel_right: usize,
    pub crossfade_ms: u32,
    pub presets: Vec<Preset>,
    pub active_preset: Option<String>,
    pub server_port: u16,
    pub click: ClickSettings,
    pub cues: CueSettings,
    /// Per-device routing memory, keyed by `Settings::device_key(host, device)`.
    pub device_routes: DeviceRoutes,
}

impl Default for Settings {
    fn default() -> (r: Settings)
        ensures
            r.output_host@ == "WASAPI"@,
            r.output_device is None,
            r.channel_left == 0,
            r.channel_right == 1,
            r.crossfade_ms == 2000,
            r.presets@.len() == 0,
            r.active_preset is None,
            r.server_port == 7777,
            r.click.beats_per_bar == 4,
            r.click.accent,
            r.click.channel_left == 2,
            r.click.channel_right == 3,
            r.cues.voice is None,
            r.cues.rate == -1,
            r.cues.channel_left == 4,
            r.cues.channel_right == 5,
            !r.cues.duck_click,
            !r.cues.speak_key_on_change,
            r.cues.quick@.len() == 0,
            r.device_routes@ == Map::<Seq<char>, DeviceRoute>::empty(),
    {
        Settings {
            output_host: default_host(),
            output_device: None,
            channel_left: 0,
            channel_right: 1,
            crossfade_ms: 2000,
            presets: Vec::new(),
            active_preset: None,
            server_port: 7777,
            click: ClickSettings::default(),
            cues: CueSettings::default(),
            device_routes: DeviceRoutes::new(),
        }
    }
}

/// The routing-memory key of a device on a host: `host`, `::`, `device`.
pub open spec fn device_key_of(host: Seq<char>, device: Seq<char>) -> Seq<char> {
    host + seq![':', ':'] + device
}

/// The pad/click/cue channels of `s` as a route.
pub open spec fn route_of(s: Settings) -> DeviceRoute {
    DeviceRoute {
        pad_left: s.channel_left,
        pad_right: s.channel_right,
        click_left: s.click.channel_left,
        click_right: s.click.channel_right,
        cue_left: s.cues.channel_left,
        cue_right: s.cues.channel_right,
    }
}

/// Some preset of `ps` is the built-in bank.
pub open spec fn has_builtin(ps: Seq<Preset>) -> bool {
    exists|i: int| 0 <= i < ps.len() && (#[trigger] ps[i]).id@ == BUILTIN_SYNTH_ID@
}

/// `i` is the first position in `ps` whose preset id is `id`.
pub open spec fn first_with_id(ps: Seq<Preset>, id: Seq<char>, i: int) -> bool {
    &&& 0 <= i < ps.len()
    &&& ps[i].id@ == id
    &&& forall|j: int| 0 <= j < i ==> (#[trigger] ps[j]).id@ != id
}

/// `after` is `before` with the built-in bank guaranteed at the top of the
/// list: when some preset has its id, the first such preset is moved to the
/// front and the others keep their order; when none has, a fresh built-in bank
/// is prepended. When no bank was active, the built-in bank is made active.
pub open spec fn builtin_ensured(before: Settings, after: Settings) -> bool {
    &&& has_builtin(before.presets@) ==> exists|i: int|
        first_with_id(before.presets@, BUILTIN_SYNTH_ID@, i) && after.presets@ == seq![
            before.presets@[i],
        ] + before.presets@.remove(i)
    &&& !has_builtin(before.presets@) ==> {
        &&& after.presets@.len() == before.presets@.len() + 1
        &&& is_builtin_preset_value(after.presets@[0])
        &&& after.presets@.drop_first() == before.presets@
    }
    &&& before.active_preset is None ==> (after.active_preset matches Some(a) && a@
        == BUILTIN_SYNTH_ID@)
    &&& before.active_preset is Some ==> after.active_preset == before.active_preset
}

/// `after` is `before` with the current route remembered for the selected
/// device, or unchanged routes when no device is selected.
pub open spec fn route_remembered(before: Settings, after: Settings) -> bool {
    &&& before.output_device matches Some(d) ==> after.device_routes@ == before.device_routes@.insert(
        device_key_of(before.output_host@, d@),
        route_of(before),
    )
    &&& before.output_device is None ==> after.device_routes@ == before.device_routes@
}

/// After `ensure_builtin_synth` the built-in bank is at the top of the list
/// and some bank is active; a list that had a built-in bank holds the same
/// presets as before, only reordered.
pub proof fn lemma_builtin_present_after(before: Settings, after: Settings)
    requires
        builtin_ensured(before, after),
    ensures
        after.presets@.len() > 0,
        after.presets@[0].id@ == BUILTIN_SYNTH_ID@,
        has_builtin(after.presets@),
        after.active_preset is Some,
        has_builtin(before.presets@) ==> after.presets@.to_multiset() == before.presets@.to_multiset(),
{
    if has_builtin(before.presets@) {
        let i = choose|i: int|
            first_with_id(before.presets@, BUILTIN_SYNTH_ID@, i) && after.presets@ == seq![
                before.presets@[i],
            ] + before.presets@.remove(i);
        let ps = before.presets@;
        assert(after.presets@[0] == ps[i]);
        vstd::seq_lib::to_multiset_remove(ps, i);
        vstd::seq_lib::lemma_multiset_commutative(seq![ps[i]], ps.remove(i));
        broadcast use vstd::seq_lib::group_to_multiset_ensures;
        broadcast use vstd::multiset::group_multiset_axioms;
        assert(seq![ps[i]].drop_first() =~= Seq::<Preset>::empty());
        assert(seq![ps[i]].to_multiset() =~= Multiset::<Preset>::empty().insert(ps[i]));
        assert(ps.to_multiset().count(ps[i]) > 0);
        assert(after.presets@.to_multiset() =~= ps.to_multiset());
    }
    assert(after.presets@[0].id@ == BUILTIN_SYNTH_ID@);
}

/// `ensure_builtin_synth` is idempotent: a second call changes neither the
/// presets nor the active bank.
pub proof fn lemma_ensure_builtin_idempotent(a: Settings, b: Settings, c: Settings)
    requires
        builtin_ensured(a, b),
        builtin_ensured(b, c),
    ensures
        c.presets@ == b.presets@,
        c.active_preset == b.active_preset,
{
    lemma_builtin_present_after(a, b);
    let ps = b.presets@;
    assert(first_with_id(ps, BUILTIN_SYNTH_ID@, 0));
    let i = choose|i: int| first_with_id(ps, BUILTIN_SYNTH_ID@, i) && c.presets@ == seq![ps[i]] + ps.remove(i);
    if i > 0 {
        assert(ps[0].id@ != BUILTIN_SYNTH_ID@);
    }
    assert(seq![ps[0]] + ps.remove(0) =~= ps);
}

/// After `remember_current_route` with a device selected, that device's key
/// reads back the route that was current, and every other device keeps its
/// remembered route.
pub proof fn lemma_remembered_route_reads_back(before: Settings, after: Settings, other: Seq<char>)
    requires
        route_remembered(before, after),
        before.output_device is Some,
    ensures
        after.device_routes@.contains_key(
            device_key_of(before.output_host@, before.output_device->0@),
        ),
        after.device_routes@[device_key_of(before.output_host@, before.output_device->0@)]
            == route_of(before),
        other != device_key_of(before.output_host@, before.output_device->0@) ==> (
        after.device_routes@.contains_key(other) == before.device_routes@.contains_key(other)
            && after.device_routes@[other] == before.device_routes@[other]),
{
}

impl Settings {
    /// The preset named by `active_preset`: the first one with that id.
    pub fn active_preset(&self) -> (r: Option<&Preset>)
        ensures
            r is None <==> (self.active_preset is None || forall|i: int|
                0 <= i < self.presets@.len() ==> (#[trigger] self.presets@[i]).id@ != self.active_preset->0@),
            r matches Some(p) ==> exists|i: int|
                first_with_id(self.presets@, self.active_preset->0@, i) && *p == self.presets@[i],
    {
        let id = match &self.active_preset {
            Some(id) => id,
            None => return None,
        };
        let n = self.presets.len();
        let mut i: usize = 0;
        while i < n
            invariant
                n == self.presets@.len(),
                i <= n,
                self.active_preset == Some(*id),
                forall|j: int| 0 <= j < i ==> (#[trigger] self.presets@[j]).id@ != id@,
            decreases n - i,
        {
            if crate::text::str_eq(self.presets[i].id.as_str(), id.as_str()) {
                proof {
                    assert(first_with_id(self.presets@, id@, i as int));
                }
                return Some(&self.presets[i]);
            }
            i += 1;
        }
        None
    }

    /// Guarantee the built-in "Generated Pads" bank exists at the top of the
    /// list: an existing one is moved to the front, else a fresh one is
    /// prepended. Default the active bank to it when none is chosen.
    pub fn ensure_builtin_synth(&mut self)
        ensures
            builtin_ensured(*old(self), *final(self)),
            final(self).output_host == old(self).output_host,
            final(self).output_device == old(self).output_device,
            final(self).channel_left == old(self).channel_left,
            final(self).channel_right == old(self).channel_right,
            final(self).crossfade_ms == old(self).crossfade_ms,
            final(self).server_port == old(self).server_port,
            final(self).click == old(self).click,
            final(self).cues == old(self).cues,
            final(self).device_routes == old(self).device_routes,
    {
        let n = self.presets.len();
        let mut found: Option<usize> = None;
        let mut i: usize = 0;
        while i < n
            invariant
                n == self.presets@.len(),
                i <= n,
                found is None ==> forall|j: int| 0 <= j < i ==> (#[trigger] self.presets@[j]).id@ != BUILTIN_SYNTH_ID@,
                found matches Some(f) ==> first_with_id(self.presets@, BUILTIN_SYNTH_ID@, f as int),
            decreases n - i,
        {
            if found.is_none() && self.presets[i].is_builtin_synth() {
                found = Some(i);
            }
            i += 1;
        }
        match found {
            Some(f) => {
                let ghost before = self.presets@;
                let p = self.presets.remove(f);
                self.presets.insert(0, p);
                proof {
                    assert(self.presets@ =~= seq![before[f as int]] + before.remove(f as int));
                }
            },
            None => {
                self.presets.insert(0, Preset::builtin_synth());
                proof {
                    assert(self.presets@.drop_first() =~= old(self).presets@);
                }
            },
        }
        if self.active_preset.is_none() {
            self.active_preset = Some(String::from_str(BUILTIN_SYNTH_ID));
        }
    }

    /// Stable map key for per-device routing memory: `host::device`.
    pub fn device_key(host: &str, device: &str) -> (r: String)
        ensures
            r@ == device_key_of(host@, device@),
    {
        proof {
            reveal_strlit("::");
        }
        let mut k = String::from_str(host);
        k.append("::");
        k.append(device);
        k
    }

    /// Current pad/click/cue channels as a `DeviceRoute`.
    pub fn current_route(&self) -> (r: DeviceRoute)
        ensures
            r == route_of(*self),
    {
        DeviceRoute {
            pad_left: self.channel_left,
            pad_right: self.channel_right,
            click_left: self.click.channel_left,
            click_right: self.click.channel_right,
            cue_left: self.cues.channel_left,
            cue_right: self.cues.channel_right,
        }
    }

    /// Snapshot current routing into `device_routes` for the selected device.
    /// No-op when no device is selected.
    pub fn remember_current_route(&mut self)
        ensures
            route_remembered(*old(self), *final(self)),
            final(self).output_host == old(self).output_host,
            final(self).output_device == old(self).output_device,
            final(self).channel_left == old(self).channel_left,
            final(self).channel_right == old(self).channel_right,
            final(self).crossfade_ms == old(self).crossfade_ms,
            final(self).presets == old(self).presets,
            final(self).active_preset == old(self).active_preset,
            final(self).server_port == old(self).server_port,
            final(self).click == old(self).click,
            final(self).cues == old(self).cues,
    {
        let key = match &self.output_device {
            Some(device) => Settings::device_key(self.output_host.as_str(), device.as_str()),
            None => return,
        };
        let route = self.current_route();
        self.device_routes.insert(key, route);
    }
}

} // verus!
