//! Steam installation metadata: application manifests, library folders and
//! the `config_info` file that Proton writes into a compatibility prefix.
use std::collections::HashMap;

use chrono::{DateTime, Utc};
use vstd::prelude::*;
use vstd::std_specs::iter::IteratorSpec;

use crate::text::{
    decimal, decimal_string, join, join_path, parse_u64, spec_parse_u64,
};

verus! {

/// Whether `nsecs` is a nanosecond count that chrono accepts after `secs`:
/// below one second, or below two seconds to stand for a leap second when
/// `secs` is the last second of a minute.
pub open spec fn valid_subsec_nanos(secs: i64, nsecs: u32) -> bool {
    nsecs < 2_000_000_000 && (nsecs >= 1_000_000_000 ==> (secs as int) % 60 == 59)
}

/// Whether `secs` seconds from the Unix epoch fall in the years chrono
/// represents: from the first second of January 1 of the year -262143 to
/// the last second of December 31 of the year 262142.
pub open spec fn seconds_in_range(secs: i64) -> bool {
    -8_334_601_228_800 <= secs && secs <= 8_210_266_876_799
}

/// Whether `chrono::DateTime::<Utc>::from_timestamp(secs, nsecs)` gives an
/// instant rather than `None`.
pub open spec fn representable_timestamp(secs: i64, nsecs: u32) -> bool {
    valid_subsec_nanos(secs, nsecs) && seconds_in_range(secs)
}

/// Calls `chrono::DateTime::<Utc>::from_timestamp(secs, nsecs)` and tells
/// whether it gave an instant: exactly when the nanosecond count is valid
/// and the seconds fall in chrono's range of years.
#[verifier::external_body]
fn timestamp_is_representable(secs: i64, nsecs: u32) -> (r: bool)
    ensures
        r == representable_timestamp(secs, nsecs),
{
    DateTime::<Utc>::from_timestamp(secs, nsecs).is_some()
}

/// What a `True` / `False` field of `config_info` means.
pub open spec fn spec_parse_bool(s: Seq<char>) -> Option<bool> {
    if s == "True"@ {
        Some(true)
    } else if s == "False"@ {
        Some(false)
    } else {
        None
    }
}

/// A field of `config_info` that is neither `True` nor `False`.
#[derive(Debug)]
pub struct InvalidBoolean {
    pub text: String,
}

impl InvalidBoolean {
    /// The message that reports the field: `Invalid boolean: ` and its text.
    pub fn message(&self) -> (r: String)
        ensures
            r@ == "Invalid boolean: "@ + self.text@,
    {
        let mut r = "Invalid boolean: ".to_owned();
        r.append(self.text.as_str());
        r
    }
}

fn same_text(a: &str, b: &str) -> (r: bool)
    ensures
        r == (a@ == b@),
{
    a.to_owned() == b.to_owned()
}

/// Reads a boolean field of `config_info`, written `True` or `False`.
pub fn parse_bool(s: &str) -> (r: Result<bool, InvalidBoolean>)
    ensures
        r matches Ok(b) ==> spec_parse_bool(s@) == Some(b),
        r matches Err(e) ==> spec_parse_bool(s@) is None && e.text@ == s@,
        r is Ok <==> spec_parse_bool(s@) is Some,
{
    if same_text(s, "True") {
        Ok(true)
    } else if same_text(s, "False") {
        Ok(false)
    } else {
        Err(InvalidBoolean { text: s.to_owned() })
    }
}

/// An application manifest (`appmanifest_<id>.acf`). The fields other than
/// the application ID are kept as the text the manifest holds.
#[derive(Debug)]
pub struct AppManifest {
    pub app_id: u64,
    pub universe: Option<String>,
    pub name: String,
    pub state_flags: String,
    pub installdir: String,
    pub last_updated: String,
    pub last_played: String,
    pub size_on_disk: String,
    pub build_id: String,
    pub last_owner: String,
    pub download_type: String,
    pub update_result: String,
}

/// `steamapps/compatdata/<app_id>/<leaf>` below `steam_dir`.
pub open spec fn compatdata_path(steam_dir: Seq<char>, app_id: u64, leaf: Seq<char>) -> Seq<char> {
    join_path(steam_dir, "steamapps/compatdata/"@ + decimal(app_id as nat) + seq!['/'] + leaf)
}

fn compatdata(steam_dir: &str, app_id: u64, leaf: &str) -> (r: String)
    ensures
        r@ == compatdata_path(steam_dir@, app_id, leaf@),
{
    let mut rel = "steamapps/compatdata/".to_owned();
    let id = decimal_string(app_id);
    rel.append(id.as_str());
    rel.append("/");
    rel.append(leaf);
    proof {
        reveal_strlit("/");
        assert(rel@ =~= "steamapps/compatdata/"@ + decimal(app_id as nat) + seq!['/'] + leaf@);
    }
    join(steam_dir, rel.as_str())
}

impl AppManifest {
    /// The Wine prefix of this application inside the Steam installation at
    /// `steam_dir`: `steamapps/compatdata/<app_id>/pfx`.
    pub fn wine_prefix(&self, steam_dir: &str) -> (r: String)
        ensures
            r@ == compatdata_path(steam_dir@, self.app_id, "pfx"@),
    {
        compatdata(steam_dir, self.app_id, "pfx")
    }

    /// Where Proton's `config_info` for this application lies inside the
    /// Steam installation at `steam_dir`:
    /// `steamapps/compatdata/<app_id>/config_info`.
    pub fn config_info_path(&self, steam_dir: &str) -> (r: String)
        ensures
            r@ == compatdata_path(steam_dir@, self.app_id, "config_info"@),
    {
        compatdata(steam_dir, self.app_id, "config_info")
    }
}

/// An instant as seconds and nanoseconds after the Unix epoch.
#[derive(Debug, Clone, Copy, PartialEq, Eq, Structural)]
pub struct Timestamp {
    pub secs: i64,
    pub nanos: u32,
}

/// Proton's `config_info`: one value per line, in this order.
#[derive(Debug)]
pub struct ConfigInfo {
    pub prefix_version: String,
    pub fonts_dir: String,
    pub lib_dir: String,
    pub steam_dir: String,
    pub steamclient_dll_timestamp: Timestamp,
    pub steamclient64_dll_timestamp: Timestamp,
    pub steam_dll_timestamp: Timestamp,
    pub default_prefix: String,
    pub system_reg_timestamp: Timestamp,
    pub use_wined3d: bool,
    pub use_dxvk_dxgi: bool,
    pub builtin_dll_copy: String,
    pub use_nvapi: bool,
    pub use_dxvk_d3d8: bool,
}

/// Why a `config_info` could not be read; each variant names the line
/// (counted from zero) at fault.
#[derive(Debug, Clone, Copy, PartialEq, Eq, Structural)]
pub enum ConfigInfoError {
    /// The file ends before this line.
    MissingLine(usize),
    /// The line is not a number of seconds.
    InvalidTimestamp(usize),
    /// The number of seconds names no instant chrono can represent.
    TimestampOutOfRange(usize),
    /// The line is neither `True` nor `False`.
    InvalidBool(usize),
}

/// The number of lines that `config_info` holds.
pub const CONFIG_INFO_LINES: usize = 14;

/// Whether line `k` of `config_info` holds a timestamp.
pub open spec fn is_timestamp_line(k: int) -> bool {
    k == 4 || k == 5 || k == 6 || k == 8
}

/// Whether line `k` of `config_info` holds a boolean.
pub open spec fn is_bool_line(k: int) -> bool {
    k == 9 || k == 10 || k == 12 || k == 13
}

/// What is wrong with line `k` on its own, given the lines read and, for
/// each, the seconds and nanoseconds its text denotes, if it denotes any.
pub open spec fn line_error(
    lines: Seq<Seq<char>>,
    seconds: Seq<Option<(i64, u32)>>,
    k: int,
) -> Option<ConfigInfoError> {
    if k >= lines.len() {
        Some(ConfigInfoError::MissingLine(k as usize))
    } else if is_timestamp_line(k) {
        match seconds[k] {
            None => Some(ConfigInfoError::InvalidTimestamp(k as usize)),
            Some(t) => if representable_timestamp(t.0, t.1) {
                None
            } else {
                Some(ConfigInfoError::TimestampOutOfRange(k as usize))
            },
        }
    } else if is_bool_line(k) && spec_parse_bool(lines[k]) is None {
        Some(ConfigInfoError::InvalidBool(k as usize))
    } else {
        None
    }
}

/// The first fault among lines `k` up to the last line of `config_info`.
pub open spec fn first_error_from(
    lines: Seq<Seq<char>>,
    seconds: Seq<Option<(i64, u32)>>,
    k: int,
) -> Option<ConfigInfoError>
    decreases 14 - k,
{
    if k >= 14 {
        None
    } else {
        match line_error(lines, seconds, k) {
            Some(e) => Some(e),
            None => first_error_from(lines, seconds, k + 1),
        }
    }
}

/// The timestamp that line `k` denotes.
pub open spec fn line_timestamp(seconds: Seq<Option<(i64, u32)>>, k: int) -> Timestamp {
    Timestamp { secs: seconds[k].unwrap().0, nanos: seconds[k].unwrap().1 }
}

/// The boolean that line `k` denotes.
pub open spec fn line_bool(lines: Seq<Seq<char>>, k: int) -> bool {
    spec_parse_bool(lines[k]).unwrap()
}

/// Whether `c` holds, field by field, what the lines denote.
pub open spec fn config_info_matches(
    c: ConfigInfo,
    lines: Seq<Seq<char>>,
    seconds: Seq<Option<(i64, u32)>>,
) -> bool {
    &&& c.prefix_version@ == lines[0]
    &&& c.fonts_dir@ == lines[1]
    &&& c.lib_dir@ == lines[2]
    &&& c.steam_dir@ == lines[3]
    &&& c.steamclient_dll_timestamp == line_timestamp(seconds, 4)
    &&& c.steamclient64_dll_timestamp == line_timestamp(seconds, 5)
    &&& c.steam_dll_timestamp == line_timestamp(seconds, 6)
    &&& c.default_prefix@ == lines[7]
    &&& c.system_reg_timestamp == line_timestamp(seconds, 8)
    &&& c.use_wined3d == line_bool(lines, 9)
    &&& c.use_dxvk_dxgi == line_bool(lines, 10)
    &&& c.builtin_dll_copy@ == lines[11]
    &&& c.use_nvapi == line_bool(lines, 12)
    &&& c.use_dxvk_d3d8 == line_bool(lines, 13)
}

/// The text of each line.
pub open spec fn lines_view(lines: Seq<String>) -> Seq<Seq<char>> {
    lines.map_values(|l: String| l@)
}

fn text_line(lines: &Vec<String>, k: usize) -> (r: Result<String, ConfigInfoError>)
    ensures
        k < lines.len() ==> (r matches Ok(t) && t@ == lines@[k as int]@),
        k >= lines.len() ==> r == Err::<String, _>(ConfigInfoError::MissingLine(k)),
{
    if k < lines.len() {
        Ok(lines[k].clone())
    } else {
        Err(ConfigInfoError::MissingLine(k))
    }
}

fn timestamp_line(
    lines: &Vec<String>,
    seconds: &Vec<Option<(i64, u32)>>,
    k: usize,
) -> (r: Result<Timestamp, ConfigInfoError>)
    requires
        seconds.len() == lines.len(),
        is_timestamp_line(k as int),
    ensures
        r matches Err(e) ==> line_error(lines_view(lines@), seconds@, k as int) == Some(e),
        r matches Ok(t) ==> line_error(lines_view(lines@), seconds@, k as int) is None
            && t == line_timestamp(seconds@, k as int),
{
    if k >= lines.len() {
        return Err(ConfigInfoError::MissingLine(k));
    }
    match seconds[k] {
        None => Err(ConfigInfoError::InvalidTimestamp(k)),
        Some((secs, nanos)) => {
            if timestamp_is_representable(secs, nanos) {
                Ok(Timestamp { secs, nanos })
            } else {
                Err(ConfigInfoError::TimestampOutOfRange(k))
            }
        },
    }
}

fn bool_line(lines: &Vec<String>, k: usize) -> (r: Result<bool, ConfigInfoError>)
    requires
        is_bool_line(k as int),
    ensures
        r matches Err(e) ==> line_error(lines_view(lines@), seconds_any(), k as int) == Some(e),
        r matches Ok(b) ==> line_error(lines_view(lines@), seconds_any(), k as int) is None
            && b == line_bool(lines_view(lines@), k as int),
{
    if k >= lines.len() {
        return Err(ConfigInfoError::MissingLine(k));
    }
    match parse_bool(lines[k].as_str()) {
        Ok(b) => Ok(b),
        Err(_) => Err(ConfigInfoError::InvalidBool(k)),
    }
}

/// Boolean lines do not look at the seconds; any sequence stands for them.
pub open spec fn seconds_any() -> Seq<Option<(i64, u32)>> {
    Seq::empty()
}

proof fn lemma_bool_line_ignores_seconds(
    lines: Seq<Seq<char>>,
    seconds: Seq<Option<(i64, u32)>>,
    k: int,
)
    requires
        is_bool_line(k),
    ensures
        line_error(lines, seconds, k) == line_error(lines, seconds_any(), k),
{
}

impl ConfigInfo {
    /// Reads `config_info` from its lines. `seconds[k]` is the number of
    /// seconds and nanoseconds that the text of line `k` denotes, or `None`
    /// where that text is not a number; only the timestamp lines look at it.
    /// The first line at fault, in file order, decides the error.
    pub fn from_lines(
        lines: &Vec<String>,
        seconds: &Vec<Option<(i64, u32)>>,
    ) -> (r: Result<ConfigInfo, ConfigInfoError>)
        requires
            seconds.len() == lines.len(),
        ensures
            r matches Err(e) ==> first_error_from(lines_view(lines@), seconds@, 0) == Some(e),
            r matches Ok(c) ==> first_error_from(lines_view(lines@), seconds@, 0) is None
                && config_info_matches(c, lines_view(lines@), seconds@),
            r is Ok <==> first_error_from(lines_view(lines@), seconds@, 0) is None,
    {
        let ghost ls = lines_view(lines@);
        let ghost sc = seconds@;
        proof {
            reveal_with_fuel(first_error_from, 15);
            assert forall|k: int| 0 <= k < lines.len() implies #[trigger] ls[k] == lines@[k]@ by {}
            lemma_bool_line_ignores_seconds(ls, sc, 9);
            lemma_bool_line_ignores_seconds(ls, sc, 10);
            lemma_bool_line_ignores_seconds(ls, sc, 12);
            lemma_bool_line_ignores_seconds(ls, sc, 13);
        }
        let prefix_version = text_line(lines, 0)?;
        let fonts_dir = text_line(lines, 1)?;
        let lib_dir = text_line(lines, 2)?;
        let steam_dir = text_line(lines, 3)?;
        let steamclient_dll_timestamp = timestamp_line(lines, seconds, 4)?;
        let steamclient64_dll_timestamp = timestamp_line(lines, seconds, 5)?;
        let steam_dll_timestamp = timestamp_line(lines, seconds, 6)?;
        let default_prefix = text_line(lines, 7)?;
        let system_reg_timestamp = timestamp_line(lines, seconds, 8)?;
        let use_wined3d = bool_line(lines, 9)?;
        let use_dxvk_dxgi = bool_line(lines, 10)?;
        let builtin_dll_copy = text_line(lines, 11)?;
        let use_nvapi = bool_line(lines, 12)?;
        let use_dxvk_d3d8 = bool_line(lines, 13)?;
        Ok(ConfigInfo {
            prefix_version,
            fonts_dir,
            lib_dir,
            steam_dir,
            steamclient_dll_timestamp,
            steamclient64_dll_timestamp,
            steam_dll_timestamp,
            default_prefix,
            system_reg_timestamp,
            use_wined3d,
            use_dxvk_dxgi,
            builtin_dll_copy,
            use_nvapi,
            use_dxvk_d3d8,
        })
    }
}

/// A Steam library folder as `libraryfolders.vdf` lists it. `apps` maps each
/// installed application's ID to its size in bytes.
#[derive(Debug)]
pub struct LibraryFolder {
    pub path: String,
    pub label: String,
    pub content_id: String,
    pub total_size: u64,
    pub update_clean_bytes_tally: u64,
    pub time_last_update_verified: u64,
    pub apps: HashMap<u64, u64>,
}

/// The library folders of a Steam installation, by their key in
/// `libraryfolders.vdf`.
#[derive(Debug)]
pub struct LibraryFolders {
    pub folders: HashMap<String, LibraryFolder>,
}

/// `steamapps/appmanifest_<app_id>.acf` below the folder at `folder`.
pub open spec fn manifest_path(folder: Seq<char>, app_id: u64) -> Seq<char> {
    join_path(folder, "steamapps/appmanifest_"@ + decimal(app_id as nat) + ".acf"@)
}

impl LibraryFolder {
    /// Where the manifest of the application `app_id` lies in this folder.
    pub fn manifest_path(&self, app_id: u64) -> (r: String)
        ensures
            r@ == manifest_path(self.path@, app_id),
    {
        let mut rel = "steamapps/appmanifest_".to_owned();
        let id = decimal_string(app_id);
        rel.append(id.as_str());
        rel.append(".acf");
        join(self.path.as_str(), rel.as_str())
    }

    /// The application manifests to read for this folder: one entry per
    /// installed application, its ID and the path of its manifest.
    pub fn manifests(&self) -> (r: Vec<(u64, String)>)
        ensures
            r.len() == self.apps@.dom().len(),
            forall|i: int| 0 <= i < r.len() ==> self.apps@.dom().contains(#[trigger] r@[i].0),
            forall|id: u64| self.apps@.dom().contains(id) ==> exists|i: int|
                0 <= i < r.len() && #[trigger] r@[i].0 == id,
            forall|i: int, j: int| 0 <= i < j < r.len() ==> r@[i].0 != r@[j].0,
            forall|i: int| 0 <= i < r.len() ==> #[trigger] r@[i].1@ == manifest_path(self.path@, r@[i].0),
    {
        broadcast use vstd::std_specs::hash::group_hash_axioms;
        let mut r: Vec<(u64, String)> = Vec::new();
        let ghost keys = vstd::std_specs::hash::spec_keys_iter(&self.apps).remaining().unref();
        for id in it: self.apps.keys()
            invariant
                r.len() == it.index(),
                it.seq().unref() == keys,
                keys.to_set() == self.apps@.dom(),
                keys.no_duplicates(),
                keys.len() == self.apps@.dom().len(),
                forall|i: int| 0 <= i < r.len() ==> #[trigger] r@[i].0 == keys[i],
                forall|i: int| 0 <= i < r.len() ==> #[trigger] r@[i].1@ == manifest_path(self.path@, r@[i].0),
        {
            let p = self.manifest_path(*id);
            r.push((*id, p));
        }
        proof {
            assert forall|i: int| 0 <= i < r.len() implies self.apps@.dom().contains(#[trigger] r@[i].0) by {
                assert(keys.to_set().contains(keys[i]));
            }
            assert forall|id: u64| self.apps@.dom().contains(id) implies exists|i: int|
                0 <= i < r.len() && #[trigger] r@[i].0 == id by {
                assert(keys.to_set().contains(id));
                let i = keys.index_of(id);
                assert(r@[i].0 == id);
            }
        }
        r
    }
}

/// Where below the home directory a Steam installation may lie, in the
/// order they are tried.
pub open spec fn known_steam_dirs() -> Seq<Seq<char>> {
    seq![".steam/steam/"@, ".local/share/Steam/"@, ".steam/debian-installation/"@]
}

/// The directories, below the home directory `home`, where a Steam
/// installation may lie, in the order they are tried.
pub fn steam_dir_candidates(home: &str) -> (r: Vec<String>)
    ensures
        r.len() == known_steam_dirs().len(),
        forall|i: int| 0 <= i < r.len() ==> #[trigger] r@[i]@ == join_path(home@, known_steam_dirs()[i]),
{
    let mut r: Vec<String> = Vec::new();
    r.push(join(home, ".steam/steam/"));
    r.push(join(home, ".local/share/Steam/"));
    r.push(join(home, ".steam/debian-installation/"));
    r
}

/// `steamapps/libraryfolders.vdf` below the Steam installation at `steam_dir`.
pub fn library_folders_vdf_path(steam_dir: &str) -> (r: String)
    ensures
        r@ == join_path(steam_dir@, "steamapps/libraryfolders.vdf"@),
{
    join(steam_dir, "steamapps/libraryfolders.vdf")
}

/// The installed applications of a library folder, read from the text of
/// their IDs and sizes: `None` when some ID or size is not a number, else
/// each ID mapped to its size, a later entry winning over an earlier one
/// with the same ID.
pub open spec fn spec_parse_apps(raw: Seq<(Seq<char>, Seq<char>)>) -> Option<Map<u64, u64>>
    decreases raw.len(),
{
    if raw.len() == 0 {
        Some(Map::empty())
    } else {
        let last = raw.last();
        match (spec_parse_apps(raw.drop_last()), spec_parse_u64(last.0), spec_parse_u64(last.1)) {
            (Some(m), Some(k), Some(v)) => Some(m.insert(k, v)),
            _ => None,
        }
    }
}

/// The text of each raw entry.
pub open spec fn raw_pairs_view(raw: Seq<(String, String)>) -> Seq<(Seq<char>, Seq<char>)> {
    raw.map_values(|p: (String, String)| (p.0@, p.1@))
}

proof fn lemma_parse_apps_none_extends(raw: Seq<(Seq<char>, Seq<char>)>, k: int)
    requires
        0 <= k <= raw.len(),
        spec_parse_apps(raw.subrange(0, k)) is None,
    ensures
        spec_parse_apps(raw) is None,
    decreases raw.len() - k,
{
    if k < raw.len() {
        assert(raw.subrange(0, k + 1).drop_last() =~= raw.subrange(0, k));
        lemma_parse_apps_none_extends(raw, k + 1);
    } else {
        assert(raw.subrange(0, k) =~= raw);
    }
}

/// Reads the installed applications of a library folder from the text of
/// their IDs and sizes.
pub fn parse_apps(raw: &Vec<(String, String)>) -> (r: Option<HashMap<u64, u64>>)
    ensures
        r is Some <==> spec_parse_apps(raw_pairs_view(raw@)) is Some,
        r matches Some(m) ==> m@ == spec_parse_apps(raw_pairs_view(raw@)).unwrap(),
{
    broadcast use vstd::std_specs::hash::group_hash_axioms;
    let ghost rv = raw_pairs_view(raw@);
    let mut m: HashMap<u64, u64> = HashMap::new();
    let mut i: usize = 0;
    while i < raw.len()
        invariant
            i <= raw.len(),
            rv == raw_pairs_view(raw@),
            spec_parse_apps(rv.subrange(0, i as int)) == Some(m@),
        decreases raw.len() - i,
    {
        let ghost prefix = rv.subrange(0, i as int);
        assert(rv.subrange(0, i + 1).drop_last() =~= prefix);
        assert(rv.subrange(0, i + 1).last() == (raw@[i as int].0@, raw@[i as int].1@));
        let k = parse_u64(raw[i].0.as_str());
        let v = parse_u64(raw[i].1.as_str());
        match (k, v) {
            (Some(k), Some(v)) => {
                m.insert(k, v);
            },
            _ => {
                proof {
                    lemma_parse_apps_none_extends(rv, i + 1);
                }
                return None;
            },
        }
        i = i + 1;
    }
    assert(rv.subrange(0, raw.len() as int) =~= rv);
    Some(m)
}

} // verus!
