use std::collections::HashMap;

use aurascan::steam::{
    library_folders_vdf_path, parse_apps, parse_bool, steam_dir_candidates, AppManifest, ConfigInfo,
    ConfigInfoError, LibraryFolder, Timestamp, CONFIG_INFO_LINES,
};

const BUILTIN_DLL_COPY: &str = "d3dcompiler_*.dll,d3dcsx*.dll,d3dx*.dll,dx8vb.dll,x3daudio*.dll,xactengine*.dll,xapofx*.dll,xaudio*.dll,xinput*.dll,atl1*.dll,atl.dll,concrt*.dll,msvcp1*.dll,msvcrt*.dll,msvcp7*.dll,msvcp6*.dll,msvcp_win.dll,msvcr1*.dll,msvcrt*.dll,msvcr7*.dll,vcamp1*.dll,vcomp1*.dll,vccorlib1*.dll,vcruntime1*.dll,ucrtbase.dll,comctl32.dll,ntdll.dll,vulkan-1.dll,ir50_32.dll";

fn sample_lines() -> Vec<String> {
    vec![
        "11.0-100".to_string(),
        "/home/steamuser/.local/share/Steam/steamapps/common/Proton - Experimental/files/share/fonts/"
            .to_string(),
        "/home/steamuser/.local/share/Steam/steamapps/common/Proton - Experimental/files/lib/".to_string(),
        "/home/steamuser/.local/share/Steam".to_string(),
        "1781043446".to_string(),
        "1781043450".to_string(),
        "1516738214".to_string(),
        "/home/steamuser/.local/share/Steam/steamapps/common/Proton - Experimental/files/share/default_pfx/"
            .to_string(),
        "1781202038.8633409".to_string(),
        "False".to_string(),
        "True".to_string(),
        BUILTIN_DLL_COPY.to_string(),
        "True".to_string(),
        "False".to_string(),
    ]
}

/// The seconds and nanoseconds a line denotes, split as the reader of the
/// file splits a floating-point number of seconds.
fn seconds_of(lines: &[String]) -> Vec<Option<(i64, u32)>> {
    lines
        .iter()
        .map(|l| {
            l.parse::<f64>()
                .ok()
                .map(|s| (s.trunc() as i64, (s.fract() * 1e9) as u32))
        })
        .collect()
}

fn instant(secs: i64, nsecs: u32) -> Timestamp {
    let t = chrono::DateTime::from_timestamp(secs, nsecs).unwrap();
    Timestamp {
        secs: t.timestamp(),
        nanos: t.timestamp_subsec_nanos(),
    }
}

#[test]
fn config_info_test_from_file() {
    let lines = sample_lines();
    let seconds = seconds_of(&lines);
    let config_info = ConfigInfo::from_lines(&lines, &seconds).unwrap();
    assert_eq!(config_info.prefix_version, "11.0-100");
    assert_eq!(
        config_info.fonts_dir,
        "/home/steamuser/.local/share/Steam/steamapps/common/Proton - Experimental/files/share/fonts/"
    );
    assert_eq!(config_info.steam_dir, "/home/steamuser/.local/share/Steam");
    assert_eq!(config_info.steamclient_dll_timestamp, instant(1781043446, 0));
    assert_eq!(config_info.steamclient64_dll_timestamp, instant(1781043450, 0));
    assert_eq!(config_info.steam_dll_timestamp, instant(1516738214, 0));
    assert_eq!(
        config_info.default_prefix,
        "/home/steamuser/.local/share/Steam/steamapps/common/Proton - Experimental/files/share/default_pfx/"
    );
    assert_eq!(config_info.use_wined3d, false);
    assert_eq!(config_info.use_dxvk_dxgi, true);
    assert_eq!(config_info.builtin_dll_copy, BUILTIN_DLL_COPY);
    assert_eq!(config_info.use_nvapi, true);
    assert_eq!(config_info.use_dxvk_d3d8, false);
}

#[test]
fn config_info_keeps_fractional_timestamp() {
    let lines = sample_lines();
    let seconds = seconds_of(&lines);
    let config_info = ConfigInfo::from_lines(&lines, &seconds).unwrap();
    assert_eq!(config_info.system_reg_timestamp.secs, 1781202038);
    assert_eq!(config_info.system_reg_timestamp.nanos, seconds[8].unwrap().1);
    assert_eq!(
        config_info.lib_dir,
        "/home/steamuser/.local/share/Steam/steamapps/common/Proton - Experimental/files/lib/"
    );
}

#[test]
fn config_info_missing_line() {
    let mut lines = sample_lines();
    lines.truncate(10);
    let seconds = seconds_of(&lines);
    let err = ConfigInfo::from_lines(&lines, &seconds).unwrap_err();
    assert_eq!(err, ConfigInfoError::MissingLine(10));
    assert_eq!(CONFIG_INFO_LINES, 14);
}

#[test]
fn config_info_empty_file() {
    let lines: Vec<String> = Vec::new();
    let err = ConfigInfo::from_lines(&lines, &Vec::new()).unwrap_err();
    assert_eq!(err, ConfigInfoError::MissingLine(0));
}

#[test]
fn config_info_invalid_timestamp() {
    let mut lines = sample_lines();
    lines[5] = "yesterday".to_string();
    let seconds = seconds_of(&lines);
    let err = ConfigInfo::from_lines(&lines, &seconds).unwrap_err();
    assert_eq!(err, ConfigInfoError::InvalidTimestamp(5));
}

#[test]
fn config_info_timestamp_out_of_range() {
    let mut lines = sample_lines();
    lines[6] = "9223372036854775807".to_string();
    let mut seconds = seconds_of(&lines);
    seconds[6] = Some((i64::MAX, 0));
    let err = ConfigInfo::from_lines(&lines, &seconds).unwrap_err();
    assert_eq!(err, ConfigInfoError::TimestampOutOfRange(6));
}

#[test]
fn config_info_invalid_nanoseconds() {
    let lines = sample_lines();
    let mut seconds = seconds_of(&lines);
    seconds[4] = Some((1781043446, 2_000_000_000));
    let err = ConfigInfo::from_lines(&lines, &seconds).unwrap_err();
    assert_eq!(err, ConfigInfoError::TimestampOutOfRange(4));
}

#[test]
fn config_info_invalid_bool() {
    let mut lines = sample_lines();
    lines[12] = "true".to_string();
    let seconds = seconds_of(&lines);
    let err = ConfigInfo::from_lines(&lines, &seconds).unwrap_err();
    assert_eq!(err, ConfigInfoError::InvalidBool(12));
}

#[test]
fn config_info_first_fault_wins() {
    let mut lines = sample_lines();
    lines[13] = "maybe".to_string();
    lines[4] = "soon".to_string();
    let seconds = seconds_of(&lines);
    let err = ConfigInfo::from_lines(&lines, &seconds).unwrap_err();
    assert_eq!(err, ConfigInfoError::InvalidTimestamp(4));
}

#[test]
fn parse_bool_values() {
    assert_eq!(parse_bool("True").unwrap(), true);
    assert_eq!(parse_bool("False").unwrap(), false);
    let err = parse_bool("yes").unwrap_err();
    assert_eq!(err.text, "yes");
    assert!(parse_bool("").is_err());
    assert!(parse_bool("TRUE").is_err());
}

fn manifest(app_id: u64) -> AppManifest {
    AppManifest {
        app_id,
        universe: Some("1".to_string()),
        name: "Spacewar".to_string(),
        state_flags: "4".to_string(),
        installdir: "Spacewar".to_string(),
        last_updated: "0".to_string(),
        last_played: "0".to_string(),
        size_on_disk: "0".to_string(),
        build_id: "0".to_string(),
        last_owner: "0".to_string(),
        download_type: "0".to_string(),
        update_result: "0".to_string(),
    }
}

#[test]
fn app_manifest_wine_prefix() {
    let m = manifest(480);
    assert_eq!(
        m.wine_prefix("/home/steamuser/.local/share/Steam"),
        "/home/steamuser/.local/share/Steam/steamapps/compatdata/480/pfx"
    );
    assert_eq!(
        m.wine_prefix("/home/steamuser/.local/share/Steam/"),
        "/home/steamuser/.local/share/Steam/steamapps/compatdata/480/pfx"
    );
    assert_eq!(m.wine_prefix(""), "steamapps/compatdata/480/pfx");
    assert_eq!(
        manifest(0).wine_prefix("/s"),
        "/s/steamapps/compatdata/0/pfx"
    );
    assert_eq!(
        manifest(u64::MAX).wine_prefix("/s"),
        "/s/steamapps/compatdata/18446744073709551615/pfx"
    );
}

#[test]
fn app_manifest_config_info_path() {
    let m = manifest(1245620);
    assert_eq!(
        m.config_info_path("/steam"),
        "/steam/steamapps/compatdata/1245620/config_info"
    );
}

fn folder(path: &str, apps: &[(u64, u64)]) -> LibraryFolder {
    LibraryFolder {
        path: path.to_string(),
        label: String::new(),
        content_id: "0".to_string(),
        total_size: 0,
        update_clean_bytes_tally: 0,
        time_last_update_verified: 0,
        apps: apps.iter().copied().collect::<HashMap<u64, u64>>(),
    }
}

#[test]
fn library_folder_manifest_paths() {
    let f = folder("/games", &[(480, 1000), (620, 2000), (70, 3)]);
    let mut m = f.manifests();
    m.sort();
    assert_eq!(
        m,
        vec![
            (70, "/games/steamapps/appmanifest_70.acf".to_string()),
            (480, "/games/steamapps/appmanifest_480.acf".to_string()),
            (620, "/games/steamapps/appmanifest_620.acf".to_string()),
        ]
    );
    assert_eq!(f.manifest_path(480), "/games/steamapps/appmanifest_480.acf");
}

#[test]
fn library_folder_without_apps() {
    let f = folder("/games/", &[]);
    assert!(f.manifests().is_empty());
}

#[test]
fn steam_dirs_in_order() {
    assert_eq!(
        steam_dir_candidates("/home/u"),
        vec![
            "/home/u/.steam/steam/".to_string(),
            "/home/u/.local/share/Steam/".to_string(),
            "/home/u/.steam/debian-installation/".to_string(),
        ]
    );
    assert_eq!(
        library_folders_vdf_path("/home/u/.steam/steam/"),
        "/home/u/.steam/steam/steamapps/libraryfolders.vdf"
    );
}

#[test]
fn parse_apps_map() {
    let raw = vec![
        ("480".to_string(), "1024".to_string()),
        ("620".to_string(), "+7".to_string()),
        ("480".to_string(), "5".to_string()),
    ];
    let m = parse_apps(&raw).unwrap();
    assert_eq!(m.len(), 2);
    assert_eq!(m[&480], 5);
    assert_eq!(m[&620], 7);
}

#[test]
fn parse_apps_rejects_bad_numbers() {
    assert!(parse_apps(&vec![("480".to_string(), "big".to_string())]).is_none());
    assert!(parse_apps(&vec![("-1".to_string(), "0".to_string())]).is_none());
    assert!(parse_apps(&vec![("18446744073709551616".to_string(), "0".to_string())]).is_none());
    assert!(parse_apps(&Vec::new()).unwrap().is_empty());
}

#[test]
fn invalid_boolean_message() {
    assert_eq!(parse_bool("Yes").unwrap_err().message(), "Invalid boolean: Yes");
}

#[test]
fn config_info_timestamp_range_edges() {
    let mut lines = sample_lines();
    lines[5] = "8210266876799".to_string();
    lines[6] = "-8334601228800".to_string();
    let mut seconds = seconds_of(&lines);
    seconds[5] = Some((8_210_266_876_799, 0));
    seconds[6] = Some((-8_334_601_228_800, 0));
    assert!(ConfigInfo::from_lines(&lines, &seconds).is_ok());
    seconds[5] = Some((8_210_266_876_800, 0));
    let err = ConfigInfo::from_lines(&lines, &seconds).unwrap_err();
    assert_eq!(err, ConfigInfoError::TimestampOutOfRange(5));
    seconds[5] = Some((8_210_266_876_799, 0));
    seconds[6] = Some((-8_334_601_228_801, 0));
    let err = ConfigInfo::from_lines(&lines, &seconds).unwrap_err();
    assert_eq!(err, ConfigInfoError::TimestampOutOfRange(6));
}
