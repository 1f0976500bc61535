use hypr_workspaces::registry::{
    cache_dir, cache_file, copy_monitor, CacheEntry, CacheRead, Monitor, MonitorConfig,
    RegistryError,
};
use hypr_workspaces::MAX_MONITORS;

fn monitor(name: &str, id: u32) -> Monitor {
    Monitor {
        name: name.to_string(),
        id,
        height: 1080,
        width: 1920,
        refresh_rate_bits: 60.0f32.to_bits(),
    }
}

fn fields(m: &Monitor) -> (String, u32, u32, u32, u32) {
    (m.name.clone(), m.id, m.height, m.width, m.refresh_rate_bits)
}

fn held(config: &MonitorConfig) -> Vec<(String, u32, u32, u32, u32)> {
    config.monitors().iter().map(fields).collect()
}

fn names_of(config: &MonitorConfig) -> Vec<String> {
    config.monitors().iter().map(|m| m.name.clone()).collect()
}

#[test]
fn a_new_registry_is_empty() {
    let config = MonitorConfig::new();
    assert!(config.monitors().is_empty());
    assert!(config.get_sorted_monitor_names().is_empty());
    assert!(config.save().is_empty());
}

#[test]
fn a_refresh_replaces_all_entries() {
    let mut config = MonitorConfig::new();
    assert_eq!(config.update_from_hyprland(Some(vec![monitor("DP-1", 0), monitor("DP-2", 1)])), Ok(0));
    assert_eq!(names_of(&config), vec!["DP-1", "DP-2"]);
    assert_eq!(config.update_from_hyprland(Some(vec![monitor("HDMI-1", 0)])), Ok(0));
    assert_eq!(names_of(&config), vec!["HDMI-1"]);
    assert_eq!(config.update_from_hyprland(Some(Vec::new())), Ok(0));
    assert!(config.monitors().is_empty());
}

#[test]
fn a_refresh_without_a_list_leaves_the_registry_unchanged() {
    let mut config = MonitorConfig::new();
    config.update_from_hyprland(Some(vec![monitor("DP-1", 0), monitor("DP-2", 1)])).unwrap();
    let before = held(&config);
    assert_eq!(config.update_from_hyprland(None), Err(RegistryError::QueryUnavailable));
    assert_eq!(held(&config), before);
}

#[test]
fn a_refresh_keeps_the_first_ten_monitors() {
    let list: Vec<Monitor> = (0..13).map(|i| monitor(&format!("M{}", i), i)).collect();
    let mut config = MonitorConfig::new();
    assert_eq!(config.update_from_hyprland(Some(list)), Ok(3));
    assert_eq!(config.monitors().len(), MAX_MONITORS);
    let expected: Vec<String> = (0..10).map(|i| format!("M{}", i)).collect();
    assert_eq!(names_of(&config), expected);
    let exact: Vec<Monitor> = (0..10).map(|i| monitor(&format!("M{}", i), i)).collect();
    let mut config = MonitorConfig::new();
    assert_eq!(config.update_from_hyprland(Some(exact)), Ok(0));
    assert_eq!(config.monitors().len(), 10);
}

#[test]
fn the_last_monitor_of_a_name_is_the_one_kept() {
    let mut first = monitor("DP-1", 0);
    first.width = 1280;
    let mut again = monitor("DP-1", 4);
    again.width = 2560;
    let mut config = MonitorConfig::new();
    config.update_from_hyprland(Some(vec![first, monitor("DP-2", 1), again])).unwrap();
    assert_eq!(
        held(&config),
        vec![
            ("DP-2".to_string(), 1, 1080, 1920, 60.0f32.to_bits()),
            ("DP-1".to_string(), 4, 1080, 2560, 60.0f32.to_bits()),
        ]
    );
}

#[test]
fn names_come_by_ascending_id() {
    let mut config = MonitorConfig::new();
    config
        .update_from_hyprland(Some(vec![
            monitor("HDMI-1", 2),
            monitor("DP-1", 0),
            monitor("eDP-1", 7),
            monitor("DP-2", 1),
        ]))
        .unwrap();
    assert_eq!(config.get_sorted_monitor_names(), vec!["DP-1", "DP-2", "HDMI-1", "eDP-1"]);
    assert_eq!(names_of(&config), vec!["HDMI-1", "DP-1", "eDP-1", "DP-2"]);
}

#[test]
fn names_with_the_same_id_keep_their_order() {
    let mut config = MonitorConfig::new();
    config
        .update_from_hyprland(Some(vec![
            monitor("c", 1),
            monitor("a", 1),
            monitor("z", 0),
            monitor("b", 1),
        ]))
        .unwrap();
    assert_eq!(config.get_sorted_monitor_names(), vec!["z", "c", "a", "b"]);
}

#[test]
fn loading_without_a_cache_fails() {
    assert_eq!(MonitorConfig::load(CacheRead::Missing).err(), Some(RegistryError::NotFound));
    assert_eq!(MonitorConfig::load(CacheRead::Corrupt).err(), Some(RegistryError::Malformed));
}

#[test]
fn loading_a_document_gives_its_monitors() {
    let entries = vec![
        CacheEntry { key: "1".to_string(), monitor: monitor("HDMI-1", 1) },
        CacheEntry { key: "0".to_string(), monitor: monitor("DP-1", 0) },
    ];
    let config = MonitorConfig::load(CacheRead::Document(entries)).unwrap();
    assert_eq!(names_of(&config), vec!["HDMI-1", "DP-1"]);
    assert_eq!(config.get_sorted_monitor_names(), vec!["DP-1", "HDMI-1"]);
    let empty = MonitorConfig::load(CacheRead::Document(Vec::new())).unwrap();
    assert!(empty.monitors().is_empty());
}

#[test]
fn loading_tracks_no_more_than_ten_monitors() {
    let entries: Vec<CacheEntry> = (0..12)
        .map(|i| CacheEntry { key: i.to_string(), monitor: monitor(&format!("M{}", i), i) })
        .collect();
    let config = MonitorConfig::load(CacheRead::Document(entries)).unwrap();
    assert_eq!(config.monitors().len(), 10);
}

#[test]
fn saving_lays_each_monitor_under_its_id() {
    let mut config = MonitorConfig::new();
    config.update_from_hyprland(Some(vec![monitor("DP-1", 0), monitor("HDMI-1", 12)])).unwrap();
    let entries = config.save();
    let keys: Vec<&str> = entries.iter().map(|e| e.key.as_str()).collect();
    assert_eq!(keys, vec!["0", "12"]);
    assert_eq!(fields(&entries[0].monitor), fields(&monitor("DP-1", 0)));
    assert_eq!(fields(&entries[1].monitor), fields(&monitor("HDMI-1", 12)));
}

#[test]
fn saving_then_loading_gives_the_same_monitors() {
    let mut odd = monitor("eDP-1", 4294967295);
    odd.refresh_rate_bits = 59.94f32.to_bits();
    odd.height = 0;
    let mut config = MonitorConfig::new();
    config
        .update_from_hyprland(Some(vec![monitor("HDMI-1", 3), odd, monitor("DP-1", 0)]))
        .unwrap();
    let loaded = MonitorConfig::load(CacheRead::Document(config.save())).unwrap();
    assert_eq!(held(&loaded), held(&config));
    assert_eq!(loaded.get_sorted_monitor_names(), config.get_sorted_monitor_names());
    let empty = MonitorConfig::new();
    let loaded = MonitorConfig::load(CacheRead::Document(empty.save())).unwrap();
    assert!(loaded.monitors().is_empty());
}

#[test]
fn a_copy_has_the_same_fields() {
    let m = monitor("DP-3", 9);
    assert_eq!(fields(&copy_monitor(&m)), fields(&m));
    assert_eq!(f32::from_bits(copy_monitor(&m).refresh_rate_bits), 60.0);
}

#[test]
fn the_cache_lies_below_the_home_directory() {
    assert_eq!(cache_dir("/home/u"), "/home/u/.cache");
    assert_eq!(cache_file("/home/u"), "/home/u/.cache/monitors.json");
}
