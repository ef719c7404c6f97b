use pmtiles::config::{
    prefix_with_home, DataConfig, OptionsConfig, PathsConfig, ServerConfig, StyleConfig,
};
use pmtiles::error::PMTilesError;
use pmtiles::paths::{join_path, str_eq, trim_slash};
use pmtiles::s3utils::{bucket_and_key_from_path, is_s3_path};

fn config(home: Option<&str>, pmtiles_prefix: Option<&str>) -> ServerConfig {
    ServerConfig {
        options: OptionsConfig {
            paths: PathsConfig {
                home: home.map(|s| s.to_string()),
                root: Some(".".to_string()),
                fonts: Some("fonts".to_string()),
                sprites: None,
                icons: Some("".to_string()),
                pmtiles: pmtiles_prefix.map(|s| s.to_string()),
                styles: Some("styles".to_string()),
            },
            domains: vec!["http://api.example.com/tile".to_string()],
        },
        styles: vec![(
            "cadastral".to_string(),
            StyleConfig {
                style: "cadastral.json".to_string(),
            },
        )],
        data: vec![(
            "cadastral_fi".to_string(),
            DataConfig {
                pmtiles: "cadastral_fi.pmtiles".to_string(),
            },
        )],
    }
}

#[test]
fn test_join_path() {
    assert_eq!(join_path("a/", "/b"), "a/b");
    assert_eq!(join_path("a", "b"), "a/b");
    assert_eq!(join_path("a///", "b/"), "a/b/");
    assert_eq!(join_path("", ""), "/");
}

#[test]
fn test_trim_slash() {
    assert_eq!(trim_slash("/a/b/"), "a/b");
    assert_eq!(trim_slash("///"), "");
    assert_eq!(trim_slash("plain"), "plain");
}

#[test]
fn test_str_eq() {
    assert!(str_eq("", ""));
    assert!(str_eq("abc", "abc"));
    assert!(!str_eq("abc", "abd"));
    assert!(!str_eq("abc", "ab"));
}

#[test]
fn test_is_s3_path() {
    assert!(is_s3_path("s3://bucket/key"));
    assert!(!is_s3_path("/local/path"));
    assert!(!is_s3_path("s3:/bucket"));
    assert!(!is_s3_path("s3:"));
}

#[test]
fn test_bucket_and_key_from_path() {
    let (bucket, key) = bucket_and_key_from_path("s3://mybucket/some/deep/key.pmtiles").unwrap();
    assert_eq!(bucket, "mybucket");
    assert_eq!(key, "some/deep/key.pmtiles");
    assert!(bucket_and_key_from_path("s3://onlybucket").is_err());
}

#[test]
fn test_get_style_path() {
    let cfg = config(None, Some("data"));
    let style = StyleConfig {
        style: "cadastral.json".to_string(),
    };
    assert_eq!(cfg.get_style_path("/root", &style), "/root/styles/cadastral.json");
}

#[test]
fn test_get_font_path() {
    let cfg = config(None, None);
    assert_eq!(
        cfg.get_font_path("/root", "Arial", "0-255"),
        "/root/fonts/Arial/0-255.pbf"
    );
}

#[test]
fn test_get_tileset_path() {
    let cfg = config(None, Some("data"));
    assert_eq!(
        cfg.get_tileset_path("/root", "cadastral_fi").unwrap(),
        "/root/data/cadastral_fi.pmtiles"
    );
    let bare = config(None, None);
    assert_eq!(
        bare.get_tileset_path("/root", "cadastral_fi").unwrap(),
        "/root/cadastral_fi.pmtiles"
    );
    assert!(matches!(
        cfg.get_tileset_path("/root", "missing"),
        Err(PMTilesError::NotFound(_))
    ));
}

#[test]
fn test_prefix_with_home() {
    let cfg = config(Some("tiles/"), None);
    let mut path = "data/x".to_string();
    prefix_with_home(&mut path, &cfg, false, true);
    assert_eq!(path, "tiles/data/x");

    let mut path = "data/x".to_string();
    prefix_with_home(&mut path, &cfg, true, true);
    assert_eq!(path, "/tiles/data/x");

    let no_home = config(None, None);
    let mut path = "data/x".to_string();
    prefix_with_home(&mut path, &no_home, true, false);
    assert_eq!(path, "/data/x");

    let mut path = "/already".to_string();
    prefix_with_home(&mut path, &no_home, true, false);
    assert_eq!(path, "/already");
}
