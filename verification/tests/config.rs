use neptungen::config::{join_text, Config, Gallery, SyncSettings};
use neptungen::template::{
    load_gallery_template, load_page_template, template_path, GALLERY_TEMPLATE, PAGE_TEMPLATE,
};

fn settings(target: Option<&str>) -> SyncSettings {
    SyncSettings {
        ftp_server: "example.org".to_string(),
        ftp_port: Some(2121),
        ftp_protocol: None,
        ftp_user: "me".to_string(),
        ftp_target_dir: target.map(|t| t.to_string()),
        ftp_overwrite: Some(true),
    }
}

#[test]
fn join_text_joins_with_one_separator() {
    assert_eq!(join_text("/p", "out"), "/p/out");
    assert_eq!(join_text("/p/", "out"), "/p/out");
    assert_eq!(join_text("/p", "/abs"), "/abs");
    assert_eq!(join_text("", "out"), "out");
    assert_eq!(join_text("/p", ""), "/p/");
}

#[test]
fn resolve_paths_fills_defaults() {
    let mut conf = Config::default();
    conf.resolve_paths("/project");
    assert_eq!(conf.output_dir.as_deref(), Some("/project/_output"));
    let g = conf.gallery.unwrap();
    assert_eq!(g.img_dir.as_deref(), Some("images"));
    assert_eq!((g.img_width, g.img_height, g.thumb_width, g.thumb_height), (600, 800, 90, 90));
    assert!(conf.template_dir.is_none());
    assert!(conf.copy_dirs.is_none());
    assert!(conf.sync_settings.is_none());
}

#[test]
fn resolve_paths_makes_paths_absolute() {
    let mut conf = Config {
        title: Some("t".to_string()),
        template_dir: Some("tpl".to_string()),
        output_dir: Some("PUBLIC".to_string()),
        copy_dirs: Some(vec!["css".to_string(), "/abs/js".to_string()]),
        gallery: Some(Gallery {
            img_dir: None,
            img_width: 1,
            img_height: 2,
            thumb_width: 3,
            thumb_height: 4,
        }),
        sync_settings: Some(settings(Some("www/site"))),
        ..Default::default()
    };
    conf.resolve_paths("/project");
    assert_eq!(conf.title.as_deref(), Some("t"));
    assert_eq!(conf.output_dir.as_deref(), Some("/project/PUBLIC"));
    assert_eq!(conf.template_dir.as_deref(), Some("/project/tpl"));
    assert_eq!(conf.copy_dirs, Some(vec!["/project/css".to_string(), "/abs/js".to_string()]));
    let g = conf.gallery.unwrap();
    assert_eq!(g.img_dir.as_deref(), Some("images"));
    assert_eq!((g.img_width, g.img_height, g.thumb_width, g.thumb_height), (1, 2, 3, 4));
    let s = conf.sync_settings.unwrap();
    assert_eq!(s.ftp_target_dir.as_deref(), Some("/www/site"));
    assert_eq!(s.ftp_port, Some(2121));
    assert_eq!(s.ftp_overwrite, Some(true));
}

#[test]
fn resolve_paths_keeps_rooted_target_and_image_dir() {
    let mut conf = Config {
        gallery: Some(Gallery {
            img_dir: Some("pics".to_string()),
            img_width: 1,
            img_height: 2,
            thumb_width: 3,
            thumb_height: 4,
        }),
        sync_settings: Some(settings(Some("/www"))),
        ..Default::default()
    };
    conf.resolve_paths("/project");
    assert_eq!(conf.gallery.unwrap().img_dir.as_deref(), Some("pics"));
    assert_eq!(conf.sync_settings.unwrap().ftp_target_dir.as_deref(), Some("/www"));
    let mut none = Config { sync_settings: Some(settings(None)), ..Default::default() };
    none.resolve_paths("/project");
    assert!(none.sync_settings.unwrap().ftp_target_dir.is_none());
}

#[test]
fn built_in_templates_are_used_without_template_dir() {
    let conf = Config::default();
    assert_eq!(load_page_template(&conf, None), PAGE_TEMPLATE);
    assert_eq!(load_gallery_template(&conf, None), GALLERY_TEMPLATE);
    assert_eq!(load_page_template(&conf, Some("mine".to_string())), PAGE_TEMPLATE);
    assert!(PAGE_TEMPLATE.contains("{{ content }}"));
    assert!(GALLERY_TEMPLATE.contains("{% for image in images %}"));
    assert!(!PAGE_TEMPLATE.contains("{% for image in images %}"));
}

#[test]
fn own_templates_are_used_with_template_dir() {
    let conf = Config { template_dir: Some("/project/tpl".to_string()), ..Default::default() };
    assert_eq!(load_page_template(&conf, Some("mine".to_string())), "mine");
    assert_eq!(load_gallery_template(&conf, Some("mine".to_string())), "mine");
    assert_eq!(load_gallery_template(&conf, None), GALLERY_TEMPLATE);
    assert_eq!(template_path("page.liq", &conf).as_deref(), Some("/project/tpl/page.liq"));
    assert!(template_path("page.liq", &Config::default()).is_none());
}
