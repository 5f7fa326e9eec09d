use beet_scheduler::settings::{AppConfig, SettingLookup};

#[test]
fn missing_snippet_reads_as_empty() {
    let config = AppConfig::load(SettingLookup::Missing)
        .ok()
        .expect("missing is fine");
    assert_eq!(config.html_snippet, "");
}

#[test]
fn found_snippet_is_kept() {
    let config = AppConfig::load(SettingLookup::Found("<b>x</b>".to_string()))
        .ok()
        .expect("found is fine");
    assert_eq!(config.html_snippet, "<b>x</b>");
}

#[test]
fn found_empty_snippet_is_kept_empty() {
    let config = AppConfig::load(SettingLookup::Found(String::new()))
        .ok()
        .expect("found is fine");
    assert_eq!(config.html_snippet, "");
}
