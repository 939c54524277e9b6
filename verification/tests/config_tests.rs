use naming_listener::config::{
    config_db_key, config_history_db_key, convert_to_config_do, convert_to_config_history_do,
    convert_to_config_history_param, convert_to_config_param, history_key_prefix,
    next_history_key, select_history_page, Config, ConfigHistoryParam, ConfigKey, ConfigValue,
};

fn sample_key() -> ConfigKey {
    ConfigKey::new(
        "iris-app-dev.properties".to_string(),
        "dev".to_string(),
        "dev".to_string(),
    )
}

fn sample_config(id: i64) -> Config {
    Config {
        id,
        tenant: "dev".to_string(),
        group: "dev".to_string(),
        data_id: "iris-app-dev.properties".to_string(),
        content: "appid=12345".to_string(),
        content_md5: String::new(),
        last_time: 7,
    }
}

#[test]
fn store_keys_carry_prefix_and_identity() {
    let c = sample_config(1);
    assert_eq!(c.get_key().as_str(), "dev_dev_iris-app-dev.properties");
    assert_eq!(
        config_db_key(&c).as_str(),
        "config$dev_dev_iris-app-dev.properties"
    );
    assert_eq!(
        config_history_db_key(&c).as_str(),
        "confighistory$dev_dev_iris-app-dev.properties"
    );
}

#[test]
fn converters_copy_the_key_fields() {
    let key = sample_key();
    let val = ConfigValue::new("appid=12345\r\nusername=hohoho\r\npass=1234".to_string(), String::new());
    let d = convert_to_config_do(&key, &val);
    assert_eq!(d.data_id.as_deref(), Some("iris-app-dev.properties"));
    assert_eq!(d.group.as_deref(), Some("dev"));
    assert_eq!(d.tenant.as_deref(), Some("dev"));
    assert_eq!(
        d.content.as_deref(),
        Some("appid=12345\r\nusername=hohoho\r\npass=1234")
    );
    assert!(d.id.is_none());
    assert!(d.content_md5.is_none());
    assert!(d.last_time.is_some());
    let h = convert_to_config_history_do(&key, &val);
    assert_eq!(h.data_id.as_deref(), Some("iris-app-dev.properties"));
    assert!(h.last_time.is_some());
}

#[test]
fn param_converters_use_the_data_id_throughout() {
    let key = sample_key();
    let p = convert_to_config_param(&key);
    assert_eq!(p.data_id.as_deref(), Some("iris-app-dev.properties"));
    assert_eq!(p.tenant.as_deref(), Some("iris-app-dev.properties"));
    assert_eq!(p.group.as_deref(), Some("iris-app-dev.properties"));
    assert!(p.id.is_none());
    let hp = convert_to_config_history_param(&key);
    assert_eq!(hp.data_id.as_deref(), Some("iris-app-dev.properties"));
    assert_eq!(hp.tenant.as_deref(), Some("iris-app-dev.properties"));
    assert_eq!(hp.group.as_deref(), Some("iris-app-dev.properties"));
    assert!(hp.limit.is_none());
    assert!(hp.offset.is_none());
}

#[test]
fn history_keys_count_up_from_one() {
    let prefix = "confighistory$dev_dev_a".to_string();
    // the first history version
    let k1 = next_history_key(&prefix, None).unwrap();
    assert_eq!(k1.as_str(), "confighistory$dev_dev_a_1");
    // the next one increments the trailing index of the newest key
    let k2 = next_history_key(&prefix, Some(&k1)).unwrap();
    assert_eq!(k2.as_str(), "confighistory$dev_dev_a_2");
    let k10 = next_history_key(&prefix, Some(&"confighistory$dev_dev_a_9".to_string())).unwrap();
    assert_eq!(k10.as_str(), "confighistory$dev_dev_a_10");
    // a trailing piece that is not a number cannot be continued
    assert!(next_history_key(&prefix, Some(&"confighistory$dev_dev_a_x7".to_string())).is_none());
    assert!(next_history_key(&prefix, Some(&"confighistory$dev_dev_a_".to_string())).is_none());
}

#[test]
fn history_prefix_needs_the_full_identity() {
    let mut p = ConfigHistoryParam::default();
    assert!(history_key_prefix(&p).is_none());
    p.tenant = Some("dev".to_string());
    p.group = Some("dev".to_string());
    p.data_id = Some("a".to_string());
    assert_eq!(
        history_key_prefix(&p).unwrap().as_str(),
        "confighistory$dev_dev_a"
    );
}

#[test]
fn page_selection_windows_the_list() {
    let list: Vec<Config> = (0..10).map(sample_config).collect();
    // no offset: a count and an empty page
    let (total, page) = select_history_page(list.clone(), None, Some(3));
    assert_eq!(total, 10);
    assert!(page.is_empty());
    // offset and limit select a window
    let (total, page) = select_history_page(list.clone(), Some(2), Some(3));
    assert_eq!(total, 10);
    let ids: Vec<i64> = page.iter().map(|c| c.id).collect();
    assert_eq!(ids, vec![2, 3, 4]);
    // a limit past the end is clipped
    let (_, page) = select_history_page(list.clone(), Some(8), Some(5));
    let ids: Vec<i64> = page.iter().map(|c| c.id).collect();
    assert_eq!(ids, vec![8, 9]);
    // no limit: everything from the offset on
    let (_, page) = select_history_page(list.clone(), Some(7), None);
    assert_eq!(page.len(), 3);
    // an offset past the end is an empty page
    let (_, page) = select_history_page(list, Some(50), Some(5));
    assert!(page.is_empty());
}
