use taso::config::Config;
use taso::context::Context;
use taso::error::Error;
use taso::model::{Todo, TodoMap};
use taso::date::Date;
use taso::store::Store;
use taso::util::{check_key, get_list, IntoOption};

#[test]
fn empty_string_is_no_value() {
    assert_eq!(String::new().into_option(), None);
    assert_eq!("a".to_string().into_option(), Some("a".to_string()));
}

#[test]
fn check_key_reports_missing() {
    let mut m = TodoMap::new();
    m.insert(
        3,
        Todo::new("x".to_string(), None, None, None, Date::from_ymd(2024, 1, 1).unwrap(), None),
    );
    assert_eq!(check_key(&m, 3), Ok(()));
    assert_eq!(check_key(&m, 4), Err(Error::NoSuchTodo));
}

#[test]
fn list_resolution_order() {
    let config = Config::defaults("/tmp/store".to_string());
    assert_eq!(config.default_list(), "default");
    assert_eq!(config.data_file_name(), ".todo");
    assert_eq!(config.tree_line(), 10);
    assert_eq!(config.global_store(), "/tmp/store");
    let ctx = Context::new(config, "/tmp/store/.todo".to_string(), Store::create("main".to_string(), vec![]));
    assert_eq!(get_list(Some("x".to_string()), &ctx), "x");
    assert_eq!(get_list(None, &ctx), "main");
    let config = Config::new("fallback".to_string(), "/g".to_string(), ".todo".to_string(), 5);
    let ctx = Context::new(config, "p".to_string(), Store::create(String::new(), vec![]));
    assert_eq!(get_list(None, &ctx), "fallback");
}

#[test]
fn error_messages() {
    assert_eq!(Error::NoSuchList.message(), "no such list");
    assert_eq!(Error::HasChildren.message(), "todo still has children");
}
