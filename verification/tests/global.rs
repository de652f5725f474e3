use minerva::global::{
    get_global_config, initialise_globals, GlobalConfig, GlobalConfigBuilder, DEFAULT_CHUNK_SIZE,
};

#[test]
fn builder_falls_back_to_its_defaults() {
    let config = GlobalConfigBuilder::new().build().unwrap();
    assert_eq!(config.oasysdb_dir, "./oasysdb");
    assert_eq!(config.tantivy_dir, "./tantivy");
    assert_eq!(config.tantivy_chunk_size, 2048);
    assert_eq!(DEFAULT_CHUNK_SIZE, 2048);
}

#[test]
fn builder_keeps_what_was_chosen() {
    let config = GlobalConfigBuilder::new()
        .oasysdb_dir("/data/vectors")
        .tantivy_dir("/data/lexical")
        .tantivy_chunk_size(512)
        .build()
        .unwrap();
    assert_eq!(config.oasysdb_dir, "/data/vectors");
    assert_eq!(config.tantivy_dir, "/data/lexical");
    assert_eq!(config.tantivy_chunk_size, 512);
}

#[test]
fn builder_takes_the_last_choice() {
    let config = GlobalConfigBuilder::new()
        .tantivy_chunk_size(1)
        .tantivy_dir("a")
        .tantivy_chunk_size(2)
        .tantivy_dir("b")
        .build()
        .unwrap();
    assert_eq!(config.oasysdb_dir, "./oasysdb");
    assert_eq!(config.tantivy_dir, "b");
    assert_eq!(config.tantivy_chunk_size, 2);
}

#[test]
fn default_configuration_lives_under_db() {
    let config = GlobalConfig::default();
    assert_eq!(config.oasysdb_dir, "./db/oasysdb");
    assert_eq!(config.tantivy_dir, "./db/tantivy");
    assert_eq!(config.tantivy_chunk_size, 2048);
}

#[test]
fn configuration_is_missing_until_stored() {
    let mut slot: Option<GlobalConfig> = None;
    assert_eq!(get_global_config(&slot).unwrap_err(), "Global config not initialised");
    initialise_globals(&mut slot, GlobalConfigBuilder::new().tantivy_chunk_size(64).build().unwrap());
    let found = get_global_config(&slot).unwrap();
    assert_eq!(found.tantivy_chunk_size, 64);
    assert_eq!(found.oasysdb_dir, "./oasysdb");
    initialise_globals(&mut slot, GlobalConfig::default());
    assert_eq!(get_global_config(&slot).unwrap().tantivy_dir, "./db/tantivy");
}
