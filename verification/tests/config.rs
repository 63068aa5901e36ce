use skingetbe::util::config::{
    escape_json_string, format_config_with_comments, strip_json_comments, Config, ConfigManager,
};

fn config(version: &str, protocol: u16, savemode: u8) -> Config {
    Config {
        version: version.to_string(),
        protocol,
        port: 19132,
        bind_addr: "0.0.0.0".to_string(),
        savemode,
    }
}

#[test]
fn test_default_config() {
    let config = Config::default();
    assert_eq!(config.port, 19132);
    assert_eq!(config.protocol, 975);
    assert_eq!(config.version, "1.26.21");
}

#[test]
fn test_normalize_supported_version_matches_protocol() {
    let config = config("old-version", 944, 2);

    let normalized = ConfigManager::normalize_supported_version(&config);
    assert_eq!(normalized.protocol, 944);
    assert_eq!(normalized.version, "old-version");
}

#[test]
fn test_commented_config_deserializes() {
    let raw = r#"{
            // Keep latest supported client here.
            "version": "1.26.21",
            "protocol": 975,
            "port": 19132,
            "bind_addr": "0.0.0.0",
            "savemode": 1
        }"#;

    let stripped = strip_json_comments(raw);
    let value: serde_json::Value = serde_json::from_str(&stripped).unwrap();
    assert_eq!(value["savemode"], 1);
}

#[test]
fn config_manager_keeps_its_path() {
    let manager = ConfigManager::new("config/config.jsonc");
    assert_eq!(manager.config_path, "config/config.jsonc");
}

#[test]
fn normalize_fills_missing_version_and_protocol() {
    let normalized = ConfigManager::normalize_supported_version(&config("  ", 0, 7));
    assert_eq!(normalized.version, "1.26.21");
    assert_eq!(normalized.protocol, 975);
    assert_eq!(normalized.savemode, 2);
    assert_eq!(normalized.port, 19132);

    let normalized = ConfigManager::normalize_supported_version(&config("1.21.0", 0, 1));
    assert_eq!(normalized.version, "1.21.0");
    assert_eq!(normalized.protocol, 975);
    assert_eq!(normalized.savemode, 1);
}

#[test]
fn normalize_clamps_savemode_and_is_idempotent() {
    let once = ConfigManager::normalize_supported_version(&config("1.26.21", 975, 9));
    assert_eq!(once.savemode, 2);
    let twice = ConfigManager::normalize_supported_version(&once);
    assert!(once == twice);
    let kept = config("1.26.21", 975, 0);
    assert!(ConfigManager::normalize_supported_version(&kept) == kept);
}

#[test]
fn escape_json_string_escapes_quotes_backslashes_and_controls() {
    assert_eq!(escape_json_string("a\"b\\c\nd\re\tf"), "a\\\"b\\\\c\\nd\\re\\tf");
    assert_eq!(escape_json_string("plain"), "plain");
}

#[test]
fn format_config_with_comments_exact_text() {
    let text = format_config_with_comments(&config("1.26.21", 975, 5));
    let expected = [
        "{\n",
        "  // Minecraft Bedrock version string shown in the server list.\n",
        "  \"version\": \"1.26.21\",\n",
        "  // Bedrock protocol number. Keep this aligned with the client version.\n",
        "  \"protocol\": 975,\n",
        "  // UDP port to listen on.\n",
        "  \"port\": 19132,\n",
        "  // Local bind address. 0.0.0.0 listens on all network interfaces.\n",
        "  \"bind_addr\": \"0.0.0.0\",\n",
        "  // Skin save mode: 0 = do not save, 1 = overwrite, 2 = save as numbered new files.\n",
        "  \"savemode\": 2\n",
        "}\n",
    ]
    .concat();
    assert_eq!(text, expected);
}

#[test]
fn formatted_config_reads_back_after_stripping_comments() {
    let original = config("1.2\"3", 944, 1);
    let text = format_config_with_comments(&original);
    let value: serde_json::Value = serde_json::from_str(&strip_json_comments(&text)).unwrap();
    assert_eq!(value["version"], "1.2\"3");
    assert_eq!(value["protocol"], 944);
    assert_eq!(value["port"], 19132);
    assert_eq!(value["bind_addr"], "0.0.0.0");
    assert_eq!(value["savemode"], 1);
}

#[test]
fn strip_json_comments_keeps_strings_and_newlines() {
    assert_eq!(strip_json_comments("{\"a\": 1} // note\n"), "{\"a\": 1} \n");
    assert_eq!(strip_json_comments("[1, /* two */ 3]"), "[1,  3]");
    assert_eq!(strip_json_comments("\"http://x\""), "\"http://x\"");
    assert_eq!(strip_json_comments("\"a\\\"//b\""), "\"a\\\"//b\"");
    assert_eq!(strip_json_comments("no slash here"), "no slash here");
    assert_eq!(strip_json_comments("1 /**/ 2"), "1  2");
    assert_eq!(strip_json_comments("a / b"), "a / b");
    assert_eq!(strip_json_comments("x // unterminated"), "x ");
}

#[test]
fn network_config_defaults() {
    let c = skingetbe::network::NetworkConfig::default();
    assert_eq!(c.bind_addr, "0.0.0.0");
    assert_eq!(c.bind_port, 19132);
    assert_eq!(c.max_packet_size, 65535);
    assert_eq!(c.timeout_ms, 5000);
}
