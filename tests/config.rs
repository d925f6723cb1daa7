use iot_edge::config::{Config, ConfigGps, ConfigLog, ConfigMqtt, Encoder};
use iot_edge::errors::IotEdgeError;

fn log_with_size(size: &str) -> ConfigLog {
    ConfigLog { rotate_size: size.to_string(), ..ConfigLog::default() }
}

#[test]
fn test_size() {
    let expected: u64 = 20 * 1000 * 1000 * 1000;
    assert_eq!(log_with_size("20 G").rotate_size_bytes(), Ok(expected));
    assert_eq!(log_with_size("20G").rotate_size_bytes(), Ok(expected));
    assert_eq!(log_with_size("20 GB").rotate_size_bytes(), Ok(expected));
    assert_eq!(log_with_size("20GB").rotate_size_bytes(), Ok(expected));
    assert_eq!(log_with_size("20          G").rotate_size_bytes(), Ok(expected));
    assert_eq!(log_with_size("20          GB").rotate_size_bytes(), Ok(expected));
}

#[test]
fn rotate_size_default_and_invalid() {
    assert_eq!(ConfigLog::default().rotate_size_bytes(), Ok(100 * 1000 * 1000));
    assert!(matches!(log_with_size("lots").rotate_size_bytes(), Err(IotEdgeError::Generic(_))));
}

#[test]
fn missing_sections_fall_back_to_defaults() {
    let config = Config { device_id: "test1".to_string(), log: None, can: None, gps: None, mqtt: None };
    assert_eq!(config.id(), "test1");
    assert_eq!(config.can_config().frequency, 100);
    let gps = config.gps_config();
    assert_eq!((gps.host.as_str(), gps.port), ("127.0.0.1", 2947));
    let log = config.log_config();
    assert_eq!(log.path, "iot-edge.log");
    assert_eq!(log.rotate_size, "100M");
    assert_eq!(log.rotate_keep, 7);
    assert!(!log.rotate_compress && log.include_success);
    let mqtt = config.mqtt_config();
    assert_eq!((mqtt.host.as_str(), mqtt.port, mqtt.topic.as_str()), ("127.0.0.1", 1883, "test"));
    assert_eq!(mqtt.encoder, Encoder::BINARY);
    assert_eq!((mqtt.chunk_size, mqtt.chunk_period), (2048, 5));
}

#[test]
fn present_sections_are_returned() {
    let mut config = Config::default();
    assert_eq!(config.id(), "test");
    config.gps = Some(ConfigGps { host: "10.0.0.2".to_string(), port: 1 });
    config.mqtt = Some(ConfigMqtt {
        host: "broker".to_string(),
        port: 8883,
        topic: "hello/test".to_string(),
        encoder: Encoder::JSON,
        chunk_size: 3,
        chunk_period: 9,
    });
    let gps = config.gps_config();
    assert_eq!((gps.host.as_str(), gps.port), ("10.0.0.2", 1));
    let mqtt = config.mqtt_config();
    assert_eq!((mqtt.topic.as_str(), mqtt.encoder, mqtt.chunk_size, mqtt.chunk_period), ("hello/test", Encoder::JSON, 3, 9));
}

#[test]
fn error_from_text() {
    assert_eq!(IotEdgeError::from("boom"), IotEdgeError::Generic("boom"));
}
