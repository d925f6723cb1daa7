use vstd::prelude::*;

use crate::errors::IotEdgeError;

verus! {

/// The name for what `bytesize` makes of a size text such as "100M": the
/// number of bytes, or `None` when it does not read the text.
pub uninterp spec fn parsed_byte_size(s: Seq<char>) -> Option<u64>;

/// Relies on bytesize's `FromStr` for `ByteSize` and on `ByteSize::as_u64`:
/// the result depends on the text alone.
#[verifier::external_body]
fn parse_byte_size(s: &str) -> (r: Option<u64>)
    ensures
        r == parsed_byte_size(s@),
{
    match <bytesize::ByteSize as std::str::FromStr>::from_str(s) {
        Ok(b) => Some(b.as_u64()),
        Err(_) => None,
    }
}

/// CAN sampling settings.
#[derive(Clone, Debug)]
pub struct ConfigCan {
    pub frequency: u16,
}

impl ConfigCan {
    pub open spec fn same(&self, o: &ConfigCan) -> bool {
        self.frequency == o.frequency
    }

    pub open spec fn is_default(&self) -> bool {
        self.frequency == 100
    }

    fn duplicate(&self) -> (r: ConfigCan)
        ensures
            r.same(self),
    {
        ConfigCan { frequency: self.frequency }
    }
}

impl Default for ConfigCan {
    fn default() -> (r: ConfigCan)
        ensures
            r.is_default(),
    {
        ConfigCan { frequency: 100 }
    }
}

/// Durable log settings: file path, rotation size (a text such as "100M"),
/// rotated files kept, compression, and whether acknowledged chunks are
/// logged too.
#[derive(Clone, Debug)]
pub struct ConfigLog {
    pub path: String,
    pub rotate_size: String,
    pub rotate_keep: usize,
    pub rotate_compress: bool,
    pub include_success: bool,
}

impl ConfigLog {
    pub open spec fn same(&self, o: &ConfigLog) -> bool {
        &&& self.path@ == o.path@
        &&& self.rotate_size@ == o.rotate_size@
        &&& self.rotate_keep == o.rotate_keep
        &&& self.rotate_compress == o.rotate_compress
        &&& self.include_success == o.include_success
    }

    pub open spec fn is_default(&self) -> bool {
        &&& self.path@ == "iot-edge.log"@
        &&& self.rotate_size@ == "100M"@
        &&& self.rotate_keep == 7
        &&& !self.rotate_compress
        &&& self.include_success
    }

    fn duplicate(&self) -> (r: ConfigLog)
        ensures
            r.same(self),
    {
        ConfigLog {
            path: self.path.clone(),
            rotate_size: self.rotate_size.clone(),
            rotate_keep: self.rotate_keep,
            rotate_compress: self.rotate_compress,
            include_success: self.include_success,
        }
    }

    /// The rotation threshold in bytes, as bytesize reads `rotate_size`.
    pub fn rotate_size_bytes(&self) -> (r: Result<u64, IotEdgeError>)
        ensures
            r == (match parsed_byte_size(self.rotate_size@) {
                Some(n) => Ok::<u64, IotEdgeError>(n),
                None => Err(IotEdgeError::Generic("invalid rotation size")),
            }),
    {
        match parse_byte_size(self.rotate_size.as_str()) {
            Some(n) => Ok(n),
            None => Err(IotEdgeError::Generic("invalid rotation size")),
        }
    }
}

impl Default for ConfigLog {
    fn default() -> (r: ConfigLog)
        ensures
            r.is_default(),
    {
        ConfigLog {
            path: "iot-edge.log".to_owned(),
            rotate_size: "100M".to_owned(),
            rotate_keep: 7,
            rotate_compress: false,
            include_success: true,
        }
    }
}

/// GPS daemon address.
#[derive(Clone, Debug)]
pub struct ConfigGps {
    pub host: String,
    pub port: u16,
}

impl ConfigGps {
    pub open spec fn same(&self, o: &ConfigGps) -> bool {
        self.host@ == o.host@ && self.port == o.port
    }

    pub open spec fn is_default(&self) -> bool {
        self.host@ == "127.0.0.1"@ && self.port == 2947
    }

    fn duplicate(&self) -> (r: ConfigGps)
        ensures
            r.same(self),
    {
        ConfigGps { host: self.host.clone(), port: self.port }
    }
}

impl Default for ConfigGps {
    fn default() -> (r: ConfigGps)
        ensures
            r.is_default(),
    {
        ConfigGps { host: "127.0.0.1".to_owned(), port: 2947 }
    }
}

/// How chunks are encoded for the broker.
#[derive(Clone, Copy, Debug, PartialEq, Eq, Structural)]
pub enum Encoder {
    JSON,
    BINARY,
}

/// Broker settings and the batching policy: a chunk is sealed at
/// `chunk_size` messages or after `chunk_period` seconds.
#[derive(Clone, Debug)]
pub struct ConfigMqtt {
    pub host: String,
    pub port: u16,
    pub topic: String,
    pub encoder: Encoder,
    pub chunk_size: usize,
    pub chunk_period: i64,
}

impl ConfigMqtt {
    pub open spec fn same(&self, o: &ConfigMqtt) -> bool {
        &&& self.host@ == o.host@
        &&& self.port == o.port
        &&& self.topic@ == o.topic@
        &&& self.encoder == o.encoder
        &&& self.chunk_size == o.chunk_size
        &&& self.chunk_period == o.chunk_period
    }

    pub open spec fn is_default(&self) -> bool {
        &&& self.host@ == "127.0.0.1"@
        &&& self.port == 1883
        &&& self.topic@ == "test"@
        &&& self.encoder == Encoder::BINARY
        &&& self.chunk_size == 2048
        &&& self.chunk_period == 5
    }

    fn duplicate(&self) -> (r: ConfigMqtt)
        ensures
            r.same(self),
    {
        ConfigMqtt {
            host: self.host.clone(),
            port: self.port,
            topic: self.topic.clone(),
            encoder: self.encoder,
            chunk_size: self.chunk_size,
            chunk_period: self.chunk_period,
        }
    }
}

impl Default for ConfigMqtt {
    fn default() -> (r: ConfigMqtt)
        ensures
            r.is_default(),
    {
        ConfigMqtt {
            host: "127.0.0.1".to_owned(),
            port: 1883,
            topic: "test".to_owned(),
            encoder: Encoder::BINARY,
            chunk_size: 2048,
            chunk_period: 5,
        }
    }
}

/// The agent's settings; a missing section stands for its defaults.
#[derive(Clone, Debug)]
pub struct Config {
    pub device_id: String,
    pub log: Option<ConfigLog>,
    pub can: Option<ConfigCan>,
    pub gps: Option<ConfigGps>,
    pub mqtt: Option<ConfigMqtt>,
}

impl Config {
    /// The device identifier.
    pub fn id(&self) -> (r: String)
        ensures
            r@ == self.device_id@,
    {
        self.device_id.clone()
    }

    /// The GPS section, or its defaults.
    pub fn gps_config(&self) -> (r: ConfigGps)
        ensures
            match self.gps {
                Some(c) => r.same(&c),
                None => r.is_default(),
            },
    {
        match &self.gps {
            Some(config) => config.duplicate(),
            None => ConfigGps::default(),
        }
    }

    /// The CAN section, or its defaults.
    pub fn can_config(&self) -> (r: ConfigCan)
        ensures
            match self.can {
                Some(c) => r.same(&c),
                None => r.is_default(),
            },
    {
        match &self.can {
            Some(config) => config.duplicate(),
            None => ConfigCan::default(),
        }
    }

    /// The log section, or its defaults.
    pub fn log_config(&self) -> (r: ConfigLog)
        ensures
            match self.log {
                Some(c) => r.same(&c),
                None => r.is_default(),
            },
    {
        match &self.log {
            Some(config) => config.duplicate(),
            None => ConfigLog::default(),
        }
    }

    /// The broker section, or its defaults.
    pub fn mqtt_config(&self) -> (r: ConfigMqtt)
        ensures
            match self.mqtt {
                Some(c) => r.same(&c),
                None => r.is_default(),
            },
    {
        match &self.mqtt {
            Some(config) => config.duplicate(),
            None => ConfigMqtt::default(),
        }
    }
}

impl Default for Config {
    fn default() -> (r: Config)
        ensures
            r.device_id@ == "test"@,
            r.log matches Some(c) && c.is_default(),
            r.can matches Some(c) && c.is_default(),
            r.gps matches Some(c) && c.is_default(),
            r.mqtt matches Some(c) && c.is_default(),
    {
        Config {
            device_id: "test".to_owned(),
            log: Some(ConfigLog::default()),
            can: Some(ConfigCan::default()),
            mqtt: Some(ConfigMqtt::default()),
            gps: Some(ConfigGps::default()),
        }
    }
}

} // verus!
