//! Static configuration: network credentials and the broker endpoint.
//!
//! The values are compiled in; the embedding program fills them before it
//! brings the transport up.

use vstd::prelude::*;

verus! {

/// Connection settings for the station and the message broker.
#[derive(Debug)]
pub struct Config {
    pub wifi_name: String,
    pub wifi_password: String,
    pub mqtt_port: u16,
    pub mqtt_host: String,
    pub mqtt_topic: String,
}

impl Default for Config {
    /// Empty credentials, the stock broker port, and the fixed command topic.
    fn default() -> (c: Config)
        ensures
            c.wifi_name@.len() == 0,
            c.wifi_password@.len() == 0,
            c.mqtt_port == 1884,
            c.mqtt_host@.len() == 0,
            c.mqtt_topic@ == "led"@,
    {
        Config {
            wifi_name: String::new(),
            wifi_password: String::new(),
            mqtt_port: 1884,
            mqtt_host: String::new(),
            mqtt_topic: "led".to_owned(),
        }
    }
}

} // verus!
