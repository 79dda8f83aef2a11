//! Server configuration: the TLS key and certificate locations with the
//! TLS port, the keep-alive duration, and the worker-thread count. The
//! setters state exactly which field changes and that the rest stand
//! still.

use vstd::prelude::*;
use vstd::string::StringExecFns;

verus! {

/// The TLS material a server needs: where its private key and its
/// certificate lie, and the port TLS listens on (443 when nothing else is
/// set).
#[derive(Clone)]
pub struct Ssl {
    /// Location of the private key file.
    pub key: String,
    /// Location of the certificate file.
    pub cert: String,
    /// The port where TLS should listen.
    pub port: u16,
}

impl Ssl {
    /// A fresh configuration: empty locations, port 443.
    pub fn new() -> (r: Self)
        ensures
            r.key@.len() == 0,
            r.cert@.len() == 0,
            r.port == 443,
    {
        Ssl { key: String::new(), cert: String::new(), port: 443 }
    }

    /// Sets the private key location and changes nothing else.
    pub fn key(&mut self, path: &str)
        ensures
            final(self).key@ == path@,
            final(self).cert == old(self).cert,
            final(self).port == old(self).port,
    {
        self.key = String::from_str(path);
    }

    /// Sets the certificate location and changes nothing else.
    pub fn cert(&mut self, path: &str)
        ensures
            final(self).cert@ == path@,
            final(self).key == old(self).key,
            final(self).port == old(self).port,
    {
        self.cert = String::from_str(path);
    }
}

impl Default for Ssl {
    /// The same fresh configuration that `new` builds.
    fn default() -> (r: Self)
        ensures
            r.key@.len() == 0,
            r.cert@.len() == 0,
            r.port == 443,
    {
        Ssl::new()
    }
}

/// A server configuration that can be built on its own and appended to a
/// server: the keep-alive duration in seconds, the TLS settings, and the
/// number of worker threads.
pub struct OctaneConfig {
    /// The duration for keep-alive requests, in whole seconds; five by
    /// default.
    pub keep_alive: Option<u64>,
    /// The TLS settings.
    pub ssl: Ssl,
    /// The number of worker threads a runtime should be built with.
    pub worker_threads: Option<usize>,
}

impl OctaneConfig {
    /// A fresh configuration: a five-second keep-alive, fresh TLS
    /// settings, and no worker-thread count.
    pub fn new() -> (r: Self)
        ensures
            r.keep_alive == Some(5u64),
            r.ssl.key@.len() == 0,
            r.ssl.cert@.len() == 0,
            r.ssl.port == 443,
            r.worker_threads is None,
    {
        OctaneConfig { ssl: Ssl::new(), keep_alive: Some(5), worker_threads: None }
    }

    /// Takes the TLS settings and the keep-alive duration over from
    /// another configuration; the worker-thread count stands still.
    pub(crate) fn append(&mut self, settings: Self)
        ensures
            final(self).ssl == settings.ssl,
            final(self).keep_alive == settings.keep_alive,
            final(self).worker_threads == old(self).worker_threads,
    {
        self.ssl = settings.ssl;
        self.keep_alive = settings.keep_alive;
    }

    /// Sets the worker-thread count and changes nothing else.
    pub fn worker_threads(&mut self, threads: usize)
        ensures
            final(self).worker_threads == Some(threads),
            final(self).keep_alive == old(self).keep_alive,
            final(self).ssl == old(self).ssl,
    {
        self.worker_threads = Some(threads);
    }
}

impl Default for OctaneConfig {
    /// The same fresh configuration that `new` builds.
    fn default() -> (r: Self)
        ensures
            r.keep_alive == Some(5u64),
            r.worker_threads is None,
    {
        OctaneConfig::new()
    }
}

/// What any configurable server front exposes; a type with a
/// configuration inside implements it by forwarding.
pub trait Config {
    /// Sets the keep-alive duration, in whole seconds.
    fn set_keepalive(&mut self, seconds: u64);

    /// Replaces the TLS key and certificate locations with the given
    /// ones.
    fn with_ssl_config(&mut self, ssl_conf: Ssl);

    /// Sets the port TLS listens on.
    fn ssl(&mut self, port: u16);
}

impl Config for OctaneConfig {
    /// Sets the keep-alive duration and changes nothing else.
    fn set_keepalive(&mut self, seconds: u64)
        ensures
            final(self).keep_alive == Some(seconds),
            final(self).ssl == old(self).ssl,
            final(self).worker_threads == old(self).worker_threads,
    {
        self.keep_alive = Some(seconds);
    }

    /// Takes the key and certificate locations over; the port and the
    /// rest stand still.
    fn with_ssl_config(&mut self, ssl_conf: Ssl)
        ensures
            final(self).ssl.key == ssl_conf.key,
            final(self).ssl.cert == ssl_conf.cert,
            final(self).ssl.port == old(self).ssl.port,
            final(self).keep_alive == old(self).keep_alive,
            final(self).worker_threads == old(self).worker_threads,
    {
        self.ssl.key = ssl_conf.key;
        self.ssl.cert = ssl_conf.cert;
    }

    /// Sets the TLS port and changes nothing else.
    fn ssl(&mut self, port: u16)
        ensures
            final(self).ssl.port == port,
            final(self).ssl.key == old(self).ssl.key,
            final(self).ssl.cert == old(self).ssl.cert,
            final(self).keep_alive == old(self).keep_alive,
            final(self).worker_threads == old(self).worker_threads,
    {
        self.ssl.port = port;
    }
}

} // verus!
