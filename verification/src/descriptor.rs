//! Resource descriptors: a network endpoint harvested from some source,
//! identified by its `(ip, port)` pair. Metadata fields never influence
//! identity.

use vstd::prelude::*;

verus! {

/// The mathematical value of a [`Proxy`]: each field as a sequence of
/// characters.
pub ghost struct ProxyView {
    pub ip: Seq<char>,
    pub port: Seq<char>,
    pub code: Seq<char>,
    pub country: Seq<char>,
    pub anonymity: Seq<char>,
    pub https: Seq<char>,
}

impl ProxyView {
    /// The identity of a descriptor: the `(ip, port)` pair and nothing else.
    pub open spec fn key(self) -> (Seq<char>, Seq<char>) {
        (self.ip, self.port)
    }
}

/// A candidate resource endpoint, as harvested from one source.
/// Immutable once built; two descriptors are the same resource
/// exactly when their `(ip, port)` pairs agree.
pub struct Proxy {
    pub ip: String,
    pub port: String,
    pub code: String,
    pub country: String,
    pub anonymity: String,
    pub https: String,
}

impl View for Proxy {
    type V = ProxyView;

    open spec fn view(&self) -> ProxyView {
        ProxyView {
            ip: self.ip@,
            port: self.port@,
            code: self.code@,
            country: self.country@,
            anonymity: self.anonymity@,
            https: self.https@,
        }
    }
}

impl DeepView for Proxy {
    type V = ProxyView;

    open spec fn deep_view(&self) -> ProxyView {
        self@
    }
}

impl Proxy {
    /// An identical copy of the descriptor.
    pub fn duplicate(&self) -> (r: Proxy)
        ensures
            r@ == self@,
    {
        Proxy {
            ip: self.ip.clone(),
            port: self.port.clone(),
            code: self.code.clone(),
            country: self.country.clone(),
            anonymity: self.anonymity.clone(),
            https: self.https.clone(),
        }
    }

    /// The `ip:port` address a liveness probe connects to.
    pub fn probe_address(&self) -> (r: String)
        ensures
            r@ == self@.ip + seq![':'] + self@.port,
    {
        let mut s = self.ip.clone();
        s.append(":");
        s.append(self.port.as_str());
        proof {
            reveal_strlit(":");
            assert(":"@ =~= seq![':']);
            assert(s@ =~= self@.ip + seq![':'] + self@.port);
        }
        s
    }

    /// True exactly when `self` and `other` denote the same resource:
    /// equal ip and equal port, whatever the metadata says.
    pub fn same_key(&self, other: &Proxy) -> (r: bool)
        ensures
            r == (self@.key() == other@.key()),
    {
        let r = self.ip == other.ip && self.port == other.port;
        proof {
            if self@.ip == other@.ip && self@.port == other@.port {
                assert(self@.key() == other@.key());
            } else {
                assert(self@.key() != other@.key());
            }
        }
        r
    }
}

} // verus!
