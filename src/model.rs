//! The values that one pass builds: healthy instances, the map of services
//! hosted elsewhere, and the rows handed to the template.
use crate::order::views;
use vstd::prelude::*;

verus! {

/// One instance of a service that passes its health checks and carries the
/// tag that the pass filters on.
pub struct HealthyInstance {
    pub node: String,
    pub address: String,
    pub port: u16,
    pub tags: Vec<String>,
    pub service: String,
}

/// The tag that marks an instance as speaking HTTP.
pub open spec fn http_tag() -> Seq<char> {
    seq!['h', 't', 't', 'p']
}

/// Whether an instance carries the HTTP tag.
pub open spec fn carries_http(i: HealthyInstance) -> bool {
    views(i.tags@).contains(http_tag())
}

/// Whether some instance of the list carries the HTTP tag.
pub open spec fn any_http(insts: Seq<HealthyInstance>) -> bool {
    exists|k: int| 0 <= k < insts.len() && carries_http(#[trigger] insts[k])
}

/// Whether all instances of the list report one port.
pub open spec fn ports_agree(insts: Seq<HealthyInstance>) -> bool {
    forall|k: int| 0 <= k < insts.len() ==> (#[trigger] insts[k]).port == insts[0].port
}

/// The node identifiers of a list of instances, one per instance.
pub open spec fn node_ids(insts: Seq<HealthyInstance>) -> Seq<Seq<char>> {
    insts.map_values(|i: HealthyInstance| i.node@)
}

/// How the proxy treats a service's traffic.
#[derive(PartialEq, Eq, Structural, Clone, Copy, Debug)]
pub enum Mode {
    Http,
    Tcp,
}

/// The mode of a service: HTTP when any of its instances carries the tag.
pub open spec fn mode_of(insts: Seq<HealthyInstance>) -> Mode {
    if any_http(insts) {
        Mode::Http
    } else {
        Mode::Tcp
    }
}

impl Mode {
    /// The word the template sees.
    pub fn as_str(&self) -> (r: &'static str)
        ensures
            *self == Mode::Http ==> r@ == http_tag(),
            *self == Mode::Tcp ==> r@ == seq!['t', 'c', 'p'],
    {
        proof {
            reveal_strlit("http");
            reveal_strlit("tcp");
        }
        match self {
            Mode::Http => "http",
            Mode::Tcp => "tcp",
        }
    }
}

/// One row of the document: a service with its port, mode and nodes.
pub struct ServiceEntry {
    pub name: String,
    pub port: u16,
    pub mode: Mode,
    pub nodes: Vec<String>,
}

/// What a row says, as plain values.
pub struct EntryView {
    pub name: Seq<char>,
    pub port: u16,
    pub mode: Mode,
    pub nodes: Seq<Seq<char>>,
}

impl View for ServiceEntry {
    type V = EntryView;

    open spec fn view(&self) -> EntryView {
        EntryView { name: self.name@, port: self.port, mode: self.mode, nodes: views(self.nodes@) }
    }
}

/// The document handed to the template: its rows, sorted by name.
pub struct RenderDocument {
    pub services: Vec<ServiceEntry>,
}

impl View for RenderDocument {
    type V = Seq<EntryView>;

    open spec fn view(&self) -> Seq<EntryView> {
        self.services@.map_values(|e: ServiceEntry| e@)
    }
}

/// Why a pass produced no document.
#[derive(PartialEq, Eq, Debug)]
pub enum TickError {
    /// A registry call failed; nothing of the pass is used.
    RegistryUnavailable,
    /// The instances of the named service disagree on their port.
    DataIntegrity(String),
    /// The template could not be rendered.
    TemplateRender,
}

} // verus!
