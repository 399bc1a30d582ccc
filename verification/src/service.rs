//! Services installed on the system.

use vstd::prelude::*;

verus! {

/// An installed unit that can be restarted when its configuration
/// changes. The canonical file path is the service's identity; the
/// declared name need not be unique across paths, though callers
/// generally treat it as such.
#[derive(Debug, Clone, Eq, PartialEq, Ord, PartialOrd, Hash)]
pub struct Service {
    /// The canonical path of the service's definition file.
    pub filepath: String,
    /// The name declared inside the service file.
    pub name: String,
    /// The commands to issue, in order, to restart the service.
    pub restart_commands: Vec<String>,
}

/// The mathematical view of a service.
pub ghost struct ServiceV {
    pub filepath: Seq<char>,
    pub name: Seq<char>,
    pub restart_commands: Seq<Seq<char>>,
}

impl View for Service {
    type V = ServiceV;

    open spec fn view(&self) -> ServiceV {
        ServiceV {
            filepath: self.filepath@,
            name: self.name@,
            restart_commands: self.restart_commands.deep_view(),
        }
    }
}

impl DeepView for Service {
    type V = ServiceV;

    open spec fn deep_view(&self) -> ServiceV {
        self.view()
    }
}

} // verus!
