//! The shapes the management API serves to its callers, assembled from
//! the loaded service-configuration graph.

use vstd::prelude::*;

verus! {

/// The services payload: service name to its served shape.
pub type Services = Vec<(String, Service)>;

/// One served service: the configuration files associated with it and
/// the commands that restart it.
#[derive(Debug, PartialEq, Eq)]
pub struct Service {
    pub configuration_files: Vec<String>,
    pub restart_commands: Vec<String>,
}

/// The mathematical view of a served service.
pub ghost struct ServiceView {
    pub configuration_files: Seq<Seq<char>>,
    pub restart_commands: Seq<Seq<char>>,
}

impl View for Service {
    type V = ServiceView;

    open spec fn view(&self) -> ServiceView {
        ServiceView {
            configuration_files: self.configuration_files.deep_view(),
            restart_commands: self.restart_commands.deep_view(),
        }
    }
}

impl DeepView for Service {
    type V = ServiceView;

    open spec fn deep_view(&self) -> ServiceView {
        self.view()
    }
}

/// The configuration-files payload: template name to one served file.
pub type ConfigurationFiles = Vec<(String, ConfigurationFile)>;

/// One served configuration file: where it is rendered to, from which
/// template, and with what mode.
#[derive(Debug, PartialEq, Eq)]
pub struct ConfigurationFile {
    pub path: String,
    pub template_path: String,
    pub mode: Option<String>,
}

/// The mathematical view of a served configuration file.
pub ghost struct ConfigurationFileView {
    pub path: Seq<char>,
    pub template_path: Seq<char>,
    pub mode: Option<Seq<char>>,
}

impl View for ConfigurationFile {
    type V = ConfigurationFileView;

    open spec fn view(&self) -> ConfigurationFileView {
        ConfigurationFileView {
            path: self.path@,
            template_path: self.template_path@,
            mode: match self.mode {
                Some(m) => Some(m@),
                None => None,
            },
        }
    }
}

impl DeepView for ConfigurationFile {
    type V = ConfigurationFileView;

    open spec fn deep_view(&self) -> ConfigurationFileView {
        self.view()
    }
}

} // verus!
