use vstd::prelude::*;

verus! {

/// A port that a Docker container publishes: `host_ip:host_port->container_port/proto`.
#[derive(Clone, Debug)]
pub struct DockerPort {
    pub host_ip: String,
    pub host_port: u16,
    pub container_port: Option<u16>,
    pub proto: String,
}

/// A running Docker container and the ports it publishes.
#[derive(Clone, Debug)]
pub struct DockerContainer {
    pub id: String,
    pub name: String,
    pub ports: Vec<DockerPort>,
}

/// A published container port that a forwarding rule's connect port names.
#[derive(Clone, Debug)]
pub struct DockerMatch {
    pub name: String,
    pub host_port: u16,
    pub container_port: Option<u16>,
    pub proto: String,
}

/// A port proxy rule, with what was found out about it: whether its listen
/// port answers on Windows, whether the firewall lets TCP in on it, whether
/// something in WSL listens on its connect port, and the container ports that
/// its connect port names.
#[derive(Clone, Debug)]
pub struct PortProxyRule {
    pub listen_addr: String,
    pub listen_port: String,
    pub connect_addr: String,
    pub connect_port: String,
    pub win_open: bool,
    pub firewall_open: bool,
    pub wsl_running: bool,
    pub docker_matches: Vec<DockerMatch>,
}

/// Everything one refresh of the window shows.
#[derive(Debug)]
pub struct AllData {
    pub rules: Vec<PortProxyRule>,
    pub wsl_ports: Vec<u16>,
    pub docker_containers: Vec<DockerContainer>,
    pub errors: Vec<String>,
    pub debug_log: Vec<String>,
}

/// A published port, as text and numbers.
pub struct DockerPortModel {
    pub host_ip: Seq<char>,
    pub host_port: u16,
    pub container_port: Option<u16>,
    pub proto: Seq<char>,
}

/// A container, as text and numbers.
pub struct DockerContainerModel {
    pub id: Seq<char>,
    pub name: Seq<char>,
    pub ports: Seq<DockerPortModel>,
}

/// A container port match, as text and numbers.
pub struct DockerMatchModel {
    pub name: Seq<char>,
    pub host_port: u16,
    pub container_port: Option<u16>,
    pub proto: Seq<char>,
}

/// A rule and its findings, as text and numbers.
pub struct PortProxyRuleModel {
    pub listen_addr: Seq<char>,
    pub listen_port: Seq<char>,
    pub connect_addr: Seq<char>,
    pub connect_port: Seq<char>,
    pub win_open: bool,
    pub firewall_open: bool,
    pub wsl_running: bool,
    pub docker_matches: Seq<DockerMatchModel>,
}

/// A refresh, as text and numbers.
pub struct AllDataModel {
    pub rules: Seq<PortProxyRuleModel>,
    pub wsl_ports: Seq<u16>,
    pub docker_containers: Seq<DockerContainerModel>,
    pub errors: Seq<Seq<char>>,
    pub debug_log: Seq<Seq<char>>,
}

impl View for DockerPort {
    type V = DockerPortModel;

    open spec fn view(&self) -> DockerPortModel {
        DockerPortModel {
            host_ip: self.host_ip@,
            host_port: self.host_port,
            container_port: self.container_port,
            proto: self.proto@,
        }
    }
}

impl View for DockerContainer {
    type V = DockerContainerModel;

    open spec fn view(&self) -> DockerContainerModel {
        DockerContainerModel {
            id: self.id@,
            name: self.name@,
            ports: self.ports@.map_values(|p: DockerPort| p@),
        }
    }
}

impl View for DockerMatch {
    type V = DockerMatchModel;

    open spec fn view(&self) -> DockerMatchModel {
        DockerMatchModel {
            name: self.name@,
            host_port: self.host_port,
            container_port: self.container_port,
            proto: self.proto@,
        }
    }
}

impl View for PortProxyRule {
    type V = PortProxyRuleModel;

    open spec fn view(&self) -> PortProxyRuleModel {
        PortProxyRuleModel {
            listen_addr: self.listen_addr@,
            listen_port: self.listen_port@,
            connect_addr: self.connect_addr@,
            connect_port: self.connect_port@,
            win_open: self.win_open,
            firewall_open: self.firewall_open,
            wsl_running: self.wsl_running,
            docker_matches: self.docker_matches@.map_values(|m: DockerMatch| m@),
        }
    }
}

impl View for AllData {
    type V = AllDataModel;

    open spec fn view(&self) -> AllDataModel {
        AllDataModel {
            rules: self.rules@.map_values(|r: PortProxyRule| r@),
            wsl_ports: self.wsl_ports@,
            docker_containers: self.docker_containers@.map_values(|c: DockerContainer| c@),
            errors: self.errors@.map_values(|s: String| s@),
            debug_log: self.debug_log@.map_values(|s: String| s@),
        }
    }
}

/// The models of a list of containers.
pub open spec fn containers_view(v: Seq<DockerContainer>) -> Seq<DockerContainerModel> {
    v.map_values(|c: DockerContainer| c@)
}

} // verus!
