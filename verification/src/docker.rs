use vstd::prelude::*;
use vstd::string::*;

use crate::command::{opt_text, strings_text};
use crate::text::{
    chars_of, find_in, lemma_filter_map_keeps, find_pair_in, is_first_pair, lemma_first_pair_unique, line_spans, lines_of,
    parse_u16_in, parse_u16_spec, rfind_char, rfind_in, span_string, span_text, spans_text,
    spans_within, split_char, split_once_char, split_once_pair, split_spans, trim, trim_span,
};
use crate::types::{
    containers_view, DockerContainer, DockerContainerModel, DockerMatch, DockerMatchModel, DockerPort,
    DockerPortModel,
};

verus! {

/// A published port as `docker ps` prints it, `host_ip:host_port->container/proto`:
/// the piece is trimmed; it needs `->` and a host port that parses; the host
/// address is what comes before the last `:` (empty without one), the protocol
/// what follows the first `/` after the arrow (`tcp` without one), and the
/// container port is kept only when it parses.
pub open spec fn docker_port_entry(piece: Seq<char>) -> Option<DockerPortModel> {
    let p = trim(piece);
    if p.len() == 0 {
        None
    } else {
        match split_once_pair(p, '-', '>') {
            None => None,
            Some((host_part, rest)) => {
                let (container_part, proto) = match split_once_char(rest, '/') {
                    Some((c, pr)) => (c, pr),
                    None => (rest, "tcp"@),
                };
                let (host_ip, host_port_text) = match rfind_char(host_part, ':') {
                    Some(i) => (host_part.take(i), host_part.skip(i + 1)),
                    None => (Seq::empty(), host_part),
                };
                match parse_u16_spec(host_port_text) {
                    Some(host_port) => Some(
                        DockerPortModel {
                            host_ip,
                            host_port,
                            container_port: parse_u16_spec(container_part),
                            proto,
                        },
                    ),
                    None => None,
                }
            },
        }
    }
}

/// A line `ID NAME PORTS` of `docker ps --format "{{.ID}} {{.Names}} {{.Ports}}"`:
/// blank lines and lines without a space give no container; the ports are the
/// comma-separated pieces after the second space that read as ports.
pub open spec fn docker_line(line: Seq<char>) -> Option<DockerContainerModel> {
    if trim(line).len() == 0 {
        None
    } else {
        match split_once_char(line, ' ') {
            None => None,
            Some((id, rest)) => {
                let (name, ports_text) = match split_once_char(rest, ' ') {
                    Some((n, p)) => (n, p),
                    None => (rest, Seq::empty()),
                };
                Some(
                    DockerContainerModel {
                        id,
                        name,
                        ports: split_char(ports_text, ',').filter_map(|p: Seq<char>| docker_port_entry(p)),
                    },
                )
            },
        }
    }
}

/// The containers that the `docker ps` output `raw` lists, in order.
pub open spec fn docker_listing(raw: Seq<char>) -> Seq<DockerContainerModel> {
    lines_of(raw).filter_map(|l: Seq<char>| docker_line(l))
}

fn parse_port(raw: &str, cs: &Vec<char>, lo: usize, hi: usize) -> (r: Option<DockerPort>)
    requires
        cs@ == raw@,
        lo <= hi <= cs@.len(),
    ensures
        match r {
            Some(p) => docker_port_entry(cs@.subrange(lo as int, hi as int)) == Some(p@),
            None => docker_port_entry(cs@.subrange(lo as int, hi as int)) is None,
        },
{
    let (a, b) = trim_span(cs, lo, hi);
    if a == b {
        return None;
    }
    let ghost p = cs@.subrange(a as int, b as int);
    let arrow = match find_pair_in(cs, a, b, '-', '>') {
        Some(k) => k,
        None => return None,
    };
    proof {
        let w = choose|i: int| is_first_pair(p, '-', '>', i);
        lemma_first_pair_unique(p, '-', '>', w, arrow - a);
        assert(p.take(arrow - a) =~= cs@.subrange(a as int, arrow as int));
        assert(p.skip(arrow - a + 2) =~= cs@.subrange(arrow + 2, b as int));
    }
    let ghost host_part = cs@.subrange(a as int, arrow as int);
    let ghost rest = cs@.subrange(arrow + 2, b as int);
    let (container_span, proto) = match find_in(cs, arrow + 2, b, '/') {
        Some(slash) => {
            assert(rest.take(slash - (arrow + 2)) =~= cs@.subrange(arrow + 2, slash as int));
            assert(rest.skip(slash - (arrow + 2) + 1) =~= cs@.subrange(slash + 1, b as int));
            ((arrow + 2, slash), span_string(raw, cs, (slash + 1, b)))
        },
        None => ((arrow + 2, b), String::from_str("tcp")),
    };
    let (host_ip, port_span) = match rfind_in(cs, a, arrow, ':') {
        Some(colon) => {
            assert(host_part.take(colon - a) =~= cs@.subrange(a as int, colon as int));
            assert(host_part.skip(colon - a + 1) =~= cs@.subrange(colon + 1, arrow as int));
            (span_string(raw, cs, (a, colon)), (colon + 1, arrow))
        },
        None => (String::new(), (a, arrow)),
    };
    let host_port = match parse_u16_in(cs, port_span.0, port_span.1) {
        Some(v) => v,
        None => return None,
    };
    let container_port = parse_u16_in(cs, container_span.0, container_span.1);
    Some(DockerPort { host_ip, host_port, container_port, proto })
}

/// The model of a list of ports.
pub open spec fn ports_view(v: Seq<DockerPort>) -> Seq<DockerPortModel> {
    v.map_values(|p: DockerPort| p@)
}

fn parse_ports(raw: &str, cs: &Vec<char>, lo: usize, hi: usize) -> (r: Vec<DockerPort>)
    requires
        cs@ == raw@,
        lo <= hi <= cs@.len(),
    ensures
        ports_view(r@) == split_char(cs@.subrange(lo as int, hi as int), ',').filter_map(
            |p: Seq<char>| docker_port_entry(p),
        ),
{
    let pieces = split_spans(cs, lo, hi, ',');
    let ghost ps = split_char(cs@.subrange(lo as int, hi as int), ',');
    let mut out: Vec<DockerPort> = Vec::new();
    let mut k: usize = 0;
    while k < pieces.len()
        invariant
            k <= pieces@.len(),
            cs@ == raw@,
            hi <= cs@.len(),
            spans_text(cs@, pieces@) == ps,
            spans_within(pieces@, lo as int, hi as int),
            ports_view(out@) == ps.take(k as int).filter_map(|p: Seq<char>| docker_port_entry(p)),
        decreases pieces@.len() - k,
    {
        let (a, b) = pieces[k];
        assert(span_text(cs@, pieces@[k as int]) == ps[k as int]);
        assert(ps.take(k + 1).drop_last() =~= ps.take(k as int));
        assert(ps.take(k + 1).last() == ps[k as int]);
        match parse_port(raw, cs, a, b) {
            Some(port) => {
                assert(ports_view(out@.push(port)) =~= ports_view(out@).push(port@));
                out.push(port);
            },
            None => {},
        }
        k = k + 1;
    }
    assert(ps.take(pieces@.len() as int) =~= ps);
    out
}

fn parse_line(raw: &str, cs: &Vec<char>, lo: usize, hi: usize) -> (r: Option<DockerContainer>)
    requires
        cs@ == raw@,
        lo <= hi <= cs@.len(),
    ensures
        match r {
            Some(c) => docker_line(cs@.subrange(lo as int, hi as int)) == Some(c@),
            None => docker_line(cs@.subrange(lo as int, hi as int)) is None,
        },
{
    let ghost line = cs@.subrange(lo as int, hi as int);
    let (ta, tb) = trim_span(cs, lo, hi);
    if ta == tb {
        return None;
    }
    let sp1 = match find_in(cs, lo, hi, ' ') {
        Some(k) => k,
        None => return None,
    };
    assert(line.take(sp1 - lo) =~= cs@.subrange(lo as int, sp1 as int));
    assert(line.skip(sp1 - lo + 1) =~= cs@.subrange(sp1 + 1, hi as int));
    let ghost rest = cs@.subrange(sp1 + 1, hi as int);
    let id = span_string(raw, cs, (lo, sp1));
    let (name, ports) = match find_in(cs, sp1 + 1, hi, ' ') {
        Some(sp2) => {
            assert(rest.take(sp2 - (sp1 + 1)) =~= cs@.subrange(sp1 + 1, sp2 as int));
            assert(rest.skip(sp2 - (sp1 + 1) + 1) =~= cs@.subrange(sp2 + 1, hi as int));
            (span_string(raw, cs, (sp1 + 1, sp2)), parse_ports(raw, cs, sp2 + 1, hi))
        },
        None => {
            assert(cs@.subrange(hi as int, hi as int) =~= Seq::<char>::empty());
            (span_string(raw, cs, (sp1 + 1, hi)), parse_ports(raw, cs, hi, hi))
        },
    };
    let c = DockerContainer { id, name, ports };
    assert(c@.ports =~= ports_view(c.ports@));
    Some(c)
}

/// Reads the containers out of the output of
/// `docker ps --format "{{.ID}} {{.Names}} {{.Ports}}"`.
pub fn parse_docker_output(raw: &str) -> (r: Vec<DockerContainer>)
    ensures
        containers_view(r@) == docker_listing(raw@),
{
    let cs = chars_of(raw);
    let ls = line_spans(&cs, 0, cs.len());
    assert(cs@.subrange(0, cs@.len() as int) =~= cs@);
    let ghost lines = lines_of(raw@);
    let mut out: Vec<DockerContainer> = Vec::new();
    let mut k: usize = 0;
    while k < ls.len()
        invariant
            k <= ls@.len(),
            cs@ == raw@,
            spans_text(cs@, ls@) == lines,
            spans_within(ls@, 0, cs@.len() as int),
            containers_view(out@) == lines.take(k as int).filter_map(|l: Seq<char>| docker_line(l)),
        decreases ls@.len() - k,
    {
        let (a, b) = ls[k];
        assert(span_text(cs@, ls@[k as int]) == lines[k as int]);
        assert(lines.take(k + 1).drop_last() =~= lines.take(k as int));
        assert(lines.take(k + 1).last() == lines[k as int]);
        match parse_line(raw, &cs, a, b) {
            Some(c) => {
                assert(containers_view(out@.push(c)) =~= containers_view(out@).push(c@));
                out.push(c);
            },
            None => {},
        }
        k = k + 1;
    }
    assert(lines.take(ls@.len() as int) =~= lines);
    out
}


/// The commands that are tried in turn to list the running containers: Docker
/// on Windows, then in WSL, then in WSL as root.
pub open spec fn docker_commands() -> Seq<Seq<Seq<char>>> {
    let fmt = "{{.ID}} {{.Names}} {{.Ports}}"@;
    seq![
        seq!["docker"@, "ps"@, "--format"@, fmt],
        seq!["wsl"@, "docker"@, "ps"@, "--format"@, fmt],
        seq!["wsl"@, "-u"@, "root"@, "docker"@, "ps"@, "--format"@, fmt],
    ]
}

/// The search for running containers: the commands are tried in order until
/// one runs and lists at least one container.
pub struct DockerScan {
    attempt: usize,
    found: Option<Vec<DockerContainer>>,
}

impl DockerScan {
    /// How many commands have been tried without result.
    pub closed spec fn attempt(&self) -> nat {
        self.attempt as nat
    }

    /// The containers, once a command has listed some.
    pub closed spec fn found(&self) -> Option<Seq<DockerContainerModel>> {
        match self.found {
            Some(v) => Some(containers_view(v@)),
            None => None,
        }
    }

    /// A search ends only on a listing that has containers in it.
    pub closed spec fn wf(&self) -> bool {
        &&& self.attempt <= 3
        &&& match self.found {
            Some(v) => v@.len() > 0,
            None => true,
        }
    }

    /// No command is left to try.
    pub open spec fn done(&self) -> bool {
        self.found() is Some || self.attempt() >= docker_commands().len()
    }

    /// A search that has tried nothing yet.
    pub fn new() -> (r: Self)
        ensures
            r.attempt() == 0,
            r.found() is None,
            r.wf(),
    {
        DockerScan { attempt: 0, found: None }
    }

    /// The command to run next, if any is left.
    pub fn next_command(&self) -> (r: Option<Vec<String>>)
        ensures
            match r {
                Some(v) => !self.done() && strings_text(v@) == docker_commands()[self.attempt() as int],
                None => self.done(),
            },
    {
        if self.found.is_some() || self.attempt >= 3 {
            return None;
        }
        let fmt = "{{.ID}} {{.Names}} {{.Ports}}";
        let r = if self.attempt == 0 {
            vec![
                String::from_str("docker"),
                String::from_str("ps"),
                String::from_str("--format"),
                String::from_str(fmt),
            ]
        } else if self.attempt == 1 {
            vec![
                String::from_str("wsl"),
                String::from_str("docker"),
                String::from_str("ps"),
                String::from_str("--format"),
                String::from_str(fmt),
            ]
        } else {
            vec![
                String::from_str("wsl"),
                String::from_str("-u"),
                String::from_str("root"),
                String::from_str("docker"),
                String::from_str("ps"),
                String::from_str("--format"),
                String::from_str(fmt),
            ]
        };
        assert(strings_text(r@) =~= docker_commands()[self.attempt() as int]);
        Some(r)
    }

    /// Takes in the output of the next command, if it ran: a listing with at
    /// least one container ends the search, anything else moves on.
    pub fn record(&mut self, out: Option<String>)
        requires
            !old(self).done(),
            old(self).wf(),
        ensures
            final(self).wf(),
            match opt_text(out) {
                Some(text) if docker_listing(text).len() > 0 => {
                    &&& final(self).found() == Some(docker_listing(text))
                    &&& final(self).attempt() == old(self).attempt()
                },
                _ => {
                    &&& final(self).found() is None
                    &&& final(self).attempt() == old(self).attempt() + 1
                },
            },
    {
        match out {
            Some(text) => {
                let containers = parse_docker_output(text.as_str());
                if containers.len() > 0 {
                    self.found = Some(containers);
                } else {
                    self.attempt = self.attempt + 1;
                }
            },
            None => {
                self.attempt = self.attempt + 1;
            },
        }
    }

    /// The containers found, or none when every command came up empty.
    pub fn finish(self) -> (r: Vec<DockerContainer>)
        ensures
            containers_view(r@) == match self.found() {
                Some(v) => v,
                None => Seq::<DockerContainerModel>::empty(),
            },
    {
        match self.found {
            Some(v) => v,
            None => {
                let r: Vec<DockerContainer> = Vec::new();
                assert(containers_view(r@) =~= Seq::<DockerContainerModel>::empty());
                r
            },
        }
    }
}

/// Whatever the search found lists at least one container, and no more than
/// the three commands are ever tried.
pub proof fn lemma_found_is_never_empty(scan: DockerScan)
    requires
        scan.wf(),
    ensures
        scan.attempt() <= docker_commands().len(),
        scan.found() matches Some(v) ==> v.len() > 0,
{
}

/// The ports of container `c` whose host or container port is `port`, each
/// with the container's name.
pub open spec fn container_matches(c: DockerContainerModel, port: u16) -> Seq<DockerMatchModel> {
    c.ports.filter_map(
        |p: DockerPortModel|
            if p.host_port == port || p.container_port == Some(port) {
                Some(
                    DockerMatchModel {
                        name: c.name,
                        host_port: p.host_port,
                        container_port: p.container_port,
                        proto: p.proto,
                    },
                )
            } else {
                None
            },
    )
}

/// The container ports, over all containers in order, that `port` names.
pub open spec fn docker_matches_for(cs: Seq<DockerContainerModel>, port: u16) -> Seq<DockerMatchModel>
    decreases cs.len(),
{
    if cs.len() == 0 {
        seq![]
    } else {
        docker_matches_for(cs.drop_last(), port) + container_matches(cs.last(), port)
    }
}

/// The models of a list of matches.
pub open spec fn matches_view(v: Seq<DockerMatch>) -> Seq<DockerMatchModel> {
    v.map_values(|m: DockerMatch| m@)
}

/// Finds the published container ports whose host or container port is `port`.
pub fn docker_matches(containers: &Vec<DockerContainer>, port: u16) -> (r: Vec<DockerMatch>)
    ensures
        matches_view(r@) == docker_matches_for(containers_view(containers@), port),
{
    let ghost cv = containers_view(containers@);
    let mut out: Vec<DockerMatch> = Vec::new();
    let mut i: usize = 0;
    assert(cv.take(0) =~= Seq::<DockerContainerModel>::empty());
    assert(matches_view(out@) =~= Seq::<DockerMatchModel>::empty());
    while i < containers.len()
        invariant
            i <= containers@.len(),
            cv == containers_view(containers@),
            matches_view(out@) == docker_matches_for(cv.take(i as int), port),
        decreases containers@.len() - i,
    {
        let c = &containers[i];
        let ghost before = matches_view(out@);
        assert(cv.take(i + 1).drop_last() =~= cv.take(i as int));
        assert(cv.take(i + 1).last() == c@);
        let ghost ps = c@.ports;
        let mut j: usize = 0;
        assert(ps.take(0) =~= Seq::<DockerPortModel>::empty());
        assert(before + Seq::<DockerMatchModel>::empty() =~= before);
        while j < c.ports.len()
            invariant
                j <= c.ports@.len(),
                ps == c@.ports,
                ps == c.ports@.map_values(|p: DockerPort| p@),
                matches_view(out@) == before + ps.take(j as int).filter_map(
                    |p: DockerPortModel|
                        if p.host_port == port || p.container_port == Some(port) {
                            Some(
                                DockerMatchModel {
                                    name: c@.name,
                                    host_port: p.host_port,
                                    container_port: p.container_port,
                                    proto: p.proto,
                                },
                            )
                        } else {
                            None
                        },
                ),
            decreases c.ports@.len() - j,
        {
            let p = &c.ports[j];
            assert(ps.take(j + 1).drop_last() =~= ps.take(j as int));
            assert(ps.take(j + 1).last() == p@);
            if p.host_port == port || p.container_port == Some(port) {
                let m = DockerMatch {
                    name: c.name.clone(),
                    host_port: p.host_port,
                    container_port: p.container_port,
                    proto: p.proto.clone(),
                };
                assert(matches_view(out@.push(m)) =~= matches_view(out@).push(m@));
                out.push(m);
            }
            j = j + 1;
        }
        assert(ps.take(c.ports@.len() as int) =~= ps);
        i = i + 1;
    }
    assert(cv.take(containers@.len() as int) =~= cv);
    out
}


/// The match that a published port of `c` gives.
pub open spec fn match_of(c: DockerContainerModel, p: DockerPortModel) -> DockerMatchModel {
    DockerMatchModel { name: c.name, host_port: p.host_port, container_port: p.container_port, proto: p.proto }
}

/// Every match names `port`, as host or container port.
pub proof fn lemma_matches_name_port(cs: Seq<DockerContainerModel>, port: u16)
    ensures
        forall|m: DockerMatchModel|
            #[trigger] docker_matches_for(cs, port).contains(m) ==> m.host_port == port || m.container_port == Some(port),
    decreases cs.len(),
{
    if cs.len() > 0 {
        lemma_matches_name_port(cs.drop_last(), port);
        let before = docker_matches_for(cs.drop_last(), port);
        let c = cs.last();
        let f = |p: DockerPortModel|
            if p.host_port == port || p.container_port == Some(port) {
                Some(DockerMatchModel { name: c.name, host_port: p.host_port, container_port: p.container_port, proto: p.proto })
            } else {
                None
            };
        let here = c.ports.filter_map(f);
        assert(container_matches(c, port) == here);
        assert forall|m: DockerMatchModel| #[trigger] docker_matches_for(cs, port).contains(m) implies m.host_port
            == port || m.container_port == Some(port) by {
            let all = before + here;
            let i = choose|i: int| 0 <= i < all.len() && all[i] == m;
            if i < before.len() {
                assert(before[i] == m);
                assert(before.contains(m));
            } else {
                assert(here[i - before.len()] == m);
                assert(here.contains(m));
                c.ports.lemma_filter_map_contains(f, m);
            }
        }
    }
}

/// Every published port that names `port` shows up among the matches.
pub proof fn lemma_matches_cover_port(cs: Seq<DockerContainerModel>, port: u16, i: int, j: int)
    requires
        0 <= i < cs.len(),
        0 <= j < cs[i].ports.len(),
        cs[i].ports[j].host_port == port || cs[i].ports[j].container_port == Some(port),
    ensures
        docker_matches_for(cs, port).contains(match_of(cs[i], cs[i].ports[j])),
    decreases cs.len(),
{
    let before = docker_matches_for(cs.drop_last(), port);
    let c = cs.last();
    let here = container_matches(c, port);
    let m = match_of(cs[i], cs[i].ports[j]);
    if i == cs.len() - 1 {
        let f = |p: DockerPortModel|
            if p.host_port == port || p.container_port == Some(port) {
                Some(DockerMatchModel { name: c.name, host_port: p.host_port, container_port: p.container_port, proto: p.proto })
            } else {
                None
            };
        assert(here == c.ports.filter_map(f));
        lemma_filter_map_keeps(c.ports, f, j, m);
        let k = choose|k: int| 0 <= k < here.len() && here[k] == m;
        assert((before + here)[before.len() + k] == m);
    } else {
        lemma_matches_cover_port(cs.drop_last(), port, i, j);
        let k = choose|k: int| 0 <= k < before.len() && before[k] == m;
        assert((before + here)[k] == m);
    }
}

} // verus!
