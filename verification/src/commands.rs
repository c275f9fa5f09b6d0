//! The command lines that program routes and devices where no library does.

use vstd::prelude::*;

use crate::net::IpNet;
use crate::state::messages;
use crate::text::{decimal, decimal_text, texts, trim, trimmed};

verus! {

/// What the host runs.
#[derive(Clone, Copy, PartialEq, Eq, Structural, Debug)]
pub enum Platform {
    Linux,
    MacOs,
    Other,
}

fn words(v: &Vec<&str>) -> (r: Vec<String>)
    ensures
        messages(r@) == texts(v@),
{
    let mut out: Vec<String> = Vec::new();
    let mut i: usize = 0;
    while i < v.len()
        invariant
            i <= v@.len(),
            out@.len() == i,
            forall|k: int| 0 <= k < i ==> (#[trigger] out@[k])@ == v@[k]@,
        decreases v.len() - i,
    {
        out.push(v[i].to_owned());
        i = i + 1;
    }
    assert(messages(out@) =~= texts(v@));
    out
}

/// A `route` invocation. IPv6 names the length in an argument of its own:
/// written behind a slash it would not be honoured, and the route would
/// capture everything.
pub open spec fn macos_route(verb: Seq<char>, net: IpNet, device: Seq<char>) -> Seq<Seq<char>> {
    if net.addr.v4() {
        seq![
            "route"@,
            "-n"@,
            verb,
            "-inet"@,
            "-net"@,
            net.text(),
            "-interface"@,
            device,
        ]
    } else {
        seq![
            "route"@,
            "-n"@,
            verb,
            "-inet6"@,
            net.addr.text(),
            "-prefixlen"@,
            decimal(net.prefix_len as nat),
            "-interface"@,
            device,
        ]
    }
}

/// A `route` invocation.
pub fn macos_route_args(verb: &str, net: IpNet, device: &str) -> (r: Vec<String>)
    requires
        net.valid(),
    ensures
        messages(r@) == macos_route(verb@, net, device@),
{
    if net.addr.is_ipv4() {
        let n = net.to_text();
        let v = vec![
            "route",
            "-n",
            verb,
            "-inet",
            "-net",
            n.as_str(),
            "-interface",
            device,
        ];
        assert(texts(v@) =~= macos_route(verb@, net, device@));
        words(&v)
    } else {
        let a = net.addr.to_text();
        let len = decimal_text(net.prefix_len as u64);
        let v = vec![
            "route",
            "-n",
            verb,
            "-inet6",
            a.as_str(),
            "-prefixlen",
            len.as_str(),
            "-interface",
            device,
        ];
        assert(texts(v@) =~= macos_route(verb@, net, device@));
        words(&v)
    }
}

/// Adding a route and changing one differ in the verb alone, so that falling
/// back from the one to the other installs the same route.
pub proof fn law_the_verb_is_the_only_difference(
    a: Seq<char>,
    b: Seq<char>,
    net: IpNet,
    device: Seq<char>,
    i: int,
)
    requires
        0 <= i < macos_route(a, net, device).len(),
        i != 2,
    ensures
        macos_route(a, net, device).len() == macos_route(b, net, device).len(),
        macos_route(a, net, device)[i] == macos_route(b, net, device)[i],
{
}

/// Programs routes with the platform's command-line tools.
#[derive(Debug)]
pub struct SystemProgrammer {
    pub device: String,
}

/// The family switch of `ip`.
pub open spec fn ip_family(net: IpNet) -> Seq<char> {
    if net.addr.v4() {
        "-4"@
    } else {
        "-6"@
    }
}

/// The content of a list of command lines.
pub open spec fn command_views(s: Seq<Vec<String>>) -> Seq<Seq<Seq<char>>> {
    s.map_values(|c: Vec<String>| messages(c@))
}

impl SystemProgrammer {
    /// The commands that route a prefix out of the device: each is tried in
    /// turn until one succeeds.
    pub fn add_via_tun(&self, platform: Platform, net: IpNet) -> (r: Result<
        Vec<Vec<String>>,
        String,
    >)
        requires
            net.valid(),
        ensures
            match (platform, r) {
                (Platform::Linux, Ok(c)) => command_views(c@) == seq![
                    seq![
                        "ip"@,
                        ip_family(net),
                        "route"@,
                        "replace"@,
                        net.text(),
                        "dev"@,
                        self.device@,
                    ],
                ],
                (Platform::MacOs, Ok(c)) => command_views(c@) == seq![
                    macos_route("add"@, net, self.device@),
                    macos_route("change"@, net, self.device@),
                ],
                (Platform::Other, Err(e)) => e@
                    == "route programming is not implemented on this platform yet"@,
                _ => false,
            },
    {
        match platform {
            Platform::Linux => {
                let n = net.to_text();
                let fam = if net.addr.is_ipv4() {
                    "-4"
                } else {
                    "-6"
                };
                let v = vec![
                    "ip",
                    fam,
                    "route",
                    "replace",
                    n.as_str(),
                    "dev",
                    self.device.as_str(),
                ];
                assert(texts(v@) =~= seq![
                    "ip"@,
                    ip_family(net),
                    "route"@,
                    "replace"@,
                    net.text(),
                    "dev"@,
                    self.device@,
                ]);
                let c = vec![words(&v)];
                assert(command_views(c@) =~= seq![texts(v@)]);
                Ok(c)
            },
            Platform::MacOs => {
                let c = vec![
                    macos_route_args("add", net, self.device.as_str()),
                    macos_route_args("change", net, self.device.as_str()),
                ];
                assert(command_views(c@) =~= seq![
                    macos_route("add"@, net, self.device@),
                    macos_route("change"@, net, self.device@),
                ]);
                Ok(c)
            },
            Platform::Other => Err(
                "route programming is not implemented on this platform yet".to_owned(),
            ),
        }
    }

    /// The command that removes a prefix.
    pub fn remove(&self, platform: Platform, net: IpNet) -> (r: Result<Vec<String>, String>)
        requires
            net.valid(),
        ensures
            match (platform, r) {
                (Platform::Linux, Ok(c)) => messages(c@) == seq![
                    "ip"@,
                    ip_family(net),
                    "route"@,
                    "del"@,
                    net.text(),
                ],
                (Platform::MacOs, Ok(c)) => messages(c@) == seq![
                    "route"@,
                    "-n"@,
                    "delete"@,
                    if net.addr.v4() {
                        "-inet"@
                    } else {
                        "-inet6"@
                    },
                    "-net"@,
                    net.text(),
                ],
                (Platform::Other, Err(e)) => e@
                    == "route programming is not implemented on this platform yet"@,
                _ => false,
            },
    {
        let n = net.to_text();
        match platform {
            Platform::Linux => {
                let fam = if net.addr.is_ipv4() {
                    "-4"
                } else {
                    "-6"
                };
                let v = vec!["ip", fam, "route", "del", n.as_str()];
                assert(texts(v@) =~= seq!["ip"@, ip_family(net), "route"@, "del"@, net.text()]);
                Ok(words(&v))
            },
            Platform::MacOs => {
                let fam = if net.addr.is_ipv4() {
                    "-inet"
                } else {
                    "-inet6"
                };
                let v = vec!["route", "-n", "delete", fam, "-net", n.as_str()];
                assert(texts(v@) =~= seq!["route"@, "-n"@, "delete"@, fam@, "-net"@, net.text()]);
                Ok(words(&v))
            },
            Platform::Other => Err(
                "route programming is not implemented on this platform yet".to_owned(),
            ),
        }
    }
}

/// The command that changes the MTU of a live device.
pub fn set_device_mtu(platform: Platform, device: &str, mtu: u16) -> (r: Result<
    Vec<String>,
    String,
>)
    ensures
        match (platform, r) {
            (Platform::Linux, Ok(c)) => messages(c@) == seq![
                "ip"@,
                "link"@,
                "set"@,
                "dev"@,
                device@,
                "mtu"@,
                decimal(mtu as nat),
            ],
            (Platform::MacOs, Ok(c)) => messages(c@) == seq![
                "ifconfig"@,
                device@,
                "mtu"@,
                decimal(mtu as nat),
            ],
            (Platform::Other, Err(e)) => e@ == "setting MTU is not implemented on this platform"@,
            _ => false,
        },
{
    let m = decimal_text(mtu as u64);
    match platform {
        Platform::Linux => {
            let v = vec!["ip", "link", "set", "dev", device, "mtu", m.as_str()];
            assert(texts(v@) =~= seq![
                "ip"@,
                "link"@,
                "set"@,
                "dev"@,
                device@,
                "mtu"@,
                decimal(mtu as nat),
            ]);
            Ok(words(&v))
        },
        Platform::MacOs => {
            let v = vec!["ifconfig", device, "mtu", m.as_str()];
            assert(texts(v@) =~= seq!["ifconfig"@, device@, "mtu"@, decimal(mtu as nat)]);
            Ok(words(&v))
        },
        Platform::Other => Err("setting MTU is not implemented on this platform".to_owned()),
    }
}

/// Words with blanks between them.
pub open spec fn joined(words: Seq<Seq<char>>) -> Seq<char>
    decreases words.len(),
{
    if words.len() == 0 {
        Seq::empty()
    } else if words.len() == 1 {
        words[0]
    } else {
        joined(words.drop_last()) + " "@ + words.last()
    }
}

/// What is reported of a command that failed.
pub fn command_failure(args: &Vec<String>, stderr: &str) -> (r: String)
    ensures
        r@ == joined(messages(args@)) + " failed: "@ + trimmed(stderr@),
{
    let ghost v = messages(args@);
    let mut out = String::new();
    let mut i: usize = 0;
    assert(v.take(0) =~= Seq::empty());
    assert(out@ =~= joined(v.take(0)));
    while i < args.len()
        invariant
            i <= args@.len(),
            v == messages(args@),
            v.len() == args@.len(),
            out@ == joined(v.take(i as int)),
        decreases args.len() - i,
    {
        assert(v.take(i + 1).drop_last() =~= v.take(i as int));
        assert(v.take(i + 1).last() == args@[i as int]@);
        if i > 0 {
            out.append(" ");
        }
        out.append(args[i].as_str());
        assert(out@ =~= joined(v.take(i + 1)));
        i = i + 1;
    }
    assert(v.take(i as int) =~= v);
    out.append(" failed: ");
    let t = trim(stderr);
    out.append(t.as_str());
    assert(out@ =~= joined(v) + " failed: "@ + trimmed(stderr@));
    out
}

} // verus!
