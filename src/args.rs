//! The command line of the node: options read into [`Args`].
use vstd::prelude::*;

use crate::ids::{PeerId, Urn};
use crate::name::{is_component, split_at_char, split_by, texts};

verus! {

/// Where the node keeps its state.
#[derive(Debug, PartialEq, Eq)]
pub enum LnkHome {
    /// The platform's project directories.
    ProjectDirs,
    /// A root directory given on the command line.
    Root(String),
}

/// A peer to connect to at start-up.
#[derive(Debug, PartialEq, Eq)]
pub struct Bootstrap {
    pub addr: String,
    pub peer_id: PeerId,
}

#[derive(Clone, Copy, Debug, PartialEq, Eq, Structural)]
pub enum MetricsProvider {
    Graphite,
}

#[derive(Debug, PartialEq, Eq)]
pub struct MetricsArgs {
    pub provider: Option<MetricsProvider>,
    pub graphite_addr: String,
}

/// Where the protocol listens.
#[derive(Debug, PartialEq, Eq)]
pub enum ProtocolListen {
    Localhost,
    Provided { addr: String },
}

#[derive(Debug, PartialEq, Eq)]
pub struct ProtocolArgs {
    pub listen: ProtocolListen,
    pub network: String,
}

#[derive(Clone, Copy, Debug, PartialEq, Eq, Structural)]
pub enum Signer {
    /// A key the node reads itself.
    Key,
    /// Keys held by an ssh agent.
    SshAgent,
}

#[derive(Clone, Copy, Debug, PartialEq, Eq, Structural)]
pub enum KeyFormat {
    Binary,
    Base64,
}

#[derive(Clone, Copy, Debug, PartialEq, Eq, Structural)]
pub enum KeySource {
    Ephemeral,
    File,
    Stdin,
}

#[derive(Debug, PartialEq, Eq)]
pub struct KeyArgs {
    pub format: KeyFormat,
    pub source: KeySource,
    pub file_path: Option<String>,
}

#[derive(Clone, Copy, Debug, PartialEq, Eq, Structural)]
pub enum TrackingMode {
    Everything,
    Selected,
}

#[derive(Debug, PartialEq, Eq)]
pub struct TrackingArgs {
    pub mode: Option<TrackingMode>,
    pub peer_ids: Vec<PeerId>,
    pub urns: Vec<Urn>,
}

/// The node's command line.
#[derive(Debug, PartialEq, Eq)]
pub struct Args {
    pub lnk_home: LnkHome,
    pub bootstraps: Vec<Bootstrap>,
    pub metrics: MetricsArgs,
    pub protocol: ProtocolArgs,
    pub signer: Signer,
    pub key: KeyArgs,
    pub tmp_root: bool,
    pub tracking: TrackingArgs,
    pub profile_id: Option<String>,
}

/// What an [`Args`] holds.
pub struct ArgsView {
    pub lnk_home: Option<Seq<char>>,
    pub bootstraps: Seq<(Seq<char>, Seq<char>)>,
    pub provider: Option<MetricsProvider>,
    pub graphite_addr: Seq<char>,
    pub listen: Option<Seq<char>>,
    pub network: Seq<char>,
    pub signer: Signer,
    pub key_format: KeyFormat,
    pub key_source: KeySource,
    pub key_file_path: Option<Seq<char>>,
    pub tmp_root: bool,
    pub track_mode: Option<TrackingMode>,
    pub track_peers: Seq<Seq<char>>,
    pub track_urns: Seq<Seq<char>>,
    pub profile_id: Option<Seq<char>>,
}

pub open spec fn opt_view(o: Option<String>) -> Option<Seq<char>> {
    match o {
        Some(s) => Some(s@),
        None => None,
    }
}

pub open spec fn bootstrap_views(v: Seq<Bootstrap>) -> Seq<(Seq<char>, Seq<char>)> {
    v.map_values(|b: Bootstrap| (b.peer_id@, b.addr@))
}

pub open spec fn urn_views(v: Seq<Urn>) -> Seq<Seq<char>> {
    v.map_values(|u: Urn| u@)
}

impl View for Args {
    type V = ArgsView;

    open spec fn view(&self) -> ArgsView {
        ArgsView {
            lnk_home: match &self.lnk_home {
                LnkHome::ProjectDirs => None,
                LnkHome::Root(p) => Some(p@),
            },
            bootstraps: bootstrap_views(self.bootstraps@),
            provider: self.metrics.provider,
            graphite_addr: self.metrics.graphite_addr@,
            listen: match &self.protocol.listen {
                ProtocolListen::Localhost => None,
                ProtocolListen::Provided { addr } => Some(addr@),
            },
            network: self.protocol.network@,
            signer: self.signer,
            key_format: self.key.format,
            key_source: self.key.source,
            key_file_path: opt_view(self.key.file_path),
            tmp_root: self.tmp_root,
            track_mode: self.tracking.mode,
            track_peers: crate::sigrefs::peer_views(self.tracking.peer_ids@),
            track_urns: urn_views(self.tracking.urns@),
            profile_id: opt_view(self.profile_id),
        }
    }
}

/// The arguments when no option is given.
pub open spec fn default_view() -> ArgsView {
    ArgsView {
        lnk_home: None,
        bootstraps: Seq::empty(),
        provider: None,
        graphite_addr: "localhost:9109"@,
        listen: None,
        network: "main"@,
        signer: Signer::Key,
        key_format: KeyFormat::Binary,
        key_source: KeySource::Ephemeral,
        key_file_path: None,
        tmp_root: false,
        track_mode: None,
        track_peers: Seq::empty(),
        track_urns: Seq::empty(),
        profile_id: None,
    }
}

impl Default for MetricsArgs {
    fn default() -> (r: MetricsArgs)
        ensures
            r.provider is None,
            r.graphite_addr@ == "localhost:9109"@,
    {
        MetricsArgs { provider: None, graphite_addr: "localhost:9109".to_owned() }
    }
}

impl Default for ProtocolArgs {
    fn default() -> (r: ProtocolArgs)
        ensures
            r.listen == ProtocolListen::Localhost,
            r.network@ == "main"@,
    {
        ProtocolArgs { listen: ProtocolListen::Localhost, network: "main".to_owned() }
    }
}

impl Default for KeyArgs {
    fn default() -> (r: KeyArgs)
        ensures
            r.format == KeyFormat::Binary,
            r.source == KeySource::Ephemeral,
            r.file_path is None,
    {
        KeyArgs { format: KeyFormat::Binary, source: KeySource::Ephemeral, file_path: None }
    }
}

impl Default for TrackingArgs {
    fn default() -> (r: TrackingArgs)
        ensures
            r.mode is None,
            r.peer_ids@.len() == 0,
            r.urns@.len() == 0,
    {
        TrackingArgs { mode: None, peer_ids: Vec::new(), urns: Vec::new() }
    }
}

impl Default for Args {
    fn default() -> (r: Args)
        ensures
            r@ == default_view(),
    {
        let a = Args {
            lnk_home: LnkHome::ProjectDirs,
            bootstraps: Vec::new(),
            metrics: MetricsArgs::default(),
            protocol: ProtocolArgs::default(),
            signer: Signer::Key,
            key: KeyArgs::default(),
            tmp_root: false,
            tracking: TrackingArgs::default(),
            profile_id: None,
        };
        assert(bootstrap_views(a.bootstraps@) =~= Seq::empty());
        assert(crate::sigrefs::peer_views(a.tracking.peer_ids@) =~= Seq::empty());
        assert(urn_views(a.tracking.urns@) =~= Seq::empty());
        a
    }
}

/// Why a command line was refused.
#[derive(Debug, PartialEq, Eq)]
pub enum ArgsError {
    /// An option that is not known.
    UnknownOption(String),
    /// An option that takes a value came last.
    MissingValue(String),
    /// An option's value is not one it takes.
    InvalidValue { option: String, value: String },
}

pub enum ArgsErrorView {
    UnknownOption(Seq<char>),
    MissingValue(Seq<char>),
    InvalidValue { option: Seq<char>, value: Seq<char> },
}

impl View for ArgsError {
    type V = ArgsErrorView;

    open spec fn view(&self) -> ArgsErrorView {
        match self {
            ArgsError::UnknownOption(o) => ArgsErrorView::UnknownOption(o@),
            ArgsError::MissingValue(o) => ArgsErrorView::MissingValue(o@),
            ArgsError::InvalidValue { option, value } => ArgsErrorView::InvalidValue {
                option: option@,
                value: value@,
            },
        }
    }
}

/// The options that take no value.
pub open spec fn is_flag(o: Seq<char>) -> bool {
    o == "--tmp-root"@
}

/// The options that take a value.
pub open spec fn takes_value(o: Seq<char>) -> bool {
    o == "--lnk-home"@ || o == "--bootstrap"@ || o == "--metrics-provider"@ || o
        == "--graphite-addr"@ || o == "--protocol-listen"@ || o == "--protocol-network"@ || o
        == "--signer"@ || o == "--key-format"@ || o == "--key-source"@ || o == "--key-file-path"@
        || o == "--track"@ || o == "--track-peer-id"@ || o == "--track-urn"@ || o
        == "--profile-id"@
}

/// A bootstrap peer written `<peer>@<addr>`.
pub open spec fn bootstrap_of(v: Seq<char>) -> Option<(Seq<char>, Seq<char>)> {
    let parts = split_by(v, '@');
    if parts.len() == 2 && is_component(parts[0]) {
        Some((parts[0], parts[1]))
    } else {
        None
    }
}

/// `a` with the option `o` set to `v`, or `None` where `v` is not a value
/// that `o` takes.
pub open spec fn with_value(a: ArgsView, o: Seq<char>, v: Seq<char>) -> Option<ArgsView> {
    if o == "--lnk-home"@ {
        Some(ArgsView { lnk_home: Some(v), ..a })
    } else if o == "--bootstrap"@ {
        match bootstrap_of(v) {
            Some(b) => Some(ArgsView { bootstraps: a.bootstraps.push(b), ..a }),
            None => None,
        }
    } else if o == "--metrics-provider"@ {
        if v == "graphite"@ {
            Some(ArgsView { provider: Some(MetricsProvider::Graphite), ..a })
        } else {
            None
        }
    } else if o == "--graphite-addr"@ {
        Some(ArgsView { graphite_addr: v, ..a })
    } else if o == "--protocol-listen"@ {
        if v == "localhost"@ {
            Some(ArgsView { listen: None, ..a })
        } else {
            Some(ArgsView { listen: Some(v), ..a })
        }
    } else if o == "--protocol-network"@ {
        Some(ArgsView { network: v, ..a })
    } else if o == "--signer"@ {
        if v == "key"@ {
            Some(ArgsView { signer: Signer::Key, ..a })
        } else if v == "ssh-agent"@ {
            Some(ArgsView { signer: Signer::SshAgent, ..a })
        } else {
            None
        }
    } else if o == "--key-format"@ {
        if v == "binary"@ {
            Some(ArgsView { key_format: KeyFormat::Binary, ..a })
        } else if v == "base64"@ {
            Some(ArgsView { key_format: KeyFormat::Base64, ..a })
        } else {
            None
        }
    } else if o == "--key-source"@ {
        if v == "ephemeral"@ {
            Some(ArgsView { key_source: KeySource::Ephemeral, ..a })
        } else if v == "file"@ {
            Some(ArgsView { key_source: KeySource::File, ..a })
        } else if v == "stdin"@ {
            Some(ArgsView { key_source: KeySource::Stdin, ..a })
        } else {
            None
        }
    } else if o == "--key-file-path"@ {
        Some(ArgsView { key_file_path: Some(v), ..a })
    } else if o == "--track"@ {
        if v == "everything"@ {
            Some(ArgsView { track_mode: Some(TrackingMode::Everything), ..a })
        } else if v == "selected"@ {
            Some(ArgsView { track_mode: Some(TrackingMode::Selected), ..a })
        } else {
            None
        }
    } else if o == "--track-peer-id"@ {
        if is_component(v) {
            Some(ArgsView { track_peers: a.track_peers.push(v), ..a })
        } else {
            None
        }
    } else if o == "--track-urn"@ {
        if is_component(v) {
            Some(ArgsView { track_urns: a.track_urns.push(v), ..a })
        } else {
            None
        }
    } else {
        Some(ArgsView { profile_id: Some(v), ..a })
    }
}

/// Reads the options of `ts` into `a`, from the first on.
pub open spec fn parse_from(a: ArgsView, ts: Seq<Seq<char>>) -> Result<ArgsView, ArgsErrorView>
    decreases ts.len(),
{
    if ts.len() == 0 {
        Ok(a)
    } else {
        let o = ts[0];
        if is_flag(o) {
            parse_from(ArgsView { tmp_root: true, ..a }, ts.subrange(1, ts.len() as int))
        } else if takes_value(o) {
            if ts.len() < 2 {
                Err(ArgsErrorView::MissingValue(o))
            } else {
                match with_value(a, o, ts[1]) {
                    Some(b) => parse_from(b, ts.subrange(2, ts.len() as int)),
                    None => Err(ArgsErrorView::InvalidValue { option: o, value: ts[1] }),
                }
            }
        } else {
            Err(ArgsErrorView::UnknownOption(o))
        }
    }
}

/// The arguments a command line gives: the program name first, then the
/// options.
pub open spec fn args_of(ts: Seq<Seq<char>>) -> Result<ArgsView, ArgsErrorView> {
    if ts.len() == 0 {
        Ok(default_view())
    } else {
        parse_from(default_view(), ts.subrange(1, ts.len() as int))
    }
}

pub open spec fn str_views(v: Seq<&str>) -> Seq<Seq<char>> {
    v.map_values(|s: &str| s@)
}

fn str_is(s: &str, lit: &str) -> (r: bool)
    ensures
        r == (s@ == lit@),
{
    s.to_owned() == lit.to_owned()
}

fn is_flag_exec(o: &str) -> (r: bool)
    ensures
        r == is_flag(o@),
{
    str_is(o, "--tmp-root")
}

fn takes_value_exec(o: &str) -> (r: bool)
    ensures
        r == takes_value(o@),
{
    str_is(o, "--lnk-home") || str_is(o, "--bootstrap") || str_is(o, "--metrics-provider")
        || str_is(o, "--graphite-addr") || str_is(o, "--protocol-listen") || str_is(
        o,
        "--protocol-network",
    ) || str_is(o, "--signer") || str_is(o, "--key-format") || str_is(o, "--key-source")
        || str_is(o, "--key-file-path") || str_is(o, "--track") || str_is(o, "--track-peer-id")
        || str_is(o, "--track-urn") || str_is(o, "--profile-id")
}

fn parse_bootstrap(v: &str) -> (r: Option<Bootstrap>)
    ensures
        match bootstrap_of(v@) {
            Some(b) => r is Some && (r->Some_0.peer_id@, r->Some_0.addr@) == b,
            None => r is None,
        },
{
    let parts = split_at_char(v, '@');
    if parts.len() != 2 {
        return None;
    }
    match PeerId::parse(parts[0].as_str()) {
        None => None,
        Some(p) => Some(Bootstrap { addr: parts[1].clone(), peer_id: p }),
    }
}

/// Sets the option `o` to `v`; `false` where `v` is not a value `o` takes,
/// and then `a` is left as it was.
fn set_value(a: &mut Args, o: &str, v: &str) -> (ok: bool)
    requires
        takes_value(o@),
    ensures
        match with_value(old(a)@, o@, v@) {
            Some(b) => ok && final(a)@ == b,
            None => !ok && final(a)@ == old(a)@,
        },
{
    if str_is(o, "--lnk-home") {
        a.lnk_home = LnkHome::Root(v.to_owned());
    } else if str_is(o, "--bootstrap") {
        match parse_bootstrap(v) {
            Some(b) => {
                let ghost before = bootstrap_views(a.bootstraps@);
                let ghost bv = (b.peer_id@, b.addr@);
                a.bootstraps.push(b);
                assert(bootstrap_views(a.bootstraps@) =~= before.push(bv));
            },
            None => {
                return false;
            },
        }
    } else if str_is(o, "--metrics-provider") {
        if str_is(v, "graphite") {
            a.metrics.provider = Some(MetricsProvider::Graphite);
        } else {
            return false;
        }
    } else if str_is(o, "--graphite-addr") {
        a.metrics.graphite_addr = v.to_owned();
    } else if str_is(o, "--protocol-listen") {
        if str_is(v, "localhost") {
            a.protocol.listen = ProtocolListen::Localhost;
        } else {
            a.protocol.listen = ProtocolListen::Provided { addr: v.to_owned() };
        }
    } else if str_is(o, "--protocol-network") {
        a.protocol.network = v.to_owned();
    } else if str_is(o, "--signer") {
        if str_is(v, "key") {
            a.signer = Signer::Key;
        } else if str_is(v, "ssh-agent") {
            a.signer = Signer::SshAgent;
        } else {
            return false;
        }
    } else if str_is(o, "--key-format") {
        if str_is(v, "binary") {
            a.key.format = KeyFormat::Binary;
        } else if str_is(v, "base64") {
            a.key.format = KeyFormat::Base64;
        } else {
            return false;
        }
    } else if str_is(o, "--key-source") {
        if str_is(v, "ephemeral") {
            a.key.source = KeySource::Ephemeral;
        } else if str_is(v, "file") {
            a.key.source = KeySource::File;
        } else if str_is(v, "stdin") {
            a.key.source = KeySource::Stdin;
        } else {
            return false;
        }
    } else if str_is(o, "--key-file-path") {
        a.key.file_path = Some(v.to_owned());
    } else if str_is(o, "--track") {
        if str_is(v, "everything") {
            a.tracking.mode = Some(TrackingMode::Everything);
        } else if str_is(v, "selected") {
            a.tracking.mode = Some(TrackingMode::Selected);
        } else {
            return false;
        }
    } else if str_is(o, "--track-peer-id") {
        match PeerId::parse(v) {
            Some(p) => {
                let ghost before = crate::sigrefs::peer_views(a.tracking.peer_ids@);
                a.tracking.peer_ids.push(p);
                assert(crate::sigrefs::peer_views(a.tracking.peer_ids@) =~= before.push(v@));
            },
            None => {
                return false;
            },
        }
    } else if str_is(o, "--track-urn") {
        match Urn::try_from_id(v) {
            Some(u) => {
                let ghost before = urn_views(a.tracking.urns@);
                a.tracking.urns.push(u);
                assert(urn_views(a.tracking.urns@) =~= before.push(v@));
            },
            None => {
                return false;
            },
        }
    } else {
        a.profile_id = Some(v.to_owned());
    }
    true
}

impl Args {
    /// Reads a command line: the program name, then options. Each option
    /// is `--tmp-root` or takes the next argument as its value; a later
    /// option overrides an earlier one, and `--bootstrap`, `--track-peer-id`
    /// and `--track-urn` add up.
    pub fn from_iter_safe(args: Vec<&str>) -> (r: Result<Args, ArgsError>)
        ensures
            match args_of(str_views(args@)) {
                Ok(v) => r is Ok && r->Ok_0@ == v,
                Err(e) => r is Err && r->Err_0@ == e,
            },
    {
        let ghost ts = str_views(args@);
        let mut a = Args::default();
        if args.len() == 0 {
            return Ok(a);
        }
        let mut i: usize = 1;
        assert(ts.subrange(1, ts.len() as int) =~= ts.subrange(i as int, ts.len() as int));
        while i < args.len()
            invariant
                1 <= i <= args@.len(),
                ts == str_views(args@),
                args_of(ts) == parse_from(a@, ts.subrange(i as int, ts.len() as int)),
            decreases args@.len() - i,
        {
            let ghost rest = ts.subrange(i as int, ts.len() as int);
            let o = args[i];
            assert(rest[0] == o@);
            if is_flag_exec(o) {
                a.tmp_root = true;
                assert(rest.subrange(1, rest.len() as int) =~= ts.subrange(
                    i as int + 1,
                    ts.len() as int,
                ));
                i += 1;
            } else if takes_value_exec(o) {
                if i + 1 >= args.len() {
                    return Err(ArgsError::MissingValue(o.to_owned()));
                }
                let v = args[i + 1];
                assert(rest[1] == v@);
                if !set_value(&mut a, o, v) {
                    return Err(ArgsError::InvalidValue { option: o.to_owned(), value: v.to_owned() });
                }
                assert(rest.subrange(2, rest.len() as int) =~= ts.subrange(
                    i as int + 2,
                    ts.len() as int,
                ));
                i += 2;
            } else {
                return Err(ArgsError::UnknownOption(o.to_owned()));
            }
        }
        assert(ts.subrange(i as int, ts.len() as int) =~= Seq::<Seq<char>>::empty());
        Ok(a)
    }
}

} // verus!
