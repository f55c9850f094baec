//! The bus-address grammar: `<transport>:<k>=<v>(,<k>=<v>)*` with unique
//! keys, the `unix` and `tcp` transports, and the session/system defaults.

use vstd::prelude::*;
use vstd::string::StrSliceExecFns;
use vstd::string::StringExecFns;

use crate::error::Error;
use crate::text::{find_char, lemma_find_range, parse_u16, spec_find, spec_parse_u16, spec_u32_dec,
    str_eq, u32_dec_string};

verus! {

/// A `tcp:` address family.
#[derive(Copy, Clone, Debug, PartialEq, Eq, Structural)]
pub enum TcpAddressFamily {
    Ipv4,
    Ipv6,
}

/// A `tcp:` D-Bus address.
#[derive(Clone, Debug, PartialEq)]
pub struct TcpAddress {
    pub host: String,
    pub bind: Option<String>,
    pub port: u16,
    pub family: Option<TcpAddressFamily>,
}

/// The mathematical shape of a `tcp:` address.
pub struct TcpAddressView {
    pub host: Seq<char>,
    pub bind: Option<Seq<char>>,
    pub port: u16,
    pub family: Option<TcpAddressFamily>,
}

impl View for TcpAddress {
    type V = TcpAddressView;

    open spec fn view(&self) -> TcpAddressView {
        TcpAddressView {
            host: self.host@,
            bind: match self.bind {
                Some(ref b) => Some(b@),
                None => None,
            },
            port: self.port,
            family: self.family,
        }
    }
}

/// A bus address: a path on the filesystem (with a leading NUL character for
/// a socket in the abstract namespace), or TCP details.
#[derive(Clone, Debug, PartialEq)]
pub enum Address {
    Unix(String),
    Tcp(TcpAddress),
}

/// The mathematical shape of a bus address.
pub enum AddressView {
    Unix(Seq<char>),
    Tcp(TcpAddressView),
}

impl View for Address {
    type V = AddressView;

    open spec fn view(&self) -> AddressView {
        match self {
            Address::Unix(s) => AddressView::Unix(s@),
            Address::Tcp(t) => AddressView::Tcp(t@),
        }
    }
}

/// The key/value options of one address, keys unique.
pub struct Options {
    pairs: Vec<(String, String)>,
}

/// The map an association list denotes; a later pair would win, though the
/// parser never admits two pairs with one key.
pub open spec fn assoc_map(pairs: Seq<(String, String)>) -> Map<Seq<char>, Seq<char>>
    decreases pairs.len(),
{
    if pairs.len() == 0 {
        Map::empty()
    } else {
        assoc_map(pairs.drop_last()).insert(pairs.last().0@, pairs.last().1@)
    }
}

/// Each listed pair is in the map; with unique keys, at its own value.
proof fn lemma_assoc_get(pairs: Seq<(String, String)>, i: int)
    requires
        0 <= i < pairs.len(),
        forall|p: int, q: int|
            0 <= p < q < pairs.len() ==> pairs[p].0@ != pairs[q].0@,
    ensures
        assoc_map(pairs).contains_key(pairs[i].0@),
        assoc_map(pairs)[pairs[i].0@] == pairs[i].1@,
    decreases pairs.len(),
{
    if i < pairs.len() - 1 {
        lemma_assoc_get(pairs.drop_last(), i);
    }
}

/// A key no pair carries is absent from the map.
proof fn lemma_assoc_absent(pairs: Seq<(String, String)>, k: Seq<char>)
    requires
        forall|i: int| 0 <= i < pairs.len() ==> pairs[i].0@ != k,
    ensures
        !assoc_map(pairs).contains_key(k),
    decreases pairs.len(),
{
    if pairs.len() > 0 {
        lemma_assoc_absent(pairs.drop_last(), k);
    }
}

impl View for Options {
    type V = Map<Seq<char>, Seq<char>>;

    closed spec fn view(&self) -> Map<Seq<char>, Seq<char>> {
        assoc_map(self.pairs@)
    }
}

impl Options {
    /// Keys pairwise distinct.
    pub closed spec fn wf(&self) -> bool {
        forall|p: int, q: int|
            0 <= p < q < self.pairs@.len() ==> self.pairs@[p].0@ != self.pairs@[q].0@
    }

    /// An empty option set.
    pub fn new() -> (r: Options)
        ensures
            r.wf(),
            r@ == Map::<Seq<char>, Seq<char>>::empty(),
    {
        Options { pairs: Vec::new() }
    }

    /// The value stored under `key`, if any.
    pub fn get<'a>(&'a self, key: &str) -> (r: Option<&'a String>)
        requires
            self.wf(),
        ensures
            match r {
                Some(v) => self@.contains_key(key@) && v@ == self@[key@],
                None => !self@.contains_key(key@),
            },
    {
        let n = self.pairs.len();
        let mut i: usize = 0;
        loop
            invariant
                0 <= i <= n,
                n == self.pairs@.len(),
                self.wf(),
                forall|k: int| 0 <= k < i ==> self.pairs@[k].0@ != key@,
            decreases n - i,
        {
            if i >= n {
                proof {
                    lemma_assoc_absent(self.pairs@, key@);
                }
                return None;
            }
            if str_eq(self.pairs[i].0.as_str(), key) {
                proof {
                    lemma_assoc_get(self.pairs@, i as int);
                }
                return Some(&self.pairs[i].1);
            }
            i = i + 1;
        }
    }

    /// Whether `key` is present.
    pub fn contains_key(&self, key: &str) -> (r: bool)
        requires
            self.wf(),
        ensures
            r == self@.contains_key(key@),
    {
        match self.get(key) {
            Some(_) => true,
            None => false,
        }
    }

    /// Stores a fresh key.
    pub fn insert(&mut self, key: String, value: String)
        requires
            old(self).wf(),
            !old(self)@.contains_key(key@),
        ensures
            final(self).wf(),
            final(self)@ == old(self)@.insert(key@, value@),
    {
        proof {
            assert forall|i: int| 0 <= i < self.pairs@.len() implies self.pairs@[i].0@ != key@ by {
                lemma_assoc_get(self.pairs@, i);
            }
        }
        let ghost old_pairs = self.pairs@;
        self.pairs.push((key, value));
        proof {
            assert(self.pairs@.drop_last() =~= old_pairs);
        }
    }
}

/// One `k=v` token folded into the accumulated options: the token must hold
/// an `=`, and its key must be fresh.
pub open spec fn spec_token(tok: Seq<char>, acc: Map<Seq<char>, Seq<char>>) -> Result<
    Map<Seq<char>, Seq<char>>,
    Seq<char>,
> {
    match spec_find(tok, '=', 0) {
        None => Err("missing = when parsing key/value"@),
        Some(e) => {
            let k = tok.subrange(0, e);
            let v = tok.skip(e + 1);
            if acc.contains_key(k) {
                Err("Key `"@ + k + "` specified multiple times"@)
            } else {
                Ok(acc.insert(k, v))
            }
        },
    }
}

/// The option tokens folded left to right; the first offending token decides
/// the error.
pub open spec fn spec_opts(toks: Seq<Seq<char>>, acc: Map<Seq<char>, Seq<char>>) -> Result<
    Map<Seq<char>, Seq<char>>,
    Seq<char>,
>
    decreases toks.len(),
{
    if toks.len() == 0 {
        Ok(acc)
    } else {
        match spec_token(toks[0], acc) {
            Err(m) => Err(m),
            Ok(acc2) => spec_opts(toks.skip(1), acc2),
        }
    }
}

/// `s` split on every comma; a string without commas is one token, so the
/// empty string is one empty token.
pub open spec fn spec_split(s: Seq<char>) -> Seq<Seq<char>>
    decreases s.len(),
    via spec_split_decreases
{
    match spec_find(s, ',', 0) {
        None => seq![s],
        Some(i) => seq![s.subrange(0, i)] + spec_split(s.skip(i + 1)),
    }
}

#[via_fn]
proof fn spec_split_decreases(s: Seq<char>) {
    lemma_find_range(s, ',', 0);
}

/// What the `unix` transport makes of the options: exactly one of `path` and
/// `abstract`, an abstract name carried behind a leading NUL character.
pub open spec fn spec_from_unix(m: Map<Seq<char>, Seq<char>>) -> Result<AddressView, Seq<char>> {
    if m.contains_key("abstract"@) {
        if m.contains_key("path"@) {
            Err("`path` and `abstract` cannot be specified together"@)
        } else {
            Ok(AddressView::Unix("\u{0}"@ + m["abstract"@]))
        }
    } else if m.contains_key("path"@) {
        Ok(AddressView::Unix(m["path"@]))
    } else {
        Err("unix address is missing path or abstract"@)
    }
}

/// The family names the `tcp` transport accepts.
pub open spec fn spec_family(s: Seq<char>) -> Option<TcpAddressFamily> {
    if s == "ipv4"@ {
        Some(TcpAddressFamily::Ipv4)
    } else if s == "ipv6"@ {
        Some(TcpAddressFamily::Ipv6)
    } else {
        None
    }
}

/// What the `tcp` transport makes of the options: `bind` refused, `host` and
/// a decimal `port` required, `family` optional.
pub open spec fn spec_from_tcp(m: Map<Seq<char>, Seq<char>>) -> Result<AddressView, Seq<char>> {
    if m.contains_key("bind"@) {
        Err("`bind` isn't yet supported"@)
    } else if !m.contains_key("host"@) {
        Err("tcp address is missing `host`"@)
    } else if !m.contains_key("port"@) {
        Err("tcp address is missing `port`"@)
    } else {
        match spec_parse_u16(m["port"@]) {
            None => Err("invalid tcp `port`"@),
            Some(p) => {
                if m.contains_key("family"@) {
                    match spec_family(m["family"@]) {
                        Some(f) => Ok(
                            AddressView::Tcp(
                                TcpAddressView {
                                    host: m["host"@],
                                    bind: None,
                                    port: p,
                                    family: Some(f),
                                },
                            ),
                        ),
                        None => Err("invalid tcp address `family`: "@ + m["family"@]),
                    }
                } else {
                    Ok(
                        AddressView::Tcp(
                            TcpAddressView { host: m["host"@], bind: None, port: p, family: None },
                        ),
                    )
                }
            },
        }
    }
}

/// What parsing an address string yields: the text before the first colon
/// names the transport, the rest is comma-separated unique `k=v` options.
pub open spec fn spec_parse_address(s: Seq<char>) -> Result<AddressView, Seq<char>> {
    match spec_find(s, ':', 0) {
        None => Err("address has no colon"@),
        Some(col) => {
            let transport = s.subrange(0, col);
            match spec_opts(spec_split(s.skip(col + 1)), Map::empty()) {
                Err(m) => Err(m),
                Ok(m) => {
                    if transport == "unix"@ {
                        spec_from_unix(m)
                    } else if transport == "tcp"@ {
                        spec_from_tcp(m)
                    } else {
                        Err("unsupported transport '"@ + transport + "'"@)
                    }
                },
            }
        },
    }
}

/// How an executable parse relates to the grammar: the parsed value on
/// success, an `Address` error carrying exactly the owed message on failure.
pub open spec fn parse_result_matches(r: Result<Address, Error>, sr: Result<
    AddressView,
    Seq<char>,
>) -> bool {
    match sr {
        Ok(a) => r matches Ok(x) && x@ == a,
        Err(m) => r matches Err(e) && (e matches Error::Address(msg) && msg@ == m),
    }
}

impl TcpAddress {
    /// Returns the `tcp:` address `host` value.
    pub fn host(&self) -> (r: &str)
        ensures
            r@ == self@.host,
    {
        self.host.as_str()
    }

    /// Returns the `tcp:` address `bind` value.
    pub fn bind(&self) -> (r: Option<&str>)
        ensures
            match self@.bind {
                Some(b) => r matches Some(x) && x@ == b,
                None => r is None,
            },
    {
        match &self.bind {
            Some(b) => Some(b.as_str()),
            None => None,
        }
    }

    /// Returns the `tcp:` address `port` value.
    pub fn port(&self) -> (r: u16)
        ensures
            r == self@.port,
    {
        self.port
    }

    /// Returns the `tcp:` address `family` value.
    pub fn family(&self) -> (r: Option<TcpAddressFamily>)
        ensures
            r == self@.family,
    {
        self.family
    }
}

impl TcpAddressFamily {
    /// Reads a family name, `ipv4` or `ipv6`.
    pub fn from_str(family: &str) -> (r: Result<TcpAddressFamily, Error>)
        ensures
            match spec_family(family@) {
                Some(f) => r matches Ok(f2) && f2 == f,
                None => r matches Err(e) && (e matches Error::Address(msg) && msg@
                    == "invalid tcp address `family`: "@ + family@),
            },
    {
        if str_eq(family, "ipv4") {
            Ok(TcpAddressFamily::Ipv4)
        } else if str_eq(family, "ipv6") {
            Ok(TcpAddressFamily::Ipv6)
        } else {
            let mut msg = String::from_str("invalid tcp address `family`: ");
            msg.append(family);
            Err(Error::Address(msg))
        }
    }
}

/// Folds one `k=v` token into `opts`.
fn add_option(opts: &mut Options, tok: &str) -> (r: Result<(), Error>)
    requires
        old(opts).wf(),
    ensures
        final(opts).wf(),
        match spec_token(tok@, old(opts)@) {
            Ok(m2) => r matches Ok(u) && final(opts)@ == m2,
            Err(m) => (r matches Err(e) && (e matches Error::Address(msg) && msg@ == m))
                && final(opts)@ == old(opts)@,
        },
{
    let n = tok.unicode_len();
    match find_char(tok, '=') {
        None => Err(Error::Address(String::from_str("missing = when parsing key/value"))),
        Some(e) => {
            proof {
                lemma_find_range(tok@, '=', 0);
            }
            let key = tok.substring_char(0, e);
            let value = tok.substring_char(e + 1, n);
            proof {
                assert(value@ =~= tok@.skip(e as int + 1));
            }
            if opts.contains_key(key) {
                let mut msg = String::from_str("Key `");
                msg.append(key);
                msg.append("` specified multiple times");
                Err(Error::Address(msg))
            } else {
                opts.insert(String::from_str(key), String::from_str(value));
                Ok(())
            }
        },
    }
}

impl Address {
    /// Parses a D-Bus address.
    #[verifier::loop_isolation(false)]
    pub fn from_str(address: &str) -> (r: Result<Address, Error>)
        ensures
            parse_result_matches(r, spec_parse_address(address@)),
    {
        let n = address.unicode_len();
        let col = match find_char(address, ':') {
            None => {
                return Err(Error::Address(String::from_str("address has no colon")));
            },
            Some(c) => c,
        };
        proof {
            lemma_find_range(address@, ':', 0);
        }
        let transport = address.substring_char(0, col);
        let mut rest = address.substring_char(col + 1, n);
        let ghost rest0: Seq<char> = address@.skip(col as int + 1);
        proof {
            assert(rest@ =~= rest0);
        }
        let mut opts = Options::new();
        loop
            invariant
                opts.wf(),
                spec_opts(spec_split(rest0), Map::<Seq<char>, Seq<char>>::empty()) == spec_opts(
                    spec_split(rest@),
                    opts@,
                ),
            decreases rest@.len(),
        {
            let rlen = rest.unicode_len();
            match find_char(rest, ',') {
                Some(i) => {
                    proof {
                        lemma_find_range(rest@, ',', 0);
                    }
                    let tok = rest.substring_char(0, i);
                    let ghost pre = rest@;
                    let ghost pre_opts = opts@;
                    let ghost toks = spec_split(pre);
                    proof {
                        assert(toks == seq![pre.subrange(0, i as int)] + spec_split(
                            pre.skip(i as int + 1),
                        ));
                        assert(toks[0] == pre.subrange(0, i as int));
                        assert(toks.skip(1) =~= spec_split(pre.skip(i as int + 1)));
                        assert(toks.len() > 0);
                    }
                    match add_option(&mut opts, tok) {
                        Err(e) => {
                            proof {
                                assert(spec_opts(toks, pre_opts) == spec_token(tok@, pre_opts));
                                assert(spec_find(address@, ':', 0) == Some(col as int));
                                assert(spec_parse_address(address@) == Err::<AddressView, Seq<
                                    char,
                                >>(spec_token(tok@, pre_opts)->Err_0));
                            }
                            return Err(e);
                        },
                        Ok(_) => {},
                    }
                    let next = rest.substring_char(i + 1, rlen);
                    proof {
                        assert(next@ =~= pre.skip(i as int + 1));
                        assert(spec_opts(toks, pre_opts) == spec_opts(toks.skip(1), opts@));
                    }
                    rest = next;
                },
                None => {
                    let ghost pre = rest@;
                    let ghost pre_opts = opts@;
                    let ghost toks = spec_split(pre);
                    proof {
                        assert(toks == seq![pre]);
                        assert(toks[0] == pre);
                        assert(toks.skip(1) =~= Seq::<Seq<char>>::empty());
                    }
                    match add_option(&mut opts, rest) {
                        Err(e) => {
                            proof {
                                assert(spec_opts(toks, pre_opts) == spec_token(pre, pre_opts));
                                assert(spec_find(address@, ':', 0) == Some(col as int));
                                assert(spec_parse_address(address@) == Err::<AddressView, Seq<
                                    char,
                                >>(spec_token(pre, pre_opts)->Err_0));
                            }
                            return Err(e);
                        },
                        Ok(_) => {},
                    }
                    proof {
                        let m2 = opts@;
                        assert(spec_token(pre, pre_opts) == Ok::<Map<Seq<char>, Seq<char>>, Seq<
                            char,
                        >>(m2));
                        assert(spec_opts(toks.skip(1), m2) == Ok::<Map<Seq<char>, Seq<char>>, Seq<
                            char,
                        >>(m2));
                        assert(spec_opts(toks, pre_opts) == Ok::<Map<Seq<char>, Seq<char>>, Seq<
                            char,
                        >>(opts@));
                        assert(spec_opts(spec_split(rest0), Map::<Seq<char>, Seq<char>>::empty())
                            == Ok::<Map<Seq<char>, Seq<char>>, Seq<char>>(opts@));
                        assert(spec_find(address@, ':', 0) == Some(col as int));
                    }
                    if str_eq(transport, "unix") {
                        return Self::from_unix(&opts);
                    } else if str_eq(transport, "tcp") {
                        return Self::from_tcp(&opts);
                    } else {
                        let mut msg = String::from_str("unsupported transport '");
                        msg.append(transport);
                        msg.append("'");
                        return Err(Error::Address(msg));
                    }
                },
            }
        }
    }

    /// Builds the `unix` transport's address from its options.
    fn from_unix(opts: &Options) -> (r: Result<Address, Error>)
        requires
            opts.wf(),
        ensures
            parse_result_matches(r, spec_from_unix(opts@)),
    {
        match opts.get("abstract") {
            Some(abs) => {
                if opts.contains_key("path") {
                    Err(
                        Error::Address(
                            String::from_str("`path` and `abstract` cannot be specified together"),
                        ),
                    )
                } else {
                    let mut s = String::from_str("\u{0}");
                    s.append(abs.as_str());
                    Ok(Address::Unix(s))
                }
            },
            None => {
                match opts.get("path") {
                    Some(path) => Ok(Address::Unix(path.clone())),
                    None => Err(
                        Error::Address(String::from_str("unix address is missing path or abstract")),
                    ),
                }
            },
        }
    }

    /// Builds the `tcp` transport's address from its options.
    fn from_tcp(opts: &Options) -> (r: Result<Address, Error>)
        requires
            opts.wf(),
        ensures
            parse_result_matches(r, spec_from_tcp(opts@)),
    {
        if opts.contains_key("bind") {
            return Err(Error::Address(String::from_str("`bind` isn't yet supported")));
        }
        let host = match opts.get("host") {
            None => {
                return Err(Error::Address(String::from_str("tcp address is missing `host`")));
            },
            Some(h) => h.clone(),
        };
        let port_str = match opts.get("port") {
            None => {
                return Err(Error::Address(String::from_str("tcp address is missing `port`")));
            },
            Some(p) => p,
        };
        let port = match parse_u16(port_str.as_str()) {
            None => {
                return Err(Error::Address(String::from_str("invalid tcp `port`")));
            },
            Some(p) => p,
        };
        let family = match opts.get("family") {
            Some(f) => {
                match TcpAddressFamily::from_str(f.as_str()) {
                    Ok(f2) => Some(f2),
                    Err(e) => {
                        return Err(e);
                    },
                }
            },
            None => None,
        };
        Ok(Address::Tcp(TcpAddress { host, bind: None, port, family }))
    }

    /// The address string the session bus is found at, given the
    /// `DBUS_SESSION_BUS_ADDRESS` and `XDG_RUNTIME_DIR` environment values
    /// and the process's real user id.
    pub open spec fn spec_session_input(
        env_addr: Option<Seq<char>>,
        runtime_dir: Option<Seq<char>>,
        uid: u32,
    ) -> Seq<char> {
        match env_addr {
            Some(v) => v,
            None => {
                let dir = match runtime_dir {
                    Some(d) => d,
                    None => "/run/user/"@ + spec_u32_dec(uid as int),
                };
                "unix:path="@ + dir + "/bus"@
            },
        }
    }

    /// The session-bus address: `DBUS_SESSION_BUS_ADDRESS` if set, else a
    /// `unix:path` under the runtime directory, which itself falls back to
    /// `/run/user/<uid>`.
    pub fn session_from(env_addr: Option<&str>, runtime_dir: Option<&str>, uid: u32) -> (r: Result<
        Address,
        Error,
    >)
        ensures
            parse_result_matches(
                r,
                spec_parse_address(
                    Self::spec_session_input(
                        match env_addr {
                            Some(v) => Some(v@),
                            None => None,
                        },
                        match runtime_dir {
                            Some(d) => Some(d@),
                            None => None,
                        },
                        uid,
                    ),
                ),
            ),
    {
        match env_addr {
            Some(v) => Self::from_str(v),
            None => {
                let mut path = String::from_str("unix:path=");
                match runtime_dir {
                    Some(d) => {
                        path.append(d);
                    },
                    None => {
                        path.append("/run/user/");
                        let uid_str = u32_dec_string(uid);
                        path.append(uid_str.as_str());
                    },
                }
                path.append("/bus");
                proof {
                    assert(path@ =~= Self::spec_session_input(
                        None,
                        match runtime_dir {
                            Some(d) => Some(d@),
                            None => None,
                        },
                        uid,
                    ));
                }
                Self::from_str(path.as_str())
            },
        }
    }

    /// The address string the system bus is found at, given the
    /// `DBUS_SYSTEM_BUS_ADDRESS` environment value.
    pub open spec fn spec_system_input(env_addr: Option<Seq<char>>) -> Seq<char> {
        match env_addr {
            Some(v) => v,
            None => "unix:path=/var/run/dbus/system_bus_socket"@,
        }
    }

    /// The system-bus address: `DBUS_SYSTEM_BUS_ADDRESS` if set, else the
    /// conventional system socket path.
    pub fn system_from(env_addr: Option<&str>) -> (r: Result<Address, Error>)
        ensures
            parse_result_matches(
                r,
                spec_parse_address(
                    Self::spec_system_input(
                        match env_addr {
                            Some(v) => Some(v@),
                            None => None,
                        },
                    ),
                ),
            ),
    {
        match env_addr {
            Some(v) => Self::from_str(v),
            None => Self::from_str("unix:path=/var/run/dbus/system_bus_socket"),
        }
    }
}

} // verus!
