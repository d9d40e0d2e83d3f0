//! The transport that the server listens on, and the `--listen` URL that
//! names it: `stdio://`, or `http://IP:PORT[/PATH]`.
use vstd::prelude::*;

use crate::socket_addr::SocketAddr;
#[allow(unused_imports)]
use crate::socket_addr::{address_text_is_plain, in_address_chars, is_address_char, socket_addr};
use crate::text::{chars_of, find, same_text, strip_prefix};
#[allow(unused_imports)]
use crate::text::{first_index, lemma_first_index, lemma_split_once};

verus! {

/// Where the server listens.
#[derive(Clone, Debug, PartialEq, Eq)]
pub enum McpListenTransport {
    /// Standard input and output.
    Stdio,
    /// Streamable HTTP on a socket address, the MCP endpoint at a path.
    Http { bind_address: SocketAddr, path: String },
}

/// Why a `--listen` URL was refused.
#[derive(Clone, Debug, PartialEq, Eq)]
pub enum McpListenTransportParseError {
    /// Neither of the two schemes.
    UnsupportedListenUrl(String),
    /// More than the bare scheme after `stdio://`.
    InvalidStdioListenUrl(String),
    /// What follows `http://` is no IP literal with a port and a plain path.
    InvalidHttpListenUrl { listen_url: String, reason: &'static str },
}

/// A transport as a mathematical value.
pub enum TransportModel {
    Stdio,
    Http { bind_address: SocketAddr, path: Seq<char> },
}

/// A refusal as a mathematical value.
pub enum TransportErrorModel {
    Unsupported { listen_url: Seq<char> },
    InvalidStdio { listen_url: Seq<char> },
    InvalidHttp { listen_url: Seq<char>, reason: Seq<char> },
}

impl View for McpListenTransport {
    type V = TransportModel;

    open spec fn view(&self) -> TransportModel {
        match self {
            McpListenTransport::Stdio => TransportModel::Stdio,
            McpListenTransport::Http { bind_address, path } => TransportModel::Http {
                bind_address: *bind_address,
                path: path@,
            },
        }
    }
}

impl View for McpListenTransportParseError {
    type V = TransportErrorModel;

    open spec fn view(&self) -> TransportErrorModel {
        match self {
            McpListenTransportParseError::UnsupportedListenUrl(listen_url) => {
                TransportErrorModel::Unsupported { listen_url: listen_url@ }
            },
            McpListenTransportParseError::InvalidStdioListenUrl(listen_url) => {
                TransportErrorModel::InvalidStdio { listen_url: listen_url@ }
            },
            McpListenTransportParseError::InvalidHttpListenUrl { listen_url, reason } => {
                TransportErrorModel::InvalidHttp { listen_url: listen_url@, reason: reason@ }
            },
        }
    }
}

/// A result with both sides taken by their views.
pub open spec fn result_view(
    r: Result<McpListenTransport, McpListenTransportParseError>,
) -> Result<TransportModel, TransportErrorModel> {
    match r {
        Ok(transport) => Ok(transport@),
        Err(error) => Err(error@),
    }
}

/// The reason for refusing `?` and `#`.
pub open spec fn query_reason() -> Seq<char> {
    "query strings and fragments are not supported"@
}

/// The reason for refusing what stands before the path.
pub open spec fn host_reason() -> Seq<char> {
    "host must be an IP literal with an explicit port"@
}

/// The host and port of what follows `http://`: all that stands before the
/// first slash.
pub open spec fn authority(http_url: Seq<char>) -> Seq<char> {
    http_url.take(first_index(http_url, '/'))
}

/// The path of what follows `http://`: all from the first slash on, and `/mcp`
/// where there is none.
pub open spec fn endpoint_path(http_url: Seq<char>) -> Seq<char> {
    if http_url.contains('/') {
        http_url.skip(first_index(http_url, '/'))
    } else {
        "/mcp"@
    }
}

/// What an HTTP listen URL stands for, given the URL and what follows
/// `http://` in it.
pub open spec fn http_transport(listen_url: Seq<char>, http_url: Seq<char>) -> Result<
    TransportModel,
    TransportErrorModel,
> {
    if http_url.contains('?') || http_url.contains('#') {
        Err(TransportErrorModel::InvalidHttp { listen_url, reason: query_reason() })
    } else if socket_addr(authority(http_url)) is None {
        Err(TransportErrorModel::InvalidHttp { listen_url, reason: host_reason() })
    } else {
        Ok(
            TransportModel::Http {
                bind_address: socket_addr(authority(http_url))->0,
                path: endpoint_path(http_url),
            },
        )
    }
}

/// What a listen URL stands for.
pub open spec fn transport(listen_url: Seq<char>) -> Result<TransportModel, TransportErrorModel> {
    if listen_url == "stdio://"@ {
        Ok(TransportModel::Stdio)
    } else if "stdio://"@.is_prefix_of(listen_url) {
        Err(TransportErrorModel::InvalidStdio { listen_url })
    } else if "http://"@.is_prefix_of(listen_url) {
        http_transport(listen_url, listen_url.skip("http://"@.len() as int))
    } else {
        Err(TransportErrorModel::Unsupported { listen_url })
    }
}

/// What a refusal says to the user.
pub open spec fn error_text(error: TransportErrorModel) -> Seq<char> {
    match error {
        TransportErrorModel::Unsupported { listen_url } => {
            "unsupported --listen URL `"@ + listen_url
                + "`; expected `stdio://` or `http://IP:PORT[/PATH]`"@
        },
        TransportErrorModel::InvalidStdio { listen_url } => {
            "invalid stdio --listen URL `"@ + listen_url + "`; expected exactly `stdio://`"@
        },
        TransportErrorModel::InvalidHttp { listen_url, reason } => {
            "invalid HTTP --listen URL `"@ + listen_url + "`: "@ + reason
                + "; expected `http://IP:PORT[/PATH]`"@
        },
    }
}

/// `stdio://` is the one URL of the standard streams.
pub proof fn only_the_default_url_is_stdio(listen_url: Seq<char>)
    ensures
        transport(listen_url) == Ok::<TransportModel, TransportErrorModel>(TransportModel::Stdio)
            <==> listen_url == McpListenTransport::DEFAULT_LISTEN_URL@,
{
}

/// `http://IP:PORT` listens on the address with the endpoint at `/mcp`.
pub proof fn http_url_without_path(address: Seq<char>)
    requires
        socket_addr(address) is Some,
    ensures
        transport("http://"@ + address) == Ok::<TransportModel, TransportErrorModel>(
            TransportModel::Http {
                bind_address: socket_addr(address)->0,
                path: McpListenTransport::DEFAULT_HTTP_PATH@,
            },
        ),
{
    lemma_scheme(address);
    address_text_is_plain(address);
    lemma_plain(address);
    lemma_first_index(address, '/');
    assert(authority(address) =~= address);
}

/// `http://IP:PORT/PATH` listens on the address with the endpoint at `/PATH`,
/// for every path without a query string or a fragment.
pub proof fn http_url_with_path(address: Seq<char>, path: Seq<char>)
    requires
        socket_addr(address) is Some,
        !path.contains('?'),
        !path.contains('#'),
    ensures
        transport("http://"@ + address + "/"@ + path) == Ok::<TransportModel, TransportErrorModel>(
            TransportModel::Http {
                bind_address: socket_addr(address)->0,
                path: "/"@ + path,
            },
        ),
{
    reveal_strlit("/");
    assert("/"@ =~= seq!['/']);
    let http_url = address + seq!['/'] + path;
    assert("http://"@ + address + "/"@ + path =~= "http://"@ + http_url);
    lemma_scheme(http_url);
    address_text_is_plain(address);
    lemma_plain(address);
    lemma_split_once(address, '/', path);
    lemma_first_index(http_url, '/');
    assert(authority(http_url) =~= address);
    assert(endpoint_path(http_url) =~= "/"@ + path);
    assert forall|i: int| 0 <= i < http_url.len() implies http_url[i] != '?' && http_url[i]
        != '#' by {
        if i < address.len() {
            assert(address.contains(address[i]));
        } else if i > address.len() {
            assert(path.contains(path[i - address.len() - 1]));
        }
    }
}

/// No other URL is accepted: one that gives an HTTP transport is `http://`,
/// the text of its address, and its path or, for `/mcp`, nothing. The path is
/// absolute and has neither a query string nor a fragment.
pub proof fn http_url_shape(listen_url: Seq<char>, bind_address: SocketAddr, path: Seq<char>)
    requires
        transport(listen_url) == Ok::<TransportModel, TransportErrorModel>(
            TransportModel::Http { bind_address, path },
        ),
    ensures
        path.len() > 0 && path[0] == '/',
        !path.contains('?') && !path.contains('#'),
        exists|address: Seq<char>|
            #![trigger socket_addr(address)]
            socket_addr(address) == Some(bind_address) && (listen_url == "http://"@ + address
                + path || (listen_url == "http://"@ + address
                && path == McpListenTransport::DEFAULT_HTTP_PATH@)),
{
    let http_url = listen_url.skip("http://"@.len() as int);
    let address = authority(http_url);
    lemma_first_index(http_url, '/');
    lemma_endpoint_path(http_url);
    assert(listen_url =~= "http://"@ + http_url);
    assert(socket_addr(address) == Some(bind_address));
    if http_url.contains('/') {
        assert(http_url =~= address + path);
        assert(listen_url =~= "http://"@ + address + path);
    } else {
        assert(http_url =~= address);
    }
}

/// What follows `http://` decides alone: the whole URL beside it shows in a
/// refusal and nowhere else. An accepted path is absolute and has neither a
/// query string nor a fragment.
pub proof fn whole_url_shows_in_refusals_alone(
    one: Seq<char>,
    other: Seq<char>,
    http_url: Seq<char>,
)
    ensures
        match http_transport(one, http_url) {
            Ok(accepted) => {
                &&& http_transport(other, http_url) == Ok::<TransportModel, TransportErrorModel>(
                    accepted,
                )
                &&& accepted is Http
                &&& accepted->path.len() > 0 && accepted->path[0] == '/'
                &&& !accepted->path.contains('?') && !accepted->path.contains('#')
            },
            Err(error) => {
                &&& error is InvalidHttp
                &&& error == (TransportErrorModel::InvalidHttp {
                    listen_url: one,
                    reason: error->reason,
                })
                &&& http_transport(other, http_url) == Err::<TransportModel, TransportErrorModel>(
                    TransportErrorModel::InvalidHttp { listen_url: other, reason: error->reason },
                )
            },
        },
{
    if http_transport(one, http_url) is Ok {
        lemma_endpoint_path(http_url);
    }
}

/// Every refusal carries the URL that was refused, and the text shown for it
/// quotes the URL.
pub proof fn refusals_name_the_url(listen_url: Seq<char>)
    ensures
        transport(listen_url) matches Err(error) ==> {
            &&& error_url(error) == listen_url
            &&& exists|before: Seq<char>, after: Seq<char>|
                error_text(error) == before + listen_url + after
        },
{
    if let Err(error) = transport(listen_url) {
        match error {
            TransportErrorModel::Unsupported { .. } => {
                assert(error_text(error) == "unsupported --listen URL `"@ + listen_url
                    + "`; expected `stdio://` or `http://IP:PORT[/PATH]`"@);
            },
            TransportErrorModel::InvalidStdio { .. } => {
                assert(error_text(error) == "invalid stdio --listen URL `"@ + listen_url
                    + "`; expected exactly `stdio://`"@);
            },
            TransportErrorModel::InvalidHttp { reason, .. } => {
                assert(error_text(error) =~= "invalid HTTP --listen URL `"@ + listen_url + (
                "`: "@ + reason + "; expected `http://IP:PORT[/PATH]`"@));
            },
        }
    }
}

/// The URL that a refusal is about.
pub open spec fn error_url(error: TransportErrorModel) -> Seq<char> {
    match error {
        TransportErrorModel::Unsupported { listen_url } => listen_url,
        TransportErrorModel::InvalidStdio { listen_url } => listen_url,
        TransportErrorModel::InvalidHttp { listen_url, .. } => listen_url,
    }
}

proof fn lemma_scheme(rest: Seq<char>)
    ensures
        transport("http://"@ + rest) == http_transport("http://"@ + rest, rest),
{
    reveal_strlit("http://");
    reveal_strlit("stdio://");
    let url = "http://"@ + rest;
    assert(url[0] == 'h');
    assert("stdio://"@[0] == 's');
    if "stdio://"@.is_prefix_of(url) {
        assert("stdio://"@[0] == url.subrange(0, "stdio://"@.len() as int)[0]);
    }
    assert(url.subrange(0, "http://"@.len() as int) =~= "http://"@);
    assert(url.skip("http://"@.len() as int) =~= rest);
}

proof fn lemma_endpoint_path(http_url: Seq<char>)
    requires
        !http_url.contains('?'),
        !http_url.contains('#'),
    ensures
        endpoint_path(http_url).len() > 0,
        endpoint_path(http_url)[0] == '/',
        !endpoint_path(http_url).contains('?'),
        !endpoint_path(http_url).contains('#'),
{
    let path = endpoint_path(http_url);
    let n = first_index(http_url, '/');
    lemma_first_index(http_url, '/');
    reveal_strlit("/mcp");
    if http_url.contains('/') {
        assert(path[0] == http_url[n]);
        assert forall|i: int| 0 <= i < path.len() implies path[i] != '?' && path[i] != '#' by {
            assert(http_url.contains(http_url[n + i]));
        }
    }
}

proof fn lemma_plain(address: Seq<char>)
    requires
        in_address_chars(address),
    ensures
        !address.contains('/'),
        !address.contains('?'),
        !address.contains('#'),
{
    assert(!is_address_char('/') && !is_address_char('?') && !is_address_char('#'));
}

impl McpListenTransportParseError {
    /// What to tell the user.
    pub fn to_string(&self) -> (text: String)
        ensures
            text@ == error_text(self@),
    {
        match self {
            McpListenTransportParseError::UnsupportedListenUrl(listen_url) => {
                "unsupported --listen URL `".to_owned().concat(listen_url.as_str()).concat(
                    "`; expected `stdio://` or `http://IP:PORT[/PATH]`",
                )
            },
            McpListenTransportParseError::InvalidStdioListenUrl(listen_url) => {
                "invalid stdio --listen URL `".to_owned().concat(listen_url.as_str()).concat(
                    "`; expected exactly `stdio://`",
                )
            },
            McpListenTransportParseError::InvalidHttpListenUrl { listen_url, reason } => {
                "invalid HTTP --listen URL `".to_owned().concat(listen_url.as_str()).concat(
                    "`: ",
                ).concat(reason).concat("; expected `http://IP:PORT[/PATH]`")
            },
        }
    }
}

impl McpListenTransport {
    /// The URL that is meant where none is given.
    pub const DEFAULT_LISTEN_URL: &'static str = "stdio://";

    /// The path of the MCP endpoint where the URL gives none.
    pub const DEFAULT_HTTP_PATH: &'static str = "/mcp";

    /// Reads a listen URL.
    pub fn from_listen_url(listen_url: &str) -> (r: Result<Self, McpListenTransportParseError>)
        ensures
            result_view(r) == transport(listen_url@),
    {
        if same_text(listen_url, Self::DEFAULT_LISTEN_URL) {
            return Ok(McpListenTransport::Stdio);
        }
        if strip_prefix(listen_url, "stdio://").is_some() {
            return Err(
                McpListenTransportParseError::InvalidStdioListenUrl(listen_url.to_owned()),
            );
        }
        if let Some(http_url) = strip_prefix(listen_url, "http://") {
            return Self::parse_http_listen_url(listen_url, http_url);
        }
        Err(McpListenTransportParseError::UnsupportedListenUrl(listen_url.to_owned()))
    }

    /// Reads what follows `http://` in a listen URL.
    fn parse_http_listen_url(listen_url: &str, http_url: &str) -> (r: Result<
        Self,
        McpListenTransportParseError,
    >)
        ensures
            result_view(r) == http_transport(listen_url@, http_url@),
    {
        let chars = chars_of(http_url);
        let n: usize = chars.len();
        proof {
            lemma_first_index(http_url@, '?');
            lemma_first_index(http_url@, '#');
            lemma_first_index(http_url@, '/');
        }
        if find(chars.as_slice(), '?') < n || find(chars.as_slice(), '#') < n {
            return Err(
                McpListenTransportParseError::InvalidHttpListenUrl {
                    listen_url: listen_url.to_owned(),
                    reason: "query strings and fragments are not supported",
                },
            );
        }
        let slash: usize = find(chars.as_slice(), '/');
        let host = http_url.substring_char(0, slash);
        let path = if slash < n {
            let rest = http_url.substring_char(slash, n);
            assert(rest@ =~= endpoint_path(http_url@));
            rest.to_owned()
        } else {
            Self::DEFAULT_HTTP_PATH.to_owned()
        };
        assert(host@ =~= authority(http_url@));
        match SocketAddr::from_text(host) {
            Some(bind_address) => Ok(McpListenTransport::Http { bind_address, path }),
            None => Err(
                McpListenTransportParseError::InvalidHttpListenUrl {
                    listen_url: listen_url.to_owned(),
                    reason: "host must be an IP literal with an explicit port",
                },
            ),
        }
    }
}

impl std::str::FromStr for McpListenTransport {
    type Err = McpListenTransportParseError;

    fn from_str(s: &str) -> (r: Result<Self, Self::Err>)
        ensures
            result_view(r) == transport(s@),
    {
        Self::from_listen_url(s)
    }
}

/// Each refusal has its URLs: after `stdio://` nothing may stand, after
/// `http://` no `?` and no `#`, and there are no other schemes. Whatever else is
/// wrong after `http://` is wrong with the host.
pub proof fn every_refusal_has_its_urls(listen_url: Seq<char>)
    ensures
        transport(listen_url) == Err::<TransportModel, TransportErrorModel>(
            TransportErrorModel::InvalidStdio { listen_url },
        ) <==> exists|extra: Seq<char>|
            extra.len() > 0 && listen_url == #[trigger] ("stdio://"@ + extra),
        transport(listen_url) == Err::<TransportModel, TransportErrorModel>(
            TransportErrorModel::Unsupported { listen_url },
        ) <==> !(exists|rest: Seq<char>| listen_url == #[trigger] ("stdio://"@ + rest)) && !(exists|
            rest: Seq<char>,
        | listen_url == #[trigger] ("http://"@ + rest)),
        transport(listen_url) == Err::<TransportModel, TransportErrorModel>(
            TransportErrorModel::InvalidHttp {
                listen_url,
                reason: "query strings and fragments are not supported"@,
            },
        ) <==> (exists|rest: Seq<char>| listen_url == #[trigger] ("http://"@ + rest)) && (
        listen_url.contains('?') || listen_url.contains('#')),
        transport(listen_url) == Err::<TransportModel, TransportErrorModel>(
            TransportErrorModel::InvalidHttp {
                listen_url,
                reason: "host must be an IP literal with an explicit port"@,
            },
        ) <==> (exists|rest: Seq<char>| listen_url == #[trigger] ("http://"@ + rest))
            && !listen_url.contains('?') && !listen_url.contains('#') && transport(
            listen_url,
        ) is Err,
{
    let stdio = "stdio://"@;
    let http = "http://"@;
    let n = stdio.len() as int;
    let m = http.len() as int;
    reveal_strlit("stdio://");
    reveal_strlit("http://");
    lemma_reasons_differ();
    lemma_prefix(stdio, listen_url);
    lemma_prefix(http, listen_url);
    if stdio.is_prefix_of(listen_url) {
        assert(listen_url == stdio + listen_url.skip(n));
        if http.is_prefix_of(listen_url) {
            assert(stdio[0] == listen_url[0] && http[0] == listen_url[0]);
        }
        if listen_url.skip(n).len() == 0 {
            assert(listen_url =~= stdio);
        }
    }
    if listen_url == stdio {
        assert forall|extra: Seq<char>| listen_url == #[trigger] (stdio + extra) implies extra.len()
            == 0 by {
            assert((stdio + extra).len() == stdio.len() + extra.len());
        }
    }
    if http.is_prefix_of(listen_url) {
        let rest = listen_url.skip(m);
        assert(listen_url == http + rest);
        lemma_scheme(rest);
        assert(!http.contains('?') && !http.contains('#'));
        lemma_contains_behind(http, rest, '?');
        lemma_contains_behind(http, rest, '#');
    }
}

proof fn lemma_prefix(prefix: Seq<char>, s: Seq<char>)
    ensures
        prefix.is_prefix_of(s) <==> exists|rest: Seq<char>| s == #[trigger] (prefix + rest),
        prefix.is_prefix_of(s) ==> s == prefix + s.skip(prefix.len() as int),
{
    if prefix.is_prefix_of(s) {
        assert(s =~= prefix + s.skip(prefix.len() as int));
    }
    if exists|rest: Seq<char>| s == #[trigger] (prefix + rest) {
        let rest = choose|rest: Seq<char>| s == #[trigger] (prefix + rest);
        assert(s.subrange(0, prefix.len() as int) =~= prefix);
    }
}

proof fn lemma_contains_behind(prefix: Seq<char>, rest: Seq<char>, c: char)
    requires
        !prefix.contains(c),
    ensures
        (prefix + rest).contains(c) <==> rest.contains(c),
{
    let s = prefix + rest;
    if rest.contains(c) {
        let k = choose|k: int| 0 <= k < rest.len() && rest[k] == c;
        assert(s[prefix.len() + k] == c);
    }
    if s.contains(c) {
        let k = choose|k: int| 0 <= k < s.len() && s[k] == c;
        if k < prefix.len() {
            assert(prefix.contains(prefix[k]));
        } else {
            assert(rest[k - prefix.len()] == c);
        }
    }
}

proof fn lemma_reasons_differ()
    ensures
        query_reason() == "query strings and fragments are not supported"@,
        host_reason() == "host must be an IP literal with an explicit port"@,
        query_reason() != host_reason(),
{
    reveal_strlit("query strings and fragments are not supported");
    reveal_strlit("host must be an IP literal with an explicit port");
    assert(query_reason()[0] == 'q' && host_reason()[0] == 'h');
}

/// A refusal tells the user the URL, what is wrong with it, and what is
/// expected.
pub proof fn refusals_say_what_is_expected(listen_url: Seq<char>, reason: Seq<char>)
    ensures
        error_text(TransportErrorModel::Unsupported { listen_url })
            == "unsupported --listen URL `"@ + listen_url
            + "`; expected `stdio://` or `http://IP:PORT[/PATH]`"@,
        error_text(TransportErrorModel::InvalidStdio { listen_url })
            == "invalid stdio --listen URL `"@ + listen_url + "`; expected exactly `stdio://`"@,
        error_text(TransportErrorModel::InvalidHttp { listen_url, reason })
            == "invalid HTTP --listen URL `"@ + listen_url + "`: "@ + reason
            + "; expected `http://IP:PORT[/PATH]`"@,
{
}

/// A transport and a refusal are seen with all their parts, and a result as
/// the one or the other.
pub proof fn nothing_is_hidden_of_a_transport(
    transport: McpListenTransport,
    error: McpListenTransportParseError,
)
    ensures
        transport@ is Stdio <==> transport is Stdio,
        transport matches McpListenTransport::Http { bind_address, path } ==> transport@ == (
        TransportModel::Http { bind_address, path: path@ }),
        error matches McpListenTransportParseError::UnsupportedListenUrl(url) ==> error@ == (
        TransportErrorModel::Unsupported { listen_url: url@ }),
        error matches McpListenTransportParseError::InvalidStdioListenUrl(url) ==> error@ == (
        TransportErrorModel::InvalidStdio { listen_url: url@ }),
        error matches McpListenTransportParseError::InvalidHttpListenUrl { listen_url, reason }
            ==> error@ == (TransportErrorModel::InvalidHttp {
            listen_url: listen_url@,
            reason: reason@,
        }),
        result_view(Ok(transport)) == Ok::<TransportModel, TransportErrorModel>(transport@),
        result_view(Err(error)) == Err::<TransportModel, TransportErrorModel>(error@),
{
}

} // verus!
