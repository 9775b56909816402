//! The cloud client's own logic: who a token was issued to, the `curl` and `openssl`
//! command lines it runs, the request headers, token expiry, and the steps of the QR
//! login.

use vstd::prelude::*;
use crate::base64::{b64decode, spec_b64decode};
use crate::color::{hex_lower, spec_hex_lower};
use crate::parse::{split, split_chars, string_views};
use crate::text::{chars_of, concat, decimal, is_word, spec_decimal, spec_trim, string_of, trim};

verus! {

/// What a token was issued to: the phone app (client type 1) or the desktop app
/// (client type 7), with the client id it was issued for.
pub struct Ident {
    pub client: String,
    pub client_type: u8,
    pub token: String,
}

impl Ident {
    /// A phone-app identity for `client`, without a token yet.
    pub fn phone(client: String) -> (id: Ident)
        ensures
            id.client == client,
            id.client_type == 1,
            id.token@ == Seq::<char>::empty(),
    {
        Ident { client, client_type: 1, token: String::new() }
    }

    /// A desktop-app identity for the machine's network address `mac`, without a token
    /// yet.
    pub fn desktop(mac: String) -> (id: Ident)
        ensures
            id.client == mac,
            id.client_type == 7,
            id.token@ == Seq::<char>::empty(),
    {
        Ident { client: mac, client_type: 7, token: String::new() }
    }

    /// The identity of a stored session from its `client`, `clientType` and `token`
    /// fields: a missing text is empty, a missing type is 1, and the type keeps its low
    /// byte.
    pub fn from_store(client: Option<String>, client_type: Option<u64>, token: Option<String>) -> (id: Ident)
        ensures
            id.client@ == (match client { Some(c) => c@, None => Seq::<char>::empty() }),
            id.client_type == (match client_type { Some(t) => (t % 256) as u8, None => 1u8 }),
            id.token@ == (match token { Some(t) => t@, None => Seq::<char>::empty() }),
    {
        let client = match client {
            Some(c) => c,
            None => String::new(),
        };
        let client_type: u8 = match client_type {
            Some(t) => (t % 256) as u8,
            None => 1,
        };
        let token = match token {
            Some(t) => t,
            None => String::new(),
        };
        Ident { client, client_type, token }
    }
}

/// The address used when no interface has one.
pub open spec fn fallback_mac() -> Seq<char> {
    "02:00:00:00:00:01"@
}

/// Whether an interface entry gives a usable address: not the loopback, an address file
/// that could be read, and an address that is neither empty nor all zeros once trimmed.
pub open spec fn usable_mac(name: Seq<char>, address: Option<Seq<char>>) -> bool {
    &&& name != "lo"@
    &&& address is Some
    &&& spec_trim(address.unwrap()).len() > 0
    &&& spec_trim(address.unwrap()) != "00:00:00:00:00:00"@
}

/// The views of interface entries `(name, address file contents)`.
pub open spec fn entries_view(e: Seq<(String, Option<String>)>) -> Seq<(Seq<char>, Option<Seq<char>>)> {
    e.map_values(|x: (String, Option<String>)| (x.0@, match x.1 { Some(a) => Some(a@), None => None }))
}

/// The address of the first usable interface (trimmed), else [`fallback_mac`].
pub open spec fn spec_pick_mac(e: Seq<(Seq<char>, Option<Seq<char>>)>) -> Seq<char>
    decreases e.len(),
{
    if e.len() == 0 {
        fallback_mac()
    } else if usable_mac(e[0].0, e[0].1) {
        spec_trim(e[0].1.unwrap())
    } else {
        spec_pick_mac(e.skip(1))
    }
}

/// Chooses the machine address from the network interfaces, given in directory order
/// as `(name, contents of its address file when readable)`.
pub fn pick_mac(entries: &Vec<(String, Option<String>)>) -> (mac: String)
    ensures
        mac@ == spec_pick_mac(entries_view(entries@)),
{
    let ghost ev = entries_view(entries@);
    assert(ev.skip(0) =~= ev);
    let mut i: usize = 0;
    while i < entries.len()
        invariant
            i <= entries@.len(),
            ev == entries_view(entries@),
            spec_pick_mac(ev) == spec_pick_mac(ev.skip(i as int)),
        decreases entries@.len() - i,
    {
        let (name, address) = (&entries[i].0, &entries[i].1);
        let nc = chars_of(name.as_str());
        assert(ev.skip(i as int)[0] == ev[i as int]);
        assert(ev.skip(i as int).skip(1) =~= ev.skip(i + 1));
        if !is_word(nc.as_slice(), "lo") {
            match address {
                Some(a) => {
                    let t = trim(a.as_str());
                    let tc = chars_of(t.as_str());
                    if tc.len() > 0 && !is_word(tc.as_slice(), "00:00:00:00:00:00") {
                        return t;
                    }
                },
                None => {},
            }
        }
        i = i + 1;
    }
    "02:00:00:00:00:01".to_owned()
}

/// An `openssl` run: its arguments and what it reads on standard input.
pub struct OpensslCall {
    pub args: Vec<String>,
    pub input: Vec<u8>,
}

/// The arguments of an AES-256-ECB run with the key's bytes as the raw key.
pub open spec fn aes_args(encrypt: bool, key: Seq<char>) -> Seq<Seq<char>> {
    seq![
        "enc"@,
        "-aes-256-ecb"@,
        if encrypt { "-e"@ } else { "-d"@ },
        "-K"@,
        spec_hex_lower(vstd::utf8::encode_utf8(key)),
        "-nosalt"@,
    ]
}

/// The `openssl enc` run that encrypts (or decrypts) `data` with AES-256 in ECB mode
/// and PKCS#7 padding, the key being the bytes of `key` (a 32-character text), given
/// in hex.
pub fn aes_ecb(encrypt: bool, key: &str, data: &[u8]) -> (call: OpensslCall)
    ensures
        string_views(call.args@) == aes_args(encrypt, key@),
        call.input@ == data@,
{
    let mut args: Vec<String> = Vec::new();
    args.push("enc".to_owned());
    args.push("-aes-256-ecb".to_owned());
    args.push(if encrypt { "-e".to_owned() } else { "-d".to_owned() });
    args.push("-K".to_owned());
    args.push(hex_lower(key.as_bytes()));
    args.push("-nosalt".to_owned());
    assert(string_views(args@) =~= aes_args(encrypt, key@));
    let mut input: Vec<u8> = Vec::new();
    let mut i: usize = 0;
    while i < data.len()
        invariant
            i <= data@.len(),
            input@ == data@.take(i as int),
        decreases data@.len() - i,
    {
        input.push(data[i]);
        assert(data@.take(i + 1) =~= data@.take(i as int).push(data@[i as int]));
        i = i + 1;
    }
    assert(data@.take(data@.len() as int) =~= data@);
    OpensslCall { args, input }
}

/// The number a JSON document holds under `key` as an unsigned integer: `None` when the
/// bytes are not JSON, the document has no such key, or the value there is not a `u64`.
pub uninterp spec fn json_u64_field(bytes: Seq<u8>, key: Seq<char>) -> Option<u64>;

/// Reads an unsigned integer field of a JSON document with `serde_json`.
///
/// Trusted: calls `serde_json::from_slice::<serde_json::Value>`, then `Value::get` and
/// `Value::as_u64`; the contract only names the result ([`json_u64_field`]) as a function
/// of the bytes and the key.
#[verifier::external_body]
fn json_u64_at(bytes: &[u8], key: &str) -> (r: Option<u64>)
    ensures
        r == json_u64_field(bytes@, key@),
{
    serde_json::from_slice::<serde_json::Value>(bytes).ok().and_then(|v| v.get(key).and_then(|x| x.as_u64()))
}

/// The expiry (`exp`) of a JWT: the second `.`-separated part, base64-decoded and read as
/// JSON; `None` when there is no second part or no such number.
pub open spec fn spec_jwt_exp(token: Seq<char>) -> Option<u64> {
    let parts = split_chars(token, seq!['.']);
    if parts.len() < 2 {
        None
    } else {
        json_u64_field(spec_b64decode(vstd::utf8::encode_utf8(parts[1])), "exp"@)
    }
}

/// The expiry time of a JWT, in seconds (see [`spec_jwt_exp`]).
pub fn jwt_exp(token: &str) -> (r: Option<u64>)
    ensures
        r == spec_jwt_exp(token@),
{
    let cs = chars_of(token);
    let dot: [char; 1] = ['.'];
    assert(dot@ =~= seq!['.']);
    let parts = split(cs.as_slice(), &dot);
    if parts.len() < 2 {
        return None;
    }
    let payload = b64decode(parts[1].as_str());
    json_u64_at(payload.as_slice(), "exp")
}

/// A stored desktop session's token is refreshed when it expires within a minute (a
/// token without a readable expiry counts as expired); a phone session's never is.
pub open spec fn spec_needs_refresh(client_type: Option<i64>, token: Seq<char>, now: u64) -> bool {
    client_type == Some(7i64) && (match spec_jwt_exp(token) { Some(e) => e as int, None => 0 })
        < now + 60
}

/// Whether the stored session (its `clientType` and `token`) must be refreshed at time
/// `now` (seconds since the epoch) before a request.
pub fn needs_refresh(client_type: Option<i64>, token: &str, now: u64) -> (r: bool)
    requires
        client_type == Some(7i64) ==> now <= u64::MAX - 60,
    ensures
        r == spec_needs_refresh(client_type, token@, now),
{
    match client_type {
        Some(t) => {
            if t != 7 {
                return false;
            }
        },
        None => {
            return false;
        },
    }
    let exp: u64 = match jwt_exp(token) {
        Some(e) => e,
        None => 0,
    };
    exp < now + 60
}

/// The client id for a password login: the stored one when the stored session is a
/// phone one (the server keeps it), else the given random bytes in hex.
pub fn login_client(stored_type: Option<i64>, stored_client: Option<String>, random: &[u8]) -> (c: String)
    ensures
        c@ == (if stored_type == Some(1i64) && stored_client is Some {
            stored_client.unwrap()@
        } else {
            spec_hex_lower(random@)
        }),
{
    if stored_type == Some(1i64) {
        if let Some(c) = stored_client {
            return c;
        }
    }
    hex_lower(random)
}

/// The zone name of a `/etc/localtime` link target: what lies between the first
/// `zoneinfo/` and the next one (or the end), as `split("zoneinfo/").nth(1)` gives it.
pub open spec fn spec_zone_of_link(p: Seq<char>) -> Option<Seq<char>> {
    match first_from(p, "zoneinfo/"@, 0) {
        None => None,
        Some(i) => {
            let rest = p.skip(i + 9);
            match first_from(rest, "zoneinfo/"@, 0) {
                None => Some(rest),
                Some(j) => Some(rest.take(j)),
            }
        },
    }
}

/// Whether `pat` occurs in `s` at `i`.
pub open spec fn occurs_at(s: Seq<char>, pat: Seq<char>, i: int) -> bool {
    0 <= i && i + pat.len() <= s.len() && s.subrange(i, i + pat.len()) == pat
}

/// The first index from `i` on where `pat` occurs in `s`.
pub open spec fn first_from(s: Seq<char>, pat: Seq<char>, i: int) -> Option<int>
    decreases s.len() + 1 - i,
{
    if i < 0 || i + pat.len() > s.len() {
        None
    } else if occurs_at(s, pat, i) {
        Some(i)
    } else {
        first_from(s, pat, i + 1)
    }
}

fn occurs_at_exec(s: &[char], pat: &[char], i: usize) -> (r: bool)
    ensures
        r == occurs_at(s@, pat@, i as int),
{
    if i > s.len() || pat.len() > s.len() - i {
        return false;
    }
    let mut k: usize = 0;
    while k < pat.len()
        invariant
            k <= pat@.len(),
            i + pat@.len() <= s.len(),
            forall|q: int| 0 <= q < k ==> s@[i + q] == pat@[q],
        decreases pat@.len() - k,
    {
        if s[i + k] != pat[k] {
            assert(s@.subrange(i as int, i + pat@.len())[k as int] != pat@[k as int]);
            return false;
        }
        k = k + 1;
    }
    assert(s@.subrange(i as int, i + pat@.len()) =~= pat@);
    true
}

proof fn lemma_first_from(s: Seq<char>, pat: Seq<char>, start: int)
    ensures
        first_from(s, pat, start) matches Some(i) ==> start <= i && occurs_at(s, pat, i),
    decreases s.len() + 1 - start,
{
    if !(start < 0 || start + pat.len() > s.len()) && !occurs_at(s, pat, start) {
        lemma_first_from(s, pat, start + 1);
    }
}

fn find_from(s: &[char], pat: &[char], start: usize) -> (r: Option<usize>)
    ensures
        match r {
            Some(i) => first_from(s@, pat@, start as int) == Some(i as int),
            None => first_from(s@, pat@, start as int) is None,
        },
{
    let mut i = start;
    while i <= s.len() && pat.len() <= s.len() - i
        invariant
            start <= i,
            first_from(s@, pat@, start as int) == first_from(s@, pat@, i as int),
        decreases s@.len() + 1 - i,
    {
        if occurs_at_exec(s, pat, i) {
            return Some(i);
        }
        if pat.len() == 0 {
            assert(s@.subrange(i as int, i as int) =~= pat@);
        }
        i = i + 1;
    }
    None
}

/// The zone name in a `/etc/localtime` link target (see [`spec_zone_of_link`]).
pub fn zone_of_link(p: &str) -> (r: Option<String>)
    ensures
        match r {
            Some(z) => spec_zone_of_link(p@) == Some(z@),
            None => spec_zone_of_link(p@) is None,
        },
{
    let cs = chars_of(p);
    let pat = chars_of("zoneinfo/");
    proof {
        reveal_strlit("zoneinfo/");
        assert(pat@.len() == 9);
    }
    match find_from(cs.as_slice(), pat.as_slice(), 0) {
        None => None,
        Some(i) => {
            proof {
                lemma_first_from(cs@, pat@, 0);
            }
            assert(occurs_at(cs@, pat@, i as int));
            assert(i + 9 <= cs@.len());
            let cl = cs.len();
            assert(i + 9 <= cl);
            let start = i + 9;
            let rest = string_of(cs.as_slice(), start, cs.len());
            let rc = chars_of(rest.as_str());
            assert(rc@ =~= cs@.skip(start as int));
            proof {
                lemma_first_from(rc@, pat@, 0);
            }
            match find_from(rc.as_slice(), pat.as_slice(), 0) {
                None => Some(rest),
                Some(j) => Some(string_of(rc.as_slice(), 0, j)),
            }
        },
    }
}

/// The time zone for the desktop headers: `TZ` when set, else the zone of the
/// `/etc/localtime` link, else `UTC`.
pub fn timezone(tz_env: Option<String>, link: Option<String>) -> (tz: String)
    ensures
        tz@ == (match tz_env {
            Some(t) => t@,
            None => match link {
                Some(l) => match spec_zone_of_link(l@) {
                    Some(z) => z,
                    None => "UTC"@,
                },
                None => "UTC"@,
            },
        }),
{
    match tz_env {
        Some(t) => t,
        None => match link {
            Some(l) => match zone_of_link(l.as_str()) {
                Some(z) => z,
                None => "UTC".to_owned(),
            },
            None => "UTC".to_owned(),
        },
    }
}

/// What `str::to_uppercase` gives for `s` (the Unicode upper-case mapping).
pub uninterp spec fn uppercase_of(s: Seq<char>) -> Seq<char>;

/// Upper-cases a text with std's `str::to_uppercase`.
///
/// Trusted: calls `str::to_uppercase`; the contract only names the result
/// ([`uppercase_of`]) as a function of the text.
#[verifier::external_body]
fn to_uppercase(s: &str) -> (r: String)
    ensures
        r@ == uppercase_of(s@),
{
    s.to_uppercase()
}

/// The country code to send: an upper-cased region that is two bytes long, else `US`.
pub fn country_code(upper: Option<String>) -> (c: String)
    ensures
        c@ == (match upper {
            Some(u) => if vstd::utf8::encode_utf8(u@).len() == 2 { u@ } else { "US"@ },
            None => "US"@,
        }),
{
    match upper {
        Some(u) => {
            if u.as_str().as_bytes().len() == 2 {
                u
            } else {
                "US".to_owned()
            }
        },
        None => "US".to_owned(),
    }
}

/// The region part of a locale such as `de_AT.UTF-8`: the second piece when cut at `_`
/// and `.`.
pub open spec fn locale_region(lang: Seq<char>) -> Option<Seq<char>> {
    let parts = split_chars(lang, seq!['_', '.']);
    if parts.len() >= 2 { Some(parts[1]) } else { None }
}

/// The country for the desktop headers from `LANG`: its region upper-cased when that
/// gives two bytes, else `US`.
pub fn country_from_lang(lang: Option<String>) -> (c: String)
    ensures
        c@ == (match lang {
            Some(l) => match locale_region(l@) {
                Some(r) => if vstd::utf8::encode_utf8(uppercase_of(r)).len() == 2 {
                    uppercase_of(r)
                } else {
                    "US"@
                },
                None => "US"@,
            },
            None => "US"@,
        }),
{
    match lang {
        None => country_code(None),
        Some(l) => {
            let cs = chars_of(l.as_str());
            let seps: [char; 2] = ['_', '.'];
            assert(seps@ =~= seq!['_', '.']);
            let parts = split(cs.as_slice(), &seps);
            if parts.len() >= 2 {
                country_code(Some(to_uppercase(parts[1].as_str())))
            } else {
                country_code(None)
            }
        },
    }
}

/// The extra headers of a request made with a desktop-app token.
pub open spec fn desktop_headers(client: Seq<char>, host: Seq<char>, tz: Seq<char>, country: Seq<char>) -> Seq<Seq<char>> {
    seq![
        "clientid: "@ + client,
        "clientType: 7"@,
        "appVersion: 2.40.60"@,
        "pcversion: 2.40.60"@,
        "clientName: "@ + spec_trim(host),
        "model: PC"@,
        "sysVersion: Microslop Windows 11"@,
        "timezone: "@ + tz,
        "country: "@ + country,
        "Accept-Language: en"@,
        "User-Agent: RestSharp/112.0.0.0"@,
    ]
}

/// The extra headers of a request made with a phone-app token.
pub open spec fn phone_headers(client: Seq<char>, ts_millis: u128) -> Seq<Seq<char>> {
    seq![
        "clientId: "@ + client,
        "clientType: 1"@,
        "appVersion: 5.6.01"@,
        "iotVersion: 0"@,
        "timestamp: "@ + spec_decimal(ts_millis as nat),
        "User-Agent: GoveeHome/5.6.01 (com.ihoment.GoVeeSensor; build:2; iOS 16.5.0) Alamofire/5.6.4"@,
    ]
}

/// Each header preceded by `-H`.
pub open spec fn header_args(h: Seq<Seq<char>>) -> Seq<Seq<char>>
    decreases h.len(),
{
    if h.len() == 0 {
        Seq::empty()
    } else {
        header_args(h.drop_last()) + seq!["-H"@, h.last()]
    }
}

/// The `curl` arguments of a cloud request: method and URL, the JSON content type and
/// the bearer token, the identity's headers (desktop ones for client type 7, phone ones
/// else), and the body when there is one.
pub open spec fn spec_curl_args(
    method: Seq<char>,
    path: Seq<char>,
    body: Option<Seq<char>>,
    client: Seq<char>,
    client_type: u8,
    token: Seq<char>,
    host: Seq<char>,
    tz: Seq<char>,
    country: Seq<char>,
    ts_millis: u128,
) -> Seq<Seq<char>> {
    seq![
        "-sS"@,
        "--compressed"@,
        "-m"@,
        "90"@,
        "-X"@,
        method,
        "https://app2.govee.com"@ + path,
        "-H"@,
        "Content-Type: application/json"@,
        "-H"@,
        "Authorization: Bearer "@ + token,
    ] + header_args(
        if client_type == 7 {
            desktop_headers(client, host, tz, country)
        } else {
            phone_headers(client, ts_millis)
        },
    ) + match body {
        Some(b) => seq!["-d"@, b],
        None => Seq::empty(),
    }
}

fn push_headers(args: &mut Vec<String>, h: Vec<String>)
    ensures
        string_views(final(args)@) == string_views(old(args)@) + header_args(string_views(h@)),
{
    let ghost start = string_views(args@);
    let mut i: usize = 0;
    while i < h.len()
        invariant
            i <= h@.len(),
            string_views(args@) == start + header_args(string_views(h@).take(i as int)),
        decreases h@.len() - i,
    {
        let ghost before = string_views(args@);
        args.push("-H".to_owned());
        args.push(h[i].clone());
        assert(string_views(h@).take(i + 1).drop_last() =~= string_views(h@).take(i as int));
        assert(string_views(args@) =~= before + seq!["-H"@, h@[i as int]@]);
        i = i + 1;
    }
    assert(string_views(h@).take(h@.len() as int) =~= string_views(h@));
}

/// The `curl` command line of a cloud request (see [`spec_curl_args`]). `host` is the
/// contents of `/etc/hostname` (trimmed here), `tz` and `country` come from
/// [`timezone`] and [`country_from_lang`], `ts_millis` is the time in milliseconds;
/// the last four matter only for the identity type that uses them.
pub fn curl_args(
    method: &str,
    path: &str,
    body: Option<&str>,
    id: &Ident,
    host: &str,
    tz: &str,
    country: &str,
    ts_millis: u128,
) -> (args: Vec<String>)
    ensures
        string_views(args@) == spec_curl_args(
            method@,
            path@,
            match body { Some(b) => Some(b@), None => None },
            id.client@,
            id.client_type,
            id.token@,
            host@,
            tz@,
            country@,
            ts_millis,
        ),
{
    let mut args: Vec<String> = Vec::new();
    args.push("-sS".to_owned());
    args.push("--compressed".to_owned());
    args.push("-m".to_owned());
    args.push("90".to_owned());
    args.push("-X".to_owned());
    args.push(method.to_owned());
    args.push(concat("https://app2.govee.com", path));
    args.push("-H".to_owned());
    args.push("Content-Type: application/json".to_owned());
    args.push("-H".to_owned());
    args.push(concat("Authorization: Bearer ", id.token.as_str()));
    let mut h: Vec<String> = Vec::new();
    if id.client_type == 7 {
        let host_t = trim(host);
        h.push(concat("clientid: ", id.client.as_str()));
        h.push("clientType: 7".to_owned());
        h.push("appVersion: 2.40.60".to_owned());
        h.push("pcversion: 2.40.60".to_owned());
        h.push(concat("clientName: ", host_t.as_str()));
        h.push("model: PC".to_owned());
        h.push("sysVersion: Microslop Windows 11".to_owned());
        h.push(concat("timezone: ", tz));
        h.push(concat("country: ", country));
        h.push("Accept-Language: en".to_owned());
        h.push("User-Agent: RestSharp/112.0.0.0".to_owned());
    } else {
        let ts = decimal(ts_millis);
        h.push(concat("clientId: ", id.client.as_str()));
        h.push("clientType: 1".to_owned());
        h.push("appVersion: 5.6.01".to_owned());
        h.push("iotVersion: 0".to_owned());
        h.push(concat("timestamp: ", ts.as_str()));
        h.push(
            "User-Agent: GoveeHome/5.6.01 (com.ihoment.GoVeeSensor; build:2; iOS 16.5.0) Alamofire/5.6.4".to_owned(),
        );
    }
    let ghost h_view = string_views(h@);
    assert(h_view =~= (if id.client_type == 7 {
        desktop_headers(id.client@, host@, tz@, country@)
    } else {
        phone_headers(id.client@, ts_millis)
    }));
    let ghost head = string_views(args@);
    push_headers(&mut args, h);
    let ghost mid = string_views(args@);
    match body {
        Some(b) => {
            args.push("-d".to_owned());
            args.push(b.to_owned());
            assert(string_views(args@) =~= mid + seq!["-d"@, b@]);
        },
        None => {
            assert(string_views(args@) =~= mid + Seq::<Seq<char>>::empty());
        },
    }
    assert(string_views(args@) =~= spec_curl_args(
        method@,
        path@,
        match body { Some(b) => Some(b@), None => None },
        id.client@,
        id.client_type,
        id.token@,
        host@,
        tz@,
        country@,
        ts_millis,
    ));
    args
}

/// What the QR login loop does after a status poll.
pub enum QrStep {
    /// Not scanned yet: poll again.
    Wait,
    /// Still waiting, with a status worth printing: poll again.
    Report,
    /// The code expired or became invalid: stop with an error.
    Fail,
    /// The login data arrived.
    Done,
}

/// The step after a QR status poll: `UNUSED` waits; without login data `EXPIRED` and
/// `INVALID` fail and any other status is reported; with login data the login is done.
pub fn qr_step(status: &str, has_login: bool) -> (s: QrStep)
    ensures
        status@ == "UNUSED"@ ==> s is Wait,
        status@ != "UNUSED"@ && has_login ==> s is Done,
        status@ != "UNUSED"@ && !has_login && (status@ == "EXPIRED"@ || status@ == "INVALID"@) ==> s is Fail,
        status@ != "UNUSED"@ && !has_login && status@ != "EXPIRED"@ && status@ != "INVALID"@ ==> s is Report,
{
    let cs = chars_of(status);
    if is_word(cs.as_slice(), "UNUSED") {
        QrStep::Wait
    } else if has_login {
        QrStep::Done
    } else if is_word(cs.as_slice(), "EXPIRED") || is_word(cs.as_slice(), "INVALID") {
        QrStep::Fail
    } else {
        QrStep::Report
    }
}

/// A cloud reply succeeded when its `status` is the number 200.
pub fn reply_ok(status: Option<i64>) -> (ok: bool)
    ensures
        ok == (status == Some(200i64)),
{
    match status {
        Some(v) => v == 200,
        None => false,
    }
}

/// The token of a QR login: its `token`, else its `accessToken`.
pub fn login_token(token: Option<String>, access_token: Option<String>) -> (t: Option<String>)
    ensures
        t == (match token {
            Some(x) => Some(x),
            None => access_token,
        }),
{
    match token {
        Some(x) => Some(x),
        None => access_token,
    }
}

/// The login fields that a QR session stores beside the token when the login data has
/// them.
pub fn qr_store_keys() -> (keys: Vec<String>)
    ensures
        string_views(keys@) == seq![
            "refreshToken"@,
            "accountId"@,
            "email"@,
            "topic"@,
            "headPortrait"@,
            "tokenExpireTime"@,
        ],
{
    let mut keys: Vec<String> = Vec::new();
    keys.push("refreshToken".to_owned());
    keys.push("accountId".to_owned());
    keys.push("email".to_owned());
    keys.push("topic".to_owned());
    keys.push("headPortrait".to_owned());
    keys.push("tokenExpireTime".to_owned());
    assert(string_views(keys@) =~= seq![
        "refreshToken"@,
        "accountId"@,
        "email"@,
        "topic"@,
        "headPortrait"@,
        "tokenExpireTime"@,
    ]);
    keys
}

/// A token refresh reply is usable when it carries both a `token` and a
/// `refreshToken` (neither is null).
pub fn refresh_reply_complete(token_null: bool, refresh_token_null: bool) -> (ok: bool)
    ensures
        ok == (!token_null && !refresh_token_null),
{
    !token_null && !refresh_token_null
}

/// The stored expiry time in milliseconds of a refreshed token whose JWT expiry is
/// `exp` seconds (0 when it has none).
pub fn expire_millis(exp: Option<u64>) -> (ms: u64)
    requires
        (match exp { Some(e) => e as int, None => 0 }) * 1000 <= u64::MAX,
    ensures
        ms == (match exp { Some(e) => e as int, None => 0 }) * 1000,
{
    let e: u64 = match exp {
        Some(e) => e,
        None => 0,
    };
    e * 1000
}

/// A request body always goes last, as `-d <body>`, whatever the identity; without a
/// body the arguments end with the identity's headers (11 fixed arguments, then two per
/// header: 11 desktop headers or 6 phone ones).
pub proof fn lemma_curl_body_last(
    method: Seq<char>,
    path: Seq<char>,
    body: Option<Seq<char>>,
    client: Seq<char>,
    client_type: u8,
    token: Seq<char>,
    host: Seq<char>,
    tz: Seq<char>,
    country: Seq<char>,
    ts_millis: u128,
)
    ensures
        ({
            let a = spec_curl_args(method, path, body, client, client_type, token, host, tz, country, ts_millis);
            let headers = if client_type == 7 { 11int } else { 6int };
            match body {
                Some(b) => a.len() == 11 + 2 * headers + 2 && a[a.len() - 2] == "-d"@ && a[a.len() - 1] == b,
                None => a.len() == 11 + 2 * headers,
            }
        }),
{
    let h = if client_type == 7 {
        desktop_headers(client, host, tz, country)
    } else {
        phone_headers(client, ts_millis)
    };
    lemma_header_args_len(h);
}

proof fn lemma_header_args_len(h: Seq<Seq<char>>)
    ensures
        header_args(h).len() == 2 * h.len(),
    decreases h.len(),
{
    if h.len() > 0 {
        lemma_header_args_len(h.drop_last());
    }
}

} // verus!
