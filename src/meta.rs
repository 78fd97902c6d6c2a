//! What a peer knows of a shared file, of another peer and of the tracker,
//! and the settings that the command line lays over the configuration file.
use vstd::prelude::*;
use crate::text::{chars_of, dec, decimal, parse_usize, push_decimal, usize_of};

verus! {

/// A sharable file: its name on disk, its length, its piece size and its
/// identifier (the lowercase hex MD5 digest of its body).
#[derive(Debug, Clone)]
pub struct MetaFile {
    pub file_name: String,
    pub length: usize,
    pub piece_size: usize,
    pub hash: String,
}

pub struct MetaFileView {
    pub file_name: Seq<char>,
    pub length: usize,
    pub piece_size: usize,
    pub hash: Seq<char>,
}

impl View for MetaFile {
    type V = MetaFileView;

    open spec fn view(&self) -> MetaFileView {
        MetaFileView {
            file_name: self.file_name@,
            length: self.length,
            piece_size: self.piece_size,
            hash: self.hash@,
        }
    }
}

/// A peer's listening address and port.
#[derive(Debug, Clone)]
pub struct PeerConfig {
    pub address: String,
    pub port: u16,
}

pub struct PeerView {
    pub address: Seq<char>,
    pub port: u16,
}

impl View for PeerConfig {
    type V = PeerView;

    open spec fn view(&self) -> PeerView {
        PeerView { address: self.address@, port: self.port }
    }
}

/// The tracker's address and port.
#[derive(Clone, Debug)]
pub struct TrackerConfig {
    pub address: String,
    pub port: u16,
}

/// Number of buffermap entries of a file: one per whole piece, plus one.
pub open spec fn buffer_len(m: MetaFileView) -> int {
    m.length / m.piece_size + 1
}

/// A file whose buffermap length is defined and fits in memory indices.
pub open spec fn meta_ok(m: MetaFileView) -> bool {
    m.piece_size > 0 && m.length / m.piece_size < usize::MAX
}

/// The canonical key of a peer: `address:port`.
pub open spec fn peer_key(p: PeerView) -> Seq<char> {
    p.address.push(':') + dec(p.port as nat)
}

/// The piece size given to files registered from a local path.
pub const LOCAL_PIECE_SIZE: usize = 1024;

impl MetaFile {
    /// The record of a local file of name `file_name` whose body is `body`.
    pub fn new(file_name: String, body: &Vec<u8>) -> (r: MetaFile)
        ensures
            r@ == (MetaFileView {
                file_name: file_name@,
                length: body@.len() as usize,
                piece_size: LOCAL_PIECE_SIZE,
                hash: hex(md5_of(body@)),
            }),
            r.hash@.len() == 32,
    {
        MetaFile {
            hash: get_file_key(body),
            file_name,
            length: body.len(),
            piece_size: LOCAL_PIECE_SIZE,
        }
    }

    /// A field-by-field copy.
    pub fn duplicate(&self) -> (r: MetaFile)
        ensures
            r@ == self@,
    {
        MetaFile {
            file_name: self.file_name.clone(),
            length: self.length,
            piece_size: self.piece_size,
            hash: self.hash.clone(),
        }
    }
}

impl PeerConfig {
    /// A field-by-field copy.
    pub fn duplicate(&self) -> (r: PeerConfig)
        ensures
            r@ == self@,
    {
        PeerConfig { address: self.address.clone(), port: self.port }
    }
}

/// The buffermap length of `file`.
pub fn get_buffer_size(file: &MetaFile) -> (r: usize)
    requires
        meta_ok(file@),
    ensures
        r == buffer_len(file@),
{
    file.length / file.piece_size + 1
}

/// The identifier of `file`.
pub fn get_file_hash(file: &MetaFile) -> (r: String)
    ensures
        r@ == file.hash@,
{
    file.hash.clone()
}

/// The key of `peer` in the peer directory and in every buffermap table.
pub fn get_peer_key(peer: PeerConfig) -> (r: String)
    ensures
        r@ == peer_key(peer@),
{
    let mut s = peer.address;
    s.append(":");
    proof {
        reveal_strlit(":");
    }
    push_decimal(&mut s, peer.port as usize);
    s
}

/// The MD5 digest of a byte sequence.
pub uninterp spec fn md5_of(body: Seq<u8>) -> Seq<u8>;

/// Relies on md-5's `Md5::digest`: the 16-byte MD5 digest of `body`.
#[verifier::external_body]
fn md5_digest(body: &Vec<u8>) -> (r: Vec<u8>)
    ensures
        r@ == md5_of(body@),
        r@.len() == 16,
{
    <md5::Md5 as md5::Digest>::digest(body.as_slice()).to_vec()
}

pub open spec fn hex_digit(d: int) -> char {
    if d < 10 {
        crate::text::digit_char(d as nat)
    } else if d == 10 { 'a' }
    else if d == 11 { 'b' }
    else if d == 12 { 'c' }
    else if d == 13 { 'd' }
    else if d == 14 { 'e' }
    else { 'f' }
}

/// Two lowercase hex digits per byte, high nibble first.
pub open spec fn hex(b: Seq<u8>) -> Seq<char>
    decreases b.len(),
{
    if b.len() == 0 {
        Seq::<char>::empty()
    } else {
        hex(b.drop_last()).push(hex_digit(b.last() as int / 16)).push(hex_digit(b.last() as int % 16))
    }
}

fn hex_digit_of(d: u8) -> (c: char)
    requires
        d < 16,
    ensures
        c == hex_digit(d as int),
{
    match d {
        0 => '0',
        1 => '1',
        2 => '2',
        3 => '3',
        4 => '4',
        5 => '5',
        6 => '6',
        7 => '7',
        8 => '8',
        9 => '9',
        10 => 'a',
        11 => 'b',
        12 => 'c',
        13 => 'd',
        14 => 'e',
        _ => 'f',
    }
}

/// The lowercase hex form of `b`.
pub fn hex_string(b: &Vec<u8>) -> (r: String)
    ensures
        r@ == hex(b@),
        r@.len() == 2 * b@.len(),
{
    let mut cs: Vec<char> = Vec::new();
    let mut i: usize = 0;
    while i < b.len()
        invariant
            i <= b@.len(),
            cs@ == hex(b@.take(i as int)),
            cs@.len() == 2 * i,
        decreases b@.len() - i,
    {
        assert(b@.take(i + 1).drop_last() == b@.take(i as int));
        cs.push(hex_digit_of(b[i] / 16));
        cs.push(hex_digit_of(b[i] % 16));
        i = i + 1;
    }
    assert(b@.take(b@.len() as int) == b@);
    let mut s = String::new();
    crate::text::push_chars(&mut s, &cs);
    assert(Seq::<char>::empty() + cs@ == cs@);
    s
}

/// The identifier of a file whose body is `body`: its MD5 digest in lowercase hex.
pub fn get_file_key(body: &Vec<u8>) -> (r: String)
    ensures
        r@ == hex(md5_of(body@)),
        r@.len() == 32,
{
    let d = md5_digest(body);
    hex_string(&d)
}

/// What the command line sets over the configuration file.
#[derive(Debug, Clone)]
pub struct ConfigOverrides {
    pub config_path: Option<String>,
    pub tracker_port: Option<u16>,
    pub tracker_address: Option<String>,
    pub peer_port: Option<u16>,
}

impl ConfigOverrides {
    /// Nothing set.
    pub fn new() -> (r: ConfigOverrides)
        ensures
            r.config_path is None,
            r.tracker_port is None,
            r.tracker_address is None,
            r.peer_port is None,
    {
        ConfigOverrides { config_path: None, tracker_port: None, tracker_address: None, peer_port: None }
    }

    /// The configuration file to read: the one set, or `config.ini`.
    pub fn config_file(&self) -> (r: String)
        ensures
            self.config_path matches Some(p) ==> r@ == p@,
            self.config_path is None ==> r@ == seq!['c', 'o', 'n', 'f', 'i', 'g', '.', 'i', 'n', 'i'],
    {
        match &self.config_path {
            Some(p) => p.clone(),
            None => {
                let mut s = String::new();
                s.append("config.ini");
                proof {
                    reveal_strlit("config.ini");
                }
                s
            },
        }
    }
}

pub fn set_config_path(o: &mut ConfigOverrides, path: String)
    ensures
        final(o).config_path == Some(path),
        final(o).tracker_port == old(o).tracker_port,
        final(o).tracker_address == old(o).tracker_address,
        final(o).peer_port == old(o).peer_port,
{
    o.config_path = Some(path);
}

pub fn set_tracker_port(o: &mut ConfigOverrides, port: u16)
    ensures
        final(o).tracker_port == Some(port),
        final(o).config_path == old(o).config_path,
        final(o).tracker_address == old(o).tracker_address,
        final(o).peer_port == old(o).peer_port,
{
    o.tracker_port = Some(port);
}

pub fn set_tracker_address(o: &mut ConfigOverrides, address: String)
    ensures
        final(o).tracker_address == Some(address),
        final(o).config_path == old(o).config_path,
        final(o).tracker_port == old(o).tracker_port,
        final(o).peer_port == old(o).peer_port,
{
    o.tracker_address = Some(address);
}

pub fn set_peer_port(o: &mut ConfigOverrides, port: u16)
    ensures
        final(o).peer_port == Some(port),
        final(o).config_path == old(o).config_path,
        final(o).tracker_port == old(o).tracker_port,
        final(o).tracker_address == old(o).tracker_address,
{
    o.peer_port = Some(port);
}

/// A port number: decimal digits whose value is at most 65535.
pub open spec fn u16_of(s: Seq<char>) -> Option<u16> {
    match usize_of(s) {
        Some(v) => if v <= 65535 { Some(v as u16) } else { None },
        None => None,
    }
}

/// The port number that `s` writes, if it writes one.
pub fn parse_port(s: &str) -> (r: Option<u16>)
    ensures
        r == u16_of(s@),
{
    let cs = chars_of(s);
    assert(cs@.subrange(0, cs@.len() as int) == cs@);
    match parse_usize(&cs, 0, cs.len()) {
        Some(v) => if v <= 65535 { Some(v as u16) } else { None },
        None => None,
    }
}

/// Why a configuration could not be formed.
#[derive(Debug, Clone, Copy, PartialEq, Eq)]
pub enum ConfigError {
    /// A key that the configuration file must hold is absent.
    Missing,
    /// A port value is not a number from 0 to 65535.
    BadPort,
}

/// The port in force: the one set on the command line, else the file's.
pub open spec fn port_in_force(set: Option<u16>, from_file: Option<Seq<char>>) -> Result<u16, ConfigError> {
    match set {
        Some(p) => Ok(p),
        None => match from_file {
            None => Err(ConfigError::Missing),
            Some(t) => match u16_of(t) {
                Some(p) => Ok(p),
                None => Err(ConfigError::BadPort),
            },
        },
    }
}

pub open spec fn opt_view(o: Option<String>) -> Option<Seq<char>> {
    match o {
        Some(s) => Some(s@),
        None => None,
    }
}

fn choose_port(set: Option<u16>, from_file: &Option<String>) -> (r: Result<u16, ConfigError>)
    ensures
        r == port_in_force(set, opt_view(*from_file)),
{
    match set {
        Some(p) => Ok(p),
        None => match from_file {
            None => Err(ConfigError::Missing),
            Some(t) => match parse_port(t.as_str()) {
                Some(p) => Ok(p),
                None => Err(ConfigError::BadPort),
            },
        },
    }
}

impl PeerConfig {
    /// The local peer: the address of the configuration file's `peer-address`,
    /// and the port set on the command line or else its `peer-port`.
    pub fn new(o: &ConfigOverrides, peer_address: Option<String>, peer_port: Option<String>) -> (r:
        Result<PeerConfig, ConfigError>)
        ensures
            peer_address is None ==> r == Err::<PeerConfig, ConfigError>(ConfigError::Missing),
            peer_address matches Some(a) ==> match port_in_force(o.peer_port, opt_view(peer_port)) {
                Ok(p) => r matches Ok(c) && c@ == (PeerView { address: a@, port: p }),
                Err(e) => r == Err::<PeerConfig, ConfigError>(e),
            },
    {
        match peer_address {
            None => Err(ConfigError::Missing),
            Some(address) => match choose_port(o.peer_port, &peer_port) {
                Ok(port) => Ok(PeerConfig { address, port }),
                Err(e) => Err(e),
            },
        }
    }
}

impl TrackerConfig {
    /// The tracker: address and port as set on the command line, each else
    /// from the configuration file's `tracker-address` and `tracker-port`.
    pub fn new(o: &ConfigOverrides, tracker_address: Option<String>, tracker_port: Option<String>) -> (r:
        Result<TrackerConfig, ConfigError>)
        ensures
            ({
                let addr = match o.tracker_address {
                    Some(a) => Some(a@),
                    None => opt_view(tracker_address),
                };
                match addr {
                    None => r == Err::<TrackerConfig, ConfigError>(ConfigError::Missing),
                    Some(a) => match port_in_force(o.tracker_port, opt_view(tracker_port)) {
                        Ok(p) => r matches Ok(c) && c.address@ == a && c.port == p,
                        Err(e) => r == Err::<TrackerConfig, ConfigError>(e),
                    },
                }
            }),
    {
        let address = match &o.tracker_address {
            Some(a) => a.clone(),
            None => match tracker_address {
                Some(a) => a,
                None => {
                    return Err(ConfigError::Missing);
                },
            },
        };
        match choose_port(o.tracker_port, &tracker_port) {
            Ok(port) => Ok(TrackerConfig { address, port }),
            Err(e) => Err(e),
        }
    }
}

/// A character of a host name or of a dotted address.
pub open spec fn is_host_char(c: char) -> bool {
    crate::text::is_alnum(c) || c == '.' || c == '-'
}

pub open spec fn host_ok(s: Seq<char>) -> bool {
    s.len() > 0 && forall|i: int| 0 <= i < s.len() ==> is_host_char(#[trigger] s[i])
}

/// What a tracker given on the command line sets.
#[derive(Debug, Clone, PartialEq, Eq)]
pub enum TrackerArg {
    /// `host:port` or `ip:port`.
    AddressPort(String, u16),
    /// A port alone: digits only.
    Port(u16),
    /// `host` or `ip` alone.
    Address(String),
    /// None of these shapes.
    Invalid,
}

/// The reading of a tracker argument: `address:port`, else a port alone, else
/// an address alone. Addresses are made of letters, digits, `.` and `-`.
pub open spec fn tracker_arg_spec(s: Seq<char>) -> (Option<Seq<char>>, Option<u16>) {
    let c = crate::text::find(s, ':');
    if c < s.len() {
        let host = s.take(c as int);
        match u16_of(s.skip(c as int + 1)) {
            Some(p) => if host_ok(host) {
                (Some(host), Some(p))
            } else {
                (None, None)
            },
            None => (None, None),
        }
    } else if crate::text::all_digits(s) && s.len() > 0 {
        match u16_of(s) {
            Some(p) => (None, Some(p)),
            None => (None, None),
        }
    } else if host_ok(s) {
        (Some(s), None)
    } else {
        (None, None)
    }
}

pub open spec fn tracker_arg_view(a: TrackerArg) -> (Option<Seq<char>>, Option<u16>) {
    match a {
        TrackerArg::AddressPort(h, p) => (Some(h@), Some(p)),
        TrackerArg::Port(p) => (None, Some(p)),
        TrackerArg::Address(h) => (Some(h@), None),
        TrackerArg::Invalid => (None, None),
    }
}

fn host_range_ok(cs: &Vec<char>, lo: usize, hi: usize) -> (r: bool)
    requires
        lo <= hi <= cs@.len(),
    ensures
        r == host_ok(cs@.subrange(lo as int, hi as int)),
{
    if lo == hi {
        return false;
    }
    let mut i: usize = lo;
    while i < hi
        invariant
            lo <= i <= hi <= cs@.len(),
            forall|j: int| lo <= j < i ==> is_host_char(#[trigger] cs@[j]),
        decreases hi - i,
    {
        let c = cs[i];
        if !(('0' <= c && c <= '9') || ('a' <= c && c <= 'z') || ('A' <= c && c <= 'Z') || c == '.' || c == '-') {
            assert(cs@.subrange(lo as int, hi as int)[i - lo] == c);
            return false;
        }
        i = i + 1;
    }
    assert forall|j: int| 0 <= j < hi - lo implies is_host_char(#[trigger] cs@.subrange(lo as int, hi as int)[j]) by {
        assert(cs@.subrange(lo as int, hi as int)[j] == cs@[lo + j]);
    }
    true
}

fn digits_only(cs: &Vec<char>) -> (r: bool)
    ensures
        r == (crate::text::all_digits(cs@) && cs@.len() > 0),
{
    if cs.len() == 0 {
        return false;
    }
    let mut i: usize = 0;
    while i < cs.len()
        invariant
            i <= cs@.len(),
            forall|j: int| 0 <= j < i ==> crate::text::is_digit(#[trigger] cs@[j]),
        decreases cs@.len() - i,
    {
        let c = cs[i];
        if !('0' <= c && c <= '9') {
            return false;
        }
        i = i + 1;
    }
    true
}

/// Reads the tracker given on the command line.
pub fn parse_tracker_arg(s: &str) -> (r: TrackerArg)
    ensures
        tracker_arg_view(r) == tracker_arg_spec(s@),
{
    let cs = chars_of(s);
    assert(cs@.subrange(0, cs@.len() as int) == cs@);
    proof {
        crate::text::lemma_find(cs@, ':');
    }
    let c = crate::text::find_char(&cs, 0, cs.len(), ':');
    if c < cs.len() {
        assert(cs@.subrange(0, c as int) == cs@.take(c as int));
        assert(cs@.subrange(c + 1, cs@.len() as int) == cs@.skip(c + 1));
        let port = match parse_usize(&cs, c + 1, cs.len()) {
            Some(v) => if v <= 65535 {
                v as u16
            } else {
                return TrackerArg::Invalid;
            },
            None => {
                return TrackerArg::Invalid;
            },
        };
        if !host_range_ok(&cs, 0, c) {
            return TrackerArg::Invalid;
        }
        let host = crate::parser::string_of(&cs, 0, c);
        return TrackerArg::AddressPort(host, port);
    }
    if digits_only(&cs) {
        return match parse_usize(&cs, 0, cs.len()) {
            Some(v) => if v <= 65535 {
                TrackerArg::Port(v as u16)
            } else {
                TrackerArg::Invalid
            },
            None => TrackerArg::Invalid,
        };
    }
    if host_range_ok(&cs, 0, cs.len()) {
        return TrackerArg::Address(s.to_owned());
    }
    TrackerArg::Invalid
}

} // verus!
