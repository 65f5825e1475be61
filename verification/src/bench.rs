//! The load generator, without sockets and clocks: its settings and the stream of
//! requests that each connection sends.

use vstd::arithmetic::div_mod::{
    lemma_fundamental_div_mod, lemma_mod_multiples_vanish, lemma_mul_mod_noop_left, lemma_small_mod,
};
use vstd::prelude::*;
use vstd::utf8::encode_utf8;

use crate::client::{law_request_layout, request_payload};
use crate::common::{envelope, law_frame_layout, EncodeError, FrameKind};
use crate::text::{parse_unsigned, same_text, texts, unsigned};
use crate::utils::{OP_GET, OP_SET};
use crate::wire::{be_bytes, law_number_is_its_bytes, lemma_be_bytes_len, push_be};

verus! {

/// The generator's next state: three xor-shifts of the current one.
pub open spec fn xorshift_next(x: u64) -> u64 {
    let a = x ^ (x << 13);
    let b = a ^ (a >> 7);
    b ^ (b << 17)
}

/// Tiny deterministic generator (xorshift64), good enough to scatter keys across
/// shards.
pub fn xorshift(state: &mut u64) -> (r: u64)
    ensures
        r == xorshift_next(*old(state)),
        *final(state) == r,
{
    let mut x: u64 = *state;
    x = x ^ (x << 13);
    x = x ^ (x >> 7);
    x = x ^ (x << 17);
    *state = x;
    x
}

/// Appends one request frame to `buf`, which is not cleared. A key or a payload
/// that is longer than its length field can say is refused, and nothing is
/// appended.
pub fn encode_request(
    buf: &mut Vec<u8>,
    req_id: u32,
    op: u8,
    key: &[u8],
    value: &[u8],
) -> (r: Result<(), EncodeError>)
    ensures
        match r {
            Ok(()) => {
                &&& 3 + key@.len() + value@.len() <= u16::MAX
                &&& final(buf)@ == old(buf)@ + envelope(
                    FrameKind::Request.spec_code(),
                    req_id,
                    request_payload(op, key@, value@),
                )
            },
            Err(e) => {
                &&& 3 + key@.len() + value@.len() > u16::MAX
                &&& e == if key@.len() > u16::MAX {
                    EncodeError::KeyTooLong
                } else {
                    EncodeError::PayloadTooLong
                }
                &&& final(buf)@ == old(buf)@
            },
        },
{
    broadcast use lemma_be_bytes_len;

    if key.len() > 0xffff {
        return Err(EncodeError::KeyTooLong);
    }
    if value.len() > 0xffff || 3 + key.len() + value.len() > 0xffff {
        return Err(EncodeError::PayloadTooLong);
    }
    let payload_len: usize = 3 + key.len() + value.len();
    buf.push(FrameKind::Request.code());
    push_be(buf, req_id as u64, 4);
    push_be(buf, payload_len as u64, 2);
    buf.push(op);
    push_be(buf, key.len() as u64, 2);
    buf.extend_from_slice(key);
    buf.extend_from_slice(value);
    assert(buf@ =~= old(buf)@ + envelope(
        FrameKind::Request.spec_code(),
        req_id,
        request_payload(op, key@, value@),
    ));
    Ok(())
}

/// The settings of a run.
#[derive(Debug)]
pub struct Config {
    pub addr: String,
    pub connections: usize,
    /// In total, across all connections.
    pub requests: usize,
    pub value_size: usize,
    pub keyspace: u64,
    /// The fractions of GET among the operations that were asked for, as text.
    /// The last one counts.
    pub read_ratios: Vec<String>,
    /// How many requests are sent before their responses are read; one is the
    /// closed loop.
    pub pipeline: usize,
}

/// What a [`Config`] says.
#[verifier::ext_equal]
pub struct ConfigView {
    pub addr: Seq<char>,
    pub connections: usize,
    pub requests: usize,
    pub value_size: usize,
    pub keyspace: u64,
    pub read_ratios: Seq<Seq<char>>,
    pub pipeline: usize,
}

impl View for Config {
    type V = ConfigView;

    open spec fn view(&self) -> ConfigView {
        ConfigView {
            addr: self.addr@,
            connections: self.connections,
            requests: self.requests,
            value_size: self.value_size,
            keyspace: self.keyspace,
            read_ratios: texts(self.read_ratios@),
            pipeline: self.pipeline,
        }
    }
}

/// The settings where nothing is asked for.
pub open spec fn default_config() -> ConfigView {
    ConfigView {
        addr: "127.0.0.1:8383"@,
        connections: 64,
        requests: 100000,
        value_size: 64,
        keyspace: 100000,
        read_ratios: Seq::empty(),
        pipeline: 1,
    }
}

impl Default for Config {
    fn default() -> (cfg: Self)
        ensures
            cfg@ == default_config(),
    {
        let cfg = Config {
            addr: "127.0.0.1:8383".to_owned(),
            connections: 64,
            requests: 100_000,
            value_size: 64,
            keyspace: 100_000,
            read_ratios: Vec::new(),
            pipeline: 1,
        };
        assert(cfg@ =~= default_config());
        cfg
    }
}

/// How the arguments end.
#[derive(Debug)]
pub enum ArgsEnd {
    /// All of them are understood.
    Complete,
    /// Help is asked for.
    Help,
    /// The last flag lacks its value.
    MissingValue,
    /// The value of a flag is not the number it should be.
    BadNumber,
    /// There is no such flag.
    UnknownFlag(String),
}

/// What an [`ArgsEnd`] says.
pub enum ArgsEndView {
    Complete,
    Help,
    MissingValue,
    BadNumber,
    UnknownFlag(Seq<char>),
}

impl View for ArgsEnd {
    type V = ArgsEndView;

    open spec fn view(&self) -> ArgsEndView {
        match *self {
            ArgsEnd::Complete => ArgsEndView::Complete,
            ArgsEnd::Help => ArgsEndView::Help,
            ArgsEnd::MissingValue => ArgsEndView::MissingValue,
            ArgsEnd::BadNumber => ArgsEndView::BadNumber,
            ArgsEnd::UnknownFlag(flag) => ArgsEndView::UnknownFlag(flag@),
        }
    }
}

/// What a flag sets.
#[derive(Debug, Clone, Copy, PartialEq, Eq, Structural)]
pub enum Setting {
    Addr,
    Connections,
    Requests,
    ValueSize,
    Keyspace,
    ReadRatio,
    Pipeline,
}

/// The setting that a flag names, if it names one.
pub open spec fn setting_named(flag: Seq<char>) -> Option<Setting> {
    if flag == "--addr"@ {
        Some(Setting::Addr)
    } else if flag == "--connections"@ || flag == "-c"@ {
        Some(Setting::Connections)
    } else if flag == "--requests"@ || flag == "-n"@ {
        Some(Setting::Requests)
    } else if flag == "--value-size"@ {
        Some(Setting::ValueSize)
    } else if flag == "--keyspace"@ {
        Some(Setting::Keyspace)
    } else if flag == "--read-ratio"@ {
        Some(Setting::ReadRatio)
    } else if flag == "--pipeline"@ || flag == "-p"@ {
        Some(Setting::Pipeline)
    } else {
        None
    }
}

/// The number that an argument spells, up to `max`.
pub open spec fn number(text: Seq<char>, max: nat) -> Option<nat> {
    unsigned(encode_utf8(text), max)
}

impl ConfigView {
    /// The settings with one of them changed; none where `value` is not the number
    /// that it should be. A pipeline is at least one request deep.
    pub open spec fn with(self, setting: Setting, value: Seq<char>) -> Option<ConfigView> {
        match setting {
            Setting::Addr => Some(ConfigView { addr: value, ..self }),
            Setting::ReadRatio => Some(
                ConfigView { read_ratios: self.read_ratios.push(value), ..self },
            ),
            Setting::Connections => match number(value, usize::MAX as nat) {
                Some(n) => Some(ConfigView { connections: n as usize, ..self }),
                None => None,
            },
            Setting::Requests => match number(value, usize::MAX as nat) {
                Some(n) => Some(ConfigView { requests: n as usize, ..self }),
                None => None,
            },
            Setting::ValueSize => match number(value, usize::MAX as nat) {
                Some(n) => Some(ConfigView { value_size: n as usize, ..self }),
                None => None,
            },
            Setting::Keyspace => match number(value, u64::MAX as nat) {
                Some(n) => Some(ConfigView { keyspace: n as u64, ..self }),
                None => None,
            },
            Setting::Pipeline => match number(value, usize::MAX as nat) {
                Some(n) => Some(
                    ConfigView {
                        pipeline: if n == 0 {
                            1
                        } else {
                            n as usize
                        },
                        ..self
                    },
                ),
                None => None,
            },
        }
    }
}

/// What arguments make of the settings, and how they end. They are read in order,
/// up to the first that cannot be used.
pub open spec fn parsed_args(cfg: ConfigView, args: Seq<Seq<char>>) -> (ConfigView, ArgsEndView)
    decreases args.len(),
{
    if args.len() == 0 {
        (cfg, ArgsEndView::Complete)
    } else if args[0] == "-h"@ || args[0] == "--help"@ {
        (cfg, ArgsEndView::Help)
    } else {
        match setting_named(args[0]) {
            None => (cfg, ArgsEndView::UnknownFlag(args[0])),
            Some(setting) => if args.len() == 1 {
                (cfg, ArgsEndView::MissingValue)
            } else {
                match cfg.with(setting, args[1]) {
                    None => (cfg, ArgsEndView::BadNumber),
                    Some(next) => parsed_args(next, args.skip(2)),
                }
            },
        }
    }
}

/// The setting that a flag names, if it names one.
fn find_setting(flag: &String) -> (r: Option<Setting>)
    ensures
        r == setting_named(flag@),
{
    if same_text(flag, "--addr") {
        Some(Setting::Addr)
    } else if same_text(flag, "--connections") || same_text(flag, "-c") {
        Some(Setting::Connections)
    } else if same_text(flag, "--requests") || same_text(flag, "-n") {
        Some(Setting::Requests)
    } else if same_text(flag, "--value-size") {
        Some(Setting::ValueSize)
    } else if same_text(flag, "--keyspace") {
        Some(Setting::Keyspace)
    } else if same_text(flag, "--read-ratio") {
        Some(Setting::ReadRatio)
    } else if same_text(flag, "--pipeline") || same_text(flag, "-p") {
        Some(Setting::Pipeline)
    } else {
        None
    }
}

/// The number that an argument spells, where it fits a `usize`.
fn parse_size(text: &String) -> (r: Option<usize>)
    ensures
        match r {
            Some(n) => number(text@, usize::MAX as nat) == Some(n as nat),
            None => number(text@, usize::MAX as nat) is None,
        },
{
    match parse_unsigned(text.as_str().as_bytes(), usize::MAX as u64) {
        Some(n) => Some(n as usize),
        None => None,
    }
}

impl Config {
    /// Changes one setting; nothing where `value` is not the number that it should
    /// be.
    pub fn apply(&mut self, setting: Setting, value: &String) -> (ok: bool)
        ensures
            match old(self)@.with(setting, value@) {
                Some(next) => ok && final(self)@ == next,
                None => !ok && final(self)@ == old(self)@,
            },
    {
        match setting {
            Setting::Addr => {
                self.addr = value.clone();
            },
            Setting::ReadRatio => {
                let ghost before = self.read_ratios@;
                self.read_ratios.push(value.clone());
                assert(texts(self.read_ratios@) =~= texts(before).push(value@));
            },
            Setting::Connections => match parse_size(value) {
                Some(n) => {
                    self.connections = n;
                },
                None => {
                    return false;
                },
            },
            Setting::Requests => match parse_size(value) {
                Some(n) => {
                    self.requests = n;
                },
                None => {
                    return false;
                },
            },
            Setting::ValueSize => match parse_size(value) {
                Some(n) => {
                    self.value_size = n;
                },
                None => {
                    return false;
                },
            },
            Setting::Keyspace => match parse_unsigned(value.as_str().as_bytes(), u64::MAX) {
                Some(n) => {
                    self.keyspace = n;
                },
                None => {
                    return false;
                },
            },
            Setting::Pipeline => match parse_size(value) {
                Some(n) => {
                    self.pipeline = if n == 0 {
                        1
                    } else {
                        n
                    };
                },
                None => {
                    return false;
                },
            },
        }
        true
    }
}

/// Reads the arguments of a run, in order, up to the first that cannot be used.
pub fn parse_args(args: &Vec<String>) -> (r: (Config, ArgsEnd))
    ensures
        (r.0@, r.1@) == parsed_args(default_config(), texts(args@)),
{
    let mut cfg: Config = Config::default();
    let mut i: usize = 0;
    let ghost all = texts(args@);
    assert(all.skip(0) =~= all);
    while i < args.len()
        invariant
            i <= args@.len(),
            all == texts(args@),
            parsed_args(default_config(), all) == parsed_args(cfg@, all.skip(i as int)),
        decreases args.len() - i,
    {
        let flag: &String = &args[i];
        let ghost rest = all.skip(i as int);
        assert(rest[0] == flag@);
        if same_text(flag, "-h") || same_text(flag, "--help") {
            return (cfg, ArgsEnd::Help);
        }
        match find_setting(flag) {
            None => {
                return (cfg, ArgsEnd::UnknownFlag(flag.clone()));
            },
            Some(setting) => {
                if args.len() - i == 1 {
                    return (cfg, ArgsEnd::MissingValue);
                }
                let value: &String = &args[i + 1];
                assert(rest[1] == value@);
                if !cfg.apply(setting, value) {
                    return (cfg, ArgsEnd::BadNumber);
                }
                assert(rest.skip(2) =~= all.skip(i + 2));
                i = i + 2;
            },
        }
    }
    assert(all.skip(i as int) =~= Seq::empty());
    (cfg, ArgsEnd::Complete)
}

/// How many operations each connection runs, and all of them together: the
/// requests are split evenly, and what is left over is not run.
pub fn split_evenly(requests: usize, connections: usize) -> (r: (usize, usize))
    requires
        connections > 0,
    ensures
        r.0 == requests / connections,
        r.1 == r.0 * connections,
        r.1 <= requests < r.1 + connections,
{
    let per_conn: usize = requests / connections;
    proof {
        lemma_fundamental_div_mod(requests as int, connections as int);
        assert(per_conn * connections == connections * per_conn) by (nonlinear_arith);
    }
    (per_conn, per_conn * connections)
}

/// How many requests go into the next batch: as many as the pipeline is deep, or
/// as are left.
pub fn next_batch(depth: usize, ops: usize, sent: usize) -> (n: usize)
    requires
        sent <= ops,
    ensures
        n == vstd::math::min(vstd::math::max(depth as int, 1), ops - sent),
        n > 0 <==> sent < ops,
{
    let deep: usize = if depth == 0 {
        1
    } else {
        depth
    };
    if deep < ops - sent {
        deep
    } else {
        ops - sent
    }
}

/// The seed of the first connection.
pub const SEED_BASE: u64 = 0x9E3779B97F4A7C15;

/// What the number of a connection is multiplied by, to scatter the seeds.
pub const SEED_FACTOR: u64 = 0xD1B54A32D192ED03;

/// The seed of a connection.
pub open spec fn seed_of(conn_id: usize) -> u64 {
    SEED_BASE ^ (conn_id as u64).wrapping_mul(SEED_FACTOR)
}

/// What a request is made of besides the generator's state: how many keys there
/// are, below which draw a request is a GET, and the value of a SET.
pub struct Mix {
    pub keyspace: u64,
    pub read_threshold: u64,
    pub value: Vec<u8>,
}

/// Where a connection stands in its stream of requests.
#[derive(Debug, Clone, Copy, PartialEq, Eq, Structural)]
pub struct Load {
    pub rng: u64,
    pub req_id: u32,
}

impl Load {
    /// Where the stream stands after one request: two draws and one id further.
    pub open spec fn after_one(self) -> Load {
        Load {
            rng: xorshift_next(xorshift_next(self.rng)),
            req_id: self.req_id.wrapping_add(1),
        }
    }

    /// The payload of the next request: the first draw picks the key, the second
    /// whether it is a GET or a SET.
    pub open spec fn payload(self, mix: Mix) -> Seq<u8> {
        let draw = xorshift_next(self.rng);
        let key = be_bytes((draw % mix.keyspace) as nat, 8);
        if xorshift_next(draw) < mix.read_threshold {
            request_payload(OP_GET, key, Seq::empty())
        } else {
            request_payload(OP_SET, key, mix.value@)
        }
    }

    /// The next request, as it goes over the wire.
    pub open spec fn one(self, mix: Mix) -> Seq<u8> {
        envelope(
            FrameKind::Request.spec_code(),
            self.req_id.wrapping_add(1),
            self.payload(mix),
        )
    }

    /// Whether each of the next `n` requests fits a frame.
    pub open spec fn fits(self, mix: Mix, n: nat) -> bool
        decreases n,
    {
        n == 0 || {
            &&& self.fits(mix, (n - 1) as nat)
            &&& self.after((n - 1) as nat).payload(mix).len() <= u16::MAX
        }
    }

    /// Where the stream stands after `n` requests.
    pub open spec fn after(self, n: nat) -> Load
        decreases n,
    {
        if n == 0 {
            self
        } else {
            self.after((n - 1) as nat).after_one()
        }
    }

    /// The next `n` requests.
    pub open spec fn stream(self, mix: Mix, n: nat) -> Seq<u8>
        decreases n,
    {
        if n == 0 {
            Seq::empty()
        } else {
            self.stream(mix, (n - 1) as nat) + self.after((n - 1) as nat).one(mix)
        }
    }

    /// The start of a connection's stream. Each has its own seed, so that they do
    /// not all hit the same keys in lockstep.
    pub fn new(conn_id: usize) -> (r: Self)
        ensures
            r == (Load { rng: seed_of(conn_id), req_id: 0 }),
    {
        Load { rng: SEED_BASE ^ (conn_id as u64).wrapping_mul(SEED_FACTOR), req_id: 0 }
    }

    /// Fills `buf` with the next `batch` requests, in place of what it held. Where
    /// one of them does not fit a frame, `buf` is left empty and the stream where
    /// it stood.
    pub fn fill(&mut self, mix: &Mix, batch: usize, buf: &mut Vec<u8>) -> (r: Result<
        (),
        EncodeError,
    >)
        requires
            mix.keyspace > 0,
        ensures
            match r {
                Ok(()) => {
                    &&& old(self).fits(*mix, batch as nat)
                    &&& final(buf)@ == old(self).stream(*mix, batch as nat)
                    &&& *final(self) == old(self).after(batch as nat)
                },
                Err(e) => {
                    &&& !old(self).fits(*mix, batch as nat)
                    &&& e == EncodeError::PayloadTooLong
                    &&& final(buf)@ == Seq::<u8>::empty()
                    &&& *final(self) == *old(self)
                },
            },
    {
        let start: Load = *self;
        buf.clear();
        for i in 0..batch
            invariant
                mix.keyspace > 0,
                start == *old(self),
                start.fits(*mix, i as nat),
                buf@ == start.stream(*mix, i as nat),
                *self == start.after(i as nat),
        {
            let ghost before = *self;
            let draw: u64 = xorshift(&mut self.rng);
            let mut key: Vec<u8> = Vec::new();
            push_be(&mut key, draw % mix.keyspace, 8);
            assert(key@ =~= be_bytes((draw % mix.keyspace) as nat, 8));
            proof {
                lemma_be_bytes_len((draw % mix.keyspace) as nat, 8);
                lemma_be_bytes_len(key@.len(), 2);
            }
            self.req_id = self.req_id.wrapping_add(1);
            let done = if xorshift(&mut self.rng) < mix.read_threshold {
                let none: Vec<u8> = Vec::new();
                assert(none@ =~= Seq::<u8>::empty());
                encode_request(buf, self.req_id, OP_GET, key.as_slice(), none.as_slice())
            } else {
                encode_request(buf, self.req_id, OP_SET, key.as_slice(), mix.value.as_slice())
            };
            match done {
                Ok(()) => {},
                Err(e) => {
                    assert(before.payload(*mix).len() > u16::MAX);
                    proof {
                        start.lemma_fits_less(*mix, (i + 1) as nat, batch as nat);
                    }
                    buf.clear();
                    *self = start;
                    return Err(e);
                },
            }
            assert(*self == before.after_one());
            assert(buf@ == start.stream(*mix, i as nat) + before.one(*mix));
        }
        Ok(())
    }

    /// Where more requests fit, fewer do.
    proof fn lemma_fits_less(self, mix: Mix, a: nat, b: nat)
        requires
            a <= b,
        ensures
            self.fits(mix, b) ==> self.fits(mix, a),
        decreases b,
    {
        if a < b {
            self.lemma_fits_less(mix, a, (b - 1) as nat);
        }
    }
}

/// How deep the pipeline is makes no difference to what is sent: two batches are
/// one batch of both.
pub proof fn law_batches_concatenate(load: Load, mix: Mix, a: nat, b: nat)
    ensures
        load.after(a + b) == load.after(a).after(b),
        load.stream(mix, a + b) == load.stream(mix, a) + load.after(a).stream(mix, b),
    decreases b,
{
    if b == 0 {
        assert(load.stream(mix, a) + Seq::<u8>::empty() =~= load.stream(mix, a));
    } else {
        law_batches_concatenate(load, mix, a, (b - 1) as nat);
        assert(load.stream(mix, a + b) =~= load.stream(mix, a) + load.after(a).stream(mix, b));
    }
}

/// A value of up to 65524 bytes is never refused: every request of the stream
/// fits a frame.
pub proof fn law_short_values_fit(load: Load, mix: Mix, n: nat)
    requires
        11 + mix.value@.len() <= u16::MAX,
    ensures
        load.fits(mix, n),
    decreases n,
{
    if n > 0 {
        law_short_values_fit(load, mix, (n - 1) as nat);
        let at = load.after((n - 1) as nat);
        let key = be_bytes((xorshift_next(at.rng) % mix.keyspace) as nat, 8);
        lemma_be_bytes_len((xorshift_next(at.rng) % mix.keyspace) as nat, 8);
        lemma_be_bytes_len(key.len(), 2);
    }
}

/// No two connections share a seed.
pub proof fn law_seeds_differ(a: usize, b: usize)
    requires
        a != b,
    ensures
        seed_of(a) != seed_of(b),
{
    let x: u64 = (a as u64).wrapping_mul(SEED_FACTOR);
    let y: u64 = (b as u64).wrapping_mul(SEED_FACTOR);
    if x == y {
        lemma_unscattered(a as u64);
        lemma_unscattered(b as u64);
    }
    let base: u64 = SEED_BASE;
    assert(x != y ==> base ^ x != base ^ y) by (bit_vector);
}

/// What undoes a multiplication by [`SEED_FACTOR`] modulo two to the 64th.
const SEED_INVERSE: u64 = 0x06106CCFA448E5AB;

/// How often two to the 64th goes into the product of factor and inverse.
const SEED_QUOTIENT: u64 = 357952832567956711;

/// Multiplying by the inverse of the factor takes the factor out again.
proof fn lemma_unscattered(a: u64)
    ensures
        (a.wrapping_mul(SEED_FACTOR) * SEED_INVERSE) % 0x1_0000_0000_0000_0000 == a,
{
    let m: int = 0x1_0000_0000_0000_0000;
    let f: int = SEED_FACTOR as int;
    let g: int = SEED_INVERSE as int;
    let q: int = SEED_QUOTIENT as int;
    lemma_mul_mod_noop_left(a * f, g, m);
    assert((a * f) * g == m * (a * q) + a) by (nonlinear_arith)
        requires
            f * g == m * q + 1,
    ;
    lemma_mod_multiples_vanish(a * q, a as int, m);
    lemma_small_mod(a as nat, m as nat);
}

/// One draw: each of the three shifts is folded into the number in turn.
pub proof fn law_draw_folds_three_shifts(x: u64, a: u64, b: u64)
    requires
        a == x ^ (x << 13),
        b == a ^ (a >> 7),
    ensures
        xorshift_next(x) == b ^ (b << 17),
{
}

/// The generator is linear: the draw after a sum without carry is the sum without
/// carry of the draws.
pub proof fn law_draws_are_linear(x: u64, y: u64)
    ensures
        xorshift_next(x ^ y) == xorshift_next(x) ^ xorshift_next(y),
{
    assert(({
        let a = (x ^ y) ^ ((x ^ y) << 13);
        let b = a ^ (a >> 7);
        b ^ (b << 17)
    }) == ({
        let a = x ^ (x << 13);
        let b = a ^ (a >> 7);
        b ^ (b << 17)
    }) ^ ({
        let a = y ^ (y << 13);
        let b = a ^ (a >> 7);
        b ^ (b << 17)
    })) by (bit_vector);
}

/// Every number is drawn at some time: it follows some other.
pub proof fn law_every_number_is_drawn(y: u64) -> (x: u64)
    ensures
        xorshift_next(x) == y,
{
    let b: u64 = y ^ (y << 17) ^ (y << 34) ^ (y << 51);
    assert(b ^ (b << 17) == y) by (bit_vector)
        requires
            b == y ^ (y << 17) ^ (y << 34) ^ (y << 51),
    ;
    let a: u64 = b ^ (b >> 7) ^ (b >> 14) ^ (b >> 21) ^ (b >> 28) ^ (b >> 35) ^ (b >> 42) ^ (b
        >> 49) ^ (b >> 56) ^ (b >> 63);
    assert(a ^ (a >> 7) == b) by (bit_vector)
        requires
            a == b ^ (b >> 7) ^ (b >> 14) ^ (b >> 21) ^ (b >> 28) ^ (b >> 35) ^ (b >> 42) ^ (b
                >> 49) ^ (b >> 56) ^ (b >> 63),
    ;
    let x: u64 = a ^ (a << 13) ^ (a << 26) ^ (a << 39) ^ (a << 52);
    assert(x ^ (x << 13) == a) by (bit_vector)
        requires
            x == a ^ (a << 13) ^ (a << 26) ^ (a << 39) ^ (a << 52),
    ;
    x
}

/// A request of the stream: a frame under the next id, with an eight-byte key that
/// is the remainder of the first draw by the whole keyspace. Below the threshold
/// the second draw makes it a GET, and otherwise a SET of the value.
pub proof fn law_request_of_the_stream(load: Load, mix: Mix)
    requires
        mix.keyspace > 0,
        11 + mix.value@.len() <= 65535,
    ensures
        ({
            let s = load.stream(mix, 1);
            let first = xorshift_next(load.rng);
            let second = xorshift_next(first);
            let id = if load.req_id == u32::MAX {
                0
            } else {
                load.req_id + 1
            };
            let value = if second < mix.read_threshold {
                Seq::<u8>::empty()
            } else {
                mix.value@
            };
            &&& s.len() == 18 + value.len()
            &&& s[0] == 3
            &&& s[1] * 0x100_0000 + s[2] * 0x1_0000 + s[3] * 0x100 + s[4] == id
            &&& s[5] * 0x100 + s[6] == 11 + value.len()
            &&& s[7] == if second < mix.read_threshold {
                1
            } else {
                2int
            }
            &&& s[8] * 0x100 + s[9] == 8
            &&& s[10] * 0x100_0000_0000_0000 + s[11] * 0x1_0000_0000_0000 + s[12] * 0x100_0000_0000
                + s[13] * 0x1_0000_0000 + s[14] * 0x100_0000 + s[15] * 0x1_0000 + s[16] * 0x100
                + s[17] == first % mix.keyspace
            &&& s.skip(18) == value
        }),
{
    let s = load.stream(mix, 1);
    let first = xorshift_next(load.rng);
    let second = xorshift_next(first);
    let k = (first % mix.keyspace) as nat;
    let key = be_bytes(k, 8);
    let op = if second < mix.read_threshold {
        OP_GET
    } else {
        OP_SET
    };
    let value = if second < mix.read_threshold {
        Seq::<u8>::empty()
    } else {
        mix.value@
    };
    let p = request_payload(op, key, value);
    let id = load.req_id.wrapping_add(1);
    law_number_is_its_bytes(k);
    law_request_layout(op, key, value);
    law_frame_layout(FrameKind::Request.spec_code(), id, p);
    let f = envelope(FrameKind::Request.spec_code(), id, p);
    assert(load.after(0) == load);
    assert(load.stream(mix, 0) =~= Seq::<u8>::empty());
    assert(s == load.stream(mix, 0) + load.one(mix));
    assert(s =~= f);
    assert(f.skip(7) == p);
    assert forall|i: int| 0 <= i < p.len() implies f[7 + i] == #[trigger] p[i] by {
        assert(f.skip(7)[i] == p[i]);
    }
    assert(f[7] == p[0] && f[8] == p[1] && f[9] == p[2]);
    assert forall|i: int| 0 <= i < 8 implies f[10 + i] == #[trigger] key[i] by {
        assert(p.subrange(3, 11)[i] == key[i]);
        assert(p[3 + i] == key[i]);
    }
    assert(f[10] == key[0] && f[11] == key[1] && f[12] == key[2] && f[13] == key[3] && f[14]
        == key[4] && f[15] == key[5] && f[16] == key[6] && f[17] == key[7]);
    assert(f.skip(18) =~= p.skip(11));
}

/// Every key of the keyspace is asked for: some state of the generator leads to a
/// request for it.
pub proof fn law_every_key_is_asked_for(mix: Mix, key: u64) -> (load: Load)
    requires
        key < mix.keyspace,
        11 + mix.value@.len() <= 65535,
    ensures
        ({
            let s = load.stream(mix, 1);
            s[10] * 0x100_0000_0000_0000 + s[11] * 0x1_0000_0000_0000 + s[12] * 0x100_0000_0000
                + s[13] * 0x1_0000_0000 + s[14] * 0x100_0000 + s[15] * 0x1_0000 + s[16] * 0x100
                + s[17] == key
        }),
{
    let rng = law_every_number_is_drawn(key);
    let load = Load { rng, req_id: 0 };
    law_request_of_the_stream(load, mix);
    lemma_small_mod(key as nat, mix.keyspace as nat);
    load
}

/// The stream moves on by two draws and one id for each request.
pub proof fn law_stream_moves_on(load: Load, mix: Mix)
    ensures
        load.after(0) == load,
        load.after(1).rng == xorshift_next(xorshift_next(load.rng)),
        load.after(1).req_id == if load.req_id == u32::MAX {
            0
        } else {
            load.req_id + 1
        },
        load.stream(mix, 0).len() == 0,
{
    assert(load.after(0) == load);
    assert(load.after(1) == load.after(0).after_one());
}

/// Whether requests fit: a GET always does, a SET if its value is not too long, and
/// a number of them if each does.
pub proof fn law_what_fits(load: Load, mix: Mix, a: nat, b: nat)
    ensures
        load.fits(mix, 0),
        ({
            let get = xorshift_next(xorshift_next(load.rng)) < mix.read_threshold;
            load.fits(mix, 1) <==> get || 11 + mix.value@.len() <= 65535
        }),
        load.fits(mix, a + b) <==> load.fits(mix, a) && load.after(a).fits(mix, b),
    decreases b,
{
    let key = be_bytes((xorshift_next(load.rng) % mix.keyspace) as nat, 8);
    lemma_be_bytes_len((xorshift_next(load.rng) % mix.keyspace) as nat, 8);
    lemma_be_bytes_len(key.len(), 2);
    assert(load.after(0) == load);
    assert(load.fits(mix, 0));
    assert(load.fits(mix, 1) <==> load.payload(mix).len() <= u16::MAX);
    if b > 0 {
        law_what_fits(load, mix, a, (b - 1) as nat);
        law_batches_concatenate(load, mix, a, (b - 1) as nat);
        assert(a + b - 1 == a + (b - 1));
    }
}

/// The seed of a connection is its number, scattered by a multiplication modulo
/// two to the 64th, on top of the seed of the first.
pub proof fn law_seed_is_scattered(conn_id: usize)
    ensures
        seed_of(0) == 0x9E3779B97F4A7C15,
        seed_of(conn_id) ^ 0x9E3779B97F4A7C15u64 == (conn_id as u64 * 0xD1B54A32D192ED03u64)
            % 0x1_0000_0000_0000_0000,
{
    let x: u64 = (conn_id as u64).wrapping_mul(SEED_FACTOR);
    let base: u64 = SEED_BASE;
    assert((base ^ x) ^ base == x) by (bit_vector);
    assert(0u64.wrapping_mul(SEED_FACTOR) == 0);
    assert(base ^ 0u64 == base) by (bit_vector);
}

/// The settings where nothing is asked for.
pub proof fn law_defaults()
    ensures
        default_config().addr == "127.0.0.1:8383"@,
        default_config().connections == 64,
        default_config().requests == 100000,
        default_config().value_size == 64,
        default_config().keyspace == 100000,
        default_config().read_ratios.len() == 0,
        default_config().pipeline == 1,
{
}

/// The flags, each with what it sets; no other text is a flag.
pub proof fn law_flags(flag: Seq<char>)
    ensures
        setting_named(flag) == Some(Setting::Addr) <==> flag == "--addr"@,
        setting_named(flag) == Some(Setting::Connections) <==> flag == "--connections"@ || flag
            == "-c"@,
        setting_named(flag) == Some(Setting::Requests) <==> flag == "--requests"@ || flag == "-n"@,
        setting_named(flag) == Some(Setting::ValueSize) <==> flag == "--value-size"@,
        setting_named(flag) == Some(Setting::Keyspace) <==> flag == "--keyspace"@,
        setting_named(flag) == Some(Setting::ReadRatio) <==> flag == "--read-ratio"@,
        setting_named(flag) == Some(Setting::Pipeline) <==> flag == "--pipeline"@ || flag == "-p"@,
{
    reveal_strlit("--addr");
    reveal_strlit("--connections");
    reveal_strlit("-c");
    reveal_strlit("--requests");
    reveal_strlit("-n");
    reveal_strlit("--value-size");
    reveal_strlit("--keyspace");
    reveal_strlit("--read-ratio");
    reveal_strlit("--pipeline");
    reveal_strlit("-p");
    assert("--addr"@.len() == 6 && "--connections"@.len() == 13 && "-c"@.len() == 2);
    assert("--requests"@.len() == 10 && "-n"@.len() == 2 && "--value-size"@.len() == 12);
    assert("--keyspace"@.len() == 10 && "--read-ratio"@.len() == 12 && "--pipeline"@.len() == 10);
    assert("-p"@.len() == 2);
    assert("-c"@[1] == 'c' && "-n"@[1] == 'n' && "-p"@[1] == 'p');
    assert("--requests"@[2] == 'r' && "--keyspace"@[2] == 'k' && "--pipeline"@[2] == 'p');
    assert("--value-size"@[2] == 'v' && "--read-ratio"@[2] == 'r');
}

/// A flag changes the one setting that it names, to the text or the number that is
/// given, and leaves all others; a pipeline is at least one deep.
pub proof fn law_flag_changes_one_setting(cfg: ConfigView, value: Seq<char>)
    ensures
        cfg.with(Setting::Addr, value) == Some(ConfigView { addr: value, ..cfg }),
        cfg.with(Setting::ReadRatio, value) == Some(
            ConfigView { read_ratios: cfg.read_ratios.push(value), ..cfg },
        ),
        match unsigned(encode_utf8(value), usize::MAX as nat) {
            Some(n) => {
                &&& cfg.with(Setting::Connections, value) == Some(
                    ConfigView { connections: n as usize, ..cfg },
                )
                &&& cfg.with(Setting::Requests, value) == Some(
                    ConfigView { requests: n as usize, ..cfg },
                )
                &&& cfg.with(Setting::ValueSize, value) == Some(
                    ConfigView { value_size: n as usize, ..cfg },
                )
                &&& n > 0 ==> cfg.with(Setting::Pipeline, value) == Some(
                    ConfigView { pipeline: n as usize, ..cfg },
                )
                &&& n == 0 ==> cfg.with(Setting::Pipeline, value) == Some(
                    ConfigView { pipeline: 1, ..cfg },
                )
            },
            None => {
                &&& cfg.with(Setting::Connections, value) is None
                &&& cfg.with(Setting::Requests, value) is None
                &&& cfg.with(Setting::ValueSize, value) is None
                &&& cfg.with(Setting::Pipeline, value) is None
            },
        },
        match unsigned(encode_utf8(value), u64::MAX as nat) {
            Some(n) => cfg.with(Setting::Keyspace, value) == Some(
                ConfigView { keyspace: n as u64, ..cfg },
            ),
            None => cfg.with(Setting::Keyspace, value) is None,
        },
{
}

/// Arguments are read from the first on: a flag with its value and then the rest,
/// up to a request for help, an unknown flag, a flag without a value or one with a
/// bad number.
pub proof fn law_arguments_in_order(
    cfg: ConfigView,
    flag: Seq<char>,
    value: Seq<char>,
    rest: Seq<Seq<char>>,
)
    ensures
        parsed_args(cfg, Seq::empty()) == (cfg, ArgsEndView::Complete),
        flag == "-h"@ || flag == "--help"@ ==> parsed_args(cfg, seq![flag] + rest) == (
            cfg,
            ArgsEndView::Help,
        ),
        flag != "-h"@ && flag != "--help"@ && setting_named(flag) is None ==> parsed_args(
            cfg,
            seq![flag] + rest,
        ) == (cfg, ArgsEndView::UnknownFlag(flag)),
        flag != "-h"@ && flag != "--help"@ && setting_named(flag) is Some ==> {
            &&& parsed_args(cfg, seq![flag]) == (cfg, ArgsEndView::MissingValue)
            &&& match cfg.with(setting_named(flag)->0, value) {
                Some(next) => parsed_args(cfg, seq![flag, value] + rest) == parsed_args(next, rest),
                None => parsed_args(cfg, seq![flag, value] + rest) == (
                    cfg,
                    ArgsEndView::BadNumber,
                ),
            }
        },
{
    assert((seq![flag] + rest)[0] == flag);
    assert((seq![flag, value] + rest)[0] == flag);
    assert((seq![flag, value] + rest)[1] == value);
    assert((seq![flag, value] + rest).skip(2) =~= rest);
}

/// What the contracts say of settings and arguments is what they hold.
pub proof fn law_settings_are_what_they_hold(cfg: Config, flag: String)
    ensures
        cfg@.addr == cfg.addr@,
        cfg@.connections == cfg.connections,
        cfg@.requests == cfg.requests,
        cfg@.value_size == cfg.value_size,
        cfg@.keyspace == cfg.keyspace,
        cfg@.read_ratios == texts(cfg.read_ratios@),
        cfg@.pipeline == cfg.pipeline,
        ArgsEnd::Complete@ == ArgsEndView::Complete,
        ArgsEnd::Help@ == ArgsEndView::Help,
        ArgsEnd::MissingValue@ == ArgsEndView::MissingValue,
        ArgsEnd::BadNumber@ == ArgsEndView::BadNumber,
        ArgsEnd::UnknownFlag(flag)@ == ArgsEndView::UnknownFlag(flag@),
{
}

} // verus!
