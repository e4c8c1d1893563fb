//! The settings fixed for the life of the process, with their defaults.
use vstd::prelude::*;
use vstd::utf8::encode_utf8;

verus! {

/// Whether every byte is an ASCII digit.
pub open spec fn all_digits(b: Seq<u8>) -> bool {
    forall|i: int| 0 <= i < b.len() ==> 48 <= #[trigger] b[i] <= 57
}

/// The number that a string of ASCII digits writes in base ten.
pub open spec fn decimal_value(b: Seq<u8>) -> nat
    decreases b.len(),
{
    if b.len() == 0 {
        0
    } else {
        decimal_value(b.drop_last()) * 10 + (b.last() - 48) as nat
    }
}

/// Why the settings cannot be used.
#[derive(PartialEq, Eq, Structural, Clone, Copy, Debug)]
pub enum ConfigError {
    /// The interval is not a whole number of seconds that fits in 64 bits.
    InvalidInterval,
    /// The registry address is not an http:// or https:// URL.
    InvalidAddress,
}

/// The interval in seconds written in `s`.
pub fn parse_interval(s: &str) -> (r: Result<u64, ConfigError>)
    ensures
        ({
            let b = encode_utf8(s@);
            &&& r is Ok <==> b.len() > 0 && all_digits(b) && decimal_value(b) <= u64::MAX
            &&& r is Ok ==> r->Ok_0 == decimal_value(b)
            &&& r is Err ==> r->Err_0 == ConfigError::InvalidInterval
        }),
{
    let b = s.as_bytes();
    let ghost bs = b@;
    if b.len() == 0 {
        return Err(ConfigError::InvalidInterval);
    }
    let mut v: u64 = 0;
    let mut i: usize = 0;
    while i < b.len()
        invariant
            b@ == bs,
            bs == encode_utf8(s@),
            i <= bs.len(),
            all_digits(bs.take(i as int)),
            v == decimal_value(bs.take(i as int)),
        decreases bs.len() - i,
    {
        assert(bs.take(i + 1).drop_last() =~= bs.take(i as int));
        let c = b[i];
        if c < 48 || c > 57 {
            return Err(ConfigError::InvalidInterval);
        }
        let d = (c - 48) as u64;
        if v > (u64::MAX - d) / 10 {
            proof {
                assert(decimal_value(bs.take(i + 1)) > u64::MAX) by (nonlinear_arith)
                    requires
                        decimal_value(bs.take(i + 1)) == v * 10 + d,
                        v > (u64::MAX - d) / 10,
                        d <= 9,
                ;
                if all_digits(bs) {
                    lemma_value_grows(bs, i as int + 1);
                }
            }
            return Err(ConfigError::InvalidInterval);
        }
        assert(v * 10 + d <= u64::MAX) by (nonlinear_arith)
            requires
                v <= (u64::MAX - d) / 10,
                d <= 9,
        ;
        v = v * 10 + d;
        i = i + 1;
    }
    assert(bs.take(bs.len() as int) =~= bs);
    Ok(v)
}

/// A longer string of digits writes no smaller a number.
proof fn lemma_value_grows(b: Seq<u8>, n: int)
    requires
        0 <= n <= b.len(),
        all_digits(b),
    ensures
        decimal_value(b.take(n)) <= decimal_value(b),
    decreases b.len() - n,
{
    if n < b.len() {
        lemma_value_grows(b, n + 1);
        assert(b.take(n + 1).drop_last() =~= b.take(n));
    } else {
        assert(b.take(n) =~= b);
    }
}

/// The bytes of `http://`.
pub open spec fn http_scheme() -> Seq<u8> {
    seq![104u8, 116u8, 116u8, 112u8, 58u8, 47u8, 47u8]
}

/// The bytes of `https://`.
pub open spec fn https_scheme() -> Seq<u8> {
    seq![104u8, 116u8, 116u8, 112u8, 115u8, 58u8, 47u8, 47u8]
}

/// Whether a registry address names a scheme the client speaks and
/// something after it.
pub open spec fn address_well_formed(b: Seq<u8>) -> bool {
    ||| b.len() > 7 && b.take(7) == http_scheme()
    ||| b.len() > 8 && b.take(8) == https_scheme()
}

/// Whether the bytes of `b` start with `p` and go on after it.
fn starts_strictly_with(b: &[u8], p: &[u8]) -> (r: bool)
    ensures
        r == (b@.len() > p@.len() && b@.take(p@.len() as int) == p@),
{
    if b.len() <= p.len() {
        return false;
    }
    let mut i: usize = 0;
    while i < p.len()
        invariant
            i <= p@.len() < b@.len(),
            b@.take(i as int) == p@.take(i as int),
        decreases p@.len() - i,
    {
        if b[i] != p[i] {
            assert(b@.take(p@.len() as int)[i as int] != p@[i as int]);
            return false;
        }
        assert(b@.take(i + 1) =~= b@.take(i as int).push(b@[i as int]));
        assert(p@.take(i + 1) =~= p@.take(i as int).push(p@[i as int]));
        i = i + 1;
    }
    assert(p@.take(p@.len() as int) =~= p@);
    true
}

/// Whether `s` is a registry address that the client can use.
pub fn check_address(s: &str) -> (r: bool)
    ensures
        r == address_well_formed(encode_utf8(s@)),
{
    let http: [u8; 7] = [104, 116, 116, 112, 58, 47, 47];
    let https: [u8; 8] = [104, 116, 116, 112, 115, 58, 47, 47];
    assert(http@ =~= http_scheme());
    assert(https@ =~= https_scheme());
    let b = s.as_bytes();
    starts_strictly_with(b, http.as_slice()) || starts_strictly_with(b, https.as_slice())
}

/// The settings of the process.
pub struct Config {
    /// Path of the template.
    pub template: String,
    /// Path reserved for the rendered output.
    pub output: String,
    /// The tag that healthy instances must carry.
    pub tags: String,
    /// Base URL of the registry's HTTP interface.
    pub address: String,
    /// Seconds between passes.
    pub interval_secs: u64,
}

/// The value given, or the default when none was.
pub open spec fn or_default(given: Option<String>, default: Seq<char>) -> Seq<char> {
    match given {
        Some(v) => v@,
        None => default,
    }
}

impl Config {
    /// The settings from the options given, each missing one taking its
    /// default. It fails when the interval or the address is unusable.
    pub fn from_options(
        input: Option<String>,
        output: Option<String>,
        tags: Option<String>,
        address: Option<String>,
        interval: Option<String>,
    ) -> (r: Result<Config, ConfigError>)
        ensures
            ({
                let addr = or_default(address, "http://localhost:8500/v1"@);
                let secs = or_default(interval, "10"@);
                let ok_interval = encode_utf8(secs).len() > 0 && all_digits(encode_utf8(secs))
                    && decimal_value(encode_utf8(secs)) <= u64::MAX;
                &&& r is Ok <==> ok_interval && address_well_formed(encode_utf8(addr))
                &&& !ok_interval ==> r == Err::<Config, ConfigError>(ConfigError::InvalidInterval)
                &&& ok_interval && !address_well_formed(encode_utf8(addr)) ==> r == Err::<
                    Config,
                    ConfigError,
                >(ConfigError::InvalidAddress)
                &&& r is Ok ==> {
                    let c = r->Ok_0;
                    &&& c.template@ == or_default(input, "/etc/hasu/haproxy.mustache"@)
                    &&& c.output@ == or_default(output, "/etc/haproxy/haproxy.cfg"@)
                    &&& c.tags@ == or_default(tags, "release"@)
                    &&& c.address@ == addr
                    &&& c.interval_secs == decimal_value(encode_utf8(secs))
                }
            }),
    {
        let interval = match interval {
            Some(v) => v,
            None => "10".to_string(),
        };
        let secs = parse_interval(interval.as_str())?;
        let address = match address {
            Some(v) => v,
            None => "http://localhost:8500/v1".to_string(),
        };
        if !check_address(address.as_str()) {
            return Err(ConfigError::InvalidAddress);
        }
        Ok(
            Config {
                template: match input {
                    Some(v) => v,
                    None => "/etc/hasu/haproxy.mustache".to_string(),
                },
                output: match output {
                    Some(v) => v,
                    None => "/etc/haproxy/haproxy.cfg".to_string(),
                },
                tags: match tags {
                    Some(v) => v,
                    None => "release".to_string(),
                },
                address,
                interval_secs: secs,
            },
        )
    }
}

} // verus!
