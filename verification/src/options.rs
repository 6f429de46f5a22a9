//! The lobby server's options: port ranges, addresses and how game servers
//! are launched, as given on the command line and in the configuration.

use vstd::prelude::*;

verus! {

/// An inclusive range of ports.
#[derive(Debug, Clone, Copy, PartialEq, Eq, Structural)]
pub struct PortRange {
    pub first: u16,
    pub last: u16,
}

/// How the lobby server starts a game server.
#[derive(Debug, Clone, Copy, PartialEq, Eq, Structural)]
pub enum LaunchMode {
    /// Through `cargo run`.
    Cargo,
    /// By running the `server` executable.
    Executable,
}

impl Default for LaunchMode {
    fn default() -> (r: Self)
        ensures
            r == LaunchMode::Executable,
    {
        LaunchMode::Executable
    }
}

/// A port range that could not be read.
#[derive(Debug, Clone, Copy, PartialEq, Eq, Structural)]
pub struct PortRangeError;

/// Whether `c` is an ASCII decimal digit.
pub open spec fn is_digit(c: char) -> bool {
    '0' <= c <= '9'
}

/// The value of a string of decimal digits.
pub open spec fn digits_value(d: Seq<char>) -> nat
    decreases d.len(),
{
    if d.len() == 0 {
        0
    } else {
        digits_value(d.drop_last()) * 10 + (d.last() as nat - '0' as nat) as nat
    }
}

/// A number as written, without its leading `+` if it has one.
pub open spec fn unsigned_part(s: Seq<char>) -> Seq<char> {
    if s.len() > 0 && s[0] == '+' {
        s.drop_first()
    } else {
        s
    }
}

/// Whether all characters of `d` are decimal digits.
pub open spec fn all_digits(d: Seq<char>) -> bool {
    forall|i: int| 0 <= i < d.len() ==> is_digit(#[trigger] d[i])
}

/// A port number in decimal: an optional `+` and then at least one digit,
/// with a value that fits in 16 bits (the grammar of `u16::from_str`).
pub open spec fn parsed_port(s: Seq<char>) -> Option<u16> {
    let d = unsigned_part(s);
    if d.len() > 0 && all_digits(d) && digits_value(d) <= u16::MAX {
        Some(digits_value(d) as u16)
    } else {
        None
    }
}

/// The position of the first `-` in a string, if any.
pub open spec fn first_dash(s: Seq<char>) -> Option<int>
    decreases s.len(),
{
    if s.len() == 0 {
        None
    } else {
        match first_dash(s.drop_last()) {
            Some(i) => Some(i),
            None => if s.last() == '-' {
                Some(s.len() - 1)
            } else {
                None
            },
        }
    }
}

/// A port range as written: one port (`4545`), or two ports around the first
/// dash (`4545-4555`).
pub open spec fn parsed_port_range(s: Seq<char>) -> Option<PortRange> {
    match parsed_port(s) {
        Some(x) => Some(PortRange { first: x, last: x }),
        None => match first_dash(s) {
            Some(i) => match (parsed_port(s.take(i)), parsed_port(s.skip(i + 1))) {
                (Some(a), Some(b)) => Some(PortRange { first: a, last: b }),
                _ => None,
            },
            None => None,
        },
    }
}

proof fn lemma_digits_value_prefix(d: Seq<char>, k: int, n: int)
    requires
        0 <= k <= n <= d.len(),
    ensures
        digits_value(d.take(k)) <= digits_value(d.take(n)),
    decreases n - k,
{
    if k < n {
        lemma_digits_value_prefix(d, k, n - 1);
        assert(d.take(n).drop_last() =~= d.take(n - 1));
    }
}

proof fn lemma_first_dash(s: Seq<char>)
    ensures
        match first_dash(s) {
            Some(i) => 0 <= i < s.len() && s[i] == '-' && forall|j: int| 0 <= j < i ==> s[j] != '-',
            None => forall|j: int| 0 <= j < s.len() ==> s[j] != '-',
        },
    decreases s.len(),
{
    if s.len() > 0 {
        lemma_first_dash(s.drop_last());
        assert forall|j: int| 0 <= j < s.len() - 1 implies s[j] == s.drop_last()[j] by {}
    }
}

/// Reads a port number from the characters `s[from..to]`.
fn parse_port(s: &str, from: usize, to: usize) -> (r: Option<u16>)
    requires
        from <= to <= s@.len(),
    ensures
        r == parsed_port(s@.subrange(from as int, to as int)),
{
    let ghost t = s@.subrange(from as int, to as int);
    let mut i = from;
    if i < to && s.get_char(i) == '+' {
        i = i + 1;
    }
    let ghost d = unsigned_part(t);
    proof {
        assert(d =~= s@.subrange(i as int, to as int));
    }
    if i == to {
        return None;
    }
    let start = i;
    let mut value: u32 = 0;
    while i < to
        invariant
            from <= start <= i <= to <= s@.len(),
            t == s@.subrange(from as int, to as int),
            d == unsigned_part(t),
            d.len() > 0,
            d == s@.subrange(start as int, to as int),
            forall|k: int| 0 <= k < i - start ==> is_digit(#[trigger] d[k]),
            value == digits_value(d.take(i - start)),
            value <= u16::MAX,
        decreases to - i,
    {
        let c = s.get_char(i);
        if c < '0' || c > '9' {
            proof {
                assert(d[i - start] == c);
                assert(!is_digit(d[i - start]));
            }
            return None;
        }
        let digit = (c as u32) - ('0' as u32);
        proof {
            assert(d.take(i - start + 1).drop_last() =~= d.take(i - start));
            assert(d.take(i - start + 1).last() == c);
        }
        value = value * 10 + digit;
        i = i + 1;
        if value > 65535 {
            proof {
                lemma_digits_value_prefix(d, i - start, d.len() as int);
                assert(d.take(d.len() as int) =~= d);
            }
            return None;
        }
    }
    proof {
        assert(d.take(i - start) =~= d);
    }
    Some(value as u16)
}

impl PortRange {
    /// Reads a port (`4545`) or a port range (`4545-4555`).
    pub fn parse(s: &str) -> (r: Result<PortRange, PortRangeError>)
        ensures
            match r {
                Ok(p) => parsed_port_range(s@) == Some(p),
                Err(_) => parsed_port_range(s@) is None,
            },
    {
        let n = s.unicode_len();
        proof {
            assert(s@.subrange(0, n as int) =~= s@);
        }
        if let Some(x) = parse_port(s, 0, n) {
            return Ok(PortRange { first: x, last: x });
        }
        let mut i: usize = 0;
        while i < n
            invariant
                n == s@.len(),
                i <= n,
                parsed_port(s@) is None,
                forall|j: int| 0 <= j < i ==> s@[j] != '-',
            decreases n - i,
        {
            if s.get_char(i) == '-' {
                proof {
                    lemma_first_dash(s@);
                    assert(first_dash(s@) == Some(i as int)) by {
                        match first_dash(s@) {
                            Some(q) => {
                                if q < i {
                                    assert(s@[q] != '-');
                                }
                                if q > i {
                                    assert(s@[i as int] == '-');
                                }
                            },
                            None => {
                                assert(s@[i as int] == '-');
                            },
                        }
                    }
                    assert(s@.take(i as int) =~= s@.subrange(0, i as int));
                    assert(s@.skip(i + 1) =~= s@.subrange(i + 1, n as int));
                }
                let a = parse_port(s, 0, i);
                let b = parse_port(s, i + 1, n);
                if let (Some(a), Some(b)) = (a, b) {
                    proof {
                        assert(parsed_port(s@) is None);
                        assert(parsed_port(s@.take(i as int)) == Some(a));
                        assert(parsed_port(s@.skip(i + 1)) == Some(b));
                    }
                    return Ok(PortRange { first: a, last: b });
                }
                return Err(PortRangeError);
            }
            i = i + 1;
        }
        proof {
            lemma_first_dash(s@);
            if first_dash(s@) is Some {
                let q = first_dash(s@)->0;
                assert(s@[q] != '-');
            }
        }
        Err(PortRangeError)
    }
}

impl core::str::FromStr for PortRange {
    type Err = PortRangeError;

    fn from_str(s: &str) -> (r: Result<PortRange, PortRangeError>)
        ensures
            match r {
                Ok(p) => parsed_port_range(s@) == Some(p),
                Err(_) => parsed_port_range(s@) is None,
            },
    {
        PortRange::parse(s)
    }
}

/// The options of the lobby server, as the command line or the
/// configuration gives them; each may be missing. Addresses are held as
/// their numbers (`u32` for IPv4, `u128` for IPv6).
#[derive(Debug)]
pub struct OptionsBuilder {
    pub certificate: Option<String>,
    pub privkey: Option<String>,
    pub internal_ports: Option<PortRange>,
    pub external_ports: Option<PortRange>,
    pub public_ipv4_address: Option<u32>,
    pub local_ipv4_address: Option<u32>,
    pub ipv6_address: Option<u128>,
    pub launch_mode: Option<LaunchMode>,
}

/// The options of the lobby server.
#[derive(Debug)]
pub struct Options {
    pub certificate: Option<String>,
    pub privkey: Option<String>,
    pub internal_ports: PortRange,
    pub external_ports: PortRange,
    pub public_ipv4_address: u32,
    pub local_ipv4_address: u32,
    pub ipv6_address: u128,
    pub launch_mode: LaunchMode,
}

/// An option that has to be given and was not.
#[derive(Debug, Clone, Copy, PartialEq, Eq, Structural)]
pub enum OptionsError {
    MissingPublicIpv4,
    MissingLocalIpv4,
    MissingIpv6,
}

/// `a`, or `b` where `a` is missing.
pub open spec fn or_else<A>(a: Option<A>, b: Option<A>) -> Option<A> {
    match a {
        Some(x) => Some(x),
        None => b,
    }
}

/// The internal ports used when none are given.
pub open spec fn default_internal_ports() -> PortRange {
    PortRange { first: 20000, last: 21000 }
}

/// The external ports used when none are given.
pub open spec fn default_external_ports() -> PortRange {
    PortRange { first: 54000, last: 55000 }
}

/// `a`, or `b` where `a` is missing.
fn prefer<A>(a: Option<A>, b: Option<A>) -> (r: Option<A>)
    ensures
        r == or_else(a, b),
{
    match a {
        Some(x) => Some(x),
        None => b,
    }
}

impl OptionsBuilder {
    /// Takes each option that `other` gives; the others stay as they were.
    pub fn apply(&mut self, other: OptionsBuilder)
        ensures
            final(self).certificate == or_else(other.certificate, old(self).certificate),
            final(self).privkey == or_else(other.privkey, old(self).privkey),
            final(self).internal_ports == or_else(other.internal_ports, old(self).internal_ports),
            final(self).external_ports == or_else(other.external_ports, old(self).external_ports),
            final(self).public_ipv4_address == or_else(other.public_ipv4_address, old(self).public_ipv4_address),
            final(self).local_ipv4_address == or_else(other.local_ipv4_address, old(self).local_ipv4_address),
            final(self).ipv6_address == or_else(other.ipv6_address, old(self).ipv6_address),
            final(self).launch_mode == or_else(other.launch_mode, old(self).launch_mode),
    {
        self.certificate = prefer(other.certificate, self.certificate.take());
        self.privkey = prefer(other.privkey, self.privkey.take());
        self.internal_ports = prefer(other.internal_ports, self.internal_ports.take());
        self.external_ports = prefer(other.external_ports, self.external_ports.take());
        self.public_ipv4_address = prefer(other.public_ipv4_address, self.public_ipv4_address.take());
        self.local_ipv4_address = prefer(other.local_ipv4_address, self.local_ipv4_address.take());
        self.ipv6_address = prefer(other.ipv6_address, self.ipv6_address.take());
        self.launch_mode = prefer(other.launch_mode, self.launch_mode.take());
    }

    /// The options, with the default port ranges and launch mode where none
    /// are given; the addresses have to be given.
    pub fn build(self) -> (r: Result<Options, OptionsError>)
        ensures
            match r {
                Ok(o) => {
                    &&& self.public_ipv4_address == Some(o.public_ipv4_address)
                    &&& self.local_ipv4_address == Some(o.local_ipv4_address)
                    &&& self.ipv6_address == Some(o.ipv6_address)
                    &&& o.certificate == self.certificate
                    &&& o.privkey == self.privkey
                    &&& o.internal_ports == or_else(self.internal_ports, Some(default_internal_ports()))->0
                    &&& o.external_ports == or_else(self.external_ports, Some(default_external_ports()))->0
                    &&& o.launch_mode == or_else(self.launch_mode, Some(LaunchMode::Executable))->0
                },
                Err(e) => e == if self.public_ipv4_address is None {
                    OptionsError::MissingPublicIpv4
                } else if self.local_ipv4_address is None {
                    OptionsError::MissingLocalIpv4
                } else {
                    OptionsError::MissingIpv6
                },
            },
            r is Err <==> (self.public_ipv4_address is None || self.local_ipv4_address is None
                || self.ipv6_address is None),
    {
        let public_ipv4_address = match self.public_ipv4_address {
            Some(a) => a,
            None => {
                return Err(OptionsError::MissingPublicIpv4);
            },
        };
        let local_ipv4_address = match self.local_ipv4_address {
            Some(a) => a,
            None => {
                return Err(OptionsError::MissingLocalIpv4);
            },
        };
        let ipv6_address = match self.ipv6_address {
            Some(a) => a,
            None => {
                return Err(OptionsError::MissingIpv6);
            },
        };
        let internal_ports = match self.internal_ports {
            Some(p) => p,
            None => PortRange { first: 20000, last: 21000 },
        };
        let external_ports = match self.external_ports {
            Some(p) => p,
            None => PortRange { first: 54000, last: 55000 },
        };
        let launch_mode = match self.launch_mode {
            Some(m) => m,
            None => LaunchMode::default(),
        };
        Ok(Options {
            certificate: self.certificate,
            privkey: self.privkey,
            internal_ports,
            external_ports,
            public_ipv4_address,
            local_ipv4_address,
            ipv6_address,
            launch_mode,
        })
    }
}

} // verus!
