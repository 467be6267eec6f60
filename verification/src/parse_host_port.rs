//! The parser of the host and port of an authority: a machine that takes
//! the text one character at a time, tells a registered name from an IP
//! literal in brackets, and reads the port behind the last colon.

use vstd::prelude::*;
use vstd::string::StringSliceAdditionalSpecFns;

use crate::character_classes::{
    CharacterSet, hexdig, hexdig_set, ipv_future_last_part, ipv_future_last_part_set,
    is_hexdig, is_ipv_future_last_part, is_reg_name_not_pct_encoded, reg_name_not_pct_encoded,
    reg_name_not_pct_encoded_set,
};
use crate::context::Context;
use crate::error::Error;
use crate::percent_encoded_character_decoder::PercentEncodedCharacterDecoder;
use crate::text::{decimal_value, hex_digit_value, is_decimal, lowercase, to_lowercase};
use crate::validate_ipv6_address::{validate_ipv6_bytes, validate_ipv6_spec};

verus! {

/// Where in the host and port the machine stands.
#[derive(Clone, Copy, Debug, PartialEq, Eq, Structural)]
pub enum HostPortPhase {
    /// In a registered name.
    NotIpLiteral,
    /// In a registered name, behind a percent sign.
    PercentEncodedCharacter,
    /// In the brackets of an IPv6 address.
    Ipv6Address,
    /// In the version number of an `IPvFuture` address.
    IpvFutureNumber,
    /// In the last part of an `IPvFuture` address.
    IpvFutureBody,
    /// Behind the closing bracket.
    GarbageCheck,
    /// In the port.
    Port,
}

/// The state of the machine.
pub struct HostPortMachine {
    /// Where the machine stands.
    pub phase: HostPortPhase,
    /// The host read so far.
    pub host: Seq<u8>,
    /// Whether the host is a registered name.
    pub host_is_reg_name: bool,
    /// The text met so far in the brackets of an IPv6 address.
    pub ipv6_address: Seq<u8>,
    /// The first digit of a percent-encoded character, where one was read.
    pub pending: Option<u8>,
    /// The text of the port read so far.
    pub port: Seq<char>,
}

/// The state in which the machine starts on `text`.  Behind `[v` it reads
/// an `IPvFuture` address, whose host begins with the `v`; behind any other
/// `[` an IPv6 address; else a registered name.
pub open spec fn host_port_start(text: Seq<u8>) -> HostPortMachine {
    if text.len() >= 2 && text[0] == '[' as u8 && text[1] == 'v' as u8 {
        HostPortMachine {
            phase: HostPortPhase::IpvFutureNumber,
            host: seq!['v' as u8],
            host_is_reg_name: false,
            ipv6_address: Seq::empty(),
            pending: None,
            port: Seq::empty(),
        }
    } else if text.len() >= 1 && text[0] == '[' as u8 {
        HostPortMachine {
            phase: HostPortPhase::Ipv6Address,
            host: Seq::empty(),
            host_is_reg_name: false,
            ipv6_address: Seq::empty(),
            pending: None,
            port: Seq::empty(),
        }
    } else {
        HostPortMachine {
            phase: HostPortPhase::NotIpLiteral,
            host: Seq::empty(),
            host_is_reg_name: true,
            ipv6_address: Seq::empty(),
            pending: None,
            port: Seq::empty(),
        }
    }
}

/// The number of characters that the start of the machine takes: the
/// opening bracket, and the `v` behind it.
pub open spec fn host_port_start_len(text: Seq<u8>) -> nat {
    if text.len() >= 2 && text[0] == '[' as u8 && text[1] == 'v' as u8 {
        2
    } else if text.len() >= 1 && text[0] == '[' as u8 {
        1
    } else {
        0
    }
}

/// The machine in another phase.
pub open spec fn host_port_move(machine: HostPortMachine, phase: HostPortPhase) -> HostPortMachine {
    HostPortMachine {
        phase,
        host: machine.host,
        host_is_reg_name: machine.host_is_reg_name,
        ipv6_address: machine.ipv6_address,
        pending: machine.pending,
        port: machine.port,
    }
}

/// The machine in the phase `phase` with `b` added to the host.
pub open spec fn host_port_push(machine: HostPortMachine, phase: HostPortPhase, b: u8) -> HostPortMachine {
    HostPortMachine {
        phase,
        host: machine.host.push(b),
        host_is_reg_name: machine.host_is_reg_name,
        ipv6_address: machine.ipv6_address,
        pending: machine.pending,
        port: machine.port,
    }
}

/// One step of the machine on the character `c`.
///
/// In a registered name a percent sign begins an escape of two
/// hexadecimal digits, a colon begins the port, and any other character
/// must be one that a registered name allows.  In the brackets of an IPv6
/// address everything up to the closing bracket is collected, and must
/// then be a valid IPv6 address, which becomes the host as it was written.
/// An `IPvFuture` address is hexadecimal digits, a dot, and characters of
/// its last part up to the closing bracket.  Behind the closing bracket
/// only the colon of the port may follow.  The port takes every character.
pub open spec fn host_port_next(machine: HostPortMachine, c: u8) -> Result<HostPortMachine, Error> {
    match machine.phase {
        HostPortPhase::NotIpLiteral => {
            if c == '%' as u8 {
                Ok(host_port_move(machine, HostPortPhase::PercentEncodedCharacter))
            } else if c == ':' as u8 {
                Ok(host_port_move(machine, HostPortPhase::Port))
            } else if is_reg_name_not_pct_encoded(c) {
                Ok(host_port_push(machine, HostPortPhase::NotIpLiteral, c))
            } else {
                Err(Error::IllegalCharacter(Context::Host))
            }
        },
        HostPortPhase::PercentEncodedCharacter => {
            match (hex_digit_value(c as char), machine.pending) {
                (None, _) => Err(Error::IllegalPercentEncoding),
                (Some(digit), None) => Ok(
                    HostPortMachine {
                        phase: HostPortPhase::PercentEncodedCharacter,
                        host: machine.host,
                        host_is_reg_name: machine.host_is_reg_name,
                        ipv6_address: machine.ipv6_address,
                        pending: Some(digit),
                        port: machine.port,
                    },
                ),
                (Some(digit), Some(first)) => Ok(
                    HostPortMachine {
                        phase: HostPortPhase::NotIpLiteral,
                        host: machine.host.push((16 * first + digit) as u8),
                        host_is_reg_name: machine.host_is_reg_name,
                        ipv6_address: machine.ipv6_address,
                        pending: None,
                        port: machine.port,
                    },
                ),
            }
        },
        HostPortPhase::Ipv6Address => {
            if c == ']' as u8 {
                match validate_ipv6_spec(machine.ipv6_address) {
                    Err(e) => Err(e),
                    Ok(_) => Ok(
                        HostPortMachine {
                            phase: HostPortPhase::GarbageCheck,
                            host: machine.ipv6_address,
                            host_is_reg_name: machine.host_is_reg_name,
                            ipv6_address: machine.ipv6_address,
                            pending: machine.pending,
                            port: machine.port,
                        },
                    ),
                }
            } else {
                Ok(
                    HostPortMachine {
                        phase: HostPortPhase::Ipv6Address,
                        host: machine.host,
                        host_is_reg_name: machine.host_is_reg_name,
                        ipv6_address: machine.ipv6_address.push(c),
                        pending: machine.pending,
                        port: machine.port,
                    },
                )
            }
        },
        HostPortPhase::IpvFutureNumber => {
            if c == '.' as u8 {
                Ok(host_port_push(machine, HostPortPhase::IpvFutureBody, c))
            } else if c == ']' as u8 {
                Err(Error::TruncatedHost)
            } else if is_hexdig(c) {
                Ok(host_port_push(machine, HostPortPhase::IpvFutureNumber, c))
            } else {
                Err(Error::IllegalCharacter(Context::IpvFuture))
            }
        },
        HostPortPhase::IpvFutureBody => {
            if c == ']' as u8 {
                Ok(host_port_move(machine, HostPortPhase::GarbageCheck))
            } else if is_ipv_future_last_part(c) {
                Ok(host_port_push(machine, HostPortPhase::IpvFutureBody, c))
            } else {
                Err(Error::IllegalCharacter(Context::IpvFuture))
            }
        },
        HostPortPhase::GarbageCheck => {
            if c == ':' as u8 {
                Ok(host_port_move(machine, HostPortPhase::Port))
            } else {
                Err(Error::IllegalCharacter(Context::Host))
            }
        },
        HostPortPhase::Port => Ok(
            HostPortMachine {
                phase: HostPortPhase::Port,
                host: machine.host,
                host_is_reg_name: machine.host_is_reg_name,
                ipv6_address: machine.ipv6_address,
                pending: machine.pending,
                port: machine.port.push(c as char),
            },
        ),
    }
}

/// The digits of a number written with or without a plus sign before it.
pub open spec fn unsigned_digits(text: Seq<char>) -> Seq<char> {
    if text.len() > 0 && text[0] == '+' {
        text.skip(1)
    } else {
        text
    }
}

/// Whether `text` writes a number of 16 bits: decimal digits, with or
/// without a plus sign before them, whose value is at most 65535.
pub open spec fn is_u16_text(text: Seq<char>) -> bool {
    is_decimal(unsigned_digits(text)) && decimal_value(unsigned_digits(text)) <= 0xffff
}

/// The error with which the parsing of a `u16` refuses `text`.
pub uninterp spec fn port_number_failure(text: Seq<char>) -> std::num::ParseIntError;

/// The port that the text `port` writes: none where it is empty, else the
/// number that it writes, which must be one of 16 bits.
pub open spec fn port_spec(port: Seq<char>) -> Result<Option<u16>, Error> {
    if port.len() == 0 {
        Ok(None)
    } else if is_u16_text(port) {
        Ok(Some(decimal_value(unsigned_digits(port)) as u16))
    } else {
        Err(Error::IllegalPortNumber(port_number_failure(port)))
    }
}

/// The machine's verdict at the end of the text: the host and the port.
/// The text must not end inside brackets or inside an escape.  A
/// registered name is made lower-case.
pub open spec fn host_port_finalize(machine: HostPortMachine) -> Result<
    (Seq<u8>, Option<u16>),
    Error,
> {
    match machine.phase {
        HostPortPhase::PercentEncodedCharacter
        | HostPortPhase::Ipv6Address
        | HostPortPhase::IpvFutureNumber
        | HostPortPhase::IpvFutureBody => Err(Error::TruncatedHost),
        HostPortPhase::NotIpLiteral | HostPortPhase::GarbageCheck | HostPortPhase::Port => {
            let host = if machine.host_is_reg_name {
                lowercase(machine.host)
            } else {
                machine.host
            };
            match port_spec(machine.port) {
                Ok(port) => Ok((host, port)),
                Err(e) => Err(e),
            }
        },
    }
}

/// The state that the machine reaches from `machine` over `text`, or the
/// error of the first step that fails.
pub open spec fn host_port_run(machine: HostPortMachine, text: Seq<u8>) -> Result<
    HostPortMachine,
    Error,
>
    decreases text.len(),
{
    if text.len() == 0 {
        Ok(machine)
    } else {
        match host_port_next(machine, text[0]) {
            Ok(next) => host_port_run(next, text.skip(1)),
            Err(e) => Err(e),
        }
    }
}

/// The host and the port that `text` writes, or the first error in it.
pub open spec fn parse_host_port_spec(text: Seq<u8>) -> Result<(Seq<u8>, Option<u16>), Error> {
    match host_port_run(host_port_start(text), text.skip(host_port_start_len(text) as int)) {
        Ok(machine) => host_port_finalize(machine),
        Err(e) => Err(e),
    }
}

/// The view of a parsed host and port.
pub open spec fn host_port_view(parsed: Result<(Vec<u8>, Option<u16>), Error>) -> Result<
    (Seq<u8>, Option<u16>),
    Error,
> {
    match parsed {
        Ok((host, port)) => Ok((host@, port)),
        Err(e) => Err(e),
    }
}

/// `str::parse::<u16>` of std.  The call succeeds exactly on the texts
/// that are decimal digits, with or without a plus sign before them, and
/// write a number of at most 65535, and then gives that number; otherwise
/// it gives an error that depends on the text alone.
#[verifier::external_body]
fn parse_u16(text: &str) -> (parsed: Result<u16, std::num::ParseIntError>)
    ensures
        is_u16_text(text@) ==> parsed is Ok && parsed->Ok_0 == decimal_value(
            unsigned_digits(text@),
        ),
        !is_u16_text(text@) ==> parsed is Err && parsed->Err_0 == port_number_failure(text@),
{
    text.parse::<u16>()
}

/// The character sets that the machine looks characters up in.
struct Tables {
    reg_name: CharacterSet,
    ipv_future_last_part: CharacterSet,
    hexdig: CharacterSet,
}

impl Tables {
    spec fn well_formed(self) -> bool {
        &&& self.reg_name@ == reg_name_not_pct_encoded_set()
        &&& self.ipv_future_last_part@ == ipv_future_last_part_set()
        &&& self.hexdig@ == hexdig_set()
    }

    fn new() -> (tables: Self)
        ensures
            tables.well_formed(),
    {
        Tables {
            reg_name: reg_name_not_pct_encoded(),
            ipv_future_last_part: ipv_future_last_part(),
            hexdig: hexdig(),
        }
    }
}

struct State {
    phase: HostPortPhase,
    host: Vec<u8>,
    host_is_reg_name: bool,
    ipv6_address: Vec<u8>,
    pec_decoder: PercentEncodedCharacterDecoder,
    port_string: String,
}

/// The state of the machine for which a step's result stands.
spec fn step_view(step: Result<State, Error>) -> Result<HostPortMachine, Error> {
    match step {
        Ok(state) => Ok(state.machine()),
        Err(e) => Err(e),
    }
}

impl State {
    /// The state of the machine for which this value stands.
    spec fn machine(self) -> HostPortMachine {
        HostPortMachine {
            phase: self.phase,
            host: self.host@,
            host_is_reg_name: self.host_is_reg_name,
            ipv6_address: self.ipv6_address@,
            pending: self.pec_decoder.pending(),
            port: self.port_string@,
        }
    }

    fn finalize(self) -> (parsed: Result<(Vec<u8>, Option<u16>), Error>)
        ensures
            host_port_view(parsed) == host_port_finalize(self.machine()),
    {
        match self.phase {
            HostPortPhase::PercentEncodedCharacter
            | HostPortPhase::Ipv6Address
            | HostPortPhase::IpvFutureNumber
            | HostPortPhase::IpvFutureBody => Err(Error::TruncatedHost),
            HostPortPhase::NotIpLiteral | HostPortPhase::GarbageCheck | HostPortPhase::Port => {
                let host = if self.host_is_reg_name {
                    to_lowercase(self.host.as_slice())
                } else {
                    self.host
                };
                let port = if self.port_string.as_str().is_empty() {
                    None
                } else {
                    match parse_u16(self.port_string.as_str()) {
                        Ok(port) => Some(port),
                        Err(error) => {
                            return Err(Error::IllegalPortNumber(error));
                        },
                    }
                };
                Ok((host, port))
            },
        }
    }

    fn new(host_port_string: &[u8]) -> (start: (Self, usize))
        ensures
            start.0.machine() == host_port_start(host_port_string@),
            start.1 == host_port_start_len(host_port_string@),
    {
        let mut state = State {
            phase: HostPortPhase::NotIpLiteral,
            host: Vec::new(),
            host_is_reg_name: false,
            ipv6_address: Vec::new(),
            pec_decoder: PercentEncodedCharacterDecoder::new(),
            port_string: String::new(),
        };
        if host_port_string.len() >= 2 && host_port_string[0] == '[' as u8 && host_port_string[1]
            == 'v' as u8 {
            state.host.push('v' as u8);
            state.phase = HostPortPhase::IpvFutureNumber;
            assert(state.host@ =~= seq!['v' as u8]);
            (state, 2)
        } else if host_port_string.len() >= 1 && host_port_string[0] == '[' as u8 {
            state.phase = HostPortPhase::Ipv6Address;
            (state, 1)
        } else {
            state.host_is_reg_name = true;
            (state, 0)
        }
    }

    fn next(self, c: u8, tables: &Tables) -> (next: Result<Self, Error>)
        requires
            tables.well_formed(),
        ensures
            step_view(next) == host_port_next(self.machine(), c),
    {
        match self.phase {
            HostPortPhase::NotIpLiteral => self.next_not_ip_literal(c, tables),
            HostPortPhase::PercentEncodedCharacter => self.next_percent_encoded_character(c),
            HostPortPhase::Ipv6Address => self.next_ipv6_address(c),
            HostPortPhase::IpvFutureNumber => self.next_ipv_future_number(c, tables),
            HostPortPhase::IpvFutureBody => self.next_ipv_future_body(c, tables),
            HostPortPhase::GarbageCheck => self.next_garbage_check(c),
            HostPortPhase::Port => Ok(self.next_port(c)),
        }
    }

    fn next_not_ip_literal(self, c: u8, tables: &Tables) -> (next: Result<Self, Error>)
        requires
            tables.well_formed(),
            self.phase == HostPortPhase::NotIpLiteral,
        ensures
            step_view(next) == host_port_next(self.machine(), c),
    {
        let mut state = self;
        if c == '%' as u8 {
            state.phase = HostPortPhase::PercentEncodedCharacter;
            Ok(state)
        } else if c == ':' as u8 {
            state.phase = HostPortPhase::Port;
            Ok(state)
        } else if tables.reg_name.contains(c) {
            state.host.push(c);
            Ok(state)
        } else {
            Err(Error::IllegalCharacter(Context::Host))
        }
    }

    fn next_percent_encoded_character(self, c: u8) -> (next: Result<Self, Error>)
        requires
            self.phase == HostPortPhase::PercentEncodedCharacter,
        ensures
            step_view(next) == host_port_next(self.machine(), c),
    {
        let mut state = self;
        match state.pec_decoder.next(c as char) {
            Err(e) => Err(e),
            Ok(Some(ci)) => {
                state.host.push(ci);
                state.phase = HostPortPhase::NotIpLiteral;
                Ok(state)
            },
            Ok(None) => Ok(state),
        }
    }

    fn next_ipv6_address(self, c: u8) -> (next: Result<Self, Error>)
        requires
            self.phase == HostPortPhase::Ipv6Address,
        ensures
            step_view(next) == host_port_next(self.machine(), c),
    {
        let mut state = self;
        if c == ']' as u8 {
            match validate_ipv6_bytes(state.ipv6_address.as_slice()) {
                Err(e) => Err(e),
                Ok(_) => {
                    state.host = state.ipv6_address.clone();
                    state.phase = HostPortPhase::GarbageCheck;
                    Ok(state)
                },
            }
        } else {
            state.ipv6_address.push(c);
            Ok(state)
        }
    }

    fn next_ipv_future_number(self, c: u8, tables: &Tables) -> (next: Result<Self, Error>)
        requires
            tables.well_formed(),
            self.phase == HostPortPhase::IpvFutureNumber,
        ensures
            step_view(next) == host_port_next(self.machine(), c),
    {
        let mut state = self;
        if c == '.' as u8 {
            state.host.push(c);
            state.phase = HostPortPhase::IpvFutureBody;
            Ok(state)
        } else if c == ']' as u8 {
            Err(Error::TruncatedHost)
        } else if tables.hexdig.contains(c) {
            state.host.push(c);
            Ok(state)
        } else {
            Err(Error::IllegalCharacter(Context::IpvFuture))
        }
    }

    fn next_ipv_future_body(self, c: u8, tables: &Tables) -> (next: Result<Self, Error>)
        requires
            tables.well_formed(),
            self.phase == HostPortPhase::IpvFutureBody,
        ensures
            step_view(next) == host_port_next(self.machine(), c),
    {
        let mut state = self;
        if c == ']' as u8 {
            state.phase = HostPortPhase::GarbageCheck;
            Ok(state)
        } else if tables.ipv_future_last_part.contains(c) {
            state.host.push(c);
            Ok(state)
        } else {
            Err(Error::IllegalCharacter(Context::IpvFuture))
        }
    }

    fn next_garbage_check(self, c: u8) -> (next: Result<Self, Error>)
        requires
            self.phase == HostPortPhase::GarbageCheck,
        ensures
            step_view(next) == host_port_next(self.machine(), c),
    {
        let mut state = self;
        if c == ':' as u8 {
            state.phase = HostPortPhase::Port;
            Ok(state)
        } else {
            Err(Error::IllegalCharacter(Context::Host))
        }
    }

    fn next_port(self, c: u8) -> (next: Self)
        requires
            self.phase == HostPortPhase::Port,
        ensures
            host_port_next(self.machine(), c) == Ok::<HostPortMachine, Error>(next.machine()),
    {
        let mut state = self;
        state.port_string.push(c as char);
        state
    }
}

/// Parses the bytes of a host and port.
pub fn parse_host_port_bytes(host_port_string: &[u8]) -> (parsed: Result<
    (Vec<u8>, Option<u16>),
    Error,
>)
    ensures
        host_port_view(parsed) == parse_host_port_spec(host_port_string@),
{
    let tables = Tables::new();
    let (mut machine, start) = State::new(host_port_string);
    let mut i: usize = start;
    while i < host_port_string.len()
        invariant
            start <= i <= host_port_string@.len(),
            start == host_port_start_len(host_port_string@),
            tables.well_formed(),
            host_port_run(
                host_port_start(host_port_string@),
                host_port_string@.skip(start as int),
            ) == host_port_run(machine.machine(), host_port_string@.skip(i as int)),
        decreases host_port_string@.len() - i,
    {
        assert(host_port_string@.skip(i as int)[0] == host_port_string@[i as int]);
        assert(host_port_string@.skip(i as int).skip(1) =~= host_port_string@.skip(i + 1));
        match machine.next(host_port_string[i], &tables) {
            Ok(next) => {
                machine = next;
            },
            Err(e) => {
                return Err(e);
            },
        }
        i = i + 1;
    }
    machine.finalize()
}

/// Parses the host and port of an authority: what follows the userinfo.
/// Returns the host, percent-decoded and, where it is a registered name,
/// in lower case, and the port, if one is written.
pub fn parse_host_port(host_port_string: &str) -> (parsed: Result<(Vec<u8>, Option<u16>), Error>)
    ensures
        host_port_view(parsed) == parse_host_port_spec(host_port_string.spec_bytes()),
{
    parse_host_port_bytes(host_port_string.as_bytes())
}

} // verus!
