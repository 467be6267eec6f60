//! The validator of IPv6 addresses: a machine that takes the text one
//! character at a time and hands an IPv4 tail, if there is one, to the
//! validator of IPv4 addresses.

use vstd::prelude::*;
use vstd::slice::slice_subrange;
use vstd::string::StringSliceAdditionalSpecFns;

use crate::character_classes::{is_digit, is_hexdig};
use crate::context::Context;
use crate::error::Error;
use crate::validate_ipv4_address::{
    Ipv4Machine, ipv4_next, ipv4_run, ipv4_start, validate_ipv4_bytes, validate_ipv4_spec,
};

verus! {

/// Where in an address the machine stands.
#[derive(Clone, Copy, Debug, PartialEq, Eq, Structural)]
pub enum Ipv6Phase {
    /// At the start of the address.
    NoGroupsYet,
    /// Behind one colon at the start of the address.
    ColonButNoGroupsYet,
    /// Behind a double colon.
    AfterDoubleColon,
    /// In a group that holds a hexadecimal letter.
    InGroupNotIpv4,
    /// In a group of decimal digits only, which may begin an IPv4 tail.
    InGroupCouldBeIpv4,
    /// In the IPv4 tail, behind its first dot.
    InGroupIpv4,
    /// Behind the colon that closes a group.
    ColonAfterGroup,
}

/// The state of the machine.
pub struct Ipv6Machine {
    /// Where the machine stands.
    pub phase: Ipv6Phase,
    /// The number of groups closed so far.
    pub groups: nat,
    /// The number of digits of the group that is open.
    pub digits: nat,
    /// Whether a double colon has been met.
    pub double_colon: bool,
    /// Where the group that may begin an IPv4 tail starts.
    pub ipv4_start: nat,
}

/// The state in which the machine starts.
pub open spec fn ipv6_start() -> Ipv6Machine {
    Ipv6Machine {
        phase: Ipv6Phase::NoGroupsYet,
        groups: 0,
        digits: 0,
        double_colon: false,
        ipv4_start: 0,
    }
}

/// The state in which the first character `c` of a group, at position
/// `at`, leaves the machine: a decimal digit may begin an IPv4 tail, any
/// other hexadecimal digit may not, and any other character is illegal.
pub open spec fn ipv6_begin_group(machine: Ipv6Machine, at: nat, c: u8) -> Result<
    Ipv6Machine,
    Error,
> {
    if is_digit(c) {
        Ok(
            Ipv6Machine {
                phase: Ipv6Phase::InGroupCouldBeIpv4,
                groups: machine.groups,
                digits: 1,
                double_colon: machine.double_colon,
                ipv4_start: at,
            },
        )
    } else if is_hexdig(c) {
        Ok(
            Ipv6Machine {
                phase: Ipv6Phase::InGroupNotIpv4,
                groups: machine.groups,
                digits: 1,
                double_colon: machine.double_colon,
                ipv4_start: machine.ipv4_start,
            },
        )
    } else {
        Err(Error::IllegalCharacter(Context::Ipv6Address))
    }
}

/// The machine with the open group closed and counted, behind its colon.
pub open spec fn ipv6_close_group(machine: Ipv6Machine) -> Ipv6Machine {
    Ipv6Machine {
        phase: Ipv6Phase::ColonAfterGroup,
        groups: machine.groups + 1,
        digits: 0,
        double_colon: machine.double_colon,
        ipv4_start: machine.ipv4_start,
    }
}

/// The machine in another phase, with one more digit in the open group if
/// `more` is 1.
pub open spec fn ipv6_move(machine: Ipv6Machine, phase: Ipv6Phase, more: nat) -> Ipv6Machine {
    Ipv6Machine {
        phase,
        groups: machine.groups,
        digits: machine.digits + more,
        double_colon: machine.double_colon,
        ipv4_start: machine.ipv4_start,
    }
}

/// The machine behind a double colon.
pub open spec fn ipv6_double_colon(machine: Ipv6Machine) -> Ipv6Machine {
    Ipv6Machine {
        phase: Ipv6Phase::AfterDoubleColon,
        groups: machine.groups,
        digits: machine.digits,
        double_colon: true,
        ipv4_start: machine.ipv4_start,
    }
}

/// One step of the machine, on the character `c` at position `at`.
///
/// A colon closes a group; a second colon right behind it is the double
/// colon, of which an address has at most one; a colon at the very start
/// must be followed by another.  A hexadecimal digit starts or extends a
/// group of at most four digits.  In a group of decimal digits the count
/// of digits is checked before the kind of the character, and a dot
/// there begins the IPv4 tail, in which the machine reads no further.
pub open spec fn ipv6_next(machine: Ipv6Machine, at: nat, c: u8) -> Result<Ipv6Machine, Error> {
    match machine.phase {
        Ipv6Phase::NoGroupsYet => {
            if c == ':' as u8 {
                Ok(ipv6_move(machine, Ipv6Phase::ColonButNoGroupsYet, 0))
            } else {
                ipv6_begin_group(machine, at, c)
            }
        },
        Ipv6Phase::ColonButNoGroupsYet => {
            if c == ':' as u8 {
                Ok(ipv6_double_colon(machine))
            } else {
                Err(Error::IllegalCharacter(Context::Ipv6Address))
            }
        },
        Ipv6Phase::AfterDoubleColon => ipv6_begin_group(machine, at, c),
        Ipv6Phase::InGroupNotIpv4 => {
            if c == ':' as u8 {
                Ok(ipv6_close_group(machine))
            } else if is_hexdig(c) {
                if machine.digits + 1 > 4 {
                    Err(Error::TooManyDigits)
                } else {
                    Ok(ipv6_move(machine, Ipv6Phase::InGroupNotIpv4, 1))
                }
            } else {
                Err(Error::IllegalCharacter(Context::Ipv6Address))
            }
        },
        Ipv6Phase::InGroupCouldBeIpv4 => {
            if c == ':' as u8 {
                Ok(ipv6_close_group(machine))
            } else if c == '.' as u8 {
                Ok(ipv6_move(machine, Ipv6Phase::InGroupIpv4, 0))
            } else if machine.digits + 1 > 4 {
                Err(Error::TooManyDigits)
            } else if is_digit(c) {
                Ok(ipv6_move(machine, Ipv6Phase::InGroupCouldBeIpv4, 1))
            } else if is_hexdig(c) {
                Ok(ipv6_move(machine, Ipv6Phase::InGroupNotIpv4, 1))
            } else {
                Err(Error::IllegalCharacter(Context::Ipv6Address))
            }
        },
        Ipv6Phase::InGroupIpv4 => Ok(machine),
        Ipv6Phase::ColonAfterGroup => {
            if c == ':' as u8 {
                if machine.double_colon {
                    Err(Error::TooManyDoubleColons)
                } else {
                    Ok(ipv6_double_colon(machine))
                }
            } else {
                ipv6_begin_group(machine, at, c)
            }
        },
    }
}

/// The verdict on the number of groups: with a double colon at most
/// seven, without one exactly eight.
pub open spec fn ipv6_count_verdict(double_colon: bool, groups: nat) -> Result<(), Error> {
    if double_colon {
        if groups <= 7 {
            Ok(())
        } else {
            Err(Error::TooManyAddressParts)
        }
    } else if groups == 8 {
        Ok(())
    } else if groups < 8 {
        Err(Error::TooFewAddressParts)
    } else {
        Err(Error::TooManyAddressParts)
    }
}

/// The machine's verdict at the end of `address`.  A single colon at the
/// end cuts the address short.  An open group counts as one group.  An
/// IPv4 tail must be a valid IPv4 address and counts as two.
pub open spec fn ipv6_finalize(machine: Ipv6Machine, address: Seq<u8>) -> Result<(), Error> {
    match machine.phase {
        Ipv6Phase::ColonButNoGroupsYet | Ipv6Phase::ColonAfterGroup => Err(Error::TruncatedHost),
        Ipv6Phase::InGroupIpv4 => match validate_ipv4_spec(
            address.skip(machine.ipv4_start as int),
        ) {
            Err(e) => Err(e),
            Ok(_) => ipv6_count_verdict(machine.double_colon, machine.groups + 2),
        },
        Ipv6Phase::InGroupNotIpv4 | Ipv6Phase::InGroupCouldBeIpv4 => ipv6_count_verdict(
            machine.double_colon,
            machine.groups + 1,
        ),
        Ipv6Phase::NoGroupsYet | Ipv6Phase::AfterDoubleColon => ipv6_count_verdict(
            machine.double_colon,
            machine.groups,
        ),
    }
}

/// The state that the machine reaches from `machine` over the characters
/// of `address` from position `at` on, or the error of the first step that
/// fails.
pub open spec fn ipv6_run(machine: Ipv6Machine, address: Seq<u8>, at: nat) -> Result<
    Ipv6Machine,
    Error,
>
    decreases address.len() - at,
{
    if at >= address.len() {
        Ok(machine)
    } else {
        match ipv6_next(machine, at, address[at as int]) {
            Ok(next) => ipv6_run(next, address, at + 1),
            Err(e) => Err(e),
        }
    }
}

/// Whether `address` is an IPv6 address, and if it is not, why.
pub open spec fn validate_ipv6_spec(address: Seq<u8>) -> Result<(), Error> {
    match ipv6_run(ipv6_start(), address, 0) {
        Ok(machine) => ipv6_finalize(machine, address),
        Err(e) => Err(e),
    }
}

/// In the IPv4 tail the machine stays as it is, whatever follows.
pub proof fn lemma_ipv4_tail_is_not_read(machine: Ipv6Machine, address: Seq<u8>, at: nat)
    requires
        machine.phase == Ipv6Phase::InGroupIpv4,
    ensures
        ipv6_run(machine, address, at) == Ok::<Ipv6Machine, Error>(machine),
    decreases address.len() - at,
{
    if at < address.len() {
        lemma_ipv4_tail_is_not_read(machine, address, at + 1);
    }
}

struct State {
    phase: Ipv6Phase,
    num_groups: usize,
    num_digits: usize,
    double_colon_encountered: bool,
    potential_ipv4_address_start: usize,
}

/// The state of the machine for which a step's result stands.
spec fn step_view(step: Result<State, Error>) -> Result<Ipv6Machine, Error> {
    match step {
        Ok(state) => Ok(state.machine()),
        Err(e) => Err(e),
    }
}

impl State {
    /// The state of the machine for which this value stands.
    spec fn machine(self) -> Ipv6Machine {
        Ipv6Machine {
            phase: self.phase,
            groups: self.num_groups as nat,
            digits: self.num_digits as nat,
            double_colon: self.double_colon_encountered,
            ipv4_start: self.potential_ipv4_address_start as nat,
        }
    }

    /// What holds of the state when `consumed` characters have been read:
    /// no more groups are counted than that, the open group has at most
    /// four digits, and the IPv4 tail starts inside what was read.
    spec fn well_formed(self, consumed: nat) -> bool {
        &&& self.num_groups <= consumed
        &&& self.num_digits <= 4
        &&& self.potential_ipv4_address_start <= consumed
    }

    /// The verdict on `groups` closed groups and `open` more.
    fn count_verdict(double_colon: bool, groups: usize, open: usize) -> (verdict: Result<
        (),
        Error,
    >)
        requires
            open <= 2,
        ensures
            verdict == ipv6_count_verdict(double_colon, (groups + open) as nat),
    {
        if groups > 8 {
            return Err(Error::TooManyAddressParts);
        }
        let groups = groups + open;
        if double_colon {
            if groups <= 7 {
                Ok(())
            } else {
                Err(Error::TooManyAddressParts)
            }
        } else if groups == 8 {
            Ok(())
        } else if groups < 8 {
            Err(Error::TooFewAddressParts)
        } else {
            Err(Error::TooManyAddressParts)
        }
    }

    fn finalize(self, address: &[u8]) -> (verdict: Result<(), Error>)
        requires
            self.well_formed(address@.len()),
        ensures
            verdict == ipv6_finalize(self.machine(), address@),
    {
        match self.phase {
            Ipv6Phase::ColonButNoGroupsYet | Ipv6Phase::ColonAfterGroup => Err(
                Error::TruncatedHost,
            ),
            Ipv6Phase::InGroupIpv4 => {
                let tail = slice_subrange(
                    address,
                    self.potential_ipv4_address_start,
                    address.len(),
                );
                assert(tail@ =~= address@.skip(self.potential_ipv4_address_start as int));
                match validate_ipv4_bytes(tail) {
                    Err(e) => Err(e),
                    Ok(_) => Self::count_verdict(self.double_colon_encountered, self.num_groups, 2),
                }
            },
            Ipv6Phase::InGroupNotIpv4 | Ipv6Phase::InGroupCouldBeIpv4 => Self::count_verdict(
                self.double_colon_encountered,
                self.num_groups,
                1,
            ),
            Ipv6Phase::NoGroupsYet | Ipv6Phase::AfterDoubleColon => Self::count_verdict(
                self.double_colon_encountered,
                self.num_groups,
                0,
            ),
        }
    }

    fn new() -> (state: Self)
        ensures
            state.well_formed(0),
            state.machine() == ipv6_start(),
    {
        Self {
            phase: Ipv6Phase::NoGroupsYet,
            num_groups: 0,
            num_digits: 0,
            double_colon_encountered: false,
            potential_ipv4_address_start: 0,
        }
    }

    fn next(self, i: usize, c: u8) -> (next: Result<Self, Error>)
        requires
            self.well_formed(i as nat),
            i < usize::MAX,
        ensures
            step_view(next) == ipv6_next(self.machine(), i as nat, c),
            next matches Ok(state) ==> state.well_formed((i + 1) as nat),
    {
        match self.phase {
            Ipv6Phase::NoGroupsYet => self.next_no_groups_yet(i, c),
            Ipv6Phase::ColonButNoGroupsYet => self.next_colon_but_no_groups_yet(i, c),
            Ipv6Phase::AfterDoubleColon => self.next_after_double_colon(i, c),
            Ipv6Phase::InGroupNotIpv4 => self.next_in_group_not_ipv4(i, c),
            Ipv6Phase::InGroupCouldBeIpv4 => self.next_in_group_could_be_ipv4(i, c),
            Ipv6Phase::InGroupIpv4 => Ok(self),
            Ipv6Phase::ColonAfterGroup => self.next_colon_after_group(i, c),
        }
    }

    fn begin_group(self, i: usize, c: u8) -> (next: Result<Self, Error>)
        requires
            self.well_formed(i as nat),
        ensures
            step_view(next) == ipv6_begin_group(self.machine(), i as nat, c),
            next matches Ok(state) ==> state.well_formed((i + 1) as nat),
    {
        let mut state = self;
        if '0' as u8 <= c && c <= '9' as u8 {
            state.potential_ipv4_address_start = i;
            state.num_digits = 1;
            state.phase = Ipv6Phase::InGroupCouldBeIpv4;
            Ok(state)
        } else if is_hex_letter(c) {
            state.num_digits = 1;
            state.phase = Ipv6Phase::InGroupNotIpv4;
            Ok(state)
        } else {
            Err(Error::IllegalCharacter(Context::Ipv6Address))
        }
    }

    fn next_no_groups_yet(self, i: usize, c: u8) -> (next: Result<Self, Error>)
        requires
            self.well_formed(i as nat),
            self.phase == Ipv6Phase::NoGroupsYet,
        ensures
            step_view(next) == ipv6_next(self.machine(), i as nat, c),
            next matches Ok(state) ==> state.well_formed((i + 1) as nat),
    {
        let mut state = self;
        if c == ':' as u8 {
            state.phase = Ipv6Phase::ColonButNoGroupsYet;
            Ok(state)
        } else {
            state.begin_group(i, c)
        }
    }

    fn next_colon_but_no_groups_yet(self, i: usize, c: u8) -> (next: Result<Self, Error>)
        requires
            self.well_formed(i as nat),
            i < usize::MAX,
            self.phase == Ipv6Phase::ColonButNoGroupsYet,
        ensures
            step_view(next) == ipv6_next(self.machine(), i as nat, c),
            next matches Ok(state) ==> state.well_formed((i + 1) as nat),
    {
        let mut state = self;
        if c == ':' as u8 {
            state.double_colon_encountered = true;
            state.phase = Ipv6Phase::AfterDoubleColon;
            Ok(state)
        } else {
            Err(Error::IllegalCharacter(Context::Ipv6Address))
        }
    }

    fn next_after_double_colon(self, i: usize, c: u8) -> (next: Result<Self, Error>)
        requires
            self.well_formed(i as nat),
            self.phase == Ipv6Phase::AfterDoubleColon,
        ensures
            step_view(next) == ipv6_next(self.machine(), i as nat, c),
            next matches Ok(state) ==> state.well_formed((i + 1) as nat),
    {
        self.begin_group(i, c)
    }

    fn next_in_group_not_ipv4(self, i: usize, c: u8) -> (next: Result<Self, Error>)
        requires
            self.well_formed(i as nat),
            i < usize::MAX,
            self.phase == Ipv6Phase::InGroupNotIpv4,
        ensures
            step_view(next) == ipv6_next(self.machine(), i as nat, c),
            next matches Ok(state) ==> state.well_formed((i + 1) as nat),
    {
        let mut state = self;
        if c == ':' as u8 {
            state.num_digits = 0;
            state.num_groups = state.num_groups + 1;
            state.phase = Ipv6Phase::ColonAfterGroup;
            Ok(state)
        } else if is_hex_digit(c) {
            state.num_digits = state.num_digits + 1;
            if state.num_digits > 4 {
                Err(Error::TooManyDigits)
            } else {
                Ok(state)
            }
        } else {
            Err(Error::IllegalCharacter(Context::Ipv6Address))
        }
    }

    fn next_in_group_could_be_ipv4(self, i: usize, c: u8) -> (next: Result<Self, Error>)
        requires
            self.well_formed(i as nat),
            i < usize::MAX,
            self.phase == Ipv6Phase::InGroupCouldBeIpv4,
        ensures
            step_view(next) == ipv6_next(self.machine(), i as nat, c),
            next matches Ok(state) ==> state.well_formed((i + 1) as nat),
    {
        let mut state = self;
        if c == ':' as u8 {
            state.num_digits = 0;
            state.num_groups = state.num_groups + 1;
            state.phase = Ipv6Phase::ColonAfterGroup;
            Ok(state)
        } else if c == '.' as u8 {
            state.phase = Ipv6Phase::InGroupIpv4;
            Ok(state)
        } else {
            state.num_digits = state.num_digits + 1;
            if state.num_digits > 4 {
                Err(Error::TooManyDigits)
            } else if '0' as u8 <= c && c <= '9' as u8 {
                Ok(state)
            } else if is_hex_letter(c) {
                state.phase = Ipv6Phase::InGroupNotIpv4;
                Ok(state)
            } else {
                Err(Error::IllegalCharacter(Context::Ipv6Address))
            }
        }
    }

    fn next_colon_after_group(self, i: usize, c: u8) -> (next: Result<Self, Error>)
        requires
            self.well_formed(i as nat),
            self.phase == Ipv6Phase::ColonAfterGroup,
        ensures
            step_view(next) == ipv6_next(self.machine(), i as nat, c),
            next matches Ok(state) ==> state.well_formed((i + 1) as nat),
    {
        let mut state = self;
        if c == ':' as u8 {
            if state.double_colon_encountered {
                Err(Error::TooManyDoubleColons)
            } else {
                state.double_colon_encountered = true;
                state.phase = Ipv6Phase::AfterDoubleColon;
                Ok(state)
            }
        } else {
            state.begin_group(i, c)
        }
    }
}

/// Tells whether `c` is a hexadecimal digit.
fn is_hex_digit(c: u8) -> (hex: bool)
    ensures
        hex == is_hexdig(c),
{
    ('0' as u8 <= c && c <= '9' as u8) || is_hex_letter(c)
}

/// Tells whether `c` is a hexadecimal digit that is no decimal digit.
fn is_hex_letter(c: u8) -> (hex: bool)
    ensures
        hex == (is_hexdig(c) && !is_digit(c)),
{
    ('A' as u8 <= c && c <= 'F' as u8) || ('a' as u8 <= c && c <= 'f' as u8)
}

/// Validates the IPv6 address written in the bytes `address`.
pub fn validate_ipv6_bytes(address: &[u8]) -> (verdict: Result<(), Error>)
    ensures
        verdict == validate_ipv6_spec(address@),
{
    let mut machine = State::new();
    let mut i: usize = 0;
    while i < address.len() && !matches!(machine.phase, Ipv6Phase::InGroupIpv4)
        invariant
            i <= address@.len(),
            machine.well_formed(i as nat),
            ipv6_run(ipv6_start(), address@, 0) == ipv6_run(machine.machine(), address@, i as nat),
        decreases address@.len() - i,
    {
        match machine.next(i, address[i]) {
            Ok(next) => {
                machine = next;
            },
            Err(e) => {
                return Err(e);
            },
        }
        i = i + 1;
    }
    proof {
        if machine.phase == Ipv6Phase::InGroupIpv4 {
            lemma_ipv4_tail_is_not_read(machine.machine(), address@, i as nat);
        }
    }
    machine.finalize(address)
}

/// Validates the IPv6 address written in `address`: groups of up to four
/// hexadecimal digits with colons between them, at most one double colon
/// that stands for groups of zeros, and at the end, if one likes, an IPv4
/// address in place of the last two groups.
pub fn validate_ipv6_address(address: &str) -> (verdict: Result<(), Error>)
    ensures
        verdict == validate_ipv6_spec(address.spec_bytes()),
{
    validate_ipv6_bytes(address.as_bytes())
}

/// Whether `c` may appear in an IPv6 address: a hexadecimal digit, a colon
/// or a dot.
pub open spec fn is_ipv6_character(c: u8) -> bool {
    is_hexdig(c) || c == ':' as u8 || c == '.' as u8
}

proof fn lemma_ipv4_run_characters(machine: Ipv4Machine, text: Seq<u8>)
    ensures
        ipv4_run(machine, text) is Ok ==> forall|i: int|
            0 <= i < text.len() ==> is_digit(#[trigger] text[i]) || text[i] == '.' as u8,
    decreases text.len(),
{
    if text.len() > 0 {
        if let Ok(next) = ipv4_next(machine, text[0]) {
            lemma_ipv4_run_characters(next, text.skip(1));
            if ipv4_run(machine, text) is Ok {
                assert forall|i: int| 0 <= i < text.len() implies is_digit(#[trigger] text[i])
                    || text[i] == '.' as u8 by {
                    if i > 0 {
                        assert(text[i] == text.skip(1)[i - 1]);
                    }
                }
            }
        }
    }
}

proof fn lemma_ipv6_run_characters(machine: Ipv6Machine, text: Seq<u8>, at: nat)
    requires
        at <= text.len(),
        machine.phase != Ipv6Phase::InGroupIpv4,
        machine.phase == Ipv6Phase::InGroupCouldBeIpv4 ==> machine.ipv4_start < at,
    ensures
        ipv6_run(machine, text, at) matches Ok(end) ==> {
            &&& end.phase == Ipv6Phase::InGroupIpv4 ==> end.ipv4_start < text.len()
            &&& forall|i: int|
                at <= i < text.len() && (end.phase == Ipv6Phase::InGroupIpv4 ==> i
                    < end.ipv4_start) ==> is_ipv6_character(#[trigger] text[i])
        },
    decreases text.len() - at,
{
    if at < text.len() {
        if let Ok(next) = ipv6_next(machine, at, text[at as int]) {
            if next.phase == Ipv6Phase::InGroupIpv4 {
                lemma_ipv4_tail_is_not_read(next, text, at + 1);
            } else {
                lemma_ipv6_run_characters(next, text, at + 1);
            }
        }
    }
}

/// A valid IPv6 address is not empty and holds hexadecimal digits, colons
/// and dots only.
pub proof fn lemma_valid_ipv6_characters(text: Seq<u8>)
    requires
        validate_ipv6_spec(text) is Ok,
    ensures
        text.len() > 0,
        forall|i: int| 0 <= i < text.len() ==> is_ipv6_character(#[trigger] text[i]),
{
    lemma_ipv6_run_characters(ipv6_start(), text, 0);
    let end = ipv6_run(ipv6_start(), text, 0)->Ok_0;
    if end.phase == Ipv6Phase::InGroupIpv4 {
        let tail = text.skip(end.ipv4_start as int);
        lemma_ipv4_run_characters(ipv4_start(), tail);
        assert forall|i: int| 0 <= i < text.len() implies is_ipv6_character(#[trigger] text[i]) by {
            if i >= end.ipv4_start {
                assert(text[i] == tail[i - end.ipv4_start]);
            }
        }
    }
}

} // verus!
