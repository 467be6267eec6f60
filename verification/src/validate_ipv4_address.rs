//! The validator of IPv4 addresses in dotted-decimal form: a machine of two
//! states that takes the text one character at a time.

use vstd::prelude::*;
use vstd::string::StringSliceAdditionalSpecFns;

use crate::character_classes::is_digit;
use crate::context::Context;
use crate::error::Error;
use crate::text::{
    all_digits, as_text, decimal_is_at_most, decimal_value, lemma_split_first, split_spec,
};

verus! {

/// The states of the machine, each with the number of octets closed so
/// far; inside an octet, also its digits.
pub enum Ipv4Machine {
    /// At the start, or behind a dot: a digit must come.
    NotInOctet { groups: nat },
    /// Inside an octet: a digit or a dot may come.
    ExpectDigitOrDot { groups: nat, octet: Seq<u8> },
}

/// Whether the digits of an octet write a number from 0 to 255.
pub open spec fn octet_in_range(octet: Seq<u8>) -> bool {
    decimal_value(as_text(octet)) <= 255
}

/// The state in which the machine starts.
pub open spec fn ipv4_start() -> Ipv4Machine {
    Ipv4Machine::NotInOctet { groups: 0 }
}

/// One step of the machine.  A digit starts or extends an octet.  A dot
/// closes the octet, which must be in range, and counts it; a fifth dot is
/// one too many.  Any other character is illegal.
pub open spec fn ipv4_next(machine: Ipv4Machine, c: u8) -> Result<Ipv4Machine, Error> {
    match machine {
        Ipv4Machine::NotInOctet { groups } => {
            if is_digit(c) {
                Ok(Ipv4Machine::ExpectDigitOrDot { groups, octet: seq![c] })
            } else {
                Err(Error::IllegalCharacter(Context::Ipv4Address))
            }
        },
        Ipv4Machine::ExpectDigitOrDot { groups, octet } => {
            if c == '.' as u8 {
                if !octet_in_range(octet) {
                    Err(Error::InvalidDecimalOctet)
                } else if groups + 1 > 4 {
                    Err(Error::TooManyAddressParts)
                } else {
                    Ok(Ipv4Machine::NotInOctet { groups: groups + 1 })
                }
            } else if is_digit(c) {
                Ok(Ipv4Machine::ExpectDigitOrDot { groups, octet: octet.push(c) })
            } else {
                Err(Error::IllegalCharacter(Context::Ipv4Address))
            }
        },
    }
}

/// The machine's verdict at the end of the text.  It must stand inside an
/// octet; that octet is closed and counted, and there must be four.
pub open spec fn ipv4_finalize(machine: Ipv4Machine) -> Result<(), Error> {
    match machine {
        Ipv4Machine::NotInOctet { .. } => Err(Error::TruncatedHost),
        Ipv4Machine::ExpectDigitOrDot { groups, octet } => {
            if !octet_in_range(octet) {
                Err(Error::InvalidDecimalOctet)
            } else if groups + 1 == 4 {
                Ok(())
            } else if groups + 1 < 4 {
                Err(Error::TooFewAddressParts)
            } else {
                Err(Error::TooManyAddressParts)
            }
        },
    }
}

/// The state that the machine reaches from `machine` over `text`, or the
/// error of the first step that fails.
pub open spec fn ipv4_run(machine: Ipv4Machine, text: Seq<u8>) -> Result<Ipv4Machine, Error>
    decreases text.len(),
{
    if text.len() == 0 {
        Ok(machine)
    } else {
        match ipv4_next(machine, text[0]) {
            Ok(next) => ipv4_run(next, text.skip(1)),
            Err(e) => Err(e),
        }
    }
}

/// Whether `address` is an IPv4 address in dotted-decimal form, and if it
/// is not, why.
pub open spec fn validate_ipv4_spec(address: Seq<u8>) -> Result<(), Error> {
    match ipv4_run(ipv4_start(), address) {
        Ok(machine) => ipv4_finalize(machine),
        Err(e) => Err(e),
    }
}

struct Shared {
    num_groups: usize,
    octet_buffer: Vec<u8>,
}

enum State {
    NotInOctet(Shared),
    ExpectDigitOrDot(Shared),
}

/// The state of the machine for which a step's result stands.
spec fn step_view(step: Result<State, Error>) -> Result<Ipv4Machine, Error> {
    match step {
        Ok(state) => Ok(state.machine()),
        Err(e) => Err(e),
    }
}

impl State {
    /// The state of the machine for which this value stands.
    spec fn machine(self) -> Ipv4Machine {
        match self {
            State::NotInOctet(state) => Ipv4Machine::NotInOctet {
                groups: state.num_groups as nat,
            },
            State::ExpectDigitOrDot(state) => Ipv4Machine::ExpectDigitOrDot {
                groups: state.num_groups as nat,
                octet: state.octet_buffer@,
            },
        }
    }

    /// At most four octets are counted, and the buffer holds digits only.
    spec fn well_formed(self) -> bool {
        match self {
            State::NotInOctet(state) => state.num_groups <= 4,
            State::ExpectDigitOrDot(state) => state.num_groups <= 4 && all_digits(
                state.octet_buffer@,
            ),
        }
    }

    fn finalize(self) -> (verdict: Result<(), Error>)
        requires
            self.well_formed(),
        ensures
            verdict == ipv4_finalize(self.machine()),
    {
        match self {
            Self::NotInOctet(_) => Err(Error::TruncatedHost),
            Self::ExpectDigitOrDot(state) => Self::finalize_expect_digit_or_dot(state),
        }
    }

    fn finalize_expect_digit_or_dot(state: Shared) -> (verdict: Result<(), Error>)
        requires
            State::ExpectDigitOrDot(state).well_formed(),
        ensures
            verdict == ipv4_finalize(State::ExpectDigitOrDot(state).machine()),
    {
        if !decimal_is_at_most(state.octet_buffer.as_slice(), 255) {
            return Err(Error::InvalidDecimalOctet);
        }
        let num_groups = state.num_groups + 1;
        if num_groups == 4 {
            Ok(())
        } else if num_groups < 4 {
            Err(Error::TooFewAddressParts)
        } else {
            Err(Error::TooManyAddressParts)
        }
    }

    fn new() -> (state: Self)
        ensures
            state.well_formed(),
            state.machine() == ipv4_start(),
    {
        Self::NotInOctet(Shared { num_groups: 0, octet_buffer: Vec::new() })
    }

    fn next(self, c: u8) -> (next: Result<Self, Error>)
        requires
            self.well_formed(),
        ensures
            step_view(next) == ipv4_next(self.machine(), c),
            next matches Ok(state) ==> state.well_formed(),
    {
        match self {
            Self::NotInOctet(state) => Self::next_not_in_octet(state, c),
            Self::ExpectDigitOrDot(state) => Self::next_expect_digit_or_dot(state, c),
        }
    }

    fn next_not_in_octet(state: Shared, c: u8) -> (next: Result<Self, Error>)
        requires
            State::NotInOctet(state).well_formed(),
        ensures
            step_view(next) == ipv4_next(State::NotInOctet(state).machine(), c),
            next matches Ok(after) ==> after.well_formed(),
    {
        if '0' as u8 <= c && c <= '9' as u8 {
            let mut octet_buffer: Vec<u8> = Vec::new();
            octet_buffer.push(c);
            assert(octet_buffer@ =~= seq![c]);
            Ok(Self::ExpectDigitOrDot(Shared { num_groups: state.num_groups, octet_buffer }))
        } else {
            Err(Error::IllegalCharacter(Context::Ipv4Address))
        }
    }

    fn next_expect_digit_or_dot(state: Shared, c: u8) -> (next: Result<Self, Error>)
        requires
            State::ExpectDigitOrDot(state).well_formed(),
        ensures
            step_view(next) == ipv4_next(State::ExpectDigitOrDot(state).machine(), c),
            next matches Ok(after) ==> after.well_formed(),
    {
        let mut state = state;
        if c == '.' as u8 {
            if !decimal_is_at_most(state.octet_buffer.as_slice(), 255) {
                return Err(Error::InvalidDecimalOctet);
            }
            state.num_groups = state.num_groups + 1;
            if state.num_groups > 4 {
                return Err(Error::TooManyAddressParts);
            }
            state.octet_buffer.clear();
            Ok(Self::NotInOctet(state))
        } else if '0' as u8 <= c && c <= '9' as u8 {
            state.octet_buffer.push(c);
            Ok(Self::ExpectDigitOrDot(state))
        } else {
            Err(Error::IllegalCharacter(Context::Ipv4Address))
        }
    }
}

/// Validates the IPv4 address written in the bytes `address`.
pub fn validate_ipv4_bytes(address: &[u8]) -> (verdict: Result<(), Error>)
    ensures
        verdict == validate_ipv4_spec(address@),
{
    let mut machine = State::new();
    let mut i: usize = 0;
    assert(address@.skip(0) =~= address@);
    while i < address.len()
        invariant
            i <= address@.len(),
            machine.well_formed(),
            ipv4_run(ipv4_start(), address@) == ipv4_run(machine.machine(), address@.skip(i as int)),
        decreases address@.len() - i,
    {
        assert(address@.skip(i as int)[0] == address@[i as int]);
        assert(address@.skip(i as int).skip(1) =~= address@.skip(i + 1));
        match machine.next(address[i]) {
            Ok(next) => {
                machine = next;
            },
            Err(e) => {
                return Err(e);
            },
        }
        i = i + 1;
    }
    machine.finalize()
}

/// Validates the IPv4 address written in `address`: four numbers from 0 to
/// 255 in decimal digits, with dots between them.
pub fn validate_ipv4_address(address: &str) -> (verdict: Result<(), Error>)
    ensures
        verdict == validate_ipv4_spec(address.spec_bytes()),
{
    validate_ipv4_bytes(address.as_bytes())
}

/// Whether `part` writes an octet: one decimal digit or more, with a
/// value from 0 to 255.
pub open spec fn is_octet_text(part: Seq<u8>) -> bool {
    part.len() > 0 && all_digits(part) && octet_in_range(part)
}

/// Whether `text` is four octets with dots between them.
pub open spec fn is_dotted_quad(text: Seq<u8>) -> bool {
    let parts = split_spec(text, '.' as u8);
    parts.len() == 4 && forall|i: int| 0 <= i < parts.len() ==> is_octet_text(#[trigger] parts[i])
}

/// Whether the machine, run from `machine` over `rest`, ends with the
/// verdict that the address is valid.
spec fn accepts(machine: Ipv4Machine, rest: Seq<u8>) -> bool {
    match ipv4_run(machine, rest) {
        Ok(end) => ipv4_finalize(end) is Ok,
        Err(_) => false,
    }
}

/// What the rest of the text must be for the machine to accept it:
/// pieces between dots that, with the octets counted so far, make four,
/// each an octet, the first one together with the digits of the octet
/// that is open.
spec fn completes(machine: Ipv4Machine, rest: Seq<u8>) -> bool {
    let parts = split_spec(rest, '.' as u8);
    match machine {
        Ipv4Machine::NotInOctet { groups } => {
            &&& groups + parts.len() == 4
            &&& forall|i: int| 0 <= i < parts.len() ==> is_octet_text(#[trigger] parts[i])
        },
        Ipv4Machine::ExpectDigitOrDot { groups, octet } => {
            &&& groups + parts.len() == 4
            &&& is_octet_text(octet + parts[0])
            &&& forall|i: int| 1 <= i < parts.len() ==> is_octet_text(#[trigger] parts[i])
        },
    }
}

proof fn lemma_digits_of_concat(front: Seq<u8>, back: Seq<u8>)
    ensures
        all_digits(front + back) == (all_digits(front) && all_digits(back)),
{
    let whole = front + back;
    if all_digits(front) && all_digits(back) {
        assert forall|i: int| 0 <= i < whole.len() implies '0' as u8 <= #[trigger] whole[i]
            <= '9' as u8 by {
            if i < front.len() {
                assert(whole[i] == front[i]);
            } else {
                assert(whole[i] == back[i - front.len()]);
            }
        }
    }
    if all_digits(whole) {
        assert forall|i: int| 0 <= i < front.len() implies '0' as u8 <= #[trigger] front[i]
            <= '9' as u8 by {
            assert(whole[i] == front[i]);
        }
        assert forall|i: int| 0 <= i < back.len() implies '0' as u8 <= #[trigger] back[i]
            <= '9' as u8 by {
            assert(whole[i + front.len()] == back[i]);
        }
    }
}

proof fn lemma_accepts_what_completes(machine: Ipv4Machine, rest: Seq<u8>)
    requires
        machine matches Ipv4Machine::ExpectDigitOrDot { octet, .. } ==> octet.len() > 0
            && all_digits(octet),
    ensures
        accepts(machine, rest) == completes(machine, rest),
    decreases rest.len(),
{
    let dot = '.' as u8;
    let parts = split_spec(rest, dot);
    if rest.len() == 0 {
        assert(parts =~= seq![rest]);
        match machine {
            Ipv4Machine::ExpectDigitOrDot { groups, octet } => {
                assert(octet + parts[0] =~= octet);
            },
            Ipv4Machine::NotInOctet { .. } => {
                assert(!is_octet_text(parts[0]));
            },
        }
    } else {
        let c = rest[0];
        let tail = rest.skip(1);
        let later = split_spec(tail, dot);
        lemma_split_first(rest, dot);
        match machine {
            Ipv4Machine::NotInOctet { groups } => {
                if is_digit(c) {
                    let next = Ipv4Machine::ExpectDigitOrDot { groups, octet: seq![c] };
                    lemma_accepts_what_completes(next, tail);
                    assert(parts[0] == seq![c] + later[0]);
                    assert forall|i: int| 1 <= i < parts.len() implies parts[i] == later[i] by {
                        assert(parts[i] == later.skip(1)[i - 1]);
                    }
                    assert(completes(machine, rest) == completes(next, tail));
                } else if c == dot {
                    assert(parts[0].len() == 0);
                    assert(!is_octet_text(parts[0]));
                } else {
                    assert(parts[0][0] == c);
                    assert(!is_octet_text(parts[0]));
                }
            },
            Ipv4Machine::ExpectDigitOrDot { groups, octet } => {
                if c == dot {
                    assert(parts[0].len() == 0);
                    assert(octet + parts[0] =~= octet);
                    assert forall|i: int| 1 <= i < parts.len() implies parts[i] == later[i
                        - 1] by {}
                    if octet_in_range(octet) && groups + 1 <= 4 {
                        let next = Ipv4Machine::NotInOctet { groups: groups + 1 };
                        lemma_accepts_what_completes(next, tail);
                        if completes(next, tail) {
                            assert forall|i: int| 1 <= i < parts.len() implies is_octet_text(
                                #[trigger] parts[i],
                            ) by {
                                assert(is_octet_text(later[i - 1]));
                            }
                        }
                        if completes(machine, rest) {
                            assert forall|i: int| 0 <= i < later.len() implies is_octet_text(
                                #[trigger] later[i],
                            ) by {
                                assert(is_octet_text(parts[i + 1]));
                            }
                        }
                    }
                } else if is_digit(c) {
                    let next = Ipv4Machine::ExpectDigitOrDot { groups, octet: octet.push(c) };
                    assert forall|i: int| 0 <= i < octet.push(c).len() implies '0' as u8
                        <= #[trigger] octet.push(c)[i] <= '9' as u8 by {
                        if i < octet.len() {
                            assert(octet.push(c)[i] == octet[i]);
                        }
                    }
                    lemma_accepts_what_completes(next, tail);
                    assert(parts[0] == seq![c] + later[0]);
                    assert(octet + parts[0] =~= octet.push(c) + later[0]);
                    assert forall|i: int| 1 <= i < parts.len() implies parts[i] == later[i] by {
                        assert(parts[i] == later.skip(1)[i - 1]);
                    }
                    assert(completes(machine, rest) == completes(next, tail));
                } else {
                    assert(parts[0][0] == c);
                    assert((octet + parts[0])[octet.len() as int] == c);
                }
            },
        }
    }
}

/// The machine accepts exactly the texts that are four octets with dots
/// between them.
pub proof fn lemma_valid_ipv4_is_dotted_quad(address: Seq<u8>)
    ensures
        validate_ipv4_spec(address) is Ok <==> is_dotted_quad(address),
{
    lemma_accepts_what_completes(ipv4_start(), address);
}

} // verus!
