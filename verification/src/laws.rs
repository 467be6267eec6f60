//! Laws that relate the functions of this crate to each other: what
//! normalizing a path leaves behind, and what parsing does to the case of
//! letters.  That a URI is read again as it was written is shown in
//! [`crate::round_trip`].

use vstd::prelude::*;

use crate::authority::{parse_authority_spec, AuthorityView};
use crate::error::Error;
use crate::parse_host_port::{
    HostPortMachine, HostPortPhase, host_port_next, host_port_run, host_port_start,
    host_port_start_len, parse_host_port_spec,
};
use crate::text::{
    as_text, first_index, has_no_uppercase, index_of, is_lowercase_text, lemma_first_index,
    lemma_lowercase, lowercase,
};
use crate::uri::{
    UriView, Walk, can_navigate_up, check_scheme_spec, is_dot, is_dot_dot,
    is_valid_scheme_text, lemma_lowercase_scheme_is_valid, normalize_finish,
    normalize_path_spec, normalize_spec, normalize_step, normalize_walk,
    parse_authority_and_path_spec, parse_scheme_spec, parse_uri_spec,
};
use crate::validate_ipv6_address::validate_ipv6_spec;

verus! {

/// Whether a path is free of `.` and `..` segments and of two empty
/// segments in a row.
pub open spec fn is_clean_path(path: Seq<Seq<u8>>) -> bool {
    &&& forall|i: int| 0 <= i < path.len() ==> !is_dot(#[trigger] path[i]) && !is_dot_dot(path[i])
    &&& forall|i: int|
        0 <= i < path.len() - 1 ==> !((#[trigger] path[i]).len() == 0 && path[i + 1].len() == 0)
}

/// Whether a path ends in an empty segment.
pub open spec fn ends_in_empty_segment(path: Seq<Seq<u8>>) -> bool {
    path.len() > 0 && path.last().len() == 0
}

/// What holds of the walk at every step: the path put out so far is
/// clean, and away from a directory boundary it does not end in an empty
/// segment.
spec fn walk_is_clean(walk: Walk) -> bool {
    &&& is_clean_path(walk.path)
    &&& !walk.at_directory_level ==> !ends_in_empty_segment(walk.path)
}

proof fn lemma_step_keeps_clean(walk: Walk, segment: Seq<u8>)
    requires
        walk_is_clean(walk),
    ensures
        walk_is_clean(normalize_step(walk, segment)),
{
    let after = normalize_step(walk, segment);
    if is_dot(segment) {
    } else if is_dot_dot(segment) {
        if can_navigate_up(walk.path) {
            let shorter = walk.path.drop_last();
            assert forall|i: int| 0 <= i < shorter.len() implies !is_dot(#[trigger] shorter[i])
                && !is_dot_dot(shorter[i]) by {
                assert(shorter[i] == walk.path[i]);
            }
            assert forall|i: int| 0 <= i < shorter.len() - 1 implies !((#[trigger] shorter[i]).len()
                == 0 && shorter[i + 1].len() == 0) by {
                assert(shorter[i] == walk.path[i]);
                assert(shorter[i + 1] == walk.path[i + 1]);
            }
        }
    } else if !walk.at_directory_level || segment.len() > 0 {
        let longer = walk.path.push(segment);
        assert forall|i: int| 0 <= i < longer.len() implies !is_dot(#[trigger] longer[i])
            && !is_dot_dot(longer[i]) by {
            if i < walk.path.len() {
                assert(longer[i] == walk.path[i]);
            }
        }
        assert forall|i: int| 0 <= i < longer.len() - 1 implies !((#[trigger] longer[i]).len() == 0
            && longer[i + 1].len() == 0) by {
            assert(longer[i] == walk.path[i]);
            if i + 1 < walk.path.len() {
                assert(longer[i + 1] == walk.path[i + 1]);
            } else {
                assert(walk.path[i] == walk.path.last());
            }
        }
    }
}

proof fn lemma_walk_keeps_clean(walk: Walk, segments: Seq<Seq<u8>>)
    requires
        walk_is_clean(walk),
    ensures
        walk_is_clean(normalize_walk(walk, segments)),
    decreases segments.len(),
{
    if segments.len() > 0 {
        lemma_step_keeps_clean(walk, segments[0]);
        lemma_walk_keeps_clean(normalize_step(walk, segments[0]), segments.skip(1));
    }
}

/// A normalized path has no `.` and no `..` segment, and no two empty
/// segments in a row.
pub proof fn lemma_normalized_path_is_clean(path: Seq<Seq<u8>>)
    ensures
        is_clean_path(normalize_path_spec(path)),
{
    let start = Walk { path: Seq::empty(), at_directory_level: false };
    lemma_walk_keeps_clean(start, path);
    let end = normalize_walk(start, path);
    let finished = normalize_finish(end);
    if finished != end.path {
        assert forall|i: int| 0 <= i < finished.len() implies !is_dot(#[trigger] finished[i])
            && !is_dot_dot(finished[i]) by {
            if i < end.path.len() {
                assert(finished[i] == end.path[i]);
            }
        }
        assert forall|i: int| 0 <= i < finished.len() - 1 implies !((#[trigger] finished[i]).len()
            == 0 && finished[i + 1].len() == 0) by {
            assert(finished[i] == end.path[i]);
            if i + 1 < end.path.len() {
                assert(finished[i + 1] == end.path[i + 1]);
            } else {
                assert(end.path[i] == end.path.last());
            }
        }
    }
}

proof fn lemma_walk_over_clean(walk: Walk, segments: Seq<Seq<u8>>)
    requires
        is_clean_path(walk.path + segments),
        walk.at_directory_level == ends_in_empty_segment(walk.path),
    ensures
        normalize_walk(walk, segments) == (Walk {
            path: walk.path + segments,
            at_directory_level: ends_in_empty_segment(walk.path + segments),
        }),
    decreases segments.len(),
{
    let whole = walk.path + segments;
    if segments.len() == 0 {
        assert(whole =~= walk.path);
    } else {
        let segment = segments[0];
        let at = walk.path.len() as int;
        assert(whole[at] == segment);
        if walk.path.len() > 0 {
            assert(whole[at - 1] == walk.path.last());
        }
        let next = normalize_step(walk, segment);
        assert(next.path == walk.path.push(segment));
        assert(next.path + segments.skip(1) =~= whole);
        assert(next.at_directory_level == ends_in_empty_segment(next.path));
        lemma_walk_over_clean(next, segments.skip(1));
    }
}

/// Normalizing a clean path leaves it as it is.
pub proof fn lemma_clean_path_is_normalized(path: Seq<Seq<u8>>)
    requires
        is_clean_path(path),
    ensures
        normalize_path_spec(path) == path,
{
    let start = Walk { path: Seq::empty(), at_directory_level: false };
    assert(start.path + path =~= path);
    lemma_walk_over_clean(start, path);
}

/// Normalizing a path a second time changes nothing more.
pub proof fn lemma_normalize_path_is_idempotent(path: Seq<Seq<u8>>)
    ensures
        normalize_path_spec(normalize_path_spec(path)) == normalize_path_spec(path),
{
    lemma_normalized_path_is_clean(path);
    lemma_clean_path_is_normalized(normalize_path_spec(path));
}

/// Normalizing a URI a second time changes nothing more.
pub proof fn lemma_normalize_is_idempotent(uri: UriView)
    ensures
        normalize_spec(normalize_spec(uri)) == normalize_spec(uri),
{
    lemma_normalize_path_is_idempotent(uri.path);
}

/// The scheme of a parsed URI is valid and in lower case, however it was
/// written.
pub proof fn lemma_parsed_scheme_is_lowercase(text: Seq<u8>)
    ensures
        parse_uri_spec(text) matches Ok(uri) ==> (uri.scheme matches Some(scheme) ==> {
            &&& is_valid_scheme_text(scheme)
            &&& is_lowercase_text(scheme)
        }),
{
    if let Ok(uri) = parse_uri_spec(text) {
        if let Some(scheme) = uri.scheme {
            let slash = index_of(text, '/' as u8);
            let colon = index_of(text.take(slash), ':' as u8);
            let written = text.take(colon);
            assert(parse_scheme_spec(text) is Ok);
            assert(check_scheme_spec(written) is Ok);
            assert(scheme == as_text(lowercase(written)));
            lemma_lowercase(written);
            lemma_lowercase_scheme_is_valid(written);
            assert forall|i: int| 0 <= i < scheme.len() implies !('A' <= #[trigger] scheme[i]
                <= 'Z') by {
                assert(scheme[i] == lowercase(written)[i] as char);
            }
        }
    }
}

/// Whether the text of a host begins with the bracket of an IP literal.
pub open spec fn is_ip_literal_text(text: Seq<u8>) -> bool {
    text.len() > 0 && text[0] == '[' as u8
}

proof fn lemma_run_keeps_kind_of_host(machine: HostPortMachine, text: Seq<u8>)
    ensures
        host_port_run(machine, text) matches Ok(end) ==> end.host_is_reg_name
            == machine.host_is_reg_name,
    decreases text.len(),
{
    if text.len() > 0 {
        if let Ok(next) = host_port_next(machine, text[0]) {
            lemma_run_keeps_kind_of_host(next, text.skip(1));
        }
    }
}

/// A host that is a registered name comes out of parsing in lower case,
/// however it was written.
pub proof fn lemma_parsed_registered_name_is_lowercase(text: Seq<u8>)
    requires
        !is_ip_literal_text(text),
    ensures
        parse_host_port_spec(text) matches Ok((host, _)) ==> has_no_uppercase(host),
{
    let start = host_port_start(text);
    let rest = text.skip(host_port_start_len(text) as int);
    lemma_run_keeps_kind_of_host(start, rest);
    if let Ok(end) = host_port_run(start, rest) {
        lemma_lowercase(end.host);
    }
}

/// The host of a parsed authority, where it is a registered name, is in
/// lower case: the text behind the userinfo does not begin with a
/// bracket.
pub proof fn lemma_parsed_authority_host_is_lowercase(text: Seq<u8>)
    requires
        ({
            let delimiter = index_of(text, '@' as u8);
            if delimiter < text.len() {
                !is_ip_literal_text(text.skip(delimiter + 1))
            } else {
                !is_ip_literal_text(text)
            }
        }),
    ensures
        parse_authority_spec(text) matches Ok(authority) ==> has_no_uppercase(authority.host),
{
    let delimiter = index_of(text, '@' as u8);
    lemma_first_index(text, '@' as u8, '@' as u8);
    if delimiter < text.len() {
        lemma_parsed_registered_name_is_lowercase(text.skip(delimiter + 1));
    } else {
        lemma_parsed_registered_name_is_lowercase(text);
    }
}

/// Whether a host has the form of an IP literal: a valid IPv6 address, or
/// an `IPvFuture` address, which begins with `v`.
pub open spec fn is_ip_literal_host(host: Seq<u8>) -> bool {
    validate_ipv6_spec(host) is Ok || (host.len() > 0 && host[0] == 'v' as u8)
}

/// What holds of the host while the machine runs: a registered name
/// stays one, an `IPvFuture` address begins with `v`, and behind the
/// brackets stands an IP literal.
spec fn host_is_of_its_kind(machine: HostPortMachine) -> bool {
    machine.host_is_reg_name || match machine.phase {
        HostPortPhase::IpvFutureNumber | HostPortPhase::IpvFutureBody => machine.host.len() > 0
            && machine.host[0] == 'v' as u8,
        HostPortPhase::GarbageCheck | HostPortPhase::Port => is_ip_literal_host(machine.host),
        HostPortPhase::Ipv6Address => true,
        HostPortPhase::NotIpLiteral | HostPortPhase::PercentEncodedCharacter => false,
    }
}

proof fn lemma_run_keeps_host_of_its_kind(machine: HostPortMachine, text: Seq<u8>)
    requires
        host_is_of_its_kind(machine),
    ensures
        host_port_run(machine, text) matches Ok(end) ==> host_is_of_its_kind(end),
    decreases text.len(),
{
    if text.len() > 0 {
        if let Ok(next) = host_port_next(machine, text[0]) {
            if !machine.host_is_reg_name {
                match machine.phase {
                    HostPortPhase::IpvFutureNumber | HostPortPhase::IpvFutureBody => {
                        assert(next.host.len() > 0 && next.host[0] == machine.host[0]);
                    },
                    _ => {},
                }
            }
            lemma_run_keeps_host_of_its_kind(next, text.skip(1));
        }
    }
}

/// A parsed host is in lower case unless it is an IP literal.
pub proof fn lemma_parsed_host_is_lowercase_or_ip_literal(text: Seq<u8>)
    ensures
        parse_host_port_spec(text) matches Ok((host, _)) ==> has_no_uppercase(host)
            || is_ip_literal_host(host),
{
    let start = host_port_start(text);
    let rest = text.skip(host_port_start_len(text) as int);
    lemma_run_keeps_host_of_its_kind(start, rest);
    if let Ok(end) = host_port_run(start, rest) {
        lemma_lowercase(end.host);
    }
}

/// The host of a parsed URI is in lower case unless it is an IP literal.
pub proof fn lemma_parsed_uri_host_is_lowercase_or_ip_literal(text: Seq<u8>)
    ensures
        parse_uri_spec(text) matches Ok(uri) ==> (uri.authority matches Some(authority)
            ==> has_no_uppercase(authority.host) || is_ip_literal_host(authority.host)),
{
    if let Ok(uri) = parse_uri_spec(text) {
        if let Some(authority) = uri.authority {
            let offset = parse_scheme_spec(text)->Ok_0.1;
            let rest = text.skip(offset);
            let path_end = first_index(rest, '?' as u8, '#' as u8);
            let authority_and_path = rest.take(path_end);
            assert(parse_authority_and_path_spec(authority_and_path) is Ok);
            let behind = authority_and_path.skip(2);
            let written = behind.take(index_of(behind, '/' as u8));
            assert(parse_authority_spec(written) == Ok::<AuthorityView, Error>(authority));
            let delimiter = index_of(written, '@' as u8);
            if delimiter < written.len() {
                lemma_parsed_host_is_lowercase_or_ip_literal(written.skip(delimiter + 1));
            } else {
                lemma_parsed_host_is_lowercase_or_ip_literal(written);
            }
        }
    }
}

} // verus!
