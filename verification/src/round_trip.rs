//! Writing a URI and parsing what was written gives the URI back.  This
//! file holds the law and what it rests on: the same law for each
//! component.

use vstd::prelude::*;

use crate::authority::{
    AuthorityView, authority_text, host_text, parse_authority_spec, port_text, userinfo_text,
};
use crate::character_classes::{
    is_alpha, is_scheme_not_first, pchar_not_pct_encoded_set,
    query_not_pct_encoded_without_plus_set, query_or_fragment_not_pct_encoded_set,
    reg_name_not_pct_encoded_set, user_info_not_pct_encoded_set,
};
use crate::codec::{decode_spec, encode_byte, encode_spec};
use crate::context::Context;
use crate::error::Error;
use crate::parse_host_port::{
    HostPortMachine, HostPortPhase, host_port_next, host_port_run, host_port_start,
    parse_host_port_spec, port_spec, unsigned_digits,
};
use crate::text::{
    as_bytes, as_text, decimal_digits, first_index, has_no_uppercase, hex_digit_value,
    index_of, is_ascii_bytes, is_lowercase_text, join_spec, lemma_ascii_text_bytes,
    lemma_decimal_digits_value, lemma_first_index, lemma_first_index_unique, lemma_lowercase,
    lowercase, split_spec, upper_hex_digit,
};
use crate::uri::{
    UriView, authority_part_text, decode_segments_spec, encoded_segments, fragment_text,
    hierarchy_text, is_path_absolute_spec, is_valid_scheme, parse_authority_and_path_spec,
    parse_fragment_spec, parse_path_spec, parse_query_spec, parse_scheme_spec, parse_uri_spec,
    path_text, query_text, uri_text, written_path,
};
use crate::validate_ipv6_address::{
    is_ipv6_character, lemma_valid_ipv6_characters, validate_ipv6_spec,
};

verus! {

/// Whether `c` may appear in an escape: the percent sign, a decimal digit
/// or an upper-case hexadecimal letter.
pub open spec fn is_escape_character(c: u8) -> bool {
    c == '%' as u8 || ('0' as u8 <= c <= '9' as u8) || ('A' as u8 <= c <= 'F' as u8)
}

/// In a concatenation the first of two bytes is found in the front part,
/// if it is there, and else where it is found in the back part.
pub proof fn lemma_first_index_concat(front: Seq<u8>, back: Seq<u8>, a: u8, b: u8)
    ensures
        first_index(front + back, a, b) == if first_index(front, a, b) < front.len() {
            first_index(front, a, b)
        } else {
            front.len() + first_index(back, a, b)
        },
{
    lemma_first_index(front, a, b);
    lemma_first_index(back, a, b);
    let whole = front + back;
    let at = if first_index(front, a, b) < front.len() {
        first_index(front, a, b)
    } else {
        front.len() + first_index(back, a, b)
    };
    assert forall|j: int| 0 <= j < at implies #[trigger] whole[j] != a && whole[j] != b by {
        if j < front.len() {
            assert(whole[j] == front[j]);
        } else {
            assert(whole[j] == back[j - front.len()]);
        }
    }
    if at < whole.len() {
        if at < front.len() {
            assert(whole[at] == front[at]);
        } else {
            assert(whole[at] == back[at - front.len()]);
        }
    }
    lemma_first_index_unique(whole, a, b, at);
}

/// A text that holds neither of two bytes has none of them to find.
pub proof fn lemma_first_index_absent(text: Seq<u8>, a: u8, b: u8)
    requires
        !text.contains(a),
        !text.contains(b),
    ensures
        first_index(text, a, b) == text.len(),
{
    lemma_first_index(text, a, b);
    let at = first_index(text, a, b);
    if at < text.len() {
        assert(text.contains(text[at]));
    }
}

/// Encoded text holds no character that is neither allowed nor part of an
/// escape.
pub proof fn lemma_encoded_lacks(bytes: Seq<u8>, allowed: Set<u8>, c: u8)
    requires
        !allowed.contains(c),
        !is_escape_character(c),
    ensures
        !encode_spec(bytes, allowed).contains(c),
    decreases bytes.len(),
{
    if bytes.len() > 0 {
        lemma_encoded_lacks(bytes.skip(1), allowed, c);
        let head = encode_byte(bytes[0], allowed);
        let tail = encode_spec(bytes.skip(1), allowed);
        if (head + tail).contains(c) {
            let i = choose|i: int| 0 <= i < (head + tail).len() && (head + tail)[i] == c;
            if i < head.len() {
                assert(head[i] == c);
            } else {
                assert(tail[i - head.len()] == c);
                assert(tail.contains(c));
            }
        }
    }
}

/// Decoding what was encoded gives the bytes back also where the decoder
/// allows more characters than the encoder left as they are, as long as
/// the percent sign is not among them.
pub proof fn lemma_decode_encode_within(
    bytes: Seq<u8>,
    written: Set<u8>,
    read: Set<u8>,
    context: Context,
)
    requires
        forall|b: u8| written.contains(b) ==> read.contains(b) && b != '%' as u8,
    ensures
        decode_spec(encode_spec(bytes, written), read, context) == Ok::<Seq<u8>, Error>(bytes),
    decreases bytes.len(),
{
    if bytes.len() > 0 {
        let b = bytes[0];
        let rest = bytes.skip(1);
        lemma_decode_encode_within(rest, written, read, context);
        let head = encode_byte(b, written);
        let tail = encode_spec(rest, written);
        let text = head + tail;
        assert(bytes =~= seq![b] + rest);
        if written.contains(b) {
            assert(text.skip(1) =~= tail);
        } else {
            assert(text.skip(3) =~= tail);
            assert(hex_digit_value(upper_hex_digit(b / 16) as char) == Some((b / 16) as u8));
            assert(hex_digit_value(upper_hex_digit(b % 16) as char) == Some((b % 16) as u8));
        }
    } else {
        assert(bytes =~= Seq::<u8>::empty());
    }
}

/// Whether no piece holds the byte `separator`.
pub open spec fn pieces_lack(pieces: Seq<Seq<u8>>, separator: u8) -> bool {
    forall|i: int| 0 <= i < pieces.len() ==> !(#[trigger] pieces[i]).contains(separator)
}

/// Splitting what was joined gives the pieces back, where there is a
/// piece and no piece holds the separator.
pub proof fn lemma_split_join(pieces: Seq<Seq<u8>>, separator: u8)
    requires
        pieces.len() > 0,
        pieces_lack(pieces, separator),
    ensures
        split_spec(join_spec(pieces, separator), separator) == pieces,
    decreases pieces.len(),
{
    let first = pieces[0];
    assert(!first.contains(separator));
    lemma_first_index_absent(first, separator, separator);
    if pieces.len() == 1 {
        assert(pieces =~= seq![first]);
    } else {
        let rest = pieces.skip(1);
        assert forall|i: int| 0 <= i < rest.len() implies !(#[trigger] rest[i]).contains(
            separator,
        ) by {
            assert(rest[i] == pieces[i + 1]);
        }
        lemma_split_join(rest, separator);
        let tail = seq![separator] + join_spec(rest, separator);
        let text = first + tail;
        assert(join_spec(pieces, separator) =~= text);
        lemma_first_index_concat(first, tail, separator, separator);
        assert(tail[0] == separator);
        lemma_first_index_unique(tail, separator, separator, 0);
        assert(index_of(text, separator) == first.len());
        assert(text.take(first.len() as int) =~= first);
        assert(text.skip(first.len() as int + 1) =~= join_spec(rest, separator));
        assert(pieces =~= seq![first] + rest);
    }
}

/// Decoding the encoded segments of a path gives the segments back.
pub proof fn lemma_decode_encoded_segments(path: Seq<Seq<u8>>)
    ensures
        decode_segments_spec(encoded_segments(path)) == Ok::<Seq<Seq<u8>>, Error>(path),
    decreases path.len(),
{
    let encoded = encoded_segments(path);
    if path.len() == 0 {
        assert(path =~= Seq::<Seq<u8>>::empty());
    } else {
        lemma_decode_encoded_segments(path.skip(1));
        assert(encoded.skip(1) =~= encoded_segments(path.skip(1)));
        lemma_decode_encode_within(
            path[0],
            pchar_not_pct_encoded_set(),
            pchar_not_pct_encoded_set(),
            Context::Path,
        );
        assert(path =~= seq![path[0]] + path.skip(1));
    }
}

/// Two pieces or more, joined, hold the separator right behind the first
/// piece; and if their text is the separator alone, they are two empty
/// pieces.
pub proof fn lemma_join_len(pieces: Seq<Seq<u8>>, separator: u8)
    requires
        pieces.len() >= 2,
    ensures
        join_spec(pieces, separator).len() > pieces[0].len(),
        join_spec(pieces, separator)[pieces[0].len() as int] == separator,
        join_spec(pieces, separator).len() == 1 ==> pieces.len() == 2 && pieces[0].len() == 0
            && pieces[1].len() == 0,
{
    let rest = pieces.skip(1);
    let tail = join_spec(rest, separator);
    assert(rest[0] == pieces[1]);
    assert(join_spec(pieces, separator) =~= pieces[0] + seq![separator] + tail);
    if rest.len() >= 2 {
        assert(tail =~= rest[0] + seq![separator] + join_spec(rest.skip(1), separator));
        assert(tail.len() >= 1);
    } else {
        assert(tail == rest[0]);
    }
}

/// Whether a path is written as a text from which the same path is read
/// again: every path but the one of two empty segments, whose text `/` is
/// that of the path of one empty segment.
pub open spec fn is_readable_path(path: Seq<Seq<u8>>) -> bool {
    !(path.len() == 2 && path[0].len() == 0 && path[1].len() == 0)
}

/// Parsing the text of a path gives the path back.
pub proof fn lemma_parse_path_text(path: Seq<Seq<u8>>)
    requires
        is_readable_path(path),
    ensures
        parse_path_spec(path_text(path)) == Ok::<Seq<Seq<u8>>, Error>(path),
{
    let slash = '/' as u8;
    let text = path_text(path);
    if path.len() == 1 && path[0].len() == 0 {
        assert(path[0] =~= Seq::<u8>::empty());
        assert(path =~= seq![Seq::<u8>::empty()]);
    } else if path.len() == 0 {
        assert(path =~= Seq::<Seq<u8>>::empty());
    } else {
        let encoded = encoded_segments(path);
        assert forall|i: int| 0 <= i < encoded.len() implies !(#[trigger] encoded[i]).contains(
            slash,
        ) by {
            lemma_encoded_lacks(path[i], pchar_not_pct_encoded_set(), slash);
        }
        lemma_split_join(encoded, slash);
        lemma_decode_encoded_segments(path);
        if path.len() == 1 {
            // one segment that is not empty: its text is not empty and holds no slash
            assert(encoded[0].len() > 0) by {
                let segment = path[0];
                assert(encode_spec(segment, pchar_not_pct_encoded_set()) =~= encode_byte(
                    segment[0],
                    pchar_not_pct_encoded_set(),
                ) + encode_spec(segment.skip(1), pchar_not_pct_encoded_set()));
            }
            assert(text == encoded[0]);
            if text == seq![slash] {
                assert(text[0] == slash);
                assert(encoded[0].contains(slash));
            }
        } else {
            lemma_join_len(encoded, slash);
            if text == seq![slash] {
                assert(text.len() == 1);
                lemma_encoded_is_empty(path[0], pchar_not_pct_encoded_set());
                lemma_encoded_is_empty(path[1], pchar_not_pct_encoded_set());
            }
        }
    }
}

/// Only the empty byte sequence has an empty text.
pub proof fn lemma_encoded_is_empty(bytes: Seq<u8>, allowed: Set<u8>)
    ensures
        encode_spec(bytes, allowed).len() == 0 <==> bytes.len() == 0,
{
    if bytes.len() > 0 {
        assert(encode_spec(bytes, allowed) =~= encode_byte(bytes[0], allowed) + encode_spec(
            bytes.skip(1),
            allowed,
        ));
    }
}

/// The machine runs over a concatenation as it runs over the front part
/// and then, from where that left it, over the back part.
pub proof fn lemma_host_port_run_concat(machine: HostPortMachine, front: Seq<u8>, back: Seq<u8>)
    ensures
        host_port_run(machine, front + back) == match host_port_run(machine, front) {
            Ok(middle) => host_port_run(middle, back),
            Err(e) => Err(e),
        },
    decreases front.len(),
{
    if front.len() == 0 {
        assert(front + back =~= back);
    } else {
        assert((front + back)[0] == front[0]);
        assert((front + back).skip(1) =~= front.skip(1) + back);
        if let Ok(next) = host_port_next(machine, front[0]) {
            lemma_host_port_run_concat(next, front.skip(1), back);
        }
    }
}

/// The machine with `bytes` added to the host.
pub open spec fn with_host(machine: HostPortMachine, bytes: Seq<u8>) -> HostPortMachine {
    HostPortMachine {
        phase: machine.phase,
        host: machine.host + bytes,
        host_is_reg_name: machine.host_is_reg_name,
        ipv6_address: machine.ipv6_address,
        pending: machine.pending,
        port: machine.port,
    }
}

/// The machine with `bytes` added to the text of the IPv6 address.
pub open spec fn with_ipv6_address(machine: HostPortMachine, bytes: Seq<u8>) -> HostPortMachine {
    HostPortMachine {
        phase: machine.phase,
        host: machine.host,
        host_is_reg_name: machine.host_is_reg_name,
        ipv6_address: machine.ipv6_address + bytes,
        pending: machine.pending,
        port: machine.port,
    }
}

/// The machine with `text` added to the text of the port.
pub open spec fn with_port(machine: HostPortMachine, text: Seq<char>) -> HostPortMachine {
    HostPortMachine {
        phase: machine.phase,
        host: machine.host,
        host_is_reg_name: machine.host_is_reg_name,
        ipv6_address: machine.ipv6_address,
        pending: machine.pending,
        port: machine.port + text,
    }
}

/// In a registered name the machine reads the text of one byte as that
/// byte.
proof fn lemma_machine_reads_encoded_byte(machine: HostPortMachine, b: u8)
    requires
        machine.phase == HostPortPhase::NotIpLiteral,
        machine.pending is None,
    ensures
        host_port_run(machine, encode_byte(b, reg_name_not_pct_encoded_set())) == Ok::<
            HostPortMachine,
            Error,
        >(with_host(machine, seq![b])),
{
    let text = encode_byte(b, reg_name_not_pct_encoded_set());
    let end = with_host(machine, seq![b]);
    assert(machine.host + seq![b] =~= machine.host.push(b));
    if reg_name_not_pct_encoded_set().contains(b) {
        let one = host_port_next(machine, b)->Ok_0;
        assert(text.skip(1) =~= Seq::<u8>::empty());
        assert(host_port_run(one, text.skip(1)) == Ok::<HostPortMachine, Error>(one));
        assert(one == end);
    } else {
        let high = upper_hex_digit(b / 16);
        let low = upper_hex_digit(b % 16);
        assert(hex_digit_value(high as char) == Some((b / 16) as u8));
        assert(hex_digit_value(low as char) == Some((b % 16) as u8));
        let one = host_port_next(machine, '%' as u8)->Ok_0;
        let two = host_port_next(one, high)->Ok_0;
        let three = host_port_next(two, low)->Ok_0;
        assert(text[0] == '%' as u8 && text[1] == high && text[2] == low);
        assert(text.skip(1)[0] == high);
        assert(text.skip(1).skip(1)[0] == low);
        assert(text.skip(1).skip(1).skip(1) =~= Seq::<u8>::empty());
        assert(host_port_run(three, text.skip(1).skip(1).skip(1)) == Ok::<HostPortMachine, Error>(
            three,
        ));
        assert(host_port_run(two, text.skip(1).skip(1)) == Ok::<HostPortMachine, Error>(three));
        assert(host_port_run(one, text.skip(1)) == Ok::<HostPortMachine, Error>(three));
        assert(three == end);
    }
}

/// In a registered name the machine reads encoded text as the bytes that
/// were encoded.
pub proof fn lemma_machine_reads_encoded_name(machine: HostPortMachine, bytes: Seq<u8>)
    requires
        machine.phase == HostPortPhase::NotIpLiteral,
        machine.pending is None,
    ensures
        host_port_run(machine, encode_spec(bytes, reg_name_not_pct_encoded_set())) == Ok::<
            HostPortMachine,
            Error,
        >(with_host(machine, bytes)),
    decreases bytes.len(),
{
    let allowed = reg_name_not_pct_encoded_set();
    if bytes.len() == 0 {
        assert(machine.host + bytes =~= machine.host);
    } else {
        let head = encode_byte(bytes[0], allowed);
        let tail = encode_spec(bytes.skip(1), allowed);
        lemma_machine_reads_encoded_byte(machine, bytes[0]);
        let middle = with_host(machine, seq![bytes[0]]);
        lemma_machine_reads_encoded_name(middle, bytes.skip(1));
        lemma_host_port_run_concat(machine, head, tail);
        assert(middle.host + bytes.skip(1) =~= machine.host + bytes);
    }
}

/// In the brackets of an IPv6 address the machine collects every
/// character that is no closing bracket.
pub proof fn lemma_machine_collects_ipv6_address(machine: HostPortMachine, body: Seq<u8>)
    requires
        machine.phase == HostPortPhase::Ipv6Address,
        !body.contains(']' as u8),
    ensures
        host_port_run(machine, body) == Ok::<HostPortMachine, Error>(
            with_ipv6_address(machine, body),
        ),
    decreases body.len(),
{
    if body.len() == 0 {
        assert(machine.ipv6_address + body =~= machine.ipv6_address);
    } else {
        assert(body.contains(body[0]));
        let next = host_port_next(machine, body[0])->Ok_0;
        assert forall|c: u8| body.skip(1).contains(c) implies body.contains(c) by {
            let i = choose|i: int| 0 <= i < body.skip(1).len() && body.skip(1)[i] == c;
            assert(body[i + 1] == c);
        }
        lemma_machine_collects_ipv6_address(next, body.skip(1));
        assert(next.ipv6_address + body.skip(1) =~= machine.ipv6_address + body);
    }
}

/// In the port the machine collects every character.
pub proof fn lemma_machine_collects_port(machine: HostPortMachine, text: Seq<u8>)
    requires
        machine.phase == HostPortPhase::Port,
    ensures
        host_port_run(machine, text) == Ok::<HostPortMachine, Error>(
            with_port(machine, as_text(text)),
        ),
    decreases text.len(),
{
    if text.len() == 0 {
        assert(machine.port + as_text(text) =~= machine.port);
    } else {
        let next = host_port_next(machine, text[0])->Ok_0;
        lemma_machine_collects_port(next, text.skip(1));
        assert(next.port + as_text(text.skip(1)) =~= machine.port + as_text(text));
    }
}

/// The text of a port is read as that port.
proof fn lemma_port_text_is_read(machine: HostPortMachine, port: Option<u16>)
    requires
        machine.phase == HostPortPhase::NotIpLiteral || machine.phase
            == HostPortPhase::GarbageCheck,
        machine.port.len() == 0,
    ensures
        host_port_run(machine, port_text(port)) matches Ok(end) && end.host == machine.host
            && end.host_is_reg_name == machine.host_is_reg_name && port_spec(end.port) == Ok::<
            Option<u16>,
            Error,
        >(port) && (end.phase == HostPortPhase::NotIpLiteral || end.phase
            == HostPortPhase::GarbageCheck || end.phase == HostPortPhase::Port),
{
    match port {
        None => {},
        Some(number) => {
            let digits = decimal_digits(number as nat);
            let text = port_text(port);
            let next = host_port_next(machine, ':' as u8)->Ok_0;
            assert(text[0] == ':' as u8);
            assert(text.skip(1) =~= digits);
            lemma_machine_collects_port(next, digits);
            lemma_decimal_digits_value(number as nat);
            let written = as_text(digits);
            assert(next.port + written =~= written);
            assert(written[0] != '+');
            assert(unsigned_digits(written) == written);
        },
    }
}

/// Parsing the text of a host and port gives them back, where the host
/// holds no upper-case letter.
pub proof fn lemma_parse_host_port_text(host: Seq<u8>, port: Option<u16>)
    requires
        has_no_uppercase(host),
    ensures
        parse_host_port_spec(host_text(host) + port_text(port)) == Ok::<
            (Seq<u8>, Option<u16>),
            Error,
        >((host, port)),
{
    let text = host_text(host) + port_text(port);
    lemma_lowercase(host);
    if validate_ipv6_spec(host) is Ok {
        lemma_valid_ipv6_characters(host);
        assert(is_ipv6_character(host[0]));
        assert(text[0] == '[' as u8);
        assert(text[1] == host[0]);
        let start = host_port_start(text);
        let rest = text.skip(1);
        assert(!host.contains(']' as u8)) by {
            if host.contains(']' as u8) {
                let i = choose|i: int| 0 <= i < host.len() && host[i] == ']' as u8;
                assert(is_ipv6_character(host[i]));
            }
        }
        let closing = seq![']' as u8] + port_text(port);
        assert(rest =~= host + closing);
        lemma_host_port_run_concat(start, host, closing);
        lemma_machine_collects_ipv6_address(start, host);
        let collected = with_ipv6_address(start, host);
        assert(collected.ipv6_address =~= host);
        let closed = host_port_next(collected, ']' as u8)->Ok_0;
        assert(closing[0] == ']' as u8);
        assert(closing.skip(1) =~= port_text(port));
        lemma_port_text_is_read(closed, port);
    } else {
        let name = encode_spec(host, reg_name_not_pct_encoded_set());
        lemma_encoded_lacks(host, reg_name_not_pct_encoded_set(), '[' as u8);
        assert(text.len() > 0 ==> text[0] != '[' as u8) by {
            if text.len() > 0 {
                if name.len() > 0 {
                    assert(text[0] == name[0]);
                    assert(name.contains(name[0]));
                } else {
                    assert(text[0] == port_text(port)[0]);
                }
            }
        }
        let start = host_port_start(text);
        assert(text.skip(0) =~= text);
        lemma_host_port_run_concat(start, name, port_text(port));
        lemma_machine_reads_encoded_name(start, host);
        let named = with_host(start, host);
        assert(named.host =~= host);
        lemma_port_text_is_read(named, port);
    }
}

/// Whether an authority is written as a text from which the same
/// authority is read again: its host must hold no upper-case letter, as
/// parsing makes a registered name lower-case.
pub open spec fn is_readable_authority(authority: AuthorityView) -> bool {
    has_no_uppercase(authority.host)
}

/// The text of a host holds none of the characters that end an authority
/// or separate the userinfo from it.
pub proof fn lemma_host_text_lacks(host: Seq<u8>, c: u8)
    requires
        c == '@' as u8 || c == '/' as u8 || c == '?' as u8 || c == '#' as u8,
    ensures
        !host_text(host).contains(c),
{
    if validate_ipv6_spec(host) is Ok {
        let text = host_text(host);
        assert(!text.contains(c)) by {
            if text.contains(c) {
                let i = choose|i: int| 0 <= i < text.len() && text[i] == c;
                lemma_valid_ipv6_characters(host);
                let lower = lowercase(host);
                assert(0 < i < text.len() - 1);
                assert(text[i] == lower[i - 1]);
                assert(is_ipv6_character(host[i - 1]));
            }
        }
    } else {
        lemma_encoded_lacks(host, reg_name_not_pct_encoded_set(), c);
    }
}

/// The text of a port holds a colon and digits only.
pub proof fn lemma_port_text_lacks(port: Option<u16>, c: u8)
    requires
        c == '@' as u8 || c == '/' as u8 || c == '?' as u8 || c == '#' as u8,
    ensures
        !port_text(port).contains(c),
{
    if let Some(number) = port {
        lemma_decimal_digits_value(number as nat);
        let digits = decimal_digits(number as nat);
        let text = port_text(port);
        if text.contains(c) {
            let i = choose|i: int| 0 <= i < text.len() && text[i] == c;
            if i > 0 {
                assert(text[i] == digits[i - 1]);
                assert(as_text(digits)[i - 1] == digits[i - 1] as char);
            }
        }
    }
}

/// A concatenation holds a byte only if one of its parts does.
pub proof fn lemma_concat_lacks(front: Seq<u8>, back: Seq<u8>, c: u8)
    requires
        !front.contains(c),
        !back.contains(c),
    ensures
        !(front + back).contains(c),
{
    let whole = front + back;
    if whole.contains(c) {
        let i = choose|i: int| 0 <= i < whole.len() && whole[i] == c;
        if i < front.len() {
            assert(front[i] == c);
        } else {
            assert(back[i - front.len()] == c);
        }
    }
}

/// Parsing the text of an authority gives the authority back.
pub proof fn lemma_parse_authority_text(authority: AuthorityView)
    requires
        is_readable_authority(authority),
    ensures
        parse_authority_spec(authority_text(authority)) == Ok::<AuthorityView, Error>(authority),
{
    let at = '@' as u8;
    let text = authority_text(authority);
    let rest = host_text(authority.host) + port_text(authority.port);
    lemma_host_text_lacks(authority.host, at);
    lemma_port_text_lacks(authority.port, at);
    lemma_concat_lacks(host_text(authority.host), port_text(authority.port), at);
    lemma_first_index_absent(rest, at, at);
    lemma_parse_host_port_text(authority.host, authority.port);
    match authority.userinfo {
        Some(userinfo) => {
            let name = encode_spec(userinfo, user_info_not_pct_encoded_set());
            lemma_encoded_lacks(userinfo, user_info_not_pct_encoded_set(), at);
            lemma_first_index_absent(name, at, at);
            let front = name.push(at);
            assert(front =~= name + seq![at]);
            lemma_first_index_concat(name, seq![at], at, at);
            lemma_first_index_unique(seq![at], at, at, 0);
            assert(text =~= front + rest);
            lemma_first_index_concat(front, rest, at, at);
            assert(index_of(text, at) == name.len());
            assert(text.take(name.len() as int) =~= name);
            assert(text.skip(name.len() as int + 1) =~= rest);
            lemma_decode_encode_within(
                userinfo,
                user_info_not_pct_encoded_set(),
                user_info_not_pct_encoded_set(),
                Context::Userinfo,
            );
        },
        None => {
            assert(text =~= rest);
        },
    }
}

/// Whether `c` is one of the characters that end the authority, the path
/// or the query.
pub open spec fn is_delimiter(c: u8) -> bool {
    c == '/' as u8 || c == '?' as u8 || c == '#' as u8
}

/// The text of an authority holds none of the characters that end it.
pub proof fn lemma_authority_text_lacks(authority: AuthorityView, c: u8)
    requires
        is_delimiter(c),
    ensures
        !authority_text(authority).contains(c),
{
    let user = userinfo_text(authority.userinfo);
    assert(!user.contains(c)) by {
        if let Some(userinfo) = authority.userinfo {
            let name = encode_spec(userinfo, user_info_not_pct_encoded_set());
            lemma_encoded_lacks(userinfo, user_info_not_pct_encoded_set(), c);
            assert(user =~= name + seq!['@' as u8]);
            assert(!seq!['@' as u8].contains(c));
            lemma_concat_lacks(name, seq!['@' as u8], c);
        }
    }
    lemma_host_text_lacks(authority.host, c);
    lemma_port_text_lacks(authority.port, c);
    lemma_concat_lacks(user, host_text(authority.host), c);
    lemma_concat_lacks(user + host_text(authority.host), port_text(authority.port), c);
}

/// Joined pieces hold a byte only if a piece holds it or it is the
/// separator.
pub proof fn lemma_join_lacks(pieces: Seq<Seq<u8>>, separator: u8, c: u8)
    requires
        pieces_lack(pieces, c),
        separator != c,
    ensures
        !join_spec(pieces, separator).contains(c),
    decreases pieces.len(),
{
    if pieces.len() == 1 {
        assert(!pieces[0].contains(c));
    } else if pieces.len() >= 2 {
        let rest = pieces.skip(1);
        assert forall|i: int| 0 <= i < rest.len() implies !(#[trigger] rest[i]).contains(c) by {
            assert(rest[i] == pieces[i + 1]);
        }
        lemma_join_lacks(rest, separator, c);
        assert(!pieces[0].contains(c));
        assert(!seq![separator].contains(c));
        lemma_concat_lacks(pieces[0], seq![separator], c);
        lemma_concat_lacks(pieces[0] + seq![separator], join_spec(rest, separator), c);
    }
}

/// Joined pieces that begin with the separator have an empty first piece
/// and a second piece, and what follows the separator is the other pieces
/// joined.
pub proof fn lemma_join_begins_with_separator(pieces: Seq<Seq<u8>>, separator: u8)
    requires
        pieces_lack(pieces, separator),
        join_spec(pieces, separator).len() > 0,
        join_spec(pieces, separator)[0] == separator,
    ensures
        pieces.len() >= 2,
        pieces[0].len() == 0,
        join_spec(pieces, separator).skip(1) == join_spec(pieces.skip(1), separator),
{
    let text = join_spec(pieces, separator);
    assert(pieces.len() > 0);
    if pieces[0].len() > 0 {
        assert(text[0] == pieces[0][0]);
        assert(pieces[0].contains(separator));
    }
    assert(pieces.len() >= 2);
    assert(text.skip(1) =~= join_spec(pieces.skip(1), separator));
}

/// The text of a path holds neither a question mark nor a number sign.
pub proof fn lemma_path_text_lacks(path: Seq<Seq<u8>>, c: u8)
    requires
        c == '?' as u8 || c == '#' as u8,
    ensures
        !path_text(path).contains(c),
{
    if path.len() == 1 && path[0].len() == 0 {
        assert(!seq!['/' as u8].contains(c));
    } else {
        let encoded = encoded_segments(path);
        assert forall|i: int| 0 <= i < encoded.len() implies !(#[trigger] encoded[i]).contains(
            c,
        ) by {
            lemma_encoded_lacks(path[i], pchar_not_pct_encoded_set(), c);
        }
        lemma_join_lacks(encoded, '/' as u8, c);
    }
}

/// The text of an absolute path begins with a slash.
pub proof fn lemma_absolute_path_text(path: Seq<Seq<u8>>)
    requires
        is_path_absolute_spec(path),
    ensures
        path_text(path).len() > 0,
        path_text(path)[0] == '/' as u8,
{
    if !(path.len() == 1 && path[0].len() == 0) {
        let encoded = encoded_segments(path);
        lemma_encoded_is_empty(path[0], pchar_not_pct_encoded_set());
        if path.len() == 1 {
            assert(path[0].len() == 0);
        } else {
            lemma_join_len(encoded, '/' as u8);
        }
    }
}

/// Behind an authority the path is never written as nothing.
pub proof fn lemma_path_behind_authority_is_written(uri: UriView)
    requires
        uri.authority is Some,
    ensures
        path_text(written_path(uri)).len() > 0,
        uri.path.len() == 0 ==> path_text(written_path(uri)) == seq!['/' as u8],
{
    let path = written_path(uri);
    if !(path.len() == 1 && path[0].len() == 0) {
        let encoded = encoded_segments(path);
        if path.len() == 1 {
            lemma_encoded_is_empty(path[0], pchar_not_pct_encoded_set());
        } else {
            lemma_join_len(encoded, '/' as u8);
        }
    }
}

/// The text of a path begins with two slashes only where the path has
/// three segments or more and the first two are empty.
pub proof fn lemma_path_text_begins_with_two_slashes(path: Seq<Seq<u8>>)
    requires
        path_text(path).len() >= 2,
        path_text(path)[0] == '/' as u8,
        path_text(path)[1] == '/' as u8,
    ensures
        path.len() >= 3,
        path[0].len() == 0,
        path[1].len() == 0,
{
    let slash = '/' as u8;
    let encoded = encoded_segments(path);
    assert forall|i: int| 0 <= i < encoded.len() implies !(#[trigger] encoded[i]).contains(
        slash,
    ) by {
        lemma_encoded_lacks(path[i], pchar_not_pct_encoded_set(), slash);
    }
    lemma_join_begins_with_separator(encoded, slash);
    let rest = encoded.skip(1);
    assert forall|i: int| 0 <= i < rest.len() implies !(#[trigger] rest[i]).contains(slash) by {
        assert(rest[i] == encoded[i + 1]);
    }
    assert(join_spec(rest, slash)[0] == path_text(path)[1]);
    lemma_join_begins_with_separator(rest, slash);
    assert(rest[0] == encoded[1]);
    lemma_encoded_is_empty(path[0], pchar_not_pct_encoded_set());
    lemma_encoded_is_empty(path[1], pchar_not_pct_encoded_set());
}

/// The bytes of the scheme with its colon, or nothing where there is no
/// scheme.
pub open spec fn scheme_bytes(scheme: Option<Seq<char>>) -> Seq<u8> {
    match scheme {
        Some(scheme) => as_bytes(scheme).push(':' as u8),
        None => Seq::empty(),
    }
}

/// The bytes of the text that writes a URI whose scheme is ASCII.
pub open spec fn uri_bytes(uri: UriView) -> Seq<u8> {
    scheme_bytes(uri.scheme) + hierarchy_text(uri)
}

/// Whether a scheme is read again as it is written: it is ASCII, valid,
/// and in lower case.
pub open spec fn is_readable_scheme(scheme: Seq<char>) -> bool {
    &&& forall|i: int| 0 <= i < scheme.len() ==> ((#[trigger] scheme[i]) as int) < 128
    &&& is_valid_scheme(as_bytes(scheme))
    &&& is_lowercase_text(scheme)
}

/// Whether a colon stands in `text` before its first slash: what parsing
/// takes for the end of a scheme.
pub open spec fn has_colon_before_first_slash(text: Seq<u8>) -> bool {
    index_of(text.take(index_of(text, '/' as u8)), ':' as u8) < index_of(text, '/' as u8)
}

/// Whether a URI is written as a text from which the same URI is read
/// again.
///
/// Its scheme is valid and in lower case; without a scheme, no colon
/// stands before the first slash of its text.  With an authority, the
/// host is in lower case and the path begins with a slash; without one,
/// the path does not begin with two slashes.  The path is not the one of
/// two empty segments.
pub open spec fn is_readable_uri(uri: UriView) -> bool {
    &&& uri.scheme matches Some(scheme) ==> is_readable_scheme(scheme)
    &&& uri.scheme is None ==> !has_colon_before_first_slash(hierarchy_text(uri))
    &&& uri.authority matches Some(authority) ==> is_readable_authority(authority)
        && is_path_absolute_spec(uri.path)
    &&& uri.authority is None ==> !(uri.path.len() >= 3 && uri.path[0].len() == 0
        && uri.path[1].len() == 0)
    &&& is_readable_path(uri.path)
}

/// An ASCII character is its byte taken as a character, and is an
/// upper-case letter exactly if its byte is one.
proof fn lemma_ascii_character(c: char)
    requires
        (c as int) < 128,
    ensures
        (c as u8) as char == c,
        ('A' <= c <= 'Z') == ('A' as u8 <= c as u8 && c as u8 <= 'Z' as u8),
{
}

/// The bytes of a readable scheme hold no slash, no colon and no
/// upper-case letter, and are the scheme again when taken as text.
proof fn lemma_readable_scheme_bytes(scheme: Seq<char>)
    requires
        is_readable_scheme(scheme),
    ensures
        !as_bytes(scheme).contains('/' as u8),
        !as_bytes(scheme).contains(':' as u8),
        as_text(lowercase(as_bytes(scheme))) == scheme,
{
    let name = as_bytes(scheme);
    assert forall|i: int| 0 <= i < name.len() implies #[trigger] name[i] != '/' as u8 && name[i]
        != ':' as u8 by {
        if i > 0 {
            assert(is_scheme_not_first(name[i]));
        } else {
            assert(is_alpha(name[0]));
        }
    }
    assert forall|i: int| 0 <= i < name.len() implies lowercase(name)[i] as char == scheme[i] by {
        assert(!('A' <= scheme[i] <= 'Z'));
        lemma_ascii_character(scheme[i]);
    }
    assert(as_text(lowercase(name)) =~= scheme);
}

proof fn lemma_parse_scheme_text(uri: UriView)
    requires
        is_readable_uri(uri),
    ensures
        parse_scheme_spec(uri_bytes(uri)) == Ok::<(Option<Seq<char>>, int), Error>(
            (uri.scheme, scheme_bytes(uri.scheme).len() as int),
        ),
{
    let text = uri_bytes(uri);
    let rest = hierarchy_text(uri);
    let slash = '/' as u8;
    let colon = ':' as u8;
    match uri.scheme {
        None => {
            assert(text =~= rest);
        },
        Some(scheme) => {
            let name = as_bytes(scheme);
            let front = name.push(colon);
            lemma_readable_scheme_bytes(scheme);
            assert(front =~= name + seq![colon]);
            assert(!front.contains(slash)) by {
                assert(!seq![colon].contains(slash));
                lemma_concat_lacks(name, seq![colon], slash);
            }
            lemma_first_index_absent(front, slash, slash);
            lemma_first_index_concat(front, rest, slash, slash);
            lemma_first_index(rest, slash, slash);
            let first_slash = index_of(text, slash);
            assert(first_slash >= front.len());
            let before = text.take(first_slash);
            let middle = rest.take(first_slash - front.len());
            assert(before =~= name + (seq![colon] + middle));
            lemma_first_index_absent(name, colon, colon);
            lemma_first_index_concat(name, seq![colon] + middle, colon, colon);
            assert((seq![colon] + middle)[0] == colon);
            lemma_first_index_unique(seq![colon] + middle, colon, colon, 0);
            assert(index_of(before, colon) == name.len());
            assert(text.take(name.len() as int) =~= name);
        },
    }
}

proof fn lemma_parse_authority_and_path_text(uri: UriView)
    requires
        is_readable_uri(uri),
    ensures
        parse_authority_and_path_spec(authority_part_text(uri.authority) + path_text(uri.path))
            == Ok::<(Option<AuthorityView>, Seq<Seq<u8>>), Error>((uri.authority, uri.path)),
{
    let slash = '/' as u8;
    let path = path_text(uri.path);
    let text = authority_part_text(uri.authority) + path;
    lemma_parse_path_text(uri.path);
    match uri.authority {
        Some(authority) => {
            let name = authority_text(authority);
            assert(text =~= seq![slash, slash] + (name + path));
            assert(text[0] == slash && text[1] == slash);
            let rest = text.skip(2);
            assert(rest =~= name + path);
            lemma_authority_text_lacks(authority, slash);
            lemma_first_index_absent(name, slash, slash);
            lemma_first_index_concat(name, path, slash, slash);
            lemma_absolute_path_text(uri.path);
            lemma_first_index_unique(path, slash, slash, 0);
            assert(index_of(rest, slash) == name.len());
            assert(rest.take(name.len() as int) =~= name);
            assert(rest.skip(name.len() as int) =~= path);
            lemma_parse_authority_text(authority);
        },
        None => {
            assert(text =~= path);
            if path.len() >= 2 && path[0] == slash && path[1] == slash {
                lemma_path_text_begins_with_two_slashes(uri.path);
            }
        },
    }
}

proof fn lemma_parse_query_and_fragment_text(uri: UriView)
    ensures
        parse_fragment_spec(query_text(uri.query) + fragment_text(uri.fragment)) == Ok::<
            (Option<Seq<u8>>, int),
            Error,
        >((uri.fragment, query_text(uri.query).len() as int)),
        parse_query_spec(query_text(uri.query)) == Ok::<Option<Seq<u8>>, Error>(uri.query),
{
    let mark = '#' as u8;
    let query = query_text(uri.query);
    let fragment = fragment_text(uri.fragment);
    let text = query + fragment;
    assert(!query.contains(mark)) by {
        if let Some(bytes) = uri.query {
            let encoded = encode_spec(bytes, query_not_pct_encoded_without_plus_set());
            lemma_encoded_lacks(bytes, query_not_pct_encoded_without_plus_set(), mark);
            assert(!seq!['?' as u8].contains(mark));
            lemma_concat_lacks(seq!['?' as u8], encoded, mark);
        }
    }
    lemma_first_index_absent(query, mark, mark);
    lemma_first_index_concat(query, fragment, mark, mark);
    match uri.fragment {
        Some(bytes) => {
            let encoded = encode_spec(bytes, query_or_fragment_not_pct_encoded_set());
            assert(fragment[0] == mark);
            lemma_first_index_unique(fragment, mark, mark, 0);
            assert(text.skip(query.len() as int + 1) =~= encoded);
            lemma_decode_encode_within(
                bytes,
                query_or_fragment_not_pct_encoded_set(),
                query_or_fragment_not_pct_encoded_set(),
                Context::Fragment,
            );
        },
        None => {
            lemma_first_index(fragment, mark, mark);
            assert(text =~= query);
        },
    }
    if let Some(bytes) = uri.query {
        let encoded = encode_spec(bytes, query_not_pct_encoded_without_plus_set());
        assert(query.skip(1) =~= encoded);
        lemma_decode_encode_within(
            bytes,
            query_not_pct_encoded_without_plus_set(),
            query_or_fragment_not_pct_encoded_set(),
            Context::Query,
        );
    }
}

/// The text of a URI behind its scheme is cut at the end of the path.
proof fn lemma_path_end(uri: UriView)
    ensures
        first_index(hierarchy_text(uri), '?' as u8, '#' as u8) == (authority_part_text(
            uri.authority,
        ) + path_text(written_path(uri))).len(),
        hierarchy_text(uri) == (authority_part_text(uri.authority) + path_text(written_path(uri))) + (
        query_text(uri.query) + fragment_text(uri.fragment)),
{
    let rest = hierarchy_text(uri);
    let authority_and_path = authority_part_text(uri.authority) + path_text(written_path(uri));
    let query = query_text(uri.query);
    let fragment = fragment_text(uri.fragment);
    let query_and_fragment = query + fragment;
    assert(rest =~= authority_and_path + query_and_fragment);
    let question = '?' as u8;
    let mark = '#' as u8;
    assert(!authority_and_path.contains(question) && !authority_and_path.contains(mark)) by {
        lemma_path_text_lacks(written_path(uri), question);
        lemma_path_text_lacks(written_path(uri), mark);
        let authority = authority_part_text(uri.authority);
        assert(!authority.contains(question) && !authority.contains(mark)) by {
            if let Some(a) = uri.authority {
                lemma_authority_text_lacks(a, question);
                lemma_authority_text_lacks(a, mark);
                let slashes = seq!['/' as u8, '/' as u8];
                assert(!slashes.contains(question) && !slashes.contains(mark));
                lemma_concat_lacks(slashes, authority_text(a), question);
                lemma_concat_lacks(slashes, authority_text(a), mark);
            }
        }
        lemma_concat_lacks(authority, path_text(written_path(uri)), question);
        lemma_concat_lacks(authority, path_text(written_path(uri)), mark);
    }
    lemma_first_index_absent(authority_and_path, question, mark);
    lemma_first_index_concat(authority_and_path, query_and_fragment, question, mark);
    assert(first_index(query_and_fragment, question, mark) == 0) by {
        lemma_first_index(query_and_fragment, question, mark);
        if query_and_fragment.len() > 0 {
            if uri.query is Some {
                assert(query_and_fragment[0] == question);
            } else {
                assert(query_and_fragment =~= fragment);
                assert(query_and_fragment[0] == mark);
            }
            lemma_first_index_unique(query_and_fragment, question, mark, 0);
        }
    }
}

/// Parsing the text that writes a URI gives the URI back.
pub proof fn lemma_parse_uri_text(uri: UriView)
    requires
        is_readable_uri(uri),
    ensures
        parse_uri_spec(uri_bytes(uri)) == Ok::<UriView, Error>(uri),
{
    let text = uri_bytes(uri);
    let front = scheme_bytes(uri.scheme);
    let rest = hierarchy_text(uri);
    let authority_and_path = authority_part_text(uri.authority) + path_text(uri.path);
    let query = query_text(uri.query);
    let query_and_fragment = query + fragment_text(uri.fragment);
    let path_end = authority_and_path.len() as int;
    lemma_parse_scheme_text(uri);
    lemma_path_end(uri);
    lemma_parse_authority_and_path_text(uri);
    lemma_parse_query_and_fragment_text(uri);
    assert(text.skip(front.len() as int) == rest) by {
        assert(text.skip(front.len() as int) =~= rest);
    }
    assert(rest.take(path_end) == authority_and_path) by {
        assert(rest.take(path_end) =~= authority_and_path);
    }
    assert(rest.skip(path_end) == query_and_fragment) by {
        assert(rest.skip(path_end) =~= query_and_fragment);
    }
    assert(query_and_fragment.take(query.len() as int) == query) by {
        assert(query_and_fragment.take(query.len() as int) =~= query);
    }
    lemma_parse_uri_pieces(
        text,
        uri,
        front.len() as int,
        authority_and_path,
        query_and_fragment,
        query.len() as int,
    );
}

/// The URI that a text writes, put together from what its pieces write.
proof fn lemma_parse_uri_pieces(
    text: Seq<u8>,
    uri: UriView,
    offset: int,
    authority_and_path: Seq<u8>,
    query_and_fragment: Seq<u8>,
    query_end: int,
)
    requires
        parse_scheme_spec(text) == Ok::<(Option<Seq<char>>, int), Error>((uri.scheme, offset)),
        first_index(text.skip(offset), '?' as u8, '#' as u8) == authority_and_path.len(),
        text.skip(offset).take(authority_and_path.len() as int) == authority_and_path,
        text.skip(offset).skip(authority_and_path.len() as int) == query_and_fragment,
        parse_authority_and_path_spec(authority_and_path) == Ok::<
            (Option<AuthorityView>, Seq<Seq<u8>>),
            Error,
        >((uri.authority, uri.path)),
        parse_fragment_spec(query_and_fragment) == Ok::<(Option<Seq<u8>>, int), Error>(
            (uri.fragment, query_end),
        ),
        parse_query_spec(query_and_fragment.take(query_end)) == Ok::<Option<Seq<u8>>, Error>(
            uri.query,
        ),
    ensures
        parse_uri_spec(text) == Ok::<UriView, Error>(uri),
{
}

/// A concatenation of ASCII texts is ASCII.
pub proof fn lemma_concat_is_ascii(front: Seq<u8>, back: Seq<u8>)
    requires
        is_ascii_bytes(front),
        is_ascii_bytes(back),
    ensures
        is_ascii_bytes(front + back),
{
    assert forall|i: int| 0 <= i < (front + back).len() implies #[trigger] (front + back)[i]
        < 128 by {
        if i < front.len() {
            assert((front + back)[i] == front[i]);
        } else {
            assert((front + back)[i] == back[i - front.len()]);
        }
    }
}

/// The text of an authority is ASCII.
pub proof fn lemma_authority_text_is_ascii(authority: AuthorityView)
    ensures
        is_ascii_bytes(authority_text(authority)),
{
    let user = userinfo_text(authority.userinfo);
    assert(is_ascii_bytes(user)) by {
        if let Some(userinfo) = authority.userinfo {
            crate::codec::lemma_encode_is_ascii(userinfo, user_info_not_pct_encoded_set());
            assert(user =~= encode_spec(userinfo, user_info_not_pct_encoded_set()) + seq![
                '@' as u8,
            ]);
            lemma_concat_is_ascii(
                encode_spec(userinfo, user_info_not_pct_encoded_set()),
                seq!['@' as u8],
            );
        }
    }
    let host = host_text(authority.host);
    assert(is_ascii_bytes(host)) by {
        if validate_ipv6_spec(authority.host) is Ok {
            lemma_valid_ipv6_characters(authority.host);
            let lower = lowercase(authority.host);
            assert forall|i: int| 0 <= i < host.len() implies #[trigger] host[i] < 128 by {
                if 0 < i < host.len() - 1 {
                    assert(host[i] == lower[i - 1]);
                    assert(is_ipv6_character(authority.host[i - 1]));
                }
            }
        } else {
            crate::codec::lemma_encode_is_ascii(authority.host, reg_name_not_pct_encoded_set());
        }
    }
    let port = port_text(authority.port);
    assert(is_ascii_bytes(port)) by {
        if let Some(number) = authority.port {
            lemma_decimal_digits_value(number as nat);
            lemma_concat_is_ascii(seq![':' as u8], decimal_digits(number as nat));
        }
    }
    lemma_concat_is_ascii(user, host);
    lemma_concat_is_ascii(user + host, port);
}

/// Joined ASCII pieces are ASCII, where the separator is.
pub proof fn lemma_join_is_ascii(pieces: Seq<Seq<u8>>, separator: u8)
    requires
        forall|i: int| 0 <= i < pieces.len() ==> is_ascii_bytes(#[trigger] pieces[i]),
        separator < 128,
    ensures
        is_ascii_bytes(join_spec(pieces, separator)),
    decreases pieces.len(),
{
    if pieces.len() >= 2 {
        let rest = pieces.skip(1);
        assert forall|i: int| 0 <= i < rest.len() implies is_ascii_bytes(#[trigger] rest[i]) by {
            assert(rest[i] == pieces[i + 1]);
        }
        lemma_join_is_ascii(rest, separator);
        lemma_concat_is_ascii(pieces[0], seq![separator]);
        lemma_concat_is_ascii(pieces[0] + seq![separator], join_spec(rest, separator));
    } else if pieces.len() == 1 {
        assert(is_ascii_bytes(pieces[0]));
    }
}

/// The text of a URI behind its scheme is ASCII.
pub proof fn lemma_hierarchy_text_is_ascii(uri: UriView)
    ensures
        is_ascii_bytes(hierarchy_text(uri)),
{
    let authority = authority_part_text(uri.authority);
    assert(is_ascii_bytes(authority)) by {
        if let Some(a) = uri.authority {
            lemma_authority_text_is_ascii(a);
            lemma_concat_is_ascii(seq!['/' as u8, '/' as u8], authority_text(a));
        }
    }
    let path = path_text(written_path(uri));
    assert(is_ascii_bytes(path)) by {
        let encoded = encoded_segments(written_path(uri));
        assert forall|i: int| 0 <= i < encoded.len() implies is_ascii_bytes(
            #[trigger] encoded[i],
        ) by {
            crate::codec::lemma_encode_is_ascii(written_path(uri)[i], pchar_not_pct_encoded_set());
        }
        lemma_join_is_ascii(encoded, '/' as u8);
    }
    let query = query_text(uri.query);
    assert(is_ascii_bytes(query)) by {
        if let Some(bytes) = uri.query {
            crate::codec::lemma_encode_is_ascii(bytes, query_not_pct_encoded_without_plus_set());
            lemma_concat_is_ascii(
                seq!['?' as u8],
                encode_spec(bytes, query_not_pct_encoded_without_plus_set()),
            );
        }
    }
    let fragment = fragment_text(uri.fragment);
    assert(is_ascii_bytes(fragment)) by {
        if let Some(bytes) = uri.fragment {
            crate::codec::lemma_encode_is_ascii(bytes, query_or_fragment_not_pct_encoded_set());
            lemma_concat_is_ascii(
                seq!['#' as u8],
                encode_spec(bytes, query_or_fragment_not_pct_encoded_set()),
            );
        }
    }
    lemma_concat_is_ascii(authority, path);
    lemma_concat_is_ascii(authority + path, query);
    lemma_concat_is_ascii(authority + path + query, fragment);
}

/// The bytes of the string that writes a URI with an ASCII scheme are
/// the bytes of its scheme and of what follows.
pub proof fn lemma_uri_text_bytes(uri: UriView)
    requires
        uri.scheme matches Some(scheme) ==> forall|i: int|
            0 <= i < scheme.len() ==> ((#[trigger] scheme[i]) as int) < 128,
    ensures
        vstd::utf8::encode_utf8(uri_text(uri)) == uri_bytes(uri),
        is_ascii_bytes(uri_bytes(uri)),
{
    let front = scheme_bytes(uri.scheme);
    let rest = hierarchy_text(uri);
    lemma_hierarchy_text_is_ascii(uri);
    assert(is_ascii_bytes(front) && as_text(front) == crate::uri::scheme_text(uri.scheme)) by {
        if let Some(scheme) = uri.scheme {
            assert forall|i: int| 0 <= i < front.len() implies #[trigger] front[i] < 128
                && as_text(front)[i] == scheme.push(':')[i] by {
                if i < scheme.len() {
                    lemma_ascii_character(scheme[i]);
                    assert(front[i] == scheme[i] as u8);
                }
            }
            assert(as_text(front) =~= scheme.push(':'));
        } else {
            assert(as_text(front) =~= Seq::<char>::empty());
        }
    }
    lemma_concat_is_ascii(front, rest);
    assert(as_text(front + rest) =~= as_text(front) + as_text(rest));
    lemma_ascii_text_bytes(front + rest);
}

/// Parsing the string that writes a URI gives the URI back, where the
/// URI is one that can be read again.
pub proof fn lemma_written_uri_is_read_again(uri: UriView)
    requires
        is_readable_uri(uri),
    ensures
        parse_uri_spec(vstd::utf8::encode_utf8(uri_text(uri))) == Ok::<UriView, Error>(uri),
{
    lemma_uri_text_bytes(uri);
    lemma_parse_uri_text(uri);
}

/// A string in canonical form, which is one that writes a URI that can be
/// read again, is parsed and written as it is.
pub proof fn lemma_canonical_string_is_written_as_parsed(text: Seq<char>, uri: UriView)
    requires
        is_readable_uri(uri),
        text == uri_text(uri),
    ensures
        parse_uri_spec(vstd::utf8::encode_utf8(text)) matches Ok(parsed) && uri_text(parsed)
            == text,
{
    lemma_written_uri_is_read_again(uri);
}

} // verus!
