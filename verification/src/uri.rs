use vstd::prelude::*;
use vstd::slice::slice_subrange;
use vstd::string::StringSliceAdditionalSpecFns;

use crate::authority::{
    Authority, AuthorityView, authority_text, optional_authority_view, parse_authority_spec,
};
use crate::character_classes::{
    alpha, is_alpha, is_scheme_not_first, pchar_not_pct_encoded, pchar_not_pct_encoded_set,
    query_not_pct_encoded_without_plus, query_not_pct_encoded_without_plus_set,
    query_or_fragment_not_pct_encoded, query_or_fragment_not_pct_encoded_set, scheme_not_first,
};
use crate::codec::{decode_bytes, decode_spec, encode_bytes, encode_spec};
use crate::context::Context;
use crate::error::Error;
use crate::text::{
    as_text, bytes_to_string, copy_bytes, copy_optional_bytes, find_first, first_index,
    index_of, is_lowercase_text, join_spec, lemma_join_push, lemma_lowercase_text, lowercase,
    optional_view, push_text, split_spec, text_result_view, to_lowercase, to_text, utf8_text,
};

verus! {

/// What a [`Uri`] holds.
pub struct UriView {
    /// The scheme; `None` for a relative reference.
    pub scheme: Option<Seq<char>>,
    /// The authority, if there is one.
    pub authority: Option<AuthorityView>,
    /// The segments of the path, percent-decoded.  A path that begins
    /// with a slash has an empty first segment, one that ends in a slash an
    /// empty last segment; the path `/` is one empty segment, and the empty
    /// path has no segment.
    pub path: Seq<Seq<u8>>,
    /// The query, percent-decoded; `None` where there is no `?`, which is
    /// not the same as an empty query.
    pub query: Option<Seq<u8>>,
    /// The fragment, percent-decoded; `None` where there is no `#`.
    pub fragment: Option<Seq<u8>>,
}

/// The views of the segments of a path.
pub open spec fn segments_view(path: Seq<Vec<u8>>) -> Seq<Seq<u8>> {
    Seq::new(path.len(), |i: int| path[i]@)
}

/// Whether `scheme` is a letter followed by letters, digits, `+`, `-` and
/// `.` only.
pub open spec fn is_valid_scheme(scheme: Seq<u8>) -> bool {
    &&& scheme.len() > 0
    &&& is_alpha(scheme[0])
    &&& forall|i: int| 1 <= i < scheme.len() ==> is_scheme_not_first(#[trigger] scheme[i])
}

/// The verdict on a scheme: an empty one is `EmptyScheme`, one with a
/// character that is out of place `IllegalCharacter`.
pub open spec fn check_scheme_spec(scheme: Seq<u8>) -> Result<(), Error> {
    if scheme.len() == 0 {
        Err(Error::EmptyScheme)
    } else if is_valid_scheme(scheme) {
        Ok(())
    } else {
        Err(Error::IllegalCharacter(Context::Scheme))
    }
}

/// The scheme at the front of `text`, in lower case, and the place where
/// the rest begins.  A scheme ends at the first colon, which must stand
/// before the first slash; where there is no such colon there is no
/// scheme, and the rest is the whole text.
pub open spec fn parse_scheme_spec(text: Seq<u8>) -> Result<(Option<Seq<char>>, int), Error> {
    let slash = index_of(text, '/' as u8);
    let colon = index_of(text.take(slash), ':' as u8);
    if colon < slash {
        match check_scheme_spec(text.take(colon)) {
            Err(e) => Err(e),
            Ok(_) => Ok((Some(as_text(lowercase(text.take(colon)))), colon + 1)),
        }
    } else {
        Ok((None, 0))
    }
}

/// `front` put before the segments of `rest`, where there are any.
pub open spec fn put_segments_before(
    front: Seq<Seq<u8>>,
    rest: Result<Seq<Seq<u8>>, Error>,
) -> Result<Seq<Seq<u8>>, Error> {
    match rest {
        Ok(segments) => Ok(front + segments),
        Err(e) => Err(e),
    }
}

/// The segments of a path, each percent-decoded, or the error of the
/// first segment that cannot be decoded.
pub open spec fn decode_segments_spec(segments: Seq<Seq<u8>>) -> Result<Seq<Seq<u8>>, Error>
    decreases segments.len(),
{
    if segments.len() == 0 {
        Ok(Seq::empty())
    } else {
        match decode_spec(segments[0], pchar_not_pct_encoded_set(), Context::Path) {
            Err(e) => Err(e),
            Ok(segment) => put_segments_before(
                seq![segment],
                decode_segments_spec(segments.skip(1)),
            ),
        }
    }
}

/// The path that `text` writes: the path `/` is one empty segment, the
/// empty path has no segment, and any other path is the decoded pieces
/// between its slashes.
pub open spec fn parse_path_spec(text: Seq<u8>) -> Result<Seq<Seq<u8>>, Error> {
    if text == seq!['/' as u8] {
        Ok(seq![Seq::empty()])
    } else if text.len() == 0 {
        Ok(Seq::empty())
    } else {
        decode_segments_spec(split_spec(text, '/' as u8))
    }
}

/// The authority and the path that `text` writes.  Behind `//` stands an
/// authority, up to the next slash; the path is what follows, and where
/// nothing follows it is the path `/`.  Without `//` there is no authority
/// and the whole text is the path.
pub open spec fn parse_authority_and_path_spec(text: Seq<u8>) -> Result<
    (Option<AuthorityView>, Seq<Seq<u8>>),
    Error,
> {
    if text.len() >= 2 && text[0] == '/' as u8 && text[1] == '/' as u8 {
        let rest = text.skip(2);
        let authority_end = index_of(rest, '/' as u8);
        match parse_authority_spec(rest.take(authority_end)) {
            Err(e) => Err(e),
            Ok(authority) => {
                if authority_end >= rest.len() {
                    Ok((Some(authority), seq![Seq::empty()]))
                } else {
                    match parse_path_spec(rest.skip(authority_end)) {
                        Err(e) => Err(e),
                        Ok(path) => Ok((Some(authority), path)),
                    }
                }
            },
        }
    } else {
        match parse_path_spec(text) {
            Err(e) => Err(e),
            Ok(path) => Ok((None, path)),
        }
    }
}

/// The fragment at the end of `text`, which begins behind the first `#`,
/// and the place where it begins; without a `#` there is no fragment.
pub open spec fn parse_fragment_spec(text: Seq<u8>) -> Result<(Option<Seq<u8>>, int), Error> {
    let delimiter = index_of(text, '#' as u8);
    if delimiter < text.len() {
        match decode_spec(
            text.skip(delimiter + 1),
            query_or_fragment_not_pct_encoded_set(),
            Context::Fragment,
        ) {
            Err(e) => Err(e),
            Ok(fragment) => Ok((Some(fragment), delimiter)),
        }
    } else {
        Ok((None, text.len() as int))
    }
}

/// The query that `text` writes: none where the text is empty, else what
/// follows its first character, the `?`.
pub open spec fn parse_query_spec(text: Seq<u8>) -> Result<Option<Seq<u8>>, Error> {
    if text.len() == 0 {
        Ok(None)
    } else {
        match decode_spec(text.skip(1), query_or_fragment_not_pct_encoded_set(), Context::Query) {
            Err(e) => Err(e),
            Ok(query) => Ok(Some(query)),
        }
    }
}

/// The URI that `text` writes, or the first error in it.  The scheme is
/// read first; what follows is cut at the first `?` or `#` into the
/// authority and path before it and the query and fragment from it on.
/// Errors are looked for in the scheme, the authority, the path, the
/// fragment and the query, in this order.
pub open spec fn parse_uri_spec(text: Seq<u8>) -> Result<UriView, Error> {
    match parse_scheme_spec(text) {
        Err(e) => Err(e),
        Ok((scheme, offset)) => {
            let rest = text.skip(offset);
            let path_end = first_index(rest, '?' as u8, '#' as u8);
            match parse_authority_and_path_spec(rest.take(path_end)) {
                Err(e) => Err(e),
                Ok((authority, path)) => {
                    let query_and_or_fragment = rest.skip(path_end);
                    match parse_fragment_spec(query_and_or_fragment) {
                        Err(e) => Err(e),
                        Ok((fragment, query_end)) => match parse_query_spec(
                            query_and_or_fragment.take(query_end),
                        ) {
                            Err(e) => Err(e),
                            Ok(query) => Ok(UriView { scheme, authority, path, query, fragment }),
                        },
                    }
                },
            }
        },
    }
}

/// The view of a parsed URI.
pub open spec fn uri_result_view(parsed: Result<Uri, Error>) -> Result<UriView, Error> {
    match parsed {
        Ok(uri) => Ok(uri@),
        Err(e) => Err(e),
    }
}

/// The view of the segments in a result.
pub open spec fn segments_result_view(path: Result<Vec<Vec<u8>>, Error>) -> Result<
    Seq<Seq<u8>>,
    Error,
> {
    match path {
        Ok(path) => Ok(segments_view(path@)),
        Err(e) => Err(e),
    }
}

/// A Uniform Resource Identifier, taken apart: scheme, authority, path,
/// query and fragment.  Percent-encoded bytes are decoded when a URI is
/// parsed and encoded again when it is written, so the components are
/// byte sequences, which need not be UTF-8.
#[derive(Debug, PartialEq)]
pub struct Uri {
    scheme: Option<String>,
    authority: Option<Authority>,
    path: Vec<Vec<u8>>,
    query: Option<Vec<u8>>,
    fragment: Option<Vec<u8>>,
}

impl View for Uri {
    type V = UriView;

    closed spec fn view(&self) -> UriView {
        UriView {
            scheme: match self.scheme {
                Some(scheme) => Some(scheme@),
                None => None,
            },
            authority: optional_authority_view(self.authority),
            path: segments_view(self.path@),
            query: optional_view(self.query),
            fragment: optional_view(self.fragment),
        }
    }
}

/// Whether a text is a valid scheme: ASCII, a letter first, and then
/// letters, digits, `+`, `-` and `.` only.
pub open spec fn is_valid_scheme_text(scheme: Seq<char>) -> bool {
    is_valid_scheme(vstd::utf8::encode_utf8(scheme))
}

/// A valid scheme made lower-case is a valid scheme, and its text is
/// one too, with no upper-case letter.
pub proof fn lemma_lowercase_scheme_is_valid(scheme: Seq<u8>)
    requires
        is_valid_scheme(scheme),
    ensures
        is_valid_scheme(lowercase(scheme)),
        is_valid_scheme_text(as_text(lowercase(scheme))),
        is_lowercase_text(as_text(lowercase(scheme))),
{
    let lower = lowercase(scheme);
    lemma_lowercase_text(scheme);
    assert(is_alpha(lower[0])) by {
        assert(is_alpha(scheme[0]));
    }
    assert forall|i: int| 1 <= i < lower.len() implies is_scheme_not_first(#[trigger] lower[i]) by {
        assert(is_scheme_not_first(scheme[i]));
    }
    assert forall|i: int| 0 <= i < lower.len() implies #[trigger] lower[i] < 128 by {
        if i > 0 {
            assert(is_scheme_not_first(lower[i]));
        }
    }
    crate::text::lemma_ascii_text_bytes(lower);
}

impl Uri {
    /// The scheme, where there is one, is valid and in lower case.
    #[verifier::type_invariant]
    spec fn well_formed(self) -> bool {
        self.scheme matches Some(scheme) ==> is_valid_scheme_text(scheme@) && is_lowercase_text(
            scheme@,
        )
    }

    fn check_scheme(scheme: &[u8]) -> (verdict: Result<(), Error>)
        ensures
            verdict == check_scheme_spec(scheme@),
    {
        if scheme.len() == 0 {
            return Err(Error::EmptyScheme);
        }
        let first = alpha();
        let others = scheme_not_first();
        if !first.contains(scheme[0]) {
            return Err(Error::IllegalCharacter(Context::Scheme));
        }
        let mut i: usize = 1;
        while i < scheme.len()
            invariant
                1 <= i <= scheme@.len(),
                others@ == crate::character_classes::scheme_not_first_set(),
                forall|j: int| 1 <= j < i ==> is_scheme_not_first(#[trigger] scheme@[j]),
            decreases scheme@.len() - i,
        {
            if !others.contains(scheme[i]) {
                return Err(Error::IllegalCharacter(Context::Scheme));
            }
            i = i + 1;
        }
        Ok(())
    }

    fn decode_query_or_fragment(query_or_fragment: &[u8], context: Context) -> (decoded: Result<
        Vec<u8>,
        Error,
    >)
        ensures
            crate::codec::bytes_result_view(decoded) == decode_spec(
                query_or_fragment@,
                query_or_fragment_not_pct_encoded_set(),
                context,
            ),
    {
        let set = query_or_fragment_not_pct_encoded();
        decode_bytes(query_or_fragment, &set, context)
    }

    fn parse_fragment(query_and_or_fragment: &[u8]) -> (found: Result<
        (Option<Vec<u8>>, usize),
        Error,
    >)
        ensures
            match parse_fragment_spec(query_and_or_fragment@) {
                Ok((fragment, query_end)) => {
                    &&& found matches Ok((bytes, end))
                    &&& optional_view(bytes) == fragment
                    &&& end == query_end
                    &&& end <= query_and_or_fragment@.len()
                },
                Err(e) => found matches Err(error) && error == e,
            },
    {
        let delimiter = find_first(query_and_or_fragment, '#' as u8, '#' as u8);
        if delimiter < query_and_or_fragment.len() {
            let fragment_string = slice_subrange(
                query_and_or_fragment,
                delimiter + 1,
                query_and_or_fragment.len(),
            );
            assert(fragment_string@ =~= query_and_or_fragment@.skip(delimiter + 1));
            match Self::decode_query_or_fragment(fragment_string, Context::Fragment) {
                Ok(fragment) => Ok((Some(fragment), delimiter)),
                Err(e) => Err(e),
            }
        } else {
            Ok((None, delimiter))
        }
    }

    fn parse_path(path_string: &[u8]) -> (path: Result<Vec<Vec<u8>>, Error>)
        ensures
            segments_result_view(path) == parse_path_spec(path_string@),
    {
        if path_string.len() == 1 && path_string[0] == '/' as u8 {
            let mut path: Vec<Vec<u8>> = Vec::new();
            path.push(Vec::new());
            assert(path_string@ =~= seq!['/' as u8]);
            assert(segments_view(path@) =~= seq![Seq::<u8>::empty()]);
            return Ok(path);
        }
        if path_string.len() == 0 {
            let path: Vec<Vec<u8>> = Vec::new();
            assert(segments_view(path@) =~= Seq::<Seq<u8>>::empty());
            return Ok(path);
        }
        assert(path_string@ != seq!['/' as u8]) by {
            if path_string@.len() == 1 {
                assert(seq!['/' as u8][0] == '/' as u8);
            }
        }
        let set = pchar_not_pct_encoded();
        let mut path: Vec<Vec<u8>> = Vec::new();
        let mut start: usize = 0;
        let ghost whole = decode_segments_spec(split_spec(path_string@, '/' as u8));
        proof {
            assert(path_string@.skip(0) =~= path_string@);
            assert(segments_view(path@) =~= Seq::<Seq<u8>>::empty());
            lemma_put_segments_before(
                Seq::empty(),
                Seq::empty(),
                decode_segments_spec(split_spec(path_string@, '/' as u8)),
            );
        }
        loop
            invariant
                start <= path_string@.len(),
                set@ == pchar_not_pct_encoded_set(),
                whole == parse_path_spec(path_string@),
                whole == put_segments_before(
                    segments_view(path@),
                    decode_segments_spec(split_spec(path_string@.skip(start as int), '/' as u8)),
                ),
            decreases path_string@.len() - start,
        {
            let rest = slice_subrange(path_string, start, path_string.len());
            assert(rest@ =~= path_string@.skip(start as int));
            let at = find_first(rest, '/' as u8, '/' as u8);
            let segment_string = slice_subrange(rest, 0, at);
            assert(segment_string@ =~= rest@.take(at as int));
            let ghost pieces = split_spec(rest@, '/' as u8);
            let ghost before = segments_view(path@);
            assert(pieces[0] == rest@.take(at as int));
            match decode_bytes(segment_string, &set, Context::Path) {
                Err(e) => {
                    return Err(e);
                },
                Ok(segment) => {
                    proof {
                        lemma_put_segments_before(
                            before,
                            seq![segment@],
                            decode_segments_spec(pieces.skip(1)),
                        );
                    }
                    path.push(segment);
                    assert(segments_view(path@) =~= before + seq![segment@]);
                },
            }
            if at >= rest.len() {
                assert(pieces.skip(1) =~= Seq::<Seq<u8>>::empty());
                assert(decode_segments_spec(Seq::<Seq<u8>>::empty()) == Ok::<Seq<Seq<u8>>, Error>(
                    Seq::empty(),
                ));
                assert(segments_view(path@) + Seq::<Seq<u8>>::empty() =~= segments_view(path@));
                return Ok(path);
            }
            assert(pieces.skip(1) =~= split_spec(rest@.skip(at + 1), '/' as u8));
            assert(rest@.skip(at + 1) =~= path_string@.skip(start + at + 1));
            start = start + at + 1;
        }
    }

    fn parse_query(query_and_or_fragment: &[u8]) -> (query: Result<Option<Vec<u8>>, Error>)
        ensures
            match parse_query_spec(query_and_or_fragment@) {
                Ok(expected) => query matches Ok(bytes) && optional_view(bytes) == expected,
                Err(e) => query matches Err(error) && error == e,
            },
    {
        if query_and_or_fragment.len() == 0 {
            Ok(None)
        } else {
            let query_string = slice_subrange(
                query_and_or_fragment,
                1,
                query_and_or_fragment.len(),
            );
            assert(query_string@ =~= query_and_or_fragment@.skip(1));
            match Self::decode_query_or_fragment(query_string, Context::Query) {
                Ok(query) => Ok(Some(query)),
                Err(e) => Err(e),
            }
        }
    }

    fn parse_scheme(uri_string: &[u8]) -> (found: Result<(Option<String>, usize), Error>)
        ensures
            match parse_scheme_spec(uri_string@) {
                Ok((scheme, offset)) => {
                    &&& found matches Ok((text, rest))
                    &&& scheme is Some == text is Some
                    &&& text matches Some(text) ==> Some(text@) == scheme && is_valid_scheme_text(
                        text@,
                    ) && is_lowercase_text(text@)
                    &&& rest == offset
                    &&& rest <= uri_string@.len()
                },
                Err(e) => found matches Err(error) && error == e,
            },
    {
        let authority_or_path_delimiter_start = find_first(uri_string, '/' as u8, '/' as u8);
        let front = slice_subrange(uri_string, 0, authority_or_path_delimiter_start);
        assert(front@ =~= uri_string@.take(authority_or_path_delimiter_start as int));
        let scheme_end = find_first(front, ':' as u8, ':' as u8);
        if scheme_end < front.len() {
            let scheme = slice_subrange(front, 0, scheme_end);
            assert(scheme@ =~= uri_string@.take(scheme_end as int));
            match Self::check_scheme(scheme) {
                Err(e) => Err(e),
                Ok(_) => {
                    let lower = to_lowercase(scheme);
                    proof {
                        lemma_lowercase_scheme_is_valid(scheme@);
                    }
                    Ok((Some(to_text(lower.as_slice())), scheme_end + 1))
                },
            }
        } else {
            Ok((None, 0))
        }
    }

    fn split_authority_from_path_and_parse_them(authority_and_path_string: &[u8]) -> (found: Result<
        (Option<Authority>, Vec<Vec<u8>>),
        Error,
    >)
        ensures
            match parse_authority_and_path_spec(authority_and_path_string@) {
                Ok((authority, path)) => {
                    &&& found matches Ok((parsed_authority, parsed_path))
                    &&& optional_authority_view(parsed_authority) == authority
                    &&& segments_view(parsed_path@) == path
                },
                Err(e) => found matches Err(error) && error == e,
            },
    {
        if authority_and_path_string.len() >= 2 && authority_and_path_string[0] == '/' as u8
            && authority_and_path_string[1] == '/' as u8 {
            let rest = slice_subrange(
                authority_and_path_string,
                2,
                authority_and_path_string.len(),
            );
            assert(rest@ =~= authority_and_path_string@.skip(2));
            let authority_end = find_first(rest, '/' as u8, '/' as u8);
            let authority_string = slice_subrange(rest, 0, authority_end);
            assert(authority_string@ =~= rest@.take(authority_end as int));
            let path_string = slice_subrange(rest, authority_end, rest.len());
            assert(path_string@ =~= rest@.skip(authority_end as int));
            let authority = match Authority::parse_bytes(authority_string) {
                Ok(authority) => authority,
                Err(e) => {
                    return Err(e);
                },
            };
            let path = if path_string.len() == 0 {
                let mut path: Vec<Vec<u8>> = Vec::new();
                path.push(Vec::new());
                assert(segments_view(path@) =~= seq![Seq::<u8>::empty()]);
                path
            } else {
                match Self::parse_path(path_string) {
                    Ok(path) => path,
                    Err(e) => {
                        return Err(e);
                    },
                }
            };
            Ok((Some(authority), path))
        } else {
            match Self::parse_path(authority_and_path_string) {
                Ok(path) => Ok((None, path)),
                Err(e) => Err(e),
            }
        }
    }

    /// Parses the bytes of a URI.
    pub fn parse_bytes(uri_string: &[u8]) -> (parsed: Result<Self, Error>)
        ensures
            uri_result_view(parsed) == parse_uri_spec(uri_string@),
    {
        let (scheme, offset) = match Self::parse_scheme(uri_string) {
            Ok(found) => found,
            Err(e) => {
                return Err(e);
            },
        };
        let rest = slice_subrange(uri_string, offset, uri_string.len());
        assert(rest@ =~= uri_string@.skip(offset as int));
        let path_end = find_first(rest, '?' as u8, '#' as u8);
        let authority_and_path_string = slice_subrange(rest, 0, path_end);
        assert(authority_and_path_string@ =~= rest@.take(path_end as int));
        let query_and_or_fragment = slice_subrange(rest, path_end, rest.len());
        assert(query_and_or_fragment@ =~= rest@.skip(path_end as int));
        let (authority, path) = match Self::split_authority_from_path_and_parse_them(
            authority_and_path_string,
        ) {
            Ok(found) => found,
            Err(e) => {
                return Err(e);
            },
        };
        let (fragment, query_end) = match Self::parse_fragment(query_and_or_fragment) {
            Ok(found) => found,
            Err(e) => {
                return Err(e);
            },
        };
        let possible_query = slice_subrange(query_and_or_fragment, 0, query_end);
        assert(possible_query@ =~= query_and_or_fragment@.take(query_end as int));
        let query = match Self::parse_query(possible_query) {
            Ok(query) => query,
            Err(e) => {
                return Err(e);
            },
        };
        Ok(Self { scheme, authority, path, query, fragment })
    }

    /// Parses a URI: takes the string apart into scheme, authority, path,
    /// query and fragment, and decodes what is percent-encoded in them.
    pub fn parse(uri_string: &str) -> (parsed: Result<Self, Error>)
        ensures
            uri_result_view(parsed) == parse_uri_spec(uri_string.spec_bytes()),
    {
        Self::parse_bytes(uri_string.as_bytes())
    }
}

/// Putting nothing before a result leaves it as it is, and putting two
/// runs of segments before it one after the other puts their
/// concatenation there.
pub proof fn lemma_put_segments_before(
    a: Seq<Seq<u8>>,
    b: Seq<Seq<u8>>,
    rest: Result<Seq<Seq<u8>>, Error>,
)
    ensures
        put_segments_before(Seq::empty(), rest) == rest,
        put_segments_before(a, put_segments_before(b, rest)) == put_segments_before(a + b, rest),
{
    match rest {
        Ok(segments) => {
            assert(Seq::<Seq<u8>>::empty() + segments =~= segments);
            assert(a + (b + segments) =~= (a + b) + segments);
        },
        Err(_) => {},
    }
}

/// Whether a path begins with a slash: its first segment is empty.
pub open spec fn is_path_absolute_spec(path: Seq<Seq<u8>>) -> bool {
    path.len() > 0 && path[0].len() == 0
}

/// Whether the last segment of a path may be taken away to go up one
/// level: there must be a segment, and it must not be the empty first
/// segment that alone says that the path begins with a slash.
pub open spec fn can_navigate_up(path: Seq<Seq<u8>>) -> bool {
    path.len() > 0 && (path[0].len() == 0 ==> path.len() > 1)
}

/// Whether a segment is `.`, which stands for the level that one is at.
pub open spec fn is_dot(segment: Seq<u8>) -> bool {
    segment.len() == 1 && segment[0] == '.' as u8
}

/// Whether a segment is `..`, which stands for the level above.
pub open spec fn is_dot_dot(segment: Seq<u8>) -> bool {
    segment.len() == 2 && segment[0] == '.' as u8 && segment[1] == '.' as u8
}

/// The state of the walk that normalizes a path: the path rebuilt so far,
/// and whether it refers to a directory.
pub struct Walk {
    /// The segments put out so far.
    pub path: Seq<Seq<u8>>,
    /// Whether the walk stands at a directory boundary.
    pub at_directory_level: bool,
}

/// One step of the walk.  `.` puts nothing out.  `..` takes the last
/// segment away where one may go up.  Any other segment is put out,
/// unless it is empty and the walk stands at a directory boundary
/// already; the walk then stands at one exactly if the segment is empty.
pub open spec fn normalize_step(walk: Walk, segment: Seq<u8>) -> Walk {
    if is_dot(segment) {
        Walk { path: walk.path, at_directory_level: true }
    } else if is_dot_dot(segment) {
        Walk {
            path: if can_navigate_up(walk.path) {
                walk.path.drop_last()
            } else {
                walk.path
            },
            at_directory_level: true,
        }
    } else {
        Walk {
            path: if !walk.at_directory_level || segment.len() > 0 {
                walk.path.push(segment)
            } else {
                walk.path
            },
            at_directory_level: segment.len() == 0,
        }
    }
}

/// The state of the walk after the segments `segments`.
pub open spec fn normalize_walk(walk: Walk, segments: Seq<Seq<u8>>) -> Walk
    decreases segments.len(),
{
    if segments.len() == 0 {
        walk
    } else {
        normalize_walk(normalize_step(walk, segments[0]), segments.skip(1))
    }
}

/// The path at the end of the walk: at a directory boundary an empty
/// segment is added behind a last segment that is not empty.
pub open spec fn normalize_finish(walk: Walk) -> Seq<Seq<u8>> {
    if walk.at_directory_level && walk.path.len() > 0 && walk.path.last().len() > 0 {
        walk.path.push(Seq::empty())
    } else {
        walk.path
    }
}

/// The path with its `.` and `..` segments applied and taken out.
pub open spec fn normalize_path_spec(path: Seq<Seq<u8>>) -> Seq<Seq<u8>> {
    normalize_finish(
        normalize_walk(Walk { path: Seq::empty(), at_directory_level: false }, path),
    )
}

/// The URI with its path normalized.
pub open spec fn normalize_spec(uri: UriView) -> UriView {
    UriView {
        scheme: uri.scheme,
        authority: uri.authority,
        path: normalize_path_spec(uri.path),
        query: uri.query,
        fragment: uri.fragment,
    }
}

/// The base path with its last segment taken away, unless it is the only
/// one, and the segments of the relative path behind it.
pub open spec fn merge_paths(base: Seq<Seq<u8>>, relative: Seq<Seq<u8>>) -> Seq<Seq<u8>> {
    (if base.len() > 1 {
        base.drop_last()
    } else {
        base
    }) + relative
}

/// The target of the reference `relative` taken from `base`.
///
/// A reference with a scheme is its own target, with the path
/// normalized.  One with an authority takes only the scheme of the base.
/// One with an empty path takes scheme, authority and path of the base,
/// and the query too if it has none.  One whose path begins with a slash
/// takes scheme and authority of the base and keeps its path as it is.
/// Any other path is put in place of the last segment of the base path
/// and normalized.  The fragment is always that of the reference.
pub open spec fn resolve_spec(base: UriView, relative: UriView) -> UriView {
    if relative.scheme is Some {
        UriView {
            scheme: relative.scheme,
            authority: relative.authority,
            path: normalize_path_spec(relative.path),
            query: relative.query,
            fragment: relative.fragment,
        }
    } else if relative.authority is Some {
        UriView {
            scheme: base.scheme,
            authority: relative.authority,
            path: normalize_path_spec(relative.path),
            query: relative.query,
            fragment: relative.fragment,
        }
    } else if relative.path.len() == 0 {
        UriView {
            scheme: base.scheme,
            authority: base.authority,
            path: base.path,
            query: if relative.query is None {
                base.query
            } else {
                relative.query
            },
            fragment: relative.fragment,
        }
    } else if is_path_absolute_spec(relative.path) {
        UriView {
            scheme: base.scheme,
            authority: base.authority,
            path: relative.path,
            query: relative.query,
            fragment: relative.fragment,
        }
    } else {
        UriView {
            scheme: base.scheme,
            authority: base.authority,
            path: normalize_path_spec(merge_paths(base.path, relative.path)),
            query: relative.query,
            fragment: relative.fragment,
        }
    }
}

/// The segments of a path, each percent-encoded.
pub open spec fn encoded_segments(path: Seq<Seq<u8>>) -> Seq<Seq<u8>> {
    Seq::new(path.len(), |i: int| encode_spec(path[i], pchar_not_pct_encoded_set()))
}

/// The text that writes a path: `/` for the path of one empty segment,
/// else the percent-encoded segments with slashes between them.
pub open spec fn path_text(path: Seq<Seq<u8>>) -> Seq<u8> {
    if path.len() == 1 && path[0].len() == 0 {
        seq!['/' as u8]
    } else {
        join_spec(encoded_segments(path), '/' as u8)
    }
}

/// The bytes of a path as they are, not encoded: `/` for the path of one
/// empty segment, else the segments with slashes between them.
pub open spec fn raw_path_text(path: Seq<Seq<u8>>) -> Seq<u8> {
    if path.len() == 1 && path[0].len() == 0 {
        seq!['/' as u8]
    } else {
        join_spec(path, '/' as u8)
    }
}

/// The text of the scheme with its colon, or nothing where there is no
/// scheme.
pub open spec fn scheme_text(scheme: Option<Seq<char>>) -> Seq<char> {
    match scheme {
        Some(scheme) => scheme.push(':'),
        None => Seq::empty(),
    }
}

/// The text of the authority behind `//`, or nothing where there is no
/// authority.
pub open spec fn authority_part_text(authority: Option<AuthorityView>) -> Seq<u8> {
    match authority {
        Some(authority) => seq!['/' as u8, '/' as u8] + authority_text(authority),
        None => Seq::empty(),
    }
}

/// The text of the query behind its `?`, or nothing where there is no
/// query.  A plus sign is percent-encoded.
pub open spec fn query_text(query: Option<Seq<u8>>) -> Seq<u8> {
    match query {
        Some(query) => seq!['?' as u8] + encode_spec(
            query,
            query_not_pct_encoded_without_plus_set(),
        ),
        None => Seq::empty(),
    }
}

/// The text of the fragment behind its `#`, or nothing where there is no
/// fragment.
pub open spec fn fragment_text(fragment: Option<Seq<u8>>) -> Seq<u8> {
    match fragment {
        Some(fragment) => seq!['#' as u8] + encode_spec(
            fragment,
            query_or_fragment_not_pct_encoded_set(),
        ),
        None => Seq::empty(),
    }
}

/// The path as it is written: behind an authority the empty path is
/// written as the path `/`, so that the path of a URI with an authority is
/// never written as nothing.
pub open spec fn written_path(uri: UriView) -> Seq<Seq<u8>> {
    if uri.authority is Some && uri.path.len() == 0 {
        seq![Seq::empty()]
    } else {
        uri.path
    }
}

/// The text of a URI behind its scheme: authority, path, query and
/// fragment.
pub open spec fn hierarchy_text(uri: UriView) -> Seq<u8> {
    authority_part_text(uri.authority) + path_text(written_path(uri)) + query_text(uri.query)
        + fragment_text(uri.fragment)
}

/// The text that writes a URI.
pub open spec fn uri_text(uri: UriView) -> Seq<char> {
    scheme_text(uri.scheme) + as_text(hierarchy_text(uri))
}

/// What converting a component that may be absent to a string gives.
pub open spec fn optional_utf8_text(bytes: Option<Seq<u8>>) -> Result<Option<Seq<char>>, Error> {
    match bytes {
        None => Ok(None),
        Some(bytes) => match utf8_text(bytes) {
            Ok(text) => Ok(Some(text)),
            Err(e) => Err(e),
        },
    }
}

/// The view of the text, which may be absent, in a result.
pub open spec fn optional_text_result_view(r: Result<Option<String>, Error>) -> Result<
    Option<Seq<char>>,
    Error,
> {
    match r {
        Ok(Some(text)) => Ok(Some(text@)),
        Ok(None) => Ok(None),
        Err(e) => Err(e),
    }
}

/// The path that a string sets: the empty string no segment, any other
/// string the pieces between its slashes, as they are.
pub open spec fn path_from_text(text: Seq<u8>) -> Seq<Seq<u8>> {
    if text.len() == 0 {
        Seq::empty()
    } else {
        split_spec(text, '/' as u8)
    }
}

/// A copy of the segments of a path.
fn copy_segments(path: &Vec<Vec<u8>>) -> (copy: Vec<Vec<u8>>)
    ensures
        segments_view(copy@) == segments_view(path@),
{
    let mut copy: Vec<Vec<u8>> = Vec::with_capacity(path.len());
    let mut i: usize = 0;
    while i < path.len()
        invariant
            i <= path@.len(),
            copy@.len() == i,
            forall|j: int| 0 <= j < i ==> (#[trigger] copy@[j])@ == path@[j]@,
        decreases path@.len() - i,
    {
        copy.push(copy_bytes(&path[i]));
        i = i + 1;
    }
    assert(segments_view(copy@) =~= segments_view(path@));
    copy
}

/// Splits `text` at every `separator` and returns copies of the pieces.
fn split(text: &[u8], separator: u8) -> (pieces: Vec<Vec<u8>>)
    ensures
        segments_view(pieces@) == split_spec(text@, separator),
{
    let mut pieces: Vec<Vec<u8>> = Vec::new();
    let mut start: usize = 0;
    assert(text@.skip(0) =~= text@);
    assert(segments_view(pieces@) + split_spec(text@, separator) =~= split_spec(text@, separator));
    loop
        invariant
            start <= text@.len(),
            split_spec(text@, separator) == segments_view(pieces@) + split_spec(
                text@.skip(start as int),
                separator,
            ),
        decreases text@.len() - start,
    {
        let rest = slice_subrange(text, start, text.len());
        assert(rest@ =~= text@.skip(start as int));
        let at = find_first(rest, separator, separator);
        let piece = vstd::slice::slice_to_vec(slice_subrange(rest, 0, at));
        assert(piece@ =~= rest@.take(at as int));
        let ghost before = segments_view(pieces@);
        pieces.push(piece);
        assert(segments_view(pieces@) =~= before + seq![rest@.take(at as int)]);
        if at >= rest.len() {
            assert(rest@.take(at as int) =~= rest@);
            assert(split_spec(rest@, separator) =~= seq![rest@]);
            assert(segments_view(pieces@) =~= before + split_spec(rest@, separator));
            return pieces;
        }
        assert(rest@.skip(at + 1) =~= text@.skip(start + at + 1));
        assert(before + split_spec(rest@, separator) =~= segments_view(pieces@) + split_spec(
            rest@.skip(at + 1),
            separator,
        ));
        start = start + at + 1;
    }
}

/// Appends to `out` the bytes of the pieces, with `separator` between
/// each two.
fn join(out: &mut Vec<u8>, pieces: &Vec<Vec<u8>>, separator: u8)
    ensures
        final(out)@ == old(out)@ + join_spec(segments_view(pieces@), separator),
{
    let ghost all = segments_view(pieces@);
    let mut i: usize = 0;
    assert(all.take(0) =~= Seq::<Seq<u8>>::empty());
    assert(out@ =~= old(out)@ + join_spec(all.take(0), separator));
    while i < pieces.len()
        invariant
            i <= pieces@.len(),
            all == segments_view(pieces@),
            out@ == old(out)@ + join_spec(all.take(i as int), separator),
        decreases pieces@.len() - i,
    {
        let ghost before = out@;
        proof {
            lemma_join_push(all.take(i as int), all[i as int], separator);
            assert(all.take(i + 1) =~= all.take(i as int).push(all[i as int]));
        }
        if i > 0 {
            out.push(separator);
        }
        let mut piece = copy_bytes(&pieces[i]);
        out.append(&mut piece);
        assert(out@ =~= old(out)@ + join_spec(all.take(i + 1), separator));
        i = i + 1;
    }
    assert(all.take(i as int) =~= all);
}

impl Clone for Uri {
    fn clone(&self) -> (copy: Self)
        ensures
            copy@ == self@,
    {
        proof {
            use_type_invariant(self);
        }
        Uri {
            scheme: match &self.scheme {
                Some(scheme) => Some(scheme.clone()),
                None => None,
            },
            authority: match &self.authority {
                Some(authority) => Some(authority.clone()),
                None => None,
            },
            path: copy_segments(&self.path),
            query: copy_optional_bytes(&self.query),
            fragment: copy_optional_bytes(&self.fragment),
        }
    }
}

impl Default for Uri {
    fn default() -> (uri: Self)
        ensures
            uri@ == (UriView {
                scheme: None,
                authority: None,
                path: Seq::empty(),
                query: None,
                fragment: None,
            }),
    {
        let uri = Uri { scheme: None, authority: None, path: Vec::new(), query: None, fragment: None };
        assert(uri@.path =~= Seq::<Seq<u8>>::empty());
        uri
    }
}

impl Uri {
    /// Borrows the authority of the URI, if it has one.
    pub fn authority(&self) -> (authority: Option<&Authority>)
        ensures
            authority is Some == self@.authority is Some,
            authority matches Some(a) ==> a@ == self@.authority->Some_0,
    {
        self.authority.as_ref()
    }

    fn can_navigate_path_up_one_level(path: &Vec<Vec<u8>>) -> (can: bool)
        ensures
            can == can_navigate_up(segments_view(path@)),
    {
        if path.len() == 0 {
            false
        } else if path[0].len() == 0 {
            path.len() > 1
        } else {
            true
        }
    }

    /// Tells whether the path of the URI is relative: it does not begin
    /// with a slash.
    pub fn contains_relative_path(&self) -> (relative: bool)
        ensures
            relative == !is_path_absolute_spec(self@.path),
    {
        !Self::is_path_absolute(&self.path)
    }

    /// Borrows the fragment of the URI, if it has one.
    pub fn fragment(&self) -> (fragment: Option<&[u8]>)
        ensures
            fragment is Some == self@.fragment is Some,
            fragment matches Some(bytes) ==> bytes@ == self@.fragment->Some_0,
    {
        match &self.fragment {
            Some(fragment) => Some(fragment.as_slice()),
            None => None,
        }
    }

    /// Converts the fragment, if there is one, to a string; fails with
    /// `CannotExpressAsUtf8` where its bytes are not UTF-8.
    pub fn fragment_to_string(&self) -> (text: Result<Option<String>, Error>)
        ensures
            optional_text_result_view(text) == optional_utf8_text(self@.fragment),
    {
        match &self.fragment {
            Some(fragment) => match bytes_to_string(copy_bytes(fragment)) {
                Ok(text) => Ok(Some(text)),
                Err(e) => Err(e),
            },
            None => Ok(None),
        }
    }

    /// Borrows the host of the authority of the URI, if it has one.
    pub fn host(&self) -> (host: Option<&[u8]>)
        ensures
            host is Some == self@.authority is Some,
            host matches Some(bytes) ==> bytes@ == self@.authority->Some_0.host,
    {
        match &self.authority {
            Some(authority) => Some(authority.host()),
            None => None,
        }
    }

    /// Converts the host, if there is one, to a string; fails with
    /// `CannotExpressAsUtf8` where its bytes are not UTF-8.
    pub fn host_to_string(&self) -> (text: Result<Option<String>, Error>)
        ensures
            optional_text_result_view(text) == optional_utf8_text(
                match self@.authority {
                    Some(authority) => Some(authority.host),
                    None => None,
                },
            ),
    {
        match &self.authority {
            Some(authority) => match bytes_to_string(vstd::slice::slice_to_vec(authority.host())) {
                Ok(text) => Ok(Some(text)),
                Err(e) => Err(e),
            },
            None => Ok(None),
        }
    }

    fn is_path_absolute(path: &Vec<Vec<u8>>) -> (absolute: bool)
        ensures
            absolute == is_path_absolute_spec(segments_view(path@)),
    {
        path.len() > 0 && path[0].len() == 0
    }

    /// Tells whether the URI is a relative reference: it has no scheme.
    pub fn is_relative_reference(&self) -> (relative: bool)
        ensures
            relative == self@.scheme is None,
    {
        self.scheme.is_none()
    }

    /// Normalizes the path of the URI: applies its `.` and `..` segments
    /// and takes them out.
    pub fn normalize(&mut self)
        ensures
            final(self)@ == normalize_spec(old(self)@),
    {
        proof {
            use_type_invariant(&*self);
        }
        self.path = Self::normalize_path(&self.path);
    }

    fn normalize_path(path: &Vec<Vec<u8>>) -> (normalized_path: Vec<Vec<u8>>)
        ensures
            segments_view(normalized_path@) == normalize_path_spec(segments_view(path@)),
    {
        let ghost segments = segments_view(path@);
        let mut at_directory_level = false;
        let mut normalized_path: Vec<Vec<u8>> = Vec::new();
        let mut i: usize = 0;
        assert(segments.skip(0) =~= segments);
        assert(segments_view(normalized_path@) =~= Seq::<Seq<u8>>::empty());
        while i < path.len()
            invariant
                i <= path@.len(),
                segments == segments_view(path@),
                normalize_walk(
                    Walk { path: Seq::empty(), at_directory_level: false },
                    segments,
                ) == normalize_walk(
                    Walk { path: segments_view(normalized_path@), at_directory_level },
                    segments.skip(i as int),
                ),
            decreases path@.len() - i,
        {
            let segment = &path[i];
            let ghost before = segments_view(normalized_path@);
            assert(segments.skip(i as int)[0] == segment@);
            assert(segments.skip(i as int).skip(1) =~= segments.skip(i + 1));
            if segment.len() == 1 && segment[0] == '.' as u8 {
                at_directory_level = true;
            } else if segment.len() == 2 && segment[0] == '.' as u8 && segment[1] == '.' as u8 {
                if Self::can_navigate_path_up_one_level(&normalized_path) {
                    normalized_path.pop();
                    assert(segments_view(normalized_path@) =~= before.drop_last());
                }
                at_directory_level = true;
            } else {
                let new_at_directory_level = segment.len() == 0;
                if !at_directory_level || segment.len() > 0 {
                    normalized_path.push(copy_bytes(segment));
                    assert(segments_view(normalized_path@) =~= before.push(segment@));
                }
                at_directory_level = new_at_directory_level;
            }
            i = i + 1;
        }
        let ghost walked = segments_view(normalized_path@);
        if at_directory_level && normalized_path.len() > 0 && normalized_path[normalized_path.len()
            - 1].len() > 0 {
            normalized_path.push(Vec::new());
            assert(segments_view(normalized_path@) =~= walked.push(Seq::empty()));
        }
        normalized_path
    }

    /// Borrows the segments of the path of the URI.
    pub fn path(&self) -> (path: &Vec<Vec<u8>>)
        ensures
            segments_view(path@) == self@.path,
    {
        &self.path
    }

    /// Converts the path to a string, its segments as they are with
    /// slashes between them; fails with `CannotExpressAsUtf8` where the
    /// bytes are not UTF-8.
    pub fn path_to_string(&self) -> (text: Result<String, Error>)
        ensures
            text_result_view(text) == utf8_text(raw_path_text(self@.path)),
    {
        let mut bytes: Vec<u8> = Vec::new();
        if self.path.len() == 1 && self.path[0].len() == 0 {
            bytes.push('/' as u8);
            assert(bytes@ =~= raw_path_text(self@.path));
        } else {
            join(&mut bytes, &self.path, '/' as u8);
            assert(bytes@ =~= raw_path_text(self@.path));
        }
        bytes_to_string(bytes)
    }

    /// Returns the port of the authority of the URI, if it has one.
    pub fn port(&self) -> (port: Option<u16>)
        ensures
            port == match self@.authority {
                Some(authority) => authority.port,
                None => None,
            },
    {
        match &self.authority {
            Some(authority) => authority.port(),
            None => None,
        }
    }

    /// Borrows the query of the URI, if it has one.
    pub fn query(&self) -> (query: Option<&[u8]>)
        ensures
            query is Some == self@.query is Some,
            query matches Some(bytes) ==> bytes@ == self@.query->Some_0,
    {
        match &self.query {
            Some(query) => Some(query.as_slice()),
            None => None,
        }
    }

    /// Converts the query, if there is one, to a string; fails with
    /// `CannotExpressAsUtf8` where its bytes are not UTF-8.
    pub fn query_to_string(&self) -> (text: Result<Option<String>, Error>)
        ensures
            optional_text_result_view(text) == optional_utf8_text(self@.query),
    {
        match &self.query {
            Some(query) => match bytes_to_string(copy_bytes(query)) {
                Ok(text) => Ok(Some(text)),
                Err(e) => Err(e),
            },
            None => Ok(None),
        }
    }

    /// Resolves the reference `relative_reference` from this URI as the
    /// base, and returns the target.
    pub fn resolve(&self, relative_reference: &Self) -> (target: Self)
        ensures
            target@ == resolve_spec(self@, relative_reference@),
    {
        proof {
            use_type_invariant(self);
            use_type_invariant(relative_reference);
        }
        let (scheme, authority, path, query) = if relative_reference.scheme.is_some() {
            (
                relative_reference.scheme.clone(),
                relative_reference.authority.clone(),
                Self::normalize_path(&relative_reference.path),
                copy_optional_bytes(&relative_reference.query),
            )
        } else if relative_reference.authority.is_some() {
            (
                self.scheme.clone(),
                relative_reference.authority.clone(),
                Self::normalize_path(&relative_reference.path),
                copy_optional_bytes(&relative_reference.query),
            )
        } else {
            let scheme = self.scheme.clone();
            let authority = self.authority.clone();
            if relative_reference.path.len() == 0 {
                let path = copy_segments(&self.path);
                let query = if relative_reference.query.is_none() {
                    copy_optional_bytes(&self.query)
                } else {
                    copy_optional_bytes(&relative_reference.query)
                };
                (scheme, authority, path, query)
            } else {
                let query = copy_optional_bytes(&relative_reference.query);
                if Self::is_path_absolute(&relative_reference.path) {
                    (scheme, authority, copy_segments(&relative_reference.path), query)
                } else {
                    let mut path = copy_segments(&self.path);
                    let ghost base = segments_view(path@);
                    if path.len() > 1 {
                        path.pop();
                        assert(segments_view(path@) =~= base.drop_last());
                    }
                    let ghost front = segments_view(path@);
                    let mut i: usize = 0;
                    while i < relative_reference.path.len()
                        invariant
                            i <= relative_reference.path@.len(),
                            segments_view(path@) == front + segments_view(
                                relative_reference.path@,
                            ).take(i as int),
                        decreases relative_reference.path@.len() - i,
                    {
                        let ghost before = segments_view(path@);
                        let ghost added = segments_view(relative_reference.path@);
                        path.push(copy_bytes(&relative_reference.path[i]));
                        assert(segments_view(path@) =~= before.push(added[i as int]));
                        assert(added.take(i + 1) =~= added.take(i as int).push(added[i as int]));
                        assert(segments_view(path@) =~= front + segments_view(
                            relative_reference.path@,
                        ).take(i + 1));
                        i = i + 1;
                    }
                    assert(segments_view(relative_reference.path@).take(i as int)
                        =~= segments_view(relative_reference.path@));
                    (scheme, authority, Self::normalize_path(&path), query)
                }
            }
        };
        Self {
            scheme,
            authority,
            path,
            query,
            fragment: copy_optional_bytes(&relative_reference.fragment),
        }
    }

    /// Borrows the scheme of the URI, if it has one.
    pub fn scheme(&self) -> (scheme: Option<&str>)
        ensures
            scheme is Some == self@.scheme is Some,
            scheme matches Some(text) ==> text@ == self@.scheme->Some_0 && is_valid_scheme_text(
                text@,
            ) && is_lowercase_text(text@),
    {
        proof {
            use_type_invariant(self);
        }
        match &self.scheme {
            Some(scheme) => Some(scheme.as_str()),
            None => None,
        }
    }

    /// Changes the authority of the URI.
    pub fn set_authority(&mut self, authority: Option<Authority>)
        ensures
            final(self)@ == (UriView {
                authority: optional_authority_view(authority),
                ..old(self)@
            }),
    {
        proof {
            use_type_invariant(&*self);
        }
        self.authority = authority;
    }

    /// Changes the fragment of the URI.
    pub fn set_fragment(&mut self, fragment: Option<Vec<u8>>)
        ensures
            final(self)@ == (UriView { fragment: optional_view(fragment), ..old(self)@ }),
    {
        proof {
            use_type_invariant(&*self);
        }
        self.fragment = fragment;
    }

    /// Changes the path of the URI to the segments given.
    pub fn set_path(&mut self, path: Vec<Vec<u8>>)
        ensures
            final(self)@ == (UriView { path: segments_view(path@), ..old(self)@ }),
    {
        proof {
            use_type_invariant(&*self);
        }
        self.path = path;
    }

    /// Changes the path of the URI to the pieces of `path` between its
    /// slashes, as they are; the empty string gives the empty path.
    pub fn set_path_from_str(&mut self, path: &str)
        ensures
            final(self)@ == (UriView { path: path_from_text(path.spec_bytes()), ..old(self)@ }),
    {
        let bytes = path.as_bytes();
        if bytes.len() == 0 {
            let segments: Vec<Vec<u8>> = Vec::new();
            assert(segments_view(segments@) =~= Seq::<Seq<u8>>::empty());
            self.set_path(segments);
        } else {
            self.set_path(split(bytes, '/' as u8));
        }
    }

    /// Changes the query of the URI.
    pub fn set_query(&mut self, query: Option<Vec<u8>>)
        ensures
            final(self)@ == (UriView { query: optional_view(query), ..old(self)@ }),
    {
        proof {
            use_type_invariant(&*self);
        }
        self.query = query;
    }

    /// Changes the scheme of the URI.  The scheme is kept in lower case,
    /// in whatever case it is given.  A scheme that is empty or holds a
    /// character that is out of place is refused, and the URI stays as
    /// it is.
    pub fn set_scheme(&mut self, scheme: Option<String>) -> (outcome: Result<(), Error>)
        ensures
            match scheme {
                None => outcome is Ok && final(self)@ == (UriView { scheme: None, ..old(self)@ }),
                Some(text) => {
                    &&& outcome == check_scheme_spec(vstd::utf8::encode_utf8(text@))
                    &&& outcome is Ok ==> final(self)@ == (UriView {
                        scheme: Some(as_text(lowercase(vstd::utf8::encode_utf8(text@)))),
                        ..old(self)@
                    })
                    &&& outcome is Err ==> final(self)@ == old(self)@
                },
            },
    {
        proof {
            use_type_invariant(&*self);
        }
        self.scheme = match scheme {
            Some(scheme) => {
                let written = scheme.as_str().as_bytes();
                match Self::check_scheme(written) {
                    Err(e) => {
                        return Err(e);
                    },
                    Ok(_) => {},
                }
                let lower = to_lowercase(written);
                proof {
                    lemma_lowercase_scheme_is_valid(written@);
                }
                Some(to_text(lower.as_slice()))
            },
            None => None,
        };
        Ok(())
    }

    /// Takes the authority out of the URI and returns it.
    pub fn take_authority(&mut self) -> (authority: Option<Authority>)
        ensures
            optional_authority_view(authority) == old(self)@.authority,
            final(self)@ == (UriView { authority: None, ..old(self)@ }),
    {
        proof {
            use_type_invariant(&*self);
        }
        let mut taken = Uri::default();
        core::mem::swap(self, &mut taken);
        let Uri { scheme, authority, path, query, fragment } = taken;
        *self = Uri { scheme, authority: None, path, query, fragment };
        authority
    }

    /// Takes the fragment out of the URI and returns it.
    pub fn take_fragment(&mut self) -> (fragment: Option<Vec<u8>>)
        ensures
            optional_view(fragment) == old(self)@.fragment,
            final(self)@ == (UriView { fragment: None, ..old(self)@ }),
    {
        proof {
            use_type_invariant(&*self);
        }
        let mut taken = Uri::default();
        core::mem::swap(self, &mut taken);
        let Uri { scheme, authority, path, query, fragment } = taken;
        *self = Uri { scheme, authority, path, query, fragment: None };
        fragment
    }

    /// Takes the query out of the URI and returns it.
    pub fn take_query(&mut self) -> (query: Option<Vec<u8>>)
        ensures
            optional_view(query) == old(self)@.query,
            final(self)@ == (UriView { query: None, ..old(self)@ }),
    {
        proof {
            use_type_invariant(&*self);
        }
        let mut taken = Uri::default();
        core::mem::swap(self, &mut taken);
        let Uri { scheme, authority, path, query, fragment } = taken;
        *self = Uri { scheme, authority, path, query: None, fragment };
        query
    }

    /// Takes the scheme out of the URI and returns it.
    pub fn take_scheme(&mut self) -> (scheme: Option<String>)
        ensures
            scheme is Some == old(self)@.scheme is Some,
            scheme matches Some(text) ==> text@ == old(self)@.scheme->Some_0,
            final(self)@ == (UriView { scheme: None, ..old(self)@ }),
    {
        proof {
            use_type_invariant(&*self);
        }
        let mut taken = Uri::default();
        core::mem::swap(self, &mut taken);
        let Uri { scheme, authority, path, query, fragment } = taken;
        *self = Uri { scheme: None, authority, path, query, fragment };
        scheme
    }

    /// Borrows the userinfo of the authority of the URI.  There is none
    /// where the URI has no authority, and where the authority has no
    /// userinfo.
    pub fn userinfo(&self) -> (userinfo: Option<&[u8]>)
        ensures
            userinfo is Some == (self@.authority matches Some(a) && a.userinfo is Some),
            userinfo matches Some(bytes) ==> bytes@ == self@.authority->Some_0.userinfo->Some_0,
    {
        match &self.authority {
            Some(authority) => authority.userinfo(),
            None => None,
        }
    }

    /// Converts the userinfo, if there is one, to a string; fails with
    /// `CannotExpressAsUtf8` where its bytes are not UTF-8.
    pub fn userinfo_to_string(&self) -> (text: Result<Option<String>, Error>)
        ensures
            optional_text_result_view(text) == optional_utf8_text(
                match self@.authority {
                    Some(authority) => authority.userinfo,
                    None => None,
                },
            ),
    {
        match self.userinfo() {
            Some(userinfo) => match bytes_to_string(vstd::slice::slice_to_vec(userinfo)) {
                Ok(text) => Ok(Some(text)),
                Err(e) => Err(e),
            },
            None => Ok(None),
        }
    }

    /// Appends to `out` the text of the path: its percent-encoded
    /// segments with slashes between them, and a slash alone for the empty
    /// path behind an authority.
    fn write_path(&self, out: &mut Vec<u8>)
        ensures
            final(out)@ == old(out)@ + path_text(written_path(self@)),
    {
        if self.path.len() == 0 {
            if self.authority.is_some() {
                out.push('/' as u8);
                assert(out@ =~= old(out)@ + path_text(written_path(self@)));
            } else {
                assert(out@ =~= old(out)@ + path_text(written_path(self@)));
            }
            return ;
        }
        if self.path.len() == 1 && self.path[0].len() == 0 {
            out.push('/' as u8);
            assert(out@ =~= old(out)@ + path_text(self@.path));
            return ;
        }
        let set = pchar_not_pct_encoded();
        let ghost pieces = encoded_segments(self@.path);
        let mut i: usize = 0;
        assert(pieces.take(0) =~= Seq::<Seq<u8>>::empty());
        assert(out@ =~= old(out)@ + join_spec(pieces.take(0), '/' as u8));
        while i < self.path.len()
            invariant
                i <= self.path@.len(),
                set@ == pchar_not_pct_encoded_set(),
                pieces == encoded_segments(self@.path),
                out@ == old(out)@ + join_spec(pieces.take(i as int), '/' as u8),
            decreases self.path@.len() - i,
        {
            proof {
                lemma_join_push(pieces.take(i as int), pieces[i as int], '/' as u8);
                assert(pieces.take(i + 1) =~= pieces.take(i as int).push(pieces[i as int]));
            }
            if i > 0 {
                out.push('/' as u8);
            }
            encode_bytes(out, self.path[i].as_slice(), &set);
            assert(out@ =~= old(out)@ + join_spec(pieces.take(i + 1), '/' as u8));
            i = i + 1;
        }
        assert(pieces.take(i as int) =~= pieces);
    }

    /// The text that writes the URI: the scheme and a colon; `//` and the
    /// authority; the path; `?` and the query; `#` and the fragment; each
    /// where there is one, and each percent-encoded as its place asks.
    /// Behind an authority the empty path is written as `/`.
    pub fn to_string(&self) -> (text: String)
        ensures
            text@ == uri_text(self@),
    {
        let mut text = String::new();
        if let Some(scheme) = &self.scheme {
            text.append(scheme.as_str());
            text.push(':');
        }
        assert(text@ =~= scheme_text(self@.scheme));
        let mut bytes: Vec<u8> = Vec::new();
        if let Some(authority) = &self.authority {
            bytes.push('/' as u8);
            bytes.push('/' as u8);
            authority.write_to(&mut bytes);
        }
        assert(bytes@ =~= authority_part_text(self@.authority));
        self.write_path(&mut bytes);
        let ghost with_path = bytes@;
        if let Some(query) = &self.query {
            bytes.push('?' as u8);
            let set = query_not_pct_encoded_without_plus();
            encode_bytes(&mut bytes, query.as_slice(), &set);
        }
        assert(bytes@ =~= with_path + query_text(self@.query));
        let ghost with_query = bytes@;
        if let Some(fragment) = &self.fragment {
            bytes.push('#' as u8);
            let set = query_or_fragment_not_pct_encoded();
            encode_bytes(&mut bytes, fragment.as_slice(), &set);
        }
        assert(bytes@ =~= with_query + fragment_text(self@.fragment));
        assert(bytes@ =~= hierarchy_text(self@));
        push_text(&mut text, bytes.as_slice());
        text
    }
}

/// Converting a string to a URI is parsing it.
impl TryFrom<&str> for Uri {
    type Error = Error;

    fn try_from(uri_string: &str) -> (parsed: Result<Self, Error>)
        ensures
            uri_result_view(parsed) == parse_uri_spec(uri_string.spec_bytes()),
    {
        Uri::parse(uri_string)
    }
}

/// A URI with the view that parsing `text` gives, or the error of parsing
/// it.
pub open spec fn some_parsed_uri(text: Seq<u8>) -> Result<Uri, Error> {
    match parse_uri_spec(text) {
        Ok(view) => Ok(choose|uri: Uri| uri@ == view),
        Err(e) => Err(e),
    }
}

/// The conversion is stated by its own `ensures`, over the view of the
/// URI.  The specification function of the trait has to name the URI
/// itself, which the view does not determine, so the trait's clause is
/// not claimed.
impl vstd::std_specs::convert::TryFromSpecImpl<&str> for Uri {
    open spec fn obeys_try_from_spec() -> bool {
        false
    }

    open spec fn try_from_spec(uri_string: &str) -> Result<Self, Error> {
        some_parsed_uri(uri_string.spec_bytes())
    }
}

/// As for `&str`: the conversion is stated by its own `ensures`.
impl vstd::std_specs::convert::TryFromSpecImpl<String> for Uri {
    open spec fn obeys_try_from_spec() -> bool {
        false
    }

    open spec fn try_from_spec(uri_string: String) -> Result<Self, Error> {
        some_parsed_uri(vstd::utf8::encode_utf8(uri_string@))
    }
}

/// Converting a string to a URI is parsing it.
impl TryFrom<String> for Uri {
    type Error = Error;

    fn try_from(uri_string: String) -> (parsed: Result<Self, Error>)
        ensures
            uri_result_view(parsed) == parse_uri_spec(vstd::utf8::encode_utf8(uri_string@)),
    {
        Uri::parse(uri_string.as_str())
    }
}

} // verus!
