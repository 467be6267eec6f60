//! The sets of characters that the grammar of a URI allows in each of its
//! places.  All of them are sets of ASCII characters, held as bytes.

use vstd::prelude::*;

verus! {

/// `ALPHA`: the letters of the ASCII alphabet, in either case.
pub open spec fn is_alpha(b: u8) -> bool {
    (('a' as u8) <= b <= ('z' as u8)) || (('A' as u8) <= b <= ('Z' as u8))
}

/// `DIGIT`: the decimal digits.
pub open spec fn is_digit(b: u8) -> bool {
    ('0' as u8) <= b <= ('9' as u8)
}

/// `HEXDIG`: the hexadecimal digits, in either case.
pub open spec fn is_hexdig(b: u8) -> bool {
    is_digit(b) || (('A' as u8) <= b <= ('F' as u8)) || (('a' as u8) <= b <= ('f' as u8))
}

/// The "unreserved" characters of RFC 3986.
pub open spec fn is_unreserved(b: u8) -> bool {
    is_alpha(b) || is_digit(b) || b == ('-' as u8) || b == ('.' as u8) || b == ('_' as u8) || b == ('~' as u8)
}

/// The "sub-delims" characters of RFC 3986.
pub open spec fn is_sub_delim(b: u8) -> bool {
    b == ('!' as u8) || b == ('$' as u8) || b == ('&' as u8) || b == ('\'' as u8) || b == ('(' as u8) || b == (')' as u8) || b == ('*' as u8)
        || b == ('+' as u8) || b == (',' as u8) || b == (';' as u8) || b == ('=' as u8)
}

/// What may follow the first character of a scheme.
pub open spec fn is_scheme_not_first(b: u8) -> bool {
    is_alpha(b) || is_digit(b) || b == ('+' as u8) || b == ('-' as u8) || b == ('.' as u8)
}

/// The "pchar" characters of RFC 3986, leaving out "pct-encoded".
pub open spec fn is_pchar_not_pct_encoded(b: u8) -> bool {
    is_unreserved(b) || is_sub_delim(b) || b == (':' as u8) || b == ('@' as u8)
}

/// The characters of a query or a fragment, leaving out "pct-encoded".
pub open spec fn is_query_or_fragment_not_pct_encoded(b: u8) -> bool {
    is_pchar_not_pct_encoded(b) || b == ('/' as u8) || b == ('?' as u8)
}

/// The characters of a query, leaving out "pct-encoded" and the plus sign,
/// which some services read as a space.
pub open spec fn is_query_not_pct_encoded_without_plus(b: u8) -> bool {
    is_query_or_fragment_not_pct_encoded(b) && b != ('+' as u8)
}

/// The characters of a userinfo, leaving out "pct-encoded".
pub open spec fn is_user_info_not_pct_encoded(b: u8) -> bool {
    is_unreserved(b) || is_sub_delim(b) || b == (':' as u8)
}

/// The characters of a registered name, leaving out "pct-encoded".
pub open spec fn is_reg_name_not_pct_encoded(b: u8) -> bool {
    is_unreserved(b) || is_sub_delim(b)
}

/// The characters of the last part of an `IPvFuture` address.
pub open spec fn is_ipv_future_last_part(b: u8) -> bool {
    is_unreserved(b) || is_sub_delim(b) || b == (':' as u8)
}

/// The set `ALPHA`.
pub open spec fn alpha_set() -> Set<u8> {
    Set::new(|b: u8| is_alpha(b))
}

/// The set `DIGIT`.
pub open spec fn digit_set() -> Set<u8> {
    Set::new(|b: u8| is_digit(b))
}

/// The set `HEXDIG`.
pub open spec fn hexdig_set() -> Set<u8> {
    Set::new(|b: u8| is_hexdig(b))
}

/// The set of the "unreserved" characters.
pub open spec fn unreserved_set() -> Set<u8> {
    Set::new(|b: u8| is_unreserved(b))
}

/// The set of the "sub-delims" characters.
pub open spec fn sub_delims_set() -> Set<u8> {
    Set::new(|b: u8| is_sub_delim(b))
}

/// The set of what may follow the first character of a scheme.
pub open spec fn scheme_not_first_set() -> Set<u8> {
    Set::new(|b: u8| is_scheme_not_first(b))
}

/// The set of the characters that stand for themselves in a path segment.
pub open spec fn pchar_not_pct_encoded_set() -> Set<u8> {
    Set::new(|b: u8| is_pchar_not_pct_encoded(b))
}

/// The set of the characters that stand for themselves in a query or a
/// fragment.
pub open spec fn query_or_fragment_not_pct_encoded_set() -> Set<u8> {
    Set::new(|b: u8| is_query_or_fragment_not_pct_encoded(b))
}

/// The set of the characters that a generated query leaves as they are.
pub open spec fn query_not_pct_encoded_without_plus_set() -> Set<u8> {
    Set::new(|b: u8| is_query_not_pct_encoded_without_plus(b))
}

/// The set of the characters that stand for themselves in a userinfo.
pub open spec fn user_info_not_pct_encoded_set() -> Set<u8> {
    Set::new(|b: u8| is_user_info_not_pct_encoded(b))
}

/// The set of the characters that stand for themselves in a registered
/// name.
pub open spec fn reg_name_not_pct_encoded_set() -> Set<u8> {
    Set::new(|b: u8| is_reg_name_not_pct_encoded(b))
}

/// The set of the characters of the last part of an `IPvFuture` address.
pub open spec fn ipv_future_last_part_set() -> Set<u8> {
    Set::new(|b: u8| is_ipv_future_last_part(b))
}

/// Whether bit `b` of `mask` is set; no byte from 128 on has a bit.
pub open spec fn mask_has(mask: u128, b: u8) -> bool {
    b < 128 && (mask >> (b as u128)) & 1 == 1
}

/// A set of ASCII characters: an immutable table with one bit for each of
/// the 128 characters.
#[derive(Clone, Copy, Debug)]
pub struct CharacterSet {
    mask: u128,
}

impl View for CharacterSet {
    type V = Set<u8>;

    closed spec fn view(&self) -> Set<u8> {
        Set::new(|b: u8| mask_has(self.mask, b))
    }
}

impl CharacterSet {
    /// Every member of a character set is an ASCII character.
    pub proof fn lemma_members_are_ascii(self)
        ensures
            forall|b: u8| self@.contains(b) ==> b < 128,
    {
    }

    /// The empty set.
    pub fn new() -> (set: Self)
        ensures
            set@ == Set::<u8>::empty(),
    {
        let set = CharacterSet { mask: 0 };
        assert forall|b: u8| !mask_has(0u128, b) by {
            let bb = b as u128;
            assert((0u128 >> bb) & 1 == 0) by (bit_vector);
        }
        assert(set@ =~= Set::<u8>::empty());
        set
    }

    /// Tells whether `b` is in the set.
    pub fn contains(&self, b: u8) -> (found: bool)
        ensures
            found == self@.contains(b),
    {
        b < 128 && (self.mask >> (b as u128)) & 1 == 1
    }

    /// The set with the ASCII character `b` added.
    pub fn with(self, b: u8) -> (set: Self)
        requires
            b < 128,
        ensures
            set@ == self@.insert(b),
    {
        let mask = self.mask;
        let set = CharacterSet { mask: mask | (1u128 << (b as u128)) };
        assert forall|x: u8| #[trigger] mask_has(set.mask, x) == (x == b || mask_has(mask, x)) by {
            if x < 128 {
                let xx = x as u128;
                let bb = b as u128;
                assert(((mask | (1u128 << bb)) >> xx) & 1 == 1 <==> (xx == bb || (mask >> xx) & 1
                    == 1)) by (bit_vector)
                    requires
                        xx < 128,
                        bb < 128,
                ;
            }
        }
        assert(set@ =~= self@.insert(b));
        set
    }

    /// The set with `b` taken out.
    pub fn without(self, b: u8) -> (set: Self)
        ensures
            set@ == self@.remove(b),
    {
        if b >= 128 {
            assert(self@ =~= self@.remove(b));
            return self;
        }
        let mask = self.mask;
        let set = CharacterSet { mask: mask & !(1u128 << (b as u128)) };
        assert forall|x: u8| #[trigger] mask_has(set.mask, x) == (x != b && mask_has(mask, x)) by {
            if x < 128 {
                let xx = x as u128;
                let bb = b as u128;
                assert(((mask & !(1u128 << bb)) >> xx) & 1 == 1 <==> (xx != bb && (mask >> xx) & 1
                    == 1)) by (bit_vector)
                    requires
                        xx < 128,
                        bb < 128,
                ;
            }
        }
        assert(set@ =~= self@.remove(b));
        set
    }

    /// The set with every member of `other` added.
    pub fn with_all(self, other: CharacterSet) -> (set: Self)
        ensures
            set@ == self@.union(other@),
    {
        let m1 = self.mask;
        let m2 = other.mask;
        let set = CharacterSet { mask: m1 | m2 };
        assert forall|x: u8| #[trigger] mask_has(set.mask, x) == (mask_has(m1, x) || mask_has(m2, x)) by {
            let xx = x as u128;
            assert(((m1 | m2) >> xx) & 1 == 1 <==> ((m1 >> xx) & 1 == 1 || (m2 >> xx) & 1 == 1))
                by (bit_vector);
        }
        assert(set@ =~= self@.union(other@));
        set
    }

    /// The set with every ASCII character from `first` to `last` added;
    /// none where `first` is behind `last`.
    pub fn with_range(self, first: u8, last: u8) -> (set: Self)
        requires
            last < 128,
        ensures
            set@ == self@.union(Set::new(|b: u8| first <= b <= last)),
    {
        let mut set = self;
        let mut next: u8 = first;
        assert(set@ =~= self@.union(Set::new(|b: u8| first <= b < next)));
        while next <= last
            invariant
                first <= next,
                next <= last + 1 || next == first,
                last < 128,
                set@ == self@.union(Set::new(|b: u8| first <= b < next)),
            decreases last + 1 - next,
        {
            set = set.with(next);
            assert(set@ =~= self@.union(Set::new(|b: u8| first <= b < next + 1)));
            next = next + 1;
        }
        assert(set@ =~= self@.union(Set::new(|b: u8| first <= b <= last)));
        set
    }
}

/// Builds the set `ALPHA`.
pub fn alpha() -> (set: CharacterSet)
    ensures
        set@ == alpha_set(),
{
    let set = CharacterSet::new().with_range(('a' as u8), ('z' as u8)).with_range(('A' as u8), ('Z' as u8));
    assert(set@ =~= alpha_set());
    set
}

/// Builds the set `DIGIT`.
pub fn digit() -> (set: CharacterSet)
    ensures
        set@ == digit_set(),
{
    let set = CharacterSet::new().with_range(('0' as u8), ('9' as u8));
    assert(set@ =~= digit_set());
    set
}

/// Builds the set `HEXDIG`.
pub fn hexdig() -> (set: CharacterSet)
    ensures
        set@ == hexdig_set(),
{
    let set = digit().with_range(('A' as u8), ('F' as u8)).with_range(('a' as u8), ('f' as u8));
    assert(set@ =~= hexdig_set());
    set
}

/// Builds the set of the "unreserved" characters.
pub fn unreserved() -> (set: CharacterSet)
    ensures
        set@ == unreserved_set(),
{
    let set = alpha().with_all(digit()).with(('-' as u8)).with(('.' as u8)).with(('_' as u8)).with(('~' as u8));
    assert(set@ =~= unreserved_set());
    set
}

/// Builds the set of the "sub-delims" characters.
pub fn sub_delims() -> (set: CharacterSet)
    ensures
        set@ == sub_delims_set(),
{
    let set = CharacterSet::new().with(('!' as u8)).with(('$' as u8)).with(('&' as u8)).with(('\'' as u8)).with(('(' as u8)).with(
        (')' as u8),
    ).with(('*' as u8)).with(('+' as u8)).with((',' as u8)).with((';' as u8)).with(('=' as u8));
    assert(set@ =~= sub_delims_set());
    set
}

/// Builds the set of what may follow the first character of a scheme.
pub fn scheme_not_first() -> (set: CharacterSet)
    ensures
        set@ == scheme_not_first_set(),
{
    let set = alpha().with_all(digit()).with(('+' as u8)).with(('-' as u8)).with(('.' as u8));
    assert(set@ =~= scheme_not_first_set());
    set
}

/// Builds the set of the characters that stand for themselves in a path
/// segment.
pub fn pchar_not_pct_encoded() -> (set: CharacterSet)
    ensures
        set@ == pchar_not_pct_encoded_set(),
{
    let set = unreserved().with_all(sub_delims()).with((':' as u8)).with(('@' as u8));
    assert(set@ =~= pchar_not_pct_encoded_set());
    set
}

/// Builds the set of the characters that stand for themselves in a query
/// or a fragment.
pub fn query_or_fragment_not_pct_encoded() -> (set: CharacterSet)
    ensures
        set@ == query_or_fragment_not_pct_encoded_set(),
{
    let set = pchar_not_pct_encoded().with(('/' as u8)).with(('?' as u8));
    assert(set@ =~= query_or_fragment_not_pct_encoded_set());
    set
}

/// Builds the set of the characters that a generated query leaves as they
/// are.
pub fn query_not_pct_encoded_without_plus() -> (set: CharacterSet)
    ensures
        set@ == query_not_pct_encoded_without_plus_set(),
{
    let set = query_or_fragment_not_pct_encoded().without(('+' as u8));
    assert(set@ =~= query_not_pct_encoded_without_plus_set());
    set
}

/// Builds the set of the characters that stand for themselves in a
/// userinfo.
pub fn user_info_not_pct_encoded() -> (set: CharacterSet)
    ensures
        set@ == user_info_not_pct_encoded_set(),
{
    let set = unreserved().with_all(sub_delims()).with((':' as u8));
    assert(set@ =~= user_info_not_pct_encoded_set());
    set
}

/// Builds the set of the characters that stand for themselves in a
/// registered name.
pub fn reg_name_not_pct_encoded() -> (set: CharacterSet)
    ensures
        set@ == reg_name_not_pct_encoded_set(),
{
    let set = unreserved().with_all(sub_delims());
    assert(set@ =~= reg_name_not_pct_encoded_set());
    set
}

/// Builds the set of the characters of the last part of an `IPvFuture`
/// address.
pub fn ipv_future_last_part() -> (set: CharacterSet)
    ensures
        set@ == ipv_future_last_part_set(),
{
    let set = unreserved().with_all(sub_delims()).with((':' as u8));
    assert(set@ =~= ipv_future_last_part_set());
    set
}

} // verus!
