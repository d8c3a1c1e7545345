//! Identifiers of nodes, clusters, jobs and deliveries.
//!
//! An identifier is a UUID held as the 128-bit number that its bytes spell, most
//! significant first, so that comparing two of them compares their bytes.
use vstd::prelude::*;

verus! {

/// Names a member of a cluster.
pub type NodeId = u128;

// ----------------------------------------------------------------- as text

/// The lowercase hexadecimal digit for `d`.
pub open spec fn hex_digit(d: nat) -> char {
    if d < 10 {
        (48 + d) as char
    } else {
        (87 + d) as char
    }
}

/// What the hexadecimal digit `c`, in either case, stands for.
pub open spec fn hex_digit_value(c: char) -> Option<nat> {
    if '0' <= c <= '9' {
        Some((c as nat - 48) as nat)
    } else if 'a' <= c <= 'f' {
        Some((c as nat - 87) as nat)
    } else if 'A' <= c <= 'F' {
        Some((c as nat - 55) as nat)
    } else {
        None
    }
}

/// The lowest `width` hexadecimal digits of `n`, most significant first.
pub open spec fn hex_digits(n: nat, width: nat) -> Seq<char>
    decreases width,
{
    if width == 0 {
        Seq::empty()
    } else {
        hex_digits(n / 16, (width - 1) as nat).push(hex_digit(n % 16))
    }
}

/// The number that the hexadecimal digits `s` spell, if they are all digits.
pub open spec fn hex_value(s: Seq<char>) -> Option<nat>
    decreases s.len(),
{
    if s.len() == 0 {
        Some(0)
    } else {
        match (hex_value(s.drop_last()), hex_digit_value(s.last())) {
            (Some(high), Some(low)) => Some(16 * high + low),
            _ => None,
        }
    }
}

/// Groups 32 digits as 8-4-4-4-12.
pub open spec fn hyphenate(d: Seq<char>) -> Seq<char> {
    d.subrange(0, 8).push('-') + d.subrange(8, 12).push('-') + d.subrange(12, 16).push('-')
        + d.subrange(16, 20).push('-') + d.subrange(20, 32)
}

/// The 32 digits of a text grouped as 8-4-4-4-12, if it is grouped that way.
pub open spec fn unhyphenate(s: Seq<char>) -> Option<Seq<char>> {
    if s.len() == 36 && s[8] == '-' && s[13] == '-' && s[18] == '-' && s[23] == '-' {
        Some(
            s.subrange(0, 8) + s.subrange(9, 13) + s.subrange(14, 18) + s.subrange(19, 23)
                + s.subrange(24, 36),
        )
    } else {
        None
    }
}

/// The usual text of an identifier: 32 lowercase digits grouped as 8-4-4-4-12.
pub open spec fn id_text(id: u128) -> Seq<char> {
    hyphenate(hex_digits(id as nat, 32))
}

/// `c` with an uppercase letter made lowercase.
pub open spec fn ascii_lower(c: char) -> char {
    if 'A' <= c <= 'Z' {
        (c as nat + 32) as char
    } else {
        c
    }
}

/// Whether `s` begins with `urn:uuid:` in any mix of cases.
pub open spec fn has_urn_prefix(s: Seq<char>) -> bool {
    s.len() >= 9 && s.subrange(0, 9).map_values(|c: char| ascii_lower(c)) == seq![
        'u',
        'r',
        'n',
        ':',
        'u',
        'u',
        'i',
        'd',
        ':',
    ]
}

/// The 32 digits of a text in one of the accepted shapes: the digits alone, or
/// grouped, or grouped inside braces, or grouped behind `urn:uuid:`.
pub open spec fn id_digits(s: Seq<char>) -> Option<Seq<char>> {
    if s.len() == 32 {
        Some(s)
    } else if s.len() == 36 {
        unhyphenate(s)
    } else if s.len() == 38 && s[0] == '{' && s[37] == '}' {
        unhyphenate(s.subrange(1, 37))
    } else if s.len() == 45 && has_urn_prefix(s) {
        unhyphenate(s.subrange(9, 45))
    } else {
        None
    }
}

/// The identifier that a text names, if it names one.
pub open spec fn id_of_text(s: Seq<char>) -> Option<u128> {
    match id_digits(s) {
        Some(digits) => match hex_value(digits) {
            Some(v) => Some(v as u128),
            None => None,
        },
        None => None,
    }
}

/// Whether `width` hexadecimal digits are enough for `n`.
pub open spec fn hex_fits(n: nat, width: nat) -> bool
    decreases width,
{
    if width == 0 {
        n == 0
    } else {
        hex_fits(n / 16, (width - 1) as nat)
    }
}

proof fn lemma_hex_digits(n: nat, width: nat)
    requires
        hex_fits(n, width),
    ensures
        hex_digits(n, width).len() == width,
        hex_value(hex_digits(n, width)) == Some(n),
    decreases width,
{
    if width > 0 {
        lemma_hex_digits(n / 16, (width - 1) as nat);
        let d = hex_digits(n, width);
        assert(d.drop_last() =~= hex_digits(n / 16, (width - 1) as nat));
    }
}

/// An identifier is read back from its own text.
pub proof fn law_id_text_reads_back(id: u128)
    ensures
        id_of_text(id_text(id)) == Some(id),
{
    assert(hex_fits(id as nat, 32)) by {
        reveal_with_fuel(hex_fits, 33);
    }
    lemma_hex_digits(id as nat, 32);
    let d = hex_digits(id as nat, 32);
    assert(unhyphenate(hyphenate(d)) == Some(d)) by {
        let s = hyphenate(d);
        assert(s.subrange(0, 8) + s.subrange(9, 13) + s.subrange(14, 18) + s.subrange(19, 23)
            + s.subrange(24, 36) =~= d);
    }
}

// ------------------------------------------------------------ calls to uuid

/// The version number that an identifier carries.
pub open spec fn id_version(id: u128) -> int {
    id as int / 0x1000_0000_0000_0000_0000 % 16
}

/// Whether an identifier carries the variant bits of RFC 9562.
pub open spec fn id_has_rfc_variant(id: u128) -> bool {
    id as int / 0x4000_0000_0000_0000 % 4 == 2
}

/// The number of the version 5 identifier that `uuid::Uuid::new_v5` derives by
/// SHA-1 from the bytes of a name in the OID namespace.
pub uninterp spec fn name_based_id(name: Seq<u8>) -> u128;

/// An identifier that was drawn at random. Only a draw makes one.
pub struct RandomId {
    id: u128,
}

impl RandomId {
    /// The identifier that was drawn.
    pub closed spec fn number(self) -> u128 {
        self.id
    }

    /// The identifier that was drawn.
    pub(crate) fn value(&self) -> (r: u128)
        ensures
            r == self.number(),
    {
        self.id
    }
}

/// A random identifier is the one that was drawn, as it was drawn.
proof fn law_random_id_is_the_one_drawn(drawn: RandomId)
    ensures
        drawn.number() == drawn.id,
{
}

/// `uuid::Uuid::new_v4`: a random identifier of version 4. Which one comes is
/// left to chance.
#[verifier::external_body]
pub(crate) fn random_id() -> (r: RandomId)
    ensures
        id_version(r.number()) == 4,
        id_has_rfc_variant(r.number()),
{
    RandomId { id: uuid::Uuid::new_v4().as_u128() }
}

/// `uuid::Uuid::new_v5` in the OID namespace: an identifier of version 5 that
/// depends on the bytes of the name alone.
#[verifier::external_body]
pub(crate) fn id_from_name(name: &[u8]) -> (r: u128)
    ensures
        r == name_based_id(name@),
        id_version(r) == 5,
        id_has_rfc_variant(r),
{
    uuid::Uuid::new_v5(&uuid::Uuid::NAMESPACE_OID, name).as_u128()
}

/// `uuid::Uuid` as text: 32 lowercase digits grouped as 8-4-4-4-12.
#[verifier::external_body]
pub(crate) fn id_to_text(id: u128) -> (r: String)
    ensures
        r@ == id_text(id),
{
    uuid::Uuid::from_u128(id).to_string()
}

/// `uuid::Uuid` read from text: the digits alone, grouped, in braces or behind
/// `urn:uuid:`, in either case; nothing else is accepted.
#[verifier::external_body]
pub(crate) fn parse_id(text: &str) -> (r: Option<u128>)
    ensures
        r == id_of_text(text@),
{
    text.parse::<uuid::Uuid>().ok().map(|id| id.as_u128())
}

/// Derives an identifier from a name. Every member that derives one from the
/// same name gets the same identifier.
pub fn derive_id(value: &str) -> (r: u128)
    ensures
        r == name_based_id(vstd::utf8::encode_utf8(value@)),
        id_version(r) == 5,
        id_has_rfc_variant(r),
{
    id_from_name(value.as_bytes())
}

} // verus!
