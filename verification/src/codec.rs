//! The token codec: claims are encoded into a dot-separated, signed byte
//! string and decoded back, rejecting anything that is not exactly the
//! canonical signed encoding of some claim set.
//!
//! A token has the shape
//! `<subject hex> . <role> . <expiry decimal> . <tag hex>`,
//! where the subject is hex-encoded so that the separator cannot occur in
//! it, the expiry is a canonical decimal, and the tag is the HMAC-SHA256 of
//! everything before the last separator under the signing key. Parsing
//! accepts only canonical spellings (lowercase hex, no leading zeros), so
//! each claim set has exactly one token that verifies to it.

use vstd::prelude::*;
use vstd::arithmetic::div_mod::{lemma_fundamental_div_mod, lemma_fundamental_div_mod_converse};

use crate::error::AuthError;
use crate::role::Role;

verus! {

/// The field separator, the ASCII dot.
pub const SEP: u8 = 46;

/// A byte is an ASCII decimal digit.
pub open spec fn is_digit(b: u8) -> bool {
    48 <= b && b <= 57
}

/// A byte is a lowercase ASCII hexadecimal digit.
pub open spec fn is_hex_digit(b: u8) -> bool {
    is_digit(b) || (97 <= b && b <= 102)
}

/// The value of a hexadecimal digit byte.
pub open spec fn hex_val(b: u8) -> int {
    if b <= 57 {
        b - 48
    } else {
        b - 87
    }
}

/// The lowercase hexadecimal digit byte of a value below 16.
pub open spec fn hex_digit(v: int) -> u8 {
    if v < 10 {
        (48 + v) as u8
    } else {
        (87 + v) as u8
    }
}

/// The lowercase hexadecimal encoding of a byte sequence: two digits per
/// byte, high nibble first.
pub open spec fn hex_of(b: Seq<u8>) -> Seq<u8>
    decreases b.len(),
{
    if b.len() == 0 {
        Seq::empty()
    } else {
        seq![hex_digit(b[0] as int / 16), hex_digit(b[0] as int % 16)] + hex_of(b.drop_first())
    }
}

/// A sequence is a well-formed hexadecimal spelling: even length, lowercase
/// digits only.
pub open spec fn valid_hex(s: Seq<u8>) -> bool {
    s.len() % 2 == 0 && (forall|i: int| 0 <= i < s.len() ==> is_hex_digit(#[trigger] s[i]))
}

/// The bytes a hexadecimal spelling stands for.
pub open spec fn bytes_of_hex(s: Seq<u8>) -> Seq<u8>
    decreases s.len(),
{
    if s.len() < 2 {
        Seq::empty()
    } else {
        seq![((hex_val(s[0]) * 16 + hex_val(s[1])) as u8)] + bytes_of_hex(s.skip(2))
    }
}

/// Hex encoding is well formed: twice as long as the input and made of
/// lowercase hexadecimal digits only.
pub proof fn lemma_hex_of_valid(b: Seq<u8>)
    ensures
        hex_of(b).len() == 2 * b.len(),
        valid_hex(hex_of(b)),
    decreases b.len(),
{
    if b.len() > 0 {
        lemma_hex_of_valid(b.drop_first());
    }
}

/// Decoding inverts encoding: the hex spelling of a byte sequence stands
/// for that sequence.
pub proof fn lemma_bytes_of_hex_of(b: Seq<u8>)
    ensures
        bytes_of_hex(hex_of(b)) == b,
    decreases b.len(),
{
    if b.len() == 0 {
        assert(bytes_of_hex(hex_of(b)) =~= b);
    } else {
        let rest = b.drop_first();
        lemma_bytes_of_hex_of(rest);
        lemma_hex_of_valid(rest);
        lemma_fundamental_div_mod(b[0] as int, 16);
        let s = hex_of(b);
        assert(s.skip(2) =~= hex_of(rest));
        assert(hex_val(s[0]) * 16 + hex_val(s[1]) == b[0] as int);
        assert(bytes_of_hex(s) =~= b);
    }
}

/// Encoding inverts decoding on well-formed spellings: each byte sequence
/// has exactly one hex spelling.
pub proof fn lemma_hex_of_bytes_of(s: Seq<u8>)
    requires
        valid_hex(s),
    ensures
        hex_of(bytes_of_hex(s)) == s,
    decreases s.len(),
{
    if s.len() == 0 {
        assert(hex_of(bytes_of_hex(s)) =~= s);
    } else {
        let rest = s.skip(2);
        assert(valid_hex(rest)) by {
            assert(forall|i: int| 0 <= i < rest.len() ==> rest[i] == s[i + 2]
                && is_hex_digit(#[trigger] rest[i]));
        }
        lemma_hex_of_bytes_of(rest);
        let v = (hex_val(s[0]) * 16 + hex_val(s[1])) as u8;
        lemma_fundamental_div_mod_converse(v as int, 16, hex_val(s[0]), hex_val(s[1]));
        let d = bytes_of_hex(s);
        assert(d.drop_first() =~= bytes_of_hex(rest));
        assert(hex_digit(v as int / 16) == s[0]);
        assert(hex_digit(v as int % 16) == s[1]);
        assert(hex_of(d) =~= s);
    }
}

/// The canonical decimal spelling of a number, most significant digit
/// first, no leading zeros.
pub open spec fn dec_of(n: nat) -> Seq<u8>
    decreases n,
{
    if n < 10 {
        seq![(48 + n) as u8]
    } else {
        dec_of(n / 10) + seq![(48 + n % 10) as u8]
    }
}

/// A sequence is a canonical decimal spelling: nonempty, digits only, no
/// leading zero unless it is the single digit zero.
pub open spec fn is_canon_dec(s: Seq<u8>) -> bool {
    s.len() > 0 && (forall|i: int| 0 <= i < s.len() ==> is_digit(#[trigger] s[i])) && (s.len() > 1
        ==> s[0] != 48)
}

/// The number a digit sequence spells.
pub open spec fn dec_val(s: Seq<u8>) -> nat
    decreases s.len(),
{
    if s.len() == 0 {
        0
    } else {
        (dec_val(s.drop_last()) * 10 + (s.last() - 48)) as nat
    }
}

/// The decimal spelling of a number is canonical and spells that number.
pub proof fn lemma_dec_of_canon(n: nat)
    ensures
        is_canon_dec(dec_of(n)),
        dec_val(dec_of(n)) == n,
        n >= 1 ==> dec_of(n)[0] != 48,
        n < 10 ==> dec_of(n).len() == 1,
        n >= 10 ==> dec_of(n).len() >= 2,
    decreases n,
{
    if n < 10 {
        let s = dec_of(n);
        assert(s.drop_last() =~= Seq::<u8>::empty());
        assert(dec_val(s.drop_last()) == 0);
        assert(s.last() == (48 + n) as u8);
        assert(dec_val(s) == (dec_val(s.drop_last()) * 10 + (s.last() - 48)) as nat);
    } else {
        lemma_fundamental_div_mod(n as int, 10);
        lemma_dec_of_canon(n / 10);
        let x = dec_of(n / 10);
        let s = dec_of(n);
        assert(s.drop_last() =~= x);
        assert(dec_val(s) == dec_val(x) * 10 + (n % 10));
    }
}

/// A canonical spelling that does not start with the zero digit spells a
/// positive number.
proof fn lemma_dec_val_positive(s: Seq<u8>)
    requires
        is_canon_dec(s),
        s[0] != 48,
    ensures
        dec_val(s) >= 1,
    decreases s.len(),
{
    if s.len() > 1 {
        let x = s.drop_last();
        assert(is_canon_dec(x));
        lemma_dec_val_positive(x);
    }
}

/// Spelling inverts evaluation on canonical spellings: each number has
/// exactly one canonical decimal spelling.
pub proof fn lemma_dec_of_val(s: Seq<u8>)
    requires
        is_canon_dec(s),
    ensures
        dec_of(dec_val(s)) == s,
    decreases s.len(),
{
    if s.len() == 1 {
        assert(dec_of(dec_val(s)) =~= s);
    } else {
        let x = s.drop_last();
        let d = s.last();
        assert(is_canon_dec(x));
        lemma_dec_of_val(x);
        lemma_dec_val_positive(x);
        let vx = dec_val(x);
        let v = dec_val(s);
        assert(v == vx * 10 + (d - 48));
        lemma_fundamental_div_mod_converse(v as int, 10, vx as int, d - 48);
        assert(v >= 10);
        assert(dec_of(v) == dec_of(vx) + seq![(48 + v % 10) as u8]);
        assert(dec_of(vx) == x);
        assert(v % 10 == d - 48);
        assert((48 + v % 10) as u8 == d);
        assert(x + seq![d] =~= s);
        assert(dec_of(v) =~= s);
    }
}

/// No byte of the sequence is the field separator.
pub open spec fn no_sep(s: Seq<u8>) -> bool {
    forall|i: int| 0 <= i < s.len() ==> #[trigger] s[i] != SEP
}

/// Splits a sequence at its first separator: the part before it and the
/// part after it, or nothing when no separator occurs.
pub open spec fn split_first(s: Seq<u8>) -> Option<(Seq<u8>, Seq<u8>)>
    decreases s.len(),
{
    if s.len() == 0 {
        None
    } else if s[0] == SEP {
        Some((Seq::empty(), s.drop_first()))
    } else {
        match split_first(s.drop_first()) {
            None => None,
            Some(p) => Some((seq![s[0]] + p.0, p.1)),
        }
    }
}

/// A sequence splits exactly when it holds a separator.
pub proof fn lemma_split_none(s: Seq<u8>)
    ensures
        split_first(s) is None <==> no_sep(s),
    decreases s.len(),
{
    if s.len() > 0 && s[0] != SEP {
        lemma_split_none(s.drop_first());
        if no_sep(s.drop_first()) {
            assert(forall|i: int| 1 <= i < s.len() ==> #[trigger] s[i] == s.drop_first()[i - 1]);
        } else {
            let j = choose|j: int| 0 <= j < s.drop_first().len() && s.drop_first()[j] == SEP;
            assert(s[j + 1] == SEP);
        }
    }
}

/// Splitting a sequence assembled from a separator-free prefix, a
/// separator, and a remainder gives that prefix and remainder back.
pub proof fn lemma_split_at(a: Seq<u8>, b: Seq<u8>)
    requires
        no_sep(a),
    ensures
        split_first(a + seq![SEP] + b) == Some((a, b)),
    decreases a.len(),
{
    let s = a + seq![SEP] + b;
    if a.len() == 0 {
        assert(s[0] == SEP);
        assert(s.drop_first() =~= b);
        assert(split_first(s).unwrap().0 =~= a);
    } else {
        assert(s[0] == a[0]);
        assert(s.drop_first() =~= a.drop_first() + seq![SEP] + b);
        lemma_split_at(a.drop_first(), b);
        assert(seq![s[0]] + a.drop_first() =~= a);
    }
}

/// What a successful split yields: the original sequence is the prefix, the
/// separator, and the remainder, and the prefix is separator-free.
pub proof fn lemma_split_recompose(s: Seq<u8>)
    requires
        split_first(s) is Some,
    ensures
        s == split_first(s).unwrap().0 + seq![SEP] + split_first(s).unwrap().1,
        no_sep(split_first(s).unwrap().0),
    decreases s.len(),
{
    let (a, b) = split_first(s).unwrap();
    if s[0] == SEP {
        assert(s =~= a + seq![SEP] + b);
    } else {
        lemma_split_recompose(s.drop_first());
        let (a1, b1) = split_first(s.drop_first()).unwrap();
        assert(a =~= seq![s[0]] + a1);
        assert(s.drop_first() == a1 + seq![SEP] + b1);
        assert forall|i: int| 0 <= i < s.len() implies s[i] == (a + seq![SEP] + b)[i] by {
            if i >= 1 {
                assert(s[i] == s.drop_first()[i - 1]);
                assert(s.drop_first()[i - 1] == (a1 + seq![SEP] + b1)[i - 1]);
            }
        }
        assert(s =~= a + seq![SEP] + b);
        assert(forall|i: int| 1 <= i < a.len() ==> #[trigger] a[i] == a1[i - 1]);
    }
}

/// The byte form of a role, as embedded in a token: the bytes of its
/// canonical string.
pub open spec fn role_field(r: Role) -> Seq<u8> {
    match r {
        Role::User => seq![85u8, 115u8, 101u8, 114u8],
        Role::Admin => seq![65u8, 100u8, 109u8, 105u8, 110u8],
    }
}

/// The unique role whose byte form the sequence is, if any.
pub open spec fn parse_role_field(s: Seq<u8>) -> Option<Role> {
    if s == role_field(Role::User) {
        Some(Role::User)
    } else if s == role_field(Role::Admin) {
        Some(Role::Admin)
    } else {
        None
    }
}

/// The byte form of a role parses back to that role, and holds no
/// separator.
pub proof fn lemma_role_field(r: Role)
    ensures
        parse_role_field(role_field(r)) == Some(r),
        no_sep(role_field(r)),
{
    assert(role_field(Role::User).len() == 4);
    assert(role_field(Role::Admin).len() == 5);
}

/// The tag of a message under a key: what HMAC-SHA256 returns. The tag is a
/// function of the key and message bytes alone; nothing further is assumed
/// of it, so any property that needs two distinct messages to have distinct
/// tags is outside what the library states.
pub uninterp spec fn mac_of(key: Seq<u8>, msg: Seq<u8>) -> Seq<u8>;

/// Relies on `Hmac::<Sha256>` of the hmac crate over the sha2 crate's
/// SHA-256: the returned tag is a function of the key and message bytes
/// alone, 32 bytes long. HMAC accepts keys of any length, so construction
/// cannot fail.
#[verifier::external_body]
fn hmac_sha256(key: &Vec<u8>, msg: &Vec<u8>) -> (r: Vec<u8>)
    ensures
        r@ == mac_of(key@, msg@),
        r@.len() == 32,
{
    let mut m = <hmac::Hmac<sha2::Sha256> as hmac::KeyInit>::new_from_slice(key.as_slice())
        .expect("HMAC accepts keys of any length");
    hmac::Mac::update(&mut m, msg.as_slice());
    hmac::Mac::finalize(m).into_bytes().to_vec()
}

/// The four raw fields of a structurally well-formed token.
pub ghost struct Parsed {
    pub sub_hex: Seq<u8>,
    pub role_raw: Seq<u8>,
    pub exp_raw: Seq<u8>,
    pub tag_raw: Seq<u8>,
}

/// The signed part of a token: everything before the final separator.
pub open spec fn payload_of_parts(sub_hex: Seq<u8>, role_raw: Seq<u8>, exp_raw: Seq<u8>) -> Seq<
    u8,
> {
    sub_hex + seq![SEP] + role_raw + seq![SEP] + exp_raw
}

/// The structural reading of a token: exactly four fields, the subject and
/// tag canonical hex, the expiry a canonical decimal that fits the clock
/// type. The role field is kept raw here; whether it names a role is a
/// separate, later question.
pub open spec fn spec_parse(t: Seq<u8>) -> Option<Parsed> {
    match split_first(t) {
        None => None,
        Some((sub_hex, r1)) => match split_first(r1) {
            None => None,
            Some((role_raw, r2)) => match split_first(r2) {
                None => None,
                Some((exp_raw, tag_raw)) => if split_first(tag_raw) is None && valid_hex(sub_hex)
                    && is_canon_dec(exp_raw) && dec_val(exp_raw) <= u64::MAX && valid_hex(
                    tag_raw,
                ) {
                    Some(Parsed { sub_hex, role_raw, exp_raw, tag_raw })
                } else {
                    None
                },
            },
        },
    }
}

/// The verified claims of a token: who it was issued to, with what role,
/// and until when it is valid.
pub ghost struct SpecClaims {
    pub subject: Seq<u8>,
    pub role: Role,
    pub exp: u64,
}

/// The signed payload of a claim set.
pub open spec fn spec_payload(subject: Seq<u8>, role: Role, exp: u64) -> Seq<u8> {
    hex_of(subject) + seq![SEP] + role_field(role) + seq![SEP] + dec_of(exp as nat)
}

/// The one token that carries a claim set under a key: the payload followed
/// by the hex of its tag.
pub open spec fn spec_issue(subject: Seq<u8>, role: Role, exp: u64, key: Seq<u8>) -> Seq<u8> {
    spec_payload(subject, role, exp) + seq![SEP] + hex_of(mac_of(key, spec_payload(subject, role, exp)))
}

/// What verifying a token at time `now` under a key yields. The checks run
/// in a fixed order: structure first, then the signature over the raw
/// payload before any of its content is interpreted, then expiry, then the
/// role. A token is expired only strictly after its expiry instant.
pub open spec fn spec_verify(t: Seq<u8>, now: u64, key: Seq<u8>) -> Result<SpecClaims, AuthError> {
    match spec_parse(t) {
        None => Err(AuthError::MalformedToken),
        Some(p) => if bytes_of_hex(p.tag_raw) != mac_of(
            key,
            payload_of_parts(p.sub_hex, p.role_raw, p.exp_raw),
        ) {
            Err(AuthError::BadSignature)
        } else if now > dec_val(p.exp_raw) {
            Err(AuthError::Expired)
        } else {
            match parse_role_field(p.role_raw) {
                None => Err(AuthError::InvalidRole),
                Some(role) => Ok(
                    SpecClaims {
                        subject: bytes_of_hex(p.sub_hex),
                        role,
                        exp: dec_val(p.exp_raw) as u64,
                    },
                ),
            }
        },
    }
}

/// An issued token reads back structurally as exactly the fields it was
/// assembled from.
pub proof fn lemma_parse_of_issue(subject: Seq<u8>, role: Role, exp: u64, key: Seq<u8>)
    ensures
        spec_parse(spec_issue(subject, role, exp, key)) == Some(
            Parsed {
                sub_hex: hex_of(subject),
                role_raw: role_field(role),
                exp_raw: dec_of(exp as nat),
                tag_raw: hex_of(mac_of(key, spec_payload(subject, role, exp))),
            },
        ),
{
    let a = hex_of(subject);
    let b = role_field(role);
    let c = dec_of(exp as nat);
    let d = hex_of(mac_of(key, spec_payload(subject, role, exp)));
    let t = spec_issue(subject, role, exp, key);
    lemma_hex_of_valid(subject);
    lemma_hex_of_valid(mac_of(key, spec_payload(subject, role, exp)));
    lemma_role_field(role);
    lemma_dec_of_canon(exp as nat);
    assert(no_sep(a));
    assert(no_sep(c));
    assert(no_sep(d));
    assert(t =~= a + seq![SEP] + (b + seq![SEP] + (c + seq![SEP] + d)));
    lemma_split_at(a, b + seq![SEP] + (c + seq![SEP] + d));
    lemma_split_at(b, c + seq![SEP] + d);
    lemma_split_at(c, d);
    lemma_split_none(d);
}

/// A token that reads back structurally is exactly the assembly of the
/// fields it reads back as: parsing accepts one spelling per field set.
pub proof fn lemma_parse_canonical(t: Seq<u8>)
    requires
        spec_parse(t) is Some,
    ensures
        t == ({
            let p = spec_parse(t).unwrap();
            p.sub_hex + seq![SEP] + p.role_raw + seq![SEP] + p.exp_raw + seq![SEP] + p.tag_raw
        }),
{
    let p = spec_parse(t).unwrap();
    lemma_split_recompose(t);
    let (a, r1) = split_first(t).unwrap();
    lemma_split_recompose(r1);
    let (b, r2) = split_first(r1).unwrap();
    lemma_split_recompose(r2);
    let (c, d) = split_first(r2).unwrap();
    assert(t =~= a + seq![SEP] + b + seq![SEP] + c + seq![SEP] + d);
}

/// Authenticity: a token that verifies is the one token this codec itself
/// issues for the returned claims under the same key, and it has not
/// expired. Any other byte string either fails to verify or carries a
/// different claim set.
pub proof fn lemma_verify_authentic(t: Seq<u8>, now: u64, key: Seq<u8>)
    requires
        spec_verify(t, now, key) is Ok,
    ensures
        ({
            let c = spec_verify(t, now, key).unwrap();
            t == spec_issue(c.subject, c.role, c.exp, key) && now <= c.exp
        }),
{
    let p = spec_parse(t).unwrap();
    let c = spec_verify(t, now, key).unwrap();
    lemma_parse_canonical(t);
    lemma_hex_of_bytes_of(p.sub_hex);
    lemma_hex_of_bytes_of(p.tag_raw);
    lemma_dec_of_val(p.exp_raw);
    assert(p.role_raw == role_field(c.role));
    assert(hex_of(c.subject) == p.sub_hex);
    assert(dec_of(c.exp as nat) == p.exp_raw);
    assert(spec_payload(c.subject, c.role, c.exp) == payload_of_parts(
        p.sub_hex,
        p.role_raw,
        p.exp_raw,
    ));
    assert(hex_of(mac_of(key, spec_payload(c.subject, c.role, c.exp))) == p.tag_raw);
    assert(spec_issue(c.subject, c.role, c.exp, key) =~= p.sub_hex + seq![SEP] + p.role_raw
        + seq![SEP] + p.exp_raw + seq![SEP] + p.tag_raw);
}

/// Verifying an issued token: it is accepted, with the claims it was issued
/// for, exactly until its expiry instant has passed.
pub proof fn lemma_verify_of_issue(subject: Seq<u8>, role: Role, exp: u64, at: u64, key: Seq<u8>)
    ensures
        spec_verify(spec_issue(subject, role, exp, key), at, key) == (if at <= exp {
            Ok::<SpecClaims, AuthError>(SpecClaims { subject, role, exp })
        } else {
            Err::<SpecClaims, AuthError>(AuthError::Expired)
        }),
{
    let pl = spec_payload(subject, role, exp);
    lemma_parse_of_issue(subject, role, exp, key);
    lemma_bytes_of_hex_of(mac_of(key, pl));
    lemma_bytes_of_hex_of(subject);
    lemma_dec_of_canon(exp as nat);
    lemma_role_field(role);
}

/// The two forms of a role agree: the byte form embedded in tokens spells
/// exactly the canonical role string.
pub proof fn lemma_role_field_chars(r: Role)
    ensures
        ascii_chars_of(role_field(r)) == crate::role::spec_role_chars(r),
{
    reveal_strlit("User");
    reveal_strlit("Admin");
    match r {
        Role::User => {
            assert(ascii_chars_of(role_field(r)) =~= "User"@);
        },
        Role::Admin => {
            assert(ascii_chars_of(role_field(r)) =~= "Admin"@);
        },
    }
}

/// Round trip: a token issued for any subject and role at `now` with
/// time-to-live `ttl` verifies under the same key at every instant of its
/// validity window, and yields exactly the claims it was issued for.
pub proof fn lemma_round_trip(
    subject: Seq<u8>,
    role: Role,
    now: u64,
    ttl: u64,
    at: u64,
    key: Seq<u8>,
)
    requires
        now + ttl <= u64::MAX,
        now <= at < now + ttl,
    ensures
        spec_verify(spec_issue(subject, role, (now + ttl) as u64, key), at, key) == Ok::<
            SpecClaims,
            AuthError,
        >(SpecClaims { subject, role, exp: (now + ttl) as u64 }),
{
    lemma_verify_of_issue(subject, role, (now + ttl) as u64, at, key);
}

/// Expiry boundary, both ways: a token is still valid at its expiry
/// instant `now + ttl` itself — only strictly later does verification fail,
/// and then always with `Expired` and nothing else.
pub proof fn lemma_expiry_boundary(subject: Seq<u8>, role: Role, now: u64, ttl: u64, key: Seq<u8>)
    requires
        now + ttl <= u64::MAX,
    ensures
        spec_verify(spec_issue(subject, role, (now + ttl) as u64, key), (now + ttl) as u64, key)
            is Ok,
        forall|at: u64|
            at > now + ttl ==> #[trigger] spec_verify(
                spec_issue(subject, role, (now + ttl) as u64, key),
                at,
                key,
            ) == Err::<SpecClaims, AuthError>(AuthError::Expired),
        ttl >= 1 ==> spec_verify(
            spec_issue(subject, role, (now + ttl) as u64, key),
            (now + ttl - 1) as u64,
            key,
        ) is Ok,
{
    let exp = (now + ttl) as u64;
    lemma_verify_of_issue(subject, role, exp, exp, key);
    assert forall|at: u64| at > now + ttl implies spec_verify(
        spec_issue(subject, role, exp, key),
        at,
        key,
    ) == Err::<SpecClaims, AuthError>(AuthError::Expired) by {
        lemma_verify_of_issue(subject, role, exp, at, key);
    }
    if ttl >= 1 {
        lemma_verify_of_issue(subject, role, exp, (now + ttl - 1) as u64, key);
    }
}

/// Tamper evidence, as far as it holds of every tag function: under one
/// key, exactly one byte string verifies to a given claim set, so an
/// altered token can never verify to the claims of the token it was altered
/// from. That a single flipped bit cannot produce a different valid token
/// at all rests on collision resistance of HMAC-SHA256, which is no part of
/// what the tag's contract states.
pub proof fn lemma_tamper_evident(t1: Seq<u8>, t2: Seq<u8>, now1: u64, now2: u64, key: Seq<u8>)
    requires
        spec_verify(t1, now1, key) is Ok,
        spec_verify(t2, now2, key) is Ok,
        spec_verify(t2, now2, key).unwrap() == spec_verify(t1, now1, key).unwrap(),
    ensures
        t2 == t1,
{
    lemma_verify_authentic(t1, now1, key);
    lemma_verify_authentic(t2, now2, key);
}

/// A change confined to the signature always fails: a token whose payload
/// is an issued payload but whose final field is anything other than that
/// payload's own tag in canonical hex never verifies, at any time.
pub proof fn lemma_tag_tamper(
    subject: Seq<u8>,
    role: Role,
    exp: u64,
    key: Seq<u8>,
    d: Seq<u8>,
    now: u64,
)
    requires
        d != hex_of(mac_of(key, spec_payload(subject, role, exp))),
    ensures
        spec_verify(spec_payload(subject, role, exp) + seq![SEP] + d, now, key) is Err,
{
    let pl = spec_payload(subject, role, exp);
    let t = pl + seq![SEP] + d;
    let a = hex_of(subject);
    let b = role_field(role);
    let c = dec_of(exp as nat);
    lemma_hex_of_valid(subject);
    lemma_dec_of_canon(exp as nat);
    lemma_role_field(role);
    assert(t =~= a + seq![SEP] + (b + seq![SEP] + (c + seq![SEP] + d)));
    lemma_split_at(a, b + seq![SEP] + (c + seq![SEP] + d));
    lemma_split_at(b, c + seq![SEP] + d);
    lemma_split_at(c, d);
    lemma_split_none(d);
    if no_sep(d) && valid_hex(d) {
        if bytes_of_hex(d) == mac_of(key, pl) {
            lemma_hex_of_bytes_of(d);
        }
    }
}

/// Every byte of the sequence is seven-bit ASCII.
pub open spec fn ascii_seq(s: Seq<u8>) -> bool {
    forall|i: int| 0 <= i < s.len() ==> #[trigger] s[i] < 128
}

/// The characters that a sequence of ASCII bytes spells.
pub open spec fn ascii_chars_of(b: Seq<u8>) -> Seq<char> {
    Seq::new(b.len(), |i: int| b[i] as char)
}

/// An issued token is pure ASCII: hex digits, decimal digits, role letters
/// and separators only, so it can always travel as a string.
pub proof fn lemma_issue_ascii(subject: Seq<u8>, role: Role, exp: u64, key: Seq<u8>)
    ensures
        ascii_seq(spec_issue(subject, role, exp, key)),
{
    let a = hex_of(subject);
    let b = role_field(role);
    let c = dec_of(exp as nat);
    let d = hex_of(mac_of(key, spec_payload(subject, role, exp)));
    let t = spec_issue(subject, role, exp, key);
    lemma_hex_of_valid(subject);
    lemma_hex_of_valid(mac_of(key, spec_payload(subject, role, exp)));
    lemma_dec_of_canon(exp as nat);
    assert(forall|j: int| 0 <= j < b.len() ==> #[trigger] b[j] < 128) by {
        assert(role_field(Role::User).len() == 4);
        assert(role_field(Role::Admin).len() == 5);
    }
    assert(t =~= a + seq![SEP] + b + seq![SEP] + c + seq![SEP] + d);
    assert forall|i: int| 0 <= i < t.len() implies #[trigger] t[i] < 128 by {
        assert(t[i] == (a + seq![SEP] + b + seq![SEP] + c + seq![SEP] + d)[i]);
    }
}

/// Hex encoding distributes over concatenation.
proof fn lemma_hex_of_concat(x: Seq<u8>, y: Seq<u8>)
    ensures
        hex_of(x + y) == hex_of(x) + hex_of(y),
    decreases x.len(),
{
    if x.len() == 0 {
        assert(x + y =~= y);
        assert(hex_of(x) + hex_of(y) =~= hex_of(y));
    } else {
        lemma_hex_of_concat(x.drop_first(), y);
        assert((x + y).drop_first() =~= x.drop_first() + y);
        assert(hex_of(x + y) =~= hex_of(x) + hex_of(y));
    }
}

/// Hex decoding distributes over concatenation at a pair boundary.
proof fn lemma_bytes_of_hex_concat(x: Seq<u8>, y: Seq<u8>)
    requires
        x.len() % 2 == 0,
    ensures
        bytes_of_hex(x + y) == bytes_of_hex(x) + bytes_of_hex(y),
    decreases x.len(),
{
    if x.len() == 0 {
        assert(x + y =~= y);
        assert(bytes_of_hex(x) + bytes_of_hex(y) =~= bytes_of_hex(y));
    } else {
        lemma_bytes_of_hex_concat(x.skip(2), y);
        assert((x + y).skip(2) =~= x.skip(2) + y);
        assert(bytes_of_hex(x + y) =~= bytes_of_hex(x) + bytes_of_hex(y));
    }
}

/// Appends the lowercase hex encoding of `src` to `out`.
fn push_hex(out: &mut Vec<u8>, src: &Vec<u8>)
    ensures
        final(out)@ == old(out)@ + hex_of(src@),
{
    let ghost base = out@;
    let mut i: usize = 0;
    while i < src.len()
        invariant
            i <= src@.len(),
            out@ == base + hex_of(src@.take(i as int)),
        decreases src@.len() - i,
    {
        let b = src[i];
        let hi = b / 16;
        let lo = b % 16;
        out.push(if hi < 10 { 48 + hi } else { 87 + hi });
        out.push(if lo < 10 { 48 + lo } else { 87 + lo });
        proof {
            assert(src@.take(i + 1) =~= src@.take(i as int) + seq![src@[i as int]]);
            lemma_hex_of_concat(src@.take(i as int), seq![src@[i as int]]);
            assert(seq![b].drop_first() =~= Seq::<u8>::empty());
            assert(hex_of(Seq::<u8>::empty()) =~= Seq::<u8>::empty());
            assert(hex_of(seq![b]) =~= seq![hex_digit(b as int / 16), hex_digit(b as int % 16)]);
            assert(out@ =~= base + hex_of(src@.take(i + 1)));
        }
        i = i + 1;
    }
    proof {
        assert(src@.take(src@.len() as int) =~= src@);
    }
}

/// Appends the canonical decimal spelling of `n` to `out`.
fn push_dec(out: &mut Vec<u8>, n: u64)
    ensures
        final(out)@ == old(out)@ + dec_of(n as nat),
    decreases n,
{
    if n < 10 {
        out.push(48 + (n as u8));
        assert(final(out)@ =~= old(out)@ + dec_of(n as nat));
    } else {
        push_dec(out, n / 10);
        out.push(48 + ((n % 10) as u8));
        assert(final(out)@ =~= old(out)@ + dec_of(n as nat));
    }
}

/// Appends the byte form of the role to `out`.
fn push_role(out: &mut Vec<u8>, r: Role)
    ensures
        final(out)@ == old(out)@ + role_field(r),
{
    match r {
        Role::User => {
            out.push(85);
            out.push(115);
            out.push(101);
            out.push(114);
        },
        Role::Admin => {
            out.push(65);
            out.push(100);
            out.push(109);
            out.push(105);
            out.push(110);
        },
    }
    assert(final(out)@ =~= old(out)@ + role_field(r));
}

/// Whether two byte vectors hold the same bytes.
fn bytes_eq(a: &Vec<u8>, b: &Vec<u8>) -> (r: bool)
    ensures
        r == (a@ == b@),
{
    if a.len() != b.len() {
        return false;
    }
    let mut i: usize = 0;
    while i < a.len()
        invariant
            i <= a@.len(),
            a@.len() == b@.len(),
            forall|j: int| 0 <= j < i ==> a@[j] == b@[j],
        decreases a@.len() - i,
    {
        if a[i] != b[i] {
            return false;
        }
        i = i + 1;
    }
    proof {
        assert(a@ =~= b@);
    }
    true
}

/// The bytes of `v` from `from` (inclusive) to `to` (exclusive).
pub(crate) fn subrange_vec(v: &Vec<u8>, from: usize, to: usize) -> (r: Vec<u8>)
    requires
        from <= to <= v@.len(),
    ensures
        r@ == v@.subrange(from as int, to as int),
{
    let mut r: Vec<u8> = Vec::new();
    let mut i: usize = from;
    while i < to
        invariant
            from <= i <= to <= v@.len(),
            r@ == v@.subrange(from as int, i as int),
        decreases to - i,
    {
        r.push(v[i]);
        proof {
            assert(v@.subrange(from as int, i + 1) =~= v@.subrange(from as int, i as int)
                + seq![v@[i as int]]);
            assert(r@ =~= v@.subrange(from as int, i + 1));
        }
        i = i + 1;
    }
    r
}

/// Splits a byte vector at its first separator, as `split_first` reads it.
fn split_vec(s: &Vec<u8>) -> (r: Option<(Vec<u8>, Vec<u8>)>)
    ensures
        match r {
            Some(p) => split_first(s@) == Some((p.0@, p.1@)),
            None => split_first(s@) is None,
        },
{
    let mut i: usize = 0;
    while i < s.len()
        invariant
            i <= s@.len(),
            forall|j: int| 0 <= j < i ==> #[trigger] s@[j] != SEP,
        decreases s@.len() - i,
    {
        if s[i] == SEP {
            let a = subrange_vec(s, 0, i);
            let b = subrange_vec(s, i + 1, s.len());
            proof {
                assert(no_sep(a@));
                assert(s@ =~= a@ + seq![SEP] + b@);
                lemma_split_at(a@, b@);
            }
            return Some((a, b));
        }
        i = i + 1;
    }
    proof {
        assert(no_sep(s@));
        lemma_split_none(s@);
    }
    None
}

/// Whether `v` is a well-formed lowercase hexadecimal spelling.
fn check_hex(v: &Vec<u8>) -> (r: bool)
    ensures
        r == valid_hex(v@),
{
    if v.len() % 2 != 0 {
        return false;
    }
    let mut i: usize = 0;
    while i < v.len()
        invariant
            i <= v@.len(),
            v@.len() % 2 == 0,
            forall|j: int| 0 <= j < i ==> is_hex_digit(#[trigger] v@[j]),
        decreases v@.len() - i,
    {
        let b = v[i];
        if !((48 <= b && b <= 57) || (97 <= b && b <= 102)) {
            return false;
        }
        i = i + 1;
    }
    true
}

/// Decodes a well-formed hexadecimal spelling to the bytes it stands for.
fn hex_decode(s: &Vec<u8>) -> (r: Vec<u8>)
    requires
        valid_hex(s@),
    ensures
        r@ == bytes_of_hex(s@),
{
    let mut r: Vec<u8> = Vec::new();
    let mut i: usize = 0;
    while i + 1 < s.len()
        invariant
            i <= s@.len(),
            i % 2 == 0,
            valid_hex(s@),
            r@ == bytes_of_hex(s@.take(i as int)),
        decreases s@.len() - i,
    {
        let hi = s[i];
        let lo = s[i + 1];
        let hv = if hi <= 57 { hi - 48 } else { hi - 87 };
        let lv = if lo <= 57 { lo - 48 } else { lo - 87 };
        r.push(hv * 16 + lv);
        proof {
            let pair = seq![s@[i as int], s@[i + 1]];
            assert(s@.take(i + 2) =~= s@.take(i as int) + pair);
            lemma_bytes_of_hex_concat(s@.take(i as int), pair);
            assert(pair.skip(2) =~= Seq::<u8>::empty());
            assert(bytes_of_hex(Seq::<u8>::empty()) =~= Seq::<u8>::empty());
            assert(bytes_of_hex(pair) =~= seq![((hex_val(s@[i as int]) * 16 + hex_val(s@[i + 1])) as u8)]);
            assert(r@ =~= bytes_of_hex(s@.take(i + 2)));
        }
        i = i + 2;
    }
    proof {
        assert(s@.take(s@.len() as int) =~= s@);
    }
    r
}

/// Evaluating a digit prefix never exceeds the whole spelling's value.
proof fn lemma_dec_val_prefix(s: Seq<u8>, j: int)
    requires
        0 <= j <= s.len(),
        forall|i: int| 0 <= i < s.len() ==> is_digit(#[trigger] s[i]),
    ensures
        dec_val(s.take(j)) <= dec_val(s),
    decreases s.len() - j,
{
    if j < s.len() {
        lemma_dec_val_prefix(s, j + 1);
        assert(s.take(j + 1).drop_last() =~= s.take(j));
        assert(s.take(j + 1).last() == s[j]);
        assert(dec_val(s.take(j + 1)) == dec_val(s.take(j)) * 10 + (s[j] - 48));
    } else {
        assert(s.take(j) =~= s);
    }
}

/// Reads a canonical decimal spelling that fits a `u64`; rejects anything
/// else.
fn parse_dec(s: &Vec<u8>) -> (r: Option<u64>)
    ensures
        match r {
            Some(v) => is_canon_dec(s@) && dec_val(s@) == v,
            None => !(is_canon_dec(s@) && dec_val(s@) <= u64::MAX),
        },
{
    if s.len() == 0 {
        return None;
    }
    if s.len() > 1 && s[0] == 48 {
        return None;
    }
    let mut v: u64 = 0;
    let mut i: usize = 0;
    while i < s.len()
        invariant
            i <= s@.len(),
            s@.len() > 0,
            s@.len() > 1 ==> s@[0] != 48,
            forall|j: int| 0 <= j < i ==> is_digit(#[trigger] s@[j]),
            v == dec_val(s@.take(i as int)),
        decreases s@.len() - i,
    {
        let b = s[i];
        if !(48 <= b && b <= 57) {
            return None;
        }
        let d = (b - 48) as u64;
        proof {
            assert(s@.take(i + 1).drop_last() =~= s@.take(i as int));
            assert(s@.take(i + 1).last() == s@[i as int]);
        }
        if v > (u64::MAX - d) / 10 {
            proof {
                lemma_fundamental_div_mod((u64::MAX - d) as int, 10);
                assert(dec_val(s@.take(i + 1)) == v * 10 + d);
                assert(v * 10 + d > u64::MAX);
                if is_canon_dec(s@) {
                    lemma_dec_val_prefix(s@, i + 1);
                }
            }
            return None;
        }
        proof {
            lemma_fundamental_div_mod((u64::MAX - d) as int, 10);
            assert(v * 10 + d <= u64::MAX);
        }
        v = v * 10 + d;
        i = i + 1;
    }
    proof {
        assert(s@.take(s@.len() as int) =~= s@);
    }
    Some(v)
}

/// The claims carried by a verified token: the subject it was issued to,
/// its role, and the instant after which it is no longer valid.
#[derive(Debug)]
pub struct Claims {
    pub subject: Vec<u8>,
    pub role: Role,
    pub exp: u64,
}

impl View for Claims {
    type V = SpecClaims;

    open spec fn view(&self) -> SpecClaims {
        SpecClaims { subject: self.subject@, role: self.role, exp: self.exp }
    }
}

/// Issues the token that carries `subject` and `role` until `now + ttl`
/// under `key`. Issuance always succeeds on well-formed inputs; the
/// signature covers the whole claim set, so a change to any field
/// invalidates the token.
pub fn issue(subject: &Vec<u8>, role: Role, now: u64, ttl: u64, key: &Vec<u8>) -> (t: Vec<u8>)
    requires
        now + ttl <= u64::MAX,
    ensures
        t@ == spec_issue(subject@, role, (now + ttl) as u64, key@),
{
    let exp = now + ttl;
    let mut payload: Vec<u8> = Vec::new();
    push_hex(&mut payload, subject);
    payload.push(SEP);
    push_role(&mut payload, role);
    payload.push(SEP);
    push_dec(&mut payload, exp);
    proof {
        assert(payload@ =~= spec_payload(subject@, role, exp));
    }
    let mac = hmac_sha256(key, &payload);
    let mut t = payload;
    t.push(SEP);
    push_hex(&mut t, &mac);
    proof {
        assert(t@ =~= spec_issue(subject@, role, exp, key@));
    }
    t
}

/// Verifies a presented token at time `now` under `key` and returns its
/// claims, or says exactly why it is rejected: `MalformedToken` when the
/// string is not structurally a token, `BadSignature` when the tag is not
/// the payload's tag under `key` (checked before the payload is
/// interpreted), `Expired` when `now` lies strictly after the expiry, and
/// `InvalidRole` when the embedded role string names no role.
pub fn verify(token: &Vec<u8>, now: u64, key: &Vec<u8>) -> (r: Result<Claims, AuthError>)
    ensures
        match r {
            Ok(c) => spec_verify(token@, now, key@) == Ok::<SpecClaims, AuthError>(c@),
            Err(e) => spec_verify(token@, now, key@) == Err::<SpecClaims, AuthError>(e),
        },
{
    let parts = split_vec(token);
    let (sub_hex, r1) = match parts {
        None => {
            return Err(AuthError::MalformedToken);
        },
        Some(p) => p,
    };
    let (role_raw, r2) = match split_vec(&r1) {
        None => {
            return Err(AuthError::MalformedToken);
        },
        Some(p) => p,
    };
    let (exp_raw, tag_raw) = match split_vec(&r2) {
        None => {
            return Err(AuthError::MalformedToken);
        },
        Some(p) => p,
    };
    if let Some(_) = split_vec(&tag_raw) {
        return Err(AuthError::MalformedToken);
    }
    if !check_hex(&sub_hex) {
        return Err(AuthError::MalformedToken);
    }
    let exp = match parse_dec(&exp_raw) {
        None => {
            return Err(AuthError::MalformedToken);
        },
        Some(v) => v,
    };
    if !check_hex(&tag_raw) {
        return Err(AuthError::MalformedToken);
    }
    proof {
        assert(spec_parse(token@) == Some(
            Parsed { sub_hex: sub_hex@, role_raw: role_raw@, exp_raw: exp_raw@, tag_raw: tag_raw@ },
        ));
    }
    let mut payload: Vec<u8> = Vec::new();
    let mut j: usize = 0;
    while j < sub_hex.len()
        invariant
            j <= sub_hex@.len(),
            payload@ == sub_hex@.take(j as int),
        decreases sub_hex@.len() - j,
    {
        payload.push(sub_hex[j]);
        proof {
            assert(payload@ =~= sub_hex@.take(j + 1));
        }
        j = j + 1;
    }
    payload.push(SEP);
    let mut k: usize = 0;
    proof {
        assert(sub_hex@.take(sub_hex@.len() as int) =~= sub_hex@);
    }
    while k < role_raw.len()
        invariant
            k <= role_raw@.len(),
            payload@ == sub_hex@ + seq![SEP] + role_raw@.take(k as int),
        decreases role_raw@.len() - k,
    {
        payload.push(role_raw[k]);
        proof {
            assert(payload@ =~= sub_hex@ + seq![SEP] + role_raw@.take(k + 1));
        }
        k = k + 1;
    }
    payload.push(SEP);
    let mut m: usize = 0;
    proof {
        assert(role_raw@.take(role_raw@.len() as int) =~= role_raw@);
    }
    while m < exp_raw.len()
        invariant
            m <= exp_raw@.len(),
            payload@ == sub_hex@ + seq![SEP] + role_raw@ + seq![SEP] + exp_raw@.take(m as int),
        decreases exp_raw@.len() - m,
    {
        payload.push(exp_raw[m]);
        proof {
            assert(payload@ =~= sub_hex@ + seq![SEP] + role_raw@ + seq![SEP] + exp_raw@.take(
                m + 1,
            ));
        }
        m = m + 1;
    }
    proof {
        assert(exp_raw@.take(exp_raw@.len() as int) =~= exp_raw@);
        assert(payload@ == payload_of_parts(sub_hex@, role_raw@, exp_raw@));
    }
    let mac = hmac_sha256(key, &payload);
    let tag_bytes = hex_decode(&tag_raw);
    if !bytes_eq(&tag_bytes, &mac) {
        return Err(AuthError::BadSignature);
    }
    if now > exp {
        return Err(AuthError::Expired);
    }
    let role = if bytes_eq_role_user(&role_raw) {
        Role::User
    } else if bytes_eq_role_admin(&role_raw) {
        Role::Admin
    } else {
        return Err(AuthError::InvalidRole);
    };
    let subject = hex_decode(&sub_hex);
    Ok(Claims { subject, role, exp })
}

/// Whether the bytes are the byte form of the user role.
fn bytes_eq_role_user(v: &Vec<u8>) -> (r: bool)
    ensures
        r == (v@ == role_field(Role::User)),
{
    let r = v.len() == 4 && v[0] == 85 && v[1] == 115 && v[2] == 101 && v[3] == 114;
    proof {
        if r {
            assert(v@ =~= role_field(Role::User));
        }
    }
    r
}

/// Whether the bytes are the byte form of the admin role.
fn bytes_eq_role_admin(v: &Vec<u8>) -> (r: bool)
    ensures
        r == (v@ == role_field(Role::Admin)),
{
    let r = v.len() == 5 && v[0] == 65 && v[1] == 100 && v[2] == 109 && v[3] == 105 && v[4] == 110;
    proof {
        if r {
            assert(v@ =~= role_field(Role::Admin));
        }
    }
    r
}

} // verus!


