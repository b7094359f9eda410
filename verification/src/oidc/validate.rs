//! Offline validation of an OIDC `id_token` against cached signing keys.
//!
//! `RS256` is the only algorithm that is let through, and it is checked before
//! a key is chosen. Issuer, audience, expiry, nonce and key id are always
//! checked. The hosted domain is matched on the `hd` claim, never on the email
//! address. An email is kept only when the provider says that it was verified.
//! Errors name claims and never repeat their values.
use jsonwebtoken::jwk::Jwk;
use jsonwebtoken::{Algorithm, DecodingKey, Validation};
use vstd::prelude::*;

use crate::json::{
    distinct_names, find_member, json_of_value, member, members_view, value_contents, Json,
    JsonView,
};
use crate::oidc::keys::{key_of_id, KeySet};
use crate::text::{cat, decimal, decimal_text, opt_text, text_eq, texts};
use crate::time::{
    from_epoch_secs, representable, secs, Span, Timestamp, MAX_CLOCK_SKEW_SECS, MAX_SPAN,
    NANOS_PER_SEC,
};

verus! {

/// What the validator needs from policy for one provider.
pub struct IdpParams<'a> {
    /// Expected `iss` claim.
    pub issuer: &'a str,
    /// Expected `aud` claim: the OAuth client id.
    pub client_id: &'a str,
    /// Accepted `hd` values; exactly `["*"]` accepts any account.
    pub allowed_domains: &'a [String],
    /// Greatest acceptable age of the authentication, if there is a limit.
    pub max_auth_age: Option<Span>,
    /// Whether the provider issues refresh tokens. A session that can renew must
    /// carry a real `auth_time`.
    pub allow_offline_access: bool,
    /// Leeway for clock comparisons.
    pub clock_skew: Span,
}

impl<'a> IdpParams<'a> {
    /// The clock difference that is tolerated by default.
    pub fn default_clock_skew() -> (r: Span)
        ensures
            r == MAX_CLOCK_SKEW_SECS * NANOS_PER_SEC,
            r <= MAX_SPAN,
    {
        secs(MAX_CLOCK_SKEW_SECS)
    }

    /// The leeway lies in the past of the clock, and the age limit with the leeway
    /// is still a span. The leeway is taken from the seconds that the clock shows since
    /// 1970, which must not run out; a thousand million of them had passed in 2001.
    pub open spec fn usable(self) -> bool {
        &&& self.clock_skew <= 1_000_000_000 * NANOS_PER_SEC
        &&& self.max_auth_age matches Some(age) ==> age + self.clock_skew <= MAX_SPAN
    }
}

/// What is kept of a token that passed.
#[derive(Debug)]
pub struct ValidatedToken {
    /// The provider's stable subject identifier.
    pub sub: String,
    /// Present only when the token carried `email_verified == true`.
    pub email: Option<String>,
    /// Hosted domain, when present.
    pub hd: Option<String>,
    /// The `auth_time` claim, or `iat` where it is absent and the session cannot
    /// renew.
    pub auth_time: Timestamp,
    /// The `iat` claim: when the token was minted.
    pub iat: Timestamp,
    /// The claims, for the attribute mapping.
    pub raw_claims: Vec<(String, Json)>,
}

/// A validated token as mathematical data.
pub struct TokenView {
    pub sub: Seq<char>,
    pub email: Option<Seq<char>>,
    pub hd: Option<Seq<char>>,
    pub auth_time: int,
    pub iat: int,
    pub raw_claims: Seq<(Seq<char>, JsonView)>,
}

impl View for ValidatedToken {
    type V = TokenView;

    open spec fn view(&self) -> TokenView {
        TokenView {
            sub: self.sub@,
            email: opt_text(self.email),
            hd: opt_text(self.hd),
            auth_time: self.auth_time as int,
            iat: self.iat as int,
            raw_claims: members_view(self.raw_claims@),
        }
    }
}

/// How the `nonce` claim is checked.
pub enum NonceExpectation<'a> {
    /// The token must carry exactly this nonce. Missing and mismatched are the
    /// same failure.
    Required(&'a str),
    /// The caller binds the token to a live session instead; only the nonce
    /// equality is skipped.
    SessionBound,
}

/// Why a token was refused.
#[derive(Debug)]
pub enum OidcError {
    /// The signature, the header or a required claim is wrong.
    Signature(String),
    /// The token is genuine but not acceptable.
    Rejected(String),
    /// No key of that id is known.
    UnknownKid(String),
    /// There are no signing keys at all.
    NoKeys,
}

/// A refusal as mathematical data.
pub enum OidcErrorView {
    Signature(Seq<char>),
    Rejected(Seq<char>),
    UnknownKid(Seq<char>),
    NoKeys,
}

impl View for OidcError {
    type V = OidcErrorView;

    open spec fn view(&self) -> OidcErrorView {
        match *self {
            OidcError::Signature(s) => OidcErrorView::Signature(s@),
            OidcError::Rejected(s) => OidcErrorView::Rejected(s@),
            OidcError::UnknownKid(s) => OidcErrorView::UnknownKid(s@),
            OidcError::NoKeys => OidcErrorView::NoKeys,
        }
    }
}

impl OidcError {
    /// The sentence that tells the failure to a person.
    pub fn message(&self) -> (r: String)
        ensures
            r@ == (match self@ {
                OidcErrorView::Signature(s) => "token signature or header invalid: "@ + s,
                OidcErrorView::Rejected(s) => "token rejected: "@ + s,
                OidcErrorView::UnknownKid(s) => "unknown key id "@ + s,
                OidcErrorView::NoKeys => "no signing keys available"@,
            }),
    {
        match self {
            OidcError::Signature(s) => cat("token signature or header invalid: ", s.as_str()),
            OidcError::Rejected(s) => cat("token rejected: ", s.as_str()),
            OidcError::UnknownKid(s) => cat("unknown key id ", s.as_str()),
            OidcError::NoKeys => "no signing keys available".to_owned(),
        }
    }
}

/// An outcome as mathematical data.
pub open spec fn outcome_view(r: Result<ValidatedToken, OidcError>) -> Result<
    TokenView,
    OidcErrorView,
> {
    match r {
        Ok(t) => Ok(t@),
        Err(e) => Err(e@),
    }
}

/// The text of a claim, where it is a text.
pub open spec fn text_claim(claims: Seq<(Seq<char>, JsonView)>, name: Seq<char>) -> Option<
    Seq<char>,
> {
    match member(claims, name) {
        Some(JsonView::Text(s)) => Some(s),
        _ => None,
    }
}

/// The number of a claim, where it is a whole number of 64 unsigned bits.
pub open spec fn number_claim(claims: Seq<(Seq<char>, JsonView)>, name: Seq<char>) -> Option<u64> {
    match member(claims, name) {
        Some(JsonView::Number(_, Some(n))) => Some(n),
        _ => None,
    }
}

/// Whether a claim is the boolean `true`.
pub open spec fn true_claim(claims: Seq<(Seq<char>, JsonView)>, name: Seq<char>) -> bool {
    member(claims, name) == Some(JsonView::Bool(true))
}

/// The claims without the first one called `name`.
pub open spec fn without_claim(claims: Seq<(Seq<char>, JsonView)>, name: Seq<char>) -> Seq<
    (Seq<char>, JsonView),
>
    decreases claims.len(),
{
    if claims.len() == 0 {
        claims
    } else if claims[0].0 == name {
        claims.drop_first()
    } else {
        seq![claims[0]] + without_claim(claims.drop_first(), name)
    }
}

/// The nonce rule.
pub open spec fn nonce_ok(
    claims: Seq<(Seq<char>, JsonView)>,
    nonce: NonceExpectation<'_>,
) -> bool {
    match nonce {
        NonceExpectation::Required(expected) => text_claim(claims, "nonce"@) == Some(expected@),
        NonceExpectation::SessionBound => true,
    }
}

/// Any account is accepted.
pub open spec fn any_domain(params: IdpParams<'_>) -> bool {
    texts(params.allowed_domains@) == seq!["*"@]
}

/// The moment the claims say the user authenticated, in seconds: `auth_time`, or
/// `iat` for a session that cannot renew.
pub open spec fn auth_secs(
    claims: Seq<(Seq<char>, JsonView)>,
    offline: bool,
    iat: u64,
) -> Option<u64> {
    match number_claim(claims, "auth_time"@) {
        Some(n) => Some(n),
        None => if offline {
            None
        } else {
            Some(iat)
        },
    }
}

/// The age of an authentication at `now`; zero if it lies ahead.
pub open spec fn age_at(auth_time: int, now: int) -> int {
    if now >= auth_time {
        now - auth_time
    } else {
        0
    }
}

/// The message for an authentication that is too old.
pub open spec fn too_old_text(age: int, max_age: int) -> Seq<char> {
    "authentication is "@ + decimal_text((age / NANOS_PER_SEC as int) as nat)
        + "s old, max_auth_age is "@ + decimal_text((max_age / NANOS_PER_SEC as int) as nat) + "s"@
}

/// The verdict on the moments of a token.
pub open spec fn time_verdict(
    iat: int,
    auth_time: int,
    params: IdpParams<'_>,
    now: int,
) -> Option<OidcErrorView> {
    if !representable(auth_time) || !representable(iat) {
        Some(OidcErrorView::Rejected("auth_time/iat out of representable range"@))
    } else if iat > now + params.clock_skew {
        Some(OidcErrorView::Rejected("iat is in the future beyond clock-skew leeway"@))
    } else if params.max_auth_age matches Some(max_age) && age_at(auth_time, now) > max_age
        + params.clock_skew {
        Some(
            OidcErrorView::Rejected(
                too_old_text(age_at(auth_time, now), params.max_auth_age->0 as int),
            ),
        )
    } else {
        None
    }
}

/// The verdict on the claims of a token whose signature, issuer, audience and
/// expiry hold.
pub open spec fn claims_verdict(
    claims: Seq<(Seq<char>, JsonView)>,
    params: IdpParams<'_>,
    nonce: NonceExpectation<'_>,
    now: int,
) -> Result<TokenView, OidcErrorView> {
    let sub = text_claim(claims, "sub"@);
    let hd = text_claim(claims, "hd"@);
    let kept = if true_claim(claims, "email_verified"@) {
        claims
    } else {
        without_claim(claims, "email"@)
    };
    let email = if true_claim(claims, "email_verified"@) {
        text_claim(claims, "email"@)
    } else {
        None
    };
    let iat = number_claim(kept, "iat"@);
    if !nonce_ok(claims, nonce) {
        Err(OidcErrorView::Signature("nonce missing or mismatched"@))
    } else if sub is None {
        Err(OidcErrorView::Signature("sub claim missing or not a string"@))
    } else if !any_domain(params) && hd is None {
        Err(OidcErrorView::Rejected("hd claim absent (consumer account?)"@))
    } else if !any_domain(params) && !texts(params.allowed_domains@).contains(hd->0) {
        Err(OidcErrorView::Rejected("hd claim not in allowed_domains"@))
    } else if iat is None {
        Err(OidcErrorView::Signature("iat claim missing or not a number"@))
    } else if auth_secs(kept, params.allow_offline_access, iat->0) is None {
        Err(OidcErrorView::Rejected("auth_time required for a renewable session"@))
    } else {
        let iat_time = iat->0 * NANOS_PER_SEC;
        let auth_time = auth_secs(kept, params.allow_offline_access, iat->0)->0 * NANOS_PER_SEC;
        match time_verdict(iat_time, auth_time, params, now) {
            Some(e) => Err(e),
            None => Ok(
                TokenView {
                    sub: sub->0,
                    email,
                    hd,
                    auth_time,
                    iat: iat_time,
                    raw_claims: kept,
                },
            ),
        }
    }
}

/// Reads a text claim.
fn read_text<'a>(claims: &'a Vec<(String, Json)>, name: &str) -> (r: Option<&'a String>)
    ensures
        match r {
            Some(s) => text_claim(members_view(claims@), name@) == Some(s@),
            None => text_claim(members_view(claims@), name@) is None,
        },
{
    match find_member(claims, name) {
        Some(Json::Text(s)) => Some(s),
        _ => None,
    }
}

/// Reads a number claim.
fn read_number(claims: &Vec<(String, Json)>, name: &str) -> (r: Option<u64>)
    ensures
        r == number_claim(members_view(claims@), name@),
{
    match find_member(claims, name) {
        Some(Json::Number(n)) => n.unsigned,
        _ => None,
    }
}

/// Whether a claim is the boolean `true`.
fn read_true(claims: &Vec<(String, Json)>, name: &str) -> (r: bool)
    ensures
        r == true_claim(members_view(claims@), name@),
{
    match find_member(claims, name) {
        Some(Json::Bool(b)) => *b,
        _ => false,
    }
}

/// Removes the first claim called `name`.
fn remove_claim(claims: &mut Vec<(String, Json)>, name: &str)
    ensures
        members_view(final(claims)@) == without_claim(members_view(old(claims)@), name@),
{
    let ghost all = members_view(claims@);
    let mut i: usize = 0;
    assert(all.skip(0) == all);
    assert(all.take(0) + without_claim(all.skip(0), name@) == without_claim(all, name@));
    while i < claims.len()
        invariant
            *claims == *old(claims),
            all == members_view(claims@),
            i <= claims@.len(),
            without_claim(all, name@) == all.take(i as int) + without_claim(
                all.skip(i as int),
                name@,
            ),
        decreases claims@.len() - i,
    {
        assert(all.skip(i as int)[0] == all[i as int]);
        if text_eq(claims[i].0.as_str(), name) {
            claims.remove(i);
            proof {
                assert(all.skip(i as int).drop_first() == all.skip(i + 1));
                assert(members_view(claims@) =~= all.take(i as int) + all.skip(i + 1));
            }
            return;
        }
        proof {
            assert(all.skip(i as int).drop_first() == all.skip(i + 1));
            assert(all.take(i + 1) == all.take(i as int).push(all[i as int]));
            assert(without_claim(all.skip(i as int), name@) == seq![all[i as int]]
                + without_claim(all.skip(i + 1), name@));
            assert(all.take(i as int) + (seq![all[i as int]] + without_claim(
                all.skip(i + 1),
                name@,
            )) =~= all.take(i + 1) + without_claim(all.skip(i + 1), name@));
        }
        i = i + 1;
    }
    assert(all.skip(i as int).len() == 0);
    assert(all.take(i as int) + all.skip(i as int) =~= all);
}

/// Whether exactly `"*"` is allowed.
fn is_any_domain(allowed: &[String]) -> (r: bool)
    ensures
        r == (texts(allowed@) == seq!["*"@]),
{
    if allowed.len() == 1 {
        let star = text_eq(allowed[0].as_str(), "*");
        proof {
            assert(texts(allowed@)[0] == allowed@[0]@);
            if star {
                assert(texts(allowed@) =~= seq!["*"@]);
            } else {
                assert(texts(allowed@)[0] != seq!["*"@][0]);
            }
        }
        star
    } else {
        assert(texts(allowed@).len() != seq!["*"@].len());
        false
    }
}

/// Whether the domain is one of those allowed.
fn domain_listed(allowed: &[String], domain: &str) -> (r: bool)
    ensures
        r == texts(allowed@).contains(domain@),
{
    let mut i: usize = 0;
    while i < allowed.len()
        invariant
            i <= allowed@.len(),
            forall|j: int| 0 <= j < i ==> texts(allowed@)[j] != domain@,
        decreases allowed@.len() - i,
    {
        assert(texts(allowed@)[i as int] == allowed@[i as int]@);
        if text_eq(allowed[i].as_str(), domain) {
            return true;
        }
        i = i + 1;
    }
    false
}

/// The message for an authentication that is too old.
fn too_old(age: Span, max_age: Span) -> (r: String)
    requires
        age <= MAX_SPAN,
        max_age <= MAX_SPAN,
    ensures
        r@ == too_old_text(age as int, max_age as int),
{
    let age_secs: u64 = (age / NANOS_PER_SEC) as u64;
    let max_secs: u64 = (max_age / NANOS_PER_SEC) as u64;
    let head = cat("authentication is ", decimal(age_secs).as_str());
    let middle = cat(head.as_str(), "s old, max_auth_age is ");
    let tail = cat(middle.as_str(), decimal(max_secs).as_str());
    cat(tail.as_str(), "s")
}

/// Checks the moments of a token.
fn check_times(
    iat: Timestamp,
    auth_time: Timestamp,
    params: &IdpParams<'_>,
    now: Timestamp,
) -> (r: Option<OidcError>)
    requires
        params.usable(),
        representable(now as int),
        0 <= iat,
        0 <= auth_time,
        representable(iat as int),
        representable(auth_time as int),
    ensures
        match r {
            Some(e) => time_verdict(iat as int, auth_time as int, *params, now as int) == Some(e@),
            None => time_verdict(iat as int, auth_time as int, *params, now as int) is None,
        },
{
    if iat > now + params.clock_skew as i128 {
        return Some(
            OidcError::Rejected("iat is in the future beyond clock-skew leeway".to_owned()),
        );
    }
    if let Some(max_age) = params.max_auth_age {
        let age: u128 = if now >= auth_time {
            (now - auth_time) as u128
        } else {
            0
        };
        if age > max_age + params.clock_skew {
            return Some(OidcError::Rejected(too_old(age, max_age)));
        }
    }
    None
}

/// Decides on the claims of a token whose signature, issuer, audience and expiry
/// hold.
pub fn check_claims(
    claims: Vec<(String, Json)>,
    params: &IdpParams<'_>,
    nonce: NonceExpectation<'_>,
    now: Timestamp,
) -> (r: Result<ValidatedToken, OidcError>)
    requires
        params.usable(),
        representable(now as int),
    ensures
        outcome_view(r) == claims_verdict(members_view(claims@), *params, nonce, now as int),
{
    let mut claims = claims;
    match nonce {
        NonceExpectation::Required(expected) => {
            let matched = match read_text(&claims, "nonce") {
                Some(n) => text_eq(n.as_str(), expected),
                None => false,
            };
            if !matched {
                return Err(OidcError::Signature("nonce missing or mismatched".to_owned()));
            }
        },
        NonceExpectation::SessionBound => {},
    }
    let sub = match read_text(&claims, "sub") {
        Some(s) => s.clone(),
        None => {
            return Err(OidcError::Signature("sub claim missing or not a string".to_owned()));
        },
    };
    let hd = match read_text(&claims, "hd") {
        Some(s) => Some(s.clone()),
        None => None,
    };
    if !is_any_domain(params.allowed_domains) {
        match &hd {
            None => {
                return Err(OidcError::Rejected("hd claim absent (consumer account?)".to_owned()));
            },
            Some(d) => {
                if !domain_listed(params.allowed_domains, d.as_str()) {
                    return Err(OidcError::Rejected("hd claim not in allowed_domains".to_owned()));
                }
            },
        }
    }
    let email = if read_true(&claims, "email_verified") {
        match read_text(&claims, "email") {
            Some(s) => Some(s.clone()),
            None => None,
        }
    } else {
        remove_claim(&mut claims, "email");
        None
    };
    let iat_secs: u64 = match read_number(&claims, "iat") {
        Some(n) => n,
        None => {
            return Err(OidcError::Signature("iat claim missing or not a number".to_owned()));
        },
    };
    let auth_time_secs: u64 = match read_number(&claims, "auth_time") {
        Some(n) => n,
        None => {
            if params.allow_offline_access {
                return Err(
                    OidcError::Rejected("auth_time required for a renewable session".to_owned()),
                );
            }
            iat_secs
        },
    };
    let auth_time: Timestamp = match from_epoch_secs(auth_time_secs) {
        Some(t) => t,
        None => {
            return Err(OidcError::Rejected("auth_time/iat out of representable range".to_owned()));
        },
    };
    let iat: Timestamp = match from_epoch_secs(iat_secs) {
        Some(t) => t,
        None => {
            return Err(OidcError::Rejected("auth_time/iat out of representable range".to_owned()));
        },
    };
    if let Some(e) = check_times(iat, auth_time, params, now) {
        return Err(e);
    }
    Ok(ValidatedToken { sub, email, hd, auth_time, iat, raw_claims: claims })
}

/// What `jsonwebtoken::decode_header` makes of a token: the name of the
/// algorithm and the key id of its header, or the words of its complaint.
pub uninterp spec fn header_decoded(token: Seq<char>) -> Result<
    (Seq<char>, Option<Seq<char>>),
    Seq<char>,
>;

/// Reads the header of a token with `jsonwebtoken::decode_header`, without
/// looking at the signature. The algorithm is given by its name.
#[verifier::external_body]
fn decode_header(token: &str) -> (r: Result<(String, Option<String>), String>)
    ensures
        match r {
            Ok(h) => header_decoded(token@) matches Ok(v) && v.0 == h.0@ && v.1 == opt_text(h.1),
            Err(e) => header_decoded(token@) matches Err(words) && words == e@,
        },
{
    match jsonwebtoken::decode_header(token) {
        Ok(header) => Ok((format!("{:?}", header.alg), header.kid)),
        Err(e) => Err(e.to_string()),
    }
}

/// What `jsonwebtoken::DecodingKey::from_jwk` has against the text of a JSON Web
/// Key, or nothing where it makes a key of it.
pub uninterp spec fn jwk_complaint(jwk: Seq<char>) -> Option<Seq<char>>;

/// Tries to make a verification key of a JSON Web Key with
/// `jsonwebtoken::DecodingKey::from_jwk`. Whether it can, and what it has against
/// the key, depends on the text alone.
#[verifier::external_body]
fn check_jwk(jwk: &str) -> (r: Result<(), String>)
    ensures
        r is Ok <==> jwk_complaint(jwk@) is None,
        r matches Err(e) ==> jwk_complaint(jwk@) == Some(e@),
{
    let jwk = serde_json::from_str::<Jwk>(jwk).map_err(|e| e.to_string())?;
    let made = DecodingKey::from_jwk(&jwk).map_err(|e| e.to_string());
    made.map(|_| ())
}

/// A claim can be read as names: it is a text, or an array of texts.
pub open spec fn readable_names(claims: Seq<(Seq<char>, JsonView)>, name: Seq<char>) -> bool {
    match member(claims, name) {
        Some(JsonView::Text(_)) => true,
        Some(JsonView::Array(items)) => forall|i: int|
            0 <= i < items.len() ==> (#[trigger] items[i]) is Text,
        _ => false,
    }
}

/// A claim names `who`: as its text, or among the texts of its array.
pub open spec fn claim_names(
    claims: Seq<(Seq<char>, JsonView)>,
    name: Seq<char>,
    who: Seq<char>,
) -> bool {
    readable_names(claims, name) && match member(claims, name) {
        Some(JsonView::Text(s)) => s == who,
        Some(JsonView::Array(items)) => items.contains(JsonView::Text(who)),
        _ => false,
    }
}

/// The expiry is a number, but not a whole one of 64 unsigned bits.
pub open spec fn fractional_expiry(claims: Seq<(Seq<char>, JsonView)>) -> bool {
    member(claims, "exp"@) matches Some(JsonView::Number(_, None))
}

/// The claims that every token must carry.
pub open spec fn needed_claims() -> Seq<Seq<char>> {
    seq!["exp"@, "aud"@, "iss"@, "sub"@]
}

/// A needed claim is absent, or not of its kind: the expiry a number, the subject a text,
/// issuer and audience a text or an array of texts.
pub open spec fn lacks(claims: Seq<(Seq<char>, JsonView)>, name: Seq<char>) -> bool {
    if name == "exp"@ {
        number_claim(claims, name) is None
    } else if name == "sub"@ {
        text_claim(claims, name) is None
    } else {
        !readable_names(claims, name)
    }
}

/// A claim is found lacking. An expiry that is no whole number may be.
pub open spec fn found_lacking(claims: Seq<(Seq<char>, JsonView)>, words: Seq<char>) -> bool {
    exists|i: int|
        0 <= i < needed_claims().len() && lacks(claims, #[trigger] needed_claims()[i]) && words
            == "Missing required claim: "@ + needed_claims()[i]
}

/// Every needed claim is there. Of an expiry that is no whole number this is not said.
pub open spec fn complete(claims: Seq<(Seq<char>, JsonView)>) -> bool {
    &&& number_claim(claims, "exp"@) is Some || fractional_expiry(claims)
    &&& text_claim(claims, "sub"@) is Some
    &&& readable_names(claims, "iss"@)
    &&& readable_names(claims, "aud"@)
}

/// The expiry lies before the clock by more than the leeway, all in seconds.
pub open spec fn past_expiry(
    claims: Seq<(Seq<char>, JsonView)>,
    leeway: u64,
    clock: u64,
) -> bool {
    number_claim(claims, "exp"@) matches Some(exp) && exp + leeway < clock
}

/// What the claims of a token with a good signature come to when the clock stands at
/// `clock` seconds: they pass, or there is a complaint. First the needed claims are looked
/// for, then the expiry is held against the clock, then issuer and audience are compared.
/// An expiry that is a number but no whole one may be taken either way.
pub open spec fn judged_at(
    claims: Seq<(Seq<char>, JsonView)>,
    issuer: Seq<char>,
    audience: Seq<char>,
    leeway: u64,
    clock: u64,
    complaint: Option<Seq<char>>,
) -> bool {
    if !complete(claims) {
        complaint matches Some(words) && found_lacking(claims, words)
    } else if fractional_expiry(claims) && (complaint == Some("Missing required claim: exp"@)
        || complaint == Some("ExpiredSignature"@)) {
        true
    } else if past_expiry(claims, leeway, clock) {
        complaint == Some("ExpiredSignature"@)
    } else if !claim_names(claims, "iss"@, issuer) {
        complaint == Some("InvalidIssuer"@)
    } else if !claim_names(claims, "aud"@, audience) {
        complaint == Some("InvalidAudience"@)
    } else {
        complaint is None
    }
}

/// The claims that `jsonwebtoken::decode` reads from a token whose signature by the
/// algorithm holds under a JSON Web Key, or the words of its complaint where the
/// signature does not hold or the claims cannot be read.
pub uninterp spec fn jwt_read(
    token: Seq<char>,
    jwk: Seq<char>,
    algorithm: Seq<char>,
) -> Result<Seq<(Seq<char>, JsonView)>, Seq<char>>;

/// The claims with which `jsonwebtoken::decode` lets a token pass, for an issuer, an
/// audience and a leeway, when the clock stands at `clock` seconds; nothing where it does
/// not.
pub uninterp spec fn jwt_decoded(
    token: Seq<char>,
    jwk: Seq<char>,
    algorithm: Seq<char>,
    issuer: Seq<char>,
    audience: Seq<char>,
    leeway: u64,
    clock: u64,
) -> Option<Seq<(Seq<char>, JsonView)>>;

/// What decoding a token comes to when the clock stands at `clock` seconds, given what is
/// read from it and what passes.
pub open spec fn decoded_at(
    read: Result<Seq<(Seq<char>, JsonView)>, Seq<char>>,
    passed: Option<Seq<(Seq<char>, JsonView)>>,
    issuer: Seq<char>,
    audience: Seq<char>,
    leeway: u64,
    clock: u64,
    decoded: Result<Seq<(Seq<char>, JsonView)>, Seq<char>>,
) -> bool {
    &&& passed == decoded.ok()
    &&& match read {
        Err(words) => decoded == Err::<Seq<(Seq<char>, JsonView)>, Seq<char>>(words),
        Ok(claims) => match decoded {
            Ok(given) => given == claims && distinct_names(claims) && judged_at(
                claims,
                issuer,
                audience,
                leeway,
                clock,
                None,
            ),
            Err(words) => judged_at(claims, issuer, audience, leeway, clock, Some(words)),
        },
    }
}

/// What the decoder handed out, as mathematical data.
pub open spec fn decoded_view(r: Result<serde_json::Value, String>) -> Result<
    Seq<(Seq<char>, JsonView)>,
    Seq<char>,
> {
    match r {
        Ok(value) => Ok(value_contents(value)->Object_0),
        Err(words) => Err(words@),
    }
}

/// Verifies a token with `jsonwebtoken::decode` under a `Validation` for one algorithm,
/// issuer and audience, with the claims that must be there and the leeway in seconds.
/// The signature and the reading of the claims depend on token, key and algorithm alone
/// and are named, and so is whether the token passes, which depends on the other arguments
/// and on the clock too. The claims are judged at the seconds that the system clock shows:
/// what must be there, the expiry (which a new `Validation` checks), the issuer and the
/// audience. Which of several absent claims is complained of is left open, and so is what
/// becomes of an expiry that is a number but no whole one of 64 unsigned bits, which the
/// library rounds. The leeway is subtracted from the clock's seconds, so it must not
/// exceed them.
#[verifier::external_body]
fn decode_claims(
    token: &str,
    jwk: &str,
    algorithm: &str,
    needed: &Vec<String>,
    issuer: &str,
    audience: &str,
    leeway: u64,
) -> (r: Result<serde_json::Value, String>)
    requires
        jwk_complaint(jwk@) is None,
        texts(needed@) == needed_claims(),
        leeway <= 1_000_000_000,
    ensures
        r matches Ok(value) ==> value_contents(value) is Object,
        exists|clock: u64|
            #[trigger] decoded_at(
                jwt_read(token@, jwk@, algorithm@),
                jwt_decoded(token@, jwk@, algorithm@, issuer@, audience@, leeway, clock),
                issuer@,
                audience@,
                leeway,
                clock,
                decoded_view(r),
            ),
{
    let jwk = serde_json::from_str::<Jwk>(jwk).map_err(|e| e.to_string())?;
    let key = DecodingKey::from_jwk(&jwk).map_err(|e| e.to_string())?;
    let algorithm = algorithm.parse::<Algorithm>().map_err(|e| e.to_string())?;
    let mut validation = Validation::new(algorithm);
    validation.set_audience(&[audience]);
    validation.set_issuer(&[issuer]);
    validation.set_required_spec_claims(needed);
    validation.leeway = leeway;
    let decoded = jsonwebtoken::decode::<serde_json::Map<String, serde_json::Value>>(token, &key, &validation);
    match decoded {
        Ok(data) => Ok(serde_json::Value::Object(data.claims)),
        Err(e) => Err(e.to_string()),
    }
}

/// The names of the needed claims.
fn needed_names() -> (r: Vec<String>)
    ensures
        texts(r@) == needed_claims(),
{
    let r = vec!["exp".to_owned(), "aud".to_owned(), "iss".to_owned(), "sub".to_owned()];
    assert(texts(r@) =~= needed_claims());
    r
}

/// How a token stands before its signature is looked at: the text of the key to
/// verify it with, or the refusal.
pub open spec fn chosen_key(
    token: Seq<char>,
    keys: Seq<(Option<Seq<char>>, Seq<char>)>,
) -> Result<Seq<char>, OidcErrorView> {
    match header_decoded(token) {
        Err(words) => Err(OidcErrorView::Signature("header: "@ + words)),
        Ok((alg, kid)) => if alg != "RS256"@ {
            Err(
                OidcErrorView::Signature(
                    "algorithm "@ + alg + " not in allowlist (RS256 only)"@,
                ),
            )
        } else if keys.len() == 0 {
            Err(OidcErrorView::NoKeys)
        } else if kid is None {
            Err(OidcErrorView::Signature("missing kid"@))
        } else {
            match key_of_id(keys, kid->0) {
                None => Err(OidcErrorView::UnknownKid(kid->0)),
                Some(jwk) => match jwk_complaint(jwk) {
                    Some(words) => Err(OidcErrorView::Signature("bad JWK: "@ + words)),
                    None => Ok(jwk),
                },
            }
        },
    }
}

/// The outcome once the library has looked at the signature: its complaint, or
/// the verdict on the claims.
pub open spec fn concluded(
    decoded: Result<Seq<(Seq<char>, JsonView)>, Seq<char>>,
    params: IdpParams<'_>,
    nonce: NonceExpectation<'_>,
    now: int,
) -> Result<TokenView, OidcErrorView> {
    match decoded {
        Err(words) => Err(OidcErrorView::Signature(words)),
        Ok(claims) => claims_verdict(claims, params, nonce, now),
    }
}

/// The leeway for the expiry, in whole seconds.
pub open spec fn leeway_secs(params: IdpParams<'_>) -> u64 {
    (params.clock_skew / NANOS_PER_SEC) as u64
}

/// What verifying a token under a key comes to for this provider when the clock stands at
/// `clock` seconds.
pub open spec fn verified_at(
    token: Seq<char>,
    jwk: Seq<char>,
    params: IdpParams<'_>,
    clock: u64,
    decoded: Result<Seq<(Seq<char>, JsonView)>, Seq<char>>,
) -> bool {
    decoded_at(
        jwt_read(token, jwk, "RS256"@),
        jwt_decoded(
            token,
            jwk,
            "RS256"@,
            params.issuer@,
            params.client_id@,
            leeway_secs(params),
            clock,
        ),
        params.issuer@,
        params.client_id@,
        leeway_secs(params),
        clock,
        decoded,
    )
}

/// Validates `id_token` against `keys` and `params`, checking the `nonce` claim
/// as `nonce` asks.
///
/// The header decides first: only `RS256` is let through, before a key is even
/// chosen. The key is chosen by its id alone. The signature, `iss`, `aud` and
/// `exp` are the library's to check, `exp` against the system clock. `now`
/// governs the freshness of the authentication and the refusal of tokens
/// minted in the future.
pub fn validate_id_token(
    id_token: &str,
    keys: &KeySet,
    params: &IdpParams<'_>,
    nonce: NonceExpectation<'_>,
    now: Timestamp,
) -> (r: Result<ValidatedToken, OidcError>)
    requires
        params.usable(),
        representable(now as int),
    ensures
        match chosen_key(id_token@, keys@) {
            Err(e) => outcome_view(r) == Err::<TokenView, OidcErrorView>(e),
            Ok(jwk) => exists|
                clock: u64,
                decoded: Result<Seq<(Seq<char>, JsonView)>, Seq<char>>,
            |
                #[trigger] verified_at(id_token@, jwk, *params, clock, decoded) && outcome_view(r)
                    == concluded(decoded, *params, nonce, now as int),
        },
{
    let (alg, kid) = match decode_header(id_token) {
        Ok(header) => header,
        Err(e) => {
            return Err(OidcError::Signature(cat("header: ", e.as_str())));
        },
    };
    if !text_eq(alg.as_str(), "RS256") {
        let named = cat("algorithm ", alg.as_str());
        return Err(
            OidcError::Signature(cat(named.as_str(), " not in allowlist (RS256 only)")),
        );
    }
    if keys.keys.len() == 0 {
        return Err(OidcError::NoKeys);
    }
    let kid = match kid {
        Some(kid) => kid,
        None => {
            return Err(OidcError::Signature("missing kid".to_owned()));
        },
    };
    let jwk = match keys.find(kid.as_str()) {
        Some(jwk) => jwk,
        None => {
            return Err(OidcError::UnknownKid(kid));
        },
    };
    if let Err(e) = check_jwk(jwk.as_str()) {
        return Err(OidcError::Signature(cat("bad JWK: ", e.as_str())));
    }
    assert(chosen_key(id_token@, keys@) == Ok::<Seq<char>, OidcErrorView>(jwk@));
    let leeway: u64 = (params.clock_skew / NANOS_PER_SEC) as u64;
    let needed = needed_names();
    let answer = decode_claims(
        id_token,
        jwk.as_str(),
        "RS256",
        &needed,
        params.issuer,
        params.client_id,
        leeway,
    );
    let ghost decoded = decoded_view(answer);
    proof {
        let chosen = chosen_key(id_token@, keys@)->Ok_0;
        let clock = choose|clock: u64|
            #[trigger] decoded_at(
                jwt_read(id_token@, jwk@, "RS256"@),
                jwt_decoded(
                    id_token@,
                    jwk@,
                    "RS256"@,
                    params.issuer@,
                    params.client_id@,
                    leeway,
                    clock,
                ),
                params.issuer@,
                params.client_id@,
                leeway,
                clock,
                decoded,
            );
        assert(verified_at(id_token@, chosen, *params, clock, decoded));
    }
    let value = match answer {
        Ok(value) => value,
        Err(e) => {
            return Err(OidcError::Signature(e));
        },
    };
    match json_of_value(value) {
        Json::Object(claims) => {
            assert(Json::Object(claims)@->Object_0 =~= members_view(claims@));
            check_claims(claims, params, nonce, now)
        },
        _ => {
            assert(false);
            Err(OidcError::NoKeys)
        },
    }
}

proof fn lemma_without_claim(claims: Seq<(Seq<char>, JsonView)>, name: Seq<char>)
    requires
        distinct_names(claims),
    ensures
        member(without_claim(claims, name), name) is None,
        forall|other: Seq<char>|
            other != name ==> #[trigger] member(without_claim(claims, name), other) == member(
                claims,
                other,
            ),
        forall|i: int|
            0 <= i < without_claim(claims, name).len() ==> claims.contains(
                #[trigger] without_claim(claims, name)[i],
            ),
        distinct_names(without_claim(claims, name)),
    decreases claims.len(),
{
    if claims.len() > 0 {
        let rest = claims.drop_first();
        assert(distinct_names(rest));
        let kept = without_claim(claims, name);
        if claims[0].0 == name {
            lemma_absent(rest, name);
            assert forall|i: int| 0 <= i < kept.len() implies claims.contains(kept[i]) by {
                assert(kept[i] == claims[i + 1]);
            }
            assert forall|other: Seq<char>| other != name implies #[trigger] member(kept, other)
                == member(claims, other) by {}
        } else {
            lemma_without_claim(rest, name);
            let tail = without_claim(rest, name);
            assert(kept.drop_first() =~= tail);
            assert forall|other: Seq<char>| other != name implies #[trigger] member(kept, other)
                == member(claims, other) by {
                assert(member(tail, other) == member(rest, other));
            }
            assert forall|i: int| 0 <= i < kept.len() implies claims.contains(kept[i]) by {
                if i > 0 {
                    assert(kept[i] == tail[i - 1]);
                    let k = choose|k: int| 0 <= k < rest.len() && rest[k] == tail[i - 1];
                    assert(claims[k + 1] == kept[i]);
                } else {
                    assert(claims[0] == kept[0]);
                }
            }
            assert forall|i: int, j: int| 0 <= i < j < kept.len() implies kept[i].0 != kept[j].0 by {
                assert(kept[j] == tail[j - 1]);
                if i == 0 {
                    let k = choose|k: int| 0 <= k < rest.len() && rest[k] == tail[j - 1];
                    assert(claims[k + 1] == kept[j]);
                } else {
                    assert(kept[i] == tail[i - 1]);
                }
            }
        }
    }
}

proof fn lemma_absent(claims: Seq<(Seq<char>, JsonView)>, name: Seq<char>)
    requires
        forall|i: int| 0 <= i < claims.len() ==> (#[trigger] claims[i]).0 != name,
    ensures
        member(claims, name) is None,
    decreases claims.len(),
{
    if claims.len() > 0 {
        assert forall|i: int| 0 <= i < claims.drop_first().len() implies (
        #[trigger] claims.drop_first()[i]).0 != name by {
            assert(claims.drop_first()[i] == claims[i + 1]);
        }
        lemma_absent(claims.drop_first(), name);
    }
}

/// A token that passes carries the nonce that was asked for and a subject, was
/// not minted in the future beyond the leeway, and is not older than the limit
/// and the leeway allow. For a provider with offline access its authentication
/// moment is the one the token asserts.
pub proof fn law_accepted_token_meets_every_rule(
    claims: Seq<(Seq<char>, JsonView)>,
    params: IdpParams<'_>,
    nonce: NonceExpectation<'_>,
    now: int,
)
    requires
        distinct_names(claims),
        claims_verdict(claims, params, nonce, now) is Ok,
    ensures
        nonce_ok(claims, nonce),
        text_claim(claims, "sub"@) == Some(claims_verdict(claims, params, nonce, now)->Ok_0.sub),
        !any_domain(params) ==> (text_claim(claims, "hd"@) matches Some(d) && texts(
            params.allowed_domains@,
        ).contains(d)),
        claims_verdict(claims, params, nonce, now)->Ok_0.iat <= now + params.clock_skew,
        params.max_auth_age matches Some(max_age) ==> now - claims_verdict(
            claims,
            params,
            nonce,
            now,
        )->Ok_0.auth_time <= max_age + params.clock_skew,
        params.allow_offline_access ==> (number_claim(claims, "auth_time"@) matches Some(n) && n
            * NANOS_PER_SEC == claims_verdict(claims, params, nonce, now)->Ok_0.auth_time),
{
    lemma_without_claim(claims, "email"@);
    reveal_strlit("email");
    reveal_strlit("auth_time");
    assert("auth_time"@.len() != "email"@.len());
}

/// An email that the provider has not verified never survives: neither in the
/// token's email nor among the claims that feed the attribute mapping.
pub proof fn law_unverified_email_never_survives(
    claims: Seq<(Seq<char>, JsonView)>,
    params: IdpParams<'_>,
    nonce: NonceExpectation<'_>,
    now: int,
)
    requires
        distinct_names(claims),
        !true_claim(claims, "email_verified"@),
        claims_verdict(claims, params, nonce, now) is Ok,
    ensures
        claims_verdict(claims, params, nonce, now)->Ok_0.email is None,
        member(claims_verdict(claims, params, nonce, now)->Ok_0.raw_claims, "email"@) is None,
{
    lemma_without_claim(claims, "email"@);
}

/// Binding a token to a session skips the nonce equality and nothing else: on
/// every token whose nonce matches, both ways of asking give the same verdict.
pub proof fn law_session_bound_skips_only_the_nonce(
    claims: Seq<(Seq<char>, JsonView)>,
    params: IdpParams<'_>,
    expected: &str,
    now: int,
)
    requires
        text_claim(claims, "nonce"@) == Some(expected@),
    ensures
        claims_verdict(claims, params, NonceExpectation::SessionBound, now) == claims_verdict(
            claims,
            params,
            NonceExpectation::Required(expected),
            now,
        ),
{
}

/// Only a token whose header names `RS256` can pass, and only with a key that was
/// found under the id the header names.
pub proof fn law_only_rs256_with_a_known_key(
    token: Seq<char>,
    keys: Seq<(Option<Seq<char>>, Seq<char>)>,
)
    requires
        chosen_key(token, keys) is Ok,
    ensures
        header_decoded(token) matches Ok(header) && header.0 == "RS256"@ && (header.1 matches Some(
            kid,
        ) && key_of_id(keys, kid) == Some(chosen_key(token, keys)->Ok_0)),
{
}

/// A token passes only with claims that are signed under the chosen key, that name the
/// provider as issuer and its client as audience, and whose expiry, where it is a whole
/// number, is not past by more than the leeway. A token whose signature does not hold, or
/// that is past its expiry and the leeway, or that names another issuer or audience, is
/// refused, whatever else is asked of it.
pub proof fn law_only_signed_claims_pass(
    token: Seq<char>,
    jwk: Seq<char>,
    params: IdpParams<'_>,
    clock: u64,
    decoded: Result<Seq<(Seq<char>, JsonView)>, Seq<char>>,
    nonce: NonceExpectation<'_>,
    now: int,
)
    requires
        verified_at(token, jwk, params, clock, decoded),
    ensures
        concluded(decoded, params, nonce, now) is Ok ==> {
            &&& jwt_read(token, jwk, "RS256"@) matches Ok(claims)
            &&& claim_names(claims, "iss"@, params.issuer@)
            &&& claim_names(claims, "aud"@, params.client_id@)
            &&& number_claim(claims, "exp"@) matches Some(exp) ==> exp + leeway_secs(params)
                >= clock
            &&& concluded(decoded, params, nonce, now) == claims_verdict(claims, params, nonce, now)
        },
        jwt_read(token, jwk, "RS256"@) is Err ==> refused_as_signature(
            concluded(decoded, params, nonce, now),
        ),
        jwt_read(token, jwk, "RS256"@) matches Ok(claims) && (past_expiry(
            claims,
            leeway_secs(params),
            clock,
        ) || !claim_names(claims, "iss"@, params.issuer@) || !claim_names(
            claims,
            "aud"@,
            params.client_id@,
        )) ==> refused_as_signature(concluded(decoded, params, nonce, now)),
{
}

/// The refusal of a token that is not genuine.
pub open spec fn refused_as_signature(r: Result<TokenView, OidcErrorView>) -> bool {
    r matches Err(e) && e is Signature
}

/// A token is decided by its claims alone where its signature holds, nothing that it must
/// carry is lacking, its expiry is not past by more than the leeway, and it names the
/// provider and its client. So it passes where the claims meet the rules.
pub proof fn law_good_token_is_judged_by_its_claims(
    token: Seq<char>,
    jwk: Seq<char>,
    params: IdpParams<'_>,
    clock: u64,
    decoded: Result<Seq<(Seq<char>, JsonView)>, Seq<char>>,
    nonce: NonceExpectation<'_>,
    now: int,
)
    requires
        verified_at(token, jwk, params, clock, decoded),
        jwt_read(token, jwk, "RS256"@) matches Ok(claims) && complete(claims)
            && !fractional_expiry(claims) && !past_expiry(claims, leeway_secs(params), clock)
            && claim_names(claims, "iss"@, params.issuer@) && claim_names(
            claims,
            "aud"@,
            params.client_id@,
        ),
    ensures
        concluded(decoded, params, nonce, now) == claims_verdict(
            jwt_read(token, jwk, "RS256"@)->Ok_0,
            params,
            nonce,
            now,
        ),
{
}

/// The text of a nonce failure does not depend on the nonce that was expected.
pub proof fn law_nonce_failure_tells_nothing(
    claims: Seq<(Seq<char>, JsonView)>,
    params: IdpParams<'_>,
    nonce: NonceExpectation<'_>,
    now: int,
)
    requires
        !nonce_ok(claims, nonce),
    ensures
        claims_verdict(claims, params, nonce, now) == Err::<TokenView, OidcErrorView>(
            OidcErrorView::Signature("nonce missing or mismatched"@),
        ),
{
}

proof fn lemma_claim_value(claims: Seq<(Seq<char>, JsonView)>, name: Seq<char>)
    requires
        distinct_names(claims),
    ensures
        forall|v: JsonView| #[trigger]
            claims.contains((name, v)) <==> member(claims, name) == Some(v),
        member(claims, name) is None ==> forall|i: int|
            0 <= i < claims.len() ==> (#[trigger] claims[i]).0 != name,
{
    crate::json::lemma_member_at(claims, name);
    assert forall|v: JsonView| #[trigger] claims.contains((name, v)) <==> member(claims, name)
        == Some(v) by {
        if claims.contains((name, v)) {
            let i = choose|i: int| 0 <= i < claims.len() && claims[i] == (name, v);
            assert(claims[i].0 == name);
        }
        if member(claims, name) == Some(v) {
            let i = choose|i: int| 0 <= i < claims.len() && (#[trigger] claims[i]).0 == name;
            assert(claims[i] == (name, v));
        }
    }
}

proof fn lemma_kept_claims(claims: Seq<(Seq<char>, JsonView)>, c: (Seq<char>, JsonView))
    requires
        distinct_names(claims),
    ensures
        without_claim(claims, "email"@).contains(c) <==> claims.contains(c) && c.0 != "email"@,
{
    let kept = without_claim(claims, "email"@);
    lemma_without_claim(claims, "email"@);
    lemma_claim_value(claims, c.0);
    lemma_claim_value(kept, c.0);
    assert(c == (c.0, c.1));
    if kept.contains(c) {
        let i = choose|i: int| 0 <= i < kept.len() && kept[i] == c;
        assert(claims.contains(kept[i]));
    }
}

proof fn lemma_claim_names_differ()
    ensures
        "iat"@ != "email"@,
        "auth_time"@ != "email"@,
        "hd"@ != "email"@,
        "sub"@ != "email"@,
{
    reveal_strlit("iat");
    reveal_strlit("auth_time");
    reveal_strlit("email");
    reveal_strlit("hd");
    reveal_strlit("sub");
    assert("email"@.len() == 5);
    assert("iat"@.len() == 3);
    assert("auth_time"@.len() == 9);
    assert("hd"@.len() == 2);
    assert("sub"@.len() == 3);
}

/// Good claims are accepted: the nonce that was asked for, a subject, any of the allowed
/// domains where not every account is let in, a moment of minting that does not lie ahead by
/// more than the leeway, and a login that is not older than the limit and the leeway. The login
/// is the one that the token asserts, or the minting where it asserts none and the session
/// cannot renew. What is kept are the claims: subject, domain, moments, the email where it was
/// verified, and all claims but an email that was not.
pub proof fn law_good_claims_are_accepted(
    claims: Seq<(Seq<char>, JsonView)>,
    params: IdpParams<'_>,
    nonce: NonceExpectation<'_>,
    now: int,
    sub: Seq<char>,
    minted: (Seq<char>, u64),
    login: (Seq<char>, u64),
)
    requires
        forall|i: int, j: int|
            0 <= i < j < claims.len() ==> (#[trigger] claims[i]).0 != (#[trigger] claims[j]).0,
        nonce matches NonceExpectation::Required(expected) ==> claims.contains(
            ("nonce"@, JsonView::Text(expected@)),
        ),
        claims.contains(("sub"@, JsonView::Text(sub))),
        (params.allowed_domains@.len() == 1 && params.allowed_domains@[0]@ == "*"@) || exists|
            i: int,
        |
            0 <= i < params.allowed_domains@.len() && claims.contains(
                ("hd"@, JsonView::Text((#[trigger] params.allowed_domains@[i])@)),
            ),
        claims.contains(("iat"@, JsonView::Number(minted.0, Some(minted.1)))),
        claims.contains(("auth_time"@, JsonView::Number(login.0, Some(login.1)))) || (
        !params.allow_offline_access && login.1 == minted.1 && forall|t: Seq<char>, n: u64|
            !#[trigger] claims.contains(("auth_time"@, JsonView::Number(t, Some(n))))),
        minted.1 * 1_000_000_000 <= 9_223_372_036_854_775_807_999_999_999,
        login.1 * 1_000_000_000 <= 9_223_372_036_854_775_807_999_999_999,
        minted.1 * 1_000_000_000 <= now + params.clock_skew,
        params.max_auth_age matches Some(age) ==> now - login.1 * 1_000_000_000 <= age
            + params.clock_skew,
    ensures
        claims_verdict(claims, params, nonce, now) matches Ok(t) && {
            &&& t.sub == sub
            &&& t.iat == minted.1 * 1_000_000_000
            &&& t.auth_time == login.1 * 1_000_000_000
            &&& forall|d: Seq<char>|
                t.hd == Some(d) <==> #[trigger] claims.contains(("hd"@, JsonView::Text(d)))
            &&& forall|e: Seq<char>|
                t.email == Some(e) <==> #[trigger] claims.contains(("email"@, JsonView::Text(e)))
                    && claims.contains(("email_verified"@, JsonView::Bool(true)))
            &&& forall|c: (Seq<char>, JsonView)| #[trigger]
                t.raw_claims.contains(c) <==> claims.contains(c) && (c.0 == "email"@
                    ==> claims.contains(("email_verified"@, JsonView::Bool(true))))
        },
{
    let kept = without_claim(claims, "email"@);
    lemma_claim_names_differ();
    lemma_without_claim(claims, "email"@);
    lemma_claim_value(claims, "nonce"@);
    lemma_claim_value(claims, "sub"@);
    lemma_claim_value(claims, "hd"@);
    lemma_claim_value(claims, "email"@);
    lemma_claim_value(claims, "email_verified"@);
    lemma_claim_value(claims, "iat"@);
    lemma_claim_value(claims, "auth_time"@);
    assert(member(kept, "iat"@) == member(claims, "iat"@));
    assert(member(kept, "auth_time"@) == member(claims, "auth_time"@));
    assert(any_domain(params) || texts(params.allowed_domains@).contains(
        text_claim(claims, "hd"@)->0,
    ) && text_claim(claims, "hd"@) is Some) by {
        if params.allowed_domains@.len() == 1 && params.allowed_domains@[0]@ == "*"@ {
            assert(texts(params.allowed_domains@) =~= seq!["*"@]);
        } else {
            let i = choose|i: int|
                0 <= i < params.allowed_domains@.len() && claims.contains(
                    ("hd"@, JsonView::Text((#[trigger] params.allowed_domains@[i])@)),
                );
            assert(texts(params.allowed_domains@)[i] == params.allowed_domains@[i]@);
        }
    }
    if let Some(JsonView::Number(t, Some(n))) = member(claims, "auth_time"@) {
        assert(claims.contains(("auth_time"@, JsonView::Number(t, Some(n)))));
    }
    assert(auth_secs(claims, params.allow_offline_access, minted.1) == Some(login.1));
    assert(auth_secs(kept, params.allow_offline_access, minted.1) == Some(login.1));
    assert(claims_verdict(claims, params, nonce, now) is Ok);
    let t = claims_verdict(claims, params, nonce, now)->Ok_0;
    assert forall|c: (Seq<char>, JsonView)| #[trigger] t.raw_claims.contains(c) <==> claims.contains(
        c,
    ) && (c.0 == "email"@ ==> claims.contains(("email_verified"@, JsonView::Bool(true)))) by {
        lemma_kept_claims(claims, c);
    }
}

/// Claims that break a rule are refused, and the refusal names the first rule that is broken:
/// the nonce, the subject, the domain, the moment of minting, and the login that a session must
/// assert which can renew.
pub proof fn law_refusal_names_the_broken_rule(
    claims: Seq<(Seq<char>, JsonView)>,
    params: IdpParams<'_>,
    nonce: NonceExpectation<'_>,
    now: int,
)
    requires
        forall|i: int, j: int|
            0 <= i < j < claims.len() ==> (#[trigger] claims[i]).0 != (#[trigger] claims[j]).0,
    ensures
        ({
            let good_nonce = match nonce {
                NonceExpectation::Required(e) => claims.contains(("nonce"@, JsonView::Text(e@))),
                NonceExpectation::SessionBound => true,
            };
            let has_sub = exists|s: Seq<char>| #[trigger]
                claims.contains(("sub"@, JsonView::Text(s)));
            let anyone = params.allowed_domains@.len() == 1 && params.allowed_domains@[0]@ == "*"@;
            let has_hd = exists|d: Seq<char>| #[trigger] claims.contains(("hd"@, JsonView::Text(d)));
            let listed = exists|i: int|
                0 <= i < params.allowed_domains@.len() && claims.contains(
                    ("hd"@, JsonView::Text((#[trigger] params.allowed_domains@[i])@)),
                );
            let has_iat = exists|t: Seq<char>, n: u64| #[trigger]
                claims.contains(("iat"@, JsonView::Number(t, Some(n))));
            let has_login = exists|t: Seq<char>, n: u64| #[trigger]
                claims.contains(("auth_time"@, JsonView::Number(t, Some(n))));
            let verdict = claims_verdict(claims, params, nonce, now);
            if !good_nonce {
                verdict == Err::<TokenView, OidcErrorView>(
                    OidcErrorView::Signature("nonce missing or mismatched"@),
                )
            } else if !has_sub {
                verdict == Err::<TokenView, OidcErrorView>(
                    OidcErrorView::Signature("sub claim missing or not a string"@),
                )
            } else if !anyone && !has_hd {
                verdict == Err::<TokenView, OidcErrorView>(
                    OidcErrorView::Rejected("hd claim absent (consumer account?)"@),
                )
            } else if !anyone && !listed {
                verdict == Err::<TokenView, OidcErrorView>(
                    OidcErrorView::Rejected("hd claim not in allowed_domains"@),
                )
            } else if !has_iat {
                verdict == Err::<TokenView, OidcErrorView>(
                    OidcErrorView::Signature("iat claim missing or not a number"@),
                )
            } else if params.allow_offline_access && !has_login {
                verdict == Err::<TokenView, OidcErrorView>(
                    OidcErrorView::Rejected("auth_time required for a renewable session"@),
                )
            } else {
                verdict matches Err(e) ==> e is Rejected
            }
        }),
{
    let kept = without_claim(claims, "email"@);
    lemma_claim_names_differ();
    lemma_without_claim(claims, "email"@);
    lemma_claim_value(claims, "nonce"@);
    lemma_claim_value(claims, "sub"@);
    lemma_claim_value(claims, "hd"@);
    lemma_claim_value(claims, "iat"@);
    lemma_claim_value(claims, "auth_time"@);
    assert(member(kept, "iat"@) == member(claims, "iat"@));
    assert(member(kept, "auth_time"@) == member(claims, "auth_time"@));
    let domains = texts(params.allowed_domains@);
    assert(any_domain(params) <==> params.allowed_domains@.len() == 1
        && params.allowed_domains@[0]@ == "*"@) by {
        if any_domain(params) {
            assert(domains.len() == seq!["*"@].len());
            assert(domains[0] == params.allowed_domains@[0]@);
            assert(domains[0] == "*"@);
        }
        if params.allowed_domains@.len() == 1 && params.allowed_domains@[0]@ == "*"@ {
            assert(domains =~= seq!["*"@]);
        }
    }
    if let Some(s) = text_claim(claims, "sub"@) {
        assert(claims.contains(("sub"@, JsonView::Text(s))));
    }
    if let Some(d) = text_claim(claims, "hd"@) {
        assert(claims.contains(("hd"@, JsonView::Text(d))));
        if domains.contains(d) {
            let i = choose|i: int| 0 <= i < domains.len() && domains[i] == d;
            assert(claims.contains(("hd"@, JsonView::Text(params.allowed_domains@[i]@))));
        }
    }
    if exists|i: int|
        0 <= i < params.allowed_domains@.len() && claims.contains(
            ("hd"@, JsonView::Text((#[trigger] params.allowed_domains@[i])@)),
        ) {
        let i = choose|i: int|
            0 <= i < params.allowed_domains@.len() && claims.contains(
                ("hd"@, JsonView::Text((#[trigger] params.allowed_domains@[i])@)),
            );
        assert(domains[i] == params.allowed_domains@[i]@);
    }
    if let Some(JsonView::Number(t, Some(n))) = member(claims, "iat"@) {
        assert(claims.contains(("iat"@, JsonView::Number(t, Some(n)))));
    }
    if let Some(JsonView::Number(t, Some(n))) = member(claims, "auth_time"@) {
        assert(claims.contains(("auth_time"@, JsonView::Number(t, Some(n)))));
    }
}

/// A token that was minted ahead of the clock by more than the leeway is refused, and so is one
/// whose login is older than the limit by more than the leeway, whatever else it carries.
pub proof fn law_stale_and_future_tokens_are_refused(
    claims: Seq<(Seq<char>, JsonView)>,
    params: IdpParams<'_>,
    nonce: NonceExpectation<'_>,
    now: int,
    text: Seq<char>,
    n: u64,
)
    requires
        forall|i: int, j: int|
            0 <= i < j < claims.len() ==> (#[trigger] claims[i]).0 != (#[trigger] claims[j]).0,
    ensures
        claims.contains(("iat"@, JsonView::Number(text, Some(n)))) && n * 1_000_000_000 > now
            + params.clock_skew ==> claims_verdict(claims, params, nonce, now) is Err,
        claims.contains(("auth_time"@, JsonView::Number(text, Some(n)))) && (
        params.max_auth_age matches Some(age) && now - n * 1_000_000_000 > age + params.clock_skew)
            ==> claims_verdict(claims, params, nonce, now) is Err,
        claims.contains(("iat"@, JsonView::Number(text, Some(n)))) && (forall|i: int|
            0 <= i < claims.len() ==> (#[trigger] claims[i]).0 != "auth_time"@) && (
        params.max_auth_age matches Some(age) && now - n * 1_000_000_000 > age + params.clock_skew)
            ==> claims_verdict(claims, params, nonce, now) is Err,
{
    let kept = without_claim(claims, "email"@);
    lemma_claim_names_differ();
    lemma_without_claim(claims, "email"@);
    lemma_claim_value(claims, "iat"@);
    lemma_claim_value(claims, "auth_time"@);
    crate::json::lemma_member_at(claims, "auth_time"@);
    assert(member(kept, "iat"@) == member(claims, "iat"@));
    assert(member(kept, "auth_time"@) == member(claims, "auth_time"@));
}

/// The key to verify a token with is chosen by the id in its header alone, and only for the one
/// algorithm that is let through: it is the first key of that id, where a key can be made of it.
/// Otherwise the token is refused for what is wrong.
pub proof fn law_key_is_chosen_by_its_id(
    token: Seq<char>,
    keys: Seq<(Option<Seq<char>>, Seq<char>)>,
    kid: Seq<char>,
    i: int,
)
    ensures
        header_decoded(token) matches Err(words) ==> (chosen_key(token, keys) matches Err(e) && e
            == OidcErrorView::Signature("header: "@ + words)),
        header_decoded(token) matches Ok(h) && h.0 != "RS256"@ ==> (chosen_key(
            token,
            keys,
        ) matches Err(e) && e is Signature),
        header_decoded(token) matches Ok(h) && h.0 == "RS256"@ && keys.len() == 0 ==> (chosen_key(
            token,
            keys,
        ) matches Err(e) && e == OidcErrorView::NoKeys),
        header_decoded(token) matches Ok(h) && h.0 == "RS256"@ && h.1 is None && keys.len() > 0
            ==> (chosen_key(token, keys) matches Err(e) && e is Signature),
        header_decoded(token) matches Ok(h) && h.0 == "RS256"@ && h.1 == Some(kid) && keys.len() > 0
            && (forall|j: int| 0 <= j < keys.len() ==> (#[trigger] keys[j]).0 != Some(kid)) ==> (
        chosen_key(token, keys) matches Err(e) && e == OidcErrorView::UnknownKid(kid)),
        header_decoded(token) matches Ok(h) && h.0 == "RS256"@ && h.1 == Some(kid) && 0 <= i
            < keys.len() && keys[i].0 == Some(kid) && (forall|j: int|
            0 <= j < i ==> (#[trigger] keys[j]).0 != Some(kid)) && jwk_complaint(keys[i].1) is None
            ==> (chosen_key(token, keys) matches Ok(jwk) && jwk == keys[i].1),
        header_decoded(token) matches Ok(h) && h.0 == "RS256"@ && h.1 == Some(kid) && 0 <= i
            < keys.len() && keys[i].0 == Some(kid) && (forall|j: int|
            0 <= j < i ==> (#[trigger] keys[j]).0 != Some(kid)) && jwk_complaint(keys[i].1) is Some
            ==> (chosen_key(token, keys) matches Err(e) && e is Signature),
{
    crate::oidc::keys::law_key_is_the_first_of_its_id(keys, kid);
    if 0 <= i < keys.len() && keys[i].0 == Some(kid) && (forall|j: int|
        0 <= j < i ==> (#[trigger] keys[j]).0 != Some(kid)) {
        let jwk = key_of_id(keys, kid)->0;
        let k = choose|k: int|
            0 <= k < keys.len() && #[trigger] keys[k] == (Some(kid), jwk) && forall|j: int|
                0 <= j < k ==> (#[trigger] keys[j]).0 != Some(kid);
        assert(k == i);
    }
}

/// A token with a good signature is refused where the clock has passed its expiry by more than
/// the leeway, where it has no subject, and where its issuer or its audience neither is nor
/// names the provider's.
pub proof fn law_signed_token_needs_issuer_audience_and_time(
    token: Seq<char>,
    jwk: Seq<char>,
    params: IdpParams<'_>,
    clock: u64,
    decoded: Result<Seq<(Seq<char>, JsonView)>, Seq<char>>,
    nonce: NonceExpectation<'_>,
    now: int,
    claims: Seq<(Seq<char>, JsonView)>,
    exp: (Seq<char>, u64),
)
    requires
        verified_at(token, jwk, params, clock, decoded),
        params.clock_skew <= 1_000_000_000_000_000_000,
        jwt_read(token, jwk, "RS256"@) matches Ok(read) && read == claims,
        forall|i: int, j: int|
            0 <= i < j < claims.len() ==> (#[trigger] claims[i]).0 != (#[trigger] claims[j]).0,
        claims.contains(("exp"@, JsonView::Number(exp.0, Some(exp.1)))),
    ensures
        exp.1 + params.clock_skew / 1_000_000_000 < clock ==> refused_as_signature(
            concluded(decoded, params, nonce, now),
        ),
        forall|s: Seq<char>| #[trigger]
            claims.contains(("iss"@, JsonView::Text(s))) && s != params.issuer@
                ==> refused_as_signature(concluded(decoded, params, nonce, now)),
        forall|s: Seq<char>| #[trigger]
            claims.contains(("aud"@, JsonView::Text(s))) && s != params.client_id@
                ==> refused_as_signature(concluded(decoded, params, nonce, now)),
        forall|items: Seq<JsonView>| #[trigger]
            claims.contains(("aud"@, JsonView::Array(items))) && !items.contains(
                JsonView::Text(params.client_id@),
            ) ==> refused_as_signature(concluded(decoded, params, nonce, now)),
        forall|items: Seq<JsonView>| #[trigger]
            claims.contains(("iss"@, JsonView::Array(items))) && !items.contains(
                JsonView::Text(params.issuer@),
            ) ==> refused_as_signature(concluded(decoded, params, nonce, now)),
        (forall|s: Seq<char>| !#[trigger] claims.contains(("sub"@, JsonView::Text(s))))
            ==> refused_as_signature(concluded(decoded, params, nonce, now)),
{
    lemma_claim_value(claims, "exp"@);
    lemma_claim_value(claims, "sub"@);
    lemma_claim_value(claims, "iss"@);
    lemma_claim_value(claims, "aud"@);
    assert(leeway_secs(params) == params.clock_skew / 1_000_000_000);
    if let Some(s) = text_claim(claims, "sub"@) {
        assert(claims.contains(("sub"@, JsonView::Text(s))));
    }
}

/// A token with a good signature, an expiry that the clock has not passed by more than the
/// leeway, a subject, the provider as its issuer and the client as or among its audience is
/// judged by its other claims alone.
pub proof fn law_timely_token_for_the_client_is_judged(
    token: Seq<char>,
    jwk: Seq<char>,
    params: IdpParams<'_>,
    clock: u64,
    decoded: Result<Seq<(Seq<char>, JsonView)>, Seq<char>>,
    nonce: NonceExpectation<'_>,
    now: int,
    claims: Seq<(Seq<char>, JsonView)>,
    exp: (Seq<char>, u64),
    sub: Seq<char>,
    audience: Seq<JsonView>,
)
    requires
        verified_at(token, jwk, params, clock, decoded),
        params.clock_skew <= 1_000_000_000_000_000_000,
        jwt_read(token, jwk, "RS256"@) matches Ok(read) && read == claims,
        forall|i: int, j: int|
            0 <= i < j < claims.len() ==> (#[trigger] claims[i]).0 != (#[trigger] claims[j]).0,
        claims.contains(("exp"@, JsonView::Number(exp.0, Some(exp.1)))),
        exp.1 + params.clock_skew / 1_000_000_000 >= clock,
        claims.contains(("sub"@, JsonView::Text(sub))),
        claims.contains(("iss"@, JsonView::Text(params.issuer@))),
        claims.contains(("aud"@, JsonView::Text(params.client_id@))) || claims.contains(
            ("aud"@, JsonView::Array(audience)),
        ),
        audience.contains(JsonView::Text(params.client_id@)),
        forall|j: int| 0 <= j < audience.len() ==> (#[trigger] audience[j]) is Text,
    ensures
        concluded(decoded, params, nonce, now) == claims_verdict(claims, params, nonce, now),
{
    lemma_claim_value(claims, "exp"@);
    lemma_claim_value(claims, "sub"@);
    lemma_claim_value(claims, "iss"@);
    lemma_claim_value(claims, "aud"@);
    assert(leeway_secs(params) == params.clock_skew / 1_000_000_000);
}

/// A token that lacks a claim it needs is refused by the name of one that it lacks: only the
/// expiry, the audience, the issuer and the subject are needed, and one that is there and can be
/// read is not complained of.
pub proof fn law_complaint_names_a_claim_that_is_missing(
    claims: Seq<(Seq<char>, JsonView)>,
    issuer: Seq<char>,
    audience: Seq<char>,
    leeway: u64,
    clock: u64,
    words: Seq<char>,
    subject: Seq<char>,
    exp: (Seq<char>, u64),
)
    requires
        forall|i: int, j: int|
            0 <= i < j < claims.len() ==> (#[trigger] claims[i]).0 != (#[trigger] claims[j]).0,
        judged_at(claims, issuer, audience, leeway, clock, Some(words)),
        !complete(claims),
    ensures
        words == "Missing required claim: "@ + "exp"@ || words == "Missing required claim: "@
            + "aud"@ || words == "Missing required claim: "@ + "iss"@ || words
            == "Missing required claim: "@ + "sub"@,
        claims.contains(("sub"@, JsonView::Text(subject))) ==> words != "Missing required claim: "@
            + "sub"@,
        claims.contains(("exp"@, JsonView::Number(exp.0, Some(exp.1)))) ==> words
            != "Missing required claim: "@ + "exp"@,
        claims.contains(("iss"@, JsonView::Text(issuer))) ==> words != "Missing required claim: "@
            + "iss"@,
        claims.contains(("aud"@, JsonView::Text(audience))) ==> words != "Missing required claim: "@
            + "aud"@,
{
    lemma_claim_value(claims, "exp"@);
    lemma_claim_value(claims, "sub"@);
    lemma_claim_value(claims, "iss"@);
    lemma_claim_value(claims, "aud"@);
    let head = "Missing required claim: "@;
    let i = choose|i: int|
        0 <= i < needed_claims().len() && lacks(claims, #[trigger] needed_claims()[i]) && words
            == head + needed_claims()[i];
    let name = needed_claims()[i];
    reveal_strlit("exp");
    reveal_strlit("aud");
    reveal_strlit("iss");
    reveal_strlit("sub");
    assert("exp"@[0] == 'e' && "aud"@[0] == 'a' && "iss"@[0] == 'i' && "sub"@[0] == 's');
    assert(name == "exp"@ || name == "aud"@ || name == "iss"@ || name == "sub"@);
    lemma_same_tail(head, name, "exp"@);
    lemma_same_tail(head, name, "aud"@);
    lemma_same_tail(head, name, "iss"@);
    lemma_same_tail(head, name, "sub"@);
}

proof fn lemma_same_tail(head: Seq<char>, a: Seq<char>, b: Seq<char>)
    ensures
        head + a == head + b ==> a == b,
{
    assert((head + a).skip(head.len() as int) =~= a);
    assert((head + b).skip(head.len() as int) =~= b);
}

} // verus!
