//! Sets of signing keys, as published by a provider.
use vstd::prelude::*;

use crate::text::{opt_text, text_eq};

verus! {

/// One signing key: its id, if it has one, and its JSON Web Key text.
#[derive(Debug)]
pub struct SigningKey {
    pub kid: Option<String>,
    pub jwk: String,
}

/// The signing keys of a provider, in the order in which they were published.
#[derive(Debug)]
pub struct KeySet {
    pub keys: Vec<SigningKey>,
}

impl View for KeySet {
    type V = Seq<(Option<Seq<char>>, Seq<char>)>;

    open spec fn view(&self) -> Self::V {
        Seq::new(self.keys@.len(), |i: int| (opt_text(self.keys@[i].kid), self.keys@[i].jwk@))
    }
}

/// The first key of the given id.
pub open spec fn key_of_id(
    keys: Seq<(Option<Seq<char>>, Seq<char>)>,
    kid: Seq<char>,
) -> Option<Seq<char>>
    decreases keys.len(),
{
    if keys.len() == 0 {
        None
    } else if keys[0].0 == Some(kid) {
        Some(keys[0].1)
    } else {
        key_of_id(keys.drop_first(), kid)
    }
}

/// What `jsonwebtoken`'s reader makes of the text of a JSON Web Key Set: the id
/// and the text of each key in turn, or the words of its complaint.
pub uninterp spec fn jwk_set_parsed(text: Seq<char>) -> Result<
    Seq<(Option<Seq<char>>, Seq<char>)>,
    Seq<char>,
>;

/// Reads a JSON Web Key Set with `serde_json::from_str` into
/// `jsonwebtoken::jwk::JwkSet`, and hands out each key's id and its own JSON
/// text. The outcome depends on the text alone.
#[verifier::external_body]
fn read_jwk_set(text: &str) -> (r: Result<KeySet, String>)
    ensures
        match r {
            Ok(set) => jwk_set_parsed(text@) matches Ok(keys) && keys == set@,
            Err(e) => jwk_set_parsed(text@) matches Err(words) && words == e@,
        },
{
    let read = serde_json::from_str::<jsonwebtoken::jwk::JwkSet>(text);
    let set = read.map_err(|e| e.to_string())?;
    let mut keys = Vec::new();
    for key in set.keys {
        let jwk = serde_json::to_string(&key).map_err(|e| e.to_string())?;
        keys.push(SigningKey { kid: key.common.key_id, jwk });
    }
    Ok(KeySet { keys })
}

impl KeySet {
    /// Reads a JSON Web Key Set.
    pub fn parse(text: &str) -> (r: Result<KeySet, String>)
        ensures
            match r {
                Ok(set) => jwk_set_parsed(text@) matches Ok(keys) && keys == set@,
                Err(e) => jwk_set_parsed(text@) matches Err(words) && words == e@,
            },
    {
        read_jwk_set(text)
    }

    /// The first key of the given id.
    pub fn find(&self, kid: &str) -> (r: Option<&String>)
        ensures
            match r {
                Some(jwk) => key_of_id(self@, kid@) == Some(jwk@),
                None => key_of_id(self@, kid@) is None,
            },
    {
        let ghost all = self@;
        let mut i: usize = 0;
        assert(all.skip(0) == all);
        while i < self.keys.len()
            invariant
                all == self@,
                i <= self.keys@.len(),
                key_of_id(all, kid@) == key_of_id(all.skip(i as int), kid@),
            decreases self.keys@.len() - i,
        {
            assert(all.skip(i as int)[0] == all[i as int]);
            if let Some(id) = &self.keys[i].kid {
                if text_eq(id.as_str(), kid) {
                    return Some(&self.keys[i].jwk);
                }
            }
            assert(all.skip(i as int).drop_first() == all.skip(i + 1));
            i = i + 1;
        }
        assert(all.skip(i as int).len() == 0);
        None
    }
}

/// The key of an id is the first that has the id; there is none where no key has it.
pub proof fn law_key_is_the_first_of_its_id(
    keys: Seq<(Option<Seq<char>>, Seq<char>)>,
    kid: Seq<char>,
)
    ensures
        match key_of_id(keys, kid) {
            Some(jwk) => exists|i: int|
                0 <= i < keys.len() && #[trigger] keys[i] == (Some(kid), jwk) && forall|j: int|
                    0 <= j < i ==> (#[trigger] keys[j]).0 != Some(kid),
            None => forall|i: int| 0 <= i < keys.len() ==> (#[trigger] keys[i]).0 != Some(kid),
        },
    decreases keys.len(),
{
    if keys.len() > 0 && keys[0].0 != Some(kid) {
        let rest = keys.drop_first();
        law_key_is_the_first_of_its_id(rest, kid);
        match key_of_id(rest, kid) {
            Some(jwk) => {
                let i = choose|i: int|
                    0 <= i < rest.len() && #[trigger] rest[i] == (Some(kid), jwk) && forall|j: int|
                        0 <= j < i ==> (#[trigger] rest[j]).0 != Some(kid);
                assert(keys[i + 1] == rest[i]);
                assert forall|j: int| 0 <= j < i + 1 implies (#[trigger] keys[j]).0 != Some(
                    kid,
                ) by {
                    if j > 0 {
                        assert(rest[j - 1] == keys[j]);
                    }
                }
            },
            None => {
                assert forall|i: int| 0 <= i < keys.len() implies (#[trigger] keys[i]).0 != Some(
                    kid,
                ) by {
                    if i > 0 {
                        assert(rest[i - 1] == keys[i]);
                    }
                }
            },
        }
    } else if keys.len() > 0 {
        assert(keys[0] == (Some(kid), keys[0].1));
    }
}

} // verus!
