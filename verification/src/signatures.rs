//! Signatures of events: picking a server's Ed25519 key, taking an event's
//! Ed25519 signature and key from their hex text, and checking them.
use vstd::prelude::*;
use base64::Engine;
use vstd::utf8::encode_utf8;
use crate::ids::{chars_of, id_equal};
use crate::resolve::GuestEvent;

verus! {

/// The value of a hexadecimal digit, in either case.
pub open spec fn hex_value(c: u8) -> Option<u8> {
    if 48 <= c <= 57 {
        Some((c - 48) as u8)
    } else if 97 <= c <= 102 {
        Some((c - 87) as u8)
    } else if 65 <= c <= 70 {
        Some((c - 55) as u8)
    } else {
        None
    }
}

/// The bytes that hexadecimal text stands for: two digits per byte, high
/// digit first; none when the length is odd or a character is not a digit.
pub open spec fn hex_decoded(text: Seq<u8>) -> Option<Seq<u8>>
    decreases text.len(),
{
    if text.len() == 0 {
        Some(Seq::empty())
    } else if text.len() == 1 {
        None
    } else {
        match (hex_value(text[0]), hex_value(text[1]), hex_decoded(text.subrange(2, text.len() as int))) {
            (Some(high), Some(low), Some(rest)) => Some(seq![(high * 16 + low) as u8] + rest),
            _ => None,
        }
    }
}

/// The lowercase hexadecimal digit for `n` below 16.
pub open spec fn hex_digit(n: int) -> char {
    if n < 10 {
        (48 + n) as char
    } else {
        (87 + n) as char
    }
}

/// The lowercase hexadecimal text of `bytes`, two digits per byte.
pub open spec fn hex_encoded(bytes: Seq<u8>) -> Seq<char>
    decreases bytes.len(),
{
    if bytes.len() == 0 {
        Seq::empty()
    } else {
        hex_encoded(bytes.drop_last()) + seq![hex_digit((bytes.last() / 16) as int), hex_digit((bytes.last() % 16) as int)]
    }
}

/// What standard Base64 (with padding) decodes `text` to, if it is valid.
pub uninterp spec fn base64_decoded(text: Seq<u8>) -> Option<Seq<u8>>;

/// Whether `signature` is a valid Ed25519 signature of `message` under
/// `public_key`, by the rules of `ed25519-consensus` (ZIP 215).
pub uninterp spec fn ed25519_verifies(public_key: Seq<u8>, signature: Seq<u8>, message: Seq<u8>) -> bool;

/// Decodes hexadecimal text (`hex::decode`).
#[verifier::external_body]
pub(crate) fn hex_decode(text: &str) -> (bytes: Option<Vec<u8>>)
    ensures
        match bytes {
            Some(b) => hex_decoded(encode_utf8(text@)) == Some(b@),
            None => hex_decoded(encode_utf8(text@)) is None,
        },
{
    hex::decode(text).ok()
}

/// Encodes bytes as lowercase hexadecimal text (`hex::encode`).
#[verifier::external_body]
pub(crate) fn hex_encode(bytes: &[u8]) -> (text: String)
    ensures
        text@ == hex_encoded(bytes@),
{
    hex::encode(bytes)
}

/// Decodes standard Base64 text with padding
/// (`base64::engine::general_purpose::STANDARD.decode`).
#[verifier::external_body]
pub(crate) fn base64_decode(text: &str) -> (bytes: Option<Vec<u8>>)
    ensures
        match bytes {
            Some(b) => base64_decoded(encode_utf8(text@)) == Some(b@),
            None => base64_decoded(encode_utf8(text@)) is None,
        },
{
    base64::engine::general_purpose::STANDARD.decode(text).ok()
}

/// Checks an Ed25519 signature (`ed25519_consensus::VerificationKey::verify`,
/// after `VerificationKey::try_from` and `Signature::try_from` on the bytes):
/// valid exactly when the key and signature parse and the signature verifies;
/// a key must be 32 bytes and a signature 64 to parse.
#[verifier::external_body]
pub(crate) fn ed25519_verify(public_key: &[u8], signature: &[u8], message: &[u8]) -> (valid: bool)
    ensures
        valid == ed25519_verifies(public_key@, signature@, message@),
        valid ==> public_key@.len() == 32 && signature@.len() == 64,
{
    match (
        ed25519_consensus::VerificationKey::try_from(public_key),
        ed25519_consensus::Signature::try_from(signature),
    ) {
        (Ok(key), Ok(sig)) => key.verify(&sig, message).is_ok(),
        _ => false,
    }
}

/// The prefix of the identifiers of Ed25519 keys.
pub open spec fn ed25519_prefix() -> Seq<char> {
    seq!['e', 'd', '2', '5', '5', '1', '9', ':']
}

/// Whether a key identifier names an Ed25519 key.
pub open spec fn is_ed25519_key_id(key_id: Seq<char>) -> bool {
    key_id.len() >= 8 && key_id.take(8) == ed25519_prefix()
}

/// Whether `key_id` starts with `ed25519:`.
pub fn names_ed25519_key(key_id: &String) -> (r: bool)
    ensures
        r == is_ed25519_key_id(key_id@),
{
    let chars = chars_of(key_id);
    if chars.len() < 8 {
        return false;
    }
    let r = chars[0] == 'e' && chars[1] == 'd' && chars[2] == '2' && chars[3] == '5' && chars[4] == '5'
        && chars[5] == '1' && chars[6] == '9' && chars[7] == ':';
    proof {
        if r {
            assert(key_id@.take(8) =~= ed25519_prefix());
        } else {
            if key_id@.take(8) == ed25519_prefix() {
                assert(key_id@.take(8)[0] == 'e');
                assert(key_id@.take(8)[1] == 'd');
                assert(key_id@.take(8)[2] == '2');
                assert(key_id@.take(8)[3] == '5');
                assert(key_id@.take(8)[4] == '5');
                assert(key_id@.take(8)[5] == '1');
                assert(key_id@.take(8)[6] == '9');
                assert(key_id@.take(8)[7] == ':');
            }
        }
    }
    r
}

/// The key that a server publishes: of its keys, in order, the first Ed25519
/// key whose value is text that decodes as Base64, as lowercase hexadecimal.
pub open spec fn published_key(verify_keys: Seq<(String, Option<String>)>) -> Option<Seq<char>>
    decreases verify_keys.len(),
{
    if verify_keys.len() == 0 {
        None
    } else {
        let (key_id, key) = verify_keys[0];
        if is_ed25519_key_id(key_id@) && key is Some && base64_decoded(encode_utf8(key.unwrap()@)) is Some {
            Some(hex_encoded(base64_decoded(encode_utf8(key.unwrap()@)).unwrap()))
        } else {
            published_key(verify_keys.drop_first())
        }
    }
}

/// Picks a server's key from the `verify_keys` of its key response: each
/// entry is a key identifier with the key's `key` text, if it has one.
pub fn select_server_key(verify_keys: &Vec<(String, Option<String>)>) -> (key: Option<String>)
    ensures
        match key {
            Some(k) => published_key(verify_keys@) == Some(k@),
            None => published_key(verify_keys@) is None,
        },
{
    proof {
        assert(verify_keys@.skip(0) =~= verify_keys@);
    }
    for i in 0..verify_keys.len()
        invariant
            published_key(verify_keys@) == published_key(verify_keys@.skip(i as int)),
    {
        let key_id = &verify_keys[i].0;
        let ghost rest = verify_keys@.skip(i as int);
        proof {
            assert(rest[0] == verify_keys@[i as int]);
            assert(rest.drop_first() =~= verify_keys@.skip(i + 1));
        }
        if names_ed25519_key(key_id) {
            match &verify_keys[i].1 {
                Some(key_base64) => {
                    match base64_decode(key_base64.as_str()) {
                        Some(bytes) => {
                            return Some(hex_encode(bytes.as_slice()));
                        },
                        None => {},
                    }
                },
                None => {},
            }
        }
    }
    proof {
        assert(verify_keys@.skip(verify_keys@.len() as int) =~= Seq::<(String, Option<String>)>::empty());
    }
    None
}

/// One signature of an event: the signing server, the key identifier, and
/// the signature's text when it is a string.
#[derive(Debug, Clone, PartialEq, Eq)]
pub struct SignatureEntry {
    pub server: String,
    pub key_id: String,
    pub signature: Option<String>,
}

/// The first cached key text for `server`, if any.
pub open spec fn cached_key(cache: Seq<(String, String)>, server: Seq<char>) -> Option<Seq<char>>
    decreases cache.len(),
{
    if cache.len() == 0 {
        None
    } else if cache[0].0@ == server {
        Some(cache[0].1@)
    } else {
        cached_key(cache.drop_first(), server)
    }
}

/// The signature and key an event holds after taking in one signature entry:
/// a valid Ed25519 signature (64 bytes of hexadecimal) replaces the
/// signature, and then a cached key of the server that decodes to 32 bytes
/// replaces the key.
pub open spec fn take_signature(
    held: (Option<Seq<u8>>, Option<Seq<u8>>),
    entry: SignatureEntry,
    cache: Seq<(String, String)>,
) -> (Option<Seq<u8>>, Option<Seq<u8>>) {
    if is_ed25519_key_id(entry.key_id@) && entry.signature is Some && hex_decoded(
        encode_utf8(entry.signature.unwrap()@),
    ) is Some && hex_decoded(encode_utf8(entry.signature.unwrap()@)).unwrap().len() == 64 {
        let signature = hex_decoded(encode_utf8(entry.signature.unwrap()@));
        let key = cached_key(cache, entry.server@);
        if key is Some && hex_decoded(encode_utf8(key.unwrap())) is Some && hex_decoded(
            encode_utf8(key.unwrap()),
        ).unwrap().len() == 32 {
            (signature, hex_decoded(encode_utf8(key.unwrap())))
        } else {
            (signature, held.1)
        }
    } else {
        held
    }
}

/// The signature and key held after taking in each of `entries` in turn.
pub open spec fn taken_signatures(
    held: (Option<Seq<u8>>, Option<Seq<u8>>),
    entries: Seq<SignatureEntry>,
    cache: Seq<(String, String)>,
) -> (Option<Seq<u8>>, Option<Seq<u8>>)
    decreases entries.len(),
{
    if entries.len() == 0 {
        held
    } else {
        take_signature(taken_signatures(held, entries.drop_last(), cache), entries.last(), cache)
    }
}

/// The cache is searched from the front: a server's key is the one of its
/// first entry, and there is none when no entry names the server.
pub proof fn lemma_cached_key_first_entry(cache: Seq<(String, String)>, server: Seq<char>)
    ensures
        (forall|i: int| 0 <= i < cache.len() ==> (#[trigger] cache[i]).0@ != server) ==> cached_key(cache, server)
            is None,
        forall|i: int|
            0 <= i < cache.len() && (#[trigger] cache[i]).0@ == server && (forall|j: int|
                0 <= j < i ==> (#[trigger] cache[j]).0@ != server) ==> cached_key(cache, server) == Some(
                cache[i].1@,
            ),
    decreases cache.len(),
{
    if cache.len() > 0 {
        let rest = cache.drop_first();
        lemma_cached_key_first_entry(rest, server);
        assert forall|i: int| 0 < i < cache.len() implies cache[i] == #[trigger] rest[i - 1] by {}
        if forall|i: int| 0 <= i < cache.len() ==> (#[trigger] cache[i]).0@ != server {
            assert(cache[0].0@ != server);
            assert forall|i: int| 0 <= i < rest.len() implies (#[trigger] rest[i]).0@ != server by {
                assert(cache[i + 1] == rest[i]);
            }
        }
        assert forall|i: int|
            0 <= i < cache.len() && (#[trigger] cache[i]).0@ == server && (forall|j: int|
                0 <= j < i ==> (#[trigger] cache[j]).0@ != server)
            implies cached_key(cache, server) == Some(cache[i].1@) by {
            if i > 0 {
                assert(cache[0].0@ != server);
                assert(rest[i - 1] == cache[i]);
                assert forall|j: int| 0 <= j < i - 1 implies (#[trigger] rest[j]).0@ != server by {
                    assert(cache[j + 1] == rest[j]);
                }
            }
        }
    }
}

/// The key entry is an Ed25519 key with `key` text that decodes as Base64.
pub open spec fn is_usable_verify_key(entry: (String, Option<String>)) -> bool {
    &&& is_ed25519_key_id(entry.0@)
    &&& entry.1 is Some
    &&& base64_decoded(encode_utf8(entry.1.unwrap()@)) is Some
}

/// A server publishes the first usable key of its response, as lowercase
/// hexadecimal of the decoded bytes, and none when no key is usable.
pub proof fn lemma_published_key_first_usable(verify_keys: Seq<(String, Option<String>)>)
    ensures
        (forall|i: int| 0 <= i < verify_keys.len() ==> !is_usable_verify_key(#[trigger] verify_keys[i]))
            ==> published_key(verify_keys) is None,
        forall|i: int|
            0 <= i < verify_keys.len() && is_usable_verify_key(#[trigger] verify_keys[i]) && (forall|j: int|
                0 <= j < i ==> !is_usable_verify_key(#[trigger] verify_keys[j])) ==> published_key(verify_keys)
                == Some(hex_encoded(base64_decoded(encode_utf8(verify_keys[i].1.unwrap()@)).unwrap())),
    decreases verify_keys.len(),
{
    if verify_keys.len() > 0 {
        let rest = verify_keys.drop_first();
        lemma_published_key_first_usable(rest);
        if forall|i: int| 0 <= i < verify_keys.len() ==> !is_usable_verify_key(#[trigger] verify_keys[i]) {
            assert(!is_usable_verify_key(verify_keys[0]));
            assert forall|i: int| 0 <= i < rest.len() implies !is_usable_verify_key(#[trigger] rest[i]) by {
                assert(verify_keys[i + 1] == rest[i]);
            }
        }
        assert forall|i: int|
            0 <= i < verify_keys.len() && is_usable_verify_key(#[trigger] verify_keys[i]) && (forall|j: int|
                0 <= j < i ==> !is_usable_verify_key(#[trigger] verify_keys[j]))
            implies published_key(verify_keys) == Some(
                hex_encoded(base64_decoded(encode_utf8(verify_keys[i].1.unwrap()@)).unwrap()),
            ) by {
            if i > 0 {
                assert(!is_usable_verify_key(verify_keys[0]));
                assert(rest[i - 1] == verify_keys[i]);
                assert forall|j: int| 0 <= j < i - 1 implies !is_usable_verify_key(#[trigger] rest[j]) by {
                    assert(verify_keys[j + 1] == rest[j]);
                }
            }
        }
    }
}

/// The entry names an Ed25519 key and carries 64 bytes of hexadecimal
/// signature.
pub open spec fn carries_ed25519_signature(entry: SignatureEntry) -> bool {
    &&& is_ed25519_key_id(entry.key_id@)
    &&& entry.signature is Some
    &&& hex_decoded(encode_utf8(entry.signature.unwrap()@)) is Some
    &&& hex_decoded(encode_utf8(entry.signature.unwrap()@)).unwrap().len() == 64
}

/// The server's cached key text decodes, as hexadecimal, to 32 bytes.
pub open spec fn has_usable_key(cache: Seq<(String, String)>, server: Seq<char>) -> bool {
    &&& cached_key(cache, server) is Some
    &&& hex_decoded(encode_utf8(cached_key(cache, server).unwrap())) is Some
    &&& hex_decoded(encode_utf8(cached_key(cache, server).unwrap())).unwrap().len() == 32
}

/// The last entry wins. After taking in the entries, the event holds the
/// signature of the last entry that carries an Ed25519 signature, whatever
/// it held before (its old signature only when no entry carries one); and
/// it holds the key of the last such entry whose server has a usable cached
/// key (its old key only when there is none).
pub proof fn lemma_last_signature_wins(
    held: (Option<Seq<u8>>, Option<Seq<u8>>),
    entries: Seq<SignatureEntry>,
    cache: Seq<(String, String)>,
)
    ensures
        forall|i: int|
            0 <= i < entries.len() && carries_ed25519_signature(#[trigger] entries[i]) && (forall|j: int|
                i < j < entries.len() ==> !carries_ed25519_signature(#[trigger] entries[j]))
                ==> taken_signatures(held, entries, cache).0 == hex_decoded(
                encode_utf8(entries[i].signature.unwrap()@),
            ),
        (forall|i: int| 0 <= i < entries.len() ==> !carries_ed25519_signature(#[trigger] entries[i]))
            ==> taken_signatures(held, entries, cache).0 == held.0,
        forall|i: int|
            0 <= i < entries.len() && carries_ed25519_signature(#[trigger] entries[i]) && has_usable_key(
                cache,
                entries[i].server@,
            ) && (forall|j: int|
                i < j < entries.len() ==> !(carries_ed25519_signature(#[trigger] entries[j])
                    && has_usable_key(cache, entries[j].server@)))
                ==> taken_signatures(held, entries, cache).1 == hex_decoded(
                encode_utf8(cached_key(cache, entries[i].server@).unwrap()),
            ),
        (forall|i: int|
            0 <= i < entries.len() ==> !(carries_ed25519_signature(#[trigger] entries[i]) && has_usable_key(
                cache,
                entries[i].server@,
            ))) ==> taken_signatures(held, entries, cache).1 == held.1,
    decreases entries.len(),
{
    if entries.len() > 0 {
        let n = entries.len() - 1;
        let pre = entries.drop_last();
        let e = entries.last();
        lemma_last_signature_wins(held, pre, cache);
        let rp = taken_signatures(held, pre, cache);
        let r = taken_signatures(held, entries, cache);
        assert(r == take_signature(rp, e, cache));
        assert(entries[n] == e);
        assert forall|k: int| 0 <= k < n implies #[trigger] pre[k] == entries[k] by {}
        assert forall|i: int|
            0 <= i < entries.len() && carries_ed25519_signature(#[trigger] entries[i]) && (forall|j: int|
                i < j < entries.len() ==> !carries_ed25519_signature(#[trigger] entries[j]))
            implies r.0 == hex_decoded(encode_utf8(entries[i].signature.unwrap()@)) by {
            if i < n {
                assert(!carries_ed25519_signature(entries[n]));
                assert(pre[i] == entries[i]);
                assert forall|j: int| i < j < pre.len() implies !carries_ed25519_signature(#[trigger] pre[j]) by {
                    assert(pre[j] == entries[j]);
                }
            }
        }
        if forall|i: int| 0 <= i < entries.len() ==> !carries_ed25519_signature(#[trigger] entries[i]) {
            assert(!carries_ed25519_signature(entries[n]));
            assert forall|i: int| 0 <= i < pre.len() implies !carries_ed25519_signature(#[trigger] pre[i]) by {
                assert(pre[i] == entries[i]);
            }
        }
        assert forall|i: int|
            0 <= i < entries.len() && carries_ed25519_signature(#[trigger] entries[i]) && has_usable_key(
                cache,
                entries[i].server@,
            ) && (forall|j: int|
                i < j < entries.len() ==> !(carries_ed25519_signature(#[trigger] entries[j])
                    && has_usable_key(cache, entries[j].server@)))
            implies r.1 == hex_decoded(encode_utf8(cached_key(cache, entries[i].server@).unwrap())) by {
            if i < n {
                assert(!(carries_ed25519_signature(entries[n]) && has_usable_key(cache, entries[n].server@)));
                assert(pre[i] == entries[i]);
                assert forall|j: int| i < j < pre.len() implies !(carries_ed25519_signature(#[trigger] pre[j])
                    && has_usable_key(cache, pre[j].server@)) by {
                    assert(pre[j] == entries[j]);
                }
            }
        }
        if forall|i: int|
            0 <= i < entries.len() ==> !(carries_ed25519_signature(#[trigger] entries[i]) && has_usable_key(
                cache,
                entries[i].server@,
            )) {
            assert(!(carries_ed25519_signature(entries[n]) && has_usable_key(cache, entries[n].server@)));
            assert forall|i: int| 0 <= i < pre.len() implies !(carries_ed25519_signature(#[trigger] pre[i])
                && has_usable_key(cache, pre[i].server@)) by {
                assert(pre[i] == entries[i]);
            }
        }
    }
}

/// The bytes an optional byte vector holds.
pub open spec fn bytes_of(b: Option<Vec<u8>>) -> Option<Seq<u8>> {
    match b {
        Some(v) => Some(v@),
        None => None,
    }
}

/// The key text cached for `server`, if any.
fn find_cached_key(cache: &Vec<(String, String)>, server: &String) -> (key: Option<String>)
    ensures
        match key {
            Some(k) => cached_key(cache@, server@) == Some(k@),
            None => cached_key(cache@, server@) is None,
        },
{
    proof {
        assert(cache@.skip(0) =~= cache@);
    }
    for i in 0..cache.len()
        invariant
            cached_key(cache@, server@) == cached_key(cache@.skip(i as int), server@),
    {
        proof {
            let rest = cache@.skip(i as int);
            assert(rest[0] == cache@[i as int]);
            assert(rest.drop_first() =~= cache@.skip(i + 1));
        }
        if id_equal(&cache[i].0, server) {
            return Some(cache[i].1.clone());
        }
    }
    proof {
        assert(cache@.skip(cache@.len() as int) =~= Seq::<(String, String)>::empty());
    }
    None
}

/// Takes in an event's signatures, each in turn, with the server keys of
/// `key_cache` (server, hexadecimal key), then checks the event: when it holds
/// both a key and a signature that verify against the UTF-8 of its
/// identifier, it is marked verified (a mark once set stays).
pub fn attach_signatures(event: &mut GuestEvent, signatures: &Vec<SignatureEntry>, key_cache: &Vec<(String, String)>)
    ensures
        ({
            let held = taken_signatures(
                (bytes_of(old(event).signature), bytes_of(old(event).public_key)),
                signatures@,
                key_cache@,
            );
            &&& bytes_of(final(event).signature) == held.0
            &&& bytes_of(final(event).public_key) == held.1
            &&& final(event).verified_on_host == (old(event).verified_on_host || (held.0 is Some
                && held.1 is Some && ed25519_verifies(
                held.1.unwrap(),
                held.0.unwrap(),
                encode_utf8(old(event).event_id@),
            )))
            &&& final(event).event_id == old(event).event_id
            &&& final(event).room_id == old(event).room_id
            &&& final(event).sender == old(event).sender
            &&& final(event).event_type == old(event).event_type
            &&& final(event).state_key == old(event).state_key
            &&& final(event).origin_server_ts == old(event).origin_server_ts
            &&& final(event).depth == old(event).depth
            &&& final(event).content == old(event).content
            &&& final(event).prev_events == old(event).prev_events
            &&& final(event).auth_events == old(event).auth_events
        }),
{
    let ghost start = (bytes_of(event.signature), bytes_of(event.public_key));
    proof {
        assert(signatures@.take(0) =~= Seq::<SignatureEntry>::empty());
    }
    for i in 0..signatures.len()
        invariant
            (bytes_of(event.signature), bytes_of(event.public_key)) == taken_signatures(
                start,
                signatures@.take(i as int),
                key_cache@,
            ),
            event.event_id == old(event).event_id,
            event.room_id == old(event).room_id,
            event.sender == old(event).sender,
            event.event_type == old(event).event_type,
            event.state_key == old(event).state_key,
            event.origin_server_ts == old(event).origin_server_ts,
            event.depth == old(event).depth,
            event.content == old(event).content,
            event.prev_events == old(event).prev_events,
            event.auth_events == old(event).auth_events,
            event.verified_on_host == old(event).verified_on_host,
    {
        let entry = &signatures[i];
        proof {
            assert(signatures@.take(i + 1).drop_last() =~= signatures@.take(i as int));
            assert(signatures@.take(i + 1).last() == *entry);
        }
        if names_ed25519_key(&entry.key_id) {
            match &entry.signature {
                Some(sig_str) => {
                    match hex_decode(sig_str.as_str()) {
                        Some(sig_bytes) => {
                            if sig_bytes.len() == 64 {
                                event.signature = Some(sig_bytes);
                                match find_cached_key(key_cache, &entry.server) {
                                    Some(pk_hex) => {
                                        match hex_decode(pk_hex.as_str()) {
                                            Some(pk_bytes) => {
                                                if pk_bytes.len() == 32 {
                                                    event.public_key = Some(pk_bytes);
                                                }
                                            },
                                            None => {},
                                        }
                                    },
                                    None => {},
                                }
                            }
                        },
                        None => {},
                    }
                },
                None => {},
            }
        }
    }
    proof {
        assert(signatures@.take(signatures@.len() as int) =~= signatures@);
    }
    let verified = match (&event.public_key, &event.signature) {
        (Some(pk), Some(sig)) => ed25519_verify(pk.as_slice(), sig.as_slice(), event.event_id.as_str().as_bytes()),
        _ => false,
    };
    if verified {
        event.verified_on_host = true;
    }
}

/// The servers, among `servers`, that have no key in `cache`, each once.
pub fn servers_missing_keys(servers: &Vec<String>, key_cache: &Vec<(String, String)>) -> (missing: Vec<String>)
    ensures
        missing@.no_duplicates(),
        forall|s: String| #[trigger] missing@.contains(s) ==> servers@.contains(s) && cached_key(key_cache@, s@) is None,
        forall|i: int| 0 <= i < servers@.len() && cached_key(key_cache@, (#[trigger] servers@[i])@) is None
            ==> exists|j: int| 0 <= j < missing@.len() && missing@[j]@ == servers@[i]@,
        forall|i: int, j: int| 0 <= i < j < missing@.len() ==> (#[trigger] missing@[i])@ != (#[trigger] missing@[j])@,
{
    let mut missing: Vec<String> = Vec::new();
    for i in 0..servers.len()
        invariant
            forall|s: String| #[trigger] missing@.contains(s) ==> servers@.contains(s) && cached_key(key_cache@, s@) is None,
            forall|t: int| 0 <= t < i && cached_key(key_cache@, (#[trigger] servers@[t])@) is None
                ==> exists|j: int| 0 <= j < missing@.len() && missing@[j]@ == servers@[t]@,
            forall|a: int, b: int| 0 <= a < b < missing@.len() ==> (#[trigger] missing@[a])@ != (#[trigger] missing@[b])@,
    {
        let server = &servers[i];
        let ghost before = missing@;
        if find_cached_key(key_cache, server).is_none() {
            let mut seen = false;
            for j in 0..missing.len()
                invariant
                    seen == exists|t: int| 0 <= t < j && missing@[t]@ == server@,
            {
                if id_equal(&missing[j], server) {
                    seen = true;
                }
            }
            if !seen {
                missing.push(server.clone());
                proof {
                    assert(missing@[missing@.len() - 1] == servers@[i as int]);
                    assert forall|s: String| #[trigger] missing@.contains(s) implies servers@.contains(s) && cached_key(key_cache@, s@) is None by {
                        let j = choose|j: int| 0 <= j < missing@.len() && missing@[j] == s;
                        if j < before.len() {
                            assert(before[j] == s);
                            assert(before.contains(s));
                        } else {
                            assert(servers@[i as int] == s);
                        }
                    }
                    assert forall|t: int| 0 <= t < i + 1 && cached_key(key_cache@, (#[trigger] servers@[t])@) is None
                        implies exists|j: int| 0 <= j < missing@.len() && missing@[j]@ == servers@[t]@ by {
                        if t < i {
                            let j = choose|j: int| 0 <= j < before.len() && before[j]@ == servers@[t]@;
                            assert(missing@[j] == before[j]);
                        } else {
                            assert(missing@[missing@.len() - 1]@ == servers@[t]@);
                        }
                    }
                }
            } else {
                proof {
                    assert forall|t: int| 0 <= t < i + 1 && cached_key(key_cache@, (#[trigger] servers@[t])@) is None
                        implies exists|j: int| 0 <= j < missing@.len() && missing@[j]@ == servers@[t]@ by {
                        if t == i {
                            let u = choose|u: int| 0 <= u < missing@.len() && missing@[u]@ == server@;
                        }
                    }
                }
            }
        }
    }
    proof {
        assert forall|a: int, b: int| 0 <= a < missing@.len() && 0 <= b < missing@.len() && a != b implies missing@[a] != missing@[b] by {
            if a < b {
                assert(missing@[a]@ != missing@[b]@);
            } else {
                assert(missing@[b]@ != missing@[a]@);
            }
        }
    }
    missing
}

} // verus!
