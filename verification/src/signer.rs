//! The signing keyring: the keys that credentials are signed with, one of
//! them active, others still honoured while they retire.

use vstd::prelude::*;

use crate::proto::KeyInfo;
use crate::secrets::{
    base64_bytes, base64_text, decode_base64, encode_base64, KEY_LEN,
};
use crate::text::{decimal, push_decimal, said, say, str_eq, texts};

verus! {

/// A key as it is stored.
#[derive(Debug)]
pub struct StoredKey {
    pub kid: String,
    /// The 32 secret bytes in base64.
    pub secret: String,
    /// `active` or `retiring`.
    pub state: String,
    pub created_unix: u64,
}

/// The content of a [`StoredKey`].
#[verifier::ext_equal]
pub struct StoredView {
    pub kid: Seq<char>,
    pub secret: Seq<char>,
    pub state: Seq<char>,
    pub created_unix: u64,
}

impl View for StoredKey {
    type V = StoredView;

    open spec fn view(&self) -> StoredView {
        StoredView {
            kid: self.kid@,
            secret: self.secret@,
            state: self.state@,
            created_unix: self.created_unix,
        }
    }
}

/// The public key of a secret one, under Ed25519.
pub uninterp spec fn ed25519_public(seed: Seq<u8>) -> Seq<u8>;

/// `SigningKey::from_bytes(..).verifying_key().to_bytes()` of the
/// `ed25519-dalek` crate: a function of the 32 secret bytes, 32 bytes long.
#[verifier::external_body]
fn public_key(seed: &Vec<u8>) -> (r: Vec<u8>)
    requires
        seed@.len() == KEY_LEN,
    ensures
        r@ == ed25519_public(seed@),
        r@.len() == KEY_LEN,
{
    let bytes: [u8; 32] = seed.as_slice().try_into().unwrap();
    ed25519_dalek::SigningKey::from_bytes(&bytes).verifying_key().to_bytes().to_vec()
}

/// `SigningKey::generate` of the `ed25519-dalek` crate, as its secret bytes.
/// Nothing is known of the bytes but how many there are. Where the operating
/// system hands out no randomness, the call panics.
#[verifier::external_body]
fn generate_seed() -> (r: Vec<u8>)
    ensures
        r@.len() == KEY_LEN,
{
    ed25519_dalek::SigningKey::generate(&mut rand::rngs::OsRng).to_bytes().to_vec()
}

/// The keys, each with its secret bytes.
#[derive(Debug)]
pub struct Keyring {
    pub keys: Vec<(StoredKey, Vec<u8>)>,
}

/// The content of a keyring.
pub open spec fn ring_view(s: Seq<(StoredKey, Vec<u8>)>) -> Seq<(StoredView, Seq<u8>)> {
    s.map_values(|e: (StoredKey, Vec<u8>)| (e.0@, e.1@))
}

/// The content of stored keys.
pub open spec fn stored_views(s: Seq<StoredKey>) -> Seq<StoredView> {
    s.map_values(|k: StoredKey| k@)
}

/// The secret bytes of a stored key, if it spells 32 of them.
pub open spec fn seed_of(k: StoredView) -> Option<Seq<u8>> {
    match base64_bytes(k.secret) {
        Some(b) if b.len() == KEY_LEN => Some(b),
        _ => None,
    }
}

/// The first stored key whose secret is bad.
pub open spec fn bad_key(s: Seq<StoredView>) -> Option<StoredView>
    decreases s.len(),
{
    if s.len() == 0 {
        None
    } else if seed_of(s[0]) is None {
        Some(s[0])
    } else {
        bad_key(s.drop_first())
    }
}

/// One of the keys is active.
pub open spec fn has_active(s: Seq<StoredView>) -> bool {
    exists|i: int| 0 <= i < s.len() && (#[trigger] s[i]).state == "active"@
}

/// The position of the first active key.
pub open spec fn active_index(s: Seq<(StoredView, Seq<u8>)>) -> Option<int>
    decreases s.len(),
{
    if s.len() == 0 {
        None
    } else {
        match active_index(s.drop_last()) {
            Some(i) => Some(i),
            None => if s.last().0.state == "active"@ {
                Some(s.len() - 1)
            } else {
                None
            },
        }
    }
}

proof fn lemma_bad_key(s: Seq<StoredView>)
    ensures
        bad_key(s) is None <==> forall|i: int|
            0 <= i < s.len() ==> seed_of(#[trigger] s[i]) is Some,
    decreases s.len(),
{
    if s.len() > 0 {
        let d = s.drop_first();
        lemma_bad_key(d);
        assert forall|i: int| 0 < i < s.len() implies #[trigger] s[i] == d[i - 1] by {}
        if bad_key(s) is None {
            assert forall|i: int| 0 <= i < s.len() implies seed_of(#[trigger] s[i]) is Some by {
                if i > 0 {
                    assert(s[i] == d[i - 1]);
                }
            }
        }
        if forall|i: int| 0 <= i < s.len() ==> seed_of(#[trigger] s[i]) is Some {
            assert forall|i: int| 0 <= i < d.len() implies seed_of(#[trigger] d[i]) is Some by {
                assert(s[i + 1] == d[i]);
            }
        }
    }
}

proof fn lemma_active_index(s: Seq<(StoredView, Seq<u8>)>)
    ensures
        match active_index(s) {
            Some(i) => 0 <= i < s.len() && s[i].0.state == "active"@ && forall|j: int|
                0 <= j < i ==> (#[trigger] s[j]).0.state != "active"@,
            None => forall|j: int| 0 <= j < s.len() ==> (#[trigger] s[j]).0.state != "active"@,
        },
    decreases s.len(),
{
    if s.len() > 0 {
        let d = s.drop_last();
        lemma_active_index(d);
        assert forall|j: int| 0 <= j < d.len() implies #[trigger] s[j] == d[j] by {}
    }
}

impl Keyring {
    /// Every key has its 32 bytes as its secret spells them, and one is
    /// active.
    pub open spec fn wf(self) -> bool {
        let v = ring_view(self.keys@);
        &&& forall|i: int|
            0 <= i < v.len() ==> seed_of((#[trigger] v[i]).0) == Some(v[i].1)
        &&& active_index(v) is Some
    }

    /// A keyring of stored keys. A key whose secret is not 32 bytes in
    /// base64 is refused, and so is a keyring without an active key.
    pub fn from_stored(stored: Vec<StoredKey>) -> (r: Result<Keyring, String>)
        ensures
            match r {
                Ok(k) => {
                    &&& k.wf()
                    &&& bad_key(stored_views(stored@)) is None
                    &&& has_active(stored_views(stored@))
                    &&& ring_view(k.keys@) == stored_views(stored@).map_values(
                        |s: StoredView| (s, seed_of(s)->0),
                    )
                },
                Err(e) => match bad_key(stored_views(stored@)) {
                    Some(k) => e@ == said(seq!["keyring: bad secret for kid "@, k.kid]),
                    None => !has_active(stored_views(stored@)) && e@
                        == "keyring has no active key"@,
                },
            },
    {
        let ghost all = stored_views(stored@);
        let mut keys: Vec<(StoredKey, Vec<u8>)> = Vec::new();
        let mut i: usize = 0;
        let mut active = false;
        assert(all.skip(0) =~= all);
        while i < stored.len()
            invariant
                i <= stored@.len(),
                all == stored_views(stored@),
                all.len() == stored@.len(),
                bad_key(all) == bad_key(all.skip(i as int)),
                keys@.len() == i,
                forall|k: int|
                    0 <= k < i ==> (#[trigger] keys@[k]).0@ == all[k] && seed_of(all[k]) == Some(
                        keys@[k].1@,
                    ),
                active <==> exists|k: int| 0 <= k < i && (#[trigger] all[k]).state == "active"@,
            decreases stored.len() - i,
        {
            let k = &stored[i];
            assert(all[i as int] == k@);
            let seed = match decode_base64(k.secret.as_str()) {
                Some(b) => if b.len() == KEY_LEN {
                    Some(b)
                } else {
                    None
                },
                None => None,
            };
            match seed {
                None => {
                    let parts = vec!["keyring: bad secret for kid ", k.kid.as_str()];
                    assert(texts(parts@) =~= seq!["keyring: bad secret for kid "@, k.kid@]);
                    return Err(say(&parts));
                },
                Some(b) => {
                    let ghost was = active;
                    if str_eq(k.state.as_str(), "active") {
                        active = true;
                        assert(all[i as int].state == "active"@);
                    }
                    keys.push(
                        (
                            StoredKey {
                                kid: k.kid.clone(),
                                secret: k.secret.clone(),
                                state: k.state.clone(),
                                created_unix: k.created_unix,
                            },
                            b,
                        ),
                    );
                    proof {
                        if was {
                            let m = choose|m: int|
                                0 <= m < i && (#[trigger] all[m]).state == "active"@;
                            assert(0 <= m < i + 1 && all[m].state == "active"@);
                        }
                    }
                },
            }
            assert(all.skip(i as int).drop_first() =~= all.skip(i + 1));
            i = i + 1;
        }
        if !active {
            return Err("keyring has no active key".to_owned());
        }
        let r = Keyring { keys };
        proof {
            let v = ring_view(r.keys@);
            assert(v =~= all.map_values(|s: StoredView| (s, seed_of(s)->0)));
            lemma_active_index(v);
            let m = choose|m: int| 0 <= m < i && (#[trigger] all[m]).state == "active"@;
            assert(v[m].0.state == "active"@);
        }
        Ok(r)
    }

    /// The stored form of a first key, made of its secret bytes.
    pub fn first_key(seed: &Vec<u8>, now: u64) -> (r: StoredKey)
        requires
            seed@.len() == KEY_LEN,
        ensures
            r@ == (StoredView {
                kid: "k"@ + decimal(now as nat),
                secret: base64_text(seed@),
                state: "active"@,
                created_unix: now,
            }),
            seed_of(r@) == Some(seed@),
    {
        let mut kid = "k".to_owned();
        push_decimal(&mut kid, now);
        StoredKey {
            kid,
            secret: encode_base64(seed),
            state: "active".to_owned(),
            created_unix: now,
        }
    }

    /// The stored form of a new key, for a coordinator that has none yet.
    pub fn generate(now: u64) -> (r: StoredKey)
        ensures
            r.kid@ == "k"@ + decimal(now as nat),
            r.state@ == "active"@,
            r.created_unix == now,
            seed_of(r@) is Some,
    {
        let seed = generate_seed();
        Keyring::first_key(&seed, now)
    }

    /// The key to sign with: its name and its secret bytes.
    pub fn active(&self) -> (r: (&str, &Vec<u8>))
        requires
            self.wf(),
        ensures
            ({
                let v = ring_view(self.keys@);
                let i = active_index(v)->0;
                r.0@ == v[i].0.kid && r.1@ == v[i].1
            }),
    {
        let ghost v = ring_view(self.keys@);
        proof {
            lemma_active_index(v);
        }
        let ghost goal = active_index(v)->0;
        let mut i: usize = 0;
        while i < self.keys.len()
            invariant
                i <= self.keys@.len(),
                v == ring_view(self.keys@),
                v.len() == self.keys@.len(),
                i <= goal < v.len(),
                v[goal].0.state == "active"@,
                forall|j: int| 0 <= j < goal ==> (#[trigger] v[j]).0.state != "active"@,
                active_index(v) == Some(goal),
            decreases self.keys.len() - i,
        {
            assert(v[i as int].0 == self.keys@[i as int].0@);
            if str_eq(self.keys[i].0.state.as_str(), "active") {
                assert(i == goal);
                return (self.keys[i].0.kid.as_str(), &self.keys[i].1);
            }
            i = i + 1;
        }
        (self.keys[0].0.kid.as_str(), &self.keys[0].1)
    }

    /// The keys are told of by their names, states and public halves.
    pub open spec fn told(self, infos: Seq<KeyInfo>) -> bool {
        &&& infos.len() == self.keys@.len()
        &&& forall|i: int|
            0 <= i < infos.len() ==> (#[trigger] infos[i]).kid@ == self.keys@[i].0.kid@
                && infos[i].state@ == self.keys@[i].0.state@ && infos[i].key@ == base64_text(
                ed25519_public(self.keys@[i].1@),
            )
    }

    /// The public keys, active and retiring, as members are told of them.
    pub fn key_infos(&self) -> (r: Vec<KeyInfo>)
        requires
            self.wf(),
        ensures
            self.told(r@),
    {
        let mut out: Vec<KeyInfo> = Vec::new();
        let mut i: usize = 0;
        while i < self.keys.len()
            invariant
                i <= self.keys@.len(),
                self.wf(),
                out@.len() == i,
                forall|k: int|
                    0 <= k < i ==> (#[trigger] out@[k]).kid@ == self.keys@[k].0.kid@
                        && out@[k].state@ == self.keys@[k].0.state@ && out@[k].key@ == base64_text(
                        ed25519_public(self.keys@[k].1@),
                    ),
            decreases self.keys.len() - i,
        {
            let k = &self.keys[i].0;
            assert(ring_view(self.keys@)[i as int] == (k@, self.keys@[i as int].1@));
            let public = public_key(&self.keys[i].1);
            out.push(
                KeyInfo {
                    kid: k.kid.clone(),
                    key: encode_base64(&public),
                    state: k.state.clone(),
                },
            );
            i = i + 1;
        }
        out
    }

    /// The public keys by name, for verifying.
    pub fn verifying_keys(&self) -> (r: Vec<(String, Vec<u8>)>)
        requires
            self.wf(),
        ensures
            r@.len() == self.keys@.len(),
            forall|i: int|
                0 <= i < r@.len() ==> (#[trigger] r@[i]).0@ == self.keys@[i].0.kid@ && r@[i].1@
                    == ed25519_public(self.keys@[i].1@),
    {
        let mut out: Vec<(String, Vec<u8>)> = Vec::new();
        let mut i: usize = 0;
        while i < self.keys.len()
            invariant
                i <= self.keys@.len(),
                self.wf(),
                out@.len() == i,
                forall|k: int|
                    0 <= k < i ==> (#[trigger] out@[k]).0@ == self.keys@[k].0.kid@ && out@[k].1@
                        == ed25519_public(self.keys@[k].1@),
            decreases self.keys.len() - i,
        {
            assert(ring_view(self.keys@)[i as int] == (
                self.keys@[i as int].0@,
                self.keys@[i as int].1@,
            ));
            out.push((self.keys[i].0.kid.clone(), public_key(&self.keys[i].1)));
            i = i + 1;
        }
        out
    }
}

/// A first key reloads: the keyring of what was stored for it holds the same
/// secret bytes under the same name, and that key is the active one.
pub proof fn law_a_stored_key_reloads(seed: Seq<u8>, k: StoredView)
    requires
        seed.len() == KEY_LEN,
        k.state == "active"@,
        base64_bytes(k.secret) == Some(seed),
    ensures
        bad_key(seq![k]) is None,
        has_active(seq![k]),
        active_index(seq![(k, seed)]) == Some(0int),
        seed_of(k) == Some(seed),
{
    lemma_bad_key(seq![k]);
    assert(seq![k][0] == k);
    lemma_active_index(seq![(k, seed)]);
    assert(seq![(k, seed)][0] == (k, seed));
}

/// The key to sign with is the first active one; the keys of a keyring are
/// the stored ones, in their order, each with the bytes that its secret
/// spells.
pub proof fn law_the_first_active_key_signs(s: Seq<(StoredView, Seq<u8>)>, i: int)
    requires
        0 <= i < s.len(),
        s[i].0.state == "active"@,
        forall|j: int| 0 <= j < i ==> (#[trigger] s[j]).0.state != "active"@,
    ensures
        active_index(s) == Some(i),
{
    lemma_active_index(s);
}

/// A keyring is refused for the first key whose secret is not 32 bytes in
/// base64, and only for such a one or for want of an active key.
pub proof fn law_a_bad_key_is_named(s: Seq<StoredView>)
    ensures
        match bad_key(s) {
            Some(k) => exists|i: int|
                0 <= i < s.len() && #[trigger] s[i] == k && !(base64_bytes(k.secret) matches Some(b)
                    && b.len() == 32) && forall|j: int|
                    0 <= j < i ==> (base64_bytes((#[trigger] s[j]).secret) matches Some(b)
                        && b.len() == 32),
            None => forall|i: int|
                0 <= i < s.len() ==> (base64_bytes((#[trigger] s[i]).secret) matches Some(b)
                    && b.len() == 32),
        },
    decreases s.len(),
{
    if s.len() > 0 {
        let d = s.drop_first();
        law_a_bad_key_is_named(d);
        assert forall|i: int| 0 < i < s.len() implies #[trigger] s[i] == d[i - 1] by {}
        if seed_of(s[0]) is None {
            assert(s[0] == bad_key(s)->0);
        } else if let Some(k) = bad_key(d) {
            let i = choose|i: int|
                0 <= i < d.len() && #[trigger] d[i] == k && !(base64_bytes(k.secret) matches Some(b)
                    && b.len() == 32) && forall|j: int|
                    0 <= j < i ==> (base64_bytes((#[trigger] d[j]).secret) matches Some(b)
                        && b.len() == 32);
            assert(s[i + 1] == k);
            assert forall|j: int| 0 <= j < i + 1 implies (base64_bytes(
                (#[trigger] s[j]).secret,
            ) matches Some(b) && b.len() == 32) by {
                if j > 0 {
                    assert(s[j] == d[j - 1]);
                }
            }
        }
    }
}

/// Members are told of every key, in order, by its name, its state and its
/// public half.
pub proof fn law_members_are_told_of_every_key(ring: Keyring, infos: Seq<KeyInfo>, i: int)
    requires
        ring.told(infos),
    ensures
        infos.len() == ring.keys@.len(),
        0 <= i < infos.len() ==> infos[i].kid@ == ring.keys@[i].0.kid@ && infos[i].state@
            == ring.keys@[i].0.state@ && infos[i].key@ == base64_text(
            ed25519_public(ring.keys@[i].1@),
        ),
{
}

} // verus!
