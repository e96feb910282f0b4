//! Agent identity and key management.
//!
//! An agent owns an Ed25519 signing key pair for authentication and an
//! X25519 key pair for key exchange; its public identity carries the name
//! and the two public keys and may be shared freely.

use vstd::prelude::*;

use crate::crypto;
use crate::crypto::KeyExchangePair;
use crate::crypto::SigningKeyPair;
use crate::error::WaterscapeError;
use crate::text::str_eq;

verus! {

/// The lower-case hex digit for `v` (0..16), as a character.
pub open spec fn spec_hex_char(v: u8) -> char {
    if v < 10 {
        ((48 + v) as u8) as char
    } else {
        ((87 + v) as u8) as char
    }
}

/// The lower-case hex spelling of a byte string, as characters.
pub open spec fn spec_hex_chars(bytes: Seq<u8>) -> Seq<char> {
    Seq::new(
        bytes.len() * 2,
        |i: int|
            if i % 2 == 0 {
                spec_hex_char(bytes[i / 2] / 16)
            } else {
                spec_hex_char(bytes[i / 2] % 16)
            },
    )
}

/// Relies on `hex::encode`: two lower-case hex digits per byte, high nibble
/// first.
#[verifier::external_body]
fn hex_encode(bytes: &[u8]) -> (r: String)
    ensures
        r@ == spec_hex_chars(bytes@),
{
    hex::encode(bytes)
}

/// Public identity of an agent: shareable, and identifying by the verifying
/// key, not the name.
pub struct PublicIdentity {
    pub name: String,
    pub signing_key: Vec<u8>,
    pub exchange_key: Vec<u8>,
}

impl PublicIdentity {
    /// Well-formed: both keys are 32 bytes.
    pub open spec fn wf(&self) -> bool {
        self.signing_key@.len() == 32 && self.exchange_key@.len() == 32
    }

    /// The identity's fingerprint for human display: the first 8 bytes of
    /// the signing key in lower-case hex.
    pub fn fingerprint(&self) -> (r: String)
        requires
            self.wf(),
        ensures
            r@ == spec_hex_chars(self.signing_key@.take(8)),
    {
        let head = vstd::slice::slice_subrange(self.signing_key.as_slice(), 0, 8);
        proof {
            assert(head@ =~= self.signing_key@.take(8));
        }
        hex_encode(head)
    }

    /// An identical copy of this identity.
    pub fn duplicate(&self) -> (r: Self)
        ensures
            r.name@ == self.name@,
            r.signing_key@ == self.signing_key@,
            r.exchange_key@ == self.exchange_key@,
    {
        PublicIdentity {
            name: self.name.clone(),
            signing_key: self.signing_key.clone(),
            exchange_key: self.exchange_key.clone(),
        }
    }
}

/// Full agent with private key material.
pub struct Agent {
    name: String,
    signing_keypair: SigningKeyPair,
    exchange_keypair: KeyExchangePair,
}

impl Agent {
    /// The agent's name, visible to contracts only.
    pub closed spec fn spec_name(&self) -> Seq<char> {
        self.name@
    }

    /// The 32-byte signing seed, visible to contracts only.
    pub closed spec fn spec_signing_seed(&self) -> Seq<u8> {
        self.signing_keypair.spec_seed()
    }

    /// The 32-byte exchange secret, visible to contracts only.
    pub closed spec fn spec_exchange_secret(&self) -> Seq<u8> {
        self.exchange_keypair.spec_secret()
    }

    /// Well-formed: both key pairs are internally consistent.
    pub closed spec fn wf(&self) -> bool {
        self.signing_keypair.wf() && self.exchange_keypair.wf()
    }

    /// A well-formed agent holds 32-byte secrets.
    pub proof fn lemma_wf_lens(&self)
        requires
            self.wf(),
        ensures
            self.spec_signing_seed().len() == 32,
            self.spec_exchange_secret().len() == 32,
    {
        self.signing_keypair.lemma_wf_seed_len();
        self.exchange_keypair.lemma_wf_secret_len();
    }

    /// Create a new agent with freshly generated keys.
    pub fn new(name: &str) -> (r: Self)
        ensures
            r.wf(),
            r.spec_name() == name@,
    {
        Agent {
            name: name.to_string(),
            signing_keypair: SigningKeyPair::generate(),
            exchange_keypair: KeyExchangePair::generate(),
        }
    }

    /// Restore an agent from a stored 32-byte signing seed; the exchange
    /// pair is generated afresh.
    pub fn from_keys(name: &str, signing_key_bytes: &[u8]) -> (r: Result<Self, WaterscapeError>)
        requires
            signing_key_bytes@.len() == 32,
        ensures
            r matches Ok(a) ==> a.wf() && a.spec_name() == name@ && a.spec_signing_seed()
                == signing_key_bytes@,
            r is Ok,
    {
        let signing_keypair = match SigningKeyPair::from_bytes(signing_key_bytes) {
            Ok(kp) => kp,
            Err(e) => {
                return Err(e);
            },
        };
        Ok(
            Agent {
                name: name.to_string(),
                signing_keypair,
                exchange_keypair: KeyExchangePair::generate(),
            },
        )
    }

    /// The agent's name.
    pub fn name(&self) -> (r: &str)
        ensures
            r@ == self.spec_name(),
    {
        self.name.as_str()
    }

    /// The shareable public identity: name, verifying key, exchange public
    /// key.
    pub fn public_identity(&self) -> (r: PublicIdentity)
        requires
            self.wf(),
        ensures
            r.wf(),
            r.name@ == self.spec_name(),
            r.signing_key@ == crypto::ed25519_verifying_key(self.spec_signing_seed()),
            r.exchange_key@ == crypto::x25519_public(self.spec_exchange_secret()),
    {
        PublicIdentity {
            name: self.name.clone(),
            signing_key: self.signing_keypair.verifying_key_bytes(),
            exchange_key: self.exchange_keypair.public_key_bytes(),
        }
    }

    /// The signing key pair, for use inside the crate.
    pub(crate) fn signing_keypair(&self) -> (r: &SigningKeyPair)
        requires
            self.wf(),
        ensures
            r.wf(),
            r.spec_seed() == self.spec_signing_seed(),
    {
        &self.signing_keypair
    }

    /// The exchange key pair, for use inside the crate.
    pub(crate) fn exchange_keypair(&self) -> (r: &KeyExchangePair)
        requires
            self.wf(),
        ensures
            r.wf(),
            r.spec_secret() == self.spec_exchange_secret(),
    {
        &self.exchange_keypair
    }

    /// Export the private signing seed, for backup.
    pub fn export_signing_key(&self) -> (r: Vec<u8>)
        requires
            self.wf(),
        ensures
            r@ == self.spec_signing_seed(),
            r@.len() == 32,
    {
        self.signing_keypair.signing_key_bytes()
    }

    /// Sign arbitrary data with the agent's long-term signing key.
    pub fn sign(&self, data: &[u8]) -> (r: Vec<u8>)
        requires
            self.wf(),
        ensures
            r@ == crypto::ed25519_signature(self.spec_signing_seed(), data@),
            r@.len() == 64,
    {
        self.signing_keypair.sign(data)
    }
}

/// The first identity in `s` whose name is `name`.
pub open spec fn spec_lookup(s: Seq<PublicIdentity>, name: Seq<char>) -> Option<PublicIdentity>
    decreases s.len(),
{
    if s.len() == 0 {
        None
    } else if s[0].name@ == name {
        Some(s[0])
    } else {
        spec_lookup(s.drop_first(), name)
    }
}

proof fn lemma_lookup_found(s: Seq<PublicIdentity>, name: Seq<char>, k: int)
    requires
        0 <= k < s.len(),
        s[k].name@ == name,
        forall|j: int| 0 <= j < k ==> s[j].name@ != name,
    ensures
        spec_lookup(s, name) == Some(s[k]),
    decreases k,
{
    if k > 0 {
        assert(s.drop_first()[k - 1] == s[k]);
        assert(forall|j: int| 0 <= j < k - 1 ==> s.drop_first()[j].name@ != name);
        lemma_lookup_found(s.drop_first(), name, k - 1);
    }
}

proof fn lemma_lookup_none(s: Seq<PublicIdentity>, name: Seq<char>)
    requires
        forall|j: int| 0 <= j < s.len() ==> s[j].name@ != name,
    ensures
        spec_lookup(s, name) is None,
    decreases s.len(),
{
    if s.len() > 0 {
        assert(forall|j: int| 0 <= j < s.drop_first().len() ==> s.drop_first()[j].name@ != name);
        lemma_lookup_none(s.drop_first(), name);
    }
}

proof fn lemma_lookup_push(s: Seq<PublicIdentity>, id: PublicIdentity, name: Seq<char>)
    ensures
        name != id.name@ ==> spec_lookup(s.push(id), name) == spec_lookup(s, name),
        name == id.name@ && spec_lookup(s, name) is None ==> spec_lookup(s.push(id), name)
            == Some(id),
    decreases s.len(),
{
    if s.len() == 0 {
        assert(s.push(id)[0] == id);
        assert(s.push(id).drop_first() =~= Seq::<PublicIdentity>::empty());
    } else {
        assert(s.push(id)[0] == s[0]);
        assert(s.push(id).drop_first() =~= s.drop_first().push(id));
        lemma_lookup_push(s.drop_first(), id, name);
    }
}

proof fn lemma_lookup_remove(s: Seq<PublicIdentity>, k: int, name: Seq<char>)
    requires
        0 <= k < s.len(),
        s[k].name@ != name,
    ensures
        spec_lookup(s.remove(k), name) == spec_lookup(s, name),
    decreases s.len(),
{
    if k == 0 {
        assert(s.remove(0) =~= s.drop_first());
    } else {
        assert(s.remove(k)[0] == s[0]);
        assert(s.remove(k).drop_first() =~= s.drop_first().remove(k - 1));
        lemma_lookup_remove(s.drop_first(), k - 1, name);
    }
}

/// Registry of known agents, keyed by name: each name occurs at most once.
pub struct AgentRegistry {
    agents: Vec<PublicIdentity>,
}

impl AgentRegistry {
    /// The stored identities, visible to contracts only.
    pub closed spec fn spec_agents(&self) -> Seq<PublicIdentity> {
        self.agents@
    }

    /// Well-formed: no two entries share a name.
    pub open spec fn wf(&self) -> bool {
        forall|i: int, j: int|
            0 <= i < j < self.spec_agents().len() ==> (#[trigger] self.spec_agents()[i].name@)
                != (#[trigger] self.spec_agents()[j].name@)
    }

    /// What lookup by a name yields.
    pub open spec fn spec_get(&self, name: Seq<char>) -> Option<PublicIdentity> {
        spec_lookup(self.spec_agents(), name)
    }

    /// An empty registry.
    pub fn new() -> (r: Self)
        ensures
            r.spec_agents() == Seq::<PublicIdentity>::empty(),
            r.wf(),
    {
        AgentRegistry { agents: Vec::new() }
    }

    /// Register an identity under its name, replacing any existing entry of
    /// that name.
    pub fn register(&mut self, identity: PublicIdentity)
        requires
            old(self).wf(),
        ensures
            final(self).wf(),
            final(self).spec_get(identity.name@) == Some(identity),
            forall|n: Seq<char>|
                n != identity.name@ ==> final(self).spec_get(n) == old(self).spec_get(n),
    {
        let ghost orig = self.agents@;
        let mut i: usize = 0;
        let mut found: Option<usize> = None;
        while i < self.agents.len()
            invariant
                i <= self.agents@.len(),
                self.agents@ == orig,
                found matches Some(k) ==> k < i && self.agents@[k as int].name@ == identity.name@,
                found is None ==> forall|j: int|
                    0 <= j < i ==> self.agents@[j].name@ != identity.name@,
            decreases self.agents@.len() - i,
        {
            if found.is_none() && str_eq(self.agents[i].name.as_str(), identity.name.as_str()) {
                found = Some(i);
            }
            i = i + 1;
        }
        if let Some(k) = found {
            self.agents.remove(k);
            proof {
                assert forall|n: Seq<char>| n != orig[k as int].name@ implies spec_lookup(
                    self.agents@,
                    n,
                ) == spec_lookup(orig, n) by {
                    lemma_lookup_remove(orig, k as int, n);
                }
                assert forall|a: int, b: int|
                    0 <= a < b < self.agents@.len() implies (
                #[trigger] self.agents@[a].name@) != (#[trigger] self.agents@[b].name@) by {
                    let oa: int = if a < k {
                        a
                    } else {
                        a + 1
                    };
                    let ob: int = if b < k {
                        b
                    } else {
                        b + 1
                    };
                    assert(self.agents@[a] == orig[oa]);
                    assert(self.agents@[b] == orig[ob]);
                }
                assert forall|j: int| 0 <= j < self.agents@.len() implies self.agents@[j].name@
                    != identity.name@ by {
                    let oj: int = if j < k {
                        j
                    } else {
                        j + 1
                    };
                    assert(self.agents@[j] == orig[oj]);
                    assert(orig[k as int].name@ == identity.name@);
                }
                lemma_lookup_none(self.agents@, identity.name@);
            }
        } else {
            proof {
                lemma_lookup_none(self.agents@, identity.name@);
            }
        }
        let ghost before_push = self.agents@;
        let ghost pushed = identity;
        proof {
            assert(spec_lookup(before_push, pushed.name@) is None);
            assert(forall|j: int|
                0 <= j < before_push.len() ==> (#[trigger] before_push[j].name@)
                    != pushed.name@);
        }
        self.agents.push(identity);
        proof {
            lemma_lookup_push(before_push, pushed, pushed.name@);
            assert forall|n: Seq<char>| n != pushed.name@ implies spec_lookup(self.agents@, n)
                == spec_lookup(before_push, n) by {
                lemma_lookup_push(before_push, pushed, n);
            }
            assert forall|a: int, b: int|
                0 <= a < b < self.agents@.len() implies (#[trigger] self.agents@[a].name@) != (
            #[trigger] self.agents@[b].name@) by {
                if b < self.agents@.len() - 1 {
                    assert(self.agents@[a] == before_push[a]);
                    assert(self.agents@[b] == before_push[b]);
                } else {
                    assert(self.agents@[a] == before_push[a]);
                    assert(self.agents@[b] == pushed);
                }
            }
        }
    }

    /// Look up an identity by name.
    pub fn get(&self, name: &str) -> (r: Option<&PublicIdentity>)
        ensures
            r matches Some(id) ==> self.spec_get(name@) == Some(*id),
            r is None ==> self.spec_get(name@) is None,
    {
        let mut i: usize = 0;
        while i < self.agents.len()
            invariant
                i <= self.agents@.len(),
                forall|j: int| 0 <= j < i ==> self.agents@[j].name@ != name@,
            decreases self.agents@.len() - i,
        {
            if str_eq(self.agents[i].name.as_str(), name) {
                proof {
                    lemma_lookup_found(self.agents@, name@, i as int);
                }
                return Some(&self.agents[i]);
            }
            i = i + 1;
        }
        proof {
            lemma_lookup_none(self.agents@, name@);
        }
        None
    }

    /// Look up an identity by its fingerprint.
    pub fn get_by_fingerprint(&self, fingerprint: &str) -> (r: Option<&PublicIdentity>)
        ensures
            r matches Some(id) ==> id.wf() && spec_hex_chars(id.signing_key@.take(8))
                == fingerprint@ && self.spec_agents().contains(*id),
            r is None ==> forall|i: int|
                0 <= i < self.spec_agents().len() ==> (!self.spec_agents()[i].wf()
                    || spec_hex_chars(#[trigger] self.spec_agents()[i].signing_key@.take(8))
                    != fingerprint@),
    {
        let mut i: usize = 0;
        while i < self.agents.len()
            invariant
                i <= self.agents@.len(),
                forall|j: int|
                    0 <= j < i ==> (!self.spec_agents()[j].wf() || spec_hex_chars(
                        #[trigger] self.spec_agents()[j].signing_key@.take(8),
                    ) != fingerprint@),
            decreases self.agents@.len() - i,
        {
            let candidate = &self.agents[i];
            if candidate.signing_key.len() == 32 && candidate.exchange_key.len() == 32 {
                let fp = candidate.fingerprint();
                if str_eq(fp.as_str(), fingerprint) {
                    proof {
                        assert(self.spec_agents()[i as int] == self.agents@[i as int]);
                    }
                    return Some(&self.agents[i]);
                }
            }
            i = i + 1;
        }
        None
    }

    /// All registered identities, in registration order.
    pub fn list(&self) -> (r: Vec<&PublicIdentity>)
        ensures
            r@.len() == self.spec_agents().len(),
            forall|i: int| 0 <= i < r@.len() ==> *r@[i] == self.spec_agents()[i],
    {
        let mut out: Vec<&PublicIdentity> = Vec::new();
        let mut i: usize = 0;
        while i < self.agents.len()
            invariant
                i <= self.agents@.len(),
                out@.len() == i,
                forall|j: int| 0 <= j < i ==> *out@[j] == self.agents@[j],
            decreases self.agents@.len() - i,
        {
            out.push(&self.agents[i]);
            i = i + 1;
        }
        out
    }

    /// Remove an identity by name and hand it back.
    pub fn remove(&mut self, name: &str) -> (r: Option<PublicIdentity>)
        requires
            old(self).wf(),
        ensures
            final(self).wf(),
            r == old(self).spec_get(name@),
            final(self).spec_get(name@) is None,
            forall|n: Seq<char>| n != name@ ==> final(self).spec_get(n) == old(self).spec_get(n),
    {
        let ghost orig = self.agents@;
        let mut i: usize = 0;
        while i < self.agents.len()
            invariant
                old(self).wf(),
                i <= self.agents@.len(),
                self.agents@ == orig,
                orig == old(self).spec_agents(),
                forall|j: int| 0 <= j < i ==> self.agents@[j].name@ != name@,
            decreases self.agents@.len() - i,
        {
            if str_eq(self.agents[i].name.as_str(), name) {
                proof {
                    lemma_lookup_found(orig, name@, i as int);
                }
                let removed = self.agents.remove(i);
                proof {
                    assert forall|n: Seq<char>| n != name@ implies spec_lookup(self.agents@, n)
                        == spec_lookup(orig, n) by {
                        lemma_lookup_remove(orig, i as int, n);
                    }
                    assert forall|a: int, b: int|
                        0 <= a < b < self.agents@.len() implies (
                    #[trigger] self.agents@[a].name@) != (#[trigger] self.agents@[b].name@) by {
                        let oa: int = if a < i {
                            a
                        } else {
                            a + 1
                        };
                        let ob: int = if b < i {
                            b
                        } else {
                            b + 1
                        };
                        assert(self.agents@[a] == orig[oa]);
                        assert(self.agents@[b] == orig[ob]);
                    }
                    assert forall|j: int| 0 <= j < self.agents@.len() implies self.agents@[j].name@
                        != name@ by {
                        let oj: int = if j < i {
                            j
                        } else {
                            j + 1
                        };
                        assert(self.agents@[j] == orig[oj]);
                        assert(orig[i as int].name@ == name@);
                    }
                    lemma_lookup_none(self.agents@, name@);
                }
                return Some(removed);
            }
            i = i + 1;
        }
        proof {
            lemma_lookup_none(self.agents@, name@);
        }
        None
    }
}

} // verus!
