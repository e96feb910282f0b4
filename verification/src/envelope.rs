//! The versioned wire envelope and the encrypted inner payload.
//!
//! An envelope is a textual record with fields `version` (a number),
//! `nonce`, `sender_key`, `ephemeral_key`, `ciphertext` and `signature`
//! (byte fields as lower-case hex). The inner payload is a record with
//! `content` (a string), `timestamp` (seconds since the Unix epoch) and
//! `metadata` (a string, or null outside group mode). The writer emits a
//! canonical field order; the parser accepts any order and the canonical
//! form is proved to round-trip exactly.

use vstd::prelude::*;

use crate::error::WaterscapeError;
use crate::wire;
use crate::wire::JsonValue;
use crate::wire::SpecJsonValue;

verus! {

/// The bytes of the key `version`.
pub open spec fn spec_key_version() -> Seq<u8> {
    seq![118u8, 101u8, 114u8, 115u8, 105u8, 111u8, 110u8]
}

/// The bytes of the key `nonce`.
pub open spec fn spec_key_nonce() -> Seq<u8> {
    seq![110u8, 111u8, 110u8, 99u8, 101u8]
}

/// The bytes of the key `sender_key`.
pub open spec fn spec_key_sender() -> Seq<u8> {
    seq![115u8, 101u8, 110u8, 100u8, 101u8, 114u8, 95u8, 107u8, 101u8, 121u8]
}

/// The bytes of the key `ephemeral_key`.
pub open spec fn spec_key_ephemeral() -> Seq<u8> {
    seq![101u8, 112u8, 104u8, 101u8, 109u8, 101u8, 114u8, 97u8, 108u8, 95u8, 107u8, 101u8, 121u8]
}

/// The bytes of the key `ciphertext`.
pub open spec fn spec_key_ciphertext() -> Seq<u8> {
    seq![99u8, 105u8, 112u8, 104u8, 101u8, 114u8, 116u8, 101u8, 120u8, 116u8]
}

/// The bytes of the key `signature`.
pub open spec fn spec_key_signature() -> Seq<u8> {
    seq![115u8, 105u8, 103u8, 110u8, 97u8, 116u8, 117u8, 114u8, 101u8]
}

/// The canonical member list of an envelope.
pub open spec fn spec_envelope_members(
    version: u8,
    nonce: Seq<u8>,
    sender_key: Seq<u8>,
    ephemeral_key: Seq<u8>,
    ciphertext: Seq<u8>,
    signature: Seq<u8>,
) -> Seq<(Seq<u8>, SpecJsonValue)> {
    seq![
        (spec_key_version(), SpecJsonValue::Num(version as u64)),
        (spec_key_nonce(), SpecJsonValue::Str(wire::spec_hex_bytes(nonce))),
        (spec_key_sender(), SpecJsonValue::Str(wire::spec_hex_bytes(sender_key))),
        (spec_key_ephemeral(), SpecJsonValue::Str(wire::spec_hex_bytes(ephemeral_key))),
        (spec_key_ciphertext(), SpecJsonValue::Str(wire::spec_hex_bytes(ciphertext))),
        (spec_key_signature(), SpecJsonValue::Str(wire::spec_hex_bytes(signature))),
    ]
}

/// The canonical serialized envelope.
pub open spec fn spec_envelope_bytes(
    version: u8,
    nonce: Seq<u8>,
    sender_key: Seq<u8>,
    ephemeral_key: Seq<u8>,
    ciphertext: Seq<u8>,
    signature: Seq<u8>,
) -> Seq<u8> {
    wire::spec_record_bytes(
        spec_envelope_members(version, nonce, sender_key, ephemeral_key, ciphertext, signature),
    )
}

/// Wire format for a Waterscape message.
pub struct WaterscapeMessage {
    pub version: u8,
    pub nonce: Vec<u8>,
    pub sender_key: Vec<u8>,
    pub ephemeral_key: Vec<u8>,
    pub ciphertext: Vec<u8>,
    pub signature: Vec<u8>,
}

/// The slot state while fields of an envelope record are gathered.
pub struct EnvSlots {
    pub version: Option<u64>,
    pub nonce: Option<Seq<u8>>,
    pub sender_key: Option<Seq<u8>>,
    pub ephemeral_key: Option<Seq<u8>>,
    pub ciphertext: Option<Seq<u8>>,
    pub signature: Option<Seq<u8>>,
}

/// The empty slot state.
pub open spec fn spec_env_slots_empty() -> EnvSlots {
    EnvSlots {
        version: None,
        nonce: None,
        sender_key: None,
        ephemeral_key: None,
        ciphertext: None,
        signature: None,
    }
}

/// Take one member into the slots: each known key fills its slot once,
/// with the right kind of value; an unknown key is ignored, as the
/// reference decoder ignores unknown fields.
pub open spec fn spec_env_fill_step(s: EnvSlots, k: Seq<u8>, v: SpecJsonValue) -> Option<EnvSlots> {
    if k == spec_key_version() {
        match v {
            SpecJsonValue::Num(n) => if s.version is None {
                Some(EnvSlots { version: Some(n), ..s })
            } else {
                None
            },
            _ => None,
        }
    } else if k == spec_key_nonce() {
        match v {
            SpecJsonValue::Str(b) => if s.nonce is None {
                Some(EnvSlots { nonce: Some(b), ..s })
            } else {
                None
            },
            _ => None,
        }
    } else if k == spec_key_sender() {
        match v {
            SpecJsonValue::Str(b) => if s.sender_key is None {
                Some(EnvSlots { sender_key: Some(b), ..s })
            } else {
                None
            },
            _ => None,
        }
    } else if k == spec_key_ephemeral() {
        match v {
            SpecJsonValue::Str(b) => if s.ephemeral_key is None {
                Some(EnvSlots { ephemeral_key: Some(b), ..s })
            } else {
                None
            },
            _ => None,
        }
    } else if k == spec_key_ciphertext() {
        match v {
            SpecJsonValue::Str(b) => if s.ciphertext is None {
                Some(EnvSlots { ciphertext: Some(b), ..s })
            } else {
                None
            },
            _ => None,
        }
    } else if k == spec_key_signature() {
        match v {
            SpecJsonValue::Str(b) => if s.signature is None {
                Some(EnvSlots { signature: Some(b), ..s })
            } else {
                None
            },
            _ => None,
        }
    } else {
        Some(s)
    }
}

/// Fold all members into the slots.
pub open spec fn spec_env_fill_fold(s: EnvSlots, members: Seq<(Seq<u8>, SpecJsonValue)>) -> Option<
    EnvSlots,
>
    decreases members.len(),
{
    if members.len() == 0 {
        Some(s)
    } else {
        match spec_env_fill_step(s, members[0].0, members[0].1) {
            None => None,
            Some(s2) => spec_env_fill_fold(s2, members.drop_first()),
        }
    }
}

/// The parsed fields of a well-formed envelope record.
pub struct EnvFields {
    pub version: u8,
    pub nonce: Seq<u8>,
    pub sender_key: Seq<u8>,
    pub ephemeral_key: Seq<u8>,
    pub ciphertext: Seq<u8>,
    pub signature: Seq<u8>,
}

/// What envelope-record interpretation yields: all six fields present
/// exactly once, version a byte, byte fields well-formed hex with the right
/// lengths.
pub open spec fn spec_fill_envelope(members: Seq<(Seq<u8>, SpecJsonValue)>) -> Option<EnvFields> {
    match spec_env_fill_fold(spec_env_slots_empty(), members) {
        None => None,
        Some(s) => match s.version {
            None => None,
            Some(v) => match s.nonce {
                None => None,
                Some(n) => match s.sender_key {
                    None => None,
                    Some(sk) => match s.ephemeral_key {
                        None => None,
                        Some(ek) => match s.ciphertext {
                            None => None,
                            Some(ct) => match s.signature {
                                None => None,
                                Some(sg) => if v <= 255 && wire::spec_is_hex(n)
                                    && wire::spec_unhex(n).len() == 12 && wire::spec_is_hex(sk)
                                    && wire::spec_unhex(sk).len() == 32 && wire::spec_is_hex(ek)
                                    && wire::spec_unhex(ek).len() == 32 && wire::spec_is_hex(ct)
                                    && wire::spec_is_hex(sg) {
                                    Some(
                                        EnvFields {
                                            version: v as u8,
                                            nonce: wire::spec_unhex(n),
                                            sender_key: wire::spec_unhex(sk),
                                            ephemeral_key: wire::spec_unhex(ek),
                                            ciphertext: wire::spec_unhex(ct),
                                            signature: wire::spec_unhex(sg),
                                        },
                                    )
                                } else {
                                    None
                                },
                            },
                        },
                    },
                },
            },
        },
    }
}

/// What parsing a whole envelope yields: the record parsed over all of the
/// input, then interpreted field by field.
pub open spec fn spec_envelope_fields(bytes: Seq<u8>) -> Option<EnvFields> {
    match wire::spec_parse_record(bytes) {
        None => None,
        Some((members, end)) => if end == bytes.len() {
            spec_fill_envelope(members)
        } else {
            None
        },
    }
}

/// The six envelope keys are pairwise distinct.
proof fn lemma_env_keys_distinct()
    ensures
        spec_key_version() != spec_key_nonce(),
        spec_key_version() != spec_key_sender(),
        spec_key_version() != spec_key_ephemeral(),
        spec_key_version() != spec_key_ciphertext(),
        spec_key_version() != spec_key_signature(),
        spec_key_nonce() != spec_key_sender(),
        spec_key_nonce() != spec_key_ephemeral(),
        spec_key_nonce() != spec_key_ciphertext(),
        spec_key_nonce() != spec_key_signature(),
        spec_key_sender() != spec_key_ephemeral(),
        spec_key_sender() != spec_key_ciphertext(),
        spec_key_sender() != spec_key_signature(),
        spec_key_ephemeral() != spec_key_ciphertext(),
        spec_key_ephemeral() != spec_key_signature(),
        spec_key_ciphertext() != spec_key_signature(),
{
    assert(spec_key_sender()[0] == 115 && spec_key_ciphertext()[0] == 99);
}

/// Interpreting the canonical member list of an envelope restores its
/// fields.
proof fn lemma_fill_envelope_canonical(
    version: u8,
    nonce: Seq<u8>,
    sender_key: Seq<u8>,
    ephemeral_key: Seq<u8>,
    ciphertext: Seq<u8>,
    signature: Seq<u8>,
)
    requires
        nonce.len() == 12,
        sender_key.len() == 32,
        ephemeral_key.len() == 32,
    ensures
        spec_fill_envelope(
            spec_envelope_members(
                version,
                nonce,
                sender_key,
                ephemeral_key,
                ciphertext,
                signature,
            ),
        ) == Some(
            EnvFields { version, nonce, sender_key, ephemeral_key, ciphertext, signature },
        ),
{
    lemma_env_keys_distinct();
    wire::lemma_hex_round_trip(nonce);
    wire::lemma_hex_round_trip(sender_key);
    wire::lemma_hex_round_trip(ephemeral_key);
    wire::lemma_hex_round_trip(ciphertext);
    wire::lemma_hex_round_trip(signature);
    reveal_with_fuel(spec_env_fill_fold, 8);
    let ms = spec_envelope_members(
        version,
        nonce,
        sender_key,
        ephemeral_key,
        ciphertext,
        signature,
    );
    assert(ms.drop_first() =~= ms.subrange(1, 6));
    assert(ms.subrange(1, 6).drop_first() =~= ms.subrange(2, 6));
    assert(ms.subrange(2, 6).drop_first() =~= ms.subrange(3, 6));
    assert(ms.subrange(3, 6).drop_first() =~= ms.subrange(4, 6));
    assert(ms.subrange(4, 6).drop_first() =~= ms.subrange(5, 6));
    assert(ms.subrange(5, 6).drop_first() =~= Seq::<(Seq<u8>, SpecJsonValue)>::empty());
}

/// The key `version` as bytes.
fn key_version() -> (r: Vec<u8>)
    ensures
        r@ == spec_key_version(),
{
    let mut k: Vec<u8> = Vec::new();
    k.push(118);
    k.push(101);
    k.push(114);
    k.push(115);
    k.push(105);
    k.push(111);
    k.push(110);
    proof {
        assert(k@ =~= spec_key_version());
    }
    k
}

/// The key `nonce` as bytes.
fn key_nonce() -> (r: Vec<u8>)
    ensures
        r@ == spec_key_nonce(),
{
    let mut k: Vec<u8> = Vec::new();
    k.push(110);
    k.push(111);
    k.push(110);
    k.push(99);
    k.push(101);
    proof {
        assert(k@ =~= spec_key_nonce());
    }
    k
}

/// The key `sender_key` as bytes.
fn key_sender() -> (r: Vec<u8>)
    ensures
        r@ == spec_key_sender(),
{
    let mut k: Vec<u8> = Vec::new();
    k.push(115);
    k.push(101);
    k.push(110);
    k.push(100);
    k.push(101);
    k.push(114);
    k.push(95);
    k.push(107);
    k.push(101);
    k.push(121);
    proof {
        assert(k@ =~= spec_key_sender());
    }
    k
}

/// The key `ephemeral_key` as bytes.
fn key_ephemeral() -> (r: Vec<u8>)
    ensures
        r@ == spec_key_ephemeral(),
{
    let mut k: Vec<u8> = Vec::new();
    k.push(101);
    k.push(112);
    k.push(104);
    k.push(101);
    k.push(109);
    k.push(101);
    k.push(114);
    k.push(97);
    k.push(108);
    k.push(95);
    k.push(107);
    k.push(101);
    k.push(121);
    proof {
        assert(k@ =~= spec_key_ephemeral());
    }
    k
}

/// The key `ciphertext` as bytes.
fn key_ciphertext() -> (r: Vec<u8>)
    ensures
        r@ == spec_key_ciphertext(),
{
    let mut k: Vec<u8> = Vec::new();
    k.push(99);
    k.push(105);
    k.push(112);
    k.push(104);
    k.push(101);
    k.push(114);
    k.push(116);
    k.push(101);
    k.push(120);
    k.push(116);
    proof {
        assert(k@ =~= spec_key_ciphertext());
    }
    k
}

/// The key `signature` as bytes.
fn key_signature() -> (r: Vec<u8>)
    ensures
        r@ == spec_key_signature(),
{
    let mut k: Vec<u8> = Vec::new();
    k.push(115);
    k.push(105);
    k.push(103);
    k.push(110);
    k.push(97);
    k.push(116);
    k.push(117);
    k.push(114);
    k.push(101);
    proof {
        assert(k@ =~= spec_key_signature());
    }
    k
}

impl WaterscapeMessage {
    /// Well-formed: the fixed-size fields have their wire lengths.
    pub open spec fn wf(&self) -> bool {
        &&& self.nonce@.len() == 12
        &&& self.sender_key@.len() == 32
        &&& self.ephemeral_key@.len() == 32
    }

    /// Serialize to the canonical envelope record.
    pub fn to_bytes(&self) -> (r: Result<Vec<u8>, WaterscapeError>)
        ensures
            r matches Ok(b) ==> b@ == spec_envelope_bytes(
                self.version,
                self.nonce@,
                self.sender_key@,
                self.ephemeral_key@,
                self.ciphertext@,
                self.signature@,
            ),
            r is Ok,
    {
        let mut out: Vec<u8> = Vec::new();
        out.push(123);
        wire::push_quoted(&mut out, key_version().as_slice());
        out.push(58);
        wire::push_dec(&mut out, self.version as u64);
        out.push(44);
        wire::push_quoted(&mut out, key_nonce().as_slice());
        out.push(58);
        push_hex_string(&mut out, self.nonce.as_slice());
        out.push(44);
        wire::push_quoted(&mut out, key_sender().as_slice());
        out.push(58);
        push_hex_string(&mut out, self.sender_key.as_slice());
        out.push(44);
        wire::push_quoted(&mut out, key_ephemeral().as_slice());
        out.push(58);
        push_hex_string(&mut out, self.ephemeral_key.as_slice());
        out.push(44);
        wire::push_quoted(&mut out, key_ciphertext().as_slice());
        out.push(58);
        push_hex_string(&mut out, self.ciphertext.as_slice());
        out.push(44);
        wire::push_quoted(&mut out, key_signature().as_slice());
        out.push(58);
        push_hex_string(&mut out, self.signature.as_slice());
        out.push(125);
        proof {
            lemma_envelope_bytes_shape(
                self.version,
                self.nonce@,
                self.sender_key@,
                self.ephemeral_key@,
                self.ciphertext@,
                self.signature@,
            );
            assert(out@ =~= spec_envelope_bytes(
                self.version,
                self.nonce@,
                self.sender_key@,
                self.ephemeral_key@,
                self.ciphertext@,
                self.signature@,
            ));
        }
        Ok(out)
    }

    /// Parse an envelope record: fields in any order, each exactly once.
    /// The canonical serialization of any envelope parses back to it.
    pub fn from_bytes(bytes: &[u8]) -> (r: Result<Self, WaterscapeError>)
        ensures
            r matches Ok(m) ==> m.wf(),
            r matches Err(e) ==> e matches WaterscapeError::Serialization(_),
            (r is Ok) == (spec_envelope_fields(bytes@) is Some),
            r matches Ok(m) ==> (spec_envelope_fields(bytes@) matches Some(f) && m.version
                == f.version && m.nonce@ == f.nonce && m.sender_key@ == f.sender_key
                && m.ephemeral_key@ == f.ephemeral_key && m.ciphertext@ == f.ciphertext
                && m.signature@ == f.signature),
            forall|v: u8, n: Seq<u8>, sk: Seq<u8>, ek: Seq<u8>, ct: Seq<u8>, sg: Seq<u8>|
                bytes@ == #[trigger] spec_envelope_bytes(v, n, sk, ek, ct, sg) && n.len() == 12
                    && sk.len() == 32 && ek.len() == 32 ==> (r matches Ok(m) && m.version == v
                    && m.nonce@ == n && m.sender_key@ == sk && m.ephemeral_key@ == ek
                    && m.ciphertext@ == ct && m.signature@ == sg),
    {
        let parsed = match wire::parse_record(bytes) {
            Some(p) => p,
            None => {
                proof {
                    lemma_from_bytes_canonical(bytes@);
                }
                return Err(
                    WaterscapeError::Serialization("invalid envelope record".to_string()),
                );
            },
        };
        let (members, end) = parsed;
        if end != bytes.len() {
            proof {
                lemma_from_bytes_canonical(bytes@);
            }
            return Err(WaterscapeError::Serialization("trailing bytes".to_string()));
        }
        match fill_envelope(&members) {
            Some(m) => {
                proof {
                    lemma_from_bytes_canonical(bytes@);
                }
                Ok(m)
            },
            None => {
                proof {
                    lemma_from_bytes_canonical(bytes@);
                }
                Err(WaterscapeError::Serialization("malformed envelope fields".to_string()))
            },
        }
    }
}

/// On canonical input, record parsing and slot filling cannot miss: relate
/// any canonical tuple to the parse pipeline's spec values.
proof fn lemma_from_bytes_canonical(bytes: Seq<u8>)
    ensures
        forall|v: u8, n: Seq<u8>, sk: Seq<u8>, ek: Seq<u8>, ct: Seq<u8>, sg: Seq<u8>|
            bytes == #[trigger] spec_envelope_bytes(v, n, sk, ek, ct, sg) && n.len() == 12
                && sk.len() == 32 && ek.len() == 32 ==> (wire::spec_parse_record(bytes) == Some(
                (spec_envelope_members(v, n, sk, ek, ct, sg), bytes.len() as int),
            ) && spec_fill_envelope(spec_envelope_members(v, n, sk, ek, ct, sg)) == Some(
                EnvFields {
                    version: v,
                    nonce: n,
                    sender_key: sk,
                    ephemeral_key: ek,
                    ciphertext: ct,
                    signature: sg,
                },
            )),
{
    assert forall|v: u8, n: Seq<u8>, sk: Seq<u8>, ek: Seq<u8>, ct: Seq<u8>, sg: Seq<u8>|
        bytes == #[trigger] spec_envelope_bytes(v, n, sk, ek, ct, sg) && n.len() == 12 && sk.len()
            == 32 && ek.len() == 32 implies (wire::spec_parse_record(bytes) == Some(
        (spec_envelope_members(v, n, sk, ek, ct, sg), bytes.len() as int),
    ) && spec_fill_envelope(spec_envelope_members(v, n, sk, ek, ct, sg)) == Some(
        EnvFields {
            version: v,
            nonce: n,
            sender_key: sk,
            ephemeral_key: ek,
            ciphertext: ct,
            signature: sg,
        },
    )) by {
        wire::lemma_record_round_trip(spec_envelope_members(v, n, sk, ek, ct, sg), bytes);
        lemma_fill_envelope_canonical(v, n, sk, ek, ct, sg);
    }
}

/// Append a quoted hex string: because hex digits need no escaping, the
/// quoted form is quote, digits, quote.
fn push_hex_string(out: &mut Vec<u8>, bytes: &[u8])
    ensures
        final(out)@ == old(out)@ + wire::spec_quoted(wire::spec_hex_bytes(bytes@)),
{
    let mut hex: Vec<u8> = Vec::new();
    wire::push_hex(&mut hex, bytes);
    wire::push_quoted(out, hex.as_slice());
}

/// The canonical envelope bytes laid out member by member.
#[verifier::rlimit(100)]
proof fn lemma_envelope_bytes_shape(
    version: u8,
    nonce: Seq<u8>,
    sender_key: Seq<u8>,
    ephemeral_key: Seq<u8>,
    ciphertext: Seq<u8>,
    signature: Seq<u8>,
)
    ensures
        spec_envelope_bytes(version, nonce, sender_key, ephemeral_key, ciphertext, signature)
            == seq![123u8] + wire::spec_quoted(spec_key_version()) + seq![58u8]
            + wire::spec_dec_digits(version as u64) + seq![44u8] + wire::spec_quoted(
            spec_key_nonce(),
        ) + seq![58u8] + wire::spec_quoted(wire::spec_hex_bytes(nonce)) + seq![44u8]
            + wire::spec_quoted(spec_key_sender()) + seq![58u8] + wire::spec_quoted(
            wire::spec_hex_bytes(sender_key),
        ) + seq![44u8] + wire::spec_quoted(spec_key_ephemeral()) + seq![58u8] + wire::spec_quoted(
            wire::spec_hex_bytes(ephemeral_key),
        ) + seq![44u8] + wire::spec_quoted(spec_key_ciphertext()) + seq![58u8] + wire::spec_quoted(
            wire::spec_hex_bytes(ciphertext),
        ) + seq![44u8] + wire::spec_quoted(spec_key_signature()) + seq![58u8] + wire::spec_quoted(
            wire::spec_hex_bytes(signature),
        ) + seq![125u8],
{
    let ms = spec_envelope_members(
        version,
        nonce,
        sender_key,
        ephemeral_key,
        ciphertext,
        signature,
    );
    reveal_with_fuel(wire::spec_members_bytes, 8);
    assert(ms.drop_first() =~= ms.subrange(1, 6));
    assert(ms.subrange(1, 6).drop_first() =~= ms.subrange(2, 6));
    assert(ms.subrange(2, 6).drop_first() =~= ms.subrange(3, 6));
    assert(ms.subrange(3, 6).drop_first() =~= ms.subrange(4, 6));
    assert(ms.subrange(4, 6).drop_first() =~= ms.subrange(5, 6));
    assert(spec_envelope_bytes(
        version,
        nonce,
        sender_key,
        ephemeral_key,
        ciphertext,
        signature,
    ) =~= seq![123u8] + wire::spec_quoted(spec_key_version()) + seq![58u8]
        + wire::spec_dec_digits(version as u64) + seq![44u8] + wire::spec_quoted(spec_key_nonce())
        + seq![58u8] + wire::spec_quoted(wire::spec_hex_bytes(nonce)) + seq![44u8]
        + wire::spec_quoted(spec_key_sender()) + seq![58u8] + wire::spec_quoted(
        wire::spec_hex_bytes(sender_key),
    ) + seq![44u8] + wire::spec_quoted(spec_key_ephemeral()) + seq![58u8] + wire::spec_quoted(
        wire::spec_hex_bytes(ephemeral_key),
    ) + seq![44u8] + wire::spec_quoted(spec_key_ciphertext()) + seq![58u8] + wire::spec_quoted(
        wire::spec_hex_bytes(ciphertext),
    ) + seq![44u8] + wire::spec_quoted(spec_key_signature()) + seq![58u8] + wire::spec_quoted(
        wire::spec_hex_bytes(signature),
    ) + seq![125u8]);
}

/// Gather the members of an envelope record into a message: every field
/// exactly once, hex fields decoded, fixed lengths enforced.
fn fill_envelope(members: &Vec<(Vec<u8>, JsonValue)>) -> (r: Option<WaterscapeMessage>)
    ensures
        r matches Some(m) ==> (spec_fill_envelope(wire::members_view(members@)) matches Some(f)
            && m.version == f.version && m.nonce@ == f.nonce && m.sender_key@ == f.sender_key
            && m.ephemeral_key@ == f.ephemeral_key && m.ciphertext@ == f.ciphertext
            && m.signature@ == f.signature && m.wf()),
        r is None ==> spec_fill_envelope(wire::members_view(members@)) is None,
{
    let kv = key_version();
    let kn = key_nonce();
    let ks = key_sender();
    let ke = key_ephemeral();
    let kc = key_ciphertext();
    let kg = key_signature();
    let mut version: Option<u64> = None;
    let mut nonce: Option<Vec<u8>> = None;
    let mut sender_key: Option<Vec<u8>> = None;
    let mut ephemeral_key: Option<Vec<u8>> = None;
    let mut ciphertext: Option<Vec<u8>> = None;
    let mut signature: Option<Vec<u8>> = None;
    let ghost all = wire::members_view(members@);
    let mut i: usize = 0;
    proof {
        assert(all.skip(0) =~= all);
    }
    while i < members.len()
        invariant
            i <= members@.len(),
            all == wire::members_view(members@),
            kv@ == spec_key_version(),
            kn@ == spec_key_nonce(),
            ks@ == spec_key_sender(),
            ke@ == spec_key_ephemeral(),
            kc@ == spec_key_ciphertext(),
            kg@ == spec_key_signature(),
            spec_env_fill_fold(spec_env_slots_empty(), all) == spec_env_fill_fold(
                EnvSlots {
                    version: match version {
                        Some(x) => Some(x),
                        None => None,
                    },
                    nonce: match &nonce {
                        Some(b) => Some(b@),
                        None => None,
                    },
                    sender_key: match &sender_key {
                        Some(b) => Some(b@),
                        None => None,
                    },
                    ephemeral_key: match &ephemeral_key {
                        Some(b) => Some(b@),
                        None => None,
                    },
                    ciphertext: match &ciphertext {
                        Some(b) => Some(b@),
                        None => None,
                    },
                    signature: match &signature {
                        Some(b) => Some(b@),
                        None => None,
                    },
                },
                all.skip(i as int),
            ),
        decreases members@.len() - i,
    {
        let ghost slots_before = EnvSlots {
            version: match version {
                Some(x) => Some(x),
                None => None,
            },
            nonce: match &nonce {
                Some(b) => Some(b@),
                None => None,
            },
            sender_key: match &sender_key {
                Some(b) => Some(b@),
                None => None,
            },
            ephemeral_key: match &ephemeral_key {
                Some(b) => Some(b@),
                None => None,
            },
            ciphertext: match &ciphertext {
                Some(b) => Some(b@),
                None => None,
            },
            signature: match &signature {
                Some(b) => Some(b@),
                None => None,
            },
        };
        proof {
            assert(all.skip(i as int)[0] == all[i as int]);
            assert(all.skip(i as int).drop_first() =~= all.skip(i as int + 1));
        }
        let key = &members[i].0;
        let val = &members[i].1;
        if wire::bytes_eq(key.as_slice(), kv.as_slice()) {
            match val {
                JsonValue::Num(x) => {
                    if version.is_none() {
                        version = Some(*x);
                    } else {
                        return None;
                    }
                },
                _ => {
                    return None;
                },
            }
        } else if wire::bytes_eq(key.as_slice(), kn.as_slice()) {
            match val {
                JsonValue::Str(b) => {
                    if nonce.is_none() {
                        nonce = Some(b.clone());
                    } else {
                        return None;
                    }
                },
                _ => {
                    return None;
                },
            }
        } else if wire::bytes_eq(key.as_slice(), ks.as_slice()) {
            match val {
                JsonValue::Str(b) => {
                    if sender_key.is_none() {
                        sender_key = Some(b.clone());
                    } else {
                        return None;
                    }
                },
                _ => {
                    return None;
                },
            }
        } else if wire::bytes_eq(key.as_slice(), ke.as_slice()) {
            match val {
                JsonValue::Str(b) => {
                    if ephemeral_key.is_none() {
                        ephemeral_key = Some(b.clone());
                    } else {
                        return None;
                    }
                },
                _ => {
                    return None;
                },
            }
        } else if wire::bytes_eq(key.as_slice(), kc.as_slice()) {
            match val {
                JsonValue::Str(b) => {
                    if ciphertext.is_none() {
                        ciphertext = Some(b.clone());
                    } else {
                        return None;
                    }
                },
                _ => {
                    return None;
                },
            }
        } else if wire::bytes_eq(key.as_slice(), kg.as_slice()) {
            match val {
                JsonValue::Str(b) => {
                    if signature.is_none() {
                        signature = Some(b.clone());
                    } else {
                        return None;
                    }
                },
                _ => {
                    return None;
                },
            }
        } else {
        }
        i = i + 1;
    }
    proof {
        assert(all.skip(all.len() as int) =~= Seq::<(Seq<u8>, SpecJsonValue)>::empty());
    }
    let version = match version {
        Some(v) => v,
        None => {
            return None;
        },
    };
    let nonce_raw = match nonce {
        Some(b) => b,
        None => {
            return None;
        },
    };
    let sender_raw = match sender_key {
        Some(b) => b,
        None => {
            return None;
        },
    };
    let ephemeral_raw = match ephemeral_key {
        Some(b) => b,
        None => {
            return None;
        },
    };
    let ciphertext_raw = match ciphertext {
        Some(b) => b,
        None => {
            return None;
        },
    };
    let signature_raw = match signature {
        Some(b) => b,
        None => {
            return None;
        },
    };
    if version > 255 {
        return None;
    }
    let nonce_bytes = match wire::hex_decode(nonce_raw.as_slice()) {
        Some(b) => b,
        None => {
            return None;
        },
    };
    if nonce_bytes.len() != 12 {
        return None;
    }
    let sender_bytes = match wire::hex_decode(sender_raw.as_slice()) {
        Some(b) => b,
        None => {
            return None;
        },
    };
    if sender_bytes.len() != 32 {
        return None;
    }
    let ephemeral_bytes = match wire::hex_decode(ephemeral_raw.as_slice()) {
        Some(b) => b,
        None => {
            return None;
        },
    };
    if ephemeral_bytes.len() != 32 {
        return None;
    }
    let ciphertext_bytes = match wire::hex_decode(ciphertext_raw.as_slice()) {
        Some(b) => b,
        None => {
            return None;
        },
    };
    let signature_bytes = match wire::hex_decode(signature_raw.as_slice()) {
        Some(b) => b,
        None => {
            return None;
        },
    };
    Some(
        WaterscapeMessage {
            version: version as u8,
            nonce: nonce_bytes,
            sender_key: sender_bytes,
            ephemeral_key: ephemeral_bytes,
            ciphertext: ciphertext_bytes,
            signature: signature_bytes,
        },
    )
}


/// The bytes of the key `content`.
pub open spec fn spec_key_content() -> Seq<u8> {
    seq![99u8, 111u8, 110u8, 116u8, 101u8, 110u8, 116u8]
}

/// The bytes of the key `timestamp`.
pub open spec fn spec_key_timestamp() -> Seq<u8> {
    seq![116u8, 105u8, 109u8, 101u8, 115u8, 116u8, 97u8, 109u8, 112u8]
}

/// The bytes of the key `metadata`.
pub open spec fn spec_key_metadata() -> Seq<u8> {
    seq![109u8, 101u8, 116u8, 97u8, 100u8, 97u8, 116u8, 97u8]
}

/// The canonical member list of an inner payload.
pub open spec fn spec_payload_members(
    content: Seq<char>,
    timestamp: u64,
    metadata: Option<Seq<char>>,
) -> Seq<(Seq<u8>, SpecJsonValue)> {
    seq![
        (spec_key_content(), SpecJsonValue::Str(vstd::utf8::encode_utf8(content))),
        (spec_key_timestamp(), SpecJsonValue::Num(timestamp)),
        (
            spec_key_metadata(),
            match metadata {
                Some(m) => SpecJsonValue::Str(vstd::utf8::encode_utf8(m)),
                None => SpecJsonValue::Null,
            },
        ),
    ]
}

/// The canonical serialized inner payload.
pub open spec fn spec_payload_bytes(
    content: Seq<char>,
    timestamp: u64,
    metadata: Option<Seq<char>>,
) -> Seq<u8> {
    wire::spec_record_bytes(spec_payload_members(content, timestamp, metadata))
}

/// The encrypted inner payload of a message.
pub struct EncryptedPayload {
    pub content: String,
    pub timestamp: u64,
    pub metadata: Option<String>,
}

/// The spec-level view of an optional string.
pub open spec fn opt_string_view(m: Option<String>) -> Option<Seq<char>> {
    match m {
        Some(s) => Some(s@),
        None => None,
    }
}

/// The slot state while fields of a payload record are gathered.
pub struct PayloadSlots {
    pub content: Option<Seq<u8>>,
    pub timestamp: Option<u64>,
    pub metadata: Option<Option<Seq<u8>>>,
}

/// The empty payload slot state.
pub open spec fn spec_payload_slots_empty() -> PayloadSlots {
    PayloadSlots { content: None, timestamp: None, metadata: None }
}

/// Take one member into the payload slots; an unknown key is ignored.
pub open spec fn spec_payload_fill_step(s: PayloadSlots, k: Seq<u8>, v: SpecJsonValue) -> Option<
    PayloadSlots,
> {
    if k == spec_key_content() {
        match v {
            SpecJsonValue::Str(b) => if s.content is None {
                Some(PayloadSlots { content: Some(b), ..s })
            } else {
                None
            },
            _ => None,
        }
    } else if k == spec_key_timestamp() {
        match v {
            SpecJsonValue::Num(n) => if s.timestamp is None {
                Some(PayloadSlots { timestamp: Some(n), ..s })
            } else {
                None
            },
            _ => None,
        }
    } else if k == spec_key_metadata() {
        if s.metadata is None {
            match v {
                SpecJsonValue::Str(b) => Some(PayloadSlots { metadata: Some(Some(b)), ..s }),
                SpecJsonValue::Null => Some(PayloadSlots { metadata: Some(None), ..s }),
                _ => None,
            }
        } else {
            None
        }
    } else {
        Some(s)
    }
}

/// Fold all members into the payload slots.
pub open spec fn spec_payload_fill_fold(
    s: PayloadSlots,
    members: Seq<(Seq<u8>, SpecJsonValue)>,
) -> Option<PayloadSlots>
    decreases members.len(),
{
    if members.len() == 0 {
        Some(s)
    } else {
        match spec_payload_fill_step(s, members[0].0, members[0].1) {
            None => None,
            Some(s2) => spec_payload_fill_fold(s2, members.drop_first()),
        }
    }
}

/// The parsed fields of a well-formed payload record, with strings still as
/// UTF-8 bytes.
pub struct PayloadFields {
    pub content: Seq<u8>,
    pub timestamp: u64,
    pub metadata: Option<Seq<u8>>,
}

/// What payload-record interpretation yields: all three fields present
/// exactly once.
pub open spec fn spec_fill_payload(members: Seq<(Seq<u8>, SpecJsonValue)>) -> Option<
    PayloadFields,
> {
    match spec_payload_fill_fold(spec_payload_slots_empty(), members) {
        None => None,
        Some(s) => match s.content {
            None => None,
            Some(c) => match s.timestamp {
                None => None,
                Some(t) => match s.metadata {
                    None => None,
                    Some(m) => Some(PayloadFields { content: c, timestamp: t, metadata: m }),
                },
            },
        },
    }
}

/// What parsing a whole payload record yields, with strings still as raw
/// UTF-8 bytes.
pub open spec fn spec_payload_fields_raw(bytes: Seq<u8>) -> Option<PayloadFields> {
    match wire::spec_parse_record(bytes) {
        None => None,
        Some((members, end)) => if end == bytes.len() {
            spec_fill_payload(members)
        } else {
            None
        },
    }
}

/// The content characters of a well-formed payload record whose strings are
/// valid UTF-8.
pub open spec fn spec_payload_content(bytes: Seq<u8>) -> Option<Seq<char>> {
    match spec_payload_fields_raw(bytes) {
        None => None,
        Some(f) => if vstd::utf8::valid_utf8(f.content) && (match f.metadata {
            Some(m) => vstd::utf8::valid_utf8(m),
            None => true,
        }) {
            Some(vstd::utf8::decode_utf8(f.content))
        } else {
            None
        },
    }
}

/// The three payload keys are pairwise distinct.
proof fn lemma_payload_keys_distinct()
    ensures
        spec_key_content() != spec_key_timestamp(),
        spec_key_content() != spec_key_metadata(),
        spec_key_timestamp() != spec_key_metadata(),
{
}

/// Interpreting the canonical member list of a payload restores its fields.
proof fn lemma_fill_payload_canonical(
    content: Seq<char>,
    timestamp: u64,
    metadata: Option<Seq<char>>,
)
    ensures
        spec_fill_payload(spec_payload_members(content, timestamp, metadata)) == Some(
            PayloadFields {
                content: vstd::utf8::encode_utf8(content),
                timestamp,
                metadata: match metadata {
                    Some(m) => Some(vstd::utf8::encode_utf8(m)),
                    None => None,
                },
            },
        ),
{
    lemma_payload_keys_distinct();
    reveal_with_fuel(spec_payload_fill_fold, 5);
    let ms = spec_payload_members(content, timestamp, metadata);
    assert(ms.drop_first() =~= ms.subrange(1, 3));
    assert(ms.subrange(1, 3).drop_first() =~= ms.subrange(2, 3));
    assert(ms.subrange(2, 3).drop_first() =~= Seq::<(Seq<u8>, SpecJsonValue)>::empty());
}

/// The key `content` as bytes.
fn key_content() -> (r: Vec<u8>)
    ensures
        r@ == spec_key_content(),
{
    let mut k: Vec<u8> = Vec::new();
    k.push(99);
    k.push(111);
    k.push(110);
    k.push(116);
    k.push(101);
    k.push(110);
    k.push(116);
    proof {
        assert(k@ =~= spec_key_content());
    }
    k
}

/// The key `timestamp` as bytes.
fn key_timestamp() -> (r: Vec<u8>)
    ensures
        r@ == spec_key_timestamp(),
{
    let mut k: Vec<u8> = Vec::new();
    k.push(116);
    k.push(105);
    k.push(109);
    k.push(101);
    k.push(115);
    k.push(116);
    k.push(97);
    k.push(109);
    k.push(112);
    proof {
        assert(k@ =~= spec_key_timestamp());
    }
    k
}

/// The key `metadata` as bytes.
fn key_metadata() -> (r: Vec<u8>)
    ensures
        r@ == spec_key_metadata(),
{
    let mut k: Vec<u8> = Vec::new();
    k.push(109);
    k.push(101);
    k.push(116);
    k.push(97);
    k.push(100);
    k.push(97);
    k.push(116);
    k.push(97);
    proof {
        assert(k@ =~= spec_key_metadata());
    }
    k
}

/// The canonical payload bytes laid out member by member.
#[verifier::rlimit(100)]
proof fn lemma_payload_bytes_shape(
    content: Seq<char>,
    timestamp: u64,
    metadata: Option<Seq<char>>,
)
    ensures
        spec_payload_bytes(content, timestamp, metadata) == seq![123u8] + wire::spec_quoted(
            spec_key_content(),
        ) + seq![58u8] + wire::spec_quoted(vstd::utf8::encode_utf8(content)) + seq![44u8]
            + wire::spec_quoted(spec_key_timestamp()) + seq![58u8] + wire::spec_dec_digits(
            timestamp,
        ) + seq![44u8] + wire::spec_quoted(spec_key_metadata()) + seq![58u8]
            + wire::spec_value_bytes(
            match metadata {
                Some(m) => SpecJsonValue::Str(vstd::utf8::encode_utf8(m)),
                None => SpecJsonValue::Null,
            },
        ) + seq![125u8],
{
    let ms = spec_payload_members(content, timestamp, metadata);
    reveal_with_fuel(wire::spec_members_bytes, 5);
    assert(ms.drop_first() =~= ms.subrange(1, 3));
    assert(ms.subrange(1, 3).drop_first() =~= ms.subrange(2, 3));
    assert(spec_payload_bytes(content, timestamp, metadata) =~= seq![123u8] + wire::spec_quoted(
        spec_key_content(),
    ) + seq![58u8] + wire::spec_quoted(vstd::utf8::encode_utf8(content)) + seq![44u8]
        + wire::spec_quoted(spec_key_timestamp()) + seq![58u8] + wire::spec_dec_digits(timestamp)
        + seq![44u8] + wire::spec_quoted(spec_key_metadata()) + seq![58u8]
        + wire::spec_value_bytes(
        match metadata {
            Some(m) => SpecJsonValue::Str(vstd::utf8::encode_utf8(m)),
            None => SpecJsonValue::Null,
        },
    ) + seq![125u8]);
}

/// The length of an optional string.
pub open spec fn spec_opt_len(m: Option<Seq<char>>) -> int {
    match m {
        Some(s) => s.len() as int,
        None => 0,
    }
}

proof fn lemma_encode_utf8_len(c: Seq<char>)
    ensures
        vstd::utf8::encode_utf8(c).len() <= 4 * c.len(),
    decreases c.len(),
{
    if c.len() > 0 {
        lemma_encode_utf8_len(c.drop_first());
        assert(vstd::utf8::encode_scalar(c[0] as u32).len() <= 4);
    }
}

/// The canonical payload grows linearly with its content: UTF-8 spends at
/// most four bytes per character and escaping at most six bytes per byte.
pub proof fn lemma_payload_bytes_len(
    content: Seq<char>,
    timestamp: u64,
    metadata: Option<Seq<char>>,
)
    ensures
        spec_payload_bytes(content, timestamp, metadata).len() <= 24 * content.len() + 24
            * spec_opt_len(metadata) + 200,
{
    lemma_payload_bytes_shape(content, timestamp, metadata);
    lemma_encode_utf8_len(content);
    wire::lemma_escape_bytes_len(vstd::utf8::encode_utf8(content));
    wire::lemma_escape_bytes_len(spec_key_content());
    wire::lemma_escape_bytes_len(spec_key_timestamp());
    wire::lemma_escape_bytes_len(spec_key_metadata());
    wire::lemma_dec_digits_len(timestamp);
    match metadata {
        Some(m) => {
            lemma_encode_utf8_len(m);
            wire::lemma_escape_bytes_len(vstd::utf8::encode_utf8(m));
        },
        None => {},
    }
}

/// Serialize an inner payload to its canonical record.
pub(crate) fn serialize_payload(content: &str, timestamp: u64, metadata: &Option<String>) -> (r:
    Vec<u8>)
    ensures
        r@ == spec_payload_bytes(content@, timestamp, opt_string_view(*metadata)),
{
    let mut out: Vec<u8> = Vec::new();
    out.push(123);
    wire::push_quoted(&mut out, key_content().as_slice());
    out.push(58);
    let content_bytes = content.as_bytes_vec();
    wire::push_quoted(&mut out, content_bytes.as_slice());
    out.push(44);
    wire::push_quoted(&mut out, key_timestamp().as_slice());
    out.push(58);
    wire::push_dec(&mut out, timestamp);
    out.push(44);
    wire::push_quoted(&mut out, key_metadata().as_slice());
    out.push(58);
    match metadata {
        Some(m) => {
            let meta_bytes = m.as_str().as_bytes_vec();
            wire::push_quoted(&mut out, meta_bytes.as_slice());
        },
        None => {
            out.push(110);
            out.push(117);
            out.push(108);
            out.push(108);
        },
    }
    out.push(125);
    proof {
        lemma_payload_bytes_shape(content@, timestamp, opt_string_view(*metadata));
        assert(out@ =~= spec_payload_bytes(content@, timestamp, opt_string_view(*metadata)));
    }
    out
}

/// On canonical input, payload parsing and filling cannot miss.
proof fn lemma_parse_payload_canonical(bytes: Seq<u8>)
    ensures
        forall|c: Seq<char>, ts: u64, md: Option<Seq<char>>|
            bytes == #[trigger] spec_payload_bytes(c, ts, md) ==> (wire::spec_parse_record(bytes)
                == Some((spec_payload_members(c, ts, md), bytes.len() as int)) && spec_fill_payload(
                spec_payload_members(c, ts, md),
            ) == Some(
                PayloadFields {
                    content: vstd::utf8::encode_utf8(c),
                    timestamp: ts,
                    metadata: match md {
                        Some(m) => Some(vstd::utf8::encode_utf8(m)),
                        None => None,
                    },
                },
            )),
{
    assert forall|c: Seq<char>, ts: u64, md: Option<Seq<char>>|
        bytes == #[trigger] spec_payload_bytes(c, ts, md) implies (wire::spec_parse_record(bytes)
        == Some((spec_payload_members(c, ts, md), bytes.len() as int)) && spec_fill_payload(
        spec_payload_members(c, ts, md),
    ) == Some(
        PayloadFields {
            content: vstd::utf8::encode_utf8(c),
            timestamp: ts,
            metadata: match md {
                Some(m) => Some(vstd::utf8::encode_utf8(m)),
                None => None,
            },
        },
    )) by {
        wire::lemma_record_round_trip(spec_payload_members(c, ts, md), bytes);
        lemma_fill_payload_canonical(c, ts, md);
    }
}

/// Gather the members of a payload record.
fn fill_payload(members: &Vec<(Vec<u8>, JsonValue)>) -> (r: Option<
    (Vec<u8>, u64, Option<Vec<u8>>),
>)
    ensures
        r matches Some(p) ==> (spec_fill_payload(wire::members_view(members@)) matches Some(f)
            && p.0@ == f.content && p.1 == f.timestamp && (match p.2 {
            Some(m) => f.metadata == Some(m@),
            None => f.metadata is None,
        })),
        r is None ==> spec_fill_payload(wire::members_view(members@)) is None,
{
    let kc = key_content();
    let kt = key_timestamp();
    let km = key_metadata();
    let mut content: Option<Vec<u8>> = None;
    let mut timestamp: Option<u64> = None;
    let mut metadata: Option<Option<Vec<u8>>> = None;
    let ghost all = wire::members_view(members@);
    let mut i: usize = 0;
    proof {
        assert(all.skip(0) =~= all);
    }
    while i < members.len()
        invariant
            i <= members@.len(),
            all == wire::members_view(members@),
            kc@ == spec_key_content(),
            kt@ == spec_key_timestamp(),
            km@ == spec_key_metadata(),
            spec_payload_fill_fold(spec_payload_slots_empty(), all) == spec_payload_fill_fold(
                PayloadSlots {
                    content: match &content {
                        Some(b) => Some(b@),
                        None => None,
                    },
                    timestamp: match timestamp {
                        Some(x) => Some(x),
                        None => None,
                    },
                    metadata: match &metadata {
                        Some(m) => Some(
                            match m {
                                Some(b) => Some(b@),
                                None => None,
                            },
                        ),
                        None => None,
                    },
                },
                all.skip(i as int),
            ),
        decreases members@.len() - i,
    {
        proof {
            assert(all.skip(i as int)[0] == all[i as int]);
            assert(all.skip(i as int).drop_first() =~= all.skip(i as int + 1));
        }
        let key = &members[i].0;
        let val = &members[i].1;
        if wire::bytes_eq(key.as_slice(), kc.as_slice()) {
            match val {
                JsonValue::Str(b) => {
                    if content.is_none() {
                        content = Some(b.clone());
                    } else {
                        return None;
                    }
                },
                _ => {
                    return None;
                },
            }
        } else if wire::bytes_eq(key.as_slice(), kt.as_slice()) {
            match val {
                JsonValue::Num(x) => {
                    if timestamp.is_none() {
                        timestamp = Some(*x);
                    } else {
                        return None;
                    }
                },
                _ => {
                    return None;
                },
            }
        } else if wire::bytes_eq(key.as_slice(), km.as_slice()) {
            if metadata.is_none() {
                match val {
                    JsonValue::Str(b) => {
                        metadata = Some(Some(b.clone()));
                    },
                    JsonValue::Null => {
                        metadata = Some(None);
                    },
                    _ => {
                        return None;
                    },
                }
            } else {
                return None;
            }
        } else {
        }
        i = i + 1;
    }
    proof {
        assert(all.skip(all.len() as int) =~= Seq::<(Seq<u8>, SpecJsonValue)>::empty());
    }
    let content = match content {
        Some(b) => b,
        None => {
            return None;
        },
    };
    let timestamp = match timestamp {
        Some(t) => t,
        None => {
            return None;
        },
    };
    let metadata = match metadata {
        Some(m) => m,
        None => {
            return None;
        },
    };
    Some((content, timestamp, metadata))
}

/// Parse an inner payload record: fields in any order, each exactly once,
/// strings decoded from UTF-8. The canonical serialization of any payload
/// parses back to it.
pub(crate) fn parse_payload(bytes: &[u8]) -> (r: Result<EncryptedPayload, WaterscapeError>)
    ensures
        r matches Err(e) ==> e matches WaterscapeError::Serialization(_),
        (r is Ok) == (spec_payload_content(bytes@) is Some),
        r matches Ok(p) ==> (spec_payload_content(bytes@) matches Some(c) && p.content@ == c),
        forall|c: Seq<char>, ts: u64, md: Option<Seq<char>>|
            bytes@ == #[trigger] spec_payload_bytes(c, ts, md) ==> (r matches Ok(p) && p.content@
                == c && p.timestamp == ts && opt_string_view(p.metadata) == md),
{
    broadcast use vstd::utf8::encode_utf8_valid_utf8, vstd::utf8::encode_utf8_decode_utf8;

    let parsed = match wire::parse_record(bytes) {
        Some(p) => p,
        None => {
            proof {
                lemma_parse_payload_canonical(bytes@);
            }
            return Err(WaterscapeError::Serialization("invalid payload record".to_string()));
        },
    };
    let (members, end) = parsed;
    if end != bytes.len() {
        proof {
            lemma_parse_payload_canonical(bytes@);
        }
        return Err(WaterscapeError::Serialization("trailing bytes".to_string()));
    }
    let filled = match fill_payload(&members) {
        Some(f) => f,
        None => {
            proof {
                lemma_parse_payload_canonical(bytes@);
            }
            return Err(WaterscapeError::Serialization("malformed payload fields".to_string()));
        },
    };
    let (content_raw, timestamp, metadata_raw) = filled;
    let content = match crate::text::utf8_to_string(content_raw) {
        Some(s) => s,
        None => {
            proof {
                lemma_parse_payload_canonical(bytes@);
            }
            return Err(WaterscapeError::Serialization("content is not UTF-8".to_string()));
        },
    };
    let metadata = match metadata_raw {
        Some(mb) => match crate::text::utf8_to_string(mb) {
            Some(s) => Some(s),
            None => {
                proof {
                    lemma_parse_payload_canonical(bytes@);
                }
                return Err(
                    WaterscapeError::Serialization("metadata is not UTF-8".to_string()),
                );
            },
        },
        None => None,
    };
    proof {
        lemma_parse_payload_canonical(bytes@);
    }
    Ok(EncryptedPayload { content, timestamp, metadata })
}

} // verus!
