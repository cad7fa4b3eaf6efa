//! Canonical deployment-config fingerprint.
//!
//! A trace may be replayed only against the deployment that it was captured under. The
//! fingerprint is a hash of the deployment inputs that change replay behaviour, so capture
//! and replay derive the same value from the same inputs and a mismatch is always a real
//! difference of configuration.
//!
//! The canonical form carries a scheme tag. When the set of inputs changes the tag changes
//! with it, so that hashes of the older form deliberately stop matching.
use crate::text::{hex, hex_of, hex_tells_bytes_apart};
use sha2::{Digest, Sha256};
use vstd::prelude::*;
use vstd::string::*;
use vstd::utf8::encode_utf8;

verus! {

/// Scheme tag of the canonical form: hardware, version, deployed behavioural flags.
pub const SCHEME: &'static str = "config-fingerprint-v3";

/// The deployment inputs that determine whether a captured trace is valid to replay.
#[derive(Debug, Clone, PartialEq, Eq)]
pub struct ConfigFingerprint {
    /// GPU type, e.g. `"H200"`.
    pub gpu: String,
    /// vLLM tag that the engine spoke, e.g. `"v0.23.0"`; it pins every engine default.
    pub vllm_tag: String,
    /// Canonical, order-stable text of the behavioural engine flags of the deployment.
    pub engine_config: String,
}

/// The SHA-256 digest of a message.
pub uninterp spec fn sha256_digest(message: Seq<u8>) -> Seq<u8>;

/// Calls `sha2::Sha256::digest`, which hashes the whole message at once and gives the
/// thirty-two bytes of its SHA-256 digest.
#[verifier::external_body]
pub(crate) fn sha256(message: &[u8]) -> (digest: Vec<u8>)
    ensures
        digest@ == sha256_digest(message@),
        digest@.len() == 32,
{
    Sha256::digest(message).to_vec()
}

/// The text that gets hashed: the scheme tag, then one labelled line per field.
pub open spec fn canonical_text(
    gpu: Seq<char>,
    vllm_tag: Seq<char>,
    engine_config: Seq<char>,
) -> Seq<char> {
    SCHEME@ + "\ngpu="@ + gpu + "\nvllm_tag="@ + vllm_tag + "\nengine_config="@ + engine_config
        + "\n"@
}

impl ConfigFingerprint {
    /// The canonical form of this fingerprint's fields.
    pub open spec fn canonical_form(self) -> Seq<char> {
        canonical_text(self.gpu@, self.vllm_tag@, self.engine_config@)
    }

    /// The hash of this fingerprint's canonical form.
    pub open spec fn digest_text(self) -> Seq<char> {
        hex_of(sha256_digest(encode_utf8(self.canonical_form())))
    }

    /// The exact, order-fixed text that gets hashed.
    pub fn canonical(&self) -> (text: String)
        ensures
            text@ == self.canonical_form(),
    {
        let mut text = SCHEME.to_owned();
        text.append("\ngpu=");
        text.append(self.gpu.as_str());
        text.append("\nvllm_tag=");
        text.append(self.vllm_tag.as_str());
        text.append("\nengine_config=");
        text.append(self.engine_config.as_str());
        text.append("\n");
        text
    }

    /// Lowercase-hex SHA-256 of the canonical form: the value stamped into a trace at
    /// capture and compared at replay.
    pub fn hash(&self) -> (digest: String)
        ensures
            digest@ == self.digest_text(),
            digest@ == hex_of(
                sha256_digest(
                    encode_utf8(canonical_text(self.gpu@, self.vllm_tag@, self.engine_config@)),
                ),
            ),
            digest@.len() == 64,
            forall|i: int|
                0 <= i < 64 ==> ('0' <= #[trigger] digest@[i] <= '9' || 'a' <= digest@[i] <= 'f'),
    {
        let canonical = self.canonical();
        let digest = sha256(canonical.as_str().as_bytes());
        hex(&digest)
    }
}

/// A mismatch of hashes is a real difference of configuration: fingerprints with equal
/// fields have equal hashes.
pub proof fn hash_mismatch_is_a_config_difference(a: ConfigFingerprint, b: ConfigFingerprint)
    requires
        a.digest_text() != b.digest_text(),
    ensures
        a.gpu@ != b.gpu@ || a.vllm_tag@ != b.vllm_tag@ || a.engine_config@ != b.engine_config@,
{
}

/// The canonical form spells every field out whole, each on a line of its own under its label,
/// below the scheme tag.
pub proof fn canonical_form_spells_every_field(fingerprint: ConfigFingerprint)
    ensures
        ({
            let form = fingerprint.canonical_form();
            let gpu_at = "config-fingerprint-v3\ngpu="@.len() as int;
            let tag_at = gpu_at + fingerprint.gpu@.len() + "\nvllm_tag="@.len();
            let config_at = tag_at + fingerprint.vllm_tag@.len() + "\nengine_config="@.len();
            let end = config_at + fingerprint.engine_config@.len();
            &&& form.len() == end + 1
            &&& form.subrange(0, gpu_at) == "config-fingerprint-v3\ngpu="@
            &&& form.subrange(gpu_at, gpu_at + fingerprint.gpu@.len()) == fingerprint.gpu@
            &&& form.subrange(gpu_at + fingerprint.gpu@.len(), tag_at) == "\nvllm_tag="@
            &&& form.subrange(tag_at, tag_at + fingerprint.vllm_tag@.len())
                == fingerprint.vllm_tag@
            &&& form.subrange(tag_at + fingerprint.vllm_tag@.len(), config_at)
                == "\nengine_config="@
            &&& form.subrange(config_at, end) == fingerprint.engine_config@
            &&& form[end] == '\n'
        }),
{
    reveal_strlit("config-fingerprint-v3");
    reveal_strlit("\ngpu=");
    reveal_strlit("config-fingerprint-v3\ngpu=");
    reveal_strlit("\n");
    assert("config-fingerprint-v3\ngpu="@ =~= SCHEME@ + "\ngpu="@);
    let form = fingerprint.canonical_form();
    let gpu_at = "config-fingerprint-v3\ngpu="@.len() as int;
    let tag_at = gpu_at + fingerprint.gpu@.len() + "\nvllm_tag="@.len();
    let config_at = tag_at + fingerprint.vllm_tag@.len() + "\nengine_config="@.len();
    let end = config_at + fingerprint.engine_config@.len();
    assert(form.subrange(0, gpu_at) =~= "config-fingerprint-v3\ngpu="@);
    assert(form.subrange(gpu_at, gpu_at + fingerprint.gpu@.len()) =~= fingerprint.gpu@);
    assert(form.subrange(gpu_at + fingerprint.gpu@.len(), tag_at) =~= "\nvllm_tag="@);
    assert(form.subrange(tag_at, tag_at + fingerprint.vllm_tag@.len())
        =~= fingerprint.vllm_tag@);
    assert(form.subrange(tag_at + fingerprint.vllm_tag@.len(), config_at)
        =~= "\nengine_config="@);
    assert(form.subrange(config_at, end) =~= fingerprint.engine_config@);
}

/// The hash covers the whole canonical form: two fingerprints with one hash have one canonical
/// form, as long as SHA-256 does not collide on the two.
pub proof fn equal_hashes_come_from_equal_forms(a: ConfigFingerprint, b: ConfigFingerprint)
    requires
        a.digest_text() == b.digest_text(),
        ({
            let text_a = canonical_text(a.gpu@, a.vllm_tag@, a.engine_config@);
            let text_b = canonical_text(b.gpu@, b.vllm_tag@, b.engine_config@);
            sha256_digest(encode_utf8(text_a)) == sha256_digest(encode_utf8(text_b)) ==> text_a
                == text_b
        }),
    ensures
        canonical_text(a.gpu@, a.vllm_tag@, a.engine_config@) == canonical_text(
            b.gpu@,
            b.vllm_tag@,
            b.engine_config@,
        ),
{
    let text_a = canonical_text(a.gpu@, a.vllm_tag@, a.engine_config@);
    let text_b = canonical_text(b.gpu@, b.vllm_tag@, b.engine_config@);
    hex_tells_bytes_apart(
        sha256_digest(encode_utf8(text_a)),
        sha256_digest(encode_utf8(text_b)),
    );
}

/// Whether `label` occurs in `text`.
pub open spec fn occurs(label: Seq<char>, text: Seq<char>) -> bool {
    exists|at: int|
        0 <= at <= text.len() - label.len() && #[trigger] text.subrange(at, at + label.len())
            == label
}

/// Splitting at a label that starts with a line feed and has no other is unambiguous where
/// neither left part holds the label.
proof fn lemma_split_at_label(
    left1: Seq<char>,
    right1: Seq<char>,
    left2: Seq<char>,
    right2: Seq<char>,
    label: Seq<char>,
)
    requires
        left1 + label + right1 == left2 + label + right2,
        left1.len() <= left2.len(),
        label.len() > 0,
        label[0] == '\n',
        forall|i: int| 0 < i < label.len() ==> label[i] != '\n',
        !occurs(label, left2),
    ensures
        left1 == left2,
        right1 == right2,
{
    let whole1 = left1 + label + right1;
    let whole2 = left2 + label + right2;
    let n1 = left1.len() as int;
    let n2 = left2.len() as int;
    let k = label.len() as int;
    if n1 < n2 {
        if n1 + k <= n2 {
            assert forall|i: int| 0 <= i < k implies left2.subrange(n1, n1 + k)[i] == label[i] by {
                assert(left2[n1 + i] == whole2[n1 + i]);
                assert(whole1[n1 + i] == label[i]);
            }
            assert(left2.subrange(n1, n1 + label.len()) == label);
            assert(false);
        } else {
            assert(whole2[n2] == label[0]);
            assert(whole1[n2] == label[n2 - n1]);
            assert(false);
        }
    }
    assert forall|i: int| 0 <= i < n1 implies left1[i] == left2[i] by {
        assert(whole1[i] == left1[i]);
        assert(whole2[i] == left2[i]);
    }
    assert(left1 == left2);
    assert(whole1.len() == n1 + k + right1.len());
    assert(whole2.len() == n2 + k + right2.len());
    assert forall|i: int| 0 <= i < right1.len() implies right1[i] == right2[i] by {
        assert(whole1[n1 + k + i] == right1[i]);
        assert(whole2[n1 + k + i] == right2[i]);
    }
    assert(right1 == right2);
}

/// The labels keep field values from merging: fingerprints with one canonical form have
/// equal fields, unless a field before a label spells that label out itself.
pub proof fn canonical_form_is_injective(a: ConfigFingerprint, b: ConfigFingerprint)
    requires
        a.canonical_form() == b.canonical_form(),
        !occurs("\nvllm_tag="@, a.gpu@),
        !occurs("\nvllm_tag="@, b.gpu@),
        !occurs("\nengine_config="@, a.vllm_tag@),
        !occurs("\nengine_config="@, b.vllm_tag@),
    ensures
        a.gpu@ == b.gpu@,
        a.vllm_tag@ == b.vllm_tag@,
        a.engine_config@ == b.engine_config@,
{
    reveal_strlit("\nvllm_tag=");
    reveal_strlit("\nengine_config=");
    let tag = "\nvllm_tag="@;
    let config = "\nengine_config="@;
    let end = "\n"@;
    let head = SCHEME@ + "\ngpu="@;
    let rest_a = a.vllm_tag@ + config + (a.engine_config@ + end);
    let rest_b = b.vllm_tag@ + config + (b.engine_config@ + end);
    assert(a.canonical_form() == head + (a.gpu@ + tag + rest_a));
    assert(b.canonical_form() == head + (b.gpu@ + tag + rest_b));
    lemma_same_tail(head, a.gpu@ + tag + rest_a, b.gpu@ + tag + rest_b);
    if a.gpu@.len() <= b.gpu@.len() {
        lemma_split_at_label(a.gpu@, rest_a, b.gpu@, rest_b, tag);
    } else {
        lemma_split_at_label(b.gpu@, rest_b, a.gpu@, rest_a, tag);
    }
    let tail_a = a.engine_config@ + end;
    let tail_b = b.engine_config@ + end;
    if a.vllm_tag@.len() <= b.vllm_tag@.len() {
        lemma_split_at_label(a.vllm_tag@, tail_a, b.vllm_tag@, tail_b, config);
    } else {
        lemma_split_at_label(b.vllm_tag@, tail_b, a.vllm_tag@, tail_a, config);
    }
    lemma_same_head(a.engine_config@, b.engine_config@, end);
}

/// A trace is replayed against the configuration that it was captured under only: fingerprints
/// that differ in any field have different hashes, as long as SHA-256 does not collide on their
/// canonical forms and no field before a label spells that label out itself.
pub proof fn every_field_counts_in_the_hash(a: ConfigFingerprint, b: ConfigFingerprint)
    requires
        a.gpu@ != b.gpu@ || a.vllm_tag@ != b.vllm_tag@ || a.engine_config@ != b.engine_config@,
        !occurs("\nvllm_tag="@, a.gpu@),
        !occurs("\nvllm_tag="@, b.gpu@),
        !occurs("\nengine_config="@, a.vllm_tag@),
        !occurs("\nengine_config="@, b.vllm_tag@),
        ({
            let text_a = canonical_text(a.gpu@, a.vllm_tag@, a.engine_config@);
            let text_b = canonical_text(b.gpu@, b.vllm_tag@, b.engine_config@);
            sha256_digest(encode_utf8(text_a)) == sha256_digest(encode_utf8(text_b)) ==> text_a
                == text_b
        }),
    ensures
        a.digest_text() != b.digest_text(),
{
    if a.digest_text() == b.digest_text() {
        equal_hashes_come_from_equal_forms(a, b);
        canonical_form_is_injective(a, b);
    }
}

proof fn lemma_same_tail(head: Seq<char>, a: Seq<char>, b: Seq<char>)
    requires
        head + a == head + b,
    ensures
        a == b,
{
    assert((head + a).skip(head.len() as int) == a);
    assert((head + b).skip(head.len() as int) == b);
}

proof fn lemma_same_head(a: Seq<char>, b: Seq<char>, tail: Seq<char>)
    requires
        a + tail == b + tail,
    ensures
        a == b,
{
    assert((a + tail).len() == a.len() + tail.len());
    assert((b + tail).len() == b.len() + tail.len());
    assert((a + tail).take(a.len() as int) == a);
    assert((b + tail).take(b.len() as int) == b);
}

} // verus!
